//! Rendering the load order into the mod list of a configuration document.

use crate::descriptor::{DescriptorModel, ModuleDescription};
use crate::document::{Attribute, XmlElement};
use crate::text::str_eq;
use vstd::prelude::*;

verus! {

/// The publish handle as written out: `0` where the descriptor has none.
pub open spec fn publish_handle_text(d: DescriptorModel) -> Seq<char> {
    match d.publish_handle {
        Some(p) => p,
        None => "0"@,
    }
}

/// Whether `c` is an `attribute` element with exactly the attributes `id`, `type` and
/// `value`, in that order, and no children.
pub open spec fn is_attribute_element(
    c: XmlElement,
    id: Seq<char>,
    ty: Seq<char>,
    value: Seq<char>,
) -> bool {
    &&& c.name@ == "attribute"@
    &&& c.attrs@.len() == 3
    &&& c.attrs@[0].key@ == "id"@ && c.attrs@[0].value@ == id
    &&& c.attrs@[1].key@ == "type"@ && c.attrs@[1].value@ == ty
    &&& c.attrs@[2].key@ == "value"@ && c.attrs@[2].value@ == value
    &&& c.children@.len() == 0
}

/// Whether `e` is the mod-list entry of the descriptor `d`: a `node` with id
/// `ModuleShortDesc` holding the six typed fields.
pub open spec fn renders(e: XmlElement, d: DescriptorModel) -> bool {
    &&& e.name@ == "node"@
    &&& e.attrs@.len() == 1
    &&& e.attrs@[0].key@ == "id"@ && e.attrs@[0].value@ == "ModuleShortDesc"@
    &&& e.children@.len() == 6
    &&& is_attribute_element(e.children@[0], "Folder"@, "LSString"@, d.folder)
    &&& is_attribute_element(e.children@[1], "MD5"@, "LSString"@, d.md5)
    &&& is_attribute_element(e.children@[2], "Name"@, "LSString"@, d.name)
    &&& is_attribute_element(
        e.children@[3],
        "PublishHandle"@,
        "uint64"@,
        publish_handle_text(d),
    )
    &&& is_attribute_element(e.children@[4], "UUID"@, "guid"@, d.uuid)
    &&& is_attribute_element(e.children@[5], "Version64"@, "int64"@, d.version64)
}

/// Holds of the children that a mod list keeps when it is rebuilt.
pub open spec fn is_kept() -> spec_fn(XmlElement) -> bool {
    |c: XmlElement| c.name@ != "node"@
}

fn attribute(key: &str, value: String) -> (r: Attribute)
    ensures
        r.key@ == key@,
        r.value@ == value@,
{
    Attribute { key: key.to_owned(), value }
}

/// A typed `attribute` element.
pub fn attribute_element(id: &str, ty: &str, value: String) -> (r: XmlElement)
    ensures
        is_attribute_element(r, id@, ty@, value@),
{
    let mut attrs: Vec<Attribute> = Vec::new();
    attrs.push(attribute("id", id.to_owned()));
    attrs.push(attribute("type", ty.to_owned()));
    attrs.push(attribute("value", value));
    XmlElement { name: "attribute".to_owned(), attrs, children: Vec::new() }
}

impl ModuleDescription {
    /// The mod-list entry of this descriptor.
    pub fn as_xml(&self) -> (r: XmlElement)
        ensures
            renders(r, self@),
    {
        let handle = match &self.publish_handle {
            Some(p) => p.clone(),
            None => "0".to_owned(),
        };
        let mut children: Vec<XmlElement> = Vec::new();
        children.push(attribute_element("Folder", "LSString", self.folder.clone()));
        children.push(attribute_element("MD5", "LSString", self.md5.clone()));
        children.push(attribute_element("Name", "LSString", self.name.clone()));
        children.push(attribute_element("PublishHandle", "uint64", handle));
        children.push(attribute_element("UUID", "guid", self.uuid.clone()));
        children.push(attribute_element("Version64", "int64", self.version64.clone()));
        let mut attrs: Vec<Attribute> = Vec::new();
        attrs.push(attribute("id", "ModuleShortDesc".to_owned()));
        XmlElement { name: "node".to_owned(), attrs, children }
    }
}

/// Replaces the mod entries of the mod list `target`: every `node` child goes, the
/// other children stay in their order, and one rendered entry per descriptor of
/// `order` follows them, in that order.
pub fn apply(target: &mut XmlElement, order: &Vec<ModuleDescription>)
    ensures
        final(target).name == old(target).name,
        final(target).attrs == old(target).attrs,
        ({
            let kept = old(target).children@.filter(is_kept());
            &&& final(target).children@.len() == kept.len() + order@.len()
            &&& final(target).children@.take(kept.len() as int) == kept
            &&& forall|i: int|
                0 <= i < order@.len() ==> renders(
                    #[trigger] final(target).children@[kept.len() + i],
                    order@[i]@,
                )
        }),
{
    let ghost old_children = target.children@;
    let ghost p = is_kept();
    let ghost mut j: int = 0;
    let mut i: usize = 0;
    while i < target.children.len()
        invariant
            p == is_kept(),
            0 <= j <= old_children.len(),
            i <= target.children@.len(),
            target.name == old(target).name,
            target.attrs == old(target).attrs,
            old_children == old(target).children@,
            target.children@.take(i as int) == old_children.take(j).filter(p),
            target.children@.skip(i as int) == old_children.skip(j),
        decreases target.children@.len() - i,
    {
        let ghost before = target.children@;
        proof {
            assert(before.skip(i as int).len() == old_children.skip(j).len());
            assert(j < old_children.len());
            assert(before[i as int] == old_children[j]) by {
                assert(before.skip(i as int)[0] == old_children.skip(j)[0]);
            }
            reveal(Seq::filter);
            assert(old_children.take(j + 1).drop_last() =~= old_children.take(j));
            assert(old_children.take(j + 1).last() == old_children[j]);
        }
        if str_eq(target.children[i].name.as_str(), "node") {
            target.children.remove(i);
            proof {
                assert(target.children@.take(i as int) =~= before.take(i as int));
                assert forall|t: int| 0 <= t < target.children@.len() - i implies #[trigger] target.children@.skip(
                    i as int,
                )[t] == old_children.skip(j + 1)[t] by {
                    assert(before.skip(i as int)[t + 1] == old_children.skip(j)[t + 1]);
                }
                assert(target.children@.skip(i as int) =~= old_children.skip(j + 1));
                j = j + 1;
            }
        } else {
            i = i + 1;
            proof {
                assert(target.children@.take(i as int) =~= before.take(i - 1).push(before[i - 1]));
                assert forall|t: int| 0 <= t < target.children@.len() - i implies #[trigger] target.children@.skip(
                    i as int,
                )[t] == old_children.skip(j + 1)[t] by {
                    assert(before.skip(i - 1)[t + 1] == old_children.skip(j)[t + 1]);
                }
                assert(target.children@.skip(i as int) =~= old_children.skip(j + 1));
                j = j + 1;
            }
        }
    }
    proof {
        assert(old_children.skip(j).len() == 0);
        assert(old_children.take(j) =~= old_children);
        assert(target.children@.take(i as int) =~= target.children@);
    }
    let ghost kept = target.children@;
    let mut k: usize = 0;
    while k < order.len()
        invariant
            target.name == old(target).name,
            target.attrs == old(target).attrs,
            kept == old(target).children@.filter(is_kept()),
            k <= order@.len(),
            target.children@.len() == kept.len() + k,
            target.children@.take(kept.len() as int) == kept,
            forall|x: int| 0 <= x < k ==> renders(#[trigger] target.children@[kept.len() + x], order@[x]@),
        decreases order@.len() - k,
    {
        let ghost before = target.children@;
        target.children.push(order[k].as_xml());
        proof {
            assert(target.children@.take(kept.len() as int) =~= before.take(kept.len() as int));
            assert forall|x: int| 0 <= x < k + 1 implies renders(
                #[trigger] target.children@[kept.len() + x],
                order@[x]@,
            ) by {
                if x < k {
                    assert(target.children@[kept.len() + x] == before[kept.len() + x]);
                }
            }
        }
        k = k + 1;
    }
}

} // verus!
