//! Mod descriptors and their extraction from a descriptor document.

use crate::document::{attr_spec, child_named_spec, child_with_id_spec, XmlElement};
use crate::error::ArchiveError;
use crate::text::str_starts_with;
use vstd::prelude::*;

verus! {

/// A descriptor with its fields as character sequences.
pub struct DescriptorModel {
    pub folder: Seq<char>,
    pub md5: Seq<char>,
    pub name: Seq<char>,
    pub publish_handle: Option<Seq<char>>,
    pub uuid: Seq<char>,
    pub version64: Seq<char>,
}

/// The identity of a mod. Two descriptors with one UUID stand for the same mod.
#[derive(Debug, Clone)]
pub struct ModuleDescription {
    pub folder: String,
    pub md5: String,
    pub name: String,
    pub publish_handle: Option<String>,
    pub uuid: String,
    pub version64: String,
}

impl View for ModuleDescription {
    type V = DescriptorModel;

    open spec fn view(&self) -> DescriptorModel {
        DescriptorModel {
            folder: self.folder@,
            md5: self.md5@,
            name: self.name@,
            publish_handle: match self.publish_handle {
                Some(p) => Some(p@),
                None => None,
            },
            uuid: self.uuid@,
            version64: self.version64@,
        }
    }
}

/// A mod's descriptor and the descriptors of the mods it depends on.
#[derive(Debug)]
pub struct Module {
    pub description: ModuleDescription,
    pub dependencies: Vec<ModuleDescription>,
}

/// A module with its descriptors as models.
pub struct ModuleModel {
    pub description: DescriptorModel,
    pub dependencies: Seq<DescriptorModel>,
}

impl View for Module {
    type V = ModuleModel;

    open spec fn view(&self) -> ModuleModel {
        ModuleModel {
            description: self.description@,
            dependencies: self.dependencies@.map_values(|d: ModuleDescription| d@),
        }
    }
}

/// The `value` of the child of `e` whose `id` is `id`.
pub open spec fn property_spec(e: XmlElement, id: Seq<char>) -> Option<Seq<char>> {
    match child_with_id_spec(e, id) {
        Some(c) => attr_spec(c, "value"@),
        None => None,
    }
}

/// The descriptor that the element `e` describes, or `None` where a required
/// property is missing.
pub open spec fn descriptor_of(e: XmlElement) -> Option<DescriptorModel> {
    let folder = property_spec(e, "Folder"@);
    let md5 = property_spec(e, "MD5"@);
    let name = property_spec(e, "Name"@);
    let uuid = property_spec(e, "UUID"@);
    let version64 = property_spec(e, "Version64"@);
    if folder is Some && md5 is Some && name is Some && uuid is Some && version64 is Some {
        Some(
            DescriptorModel {
                folder: folder->0,
                md5: md5->0,
                name: name->0,
                publish_handle: property_spec(e, "PublishHandle"@),
                uuid: uuid->0,
                version64: version64->0,
            },
        )
    } else {
        None
    }
}

/// Whether `d` names the base game, which every mod depends on implicitly.
pub open spec fn is_base_spec(d: DescriptorModel) -> bool {
    "Gustav"@.is_prefix_of(d.name)
}

/// The descriptors of the first `n` dependency elements of `cs`, base-game ones left
/// out, or `None` where one of them is malformed.
pub open spec fn dependencies_upto(cs: Seq<XmlElement>, n: int) -> Option<Seq<DescriptorModel>>
    decreases n,
{
    if n <= 0 {
        Some(Seq::empty())
    } else {
        match (dependencies_upto(cs, n - 1), descriptor_of(cs[n - 1])) {
            (Some(ds), Some(d)) => Some(
                if is_base_spec(d) {
                    ds
                } else {
                    ds.push(d)
                },
            ),
            _ => None,
        }
    }
}

/// The element listing a descriptor document's nodes: root, `region`, `node`, `children`.
pub open spec fn node_list_spec(root: XmlElement) -> Option<XmlElement> {
    match child_named_spec(root, "region"@) {
        Some(region) => match child_named_spec(region, "node"@) {
            Some(node) => child_named_spec(node, "children"@),
            None => None,
        },
        None => None,
    }
}

/// The module that a descriptor document describes, or `None` where it is malformed.
pub open spec fn module_of(root: XmlElement) -> Option<ModuleModel> {
    match node_list_spec(root) {
        Some(list) => match child_with_id_spec(list, "ModuleInfo"@) {
            Some(info) => match child_with_id_spec(list, "Dependencies"@) {
                Some(deps) => match descriptor_of(info) {
                    Some(d) => module_with_dependencies(d, deps),
                    None => None,
                },
                None => None,
            },
            None => None,
        },
        None => None,
    }
}

/// The module described by `d`, with the dependencies that the element `deps` lists.
pub open spec fn module_with_dependencies(d: DescriptorModel, deps: XmlElement) -> Option<
    ModuleModel,
> {
    match child_named_spec(deps, "children"@) {
        Some(dc) => match dependencies_upto(dc.children@, dc.children@.len() as int) {
            Some(ds) => Some(ModuleModel { description: d, dependencies: ds }),
            None => None,
        },
        None => Some(ModuleModel { description: d, dependencies: Seq::empty() }),
    }
}

impl ModuleDescription {
    /// A copy with the same fields.
    pub fn duplicate(&self) -> (r: ModuleDescription)
        ensures
            r@ == self@,
    {
        ModuleDescription {
            folder: self.folder.clone(),
            md5: self.md5.clone(),
            name: self.name.clone(),
            publish_handle: match &self.publish_handle {
                Some(p) => Some(p.clone()),
                None => None,
            },
            uuid: self.uuid.clone(),
            version64: self.version64.clone(),
        }
    }

    /// Whether this descriptor names the base game.
    pub fn is_base(&self) -> (r: bool)
        ensures
            r == is_base_spec(self@),
    {
        str_starts_with(self.name.as_str(), "Gustav")
    }

    /// The `value` of the child of `e` whose `id` is `name`.
    pub fn get_attr(e: &XmlElement, name: &str) -> (r: Option<String>)
        ensures
            r is Some <==> property_spec(*e, name@) is Some,
            r is Some ==> r->0@ == property_spec(*e, name@)->0,
    {
        match e.child_with_id(name) {
            Some(c) => c.attr("value"),
            None => None,
        }
    }

    /// Reads a descriptor from its element; fails where a required property is missing.
    pub fn parse(e: &XmlElement) -> (r: Result<ModuleDescription, ArchiveError>)
        ensures
            r is Ok <==> descriptor_of(*e) is Some,
            r is Err ==> r->Err_0 is MalformedDescriptor,
            r is Ok ==> r->Ok_0@ == descriptor_of(*e)->0,
    {
        let folder = Self::get_attr(e, "Folder");
        let md5 = Self::get_attr(e, "MD5");
        let name = Self::get_attr(e, "Name");
        let publish_handle = Self::get_attr(e, "PublishHandle");
        let uuid = Self::get_attr(e, "UUID");
        let version64 = Self::get_attr(e, "Version64");
        match (folder, md5, name, uuid, version64) {
            (Some(folder), Some(md5), Some(name), Some(uuid), Some(version64)) => {
                Ok(ModuleDescription { folder, md5, name, publish_handle, uuid, version64 })
            },
            _ => Err(ArchiveError::MalformedDescriptor),
        }
    }
}

/// Reads the module that a parsed descriptor document describes.
pub fn module_from_document(root: &XmlElement) -> (r: Result<Module, ArchiveError>)
    ensures
        r is Ok <==> module_of(*root) is Some,
        r is Err ==> r->Err_0 is MalformedDescriptor,
        r is Ok ==> r->Ok_0@ == module_of(*root)->0,
{
    let region = match root.child_named("region") {
        Some(x) => x,
        None => {
            return Err(ArchiveError::MalformedDescriptor);
        },
    };
    let node = match region.child_named("node") {
        Some(x) => x,
        None => {
            return Err(ArchiveError::MalformedDescriptor);
        },
    };
    let list = match node.child_named("children") {
        Some(x) => x,
        None => {
            return Err(ArchiveError::MalformedDescriptor);
        },
    };
    let info = match list.child_with_id("ModuleInfo") {
        Some(x) => x,
        None => {
            return Err(ArchiveError::MalformedDescriptor);
        },
    };
    let deps = match list.child_with_id("Dependencies") {
        Some(x) => x,
        None => {
            return Err(ArchiveError::MalformedDescriptor);
        },
    };
    let description = match ModuleDescription::parse(info) {
        Ok(d) => d,
        Err(e) => {
            return Err(e);
        },
    };
    let mut dependencies: Vec<ModuleDescription> = Vec::new();
    match deps.child_named("children") {
        Some(dc) => {
            assert(module_of(*root) == module_with_dependencies(description@, *deps));
            let mut i: usize = 0;
            while i < dc.children.len()
                invariant
                    i <= dc.children@.len(),
                    child_named_spec(*deps, "children"@) == Some(*dc),
                    module_of(*root) == module_with_dependencies(description@, *deps),
                    dependencies_upto(dc.children@, i as int) is Some,
                    dependencies@.map_values(|d: ModuleDescription| d@) == dependencies_upto(
                        dc.children@,
                        i as int,
                    )->0,
                decreases dc.children@.len() - i,
            {
                let d = match ModuleDescription::parse(&dc.children[i]) {
                    Ok(d) => d,
                    Err(e) => {
                        proof {
                            assert(dependencies_upto(dc.children@, i + 1) is None);
                            lemma_dependencies_none(dc.children@, i + 1, dc.children@.len() as int);
                            assert(module_with_dependencies(description@, *deps) is None);
                        }
                        return Err(e);
                    },
                };
                let ghost before = dependencies@;
                if !d.is_base() {
                    dependencies.push(d);
                }
                i = i + 1;
                proof {
                    assert(dependencies@.map_values(|d: ModuleDescription| d@) =~= dependencies_upto(
                        dc.children@,
                        i as int,
                    )->0);
                }
            }
        },
        None => {
            proof {
                assert(dependencies@.map_values(|d: ModuleDescription| d@) =~= Seq::<
                    DescriptorModel,
                >::empty());
            }
        },
    }
    Ok(Module { description, dependencies })
}

proof fn lemma_dependencies_none(cs: Seq<XmlElement>, m: int, n: int)
    requires
        0 < m <= n,
        dependencies_upto(cs, m) is None,
    ensures
        dependencies_upto(cs, n) is None,
    decreases n - m,
{
    if m < n {
        lemma_dependencies_none(cs, m, n - 1);
    }
}

} // verus!
