//! The mod list of a configuration document and the graph built from discovered mods.

use crate::descriptor::{is_base_spec, property_spec, Module, ModuleDescription};
use crate::document::{child_named_spec, child_with_id_spec, first_index, lemma_first_index, XmlElement};
use crate::graph::DependencyGraph;
use vstd::prelude::*;

verus! {

/// Why a configuration document cannot take a load order.
#[derive(Debug)]
pub enum ConfigError {
    /// The document has no `region`/`node`/`children`/`Mods`/`children` path.
    MissingModList,
    /// No entry of the mod list names the base game.
    MissingBaseModule,
    /// The base game's entry lacks a required property.
    MalformedDescriptor,
}

/// Holds of a mod-list entry whose `Name` starts with the base game's prefix.
pub open spec fn names_base() -> spec_fn(XmlElement) -> bool {
    |c: XmlElement|
        property_spec(c, "Name"@) is Some && "Gustav"@.is_prefix_of(property_spec(c, "Name"@)->0)
}

/// The child indices that lead from a document's root to its mod list:
/// `region`, `node`, `children`, the child with id `Mods`, and its `children`.
pub fn mod_list_path(root: &XmlElement) -> (r: Option<Vec<usize>>)
    ensures
        r is Some ==> ({
            let p = r->0@;
            &&& p.len() == 5
            &&& p[0] < root.children@.len() && Some(root.children@[p[0] as int])
                == child_named_spec(*root, "region"@)
            &&& {
                let region = root.children@[p[0] as int];
                &&& p[1] < region.children@.len() && Some(region.children@[p[1] as int])
                    == child_named_spec(region, "node"@)
                &&& {
                    let node = region.children@[p[1] as int];
                    &&& p[2] < node.children@.len() && Some(node.children@[p[2] as int])
                        == child_named_spec(node, "children"@)
                    &&& {
                        let list = node.children@[p[2] as int];
                        &&& p[3] < list.children@.len() && Some(list.children@[p[3] as int])
                            == child_with_id_spec(list, "Mods"@)
                        &&& {
                            let mods = list.children@[p[3] as int];
                            p[4] < mods.children@.len() && Some(mods.children@[p[4] as int])
                                == child_named_spec(mods, "children"@)
                        }
                    }
                }
            }
        }),
        r is None <==> ({
            let region = child_named_spec(*root, "region"@);
            let node = if region is Some { child_named_spec(region->0, "node"@) } else { None };
            let list = if node is Some { child_named_spec(node->0, "children"@) } else { None };
            let mods = if list is Some { child_with_id_spec(list->0, "Mods"@) } else { None };
            let target = if mods is Some { child_named_spec(mods->0, "children"@) } else { None };
            target is None
        }),
{
    let a = match root.child_named_index("region") {
        Some(x) => x,
        None => {
            return None;
        },
    };
    let region = &root.children[a];
    let b = match region.child_named_index("node") {
        Some(x) => x,
        None => {
            return None;
        },
    };
    let node = &region.children[b];
    let c = match node.child_named_index("children") {
        Some(x) => x,
        None => {
            return None;
        },
    };
    let list = &node.children[c];
    let d = match list.child_with_id_index("Mods") {
        Some(x) => x,
        None => {
            return None;
        },
    };
    let mods = &list.children[d];
    let e = match mods.child_named_index("children") {
        Some(x) => x,
        None => {
            return None;
        },
    };
    let mut path: Vec<usize> = Vec::new();
    path.push(a);
    path.push(b);
    path.push(c);
    path.push(d);
    path.push(e);
    Some(path)
}

/// The descriptor of the base game: the first entry of the mod list whose `Name`
/// starts with the base game's prefix.
pub fn find_base(list: &XmlElement) -> (r: Result<ModuleDescription, ConfigError>)
    ensures
        ({
            let k = first_index(list.children@, names_base(), 0);
            &&& k >= list.children@.len() <==> r is Err && r->Err_0 is MissingBaseModule
            &&& r is Err ==> r->Err_0 is MissingBaseModule || r->Err_0 is MalformedDescriptor
            &&& r is Ok ==> k < list.children@.len() && crate::descriptor::descriptor_of(
                list.children@[k],
            ) == Some(r->Ok_0@) && is_base_spec(r->Ok_0@)
            &&& k < list.children@.len() && crate::descriptor::descriptor_of(list.children@[k])
                is Some ==> r is Ok
        }),
{
    let ghost p = names_base();
    proof {
        lemma_first_index(list.children@, p, 0);
    }
    let mut i: usize = 0;
    while i < list.children.len()
        invariant
            i <= list.children@.len(),
            p == names_base(),
            first_index(list.children@, p, 0) == first_index(list.children@, p, i as int),
        decreases list.children@.len() - i,
    {
        let found = match ModuleDescription::get_attr(&list.children[i], "Name") {
            Some(name) => crate::text::str_starts_with(name.as_str(), "Gustav"),
            None => false,
        };
        if found {
            proof {
                assert(p(list.children@[i as int]));
            }
            return match ModuleDescription::parse(&list.children[i]) {
                Ok(d) => Ok(d),
                Err(_) => Err(ConfigError::MalformedDescriptor),
            };
        }
        proof {
            assert(!p(list.children@[i as int]));
        }
        i = i + 1;
    }
    Err(ConfigError::MissingBaseModule)
}

/// The dependency graph of the modules, the base game first.
pub fn build_graph(base: &ModuleDescription, modules: &Vec<Module>) -> (r: DependencyGraph)
    ensures
        r.wf(),
        r.nodes@[0]@ == base@,
        forall|i: int| 0 <= i < modules@.len() ==> r.has_uuid((#[trigger] modules@[i]).description.uuid@),
{
    let mut g = DependencyGraph::new(base);
    let mut i: usize = 0;
    while i < modules.len()
        invariant
            g.wf(),
            g.nodes@[0]@ == base@,
            i <= modules@.len(),
            forall|k: int| 0 <= k < i ==> g.has_uuid((#[trigger] modules@[k]).description.uuid@),
        decreases modules@.len() - i,
    {
        let ghost before = g.nodes@;
        g.add_module(&modules[i]);
        proof {
            assert(g.nodes@[0] == g.nodes@.take(before.len() as int)[0]);
            assert forall|k: int| 0 <= k < i + 1 implies g.has_uuid(
                (#[trigger] modules@[k]).description.uuid@,
            ) by {
                if k < i {
                    let w = choose|w: int|
                        0 <= w < before.len() && (#[trigger] before[w]).uuid@
                            == modules@[k].description.uuid@;
                    assert(g.nodes@[w] == g.nodes@.take(before.len() as int)[w]);
                }
            }
        }
        i = i + 1;
    }
    g
}

} // verus!
