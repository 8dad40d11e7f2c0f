use modorder::config::{build_graph, find_base, mod_list_path, ConfigError};
use modorder::descriptor::{Module, ModuleDescription};
use modorder::document::{Attribute, XmlElement};
use modorder::graph::{DependencyGraph, ResolveError};
use modorder::modlist::apply;

fn desc(name: &str, uuid: &str) -> ModuleDescription {
    ModuleDescription {
        folder: format!("{name}_f"),
        md5: String::new(),
        name: name.to_string(),
        publish_handle: None,
        uuid: uuid.to_string(),
        version64: "1".to_string(),
    }
}

fn module(d: &ModuleDescription, deps: &[&ModuleDescription]) -> Module {
    Module { description: d.clone(), dependencies: deps.iter().map(|x| (*x).clone()).collect() }
}

fn names(v: &[ModuleDescription]) -> Vec<String> {
    v.iter().map(|d| d.name.clone()).collect()
}

fn attr(key: &str, value: &str) -> Attribute {
    Attribute { key: key.to_string(), value: value.to_string() }
}

fn elem(name: &str, attrs: Vec<Attribute>, children: Vec<XmlElement>) -> XmlElement {
    XmlElement { name: name.to_string(), attrs, children }
}

#[test]
fn dependency_orders_before_dependent() {
    let base = desc("GustavX", "base");
    let a = desc("A", "ua");
    let b = desc("B", "ub");
    let forward = build_graph(&base, &vec![module(&a, &[&b]), module(&b, &[])]);
    assert_eq!(names(&forward.resolve().unwrap()), vec!["B", "A"]);
    let reverse = build_graph(&base, &vec![module(&b, &[]), module(&a, &[&b])]);
    assert_eq!(names(&reverse.resolve().unwrap()), vec!["B", "A"]);
}

#[test]
fn independent_mods_keep_discovery_order() {
    let base = desc("GustavX", "base");
    let a = desc("A", "ua");
    let b = desc("B", "ub");
    let c = desc("C", "uc");
    let g = build_graph(&base, &vec![module(&c, &[]), module(&a, &[&c]), module(&b, &[])]);
    assert_eq!(names(&g.resolve().unwrap()), vec!["C", "B", "A"]);
}

#[test]
fn direct_cycle_detected() {
    let base = desc("GustavX", "base");
    let a = desc("A", "ua");
    let b = desc("B", "ub");
    let g = build_graph(&base, &vec![module(&a, &[&b]), module(&b, &[&a])]);
    match g.resolve() {
        Err(ResolveError::CycleDetected(uuids)) => assert_eq!(uuids, vec!["ua".to_string(), "ub".to_string()]),
        Ok(v) => panic!("unexpected order {:?}", names(&v)),
    }
}

#[test]
fn duplicate_uuid_first_wins() {
    let base = desc("GustavX", "base");
    let first = desc("First", "same");
    let second = desc("Second", "same");
    let mut g = DependencyGraph::new(&base);
    g.add_module(&module(&first, &[]));
    g.add_module(&module(&second, &[]));
    assert_eq!(g.nodes.len(), 2);
    assert_eq!(g.nodes[1].name, "First");
    assert_eq!(g.node_index(&"same".to_string()), Some(1));
    assert_eq!(names(&g.resolve().unwrap()), vec!["First"]);
}

#[test]
fn empty_graph_resolves_empty() {
    let g = DependencyGraph::new(&desc("GustavX", "base"));
    assert!(g.resolve().unwrap().is_empty());
    assert_eq!(g.resolve_order().unwrap(), Vec::<usize>::new());
}

#[test]
fn apply_replaces_entries() {
    let stale = |n: &str| elem("node", vec![attr("id", "ModuleShortDesc")], vec![elem("attribute", vec![attr("id", "Name"), attr("value", n)], vec![])]);
    let mut target = elem("children", vec![], vec![stale("Old1"), elem("comment", vec![], vec![]), stale("Old2")]);
    let mut b = desc("B", "ub");
    b.publish_handle = Some("77".to_string());
    let order = vec![b, desc("A", "ua")];
    apply(&mut target, &order);
    assert_eq!(target.children.len(), 3);
    assert_eq!(target.children[0].name, "comment");
    let first = &target.children[1];
    assert_eq!(first.name, "node");
    assert_eq!(first.attrs[0].value, "ModuleShortDesc");
    let triples: Vec<(String, String, String)> = first
        .children
        .iter()
        .map(|c| (c.attrs[0].value.clone(), c.attrs[1].value.clone(), c.attrs[2].value.clone()))
        .collect();
    assert_eq!(
        triples,
        vec![
            ("Folder".into(), "LSString".into(), "B_f".into()),
            ("MD5".into(), "LSString".into(), "".into()),
            ("Name".into(), "LSString".into(), "B".into()),
            ("PublishHandle".into(), "uint64".into(), "77".into()),
            ("UUID".into(), "guid".into(), "ub".into()),
            ("Version64".into(), "int64".into(), "1".into()),
        ]
    );
    let second = &target.children[2];
    assert_eq!(second.children[2].attrs[2].value, "A");
    assert_eq!(second.children[3].attrs[2].value, "0");
}

#[test]
fn base_found_in_mod_list() {
    let entry = |name: &str, uuid: &str| {
        let p = |id: &str, v: &str| elem("attribute", vec![attr("id", id), attr("value", v)], vec![]);
        elem(
            "node",
            vec![attr("id", "ModuleShortDesc")],
            vec![p("Folder", "f"), p("MD5", ""), p("Name", name), p("UUID", uuid), p("Version64", "1")],
        )
    };
    let list = elem("children", vec![], vec![entry("Other", "o"), entry("GustavDev", "g")]);
    let base = find_base(&list).unwrap();
    assert_eq!(base.uuid, "g");
    let none = elem("children", vec![], vec![entry("Other", "o")]);
    assert!(matches!(find_base(&none), Err(ConfigError::MissingBaseModule)));
    let mods = elem("node", vec![attr("id", "Mods")], vec![list]);
    let root = elem(
        "save",
        vec![],
        vec![elem("region", vec![], vec![elem("node", vec![], vec![elem("children", vec![], vec![elem("node", vec![attr("id", "ModOrder")], vec![]), mods])])])],
    );
    assert_eq!(mod_list_path(&root), Some(vec![0, 0, 0, 1, 0]));
    assert_eq!(mod_list_path(&elem("save", vec![], vec![])), None);
}
