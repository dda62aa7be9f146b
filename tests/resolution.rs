use pysubclasses::parser::{parsed_file_from_statements, Alias, BaseExpr, ParsedFile, Stmt};
use pysubclasses::{ClassId, InheritanceGraph, Registry};

fn class(n: &str, bases: &[&str]) -> Stmt {
    Stmt::ClassDef {
        name: n.to_string(),
        bases: bases.iter().map(|b| BaseExpr::Name(b.to_string())).collect(),
        body: vec![],
    }
}

fn from_import(module: &str, n: &str, asname: Option<&str>) -> Stmt {
    Stmt::ImportFrom {
        level: 0,
        module: Some(module.to_string()),
        names: vec![Alias { name: n.to_string(), asname: asname.map(|a| a.to_string()) }],
    }
}

fn module(name: &str, is_package: bool, stmts: Vec<Stmt>) -> ParsedFile {
    let path = format!("{}.py", name.replace('.', "/"));
    parsed_file_from_statements(&stmts, &path, name, is_package)
}

fn id(m: &str, n: &str) -> ClassId {
    ClassId { module: m.to_string(), name: n.to_string() }
}

fn sorted(mut v: Vec<ClassId>) -> Vec<(String, String)> {
    v.sort_by(|a, b| (&a.module, &a.name).cmp(&(&b.module, &b.name)));
    v.into_iter().map(|c| (c.module, c.name)).collect()
}

fn keys(v: &[(&str, &str)]) -> Vec<(String, String)> {
    v.iter().map(|(m, n)| (m.to_string(), n.to_string())).collect()
}

#[test]
fn resolves_directly_and_through_imports() {
    let reg = Registry::build(&[
        module("animals", false, vec![class("Dog", &[])]),
        module("zoo", false, vec![from_import("animals", "Dog", Some("Hound")), class("Puppy", &["Hound"])]),
    ])
    .unwrap();
    assert_eq!(reg.resolve_class("animals", "Dog"), Some(id("animals", "Dog")));
    assert_eq!(reg.resolve_class("zoo", "Hound"), Some(id("animals", "Dog")));
    assert_eq!(reg.resolve_class("zoo", "Dog"), None);
    assert_eq!(reg.resolve_class("zoo", "animals.Dog"), Some(id("animals", "Dog")));
    assert_eq!(reg.resolve_class("nowhere", "Dog"), None);
    assert_eq!(reg.resolve_class("zoo", "object"), None);
}

#[test]
fn dotted_reference_through_module_alias() {
    let reg = Registry::build(&[
        module("pkg.mod", false, vec![class("Base", &[])]),
        module(
            "user",
            false,
            vec![Stmt::Import {
                names: vec![Alias { name: "pkg.mod".to_string(), asname: Some("pm".to_string()) }],
            }],
        ),
    ])
    .unwrap();
    assert_eq!(reg.resolve_class("user", "pm.Base"), Some(id("pkg.mod", "Base")));
    assert_eq!(reg.resolve_class("user", "pm"), None);
}

#[test]
fn a_module_path_is_never_a_class() {
    let reg = Registry::build(&[
        module("pkg", true, vec![]),
        module("pkg.thing", false, vec![class("Thing", &[])]),
        module("user", false, vec![from_import("pkg", "thing", None)]),
    ])
    .unwrap();
    assert_eq!(reg.resolve_class("user", "thing"), None);
    assert_eq!(reg.resolve_class("user", "thing.Thing"), Some(id("pkg.thing", "Thing")));
}

#[test]
fn first_matching_import_wins() {
    let reg = Registry::build(&[
        module("a", false, vec![class("X", &[])]),
        module("b", false, vec![class("X", &[])]),
        module("user", false, vec![from_import("a", "X", None), from_import("b", "X", None)]),
    ])
    .unwrap();
    assert_eq!(reg.resolve_class("user", "X"), Some(id("a", "X")));
}

#[test]
fn cyclic_reexports_resolve_to_nothing() {
    let reg = Registry::build(&[
        module("a", false, vec![from_import("b", "X", None)]),
        module("b", false, vec![from_import("a", "X", None)]),
        module("c", false, vec![from_import("a", "X", None), class("C", &["X"])]),
    ])
    .unwrap();
    assert_eq!(reg.resolve_class("a", "X"), None);
    assert_eq!(reg.resolve_class("c", "X"), None);
    let graph = InheritanceGraph::build(&reg);
    assert!(graph.find_direct_parent_classes(&id("c", "C")).is_empty());
}

#[test]
fn reexport_chain_reaches_defining_module() {
    let reg = Registry::build(&[
        module("deep.inner.core", false, vec![class("Entity", &[])]),
        module("deep.inner", true, vec![from_import("deep.inner.core", "Entity", None)]),
        module("deep", true, vec![from_import("deep.inner", "Entity", None)]),
        module("top", false, vec![from_import("deep", "Entity", Some("E"))]),
    ])
    .unwrap();
    let direct = reg.resolve_class("deep.inner.core", "Entity");
    assert_eq!(direct, Some(id("deep.inner.core", "Entity")));
    assert_eq!(reg.resolve_class("deep.inner", "Entity"), direct);
    assert_eq!(reg.resolve_class("deep", "Entity"), direct);
    assert_eq!(reg.resolve_class("top", "E"), direct);
}

#[test]
fn later_record_of_a_class_replaces_bases() {
    let reg = Registry::build(&[module("m", false, vec![class("A", &[]), class("B", &["A"]), class("B", &[])])])
        .unwrap();
    let graph = InheritanceGraph::build(&reg);
    assert!(graph.find_direct_subclasses(&id("m", "A")).is_empty());
}

#[test]
fn graph_edges_are_symmetric() {
    let reg = Registry::build(&[module(
        "m",
        false,
        vec![class("A", &[]), class("B", &["A"]), class("C", &["A", "B"]), class("D", &["C", "External"])],
    )])
    .unwrap();
    let graph = InheritanceGraph::build(&reg);
    assert_eq!(sorted(graph.find_direct_subclasses(&id("m", "A"))), keys(&[("m", "B"), ("m", "C")]));
    assert_eq!(sorted(graph.find_direct_parent_classes(&id("m", "C"))), keys(&[("m", "A"), ("m", "B")]));
    assert_eq!(sorted(graph.find_direct_parent_classes(&id("m", "D"))), keys(&[("m", "C")]));
    for (child, parent) in [("B", "A"), ("C", "A"), ("C", "B"), ("D", "C")] {
        assert!(graph.find_direct_parent_classes(&id("m", child)).contains(&id("m", parent)));
        assert!(graph.find_direct_subclasses(&id("m", parent)).contains(&id("m", child)));
    }
}

#[test]
fn transitive_queries_are_closures_without_duplicates() {
    let reg = Registry::build(&[module(
        "m",
        false,
        vec![class("A", &[]), class("B", &["A"]), class("C", &["A"]), class("D", &["B", "C"]), class("E", &["D"])],
    )])
    .unwrap();
    let graph = InheritanceGraph::build(&reg);
    let all = graph.find_all_subclasses(&id("m", "A"));
    assert_eq!(all.len(), 4);
    assert_eq!(sorted(all), keys(&[("m", "B"), ("m", "C"), ("m", "D"), ("m", "E")]));
    assert_eq!(
        sorted(graph.find_all_parent_classes(&id("m", "E"))),
        keys(&[("m", "A"), ("m", "B"), ("m", "C"), ("m", "D")])
    );
    assert!(graph.find_all_subclasses(&id("m", "E")).is_empty());
    assert!(graph.find_all_subclasses(&id("m", "Missing")).is_empty());
}

#[test]
fn inheritance_cycle_never_reports_the_root() {
    let reg = Registry::build(&[module("m", false, vec![class("A", &["B"]), class("B", &["A"])])]).unwrap();
    let graph = InheritanceGraph::build(&reg);
    assert_eq!(sorted(graph.find_all_subclasses(&id("m", "A"))), keys(&[("m", "B")]));
    assert_eq!(sorted(graph.find_all_parent_classes(&id("m", "A"))), keys(&[("m", "B")]));
}

#[test]
fn long_inheritance_chain() {
    let mut stmts = vec![class("C0", &[])];
    let names: Vec<String> = (0..3000).map(|i| format!("C{i}")).collect();
    for i in 1..3000 {
        stmts.push(class(&names[i], &[names[i - 1].as_str()]));
    }
    let reg = Registry::build(&[module("chain", false, stmts)]).unwrap();
    assert_eq!(reg.class_count(), 3000);
    let graph = InheritanceGraph::build(&reg);
    assert_eq!(graph.find_all_subclasses(&id("chain", "C0")).len(), 2999);
    assert_eq!(graph.find_all_parent_classes(&id("chain", "C2999")).len(), 2999);
    assert_eq!(graph.find_direct_subclasses(&id("chain", "C1500")), vec![id("chain", "C1501")]);
    assert_eq!(graph.find_direct_parent_classes(&id("chain", "C1500")), vec![id("chain", "C1499")]);
}
