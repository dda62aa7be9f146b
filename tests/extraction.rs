use std::path::Path;

use pysubclasses::index::{hash_pair, hash_str};
use pysubclasses::cache::{get_cache_path, Cache, CacheEntry, FileStamp, CACHE_VERSION};
use pysubclasses::parser::{
    extract_base_class, file_path_to_module_path, is_package_file, parsed_file_from_statements,
    Alias, BaseExpr, ParsedFile, Stmt,
};
use pysubclasses::render::{dot_node_id, sanitize_for_dot};
use pysubclasses::utils::resolve_relative_import_base;
use pysubclasses::{ClassReference, Error};

fn name(n: &str) -> BaseExpr {
    BaseExpr::Name(n.to_string())
}

fn attr(value: BaseExpr, a: &str) -> BaseExpr {
    BaseExpr::Attribute(Box::new(value), a.to_string())
}

fn sub(value: BaseExpr) -> BaseExpr {
    BaseExpr::Subscript(Box::new(value))
}

fn class(n: &str, bases: Vec<BaseExpr>, body: Vec<Stmt>) -> Stmt {
    Stmt::ClassDef { name: n.to_string(), bases, body }
}

fn alias(n: &str, asname: Option<&str>) -> Alias {
    Alias { name: n.to_string(), asname: asname.map(|a| a.to_string()) }
}

/// The module path of `path` relative to `root`, through its path components.
fn module_of(path: &str, root: &str) -> Option<String> {
    let rel = Path::new(path).strip_prefix(root).ok()?;
    let components: Vec<String> =
        rel.components().filter_map(|c| c.as_os_str().to_str()).map(|c| c.to_string()).collect();
    file_path_to_module_path(&components)
}

fn imports_of(stmts: Vec<Stmt>, module: &str, is_package: bool) -> Vec<(String, String)> {
    let parsed = parsed_file_from_statements(&stmts, "test.py", module, is_package);
    parsed.imports.into_iter().map(|i| (i.imported_item, i.imported_as)).collect()
}

fn pairs(v: &[(&str, &str)]) -> Vec<(String, String)> {
    v.iter().map(|(a, b)| (a.to_string(), b.to_string())).collect()
}

#[test]
fn test_file_path_to_module_path() {
    assert_eq!(module_of("/project/src/foo/bar/baz.py", "/project/src"), Some("foo.bar.baz".to_string()));
    assert_eq!(module_of("/project/src/foo/bar/__init__.py", "/project/src"), Some("foo.bar".to_string()));
    assert_eq!(module_of("/project/src/module.py", "/project/src"), Some("module".to_string()));
    assert_eq!(module_of("/project/src/__init__.py", "/project/src"), None);
}

#[test]
fn test_file_path_to_module_path_relative() {
    assert_eq!(module_of("./foo/bar.py", "."), Some("foo.bar".to_string()));
}

#[test]
fn test_nested_class_extraction() {
    let stmts = vec![
        class("Foo", vec![], vec![]),
        class(
            "Bar",
            vec![],
            vec![
                class("NestedInBar", vec![name("Foo")], vec![]),
                class("AnotherNested", vec![], vec![class("DoublyNested", vec![name("Foo")], vec![])]),
            ],
        ),
        class("TopLevel", vec![name("Foo")], vec![]),
    ];
    let parsed = parsed_file_from_statements(&stmts, "test_nested_classes.py", "test_module", false);
    let class_names: Vec<&str> = parsed.classes.iter().map(|c| c.name.as_str()).collect();
    assert_eq!(class_names.len(), 6);
    assert!(class_names.contains(&"Foo"));
    assert!(class_names.contains(&"Bar"));
    assert!(class_names.contains(&"Bar.NestedInBar"));
    assert!(class_names.contains(&"Bar.AnotherNested"));
    assert!(class_names.contains(&"Bar.AnotherNested.DoublyNested"));
    assert!(class_names.contains(&"TopLevel"));
    let nested_in_bar = parsed.classes.iter().find(|c| c.name == "Bar.NestedInBar").unwrap();
    assert_eq!(nested_in_bar.bases.len(), 1);
    assert_eq!(nested_in_bar.bases[0], "Foo");
    let doubly_nested = parsed.classes.iter().find(|c| c.name == "Bar.AnotherNested.DoublyNested").unwrap();
    assert_eq!(doubly_nested.bases.len(), 1);
    assert_eq!(doubly_nested.bases[0], "Foo");
    assert!(parsed.classes.iter().all(|c| c.module_name == "test_module"));
    assert!(parsed.classes.iter().all(|c| c.file_path == "test_nested_classes.py"));
}

#[test]
fn test_resolve_relative_import_base() {
    assert_eq!(resolve_relative_import_base("foo.bar.baz", 1, true), Some("foo.bar.baz".to_string()));
    assert_eq!(resolve_relative_import_base("foo.bar.baz", 2, true), Some("foo.bar".to_string()));
    assert_eq!(resolve_relative_import_base("foo.bar.baz", 3, true), Some("foo".to_string()));
    assert_eq!(resolve_relative_import_base("foo.bar.baz", 1, false), Some("foo.bar".to_string()));
    assert_eq!(resolve_relative_import_base("mypackage", 1, true), Some("mypackage".to_string()));
    assert_eq!(resolve_relative_import_base("mypackage", 1, false), Some(String::new()));
}

#[test]
fn relative_import_base_edges() {
    assert_eq!(resolve_relative_import_base("foo.bar", 0, false), None);
    assert_eq!(resolve_relative_import_base("foo.bar", 5, false), Some(String::new()));
    assert_eq!(resolve_relative_import_base("pkg.sub.module", 3, false), Some(String::new()));
}

#[test]
fn import_normalization() {
    let plain = Stmt::Import { names: vec![alias("foo", None)] };
    assert_eq!(imports_of(vec![plain], "mymodule", false), pairs(&[("foo", "foo")]));
    let dotted = Stmt::Import { names: vec![alias("foo.bar.baz", None)] };
    assert_eq!(imports_of(vec![dotted], "mymodule", false), pairs(&[("foo.bar.baz", "foo.bar.baz")]));
    let aliased = Stmt::Import { names: vec![alias("foo.bar", Some("fb"))] };
    assert_eq!(imports_of(vec![aliased], "mymodule", false), pairs(&[("foo.bar", "fb")]));
    let from = Stmt::ImportFrom {
        level: 0,
        module: Some("foo".to_string()),
        names: vec![alias("Bar", Some("B")), alias("Baz", Some("Z"))],
    };
    assert_eq!(imports_of(vec![from], "mymodule", false), pairs(&[("foo.Bar", "B"), ("foo.Baz", "Z")]));
    let from_dotted =
        Stmt::ImportFrom { level: 0, module: Some("foo.bar".to_string()), names: vec![alias("Baz", None)] };
    assert_eq!(imports_of(vec![from_dotted], "mymodule", false), pairs(&[("foo.bar.Baz", "Baz")]));
}

#[test]
fn relative_import_normalization() {
    let sibling = || Stmt::ImportFrom {
        level: 1,
        module: Some("sibling".to_string()),
        names: vec![alias("Foo", None)],
    };
    assert_eq!(imports_of(vec![sibling()], "pkg.mymodule", false), pairs(&[("pkg.sibling.Foo", "Foo")]));
    assert_eq!(imports_of(vec![sibling()], "pkg", true), pairs(&[("pkg.sibling.Foo", "Foo")]));
    let up_two =
        || Stmt::ImportFrom { level: 2, module: Some("other".to_string()), names: vec![alias("Foo", None)] };
    assert_eq!(imports_of(vec![up_two()], "pkg.sub.mymodule", false), pairs(&[("pkg.other.Foo", "Foo")]));
    assert_eq!(imports_of(vec![up_two()], "pkg.sub", true), pairs(&[("pkg.other.Foo", "Foo")]));
    let here = Stmt::ImportFrom { level: 1, module: None, names: vec![alias("Foo", Some("F"))] };
    assert_eq!(imports_of(vec![here], "pkg.mymodule", false), pairs(&[("pkg.Foo", "F")]));
    let both = vec![
        Stmt::Import { names: vec![alias("foo", None)] },
        Stmt::ImportFrom { level: 0, module: Some("bar".to_string()), names: vec![alias("Baz", None)] },
    ];
    assert_eq!(imports_of(both, "mymodule", false), pairs(&[("foo", "foo"), ("bar.Baz", "Baz")]));
}

#[test]
fn imports_inside_class_bodies_are_collected() {
    let stmts = vec![class(
        "Outer",
        vec![],
        vec![Stmt::Import { names: vec![alias("inner_mod", None)] }, class("Inner", vec![], vec![])],
    )];
    let parsed = parsed_file_from_statements(&stmts, "m.py", "m", false);
    assert_eq!(parsed.imports.len(), 1);
    assert_eq!(parsed.imports[0].imported_item, "inner_mod");
    let names: Vec<&str> = parsed.classes.iter().map(|c| c.name.as_str()).collect();
    assert_eq!(names, vec!["Outer", "Outer.Inner"]);
}

#[test]
fn base_class_extraction() {
    assert_eq!(extract_base_class(&name("Bar")), Some("Bar".to_string()));
    assert_eq!(extract_base_class(&attr(name("module"), "Bar")), Some("module.Bar".to_string()));
    assert_eq!(
        extract_base_class(&attr(attr(name("pkg"), "module"), "Bar")),
        Some("pkg.module.Bar".to_string())
    );
    assert_eq!(extract_base_class(&sub(name("Generic"))), Some("Generic".to_string()));
    assert_eq!(extract_base_class(&sub(attr(name("typing"), "Generic"))), Some("typing.Generic".to_string()));
    assert_eq!(extract_base_class(&BaseExpr::Other), None);
    assert_eq!(extract_base_class(&attr(BaseExpr::Other, "Bar")), None);
    let stmts = vec![class("Foo", vec![name("Bar"), BaseExpr::Other, sub(name("Generic"))], vec![])];
    let parsed = parsed_file_from_statements(&stmts, "t.py", "t", false);
    assert_eq!(parsed.classes[0].bases, vec!["Bar".to_string(), "Generic".to_string()]);
}

#[test]
fn package_files() {
    assert!(is_package_file("__init__.py"));
    assert!(!is_package_file("__init__.pyi"));
    assert!(!is_package_file("module.py"));
}

fn record(module: &str) -> ParsedFile {
    parsed_file_from_statements(&vec![class("Thing", vec![], vec![])], "a.py", module, false)
}

fn stamp(secs: u64, size: u64) -> FileStamp {
    FileStamp { modified_secs: secs, modified_nanos: 0, size }
}

#[test]
fn cache_round_trip() {
    let mut cache = Cache::new();
    assert_eq!(cache.version(), CACHE_VERSION);
    assert!(cache.lookup("/r/a.py", stamp(10, 5)).is_none());
    cache.record("/r/a.py", Some(stamp(10, 5)), &Ok(record("a")));
    let hit = cache.lookup("/r/a.py", stamp(10, 5)).unwrap();
    assert_eq!(hit.module_name, "a");
    assert_eq!(hit.classes[0].name, "Thing");
    assert!(cache.lookup("/r/a.py", stamp(11, 5)).is_none());
    assert!(cache.lookup("/r/a.py", stamp(10, 6)).is_none());
    assert!(cache.lookup("/r/b.py", stamp(10, 5)).is_none());
}

#[test]
fn cache_replaces_and_evicts() {
    let mut cache = Cache::new();
    cache.record("/r/a.py", Some(stamp(1, 1)), &Ok(record("old")));
    cache.record("/r/a.py", Some(stamp(2, 2)), &Ok(record("new")));
    assert_eq!(cache.entries().len(), 1);
    assert_eq!(cache.lookup("/r/a.py", stamp(2, 2)).unwrap().module_name, "new");
    cache.record("/r/a.py", None, &Ok(record("unstamped")));
    assert_eq!(cache.lookup("/r/a.py", stamp(2, 2)).unwrap().module_name, "new");
    let failure = Error::ParseError { file: "/r/a.py".to_string(), error: "bad".to_string() };
    cache.record("/r/a.py", Some(stamp(2, 2)), &Err(failure));
    assert!(cache.lookup("/r/a.py", stamp(2, 2)).is_none());
    assert!(cache.entries().is_empty());
}

#[test]
fn cache_version_mismatch_discards_entries() {
    let entry = || CacheEntry { path: "/r/a.py".to_string(), stamp: stamp(1, 1), parsed: record("a") };
    let stale = Cache::from_loaded(CACHE_VERSION + 1, vec![entry()]);
    assert_eq!(stale.version(), CACHE_VERSION);
    assert!(stale.entries().is_empty());
    let fresh = Cache::from_loaded(CACHE_VERSION, vec![entry(), entry()]);
    assert_eq!(fresh.entries().len(), 1);
    assert!(fresh.lookup("/r/a.py", stamp(1, 1)).is_some());
}

#[test]
fn cache_path() {
    assert_eq!(get_cache_path("/project"), "/project/.pysubclasses-cache");
    assert_eq!(get_cache_path("/project/"), "/project/.pysubclasses-cache");
    assert_eq!(get_cache_path(""), ".pysubclasses-cache");
}

#[test]
fn dot_identifiers() {
    assert_eq!(sanitize_for_dot("pkg.sub-mod.Name"), "pkg_sub_mod_Name");
    assert_eq!(sanitize_for_dot("plain"), "plain");
    let c = ClassReference {
        class_name: "Outer.Inner".to_string(),
        module_name: "my-pkg.mod".to_string(),
        file_path: "f.py".to_string(),
    };
    assert_eq!(dot_node_id(&c), "my_pkg_mod_Outer_Inner");
}

#[test]
fn name_hashes() {
    assert_eq!(hash_str(""), 0);
    assert_eq!(hash_str("a"), 97);
    assert_eq!(hash_str("ab"), 97 * 31 + 98);
    assert_eq!(hash_pair("a", "ab"), (97 * 31 + 97 * 31 + 98) % 4294967296);
    assert!(hash_str("a-very-long-module-name.with.many.parts") < 4294967296);
}
