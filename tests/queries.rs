use pysubclasses::parser::{
    file_path_to_module_path, is_package_file, parsed_file_from_statements, Alias, BaseExpr,
    ParsedFile, Stmt,
};
use pysubclasses::{ClassReference, Error, SearchMode, SubclassFinder};

fn name(n: &str) -> BaseExpr {
    BaseExpr::Name(n.to_string())
}

fn attr(value: BaseExpr, a: &str) -> BaseExpr {
    BaseExpr::Attribute(Box::new(value), a.to_string())
}

fn sub(value: BaseExpr) -> BaseExpr {
    BaseExpr::Subscript(Box::new(value))
}

fn class(n: &str, bases: Vec<BaseExpr>, body: Vec<Stmt>) -> Stmt {
    Stmt::ClassDef { name: n.to_string(), bases, body }
}

fn aliases(names: &[&str]) -> Vec<Alias> {
    names.iter().map(|n| Alias { name: n.to_string(), asname: None }).collect()
}

fn import(names: &[&str]) -> Stmt {
    Stmt::Import { names: aliases(names) }
}

fn from_import(level: u32, module: Option<&str>, names: &[&str]) -> Stmt {
    Stmt::ImportFrom { level, module: module.map(|m| m.to_string()), names: aliases(names) }
}

/// The record of the file at `path` (relative to the root) holding `stmts`.
fn source(path: &str, stmts: Vec<Stmt>) -> ParsedFile {
    let components: Vec<String> = path.split('/').map(|c| c.to_string()).collect();
    let module = file_path_to_module_path(&components).unwrap();
    let is_package = is_package_file(components.last().unwrap());
    parsed_file_from_statements(&stmts, path, &module, is_package)
}

fn finder(files: Vec<ParsedFile>) -> SubclassFinder {
    SubclassFinder::from_parsed_files(&files).unwrap()
}

fn names_of(refs: &[ClassReference]) -> Vec<&str> {
    refs.iter().map(|r| r.class_name.as_str()).collect()
}

fn animal_hierarchy() -> SubclassFinder {
    finder(vec![source(
        "animals.py",
        vec![
            class("Animal", vec![], vec![]),
            class("Mammal", vec![name("Animal")], vec![]),
            class("Dog", vec![name("Mammal")], vec![]),
        ],
    )])
}

#[test]
fn test_simple_inheritance() {
    let f = finder(vec![
        source("base.py", vec![class("Animal", vec![], vec![])]),
        source(
            "derived.py",
            vec![from_import(0, Some("base"), &["Animal"]), class("Dog", vec![name("Animal")], vec![])],
        ),
    ]);
    let subs = f.find_subclasses("Animal", None, SearchMode::All).unwrap();
    assert_eq!(subs.len(), 1);
    assert_eq!(subs[0].class_name, "Dog");
    assert_eq!(subs[0].module_name, "derived");
    assert_eq!(subs[0].file_path, "derived.py");
}

#[test]
fn test_transitive_inheritance() {
    let f = animal_hierarchy();
    let subs = f.find_subclasses("Animal", None, SearchMode::All).unwrap();
    assert_eq!(names_of(&subs), vec!["Dog", "Mammal"]);
}

#[test]
fn test_no_subclasses() {
    let f = finder(vec![source("base.py", vec![class("Animal", vec![], vec![])])]);
    let subs = f.find_subclasses("Animal", None, SearchMode::All).unwrap();
    assert!(subs.is_empty());
    let direct = f.find_subclasses("Animal", None, SearchMode::Direct).unwrap();
    assert!(direct.is_empty());
}

#[test]
fn test_class_not_found() {
    let f = finder(vec![source("base.py", vec![class("Animal", vec![], vec![])])]);
    let err = f.find_subclasses("NonExistent", None, SearchMode::All).unwrap_err();
    assert_eq!(err, Error::ClassNotFound { name: "NonExistent".to_string(), module_name: None });
    let err = f.find_subclasses("Animal", Some("zoo"), SearchMode::All).unwrap_err();
    assert_eq!(
        err,
        Error::ClassNotFound { name: "Animal".to_string(), module_name: Some("zoo".to_string()) }
    );
}

#[test]
fn test_ambiguous_class_name() {
    let f = finder(vec![
        source("zoo.py", vec![class("Animal", vec![], vec![])]),
        source("farm.py", vec![class("Animal", vec![], vec![])]),
    ]);
    match f.find_subclasses("Animal", None, SearchMode::All).unwrap_err() {
        Error::AmbiguousClassName { name, mut candidates } => {
            assert_eq!(name, "Animal");
            candidates.sort();
            assert_eq!(candidates, vec!["farm".to_string(), "zoo".to_string()]);
        }
        other => panic!("unexpected error {other:?}"),
    }
    let subs = f.find_subclasses("Animal", Some("zoo"), SearchMode::All).unwrap();
    assert!(subs.is_empty());
    let subs = f.find_subclasses("Animal", Some("farm"), SearchMode::All).unwrap();
    assert!(subs.is_empty());
}

#[test]
fn test_multiple_inheritance() {
    let f = finder(vec![source(
        "base.py",
        vec![
            class("Animal", vec![], vec![]),
            class("Pet", vec![], vec![]),
            class("Dog", vec![name("Animal"), name("Pet")], vec![]),
        ],
    )]);
    let subs = f.find_subclasses("Animal", None, SearchMode::All).unwrap();
    assert_eq!(names_of(&subs), vec!["Dog"]);
    let subs = f.find_subclasses("Pet", None, SearchMode::All).unwrap();
    assert_eq!(names_of(&subs), vec!["Dog"]);
    let parents = f.find_parent_classes("Dog", Some("base"), SearchMode::Direct).unwrap();
    assert_eq!(names_of(&parents), vec!["Animal", "Pet"]);
}

#[test]
fn test_package_with_init() {
    let f = finder(vec![
        source("animals/__init__.py", vec![from_import(0, Some("animals.base"), &["Animal"])]),
        source("animals/base.py", vec![class("Animal", vec![], vec![])]),
        source(
            "animals/dog.py",
            vec![from_import(0, Some("animals.base"), &["Animal"]), class("Dog", vec![name("Animal")], vec![])],
        ),
    ]);
    let subs = f.find_subclasses("Animal", Some("animals.base"), SearchMode::All).unwrap();
    assert_eq!(names_of(&subs), vec!["Dog"]);
    assert_eq!(subs[0].module_name, "animals.dog");
}

#[test]
fn test_relative_imports() {
    let f = finder(vec![
        source("pkg/__init__.py", vec![]),
        source("pkg/base.py", vec![class("Animal", vec![], vec![])]),
        source(
            "pkg/derived.py",
            vec![from_import(1, Some("base"), &["Animal"]), class("Dog", vec![name("Animal")], vec![])],
        ),
    ]);
    let subs = f.find_subclasses("Animal", None, SearchMode::All).unwrap();
    assert_eq!(names_of(&subs), vec!["Dog"]);
    assert_eq!(subs[0].module_name, "pkg.derived");
}

#[test]
fn test_reexport_single_level() {
    let f = finder(vec![
        source("mypackage/base.py", vec![class("Animal", vec![], vec![])]),
        source("mypackage/__init__.py", vec![from_import(1, Some("base"), &["Animal"])]),
        source(
            "mypackage/dog.py",
            vec![from_import(1, None, &["Animal"]), class("Dog", vec![name("Animal")], vec![])],
        ),
    ]);
    let subs = f.find_subclasses("Animal", None, SearchMode::All).unwrap();
    assert_eq!(names_of(&subs), vec!["Dog"]);
}

#[test]
fn test_reexport_multi_level() {
    let f = finder(vec![
        source("pkg/_nodes/_base.py", vec![class("Node", vec![], vec![])]),
        source("pkg/_nodes/__init__.py", vec![from_import(1, Some("_base"), &["Node"])]),
        source("pkg/__init__.py", vec![from_import(1, Some("_nodes"), &["Node"])]),
        source(
            "pkg/custom.py",
            vec![from_import(1, None, &["Node"]), class("CustomNode", vec![name("Node")], vec![])],
        ),
    ]);
    let subs = f.find_subclasses("Node", None, SearchMode::All).unwrap();
    assert_eq!(names_of(&subs), vec!["CustomNode"]);
    assert_eq!(subs[0].module_name, "pkg.custom");
}

#[test]
fn test_complex_relative_imports() {
    let f = finder(vec![
        source("company/domain/core/base.py", vec![class("Entity", vec![], vec![])]),
        source("company/domain/core/__init__.py", vec![from_import(1, Some("base"), &["Entity"])]),
        source(
            "company/app/models/user.py",
            vec![from_import(3, Some("domain.core"), &["Entity"]), class("User", vec![name("Entity")], vec![])],
        ),
    ]);
    let subs = f.find_subclasses("Entity", None, SearchMode::All).unwrap();
    assert_eq!(names_of(&subs), vec!["User"]);
    assert_eq!(subs[0].module_name, "company.app.models.user");
}

#[test]
fn test_reexport_module_path() {
    let f = finder(vec![
        source("pkg/_internal/base.py", vec![class("Node", vec![], vec![])]),
        source("pkg/__init__.py", vec![from_import(1, Some("_internal.base"), &["Node"])]),
        source(
            "pkg/custom.py",
            vec![from_import(1, None, &["Node"]), class("CustomNode", vec![name("Node")], vec![])],
        ),
    ]);
    let subs = f.find_subclasses("Node", Some("pkg._internal.base"), SearchMode::All).unwrap();
    assert_eq!(names_of(&subs), vec!["CustomNode"]);
    let subs = f.find_subclasses("Node", Some("pkg"), SearchMode::All).unwrap();
    assert_eq!(names_of(&subs), vec!["CustomNode"]);
}

fn generic_derived() -> ParsedFile {
    source(
        "derived.py",
        vec![
            from_import(0, Some("base"), &["Container"]),
            class("StringContainer", vec![sub(name("Container"))], vec![]),
            class("IntContainer", vec![sub(name("Container"))], vec![]),
        ],
    )
}

#[test]
fn test_generic_classes() {
    let f = finder(vec![
        source(
            "base.py",
            vec![
                from_import(0, Some("typing"), &["Generic", "TypeVar"]),
                Stmt::Other,
                class("Container", vec![sub(name("Generic"))], vec![]),
            ],
        ),
        generic_derived(),
    ]);
    let subs = f.find_subclasses("Container", None, SearchMode::All).unwrap();
    assert_eq!(names_of(&subs), vec!["IntContainer", "StringContainer"]);
    assert!(subs.iter().all(|s| s.module_name == "derived"));
}

#[test]
fn test_generic_classes_python312_syntax() {
    let f = finder(vec![source("base.py", vec![class("Container", vec![], vec![])]), generic_derived()]);
    let subs = f.find_subclasses("Container", None, SearchMode::All).unwrap();
    assert_eq!(names_of(&subs), vec!["IntContainer", "StringContainer"]);
    assert!(subs.iter().all(|s| s.module_name == "derived"));
}

#[test]
fn test_nested_classes() {
    let f = finder(vec![source(
        "classes.py",
        vec![
            class("Foo", vec![], vec![]),
            class("Bar", vec![], vec![class("SomeFoo", vec![name("Foo")], vec![])]),
            class("Baz", vec![], vec![class("AnotherFoo", vec![name("Foo")], vec![])]),
        ],
    )]);
    let subs = f.find_subclasses("Foo", None, SearchMode::All).unwrap();
    assert_eq!(names_of(&subs), vec!["Bar.SomeFoo", "Baz.AnotherFoo"]);
    assert!(subs.iter().all(|s| s.module_name == "classes"));
}

#[test]
fn test_reexport_of_module_import_from() {
    let f = finder(vec![
        source("testpkg/a.py", vec![class("A", vec![], vec![])]),
        source(
            "testpkg/b.py",
            vec![from_import(0, Some("testpkg"), &["a"]), class("B", vec![attr(name("a"), "A")], vec![])],
        ),
        source(
            "testpkg/c.py",
            vec![
                from_import(0, Some("testpkg"), &["b"]),
                class("C", vec![attr(attr(name("b"), "a"), "A")], vec![]),
            ],
        ),
    ]);
    let subs = f.find_subclasses("A", None, SearchMode::All).unwrap();
    assert_eq!(names_of(&subs), vec!["B", "C"]);
}

#[test]
fn test_reexport_of_module_import() {
    let f = finder(vec![
        source("testpkg/a.py", vec![class("A", vec![], vec![])]),
        source(
            "testpkg/b.py",
            vec![import(&["testpkg.a"]), class("B", vec![attr(attr(name("testpkg"), "a"), "A")], vec![])],
        ),
        source(
            "testpkg/c.py",
            vec![
                import(&["testpkg.b"]),
                class("C", vec![attr(attr(attr(attr(name("testpkg"), "b"), "testpkg"), "a"), "A")], vec![]),
            ],
        ),
    ]);
    let subs = f.find_subclasses("A", None, SearchMode::All).unwrap();
    assert_eq!(names_of(&subs), vec!["B", "C"]);
}

fn not_via_init() -> SubclassFinder {
    finder(vec![
        source("testpkg/a.py", vec![class("A", vec![], vec![])]),
        source(
            "testpkg/b.py",
            vec![from_import(0, Some("testpkg.a"), &["A"]), class("B", vec![name("A")], vec![])],
        ),
        source(
            "testpkg/c.py",
            vec![from_import(0, Some("testpkg.b"), &["A"]), class("C", vec![name("A")], vec![])],
        ),
    ])
}

#[test]
fn test_reexport_not_via_init() {
    let subs = not_via_init().find_subclasses("A", None, SearchMode::All).unwrap();
    assert_eq!(names_of(&subs), vec!["B", "C"]);
}

#[test]
fn test_reexport_not_via_init_pass_reexport_module() {
    let subs = not_via_init().find_subclasses("A", Some("testpkg.b"), SearchMode::All).unwrap();
    assert_eq!(names_of(&subs), vec!["B", "C"]);
}

#[test]
fn test_direct_mode() {
    let f = finder(vec![source(
        "animals.py",
        vec![
            class("Animal", vec![], vec![]),
            class("Mammal", vec![name("Animal")], vec![]),
            class("Dog", vec![name("Mammal")], vec![]),
            class("Cat", vec![name("Mammal")], vec![]),
        ],
    )]);
    let direct = f.find_subclasses("Animal", None, SearchMode::Direct).unwrap();
    assert_eq!(names_of(&direct), vec!["Mammal"]);
    let all = f.find_subclasses("Animal", None, SearchMode::All).unwrap();
    assert_eq!(names_of(&all), vec!["Cat", "Dog", "Mammal"]);
    let direct = f.find_subclasses("Mammal", None, SearchMode::Direct).unwrap();
    assert_eq!(names_of(&direct), vec!["Cat", "Dog"]);
}

#[test]
fn test_find_parent_classes_direct() {
    let f = animal_hierarchy();
    let parents = f.find_parent_classes("Dog", Some("animals"), SearchMode::Direct).unwrap();
    assert_eq!(parents.len(), 1);
    assert_eq!(parents[0].class_name, "Mammal");
    assert_eq!(parents[0].module_name, "animals");
    let parents = f.find_parent_classes("Mammal", Some("animals"), SearchMode::Direct).unwrap();
    assert_eq!(parents.len(), 1);
    assert_eq!(parents[0].class_name, "Animal");
    assert_eq!(parents[0].module_name, "animals");
    let parents = f.find_parent_classes("Animal", Some("animals"), SearchMode::Direct).unwrap();
    assert_eq!(parents.len(), 0);
}

#[test]
fn test_find_parent_classes_all() {
    let f = animal_hierarchy();
    let parents = f.find_parent_classes("Dog", Some("animals"), SearchMode::All).unwrap();
    assert_eq!(parents.len(), 2);
    let parent_names = names_of(&parents);
    assert!(parent_names.contains(&"Mammal"));
    assert!(parent_names.contains(&"Animal"));
    assert!(parents.iter().all(|p| p.module_name == "animals"));
    let parents = f.find_parent_classes("Mammal", Some("animals"), SearchMode::All).unwrap();
    assert_eq!(parents.len(), 1);
    assert_eq!(parents[0].class_name, "Animal");
    assert_eq!(parents[0].module_name, "animals");
}

#[test]
fn test_find_parent_classes_multiple_inheritance() {
    let f = finder(vec![source(
        "animals.py",
        vec![
            class("Animal", vec![], vec![]),
            class("Walker", vec![], vec![]),
            class("Dog", vec![name("Animal"), name("Walker")], vec![]),
        ],
    )]);
    let parents = f.find_parent_classes("Dog", Some("animals"), SearchMode::Direct).unwrap();
    assert_eq!(parents.len(), 2);
    let parent_names = names_of(&parents);
    assert!(parent_names.contains(&"Animal"));
    assert!(parent_names.contains(&"Walker"));
}

#[test]
fn results_sorted_by_module_then_name() {
    let f = finder(vec![
        source("base.py", vec![class("Root", vec![], vec![])]),
        source(
            "zeta.py",
            vec![from_import(0, Some("base"), &["Root"]), class("A", vec![name("Root")], vec![])],
        ),
        source(
            "alpha.py",
            vec![
                from_import(0, Some("base"), &["Root"]),
                class("Zed", vec![name("Root")], vec![]),
                class("Bee", vec![name("Root")], vec![]),
            ],
        ),
    ]);
    let subs = f.find_subclasses("Root", None, SearchMode::Direct).unwrap();
    let keys: Vec<(String, String)> =
        subs.iter().map(|s| (s.module_name.clone(), s.class_name.clone())).collect();
    assert_eq!(
        keys,
        vec![
            ("alpha".to_string(), "Bee".to_string()),
            ("alpha".to_string(), "Zed".to_string()),
            ("zeta".to_string(), "A".to_string()),
        ]
    );
}

#[test]
fn diamond_inheritance_reported_once() {
    let f = finder(vec![source(
        "shapes.py",
        vec![
            class("Base", vec![], vec![]),
            class("Left", vec![name("Base")], vec![]),
            class("Right", vec![name("Base")], vec![]),
            class("Bottom", vec![name("Left"), name("Right"), name("Base")], vec![]),
        ],
    )]);
    let subs = f.find_subclasses("Base", None, SearchMode::All).unwrap();
    assert_eq!(names_of(&subs), vec!["Bottom", "Left", "Right"]);
    let parents = f.find_parent_classes("Bottom", None, SearchMode::All).unwrap();
    assert_eq!(names_of(&parents), vec!["Base", "Left", "Right"]);
}

#[test]
fn ambiguous_name_resolves_with_each_candidate() {
    let f = finder(vec![
        source("zoo.py", vec![class("Animal", vec![], vec![])]),
        source("farm.py", vec![class("Animal", vec![], vec![])]),
        source(
            "pets.py",
            vec![from_import(0, Some("zoo"), &["Animal"]), class("Cat", vec![name("Animal")], vec![])],
        ),
    ]);
    let candidates = match f.find_subclasses("Animal", None, SearchMode::All).unwrap_err() {
        Error::AmbiguousClassName { candidates, .. } => candidates,
        other => panic!("unexpected error {other:?}"),
    };
    assert_eq!(candidates.len(), 2);
    for module in &candidates {
        assert!(f.find_subclasses("Animal", Some(module), SearchMode::All).is_ok());
    }
    assert_eq!(names_of(&f.find_subclasses("Animal", Some("zoo"), SearchMode::All).unwrap()), vec!["Cat"]);
    assert!(f.find_subclasses("Animal", Some("farm"), SearchMode::All).unwrap().is_empty());
}

#[test]
fn class_reference_and_count() {
    let f = animal_hierarchy();
    assert_eq!(f.class_count(), 3);
    let r = f.resolve_class_reference("Dog", None).unwrap();
    assert_eq!(r.class_name, "Dog");
    assert_eq!(r.module_name, "animals");
    assert_eq!(r.file_path, "animals.py");
    assert_eq!(r.qualified_name(), "animals.Dog");
    assert!(f.resolve_class_reference("Cat", None).is_none());
    assert!(f.resolve_class_reference("Dog", Some("nowhere")).is_none());
}

#[test]
fn package_reexport_found_from_package_or_defining_module() {
    let f = finder(vec![
        source("pkg/_base.py", vec![class("Node", vec![], vec![])]),
        source("pkg/__init__.py", vec![from_import(1, Some("_base"), &["Node"])]),
        source("pkg/custom.py", vec![from_import(1, None, &["Node"]), class("Custom", vec![name("Node")], vec![])]),
    ]);
    for module in ["pkg", "pkg._base"] {
        let subs = f.find_subclasses("Node", Some(module), SearchMode::All).unwrap();
        assert_eq!(names_of(&subs), vec!["Custom"]);
        assert_eq!(subs[0].module_name, "pkg.custom");
    }
}

#[test]
fn relative_import_through_reexporting_package() {
    let f = finder(vec![
        source("a/b/c/base.py", vec![class("Entity", vec![], vec![])]),
        source("a/b/c/__init__.py", vec![from_import(1, Some("base"), &["Entity"])]),
        source("a/app/user.py", vec![from_import(2, Some("b.c"), &["Entity"]), class("User", vec![name("Entity")], vec![])]),
    ]);
    let subs = f.find_subclasses("Entity", None, SearchMode::All).unwrap();
    assert_eq!(names_of(&subs), vec!["User"]);
    assert_eq!(subs[0].module_name, "a.app.user");
}

#[test]
fn relative_import_above_the_top_package_resolves_nothing() {
    let f = finder(vec![
        source("a/b/c/base.py", vec![class("Entity", vec![], vec![])]),
        source("a/b/c/__init__.py", vec![from_import(1, Some("base"), &["Entity"])]),
        source("a/app/user.py", vec![from_import(3, Some("b.c"), &["Entity"]), class("User", vec![name("Entity")], vec![])]),
    ]);
    assert!(f.find_subclasses("Entity", None, SearchMode::All).unwrap().is_empty());
}

#[test]
fn unresolvable_bases_are_dropped() {
    let f = finder(vec![source(
        "m.py",
        vec![
            from_import(0, Some("typing"), &["Generic"]),
            class("Local", vec![], vec![]),
            class("Mixed", vec![name("object"), sub(name("Generic")), BaseExpr::Other, name("Local")], vec![]),
        ],
    )]);
    let parents = f.find_parent_classes("Mixed", None, SearchMode::All).unwrap();
    assert_eq!(names_of(&parents), vec!["Local"]);
}
