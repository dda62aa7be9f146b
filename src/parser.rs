//! The records that the source extractor produces for one file, and the extraction
//! itself: from a file's statement tree to its classes and normalized imports.

use vstd::prelude::*;

use crate::names::{dotted, join_dotted};
use crate::utils::{last_dot_below, relative_base, resolve_relative_import_base};

verus! {

/// A class definition found in a source file.
#[derive(Debug, Clone)]
pub struct ClassDefinition {
    /// The class name; a nested class carries its enclosing classes, dot-joined.
    pub name: String,
    /// The module path of the defining file.
    pub module_name: String,
    /// The path of the defining file.
    pub file_path: String,
    /// The base classes as written, e.g. "Foo" or "foo.Foo", subscripts stripped.
    pub bases: Vec<String>,
}

/// A normalized import: the fully qualified item and the local name bound to it.
///
/// `import a.b as c` gives `{ imported_item: "a.b", imported_as: "c" }`;
/// `from a import b` gives `{ imported_item: "a.b", imported_as: "b" }`.
#[derive(Debug, Clone)]
pub struct Import {
    pub imported_item: String,
    pub imported_as: String,
}

/// What the extractor found in one file.
#[derive(Debug, Clone)]
pub struct ParsedFile {
    /// The path of this file.
    pub file_path: String,
    /// The module path of this file.
    pub module_name: String,
    /// The class definitions, nested ones included.
    pub classes: Vec<ClassDefinition>,
    /// The imports, relative ones already resolved against the module.
    pub imports: Vec<Import>,
    /// Whether the file is a package's `__init__` file.
    pub is_package: bool,
}

impl View for Import {
    type V = (Seq<char>, Seq<char>);

    open spec fn view(&self) -> (Seq<char>, Seq<char>) {
        (self.imported_item@, self.imported_as@)
    }
}

/// The characters of each string.
pub open spec fn strings_view(v: Seq<String>) -> Seq<Seq<char>> {
    v.map_values(|s: String| s@)
}

/// The (item, local name) pair of each import.
pub open spec fn imports_view(v: Seq<Import>) -> Seq<(Seq<char>, Seq<char>)> {
    v.map_values(|i: Import| i@)
}


/// A base-class expression, reduced to the forms that name a class.
#[derive(Debug)]
pub enum BaseExpr {
    /// A simple name: `Bar`.
    Name(String),
    /// An attribute access: `module.Bar` is `Attribute(Name("module"), "Bar")`.
    Attribute(Box<BaseExpr>, String),
    /// A subscript: `Generic[T]` is `Subscript(Name("Generic"))`.
    Subscript(Box<BaseExpr>),
    /// Any other form (a call, a starred expression, ...).
    Other,
}

/// One name of an import statement, with its alias.
#[derive(Debug, Clone)]
pub struct Alias {
    pub name: String,
    pub asname: Option<String>,
}

/// A statement of a source file, reduced to what class extraction reads.
#[derive(Debug)]
pub enum Stmt {
    /// `class name(bases): body`.
    ClassDef { name: String, bases: Vec<BaseExpr>, body: Vec<Stmt> },
    /// `import a.b as c, d`.
    Import { names: Vec<Alias> },
    /// `from ..module import name as alias`, with `level` leading dots.
    ImportFrom { level: u32, module: Option<String>, names: Vec<Alias> },
    /// Any other statement; its body, if it has one, is not searched.
    Other,
}

/// The dotted name that an attribute chain ending in a simple name spells.
pub open spec fn attribute_chain(e: BaseExpr) -> Option<Seq<char>>
    decreases e,
{
    match e {
        BaseExpr::Name(n) => Some(n@),
        BaseExpr::Attribute(v, a) => match attribute_chain(*v) {
            Some(p) => Some(dotted(p, a@)),
            None => None,
        },
        _ => None,
    }
}

/// The class reference that a base expression spells, subscripts stripped.
pub open spec fn base_reference(e: BaseExpr) -> Option<Seq<char>>
    decreases e,
{
    match e {
        BaseExpr::Subscript(v) => base_reference(*v),
        BaseExpr::Other => None,
        _ => attribute_chain(e),
    }
}

/// The class references of the base expressions that spell one, in order.
pub open spec fn base_references(es: Seq<BaseExpr>) -> Seq<Seq<char>>
    decreases es.len(),
{
    if es.len() == 0 {
        Seq::empty()
    } else {
        let prev = base_references(es.drop_last());
        match base_reference(es.last()) {
            Some(b) => prev.push(b),
            None => prev,
        }
    }
}

/// The local name an imported name is bound to.
pub open spec fn bound_name(a: Alias) -> Seq<char> {
    match a.asname {
        Some(x) => x@,
        None => a.name@,
    }
}

/// The item that `from [dots]module import name` refers to, seen from `current`.
pub open spec fn from_item(
    current: Seq<char>,
    is_package: bool,
    level: nat,
    module: Option<Seq<char>>,
    name: Seq<char>,
) -> Seq<char> {
    if level > 0 {
        let base = relative_base(current, level, is_package);
        match module {
            Some(m) => dotted(dotted(base, m), name),
            None => dotted(base, name),
        }
    } else {
        match module {
            Some(m) => if m.len() > 0 {
                dotted(m, name)
            } else {
                name
            },
            None => name,
        }
    }
}

/// The normalized imports of one statement.
pub open spec fn statement_imports(s: Stmt, current: Seq<char>, is_package: bool) -> Seq<(Seq<char>, Seq<char>)> {
    match s {
        Stmt::Import { names } => names@.map_values(|a: Alias| (a.name@, bound_name(a))),
        Stmt::ImportFrom { level, module, names } => names@.map_values(
            |a: Alias|
                (
                    from_item(
                        current,
                        is_package,
                        level as nat,
                        match module {
                            Some(m) => Some(m@),
                            None => None,
                        },
                        a.name@,
                    ),
                    bound_name(a),
                ),
        ),
        _ => Seq::empty(),
    }
}

/// The full name of class `name` inside the class `parent`, if any.
pub open spec fn nested_name(parent: Option<Seq<char>>, name: Seq<char>) -> Seq<char> {
    match parent {
        Some(p) => dotted(p, name),
        None => name,
    }
}

/// The classes (full name, bases) and imports found in `stmts`, in order; a class's
/// nested classes and imports follow it.
pub open spec fn extracted(stmts: Seq<Stmt>, parent: Option<Seq<char>>, current: Seq<char>, is_package: bool) -> (
    Seq<(Seq<char>, Seq<Seq<char>>)>,
    Seq<(Seq<char>, Seq<char>)>,
)
    decreases stmts,
{
    if stmts.len() == 0 {
        (Seq::empty(), Seq::empty())
    } else {
        let prev = extracted(stmts.drop_last(), parent, current, is_package);
        let last = extracted_one(stmts.last(), parent, current, is_package);
        (prev.0 + last.0, prev.1 + last.1)
    }
}

/// The classes and imports found in one statement.
pub open spec fn extracted_one(s: Stmt, parent: Option<Seq<char>>, current: Seq<char>, is_package: bool) -> (
    Seq<(Seq<char>, Seq<Seq<char>>)>,
    Seq<(Seq<char>, Seq<char>)>,
)
    decreases s,
{
    match s {
        Stmt::ClassDef { name, bases, body } => {
            let full = nested_name(parent, name@);
            let inner = extracted(body@, Some(full), current, is_package);
            (seq![(full, base_references(bases@))] + inner.0, inner.1)
        },
        _ => (Seq::empty(), statement_imports(s, current, is_package)),
    }
}

/// The characters of an optional string.
pub open spec fn opt_view(o: Option<String>) -> Option<Seq<char>> {
    match o {
        Some(s) => Some(s@),
        None => None,
    }
}

/// A class definition as (name, bases).
pub open spec fn class_entry(d: ClassDefinition) -> (Seq<char>, Seq<Seq<char>>) {
    (d.name@, strings_view(d.bases@))
}

/// The dotted name that an attribute chain ending in a simple name spells.
fn attribute_chain_of(e: &BaseExpr) -> (r: Option<String>)
    ensures
        opt_view(r) == attribute_chain(*e),
    decreases e,
{
    match e {
        BaseExpr::Name(n) => Some(n.clone()),
        BaseExpr::Attribute(v, a) => match attribute_chain_of(v) {
            Some(p) => Some(join_dotted(p.as_str(), a.as_str())),
            None => None,
        },
        _ => None,
    }
}

/// The class reference that a base expression spells: a simple name, a dotted
/// attribute chain, or, for a subscript, what it subscripts. `None` for other forms.
pub fn extract_base_class(expr: &BaseExpr) -> (r: Option<String>)
    ensures
        opt_view(r) == base_reference(*expr),
    decreases expr,
{
    match expr {
        BaseExpr::Subscript(v) => extract_base_class(v),
        BaseExpr::Other => None,
        _ => attribute_chain_of(expr),
    }
}

/// The class references of the base expressions that spell one, in order.
fn extract_bases(exprs: &Vec<BaseExpr>) -> (r: Vec<String>)
    ensures
        strings_view(r@) == base_references(exprs@),
{
    let mut r: Vec<String> = Vec::new();
    let mut i: usize = 0;
    while i < exprs.len()
        invariant
            i <= exprs.len(),
            strings_view(r@) == base_references(exprs@.take(i as int)),
        decreases exprs.len() - i,
    {
        assert(exprs@.take(i + 1).drop_last() =~= exprs@.take(i as int));
        assert(exprs@.take(i + 1).last() == exprs@[i as int]);
        match extract_base_class(&exprs[i]) {
            Some(b) => {
                let ghost prev = r@;
                r.push(b);
                assert(strings_view(r@) =~= strings_view(prev).push(b@));
            },
            None => {},
        }
        i = i + 1;
    }
    assert(exprs@.take(exprs.len() as int) =~= exprs@);
    r
}

/// The local name of an imported name.
fn bound_name_of(a: &Alias) -> (r: String)
    ensures
        r@ == bound_name(*a),
{
    match &a.asname {
        Some(x) => x.clone(),
        None => a.name.clone(),
    }
}

/// Appends the normalized imports of statement `s`, found in module `current`.
fn push_statement_imports(s: &Stmt, current: &String, is_package: bool, imports: &mut Vec<Import>)
    ensures
        imports_view(final(imports)@) == imports_view(old(imports)@) + statement_imports(*s, current@, is_package),
{
    let ghost start = imports_view(imports@);
    match s {
        Stmt::Import { names } => {
            let ghost all = names@.map_values(|a: Alias| (a.name@, bound_name(a)));
            let mut j: usize = 0;
            while j < names.len()
                invariant
                    j <= names.len(),
                    all == names@.map_values(|a: Alias| (a.name@, bound_name(a))),
                    imports_view(imports@) == start + all.take(j as int),
                decreases names.len() - j,
            {
                let a = &names[j];
                let ghost prev = imports@;
                imports.push(Import { imported_item: a.name.clone(), imported_as: bound_name_of(a) });
                assert(imports_view(imports@) =~= imports_view(prev).push(all[j as int]));
                assert(all.take(j + 1) =~= all.take(j as int).push(all[j as int]));
                j = j + 1;
            }
            assert(all.take(names.len() as int) =~= all);
        },
        Stmt::ImportFrom { level, module, names } => {
            let ghost mv = match module {
                Some(m) => Some(m@),
                None => None,
            };
            let ghost all = names@.map_values(
                |a: Alias| (from_item(current@, is_package, *level as nat, mv, a.name@), bound_name(a)),
            );
            let mut j: usize = 0;
            while j < names.len()
                invariant
                    j <= names.len(),
                    all == names@.map_values(
                        |a: Alias| (from_item(current@, is_package, *level as nat, mv, a.name@), bound_name(a)),
                    ),
                    mv == match module {
                        Some(m) => Some(m@),
                        None => None::<Seq<char>>,
                    },
                    imports_view(imports@) == start + all.take(j as int),
                decreases names.len() - j,
            {
                let a = &names[j];
                let item = if *level > 0 {
                    let base = match resolve_relative_import_base(current.as_str(), *level as usize, is_package) {
                        Some(b) => b,
                        None => String::new(),
                    };
                    match module {
                        Some(m) => {
                            let bm = join_dotted(base.as_str(), m.as_str());
                            join_dotted(bm.as_str(), a.name.as_str())
                        },
                        None => join_dotted(base.as_str(), a.name.as_str()),
                    }
                } else {
                    match module {
                        Some(m) => if m.as_str().unicode_len() > 0 {
                            join_dotted(m.as_str(), a.name.as_str())
                        } else {
                            a.name.clone()
                        },
                        None => a.name.clone(),
                    }
                };
                let ghost prev = imports@;
                imports.push(Import { imported_item: item, imported_as: bound_name_of(a) });
                assert(imports_view(imports@) =~= imports_view(prev).push(all[j as int]));
                assert(all.take(j + 1) =~= all.take(j as int).push(all[j as int]));
                j = j + 1;
            }
            assert(all.take(names.len() as int) =~= all);
        },
        _ => {
            assert(imports_view(imports@) =~= start + Seq::empty());
        },
    }
}

/// Appends the classes and imports found in `stmts`, walking into class bodies;
/// nested classes get their enclosing class's name and a dot in front of theirs.
pub fn extract_from_statements(
    stmts: &Vec<Stmt>,
    parent: Option<&String>,
    module_name: &String,
    file_path: &String,
    is_package: bool,
    classes: &mut Vec<ClassDefinition>,
    imports: &mut Vec<Import>,
)
    requires
        forall|k: int|
            0 <= k < old(classes)@.len() ==> (#[trigger] old(classes)@[k]).module_name@ == module_name@
                && old(classes)@[k].file_path@ == file_path@,
    ensures
        forall|k: int|
            0 <= k < final(classes)@.len() ==> (#[trigger] final(classes)@[k]).module_name@ == module_name@
                && final(classes)@[k].file_path@ == file_path@,
        ({
            let found = extracted(
                stmts@,
                match parent {
                    Some(p) => Some(p@),
                    None => None,
                },
                module_name@,
                is_package,
            );
            &&& final(classes)@.map_values(|d: ClassDefinition| class_entry(d)) == old(classes)@.map_values(
                |d: ClassDefinition| class_entry(d),
            ) + found.0
            &&& imports_view(final(imports)@) == imports_view(old(imports)@) + found.1
        }),
    decreases stmts,
{
    let ghost pv = match parent {
        Some(p) => Some(p@),
        None => None,
    };
    let ghost c0 = classes@.map_values(|d: ClassDefinition| class_entry(d));
    let ghost i0 = imports_view(imports@);
    let mut i: usize = 0;
    while i < stmts.len()
        invariant
            i <= stmts.len(),
            pv == match parent {
                Some(p) => Some(p@),
                None => None::<Seq<char>>,
            },
            forall|k: int|
                0 <= k < classes@.len() ==> (#[trigger] classes@[k]).module_name@ == module_name@
                    && classes@[k].file_path@ == file_path@,
            classes@.map_values(|d: ClassDefinition| class_entry(d)) == c0 + extracted(
                stmts@.take(i as int),
                pv,
                module_name@,
                is_package,
            ).0,
            imports_view(imports@) == i0 + extracted(stmts@.take(i as int), pv, module_name@, is_package).1,
        decreases stmts.len() - i,
    {
        let ghost before_c = classes@.map_values(|d: ClassDefinition| class_entry(d));
        let ghost before_i = imports_view(imports@);
        proof {
            assert(stmts@.take(i + 1).drop_last() =~= stmts@.take(i as int));
            assert(stmts@.take(i + 1).last() == stmts@[i as int]);
        }
        let stmt = &stmts[i];
        match stmt {
            Stmt::ClassDef { name, bases, body } => {
                let full = match parent {
                    Some(p) => join_dotted(p.as_str(), name.as_str()),
                    None => name.clone(),
                };
                let ghost prev = classes@;
                classes.push(
                    ClassDefinition {
                        name: full.clone(),
                        module_name: module_name.clone(),
                        file_path: file_path.clone(),
                        bases: extract_bases(bases),
                    },
                );
                proof {
                    assert(classes@.map_values(|d: ClassDefinition| class_entry(d)) =~= prev.map_values(
                        |d: ClassDefinition| class_entry(d),
                    ).push(class_entry(classes@[prev.len() as int])));
                }
                let ghost mid_c = classes@.map_values(|d: ClassDefinition| class_entry(d));
                extract_from_statements(body, Some(&full), module_name, file_path, is_package, classes, imports);
                proof {
                    let one = extracted_one(stmts@[i as int], pv, module_name@, is_package);
                    let inner = extracted(body@, Some(full@), module_name@, is_package);
                    assert(one.0 == seq![(full@, base_references(bases@))] + inner.0);
                    assert(classes@.map_values(|d: ClassDefinition| class_entry(d)) =~= before_c + one.0);
                    assert(imports_view(imports@) =~= before_i + one.1);
                }
            },
            _ => {
                push_statement_imports(stmt, module_name, is_package, imports);
                proof {
                    let one = extracted_one(stmts@[i as int], pv, module_name@, is_package);
                    assert(one.1 == statement_imports(*stmt, module_name@, is_package));
                    assert(classes@.map_values(|d: ClassDefinition| class_entry(d)) =~= before_c + one.0);
                    assert(imports_view(imports@) =~= before_i + one.1);
                }
            },
        }
        i = i + 1;
    }
    proof {
        assert(stmts@.take(stmts.len() as int) =~= stmts@);
    }
}

/// Whether a file of this name is a package's `__init__` file.
pub fn is_package_file(file_name: &str) -> (r: bool)
    ensures
        r == (file_name@ == "__init__.py"@),
{
    crate::names::str_eq(file_name, "__init__.py")
}

/// The record of a file from its statements: its classes, nested ones included, and
/// its normalized imports.
pub fn parsed_file_from_statements(
    stmts: &Vec<Stmt>,
    file_path: &str,
    module_name: &str,
    is_package: bool,
) -> (r: ParsedFile)
    ensures
        r.file_path@ == file_path@,
        r.module_name@ == module_name@,
        r.is_package == is_package,
        r.classes@.map_values(|d: ClassDefinition| class_entry(d)) == extracted(stmts@, None, module_name@, is_package).0,
        imports_view(r.imports@) == extracted(stmts@, None, module_name@, is_package).1,
        forall|k: int|
            0 <= k < r.classes@.len() ==> (#[trigger] r.classes@[k]).module_name@ == module_name@
                && r.classes@[k].file_path@ == file_path@,
{
    let module = module_name.to_owned();
    let file = file_path.to_owned();
    let mut classes: Vec<ClassDefinition> = Vec::new();
    let mut imports: Vec<Import> = Vec::new();
    extract_from_statements(stmts, None, &module, &file, is_package, &mut classes, &mut imports);
    proof {
        assert(Seq::<ClassDefinition>::empty().map_values(|d: ClassDefinition| class_entry(d)) =~= Seq::empty());
        assert(imports_view(Seq::<Import>::empty()) =~= Seq::empty());
        assert(classes@.map_values(|d: ClassDefinition| class_entry(d)) =~= extracted(stmts@, None, module_name@, is_package).0);
        assert(imports_view(imports@) =~= extracted(stmts@, None, module_name@, is_package).1);
    }
    ParsedFile { file_path: file, module_name: module, classes, imports, is_package }
}

/// A file name without its extension: up to its last dot, unless that dot begins it.
pub open spec fn file_stem(name: Seq<char>) -> Seq<char> {
    let p = last_dot_below(name, name.len() as int);
    if p > 0 {
        name.subrange(0, p)
    } else {
        name
    }
}

/// The parts joined by dots.
pub open spec fn join_with_dots(parts: Seq<Seq<char>>) -> Seq<char>
    decreases parts.len(),
{
    if parts.len() == 0 {
        Seq::empty()
    } else if parts.len() == 1 {
        parts[0]
    } else {
        dotted(join_with_dots(parts.drop_last()), parts.last())
    }
}

/// The module's components for a file's path components relative to the root: the
/// extension dropped from the file name, and an `__init__` file folded onto its package.
pub open spec fn module_parts(components: Seq<Seq<char>>) -> Seq<Seq<char>> {
    if components.len() == 0 {
        Seq::empty()
    } else {
        let parts = components.drop_last().push(file_stem(components.last()));
        if parts.last() == "__init__"@ {
            parts.drop_last()
        } else {
            parts
        }
    }
}

/// The module path of a file with these path components relative to the root, if it
/// has one: a root-level `__init__` file has none.
pub open spec fn module_path_of(components: Seq<Seq<char>>) -> Option<Seq<char>> {
    let parts = module_parts(components);
    if parts.len() == 0 {
        None
    } else {
        Some(join_with_dots(parts))
    }
}

/// A file name without its extension.
fn file_stem_of(name: &str) -> (r: String)
    ensures
        r@ == file_stem(name@),
{
    let cs = crate::names::chars_of(name);
    let len = cs.len();
    let mut k: usize = len;
    while k > 0
        invariant
            cs@ == name@,
            len == name@.len(),
            k <= len,
            last_dot_below(name@, len as int) == last_dot_below(name@, k as int),
        decreases k,
    {
        if cs[k - 1] == '.' {
            if k - 1 > 0 {
                return crate::names::substring(name, 0, k - 1);
            } else {
                return name.to_owned();
            }
        }
        k = k - 1;
    }
    name.to_owned()
}

/// The module path of a file from its path components relative to the root
/// (`foo/bar/baz.py` gives `foo.bar.baz`, `foo/__init__.py` gives `foo`); `None` when
/// nothing is left, as for a root-level `__init__` file.
pub fn file_path_to_module_path(components: &Vec<String>) -> (r: Option<String>)
    ensures
        opt_view(r) == module_path_of(strings_view(components@)),
{
    let n = components.len();
    if n == 0 {
        return None;
    }
    let ghost cs = strings_view(components@);
    let stem = file_stem_of(components[n - 1].as_str());
    let ghost parts = cs.drop_last().push(file_stem(cs.last()));
    proof {
        reveal_strlit("__init__");
    }
    let is_init = crate::names::str_eq(stem.as_str(), "__init__");
    let keep: usize = if is_init {
        n - 1
    } else {
        n
    };
    proof {
        assert(parts.last() == stem@);
        assert(module_parts(cs) =~= parts.take(keep as int));
    }
    if keep == 0 {
        return None;
    }
    let mut out = if n == 1 {
        stem.clone()
    } else {
        components[0].clone()
    };
    let mut i: usize = 1;
    proof {
        assert(parts.take(1) =~= seq![parts[0]]);
        assert(parts[0] == out@);
    }
    while i < keep
        invariant
            1 <= i <= keep,
            keep <= n,
            n == components.len(),
            cs == strings_view(components@),
            parts == cs.drop_last().push(file_stem(cs.last())),
            parts.len() == n,
            stem@ == parts[n - 1],
            out@ == join_with_dots(parts.take(i as int)),
        decreases keep - i,
    {
        let next = if i == n - 1 {
            stem.clone()
        } else {
            components[i].clone()
        };
        assert(next@ == parts[i as int]);
        proof {
            assert(parts.take(i + 1).drop_last() =~= parts.take(i as int));
        }
        out = join_dotted(out.as_str(), next.as_str());
        i = i + 1;
    }
    Some(out)
}

/// A class definition as (name, module path, file path, bases).
pub open spec fn definition_view(d: ClassDefinition) -> (Seq<char>, Seq<char>, Seq<char>, Seq<Seq<char>>) {
    (d.name@, d.module_name@, d.file_path@, strings_view(d.bases@))
}

/// A file's record as plain values: file path, module path, classes, imports, package flag.
pub open spec fn parsed_view(p: ParsedFile) -> (
    Seq<char>,
    Seq<char>,
    Seq<(Seq<char>, Seq<char>, Seq<char>, Seq<Seq<char>>)>,
    Seq<(Seq<char>, Seq<char>)>,
    bool,
) {
    (
        p.file_path@,
        p.module_name@,
        p.classes@.map_values(|d: ClassDefinition| definition_view(d)),
        imports_view(p.imports@),
        p.is_package,
    )
}

impl ClassDefinition {
    /// A copy of this definition.
    pub fn duplicate(&self) -> (r: ClassDefinition)
        ensures
            definition_view(r) == definition_view(*self),
    {
        ClassDefinition {
            name: self.name.clone(),
            module_name: self.module_name.clone(),
            file_path: self.file_path.clone(),
            bases: clone_strings(&self.bases),
        }
    }
}

impl ParsedFile {
    /// A copy of this record.
    pub fn duplicate(&self) -> (r: ParsedFile)
        ensures
            parsed_view(r) == parsed_view(*self),
    {
        let mut classes: Vec<ClassDefinition> = Vec::new();
        let mut i: usize = 0;
        while i < self.classes.len()
            invariant
                i <= self.classes.len(),
                classes.len() == i,
                forall|k: int| 0 <= k < i ==> definition_view(#[trigger] classes@[k]) == definition_view(self.classes@[k]),
            decreases self.classes.len() - i,
        {
            classes.push(self.classes[i].duplicate());
            i = i + 1;
        }
        let r = ParsedFile {
            file_path: self.file_path.clone(),
            module_name: self.module_name.clone(),
            classes,
            imports: clone_imports(&self.imports),
            is_package: self.is_package,
        };
        assert(r.classes@.map_values(|d: ClassDefinition| definition_view(d)) =~= self.classes@.map_values(
            |d: ClassDefinition| definition_view(d),
        ));
        r
    }
}

impl Import {
    /// A copy of this import.
    pub fn duplicate(&self) -> (r: Import)
        ensures
            r@ == self@,
    {
        Import { imported_item: self.imported_item.clone(), imported_as: self.imported_as.clone() }
    }
}

/// A copy of each string.
pub fn clone_strings(v: &Vec<String>) -> (r: Vec<String>)
    ensures
        strings_view(r@) == strings_view(v@),
{
    let mut r: Vec<String> = Vec::new();
    let mut i: usize = 0;
    while i < v.len()
        invariant
            i <= v.len(),
            r@.len() == i,
            forall|k: int| 0 <= k < i ==> r@[k]@ == v@[k]@,
        decreases v.len() - i,
    {
        r.push(v[i].clone());
        i = i + 1;
    }
    assert(strings_view(r@) =~= strings_view(v@));
    r
}

/// A copy of each import.
pub fn clone_imports(v: &Vec<Import>) -> (r: Vec<Import>)
    ensures
        imports_view(r@) == imports_view(v@),
{
    let mut r: Vec<Import> = Vec::new();
    let mut i: usize = 0;
    while i < v.len()
        invariant
            i <= v.len(),
            r@.len() == i,
            forall|k: int| 0 <= k < i ==> r@[k]@ == v@[k]@,
        decreases v.len() - i,
    {
        r.push(v[i].duplicate());
        i = i + 1;
    }
    assert(imports_view(r@) =~= imports_view(v@));
    r
}

} // verus!
