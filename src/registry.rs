//! The registry: every module, class and import found in the source tree, and the
//! resolution of a base-class reference to the class it names.

use vstd::prelude::*;

use crate::index::{hash_pair, hash_str, pair_hash, str_hash, HashIndex};
use crate::names::{
    after_dotted_prefix, dotted, has_dotted_prefix, is_dotted_prefix, join_dotted, substring,
};
use crate::parser::{
    clone_imports, clone_strings, definition_view, imports_view, parsed_view, strings_view, ClassDefinition, Import,
    ParsedFile,
};

verus! {

/// A class seen as (module path, class name).
pub type ClassKey = (Seq<char>, Seq<char>);

/// An import seen as (imported item, local name).
pub type ImportKey = (Seq<char>, Seq<char>);

/// How deep one resolution may follow imports and re-exports.
///
/// A cycle of imports is cut by the set of visited (module, name) pairs; this bound also
/// stops an import that keeps lengthening the name it resolves (`from a import x` in
/// module `a` itself, bound to a name that `a.x` extends).
pub const MAX_RESOLUTION_DEPTH: usize = 1024;

/// The most hash buckets an index of the registry gets.
pub const MAX_SLOTS: usize = 1048576;

/// Metadata about a module.
#[derive(Debug, Clone)]
pub struct ModuleMetadata {
    /// The path of the module's file.
    pub file_path: String,
    /// Whether the module is a package (an `__init__` file).
    pub is_package: bool,
}

/// Metadata about a class definition.
#[derive(Debug, Clone)]
pub struct ClassMetadata {
    /// The base classes as written (e.g. "Foo" or "module.Foo"), not yet resolved.
    pub bases: Vec<String>,
}

/// A class: the module that defines it and its name, nested names dot-joined
/// ("Outer.Inner").
#[derive(Debug, Clone, PartialEq, Eq, Hash)]
pub struct ClassId {
    /// The module path, e.g. "foo.bar".
    pub module: String,
    /// The class name, e.g. "Outer.Inner".
    pub name: String,
}

impl View for ClassId {
    type V = ClassKey;

    open spec fn view(&self) -> ClassKey {
        (self.module@, self.name@)
    }
}

impl ClassId {
    /// A copy of this class id.
    pub fn duplicate(&self) -> (r: ClassId)
        ensures
            r@ == self@,
    {
        ClassId { module: self.module.clone(), name: self.name.clone() }
    }
}

/// The key of an optional class id.
pub open spec fn opt_key(o: Option<ClassId>) -> Option<ClassKey> {
    match o {
        Some(id) => Some(id@),
        None => None,
    }
}

/// The keys of a sequence of class ids, as a set.
pub open spec fn key_set(v: Seq<ClassId>) -> Set<ClassKey> {
    v.map_values(|c: ClassId| c@).to_set()
}

/// No class appears twice.
pub open spec fn keys_distinct(v: Seq<ClassId>) -> bool {
    forall|i: int, j: int| 0 <= i < v.len() && 0 <= j < v.len() && i != j ==> v[i]@ != v[j]@
}

/// The registry as maps: module path to (file path, is package), class to its
/// unresolved bases, module path to its imports in file order.
pub struct RegistryModel {
    pub modules: Map<Seq<char>, (Seq<char>, bool)>,
    pub classes: Map<ClassKey, Seq<Seq<char>>>,
    pub imports: Map<Seq<char>, Seq<ImportKey>>,
}

/// The classes of one file added to `m`, later definitions replacing earlier ones.
pub open spec fn add_file_classes(
    m: Map<ClassKey, Seq<Seq<char>>>,
    module: Seq<char>,
    defs: Seq<crate::parser::ClassDefinition>,
) -> Map<ClassKey, Seq<Seq<char>>>
    decreases defs.len(),
{
    if defs.len() == 0 {
        m
    } else {
        add_file_classes(m, module, defs.drop_last()).insert(
            (module, defs.last().name@),
            strings_view(defs.last().bases@),
        )
    }
}

/// The registry built from `files` in order: a later file with the same module path
/// replaces the earlier one's metadata and imports; classes accumulate.
pub open spec fn model_of_files(files: Seq<ParsedFile>) -> RegistryModel
    decreases files.len(),
{
    if files.len() == 0 {
        RegistryModel { modules: Map::empty(), classes: Map::empty(), imports: Map::empty() }
    } else {
        let prev = model_of_files(files.drop_last());
        let f = files.last();
        RegistryModel {
            modules: prev.modules.insert(f.module_name@, (f.file_path@, f.is_package)),
            classes: add_file_classes(prev.classes, f.module_name@, f.classes@),
            imports: prev.imports.insert(f.module_name@, imports_view(f.imports@)),
        }
    }
}

/// An import applies to `name` when its local name is `name` or a dotted prefix of it.
pub open spec fn import_applies(imp: ImportKey, name: Seq<char>) -> bool {
    name == imp.1 || is_dotted_prefix(imp.1, name)
}

/// The first import at index `k` or later that applies to `name`.
pub open spec fn first_import_from(imports: Seq<ImportKey>, name: Seq<char>, k: int) -> Option<
    ImportKey,
>
    decreases imports.len() - k,
{
    if k < 0 || k >= imports.len() {
        None
    } else if import_applies(imports[k], name) {
        Some(imports[k])
    } else {
        first_import_from(imports, name, k + 1)
    }
}

/// `name` with the local name of `imp` replaced by the item it stands for.
pub open spec fn substituted(imp: ImportKey, name: Seq<char>) -> Seq<char> {
    if name == imp.1 {
        imp.0
    } else {
        dotted(imp.0, after_dotted_prefix(imp.1, name))
    }
}

/// `name` as seen from `module`: rewritten by the first import of `module` that
/// applies to it, unchanged if none does.
pub open spec fn resolved_name(reg: RegistryModel, module: Seq<char>, name: Seq<char>) -> Seq<
    char,
> {
    match first_import_from(reg.imports[module], name, 0) {
        Some(imp) => substituted(imp, name),
        None => name,
    }
}

/// Position `p` of `s` is a dot, and what stands before it is a registered module.
pub open spec fn is_split_point(reg: RegistryModel, s: Seq<char>, p: int) -> bool {
    0 <= p < s.len() && s[p] == '.' && reg.modules.contains_key(s.subrange(0, p))
}

/// The largest split point of `s` below `k`, or -1.
pub open spec fn last_split_below(reg: RegistryModel, s: Seq<char>, k: int) -> int
    decreases k,
{
    if k <= 0 {
        -1
    } else if is_split_point(reg, s, k - 1) {
        k - 1
    } else {
        last_split_below(reg, s, k - 1)
    }
}

/// Resolution of `name` in the context of `module`, with the pairs already visited
/// in this resolution and the depth still allowed.
///
/// A class defined under that name in that module is the answer. Otherwise the name
/// is rewritten through the module's imports, and the longest registered module that
/// is a strict dotted prefix of the result is asked for the rest. A result that is
/// itself a registered module names no class.
pub open spec fn resolve_from(
    reg: RegistryModel,
    module: Seq<char>,
    name: Seq<char>,
    visited: Set<ClassKey>,
    depth: nat,
) -> Option<ClassKey>
    decreases depth,
{
    if visited.contains((module, name)) {
        None
    } else if reg.classes.contains_key((module, name)) {
        Some((module, name))
    } else if !reg.imports.contains_key(module) {
        None
    } else {
        let s = resolved_name(reg, module, name);
        let p = last_split_below(reg, s, s.len() as int);
        if reg.modules.contains_key(s) || p < 0 || depth == 0 {
            None
        } else {
            resolve_from(
                reg,
                s.subrange(0, p),
                s.subrange(p + 1, s.len() as int),
                visited.insert((module, name)),
                (depth - 1) as nat,
            )
        }
    }
}

/// Resolution of `name` in the context of `module`, from a fresh start.
pub open spec fn resolve(reg: RegistryModel, module: Seq<char>, name: Seq<char>) -> Option<
    ClassKey,
> {
    resolve_from(reg, module, name, Set::empty(), MAX_RESOLUTION_DEPTH as nat)
}

struct ModuleEntry {
    path: String,
    metadata: ModuleMetadata,
    imports: Vec<Import>,
}

struct ClassEntry {
    id: ClassId,
    metadata: ClassMetadata,
}

/// The index of all modules, classes and imports of a source tree.
pub struct Registry {
    modules: Vec<ModuleEntry>,
    classes: Vec<ClassEntry>,
    module_slots: HashIndex,
    class_slots: HashIndex,
    model: Ghost<RegistryModel>,
}

impl View for Registry {
    type V = RegistryModel;

    closed spec fn view(&self) -> RegistryModel {
        self.model@
    }
}

impl Registry {
    /// The vectors hold exactly what the model says, each key once.
    pub closed spec fn wf(&self) -> bool {
        let m = self.model@;
        &&& forall|i: int|
            0 <= i < self.modules.len() ==> {
                let e = #[trigger] self.modules@[i];
                &&& m.modules.contains_key(e.path@)
                &&& m.modules[e.path@] == (e.metadata.file_path@, e.metadata.is_package)
                &&& m.imports[e.path@] == imports_view(e.imports@)
            }
        &&& forall|k: Seq<char>|
            #[trigger] m.modules.contains_key(k) ==> exists|i: int|
                0 <= i < self.modules.len() && self.modules@[i].path@ == k
        &&& m.imports.dom() == m.modules.dom()
        &&& forall|i: int, j: int|
            0 <= i < self.modules.len() && 0 <= j < self.modules.len() && i != j
                ==> self.modules@[i].path@ != self.modules@[j].path@
        &&& forall|i: int|
            0 <= i < self.classes.len() ==> {
                let e = #[trigger] self.classes@[i];
                &&& m.classes.contains_key(e.id@)
                &&& m.classes[e.id@] == strings_view(e.metadata.bases@)
            }
        &&& forall|k: ClassKey|
            #[trigger] m.classes.contains_key(k) ==> exists|i: int|
                0 <= i < self.classes.len() && self.classes@[i].id@ == k
        &&& forall|i: int, j: int|
            0 <= i < self.classes.len() && 0 <= j < self.classes.len() && i != j
                ==> self.classes@[i].id@ != self.classes@[j].id@
        &&& self.module_slots.wf()
        &&& self.module_slots.hashes().len() == self.modules.len()
        &&& forall|i: int|
            0 <= i < self.modules.len() ==> self.module_slots.hashes()[i] == str_hash(
                (#[trigger] self.modules@[i]).path@,
            )
        &&& self.class_slots.wf()
        &&& self.class_slots.hashes().len() == self.classes.len()
        &&& forall|i: int|
            0 <= i < self.classes.len() ==> self.class_slots.hashes()[i] == pair_hash(
                (#[trigger] self.classes@[i]).id.module@,
                self.classes@[i].id.name@,
            )
    }

    /// The registered classes, in the order in which they were first registered.
    pub closed spec fn class_seq(&self) -> Seq<ClassKey> {
        self.classes@.map_values(|e: ClassEntry| e.id@)
    }

    /// The registered classes hold each key once, and are the keys of the model.
    pub proof fn lemma_class_seq(&self)
        requires
            self.wf(),
        ensures
            self.class_seq().no_duplicates(),
            forall|k: ClassKey| self@.classes.contains_key(k) <==> self.class_seq().contains(k),
    {
        assert forall|k: ClassKey| self@.classes.contains_key(k) implies self.class_seq().contains(
            k,
        ) by {
            let i = choose|i: int| 0 <= i < self.classes.len() && self.classes@[i].id@ == k;
            assert(self.class_seq()[i] == k);
        }
    }

    /// The number of registered classes.
    pub fn class_count(&self) -> (r: usize)
        requires
            self.wf(),
        ensures
            r == self.class_seq().len(),
    {
        self.classes.len()
    }

    /// The id of the registered class at position `i`.
    pub fn class_at(&self, i: usize) -> (r: ClassId)
        requires
            self.wf(),
            i < self.class_seq().len(),
        ensures
            r@ == self.class_seq()[i as int],
    {
        self.classes[i].id.duplicate()
    }

    /// The unresolved bases of the registered class at position `i`.
    pub fn bases_at(&self, i: usize) -> (r: &Vec<String>)
        requires
            self.wf(),
            i < self.class_seq().len(),
        ensures
            strings_view(r@) == self@.classes[self.class_seq()[i as int]],
    {
        &self.classes[i].metadata.bases
    }

    /// The position of the module `path`, if it is registered.
    fn module_index(&self, path: &String) -> (r: Option<usize>)
        requires
            self.wf(),
        ensures
            match r {
                Some(i) => i < self.modules.len() && self.modules@[i as int].path@ == path@,
                None => !self@.modules.contains_key(path@),
            },
    {
        let h = hash_str(path.as_str());
        let cands = self.module_slots.candidates(h);
        let mut k: usize = 0;
        while k < cands.len()
            invariant
                self.wf(),
                h == str_hash(path@),
                forall|i: int|
                    0 <= i < self.module_slots.hashes().len() && self.module_slots.hashes()[i] == h ==> cands@.contains(
                        i as usize,
                    ),
                forall|q: int| 0 <= q < cands.len() ==> cands@[q] < self.modules.len(),
                k <= cands.len(),
                forall|q: int| 0 <= q < k ==> self.modules@[cands@[q] as int].path@ != path@,
            decreases cands.len() - k,
        {
            let j = cands[k];
            if self.modules[j].path == *path {
                return Some(j);
            }
            k = k + 1;
        }
        proof {
            if self@.modules.contains_key(path@) {
                let i = choose|i: int| 0 <= i < self.modules.len() && self.modules@[i].path@ == path@;
                assert(self.module_slots.hashes()[i] == str_hash(self.modules@[i].path@));
                assert(cands@.contains(i as usize));
                let q = choose|q: int| 0 <= q < cands.len() && cands@[q] == i as usize;
            }
        }
        None
    }

    /// The metadata of the module `path`, if it is registered.
    pub fn module_metadata(&self, path: &String) -> (r: Option<&ModuleMetadata>)
        requires
            self.wf(),
        ensures
            match r {
                Some(md) => self@.modules.contains_key(path@) && self@.modules[path@] == (
                md.file_path@,
                md.is_package,
                ),
                None => !self@.modules.contains_key(path@),
            },
    {
        match self.module_index(path) {
            Some(i) => Some(&self.modules[i].metadata),
            None => None,
        }
    }

    /// Whether `path` is a registered module.
    pub fn has_module(&self, path: &String) -> (r: bool)
        requires
            self.wf(),
        ensures
            r == self@.modules.contains_key(path@),
    {
        self.module_index(path).is_some()
    }

    /// The position of the class (module, name), if it is registered.
    pub fn class_index(&self, module: &String, name: &String) -> (r: Option<usize>)
        requires
            self.wf(),
        ensures
            match r {
                Some(i) => i < self.class_seq().len() && self.class_seq()[i as int] == (
                module@,
                name@,
                ),
                None => !self@.classes.contains_key((module@, name@)),
            },
    {
        let h = hash_pair(module.as_str(), name.as_str());
        let cands = self.class_slots.candidates(h);
        let mut k: usize = 0;
        while k < cands.len()
            invariant
                self.wf(),
                h == pair_hash(module@, name@),
                forall|i: int|
                    0 <= i < self.class_slots.hashes().len() && self.class_slots.hashes()[i] == h ==> cands@.contains(
                        i as usize,
                    ),
                forall|q: int| 0 <= q < cands.len() ==> cands@[q] < self.classes.len(),
                k <= cands.len(),
                forall|q: int| 0 <= q < k ==> self.classes@[cands@[q] as int].id@ != (module@, name@),
            decreases cands.len() - k,
        {
            let j = cands[k];
            if self.classes[j].id.module == *module && self.classes[j].id.name == *name {
                return Some(j);
            }
            k = k + 1;
        }
        proof {
            if self@.classes.contains_key((module@, name@)) {
                let i = choose|i: int| 0 <= i < self.classes.len() && self.classes@[i].id@ == (module@, name@);
                assert(self.class_slots.hashes()[i] == pair_hash(self.classes@[i].id.module@, self.classes@[i].id.name@));
                assert(cands@.contains(i as usize));
                let q = choose|q: int| 0 <= q < cands.len() && cands@[q] == i as usize;
            }
        }
        None
    }

    /// Records the module `path` with its metadata and imports, replacing an earlier
    /// record of it.
    fn set_module(&mut self, path: String, metadata: ModuleMetadata, imports: Vec<Import>)
        requires
            old(self).wf(),
        ensures
            final(self).wf(),
            final(self)@.modules == old(self)@.modules.insert(
                path@,
                (metadata.file_path@, metadata.is_package),
            ),
            final(self)@.imports == old(self)@.imports.insert(path@, imports_view(imports@)),
            final(self)@.classes == old(self)@.classes,
            final(self).class_seq() == old(self).class_seq(),
    {
        let ghost old_model = self.model@;
        let ghost key = path@;
        let ghost entry = (metadata.file_path@, metadata.is_package);
        let ghost imps = imports_view(imports@);
        let found = self.module_index(&path);
        match found {
            Some(i) => {
                self.modules.set(i, ModuleEntry { path, metadata, imports });
            },
            None => {
                let h = hash_str(path.as_str());
                self.module_slots.push(self.modules.len(), h);
                self.modules.push(ModuleEntry { path, metadata, imports });
            },
        }
        self.model = Ghost(
            RegistryModel {
                modules: old_model.modules.insert(key, entry),
                classes: old_model.classes,
                imports: old_model.imports.insert(key, imps),
            },
        );
        proof {
            let m = self.model@;
            assert(m.imports.dom() =~= m.modules.dom());
            assert forall|k: Seq<char>| #[trigger] m.modules.contains_key(k) implies exists|i: int|
                0 <= i < self.modules.len() && self.modules@[i].path@ == k by {
                if k != key {
                    let i = choose|i: int|
                        0 <= i < old(self).modules.len() && old(self).modules@[i].path@ == k;
                    assert(self.modules@[i].path@ == k);
                } else {
                    match found {
                        Some(i) => assert(self.modules@[i as int].path@ == k),
                        None => assert(self.modules@[old(self).modules.len() as int].path@ == k),
                    }
                }
            }
            assert(self.class_seq() =~= old(self).class_seq());
        }
    }

    /// Records the class `id` with its metadata, replacing an earlier record of it.
    fn set_class(&mut self, id: ClassId, metadata: ClassMetadata)
        requires
            old(self).wf(),
        ensures
            final(self).wf(),
            final(self)@.classes == old(self)@.classes.insert(id@, strings_view(metadata.bases@)),
            final(self)@.modules == old(self)@.modules,
            final(self)@.imports == old(self)@.imports,
    {
        let ghost old_model = self.model@;
        let ghost key = id@;
        let ghost bases = strings_view(metadata.bases@);
        let found = self.class_index(&id.module, &id.name);
        match found {
            Some(i) => {
                assert(self.class_seq()[i as int] == self.classes@[i as int].id@);
                self.classes.set(i, ClassEntry { id, metadata });
            },
            None => {
                let h = hash_pair(id.module.as_str(), id.name.as_str());
                self.class_slots.push(self.classes.len(), h);
                self.classes.push(ClassEntry { id, metadata });
            },
        }
        self.model = Ghost(
            RegistryModel {
                modules: old_model.modules,
                classes: old_model.classes.insert(key, bases),
                imports: old_model.imports,
            },
        );
        proof {
            let m = self.model@;
            assert forall|k: ClassKey| #[trigger] m.classes.contains_key(k) implies exists|i: int|
                0 <= i < self.classes.len() && self.classes@[i].id@ == k by {
                if k != key {
                    let i = choose|i: int|
                        0 <= i < old(self).classes.len() && old(self).classes@[i].id@ == k;
                    assert(self.classes@[i].id@ == k);
                } else {
                    match found {
                        Some(i) => assert(self.classes@[i as int].id@ == k),
                        None => assert(self.classes@[old(self).classes.len() as int].id@ == k),
                    }
                }
            }
            assert forall|i: int, j: int|
                0 <= i < self.classes.len() && 0 <= j < self.classes.len() && i != j
                    implies self.classes@[i].id@ != self.classes@[j].id@ by {
                if i < old(self).classes.len() && j < old(self).classes.len() {
                    assert(old(self).classes@[i] == self.classes@[i] || i == found.unwrap());
                } else if i < old(self).classes.len() {
                    assert(old(self).classes@[i] == self.classes@[i]);
                    assert(m.classes.contains_key(old(self).classes@[i].id@));
                } else {
                    assert(old(self).classes@[j] == self.classes@[j]);
                    assert(m.classes.contains_key(old(self).classes@[j].id@));
                }
            }
            assert forall|i: int| 0 <= i < self.classes.len() implies {
                let e = #[trigger] self.classes@[i];
                &&& m.classes.contains_key(e.id@)
                &&& m.classes[e.id@] == strings_view(e.metadata.bases@)
            } by {
                if i < old(self).classes.len() && self.classes@[i] == old(self).classes@[i] {
                    assert(old_model.classes.contains_key(self.classes@[i].id@));
                }
            }
            assert(self.modules == old(self).modules);
            assert(m.modules == old_model.modules);
            assert(m.imports == old_model.imports);
        }
    }

    /// Builds the registry from the files' records, in order.
    ///
    /// Each file's module gets its metadata and its imports, and each of its classes
    /// its bases; a later record of the same module or class replaces an earlier one.
    pub fn build(parsed_files: &[ParsedFile]) -> (r: Result<Registry, crate::error::Error>)
        ensures
            match r {
                Ok(reg) => reg.wf() && reg@ == model_of_files(parsed_files@),
                Err(_) => false,
            },
    {
        let mut class_total: usize = 0;
        let mut f: usize = 0;
        while f < parsed_files.len()
            invariant
                f <= parsed_files.len(),
                class_total <= MAX_SLOTS,
            decreases parsed_files.len() - f,
        {
            let n = parsed_files[f].classes.len();
            class_total = if n >= MAX_SLOTS - class_total {
                MAX_SLOTS
            } else {
                class_total + n
            };
            f = f + 1;
        }
        let module_total = if parsed_files.len() >= MAX_SLOTS {
            MAX_SLOTS
        } else {
            parsed_files.len()
        };
        let mut reg = Registry {
            modules: Vec::new(),
            classes: Vec::new(),
            module_slots: HashIndex::new(module_total),
            class_slots: HashIndex::new(class_total),
            model: Ghost(
                RegistryModel {
                    modules: Map::empty(),
                    classes: Map::empty(),
                    imports: Map::empty(),
                },
            ),
        };
        proof {
            assert(reg.model@.imports.dom() =~= reg.model@.modules.dom());
            assert(parsed_files@.take(0) =~= Seq::<ParsedFile>::empty());
        }
        let mut i: usize = 0;
        while i < parsed_files.len()
            invariant
                i <= parsed_files@.len(),
                reg.wf(),
                reg@ == model_of_files(parsed_files@.take(i as int)),
            decreases parsed_files.len() - i,
        {
            let f = &parsed_files[i];
            let ghost before = reg@;
            proof {
                assert(parsed_files@.take(i + 1).drop_last() =~= parsed_files@.take(i as int));
            }
            reg.set_module(
                f.module_name.clone(),
                ModuleMetadata { file_path: f.file_path.clone(), is_package: f.is_package },
                clone_imports(&f.imports),
            );
            let mut j: usize = 0;
            proof {
                assert(f.classes@.take(0) =~= Seq::<crate::parser::ClassDefinition>::empty());
            }
            while j < f.classes.len()
                invariant
                    i < parsed_files@.len(),
                    f == parsed_files@[i as int],
                    j <= f.classes@.len(),
                    reg.wf(),
                    reg@.modules == before.modules.insert(
                        f.module_name@,
                        (f.file_path@, f.is_package),
                    ),
                    reg@.imports == before.imports.insert(f.module_name@, imports_view(f.imports@)),
                    reg@.classes == add_file_classes(
                        before.classes,
                        f.module_name@,
                        f.classes@.take(j as int),
                    ),
                decreases f.classes.len() - j,
            {
                let def = &f.classes[j];
                proof {
                    assert(f.classes@.take(j + 1).drop_last() =~= f.classes@.take(j as int));
                }
                reg.set_class(
                    ClassId { module: f.module_name.clone(), name: def.name.clone() },
                    ClassMetadata { bases: clone_strings(&def.bases) },
                );
                j = j + 1;
            }
            proof {
                assert(f.classes@.take(f.classes.len() as int) =~= f.classes@);
            }
            i = i + 1;
        }
        proof {
            assert(parsed_files@.take(parsed_files.len() as int) =~= parsed_files@);
        }
        Ok(reg)
    }

    /// Whether (module, name) is among the visited pairs.
    fn is_visited(visited: &Vec<ClassId>, module: &String, name: &String) -> (r: bool)
        ensures
            r == key_set(visited@).contains((module@, name@)),
    {
        let mut i: usize = 0;
        while i < visited.len()
            invariant
                i <= visited.len(),
                forall|j: int| 0 <= j < i ==> visited@[j]@ != (module@, name@),
            decreases visited.len() - i,
        {
            if visited[i].module == *module && visited[i].name == *name {
                assert(visited@.map_values(|c: ClassId| c@)[i as int] == (module@, name@));
                return true;
            }
            i = i + 1;
        }
        assert(!visited@.map_values(|c: ClassId| c@).contains((module@, name@)));
        false
    }

    /// The position of the first import of module `mi` that applies to `name`.
    fn first_import(&self, mi: usize, name: &String) -> (r: Option<usize>)
        requires
            self.wf(),
            mi < self.modules.len(),
        ensures
            ({
                let imps = imports_view(self.modules@[mi as int].imports@);
                match r {
                    Some(k) => k < imps.len() && import_applies(imps[k as int], name@)
                        && first_import_from(imps, name@, 0) == Some(imps[k as int]),
                    None => first_import_from(imps, name@, 0) == None::<ImportKey>,
                }
            }),
    {
        let imports = &self.modules[mi].imports;
        let ghost imps = imports_view(imports@);
        let mut k: usize = 0;
        while k < imports.len()
            invariant
                imps == imports_view(imports@),
                mi < self.modules.len(),
                imps == imports_view(self.modules@[mi as int].imports@),
                k <= imports.len(),
                first_import_from(imps, name@, 0) == first_import_from(imps, name@, k as int),
            decreases imports.len() - k,
        {
            let imp = &imports[k];
            assert(imps[k as int] == imp@);
            if *name == imp.imported_as || has_dotted_prefix(name.as_str(), imp.imported_as.as_str()) {
                return Some(k);
            }
            k = k + 1;
        }
        None
    }

    /// `name` rewritten through the first import of module `mi` that applies to it.
    fn rewrite_name(&self, mi: usize, name: &String) -> (r: String)
        requires
            self.wf(),
            mi < self.modules.len(),
        ensures
            r@ == resolved_name(self@, self.modules@[mi as int].path@, name@),
    {
        let ghost e = self.modules@[mi as int];
        assert(self@.imports[e.path@] == imports_view(e.imports@));
        match self.first_import(mi, name) {
            Some(k) => {
                let imp = &self.modules[mi].imports[k];
                if *name == imp.imported_as {
                    imp.imported_item.clone()
                } else {
                    let n = name.as_str().unicode_len();
                    let rest = substring(name.as_str(), imp.imported_as.as_str().unicode_len() + 1, n);
                    join_dotted(imp.imported_item.as_str(), rest.as_str())
                }
            },
            None => name.clone(),
        }
    }

    /// The largest position of a dot in `s` that a registered module precedes.
    fn last_split(&self, s: &String) -> (r: Option<usize>)
        requires
            self.wf(),
        ensures
            match r {
                Some(p) => p < s@.len() && last_split_below(self@, s@, s@.len() as int) == p,
                None => last_split_below(self@, s@, s@.len() as int) < 0,
            },
    {
        let cs = crate::names::chars_of(s.as_str());
        let len = cs.len();
        let mut k: usize = len;
        while k > 0
            invariant
                cs@ == s@,
                len == s@.len(),
                k <= len,
                self.wf(),
                last_split_below(self@, s@, len as int) == last_split_below(self@, s@, k as int),
            decreases k,
        {
            let p = k - 1;
            if cs[p] == '.' {
                let prefix = substring(s.as_str(), 0, p);
                if self.has_module(&prefix) {
                    return Some(p);
                }
            }
            k = p;
        }
        None
    }

    /// Resolution of `name` in the context of `module`, given the pairs visited so far
    /// and the depth still allowed.
    fn resolve_in(&self, module: &String, name: &String, visited: Vec<ClassId>, depth: usize) -> (r:
        Option<ClassId>)
        requires
            self.wf(),
        ensures
            opt_key(r) == resolve_from(self@, module@, name@, key_set(visited@), depth as nat),
        decreases depth,
    {
        if Self::is_visited(&visited, module, name) {
            return None;
        }
        if self.class_index(module, name).is_some() {
            return Some(ClassId { module: module.clone(), name: name.clone() });
        }
        let mi = match self.module_index(module) {
            Some(mi) => mi,
            None => {
                assert(!self@.imports.contains_key(module@));
                return None;
            },
        };
        assert(self@.imports.contains_key(module@));
        let s = self.rewrite_name(mi, name);
        if self.has_module(&s) {
            return None;
        }
        match self.last_split(&s) {
            None => None,
            Some(p) => {
                if depth == 0 {
                    return None;
                }
                let len = s.as_str().unicode_len();
                let next_module = substring(s.as_str(), 0, p);
                let next_name = substring(s.as_str(), p + 1, len);
                let mut next_visited = visited;
                next_visited.push(ClassId { module: module.clone(), name: name.clone() });
                proof {
                    assert(next_visited@.map_values(|c: ClassId| c@) =~= visited@.map_values(
                        |c: ClassId| c@,
                    ).push((module@, name@)));
                    let sv = visited@.map_values(|c: ClassId| c@);
                    let nv = next_visited@.map_values(|c: ClassId| c@);
                    assert forall|k: ClassKey| nv.contains(k) <==> sv.contains(k) || k == (
                        module@,
                        name@,
                    ) by {
                        if nv.contains(k) {
                            let i = choose|i: int| 0 <= i < nv.len() && nv[i] == k;
                            if i < sv.len() {
                                assert(sv[i] == k);
                            }
                        }
                        if sv.contains(k) {
                            let i = choose|i: int| 0 <= i < sv.len() && sv[i] == k;
                            assert(nv[i] == k);
                        }
                        if k == (module@, name@) {
                            assert(nv[sv.len() as int] == k);
                        }
                    }
                    assert(key_set(next_visited@) =~= key_set(visited@).insert((module@, name@)));
                }
                self.resolve_in(&next_module, &next_name, next_visited, depth - 1)
            },
        }
    }

    /// Resolves the class reference `name`, as written in `module`, to the class it
    /// names: directly, through the module's imports, and through any chain of
    /// re-exporting modules. `None` when it names no class of the registry.
    pub fn resolve_class(&self, module: &str, name: &str) -> (r: Option<ClassId>)
        requires
            self.wf(),
        ensures
            opt_key(r) == resolve(self@, module@, name@),
    {
        let visited: Vec<ClassId> = Vec::new();
        assert(key_set(visited@) =~= Set::<ClassKey>::empty());
        self.resolve_in(&module.to_owned(), &name.to_owned(), visited, MAX_RESOLUTION_DEPTH)
    }
}

proof fn lemma_same_definitions(
    m: Map<ClassKey, Seq<Seq<char>>>,
    module: Seq<char>,
    d1: Seq<ClassDefinition>,
    d2: Seq<ClassDefinition>,
)
    requires
        d1.map_values(|d: ClassDefinition| definition_view(d)) == d2.map_values(|d: ClassDefinition| definition_view(d)),
    ensures
        add_file_classes(m, module, d1) == add_file_classes(m, module, d2),
    decreases d1.len(),
{
    let v1 = d1.map_values(|d: ClassDefinition| definition_view(d));
    let v2 = d2.map_values(|d: ClassDefinition| definition_view(d));
    assert(d1.len() == v1.len() && d2.len() == v2.len());
    if d1.len() > 0 {
        assert(d1.drop_last().map_values(|d: ClassDefinition| definition_view(d)) =~= v1.drop_last());
        assert(d2.drop_last().map_values(|d: ClassDefinition| definition_view(d)) =~= v2.drop_last());
        lemma_same_definitions(m, module, d1.drop_last(), d2.drop_last());
        assert(v1[d1.len() - 1] == v2[d2.len() - 1]);
    }
}

/// The registry depends on the files' records alone: records equal in content, such
/// as a cached record and a fresh parse of an unchanged file, build the same registry.
pub proof fn lemma_same_records_same_registry(f1: Seq<ParsedFile>, f2: Seq<ParsedFile>)
    requires
        f1.len() == f2.len(),
        forall|i: int| 0 <= i < f1.len() ==> parsed_view(#[trigger] f1[i]) == parsed_view(f2[i]),
    ensures
        model_of_files(f1) == model_of_files(f2),
    decreases f1.len(),
{
    if f1.len() > 0 {
        lemma_same_records_same_registry(f1.drop_last(), f2.drop_last());
        let a = f1.last();
        let b = f2.last();
        assert(parsed_view(f1[f1.len() - 1]) == parsed_view(f2[f2.len() - 1]));
        lemma_same_definitions(model_of_files(f1.drop_last()).classes, a.module_name@, a.classes@, b.classes@);
    }
}

/// What a resolution finds is a registered class.
pub proof fn lemma_resolve_from_registered(
    reg: RegistryModel,
    module: Seq<char>,
    name: Seq<char>,
    visited: Set<ClassKey>,
    depth: nat,
)
    ensures
        resolve_from(reg, module, name, visited, depth) matches Some(k) ==> reg.classes.contains_key(
            k,
        ),
    decreases depth,
{
    if !visited.contains((module, name)) && !reg.classes.contains_key((module, name))
        && reg.imports.contains_key(module) && depth > 0 {
        let s = resolved_name(reg, module, name);
        let p = last_split_below(reg, s, s.len() as int);
        if p >= 0 {
            lemma_resolve_from_registered(
                reg,
                s.subrange(0, p),
                s.subrange(p + 1, s.len() as int),
                visited.insert((module, name)),
                (depth - 1) as nat,
            );
        }
    }
}

/// Resolution is canonical: whatever chain of imports and re-exports a reference
/// follows, the class it reaches resolves to itself when named directly in the module
/// that defines it.
pub proof fn lemma_resolution_is_canonical(reg: RegistryModel, module: Seq<char>, name: Seq<char>)
    requires
        resolve(reg, module, name) is Some,
    ensures
        ({
            let found = resolve(reg, module, name).unwrap();
            resolve(reg, found.0, found.1) == Some(found)
        }),
{
    lemma_resolve_from_registered(reg, module, name, Set::empty(), MAX_RESOLUTION_DEPTH as nat);
}

} // verus!
