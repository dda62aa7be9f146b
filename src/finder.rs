//! The finder: a registry and its inheritance graph, the resolution of a queried class
//! name to one class, and the sorted references that answer a query.

use vstd::prelude::*;

use crate::error::Error;
use crate::graph::{direct_set, reach_set, InheritanceGraph};
use crate::names::{
    dotted, join_dotted, lemma_seq_lt_irreflexive, lemma_seq_lt_total, lemma_seq_lt_transitive,
    seq_lt, str_lt,
};
use crate::parser::ParsedFile;
use crate::registry::{
    key_set, keys_distinct, model_of_files, resolve, ClassId, ClassKey, Registry, RegistryModel,
};

verus! {

/// A class as a query reports it.
#[derive(Debug, Clone, PartialEq, Eq)]
pub struct ClassReference {
    /// The class name, nested names dot-joined.
    pub class_name: String,
    /// The module path where the class is defined, e.g. "foo.bar".
    pub module_name: String,
    /// The path of the file that defines it.
    pub file_path: String,
}

impl ClassReference {
    /// The (module, class) key of this reference.
    pub open spec fn key(&self) -> ClassKey {
        (self.module_name@, self.class_name@)
    }

    /// The fully qualified name: the module path, a dot, the class name.
    pub fn qualified_name(&self) -> (r: String)
        ensures
            r@ == dotted(self.module_name@, self.class_name@),
    {
        join_dotted(self.module_name.as_str(), self.class_name.as_str())
    }
}

/// How far a query follows the inheritance graph.
#[derive(Debug, Clone, Copy, PartialEq, Eq)]
pub enum SearchMode {
    /// One level of inheritance.
    Direct,
    /// Any number of levels.
    All,
}

/// The order of query results: by module path, then by class name.
pub open spec fn key_lt(a: ClassKey, b: ClassKey) -> bool {
    seq_lt(a.0, b.0) || (a.0 == b.0 && seq_lt(a.1, b.1))
}

/// The references are in strictly ascending order of (module path, class name).
pub open spec fn sorted_refs(v: Seq<ClassReference>) -> bool {
    forall|i: int, j: int| 0 <= i < j < v.len() ==> key_lt(v[i].key(), v[j].key())
}

/// The keys of the references, as a set.
pub open spec fn ref_keys(v: Seq<ClassReference>) -> Set<ClassKey> {
    v.map_values(|c: ClassReference| c.key()).to_set()
}

/// The modules that define a class named `name`.
pub open spec fn defining_modules(reg: RegistryModel, name: Seq<char>) -> Set<Seq<char>> {
    Set::new(|m: Seq<char>| reg.classes.contains_key((m, name)))
}

/// The class that a query names: the resolution of `name` in the given module, or,
/// without a module, the one class of that name when exactly one module defines it.
pub open spec fn target(reg: RegistryModel, name: Seq<char>, module: Option<Seq<char>>) -> Option<
    ClassKey,
> {
    match module {
        Some(m) => resolve(reg, m, name),
        None => if exists|m: Seq<char>| defining_modules(reg, name) == set![m] {
            Some((choose|m: Seq<char>| defining_modules(reg, name) == set![m], name))
        } else {
            None
        },
    }
}

/// `e` is the error of a query for `name` (in `module`, if given) that names no class.
pub open spec fn is_target_error(
    e: Error,
    reg: RegistryModel,
    name: Seq<char>,
    module: Option<Seq<char>>,
) -> bool {
    match module {
        Some(m) => e matches Error::ClassNotFound { name: n, module_name: Some(mm) } && n@ == name
            && mm@ == m,
        None => if defining_modules(reg, name).is_empty() {
            e matches Error::ClassNotFound { name: n, module_name: None } && n@ == name
        } else {
            e matches Error::AmbiguousClassName { name: n, candidates: c } && n@ == name
                && c@.map_values(|s: String| s@).no_duplicates() && c@.map_values(|s: String| s@).to_set()
                == defining_modules(reg, name) && c@.len() >= 2
        },
    }
}

/// The view of an optional module argument.
pub open spec fn opt_str(o: Option<&str>) -> Option<Seq<char>> {
    match o {
        Some(s) => Some(s@),
        None => None,
    }
}

/// The classes that a query in `mode` reports for `k`, downwards or upwards.
pub open spec fn query_set(reg: RegistryModel, down: bool, mode: SearchMode, k: ClassKey) -> Set<
    ClassKey,
> {
    match mode {
        SearchMode::Direct => direct_set(reg, down, k),
        SearchMode::All => reach_set(reg, down, k),
    }
}

/// `v` is the answer to a query that reports the classes `s`: one reference for each of
/// them whose module is registered, with that module's file, sorted.
pub open spec fn answers(v: Seq<ClassReference>, reg: RegistryModel, s: Set<ClassKey>) -> bool {
    &&& sorted_refs(v)
    &&& ref_keys(v) == s.filter(|k: ClassKey| reg.modules.contains_key(k.0))
    &&& forall|i: int|
        0 <= i < v.len() ==> reg.modules.contains_key(v[i].module_name@) && (#[trigger] v[i]).file_path@
            == reg.modules[v[i].module_name@].0
}

proof fn lemma_key_lt_irreflexive(a: ClassKey)
    ensures
        !key_lt(a, a),
{
    lemma_seq_lt_irreflexive(a.0);
    lemma_seq_lt_irreflexive(a.1);
}

proof fn lemma_key_lt_total(a: ClassKey, b: ClassKey)
    ensures
        a != b ==> key_lt(a, b) || key_lt(b, a),
{
    lemma_seq_lt_total(a.0, b.0);
    lemma_seq_lt_total(a.1, b.1);
}

proof fn lemma_key_lt_transitive(a: ClassKey, b: ClassKey, c: ClassKey)
    requires
        key_lt(a, b),
        key_lt(b, c),
    ensures
        key_lt(a, c),
{
    if seq_lt(a.0, b.0) && seq_lt(b.0, c.0) {
        lemma_seq_lt_transitive(a.0, b.0, c.0);
    } else if seq_lt(a.1, b.1) && seq_lt(b.1, c.1) {
        lemma_seq_lt_transitive(a.1, b.1, c.1);
    }
}

/// Whether reference `a` comes before `b`.
fn ref_lt(a: &ClassReference, b: &ClassReference) -> (r: bool)
    ensures
        r == key_lt(a.key(), b.key()),
{
    if str_lt(a.module_name.as_str(), b.module_name.as_str()) {
        true
    } else if a.module_name == b.module_name {
        str_lt(a.class_name.as_str(), b.class_name.as_str())
    } else {
        false
    }
}

/// `v` with `x` inserted at its place in the order.
fn insert_sorted(v: &mut Vec<ClassReference>, x: ClassReference)
    requires
        sorted_refs(old(v)@),
        !ref_keys(old(v)@).contains(x.key()),
    ensures
        sorted_refs(final(v)@),
        ref_keys(final(v)@) == ref_keys(old(v)@).insert(x.key()),
        forall|r: ClassReference| final(v)@.contains(r) <==> (old(v)@.contains(r) || r == x),
{
    let mut pos: usize = 0;
    while pos < v.len() && !ref_lt(&x, &v[pos])
        invariant
            pos <= v.len(),
            v@ == old(v)@,
            forall|k: int| 0 <= k < pos ==> !key_lt(x.key(), v@[k].key()),
        decreases v.len() - pos,
    {
        pos = pos + 1;
    }
    let ghost before = v@;
    proof {
        assert forall|k: int| 0 <= k < pos implies key_lt(before[k].key(), x.key()) by {
            assert(before.map_values(|c: ClassReference| c.key())[k] == before[k].key());
            lemma_key_lt_total(before[k].key(), x.key());
        }
    }
    v.insert(pos, x);
    proof {
        assert(v@ == before.insert(pos as int, x));
        assert forall|i: int, j: int| 0 <= i < j < v@.len() implies key_lt(v@[i].key(), v@[j].key()) by {
            if j < pos {
            } else if i < pos && j == pos {
            } else if i < pos && j > pos {
                assert(v@[j] == before[j - 1]);
            } else if i == pos {
                assert(v@[j] == before[j - 1]);
                if j - 1 > pos {
                    assert(key_lt(before[pos as int].key(), before[j - 1].key()));
                    lemma_key_lt_transitive(x.key(), before[pos as int].key(), before[j - 1].key());
                }
            } else {
                assert(v@[i] == before[i - 1]);
                assert(v@[j] == before[j - 1]);
            }
        }
        let bk = before.map_values(|c: ClassReference| c.key());
        let vk = v@.map_values(|c: ClassReference| c.key());
        assert(vk =~= bk.insert(pos as int, x.key()));
        assert forall|k: ClassKey| vk.contains(k) <==> (bk.contains(k) || k == x.key()) by {
            if vk.contains(k) {
                let i = choose|i: int| 0 <= i < vk.len() && vk[i] == k;
                if i < pos {
                    assert(bk[i] == k);
                } else if i > pos {
                    assert(bk[i - 1] == k);
                }
            }
            if bk.contains(k) {
                let i = choose|i: int| 0 <= i < bk.len() && bk[i] == k;
                if i < pos {
                    assert(vk[i] == k);
                } else {
                    assert(vk[i + 1] == k);
                }
            }
            if k == x.key() {
                assert(vk[pos as int] == k);
            }
        }
        assert(ref_keys(v@) =~= ref_keys(before).insert(x.key()));
        assert forall|r: ClassReference| v@.contains(r) <==> (before.contains(r) || r == x) by {
            if v@.contains(r) {
                let i = choose|i: int| 0 <= i < v@.len() && v@[i] == r;
                if i < pos {
                    assert(before[i] == r);
                } else if i > pos {
                    assert(before[i - 1] == r);
                }
            }
            if before.contains(r) {
                let i = choose|i: int| 0 <= i < before.len() && before[i] == r;
                if i < pos {
                    assert(v@[i] == r);
                } else {
                    assert(v@[i + 1] == r);
                }
            }
            if r == x {
                assert(v@[pos as int] == r);
            }
        }
    }
}

/// The keys of the references, in order.
pub open spec fn ref_key_seq(v: Seq<ClassReference>) -> Seq<ClassKey> {
    v.map_values(|c: ClassReference| c.key())
}

proof fn lemma_sorted_keys_unique(a: Seq<ClassKey>, b: Seq<ClassKey>)
    requires
        forall|i: int, j: int| 0 <= i < j < a.len() ==> key_lt(a[i], a[j]),
        forall|i: int, j: int| 0 <= i < j < b.len() ==> key_lt(b[i], b[j]),
        a.to_set() == b.to_set(),
    ensures
        a == b,
    decreases a.len(),
{
    if a.len() == 0 {
        if b.len() > 0 {
            assert(b.to_set().contains(b[0]));
        }
        assert(a =~= b);
    } else if b.len() == 0 {
        assert(a.to_set().contains(a[0]));
    } else {
        assert(a.to_set().contains(a[0]));
        assert(b.to_set().contains(b[0]));
        let j = choose|j: int| 0 <= j < b.len() && b[j] == a[0];
        let i = choose|i: int| 0 <= i < a.len() && a[i] == b[0];
        if a[0] != b[0] {
            assert(key_lt(b[0], a[0]));
            assert(key_lt(a[0], b[0]));
            lemma_key_lt_transitive(a[0], b[0], a[0]);
            lemma_key_lt_irreflexive(a[0]);
        }
        let a2 = a.drop_first();
        let b2 = b.drop_first();
        assert forall|x: ClassKey| a2.to_set().contains(x) <==> b2.to_set().contains(x) by {
            if a2.to_set().contains(x) {
                let k = choose|k: int| 0 <= k < a2.len() && a2[k] == x;
                assert(key_lt(a[0], a[k + 1]));
                lemma_key_lt_irreflexive(x);
                assert(a.to_set().contains(x));
                let q = choose|q: int| 0 <= q < b.len() && b[q] == x;
                assert(q != 0);
                assert(b2[q - 1] == x);
            }
            if b2.to_set().contains(x) {
                let k = choose|k: int| 0 <= k < b2.len() && b2[k] == x;
                assert(key_lt(b[0], b[k + 1]));
                lemma_key_lt_irreflexive(x);
                assert(b.to_set().contains(x));
                let q = choose|q: int| 0 <= q < a.len() && a[q] == x;
                assert(q != 0);
                assert(a2[q - 1] == x);
            }
        }
        assert(a2.to_set() =~= b2.to_set());
        lemma_sorted_keys_unique(a2, b2);
        assert(a =~= seq![a[0]] + a2);
        assert(b =~= seq![b[0]] + b2);
    }
}

/// A query's answer is determined by what it reports: two answers for the same classes
/// list the same classes, in the same order, with the same files.
pub proof fn lemma_answers_determined(
    v1: Seq<ClassReference>,
    v2: Seq<ClassReference>,
    reg: RegistryModel,
    s: Set<ClassKey>,
)
    requires
        answers(v1, reg, s),
        answers(v2, reg, s),
    ensures
        v1.len() == v2.len(),
        forall|i: int| 0 <= i < v1.len() ==> (#[trigger] v1[i]).key() == v2[i].key() && v1[i].file_path@ == v2[i].file_path@,
{
    let a = ref_key_seq(v1);
    let b = ref_key_seq(v2);
    lemma_sorted_keys_unique(a, b);
    assert(a.len() == v1.len() && b.len() == v2.len());
    assert forall|i: int| 0 <= i < v1.len() implies (#[trigger] v1[i]).key() == v2[i].key() && v1[i].file_path@
        == v2[i].file_path@ by {
        assert(a[i] == b[i]);
        assert(a[i] == v1[i].key());
        assert(b[i] == v2[i].key());
        assert(v1[i].file_path@ == reg.modules[v1[i].module_name@].0);
        assert(v2[i].file_path@ == reg.modules[v2[i].module_name@].0);
    }
}

/// A registry of a source tree and its inheritance graph, ready for queries.
pub struct SubclassFinder {
    registry: Registry,
    graph: InheritanceGraph,
}

impl View for SubclassFinder {
    type V = RegistryModel;

    /// The registry that the finder answers from.
    closed spec fn view(&self) -> RegistryModel {
        self.registry@
    }
}

impl SubclassFinder {
    /// The graph was built from the registry, and both are well formed.
    pub closed spec fn wf(&self) -> bool {
        &&& self.registry.wf()
        &&& self.graph.wf()
        &&& self.graph@ == self.registry@
    }

    /// Builds the registry and the inheritance graph from the files' records, in order.
    pub fn from_parsed_files(parsed_files: &[ParsedFile]) -> (r: Result<SubclassFinder, Error>)
        ensures
            match r {
                Ok(f) => f.wf() && f@ == model_of_files(parsed_files@),
                Err(_) => false,
            },
    {
        let registry = match Registry::build(parsed_files) {
            Ok(reg) => reg,
            Err(e) => return Err(e),
        };
        let graph = InheritanceGraph::build(&registry);
        Ok(SubclassFinder { registry, graph })
    }

    /// The number of classes in the source tree.
    pub fn class_count(&self) -> (r: usize)
        requires
            self.wf(),
        ensures
            self@.classes.dom().finite(),
            r == self@.classes.dom().len(),
    {
        proof {
            self.registry.lemma_class_seq();
            let ks = self.registry.class_seq();
            assert(ks.to_set() =~= self@.classes.dom());
            ks.unique_seq_to_set();
        }
        self.registry.class_count()
    }

    /// The classes named `name`, each once.
    fn classes_named(&self, name: &String) -> (r: Vec<ClassId>)
        requires
            self.wf(),
        ensures
            keys_distinct(r@),
            forall|k: ClassKey| key_set(r@).contains(k) <==> (self@.classes.contains_key(k) && k.1 == name@),
            forall|i: int| 0 <= i < r.len() ==> (#[trigger] r@[i]).name@ == name@,
    {
        let n = self.registry.class_count();
        let ghost ks = self.registry.class_seq();
        proof {
            self.registry.lemma_class_seq();
        }
        let mut found: Vec<ClassId> = Vec::new();
        let mut i: usize = 0;
        while i < n
            invariant
                self.wf(),
                ks == self.registry.class_seq(),
                ks.no_duplicates(),
                n == ks.len(),
                i <= n,
                keys_distinct(found@),
                forall|q: int| 0 <= q < found.len() ==> (#[trigger] found@[q]).name@ == name@,
                forall|k: ClassKey| key_set(found@).contains(k) <==> (exists|j: int| 0 <= j < i && ks[j] == k && k.1 == name@),
            decreases n - i,
        {
            let id = self.registry.class_at(i);
            let ghost prev = found@;
            if id.name == *name {
                proof {
                    assert forall|q: int| 0 <= q < prev.len() implies prev[q]@ != id@ by {
                        assert(key_set(prev).contains(prev[q]@)) by {
                            assert(prev.map_values(|c: ClassId| c@)[q] == prev[q]@);
                        }
                        let j = choose|j: int| 0 <= j < i && ks[j] == prev[q]@ && prev[q]@.1 == name@;
                    }
                }
                found.push(id);
                proof {
                    let pk = prev.map_values(|c: ClassId| c@);
                    let fk = found@.map_values(|c: ClassId| c@);
                    assert(fk =~= pk.push(id@));
                    assert forall|k: ClassKey| fk.contains(k) <==> (pk.contains(k) || k == id@) by {
                        if fk.contains(k) {
                            let q = choose|q: int| 0 <= q < fk.len() && fk[q] == k;
                            if q < pk.len() {
                                assert(pk[q] == k);
                            }
                        }
                        if pk.contains(k) {
                            let q = choose|q: int| 0 <= q < pk.len() && pk[q] == k;
                            assert(fk[q] == k);
                        }
                        if k == id@ {
                            assert(fk[pk.len() as int] == k);
                        }
                    }
                }
            }
            proof {
                assert forall|k: ClassKey| key_set(found@).contains(k) <==> (exists|j: int| 0 <= j < i + 1 && ks[j] == k && k.1 == name@) by {
                    if exists|j: int| 0 <= j < i + 1 && ks[j] == k && k.1 == name@ {
                        let j = choose|j: int| 0 <= j < i + 1 && ks[j] == k && k.1 == name@;
                        if j < i {
                            assert(key_set(prev).contains(k));
                        }
                    }
                    if key_set(prev).contains(k) {
                        let j = choose|j: int| 0 <= j < i && ks[j] == k && k.1 == name@;
                        assert(0 <= j < i + 1 && ks[j] == k && k.1 == name@);
                    }
                }
            }
            i = i + 1;
        }
        proof {
            self.registry.lemma_class_seq();
            assert forall|k: ClassKey| key_set(found@).contains(k) <==> (self@.classes.contains_key(k) && k.1 == name@) by {
                if self@.classes.contains_key(k) && k.1 == name@ {
                    assert(self.registry@.classes.contains_key(k));
                    assert(ks.contains(k));
                    let j = choose|j: int| 0 <= j < ks.len() && ks[j] == k;
                    assert(0 <= j < n && ks[j] == k && k.1 == name@);
                }
                if key_set(found@).contains(k) {
                    let j = choose|j: int| 0 <= j < n && ks[j] == k && k.1 == name@;
                    assert(ks.contains(k));
                    assert(self.registry@.classes.contains_key(k));
                }
            }
        }
        found
    }

    /// Resolves a queried class: in the given module, following imports and
    /// re-exports; without one, the only class of that name in the tree.
    fn resolve_target_class(&self, class_name: &str, module_name: Option<&str>) -> (r: Result<ClassId, Error>)
        requires
            self.wf(),
        ensures
            match target(self@, class_name@, opt_str(module_name)) {
                Some(k) => r matches Ok(id) && id@ == k,
                None => r matches Err(e) && is_target_error(e, self@, class_name@, opt_str(module_name)),
            },
    {
        match module_name {
            Some(module) => match self.registry.resolve_class(module, class_name) {
                Some(id) => Ok(id),
                None => Err(
                    Error::ClassNotFound {
                        name: class_name.to_owned(),
                        module_name: Some(module.to_owned()),
                    },
                ),
            },
            None => {
                let name = class_name.to_owned();
                let found = self.classes_named(&name);
                let ghost dm = defining_modules(self@, class_name@);
                if found.len() == 0 {
                    proof {
                        assert forall|m: Seq<char>| !dm.contains(m) by {
                            if dm.contains(m) {
                                assert(key_set(found@).contains((m, class_name@)));
                                let mk = found@.map_values(|c: ClassId| c@);
                                let q = choose|q: int| 0 <= q < mk.len() && #[trigger] mk[q] == (m, class_name@);
                            }
                        }
                        assert(dm =~= Set::empty());
                        assert(!exists|m: Seq<char>| dm == set![m]) by {
                            if exists|m: Seq<char>| dm == set![m] {
                                let m = choose|m: Seq<char>| dm == set![m];
                                assert(set![m].contains(m));
                            }
                        }
                    }
                    Err(Error::ClassNotFound { name, module_name: None })
                } else if found.len() == 1 {
                    let id = found[0].duplicate();
                    proof {
                        assert(found@.map_values(|c: ClassId| c@)[0] == id@);
                        assert(key_set(found@).contains(id@));
                        assert forall|m: Seq<char>| dm.contains(m) <==> m == id@.0 by {
                            if dm.contains(m) {
                                assert(key_set(found@).contains((m, class_name@)));
                                let mk = found@.map_values(|c: ClassId| c@);
                                let q = choose|q: int| 0 <= q < mk.len() && #[trigger] mk[q] == (m, class_name@);
                                assert(q == 0);
                            }
                        }
                        assert(dm =~= set![id@.0]);
                        let m = choose|m: Seq<char>| dm == set![m];
                        assert(set![m].contains(id@.0));
                    }
                    Ok(id)
                } else {
                    let mut candidates: Vec<String> = Vec::new();
                    let mut i: usize = 0;
                    while i < found.len()
                        invariant
                            i <= found.len(),
                            candidates.len() == i,
                            forall|q: int| 0 <= q < i ==> (#[trigger] candidates@[q])@ == found@[q].module@,
                        decreases found.len() - i,
                    {
                        candidates.push(found[i].module.clone());
                        i = i + 1;
                    }
                    proof {
                        let cv = candidates@.map_values(|s: String| s@);
                        assert forall|a: int, b: int| 0 <= a < cv.len() && 0 <= b < cv.len() && a != b implies cv[a] != cv[b] by {
                            assert(cv[a] == found@[a].module@);
                            assert(cv[b] == found@[b].module@);
                            assert(found@[a].name@ == class_name@ && found@[b].name@ == class_name@);
                            assert(found@[a]@ != found@[b]@);
                        }
                        assert forall|m: Seq<char>| cv.to_set().contains(m) <==> dm.contains(m) by {
                            if cv.to_set().contains(m) {
                                let a = choose|a: int| 0 <= a < cv.len() && cv[a] == m;
                                assert(found@[a]@ == (m, class_name@));
                                assert(found@.map_values(|c: ClassId| c@)[a] == (m, class_name@));
                                assert(key_set(found@).contains((m, class_name@)));
                            }
                            if dm.contains(m) {
                                assert(key_set(found@).contains((m, class_name@)));
                                let mk = found@.map_values(|c: ClassId| c@);
                                let q = choose|q: int| 0 <= q < mk.len() && #[trigger] mk[q] == (m, class_name@);
                                assert(cv[q] == m);
                            }
                        }
                        assert(cv.to_set() =~= dm);
                        assert(cv[0] != cv[1]);
                        assert(dm.contains(cv[0]) && dm.contains(cv[1]));
                        assert(!dm.is_empty()) by {
                            assert(dm.contains(cv[0]));
                        }
                        assert(!exists|m: Seq<char>| dm == set![m]) by {
                            if exists|m: Seq<char>| dm == set![m] {
                                let m = choose|m: Seq<char>| dm == set![m];
                                assert(set![m].contains(cv[0]) && set![m].contains(cv[1]));
                            }
                        }
                    }
                    Err(Error::AmbiguousClassName { name, candidates })
                }
            },
        }
    }

    /// The references of the classes `ids` whose module is registered, sorted.
    fn references(&self, ids: &Vec<ClassId>) -> (r: Vec<ClassReference>)
        requires
            self.wf(),
            keys_distinct(ids@),
        ensures
            answers(r@, self@, key_set(ids@)),
    {
        let mut result: Vec<ClassReference> = Vec::new();
        let mut i: usize = 0;
        while i < ids.len()
            invariant
                self.wf(),
                keys_distinct(ids@),
                i <= ids.len(),
                sorted_refs(result@),
                ref_keys(result@) == key_set(ids@.take(i as int)).filter(|k: ClassKey| self@.modules.contains_key(k.0)),
                forall|q: int|
                    0 <= q < result.len() ==> self@.modules.contains_key(result@[q].module_name@) && (#[trigger] result@[q]).file_path@
                        == self@.modules[result@[q].module_name@].0,
            decreases ids.len() - i,
        {
            let id = &ids[i];
            let ghost prev = result@;
            let ghost prefix = ids@.take(i as int);
            proof {
                assert(ids@.take(i + 1) =~= prefix.push(*id));
                assert(prefix.push(*id).map_values(|c: ClassId| c@) =~= prefix.map_values(|c: ClassId| c@).push(id@));
                prefix.map_values(|c: ClassId| c@).lemma_push_to_set_commute(id@);
                assert(key_set(ids@.take(i + 1)) =~= key_set(prefix).insert(id@));
            }
            match self.registry.module_metadata(&id.module) {
                Some(md) => {
                    let x = ClassReference {
                        class_name: id.name.clone(),
                        module_name: id.module.clone(),
                        file_path: md.file_path.clone(),
                    };
                    proof {
                        if ref_keys(prev).contains(x.key()) {
                            assert(key_set(prefix).contains(id@));
                            let mk = prefix.map_values(|c: ClassId| c@);
                                let q = choose|q: int| 0 <= q < mk.len() && #[trigger] mk[q] == id@;
                            assert(ids@[q]@ == ids@[i as int]@);
                        }
                    }
                    insert_sorted(&mut result, x);
                    proof {
                        assert(ref_keys(result@) =~= key_set(ids@.take(i + 1)).filter(|k: ClassKey| self@.modules.contains_key(k.0)));
                        assert forall|q: int|
                            0 <= q < result.len() implies self@.modules.contains_key(result@[q].module_name@) && (#[trigger] result@[q]).file_path@
                                == self@.modules[result@[q].module_name@].0 by {
                            assert(result@.contains(result@[q]));
                            if result@[q] != x {
                                let p = choose|p: int| 0 <= p < prev.len() && prev[p] == result@[q];
                            }
                        }
                    }
                },
                None => {
                    proof {
                        assert(ref_keys(result@) =~= key_set(ids@.take(i + 1)).filter(|k: ClassKey| self@.modules.contains_key(k.0)));
                    }
                },
            }
            i = i + 1;
        }
        proof {
            assert(ids@.take(ids.len() as int) =~= ids@);
        }
        result
    }

    /// The subclasses of the queried class: those that inherit from it directly, or
    /// at any depth, as `mode` says; sorted by module path, then class name.
    pub fn find_subclasses(&self, class_name: &str, module_name: Option<&str>, mode: SearchMode) -> (r:
        Result<Vec<ClassReference>, Error>)
        requires
            self.wf(),
        ensures
            match target(self@, class_name@, opt_str(module_name)) {
                Some(k) => r matches Ok(v) && answers(v@, self@, query_set(self@, true, mode, k)),
                None => r matches Err(e) && is_target_error(e, self@, class_name@, opt_str(module_name)),
            },
    {
        let target_id = match self.resolve_target_class(class_name, module_name) {
            Ok(id) => id,
            Err(e) => return Err(e),
        };
        let ids = match mode {
            SearchMode::Direct => self.graph.find_direct_subclasses(&target_id),
            SearchMode::All => self.graph.find_all_subclasses(&target_id),
        };
        Ok(self.references(&ids))
    }

    /// The parent classes of the queried class: those it inherits from directly, or at
    /// any depth, as `mode` says; sorted by module path, then class name.
    pub fn find_parent_classes(&self, class_name: &str, module_name: Option<&str>, mode: SearchMode) -> (r:
        Result<Vec<ClassReference>, Error>)
        requires
            self.wf(),
        ensures
            match target(self@, class_name@, opt_str(module_name)) {
                Some(k) => r matches Ok(v) && answers(v@, self@, query_set(self@, false, mode, k)),
                None => r matches Err(e) && is_target_error(e, self@, class_name@, opt_str(module_name)),
            },
    {
        let target_id = match self.resolve_target_class(class_name, module_name) {
            Ok(id) => id,
            Err(e) => return Err(e),
        };
        let ids = match mode {
            SearchMode::Direct => self.graph.find_direct_parent_classes(&target_id),
            SearchMode::All => self.graph.find_all_parent_classes(&target_id),
        };
        Ok(self.references(&ids))
    }

    /// The reference of the queried class itself, when it resolves and its module is
    /// registered.
    pub fn resolve_class_reference(&self, class_name: &str, module_name: Option<&str>) -> (r: Option<
        ClassReference,
    >)
        requires
            self.wf(),
        ensures
            match target(self@, class_name@, opt_str(module_name)) {
                Some(k) => if self@.modules.contains_key(k.0) {
                    r matches Some(c) && c.key() == k && c.file_path@ == self@.modules[k.0].0
                } else {
                    r is None
                },
                None => r is None,
            },
    {
        let target_id = match self.resolve_target_class(class_name, module_name) {
            Ok(id) => id,
            Err(_) => return None,
        };
        match self.registry.module_metadata(&target_id.module) {
            Some(md) => Some(
                ClassReference {
                    class_name: target_id.name.clone(),
                    module_name: target_id.module.clone(),
                    file_path: md.file_path.clone(),
                },
            ),
            None => None,
        }
    }
}

/// Without a module, a class name that several modules define is refused, and each of
/// those modules, given as the module of the query, resolves it to its own class.
pub proof fn lemma_ambiguity_lists_every_module(reg: RegistryModel, name: Seq<char>, m: Seq<char>)
    requires
        defining_modules(reg, name).contains(m),
    ensures
        target(reg, name, Some(m)) == Some((m, name)),
{
}

} // verus!
