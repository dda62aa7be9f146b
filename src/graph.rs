//! The inheritance graph: an edge from each class to every registered class that one
//! of its bases resolves to, and the direct and transitive queries over it.

use vstd::prelude::*;
use vstd::set_lib::{lemma_int_range, lemma_len_subset, set_int_range};

use crate::index::{hash_pair, pair_hash, HashIndex};
use crate::registry::{
    key_set, keys_distinct, lemma_resolve_from_registered, resolve, ClassId, ClassKey, Registry,
    RegistryModel, MAX_RESOLUTION_DEPTH,
};

verus! {

/// The base at position `b` of class `c` resolves to `p`.
pub open spec fn edge_via(reg: RegistryModel, p: ClassKey, c: ClassKey, b: int) -> bool {
    &&& 0 <= b < reg.classes[c].len()
    &&& resolve(reg, c.0, reg.classes[c][b]) == Some(p)
}

/// `c` is a registered class and one of its bases resolves to `p`: `p` is a direct
/// parent of `c`.
pub open spec fn edge(reg: RegistryModel, p: ClassKey, c: ClassKey) -> bool {
    reg.classes.contains_key(c) && exists|b: int| edge_via(reg, p, c, b)
}

/// One step from `a` to `b`: down to a subclass, or up to a parent.
pub open spec fn linked(reg: RegistryModel, down: bool, a: ClassKey, b: ClassKey) -> bool {
    if down {
        edge(reg, a, b)
    } else {
        edge(reg, b, a)
    }
}

/// `x` is reached from `root` in exactly `n` steps in the direction `down`.
pub open spec fn reaches(reg: RegistryModel, down: bool, root: ClassKey, x: ClassKey, n: nat) -> bool
    decreases n,
{
    if n == 0 {
        false
    } else if n == 1 {
        linked(reg, down, root, x)
    } else {
        exists|y: ClassKey| reaches(reg, down, root, y, (n - 1) as nat) && linked(reg, down, y, x)
    }
}

/// `x` is reached from `root` in some number of steps.
pub open spec fn is_reached(reg: RegistryModel, down: bool, root: ClassKey, x: ClassKey) -> bool {
    exists|n: nat| reaches(reg, down, root, x, n)
}

/// The classes one step from `root`.
pub open spec fn direct_set(reg: RegistryModel, down: bool, root: ClassKey) -> Set<ClassKey> {
    Set::new(|x: ClassKey| linked(reg, down, root, x))
}

/// The classes reached from `root` in one or more steps, `root` itself left out.
pub open spec fn reach_set(reg: RegistryModel, down: bool, root: ClassKey) -> Set<ClassKey> {
    Set::new(|x: ClassKey| x != root && is_reached(reg, down, root, x))
}

/// The graph built from a registry: an edge for each base that resolves.
pub struct InheritanceGraph {
    nodes: Vec<ClassId>,
    node_slots: HashIndex,
    children: Vec<Vec<usize>>,
    parents: Vec<Vec<usize>>,
    model: Ghost<RegistryModel>,
}

impl View for InheritanceGraph {
    type V = RegistryModel;

    /// The registry that the graph was built from.
    closed spec fn view(&self) -> RegistryModel {
        self.model@
    }
}

impl InheritanceGraph {
    spec fn key(&self, i: int) -> ClassKey {
        self.nodes@[i]@
    }

    spec fn adj(&self, down: bool) -> Seq<Vec<usize>> {
        if down {
            self.children@
        } else {
            self.parents@
        }
    }

    /// The adjacency lists of direction `down` hold exactly the links of that direction.
    spec fn adj_ok(&self, down: bool) -> bool {
        let n = self.nodes.len();
        &&& self.adj(down).len() == n
        &&& forall|i: int|
            0 <= i < n ==> (#[trigger] self.adj(down)[i])@.no_duplicates()
        &&& forall|i: int, k: int|
            0 <= i < n && 0 <= k < self.adj(down)[i].len() ==> (#[trigger] self.adj(down)[i]@[k])
                < n
        &&& forall|i: int, j: int|
            0 <= i < n && 0 <= j < n ==> (#[trigger] self.adj(down)[i]@.contains(j as usize)
                <==> linked(self.model@, down, self.key(i), #[trigger] self.key(j)))
    }

    /// The nodes are the registered classes, each once, and the adjacency lists hold
    /// exactly the edges.
    pub closed spec fn wf(&self) -> bool {
        let n = self.nodes.len();
        &&& keys_distinct(self.nodes@)
        &&& forall|k: ClassKey|
            self.model@.classes.contains_key(k) <==> key_set(self.nodes@).contains(k)
        &&& self.adj_ok(true)
        &&& self.adj_ok(false)
        &&& self.node_slots.wf()
        &&& self.node_slots.hashes().len() == n
        &&& forall|i: int|
            0 <= i < n ==> self.node_slots.hashes()[i] == pair_hash(
                (#[trigger] self.nodes@[i]).module@,
                self.nodes@[i].name@,
            )
    }

    proof fn lemma_key_set(&self, k: ClassKey)
        requires
            self.wf(),
        ensures
            key_set(self.nodes@).contains(k) <==> exists|i: int|
                0 <= i < self.nodes.len() && self.key(i) == k,
    {
        if key_set(self.nodes@).contains(k) {
            let ks = self.nodes@.map_values(|c: ClassId| c@);
            let i = choose|i: int| 0 <= i < ks.len() && #[trigger] ks[i] == k;
            assert(self.key(i) == k);
        }
        if exists|i: int| 0 <= i < self.nodes.len() && self.key(i) == k {
            let i = choose|i: int| 0 <= i < self.nodes.len() && self.key(i) == k;
            assert(self.nodes@.map_values(|c: ClassId| c@)[i] == k);
        }
    }

    /// Both ends of an edge are nodes.
    proof fn lemma_linked_nodes(&self, down: bool, a: ClassKey, b: ClassKey)
        requires
            self.wf(),
            linked(self.model@, down, a, b),
        ensures
            exists|i: int| 0 <= i < self.nodes.len() && self.key(i) == a,
            exists|j: int| 0 <= j < self.nodes.len() && self.key(j) == b,
    {
        let reg = self.model@;
        let (p, c) = if down {
            (a, b)
        } else {
            (b, a)
        };
        let bi = choose|bi: int| edge_via(reg, p, c, bi);
        lemma_resolve_from_registered(
            reg,
            c.0,
            reg.classes[c][bi],
            Set::empty(),
            MAX_RESOLUTION_DEPTH as nat,
        );
        self.lemma_key_set(p);
        self.lemma_key_set(c);
    }

    /// Builds the graph: for every registered class and every one of its bases that
    /// resolves, an edge from the class it resolves to down to the class.
    pub fn build(registry: &Registry) -> (g: InheritanceGraph)
        requires
            registry.wf(),
        ensures
            g.wf(),
            g@ == registry@,
    {
        let n = registry.class_count();
        let ghost reg = registry@;
        let ghost keys = registry.class_seq();
        proof {
            registry.lemma_class_seq();
        }
        let mut nodes: Vec<ClassId> = Vec::new();
        let mut node_slots = HashIndex::new(n);
        let mut children: Vec<Vec<usize>> = Vec::new();
        let mut parents: Vec<Vec<usize>> = Vec::new();
        let mut i: usize = 0;
        while i < n
            invariant
                n == keys.len(),
                keys == registry.class_seq(),
                registry.wf(),
                i <= n,
                nodes@.len() == i,
                forall|k: int| 0 <= k < i ==> (#[trigger] nodes@[k])@ == keys[k],
                children@.len() == i,
                parents@.len() == i,
                forall|k: int| 0 <= k < i ==> (#[trigger] children@[k])@.len() == 0,
                forall|k: int| 0 <= k < i ==> (#[trigger] parents@[k])@.len() == 0,
                node_slots.wf(),
                node_slots.hashes().len() == i,
                forall|k: int|
                    0 <= k < i ==> node_slots.hashes()[k] == pair_hash(
                        (#[trigger] nodes@[k]).module@,
                        nodes@[k].name@,
                    ),
            decreases n - i,
        {
            let id = registry.class_at(i);
            node_slots.push(i, hash_pair(id.module.as_str(), id.name.as_str()));
            nodes.push(id);
            children.push(Vec::new());
            parents.push(Vec::new());
            i = i + 1;
        }
        let mut ci: usize = 0;
        while ci < n
            invariant
                n == keys.len(),
                keys == registry.class_seq(),
                reg == registry@,
                registry.wf(),
                keys.no_duplicates(),
                forall|k: ClassKey| reg.classes.contains_key(k) <==> keys.contains(k),
                ci <= n,
                nodes@.len() == n,
                forall|k: int| 0 <= k < n ==> (#[trigger] nodes@[k])@ == keys[k],
                children@.len() == n,
                parents@.len() == n,
                forall|k: int| 0 <= k < n ==> (#[trigger] children@[k])@.no_duplicates(),
                forall|k: int| 0 <= k < n ==> (#[trigger] parents@[k])@.no_duplicates(),
                forall|k: int, y: usize|
                    0 <= k < n && #[trigger] children@[k]@.contains(y) ==> y < n,
                forall|k: int, y: usize|
                    0 <= k < n && #[trigger] parents@[k]@.contains(y) ==> y < n,
                forall|pi: int, c: int|
                    #![trigger children@[pi]@.contains(c as usize)]
                    #![trigger found_upto(reg, keys, keys[pi], c, ci as int, 0)]
                    0 <= pi < n && 0 <= c < n ==> (children@[pi]@.contains(c as usize)
                        <==> found_upto(reg, keys, keys[pi], c, ci as int, 0)),
                forall|pi: int, c: int|
                    #![trigger parents@[c]@.contains(pi as usize)]
                    #![trigger found_upto(reg, keys, keys[pi], c, ci as int, 0)]
                    0 <= pi < n && 0 <= c < n ==> (parents@[c]@.contains(pi as usize)
                        <==> found_upto(reg, keys, keys[pi], c, ci as int, 0)),
            decreases n - ci,
        {
            let child = registry.class_at(ci);
            let bases = registry.bases_at(ci);
            let mut bi: usize = 0;
            while bi < bases.len()
                invariant
                    n == keys.len(),
                    keys == registry.class_seq(),
                    reg == registry@,
                    registry.wf(),
                    keys.no_duplicates(),
                    forall|k: ClassKey| reg.classes.contains_key(k) <==> keys.contains(k),
                    ci < n,
                    child@ == keys[ci as int],
                    crate::parser::strings_view(bases@) == reg.classes[keys[ci as int]],
                    bi <= bases.len(),
                    children@.len() == n,
                    parents@.len() == n,
                    forall|k: int| 0 <= k < n ==> (#[trigger] children@[k])@.no_duplicates(),
                    forall|k: int| 0 <= k < n ==> (#[trigger] parents@[k])@.no_duplicates(),
                    forall|k: int, y: usize|
                        0 <= k < n && #[trigger] children@[k]@.contains(y) ==> y < n,
                    forall|k: int, y: usize|
                        0 <= k < n && #[trigger] parents@[k]@.contains(y) ==> y < n,
                    forall|pi: int, c: int|
                        #![trigger children@[pi]@.contains(c as usize)]
                        #![trigger found_upto(reg, keys, keys[pi], c, ci as int, bi as int)]
                        0 <= pi < n && 0 <= c < n ==> (children@[pi]@.contains(c as usize)
                            <==> found_upto(reg, keys, keys[pi], c, ci as int, bi as int)),
                    forall|pi: int, c: int|
                        #![trigger parents@[c]@.contains(pi as usize)]
                        #![trigger found_upto(reg, keys, keys[pi], c, ci as int, bi as int)]
                        0 <= pi < n && 0 <= c < n ==> (parents@[c]@.contains(pi as usize)
                            <==> found_upto(reg, keys, keys[pi], c, ci as int, bi as int)),
                decreases bases.len() - bi,
            {
                let resolved = registry.resolve_class(child.module.as_str(), bases[bi].as_str());
                let ghost base = reg.classes[keys[ci as int]][bi as int];
                assert(base == bases@[bi as int]@);
                if let Some(pid) = resolved {
                    proof {
                        lemma_resolve_from_registered(
                            reg,
                            child.module@,
                            base,
                            Set::empty(),
                            MAX_RESOLUTION_DEPTH as nat,
                        );
                    }
                    if let Some(pi) = registry.class_index(&pid.module, &pid.name) {
                        let nc = with_added(&children[pi], ci);
                        children.set(pi, nc);
                        let np = with_added(&parents[ci], pi);
                        parents.set(ci, np);
                        proof {
                            assert(edge_via(reg, keys[pi as int], keys[ci as int], bi as int));
                            assert forall|p: int, c: int| 0 <= p < n && 0 <= c < n implies found_upto(
                                reg,
                                keys,
                                keys[p],
                                c,
                                ci as int,
                                bi + 1,
                            ) == (found_upto(reg, keys, keys[p], c, ci as int, bi as int) || (p
                                == pi && c == ci)) by {
                                if c == ci {
                                    if found_upto(reg, keys, keys[p], c, ci as int, bi + 1) {
                                        let b = choose|b: int|
                                            0 <= b < bi + 1 && edge_via(reg, keys[p], keys[c], b);
                                        if b == bi {
                                            assert(keys[p] == keys[pi as int]);
                                        }
                                    }
                                }
                            }
                        }
                    } else {
                        proof {
                            assert(keys.contains(pid@));
                        }
                    }
                } else {
                    proof {
                        assert forall|p: int, c: int| 0 <= p < n && 0 <= c < n implies found_upto(
                            reg,
                            keys,
                            keys[p],
                            c,
                            ci as int,
                            bi + 1,
                        ) == found_upto(reg, keys, keys[p], c, ci as int, bi as int) by {
                            if c == ci && found_upto(reg, keys, keys[p], c, ci as int, bi + 1) {
                                let b = choose|b: int|
                                    0 <= b < bi + 1 && edge_via(reg, keys[p], keys[c], b);
                                assert(b != bi);
                            }
                        }
                    }
                }
                bi = bi + 1;
            }
            proof {
                assert forall|p: int, c: int| 0 <= p < n && 0 <= c < n implies found_upto(
                    reg,
                    keys,
                    keys[p],
                    c,
                    ci + 1,
                    0,
                ) == found_upto(reg, keys, keys[p], c, ci as int, bases.len() as int) by {
                    assert(crate::parser::strings_view(bases@).len() == bases.len());
                    if c == ci {
                        assert(keys.contains(keys[c]));
                        assert(reg.classes.contains_key(keys[c]));
                        if edge(reg, keys[p], keys[c]) {
                            let b = choose|b: int| edge_via(reg, keys[p], keys[c], b);
                            assert(0 <= b < bases.len());
                        }
                        if found_upto(reg, keys, keys[p], c, ci as int, bases.len() as int) {
                            let b = choose|b: int|
                                0 <= b < bases.len() && edge_via(reg, keys[p], keys[c], b);
                            assert(edge(reg, keys[p], keys[c]));
                        }
                    }
                }
            }
            ci = ci + 1;
        }
        let g = InheritanceGraph { nodes, node_slots, children, parents, model: Ghost(reg) };
        proof {
            assert(g.nodes@.map_values(|c: ClassId| c@) =~= keys);
            assert forall|i: int, j: int|
                0 <= i < n && 0 <= j < n && i != j implies g.nodes@[i]@ != g.nodes@[j]@ by {
                assert(g.nodes@[i]@ == keys[i]);
                assert(g.nodes@[j]@ == keys[j]);
            }
            assert forall|i: int, k: int|
                0 <= i < n && 0 <= k < g.adj(true)[i].len() implies (#[trigger] g.adj(true)[i]@[k])
                < n by {
                assert(g.children@[i]@.contains(g.children@[i]@[k]));
            }
            assert forall|i: int, k: int|
                0 <= i < n && 0 <= k < g.adj(false)[i].len() implies (#[trigger] g.adj(
                false,
            )[i]@[k]) < n by {
                assert(g.parents@[i]@.contains(g.parents@[i]@[k]));
            }
            assert forall|i: int, j: int| 0 <= i < n && 0 <= j < n implies (#[trigger] g.adj(
                true,
            )[i]@.contains(j as usize) <==> linked(reg, true, g.key(i), #[trigger] g.key(j))) by {
                assert(g.key(i) == keys[i] && g.key(j) == keys[j]);
            }
            assert forall|i: int, j: int| 0 <= i < n && 0 <= j < n implies (#[trigger] g.adj(
                false,
            )[i]@.contains(j as usize) <==> linked(reg, false, g.key(i), #[trigger] g.key(j))) by {
                assert(g.key(i) == keys[i] && g.key(j) == keys[j]);
            }
        }
        g
    }

    /// The position of `id` among the nodes.
    fn node_index(&self, id: &ClassId) -> (r: Option<usize>)
        requires
            self.wf(),
        ensures
            match r {
                Some(i) => i < self.nodes.len() && self.key(i as int) == id@,
                None => forall|i: int| 0 <= i < self.nodes.len() ==> self.key(i) != id@,
            },
    {
        let h = hash_pair(id.module.as_str(), id.name.as_str());
        let cands = self.node_slots.candidates(h);
        let mut k: usize = 0;
        while k < cands.len()
            invariant
                self.wf(),
                h == pair_hash(id.module@, id.name@),
                forall|i: int|
                    0 <= i < self.node_slots.hashes().len() && self.node_slots.hashes()[i] == h ==> cands@.contains(
                        i as usize,
                    ),
                forall|q: int| 0 <= q < cands.len() ==> cands@[q] < self.nodes.len(),
                k <= cands.len(),
                forall|q: int| 0 <= q < k ==> self.key(cands@[q] as int) != id@,
            decreases cands.len() - k,
        {
            let j = cands[k];
            if self.nodes[j].module == id.module && self.nodes[j].name == id.name {
                return Some(j);
            }
            k = k + 1;
        }
        proof {
            assert forall|i: int| 0 <= i < self.nodes.len() implies self.key(i) != id@ by {
                if self.key(i) == id@ {
                    assert(self.node_slots.hashes()[i] == pair_hash(self.nodes@[i].module@, self.nodes@[i].name@));
                    assert(cands@.contains(i as usize));
                    let q = choose|q: int| 0 <= q < cands.len() && cands@[q] == i as usize;
                }
            }
        }
        None
    }

    /// The class ids at the positions `idx`.
    fn ids_of(&self, idx: &Vec<usize>) -> (r: Vec<ClassId>)
        requires
            self.wf(),
            forall|k: int| 0 <= k < idx.len() ==> idx@[k] < self.nodes.len(),
        ensures
            r.len() == idx.len(),
            forall|k: int| 0 <= k < idx.len() ==> (#[trigger] r@[k])@ == self.key(idx@[k] as int),
    {
        let mut r: Vec<ClassId> = Vec::new();
        let mut k: usize = 0;
        while k < idx.len()
            invariant
                self.wf(),
                forall|q: int| 0 <= q < idx.len() ==> idx@[q] < self.nodes.len(),
                k <= idx.len(),
                r.len() == k,
                forall|q: int| 0 <= q < k ==> (#[trigger] r@[q])@ == self.key(idx@[q] as int),
            decreases idx.len() - k,
        {
            r.push(self.nodes[idx[k]].duplicate());
            k = k + 1;
        }
        r
    }

    /// The classes at the positions `idx`, which are distinct, have distinct keys,
    /// and their keys are the keys of those positions.
    proof fn lemma_ids_of(&self, idx: Seq<usize>, r: Seq<ClassId>, s: Set<ClassKey>)
        requires
            self.wf(),
            idx.no_duplicates(),
            forall|k: int| 0 <= k < idx.len() ==> idx[k] < self.nodes.len(),
            r.len() == idx.len(),
            forall|k: int| 0 <= k < idx.len() ==> (#[trigger] r[k])@ == self.key(idx[k] as int),
            forall|j: int|
                0 <= j < self.nodes.len() ==> (idx.contains(j as usize) <==> s.contains(
                    #[trigger] self.key(j),
                )),
            forall|x: ClassKey| s.contains(x) ==> key_set(self.nodes@).contains(x),
        ensures
            keys_distinct(r),
            key_set(r) == s,
    {
        assert forall|i: int, j: int| 0 <= i < r.len() && 0 <= j < r.len() && i != j implies r[i]@
            != r[j]@ by {
            assert(r[i]@ == self.key(idx[i] as int));
            assert(r[j]@ == self.key(idx[j] as int));
        }
        assert forall|x: ClassKey| key_set(r).contains(x) <==> s.contains(x) by {
            let rk = r.map_values(|c: ClassId| c@);
            if key_set(r).contains(x) {
                let k = choose|k: int| 0 <= k < rk.len() && rk[k] == x;
                assert(r[k]@ == self.key(idx[k] as int));
                assert(idx.contains(idx[k]));
            }
            if s.contains(x) {
                self.lemma_key_set(x);
                let j = choose|j: int| 0 <= j < self.nodes.len() && self.key(j) == x;
                assert(idx.contains(j as usize));
                let k = choose|k: int| 0 <= k < idx.len() && idx[k] == j as usize;
                assert(rk[k] == x);
            }
        }
        assert(key_set(r) =~= s);
    }

    /// The classes one step from `root` in the direction `down`.
    fn direct(&self, root: &ClassId, down: bool) -> (r: Vec<ClassId>)
        requires
            self.wf(),
        ensures
            keys_distinct(r@),
            key_set(r@) == direct_set(self@, down, root@),
    {
        match self.node_index(root) {
            None => {
                let r: Vec<ClassId> = Vec::new();
                proof {
                    assert forall|x: ClassKey| !direct_set(self@, down, root@).contains(x) by {
                        if linked(self@, down, root@, x) {
                            self.lemma_linked_nodes(down, root@, x);
                        }
                    }
                    assert(key_set(r@) =~= direct_set(self@, down, root@));
                }
                r
            },
            Some(i) => {
                let adj = if down {
                    &self.children[i]
                } else {
                    &self.parents[i]
                };
                assert(adj@ == self.adj(down)[i as int]@);
                let r = self.ids_of(adj);
                proof {
                    let s = direct_set(self@, down, root@);
                    assert forall|x: ClassKey| s.contains(x) implies key_set(self.nodes@).contains(
                        x,
                    ) by {
                        self.lemma_linked_nodes(down, root@, x);
                        self.lemma_key_set(x);
                    }
                    self.lemma_ids_of(adj@, r@, s);
                }
                r
            },
        }
    }

    /// The position of step `q` of a breadth-first walk from `r` that has found `found`.
    spec fn queued(r: usize, found: Seq<usize>, q: int) -> usize {
        if q == 0 {
            r
        } else {
            found[q - 1]
        }
    }

    /// Every node that a walk closed under the links reached from `r`, marking it, has
    /// been marked.
    proof fn lemma_closed_walk(&self, down: bool, r: int, visited: Seq<bool>, x: ClassKey, m: nat)
        requires
            self.wf(),
            0 <= r < self.nodes.len(),
            visited.len() == self.nodes.len(),
            visited[r],
            forall|q: int, j: usize|
                0 <= q < self.nodes.len() && visited[q] && #[trigger] self.adj(down)[q]@.contains(j)
                    ==> visited[j as int],
            reaches(self@, down, self.key(r), x, m),
        ensures
            exists|j: int| 0 <= j < self.nodes.len() && self.key(j) == x && visited[j],
        decreases m,
    {
        if m == 1 {
            self.lemma_linked_nodes(down, self.key(r), x);
            let j = choose|j: int| 0 <= j < self.nodes.len() && self.key(j) == x;
            assert(self.adj(down)[r]@.contains(j as usize));
        } else {
            assert(m > 1);
            let y = choose|y: ClassKey|
                reaches(self@, down, self.key(r), y, (m - 1) as nat) && linked(
                    self@,
                    down,
                    y,
                    x,
                );
            self.lemma_closed_walk(down, r, visited, y, (m - 1) as nat);
            let jy = choose|jy: int| 0 <= jy < self.nodes.len() && self.key(jy) == y && visited[jy];
            self.lemma_linked_nodes(down, y, x);
            let jx = choose|jx: int| 0 <= jx < self.nodes.len() && self.key(jx) == x;
            assert(self.adj(down)[jy]@.contains(jx as usize));
        }
    }

    /// The positions reached from position `r` in one or more steps, `r` left out,
    /// in breadth-first order.
    fn reachable(&self, r: usize, down: bool) -> (res: Vec<usize>)
        requires
            self.wf(),
            r < self.nodes.len(),
        ensures
            res@.no_duplicates(),
            forall|k: int| 0 <= k < res.len() ==> res@[k] < self.nodes.len(),
            forall|j: int|
                0 <= j < self.nodes.len() ==> (res@.contains(j as usize) <==> (j != r
                    && is_reached(self@, down, self.key(r as int), #[trigger] self.key(j)))),
    {
        let n = self.nodes.len();
        let adj = if down {
            &self.children
        } else {
            &self.parents
        };
        assert(adj@ == self.adj(down));
        let ghost root = self.key(r as int);
        let mut visited: Vec<bool> = Vec::new();
        while visited.len() < n
            invariant
                visited.len() <= n,
                forall|j: int| 0 <= j < visited.len() ==> !visited@[j],
            decreases n - visited.len(),
        {
            visited.push(false);
        }
        visited.set(r, true);
        let mut result: Vec<usize> = Vec::new();
        let mut i: usize = 0;
        while i <= result.len()
            invariant
                self.wf(),
                n == self.nodes.len(),
                r < n,
                adj@ == self.adj(down),
                root == self.key(r as int),
                visited.len() == n,
                forall|j: int| 0 <= j < n ==> (visited@[j] <==> (j == r || result@.contains(j as usize))),
                result@.no_duplicates(),
                forall|k: int| 0 <= k < result.len() ==> result@[k] < n,
                !result@.contains(r),
                forall|k: int|
                    0 <= k < result.len() ==> is_reached(self@, down, root, self.key(#[trigger] result@[k] as int)),
                i <= result.len() + 1,
                forall|q: int, j: usize|
                    0 <= q < i && #[trigger] adj@[Self::queued(r, result@, q) as int]@.contains(j) ==> visited@[j as int],
            decreases n + 1 - i,
        {
            proof {
                lemma_distinct_below(result@, n, r);
            }
            let cur = if i == 0 {
                r
            } else {
                result[i - 1]
            };
            assert(cur == Self::queued(r, result@, i as int));
            let ghost before = result@;
            let nbrs = &adj[cur];
            let mut t: usize = 0;
            while t < nbrs.len()
                invariant
                    self.wf(),
                    n == self.nodes.len(),
                    r < n,
                    cur < n,
                    adj@ == self.adj(down),
                    root == self.key(r as int),
                    nbrs == adj@[cur as int],
                    cur == r || is_reached(self@, down, root, self.key(cur as int)),
                    visited.len() == n,
                    forall|j: int| 0 <= j < n ==> (visited@[j] <==> (j == r || result@.contains(j as usize))),
                    result@.no_duplicates(),
                    forall|k: int| 0 <= k < result.len() ==> result@[k] < n,
                    !result@.contains(r),
                    forall|k: int|
                        0 <= k < result.len() ==> is_reached(self@, down, root, self.key(#[trigger] result@[k] as int)),
                    result@.len() >= before.len(),
                    forall|k: int| 0 <= k < before.len() ==> result@[k] == before[k],
                    i <= before.len(),
                    cur == Self::queued(r, before, i as int),
                    forall|q: int, j: usize|
                        0 <= q < i && #[trigger] adj@[Self::queued(r, before, q) as int]@.contains(j) ==> visited@[j as int],
                    t <= nbrs.len(),
                    forall|u: int| 0 <= u < t ==> visited@[nbrs@[u] as int],
                decreases nbrs.len() - t,
            {
                let j = nbrs[t];
                assert(nbrs@.contains(j));
                if !visited[j] {
                    proof {
                        assert(linked(self@, down, self.key(cur as int), self.key(j as int)));
                        if cur == r {
                            assert(reaches(self@, down, root, self.key(j as int), 1));
                        } else {
                            let m = choose|m: nat| reaches(self@, down, root, self.key(cur as int), m);
                            assert(m >= 1);
                            assert(reaches(self@, down, root, self.key(cur as int), ((m + 1) - 1) as nat));
                            assert(reaches(self@, down, root, self.key(j as int), m + 1));
                        }
                    }
                    let ghost prev = result@;
                    visited.set(j, true);
                    result.push(j);
                    proof {
                        assert forall|x: usize| result@.contains(x) <==> (prev.contains(x) || x == j) by {
                            if result@.contains(x) {
                                let k = choose|k: int| 0 <= k < result@.len() && result@[k] == x;
                                if k < prev.len() {
                                    assert(prev[k] == x);
                                }
                            }
                            if prev.contains(x) {
                                let k = choose|k: int| 0 <= k < prev.len() && prev[k] == x;
                                assert(result@[k] == x);
                            }
                            if x == j {
                                assert(result@[prev.len() as int] == x);
                            }
                        }
                    }
                }
                t = t + 1;
            }
            proof {
                assert forall|q: int, j: usize|
                    0 <= q < i + 1 && #[trigger] adj@[Self::queued(r, result@, q) as int]@.contains(j) implies visited@[j as int] by {
                    assert(Self::queued(r, result@, q) == Self::queued(r, before, q));
                    if q == i {
                        let u = choose|u: int| 0 <= u < nbrs@.len() && nbrs@[u] == j;
                    }
                }
            }
            i = i + 1;
        }
        proof {
            assert forall|q: int, j: usize|
                0 <= q < n && visited@[q] && #[trigger] self.adj(down)[q]@.contains(j) implies visited@[j as int] by {
                if q == r {
                    assert(Self::queued(r, result@, 0) == r);
                } else {
                    let k = choose|k: int| 0 <= k < result@.len() && result@[k] == q as usize;
                    assert(Self::queued(r, result@, k + 1) == q);
                }
            }
            assert forall|j: int| 0 <= j < n implies (result@.contains(j as usize) <==> (j != r
                && is_reached(self@, down, root, #[trigger] self.key(j)))) by {
                if result@.contains(j as usize) {
                    let k = choose|k: int| 0 <= k < result@.len() && result@[k] == j as usize;
                    assert(is_reached(self@, down, root, self.key(result@[k] as int)));
                }
                if j != r && is_reached(self@, down, root, self.key(j)) {
                    let m = choose|m: nat| reaches(self@, down, root, self.key(j), m);
                    self.lemma_closed_walk(down, r as int, visited@, self.key(j), m);
                    let jj = choose|jj: int| 0 <= jj < n && self.key(jj) == self.key(j) && visited@[jj];
                    assert(jj == j);
                }
            }
        }
        result
    }
    /// Both ends of a walk are nodes.
    proof fn lemma_walk_ends(&self, down: bool, root: ClassKey, x: ClassKey, m: nat)
        requires
            self.wf(),
            reaches(self@, down, root, x, m),
        ensures
            key_set(self.nodes@).contains(root),
            key_set(self.nodes@).contains(x),
        decreases m,
    {
        if m == 1 {
            self.lemma_linked_nodes(down, root, x);
        } else {
            let y = choose|y: ClassKey|
                reaches(self@, down, root, y, (m - 1) as nat) && linked(self@, down, y, x);
            self.lemma_walk_ends(down, root, y, (m - 1) as nat);
            self.lemma_linked_nodes(down, y, x);
        }
        self.lemma_key_set(root);
        self.lemma_key_set(x);
    }

    /// The classes reached from `root` in one or more steps, `root` left out.
    fn transitive(&self, root: &ClassId, down: bool) -> (r: Vec<ClassId>)
        requires
            self.wf(),
        ensures
            keys_distinct(r@),
            key_set(r@) == reach_set(self@, down, root@),
    {
        let s = Ghost(reach_set(self@, down, root@));
        proof {
            assert forall|x: ClassKey| s@.contains(x) implies key_set(self.nodes@).contains(x) by {
                let m = choose|m: nat| reaches(self@, down, root@, x, m);
                self.lemma_walk_ends(down, root@, x, m);
            }
        }
        match self.node_index(root) {
            None => {
                let r: Vec<ClassId> = Vec::new();
                proof {
                    assert forall|x: ClassKey| !s@.contains(x) by {
                        if s@.contains(x) {
                            let m = choose|m: nat| reaches(self@, down, root@, x, m);
                            self.lemma_walk_ends(down, root@, x, m);
                            self.lemma_key_set(root@);
                        }
                    }
                    assert(key_set(r@) =~= s@);
                }
                r
            },
            Some(i) => {
                let idx = self.reachable(i, down);
                let r = self.ids_of(&idx);
                proof {
                    assert forall|j: int| 0 <= j < self.nodes.len() implies (idx@.contains(j as usize)
                        <==> s@.contains(#[trigger] self.key(j))) by {
                        if j != i {
                            assert(self.nodes@[j]@ != self.nodes@[i as int]@);
                        }
                    }
                    self.lemma_ids_of(idx@, r@, s@);
                }
                r
            },
        }
    }

    /// The classes that directly inherit from `root`, each once; empty when there are
    /// none or `root` is not a registered class.
    pub fn find_direct_subclasses(&self, root: &ClassId) -> (r: Vec<ClassId>)
        requires
            self.wf(),
        ensures
            keys_distinct(r@),
            key_set(r@) == direct_set(self@, true, root@),
    {
        self.direct(root, true)
    }

    /// The classes that inherit from `root` directly or through other classes, each
    /// once, in breadth-first order; `root` itself is never among them.
    pub fn find_all_subclasses(&self, root: &ClassId) -> (r: Vec<ClassId>)
        requires
            self.wf(),
        ensures
            keys_distinct(r@),
            key_set(r@) == reach_set(self@, true, root@),
    {
        self.transitive(root, true)
    }

    /// The classes that `root` directly inherits from, each once.
    pub fn find_direct_parent_classes(&self, root: &ClassId) -> (r: Vec<ClassId>)
        requires
            self.wf(),
        ensures
            keys_distinct(r@),
            key_set(r@) == direct_set(self@, false, root@),
    {
        self.direct(root, false)
    }

    /// The classes that `root` inherits from directly or through other classes, each
    /// once, in breadth-first order; `root` itself is never among them.
    pub fn find_all_parent_classes(&self, root: &ClassId) -> (r: Vec<ClassId>)
        requires
            self.wf(),
        ensures
            keys_distinct(r@),
            key_set(r@) == reach_set(self@, false, root@),
    {
        self.transitive(root, false)
    }
}

/// Class `keys[c]` has, among the bases considered so far, one that resolves to `p`:
/// all of its bases when `c` precedes `uc`, the first `ub` when `c` is `uc`.
spec fn found_upto(reg: RegistryModel, keys: Seq<ClassKey>, p: ClassKey, c: int, uc: int, ub: int) -> bool {
    ||| (c < uc && edge(reg, p, keys[c]))
    ||| (c == uc && exists|b: int| 0 <= b < ub && edge_via(reg, p, keys[c], b))
}

/// `list` with `x` added unless it is there already.
fn with_added(list: &Vec<usize>, x: usize) -> (r: Vec<usize>)
    requires
        list@.no_duplicates(),
    ensures
        r@.no_duplicates(),
        forall|y: usize| r@.contains(y) <==> (list@.contains(y) || y == x),
{
    let mut r: Vec<usize> = Vec::new();
    let mut present = false;
    let mut i: usize = 0;
    while i < list.len()
        invariant
            i <= list.len(),
            list@.no_duplicates(),
            r@ == list@.take(i as int),
            present == list@.take(i as int).contains(x),
        decreases list.len() - i,
    {
        if list[i] == x {
            present = true;
        }
        r.push(list[i]);
        assert(list@.take(i + 1) =~= list@.take(i as int).push(list@[i as int]));
        assert(list@.take(i + 1).contains(x) <==> (list@.take(i as int).contains(x) || list@[i as int] == x)) by {
            if list@.take(i + 1).contains(x) {
                let t = list@.take(i + 1);
                let k = choose|k: int| 0 <= k < i + 1 && #[trigger] t[k] == x;
                if k < i {
                    assert(list@.take(i as int)[k] == t[k]);
                }
            }
            if list@[i as int] == x {
                assert(list@.take(i + 1)[i as int] == x);
            }
        }
        i = i + 1;
    }
    assert(list@.take(list.len() as int) =~= list@);
    if !present {
        let ghost before = r@;
        r.push(x);
        assert forall|y: usize| r@.contains(y) <==> (list@.contains(y) || y == x) by {
            if r@.contains(y) {
                let k = choose|k: int| 0 <= k < r@.len() && r@[k] == y;
                if k < before.len() {
                    assert(before[k] == y);
                }
            }
            if list@.contains(y) {
                let k = choose|k: int| 0 <= k < list@.len() && list@[k] == y;
                assert(r@[k] == y);
            }
            if y == x {
                assert(r@[before.len() as int] == y);
            }
        }
    }
    r
}


/// Edge symmetry: when a base of class `c` resolves to `p`, then `p` is a direct parent
/// of `c` and `c` a direct subclass of `p`.
pub proof fn lemma_edge_symmetry(reg: RegistryModel, c: ClassKey, b: int)
    requires
        reg.classes.contains_key(c),
        0 <= b < reg.classes[c].len(),
        resolve(reg, c.0, reg.classes[c][b]) is Some,
    ensures
        ({
            let p = resolve(reg, c.0, reg.classes[c][b]).unwrap();
            direct_set(reg, false, c).contains(p) && direct_set(reg, true, p).contains(c)
        }),
{
    let p = resolve(reg, c.0, reg.classes[c][b]).unwrap();
    assert(edge_via(reg, p, c, b));
}

/// The transitive set is closed: it holds every class one step from `root` and every
/// class one step from a class it holds, `root` itself excepted.
pub proof fn lemma_transitive_closed(reg: RegistryModel, down: bool, root: ClassKey)
    ensures
        forall|x: ClassKey|
            direct_set(reg, down, root).contains(x) && x != root ==> reach_set(reg, down, root).contains(x),
        forall|y: ClassKey, x: ClassKey|
            reach_set(reg, down, root).contains(y) && #[trigger] direct_set(reg, down, y).contains(x) && x != root
                ==> reach_set(reg, down, root).contains(x),
{
    assert forall|x: ClassKey|
        direct_set(reg, down, root).contains(x) && x != root implies reach_set(reg, down, root).contains(x) by {
        assert(reaches(reg, down, root, x, 1));
    }
    assert forall|y: ClassKey, x: ClassKey|
        reach_set(reg, down, root).contains(y) && #[trigger] direct_set(reg, down, y).contains(x) && x != root
            implies reach_set(reg, down, root).contains(x) by {
        let m = choose|m: nat| reaches(reg, down, root, y, m);
        assert(reaches(reg, down, root, y, ((m + 1) - 1) as nat));
        assert(reaches(reg, down, root, x, m + 1));
    }
}

/// The transitive set is the least closed one: the fixed point of repeatedly adding the
/// classes one step away, starting from the classes one step from `root`.
pub proof fn lemma_transitive_least(reg: RegistryModel, down: bool, root: ClassKey, s: Set<ClassKey>)
    requires
        forall|x: ClassKey| direct_set(reg, down, root).contains(x) && x != root ==> s.contains(x),
        forall|y: ClassKey, x: ClassKey|
            s.contains(y) && #[trigger] direct_set(reg, down, y).contains(x) && x != root ==> s.contains(x),
    ensures
        reach_set(reg, down, root).subset_of(s),
{
    assert forall|x: ClassKey| reach_set(reg, down, root).contains(x) implies s.contains(x) by {
        let m = choose|m: nat| reaches(reg, down, root, x, m);
        lemma_walk_in_closed(reg, down, root, s, x, m);
    }
}

proof fn lemma_walk_in_closed(reg: RegistryModel, down: bool, root: ClassKey, s: Set<ClassKey>, x: ClassKey, m: nat)
    requires
        forall|x: ClassKey| direct_set(reg, down, root).contains(x) && x != root ==> s.contains(x),
        forall|y: ClassKey, x: ClassKey|
            s.contains(y) && #[trigger] direct_set(reg, down, y).contains(x) && x != root ==> s.contains(x),
        reaches(reg, down, root, x, m),
    ensures
        x == root || s.contains(x),
    decreases m,
{
    if m == 1 {
        assert(direct_set(reg, down, root).contains(x));
    } else {
        let y = choose|y: ClassKey| reaches(reg, down, root, y, (m - 1) as nat) && linked(reg, down, y, x);
        lemma_walk_in_closed(reg, down, root, s, y, (m - 1) as nat);
        assert(direct_set(reg, down, y).contains(x));
    }
}

/// Distinct positions below `n` other than `r` number fewer than `n`.
proof fn lemma_distinct_below(s: Seq<usize>, n: usize, r: usize)
    requires
        s.no_duplicates(),
        forall|k: int| 0 <= k < s.len() ==> s[k] < n,
        !s.contains(r),
        r < n,
    ensures
        s.len() < n,
{
    let si = s.map_values(|x: usize| x as int);
    assert(si.no_duplicates()) by {
        assert forall|a: int, b: int| 0 <= a < si.len() && 0 <= b < si.len() && a != b implies si[a] != si[b] by {
            assert(s[a] != s[b]);
        }
    }
    si.unique_seq_to_set();
    lemma_int_range(0, n as int);
    let range = set_int_range(0, n as int).remove(r as int);
    assert forall|x: int| si.to_set().contains(x) implies range.contains(x) by {
        let k = choose|k: int| 0 <= k < si.len() && si[k] == x;
        assert(s[k] < n);
        if x == r {
            assert(s[k] == r);
            assert(s.contains(r));
        }
    }
    lemma_len_subset(si.to_set(), range);
}

} // verus!
