//! A bucketed index of positions by hash value, and the hash of names it is used with.

use vstd::prelude::*;

use crate::names::chars_of;

verus! {

/// The modulus of name hashes.
pub const HASH_MODULUS: u64 = 4294967296;

/// A polynomial hash of a character sequence, below `HASH_MODULUS`.
pub open spec fn str_hash(s: Seq<char>) -> u64
    decreases s.len(),
{
    if s.len() == 0 {
        0
    } else {
        ((str_hash(s.drop_last()) as int * 31 + (s.last() as u32) as int) % (HASH_MODULUS as int)) as u64
    }
}

/// The hash of a (module, name) pair.
pub open spec fn pair_hash(a: Seq<char>, b: Seq<char>) -> u64 {
    ((str_hash(a) as int * 31 + str_hash(b) as int) % (HASH_MODULUS as int)) as u64
}

proof fn lemma_str_hash_bound(s: Seq<char>)
    ensures
        str_hash(s) < HASH_MODULUS,
    decreases s.len(),
{
    if s.len() > 0 {
        lemma_str_hash_bound(s.drop_last());
    }
}

/// The hash of `s`.
pub fn hash_str(s: &str) -> (r: u64)
    ensures
        r == str_hash(s@),
        r < HASH_MODULUS,
{
    let cs = chars_of(s);
    let mut h: u64 = 0;
    let mut i: usize = 0;
    proof {
        assert(s@.take(0) =~= Seq::<char>::empty());
    }
    while i < cs.len()
        invariant
            cs@ == s@,
            i <= cs.len(),
            h == str_hash(s@.take(i as int)),
            h < HASH_MODULUS,
        decreases cs.len() - i,
    {
        proof {
            assert(s@.take(i + 1).drop_last() =~= s@.take(i as int));
            assert(s@.take(i + 1).last() == cs@[i as int]);
        }
        h = (h * 31 + cs[i] as u32 as u64) % HASH_MODULUS;
        i = i + 1;
    }
    proof {
        assert(s@.take(cs.len() as int) =~= s@);
    }
    h
}

/// The hash of the pair (`a`, `b`).
pub fn hash_pair(a: &str, b: &str) -> (r: u64)
    ensures
        r == pair_hash(a@, b@),
{
    let ha = hash_str(a);
    let hb = hash_str(b);
    (ha * 31 + hb) % HASH_MODULUS
}

/// Positions grouped by the hash of their keys: every position is found in the bucket
/// of its hash.
pub struct HashIndex {
    buckets: Vec<Vec<usize>>,
    hashes: Ghost<Seq<u64>>,
}

impl HashIndex {
    /// The hash of each position's key.
    pub closed spec fn hashes(&self) -> Seq<u64> {
        self.hashes@
    }

    spec fn bucket_of(&self, h: u64) -> int {
        (h % (self.buckets.len() as u64)) as int
    }

    /// Each position is in the bucket of its hash, and buckets hold positions only.
    pub closed spec fn wf(&self) -> bool {
        &&& self.buckets.len() > 0
        &&& forall|i: int|
            0 <= i < self.hashes@.len() ==> self.buckets@[self.bucket_of(#[trigger] self.hashes@[i])]@.contains(
                i as usize,
            )
        &&& forall|b: int, x: usize|
            0 <= b < self.buckets.len() && #[trigger] self.buckets@[b]@.contains(x) ==> x < self.hashes@.len()
    }

    /// An empty index with about `capacity` buckets.
    pub fn new(capacity: usize) -> (r: HashIndex)
        ensures
            r.wf(),
            r.hashes() == Seq::<u64>::empty(),
    {
        let n = if capacity == 0 {
            1
        } else {
            capacity
        };
        let mut buckets: Vec<Vec<usize>> = Vec::new();
        while buckets.len() < n
            invariant
                buckets.len() <= n,
                forall|b: int| 0 <= b < buckets.len() ==> (#[trigger] buckets@[b])@.len() == 0,
            decreases n - buckets.len(),
        {
            buckets.push(Vec::new());
        }
        HashIndex { buckets, hashes: Ghost(Seq::empty()) }
    }

    /// Adds the next position, `pos`, whose key has hash `h`.
    pub fn push(&mut self, pos: usize, h: u64)
        requires
            old(self).wf(),
            pos == old(self).hashes().len(),
        ensures
            final(self).wf(),
            final(self).hashes() == old(self).hashes().push(h),
    {
        let b = (h % (self.buckets.len() as u64)) as usize;
        let ghost old_buckets = self.buckets@;
        self.buckets[b].push(pos);
        self.hashes = Ghost(self.hashes@.push(h));
        proof {
            assert forall|i: int| 0 <= i < self.hashes@.len() implies self.buckets@[self.bucket_of(
                #[trigger] self.hashes@[i],
            )]@.contains(i as usize) by {
                let bi = self.bucket_of(self.hashes@[i]);
                if i < pos {
                    assert(old_buckets[bi]@.contains(i as usize));
                    let k = choose|k: int| 0 <= k < old_buckets[bi]@.len() && old_buckets[bi]@[k] == i as usize;
                    assert(self.buckets@[bi]@[k] == i as usize);
                } else {
                    assert(self.buckets@[b as int]@[old_buckets[b as int]@.len() as int] == pos);
                }
            }
            assert forall|c: int, x: usize|
                0 <= c < self.buckets.len() && #[trigger] self.buckets@[c]@.contains(x) implies x < self.hashes@.len() by {
                if c != b {
                    assert(old_buckets[c] == self.buckets@[c]);
                } else {
                    let k = choose|k: int| 0 <= k < self.buckets@[c]@.len() && self.buckets@[c]@[k] == x;
                    if k < old_buckets[c]@.len() {
                        assert(old_buckets[c]@.contains(x));
                    }
                }
            }
        }
    }

    /// The positions that may hold a key of hash `h`: every position whose key has that
    /// hash is among them.
    pub fn candidates(&self, h: u64) -> (r: &Vec<usize>)
        requires
            self.wf(),
        ensures
            forall|i: int| 0 <= i < self.hashes().len() && self.hashes()[i] == h ==> r@.contains(i as usize),
            forall|k: int| 0 <= k < r.len() ==> r@[k] < self.hashes().len(),
    {
        let b = (h % (self.buckets.len() as u64)) as usize;
        proof {
            assert forall|k: int| 0 <= k < self.buckets@[b as int].len() implies self.buckets@[b as int]@[k]
                < self.hashes().len() by {
                assert(self.buckets@[b as int]@.contains(self.buckets@[b as int]@[k]));
            }
        }
        &self.buckets[b]
    }
}

} // verus!
