//! The file-level result cache: which records can be reused on a later run, and how
//! each run updates the cache. Reading, writing and encoding the cache file is left
//! to the caller.

use vstd::prelude::*;

use crate::error::Error;
use crate::parser::{parsed_view, ParsedFile};

verus! {

/// The version of the cache format; a cache of another version is discarded whole.
pub const CACHE_VERSION: u32 = 1;

/// The name of the cache file in the root directory.
pub const CACHE_FILE_NAME: &'static str = ".pysubclasses-cache";

/// What identifies the state of a file: its modification time and its size.
#[derive(Debug, Clone, Copy, PartialEq, Eq, Structural)]
pub struct FileStamp {
    /// Seconds of the modification time since the Unix epoch.
    pub modified_secs: u64,
    /// Nanoseconds of the modification time within its second.
    pub modified_nanos: u32,
    /// The size in bytes.
    pub size: u64,
}

/// A cached record of one file, with the stamp of the file it was made from.
#[derive(Debug, Clone)]
pub struct CacheEntry {
    pub path: String,
    pub stamp: FileStamp,
    pub parsed: ParsedFile,
}

/// A file's record as plain values.
pub type ParsedView = (
    Seq<char>,
    Seq<char>,
    Seq<(Seq<char>, Seq<char>, Seq<char>, Seq<Seq<char>>)>,
    Seq<(Seq<char>, Seq<char>)>,
    bool,
);

/// The cache as a map from file path to (stamp, record).
pub type CacheModel = Map<Seq<char>, (FileStamp, ParsedView)>;

/// The record stored for `path`, when its stamp is `stamp`.
pub open spec fn looked_up(m: CacheModel, path: Seq<char>, stamp: FileStamp) -> Option<ParsedView> {
    if m.contains_key(path) && m[path].0 == stamp {
        Some(m[path].1)
    } else {
        None
    }
}

/// The cache after a run parsed the file at `path`: a record made from a file whose
/// stamp is known is stored; a failed parse removes the file's entry.
pub open spec fn recorded(
    m: CacheModel,
    path: Seq<char>,
    stamp: Option<FileStamp>,
    result: Result<ParsedView, ()>,
) -> CacheModel {
    match result {
        Ok(pv) => match stamp {
            Some(st) => m.insert(path, (st, pv)),
            None => m,
        },
        Err(_) => m.remove(path),
    }
}

/// The entries in order, a later entry for a path replacing an earlier one.
pub open spec fn entries_model(entries: Seq<CacheEntry>) -> CacheModel
    decreases entries.len(),
{
    if entries.len() == 0 {
        Map::empty()
    } else {
        entries_model(entries.drop_last()).insert(
            entries.last().path@,
            (entries.last().stamp, parsed_view(entries.last().parsed)),
        )
    }
}

/// The records of earlier runs, keyed by file path.
pub struct Cache {
    version: u32,
    entries: Vec<CacheEntry>,
    model: Ghost<CacheModel>,
}

impl View for Cache {
    type V = CacheModel;

    closed spec fn view(&self) -> CacheModel {
        self.model@
    }
}

impl Cache {
    /// Each path once, each entry as the model says.
    pub closed spec fn wf(&self) -> bool {
        &&& forall|i: int|
            0 <= i < self.entries.len() ==> {
                let e = #[trigger] self.entries@[i];
                self.model@.contains_key(e.path@) && self.model@[e.path@] == (e.stamp, parsed_view(e.parsed))
            }
        &&& forall|k: Seq<char>|
            #[trigger] self.model@.contains_key(k) ==> exists|i: int|
                0 <= i < self.entries.len() && self.entries@[i].path@ == k
        &&& forall|i: int, j: int|
            0 <= i < self.entries.len() && 0 <= j < self.entries.len() && i != j
                ==> self.entries@[i].path@ != self.entries@[j].path@
    }

    /// The version of the cache's format.
    pub closed spec fn spec_version(&self) -> u32 {
        self.version
    }

    /// An empty cache of the current version.
    pub fn new() -> (r: Cache)
        ensures
            r.wf(),
            r@ == Map::<Seq<char>, (FileStamp, ParsedView)>::empty(),
            r.spec_version() == CACHE_VERSION,
    {
        Cache { version: CACHE_VERSION, entries: Vec::new(), model: Ghost(Map::empty()) }
    }

    /// The version of the cache's format.
    pub fn version(&self) -> (r: u32)
        ensures
            r == self.spec_version(),
    {
        self.version
    }

    /// The entries, each path once.
    pub fn entries(&self) -> (r: &Vec<CacheEntry>)
        requires
            self.wf(),
        ensures
            forall|i: int|
                0 <= i < r.len() ==> self@.contains_key((#[trigger] r@[i]).path@) && self@[r@[i].path@] == (
                    r@[i].stamp,
                    parsed_view(r@[i].parsed),
                ),
            forall|k: Seq<char>|
                #[trigger] self@.contains_key(k) ==> exists|i: int| 0 <= i < r.len() && r@[i].path@ == k,
    {
        &self.entries
    }

    /// The position of the entry for `path`.
    fn index_of(&self, path: &String) -> (r: Option<usize>)
        requires
            self.wf(),
        ensures
            match r {
                Some(i) => i < self.entries.len() && self.entries@[i as int].path@ == path@,
                None => !self@.contains_key(path@),
            },
    {
        let mut i: usize = 0;
        while i < self.entries.len()
            invariant
                self.wf(),
                i <= self.entries.len(),
                forall|j: int| 0 <= j < i ==> self.entries@[j].path@ != path@,
            decreases self.entries.len() - i,
        {
            if self.entries[i].path == *path {
                return Some(i);
            }
            i = i + 1;
        }
        None
    }

    /// Stores `parsed` for `path` with `stamp`, replacing an earlier entry.
    fn store(&mut self, path: String, stamp: FileStamp, parsed: ParsedFile)
        requires
            old(self).wf(),
        ensures
            final(self).wf(),
            final(self)@ == old(self)@.insert(path@, (stamp, parsed_view(parsed))),
            final(self).spec_version() == old(self).spec_version(),
    {
        let ghost key = path@;
        let ghost val = (stamp, parsed_view(parsed));
        let found = self.index_of(&path);
        match found {
            Some(i) => {
                self.entries.set(i, CacheEntry { path, stamp, parsed });
            },
            None => {
                self.entries.push(CacheEntry { path, stamp, parsed });
            },
        }
        self.model = Ghost(old(self).model@.insert(key, val));
        proof {
            assert forall|k: Seq<char>| #[trigger] self.model@.contains_key(k) implies exists|i: int|
                0 <= i < self.entries.len() && self.entries@[i].path@ == k by {
                if k != key {
                    let i = choose|i: int| 0 <= i < old(self).entries.len() && old(self).entries@[i].path@ == k;
                    assert(self.entries@[i].path@ == k);
                } else {
                    match found {
                        Some(i) => assert(self.entries@[i as int].path@ == k),
                        None => assert(self.entries@[old(self).entries.len() as int].path@ == k),
                    }
                }
            }
        }
    }

    /// Removes the entry for `path`, if there is one.
    fn evict(&mut self, path: &String)
        requires
            old(self).wf(),
        ensures
            final(self).wf(),
            final(self)@ == old(self)@.remove(path@),
            final(self).spec_version() == old(self).spec_version(),
    {
        let ghost key = path@;
        match self.index_of(path) {
            Some(i) => {
                let ghost before = self.entries@;
                self.entries.remove(i);
                self.model = Ghost(old(self).model@.remove(key));
                proof {
                    assert forall|j: int| 0 <= j < self.entries.len() implies (j < i && self.entries@[j] == before[j])
                        || (j >= i && self.entries@[j] == before[j + 1]) by {}
                    assert forall|k: Seq<char>| #[trigger] self.model@.contains_key(k) implies exists|j: int|
                        0 <= j < self.entries.len() && self.entries@[j].path@ == k by {
                        let j = choose|j: int| 0 <= j < before.len() && before[j].path@ == k;
                        if j < i {
                            assert(self.entries@[j].path@ == k);
                        } else {
                            assert(j != i);
                            assert(self.entries@[j - 1].path@ == k);
                        }
                    }
                    assert forall|a: int| 0 <= a < self.entries.len() implies {
                        let e = #[trigger] self.entries@[a];
                        self.model@.contains_key(e.path@) && self.model@[e.path@] == (e.stamp, parsed_view(e.parsed))
                    } by {
                        if a < i {
                            assert(before[a].path@ != before[i as int].path@);
                        } else {
                            assert(before[a + 1].path@ != before[i as int].path@);
                        }
                    }
                    assert forall|a: int, b: int|
                        0 <= a < self.entries.len() && 0 <= b < self.entries.len() && a != b
                            implies self.entries@[a].path@ != self.entries@[b].path@ by {
                        let a2 = if a < i { a } else { a + 1 };
                        let b2 = if b < i { b } else { b + 1 };
                        assert(self.entries@[a] == before[a2]);
                        assert(self.entries@[b] == before[b2]);
                    }
                }
            },
            None => {
                proof {
                    assert(old(self).model@.remove(key) =~= old(self).model@);
                }
            },
        }
    }

    /// The cache as loaded from disk: its entries if it has the current version,
    /// otherwise an empty cache of the current version.
    pub fn from_loaded(version: u32, entries: Vec<CacheEntry>) -> (r: Cache)
        ensures
            r.wf(),
            r.spec_version() == CACHE_VERSION,
            version == CACHE_VERSION ==> r@ == entries_model(entries@),
            version != CACHE_VERSION ==> r@ == Map::<Seq<char>, (FileStamp, ParsedView)>::empty(),
    {
        let mut cache = Cache::new();
        if version != CACHE_VERSION {
            return cache;
        }
        let mut i: usize = 0;
        while i < entries.len()
            invariant
                i <= entries.len(),
                cache.wf(),
                cache.spec_version() == CACHE_VERSION,
                cache@ == entries_model(entries@.take(i as int)),
            decreases entries.len() - i,
        {
            let e = &entries[i];
            proof {
                assert(entries@.take(i + 1).drop_last() =~= entries@.take(i as int));
            }
            cache.store(e.path.clone(), e.stamp, e.parsed.duplicate());
            i = i + 1;
        }
        proof {
            assert(entries@.take(entries.len() as int) =~= entries@);
        }
        cache
    }

    /// The stored record of the file at `path`, if the file's stamp is still `stamp`.
    pub fn lookup(&self, path: &str, stamp: FileStamp) -> (r: Option<ParsedFile>)
        requires
            self.wf(),
        ensures
            match looked_up(self@, path@, stamp) {
                Some(pv) => r matches Some(p) && parsed_view(p) == pv,
                None => r is None,
            },
    {
        match self.index_of(&path.to_owned()) {
            Some(i) => {
                if self.entries[i].stamp == stamp {
                    Some(self.entries[i].parsed.duplicate())
                } else {
                    None
                }
            },
            None => None,
        }
    }

    /// Updates the cache with the outcome of parsing the file at `path`: a record is
    /// stored when the file's stamp is known, a failure evicts the file's entry.
    pub fn record(&mut self, path: &str, stamp: Option<FileStamp>, result: &Result<ParsedFile, Error>)
        requires
            old(self).wf(),
        ensures
            final(self).wf(),
            final(self).spec_version() == old(self).spec_version(),
            final(self)@ == recorded(
                old(self)@,
                path@,
                stamp,
                match result {
                    Ok(p) => Ok(parsed_view(*p)),
                    Err(_) => Err(()),
                },
            ),
    {
        match result {
            Ok(p) => match stamp {
                Some(st) => self.store(path.to_owned(), st, p.duplicate()),
                None => {},
            },
            Err(_) => self.evict(&path.to_owned()),
        }
    }
}

/// The path of the cache file for a root directory: the root joined with the cache
/// file's name, with a separator unless the root is empty or ends in one.
pub open spec fn cache_path_of(root: Seq<char>) -> Seq<char> {
    if root.len() == 0 || root.last() == '/' {
        root + CACHE_FILE_NAME@
    } else {
        root + seq!['/'] + CACHE_FILE_NAME@
    }
}

/// The path of the cache file for the root directory `root_dir`.
pub fn get_cache_path(root_dir: &str) -> (r: String)
    ensures
        r@ == cache_path_of(root_dir@),
{
    let n = root_dir.unicode_len();
    if n == 0 || root_dir.get_char(n - 1) == '/' {
        root_dir.to_owned().concat(CACHE_FILE_NAME)
    } else {
        let with_sep = root_dir.to_owned().concat("/");
        proof {
            reveal_strlit("/");
        }
        with_sep.concat(CACHE_FILE_NAME)
    }
}

/// Round trip: a record stored for a file is what a later run gets back for that file
/// while its modification time and size are unchanged.
pub proof fn lemma_cache_round_trip(m: CacheModel, path: Seq<char>, stamp: FileStamp, pv: ParsedView)
    ensures
        looked_up(recorded(m, path, Some(stamp), Ok(pv)), path, stamp) == Some(pv),
{
}

} // verus!
