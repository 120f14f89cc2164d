//! Per-directory caches of file hashes, keyed by file name and checked
//! against file size and modification time.

use vstd::prelude::*;
use crate::codec::bytes_equal;
use crate::dag::key_wf;
use crate::hash::ObjectKey;

verus! {

/// The file metadata that decides whether a cached hash still holds.
#[derive(Clone, Copy, Debug, PartialEq, Eq, Structural, Hash)]
pub struct FileStats {
    pub size: u64,
    pub mtime_secs: i64,
    pub mtime_nanos: u32,
}

impl FileStats {
    /// Stats of a file of `size` bytes last modified at the given time.
    pub fn new(size: u64, mtime_secs: i64, mtime_nanos: u32) -> (r: FileStats)
        ensures
            r.size == size,
            r.mtime_secs == mtime_secs,
            r.mtime_nanos == mtime_nanos,
    {
        FileStats { size, mtime_secs, mtime_nanos }
    }
}

/// What the cache holds for one file.
#[derive(Clone, Debug, PartialEq, Eq, Hash)]
pub struct CacheEntry {
    pub filestats: FileStats,
    pub hash: ObjectKey,
}

/// A cache entry as seen by the specification.
pub struct CacheEntryView {
    pub filestats: FileStats,
    pub hash: Seq<u8>,
}

impl View for CacheEntry {
    type V = CacheEntryView;

    open spec fn view(&self) -> CacheEntryView {
        CacheEntryView { filestats: self.filestats, hash: self.hash@ }
    }
}

/// Status of a file's cached hash.
#[derive(Clone, Debug, PartialEq, Eq)]
pub enum CacheStatus {
    /// The file has no entry.
    NotCached { size: u64 },
    /// The entry's size or modification time differs from the file's.
    Modified { size: u64 },
    /// The entry matches the file.
    Cached { hash: ObjectKey },
}

/// A cache status as seen by the specification.
pub enum CacheStatusView {
    NotCached { size: u64 },
    Modified { size: u64 },
    Cached { hash: Seq<u8> },
}

impl View for CacheStatus {
    type V = CacheStatusView;

    open spec fn view(&self) -> CacheStatusView {
        match self {
            CacheStatus::NotCached { size } => CacheStatusView::NotCached { size: *size },
            CacheStatus::Modified { size } => CacheStatusView::Modified { size: *size },
            CacheStatus::Cached { hash } => CacheStatusView::Cached { hash: hash@ },
        }
    }
}

/// The status of a file with the given stats against a cache's contents.
pub open spec fn check_spec(
    m: Map<Seq<u8>, CacheEntryView>,
    name: Seq<u8>,
    stats: FileStats,
) -> CacheStatusView {
    if !m.contains_key(name) {
        CacheStatusView::NotCached { size: stats.size }
    } else if m[name].filestats == stats {
        CacheStatusView::Cached { hash: m[name].hash }
    } else {
        CacheStatusView::Modified { size: stats.size }
    }
}

/// One file's entry in a cache.
#[derive(Clone, Debug, PartialEq, Eq, Hash)]
pub struct CacheSlot {
    pub name: Vec<u8>,
    pub entry: CacheEntry,
}

/// A cache of known file hashes, for the files of one directory.
#[derive(Clone, Debug, PartialEq, Eq)]
pub struct HashCache {
    pub slots: Vec<CacheSlot>,
}

/// The map from names to entries that slots hold.
pub open spec fn slots_map(s: Seq<CacheSlot>) -> Map<Seq<u8>, CacheEntryView>
    decreases s.len(),
{
    if s.len() == 0 {
        Map::empty()
    } else {
        slots_map(s.drop_last()).insert(s.last().name@, s.last().entry@)
    }
}

/// No name appears twice.
pub open spec fn unique_names(s: Seq<CacheSlot>) -> bool {
    forall|i: int, j: int|
        0 <= i < j < s.len() ==> (#[trigger] s[i]).name@ != (#[trigger] s[j]).name@
}

proof fn lemma_slots_map(s: Seq<CacheSlot>)
    requires
        unique_names(s),
    ensures
        forall|n: Seq<u8>|
            slots_map(s).contains_key(n) <==> exists|i: int|
                0 <= i < s.len() && (#[trigger] s[i]).name@ == n,
        forall|i: int|
            0 <= i < s.len() ==> slots_map(s)[(#[trigger] s[i]).name@] == s[i].entry@,
    decreases s.len(),
{
    if s.len() > 0 {
        let init = s.drop_last();
        assert(unique_names(init)) by {
            assert forall|i: int, j: int| 0 <= i < j < init.len() implies (#[trigger] init[i]).name@
                != (#[trigger] init[j]).name@ by {
                assert(init[i] == s[i] && init[j] == s[j]);
            }
        }
        lemma_slots_map(init);
        assert forall|n: Seq<u8>|
            slots_map(s).contains_key(n) <==> exists|i: int|
                0 <= i < s.len() && (#[trigger] s[i]).name@ == n by {
            if slots_map(s).contains_key(n) && n != s.last().name@ {
                assert(slots_map(init).contains_key(n));
                assert(exists|i: int| 0 <= i < init.len() && (#[trigger] init[i]).name@ == n);
                let i = choose|i: int| 0 <= i < init.len() && (#[trigger] init[i]).name@ == n;
                assert(s[i] == init[i]);
            }
            if slots_map(s).contains_key(n) && n == s.last().name@ {
                assert(s[s.len() - 1].name@ == n);
            }
            if exists|i: int| 0 <= i < s.len() && (#[trigger] s[i]).name@ == n {
                let i = choose|i: int| 0 <= i < s.len() && (#[trigger] s[i]).name@ == n;
                if i < s.len() - 1 {
                    assert(init[i] == s[i]);
                    assert(slots_map(init).contains_key(n));
                }
            }
        }
        assert forall|i: int| 0 <= i < s.len() implies slots_map(s)[(#[trigger] s[i]).name@]
            == s[i].entry@ by {
            if i < s.len() - 1 {
                assert(init[i] == s[i]);
                assert(s[i].name@ != s.last().name@);
            }
        }
    }
}

impl HashCache {
    /// The cache's contents: file name to entry.
    pub open spec fn map(&self) -> Map<Seq<u8>, CacheEntryView> {
        slots_map(self.slots@)
    }

    /// Names are unique and keys have key length.
    pub open spec fn wf(&self) -> bool {
        &&& unique_names(self.slots@)
        &&& forall|i: int| 0 <= i < self.slots@.len() ==> key_wf((#[trigger] self.slots@[i]).entry.hash@)
    }

    /// An empty cache.
    pub fn new() -> (r: HashCache)
        ensures
            r.wf(),
            r.map() == Map::<Seq<u8>, CacheEntryView>::empty(),
    {
        HashCache { slots: Vec::new() }
    }

    fn find(&self, name: &[u8]) -> (r: Option<usize>)
        requires
            self.wf(),
        ensures
            r matches Some(i) ==> i < self.slots@.len() && self.slots@[i as int].name@ == name@,
            r is None ==> forall|i: int|
                0 <= i < self.slots@.len() ==> (#[trigger] self.slots@[i]).name@ != name@,
    {
        let mut i: usize = 0;
        while i < self.slots.len()
            invariant
                i <= self.slots@.len(),
                forall|j: int| 0 <= j < i ==> (#[trigger] self.slots@[j]).name@ != name@,
            decreases self.slots@.len() - i,
        {
            if bytes_equal(self.slots[i].name.as_slice(), name) {
                return Some(i);
            }
            i = i + 1;
        }
        None
    }

    /// Records the hash and stats of the file `name`, replacing any entry.
    pub fn insert_entry(&mut self, name: Vec<u8>, file_stats: FileStats, hash: ObjectKey)
        requires
            old(self).wf(),
            key_wf(hash@),
        ensures
            final(self).wf(),
            final(self).map() == old(self).map().insert(
                name@,
                (CacheEntryView { filestats: file_stats, hash: hash@ }),
            ),
    {
        let ghost old_slots = self.slots@;
        let ghost nv = name@;
        let ghost ev = CacheEntryView { filestats: file_stats, hash: hash@ };
        proof {
            lemma_slots_map(old_slots);
        }
        let found = self.find(name.as_slice());
        let slot = CacheSlot { name, entry: CacheEntry { filestats: file_stats, hash } };
        match found {
            Some(i) => {
                self.slots.remove(i);
                self.slots.push(slot);
                proof {
                    let s = self.slots@;
                    assert(s =~= old_slots.remove(i as int).push(slot));
                    assert(unique_names(s)) by {
                        assert forall|a: int, b: int| 0 <= a < b < s.len() implies (#[trigger] s[a]).name@
                            != (#[trigger] s[b]).name@ by {
                            let oa = if a < i { a } else { a + 1 };
                            assert(s[a] == old_slots[oa]);
                            if b < s.len() - 1 {
                                let ob = if b < i { b } else { b + 1 };
                                assert(s[b] == old_slots[ob]);
                            } else {
                                assert(old_slots[i as int].name@ == nv);
                            }
                        }
                    }
                    lemma_slots_map(s);
                    assert forall|j: int| 0 <= j < s.len() implies key_wf((#[trigger] s[j]).entry.hash@) by {
                        if j < s.len() - 1 {
                            let oj = if j < i { j } else { j + 1 };
                            assert(s[j] == old_slots[oj]);
                        }
                    }
                    assert forall|n: Seq<u8>| #[trigger]
                        self.map().contains_key(n) <==> old(self).map().insert(nv, ev).contains_key(
                            n,
                        ) by {
                        if self.map().contains_key(n) {
                            let j = choose|j: int| 0 <= j < s.len() && (#[trigger] s[j]).name@ == n;
                            if j < s.len() - 1 {
                                let oj = if j < i { j } else { j + 1 };
                                assert(s[j] == old_slots[oj]);
                            }
                        }
                        if old(self).map().contains_key(n) && n != nv {
                            let j = choose|j: int|
                                0 <= j < old_slots.len() && (#[trigger] old_slots[j]).name@ == n;
                            assert(j != i);
                            let sj = if j < i { j } else { j - 1 };
                            assert(s[sj] == old_slots[j]);
                        }
                        if n == nv {
                            assert(s[s.len() - 1].name@ == nv);
                        }
                    }
                    assert forall|n: Seq<u8>| #[trigger]
                        self.map().contains_key(n) implies self.map()[n] == old(self).map().insert(
                            nv,
                            ev,
                        )[n] by {
                        let j = choose|j: int| 0 <= j < s.len() && (#[trigger] s[j]).name@ == n;
                        if j < s.len() - 1 {
                            let oj = if j < i { j } else { j + 1 };
                            assert(s[j] == old_slots[oj]);
                        }
                    }
                    assert(self.map() =~= old(self).map().insert(nv, ev));
                }
            },
            None => {
                self.slots.push(slot);
                proof {
                    let s = self.slots@;
                    assert(s.drop_last() =~= old_slots);
                    assert(unique_names(s)) by {
                        assert forall|a: int, b: int| 0 <= a < b < s.len() implies (#[trigger] s[a]).name@
                            != (#[trigger] s[b]).name@ by {
                            assert(s[a] == old_slots[a]);
                            if b < s.len() - 1 {
                                assert(s[b] == old_slots[b]);
                            }
                        }
                    }
                    assert forall|j: int| 0 <= j < s.len() implies key_wf((#[trigger] s[j]).entry.hash@) by {
                        if j < s.len() - 1 {
                            assert(s[j] == old_slots[j]);
                        }
                    }
                }
            },
        }
    }

    /// The entry for the file `name`, if any.
    pub fn get(&self, name: &[u8]) -> (r: Option<&CacheEntry>)
        requires
            self.wf(),
        ensures
            r matches Some(e) ==> self.map().contains_key(name@) && self.map()[name@] == e@,
            r is None ==> !self.map().contains_key(name@),
    {
        proof {
            lemma_slots_map(self.slots@);
        }
        match self.find(name) {
            Some(i) => Some(&self.slots[i].entry),
            None => None,
        }
    }

    /// Compares the stats of the file `name` with its entry.
    pub fn check(&self, name: &[u8], file_stats: &FileStats) -> (r: CacheStatus)
        requires
            self.wf(),
        ensures
            r@ == check_spec(self.map(), name@, *file_stats),
    {
        match self.get(name) {
            Some(entry) => {
                if entry.filestats == *file_stats {
                    CacheStatus::Cached { hash: entry.hash.copied() }
                } else {
                    CacheStatus::Modified { size: file_stats.size }
                }
            },
            None => CacheStatus::NotCached { size: file_stats.size },
        }
    }
}

/// Right after a file's hash is recorded, the same stats find that hash; any
/// other stats find the entry modified.
pub proof fn lemma_cache_soundness(
    m: Map<Seq<u8>, CacheEntryView>,
    name: Seq<u8>,
    stats: FileStats,
    hash: Seq<u8>,
    later: FileStats,
)
    ensures
        check_spec(m.insert(name, (CacheEntryView { filestats: stats, hash })), name, stats)
            == (CacheStatusView::Cached { hash }),
        later != stats ==> check_spec(
            m.insert(name, (CacheEntryView { filestats: stats, hash })),
            name,
            later,
        ) == (CacheStatusView::Modified { size: later.size }),
{
}

} // verus!
