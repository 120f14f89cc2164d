//! Partial trees: directory snapshots in which some files still need
//! hashing. A plan is built from the filesystem and the stat caches, and is
//! complete once every child has a known key.

use vstd::prelude::*;
use crate::cache::CacheStatus;
use crate::codec::{bytes_equal, bytes_less, bytes_lt, lemma_bytes_lt_irreflexive, lemma_bytes_lt_total, lemma_bytes_lt_transitive};
use crate::dag::{has_entry, key_wf, tree_wf, valid_name, Tree};
use crate::hash::ObjectKey;
use crate::plan::{tree_from_children, ChildResult};

verus! {

/// A child of a partial tree.
#[derive(Debug, PartialEq, Eq)]
pub enum HashedOrNot {
    /// A file or directory with a known key.
    Hashed(ObjectKey),
    /// A file still to hash, with its size.
    UnhashedFile(u64),
    /// A directory, with its own partial tree.
    Dir(PartialTree),
}

/// A named child.
#[derive(Debug, PartialEq, Eq)]
pub struct PartialEntry {
    pub name: Vec<u8>,
    pub value: HashedOrNot,
}

/// A directory whose files may still need hashing, in name order.
#[derive(Debug, PartialEq, Eq)]
pub struct PartialTree {
    pub entries: Vec<PartialEntry>,
}

/// `a + b`, or `u64::MAX` when that does not fit.
pub open spec fn sat_add(a: u64, b: u64) -> u64 {
    if a + b > u64::MAX {
        u64::MAX
    } else {
        (a + b) as u64
    }
}

/// Bytes still to hash below a child, counted up to `u64::MAX`.
pub open spec fn value_size(v: HashedOrNot) -> u64
    decreases v, 0int,
{
    match v {
        HashedOrNot::Hashed(_) => 0,
        HashedOrNot::UnhashedFile(s) => s,
        HashedOrNot::Dir(t) => entries_size(t.entries@, t.entries@.len() as int),
    }
}

/// Bytes still to hash below the first `n` entries, counted up to
/// `u64::MAX`.
pub open spec fn entries_size(es: Seq<PartialEntry>, n: int) -> u64
    decreases es, n,
{
    if n <= 0 || n > es.len() {
        0
    } else {
        sat_add(entries_size(es, n - 1), value_size(es[n - 1].value))
    }
}

/// Does the tree list `name` with `value`?
pub open spec fn lists(es: Seq<PartialEntry>, name: Seq<u8>, value: HashedOrNot) -> bool {
    exists|i: int| 0 <= i < es.len() && (#[trigger] es[i]).name@ == name && es[i].value == value
}

/// The key of a hashed child, if it has one, has key length.
pub open spec fn value_ok(v: HashedOrNot) -> bool {
    match v {
        HashedOrNot::Hashed(k) => key_wf(k@),
        _ => true,
    }
}

/// The child result carries the key of a hashed child, and nothing for any
/// other child.
pub open spec fn child_matches(c: ChildResult, v: HashedOrNot) -> bool {
    match v {
        HashedOrNot::Hashed(k) => c.hash matches Some(k2) && k2@ == k@,
        _ => c.hash is None,
    }
}

impl HashedOrNot {
    /// What a file's cache status tells: its key when cached, else its size.
    pub fn from_cache_status(s: CacheStatus) -> (r: HashedOrNot)
        ensures
            s matches CacheStatus::Cached { hash } ==> r == HashedOrNot::Hashed(hash),
            s matches CacheStatus::Modified { size } ==> r == HashedOrNot::UnhashedFile(size),
            s matches CacheStatus::NotCached { size } ==> r == HashedOrNot::UnhashedFile(size),
    {
        match s {
            CacheStatus::Cached { hash } => HashedOrNot::Hashed(hash),
            CacheStatus::Modified { size } => HashedOrNot::UnhashedFile(size),
            CacheStatus::NotCached { size } => HashedOrNot::UnhashedFile(size),
        }
    }

    /// Bytes still to hash below this child, up to `u64::MAX`.
    pub fn unhashed_size(&self) -> (r: u64)
        ensures
            r == value_size(*self),
        decreases *self, 0int,
    {
        match self {
            HashedOrNot::Hashed(_) => 0,
            HashedOrNot::UnhashedFile(s) => *s,
            HashedOrNot::Dir(t) => t.unhashed_size(),
        }
    }
}

impl PartialTree {
    /// Names are valid and strictly ascending, and known keys have key
    /// length.
    pub open spec fn wf(&self) -> bool {
        &&& forall|i: int| 0 <= i < self.entries@.len() ==> valid_name((#[trigger] self.entries@[i]).name@)
        &&& forall|i: int| 0 <= i < self.entries@.len() ==> value_ok((#[trigger] self.entries@[i]).value)
        &&& forall|i: int, j: int|
            0 <= i < j < self.entries@.len() ==> bytes_lt(
                (#[trigger] self.entries@[i]).name@,
                (#[trigger] self.entries@[j]).name@,
            )
    }

    /// A partial tree with no children.
    pub fn new() -> (r: PartialTree)
        ensures
            r.wf(),
            r.entries@.len() == 0,
    {
        PartialTree { entries: Vec::new() }
    }

    /// Adds a child, replacing any child of the same name, in name order; a
    /// directory with nothing in it is not added.
    pub fn insert(&mut self, name: Vec<u8>, value: HashedOrNot)
        requires
            old(self).wf(),
            valid_name(name@),
            value_ok(value),
        ensures
            final(self).wf(),
            (value matches HashedOrNot::Dir(p) && p.entries@.len() == 0) ==> final(self).entries@
                == old(self).entries@,
            !(value matches HashedOrNot::Dir(p) && p.entries@.len() == 0) ==> forall|
                n: Seq<u8>,
                v: HashedOrNot,
            |
                lists(final(self).entries@, n, v) <==> ((n == name@ && v == value) || (n != name@
                    && lists(old(self).entries@, n, v))),
    {
        if let HashedOrNot::Dir(p) = &value {
            if p.entries.len() == 0 {
                return;
            }
        }
        let ghost old_es = self.entries@;
        let ghost nv = name@;
        let ghost val = value;
        let mut p: usize = 0;
        while p < self.entries.len() && bytes_less(self.entries[p].name.as_slice(), name.as_slice())
            invariant
                p <= self.entries@.len(),
                old_es == self.entries@,
                nv == name@,
                forall|j: int| 0 <= j < p ==> bytes_lt((#[trigger] old_es[j]).name@, nv),
            decreases self.entries@.len() - p,
        {
            p = p + 1;
        }
        let replace = p < self.entries.len() && bytes_equal(
            self.entries[p].name.as_slice(),
            name.as_slice(),
        );
        let ghost skip_to: int = if replace {
            p + 1
        } else {
            p as int
        };
        if replace {
            self.entries.remove(p);
        }
        let entry = PartialEntry { name, value };
        let ghost ev = entry;
        self.entries.insert(p, entry);
        proof {
            let ne = self.entries@;
            assert(ne =~= old_es.take(p as int) + seq![ev] + old_es.skip(skip_to));
            assert forall|j: int| skip_to <= j < old_es.len() implies bytes_lt(
                nv,
                (#[trigger] old_es[j]).name@,
            ) by {
                if replace {
                    assert(old_es[p as int].name@ == nv);
                    assert(bytes_lt(old_es[p as int].name@, old_es[j].name@));
                } else {
                    lemma_bytes_lt_total(old_es[p as int].name@, nv);
                    if j > p {
                        assert(bytes_lt(old_es[p as int].name@, old_es[j].name@));
                        lemma_bytes_lt_transitive(nv, old_es[p as int].name@, old_es[j].name@);
                    }
                }
            }
            assert forall|x: int, y: int| 0 <= x < y < ne.len() implies bytes_lt(
                (#[trigger] ne[x]).name@,
                (#[trigger] ne[y]).name@,
            ) by {
                if y < p {
                } else if y == p {
                } else if x < p {
                    assert(ne[y] == old_es[y - p - 1 + skip_to]);
                    lemma_bytes_lt_transitive(ne[x].name@, nv, ne[y].name@);
                } else if x == p {
                    assert(ne[y] == old_es[y - p - 1 + skip_to]);
                } else {
                    assert(ne[x] == old_es[x - p - 1 + skip_to]);
                    assert(ne[y] == old_es[y - p - 1 + skip_to]);
                }
            }
            assert forall|i: int| 0 <= i < ne.len() implies valid_name((#[trigger] ne[i]).name@)
                && value_ok(ne[i].value) by {
                if i > p {
                    assert(ne[i] == old_es[i - p - 1 + skip_to]);
                }
            }
            assert forall|n: Seq<u8>, v: HashedOrNot|
                lists(ne, n, v) <==> ((n == nv && v == val) || (n != nv && lists(old_es, n, v))) by {
                if lists(ne, n, v) {
                    let i = choose|i: int| 0 <= i < ne.len() && (#[trigger] ne[i]).name@ == n && ne[i].value == v;
                    if i < p {
                        assert(old_es[i] == ne[i]);
                        lemma_bytes_lt_irreflexive(nv);
                    } else if i > p {
                        assert(old_es[i - p - 1 + skip_to] == ne[i]);
                        lemma_bytes_lt_irreflexive(nv);
                    }
                }
                if n == nv && v == val {
                    assert(ne[p as int] == ev);
                }
                if n != nv && lists(old_es, n, v) {
                    let i = choose|i: int| 0 <= i < old_es.len() && (#[trigger] old_es[i]).name@ == n && old_es[i].value == v;
                    if i < p {
                        assert(ne[i] == old_es[i]);
                    } else {
                        if replace && i == p {
                            assert(old_es[i].name@ == nv);
                        }
                        assert(ne[i - skip_to + p + 1] == old_es[i]);
                    }
                }
            }
        }
    }

    /// Bytes still to hash below this tree, up to `u64::MAX`.
    pub fn unhashed_size(&self) -> (r: u64)
        ensures
            r == entries_size(self.entries@, self.entries@.len() as int),
        decreases *self, 1int,
    {
        let mut total: u64 = 0;
        let mut i: usize = 0;
        while i < self.entries.len()
            invariant
                i <= self.entries@.len(),
                total == entries_size(self.entries@, i as int),
            decreases self.entries@.len() - i,
        {
            proof {
                assert(decreases_to!(self.entries => self.entries[i as int]));
            }
            let s = self.entries[i].value.unhashed_size();
            total = match total.checked_add(s) {
                Some(t) => t,
                None => u64::MAX,
            };
            i = i + 1;
        }
        total
    }

    /// The child named `name`, if any.
    pub fn get(&self, name: &[u8]) -> (r: Option<&HashedOrNot>)
        ensures
            r matches Some(v) ==> lists(self.entries@, name@, *v),
            r is None ==> forall|i: int|
                0 <= i < self.entries@.len() ==> (#[trigger] self.entries@[i]).name@ != name@,
    {
        let mut i: usize = 0;
        while i < self.entries.len()
            invariant
                i <= self.entries@.len(),
                forall|j: int| 0 <= j < i ==> (#[trigger] self.entries@[j]).name@ != name@,
            decreases self.entries@.len() - i,
        {
            if bytes_equal(self.entries[i].name.as_slice(), name) {
                assert(self.entries@[i as int].name@ == name@);
                return Some(&self.entries[i].value);
            }
            i = i + 1;
        }
        None
    }

    /// Does every child have a known key? A directory child counts as not
    /// known: its contents are still to be stored.
    pub fn is_complete(&self) -> (r: bool)
        ensures
            r == forall|i: int|
                0 <= i < self.entries@.len() ==> (#[trigger] self.entries@[i]).value is Hashed,
    {
        let mut i: usize = 0;
        while i < self.entries.len()
            invariant
                i <= self.entries@.len(),
                forall|j: int| 0 <= j < i ==> (#[trigger] self.entries@[j]).value is Hashed,
            decreases self.entries@.len() - i,
        {
            match &self.entries[i].value {
                HashedOrNot::Hashed(_) => {},
                _ => return false,
            }
            i = i + 1;
        }
        true
    }

    /// Names of the children that are not known yet, in order.
    pub fn unhashed_names(&self) -> (r: Vec<Vec<u8>>)
        ensures
            forall|i: int| 0 <= i < r@.len() ==> exists|j: int|
                0 <= j < self.entries@.len() && (#[trigger] self.entries@[j]).name@ == (#[trigger] r@[i])@
                    && !(self.entries@[j].value is Hashed),
            r@.len() == 0 <==> forall|j: int|
                0 <= j < self.entries@.len() ==> (#[trigger] self.entries@[j]).value is Hashed,
    {
        let mut out: Vec<Vec<u8>> = Vec::new();
        let mut i: usize = 0;
        while i < self.entries.len()
            invariant
                i <= self.entries@.len(),
                forall|x: int| 0 <= x < out@.len() ==> exists|j: int|
                    0 <= j < self.entries@.len() && (#[trigger] self.entries@[j]).name@ == (#[trigger] out@[x])@
                        && !(self.entries@[j].value is Hashed),
                out@.len() == 0 <==> forall|j: int|
                    0 <= j < i ==> (#[trigger] self.entries@[j]).value is Hashed,
            decreases self.entries@.len() - i,
        {
            match &self.entries[i].value {
                HashedOrNot::Hashed(_) => {},
                _ => {
                    let ghost before = out@;
                    out.push(self.entries[i].name.clone());
                    proof {
                        assert forall|x: int| 0 <= x < out@.len() implies exists|j: int|
                            0 <= j < self.entries@.len() && (#[trigger] self.entries@[j]).name@
                                == (#[trigger] out@[x])@ && !(self.entries@[j].value is Hashed) by {
                            if x < before.len() {
                                assert(out@[x] == before[x]);
                            } else {
                                assert(self.entries@[i as int].name@ == out@[x]@);
                            }
                        }
                    }
                },
            }
            i = i + 1;
        }
        out
    }

    /// The tree of the children with known keys.
    pub fn tree(&self) -> (r: Tree)
        requires
            self.wf(),
        ensures
            tree_wf(r.entries_view()),
            forall|n: Seq<u8>, h: Seq<u8>|
                has_entry(r.entries_view(), n, h) <==> exists|i: int|
                    0 <= i < self.entries@.len() && (#[trigger] self.entries@[i]).name@ == n
                        && (self.entries@[i].value matches HashedOrNot::Hashed(k) && k@ == h),
    {
        let mut children: Vec<ChildResult> = Vec::new();
        let mut i: usize = 0;
        while i < self.entries.len()
            invariant
                self.wf(),
                i <= self.entries@.len(),
                children@.len() == i,
                forall|x: int| 0 <= x < i ==> (#[trigger] children@[x]).name@ == self.entries@[x].name@,
                forall|x: int|
                    0 <= x < i ==> child_matches(#[trigger] children@[x], self.entries@[x].value),
                forall|x: int| 0 <= x < i ==> crate::plan::child_key_ok(#[trigger] children@[x]),
            decreases self.entries@.len() - i,
        {
            let e = &self.entries[i];
            let hash = match &e.value {
                HashedOrNot::Hashed(k) => Some(k.copied()),
                _ => None,
            };
            assert(value_ok(self.entries@[i as int].value));
            children.push(ChildResult { name: e.name.clone(), hash });
            i = i + 1;
        }
        let result = tree_from_children(&children);
        match result {
            Some(t) => {
                proof {
                    assert forall|n: Seq<u8>, h: Seq<u8>|
                        has_entry(t.entries_view(), n, h) <==> exists|i: int|
                            0 <= i < self.entries@.len() && (#[trigger] self.entries@[i]).name@ == n
                                && (self.entries@[i].value matches HashedOrNot::Hashed(k) && k@ == h) by {
                        if has_entry(t.entries_view(), n, h) {
                            let x = choose|x: int|
                                0 <= x < children@.len() && crate::plan::child_lists(
                                    #[trigger] children@[x],
                                    n,
                                    h,
                                ) && forall|j: int|
                                    x < j < children@.len() ==> (#[trigger] children@[j]).name@ != n
                                        || !crate::plan::child_kept(children@[j]);
                            assert(self.entries@[x].name@ == n);
                        }
                        if exists|i: int|
                            0 <= i < self.entries@.len() && (#[trigger] self.entries@[i]).name@ == n
                                && (self.entries@[i].value matches HashedOrNot::Hashed(k) && k@ == h) {
                            let x = choose|i: int|
                                0 <= i < self.entries@.len() && (#[trigger] self.entries@[i]).name@ == n
                                    && (self.entries@[i].value matches HashedOrNot::Hashed(k) && k@
                                    == h);
                            assert(crate::plan::child_lists(children@[x], n, h));
                            assert forall|j: int| x < j < children@.len() implies (#[trigger] children@[j]).name@
                                != n || !crate::plan::child_kept(children@[j]) by {
                                assert(bytes_lt(self.entries@[x].name@, self.entries@[j].name@));
                                lemma_bytes_lt_irreflexive(n);
                            }
                        }
                    }
                }
                t
            },
            None => {
                let t = Tree::new();
                proof {
                    assert forall|n: Seq<u8>, h: Seq<u8>|
                        has_entry(t.entries_view(), n, h) <==> exists|i: int|
                            0 <= i < self.entries@.len() && (#[trigger] self.entries@[i]).name@ == n
                                && (self.entries@[i].value matches HashedOrNot::Hashed(k) && k@ == h) by {
                        if exists|i: int|
                            0 <= i < self.entries@.len() && (#[trigger] self.entries@[i]).name@ == n
                                && (self.entries@[i].value matches HashedOrNot::Hashed(k) && k@ == h) {
                            let x = choose|i: int|
                                0 <= i < self.entries@.len() && (#[trigger] self.entries@[i]).name@ == n
                                    && (self.entries@[i].value matches HashedOrNot::Hashed(k) && k@
                                    == h);
                            assert(!crate::plan::child_kept(children@[x]));
                        }
                    }
                }
                t
            },
        }
    }
}

} // verus!
