//! Paths excluded from ingestion: each listed prefix and everything below it.

use vstd::prelude::*;
use crate::codec::bytes_equal;
use crate::dag::copy_range;

verus! {

/// Is `path` the directory `prefix` or a path below it?
pub open spec fn under(path: Seq<u8>, prefix: Seq<u8>) -> bool {
    path == prefix || (path.len() > prefix.len() && path.take(prefix.len() as int) == prefix && ((
    prefix.len() > 0 && prefix.last() == 47u8) || path[prefix.len() as int] == 47u8))
}

/// Is `path` the directory `prefix` or a path below it?
pub fn is_under(path: &[u8], prefix: &[u8]) -> (r: bool)
    ensures
        r == under(path@, prefix@),
{
    if bytes_equal(path, prefix) {
        return true;
    }
    if path.len() <= prefix.len() {
        return false;
    }
    let head = copy_range(path, 0, prefix.len());
    if !bytes_equal(head.as_slice(), prefix) {
        return false;
    }
    (prefix.len() > 0 && prefix[prefix.len() - 1] == 47u8) || path[prefix.len()] == 47u8
}

/// A set of path prefixes excluded from ingestion.
#[derive(Clone, Debug, PartialEq, Eq, Default)]
pub struct IgnoreList {
    pub prefixes: Vec<Vec<u8>>,
}

impl IgnoreList {
    /// Does some listed prefix cover `path`?
    pub open spec fn covers(&self, path: Seq<u8>) -> bool {
        exists|i: int| 0 <= i < self.prefixes@.len() && under(path, (#[trigger] self.prefixes@[i])@)
    }

    /// A list that holds the store's own root, so that the store is never
    /// ingested.
    pub fn with_store_root(root: &[u8]) -> (r: IgnoreList)
        ensures
            r.prefixes@.len() == 1,
            r.prefixes@[0]@ == root@,
            forall|p: Seq<u8>| r.covers(p) <==> under(p, root@),
    {
        let mut prefixes: Vec<Vec<u8>> = Vec::new();
        let copy = copy_range(root, 0, root.len());
        assert(copy@ =~= root@);
        prefixes.push(copy);
        let r = IgnoreList { prefixes };
        assert forall|p: Seq<u8>| r.covers(p) <==> under(p, root@) by {
            if under(p, root@) {
                assert(under(p, r.prefixes@[0]@));
            }
        }
        r
    }

    /// Adds a prefix.
    pub fn insert(&mut self, prefix: Vec<u8>)
        ensures
            final(self).prefixes@ == old(self).prefixes@.push(prefix),
            forall|p: Seq<u8>|
                final(self).covers(p) <==> (old(self).covers(p) || under(
                    p,
                    final(self).prefixes@.last()@,
                )),
    {
        let ghost pv = prefix@;
        self.prefixes.push(prefix);
        assert forall|p: Seq<u8>| self.covers(p) <==> (old(self).covers(p) || under(p, pv)) by {
            if self.covers(p) {
                let i = choose|i: int|
                    0 <= i < self.prefixes@.len() && under(p, (#[trigger] self.prefixes@[i])@);
                if i < old(self).prefixes@.len() {
                    assert(self.prefixes@[i] == old(self).prefixes@[i]);
                }
            }
            if old(self).covers(p) {
                let i = choose|i: int|
                    0 <= i < old(self).prefixes@.len() && under(
                        p,
                        (#[trigger] old(self).prefixes@[i])@,
                    );
                assert(self.prefixes@[i] == old(self).prefixes@[i]);
            }
            if under(p, pv) {
                assert(under(p, self.prefixes@[self.prefixes@.len() - 1]@));
            }
        }
        assert(self.prefixes@.last()@ == pv);
    }

    /// Is `path` excluded from ingestion?
    pub fn ignores(&self, path: &[u8]) -> (r: bool)
        ensures
            r == self.covers(path@),
    {
        let mut i: usize = 0;
        while i < self.prefixes.len()
            invariant
                i <= self.prefixes@.len(),
                forall|j: int| 0 <= j < i ==> !under(path@, (#[trigger] self.prefixes@[j])@),
            decreases self.prefixes@.len() - i,
        {
            if is_under(path, self.prefixes[i].as_slice()) {
                return true;
            }
            i = i + 1;
        }
        false
    }
}

} // verus!
