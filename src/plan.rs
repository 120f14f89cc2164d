//! Decisions of the transfer engine: the status of each path, what to hash,
//! how directory results become trees, and how extraction treats what is
//! already on disk.

use vstd::prelude::*;
use crate::cache::{CacheStatus, CacheStatusView};
use crate::dag::{
    has_entry, key_wf, tree_wf, valid_name, ChunkRecord, Object, ObjectView, Tree,
};
use crate::error::Error;
use crate::hash::ObjectKey;
use crate::parse::is_valid_name;

verus! {

/// Where a path stands in an ingest or a status comparison.
#[derive(Clone, Copy, Debug, PartialEq, Eq, Structural, Hash)]
pub enum Status {
    /// To be added (ingest without a previous tree).
    Add,
    /// Excluded by the ignore list.
    Ignored,
    /// On disk, not in the previous tree.
    Untracked,
    /// Same hash on disk and in the previous tree.
    Unchanged,
    /// Different hashes on disk and in the previous tree.
    Modified,
    /// In both, but the file has no cached hash to compare.
    MaybeModified,
    /// In the previous tree, not on disk.
    Offline,
}

impl Status {
    /// Statuses whose paths take part in hashing: all but ignored and
    /// offline ones.
    pub open spec fn included(self) -> bool {
        self != Status::Ignored && self != Status::Offline
    }

    /// Does this path take part in hashing?
    pub fn is_included(&self) -> (r: bool)
        ensures
            r == self.included(),
    {
        match self {
            Status::Ignored | Status::Offline => false,
            _ => true,
        }
    }
}

/// Status of a path when ingesting with no previous tree.
pub fn fs_only_status(ignored: bool) -> (r: Status)
    ensures
        r == (if ignored {
            Status::Ignored
        } else {
            Status::Add
        }),
{
    if ignored {
        Status::Ignored
    } else {
        Status::Add
    }
}

/// The status lattice when comparing a path with the previous tree.
pub open spec fn compare_spec(
    path_exists: bool,
    path_hash: Option<Seq<u8>>,
    path_ignored: bool,
    obj_hash: Option<Seq<u8>>,
) -> Option<Status> {
    match (path_exists, obj_hash) {
        (true, Some(b)) => match path_hash {
            Some(a) => if a == b {
                Some(Status::Unchanged)
            } else {
                Some(Status::Modified)
            },
            None => Some(Status::MaybeModified),
        },
        (true, None) => if path_ignored {
            Some(Status::Ignored)
        } else {
            Some(Status::Untracked)
        },
        (false, Some(_)) => Some(Status::Offline),
        (false, None) => None,
    }
}

/// Compares a path (its cached hash and ignore flag, if it exists) with the
/// object of the same name in the previous tree; `None` when neither exists.
pub fn compare_status(
    path_exists: bool,
    path_hash: &Option<ObjectKey>,
    path_ignored: bool,
    obj_hash: &Option<ObjectKey>,
) -> (r: Option<Status>)
    ensures
        r == compare_spec(
            path_exists,
            match path_hash {
                Some(k) => Some(k@),
                None => None,
            },
            path_ignored,
            match obj_hash {
                Some(k) => Some(k@),
                None => None,
            },
        ),
{
    match (path_exists, obj_hash) {
        (true, Some(b)) => match path_hash {
            Some(a) => if a.same(b) {
                Some(Status::Unchanged)
            } else {
                Some(Status::Modified)
            },
            None => Some(Status::MaybeModified),
        },
        (true, None) => if path_ignored {
            Some(Status::Ignored)
        } else {
            Some(Status::Untracked)
        },
        (false, Some(_)) => Some(Status::Offline),
        (false, None) => None,
    }
}

/// A directory is descended into when it takes part in hashing.
pub fn should_descend(is_dir: bool, status: Status) -> (r: bool)
    ensures
        r == (is_dir && status.included()),
{
    is_dir && status.is_included()
}

/// The known hash of a file from its cache status.
pub fn cached_hash(status: &CacheStatus) -> (r: Option<ObjectKey>)
    ensures
        r matches Some(k) ==> status@ == (CacheStatusView::Cached { hash: k@ }),
        r is None ==> !(status@ is Cached),
{
    match status {
        CacheStatus::Cached { hash } => Some(hash.copied()),
        _ => None,
    }
}

/// What to do with a leaf file during an ingest.
#[derive(Clone, Debug, PartialEq, Eq)]
pub enum LeafAction {
    /// Leave it out of the parent tree.
    Skip,
    /// Its hash is known already.
    Known(ObjectKey),
    /// Chunk, store and cache it.
    HashFile,
}

/// Leaves that do not take part are skipped; a known hash is used as it is;
/// any other file is hashed.
pub fn leaf_action(status: Status, hash: &Option<ObjectKey>) -> (r: LeafAction)
    ensures
        !status.included() ==> r == LeafAction::Skip,
        status.included() && hash is None ==> r == LeafAction::HashFile,
        status.included() && hash is Some ==> (r matches LeafAction::Known(k) && k@
            == hash.unwrap()@),
{
    if !status.is_included() {
        LeafAction::Skip
    } else {
        match hash {
            Some(h) => LeafAction::Known(h.copied()),
            None => LeafAction::HashFile,
        }
    }
}

/// A named result of a child of a directory: its key, or nothing when it
/// was skipped.
#[derive(Clone, Debug, PartialEq, Eq)]
pub struct ChildResult {
    pub name: Vec<u8>,
    pub hash: Option<ObjectKey>,
}

/// The child's key, if it has one, has key length.
pub open spec fn child_key_ok(c: ChildResult) -> bool {
    match c.hash {
        Some(k) => key_wf(k@),
        None => true,
    }
}

/// The child is listed as `n` with key `h` in its directory's tree.
pub open spec fn child_lists(c: ChildResult, n: Seq<u8>, h: Seq<u8>) -> bool {
    &&& c.name@ == n
    &&& valid_name(n)
    &&& match c.hash {
        Some(k) => k@ == h,
        None => false,
    }
}

/// The child has a key and a name that a tree can hold.
pub open spec fn child_kept(c: ChildResult) -> bool {
    c.hash is Some && valid_name(c.name@)
}

/// Builds the tree of a directory from its children's results: skipped
/// children are left out, and a directory with nothing left yields `None`.
pub fn tree_from_children(children: &Vec<ChildResult>) -> (r: Option<Tree>)
    requires
        forall|i: int| 0 <= i < children@.len() ==> child_key_ok(#[trigger] children@[i]),
    ensures
        r is None <==> forall|i: int| 0 <= i < children@.len() ==> !child_kept(#[trigger] children@[i]),
        r matches Some(t) ==> tree_wf(t.entries_view()),
        r matches Some(t) ==> forall|n: Seq<u8>, h: Seq<u8>|
            has_entry(t.entries_view(), n, h) <==> exists|i: int|
                0 <= i < children@.len() && child_lists(#[trigger] children@[i], n, h)
                    && forall|j: int| i < j < children@.len() ==> (#[trigger] children@[j]).name@ != n
                    || !child_kept(children@[j]),
{
    let mut tree = Tree::new();
    let mut any = false;
    let mut i: usize = 0;
    while i < children.len()
        invariant
            i <= children@.len(),
            tree_wf(tree.entries_view()),
            forall|x: int| 0 <= x < children@.len() ==> child_key_ok(#[trigger] children@[x]),
            any <==> exists|x: int| 0 <= x < i && child_kept(#[trigger] children@[x]),
            forall|n: Seq<u8>, h: Seq<u8>|
                has_entry(tree.entries_view(), n, h) <==> exists|x: int|
                    0 <= x < i && child_lists(#[trigger] children@[x], n, h) && forall|j: int|
                        x < j < i ==> (#[trigger] children@[j]).name@ != n || !child_kept(
                            children@[j],
                        ),
        decreases children@.len() - i,
    {
        let child = &children[i];
        let ghost c = children@[i as int];
        let kept = match &child.hash {
            Some(h) => is_valid_name(child.name.as_slice()),
            None => false,
        };
        if kept {
            let h = child.hash.as_ref().unwrap();
            let ghost before = tree.entries_view();
            assert(key_wf(h@)) by {
                assert(child_key_ok(c));
            }
            tree.insert(child.name.clone(), h.copied());
            any = true;
            proof {
                assert forall|n: Seq<u8>, hh: Seq<u8>|
                    has_entry(tree.entries_view(), n, hh) <==> exists|x: int|
                        0 <= x < i + 1 && child_lists(#[trigger] children@[x], n, hh) && forall|
                            j: int,
                        | x < j < i + 1 ==> (#[trigger] children@[j]).name@ != n || !child_kept(
                            children@[j],
                        ) by {
                    if n == c.name@ {
                        if has_entry(tree.entries_view(), n, hh) {
                            assert(child_lists(children@[i as int], n, hh));
                        }
                        if exists|x: int|
                            0 <= x < i + 1 && child_lists(#[trigger] children@[x], n, hh)
                                && forall|j: int|
                                x < j < i + 1 ==> (#[trigger] children@[j]).name@ != n
                                    || !child_kept(children@[j]) {
                            let x = choose|x: int|
                                0 <= x < i + 1 && child_lists(#[trigger] children@[x], n, hh)
                                    && forall|j: int|
                                    x < j < i + 1 ==> (#[trigger] children@[j]).name@ != n
                                        || !child_kept(children@[j]);
                            if x < i {
                                assert(children@[i as int].name@ == n);
                                assert(child_kept(children@[i as int]));
                            }
                        }
                    } else {
                        if has_entry(tree.entries_view(), n, hh) {
                            assert(has_entry(before, n, hh));
                            let x = choose|x: int|
                                0 <= x < i && child_lists(#[trigger] children@[x], n, hh)
                                    && forall|j: int|
                                    x < j < i ==> (#[trigger] children@[j]).name@ != n
                                        || !child_kept(children@[j]);
                            assert(forall|j: int|
                                x < j < i + 1 ==> (#[trigger] children@[j]).name@ != n
                                    || !child_kept(children@[j]));
                        }
                        if exists|x: int|
                            0 <= x < i + 1 && child_lists(#[trigger] children@[x], n, hh)
                                && forall|j: int|
                                x < j < i + 1 ==> (#[trigger] children@[j]).name@ != n
                                    || !child_kept(children@[j]) {
                            let x = choose|x: int|
                                0 <= x < i + 1 && child_lists(#[trigger] children@[x], n, hh)
                                    && forall|j: int|
                                    x < j < i + 1 ==> (#[trigger] children@[j]).name@ != n
                                        || !child_kept(children@[j]);
                            assert(x != i);
                            assert(has_entry(before, n, hh));
                        }
                    }
                }
                assert(child_kept(children@[i as int]));
            }
        } else {
            proof {
                assert(!child_kept(c));
                assert forall|n: Seq<u8>, hh: Seq<u8>|
                    has_entry(tree.entries_view(), n, hh) <==> exists|x: int|
                        0 <= x < i + 1 && child_lists(#[trigger] children@[x], n, hh) && forall|
                            j: int,
                        | x < j < i + 1 ==> (#[trigger] children@[j]).name@ != n || !child_kept(
                            children@[j],
                        ) by {
                    if has_entry(tree.entries_view(), n, hh) {
                        let x = choose|x: int|
                            0 <= x < i && child_lists(#[trigger] children@[x], n, hh) && forall|
                                j: int,
                            | x < j < i ==> (#[trigger] children@[j]).name@ != n || !child_kept(
                                children@[j],
                            );
                        assert(forall|j: int|
                            x < j < i + 1 ==> (#[trigger] children@[j]).name@ != n || !child_kept(
                                children@[j],
                            ));
                    }
                    if exists|x: int|
                        0 <= x < i + 1 && child_lists(#[trigger] children@[x], n, hh) && forall|
                            j: int,
                        | x < j < i + 1 ==> (#[trigger] children@[j]).name@ != n || !child_kept(
                            children@[j],
                        ) {
                        let x = choose|x: int|
                            0 <= x < i + 1 && child_lists(#[trigger] children@[x], n, hh)
                                && forall|j: int|
                                x < j < i + 1 ==> (#[trigger] children@[j]).name@ != n
                                    || !child_kept(children@[j]);
                        assert(x != i);
                    }
                }
            }
        }
        i = i + 1;
    }
    if any {
        Some(tree)
    } else {
        None
    }
}

/// What is at a destination path before extraction.
#[derive(Clone, Copy, Debug, PartialEq, Eq, Structural, Hash)]
pub enum DestKind {
    Missing,
    File,
    Directory,
}

/// How to make way for a directory.
#[derive(Clone, Copy, Debug, PartialEq, Eq, Structural, Hash)]
pub enum DirAction {
    /// A directory is there: merge into it.
    Keep,
    /// Nothing is there: create the directory.
    Create,
    /// A file is there: delete it, then create the directory.
    RemoveFileThenCreate,
}

/// Extracting a tree keeps an existing directory and replaces a file.
pub fn extract_dir_action(dest: DestKind) -> (r: DirAction)
    ensures
        dest == DestKind::Directory ==> r == DirAction::Keep,
        dest == DestKind::Missing ==> r == DirAction::Create,
        dest == DestKind::File ==> r == DirAction::RemoveFileThenCreate,
{
    match dest {
        DestKind::Directory => DirAction::Keep,
        DestKind::Missing => DirAction::Create,
        DestKind::File => DirAction::RemoveFileThenCreate,
    }
}

/// How to write a file.
#[derive(Clone, Copy, Debug, PartialEq, Eq, Structural, Hash)]
pub enum FileAction {
    /// The file already holds the target: leave it.
    Skip,
    /// Write (truncating any file there), then prime the cache.
    Write,
    /// A directory is there: remove it, then write.
    RemoveDirThenWrite,
}

/// Extracting a blob skips a file whose cached hash is the target, removes a
/// directory in the way, and otherwise writes.
pub fn extract_file_action(dest: DestKind, cache: &Option<CacheStatus>, target: &ObjectKey) -> (r:
    FileAction)
    ensures
        dest == DestKind::Directory ==> r == FileAction::RemoveDirThenWrite,
        dest == DestKind::Missing ==> r == FileAction::Write,
        dest == DestKind::File ==> (r == FileAction::Skip <==> (cache matches Some(c) && c@
            == (CacheStatusView::Cached { hash: target@ }))),
        dest == DestKind::File ==> (r == FileAction::Skip || r == FileAction::Write),
{
    match dest {
        DestKind::Directory => FileAction::RemoveDirThenWrite,
        DestKind::Missing => FileAction::Write,
        DestKind::File => match cache {
            Some(CacheStatus::Cached { hash }) => if hash.same(target) {
                FileAction::Skip
            } else {
                FileAction::Write
            },
            _ => FileAction::Write,
        },
    }
}

/// How to produce the bytes of a blob or chunked blob.
#[derive(Clone, Debug, PartialEq, Eq)]
pub enum BlobContent {
    /// The bytes themselves.
    Bytes(Vec<u8>),
    /// The chunks to fetch and write, in order.
    Chunks(Vec<ChunkRecord>),
}

/// The content of a file object: its bytes, or the chunks to fetch;
/// trees and commits are refused.
pub fn blob_content(key: &ObjectKey, obj: Object) -> (r: Result<BlobContent, Error>)
    ensures
        obj@ matches ObjectView::Blob { content } ==> (r matches Ok(BlobContent::Bytes(b)) && b@
            == content),
        obj@ matches ObjectView::ChunkedBlob { chunks, .. } ==> (r matches Ok(
            BlobContent::Chunks(cs),
        ) && cs@.map_values(|c: ChunkRecord| c@) == chunks),
        (obj@ is Tree || obj@ is Commit) ==> (r matches Err(Error::WrongObjectType(k)) && k@
            == key@),
{
    match obj {
        Object::Blob(b) => Ok(BlobContent::Bytes(b.content)),
        Object::ChunkedBlob(c) => Ok(BlobContent::Chunks(c.chunks)),
        _ => Err(Error::WrongObjectType(key.copied())),
    }
}

/// Accepts a fetched chunk only when it is a blob of the recorded size.
pub fn check_chunk(record: &ChunkRecord, obj: Object) -> (r: Result<Vec<u8>, Error>)
    ensures
        r matches Ok(b) ==> obj@ == (ObjectView::Blob { content: b@ }) && b@.len() == record.size,
        r is Err <==> !(obj@ matches ObjectView::Blob { content } && content.len() == record.size),
{
    match obj {
        Object::Blob(b) => {
            if b.content.len() as u64 == record.size {
                Ok(b.content)
            } else {
                Err(Error::CorruptObject(crate::error::Corruption::BadChunkIndex))
            }
        },
        _ => Err(Error::WrongObjectType(record.hash.copied())),
    }
}

} // verus!
