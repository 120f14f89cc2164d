//! Layout of an object store on disk, the files that name refs, and the
//! working-directory state that commits advance.

use vstd::prelude::*;
use crate::codec::bytes_equal;
use crate::dag::{copy_range, key_wf, push_all, Commit};
use crate::error::Error;
use crate::hash::{hex_of, is_key_hex, ObjectKey};

verus! {

/// Name of the repository directory inside a working directory.
pub const HIDDEN_DIR_NAME: &'static str = ".prototype";

/// Name of each directory's stat cache file.
pub const CACHE_FILE_NAME: &'static str = ".prototype-cache";

/// `a/b`, with no doubled separator.
pub open spec fn join_spec(a: Seq<u8>, b: Seq<u8>) -> Seq<u8> {
    if a.len() == 0 {
        b
    } else if a.last() == 47u8 {
        a + b
    } else {
        a + seq![47u8] + b
    }
}

/// Joins two path pieces with one `/`.
pub fn join(a: &[u8], b: &[u8]) -> (r: Vec<u8>)
    ensures
        r@ == join_spec(a@, b@),
{
    let mut out = copy_range(a, 0, a.len());
    assert(out@ =~= a@);
    if a.len() > 0 && a[a.len() - 1] != 47u8 {
        out.push(47u8);
    }
    push_all(&mut out, b);
    out
}

/// `objects` in ASCII.
pub open spec fn objects_dir() -> Seq<u8> {
    seq![111u8, 98, 106, 101, 99, 116, 115]
}

/// Where the object with key `k` is stored under `root`:
/// `objects/<2 hex>/<2 hex>/<36 hex>`.
pub open spec fn object_path_spec(root: Seq<u8>, k: Seq<u8>) -> Seq<u8> {
    let h = hex_of(k);
    join_spec(
        join_spec(join_spec(join_spec(root, objects_dir()), h.subrange(0, 2)), h.subrange(2, 4)),
        h.subrange(4, 40),
    )
}

/// An object store rooted at a directory.
#[derive(Clone, Debug, PartialEq, Eq)]
pub struct DiskRepository {
    pub root: Vec<u8>,
}

impl DiskRepository {
    /// A store rooted at `path`.
    pub fn new(path: &[u8]) -> (r: DiskRepository)
        ensures
            r.root@ == path@,
    {
        let root = copy_range(path, 0, path.len());
        assert(root@ =~= path@);
        DiskRepository { root }
    }

    /// The root directory.
    pub fn path(&self) -> (r: &Vec<u8>)
        ensures
            r@ == self.root@,
    {
        &self.root
    }

    /// Where the object with key `key` is stored.
    pub fn object_path(&self, key: &ObjectKey) -> (r: Vec<u8>)
        requires
            key_wf(key@),
        ensures
            r@ == object_path_spec(self.root@, key@),
    {
        let hex = key.to_hex();
        let objects: [u8; 7] = [111, 98, 106, 101, 99, 116, 115];
        assert(objects@ =~= objects_dir());
        let objects_path = join(self.root.as_slice(), objects.as_slice());
        let first = copy_range(hex.as_slice(), 0, 2);
        let second = copy_range(hex.as_slice(), 2, 4);
        let rest = copy_range(hex.as_slice(), 4, 40);
        let outer = join(objects_path.as_slice(), first.as_slice());
        let inner = join(outer.as_slice(), second.as_slice());
        join(inner.as_slice(), rest.as_slice())
    }
}

/// What to do with a freshly written temporary object file.
#[derive(Clone, Copy, Debug, PartialEq, Eq, Structural, Hash)]
pub enum StoreAction {
    /// Move it to the object's path (creating parent directories).
    Rename,
    /// The object is stored already: delete the temporary file.
    DiscardTemp,
}

/// Objects are written once: an existing object file is kept as it is.
pub fn store_action(dest_exists: bool) -> (r: StoreAction)
    ensures
        r == store_action_spec(dest_exists),
{
    if dest_exists {
        StoreAction::DiscardTemp
    } else {
        StoreAction::Rename
    }
}

/// Storing equal objects twice lands on one object file: both stores hash
/// to the same key and so to the same path, and the second store, which
/// finds that file, keeps it and discards its temporary copy.
pub proof fn lemma_store_idempotent(root: Seq<u8>, a: crate::dag::ObjectView, b: crate::dag::ObjectView)
    requires
        a == b,
    ensures
        crate::dag::object_key(a) == crate::dag::object_key(b),
        object_path_spec(root, crate::dag::object_key(a)) == object_path_spec(
            root,
            crate::dag::object_key(b),
        ),
        store_action_spec(true) == StoreAction::DiscardTemp,
{
}

/// What `store_action` decides.
pub open spec fn store_action_spec(dest_exists: bool) -> StoreAction {
    if dest_exists {
        StoreAction::DiscardTemp
    } else {
        StoreAction::Rename
    }
}

/// Where a working directory keeps its state file.
pub fn work_dir_state_path(wd_path: &[u8]) -> (r: Vec<u8>)
    ensures
        r@ == join_spec(
            join_spec(wd_path@, seq![46u8, 112, 114, 111, 116, 111, 116, 121, 112, 101]),
            seq![119u8, 111, 114, 107, 95, 100, 105, 114, 95, 115, 116, 97, 116, 101],
        ),
{
    let hidden: [u8; 10] = [46, 112, 114, 111, 116, 111, 116, 121, 112, 101];
    let state: [u8; 14] = [119, 111, 114, 107, 95, 100, 105, 114, 95, 115, 116, 97, 116, 101];
    assert(hidden@ =~= seq![46u8, 112, 114, 111, 116, 111, 116, 121, 112, 101]);
    assert(state@ =~= seq![119u8, 111, 114, 107, 95, 100, 105, 114, 95, 115, 116, 97, 116, 101]);
    let p = join(wd_path, hidden.as_slice());
    join(p.as_slice(), state.as_slice())
}

/// The contents of a branch ref file: forty hex characters and a newline.
pub fn ref_contents(key: &ObjectKey) -> (r: Vec<u8>)
    requires
        key_wf(key@),
    ensures
        r@ == hex_of(key@) + seq![10u8],
{
    let mut out = key.to_hex();
    out.push(10u8);
    out
}

/// Reads a ref file: forty hex characters, then a newline or nothing.
pub fn parse_ref(contents: &[u8]) -> (r: Option<ObjectKey>)
    ensures
        r is Some <==> ((contents@.len() == 40 && is_key_hex(contents@)) || (contents@.len() == 41
            && contents@[40] == 10u8 && is_key_hex(contents@.subrange(0, 40)))),
        r matches Some(k) ==> key_wf(k@) && hex_of(k@) == contents@.subrange(0, 40),
{
    if contents.len() == 41 && contents[40] == 10u8 {
        let text = copy_range(contents, 0, 40);
        ObjectKey::from_hex(text.as_slice())
    } else if contents.len() == 40 {
        assert(contents@.subrange(0, 40) =~= contents@);
        ObjectKey::from_hex(contents)
    } else {
        None
    }
}

/// A name that a branch can have: one that a tree could hold.
pub open spec fn valid_branch_name(n: Seq<u8>) -> bool {
    crate::dag::valid_name(n)
}

/// What a user may name a revision by.
#[derive(Clone, Debug, PartialEq, Eq)]
pub enum RevSpec {
    /// A full hex key.
    Hash(ObjectKey),
    /// A branch name.
    Ref(Vec<u8>),
}

/// Reads a revision: forty lowercase hex characters name a key, another
/// valid name names a branch, and anything else is refused.
pub fn parse_rev_spec(text: &[u8]) -> (r: Result<RevSpec, Error>)
    ensures
        is_key_hex(text@) ==> (r matches Ok(RevSpec::Hash(k)) && hex_of(k@) == text@),
        !is_key_hex(text@) && valid_branch_name(text@) ==> (r matches Ok(RevSpec::Ref(n)) && n@
            == text@),
        !is_key_hex(text@) && !valid_branch_name(text@) ==> (r matches Err(Error::BadRevSpec(t))
            && t@ == text@),
{
    match ObjectKey::from_hex(text) {
        Some(k) => Ok(RevSpec::Hash(k)),
        None => {
            let copy = copy_range(text, 0, text.len());
            assert(copy@ =~= text@);
            if crate::parse::is_valid_name(text) {
                Ok(RevSpec::Ref(copy))
            } else {
                Err(Error::BadRevSpec(copy))
            }
        },
    }
}

/// The state of a working directory: the commits that the next commit
/// follows, and the branch it advances, if any.
#[derive(Clone, Debug, PartialEq, Eq, Hash)]
pub struct WorkDirState {
    pub parents: Vec<ObjectKey>,
    pub branch: Option<Vec<u8>>,
}

impl WorkDirState {
    /// Keys are of key length.
    pub open spec fn wf(&self) -> bool {
        forall|i: int| 0 <= i < self.parents@.len() ==> key_wf(#[trigger] self.parents@[i]@)
    }

    /// No parents, on the default branch, `master`.
    pub fn new() -> (r: WorkDirState)
        ensures
            r.wf(),
            r.parents@.len() == 0,
            r.branch matches Some(b) && b@ == seq![109u8, 97, 115, 116, 101, 114],
    {
        let name: [u8; 6] = [109, 97, 115, 116, 101, 114];
        let branch = copy_range(name.as_slice(), 0, 6);
        assert(branch@ =~= seq![109u8, 97, 115, 116, 101, 114]);
        WorkDirState { parents: Vec::new(), branch: Some(branch) }
    }

    /// The commit of `tree` that follows the current parents.
    pub fn commit_object(&self, tree: &ObjectKey, message: Vec<u8>) -> (r: Commit)
        requires
            self.wf(),
            key_wf(tree@),
        ensures
            r.tree@ == tree@,
            r.parents@.map_values(|k: ObjectKey| k@) == self.parents@.map_values(
                |k: ObjectKey| k@,
            ),
            r.message@ == message@,
    {
        let mut parents: Vec<ObjectKey> = Vec::new();
        let mut i: usize = 0;
        while i < self.parents.len()
            invariant
                i <= self.parents@.len(),
                parents@.map_values(|k: ObjectKey| k@) == self.parents@.map_values(
                    |k: ObjectKey| k@,
                ).take(i as int),
            decreases self.parents@.len() - i,
        {
            let ghost pv = parents@.map_values(|k: ObjectKey| k@);
            parents.push(self.parents[i].copied());
            assert(parents@.map_values(|k: ObjectKey| k@) =~= pv.push(self.parents@[i as int]@));
            i = i + 1;
            assert(parents@.map_values(|k: ObjectKey| k@) =~= self.parents@.map_values(
                |k: ObjectKey| k@,
            ).take(i as int));
        }
        assert(self.parents@.map_values(|k: ObjectKey| k@).take(i as int) =~= self.parents@.map_values(
            |k: ObjectKey| k@,
        ));
        Commit { tree: tree.copied(), parents, message }
    }

    /// After a commit, it is the only parent of the next one.
    pub fn record_commit(&mut self, hash: &ObjectKey)
        requires
            key_wf(hash@),
        ensures
            final(self).wf(),
            final(self).parents@.map_values(|k: ObjectKey| k@) == seq![hash@],
            final(self).branch == old(self).branch,
    {
        let mut parents: Vec<ObjectKey> = Vec::new();
        parents.push(hash.copied());
        self.parents = parents;
        assert(self.parents@.map_values(|k: ObjectKey| k@) =~= seq![hash@]);
    }
}

impl Default for WorkDirState {
    /// No parents, on the default branch.
    fn default() -> (r: WorkDirState)
        ensures
            r.wf(),
            r.parents@.len() == 0,
            r.branch matches Some(b) && b@ == seq![109u8, 97, 115, 116, 101, 114],
    {
        WorkDirState::new()
    }
}

/// Names a store may already hold when it is initialized.
pub open spec fn layout_name(n: Seq<u8>) -> bool {
    n == objects_dir() || n == seq![116u8, 109, 112] || n == seq![114u8, 101, 102, 115] || n
        == seq![72u8, 69, 65, 68]
}

fn is_layout_name(n: &[u8]) -> (r: bool)
    ensures
        r == layout_name(n@),
{
    let objects: [u8; 7] = [111, 98, 106, 101, 99, 116, 115];
    let tmp: [u8; 3] = [116, 109, 112];
    let refs: [u8; 4] = [114, 101, 102, 115];
    let head: [u8; 4] = [72, 69, 65, 68];
    assert(objects@ =~= objects_dir());
    assert(tmp@ =~= seq![116u8, 109, 112]);
    assert(refs@ =~= seq![114u8, 101, 102, 115]);
    assert(head@ =~= seq![72u8, 69, 65, 68]);
    bytes_equal(n, objects.as_slice()) || bytes_equal(n, tmp.as_slice()) || bytes_equal(
        n,
        refs.as_slice(),
    ) || bytes_equal(n, head.as_slice())
}

/// The directories to create for a store at `repo_path`, given the names
/// already in it (none when it does not exist yet); a directory that holds
/// anything besides a store's own layout is refused.
pub fn init(repo_path: &[u8], existing: &[Vec<u8>]) -> (r: Result<Vec<Vec<u8>>, Error>)
    ensures
        r is Ok <==> forall|i: int| 0 <= i < existing@.len() ==> layout_name(#[trigger] existing@[i]@),
        r matches Ok(dirs) ==> dirs@.len() == 3 && dirs@[0]@ == join_spec(repo_path@, objects_dir())
            && dirs@[1]@ == join_spec(repo_path@, seq![116u8, 109, 112]) && dirs@[2]@ == join_spec(
            repo_path@,
            seq![114u8, 101, 102, 115],
        ),
{
    let mut i: usize = 0;
    while i < existing.len()
        invariant
            i <= existing@.len(),
            forall|j: int| 0 <= j < i ==> layout_name(#[trigger] existing@[j]@),
        decreases existing@.len() - i,
    {
        if !is_layout_name(existing[i].as_slice()) {
            let copy = copy_range(repo_path, 0, repo_path.len());
            return Err(Error::UnrelatedContents(copy));
        }
        i = i + 1;
    }
    let objects: [u8; 7] = [111, 98, 106, 101, 99, 116, 115];
    let tmp: [u8; 3] = [116, 109, 112];
    let refs: [u8; 4] = [114, 101, 102, 115];
    assert(objects@ =~= objects_dir());
    assert(tmp@ =~= seq![116u8, 109, 112]);
    assert(refs@ =~= seq![114u8, 101, 102, 115]);
    let mut dirs: Vec<Vec<u8>> = Vec::new();
    dirs.push(join(repo_path, objects.as_slice()));
    dirs.push(join(repo_path, tmp.as_slice()));
    dirs.push(join(repo_path, refs.as_slice()));
    Ok(dirs)
}

} // verus!
