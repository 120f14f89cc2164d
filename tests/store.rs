use prototype::dag::{Blob, Object};
use prototype::error::Error;
use prototype::hash::ObjectKey;
use prototype::ignore::{is_under, IgnoreList};
use prototype::parse::read_object;
use prototype::plan::{tree_from_children, ChildResult};
use prototype::store::{
    init, join, parse_ref, parse_rev_spec, ref_contents, store_action, work_dir_state_path,
    DiskRepository, RevSpec, StoreAction, WorkDirState,
};

#[test]
fn test_object_path() {
    let repo = DiskRepository::new(b".prototype");
    let key = ObjectKey::from_hex(b"a9c3334cfee4083a36bf1f9d952539806fff50e2").unwrap();
    assert_eq!(
        String::from_utf8(repo.object_path(&key)).unwrap(),
        ".prototype/objects/a9/c3/334cfee4083a36bf1f9d952539806fff50e2"
    );
    assert_eq!(repo.path(), &b".prototype".to_vec());
}

#[test]
fn join_uses_one_separator() {
    assert_eq!(join(b"a/", b"b"), b"a/b".to_vec());
    assert_eq!(join(b"a", b"b"), b"a/b".to_vec());
    assert_eq!(join(b"", b"b"), b"b".to_vec());
    assert_eq!(work_dir_state_path(b"/wd"), b"/wd/.prototype/work_dir_state".to_vec());
}

#[test]
fn refs_round_trip() {
    let key = ObjectKey::from_hex(b"9cac8e6ad1da3212c89b73fdbb2302180123b9ca").unwrap();
    let text = ref_contents(&key);
    assert_eq!(text, b"9cac8e6ad1da3212c89b73fdbb2302180123b9ca\n".to_vec());
    assert_eq!(parse_ref(&text), Some(key.clone()));
    assert_eq!(parse_ref(&text[..40]), Some(key));
    assert_eq!(parse_ref(b"nonsense\n"), None);
}

#[test]
fn rev_specs() {
    let hex = b"9cac8e6ad1da3212c89b73fdbb2302180123b9ca";
    assert_eq!(parse_rev_spec(hex), Ok(RevSpec::Hash(ObjectKey::from_hex(hex).unwrap())));
    assert_eq!(parse_rev_spec(b"master"), Ok(RevSpec::Ref(b"master".to_vec())));
    assert_eq!(parse_rev_spec(b"a/b"), Err(Error::BadRevSpec(b"a/b".to_vec())));
    assert_eq!(parse_rev_spec(b""), Err(Error::BadRevSpec(Vec::new())));
}

#[test]
fn init_layout() {
    let dirs = init(b"/r", &[]).unwrap();
    assert_eq!(dirs, vec![b"/r/objects".to_vec(), b"/r/tmp".to_vec(), b"/r/refs".to_vec()]);
    assert!(init(b"/r", &[b"objects".to_vec(), b"HEAD".to_vec()]).is_ok());
    assert_eq!(init(b"/r", &[b"notes.txt".to_vec()]), Err(Error::UnrelatedContents(b"/r".to_vec())));
}

#[test]
fn store_is_write_once() {
    assert_eq!(store_action(false), StoreAction::Rename);
    assert_eq!(store_action(true), StoreAction::DiscardTemp);
    let o = Object::Blob(Blob::from_vec(b"12345".to_vec()));
    let repo = DiskRepository::new(b"/r");
    assert_eq!(repo.object_path(&o.calculate_hash()), repo.object_path(&o.calculate_hash()));
}

#[test]
fn ignore_list_covers_descendants() {
    let mut list = IgnoreList::with_store_root(b"/w/.prototype");
    assert!(list.ignores(b"/w/.prototype"));
    assert!(list.ignores(b"/w/.prototype/objects/ab"));
    assert!(!list.ignores(b"/w/.prototype-cache"));
    assert!(!list.ignores(b"/w/foo"));
    list.insert(b"/w/build/".to_vec());
    assert!(list.ignores(b"/w/build/x"));
    assert!(is_under(b"/a/b", b"/a"));
    assert!(!is_under(b"/ab", b"/a"));
}

fn blob_key(s: &str) -> ObjectKey {
    Object::Blob(Blob::from_vec(s.as_bytes().to_vec())).calculate_hash()
}

#[test]
fn commit_twice_without_changes_keeps_tree() {
    let children = vec![
        ChildResult { name: b"foo".to_vec(), hash: Some(blob_key("123")) },
        ChildResult { name: b"bar".to_vec(), hash: Some(blob_key("1234")) },
    ];
    let tree = tree_from_children(&children).unwrap();
    assert_eq!(tree.len(), 2);
    let tree_hash = Object::Tree(tree.clone()).calculate_hash();

    let mut state = WorkDirState::new();
    assert_eq!(state.branch, Some(b"master".to_vec()));
    let first = state.commit_object(&tree_hash, b"first".to_vec());
    assert!(first.parents.is_empty());
    let first_hash = Object::Commit(first.clone()).calculate_hash();
    state.record_commit(&first_hash);
    assert_eq!(state.parents, vec![first_hash.clone()]);

    let again = tree_from_children(&children).unwrap();
    let second = state.commit_object(&Object::Tree(again).calculate_hash(), b"second".to_vec());
    assert_eq!(second.tree, first.tree);
    assert_eq!(second.parents, vec![first_hash.clone()]);
    assert_ne!(Object::Commit(second.clone()).calculate_hash(), first_hash);
    let bytes = Object::Commit(second.clone()).to_bytes();
    assert_eq!(read_object(&bytes), Ok(Object::Commit(second)));
}

#[test]
fn default_state_is_on_master_with_no_parents() {
    let state = WorkDirState::default();
    assert!(state.parents.is_empty());
    assert_eq!(state.branch, Some(b"master".to_vec()));
    assert_eq!(state, WorkDirState::new());
}
