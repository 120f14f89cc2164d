use prototype::cache::CacheStatus;
use prototype::dag::{Blob, ChunkRecord, Object, Tree};
use prototype::error::{Corruption, Error};
use prototype::hash::ObjectKey;
use prototype::plan::{
    blob_content, cached_hash, check_chunk, compare_status, extract_dir_action, extract_file_action,
    fs_only_status, leaf_action, should_descend, tree_from_children, BlobContent, ChildResult,
    DestKind, DirAction, FileAction, LeafAction, Status,
};

fn key(n: u8) -> ObjectKey {
    ObjectKey { bytes: vec![n; 20] }
}

#[test]
fn status_lattice() {
    assert_eq!(compare_status(true, &Some(key(1)), false, &Some(key(1))), Some(Status::Unchanged));
    assert_eq!(compare_status(true, &Some(key(1)), false, &Some(key(2))), Some(Status::Modified));
    assert_eq!(compare_status(true, &None, false, &Some(key(2))), Some(Status::MaybeModified));
    assert_eq!(compare_status(true, &None, true, &None), Some(Status::Ignored));
    assert_eq!(compare_status(true, &Some(key(1)), false, &None), Some(Status::Untracked));
    assert_eq!(compare_status(false, &None, true, &Some(key(1))), Some(Status::Offline));
    assert_eq!(compare_status(false, &None, true, &None), None);
}

#[test]
fn ingest_decisions() {
    assert_eq!(fs_only_status(true), Status::Ignored);
    assert_eq!(fs_only_status(false), Status::Add);
    assert!(should_descend(true, Status::Add));
    assert!(!should_descend(true, Status::Ignored));
    assert!(!should_descend(false, Status::Add));
    assert_eq!(leaf_action(Status::Ignored, &Some(key(1))), LeafAction::Skip);
    assert_eq!(leaf_action(Status::Add, &Some(key(1))), LeafAction::Known(key(1)));
    assert_eq!(leaf_action(Status::Add, &None), LeafAction::HashFile);
    assert_eq!(cached_hash(&CacheStatus::Cached { hash: key(4) }), Some(key(4)));
    assert_eq!(cached_hash(&CacheStatus::Modified { size: 4 }), None);
}

#[test]
fn empty_or_ignored_directories_yield_nothing() {
    assert_eq!(tree_from_children(&vec![]), None);
    let skipped = vec![ChildResult { name: b"empty".to_vec(), hash: None }];
    assert_eq!(tree_from_children(&skipped), None);
    let mixed = vec![
        ChildResult { name: b"empty".to_vec(), hash: None },
        ChildResult { name: b"foo".to_vec(), hash: Some(key(1)) },
    ];
    let mut expected = Tree::new();
    expected.insert(b"foo".to_vec(), key(1));
    assert_eq!(tree_from_children(&mixed), Some(expected));
}

#[test]
fn extract_onto_existing_file_makes_a_directory() {
    assert_eq!(extract_dir_action(DestKind::File), DirAction::RemoveFileThenCreate);
    assert_eq!(extract_dir_action(DestKind::Directory), DirAction::Keep);
    assert_eq!(extract_dir_action(DestKind::Missing), DirAction::Create);
}

#[test]
fn extract_file_decisions() {
    let target = key(5);
    assert_eq!(extract_file_action(DestKind::Missing, &None, &target), FileAction::Write);
    assert_eq!(
        extract_file_action(DestKind::Directory, &None, &target),
        FileAction::RemoveDirThenWrite
    );
    let cached = Some(CacheStatus::Cached { hash: key(5) });
    assert_eq!(extract_file_action(DestKind::File, &cached, &target), FileAction::Skip);
    let other = Some(CacheStatus::Cached { hash: key(6) });
    assert_eq!(extract_file_action(DestKind::File, &other, &target), FileAction::Write);
    let modified = Some(CacheStatus::Modified { size: 3 });
    assert_eq!(extract_file_action(DestKind::File, &modified, &target), FileAction::Write);
}

#[test]
fn blob_content_and_chunk_checks() {
    let blob = Object::Blob(Blob::from_vec(b"12345".to_vec()));
    assert_eq!(blob_content(&key(1), blob.clone()), Ok(BlobContent::Bytes(b"12345".to_vec())));
    assert_eq!(
        blob_content(&key(1), Object::Tree(Tree::new())),
        Err(Error::WrongObjectType(key(1)))
    );
    let record = ChunkRecord { offset: 0, size: 5, hash: key(2) };
    assert_eq!(check_chunk(&record, blob.clone()), Ok(b"12345".to_vec()));
    let short = ChunkRecord { offset: 0, size: 4, hash: key(2) };
    assert_eq!(check_chunk(&short, blob), Err(Error::CorruptObject(Corruption::BadChunkIndex)));
}
