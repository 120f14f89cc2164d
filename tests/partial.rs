use prototype::cache::CacheStatus;
use prototype::dag::Tree;
use prototype::hash::ObjectKey;
use prototype::partial::{HashedOrNot, PartialTree};

fn object_key(n: u8) -> ObjectKey {
    ObjectKey { bytes: vec![n; 20] }
}

fn partial(entries: Vec<(&str, HashedOrNot)>) -> PartialTree {
    let mut p = PartialTree::new();
    for (name, value) in entries {
        p.insert(name.as_bytes().to_vec(), value);
    }
    p
}

fn tree(entries: &[(&str, ObjectKey)]) -> Tree {
    let mut t = Tree::new();
    for (name, key) in entries {
        t.insert(name.as_bytes().to_vec(), key.clone());
    }
    t
}

#[test]
fn test_partial_tree() {
    let mut partial = partial(vec![
        ("foo", HashedOrNot::Hashed(object_key(0))),
        ("bar", HashedOrNot::Hashed(object_key(2))),
        ("baz", HashedOrNot::Hashed(object_key(1))),
        ("fizz", HashedOrNot::UnhashedFile(1024)),
        (
            "buzz",
            HashedOrNot::Dir(self::partial(vec![("strange", HashedOrNot::UnhashedFile(2048))])),
        ),
    ]);

    assert_eq!(partial.get(b"fizz"), Some(&HashedOrNot::UnhashedFile(1024)));

    assert_eq!(partial.unhashed_size(), 3072);

    assert_eq!(
        partial.tree(),
        tree(&[("foo", object_key(0)), ("bar", object_key(2)), ("baz", object_key(1))])
    );

    assert!(!partial.is_complete());

    partial.insert(b"buzz".to_vec(), HashedOrNot::Hashed(object_key(3)));
    assert_eq!(partial.get(b"buzz"), Some(&HashedOrNot::Hashed(object_key(3))));
    assert_eq!(partial.unhashed_size(), 1024);

    partial.insert(b"fizz".to_vec(), HashedOrNot::Hashed(object_key(4)));

    assert!(partial.unhashed_names().is_empty());
    assert!(partial.is_complete());
    assert_eq!(partial.unhashed_size(), 0);

    assert_eq!(
        partial.tree(),
        tree(&[
            ("foo", object_key(0)),
            ("bar", object_key(2)),
            ("baz", object_key(1)),
            ("fizz", object_key(4)),
            ("buzz", object_key(3)),
        ])
    );
}

#[test]
fn test_partial_tree_with_zero_unhashed() {
    let partial = partial(vec![
        ("foo", HashedOrNot::Hashed(object_key(0))),
        ("bar", HashedOrNot::Dir(self::partial(vec![("baz", HashedOrNot::Hashed(object_key(1)))]))),
    ]);

    assert_eq!(partial.unhashed_size(), 0, "no files need to be hashed");
    assert_eq!(partial.is_complete(), false, "still incomplete");

    assert_eq!(
        partial.tree(),
        tree(&[("foo", object_key(0))]),
        "not safe to take the tree value: it is missing the subtree"
    );

    assert_eq!(
        partial.get(b"bar"),
        Some(&HashedOrNot::Dir(self::partial(vec![("baz", HashedOrNot::Hashed(object_key(1)))]))),
        "the nested PartialTree still holds information that would be lost if we replaced it with just a hash"
    );
}

#[test]
fn empty_subtrees_are_not_added() {
    let mut p = PartialTree::new();
    p.insert(b"empty".to_vec(), HashedOrNot::Dir(PartialTree::new()));
    assert!(p.entries.is_empty());
    assert!(p.is_complete());
}

#[test]
fn cache_status_becomes_child() {
    assert_eq!(
        HashedOrNot::from_cache_status(CacheStatus::Cached { hash: object_key(9) }),
        HashedOrNot::Hashed(object_key(9))
    );
    assert_eq!(
        HashedOrNot::from_cache_status(CacheStatus::Modified { size: 5 }),
        HashedOrNot::UnhashedFile(5)
    );
    assert_eq!(
        HashedOrNot::from_cache_status(CacheStatus::NotCached { size: 6 }),
        HashedOrNot::UnhashedFile(6)
    );
    assert_eq!(HashedOrNot::UnhashedFile(6).unhashed_size(), 6);
}

#[test]
fn unhashed_size_saturates() {
    let p = partial(vec![
        ("a", HashedOrNot::UnhashedFile(u64::MAX)),
        ("b", HashedOrNot::UnhashedFile(10)),
    ]);
    assert_eq!(p.unhashed_size(), u64::MAX);
}
