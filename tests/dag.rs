use prototype::dag::{Blob, ChunkRecord, ChunkedBlob, Commit, Object, ObjectHeader, ObjectType, Tree};
use prototype::error::{Corruption, Error};
use prototype::hash::ObjectKey;
use prototype::parse::{parse_commit, parse_tree, read_object, ObjectHandle, RawHandle};

fn object_key(n: u8) -> ObjectKey {
    ObjectKey { bytes: vec![n; 20] }
}

fn key_from_seed(seed: u64) -> ObjectKey {
    let mut x = seed.wrapping_mul(0x9e37_79b9_7f4a_7c15) | 1;
    let mut bytes = Vec::new();
    for _ in 0..20 {
        x ^= x << 13;
        x ^= x >> 7;
        x ^= x << 17;
        bytes.push(x as u8);
    }
    ObjectKey { bytes }
}

fn tree_of(entries: &[(&str, ObjectKey)]) -> Tree {
    let mut t = Tree::new();
    for (name, key) in entries {
        t.insert(name.as_bytes().to_vec(), key.clone());
    }
    t
}

#[test]
fn test_write_blob() {
    let content = b"Hello world!";
    let content_size = content.len() as u64;
    let blob = Blob::from_vec(content.to_vec());

    let output = Object::Blob(blob.clone()).to_bytes();

    let header = ObjectHeader::read_from(&output).expect("read header");
    assert_eq!(
        header,
        ObjectHeader { object_type: ObjectType::Blob, content_size: content_size }
    );

    let handle = ObjectHandle::read_header(output).expect("read header");
    let readblob = handle.parse().expect("read rest of blob");
    assert_eq!(
        readblob,
        Object::Blob(blob),
        "Should be able to get the rest of the content by continuing to read from the same reader."
    );
}

#[test]
fn test_write_tree() {
    let object = tree_of(&[("foo", key_from_seed(1)), ("bar", key_from_seed(2)), ("baz", key_from_seed(3))]);

    let output = Object::Tree(object.clone()).to_bytes();

    let header = ObjectHeader::read_from(&output).expect("read header");
    assert_eq!(header.object_type, ObjectType::Tree);
    assert_ne!(header.content_size, 0);

    let readobject = parse_tree(&output[9..]).expect("read object content");
    assert_eq!(readobject, object);
}

#[test]
fn test_tree_sort_by_name() {
    let tree = tree_of(&[("foo", object_key(0)), ("bar", object_key(2)), ("baz", object_key(1))]);
    let names: Vec<String> =
        tree.entries.iter().map(|e| String::from_utf8(e.name.clone()).unwrap()).collect();
    assert_eq!(names, vec!["bar", "baz", "foo"]);
}

#[test]
fn tree_insert_replaces_existing_name() {
    let mut tree = tree_of(&[("foo", object_key(0)), ("bar", object_key(2))]);
    tree.insert(b"foo".to_vec(), object_key(7));
    assert_eq!(tree.len(), 2);
    assert_eq!(tree.get(b"foo"), Some(object_key(7)));
    assert_eq!(tree.get(b"nope"), None);
}

#[test]
fn tree_encoding_is_exact() {
    let tree = tree_of(&[("b", object_key(2)), ("a", object_key(1))]);
    let mut content = Vec::new();
    Object::Tree(tree).write_content(&mut content);
    let mut expected = vec![1u8; 20];
    expected.extend_from_slice(b"a\n");
    expected.extend_from_slice(&[2u8; 20]);
    expected.extend_from_slice(b"b\n");
    assert_eq!(content, expected);
}

#[test]
fn tree_parse_rejects_unsorted_and_bad_names() {
    let mut unsorted = vec![1u8; 20];
    unsorted.extend_from_slice(b"b\n");
    unsorted.extend_from_slice(&[2u8; 20]);
    unsorted.extend_from_slice(b"a\n");
    assert_eq!(parse_tree(&unsorted), Err(Error::CorruptObject(Corruption::BadTree)));

    let mut dot = vec![1u8; 20];
    dot.extend_from_slice(b"..\n");
    assert_eq!(parse_tree(&dot), Err(Error::CorruptObject(Corruption::BadTree)));

    let mut cut = vec![1u8; 20];
    cut.extend_from_slice(b"name-without-newline");
    assert_eq!(parse_tree(&cut), Err(Error::CorruptObject(Corruption::BadTree)));

    assert_eq!(parse_tree(&[3u8; 10]), Err(Error::CorruptObject(Corruption::BadTree)));
    assert_eq!(parse_tree(&[]), Ok(Tree::new()));
}

#[test]
fn blob_header_bytes_are_big_endian() {
    let bytes = Object::Blob(Blob::from_vec(b"foo".to_vec())).to_bytes();
    assert_eq!(bytes, vec![1, 0, 0, 0, 0, 0, 0, 0, 3, b'f', b'o', b'o']);
    let blob = Blob::from_vec(b"foo".to_vec());
    assert_eq!(blob.size(), 3);
    assert_eq!(blob.content(), &b"foo".to_vec());
}

#[test]
fn header_errors() {
    assert_eq!(ObjectHeader::read_from(&[1, 0, 0]), Err(Error::CorruptObject(Corruption::BadHeader)));
    assert_eq!(
        ObjectHeader::read_from(&[9, 0, 0, 0, 0, 0, 0, 0, 0]),
        Err(Error::CorruptObject(Corruption::BadHeader))
    );
    assert!(ObjectHandle::read_header(vec![0; 9]).is_err());
}

#[test]
fn size_mismatch_is_corrupt() {
    let mut bytes = Object::Blob(Blob::from_vec(b"foo".to_vec())).to_bytes();
    bytes.push(b'!');
    assert_eq!(read_object(&bytes), Err(Error::CorruptObject(Corruption::SizeMismatch)));
    let raw = RawHandle {
        header: ObjectHeader { object_type: ObjectType::Blob, content_size: 2 },
        content: b"foo".to_vec(),
    };
    assert_eq!(raw.parse(), Err(Error::CorruptObject(Corruption::SizeMismatch)));
}

#[test]
fn chunked_blob_round_trip() {
    let c = ChunkedBlob {
        total_size: 30,
        chunks: vec![
            ChunkRecord { offset: 0, size: 10, hash: object_key(1) },
            ChunkRecord { offset: 10, size: 20, hash: object_key(2) },
        ],
    };
    let bytes = Object::ChunkedBlob(c.clone()).to_bytes();
    assert_eq!(bytes.len(), 9 + 12 + 2 * 36);
    assert_eq!(&bytes[9..21], &[0, 0, 0, 0, 0, 0, 0, 30, 0, 0, 0, 2]);
    assert_eq!(read_object(&bytes), Ok(Object::ChunkedBlob(c)));
}

#[test]
fn chunked_blob_with_gap_is_corrupt() {
    let c = ChunkedBlob {
        total_size: 30,
        chunks: vec![
            ChunkRecord { offset: 0, size: 10, hash: object_key(1) },
            ChunkRecord { offset: 11, size: 20, hash: object_key(2) },
        ],
    };
    let bytes = Object::ChunkedBlob(c).to_bytes();
    assert_eq!(read_object(&bytes), Err(Error::CorruptObject(Corruption::BadChunkIndex)));
}

#[test]
fn commit_encoding_and_round_trip() {
    let commit = Commit {
        tree: object_key(0xab),
        parents: vec![object_key(1), object_key(2)],
        message: b"first\nline two".to_vec(),
    };
    let mut content = Vec::new();
    Object::Commit(commit.clone()).write_content(&mut content);
    let text = String::from_utf8(content.clone()).unwrap();
    let expected = format!(
        "tree {}\nparent {}\nparent {}\n\nfirst\nline two",
        "ab".repeat(20),
        "01".repeat(20),
        "02".repeat(20)
    );
    assert_eq!(text, expected);
    assert_eq!(parse_commit(&content), Ok(commit.clone()));
    let bytes = Object::Commit(commit.clone()).to_bytes();
    assert_eq!(read_object(&bytes), Ok(Object::Commit(commit)));
}

#[test]
fn commit_without_parents_and_bad_commit() {
    let commit = Commit { tree: object_key(3), parents: vec![], message: vec![] };
    let mut content = Vec::new();
    Object::Commit(commit.clone()).write_content(&mut content);
    assert_eq!(parse_commit(&content), Ok(commit));
    assert_eq!(parse_commit(b"tree xyz\n\n"), Err(Error::CorruptObject(Corruption::BadCommit)));
    let mut upper = format!("tree {}\n", "AB".repeat(20)).into_bytes();
    upper.push(b'\n');
    assert_eq!(parse_commit(&upper), Err(Error::CorruptObject(Corruption::BadCommit)));
}

#[test]
fn round_trip_every_kind() {
    let objects = vec![
        Object::Blob(Blob::empty()),
        Object::Blob(Blob::from_vec((0..=255u8).collect())),
        Object::Tree(tree_of(&[("x", object_key(9))])),
        Object::Commit(Commit { tree: object_key(4), parents: vec![object_key(5)], message: b"m".to_vec() }),
    ];
    for o in objects {
        let bytes = o.to_bytes();
        assert_eq!(read_object(&bytes), Ok(o.clone()));
        let handle = ObjectHandle::read_header(bytes).unwrap();
        assert_eq!(handle.header().object_type, o.object_type());
        assert_eq!(handle.parse(), Ok(o));
    }
}

#[test]
fn hash_is_deterministic_and_distinguishes_content() {
    let a = Object::Blob(Blob::from_vec(b"12345".to_vec()));
    let b = Object::Blob(Blob::from_vec(b"12345".to_vec()));
    let c = Object::Blob(Blob::from_vec(b"1234".to_vec()));
    assert_eq!(a.calculate_hash(), b.calculate_hash());
    assert_ne!(a.calculate_hash(), c.calculate_hash());
    assert_eq!(a.calculate_hash().bytes.len(), 20);
}

#[test]
fn hash_of_empty_blob_covers_its_header() {
    // The key of an empty file's blob is the SHA-1 of its nine header bytes.
    let key = Object::Blob(Blob::empty()).calculate_hash();
    let expected = sha1_smol::Sha1::from(&[1u8, 0, 0, 0, 0, 0, 0, 0, 0][..]).digest().bytes();
    assert_eq!(key.bytes, expected.to_vec());
    assert_ne!(
        String::from_utf8(key.to_hex()).unwrap(),
        "da39a3ee5e6b4b0d3255bfef95601890afd80709"
    );
}

#[test]
fn treeish_types() {
    assert!(ObjectType::Tree.is_treeish());
    assert!(ObjectType::Commit.is_treeish());
    assert!(!ObjectType::Blob.is_treeish());
    assert!(!ObjectType::ChunkedBlob.is_treeish());
    assert_eq!(ObjectType::from_code(3), Some(ObjectType::Tree));
    assert_eq!(ObjectType::from_code(0), None);
    assert_eq!(ObjectType::Commit.code(), 4);
}

#[test]
fn storable_objects() {
    assert!(Object::Blob(Blob::from_vec(b"x".to_vec())).is_storable());
    assert!(Object::Tree(tree_of(&[("a", object_key(1))])).is_storable());
    let bad_tree = Tree {
        entries: vec![
            prototype::dag::TreeEntry { name: b"b".to_vec(), hash: object_key(1) },
            prototype::dag::TreeEntry { name: b"a".to_vec(), hash: object_key(2) },
        ],
    };
    assert!(!Object::Tree(bad_tree).is_storable());
    let short_key = Commit { tree: ObjectKey { bytes: vec![1; 3] }, parents: vec![], message: vec![] };
    assert!(!Object::Commit(short_key).is_storable());
    let gap = ChunkedBlob {
        total_size: 5,
        chunks: vec![ChunkRecord { offset: 1, size: 5, hash: object_key(1) }],
    };
    assert!(!Object::ChunkedBlob(gap).is_storable());
    assert!(object_key(1).is_valid());
    assert!(!ObjectKey { bytes: vec![] }.is_valid());
}
