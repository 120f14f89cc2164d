use prototype::chunker::{read_file_objects, split_chunks, Chunker, MAX_CHUNK, MIN_CHUNK};
use prototype::dag::{Blob, Object, ObjectType};

fn random_bytes(len: usize, seed: u64) -> Vec<u8> {
    let mut x = seed | 1;
    let mut out = Vec::with_capacity(len);
    while out.len() < len {
        x ^= x << 13;
        x ^= x >> 7;
        x ^= x << 17;
        out.extend_from_slice(&x.to_le_bytes());
    }
    out.truncate(len);
    out
}

#[test]
fn empty_input_is_one_empty_blob() {
    let objs = read_file_objects(&[]);
    assert_eq!(objs, vec![Object::Blob(Blob::empty())]);
    assert!(split_chunks(&[]).is_empty());
}

#[test]
fn small_input_is_one_blob() {
    let objs = read_file_objects(b"foo");
    assert_eq!(objs.len(), 1);
    assert_eq!(objs[0], Object::Blob(Blob::from_vec(b"foo".to_vec())));
    assert_eq!(objs[0].header().content_size, 3);
}

#[test]
fn large_random_input_is_chunked_within_bounds() {
    let data = random_bytes(1536 * 1024, 42);
    let objs = read_file_objects(&data);
    assert!(objs.len() >= 3, "expected several chunks, got {}", objs.len());
    let last = objs.last().unwrap();
    assert_eq!(last.object_type(), ObjectType::ChunkedBlob);
    let index = match last {
        Object::ChunkedBlob(c) => c.clone(),
        _ => unreachable!(),
    };
    assert_eq!(index.total_size, data.len() as u64);
    assert_eq!(index.chunks.len(), objs.len() - 1);
    let mut joined = Vec::new();
    let mut offset = 0u64;
    for (i, record) in index.chunks.iter().enumerate() {
        let blob = match &objs[i] {
            Object::Blob(b) => b.clone(),
            _ => unreachable!(),
        };
        assert_eq!(record.offset, offset);
        assert_eq!(record.size, blob.size());
        assert_eq!(record.hash, objs[i].calculate_hash());
        assert!(blob.size() as usize <= MAX_CHUNK);
        if i + 1 < index.chunks.len() {
            assert!(blob.size() as usize >= MIN_CHUNK);
        }
        offset += record.size;
        joined.extend_from_slice(&blob.content);
    }
    assert_eq!(joined, data);
}

#[test]
fn chunks_are_deterministic_and_rejoin() {
    let data = random_bytes(1200 * 1024, 7);
    let a = split_chunks(&data);
    let b = split_chunks(&data.clone());
    assert_eq!(a, b);
    assert_eq!(a.concat(), data);
}

#[test]
fn streaming_matches_whole_input() {
    let data = random_bytes(1300 * 1024, 99);
    let whole = split_chunks(&data);
    let mut chunker = Chunker::new();
    let mut pieces = Vec::new();
    for part in data.chunks(100_000) {
        pieces.extend(chunker.feed(part));
    }
    if let Some(last) = chunker.finish() {
        pieces.push(last);
    }
    assert_eq!(pieces, whole);
}

#[test]
fn uniform_input_cuts_at_max_chunk() {
    let data = vec![0u8; MAX_CHUNK + 10];
    let chunks = split_chunks(&data);
    assert_eq!(chunks.len(), 2);
    assert_eq!(chunks[0].len(), MAX_CHUNK);
    assert_eq!(chunks[1].len(), 10);
}
