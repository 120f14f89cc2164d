//! Reading stored bytes back into objects.

use vstd::prelude::*;
use crate::codec::{
    be_u32, be_u64, bytes_less, bytes_lt, lemma_be_u32_round_trip, lemma_be_u64_round_trip,
    lemma_be_lengths, lemma_bytes_lt_transitive, lemma_u32_be_round_trip, lemma_u64_be_round_trip, read_u32_be,
    read_u64_be, u32_be, u64_be,
};
use crate::dag::{
    copy_range, keys_wf, object_wf_parts,
    chunked_wf, content_bytes, entries_bytes, entry_bytes, header_bytes, key_wf, object_bytes,
    object_wf, parent_lines, parent_tag, record_bytes, records_bytes, sizes_sum, tree_tag, tree_wf,
    valid_name, type_of, header_of, Blob, ChunkRecord, ChunkRecordView, ChunkedBlob, Commit, Object,
    ObjectHeader, ObjectType, ObjectView, Tree, TreeEntry, TreeEntryView, CHUNKED_PREFIX_SIZE,
    CHUNK_RECORD_SIZE, HEADER_SIZE, TREE_ENTRY_SEPARATOR,
};
use crate::error::{Corruption, Error};
use crate::hash::{
    bytes_of_hex, hex_of, is_key_hex, lemma_hex_round_trip, lemma_hex_text_round_trip,
    ObjectKey, HASHABLE_LIMIT, KEY_SIZE_BYTES,
};

verus! {

/// The header at the start of `b`, if `b` starts with one.
pub open spec fn decode_header(b: Seq<u8>) -> Option<ObjectHeader> {
    if b.len() < HEADER_SIZE {
        None
    } else {
        match ObjectType::from_code_spec(b[0]) {
            Some(t) => Some(ObjectHeader { object_type: t, content_size: be_u64(b.subrange(1, 9)) }),
            None => None,
        }
    }
}

proof fn lemma_from_code(t: ObjectType)
    ensures
        ObjectType::from_code_spec(t.code_spec()) == Some(t),
{
}

/// A header reads back from its bytes.
pub proof fn lemma_header_round_trip(h: ObjectHeader, rest: Seq<u8>)
    ensures
        decode_header(header_bytes(h) + rest) == Some(h),
        header_bytes(h).len() == HEADER_SIZE,
{
    lemma_u64_be_round_trip(h.content_size);
    lemma_from_code(h.object_type);
    let b = header_bytes(h) + rest;
    assert(b.subrange(1, 9) =~= u64_be(h.content_size));
}

/// A decoded header is the one whose bytes start `b`.
pub proof fn lemma_header_decoded(b: Seq<u8>)
    requires
        decode_header(b) is Some,
    ensures
        header_bytes(decode_header(b).unwrap()) == b.subrange(0, 9),
{
    lemma_be_u64_round_trip(b.subrange(1, 9));
    assert(header_bytes(decode_header(b).unwrap()) =~= b.subrange(0, 9));
}

impl ObjectHeader {
    /// Parses the header at the start of `b`.
    pub fn read_from(b: &[u8]) -> (r: Result<ObjectHeader, Error>)
        ensures
            r matches Ok(h) ==> decode_header(b@) == Some(h),
            r is Err ==> decode_header(b@) is None && r == Err::<ObjectHeader, Error>(
                Error::CorruptObject(Corruption::BadHeader),
            ),
    {
        if b.len() < HEADER_SIZE {
            return Err(Error::CorruptObject(Corruption::BadHeader));
        }
        match ObjectType::from_code(b[0]) {
            Some(t) => {
                let size = read_u64_be(b, 1);
                Ok(ObjectHeader { object_type: t, content_size: size })
            },
            None => Err(Error::CorruptObject(Corruption::BadHeader)),
        }
    }
}

/// The chunk record whose bytes start at `pos`.
pub open spec fn record_at(b: Seq<u8>, pos: int) -> ChunkRecordView {
    ChunkRecordView {
        offset: be_u64(b.subrange(pos, pos + 8)),
        size: be_u64(b.subrange(pos + 8, pos + 16)),
        hash: b.subrange(pos + 16, pos + 36),
    }
}

/// The records that a chunk index lists.
pub open spec fn decoded_records(b: Seq<u8>, n: nat) -> Seq<ChunkRecordView> {
    Seq::new(n, |k: int| record_at(b, CHUNKED_PREFIX_SIZE + CHUNK_RECORD_SIZE * k))
}

/// The chunked blob that content bytes describe, if they describe a valid one.
pub open spec fn decode_chunked(b: Seq<u8>) -> Option<ObjectView> {
    if b.len() < CHUNKED_PREFIX_SIZE {
        None
    } else {
        let total = be_u64(b.subrange(0, 8));
        let n = be_u32(b.subrange(8, 12));
        let chunks = decoded_records(b, n as nat);
        if b.len() == CHUNKED_PREFIX_SIZE + CHUNK_RECORD_SIZE * n && chunked_wf(total, chunks) {
            Some(ObjectView::ChunkedBlob { total_size: total, chunks })
        } else {
            None
        }
    }
}

proof fn lemma_record_bytes(r: ChunkRecordView, b: Seq<u8>, pos: int)
    requires
        key_wf(r.hash),
        0 <= pos,
        pos + 36 <= b.len(),
        b.subrange(pos, pos + 36) == record_bytes(r),
    ensures
        record_at(b, pos) == r,
{
    lemma_u64_be_round_trip(r.offset);
    lemma_u64_be_round_trip(r.size);
    assert(b.subrange(pos, pos + 8) =~= b.subrange(pos, pos + 36).subrange(0, 8));
    assert(b.subrange(pos + 8, pos + 16) =~= b.subrange(pos, pos + 36).subrange(8, 16));
    assert(b.subrange(pos + 16, pos + 36) =~= b.subrange(pos, pos + 36).subrange(16, 36));
    assert(record_bytes(r).subrange(0, 8) =~= u64_be(r.offset));
    assert(record_bytes(r).subrange(8, 16) =~= u64_be(r.size));
    assert(record_bytes(r).subrange(16, 36) =~= r.hash);
}

proof fn lemma_record_at_bytes(b: Seq<u8>, pos: int)
    requires
        0 <= pos,
        pos + 36 <= b.len(),
    ensures
        record_bytes(record_at(b, pos)) == b.subrange(pos, pos + 36),
{
    lemma_be_u64_round_trip(b.subrange(pos, pos + 8));
    lemma_be_u64_round_trip(b.subrange(pos + 8, pos + 16));
    assert(record_bytes(record_at(b, pos)) =~= b.subrange(pos, pos + 36));
}

proof fn lemma_records_layout(rs: Seq<ChunkRecordView>)
    requires
        forall|i: int| 0 <= i < rs.len() ==> key_wf((#[trigger] rs[i]).hash),
    ensures
        records_bytes(rs).len() == 36 * rs.len(),
        forall|k: int|
            0 <= k < rs.len() ==> records_bytes(rs).subrange(36 * k, 36 * k + 36) == record_bytes(
                #[trigger] rs[k],
            ),
    decreases rs.len(),
{
    if rs.len() > 0 {
        let init = rs.drop_last();
        lemma_be_lengths(rs.last().offset, 0);
        lemma_be_lengths(rs.last().size, 0);
        lemma_records_layout(init);
        assert forall|k: int|
            0 <= k < rs.len() implies records_bytes(rs).subrange(36 * k, 36 * k + 36)
            == record_bytes(#[trigger] rs[k]) by {
            if k < rs.len() - 1 {
                assert(init[k] == rs[k]);
                assert(records_bytes(rs).subrange(36 * k, 36 * k + 36) =~= records_bytes(
                    init,
                ).subrange(36 * k, 36 * k + 36));
            } else {
                assert(records_bytes(rs).subrange(36 * k, 36 * k + 36) =~= record_bytes(rs.last()));
            }
        }
    }
}

proof fn lemma_decoded_records_bytes(b: Seq<u8>, n: nat)
    requires
        CHUNKED_PREFIX_SIZE + CHUNK_RECORD_SIZE * n <= b.len(),
    ensures
        records_bytes(decoded_records(b, n)) == b.subrange(12, 12 + 36 * n as int),
    decreases n,
{
    if n > 0 {
        lemma_decoded_records_bytes(b, (n - 1) as nat);
        assert(decoded_records(b, n).drop_last() =~= decoded_records(b, (n - 1) as nat));
        lemma_record_at_bytes(b, 12 + 36 * (n - 1));
        let m = n as int;
        assert(b.subrange(12, 12 + 36 * m) =~= b.subrange(12, 12 + 36 * (m - 1)) + b.subrange(
            12 + 36 * (m - 1),
            12 + 36 * m,
        ));
    } else {
        assert(b.subrange(12, 12) =~= Seq::<u8>::empty());
    }
}

/// Content that decodes as a chunked blob is that blob's encoding.
pub proof fn lemma_chunked_decoded(b: Seq<u8>)
    requires
        decode_chunked(b) is Some,
    ensures
        content_bytes(decode_chunked(b).unwrap()) == b,
{
    let n = be_u32(b.subrange(8, 12));
    lemma_be_u64_round_trip(b.subrange(0, 8));
    lemma_be_u32_round_trip(b.subrange(8, 12));
    lemma_decoded_records_bytes(b, n as nat);
    assert(decoded_records(b, n as nat).len() == n);
    assert(b =~= b.subrange(0, 8) + b.subrange(8, 12) + b.subrange(12, b.len() as int));
}

/// A valid chunked blob decodes from its encoding.
pub proof fn lemma_chunked_round_trip(total: u64, chunks: Seq<ChunkRecordView>)
    requires
        chunked_wf(total, chunks),
    ensures
        decode_chunked(content_bytes(ObjectView::ChunkedBlob { total_size: total, chunks })) == Some(
            ObjectView::ChunkedBlob { total_size: total, chunks },
        ),
{
    let o = ObjectView::ChunkedBlob { total_size: total, chunks };
    let b = content_bytes(o);
    let n = chunks.len() as u32;
    lemma_u64_be_round_trip(total);
    lemma_u32_be_round_trip(n);
    lemma_records_layout(chunks);
    assert(b.subrange(0, 8) =~= u64_be(total));
    assert(b.subrange(8, 12) =~= u32_be(n));
    let rb = records_bytes(chunks);
    assert forall|k: int| 0 <= k < chunks.len() implies #[trigger] decoded_records(b, n as nat)[k]
        == chunks[k] by {
        assert(b.subrange(12 + 36 * k, 12 + 36 * k + 36) =~= rb.subrange(36 * k, 36 * k + 36));
        lemma_record_bytes(chunks[k], b, 12 + 36 * k);
    }
    assert(decoded_records(b, n as nat) =~= chunks);
}

proof fn lemma_sizes_sum_monotone(rs: Seq<ChunkRecordView>, i: int, j: int)
    requires
        0 <= i <= j <= rs.len(),
    ensures
        sizes_sum(rs.take(i)) <= sizes_sum(rs.take(j)),
    decreases j - i,
{
    if i < j {
        lemma_sizes_sum_monotone(rs, i, j - 1);
        assert(rs.take(j).drop_last() =~= rs.take(j - 1));
    }
}

fn read_record(b: &[u8], pos: usize) -> (r: ChunkRecord)
    requires
        pos + 36 <= b@.len(),
    ensures
        r@ == record_at(b@, pos as int),
{
    let len = b.len();
    let offset = read_u64_be(b, pos);
    let size = read_u64_be(b, pos + 8);
    let hash = ObjectKey { bytes: copy_range(b, pos + 16, pos + 36) };
    ChunkRecord { offset, size, hash }
}

#[verifier::rlimit(80)]
fn parse_chunked(b: &[u8]) -> (r: Result<ChunkedBlob, Error>)
    ensures
        r matches Ok(c) ==> decode_chunked(b@) == Some(
            ObjectView::ChunkedBlob {
                total_size: c.total_size,
                chunks: c.chunks@.map_values(|x: ChunkRecord| x@),
            },
        ),
        r is Err ==> decode_chunked(b@) is None,
{
    if b.len() < CHUNKED_PREFIX_SIZE {
        return Err(Error::CorruptObject(Corruption::BadChunkIndex));
    }
    let total = read_u64_be(b, 0);
    let n = read_u32_be(b, 8);
    let ghost want = decoded_records(b@, n as nat);
    let expected: u64 = 12 + 36 * (n as u64);
    if b.len() as u64 != expected {
        return Err(Error::CorruptObject(Corruption::BadChunkIndex));
    }
    let mut chunks: Vec<ChunkRecord> = Vec::new();
    let mut sum: u64 = 0;
    let mut k: u32 = 0;
    let mut pos: usize = CHUNKED_PREFIX_SIZE;
    let blen = b.len();
    while k < n
        invariant
            k <= n,
            blen == b@.len(),
            pos == 12 + 36 * k,
            b@.len() == 12 + 36 * n,
            want == decoded_records(b@, n as nat),
            chunks@.map_values(|x: ChunkRecord| x@) == want.take(k as int),
            sum == sizes_sum(want.take(k as int)),
            forall|i: int| 0 <= i < k ==> (#[trigger] want[i]).offset == sizes_sum(want.take(i)),
        decreases n - k,
    {
        let rec = read_record(b, pos);
        assert(want[k as int] == record_at(b@, pos as int));
        if rec.offset != sum {
            return Err(Error::CorruptObject(Corruption::BadChunkIndex));
        }
        proof {
            assert(want.take(k + 1).drop_last() =~= want.take(k as int));
        }
        let next = sum.checked_add(rec.size);
        match next {
            None => {
                proof {
                    lemma_sizes_sum_monotone(want, k + 1, want.len() as int);
                    assert(want.take(want.len() as int) =~= want);
                }
                return Err(Error::CorruptObject(Corruption::BadChunkIndex));
            },
            Some(v) => {
                sum = v;
            },
        }
        chunks.push(rec);
        k = k + 1;
        pos = pos + 36;
        assert(chunks@.map_values(|x: ChunkRecord| x@) =~= want.take(k as int));
    }
    assert(want.take(n as int) =~= want);
    if sum != total {
        return Err(Error::CorruptObject(Corruption::BadChunkIndex));
    }
    Ok(ChunkedBlob { total_size: total, chunks })
}

/// Index of the first newline in `s`, or its length if there is none.
pub open spec fn first_nl(s: Seq<u8>) -> nat
    decreases s.len(),
{
    if s.len() == 0 {
        0
    } else if s[0] == TREE_ENTRY_SEPARATOR {
        0
    } else {
        1 + first_nl(s.drop_first())
    }
}

/// `Some(pre + x)` where `o` is `Some(x)`.
pub open spec fn prepend<A>(pre: Seq<A>, o: Option<Seq<A>>) -> Option<Seq<A>> {
    match o {
        Some(x) => Some(pre + x),
        None => None,
    }
}

/// The entries that tree content lists, read front to back; `None` where an
/// entry is cut short.
pub open spec fn decode_entries(b: Seq<u8>) -> Option<Seq<TreeEntryView>>
    decreases b.len(),
{
    if b.len() == 0 {
        Some(Seq::empty())
    } else if b.len() < KEY_SIZE_BYTES {
        None
    } else {
        let rest = b.subrange(20, b.len() as int);
        let p = first_nl(rest) as int;
        if p >= rest.len() {
            None
        } else {
            prepend(
                seq![TreeEntryView { hash: b.subrange(0, 20), name: rest.subrange(0, p) }],
                decode_entries(rest.subrange(p + 1, rest.len() as int)),
            )
        }
    }
}

/// Keys of key length and names free of newlines.
pub open spec fn entries_shape(es: Seq<TreeEntryView>) -> bool {
    forall|i: int|
        0 <= i < es.len() ==> key_wf((#[trigger] es[i]).hash) && forall|j: int|
            0 <= j < es[i].name.len() ==> es[i].name[j] != TREE_ENTRY_SEPARATOR
}

proof fn lemma_first_nl(s: Seq<u8>, k: int)
    requires
        0 <= k <= s.len(),
        forall|j: int| 0 <= j < k ==> s[j] != TREE_ENTRY_SEPARATOR,
        k == s.len() || s[k] == TREE_ENTRY_SEPARATOR,
    ensures
        first_nl(s) == k,
    decreases k,
{
    if k > 0 {
        lemma_first_nl(s.drop_first(), k - 1);
    }
}

proof fn lemma_entries_bytes_front(es: Seq<TreeEntryView>)
    requires
        es.len() > 0,
    ensures
        entries_bytes(es) == entry_bytes(es[0]) + entries_bytes(es.drop_first()),
    decreases es.len(),
{
    if es.len() == 1 {
        assert(es.drop_last() =~= Seq::<TreeEntryView>::empty());
        assert(es.drop_first() =~= Seq::<TreeEntryView>::empty());
        assert(entries_bytes(es.drop_last()) =~= Seq::<u8>::empty());
        assert(entries_bytes(es.drop_first()) =~= Seq::<u8>::empty());
        assert(entries_bytes(es) =~= entry_bytes(es[0]) + entries_bytes(es.drop_first()));
    } else {
        lemma_entries_bytes_front(es.drop_last());
        assert(es.drop_last().drop_first() =~= es.drop_first().drop_last());
        assert(es.drop_last()[0] == es[0]);
        assert(es.drop_first().last() == es.last());
        assert(entries_bytes(es) =~= entry_bytes(es[0]) + entries_bytes(es.drop_first()));
    }
}

proof fn lemma_entries_round_trip(es: Seq<TreeEntryView>)
    requires
        entries_shape(es),
    ensures
        decode_entries(entries_bytes(es)) == Some(es),
    decreases es.len(),
{
    if es.len() == 0 {
    } else {
        lemma_entries_bytes_front(es);
        let e = es[0];
        let tail = es.drop_first();
        assert(entries_shape(tail)) by {
            assert forall|i: int| 0 <= i < tail.len() implies key_wf((#[trigger] tail[i]).hash)
                && forall|j: int| 0 <= j < tail[i].name.len() ==> tail[i].name[j] != 10 by {
                assert(tail[i] == es[i + 1]);
            }
        }
        lemma_entries_round_trip(tail);
        let tb = entries_bytes(tail);
        let b = entries_bytes(es);
        assert(b =~= e.hash + e.name + seq![10u8] + tb);
        let rest = b.subrange(20, b.len() as int);
        assert(rest =~= e.name + seq![10u8] + tb);
        lemma_first_nl(rest, e.name.len() as int);
        assert(rest.subrange(e.name.len() as int + 1, rest.len() as int) =~= tb);
        assert(b.subrange(0, 20) =~= e.hash);
        assert(rest.subrange(0, e.name.len() as int) =~= e.name);
        assert(seq![e] + tail =~= es);
    }
}

proof fn lemma_entries_decoded(b: Seq<u8>)
    requires
        decode_entries(b) is Some,
    ensures
        entries_bytes(decode_entries(b).unwrap()) == b,
        entries_shape(decode_entries(b).unwrap()),
    decreases b.len(),
{
    if b.len() > 0 {
        let rest = b.subrange(20, b.len() as int);
        let p = first_nl(rest) as int;
        let after = rest.subrange(p + 1, rest.len() as int);
        lemma_entries_decoded(after);
        let es = decode_entries(b).unwrap();
        let e = TreeEntryView { hash: b.subrange(0, 20), name: rest.subrange(0, p) };
        assert(es =~= seq![e] + decode_entries(after).unwrap());
        assert(es.drop_first() =~= decode_entries(after).unwrap());
        lemma_entries_bytes_front(es);
        lemma_first_nl_prefix(rest);
        assert(rest[p] == 10);
        assert(b =~= e.hash + e.name + seq![10u8] + after);
        assert forall|i: int| 0 <= i < es.len() implies key_wf((#[trigger] es[i]).hash) && forall|
            j: int,
        | 0 <= j < es[i].name.len() ==> es[i].name[j] != 10 by {
            if i > 0 {
                assert(es[i] == decode_entries(after).unwrap()[i - 1]);
            }
        }
    }
}

proof fn lemma_first_nl_prefix(s: Seq<u8>)
    ensures
        first_nl(s) <= s.len(),
        forall|j: int| 0 <= j < first_nl(s) ==> s[j] != TREE_ENTRY_SEPARATOR,
        first_nl(s) < s.len() ==> s[first_nl(s) as int] == TREE_ENTRY_SEPARATOR,
    decreases s.len(),
{
    if s.len() > 0 && s[0] != TREE_ENTRY_SEPARATOR {
        lemma_first_nl_prefix(s.drop_first());
        assert forall|j: int| 0 <= j < first_nl(s) implies s[j] != TREE_ENTRY_SEPARATOR by {
            if j > 0 {
                assert(s[j] == s.drop_first()[j - 1]);
            }
        }
    }
}

/// Is `n` a name that a tree can hold?
pub fn is_valid_name(n: &[u8]) -> (r: bool)
    ensures
        r == valid_name(n@),
{
    if n.len() == 0 {
        return false;
    }
    if n.len() == 1 && n[0] == 46 {
        assert(n@ =~= seq![46u8]);
        return false;
    }
    if n.len() == 2 && n[0] == 46 && n[1] == 46 {
        assert(n@ =~= seq![46u8, 46u8]);
        return false;
    }
    assert(n@ != seq![46u8]) by {
        if n@.len() == 1 {
            assert(n@[0] != 46);
        }
    }
    assert(n@ != seq![46u8, 46u8]) by {
        if n@.len() == 2 {
            assert(n@[0] != 46 || n@[1] != 46);
        }
    }
    let mut i: usize = 0;
    while i < n.len()
        invariant
            i <= n@.len(),
            forall|j: int| 0 <= j < i ==> (#[trigger] n@[j]) != 0 && n@[j] != 10 && n@[j] != 47,
        decreases n@.len() - i,
    {
        if n[i] == 0 || n[i] == 10 || n[i] == 47 {
            return false;
        }
        i = i + 1;
    }
    true
}

/// Parses tree content.
pub fn parse_tree(b: &[u8]) -> (r: Result<Tree, Error>)
    ensures
        r matches Ok(t) ==> decode_entries(b@) == Some(t.entries@.map_values(|e: TreeEntry| e@))
            && tree_wf(t.entries@.map_values(|e: TreeEntry| e@)),
        r is Err ==> !(decode_entries(b@) matches Some(es) && tree_wf(es)),
{
    let mut entries: Vec<TreeEntry> = Vec::new();
    let mut pos: usize = 0;
    let blen = b.len();
    proof {
        assert(b@.subrange(0, blen as int) =~= b@);
        assert(entries@.map_values(|e: TreeEntry| e@) =~= Seq::<TreeEntryView>::empty());
        if let Some(x) = decode_entries(b@) {
            assert(Seq::<TreeEntryView>::empty() + x =~= x);
        }
    }
    while pos < blen
        invariant
            pos <= blen,
            blen == b@.len(),
            decode_entries(b@) == prepend(
                entries@.map_values(|e: TreeEntry| e@),
                decode_entries(b@.subrange(pos as int, blen as int)),
            ),
            tree_wf(entries@.map_values(|e: TreeEntry| e@)),
        decreases blen - pos,
    {
        let ghost ev = entries@.map_values(|e: TreeEntry| e@);
        let ghost s = b@.subrange(pos as int, blen as int);
        if blen - pos < KEY_SIZE_BYTES {
            return Err(Error::CorruptObject(Corruption::BadTree));
        }
        let ghost rest = s.subrange(20, s.len() as int);
        let mut i: usize = pos + KEY_SIZE_BYTES;
        while i < blen && b[i] != TREE_ENTRY_SEPARATOR
            invariant
                pos + 20 <= i <= blen,
                blen == b@.len(),
                rest == b@.subrange(pos + 20, blen as int),
                forall|j: int| pos + 20 <= j < i ==> b@[j] != TREE_ENTRY_SEPARATOR,
            decreases blen - i,
        {
            i = i + 1;
        }
        proof {
            assert forall|j: int| 0 <= j < i - pos - 20 implies rest[j] != TREE_ENTRY_SEPARATOR by {
                assert(rest[j] == b@[pos + 20 + j]);
            }
            if i < blen {
                assert(rest[i - pos - 20] == b@[i as int]);
            }
            lemma_first_nl(rest, i - pos - 20);
        }
        if i == blen {
            return Err(Error::CorruptObject(Corruption::BadTree));
        }
        let name = copy_range(b, pos + KEY_SIZE_BYTES, i);
        let hash = ObjectKey { bytes: copy_range(b, pos, pos + KEY_SIZE_BYTES) };
        let entry = TreeEntry { name, hash };
        proof {
            assert(rest.subrange(i - pos - 20 + 1, rest.len() as int) =~= b@.subrange(
                i + 1,
                blen as int,
            ));
            assert(rest.subrange(0, i - pos - 20) =~= entry.name@);
            assert(s.subrange(0, 20) =~= entry.hash@);
            assert(decode_entries(s) == prepend(
                seq![entry@],
                decode_entries(b@.subrange(i + 1, blen as int)),
            ));
        }
        let ok_name = is_valid_name(entry.name.as_slice());
        let in_order = entries.len() == 0 || bytes_less(
            entries[entries.len() - 1].name.as_slice(),
            entry.name.as_slice(),
        );
        if !ok_name || !in_order {
            proof {
                if let Some(es) = decode_entries(b@) {
                    let after = decode_entries(b@.subrange(i + 1, blen as int)).unwrap();
                    assert(es =~= ev + (seq![entry@] + after));
                    assert(es[ev.len() as int] == entry@);
                    if !in_order {
                        assert(es[ev.len() - 1] == ev[ev.len() - 1]);
                    }
                }
            }
            return Err(Error::CorruptObject(Corruption::BadTree));
        }
        entries.push(entry);
        proof {
            let nv = entries@.map_values(|e: TreeEntry| e@);
            assert(nv =~= ev.push(entry@));
            assert forall|x: int, y: int| 0 <= x < y < nv.len() implies bytes_lt(
                #[trigger] nv[x].name,
                #[trigger] nv[y].name,
            ) by {
                if y == nv.len() - 1 && x < y - 1 {
                    lemma_bytes_lt_transitive(nv[x].name, nv[y - 1].name, nv[y].name);
                }
            }
            match decode_entries(b@.subrange(i + 1, blen as int)) {
                Some(x) => {
                    assert(ev + (seq![entry@] + x) =~= nv + x);
                },
                None => {},
            }
        }
        pos = i + 1;
    }
    proof {
        assert(b@.subrange(blen as int, blen as int) =~= Seq::<u8>::empty());
        assert(entries@.map_values(|e: TreeEntry| e@) + Seq::<TreeEntryView>::empty()
            =~= entries@.map_values(|e: TreeEntry| e@));
    }
    Ok(Tree { entries })
}

/// The parent keys and the message after the tree line of a commit.
pub open spec fn decode_parents(s: Seq<u8>) -> Option<(Seq<Seq<u8>>, Seq<u8>)>
    decreases s.len(),
{
    if s.len() == 0 {
        None
    } else if s[0] == 10 {
        Some((Seq::empty(), s.drop_first()))
    } else if s.len() < 48 || s.subrange(0, 7) != parent_tag() || !is_key_hex(s.subrange(7, 47))
        || s[47] != 10 {
        None
    } else {
        match decode_parents(s.subrange(48, s.len() as int)) {
            Some(pm) => Some((seq![bytes_of_hex(s.subrange(7, 47))] + pm.0, pm.1)),
            None => None,
        }
    }
}

/// The commit that content bytes describe, if any.
pub open spec fn decode_commit(b: Seq<u8>) -> Option<ObjectView> {
    if b.len() < 46 || b.subrange(0, 5) != tree_tag() || !is_key_hex(b.subrange(5, 45)) || b[45]
        != 10 {
        None
    } else {
        match decode_parents(b.subrange(46, b.len() as int)) {
            Some(pm) => Some(
                ObjectView::Commit {
                    tree: bytes_of_hex(b.subrange(5, 45)),
                    parents: pm.0,
                    message: pm.1,
                },
            ),
            None => None,
        }
    }
}

proof fn lemma_key_hex(k: Seq<u8>)
    requires
        key_wf(k),
    ensures
        is_key_hex(hex_of(k)),
        bytes_of_hex(hex_of(k)) == k,
{
    lemma_hex_round_trip(k);
}

proof fn lemma_parent_lines_front(ps: Seq<Seq<u8>>)
    requires
        ps.len() > 0,
    ensures
        parent_lines(ps) == parent_tag() + hex_of(ps[0]) + seq![10u8] + parent_lines(ps.drop_first()),
    decreases ps.len(),
{
    if ps.len() == 1 {
        assert(parent_lines(ps.drop_last()) =~= Seq::<u8>::empty());
        assert(ps.drop_first() =~= Seq::<Seq<u8>>::empty());
        assert(parent_lines(ps.drop_first()) =~= Seq::<u8>::empty());
        assert(parent_lines(ps) =~= parent_tag() + hex_of(ps[0]) + seq![10u8] + parent_lines(
            ps.drop_first(),
        ));
    } else {
        lemma_parent_lines_front(ps.drop_last());
        assert(ps.drop_last().drop_first() =~= ps.drop_first().drop_last());
        assert(ps.drop_last()[0] == ps[0]);
        assert(ps.drop_first().last() == ps.last());
        assert(parent_lines(ps) =~= parent_tag() + hex_of(ps[0]) + seq![10u8] + parent_lines(
            ps.drop_first(),
        ));
    }
}

proof fn lemma_parents_round_trip(ps: Seq<Seq<u8>>, msg: Seq<u8>)
    requires
        forall|i: int| 0 <= i < ps.len() ==> key_wf(#[trigger] ps[i]),
    ensures
        decode_parents(parent_lines(ps) + seq![10u8] + msg) == Some((ps, msg)),
    decreases ps.len(),
{
    let s = parent_lines(ps) + seq![10u8] + msg;
    if ps.len() == 0 {
        assert(s =~= seq![10u8] + msg);
        assert(s.drop_first() =~= msg);
    } else {
        lemma_parent_lines_front(ps);
        let tail = ps.drop_first();
        assert forall|i: int| 0 <= i < tail.len() implies key_wf(#[trigger] tail[i]) by {
            assert(tail[i] == ps[i + 1]);
        }
        lemma_parents_round_trip(tail, msg);
        lemma_key_hex(ps[0]);
        let h = hex_of(ps[0]);
        let rest = parent_lines(tail) + seq![10u8] + msg;
        assert(s =~= parent_tag() + h + seq![10u8] + rest);
        assert(s.subrange(0, 7) =~= parent_tag());
        assert(s.subrange(7, 47) =~= h);
        assert(s.subrange(48, s.len() as int) =~= rest);
        assert(seq![ps[0]] + tail =~= ps);
    }
}

proof fn lemma_parents_decoded(s: Seq<u8>)
    requires
        decode_parents(s) is Some,
    ensures
        ({
            let (ps, m) = decode_parents(s).unwrap();
            &&& parent_lines(ps) + seq![10u8] + m == s
            &&& forall|i: int| 0 <= i < ps.len() ==> key_wf(#[trigger] ps[i])
        }),
    decreases s.len(),
{
    let (ps, m) = decode_parents(s).unwrap();
    if s[0] == 10 {
        assert(parent_lines(ps) =~= Seq::<u8>::empty());
        assert(parent_lines(ps) + seq![10u8] + m =~= s);
    } else {
        let after = s.subrange(48, s.len() as int);
        lemma_parents_decoded(after);
        let (tps, tm) = decode_parents(after).unwrap();
        let hx = s.subrange(7, 47);
        lemma_hex_text_round_trip(hx);
        assert(ps =~= seq![bytes_of_hex(hx)] + tps);
        assert(ps.drop_first() =~= tps);
        lemma_parent_lines_front(ps);
        assert(s =~= s.subrange(0, 7) + hx + seq![10u8] + after);
        assert(parent_lines(ps) + seq![10u8] + m =~= s);
        assert forall|i: int| 0 <= i < ps.len() implies key_wf(#[trigger] ps[i]) by {
            if i > 0 {
                assert(ps[i] == tps[i - 1]);
            }
        }
    }
}

/// A commit decodes from its encoding.
pub proof fn lemma_commit_round_trip(tree: Seq<u8>, parents: Seq<Seq<u8>>, message: Seq<u8>)
    requires
        key_wf(tree),
        forall|i: int| 0 <= i < parents.len() ==> key_wf(#[trigger] parents[i]),
    ensures
        decode_commit(content_bytes(ObjectView::Commit { tree, parents, message })) == Some(
            ObjectView::Commit { tree, parents, message },
        ),
{
    let b = content_bytes(ObjectView::Commit { tree, parents, message });
    lemma_key_hex(tree);
    lemma_parents_round_trip(parents, message);
    let rest = parent_lines(parents) + seq![10u8] + message;
    assert(b =~= tree_tag() + hex_of(tree) + seq![10u8] + rest);
    assert(b.subrange(0, 5) =~= tree_tag());
    assert(b.subrange(5, 45) =~= hex_of(tree));
    assert(b.subrange(46, b.len() as int) =~= rest);
}

/// Content that decodes as a commit is that commit's encoding.
pub proof fn lemma_commit_decoded(b: Seq<u8>)
    requires
        decode_commit(b) is Some,
    ensures
        content_bytes(decode_commit(b).unwrap()) == b,
        object_wf_parts(decode_commit(b).unwrap()),
{
    let rest = b.subrange(46, b.len() as int);
    lemma_parents_decoded(rest);
    lemma_hex_text_round_trip(b.subrange(5, 45));
    assert(b =~= b.subrange(0, 5) + b.subrange(5, 45) + seq![10u8] + rest);
}

fn matches_at(b: &[u8], pos: usize, tag: &[u8]) -> (r: bool)
    requires
        pos + tag@.len() <= b@.len(),
    ensures
        r == (b@.subrange(pos as int, pos + tag@.len()) == tag@),
{
    let blen = b.len();
    let mut i: usize = 0;
    while i < tag.len()
        invariant
            blen == b@.len(),
            i <= tag@.len(),
            pos + tag@.len() <= b@.len(),
            forall|j: int| 0 <= j < i ==> b@[pos + j] == tag@[j],
        decreases tag@.len() - i,
    {
        if b[pos + i] != tag[i] {
            assert(b@.subrange(pos as int, pos + tag@.len())[i as int] != tag@[i as int]);
            return false;
        }
        i = i + 1;
    }
    assert(b@.subrange(pos as int, pos + tag@.len()) =~= tag@);
    true
}

fn read_key_hex(b: &[u8], pos: usize) -> (r: Option<ObjectKey>)
    requires
        pos + 40 <= b@.len(),
    ensures
        r is Some <==> is_key_hex(b@.subrange(pos as int, pos + 40)),
        r matches Some(k) ==> k@ == bytes_of_hex(b@.subrange(pos as int, pos + 40)) && key_wf(k@),
{
    let blen = b.len();
    let text = copy_range(b, pos, pos + 40);
    ObjectKey::from_hex(text.as_slice())
}

/// `Some((pre + x, m))` where `o` is `Some((x, m))`.
pub open spec fn prepend_parents(pre: Seq<Seq<u8>>, o: Option<(Seq<Seq<u8>>, Seq<u8>)>) -> Option<
    (Seq<Seq<u8>>, Seq<u8>),
> {
    match o {
        Some(pm) => Some((pre + pm.0, pm.1)),
        None => None,
    }
}

/// Parses commit content.
pub fn parse_commit(b: &[u8]) -> (r: Result<Commit, Error>)
    ensures
        r matches Ok(c) ==> decode_commit(b@) == Some(
            ObjectView::Commit {
                tree: c.tree@,
                parents: c.parents@.map_values(|k: ObjectKey| k@),
                message: c.message@,
            },
        ),
        r is Err ==> decode_commit(b@) is None,
{
    let blen = b.len();
    let tree_text: [u8; 5] = [116, 114, 101, 101, 32];
    let parent_text: [u8; 7] = [112, 97, 114, 101, 110, 116, 32];
    assert(tree_text@ =~= tree_tag());
    assert(parent_text@ =~= parent_tag());
    if blen < 46 || !matches_at(b, 0, tree_text.as_slice()) || b[45] != 10 {
        return Err(Error::CorruptObject(Corruption::BadCommit));
    }
    let tree = match read_key_hex(b, 5) {
        Some(k) => k,
        None => return Err(Error::CorruptObject(Corruption::BadCommit)),
    };
    let ghost tail = b@.subrange(46, blen as int);
    let mut parents: Vec<ObjectKey> = Vec::new();
    let mut pos: usize = 46;
    proof {
        assert(b@.subrange(46, blen as int) == tail);
        if let Some(pm) = decode_parents(tail) {
            assert(Seq::<Seq<u8>>::empty() + pm.0 =~= pm.0);
        }
        assert(parents@.map_values(|k: ObjectKey| k@) =~= Seq::<Seq<u8>>::empty());
    }
    loop
        invariant
            46 <= pos <= blen,
            blen == b@.len(),
            tail == b@.subrange(46, blen as int),
            tree@ == bytes_of_hex(b@.subrange(5, 45)),
            is_key_hex(b@.subrange(5, 45)),
            b@.subrange(0, 5) == tree_tag(),
            b@[45] == 10,
            parent_text@ == parent_tag(),
            decode_parents(tail) == prepend_parents(
                parents@.map_values(|k: ObjectKey| k@),
                decode_parents(b@.subrange(pos as int, blen as int)),
            ),
        decreases blen - pos,
    {
        let ghost pv = parents@.map_values(|k: ObjectKey| k@);
        let ghost s = b@.subrange(pos as int, blen as int);
        if pos == blen {
            return Err(Error::CorruptObject(Corruption::BadCommit));
        }
        assert(s[0] == b@[pos as int]);
        if b[pos] == 10 {
            let message = copy_range(b, pos + 1, blen);
            proof {
                assert(s.drop_first() =~= message@);
                assert(pv + Seq::<Seq<u8>>::empty() =~= pv);
            }
            return Ok(Commit { tree, parents, message });
        }
        if blen - pos < 48 || !matches_at(b, pos, parent_text.as_slice()) || b[pos + 47] != 10 {
            proof {
                if blen - pos >= 48 {
                    assert(s.subrange(0, 7) =~= b@.subrange(pos as int, pos + 7));
                    assert(s[47] == b@[pos + 47]);
                }
            }
            return Err(Error::CorruptObject(Corruption::BadCommit));
        }
        proof {
            assert(s.subrange(0, 7) =~= b@.subrange(pos as int, pos + 7));
            assert(s[47] == b@[pos + 47]);
            assert(s.subrange(7, 47) =~= b@.subrange(pos + 7, pos + 47));
            assert(s.subrange(48, s.len() as int) =~= b@.subrange(pos + 48, blen as int));
        }
        let key = match read_key_hex(b, pos + 7) {
            Some(k) => k,
            None => return Err(Error::CorruptObject(Corruption::BadCommit)),
        };
        parents.push(key);
        proof {
            let nv = parents@.map_values(|k: ObjectKey| k@);
            assert(nv =~= pv + seq![key@]);
            if let Some(pm) = decode_parents(b@.subrange(pos + 48, blen as int)) {
                assert(pv + (seq![key@] + pm.0) =~= nv + pm.0);
            }
        }
        pos = pos + 48;
    }
}

/// The object that content bytes of the given type describe, if any.
pub open spec fn decode_content(t: ObjectType, b: Seq<u8>) -> Option<ObjectView> {
    match t {
        ObjectType::Blob => Some(ObjectView::Blob { content: b }),
        ObjectType::ChunkedBlob => decode_chunked(b),
        ObjectType::Tree => match decode_entries(b) {
            Some(es) => if tree_wf(es) {
                Some(ObjectView::Tree { entries: es })
            } else {
                None
            },
            None => None,
        },
        ObjectType::Commit => decode_commit(b),
    }
}

/// The object that stored bytes hold, if they hold a valid one.
pub open spec fn decode_object(b: Seq<u8>) -> Option<ObjectView> {
    if b.len() > HASHABLE_LIMIT {
        None
    } else {
        match decode_header(b) {
            Some(h) => if h.content_size == b.len() - HEADER_SIZE {
                decode_content(h.object_type, b.subrange(9, b.len() as int))
            } else {
                None
            },
            None => None,
        }
    }
}

proof fn lemma_content_round_trip(o: ObjectView)
    requires
        object_wf_parts(o),
    ensures
        decode_content(type_of(o), content_bytes(o)) == Some(o),
{
    match o {
        ObjectView::Blob { .. } => {},
        ObjectView::ChunkedBlob { total_size, chunks } => {
            lemma_chunked_round_trip(total_size, chunks);
        },
        ObjectView::Tree { entries } => {
            assert(entries_shape(entries)) by {
                assert forall|i: int| 0 <= i < entries.len() implies key_wf(
                    (#[trigger] entries[i]).hash,
                ) && forall|j: int|
                    0 <= j < entries[i].name.len() ==> entries[i].name[j] != 10 by {
                    assert(valid_name(entries[i].name));
                }
            }
            lemma_entries_round_trip(entries);
        },
        ObjectView::Commit { tree, parents, message } => {
            lemma_commit_round_trip(tree, parents, message);
        },
    }
}

proof fn lemma_content_decoded(t: ObjectType, b: Seq<u8>)
    requires
        decode_content(t, b) is Some,
    ensures
        content_bytes(decode_content(t, b).unwrap()) == b,
        type_of(decode_content(t, b).unwrap()) == t,
        object_wf_parts(decode_content(t, b).unwrap()),
{
    match t {
        ObjectType::Blob => {},
        ObjectType::ChunkedBlob => {
            lemma_chunked_decoded(b);
        },
        ObjectType::Tree => {
            lemma_entries_decoded(b);
        },
        ObjectType::Commit => {
            lemma_commit_decoded(b);
        },
    }
}

/// Reading what was written gives back the object: every valid object
/// decodes from its stored bytes.
pub proof fn lemma_object_round_trip(o: ObjectView)
    requires
        object_wf(o),
    ensures
        decode_object(object_bytes(o)) == Some(o),
{
    let c = content_bytes(o);
    let b = object_bytes(o);
    lemma_header_round_trip(header_of(o), c);
    assert(object_wf_parts(o));
    lemma_content_round_trip(o);
    assert(b.subrange(9, b.len() as int) =~= c);
}

/// Bytes that decode to an object are exactly that object's stored bytes, and
/// the object is valid.
pub proof fn lemma_object_decoded(b: Seq<u8>)
    requires
        decode_object(b) is Some,
    ensures
        object_wf(decode_object(b).unwrap()),
        object_bytes(decode_object(b).unwrap()) == b,
{
    let h = decode_header(b).unwrap();
    let c = b.subrange(9, b.len() as int);
    lemma_content_decoded(h.object_type, c);
    lemma_header_decoded(b);
    let o = decode_object(b).unwrap();
    assert(header_of(o) == h);
    assert(b =~= b.subrange(0, 9) + c);
}

/// A tree's serialized entries read back in strictly ascending name order.
pub proof fn lemma_tree_serialized_order(es: Seq<TreeEntryView>)
    requires
        tree_wf(es),
    ensures
        decode_entries(entries_bytes(es)) == Some(es),
        forall|i: int, j: int|
            0 <= i < j < es.len() ==> bytes_lt(
                #[trigger] decode_entries(entries_bytes(es)).unwrap()[i].name,
                #[trigger] decode_entries(entries_bytes(es)).unwrap()[j].name,
            ),
{
    lemma_content_round_trip(ObjectView::Tree { entries: es });
}

/// Stored objects are told apart by their bytes: two valid objects with the
/// same stored bytes are the same object.
pub proof fn lemma_object_bytes_injective(a: ObjectView, b: ObjectView)
    requires
        object_wf(a),
        object_wf(b),
        object_bytes(a) == object_bytes(b),
    ensures
        a == b,
{
    lemma_object_round_trip(a);
    lemma_object_round_trip(b);
}

fn parse_content(t: ObjectType, b: &[u8]) -> (r: Result<Object, Error>)
    ensures
        r matches Ok(o) ==> decode_content(t, b@) == Some(o@),
        r is Err ==> decode_content(t, b@) is None,
{
    match t {
        ObjectType::Blob => {
            let content = copy_range(b, 0, b.len());
            assert(content@ =~= b@);
            Ok(Object::Blob(Blob { content }))
        },
        ObjectType::ChunkedBlob => match parse_chunked(b) {
            Ok(c) => Ok(Object::ChunkedBlob(c)),
            Err(e) => Err(e),
        },
        ObjectType::Tree => match parse_tree(b) {
            Ok(t) => Ok(Object::Tree(t)),
            Err(e) => Err(e),
        },
        ObjectType::Commit => match parse_commit(b) {
            Ok(c) => Ok(Object::Commit(c)),
            Err(e) => Err(e),
        },
    }
}

/// Reads an object from its stored bytes.
pub fn read_object(b: &[u8]) -> (r: Result<Object, Error>)
    ensures
        r matches Ok(o) ==> decode_object(b@) == Some(o@),
        r is Err ==> decode_object(b@) is None,
{
    let blen = b.len();
    if blen as u64 > HASHABLE_LIMIT {
        return Err(Error::CorruptObject(Corruption::SizeMismatch));
    }
    let header = ObjectHeader::read_from(b)?;
    if header.content_size != (blen - HEADER_SIZE) as u64 {
        return Err(Error::CorruptObject(Corruption::SizeMismatch));
    }
    let content = copy_range(b, HEADER_SIZE, blen);
    parse_content(header.object_type, content.as_slice())
}

/// An object whose header has been read and whose content is still unread.
pub struct RawHandle {
    pub header: ObjectHeader,
    pub content: Vec<u8>,
}

/// A handle of the kind that its header names.
pub enum ObjectHandle {
    Blob(RawHandle),
    ChunkedBlob(RawHandle),
    Tree(RawHandle),
    Commit(RawHandle),
}

impl RawHandle {
    /// The stored bytes this handle was read from.
    pub open spec fn bytes(&self) -> Seq<u8> {
        header_bytes(self.header) + self.content@
    }

    /// Reads the content as an object of the header's type.
    pub fn parse(self) -> (r: Result<Object, Error>)
        ensures
            r matches Ok(o) ==> decode_object(self.bytes()) == Some(o@),
            r is Err ==> decode_object(self.bytes()) is None,
    {
        let ghost whole = self.bytes();
        proof {
            lemma_be_lengths(self.header.content_size, 0);
            lemma_header_round_trip(self.header, self.content@);
            assert(whole.subrange(9, whole.len() as int) =~= self.content@);
        }
        let clen = self.content.len();
        if clen as u64 > HASHABLE_LIMIT - 9 || self.header.content_size != clen as u64 {
            return Err(Error::CorruptObject(Corruption::SizeMismatch));
        }
        parse_content(self.header.object_type, self.content.as_slice())
    }
}

impl ObjectHandle {
    /// The raw handle inside, whatever the kind.
    pub open spec fn raw(&self) -> RawHandle {
        match self {
            ObjectHandle::Blob(r) => *r,
            ObjectHandle::ChunkedBlob(r) => *r,
            ObjectHandle::Tree(r) => *r,
            ObjectHandle::Commit(r) => *r,
        }
    }

    /// The kind of handle matches the type in its header.
    pub open spec fn kind_matches(&self) -> bool {
        match self {
            ObjectHandle::Blob(r) => r.header.object_type == ObjectType::Blob,
            ObjectHandle::ChunkedBlob(r) => r.header.object_type == ObjectType::ChunkedBlob,
            ObjectHandle::Tree(r) => r.header.object_type == ObjectType::Tree,
            ObjectHandle::Commit(r) => r.header.object_type == ObjectType::Commit,
        }
    }

    /// Reads the header of stored bytes and keeps the rest for later.
    pub fn read_header(file: Vec<u8>) -> (r: Result<ObjectHandle, Error>)
        ensures
            r matches Ok(h) ==> decode_header(file@) == Some(h.raw().header) && h.kind_matches()
                && h.raw().bytes() == file@,
            r is Err ==> decode_header(file@) is None,
    {
        let header = ObjectHeader::read_from(file.as_slice())?;
        let content = copy_range(file.as_slice(), HEADER_SIZE, file.len());
        proof {
            lemma_header_decoded(file@);
            assert(file@ =~= file@.subrange(0, 9) + content@);
        }
        let raw = RawHandle { header, content };
        let handle = match header.object_type {
            ObjectType::Blob => ObjectHandle::Blob(raw),
            ObjectType::ChunkedBlob => ObjectHandle::ChunkedBlob(raw),
            ObjectType::Tree => ObjectHandle::Tree(raw),
            ObjectType::Commit => ObjectHandle::Commit(raw),
        };
        Ok(handle)
    }

    /// The header that was read.
    pub fn header(&self) -> (r: &ObjectHeader)
        ensures
            *r == self.raw().header,
    {
        match self {
            ObjectHandle::Blob(raw) => &raw.header,
            ObjectHandle::ChunkedBlob(raw) => &raw.header,
            ObjectHandle::Tree(raw) => &raw.header,
            ObjectHandle::Commit(raw) => &raw.header,
        }
    }

    /// Reads the rest of the bytes as an object.
    pub fn parse(self) -> (r: Result<Object, Error>)
        ensures
            r matches Ok(o) ==> decode_object(self.raw().bytes()) == Some(o@),
            r is Err ==> decode_object(self.raw().bytes()) is None,
    {
        match self {
            ObjectHandle::Blob(raw) => raw.parse(),
            ObjectHandle::ChunkedBlob(raw) => raw.parse(),
            ObjectHandle::Tree(raw) => raw.parse(),
            ObjectHandle::Commit(raw) => raw.parse(),
        }
    }
}

} // verus!
