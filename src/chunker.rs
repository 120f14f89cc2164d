//! Content-defined chunking: a gear rolling hash picks chunk boundaries, so
//! that an edit reshapes only the chunks near it.

use vstd::prelude::*;
use crate::dag::{
    chunked_wf, content_bytes, copy_range, key_wf, object_key, object_wf, records_bytes, sizes_sum,
    Blob, ChunkRecord, ChunkRecordView, ChunkedBlob, Object, ObjectView,
};
use crate::codec::{lemma_be_lengths};

verus! {

/// No boundary is placed before a chunk holds this many bytes.
pub const MIN_CHUNK: usize = 65536;

/// A boundary is always placed once a chunk holds this many bytes.
pub const MAX_CHUNK: usize = 4194304;

/// The expected chunk size that the boundary mask aims at.
pub const CHUNK_TARGET_SIZE: usize = 524288;

/// The hash bits that decide a boundary: the top nineteen, which depend on
/// the last 64 bytes.
pub const BOUNDARY_MASK: u64 = 0xffff_e000_0000_0000;

/// A boundary falls where the masked hash bits equal this value.
pub const BOUNDARY_MAGIC: u64 = 0;

/// The pseudo-random value that a byte adds to the rolling hash.
#[verifier::opaque]
pub open spec fn gear(b: u8) -> u64 {
    let z0 = ((b + 1) as u64).wrapping_mul(0x9e37_79b9_7f4a_7c15);
    let z1 = (z0 ^ (z0 >> 30u64)).wrapping_mul(0xbf58_476d_1ce4_e5b9);
    let z2 = (z1 ^ (z1 >> 27u64)).wrapping_mul(0x94d0_49bb_1331_11eb);
    z2 ^ (z2 >> 31u64)
}

/// One step of the rolling hash: older bytes shift out after 64 steps.
pub open spec fn roll(h: u64, b: u8) -> u64 {
    (h << 1u64) ^ gear(b)
}

/// The rolling hash after the given bytes, from zero.
pub open spec fn rolling_hash(s: Seq<u8>) -> u64
    decreases s.len(),
{
    if s.len() == 0 {
        0
    } else {
        roll(rolling_hash(s.drop_last()), s.last())
    }
}

/// Does a chunk that has grown to `c` end here?
pub open spec fn is_boundary(c: Seq<u8>) -> bool {
    c.len() >= MAX_CHUNK || (c.len() >= MIN_CHUNK && rolling_hash(c) & BOUNDARY_MASK
        == BOUNDARY_MAGIC)
}

/// The first chunk length from `l` on: the shortest prefix that ends at a
/// boundary, or all of `data`.
pub open spec fn cut_from(data: Seq<u8>, l: nat) -> nat
    decreases data.len() - l,
{
    if l >= data.len() {
        data.len()
    } else if l >= 1 && is_boundary(data.take(l as int)) {
        l
    } else {
        cut_from(data, l + 1)
    }
}

/// The length of the first chunk of `data`.
pub open spec fn first_cut(data: Seq<u8>) -> nat {
    cut_from(data, 1)
}

/// The chunks that `data` splits into.
pub open spec fn chunks(data: Seq<u8>) -> Seq<Seq<u8>>
    decreases data.len(),
{
    if data.len() == 0 {
        Seq::empty()
    } else {
        let c = first_cut(data);
        if c == 0 || c > data.len() {
            seq![data]
        } else {
            seq![data.take(c as int)] + chunks(data.skip(c as int))
        }
    }
}

/// The chunks laid end to end.
pub open spec fn concat(cs: Seq<Seq<u8>>) -> Seq<u8>
    decreases cs.len(),
{
    if cs.len() == 0 {
        Seq::empty()
    } else {
        concat(cs.drop_last()) + cs.last()
    }
}

/// No prefix of `p` ends at a boundary.
pub open spec fn no_cut(p: Seq<u8>) -> bool {
    forall|l: int| 1 <= l <= p.len() ==> !is_boundary(#[trigger] p.take(l))
}

/// `c` ends at a boundary and at no earlier point.
pub open spec fn complete_chunk(c: Seq<u8>) -> bool {
    &&& c.len() >= 1
    &&& is_boundary(c)
    &&& no_cut(c.drop_last())
}

proof fn lemma_cut_from(data: Seq<u8>, l: nat)
    requires
        1 <= l <= data.len(),
    ensures
        l <= cut_from(data, l) <= data.len(),
        cut_from(data, l) < data.len() ==> is_boundary(data.take(cut_from(data, l) as int)),
        forall|m: int| l <= m < cut_from(data, l) ==> !is_boundary(#[trigger] data.take(m)),
    decreases data.len() - l,
{
    if l < data.len() && !is_boundary(data.take(l as int)) {
        lemma_cut_from(data, l + 1);
    }
}

proof fn lemma_cut_at(data: Seq<u8>, l: nat, k: nat)
    requires
        1 <= l <= k <= data.len(),
        forall|m: int| l <= m < k ==> !is_boundary(#[trigger] data.take(m)),
        k == data.len() || is_boundary(data.take(k as int)),
    ensures
        cut_from(data, l) == k,
    decreases k - l,
{
    if l < k {
        lemma_cut_at(data, l + 1, k);
    }
}

/// A complete chunk at the front of the data is the first chunk.
pub proof fn lemma_chunks_complete_front(c: Seq<u8>, rest: Seq<u8>)
    requires
        complete_chunk(c),
    ensures
        chunks(c + rest) == seq![c] + chunks(rest),
{
    let q = c + rest;
    assert forall|m: int| 1 <= m < c.len() implies !is_boundary(#[trigger] q.take(m)) by {
        assert(q.take(m) =~= c.drop_last().take(m));
    }
    assert(q.take(c.len() as int) =~= c);
    lemma_cut_at(q, 1, c.len());
    assert(q.skip(c.len() as int) =~= rest);
}

/// Bytes with no boundary inside form one chunk.
pub proof fn lemma_chunks_no_cut(p: Seq<u8>)
    requires
        no_cut(p),
        p.len() > 0,
    ensures
        chunks(p) == seq![p],
{
    assert forall|m: int| 1 <= m < p.len() implies !is_boundary(#[trigger] p.take(m)) by {
        assert(1 <= m <= p.len());
    }
    lemma_cut_at(p, 1, p.len());
    assert(p.take(p.len() as int) =~= p);
    assert(p.skip(p.len() as int) =~= Seq::<u8>::empty());
    assert(chunks(Seq::<u8>::empty()) =~= Seq::<Seq<u8>>::empty());
}

/// Complete chunks in front of the data come out first, in order.
pub proof fn lemma_chunks_prefix(cs: Seq<Seq<u8>>, x: Seq<u8>)
    requires
        forall|i: int| 0 <= i < cs.len() ==> complete_chunk(#[trigger] cs[i]),
    ensures
        chunks(concat(cs) + x) == cs + chunks(x),
    decreases cs.len(),
{
    if cs.len() == 0 {
        assert(concat(cs) + x =~= x);
        assert(cs + chunks(x) =~= chunks(x));
    } else {
        let init = cs.drop_last();
        let last = cs.last();
        lemma_chunks_complete_front(last, x);
        assert(forall|i: int| 0 <= i < init.len() ==> init[i] == cs[i]);
        lemma_chunks_prefix(init, last + x);
        assert(concat(cs) + x =~= concat(init) + (last + x));
        assert(cs + chunks(x) =~= init + (seq![last] + chunks(x)));
    }
}

proof fn lemma_concat_front(c: Seq<u8>, cs: Seq<Seq<u8>>)
    ensures
        concat(seq![c] + cs) == c + concat(cs),
    decreases cs.len(),
{
    if cs.len() == 0 {
        assert((seq![c] + cs).drop_last() =~= Seq::<Seq<u8>>::empty());
        assert(concat(Seq::<Seq<u8>>::empty()) =~= Seq::<u8>::empty());
        assert((seq![c] + cs).last() == c);
        assert(concat(seq![c] + cs) =~= c + concat(cs));
    } else {
        lemma_concat_front(c, cs.drop_last());
        assert((seq![c] + cs).drop_last() =~= seq![c] + cs.drop_last());
        assert(concat(seq![c] + cs) =~= c + concat(cs));
    }
}

/// Laying the chunks of `data` end to end gives back `data`.
pub proof fn lemma_chunks_reconstruct(data: Seq<u8>)
    ensures
        concat(chunks(data)) == data,
    decreases data.len(),
{
    if data.len() > 0 {
        let c = first_cut(data);
        if c == 0 || c > data.len() {
            assert(seq![data].drop_last() =~= Seq::<Seq<u8>>::empty());
            assert(concat(Seq::<Seq<u8>>::empty()) =~= Seq::<u8>::empty());
            assert(concat(seq![data]) =~= data);
        } else {
            lemma_chunks_reconstruct(data.skip(c as int));
            lemma_concat_front(data.take(c as int), chunks(data.skip(c as int)));
            assert(data.take(c as int) + data.skip(c as int) =~= data);
        }
    } else {
        assert(concat(chunks(data)) =~= data);
    }
}

/// Every chunk holds between `MIN_CHUNK` and `MAX_CHUNK` bytes, except the
/// last, which holds between one and `MAX_CHUNK` bytes.
pub proof fn lemma_chunk_sizes(data: Seq<u8>)
    ensures
        forall|i: int|
            0 <= i < chunks(data).len() ==> 1 <= (#[trigger] chunks(data)[i]).len() <= MAX_CHUNK,
        forall|i: int|
            0 <= i < chunks(data).len() - 1 ==> MIN_CHUNK <= (#[trigger] chunks(data)[i]).len(),
    decreases data.len(),
{
    if data.len() > 0 {
        lemma_cut_from(data, 1);
        let c = first_cut(data);
        if c > MAX_CHUNK {
            assert(data.take(MAX_CHUNK as int).len() == MAX_CHUNK);
            assert(is_boundary(data.take(MAX_CHUNK as int)));
        }
        let rest = data.skip(c as int);
        lemma_chunk_sizes(rest);
        let cs = chunks(data);
        assert(cs == seq![data.take(c as int)] + chunks(rest));
        assert forall|i: int| 0 <= i < cs.len() implies 1 <= (#[trigger] cs[i]).len()
            <= MAX_CHUNK by {
            if i > 0 {
                assert(cs[i] == chunks(rest)[i - 1]);
            }
        }
        assert forall|i: int| 0 <= i < cs.len() - 1 implies MIN_CHUNK <= (#[trigger] cs[i]).len() by {
            if i > 0 {
                assert(cs[i] == chunks(rest)[i - 1]);
            } else {
                if c == data.len() {
                    assert(rest.len() == 0);
                    assert(chunks(rest) =~= Seq::<Seq<u8>>::empty());
                }
            }
        }
    }
}

proof fn lemma_rolling_split(a: Seq<u8>, b: Seq<u8>)
    requires
        b.len() <= 64,
    ensures
        rolling_hash(a + b) == (rolling_hash(a) << (b.len() as u64)) ^ rolling_hash(b),
    decreases b.len(),
{
    if b.len() == 0 {
        assert(a + b =~= a);
        let x = rolling_hash(a);
        assert((x << 0u64) ^ 0u64 == x) by (bit_vector);
    } else {
        let init = b.drop_last();
        lemma_rolling_split(a, init);
        assert((a + b).drop_last() =~= a + init);
        assert((a + b).last() == b.last());
        let x = rolling_hash(a);
        let y = rolling_hash(init);
        let g = gear(b.last());
        let k = init.len() as u64;
        let k1 = b.len() as u64;
        assert((((x << k) ^ y) << 1u64) ^ g == (x << k1) ^ ((y << 1u64) ^ g)) by (bit_vector)
            requires
                k < 64,
                k1 == k + 1,
        ;
    }
}

/// The rolling hash sees a window of the last 64 bytes: once that many
/// bytes have been rolled in, earlier bytes no longer count.
pub proof fn lemma_rolling_window(a: Seq<u8>, b: Seq<u8>)
    requires
        b.len() == 64,
    ensures
        rolling_hash(a + b) == rolling_hash(b),
{
    lemma_rolling_split(a, b);
    let x = rolling_hash(a);
    let y = rolling_hash(b);
    assert((x << 64u64) ^ y == y) by (bit_vector);
}

/// The chunks depend on the bytes alone: equal inputs give equal chunks.
pub proof fn lemma_chunks_deterministic(a: Seq<u8>, b: Seq<u8>)
    requires
        a == b,
    ensures
        chunks(a) == chunks(b),
{
}

/// The value that a byte adds to the rolling hash.
pub fn gear_value(b: u8) -> (r: u64)
    ensures
        r == gear(b),
{
    reveal(gear);
    let z0 = ((b as u64) + 1).wrapping_mul(0x9e37_79b9_7f4a_7c15);
    let z1 = (z0 ^ (z0 >> 30u64)).wrapping_mul(0xbf58_476d_1ce4_e5b9);
    let z2 = (z1 ^ (z1 >> 27u64)).wrapping_mul(0x94d0_49bb_1331_11eb);
    z2 ^ (z2 >> 31u64)
}

/// Splits a byte stream into chunks as the bytes arrive.
pub struct Chunker {
    pending: Vec<u8>,
    hash: u64,
    fed: Ghost<Seq<u8>>,
    emitted: Ghost<Seq<Seq<u8>>>,
}

impl Chunker {
    /// Everything fed so far.
    pub closed spec fn fed(&self) -> Seq<u8> {
        self.fed@
    }

    /// Every chunk handed out so far.
    pub closed spec fn emitted(&self) -> Seq<Seq<u8>> {
        self.emitted@
    }

    /// The bytes fed are the chunks handed out followed by bytes with no
    /// boundary yet.
    pub closed spec fn wf(&self) -> bool {
        &&& self.fed@ == concat(self.emitted@) + self.pending@
        &&& forall|i: int| 0 <= i < self.emitted@.len() ==> complete_chunk(#[trigger] self.emitted@[i])
        &&& no_cut(self.pending@)
        &&& self.hash == rolling_hash(self.pending@)
        &&& self.pending@.len() < MAX_CHUNK
    }

    fn step(&mut self, b: u8) -> (cut: bool)
        requires
            old(self).pending@.len() < MAX_CHUNK,
            old(self).hash == rolling_hash(old(self).pending@),
        ensures
            final(self).pending@ == old(self).pending@.push(b),
            final(self).hash == rolling_hash(final(self).pending@),
            cut == is_boundary(final(self).pending@),
            final(self).fed@ == old(self).fed@,
            final(self).emitted@ == old(self).emitted@,
    {
        let ghost p = self.pending@;
        self.pending.push(b);
        self.hash = (self.hash << 1u64) ^ gear_value(b);
        assert(self.pending@.drop_last() =~= p);
        let len = self.pending.len();
        len >= MAX_CHUNK || (len >= MIN_CHUNK && self.hash & BOUNDARY_MASK == BOUNDARY_MAGIC)
    }

    /// A chunker that has seen nothing.
    pub fn new() -> (r: Chunker)
        ensures
            r.wf(),
            r.fed() == Seq::<u8>::empty(),
            r.emitted() == Seq::<Seq<u8>>::empty(),
    {
        let r = Chunker {
            pending: Vec::new(),
            hash: 0,
            fed: Ghost(Seq::empty()),
            emitted: Ghost(Seq::empty()),
        };
        assert(concat(Seq::<Seq<u8>>::empty()) + Seq::<u8>::empty() =~= Seq::<u8>::empty());
        r
    }

    /// Takes more bytes and hands out the chunks they complete.
    pub fn feed(&mut self, data: &[u8]) -> (r: Vec<Vec<u8>>)
        requires
            old(self).wf(),
        ensures
            final(self).wf(),
            final(self).fed() == old(self).fed() + data@,
            final(self).emitted() == old(self).emitted() + r@.map_values(|c: Vec<u8>| c@),
    {
        let mut out: Vec<Vec<u8>> = Vec::new();
        let ghost start_emitted = self.emitted@;
        let ghost start_fed = self.fed@;
        let mut i: usize = 0;
        while i < data.len()
            invariant
                self.wf(),
                i <= data@.len(),
                self.fed@ == start_fed + data@.subrange(0, i as int),
                self.emitted@ == start_emitted + out@.map_values(|c: Vec<u8>| c@),
            decreases data@.len() - i,
        {
            let b = data[i];
            let ghost p = self.pending@;
            let cut = self.step(b);
            proof {
                self.fed@ = self.fed@.push(b);
                assert(data@.subrange(0, i + 1) =~= data@.subrange(0, i as int).push(b));
            }
            if cut {
                let ghost full = self.pending@;
                let chunk = self.pending.split_off(0);
                assert(chunk@ =~= full);
                self.hash = 0;
                proof {
                    assert(chunk@.drop_last() =~= p);
                    assert(complete_chunk(chunk@));
                    let ghost old_e = self.emitted@;
                    self.emitted@ = self.emitted@.push(chunk@);
                    assert(self.emitted@.drop_last() =~= old_e);
                    assert(concat(self.emitted@) + self.pending@ =~= concat(old_e) + chunk@);
                }
                let ghost before = out@.map_values(|c: Vec<u8>| c@);
                let ghost cv = chunk@;
                out.push(chunk);
                assert(out@.map_values(|c: Vec<u8>| c@) =~= before.push(cv));
                assert(self.emitted@ =~= start_emitted + out@.map_values(|c: Vec<u8>| c@));
                proof {
                    assert(self.pending@ =~= Seq::<u8>::empty());
                    assert(no_cut(self.pending@));
                }
            } else {
                proof {
                    assert(self.fed@ =~= concat(self.emitted@) + self.pending@);
                    assert forall|l: int| 1 <= l <= self.pending@.len() implies !is_boundary(
                        #[trigger] self.pending@.take(l),
                    ) by {
                        if l < self.pending@.len() {
                            assert(self.pending@.take(l) =~= p.take(l));
                        } else {
                            assert(self.pending@.take(l) =~= self.pending@);
                        }
                    }
                }
            }
            i = i + 1;
        }
        assert(data@.subrange(0, data@.len() as int) =~= data@);
        out
    }

    /// Hands out the last chunk, if any bytes remain.
    pub fn finish(self) -> (r: Option<Vec<u8>>)
        requires
            self.wf(),
        ensures
            chunks(self.fed()) == self.emitted() + (match r {
                Some(c) => seq![c@],
                None => Seq::<Seq<u8>>::empty(),
            }),
    {
        proof {
            lemma_chunks_prefix(self.emitted@, self.pending@);
        }
        if self.pending.len() == 0 {
            proof {
                assert(chunks(self.pending@) =~= Seq::<Seq<u8>>::empty());
            }
            None
        } else {
            proof {
                lemma_chunks_no_cut(self.pending@);
            }
            Some(self.pending)
        }
    }
}

/// The chunks of `data`, in order.
pub fn split_chunks(data: &[u8]) -> (r: Vec<Vec<u8>>)
    ensures
        r@.map_values(|c: Vec<u8>| c@) == chunks(data@),
{
    let mut c = Chunker::new();
    let mut out = c.feed(data);
    assert(Seq::<u8>::empty() + data@ =~= data@);
    assert(Seq::<Seq<u8>>::empty() + out@.map_values(|c: Vec<u8>| c@) =~= out@.map_values(
        |c: Vec<u8>| c@,
    ));
    let ghost before = out@.map_values(|c: Vec<u8>| c@);
    match c.finish() {
        Some(last) => {
            out.push(last);
            assert(out@.map_values(|c: Vec<u8>| c@) =~= before.push(last@));
        },
        None => {
            assert(before + Seq::<Seq<u8>>::empty() =~= before);
        },
    }
    out
}

/// The largest file that the chunker is asked to index.
pub const MAX_FILE_SIZE: u64 = 0x100_0000_0000;

/// The record that indexes chunk `i` of `cs`.
pub open spec fn chunk_record_for(cs: Seq<Seq<u8>>, i: int) -> ChunkRecordView {
    ChunkRecordView {
        offset: concat(cs.take(i)).len() as u64,
        size: cs[i].len() as u64,
        hash: object_key(ObjectView::Blob { content: cs[i] }),
    }
}

/// The objects stored for a file: one blob when it is a single chunk (or
/// empty), else a blob per chunk followed by the chunk index.
pub open spec fn file_objects(data: Seq<u8>) -> Seq<ObjectView> {
    let cs = chunks(data);
    if cs.len() <= 1 {
        seq![ObjectView::Blob { content: data }]
    } else {
        Seq::new(cs.len(), |i: int| ObjectView::Blob { content: cs[i] }) + seq![
            ObjectView::ChunkedBlob {
                total_size: data.len() as u64,
                chunks: Seq::new(cs.len(), |i: int| chunk_record_for(cs, i)),
            },
        ]
    }
}

proof fn lemma_concat_take(cs: Seq<Seq<u8>>, i: int)
    requires
        0 <= i < cs.len(),
    ensures
        concat(cs.take(i + 1)) == concat(cs.take(i)) + cs[i],
{
    assert(cs.take(i + 1).drop_last() =~= cs.take(i));
}

proof fn lemma_concat_len_lower(cs: Seq<Seq<u8>>, m: int)
    requires
        0 <= m <= cs.len(),
        forall|i: int| 0 <= i < m ==> MIN_CHUNK <= (#[trigger] cs[i]).len(),
    ensures
        concat(cs.take(m)).len() >= m * MIN_CHUNK,
    decreases m,
{
    if m > 0 {
        lemma_concat_len_lower(cs, m - 1);
        lemma_concat_take(cs, m - 1);
    } else {
        assert(cs.take(0) =~= Seq::<Seq<u8>>::empty());
    }
}

proof fn lemma_concat_len_upper(cs: Seq<Seq<u8>>, m: int)
    requires
        0 <= m <= cs.len(),
    ensures
        concat(cs.take(m)).len() <= concat(cs).len(),
    decreases cs.len() - m,
{
    if m < cs.len() {
        lemma_concat_len_upper(cs, m + 1);
        lemma_concat_take(cs, m);
    } else {
        assert(cs.take(m) =~= cs);
    }
}

/// Splits a file's bytes into the objects to store: the last one's key is
/// the file's key.
pub fn read_file_objects(data: &[u8]) -> (r: Vec<Object>)
    requires
        data@.len() <= MAX_FILE_SIZE,
    ensures
        r@.map_values(|o: Object| o@) == file_objects(data@),
        forall|i: int| 0 <= i < r@.len() ==> object_wf(#[trigger] r@[i]@),
{
    let cs = split_chunks(data);
    let ghost csv = chunks(data@);
    proof {
        lemma_chunk_sizes(data@);
        lemma_chunks_reconstruct(data@);
    }
    assert(cs@.len() == csv.len());
    if cs.len() <= 1 {
        let content = copy_range(data, 0, data.len());
        assert(content@ =~= data@);
        let r = vec![Object::Blob(Blob { content })];
        assert(r@.map_values(|o: Object| o@) =~= file_objects(data@));
        return r;
    }
    let n = cs.len();
    proof {
        lemma_concat_len_lower(csv, n - 1);
        assert((n - 1) * MIN_CHUNK <= MAX_FILE_SIZE) by {
            lemma_concat_len_upper(csv, n - 1);
        }
    }
    let mut objs: Vec<Object> = Vec::new();
    let mut records: Vec<ChunkRecord> = Vec::new();
    let mut offset: u64 = 0;
    let mut i: usize = 0;
    while i < n
        invariant
            n == cs@.len(),
            n == csv.len(),
            n >= 2,
            (n - 1) * MIN_CHUNK <= MAX_FILE_SIZE,
            csv == chunks(data@),
            cs@.map_values(|c: Vec<u8>| c@) == csv,
            concat(csv) == data@,
            data@.len() <= MAX_FILE_SIZE,
            forall|j: int| 0 <= j < csv.len() ==> 1 <= (#[trigger] csv[j]).len() <= MAX_CHUNK,
            i <= n,
            records@.len() == i,
            objs@.len() == i,
            offset == concat(csv.take(i as int)).len(),
            objs@.map_values(|o: Object| o@) == Seq::new(
                i as nat,
                |j: int| ObjectView::Blob { content: csv[j] },
            ),
            records@.map_values(|x: ChunkRecord| x@) == Seq::new(
                i as nat,
                |j: int| chunk_record_for(csv, j),
            ),
            forall|j: int| 0 <= j < i ==> key_wf(#[trigger] records@[j].hash@),
            forall|j: int| 0 <= j < objs@.len() ==> object_wf(#[trigger] objs@[j]@),
        decreases n - i,
    {
        let content = cs[i].clone();
        assert(content@ == csv[i as int]);
        let size = content.len() as u64;
        let blob = Object::Blob(Blob { content });
        let key = blob.calculate_hash();
        proof {
            lemma_concat_take(csv, i as int);
            lemma_concat_len_upper(csv, i + 1);
        }
        let ghost rv = records@.map_values(|x: ChunkRecord| x@);
        let ghost ov = objs@.map_values(|o: Object| o@);
        records.push(ChunkRecord { offset, size, hash: key });
        objs.push(blob);
        assert(records@.map_values(|x: ChunkRecord| x@) =~= Seq::new(
            (i + 1) as nat,
            |j: int| chunk_record_for(csv, j),
        )) by {
            assert(records@.map_values(|x: ChunkRecord| x@) =~= rv.push(
                records@[i as int]@,
            ));
        }
        assert(objs@.map_values(|o: Object| o@) =~= Seq::new(
            (i + 1) as nat,
            |j: int| ObjectView::Blob { content: csv[j] },
        )) by {
            assert(objs@.map_values(|o: Object| o@) =~= ov.push(objs@[i as int]@));
        }
        offset = offset + size;
        i = i + 1;
    }
    let ghost rs = Seq::new(n as nat, |j: int| chunk_record_for(csv, j));
    proof {
        assert(csv.take(n as int) =~= csv);
        assert forall|k: int| 0 <= k <= n implies sizes_sum(#[trigger] rs.take(k)) == concat(
            csv.take(k),
        ).len() by {
            lemma_sizes_prefix(csv, rs, k);
        }
        assert(rs.take(n as int) =~= rs);
        assert forall|j: int| 0 <= j < rs.len() implies (#[trigger] rs[j]).offset == sizes_sum(
            rs.take(j),
        ) by {
            lemma_concat_len_upper(csv, j);
        }
        assert forall|j: int| 0 <= j < rs.len() implies key_wf((#[trigger] rs[j]).hash) by {
            assert(records@.map_values(|x: ChunkRecord| x@)[j] == rs[j]);
        }
        assert(sizes_sum(rs) == data@.len());
        assert(chunked_wf(data@.len() as u64, rs));
        lemma_be_lengths(0, n as u32);
        lemma_records_len(rs);
    }
    let index = Object::ChunkedBlob(ChunkedBlob { total_size: data.len() as u64, chunks: records });
    let ghost before = objs@.map_values(|o: Object| o@);
    assert(records@.map_values(|x: ChunkRecord| x@) == rs);
    assert(object_wf(index@)) by {
        lemma_be_lengths(data@.len() as u64, n as u32);
        lemma_records_len(rs);
        assert(content_bytes(index@).len() == 12 + 36 * n);
    }
    objs.push(index);
    assert forall|j: int| 0 <= j < objs@.len() implies object_wf(#[trigger] objs@[j]@) by {
        if j < n {
            assert(objs@[j] == objs@.drop_last()[j]);
        }
    }
    assert(objs@.map_values(|o: Object| o@) =~= file_objects(data@)) by {
        assert(objs@.map_values(|o: Object| o@) =~= before.push(objs@[n as int]@));
    }
    objs
}

proof fn lemma_sizes_prefix(cs: Seq<Seq<u8>>, rs: Seq<ChunkRecordView>, k: int)
    requires
        rs.len() == cs.len(),
        0 <= k <= cs.len(),
        forall|j: int| 0 <= j < rs.len() ==> (#[trigger] rs[j]).size == cs[j].len(),
    ensures
        sizes_sum(rs.take(k)) == concat(cs.take(k)).len(),
    decreases k,
{
    if k > 0 {
        lemma_sizes_prefix(cs, rs, k - 1);
        lemma_concat_take(cs, k - 1);
        assert(rs.take(k).drop_last() =~= rs.take(k - 1));
    } else {
        assert(rs.take(0) =~= Seq::<ChunkRecordView>::empty());
        assert(cs.take(0) =~= Seq::<Seq<u8>>::empty());
    }
}

proof fn lemma_records_len(rs: Seq<ChunkRecordView>)
    requires
        forall|i: int| 0 <= i < rs.len() ==> key_wf((#[trigger] rs[i]).hash),
    ensures
        records_bytes(rs).len() == 36 * rs.len(),
    decreases rs.len(),
{
    if rs.len() > 0 {
        lemma_be_lengths(rs.last().offset, 0);
        lemma_be_lengths(rs.last().size, 0);
        lemma_records_len(rs.drop_last());
    }
}

} // verus!
