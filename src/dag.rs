//! The DAG object model: blobs, chunked blobs, trees and commits, and their
//! byte encoding.

use vstd::prelude::*;
use crate::codec::{
    bytes_equal, bytes_less, bytes_lt, lemma_be_lengths, lemma_bytes_lt_irreflexive,
    lemma_bytes_lt_total, lemma_bytes_lt_transitive, push_u32_be, push_u64_be, u32_be, u64_be};
use crate::hash::{bytes_to_hex, hex_of, sha1_of, ObjectKey, HASHABLE_LIMIT, KEY_SIZE_BYTES};

verus! {

/// Bytes in an object header: the type code and the content size.
pub const HEADER_SIZE: usize = 9;

/// Bytes in one chunk record of a chunked blob.
pub const CHUNK_RECORD_SIZE: usize = 36;

/// Bytes before the records of a chunked blob.
pub const CHUNKED_PREFIX_SIZE: usize = 12;

/// Ends each tree entry.
pub const TREE_ENTRY_SEPARATOR: u8 = 10;

impl View for ObjectKey {
    type V = Seq<u8>;

    open spec fn view(&self) -> Seq<u8> {
        self.bytes@
    }
}

impl ObjectKey {
    /// Does the key hold exactly twenty bytes?
    pub fn is_valid(&self) -> (r: bool)
        ensures
            r == key_wf(self@),
    {
        self.bytes.len() == KEY_SIZE_BYTES
    }

    /// A copy holding the same bytes.
    pub fn copied(&self) -> (r: ObjectKey)
        ensures
            r@ == self@,
    {
        ObjectKey { bytes: self.bytes.clone() }
    }
}

/// Does `k` have the length of a key?
pub open spec fn key_wf(k: Seq<u8>) -> bool {
    k.len() == KEY_SIZE_BYTES
}

/// The four kinds of stored object.
#[derive(Clone, Copy, Debug, PartialEq, Eq, Structural, Hash)]
pub enum ObjectType {
    Blob,
    ChunkedBlob,
    Tree,
    Commit,
}

impl ObjectType {
    /// The byte that stands for the type in a header.
    pub open spec fn code_spec(self) -> u8 {
        match self {
            ObjectType::Blob => 1,
            ObjectType::ChunkedBlob => 2,
            ObjectType::Tree => 3,
            ObjectType::Commit => 4,
        }
    }

    /// The type that a header byte stands for.
    pub open spec fn from_code_spec(c: u8) -> Option<ObjectType> {
        if c == 1 {
            Some(ObjectType::Blob)
        } else if c == 2 {
            Some(ObjectType::ChunkedBlob)
        } else if c == 3 {
            Some(ObjectType::Tree)
        } else if c == 4 {
            Some(ObjectType::Commit)
        } else {
            None
        }
    }

    /// The byte that stands for the type in a header.
    pub fn code(&self) -> (r: u8)
        ensures
            r == self.code_spec(),
    {
        match self {
            ObjectType::Blob => 1,
            ObjectType::ChunkedBlob => 2,
            ObjectType::Tree => 3,
            ObjectType::Commit => 4,
        }
    }

    /// The type that a header byte stands for, if any.
    pub fn from_code(c: u8) -> (r: Option<ObjectType>)
        ensures
            r == ObjectType::from_code_spec(c),
    {
        if c == 1 {
            Some(ObjectType::Blob)
        } else if c == 2 {
            Some(ObjectType::ChunkedBlob)
        } else if c == 3 {
            Some(ObjectType::Tree)
        } else if c == 4 {
            Some(ObjectType::Commit)
        } else {
            None
        }
    }

    /// Trees and commits are descended into; blobs are leaves.
    pub fn is_treeish(&self) -> (r: bool)
        ensures
            r == (*self == ObjectType::Tree || *self == ObjectType::Commit),
    {
        match self {
            ObjectType::Tree | ObjectType::Commit => true,
            _ => false,
        }
    }
}

/// The header that starts every stored object.
#[derive(Clone, Copy, Debug, PartialEq, Eq, Structural, Hash)]
pub struct ObjectHeader {
    pub object_type: ObjectType,
    pub content_size: u64,
}

/// Header bytes: the type code, then the content size as a big-endian `u64`.
pub open spec fn header_bytes(h: ObjectHeader) -> Seq<u8> {
    seq![h.object_type.code_spec()] + u64_be(h.content_size)
}

impl ObjectHeader {
    /// Appends the nine header bytes.
    pub fn write_to(&self, out: &mut Vec<u8>)
        ensures
            final(out)@ == old(out)@ + header_bytes(*self),
    {
        out.push(self.object_type.code());
        push_u64_be(out, self.content_size);
        assert(final(out)@ =~= old(out)@ + header_bytes(*self));
    }
}

/// A file's bytes stored as a single object.
#[derive(Clone, Debug, PartialEq, Eq, Hash)]
pub struct Blob {
    pub content: Vec<u8>,
}

impl Blob {
    /// A blob holding the given bytes.
    pub fn from_vec(v: Vec<u8>) -> (r: Blob)
        ensures
            r.content@ == v@,
    {
        Blob { content: v }
    }

    /// The blob with no content.
    pub fn empty() -> (r: Blob)
        ensures
            r.content@ == Seq::<u8>::empty(),
    {
        Blob { content: Vec::new() }
    }

    /// Number of content bytes.
    pub fn size(&self) -> (r: u64)
        ensures
            r == self.content@.len(),
    {
        self.content.len() as u64
    }

    /// The content bytes.
    pub fn content(&self) -> (r: &Vec<u8>)
        ensures
            r@ == self.content@,
    {
        &self.content
    }
}

/// One chunk of a chunked blob, as seen by the specification.
pub struct ChunkRecordView {
    pub offset: u64,
    pub size: u64,
    pub hash: Seq<u8>,
}

/// One chunk of a chunked blob: where it starts, how long it is, and the
/// key of the blob that holds it.
#[derive(Clone, Debug, PartialEq, Eq, Hash)]
pub struct ChunkRecord {
    pub offset: u64,
    pub size: u64,
    pub hash: ObjectKey,
}

impl View for ChunkRecord {
    type V = ChunkRecordView;

    open spec fn view(&self) -> ChunkRecordView {
        ChunkRecordView { offset: self.offset, size: self.size, hash: self.hash@ }
    }
}

/// An index of the blobs that together hold a large file.
#[derive(Clone, Debug, PartialEq, Eq, Hash)]
pub struct ChunkedBlob {
    pub total_size: u64,
    pub chunks: Vec<ChunkRecord>,
}

/// An entry of a tree, as seen by the specification.
pub struct TreeEntryView {
    pub name: Seq<u8>,
    pub hash: Seq<u8>,
}

/// A name and the key of the object stored under it.
#[derive(Clone, Debug, PartialEq, Eq, Hash)]
pub struct TreeEntry {
    pub name: Vec<u8>,
    pub hash: ObjectKey,
}

impl View for TreeEntry {
    type V = TreeEntryView;

    open spec fn view(&self) -> TreeEntryView {
        TreeEntryView { name: self.name@, hash: self.hash@ }
    }
}

/// A directory snapshot: entries in strictly ascending name order.
#[derive(Clone, Debug, PartialEq, Eq, Hash)]
pub struct Tree {
    pub entries: Vec<TreeEntry>,
}

/// A snapshot of a tree with its parent commits and a message.
#[derive(Clone, Debug, PartialEq, Eq, Hash)]
pub struct Commit {
    pub tree: ObjectKey,
    pub parents: Vec<ObjectKey>,
    pub message: Vec<u8>,
}

/// Any stored object.
#[derive(Clone, Debug, PartialEq, Eq, Hash)]
pub enum Object {
    Blob(Blob),
    ChunkedBlob(ChunkedBlob),
    Tree(Tree),
    Commit(Commit),
}

/// An object as seen by the specification.
pub enum ObjectView {
    Blob { content: Seq<u8> },
    ChunkedBlob { total_size: u64, chunks: Seq<ChunkRecordView> },
    Tree { entries: Seq<TreeEntryView> },
    Commit { tree: Seq<u8>, parents: Seq<Seq<u8>>, message: Seq<u8> },
}

impl View for Object {
    type V = ObjectView;

    open spec fn view(&self) -> ObjectView {
        match self {
            Object::Blob(b) => ObjectView::Blob { content: b.content@ },
            Object::ChunkedBlob(c) => ObjectView::ChunkedBlob {
                total_size: c.total_size,
                chunks: c.chunks@.map_values(|r: ChunkRecord| r@),
            },
            Object::Tree(t) => ObjectView::Tree { entries: t.entries@.map_values(|e: TreeEntry| e@) },
            Object::Commit(c) => ObjectView::Commit {
                tree: c.tree@,
                parents: c.parents@.map_values(|k: ObjectKey| k@),
                message: c.message@,
            },
        }
    }
}

/// The sum of the chunk sizes.
pub open spec fn sizes_sum(chunks: Seq<ChunkRecordView>) -> int
    decreases chunks.len(),
{
    if chunks.len() == 0 {
        0
    } else {
        sizes_sum(chunks.drop_last()) + chunks.last().size
    }
}

/// Chunks follow each other from offset zero, and their sizes add up to the
/// total.
pub open spec fn chunked_wf(total_size: u64, chunks: Seq<ChunkRecordView>) -> bool {
    &&& chunks.len() <= u32::MAX
    &&& sizes_sum(chunks) == total_size
    &&& forall|i: int| 0 <= i < chunks.len() ==> (#[trigger] chunks[i]).offset == sizes_sum(chunks.take(i))
    &&& forall|i: int| 0 <= i < chunks.len() ==> key_wf((#[trigger] chunks[i]).hash)
}

/// A file name that a tree can hold: not empty, not `.` or `..`, and free of
/// `/`, NUL and newline.
pub open spec fn valid_name(n: Seq<u8>) -> bool {
    &&& n.len() > 0
    &&& n != seq![46u8]
    &&& n != seq![46u8, 46u8]
    &&& forall|i: int| 0 <= i < n.len() ==> (#[trigger] n[i]) != 0 && n[i] != 10 && n[i] != 47
}

/// Entries have valid names and keys, in strictly ascending name order.
pub open spec fn tree_wf(entries: Seq<TreeEntryView>) -> bool {
    &&& forall|i: int| 0 <= i < entries.len() ==> valid_name((#[trigger] entries[i]).name)
    &&& forall|i: int| 0 <= i < entries.len() ==> key_wf((#[trigger] entries[i]).hash)
    &&& forall|i: int, j: int|
        0 <= i < j < entries.len() ==> bytes_lt(#[trigger] entries[i].name, #[trigger] entries[j].name)
}

/// Bytes of one chunk record: offset, size, key.
pub open spec fn record_bytes(r: ChunkRecordView) -> Seq<u8> {
    u64_be(r.offset) + u64_be(r.size) + r.hash
}

/// Bytes of a run of chunk records.
pub open spec fn records_bytes(rs: Seq<ChunkRecordView>) -> Seq<u8>
    decreases rs.len(),
{
    if rs.len() == 0 {
        Seq::empty()
    } else {
        records_bytes(rs.drop_last()) + record_bytes(rs.last())
    }
}

/// Bytes of one tree entry: key, name, newline.
pub open spec fn entry_bytes(e: TreeEntryView) -> Seq<u8> {
    e.hash + e.name + seq![TREE_ENTRY_SEPARATOR]
}

/// Bytes of a run of tree entries.
pub open spec fn entries_bytes(es: Seq<TreeEntryView>) -> Seq<u8>
    decreases es.len(),
{
    if es.len() == 0 {
        Seq::empty()
    } else {
        entries_bytes(es.drop_last()) + entry_bytes(es.last())
    }
}

/// `tree ` in ASCII.
pub open spec fn tree_tag() -> Seq<u8> {
    seq![116u8, 114, 101, 101, 32]
}

/// `parent ` in ASCII.
pub open spec fn parent_tag() -> Seq<u8> {
    seq![112u8, 97, 114, 101, 110, 116, 32]
}

/// The `parent <hex>` lines of a commit.
pub open spec fn parent_lines(ps: Seq<Seq<u8>>) -> Seq<u8>
    decreases ps.len(),
{
    if ps.len() == 0 {
        Seq::empty()
    } else {
        parent_lines(ps.drop_last()) + parent_tag() + hex_of(ps.last()) + seq![10u8]
    }
}

/// The content bytes of an object.
pub open spec fn content_bytes(o: ObjectView) -> Seq<u8> {
    match o {
        ObjectView::Blob { content } => content,
        ObjectView::ChunkedBlob { total_size, chunks } => u64_be(total_size) + u32_be(
            chunks.len() as u32,
        ) + records_bytes(chunks),
        ObjectView::Tree { entries } => entries_bytes(entries),
        ObjectView::Commit { tree, parents, message } => tree_tag() + hex_of(tree) + seq![10u8]
            + parent_lines(parents) + seq![10u8] + message,
    }
}

/// The type of an object.
pub open spec fn type_of(o: ObjectView) -> ObjectType {
    match o {
        ObjectView::Blob { .. } => ObjectType::Blob,
        ObjectView::ChunkedBlob { .. } => ObjectType::ChunkedBlob,
        ObjectView::Tree { .. } => ObjectType::Tree,
        ObjectView::Commit { .. } => ObjectType::Commit,
    }
}

/// The header of an object.
pub open spec fn header_of(o: ObjectView) -> ObjectHeader {
    ObjectHeader { object_type: type_of(o), content_size: content_bytes(o).len() as u64 }
}

/// The bytes stored for an object: header, then content.
pub open spec fn object_bytes(o: ObjectView) -> Seq<u8> {
    header_bytes(header_of(o)) + content_bytes(o)
}

/// The key of an object: the digest of its stored bytes.
pub open spec fn object_key(o: ObjectView) -> Seq<u8> {
    sha1_of(object_bytes(o))
}

/// The parts of an object are valid (its size aside).
pub open spec fn object_wf_parts(o: ObjectView) -> bool {
    match o {
        ObjectView::Blob { .. } => true,
        ObjectView::ChunkedBlob { total_size, chunks } => chunked_wf(total_size, chunks),
        ObjectView::Tree { entries } => tree_wf(entries),
        ObjectView::Commit { tree, parents, .. } => key_wf(tree) && keys_wf(parents),
    }
}

/// Every key has key length.
pub open spec fn keys_wf(ks: Seq<Seq<u8>>) -> bool {
    forall|i: int| 0 <= i < ks.len() ==> key_wf(#[trigger] ks[i])
}

/// An object that the store can hold: its parts are valid and its stored
/// bytes are few enough to be hashed.
pub open spec fn object_wf(o: ObjectView) -> bool {
    &&& content_bytes(o).len() + HEADER_SIZE <= HASHABLE_LIMIT
    &&& object_wf_parts(o)
}

/// Do the chunk records follow each other from offset zero, with keys of
/// key length, adding up to the total size?
#[verifier::rlimit(80)]
fn chunks_valid(c: &ChunkedBlob) -> (r: bool)
    ensures
        r == chunked_wf(c.total_size, c.chunks@.map_values(|r: ChunkRecord| r@)),
{
    let ghost rs = c.chunks@.map_values(|r: ChunkRecord| r@);
    if c.chunks.len() > 0xffff_ffff {
        return false;
    }
    let mut sum: u64 = 0;
    let mut i: usize = 0;
    while i < c.chunks.len()
        invariant
            i <= c.chunks@.len(),
            rs == c.chunks@.map_values(|r: ChunkRecord| r@),
            sum == sizes_sum(rs.take(i as int)),
            forall|j: int| 0 <= j < i ==> (#[trigger] rs[j]).offset == sizes_sum(rs.take(j)),
            forall|j: int| 0 <= j < i ==> key_wf((#[trigger] rs[j]).hash),
        decreases c.chunks@.len() - i,
    {
        let r = &c.chunks[i];
        assert(rs[i as int] == r@);
        proof {
            assert(rs.take(i + 1).drop_last() =~= rs.take(i as int));
        }
        if r.offset != sum || !r.hash.is_valid() {
            assert(!chunked_wf(c.total_size, rs)) by {
                assert(rs[i as int].offset != sizes_sum(rs.take(i as int)) || !key_wf(
                    rs[i as int].hash,
                ));
            }
            return false;
        }
        match sum.checked_add(r.size) {
            Some(v) => {
                sum = v;
            },
            None => {
                proof {
                    lemma_sizes_sum_prefix_le(rs, i + 1);
                    assert(sizes_sum(rs.take(i + 1)) == sum + r.size);
                    assert(sizes_sum(rs) != c.total_size);
                }
                return false;
            },
        }
        i = i + 1;
    }
    assert(rs.take(rs.len() as int) =~= rs);
    sum == c.total_size

}

proof fn lemma_sizes_sum_prefix_le(rs: Seq<ChunkRecordView>, i: int)
    requires
        0 <= i <= rs.len(),
    ensures
        sizes_sum(rs.take(i)) <= sizes_sum(rs),
    decreases rs.len() - i,
{
    if i < rs.len() {
        lemma_sizes_sum_prefix_le(rs, i + 1);
        assert(rs.take(i + 1).drop_last() =~= rs.take(i));
    } else {
        assert(rs.take(i) =~= rs);
    }
}

/// The key of an object depends on the object alone: equal objects have
/// equal keys, whenever and wherever they are hashed.
pub proof fn lemma_hash_deterministic(a: ObjectView, b: ObjectView)
    requires
        a == b,
    ensures
        object_key(a) == object_key(b),
        object_bytes(a) == object_bytes(b),
{
}

/// Appends all of `src` to `out`.
pub fn push_all(out: &mut Vec<u8>, src: &[u8])
    ensures
        final(out)@ == old(out)@ + src@,
{
    let mut i: usize = 0;
    while i < src.len()
        invariant
            i <= src@.len(),
            out@ == old(out)@ + src@.subrange(0, i as int),
        decreases src@.len() - i,
    {
        out.push(src[i]);
        i = i + 1;
        assert(out@ =~= old(out)@ + src@.subrange(0, i as int));
    }
    assert(src@.subrange(0, src@.len() as int) =~= src@);
}

/// The bytes of `src` from `start` up to `end`.
pub fn copy_range(src: &[u8], start: usize, end: usize) -> (r: Vec<u8>)
    requires
        start <= end <= src@.len(),
    ensures
        r@ == src@.subrange(start as int, end as int),
{
    let mut out: Vec<u8> = Vec::new();
    let mut i: usize = start;
    while i < end
        invariant
            start <= i <= end,
            end <= src@.len(),
            out@ == src@.subrange(start as int, i as int),
        decreases end - i,
    {
        out.push(src[i]);
        i = i + 1;
        assert(out@ =~= src@.subrange(start as int, i as int));
    }
    out
}

fn push_key_hex_line(out: &mut Vec<u8>, key: &ObjectKey)
    requires
        key_wf(key@),
    ensures
        final(out)@ == old(out)@ + hex_of(key@) + seq![10u8],
{
    let hex = bytes_to_hex(key.bytes.as_slice());
    push_all(out, hex.as_slice());
    out.push(10u8);
    assert(final(out)@ =~= old(out)@ + hex_of(key@) + seq![10u8]);
}

impl Object {
    /// The type of this object.
    pub fn object_type(&self) -> (r: ObjectType)
        ensures
            r == type_of(self@),
    {
        match self {
            Object::Blob(_) => ObjectType::Blob,
            Object::ChunkedBlob(_) => ObjectType::ChunkedBlob,
            Object::Tree(_) => ObjectType::Tree,
            Object::Commit(_) => ObjectType::Commit,
        }
    }

    /// Appends the content bytes of this object.
    pub fn write_content(&self, out: &mut Vec<u8>)
        requires
            object_wf_parts(self@),
        ensures
            final(out)@ == old(out)@ + content_bytes(self@),
    {
        match self {
            Object::Blob(b) => {
                push_all(out, b.content.as_slice());
            },
            Object::ChunkedBlob(c) => {
                let ghost rs = c.chunks@.map_values(|r: ChunkRecord| r@);
                push_u64_be(out, c.total_size);
                push_u32_be(out, c.chunks.len() as u32);
                let ghost start = out@;
                let mut i: usize = 0;
                while i < c.chunks.len()
                    invariant
                        i <= c.chunks@.len(),
                        rs == c.chunks@.map_values(|r: ChunkRecord| r@),
                        out@ == start + records_bytes(rs.take(i as int)),
                    decreases c.chunks@.len() - i,
                {
                    let r = &c.chunks[i];
                    push_u64_be(out, r.offset);
                    push_u64_be(out, r.size);
                    push_all(out, r.hash.bytes.as_slice());
                    assert(rs.take(i + 1).drop_last() =~= rs.take(i as int));
                    i = i + 1;
                    assert(out@ =~= start + records_bytes(rs.take(i as int)));
                }
                assert(rs.take(rs.len() as int) =~= rs);
                assert(out@ =~= old(out)@ + content_bytes(self@));
            },
            Object::Tree(t) => {
                let ghost es = t.entries@.map_values(|e: TreeEntry| e@);
                let ghost start = out@;
                let mut i: usize = 0;
                while i < t.entries.len()
                    invariant
                        i <= t.entries@.len(),
                        es == t.entries@.map_values(|e: TreeEntry| e@),
                        out@ == start + entries_bytes(es.take(i as int)),
                    decreases t.entries@.len() - i,
                {
                    let e = &t.entries[i];
                    push_all(out, e.hash.bytes.as_slice());
                    push_all(out, e.name.as_slice());
                    out.push(TREE_ENTRY_SEPARATOR);
                    assert(es.take(i + 1).drop_last() =~= es.take(i as int));
                    i = i + 1;
                    assert(out@ =~= start + entries_bytes(es.take(i as int)));
                }
                assert(es.take(es.len() as int) =~= es);
            },
            Object::Commit(c) => {
                let ghost ps = c.parents@.map_values(|k: ObjectKey| k@);
                assert(keys_wf(ps));
                out.push(116u8);
                out.push(114u8);
                out.push(101u8);
                out.push(101u8);
                out.push(32u8);
                push_key_hex_line(out, &c.tree);
                let ghost start = out@;
                let mut i: usize = 0;
                while i < c.parents.len()
                    invariant
                        i <= c.parents@.len(),
                        ps == c.parents@.map_values(|k: ObjectKey| k@),
                        forall|j: int| 0 <= j < ps.len() ==> key_wf(#[trigger] ps[j]),
                        out@ == start + parent_lines(ps.take(i as int)),
                    decreases c.parents@.len() - i,
                {
                    out.push(112u8);
                    out.push(97u8);
                    out.push(114u8);
                    out.push(101u8);
                    out.push(110u8);
                    out.push(116u8);
                    out.push(32u8);
                    assert(key_wf(ps[i as int]));
                    push_key_hex_line(out, &c.parents[i]);
                    assert(ps.take(i + 1).drop_last() =~= ps.take(i as int));
                    i = i + 1;
                    assert(out@ =~= start + parent_lines(ps.take(i as int)));
                }
                assert(ps.take(ps.len() as int) =~= ps);
                out.push(10u8);
                push_all(out, c.message.as_slice());
                assert(out@ =~= old(out)@ + content_bytes(self@));
            },
        }
    }

    /// Are the parts of this object valid?
    pub fn parts_valid(&self) -> (r: bool)
        ensures
            r == object_wf_parts(self@),
    {
        match self {
            Object::Blob(_) => true,
            Object::ChunkedBlob(c) => chunks_valid(c),
            Object::Tree(t) => {
                let ghost es = t.entries@.map_values(|e: TreeEntry| e@);
                let mut i: usize = 0;
                while i < t.entries.len()
                    invariant
                        i <= t.entries@.len(),
                        es == t.entries@.map_values(|e: TreeEntry| e@),
                        self@ == (ObjectView::Tree { entries: es }),
                        forall|j: int| 0 <= j < i ==> valid_name((#[trigger] es[j]).name),
                        forall|j: int| 0 <= j < i ==> key_wf((#[trigger] es[j]).hash),
                        forall|x: int, y: int|
                            0 <= x < y < i ==> bytes_lt(#[trigger] es[x].name, #[trigger] es[y].name),
                    decreases t.entries@.len() - i,
                {
                    let e = &t.entries[i];
                    assert(es[i as int] == e@);
                    if !crate::parse::is_valid_name(e.name.as_slice()) || !e.hash.is_valid() {
                        assert(!tree_wf(es)) by {
                            assert(!valid_name(es[i as int].name) || !key_wf(es[i as int].hash));
                        }
                        return false;
                    }
                    if i > 0 && !bytes_less(t.entries[i - 1].name.as_slice(), e.name.as_slice()) {
                        assert(!tree_wf(es)) by {
                            assert(es[i - 1] == t.entries@[i - 1]@);
                            assert(!bytes_lt(es[i - 1].name, es[i as int].name));
                        }
                        return false;
                    }
                    proof {
                        assert forall|x: int, y: int| 0 <= x < y < i + 1 implies bytes_lt(
                            #[trigger] es[x].name,
                            #[trigger] es[y].name,
                        ) by {
                            if y == i && x < i - 1 {
                                lemma_bytes_lt_transitive(es[x].name, es[i - 1].name, es[y].name);
                            }
                        }
                    }
                    i = i + 1;
                }
                true
            },
            Object::Commit(c) => {
                if !c.tree.is_valid() {
                    return false;
                }
                let ghost ps = c.parents@.map_values(|k: ObjectKey| k@);
                let mut i: usize = 0;
                while i < c.parents.len()
                    invariant
                        i <= c.parents@.len(),
                        ps == c.parents@.map_values(|k: ObjectKey| k@),
                        self@ == (ObjectView::Commit { tree: c.tree@, parents: ps, message: c.message@ }),
                        key_wf(c.tree@),
                        forall|j: int| 0 <= j < i ==> key_wf(#[trigger] ps[j]),
                    decreases c.parents@.len() - i,
                {
                    if !c.parents[i].is_valid() {
                        assert(!key_wf(ps[i as int]));
                        assert(!keys_wf(ps));
                        return false;
                    }
                    i = i + 1;
                }
                assert(keys_wf(ps));
                true
            },
        }
    }

    /// Can the store hold this object: are its parts valid and are its
    /// stored bytes few enough to be hashed?
    pub fn is_storable(&self) -> (r: bool)
        ensures
            r == object_wf(self@),
    {
        if !self.parts_valid() {
            return false;
        }
        let mut content: Vec<u8> = Vec::new();
        self.write_content(&mut content);
        assert(content@ =~= content_bytes(self@));
        content.len() as u64 <= HASHABLE_LIMIT - 9
    }

    /// The header of this object.
    pub fn header(&self) -> (r: ObjectHeader)
        requires
            object_wf(self@),
        ensures
            r == header_of(self@),
    {
        let mut content: Vec<u8> = Vec::new();
        self.write_content(&mut content);
        ObjectHeader { object_type: self.object_type(), content_size: content.len() as u64 }
    }

    /// The bytes stored for this object: header, then content.
    pub fn to_bytes(&self) -> (r: Vec<u8>)
        requires
            object_wf(self@),
        ensures
            r@ == object_bytes(self@),
    {
        let mut content: Vec<u8> = Vec::new();
        self.write_content(&mut content);
        let header = ObjectHeader {
            object_type: self.object_type(),
            content_size: content.len() as u64,
        };
        let mut out: Vec<u8> = Vec::new();
        header.write_to(&mut out);
        push_all(&mut out, content.as_slice());
        assert(out@ =~= object_bytes(self@));
        out
    }

    /// The key of this object: the digest of its stored bytes.
    pub fn calculate_hash(&self) -> (r: ObjectKey)
        requires
            object_wf(self@),
        ensures
            r@ == object_key(self@),
            key_wf(r@),
    {
        let bytes = self.to_bytes();
        proof {
            lemma_be_lengths(header_of(self@).content_size, 0);
        }
        ObjectKey::of_bytes(bytes.as_slice())
    }
}

/// Does the tree list `name` with key `hash`?
pub open spec fn has_entry(es: Seq<TreeEntryView>, name: Seq<u8>, hash: Seq<u8>) -> bool {
    exists|i: int| 0 <= i < es.len() && (#[trigger] es[i]).name == name && es[i].hash == hash
}

impl Tree {
    /// The entries as seen by the specification.
    pub open spec fn entries_view(&self) -> Seq<TreeEntryView> {
        self.entries@.map_values(|e: TreeEntry| e@)
    }

    /// A tree with no entries.
    pub fn new() -> (r: Tree)
        ensures
            r.entries_view() == Seq::<TreeEntryView>::empty(),
            tree_wf(r.entries_view()),
    {
        let r = Tree { entries: Vec::new() };
        assert(r.entries_view() =~= Seq::<TreeEntryView>::empty());
        r
    }

    /// Number of entries.
    pub fn len(&self) -> (r: usize)
        ensures
            r == self.entries_view().len(),
    {
        self.entries.len()
    }

    /// The key listed under `name`, if any.
    pub fn get(&self, name: &[u8]) -> (r: Option<ObjectKey>)
        requires
            tree_wf(self.entries_view()),
        ensures
            r matches Some(k) ==> has_entry(self.entries_view(), name@, k@),
            r is None ==> forall|i: int|
                0 <= i < self.entries_view().len() ==> (#[trigger] self.entries_view()[i]).name
                    != name@,
    {
        let mut i: usize = 0;
        while i < self.entries.len()
            invariant
                i <= self.entries@.len(),
                forall|j: int| 0 <= j < i ==> (#[trigger] self.entries_view()[j]).name != name@,
            decreases self.entries@.len() - i,
        {
            if bytes_equal(self.entries[i].name.as_slice(), name) {
                let k = self.entries[i].hash.copied();
                assert(self.entries_view()[i as int].name == name@);
                return Some(k);
            }
            i = i + 1;
        }
        None
    }

    /// Lists `hash` under `name`, replacing any key already listed there, and
    /// keeps the entries in name order.
    pub fn insert(&mut self, name: Vec<u8>, hash: ObjectKey)
        requires
            tree_wf(old(self).entries_view()),
            valid_name(name@),
            key_wf(hash@),
        ensures
            tree_wf(final(self).entries_view()),
            forall|n: Seq<u8>, h: Seq<u8>|
                has_entry(final(self).entries_view(), n, h) <==> ((n == name@ && h == hash@) || (n
                    != name@ && has_entry(old(self).entries_view(), n, h))),
    {
        let ghost old_es = self.entries_view();
        let mut p: usize = 0;
        while p < self.entries.len() && bytes_less(self.entries[p].name.as_slice(), name.as_slice())
            invariant
                p <= self.entries@.len(),
                old_es == self.entries_view(),
                forall|j: int| 0 <= j < p ==> bytes_lt((#[trigger] old_es[j]).name, name@),
            decreases self.entries@.len() - p,
        {
            p = p + 1;
        }
        let replace = p < self.entries.len() && bytes_equal(
            self.entries[p].name.as_slice(),
            name.as_slice(),
        );
        let ghost e = TreeEntryView { name: name@, hash: hash@ };
        let ghost skip_to: int = if replace {
            p + 1
        } else {
            p as int
        };
        if replace {
            self.entries.remove(p);
        }
        self.entries.insert(p, TreeEntry { name, hash });
        proof {
            let ne = self.entries_view();
            assert(ne =~= old_es.take(p as int) + seq![e] + old_es.skip(skip_to));
            // entries from `skip_to` on come after the new name
            assert forall|j: int| skip_to <= j < old_es.len() implies bytes_lt(
                e.name,
                #[trigger] old_es[j].name,
            ) by {
                if replace {
                    assert(old_es[p as int].name == name@);
                    assert(bytes_lt(old_es[p as int].name, old_es[j].name));
                } else {
                    lemma_bytes_lt_total(old_es[p as int].name, name@);
                    if j > p {
                        assert(bytes_lt(old_es[p as int].name, old_es[j].name));
                        lemma_bytes_lt_transitive(name@, old_es[p as int].name, old_es[j].name);
                    }
                }
            }
            assert forall|x: int, y: int| 0 <= x < y < ne.len() implies bytes_lt(
                #[trigger] ne[x].name,
                #[trigger] ne[y].name,
            ) by {
                if y < p {
                } else if y == p {
                } else if x < p {
                    let oy = y - p - 1 + skip_to;
                    assert(ne[y] == old_es[oy]);
                    lemma_bytes_lt_transitive(ne[x].name, name@, ne[y].name);
                } else if x == p {
                    assert(ne[y] == old_es[y - p - 1 + skip_to]);
                } else {
                    assert(ne[x] == old_es[x - p - 1 + skip_to]);
                    assert(ne[y] == old_es[y - p - 1 + skip_to]);
                }
            }
            assert forall|i: int| 0 <= i < ne.len() implies valid_name((#[trigger] ne[i]).name)
                && key_wf(ne[i].hash) by {
                if i > p {
                    assert(ne[i] == old_es[i - p - 1 + skip_to]);
                }
            }
            assert forall|n: Seq<u8>, h: Seq<u8>|
                has_entry(ne, n, h) <==> ((n == name@ && h == hash@) || (n != name@ && has_entry(
                    old_es,
                    n,
                    h,
                ))) by {
                if has_entry(ne, n, h) {
                    let i = choose|i: int|
                        0 <= i < ne.len() && (#[trigger] ne[i]).name == n && ne[i].hash == h;
                    if i < p {
                        assert(old_es[i] == ne[i]);
                        lemma_bytes_lt_irreflexive(name@);
                    } else if i > p {
                        let oi = i - p - 1 + skip_to;
                        assert(old_es[oi] == ne[i]);
                        lemma_bytes_lt_irreflexive(name@);
                    }
                }
                if n == name@ && h == hash@ {
                    assert(ne[p as int] == e);
                }
                if n != name@ && has_entry(old_es, n, h) {
                    let i = choose|i: int|
                        0 <= i < old_es.len() && (#[trigger] old_es[i]).name == n && old_es[i].hash
                            == h;
                    if i < p {
                        assert(ne[i] == old_es[i]);
                    } else {
                        if replace && i == p {
                            assert(old_es[i].name == name@);
                        }
                        assert(i >= skip_to);
                        assert(ne[i - skip_to + p + 1] == old_es[i]);
                    }
                }
            }
        }
    }
}

} // verus!
