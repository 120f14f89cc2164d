//! Object keys: 20-byte content hashes and their hex form.

use vstd::prelude::*;

verus! {

/// Number of bytes in an object key.
pub const KEY_SIZE_BYTES: usize = 20;

/// Number of hex characters in the short display form of a key.
pub const SHORT_HEX_LEN: usize = 8;

/// Inputs to the digest must count fewer bits than a `u64` holds.
pub const HASHABLE_LIMIT: u64 = 0x1fff_ffff_ffff_ffff;

/// The SHA-1 digest of a byte sequence.
pub uninterp spec fn sha1_of(data: Seq<u8>) -> Seq<u8>;

/// Relies on sha1_smol's `Sha1::from(..).digest().bytes()`: the 20-byte SHA-1
/// digest of the input, which depends on the input alone.
#[verifier::external_body]
fn sha1_digest(data: &[u8]) -> (r: Vec<u8>)
    requires
        data@.len() <= HASHABLE_LIMIT,
    ensures
        r@ == sha1_of(data@),
        r@.len() == KEY_SIZE_BYTES,
{
    sha1_smol::Sha1::from(data).digest().bytes().to_vec()
}

/// A 20-byte identifier of a stored object.
#[derive(Clone, Debug, PartialEq, Eq, Hash, PartialOrd, Ord)]
pub struct ObjectKey {
    pub bytes: Vec<u8>,
}

/// The lowercase hex character for a value below sixteen.
pub open spec fn hex_char(n: u8) -> u8 {
    if n < 10 {
        (n + 48) as u8
    } else {
        (n + 87) as u8
    }
}

/// The value of a lowercase hex character.
pub open spec fn hex_value(c: u8) -> u8 {
    if 48 <= c <= 57 {
        (c - 48) as u8
    } else {
        (c - 87) as u8
    }
}

/// Is `c` one of `0-9a-f`?
pub open spec fn is_hex_char(c: u8) -> bool {
    (48 <= c <= 57) || (97 <= c <= 102)
}

/// Two lowercase hex characters per byte, high nibble first.
pub open spec fn hex_of(b: Seq<u8>) -> Seq<u8> {
    Seq::new(
        2 * b.len(),
        |i: int|
            if i % 2 == 0 {
                hex_char(b[i / 2] / 16)
            } else {
                hex_char(b[i / 2] % 16)
            },
    )
}

/// The bytes that a lowercase hex text stands for.
pub open spec fn bytes_of_hex(s: Seq<u8>) -> Seq<u8> {
    Seq::new(
        s.len() / 2,
        |i: int| (hex_value(s[2 * i]) * 16 + hex_value(s[2 * i + 1])) as u8,
    )
}

/// A valid hex form of a key: forty lowercase hex characters.
pub open spec fn is_key_hex(s: Seq<u8>) -> bool {
    s.len() == 2 * KEY_SIZE_BYTES && forall|i: int| 0 <= i < s.len() ==> is_hex_char(#[trigger] s[i])
}

proof fn lemma_hex_char(n: u8)
    requires
        n < 16,
    ensures
        is_hex_char(hex_char(n)),
        hex_value(hex_char(n)) == n,
{
}

proof fn lemma_hex_value(c: u8)
    requires
        is_hex_char(c),
    ensures
        hex_value(c) < 16,
        hex_char(hex_value(c)) == c,
{
}

proof fn lemma_nibbles(b: u8)
    ensures
        b / 16 < 16,
        b % 16 < 16,
        ((b / 16) * 16 + b % 16) as u8 == b,
{
}

/// The hex form of a key is valid hex and reads back as the same bytes.
pub proof fn lemma_hex_round_trip(b: Seq<u8>)
    ensures
        forall|i: int| 0 <= i < hex_of(b).len() ==> is_hex_char(#[trigger] hex_of(b)[i]),
        bytes_of_hex(hex_of(b)) == b,
{
    assert forall|i: int| 0 <= i < hex_of(b).len() implies is_hex_char(#[trigger] hex_of(b)[i]) by {
        lemma_nibbles(b[i / 2]);
        lemma_hex_char(b[i / 2] / 16);
        lemma_hex_char(b[i / 2] % 16);
    }
    assert forall|i: int| 0 <= i < b.len() implies #[trigger] bytes_of_hex(hex_of(b))[i] == b[i] by {
        lemma_nibbles(b[i]);
        lemma_hex_char(b[i] / 16);
        lemma_hex_char(b[i] % 16);
        assert(hex_of(b)[2 * i] == hex_char(b[i] / 16));
        assert(hex_of(b)[2 * i + 1] == hex_char(b[i] % 16));
    }
    assert(bytes_of_hex(hex_of(b)) =~= b);
}

/// A valid hex text is the hex form of the bytes it stands for.
pub proof fn lemma_hex_text_round_trip(s: Seq<u8>)
    requires
        s.len() % 2 == 0,
        forall|i: int| 0 <= i < s.len() ==> is_hex_char(#[trigger] s[i]),
    ensures
        hex_of(bytes_of_hex(s)) == s,
{
    let b = bytes_of_hex(s);
    assert forall|i: int| 0 <= i < s.len() implies #[trigger] hex_of(b)[i] == s[i] by {
        let j = i / 2;
        assert(is_hex_char(s[2 * j]));
        assert(is_hex_char(s[2 * j + 1]));
        lemma_hex_value(s[2 * j]);
        lemma_hex_value(s[2 * j + 1]);
        let hi = hex_value(s[2 * j]);
        let lo = hex_value(s[2 * j + 1]);
        assert(b[j] == (hi * 16 + lo) as u8);
        assert((hi * 16 + lo) / 16 == hi && (hi * 16 + lo) % 16 == lo) by (nonlinear_arith)
            requires
                hi < 16,
                lo < 16,
        ;
    }
    assert(hex_of(b) =~= s);
}

fn hex_char_exec(n: u8) -> (r: u8)
    requires
        n < 16,
    ensures
        r == hex_char(n),
{
    if n < 10 {
        n + 48
    } else {
        n + 87
    }
}

fn hex_value_exec(c: u8) -> (r: Option<u8>)
    ensures
        r == (if is_hex_char(c) {
            Some(hex_value(c))
        } else {
            None::<u8>
        }),
{
    if 48 <= c && c <= 57 {
        Some(c - 48)
    } else if 97 <= c && c <= 102 {
        Some(c - 87)
    } else {
        None
    }
}

/// Lowercase hex form of arbitrary bytes.
pub fn bytes_to_hex(b: &[u8]) -> (r: Vec<u8>)
    requires
        b@.len() <= usize::MAX / 2,
    ensures
        r@ == hex_of(b@),
{
    let mut out: Vec<u8> = Vec::new();
    let mut i: usize = 0;
    while i < b.len()
        invariant
            i <= b@.len(),
            b@.len() <= usize::MAX / 2,
            out@ == hex_of(b@.subrange(0, i as int)),
        decreases b@.len() - i,
    {
        let x = b[i];
        out.push(hex_char_exec(x / 16));
        out.push(hex_char_exec(x % 16));
        proof {
            assert(b@.subrange(0, i as int + 1).drop_last() =~= b@.subrange(0, i as int));
        }
        i = i + 1;
        assert(out@ =~= hex_of(b@.subrange(0, i as int)));
    }
    assert(b@.subrange(0, b@.len() as int) =~= b@);
    out
}

impl ObjectKey {
    /// A key holds exactly twenty bytes.
    pub open spec fn wf(&self) -> bool {
        self.bytes@.len() == KEY_SIZE_BYTES
    }

    /// The reserved all-zero key, meaning "no object".
    pub fn zero() -> (r: ObjectKey)
        ensures
            r.wf(),
            r.bytes@ == Seq::new(20, |i: int| 0u8),
    {
        let bytes = vec![0u8; KEY_SIZE_BYTES];
        assert(bytes@ =~= Seq::new(20, |i: int| 0u8));
        ObjectKey { bytes }
    }

    /// The key of the given content: its SHA-1 digest.
    pub fn of_bytes(data: &[u8]) -> (r: ObjectKey)
        requires
            data@.len() <= HASHABLE_LIMIT,
        ensures
            r.wf(),
            r.bytes@ == sha1_of(data@),
    {
        ObjectKey { bytes: sha1_digest(data) }
    }

    /// Do two keys hold the same bytes?
    pub fn same(&self, other: &ObjectKey) -> (r: bool)
        ensures
            r == (self.bytes@ == other.bytes@),
    {
        if self.bytes.len() != other.bytes.len() {
            return false;
        }
        let mut i: usize = 0;
        while i < self.bytes.len()
            invariant
                i <= self.bytes@.len(),
                self.bytes@.len() == other.bytes@.len(),
                forall|j: int| 0 <= j < i ==> self.bytes@[j] == other.bytes@[j],
            decreases self.bytes@.len() - i,
        {
            if self.bytes[i] != other.bytes[i] {
                return false;
            }
            i = i + 1;
        }
        assert(self.bytes@ =~= other.bytes@);
        true
    }

    /// Forty lowercase hex characters.
    pub fn to_hex(&self) -> (r: Vec<u8>)
        requires
            self.wf(),
        ensures
            r@ == hex_of(self.bytes@),
            r@.len() == 2 * KEY_SIZE_BYTES,
    {
        bytes_to_hex(self.bytes.as_slice())
    }

    /// The first eight hex characters, for display.
    pub fn to_short(&self) -> (r: Vec<u8>)
        requires
            self.wf(),
        ensures
            r@ == hex_of(self.bytes@).subrange(0, SHORT_HEX_LEN as int),
    {
        let hex = self.to_hex();
        let mut out: Vec<u8> = Vec::new();
        let mut i: usize = 0;
        while i < SHORT_HEX_LEN
            invariant
                i <= SHORT_HEX_LEN,
                hex@ == hex_of(self.bytes@),
                hex@.len() == 40,
                out@ == hex@.subrange(0, i as int),
            decreases SHORT_HEX_LEN - i,
        {
            out.push(hex[i]);
            i = i + 1;
            assert(out@ =~= hex@.subrange(0, i as int));
        }
        out
    }

    /// Parses the forty-character lowercase hex form of a key.
    pub fn from_hex(s: &[u8]) -> (r: Option<ObjectKey>)
        ensures
            r is Some <==> is_key_hex(s@),
            r matches Some(k) ==> k.wf() && hex_of(k.bytes@) == s@ && k.bytes@ == bytes_of_hex(s@),
    {
        if s.len() != 2 * KEY_SIZE_BYTES {
            return None;
        }
        let mut out: Vec<u8> = Vec::new();
        let mut i: usize = 0;
        while i < KEY_SIZE_BYTES
            invariant
                i <= KEY_SIZE_BYTES,
                s@.len() == 40,
                forall|j: int| 0 <= j < 2 * i ==> is_hex_char(#[trigger] s@[j]),
                out@ == bytes_of_hex(s@.subrange(0, 2 * i as int)),
            decreases KEY_SIZE_BYTES - i,
        {
            let hi = match hex_value_exec(s[2 * i]) {
                Some(v) => v,
                None => return None,
            };
            let lo = match hex_value_exec(s[2 * i + 1]) {
                Some(v) => v,
                None => return None,
            };
            proof {
                lemma_hex_value(s@[2 * i as int]);
                lemma_hex_value(s@[2 * i as int + 1]);
            }
            out.push(hi * 16 + lo);
            i = i + 1;
            assert forall|j: int| 0 <= j < 2 * i implies is_hex_char(#[trigger] s@[j]) by {
                if j >= 2 * (i - 1) {
                    assert(j == 2 * (i - 1) || j == 2 * (i - 1) + 1);
                }
            }
            assert(out@ =~= bytes_of_hex(s@.subrange(0, 2 * i as int)));
        }
        assert(s@.subrange(0, 40) =~= s@);
        proof {
            lemma_hex_text_round_trip(s@);
        }
        Some(ObjectKey { bytes: out })
    }
}

} // verus!
