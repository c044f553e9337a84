//! The twenty-byte identity of an object, with its hexadecimal forms.

use crate::bytes::{copy_bytes, decimal, decimal_bytes, slice_range};
use vstd::prelude::*;

verus! {

/// The SHA-1 digest of a byte string, as the `sha1` crate computes it.
pub uninterp spec fn sha1_of(data: Seq<u8>) -> Seq<u8>;

/// The lower-case hexadecimal digit for a value below sixteen.
pub open spec fn hex_digit(n: u8) -> u8 {
    if n < 10 {
        (0x30 + n) as u8
    } else {
        (0x57 + n) as u8
    }
}

/// Two lower-case hexadecimal digits for each byte, the high half first.
pub open spec fn hex_of(data: Seq<u8>) -> Seq<u8> {
    Seq::new(
        2 * data.len(),
        |i: int|
            if i % 2 == 0 {
                hex_digit(data[i / 2] >> 4)
            } else {
                hex_digit(data[i / 2] & 0x0f)
            },
    )
}

/// The value of a hexadecimal digit of either case.
pub open spec fn hex_value(c: u8) -> Option<u8> {
    if 0x30 <= c <= 0x39 {
        Some((c - 0x30) as u8)
    } else if 0x61 <= c <= 0x66 {
        Some((c - 0x57) as u8)
    } else if 0x41 <= c <= 0x46 {
        Some((c - 0x37) as u8)
    } else {
        None
    }
}

/// An even number of hexadecimal digits.
pub open spec fn is_hex(text: Seq<u8>) -> bool {
    &&& text.len() % 2 == 0
    &&& forall|i: int| 0 <= i < text.len() ==> (#[trigger] hex_value(text[i])) is Some
}

/// The bytes that hexadecimal text denotes.
pub open spec fn unhex(text: Seq<u8>) -> Seq<u8> {
    Seq::new(
        text.len() / 2,
        |i: int| (hex_value(text[2 * i])->0 << 4) | hex_value(text[2 * i + 1])->0,
    )
}

/// The header that stands before an object's body: the kind, a space, the
/// body's length in decimal, and a NUL byte.
pub open spec fn object_header(kind: Seq<u8>, size: nat) -> Seq<u8> {
    kind + seq![0x20u8] + decimal(size) + seq![0u8]
}

/// The identity of an object: the SHA-1 of its header and body.
pub open spec fn object_id(kind: Seq<u8>, body: Seq<u8>) -> Seq<u8> {
    sha1_of(object_header(kind, body.len()) + body)
}

/// Hexadecimal text made from bytes denotes those bytes again.
pub proof fn lemma_unhex_hex(data: Seq<u8>)
    ensures
        is_hex(hex_of(data)),
        unhex(hex_of(data)) == data,
        hex_of(data).len() == 2 * data.len(),
{
    let h = hex_of(data);
    assert forall|i: int| 0 <= i < h.len() implies (#[trigger] hex_value(h[i])) is Some by {
        let b = data[i / 2];
        assert((b >> 4) < 16 && (b & 0x0f) < 16) by (bit_vector);
    }
    assert forall|i: int| 0 <= i < data.len() implies unhex(h)[i] == data[i] by {
        let b = data[i];
        let hi = b >> 4;
        let lo = b & 0x0f;
        assert(hi < 16 && lo < 16 && (hi << 4) | lo == b) by (bit_vector)
            requires
                hi == b >> 4,
                lo == b & 0x0f,
        ;
        assert(h[2 * i] == hex_digit(hi));
        assert(h[2 * i + 1] == hex_digit(lo));
        assert(hex_value(hex_digit(hi)) == Some(hi));
        assert(hex_value(hex_digit(lo)) == Some(lo));
    }
    assert(unhex(h) =~= data);
}

/// Calls `sha1::Sha1::update` once on a fresh hasher and reads
/// `digest().bytes()`: the twenty bytes of the SHA-1 of `data`.
#[verifier::external_body]
fn sha1_digest(data: &[u8]) -> (out: Vec<u8>)
    ensures
        out@ == sha1_of(data@),
        out@.len() == 20,
{
    let mut hasher = sha1::Sha1::new();
    hasher.update(data);
    hasher.digest().bytes().to_vec()
}

/// Calls `hex::encode`: two lower-case digits for each byte, the high half
/// first.
#[verifier::external_body]
fn hex_encode(data: &[u8]) -> (out: Vec<u8>)
    ensures
        out@ == hex_of(data@),
{
    hex::encode(data).into_bytes()
}

/// Calls `hex::decode`, which takes an even number of digits of either case
/// and fails on anything else.
#[verifier::external_body]
fn hex_decode(text: &[u8]) -> (out: Option<Vec<u8>>)
    ensures
        out is Some <==> is_hex(text@),
        out matches Some(v) ==> v@ == unhex(text@),
{
    hex::decode(text).ok()
}

/// The bytes that hexadecimal text denotes, or `None` where the text is
/// not an even number of hexadecimal digits.
pub fn decode_hex(text: &[u8]) -> (out: Option<Vec<u8>>)
    ensures
        out is Some <==> is_hex(text@),
        out matches Some(v) ==> v@ == unhex(text@),
{
    hex_decode(text)
}

/// Two lower-case hexadecimal digits for each byte.
pub fn encode_hex(data: &[u8]) -> (out: Vec<u8>)
    ensures
        out@ == hex_of(data@),
{
    hex_encode(data)
}

/// The header of an object of the given kind and body length.
pub fn header_bytes(kind: &[u8], size: usize) -> (out: Vec<u8>)
    ensures
        out@ == object_header(kind@, size as nat),
{
    let mut out = copy_bytes(kind);
    out.push(0x20);
    let digits = decimal_bytes(size as u64);
    out.extend_from_slice(digits.as_slice());
    out.push(0);
    out
}

/// A twenty-byte SHA-1 identity.
#[derive(Debug)]
pub struct Sha {
    digest: Vec<u8>,
}

impl View for Sha {
    type V = Seq<u8>;

    /// The twenty bytes.
    closed spec fn view(&self) -> Seq<u8> {
        self.digest@
    }
}

impl Sha {
    /// A digest has twenty bytes.
    pub open spec fn wf(&self) -> bool {
        self@.len() == 20
    }

    /// The SHA-1 of `data`.
    pub fn of(data: &[u8]) -> (sha: Sha)
        ensures
            sha.wf(),
            sha@ == sha1_of(data@),
    {
        Sha { digest: sha1_digest(data) }
    }

    /// The identity of an object of the given kind: the SHA-1 of
    /// `"<kind> <len>\0"` followed by the body.
    pub fn header_and_body(kind: &[u8], body: &[u8]) -> (sha: Sha)
        ensures
            sha.wf(),
            sha@ == object_id(kind@, body@),
    {
        let mut data = header_bytes(kind, body.len());
        data.extend_from_slice(body);
        assert(data@ =~= object_header(kind@, body@.len()) + body@);
        Sha::of(data.as_slice())
    }

    /// A digest from its twenty raw bytes; `None` for any other length.
    pub fn from_bytes(raw: &[u8]) -> (sha: Option<Sha>)
        ensures
            sha is Some <==> raw@.len() == 20,
            sha matches Some(s) ==> s.wf() && s@ == raw@,
    {
        if raw.len() == 20 {
            Some(Sha { digest: copy_bytes(raw) })
        } else {
            None
        }
    }

    /// A digest from forty hexadecimal digits of either case; `None` for
    /// anything else.
    pub fn from_hex(text: &[u8]) -> (sha: Option<Sha>)
        ensures
            sha is Some <==> text@.len() == 40 && is_hex(text@),
            sha matches Some(s) ==> s.wf() && s@ == unhex(text@),
    {
        if text.len() != 40 {
            return None;
        }
        match hex_decode(text) {
            Some(digest) => Some(Sha { digest }),
            None => None,
        }
    }

    /// The forty lower-case hexadecimal digits.
    pub fn hexdigest(&self) -> (hex: Vec<u8>)
        requires
            self.wf(),
        ensures
            hex@ == hex_of(self@),
            hex@.len() == 40,
    {
        hex_encode(self.digest.as_slice())
    }

    /// The first `len` hexadecimal digits.
    pub fn short(&self, len: usize) -> (hex: Vec<u8>)
        requires
            self.wf(),
            len <= 40,
        ensures
            hex@ == hex_of(self@).subrange(0, len as int),
    {
        let full = self.hexdigest();
        slice_range(full.as_slice(), 0, len)
    }

    /// The first two hexadecimal digits and the other thirty-eight: the
    /// directory and the file name of a loose object.
    pub fn split_for_path(&self) -> (parts: (Vec<u8>, Vec<u8>))
        requires
            self.wf(),
        ensures
            parts.0@ == hex_of(self@).subrange(0, 2),
            parts.1@ == hex_of(self@).subrange(2, 40),
    {
        let full = self.hexdigest();
        (slice_range(full.as_slice(), 0, 2), slice_range(full.as_slice(), 2, 40))
    }

    /// The twenty raw bytes.
    pub fn bytes(&self) -> (raw: Vec<u8>)
        ensures
            raw@ == self@,
    {
        copy_bytes(self.digest.as_slice())
    }

    /// Whether two digests are the same. Equal bytes and equal hexadecimal
    /// digits are the same thing.
    pub fn same(&self, other: &Sha) -> (r: bool)
        ensures
            r == (self@ == other@),
    {
        crate::bytes::bytes_eq(self.digest.as_slice(), other.digest.as_slice())
    }

    /// A copy of this digest.
    pub fn duplicate(&self) -> (sha: Sha)
        ensures
            sha@ == self@,
    {
        Sha { digest: copy_bytes(self.digest.as_slice()) }
    }
}

/// Two digests have the same hexadecimal digits exactly when they have the
/// same bytes.
pub proof fn lemma_hex_injective(a: Seq<u8>, b: Seq<u8>)
    requires
        hex_of(a) == hex_of(b),
    ensures
        a == b,
{
    lemma_unhex_hex(a);
    lemma_unhex_hex(b);
}

} // verus!
