//! The sixteen flag bits of an index entry, held in a `bit_vec::BitVec`.

use crate::bytes::{be16, from_be16, lemma_be16_round, lemma_from_be16_round};
use vstd::prelude::*;

verus! {

/// The type `bit_vec::BitVec`, of which nothing is known but what the
/// functions below say of the bits that a value holds.
#[verifier::external_type_specification]
#[verifier::external_body]
#[verifier::reject_recursive_types(B)]
pub struct ExBitVec<B>(bit_vec::BitVec<B>);

/// The bits that a `bit_vec::BitVec` holds, in order.
pub uninterp spec fn bits_of(v: bit_vec::BitVec<u32>) -> Seq<bool>;

/// Eight bits for each byte, the most significant first.
pub open spec fn unpacked(bytes: Seq<u8>) -> Seq<bool> {
    Seq::new(8 * bytes.len(), |i: int| (bytes[i / 8] >> ((7 - i % 8) as u8)) & 1 == 1)
}

/// One for a bit that is there and set, zero otherwise.
pub open spec fn bit_or_zero(bits: Seq<bool>, i: int) -> u8 {
    if 0 <= i < bits.len() && bits[i] {
        1
    } else {
        0
    }
}

/// The byte made of the eight bits from `8 * j`, the first of them its
/// most significant bit; bits beyond the end count as zero.
pub open spec fn packed_byte(bits: Seq<bool>, j: int) -> u8 {
    (bit_or_zero(bits, 8 * j) << 7) | (bit_or_zero(bits, 8 * j + 1) << 6) | (bit_or_zero(
        bits,
        8 * j + 2,
    ) << 5) | (bit_or_zero(bits, 8 * j + 3) << 4) | (bit_or_zero(bits, 8 * j + 4) << 3) | (
    bit_or_zero(bits, 8 * j + 5) << 2) | (bit_or_zero(bits, 8 * j + 6) << 1) | bit_or_zero(
        bits,
        8 * j + 7,
    )
}

/// The bytes that hold the bits, eight to a byte.
pub open spec fn packed(bits: Seq<bool>) -> Seq<u8> {
    Seq::new(((bits.len() + 7) / 8) as nat, |j: int| packed_byte(bits, j))
}

/// Calls `BitVec::from_bytes`: each byte becomes eight bits, the most
/// significant first.
#[verifier::external_body]
fn bitvec_from_bytes(bytes: &[u8]) -> (v: bit_vec::BitVec<u32>)
    requires
        bytes@.len() == 2,
    ensures
        bits_of(v) == unpacked(bytes@),
{
    bit_vec::BitVec::from_bytes(bytes)
}

/// Calls `BitVec::to_bytes`: eight bits to a byte, the first the most
/// significant, the last byte filled up with zero bits.
#[verifier::external_body]
fn bitvec_to_bytes(v: &bit_vec::BitVec<u32>) -> (out: Vec<u8>)
    ensures
        out@ == packed(bits_of(*v)),
{
    v.to_bytes()
}

/// Calls `BitVec::get`: the bit at `i`, or `None` beyond the end.
#[verifier::external_body]
fn bitvec_get(v: &bit_vec::BitVec<u32>, i: usize) -> (r: Option<bool>)
    ensures
        r == if i < bits_of(*v).len() {
            Some(bits_of(*v)[i as int])
        } else {
            None
        },
{
    v.get(i)
}

proof fn lemma_pack_byte(x: u8, t7: u8, t6: u8, t5: u8, t4: u8, t3: u8, t2: u8, t1: u8, t0: u8)
    requires
        t7 == (if (x >> 7u8) & 1 == 1 { 1u8 } else { 0u8 }),
        t6 == (if (x >> 6u8) & 1 == 1 { 1u8 } else { 0u8 }),
        t5 == (if (x >> 5u8) & 1 == 1 { 1u8 } else { 0u8 }),
        t4 == (if (x >> 4u8) & 1 == 1 { 1u8 } else { 0u8 }),
        t3 == (if (x >> 3u8) & 1 == 1 { 1u8 } else { 0u8 }),
        t2 == (if (x >> 2u8) & 1 == 1 { 1u8 } else { 0u8 }),
        t1 == (if (x >> 1u8) & 1 == 1 { 1u8 } else { 0u8 }),
        t0 == (if (x >> 0u8) & 1 == 1 { 1u8 } else { 0u8 }),
    ensures
        (t7 << 7) | (t6 << 6) | (t5 << 5) | (t4 << 4) | (t3 << 3) | (t2 << 2) | (t1 << 1) | t0 == x,
{
    assert((t7 << 7) | (t6 << 6) | (t5 << 5) | (t4 << 4) | (t3 << 3) | (t2 << 2) | (t1 << 1) | t0
        == x) by (bit_vector)
        requires
            t7 == (if (x >> 7u8) & 1 == 1 { 1u8 } else { 0u8 }),
            t6 == (if (x >> 6u8) & 1 == 1 { 1u8 } else { 0u8 }),
            t5 == (if (x >> 5u8) & 1 == 1 { 1u8 } else { 0u8 }),
            t4 == (if (x >> 4u8) & 1 == 1 { 1u8 } else { 0u8 }),
            t3 == (if (x >> 3u8) & 1 == 1 { 1u8 } else { 0u8 }),
            t2 == (if (x >> 2u8) & 1 == 1 { 1u8 } else { 0u8 }),
            t1 == (if (x >> 1u8) & 1 == 1 { 1u8 } else { 0u8 }),
            t0 == (if (x >> 0u8) & 1 == 1 { 1u8 } else { 0u8 }),
    ;
}

/// Bytes taken apart into bits and put together again are the same bytes.
pub proof fn lemma_packed_unpacked(bytes: Seq<u8>)
    ensures
        packed(unpacked(bytes)) == bytes,
{
    let bits = unpacked(bytes);
    assert forall|j: int| 0 <= j < bytes.len() implies packed(bits)[j] == bytes[j] by {
        let x = bytes[j];
        assert forall|k: int| 0 <= k < 8 implies #[trigger] bit_or_zero(bits, 8 * j + k) == (if (x
            >> ((7 - k) as u8)) & 1 == 1 {
            1u8
        } else {
            0u8
        }) by {
            assert((8 * j + k) / 8 == j);
            assert((8 * j + k) % 8 == k);
        }
        assert(bit_or_zero(bits, 8 * j) == bit_or_zero(bits, 8 * j + 0));
        lemma_pack_byte(
            x,
            bit_or_zero(bits, 8 * j + 0),
            bit_or_zero(bits, 8 * j + 1),
            bit_or_zero(bits, 8 * j + 2),
            bit_or_zero(bits, 8 * j + 3),
            bit_or_zero(bits, 8 * j + 4),
            bit_or_zero(bits, 8 * j + 5),
            bit_or_zero(bits, 8 * j + 6),
            bit_or_zero(bits, 8 * j + 7),
        );
    }
    assert(packed(bits) =~= bytes);
}

proof fn lemma_second_bit(t7: u8, t6: u8, t5: u8, t4: u8, t3: u8, t2: u8, t1: u8, t0: u8, lo: u8)
    requires
        t7 <= 1,
        t6 <= 1,
        t5 <= 1,
        t4 <= 1,
        t3 <= 1,
        t2 <= 1,
        t1 <= 1,
        t0 <= 1,
    ensures
        ((((((t7 << 7) | (t6 << 6) | (t5 << 5) | (t4 << 4) | (t3 << 3) | (t2 << 2) | (t1 << 1)
            | t0) as u16) << 8) | (lo as u16)) & 0x4000 != 0) == (t6 == 1),
{
    assert(((((((t7 << 7) | (t6 << 6) | (t5 << 5) | (t4 << 4) | (t3 << 3) | (t2 << 2) | (t1 << 1)
        | t0) as u16) << 8) | (lo as u16)) & 0x4000 != 0) == (t6 == 1)) by (bit_vector)
        requires
            t7 <= 1,
            t6 <= 1,
            t5 <= 1,
            t4 <= 1,
            t3 <= 1,
            t2 <= 1,
            t1 <= 1,
            t0 <= 1,
    ;
}

/// The sixteen flag bits of an index entry: assume-valid, extended, two
/// bits of stage, and twelve bits of name length.
#[derive(Debug)]
pub struct EntryFlags(bit_vec::BitVec<u32>);

/// The extended bit of a flags word.
pub open spec fn is_extended(flags: u16) -> bool {
    flags & 0x4000 != 0
}

/// The flags word of an entry made for a name of the given length: the
/// length, or 0xFFF where it is longer, and no other bit.
pub open spec fn flags_for_len(len: nat) -> u16 {
    if len > 0xfff {
        0xfff
    } else {
        len as u16
    }
}

impl EntryFlags {
    /// The sixteen bits, the most significant first.
    pub closed spec fn bits(&self) -> Seq<bool> {
        bits_of(self.0)
    }

    pub open spec fn wf(&self) -> bool {
        self.bits().len() == 16
    }

    /// The flags as one big-endian word.
    pub open spec fn value(&self) -> u16 {
        from_be16(packed(self.bits()))
    }

    /// The flags that stand in two bytes of an index file.
    pub fn from_bytes(bytes: &[u8]) -> (f: EntryFlags)
        requires
            bytes@.len() == 2,
        ensures
            f.wf(),
            f.value() == from_be16(bytes@),
    {
        proof {
            lemma_packed_unpacked(bytes@);
        }
        EntryFlags(bitvec_from_bytes(bytes))
    }

    /// The flags of a fresh entry for `path`: its length, cut at 0xFFF.
    pub fn from_path(path: &[u8]) -> (f: EntryFlags)
        ensures
            f.wf(),
            f.value() == flags_for_len(path@.len()),
    {
        let pathlen: u16 = if path.len() > 0xfff {
            0xfff
        } else {
            path.len() as u16
        };
        let mut raw: Vec<u8> = Vec::new();
        raw.push((pathlen >> 8) as u8);
        raw.push((pathlen & 0xff) as u8);
        proof {
            assert(raw@ =~= be16(pathlen));
            lemma_be16_round(pathlen);
        }
        EntryFlags::from_bytes(raw.as_slice())
    }

    /// The two bytes that stand for the flags in an index file.
    pub fn as_bytes(&self) -> (out: Vec<u8>)
        requires
            self.wf(),
        ensures
            out@ == be16(self.value()),
    {
        proof {
            lemma_from_be16_round(packed(self.bits()));
        }
        bitvec_to_bytes(&self.0)
    }

    /// Whether the extended bit is set.
    pub fn is_extended(&self) -> (r: bool)
        requires
            self.wf(),
        ensures
            r == is_extended(self.value()),
    {
        proof {
            let bits = self.bits();
            lemma_second_bit(
                bit_or_zero(bits, 0),
                bit_or_zero(bits, 1),
                bit_or_zero(bits, 2),
                bit_or_zero(bits, 3),
                bit_or_zero(bits, 4),
                bit_or_zero(bits, 5),
                bit_or_zero(bits, 6),
                bit_or_zero(bits, 7),
                packed_byte(bits, 1),
            );
            assert(packed(bits)[0] == packed_byte(bits, 0));
            assert(packed(bits)[1] == packed_byte(bits, 1));
        }
        match bitvec_get(&self.0, 1) {
            Some(bit) => bit,
            None => false,
        }
    }
}

} // verus!
