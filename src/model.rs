//! The mathematical model of payloads and signal fields.
use vstd::prelude::*;
use vstd::arithmetic::power2::{pow2, lemma_pow2_adds, lemma_pow2_pos, lemma2_to64};

verus! {

/// Byte order of a signal inside a payload.
#[derive(Clone, Copy, Debug, PartialEq, Eq, Structural)]
pub enum ByteOrder {
    /// Intel numbering: byte 0 is the least significant byte.
    LittleEndian,
    /// Motorola numbering: byte 0 is the most significant byte.
    BigEndian,
}

/// How the bits of a signal are read as an integer.
#[derive(Clone, Copy, Debug, PartialEq, Eq, Structural)]
pub enum ValueType {
    Signed,
    Unsigned,
}

/// The bytes read as one base-256 number, byte 0 most significant.
pub open spec fn be_value(b: Seq<u8>) -> nat
    decreases b.len(),
{
    if b.len() == 0 {
        0
    } else {
        be_value(b.drop_last()) * 256 + b.last() as nat
    }
}

/// The bytes in the opposite order.
pub open spec fn reversed(b: Seq<u8>) -> Seq<u8> {
    Seq::new(b.len(), |i: int| b[b.len() - 1 - i])
}

/// The bytes read as one base-256 number, byte 0 least significant.
pub open spec fn le_value(b: Seq<u8>) -> nat {
    be_value(reversed(b))
}

/// `len` bits of `v`, starting at bit `lsb` (bit 0 is the least significant).
pub open spec fn bit_field(v: nat, lsb: nat, len: nat) -> nat {
    (v / pow2(lsb)) % pow2(len)
}

/// Motorola numbering: the index, counted from the least significant bit of
/// the big-endian number of `nbytes` bytes, of the bit at row `start / 8`
/// (counted from the most significant byte) and column `start % 8`.
pub open spec fn be_msb_index(start: nat, nbytes: nat) -> int {
    (nbytes - 1 - start / 8) * 8 + start % 8
}

/// Index of the least significant bit of a big-endian signal whose most
/// significant bit is given by `start`.
pub open spec fn be_lsb_index(start: nat, nbytes: nat, len: nat) -> int {
    be_msb_index(start, nbytes) + 1 - len
}

/// Whether a signal of `len` bits at `start` lies inside `nbytes` bytes.
pub open spec fn fits(order: ByteOrder, start: nat, len: nat, nbytes: nat) -> bool {
    match order {
        ByteOrder::LittleEndian => start + len <= 8 * nbytes,
        ByteOrder::BigEndian => start / 8 < nbytes && be_lsb_index(start, nbytes, len) >= 0,
    }
}

/// The unsigned value of the signal's bits, right-aligned.
pub open spec fn raw_field(bytes: Seq<u8>, start: nat, len: nat, order: ByteOrder) -> nat {
    match order {
        ByteOrder::LittleEndian => bit_field(le_value(bytes), start, len),
        ByteOrder::BigEndian => bit_field(
            be_value(bytes),
            be_lsb_index(start, bytes.len(), len) as nat,
            len,
        ),
    }
}

/// `raw`, a number of `len` bits, read as two's complement.
pub open spec fn signed_of(raw: nat, len: nat) -> int {
    if len > 0 && raw >= pow2((len - 1) as nat) {
        raw - pow2(len)
    } else {
        raw as int
    }
}

/// `pow2(8)` is one byte's worth of values.
pub proof fn lemma_pow2_byte(n: nat)
    ensures
        pow2(8 * (n + 1)) == pow2(8 * n) * 256,
        pow2(8) == 256,
{
    lemma2_to64();
    lemma_pow2_adds(8 * n, 8);
    assert(8 * (n + 1) == 8 * n + 8);
}

/// A number of `n` bytes is below `2^(8n)`.
pub proof fn lemma_be_value_bound(b: Seq<u8>)
    ensures
        be_value(b) < pow2(8 * b.len()),
    decreases b.len(),
{
    if b.len() == 0 {
        lemma2_to64();
    } else {
        let d = b.drop_last();
        lemma_be_value_bound(d);
        lemma_pow2_byte(d.len());
        assert(be_value(d) * 256 + b.last() < pow2(8 * d.len()) * 256) by (nonlinear_arith)
            requires
                be_value(d) < pow2(8 * d.len()),
                b.last() < 256,
        ;
    }
}

/// A little-endian number of `n` bytes is below `2^(8n)`.
pub proof fn lemma_le_value_bound(b: Seq<u8>)
    ensures
        le_value(b) < pow2(8 * b.len()),
{
    lemma_be_value_bound(reversed(b));
}

} // verus!
