//! Frame payloads and the extraction of signals from them.
use vstd::prelude::*;
use vstd::arithmetic::power2::{pow2, lemma_pow2_pos, lemma_pow2_adds, lemma_pow2_strictly_increases, lemma2_to64,
    lemma2_to64_rest};
use vstd::bits::{lemma_u64_shl_is_mul, lemma_u64_pow2_no_overflow, lemma_u64_shr_is_div,
    lemma_u64_low_bits_mask_is_mod, low_bits_mask};
use vstd::arithmetic::div_mod::lemma_small_mod;
use num::bigint::BigInt;
use crate::bignum::{big_value, big_from_bytes_be, big_from_u64, big_shr, big_and, big_to_u64};
use crate::model::{
    ByteOrder, ValueType, be_value, le_value, reversed, bit_field, be_msb_index,
    fits, lemma_be_value_bound, raw_field, signed_of,
};
use crate::signal::{SignalDescriptor, DecodeError, RawValue, Reading, decode_spec, reading_spec};

verus! {

/// `pow2(len) - 1`: the mask of the `len` low bits.
fn low_mask(len: u64) -> (r: u64)
    requires
        1 <= len <= 64,
    ensures
        r == pow2(len as nat) - 1,
{
    proof {
        lemma2_to64();
    }
    if len == 64 {
        u64::MAX
    } else {
        proof {
            lemma_u64_pow2_no_overflow(len as nat);
            lemma_u64_shl_is_mul(1, len);
        }
        (1u64 << len) - 1
    }
}

/// A payload of any length: classic frames have eight bytes, extended ones
/// up to sixty-four. Wide payloads are packed into an arbitrary-precision
/// integer before the signal's bits are taken out.
pub struct Payload {
    data: Vec<u8>,
}

impl View for Payload {
    type V = Seq<u8>;

    closed spec fn view(&self) -> Seq<u8> {
        self.data@
    }
}

impl Payload {
    pub fn new(data: Vec<u8>) -> (r: Self)
        ensures
            r@ == data@,
    {
        Payload { data: data }
    }

    /// Decodes signal `s`: its bits as an unsigned integer, read as two's
    /// complement where the signal is signed.
    pub fn decode_raw(&self, s: &SignalDescriptor) -> (r: Result<RawValue, DecodeError>)
        ensures
            r == decode_spec(self@, *s),
    {
        if s.bit_length < 1 || s.bit_length > 64 {
            return Err(DecodeError::UnsupportedBitLength);
        }
        let nbits: u128 = 8 * (self.data.len() as u128);
        let start = s.start_bit;
        let len = s.bit_length;
        match s.byte_order {
            ByteOrder::LittleEndian => {
                if start as u128 + len as u128 > nbits {
                    return Err(DecodeError::OutOfBounds);
                }
                match s.value_type {
                    ValueType::Unsigned => Ok(
                        RawValue::Unsigned(self.unsigned_bits_little_endian(start, len)),
                    ),
                    ValueType::Signed => Ok(
                        RawValue::Signed(self.signed_bits_little_endian(start, len)),
                    ),
                }
            },
            ByteOrder::BigEndian => {
                if start / 8 >= self.data.len() as u64 {
                    return Err(DecodeError::OutOfBounds);
                }
                if self.invert_endian(start) + 1 < len as u128 {
                    return Err(DecodeError::OutOfBounds);
                }
                match s.value_type {
                    ValueType::Unsigned => Ok(
                        RawValue::Unsigned(self.unsigned_bits_big_endian(start, len)),
                    ),
                    ValueType::Signed => Ok(
                        RawValue::Signed(self.signed_bits_big_endian(start, len)),
                    ),
                }
            },
        }
    }

    /// Reads signal `s`: as `decode_raw`, except that a one-bit signal reads
    /// as the constant one.
    pub fn decode_reading(&self, s: &SignalDescriptor) -> (r: Result<Reading, DecodeError>)
        ensures
            r == reading_spec(self@, *s),
    {
        match self.decode_raw(s) {
            Ok(v) => if s.bit_length == 1 {
                Ok(Reading::ConstantOne)
            } else {
                Ok(Reading::Value(v))
            },
            Err(e) => Err(e),
        }
    }

    fn signed_bits_big_endian(&self, start: u64, len: u64) -> (r: i64)
        requires
            1 <= len <= 64,
            fits(ByteOrder::BigEndian, start as nat, len as nat, self@.len()),
        ensures
            r == signed_of(raw_field(self@, start as nat, len as nat, ByteOrder::BigEndian), len as nat),
    {
        let unsigned = self.unsigned_bits_big_endian(start, len);
        Self::as_signed(unsigned, len as u16)
    }

    fn unsigned_bits_big_endian(&self, start: u64, len: u64) -> (r: u64)
        requires
            1 <= len <= 64,
            fits(ByteOrder::BigEndian, start as nat, len as nat, self@.len()),
        ensures
            r == raw_field(self@, start as nat, len as nat, ByteOrder::BigEndian),
            r < pow2(len as nat),
    {
        let packed = self.pack_big_endian();
        let msb_index = self.invert_endian(start);
        let lsb_index = msb_index + 1 - len as u128;
        Self::extract(&packed, lsb_index, len)
    }

    fn signed_bits_little_endian(&self, start: u64, len: u64) -> (r: i64)
        requires
            1 <= len <= 64,
            fits(ByteOrder::LittleEndian, start as nat, len as nat, self@.len()),
        ensures
            r == signed_of(raw_field(self@, start as nat, len as nat, ByteOrder::LittleEndian), len as nat),
    {
        let unsigned = self.unsigned_bits_little_endian(start, len);
        Self::as_signed(unsigned, len as u16)
    }

    fn unsigned_bits_little_endian(&self, start: u64, len: u64) -> (r: u64)
        requires
            1 <= len <= 64,
            fits(ByteOrder::LittleEndian, start as nat, len as nat, self@.len()),
        ensures
            r == raw_field(self@, start as nat, len as nat, ByteOrder::LittleEndian),
            r < pow2(len as nat),
    {
        let packed = self.pack_little_endian();
        Self::extract(&packed, start as u128, len)
    }

    /// The `len` bits of `packed` that start at bit `lsb`.
    fn extract(packed: &BigInt, lsb: u128, len: u64) -> (r: u64)
        requires
            1 <= len <= 64,
            big_value(*packed) >= 0,
        ensures
            r == bit_field(big_value(*packed) as nat, lsb as nat, len as nat),
            r < pow2(len as nat),
    {
        proof {
            lemma_pow2_pos(lsb as nat);
            lemma_pow2_pos(len as nat);
            lemma2_to64();
            if len < 64 {
                lemma_pow2_strictly_increases(len as nat, 64);
            }
        }
        let shifted = big_shr(packed, lsb);
        let mask = big_from_u64(low_mask(len));
        let masked = big_and(&shifted, &mask);
        assert(big_value(masked) == big_value(shifted) % (pow2(len as nat) as int));
        big_to_u64(&masked).unwrap()
    }

    fn pack_big_endian(&self) -> (r: BigInt)
        ensures
            big_value(r) == be_value(self@),
    {
        big_from_bytes_be(self.data.as_slice())
    }

    fn pack_little_endian(&self) -> (r: BigInt)
        ensures
            big_value(r) == le_value(self@),
    {
        let reversed_bytes = self.reverse();
        big_from_bytes_be(reversed_bytes.as_slice())
    }

    /// Motorola numbering: the index, from the least significant bit of the
    /// big-endian packed payload, of the bit at row `i / 8`, column `i % 8`.
    fn invert_endian(&self, i: u64) -> (r: u128)
        requires
            i / 8 < self@.len(),
        ensures
            r == be_msb_index(i as nat, self@.len()),
            r < 8 * self@.len(),
            r < 8 * (usize::MAX as int),
    {
        let row = (i / 8) as u128;
        let col = (i % 8) as u128;
        let opposite_row = self.data.len() as u128 - row - 1;
        assert(opposite_row * 8 + col < 8 * (self.data.len() as u128)) by (nonlinear_arith)
            requires
                opposite_row < self.data.len(),
                col < 8,
        ;
        opposite_row * 8 + col
    }

    /// The payload's bytes in the opposite order.
    fn reverse(&self) -> (r: Vec<u8>)
        ensures
            r@ == reversed(self@),
    {
        let n = self.data.len();
        let mut reversed_vec: Vec<u8> = Vec::with_capacity(n);
        let mut i: usize = 0;
        while i < n
            invariant
                n == self@.len(),
                i <= n,
                reversed_vec@ == reversed(self@).subrange(0, i as int),
            decreases n - i,
        {
            reversed_vec.push(self.data[n - 1 - i]);
            i += 1;
            assert(reversed_vec@ =~= reversed(self@).subrange(0, i as int));
        }
        assert(reversed_vec@ =~= reversed(self@));
        reversed_vec
    }

    /// `unsigned`, a number of `bits` bits, read as two's complement: below
    /// the sign bit it is the value itself, from the sign bit on the value
    /// less `2^bits` (for 8, 16, 32 and 64 bits, what the native signed type
    /// of that width makes of the same bit pattern).
    pub fn as_signed(unsigned: u64, bits: u16) -> (r: i64)
        requires
            1 <= bits <= 64,
            unsigned < pow2(bits as nat),
        ensures
            r == signed_of(unsigned as nat, bits as nat),
    {
        proof {
            lemma2_to64();
            lemma2_to64_rest();
        }
        if bits == 64 {
            if unsigned < 0x8000_0000_0000_0000 {
                unsigned as i64
            } else {
                proof {
                    lemma_not_is_complement(unsigned);
                }
                let complement = !unsigned;
                -(complement as i64) - 1
            }
        } else {
            let n = bits as u64;
            proof {
                lemma_u64_pow2_no_overflow(n as nat);
                lemma_u64_pow2_no_overflow((n - 1) as nat);
                lemma_u64_shl_is_mul(1, n);
                lemma_u64_shl_is_mul(1, (n - 1) as u64);
                lemma_pow2_adds((n - 1) as nat, 1);
                lemma_sign_bit(unsigned, n);
            }
            let sign_bit: u64 = 1u64 << (n - 1);
            if unsigned & sign_bit == 0 {
                unsigned as i64
            } else {
                let value = ((!unsigned) & (sign_bit - 1)) + 1;
                -(value as i64)
            }
        }
    }
}

/// A classic frame: eight bytes, packed into a `u64`. Bytes past the eighth
/// are not part of the frame.
pub struct CanData {
    data: Vec<u8>,
}

impl View for CanData {
    type V = Seq<u8>;

    closed spec fn view(&self) -> Seq<u8> {
        self.data@
    }
}

/// The bytes of a classic frame that holds `b`: its first eight.
pub open spec fn frame_of(b: Seq<u8>) -> Seq<u8> {
    b.subrange(0, 8)
}

/// The result of decoding signal `s` from the classic frame that holds `b`.
pub open spec fn frame_decode_spec(b: Seq<u8>, s: SignalDescriptor) -> Result<RawValue, DecodeError> {
    if b.len() < 8 {
        Err(DecodeError::FrameTooShort)
    } else {
        decode_spec(frame_of(b), s)
    }
}

/// The result of reading signal `s` from the classic frame that holds `b`.
pub open spec fn frame_reading_spec(b: Seq<u8>, s: SignalDescriptor) -> Result<Reading, DecodeError> {
    if b.len() < 8 {
        Err(DecodeError::FrameTooShort)
    } else {
        reading_spec(frame_of(b), s)
    }
}

impl CanData {
    pub fn new(data: Vec<u8>) -> (r: Self)
        ensures
            r@ == data@,
    {
        CanData { data: data }
    }

    /// Decodes signal `s` from the frame, as `Payload::decode_raw` does from
    /// the frame's eight bytes.
    pub fn decode_raw(&self, s: &SignalDescriptor) -> (r: Result<RawValue, DecodeError>)
        ensures
            r == frame_decode_spec(self@, *s),
    {
        if self.data.len() < 8 {
            return Err(DecodeError::FrameTooShort);
        }
        if s.bit_length < 1 || s.bit_length > 64 {
            return Err(DecodeError::UnsupportedBitLength);
        }
        let start = s.start_bit;
        let len = s.bit_length;
        match s.byte_order {
            ByteOrder::LittleEndian => {
                if start > 64 - len {
                    return Err(DecodeError::OutOfBounds);
                }
                match s.value_type {
                    ValueType::Unsigned => Ok(
                        RawValue::Unsigned(self.unsigned_bits_little_endian(start as u8, len as u8)),
                    ),
                    ValueType::Signed => Ok(
                        RawValue::Signed(self.signed_bits_little_endian(start as u8, len as u8)),
                    ),
                }
            },
            ByteOrder::BigEndian => {
                if start >= 64 {
                    return Err(DecodeError::OutOfBounds);
                }
                if (Self::invert_endian(start as u8) as u64) + 1 < len {
                    return Err(DecodeError::OutOfBounds);
                }
                match s.value_type {
                    ValueType::Unsigned => Ok(
                        RawValue::Unsigned(self.unsigned_bits_big_endian(start as u8, len as u8)),
                    ),
                    ValueType::Signed => Ok(
                        RawValue::Signed(self.signed_bits_big_endian(start as u8, len as u8)),
                    ),
                }
            },
        }
    }

    /// Reads signal `s` from the frame: as `decode_raw`, except that a
    /// one-bit signal reads as the constant one.
    pub fn decode_reading(&self, s: &SignalDescriptor) -> (r: Result<Reading, DecodeError>)
        ensures
            r == frame_reading_spec(self@, *s),
    {
        match self.decode_raw(s) {
            Ok(v) => if s.bit_length == 1 {
                Ok(Reading::ConstantOne)
            } else {
                Ok(Reading::Value(v))
            },
            Err(e) => Err(e),
        }
    }

    fn unsigned_bits_little_endian(&self, start: u8, len: u8) -> (r: u64)
        requires
            self@.len() >= 8,
            1 <= len <= 64,
            start + len <= 64,
        ensures
            r == raw_field(frame_of(self@), start as nat, len as nat, ByteOrder::LittleEndian),
            r < pow2(len as nat),
    {
        let packed = self.pack_little_endian();
        Self::extract(packed, start, len)
    }

    fn unsigned_bits_big_endian(&self, start: u8, len: u8) -> (r: u64)
        requires
            self@.len() >= 8,
            1 <= len <= 64,
            start < 64,
            be_msb_index(start as nat, 8) + 1 >= len,
        ensures
            r == raw_field(frame_of(self@), start as nat, len as nat, ByteOrder::BigEndian),
            r < pow2(len as nat),
    {
        let packed = self.pack_big_endian();
        let msb_index = Self::invert_endian(start);
        let lsb_index = msb_index + 1 - len;
        Self::extract(packed, lsb_index, len)
    }

    fn signed_bits_little_endian(&self, start: u8, len: u8) -> (r: i64)
        requires
            self@.len() >= 8,
            1 <= len <= 64,
            start + len <= 64,
        ensures
            r == signed_of(
                raw_field(frame_of(self@), start as nat, len as nat, ByteOrder::LittleEndian),
                len as nat,
            ),
    {
        let unsigned = self.unsigned_bits_little_endian(start, len);
        Payload::as_signed(unsigned, len as u16)
    }

    fn signed_bits_big_endian(&self, start: u8, len: u8) -> (r: i64)
        requires
            self@.len() >= 8,
            1 <= len <= 64,
            start < 64,
            be_msb_index(start as nat, 8) + 1 >= len,
        ensures
            r == signed_of(
                raw_field(frame_of(self@), start as nat, len as nat, ByteOrder::BigEndian),
                len as nat,
            ),
    {
        let unsigned = self.unsigned_bits_big_endian(start, len);
        Payload::as_signed(unsigned, len as u16)
    }

    /// The `len` bits of `packed` that start at bit `lsb`.
    fn extract(packed: u64, lsb: u8, len: u8) -> (r: u64)
        requires
            1 <= len <= 64,
            lsb + len <= 64,
        ensures
            r == bit_field(packed as nat, lsb as nat, len as nat),
            r < pow2(len as nat),
    {
        proof {
            lemma_u64_shr_is_div(packed, lsb as u64);
            lemma_pow2_pos(lsb as nat);
            lemma_pow2_pos(len as nat);
            lemma2_to64();
        }
        let shifted = packed >> lsb;
        let mask = low_mask(len as u64);
        proof {
            if len < 64 {
                lemma_u64_low_bits_mask_is_mod(shifted, len as nat);
                assert(low_bits_mask(len as nat) == mask);
                lemma_u64_pow2_no_overflow(len as nat);
            } else {
                assert(shifted & 0xFFFF_FFFF_FFFF_FFFFu64 == shifted) by (bit_vector);
                lemma_small_mod(shifted as nat, pow2(64));
            }
        }
        shifted & mask
    }

    /// The frame's bytes as one number, byte 0 least significant.
    fn pack_little_endian(&self) -> (r: u64)
        requires
            self@.len() >= 8,
        ensures
            r == le_value(frame_of(self@)),
    {
        let ghost rev = reversed(frame_of(self@));
        let mut packed: u64 = 0;
        let mut k: usize = 0;
        while k < 8
            invariant
                self@.len() >= 8,
                k <= 8,
                rev == reversed(frame_of(self@)),
                packed == be_value(rev.subrange(0, k as int)),
            decreases 8 - k,
        {
            proof {
                assert(rev.subrange(0, k + 1).drop_last() =~= rev.subrange(0, k as int));
                lemma_be_value_bound(rev.subrange(0, k as int));
                if k < 7 {
                    lemma_pow2_strictly_increases(8 * k as nat, 56);
                }
                lemma2_to64_rest();
                assert(packed * 256 + 255 <= u64::MAX) by (nonlinear_arith)
                    requires
                        packed < 0x100_0000_0000_0000,
                ;
            }
            packed = packed * 256 + self.data[7 - k] as u64;
            k += 1;
        }
        assert(rev.subrange(0, 8) =~= rev);
        packed
    }

    /// The frame's bytes as one number, byte 0 most significant.
    fn pack_big_endian(&self) -> (r: u64)
        requires
            self@.len() >= 8,
        ensures
            r == be_value(frame_of(self@)),
    {
        let ghost frame = frame_of(self@);
        let mut packed: u64 = 0;
        let mut k: usize = 0;
        while k < 8
            invariant
                self@.len() >= 8,
                k <= 8,
                frame == frame_of(self@),
                packed == be_value(frame.subrange(0, k as int)),
            decreases 8 - k,
        {
            proof {
                assert(frame.subrange(0, k + 1).drop_last() =~= frame.subrange(0, k as int));
                lemma_be_value_bound(frame.subrange(0, k as int));
                if k < 7 {
                    lemma_pow2_strictly_increases(8 * k as nat, 56);
                }
                lemma2_to64_rest();
                assert(packed * 256 + 255 <= u64::MAX) by (nonlinear_arith)
                    requires
                        packed < 0x100_0000_0000_0000,
                ;
            }
            packed = packed * 256 + self.data[k] as u64;
            k += 1;
        }
        assert(frame.subrange(0, 8) =~= frame);
        packed
    }

    /// Motorola numbering in an eight-byte frame: the index, from the least
    /// significant bit of the big-endian packed frame, of the bit at row
    /// `i / 8`, column `i % 8`.
    fn invert_endian(i: u8) -> (r: u8)
        requires
            i < 64,
        ensures
            r == be_msb_index(i as nat, 8),
            r < 64,
    {
        let row = i / 8;
        let col = i % 8;
        let opposite_row = 7 - row;
        (opposite_row * 8) + col
    }
}

/// The complement of a 64-bit number with its top bit set.
proof fn lemma_not_is_complement(u: u64)
    requires
        u >= 0x8000_0000_0000_0000,
    ensures
        !u == (0xFFFF_FFFF_FFFF_FFFFu64 - u) as u64,
        !u < 0x8000_0000_0000_0000,
{
    assert(!u == (0xFFFF_FFFF_FFFF_FFFFu64 - u) as u64) by (bit_vector);
}

/// The sign bit of an `n`-bit number, and the magnitude of a negative one.
proof fn lemma_sign_bit(u: u64, n: u64)
    requires
        1 <= n < 64,
        u < (1u64 << n),
    ensures
        (u & (1u64 << (n - 1) as u64)) == 0 <==> u < (1u64 << (n - 1) as u64),
        (u & (1u64 << (n - 1) as u64)) != 0 ==> (((!u) & (((1u64 << (n - 1) as u64) - 1) as u64))
            + 1) as u64 == ((1u64 << n) - u) as u64,
        ((!u) & (((1u64 << (n - 1) as u64) - 1) as u64)) < (1u64 << (n - 1) as u64),
{
    assert(((!u) & (((1u64 << (n - 1) as u64) - 1) as u64)) < (1u64 << (n - 1) as u64))
        by (bit_vector)
        requires
            1 <= n < 64,
    ;
    assert((u & (1u64 << (n - 1) as u64)) == 0 <==> u < (1u64 << (n - 1) as u64)) by (bit_vector)
        requires
            1 <= n < 64,
            u < (1u64 << n),
    ;
    assert((u & (1u64 << (n - 1) as u64)) != 0 ==> (((!u) & (((1u64 << (n - 1) as u64) - 1) as u64))
        + 1) as u64 == ((1u64 << n) - u) as u64) by (bit_vector)
        requires
            1 <= n < 64,
            u < (1u64 << n),
    ;
}

} // verus!
