//! Signal descriptors, decoded values and the decoding rule they obey.
use vstd::prelude::*;
use crate::model::{ByteOrder, ValueType, fits, raw_field, signed_of};

verus! {

/// Where a signal sits in a payload and how its bits are read.
///
/// Scale factor and offset are not held here: they apply to the integer
/// that decoding yields.
#[derive(Clone, Copy, Debug, PartialEq, Eq, Structural)]
pub struct SignalDescriptor {
    /// Intel numbering: index of the least significant bit. Motorola
    /// numbering: row `start_bit / 8` and column `start_bit % 8` (column 0 is
    /// the most significant bit of the byte) of the most significant bit.
    pub start_bit: u64,
    /// Width of the signal in bits, from 1 to 64.
    pub bit_length: u64,
    pub byte_order: ByteOrder,
    pub value_type: ValueType,
}

/// Why a signal could not be decoded from a payload.
#[derive(Clone, Copy, Debug, PartialEq, Eq, Structural)]
pub enum DecodeError {
    /// The bit length is 0 or above 64.
    UnsupportedBitLength,
    /// The signal's bits reach past the payload.
    OutOfBounds,
    /// A fixed-size frame holds fewer than eight bytes.
    FrameTooShort,
}

/// The integer a signal holds.
#[derive(Clone, Copy, Debug, PartialEq, Eq, Structural)]
pub enum RawValue {
    Unsigned(u64),
    Signed(i64),
}

impl RawValue {
    /// The value as a mathematical integer.
    pub open spec fn value(self) -> int {
        match self {
            RawValue::Unsigned(v) => v as int,
            RawValue::Signed(v) => v as int,
        }
    }
}

/// What a signal reads as once the one-bit rule is applied.
#[derive(Clone, Copy, Debug, PartialEq, Eq, Structural)]
pub enum Reading {
    /// The decoded integer, to be scaled by the signal's factor and offset.
    Value(RawValue),
    /// A one-bit signal: its physical value is the constant `1.0`, whatever
    /// the bit holds and whatever the scaling.
    ConstantOne,
}

/// Whether a bit length is one that decoding accepts.
pub open spec fn valid_bit_length(len: u64) -> bool {
    1 <= len <= 64
}

/// The result of decoding signal `s` from `bytes`.
pub open spec fn decode_spec(bytes: Seq<u8>, s: SignalDescriptor) -> Result<RawValue, DecodeError> {
    if !valid_bit_length(s.bit_length) {
        Err(DecodeError::UnsupportedBitLength)
    } else if !fits(s.byte_order, s.start_bit as nat, s.bit_length as nat, bytes.len()) {
        Err(DecodeError::OutOfBounds)
    } else {
        let raw = raw_field(bytes, s.start_bit as nat, s.bit_length as nat, s.byte_order);
        match s.value_type {
            ValueType::Unsigned => Ok(RawValue::Unsigned(raw as u64)),
            ValueType::Signed => Ok(RawValue::Signed(signed_of(raw, s.bit_length as nat) as i64)),
        }
    }
}

/// The result of reading signal `s` from `bytes`: as `decode_spec`, but a
/// one-bit signal that decodes reads as the constant one.
pub open spec fn reading_spec(bytes: Seq<u8>, s: SignalDescriptor) -> Result<Reading, DecodeError> {
    match decode_spec(bytes, s) {
        Ok(v) => if s.bit_length == 1 {
            Ok(Reading::ConstantOne)
        } else {
            Ok(Reading::Value(v))
        },
        Err(e) => Err(e),
    }
}

} // verus!
