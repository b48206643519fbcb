//! Arbitrary-precision integers of the `num` crate, as the payload decoder
//! uses them. Each item states what the crate's implementation does on the
//! non-negative values that the decoder builds.
use vstd::prelude::*;
use vstd::arithmetic::power2::pow2;
use num::bigint::{BigInt, Sign};
use num::ToPrimitive;
use crate::model::be_value;

verus! {

#[verifier::external_type_specification]
#[verifier::external_body]
pub struct ExBigInt(BigInt);

/// The integer that a `BigInt` stands for.
pub uninterp spec fn big_value(b: BigInt) -> int;

/// Relies on `BigInt::from_bytes_be` with `Sign::Plus`: the bytes read as a
/// base-256 number, most significant byte first.
#[verifier::external_body]
pub(crate) fn big_from_bytes_be(bytes: &[u8]) -> (r: BigInt)
    ensures
        big_value(r) == be_value(bytes@),
{
    BigInt::from_bytes_be(Sign::Plus, bytes)
}

/// Relies on `BigInt::from::<u64>`: the same value.
#[verifier::external_body]
pub(crate) fn big_from_u64(v: u64) -> (r: BigInt)
    ensures
        big_value(r) == v,
{
    BigInt::from(v)
}

/// Relies on `Shr<u128> for &BigInt`: on a non-negative value, division by
/// `2^k` rounded down.
#[verifier::external_body]
pub(crate) fn big_shr(b: &BigInt, k: u128) -> (r: BigInt)
    requires
        big_value(*b) >= 0,
    ensures
        big_value(r) == big_value(*b) / (pow2(k as nat) as int),
{
    b >> k
}

/// Relies on `BitAnd<&BigInt> for &BigInt`: on non-negative values, the
/// bitwise and; with a mask of `n` low one bits that is the value modulo `2^n`.
#[verifier::external_body]
pub(crate) fn big_and(a: &BigInt, m: &BigInt) -> (r: BigInt)
    requires
        big_value(*a) >= 0,
        big_value(*m) >= 0,
    ensures
        forall|n: nat|
            big_value(*m) == pow2(n) - 1 ==> big_value(r) == big_value(*a) % (
            #[trigger] pow2(n) as int),
{
    a & m
}

/// Relies on `ToPrimitive::to_u64` for `BigInt`: `Some` exactly when the value
/// fits in a `u64`.
#[verifier::external_body]
pub(crate) fn big_to_u64(b: &BigInt) -> (r: Option<u64>)
    ensures
        r == (if 0 <= big_value(*b) <= u64::MAX {
            Some(big_value(*b) as u64)
        } else {
            None
        }),
{
    b.to_u64()
}

} // verus!
