//! General properties of signal extraction, stated over the model that the
//! decoders' contracts use.
use vstd::prelude::*;
use vstd::arithmetic::power2::{pow2, lemma_pow2_adds, lemma_pow2_pos, lemma_pow2_unfold};
use vstd::arithmetic::div_mod::{lemma_fundamental_div_mod_converse, lemma_mod_breakdown};
use vstd::arithmetic::mul::lemma_mul_is_commutative;
use crate::model::{
    ByteOrder, ValueType, be_value, le_value, reversed, bit_field, be_lsb_index, fits, raw_field,
    signed_of, lemma_pow2_byte,
};
use crate::signal::{SignalDescriptor, RawValue, decode_spec, valid_bit_length};

verus! {

/// A payload of `n` bytes, each equal to `b`.
pub open spec fn filled(n: nat, b: u8) -> Seq<u8> {
    Seq::new(n, |i: int| b)
}

proof fn lemma_filled_values(n: nat)
    ensures
        be_value(filled(n, 0)) == 0,
        le_value(filled(n, 0)) == 0,
        be_value(filled(n, 0xFF)) == pow2(8 * n) - 1,
        le_value(filled(n, 0xFF)) == pow2(8 * n) - 1,
    decreases n,
{
    assert(reversed(filled(n, 0)) =~= filled(n, 0));
    assert(reversed(filled(n, 0xFF)) =~= filled(n, 0xFF));
    if n == 0 {
        lemma_pow2_byte(0);
        assert(pow2(0) == 1) by {
            vstd::arithmetic::power2::lemma2_to64();
        }
    } else {
        lemma_filled_values((n - 1) as nat);
        assert(filled(n, 0).drop_last() =~= filled((n - 1) as nat, 0));
        assert(filled(n, 0xFF).drop_last() =~= filled((n - 1) as nat, 0xFF));
        lemma_pow2_byte((n - 1) as nat);
    }
}

/// Every field of the number `2^m - 1` whose bits lie below bit `m` has all
/// its bits set.
proof fn lemma_field_of_ones(m: nat, lsb: nat, len: nat)
    requires
        lsb + len <= m,
    ensures
        bit_field((pow2(m) - 1) as nat, lsb, len) == pow2(len) - 1,
{
    let a = pow2(lsb) as int;
    let b = pow2(len) as int;
    let c = pow2((m - lsb - len) as nat) as int;
    lemma_pow2_pos(lsb);
    lemma_pow2_pos(len);
    lemma_pow2_pos((m - lsb - len) as nat);
    lemma_pow2_adds(lsb, len);
    lemma_pow2_adds(lsb + len, (m - lsb - len) as nat);
    assert(pow2(m) == a * b * c);
    assert(b * c >= 1) by (nonlinear_arith)
        requires
            b >= 1,
            c >= 1,
    ;
    assert(pow2(m) - 1 == a * (b * c - 1) + (a - 1)) by (nonlinear_arith)
        requires
            pow2(m) == a * b * c,
    ;
    lemma_fundamental_div_mod_converse(pow2(m) - 1, a, b * c - 1, a - 1);
    assert(b * c - 1 == b * (c - 1) + (b - 1)) by (nonlinear_arith);
    lemma_fundamental_div_mod_converse(b * c - 1, b, c - 1, b - 1);
}

/// The highest bit of a field that lies inside `n` bytes is below bit `8n`.
proof fn lemma_fits_below(order: ByteOrder, start: nat, len: nat, n: nat)
    requires
        fits(order, start, len, n),
    ensures
        order == ByteOrder::BigEndian ==> be_lsb_index(start, n, len) + len <= 8 * n,
{
}

/// Decoding a field of all-zero bits gives zero; decoding one of all-one
/// bits gives `2^len - 1` when unsigned and `-1` when signed. This holds for
/// every valid bit length, both byte orders and every position inside the
/// payload.
pub proof fn lemma_uniform_payloads(n: nat, s: SignalDescriptor)
    requires
        valid_bit_length(s.bit_length),
        fits(s.byte_order, s.start_bit as nat, s.bit_length as nat, n),
    ensures
        decode_spec(filled(n, 0), s) == Ok::<RawValue, crate::signal::DecodeError>(
            match s.value_type {
                ValueType::Unsigned => RawValue::Unsigned(0u64),
                ValueType::Signed => RawValue::Signed(0i64),
            },
        ),
        decode_spec(filled(n, 0xFF), s) == Ok::<RawValue, crate::signal::DecodeError>(
            match s.value_type {
                ValueType::Unsigned => RawValue::Unsigned((pow2(s.bit_length as nat) - 1) as u64),
                ValueType::Signed => RawValue::Signed(-1i64),
            },
        ),
{
    let len = s.bit_length as nat;
    let start = s.start_bit as nat;
    lemma_filled_values(n);
    lemma_fits_below(s.byte_order, start, len, n);
    let lsb: nat = match s.byte_order {
        ByteOrder::LittleEndian => start,
        ByteOrder::BigEndian => be_lsb_index(start, n, len) as nat,
    };
    lemma_pow2_pos(lsb);
    lemma_pow2_pos(len);
    assert(bit_field(0, lsb, len) == 0) by {
        vstd::arithmetic::div_mod::lemma_div_of0(pow2(lsb) as int);
        vstd::arithmetic::div_mod::lemma_small_mod(0, pow2(len));
    }
    lemma_field_of_ones(8 * n, lsb, len);
    assert(raw_field(filled(n, 0), start, len, s.byte_order) == 0);
    assert(raw_field(filled(n, 0xFF), start, len, s.byte_order) == pow2(len) - 1);
    lemma_pow2_unfold(len);
    assert(signed_of((pow2(len) - 1) as nat, len) == -1);
}

/// `v` with its `len` bits from bit `lsb` replaced by the low `len` bits of
/// `raw`.
pub open spec fn put_field(v: nat, lsb: nat, len: nat, raw: nat) -> nat {
    (v / pow2(lsb + len)) * pow2(lsb + len) + (raw % pow2(len)) * pow2(lsb) + v % pow2(lsb)
}

/// The `n` low bytes of `v`, most significant first.
pub open spec fn be_bytes(v: nat, n: nat) -> Seq<u8>
    decreases n,
{
    if n == 0 {
        Seq::empty()
    } else {
        be_bytes(v / 256, (n - 1) as nat).push((v % 256) as u8)
    }
}

/// The `n` low bytes of `v`, least significant first.
pub open spec fn le_bytes(v: nat, n: nat) -> Seq<u8> {
    reversed(be_bytes(v, n))
}

/// Payload `p` with the signal at `start` of `len` bits, in byte order
/// `order`, set to the low `len` bits of `raw`, every other bit kept.
pub open spec fn pack_field(p: Seq<u8>, start: nat, len: nat, order: ByteOrder, raw: nat) -> Seq<
    u8,
> {
    match order {
        ByteOrder::LittleEndian => le_bytes(put_field(le_value(p), start, len, raw), p.len()),
        ByteOrder::BigEndian => be_bytes(
            put_field(be_value(p), be_lsb_index(start, p.len(), len) as nat, len, raw),
            p.len(),
        ),
    }
}

proof fn lemma_be_bytes_value(v: nat, n: nat)
    ensures
        be_bytes(v, n).len() == n,
        be_value(be_bytes(v, n)) == v % pow2(8 * n),
        le_value(le_bytes(v, n)) == v % pow2(8 * n),
    decreases n,
{
    let b = be_bytes(v, n);
    assert(reversed(reversed(b)) =~= b);
    lemma_pow2_byte((n - 1) as nat);
    if n == 0 {
        vstd::arithmetic::power2::lemma2_to64();
    } else {
        lemma_be_bytes_value(v / 256, (n - 1) as nat);
        assert(b.drop_last() =~= be_bytes(v / 256, (n - 1) as nat));
        lemma_pow2_pos(8 * (n - 1) as nat);
        lemma_mod_breakdown(v as int, 256, pow2(8 * (n - 1) as nat) as int);
        assert(8 * n == 8 * (n - 1) as nat + 8);
        lemma_mul_is_commutative(256, pow2(8 * (n - 1) as nat) as int);
    }
}

/// Placing the bits and taking them out again gives them back; when `v` has
/// `m` bits and the field lies below bit `m`, so does the result.
proof fn lemma_put_field(v: nat, lsb: nat, len: nat, raw: nat, m: nat)
    requires
        lsb + len <= m,
        v < pow2(m),
    ensures
        bit_field(put_field(v, lsb, len, raw), lsb, len) == raw % pow2(len),
        put_field(v, lsb, len, raw) < pow2(m),
{
    let a = pow2(lsb) as int;
    let b = pow2(len) as int;
    let c = pow2((m - lsb - len) as nat) as int;
    let p = pow2(lsb + len) as int;
    lemma_pow2_pos(lsb);
    lemma_pow2_pos(len);
    lemma_pow2_pos((m - lsb - len) as nat);
    lemma_pow2_adds(lsb, len);
    lemma_pow2_adds(lsb + len, (m - lsb - len) as nat);
    let hi = v as int / p;
    let mid = raw as int % b;
    let lo = v as int % a;
    assert(0 <= mid < b);
    assert(0 <= lo < a);
    assert(hi >= 0) by (nonlinear_arith)
        requires
            v >= 0,
            p > 0,
            hi == v as int / p,
    ;
    assert(put_field(v, lsb, len, raw) == a * (hi * b + mid) + lo) by (nonlinear_arith)
        requires
            p == a * b,
            put_field(v, lsb, len, raw) == hi * p + mid * a + lo,
    ;
    lemma_fundamental_div_mod_converse(put_field(v, lsb, len, raw) as int, a, hi * b + mid, lo);
    lemma_fundamental_div_mod_converse(hi * b + mid, b, hi, mid);
    assert(hi < c) by (nonlinear_arith)
        requires
            v < p * c,
            p > 0,
            hi == v as int / p,
            v >= 0,
    ;
    assert(a * (hi * b + mid) + lo < p * c) by (nonlinear_arith)
        requires
            p == a * b,
            hi < c,
            mid < b,
            lo < a,
            hi >= 0,
            mid >= 0,
            lo >= 0,
            a > 0,
    ;
}

/// A raw value written into a payload at a given position, width and byte
/// order is read back from the same position as that value reduced to the
/// width; the payload keeps its length.
pub proof fn lemma_round_trip(p: Seq<u8>, start: nat, len: nat, order: ByteOrder, raw: nat)
    requires
        1 <= len <= 64,
        fits(order, start, len, p.len()),
    ensures
        pack_field(p, start, len, order, raw).len() == p.len(),
        raw_field(pack_field(p, start, len, order, raw), start, len, order) == raw % pow2(len),
{
    let n = p.len();
    lemma_fits_below(order, start, len, n);
    match order {
        ByteOrder::LittleEndian => {
            crate::model::lemma_le_value_bound(p);
            lemma_put_field(le_value(p), start, len, raw, 8 * n);
            let w = put_field(le_value(p), start, len, raw);
            lemma_be_bytes_value(w, n);
            vstd::arithmetic::div_mod::lemma_small_mod(w, pow2(8 * n));
        },
        ByteOrder::BigEndian => {
            let lsb = be_lsb_index(start, n, len) as nat;
            crate::model::lemma_be_value_bound(p);
            lemma_put_field(be_value(p), lsb, len, raw, 8 * n);
            let w = put_field(be_value(p), lsb, len, raw);
            lemma_be_bytes_value(w, n);
            vstd::arithmetic::div_mod::lemma_small_mod(w, pow2(8 * n));
        },
    }
}

} // verus!
