//! The library's model of the 4-byte little-endian real-number encoding that
//! the file format stores energies, positions, direction cosines and weights
//! in.  Values travel through the library as their raw 32-bit patterns; this
//! module gives those patterns a meaning (a sign, an exponent, a whole-number
//! magnitude counted in units of the smallest encodable step) and proves the
//! bit-level operations of the library against that meaning.

use vstd::prelude::*;
use vstd::arithmetic::div_mod::{
    lemma_div_denominator, lemma_fundamental_div_mod, lemma_fundamental_div_mod_converse,
};
use vstd::arithmetic::mul::lemma_mul_inequality;
use vstd::arithmetic::power2::{
    lemma2_to64, lemma_pow2_adds, lemma_pow2_pos, lemma_pow2_strictly_increases, pow2,
};

use crate::wide::{from_shifted, wide_add, wide_lt, wide_sub, wide_val};

verus! {

/// The sign field of an encoding: 0 for non-negative values, 1 for negative.
pub open spec fn spec_sign(bits: u32) -> int {
    bits as int / 0x8000_0000
}

/// The biased exponent field of an encoding, between 0 and 255.
pub open spec fn spec_bexp(bits: u32) -> int {
    (bits as int / 0x0080_0000) % 0x100
}

/// The fraction field of an encoding, below 2^23.
pub open spec fn spec_frac(bits: u32) -> int {
    bits as int % 0x0080_0000
}

/// An encoding with the largest exponent and a non-zero fraction stands for
/// no number at all.
pub open spec fn is_nan(bits: u32) -> bool {
    spec_bexp(bits) == 255 && spec_frac(bits) != 0
}

/// Every encoding whose exponent field is below 255 stands for a finite
/// number.
pub open spec fn is_finite(bits: u32) -> bool {
    spec_bexp(bits) != 255
}

/// The magnitude that exponent field `e` and fraction field `f` encode,
/// counted in units of the smallest encodable step (2^-149).  With the
/// exponent field at its maximum this lies beyond every finite magnitude,
/// which orders the two infinities correctly relative to all numbers.
pub open spec fn field_mag(e: int, f: int) -> int {
    if e == 0 {
        f
    } else {
        (0x0080_0000 + f) * pow2((e - 1) as nat) as int
    }
}

/// The magnitude of an encoding, counted in units of 2^-149.
pub open spec fn mag(bits: u32) -> int {
    field_mag(spec_bexp(bits), spec_frac(bits))
}

/// The signed value of an encoding, counted in units of 2^-149.  Meaningful
/// for every encoding except the non-numbers: for finite bits it is exact,
/// and the infinities stand beyond every finite value.
pub open spec fn val(bits: u32) -> int {
    if spec_sign(bits) == 1 {
        -mag(bits)
    } else {
        mag(bits)
    }
}

/// An encoding of the number zero (either sign).
pub open spec fn is_zero_value(bits: u32) -> bool {
    spec_bexp(bits) == 0 && spec_frac(bits) == 0
}

/// How the three fields make up the whole word.
pub proof fn lemma_fields(bits: u32)
    ensures
        bits as int == spec_sign(bits) * 0x8000_0000 + spec_bexp(bits) * 0x0080_0000 + spec_frac(
            bits,
        ),
        bits as int % 0x8000_0000 == spec_bexp(bits) * 0x0080_0000 + spec_frac(bits),
        0 <= spec_sign(bits) <= 1,
        0 <= spec_bexp(bits) < 0x100,
        0 <= spec_frac(bits) < 0x0080_0000,
{
    let b = bits as int;
    lemma_fundamental_div_mod(b, 0x0080_0000);
    let q = b / 0x0080_0000;
    let f = b % 0x0080_0000;
    assert(q < 0x200) by {
        if q >= 0x200 {
            lemma_mul_inequality(0x200, q, 0x0080_0000);
        }
    };
    assert(q >= 0) by {
        if q < 0 {
            lemma_mul_inequality(q, -1, 0x0080_0000);
        }
    };
    lemma_fundamental_div_mod(q, 0x100);
    let s = q / 0x100;
    let e = q % 0x100;
    lemma_div_denominator(b, 0x0080_0000, 0x100);
    assert(s == b / 0x8000_0000);
    assert(0 <= s <= 1);
    assert((s * 0x100 + e) * 0x0080_0000 == s * 0x8000_0000 + e * 0x0080_0000) by (nonlinear_arith);
    assert(b == s * 0x8000_0000 + e * 0x0080_0000 + f);
    lemma_fundamental_div_mod_converse(b, 0x8000_0000, s, e * 0x0080_0000 + f);
}

/// Putting three fields in range back together selects exactly those fields.
pub proof fn lemma_recompose(s: int, e: int, f: int)
    requires
        0 <= s <= 1,
        0 <= e < 0x100,
        0 <= f < 0x0080_0000,
    ensures
        ({
            let b = s * 0x8000_0000 + e * 0x0080_0000 + f;
            &&& 0 <= b < 0x1_0000_0000
            &&& spec_sign(b as u32) == s
            &&& spec_bexp(b as u32) == e
            &&& spec_frac(b as u32) == f
        }),
{
    let b = s * 0x8000_0000 + e * 0x0080_0000 + f;
    assert((s * 0x100 + e) * 0x0080_0000 == s * 0x8000_0000 + e * 0x0080_0000) by (nonlinear_arith);
    assert(b == (s * 0x100 + e) * 0x0080_0000 + f);
    lemma_fundamental_div_mod_converse(b, 0x0080_0000, s * 0x100 + e, f);
    lemma_fundamental_div_mod_converse(s * 0x100 + e, 0x100, s, e);
    lemma_div_denominator(b, 0x0080_0000, 0x100);
}

/// Bounds on the magnitude that a pair of fields encodes.
pub proof fn lemma_field_mag_bounds(e: int, f: int)
    requires
        0 <= e < 0x100,
        0 <= f < 0x0080_0000,
    ensures
        0 <= field_mag(e, f),
        e == 0 ==> field_mag(e, f) < pow2(23) as int,
        e >= 1 ==> pow2((e + 22) as nat) as int <= field_mag(e, f) < pow2((e + 23) as nat) as int,
{
    lemma2_to64();
    if e >= 1 {
        let p = pow2((e - 1) as nat) as int;
        let m = 0x0080_0000 + f;
        lemma_pow2_pos((e - 1) as nat);
        lemma_pow2_adds(23, (e - 1) as nat);
        lemma_pow2_adds(24, (e - 1) as nat);
        assert(pow2((e + 22) as nat) == pow2(23) * pow2((e - 1) as nat));
        assert(pow2((e + 23) as nat) == pow2(24) * pow2((e - 1) as nat));
        lemma_mul_inequality(0x0080_0000, m, p);
        lemma_mul_inequality(m + 1, 0x0100_0000, p);
        assert((m + 1) * p == m * p + p) by (nonlinear_arith);
        assert(pow2(23) as int * p == 0x0080_0000 * p);
        assert(pow2(24) as int * p == 0x0100_0000 * p);
    }
}

/// A larger exponent-and-fraction pair encodes a magnitude at least as
/// large.
proof fn lemma_field_mag_mono(e1: int, f1: int, e2: int, f2: int)
    requires
        0 <= e1 < 0x100,
        0 <= f1 < 0x0080_0000,
        0 <= e2 < 0x100,
        0 <= f2 < 0x0080_0000,
        e1 < e2 || (e1 == e2 && f1 <= f2),
    ensures
        field_mag(e1, f1) <= field_mag(e2, f2),
{
    lemma_field_mag_bounds(e1, f1);
    lemma_field_mag_bounds(e2, f2);
    lemma2_to64();
    if e1 == e2 {
        if e1 >= 1 {
            lemma_pow2_pos((e1 - 1) as nat);
            lemma_mul_inequality(0x0080_0000 + f1, 0x0080_0000 + f2, pow2((e1 - 1) as nat) as int);
        }
    } else {
        // e1 < e2, so the whole magnitude range of exponent e1 lies below the
        // range of exponent e2.
        if e1 == 0 {
            if 23 < e2 + 22 {
                lemma_pow2_strictly_increases(23, (e2 + 22) as nat);
            }
        } else {
            if e1 + 23 < e2 + 22 {
                lemma_pow2_strictly_increases((e1 + 23) as nat, (e2 + 22) as nat);
            }
        }
    }
}

/// The unsigned key that orders encodings by value: flipping the sign bit of
/// a non-negative pattern, and all bits of a negative one, turns value order
/// into plain integer order on the keys.
pub open spec fn spec_key(bits: u32) -> int {
    if spec_sign(bits) == 1 {
        0xFFFF_FFFF - bits as int
    } else {
        bits as int + 0x8000_0000
    }
}

/// The ordering key of an encoding.
pub fn order_key(bits: u32) -> (r: u32)
    ensures
        r as int == spec_key(bits),
{
    proof {
        lemma_fields(bits);
    }
    if bits >= 0x8000_0000 {
        0xFFFF_FFFFu32 - bits
    } else {
        bits + 0x8000_0000
    }
}

/// Key order agrees with value order on every pair of encodings that stand
/// for something (finite values and the two infinities alike).
pub proof fn lemma_key_orders(a: u32, b: u32)
    requires
        !is_nan(a),
        !is_nan(b),
        spec_key(a) <= spec_key(b),
    ensures
        val(a) <= val(b),
{
    lemma_fields(a);
    lemma_fields(b);
    lemma_field_mag_bounds(spec_bexp(a), spec_frac(a));
    lemma_field_mag_bounds(spec_bexp(b), spec_frac(b));
    if spec_sign(a) == 1 && spec_sign(b) == 0 {
        // a is non-positive and b non-negative; nothing more is needed
    } else if spec_sign(a) == 0 && spec_sign(b) == 1 {
        // impossible: every non-negative key lies above every negative one
        assert(false);
    } else if spec_sign(a) == 0 {
        // both non-negative: key order is bit order, which is field order
        assert(a <= b);
        lemma_field_mag_mono(spec_bexp(a), spec_frac(a), spec_bexp(b), spec_frac(b));
    } else {
        // both negative: key order reverses bit order, and the sign turns
        // the magnitude order around once more
        assert(b <= a);
        lemma_field_mag_mono(spec_bexp(b), spec_frac(b), spec_bexp(a), spec_frac(a));
    }
}

/// Whether the encoding stands for no number.
pub fn is_nan_bits(bits: u32) -> (r: bool)
    ensures
        r == is_nan(bits),
{
    (bits / 0x0080_0000) % 0x100 == 255 && bits % 0x0080_0000 != 0
}

/// Whether the encoding stands for a finite number.
pub fn is_finite_bits(bits: u32) -> (r: bool)
    ensures
        r == is_finite(bits),
{
    (bits / 0x0080_0000) % 0x100 != 255
}

/// The same encoding with its sign cleared: the magnitude of the value.
pub fn magnitude_bits(bits: u32) -> (r: u32)
    ensures
        r == magnitude_pattern(bits),
        spec_sign(r) == 0,
        spec_bexp(r) == spec_bexp(bits),
        spec_frac(r) == spec_frac(bits),
        val(r) == mag(bits),
        is_nan(r) == is_nan(bits),
{
    proof {
        lemma_fields(bits);
        lemma_recompose(0, spec_bexp(bits), spec_frac(bits));
    }
    bits % 0x8000_0000
}

/// Whether the sign bit of the stored word is set (true also for a negative
/// zero or a negative non-number, as the raw sign test is).
pub fn sign_bit_set(bits: u32) -> (r: bool)
    ensures
        r == (spec_sign(bits) == 1),
{
    proof {
        lemma_fields(bits);
    }
    bits >= 0x8000_0000
}

/// The encoding that carries the magnitude of `from` and the sign of the
/// product of both arguments' signs: the bit form of transferring a stored
/// direction flag onto a fresh magnitude.
pub fn with_sign_product(from: u32, sign_source: u32) -> (r: u32)
    ensures
        spec_bexp(r) == spec_bexp(from),
        spec_frac(r) == spec_frac(from),
        mag(r) == mag(from),
        spec_sign(r) == (if spec_sign(from) == spec_sign(sign_source) {
            0int
        } else {
            1int
        }),
{
    proof {
        lemma_fields(from);
        lemma_fields(sign_source);
        lemma_recompose(
            if spec_sign(from) == spec_sign(sign_source) {
                0
            } else {
                1
            },
            spec_bexp(from),
            spec_frac(from),
        );
    }
    let fm = from % 0x8000_0000;
    if (from >= 0x8000_0000) == (sign_source >= 0x8000_0000) {
        fm
    } else {
        fm + 0x8000_0000
    }
}

/// The encoding that `min_bits` picks: a non-number loses to the other
/// side, and otherwise the lower value wins.
pub open spec fn spec_min_bits(a: u32, b: u32) -> u32 {
    if is_nan(a) {
        b
    } else if is_nan(b) {
        a
    } else if spec_key(a) <= spec_key(b) {
        a
    } else {
        b
    }
}

/// The encoding that `max_bits` picks: a non-number loses to the other
/// side, and otherwise the higher value wins.
pub open spec fn spec_max_bits(a: u32, b: u32) -> u32 {
    if is_nan(a) {
        b
    } else if is_nan(b) {
        a
    } else if spec_key(a) >= spec_key(b) {
        a
    } else {
        b
    }
}

/// The choice of `spec_min_bits` really is the smaller value.
pub proof fn lemma_min_bits(a: u32, b: u32)
    requires
        !is_nan(a),
        !is_nan(b),
    ensures
        val(spec_min_bits(a, b)) <= val(a),
        val(spec_min_bits(a, b)) <= val(b),
{
    if spec_key(a) <= spec_key(b) {
        lemma_key_orders(a, b);
    } else {
        lemma_key_orders(b, a);
    }
}

/// The choice of `spec_max_bits` really is the larger value.
pub proof fn lemma_max_bits(a: u32, b: u32)
    requires
        !is_nan(a),
        !is_nan(b),
    ensures
        val(spec_max_bits(a, b)) >= val(a),
        val(spec_max_bits(a, b)) >= val(b),
{
    if spec_key(a) >= spec_key(b) {
        lemma_key_orders(b, a);
    } else {
        lemma_key_orders(a, b);
    }
}

/// The smaller of two encoded values: a non-number loses to the other side,
/// and otherwise the value decides.
pub fn min_bits(a: u32, b: u32) -> (r: u32)
    ensures
        r == spec_min_bits(a, b),
        r == a || r == b,
        is_nan(a) ==> r == b,
        is_nan(b) && !is_nan(a) ==> r == a,
        !is_nan(a) && !is_nan(b) ==> val(r) <= val(a) && val(r) <= val(b),
{
    if is_nan_bits(a) {
        b
    } else if is_nan_bits(b) {
        a
    } else if order_key(a) <= order_key(b) {
        proof {
            lemma_key_orders(a, b);
        }
        a
    } else {
        proof {
            lemma_key_orders(b, a);
        }
        b
    }
}

/// The larger of two encoded values: a non-number loses to the other side,
/// and otherwise the value decides.
pub fn max_bits(a: u32, b: u32) -> (r: u32)
    ensures
        r == spec_max_bits(a, b),
        r == a || r == b,
        is_nan(a) ==> r == b,
        is_nan(b) && !is_nan(a) ==> r == a,
        !is_nan(a) && !is_nan(b) ==> val(r) >= val(a) && val(r) >= val(b),
{
    if is_nan_bits(a) {
        b
    } else if is_nan_bits(b) {
        a
    } else if order_key(a) >= order_key(b) {
        proof {
            lemma_key_orders(b, a);
        }
        a
    } else {
        proof {
            lemma_key_orders(a, b);
        }
        b
    }
}

/// The same word with the sign bit cleared.
pub open spec fn magnitude_pattern(bits: u32) -> u32 {
    (bits as int % 0x8000_0000) as u32
}

/// Clearing the sign bit keeps the exponent and fraction fields and makes
/// the encoding non-negative.
pub proof fn lemma_magnitude_pattern(bits: u32)
    ensures
        spec_sign(magnitude_pattern(bits)) == 0,
        spec_bexp(magnitude_pattern(bits)) == spec_bexp(bits),
        spec_frac(magnitude_pattern(bits)) == spec_frac(bits),
        val(magnitude_pattern(bits)) == mag(bits),
        is_nan(magnitude_pattern(bits)) == is_nan(bits),
        is_finite(magnitude_pattern(bits)) == is_finite(bits),
{
    lemma_fields(bits);
    lemma_recompose(0, spec_bexp(bits), spec_frac(bits));
}

/// The magnitude of a finite encoding, split into a mantissa and a unit
/// exponent: `mag(bits) == mantissa * 2^exponent`.
fn mantissa_exponent(bits: u32) -> (r: (u64, u16))
    requires
        is_finite(bits),
    ensures
        mag(bits) == r.0 * pow2(r.1 as nat),
        r.0 < 0x1_0000_0000,
        r.1 <= 253,
{
    proof {
        lemma_fields(bits);
        lemma2_to64();
    }
    let e = (bits / 0x0080_0000) % 0x100;
    let f = bits % 0x0080_0000;
    if e == 0 {
        proof {
            vstd::arithmetic::mul::lemma_mul_basics(f as int);
        }
        (f as u64, 0)
    } else {
        proof {
            assert(pow2(((e - 1) as u16) as nat) == pow2((spec_bexp(bits) - 1) as nat));
        }
        ((f + 0x0080_0000) as u64, (e - 1) as u16)
    }
}

/// Two encodings are both finite numbers and their values differ by less
/// than the (positive, finite) tolerance value — an exact statement about
/// the encoded real numbers, with no rounding anywhere.
pub open spec fn within_tolerance(a: u32, b: u32, t: u32) -> bool {
    &&& is_finite(a)
    &&& is_finite(b)
    &&& val(a) - val(b) < val(t)
    &&& val(b) - val(a) < val(t)
}

/// Decide `within_tolerance` exactly: the two magnitudes are laid out in
/// wide limbs, subtracted or added depending on the signs, and the result
/// is compared against the tolerance's magnitude, all in integers.
pub fn diff_within(a: u32, b: u32, t: u32) -> (r: bool)
    requires
        is_finite(t),
        spec_sign(t) == 0,
    ensures
        r == within_tolerance(a, b, t),
{
    if !is_finite_bits(a) || !is_finite_bits(b) {
        return false;
    }
    proof {
        lemma_fields(a);
        lemma_fields(b);
        lemma_field_mag_bounds(spec_bexp(a), spec_frac(a));
        lemma_field_mag_bounds(spec_bexp(b), spec_frac(b));
    }
    let (ma, ea) = mantissa_exponent(a);
    let (mb, eb) = mantissa_exponent(b);
    let (mt, et) = mantissa_exponent(t);
    let wa = from_shifted(ma, ea);
    let wb = from_shifted(mb, eb);
    let wt = from_shifted(mt, et);
    let d = if sign_bit_set(a) == sign_bit_set(b) {
        if wide_lt(&wa, &wb) {
            wide_sub(&wb, &wa)
        } else {
            wide_sub(&wa, &wb)
        }
    } else {
        wide_add(&wa, &wb)
    };
    proof {
        assert(wide_val(d) == if val(a) >= val(b) {
            val(a) - val(b)
        } else {
            val(b) - val(a)
        });
    }
    wide_lt(&d, &wt)
}
/// carry the same sign and their ordering keys differ by at most `tol`, or
/// the signs differ and both encode zero.  This is the documented behaviour
/// of the approximate-equality comparison that the surrounding tooling
/// family uses: differing signs never agree, except that the two zeros do.
pub open spec fn ulps_eq_spec(a: u32, b: u32, tol: int) -> bool {
    if spec_sign(a) == spec_sign(b) {
        -tol <= spec_key(a) - spec_key(b) <= tol
    } else {
        is_zero_value(a) && is_zero_value(b)
    }
}

/// Whether two encodings agree to within `tol` representable steps.
pub fn ulps_eq(a: u32, b: u32, tol: u32) -> (r: bool)
    ensures
        r == ulps_eq_spec(a, b, tol as int),
{
    proof {
        lemma_fields(a);
        lemma_fields(b);
    }
    if (a >= 0x8000_0000) != (b >= 0x8000_0000) {
        a % 0x8000_0000 == 0 && b % 0x8000_0000 == 0
    } else {
        let ka = order_key(a);
        let kb = order_key(b);
        let diff = if ka >= kb {
            ka - kb
        } else {
            kb - ka
        };
        diff <= tol
    }
}

} // verus!
