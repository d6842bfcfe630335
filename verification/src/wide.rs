//! Exact arithmetic on encoded magnitudes.  A finite four-byte real number
//! is a whole number of smallest encodable steps, up to 278 bits wide; five
//! 64-bit limbs hold any such magnitude exactly, so sums and differences of
//! two encoded values, and comparisons against an encoded tolerance, can be
//! decided with no rounding at all.

use vstd::prelude::*;
use vstd::arithmetic::div_mod::lemma_fundamental_div_mod;
use vstd::arithmetic::mul::lemma_mul_is_associative;
use vstd::arithmetic::power2::{
    lemma2_to64, lemma2_to64_rest, lemma_pow2_adds, lemma_pow2_strictly_increases,
    lemma_pow2_unfold, pow2,
};

verus! {

/// A non-negative number below 2^320, five 64-bit limbs, least significant
/// first.
pub(crate) struct Wide {
    pub(crate) w0: u64,
    pub(crate) w1: u64,
    pub(crate) w2: u64,
    pub(crate) w3: u64,
    pub(crate) w4: u64,
}

/// The number a five-limb value stands for, nested so that every
/// multiplication carries the one limb weight 2^64.
pub(crate) open spec fn wide_val(w: Wide) -> int {
    w.w0 + 0x1_0000_0000_0000_0000 * (w.w1 + 0x1_0000_0000_0000_0000 * (w.w2
        + 0x1_0000_0000_0000_0000 * (w.w3 + 0x1_0000_0000_0000_0000 * w.w4)))
}

/// The part of the number above limb 0.
spec fn tail1(w: Wide) -> int {
    w.w1 + 0x1_0000_0000_0000_0000 * tail2(w)
}

/// The part of the number above limb 1.
spec fn tail2(w: Wide) -> int {
    w.w2 + 0x1_0000_0000_0000_0000 * tail3(w)
}

/// The part of the number above limb 2.
spec fn tail3(w: Wide) -> int {
    w.w3 + 0x1_0000_0000_0000_0000 * (w.w4 as int)
}

/// Comparing two numbers digit by digit: the high digits decide, and only
/// a tie passes the decision down.
proof fn lemma_lex_step(alo: int, ahi: int, blo: int, bhi: int, p: int)
    requires
        0 <= alo < p,
        0 <= blo < p,
    ensures
        (alo + p * ahi < blo + p * bhi) == (ahi < bhi || (ahi == bhi && alo < blo)),
        (alo + p * ahi == blo + p * bhi) == (ahi == bhi && alo == blo),
{
    assert((alo + p * ahi < blo + p * bhi) == (ahi < bhi || (ahi == bhi && alo < blo)) && (alo + p
        * ahi == blo + p * bhi) == (ahi == bhi && alo == blo)) by (nonlinear_arith)
        requires
            0 <= alo < p,
            0 <= blo < p,
    ;
}

/// Whether the first number is strictly below the second.
pub(crate) fn wide_lt(a: &Wide, b: &Wide) -> (r: bool)
    ensures
        r == (wide_val(*a) < wide_val(*b)),
{
    proof {
        lemma_lex_step(a.w0 as int, tail1(*a), b.w0 as int, tail1(*b), 0x1_0000_0000_0000_0000);
        lemma_lex_step(a.w1 as int, tail2(*a), b.w1 as int, tail2(*b), 0x1_0000_0000_0000_0000);
        lemma_lex_step(a.w2 as int, tail3(*a), b.w2 as int, tail3(*b), 0x1_0000_0000_0000_0000);
        lemma_lex_step(
            a.w3 as int,
            a.w4 as int,
            b.w3 as int,
            b.w4 as int,
            0x1_0000_0000_0000_0000,
        );
    }
    if a.w4 != b.w4 {
        a.w4 < b.w4
    } else if a.w3 != b.w3 {
        a.w3 < b.w3
    } else if a.w2 != b.w2 {
        a.w2 < b.w2
    } else if a.w1 != b.w1 {
        a.w1 < b.w1
    } else {
        a.w0 < b.w0
    }
}

/// 2 to the `r`-th as a sixteen-byte word, for shifts within one limb.
fn pow2_u128(r: u16) -> (p: u128)
    requires
        r < 64,
    ensures
        p as int == pow2(r as nat),
        p <= 0x8000_0000_0000_0000u128,
{
    proof {
        lemma2_to64();
    }
    let mut p: u128 = 1;
    let mut j: u16 = 0;
    while j < r
        invariant
            j <= r < 64,
            p as int == pow2(j as nat),
        decreases r - j,
    {
        proof {
            lemma_pow2_strictly_increases(j as nat, 63);
            lemma2_to64_rest();
            lemma_pow2_unfold((j + 1) as nat);
        }
        p = p * 2;
        j = j + 1;
    }
    proof {
        if (r as nat) < 63 {
            lemma_pow2_strictly_increases(r as nat, 63);
        }
        lemma2_to64_rest();
    }
    p
}

/// The number `m * 2^e`, placed into limbs.  Covers every finite encoded
/// magnitude: a mantissa below 2^32 and a unit exponent up to 253.
pub(crate) fn from_shifted(m: u64, e: u16) -> (r: Wide)
    requires
        m < 0x1_0000_0000,
        e <= 253,
    ensures
        wide_val(r) == m * pow2(e as nat),
        r.w4 < 0x1_0000_0000,
{
    let q = e / 64;
    let s = e % 64;
    let p = pow2_u128(s);
    proof {
        assert((m as int) * (p as int) < 0x8000_0000_0000_0000_0000_0000) by (nonlinear_arith)
            requires
                0 <= (m as int) && (m as int) < 0x1_0000_0000,
                0 <= (p as int) && (p as int) <= 0x8000_0000_0000_0000,
        ;
    }
    let w: u128 = (m as u128) * p;
    let lo = (w % 0x1_0000_0000_0000_0000u128) as u64;
    let hi = (w / 0x1_0000_0000_0000_0000u128) as u64;
    proof {
        lemma_fundamental_div_mod(w as int, 0x1_0000_0000_0000_0000);
        assert(w as int == m * pow2(s as nat));
        assert(e as int == 64 * (q as int) + s as int);
        lemma2_to64();
        // climbing one limb multiplies by the limb weight, which in the
        // exponent is adding 64
        lemma_pow2_adds(s as nat, 64);
        lemma_mul_is_associative(m as int, pow2(s as nat) as int, pow2(64) as int);
        assert(0x1_0000_0000_0000_0000 * (w as int) == m * pow2((s + 64) as nat));
        lemma_pow2_adds((s + 64) as nat, 64);
        lemma_mul_is_associative(m as int, pow2((s + 64) as nat) as int, pow2(64) as int);
        assert(0x1_0000_0000_0000_0000 * (0x1_0000_0000_0000_0000 * (w as int)) == m * pow2(
            (s + 128) as nat,
        ));
        lemma_pow2_adds((s + 128) as nat, 64);
        lemma_mul_is_associative(m as int, pow2((s + 128) as nat) as int, pow2(64) as int);
        assert(0x1_0000_0000_0000_0000 * (0x1_0000_0000_0000_0000 * (0x1_0000_0000_0000_0000 * (
        w as int))) == m * pow2((s + 192) as nat));
    }
    if q == 0 {
        Wide { w0: lo, w1: hi, w2: 0, w3: 0, w4: 0 }
    } else if q == 1 {
        Wide { w0: 0, w1: lo, w2: hi, w3: 0, w4: 0 }
    } else if q == 2 {
        Wide { w0: 0, w1: 0, w2: lo, w3: hi, w4: 0 }
    } else {
        Wide { w0: 0, w1: 0, w2: 0, w3: lo, w4: hi }
    }
}

/// The exact sum of two numbers whose top limbs leave room for the carry.
pub(crate) fn wide_add(a: &Wide, b: &Wide) -> (r: Wide)
    requires
        a.w4 < 0x8000_0000_0000_0000,
        b.w4 < 0x8000_0000_0000_0000,
    ensures
        wide_val(r) == wide_val(*a) + wide_val(*b),
{
    let base: u128 = 0x1_0000_0000_0000_0000u128;
    let s0: u128 = a.w0 as u128 + b.w0 as u128;
    let r0 = (s0 % base) as u64;
    let c1 = (s0 / base) as u64;
    let s1: u128 = a.w1 as u128 + b.w1 as u128 + c1 as u128;
    let r1 = (s1 % base) as u64;
    let c2 = (s1 / base) as u64;
    let s2: u128 = a.w2 as u128 + b.w2 as u128 + c2 as u128;
    let r2 = (s2 % base) as u64;
    let c3 = (s2 / base) as u64;
    let s3: u128 = a.w3 as u128 + b.w3 as u128 + c3 as u128;
    let r3 = (s3 % base) as u64;
    let c4 = (s3 / base) as u64;
    let s4: u128 = a.w4 as u128 + b.w4 as u128 + c4 as u128;
    let r4 = s4 as u64;
    proof {
        lemma_fundamental_div_mod(s0 as int, 0x1_0000_0000_0000_0000);
        lemma_fundamental_div_mod(s1 as int, 0x1_0000_0000_0000_0000);
        lemma_fundamental_div_mod(s2 as int, 0x1_0000_0000_0000_0000);
        lemma_fundamental_div_mod(s3 as int, 0x1_0000_0000_0000_0000);
    }
    Wide { w0: r0, w1: r1, w2: r2, w3: r3, w4: r4 }
}

/// The exact difference of two numbers, larger minus smaller.
#[verifier::rlimit(100)]
pub(crate) fn wide_sub(a: &Wide, b: &Wide) -> (r: Wide)
    requires
        wide_val(*b) <= wide_val(*a),
    ensures
        wide_val(r) == wide_val(*a) - wide_val(*b),
{
    let base: u128 = 0x1_0000_0000_0000_0000u128;
    let t0: u128 = base + a.w0 as u128 - b.w0 as u128;
    let r0 = (t0 % base) as u64;
    let b1: u64 = if t0 < base {
        1
    } else {
        0
    };
    let t1: u128 = base + a.w1 as u128 - b.w1 as u128 - b1 as u128;
    let r1 = (t1 % base) as u64;
    let b2: u64 = if t1 < base {
        1
    } else {
        0
    };
    let t2: u128 = base + a.w2 as u128 - b.w2 as u128 - b2 as u128;
    let r2 = (t2 % base) as u64;
    let b3: u64 = if t2 < base {
        1
    } else {
        0
    };
    let t3: u128 = base + a.w3 as u128 - b.w3 as u128 - b3 as u128;
    let r3 = (t3 % base) as u64;
    let b4: u64 = if t3 < base {
        1
    } else {
        0
    };
    let t4: u128 = base + a.w4 as u128 - b.w4 as u128 - b4 as u128;
    let r4 = (t4 % base) as u64;
    let b5: u64 = if t4 < base {
        1
    } else {
        0
    };
    let res = Wide { w0: r0, w1: r1, w2: r2, w3: r3, w4: r4 };
    proof {
        lemma_fundamental_div_mod(t0 as int, 0x1_0000_0000_0000_0000);
        lemma_fundamental_div_mod(t1 as int, 0x1_0000_0000_0000_0000);
        lemma_fundamental_div_mod(t2 as int, 0x1_0000_0000_0000_0000);
        lemma_fundamental_div_mod(t3 as int, 0x1_0000_0000_0000_0000);
        lemma_fundamental_div_mod(t4 as int, 0x1_0000_0000_0000_0000);
        if b5 == 1 {
            // a final borrow would put the difference a whole 2^320 below
            // the result, impossible for numbers in range
            assert(false);
        }
    }
    res
}

} // verus!
