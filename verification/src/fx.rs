//! Saturating Q32.32 fixed-point arithmetic.
//!
//! Every quantity of the computation pipeline (scene coordinates, escape
//! values, filter parameters) is an `i64` holding a real number scaled by
//! `FX_ONE` (2^32).  All operations are total: results outside the `i64`
//! range saturate, and rounding is toward zero, so every function here has
//! an exact specification.

use vstd::prelude::*;

verus! {

use vstd::arithmetic::div_mod::{
    lemma_basic_div, lemma_div_by_multiple, lemma_div_is_ordered,
    lemma_div_is_ordered_by_denominator, lemma_fundamental_div_mod,
    lemma_fundamental_div_mod_converse,
};
use vstd::arithmetic::mul::lemma_mul_inequality;
use vstd::arithmetic::power2::{
    lemma2_to64, lemma2_to64_rest, lemma_pow2_adds, lemma_pow2_pos,
    lemma_pow2_strictly_increases, lemma_pow2_unfold, pow2,
};

/// The fixed-point representation of 1.
pub const FX_ONE: i64 = 4294967296;

/// The fixed-point representation of 1/2.
pub const FX_HALF: i64 = 2147483648;

/// Saturate an unbounded integer into the `i64` range.
pub open spec fn clip(v: int) -> int {
    if v > i64::MAX as int {
        i64::MAX as int
    } else if v < i64::MIN as int {
        i64::MIN as int
    } else {
        v
    }
}

/// Saturate an unbounded integer into an `i64` value.
pub open spec fn clip_i64(v: int) -> i64 {
    clip(v) as i64
}

/// Magnitude of an integer.
pub open spec fn mag(v: int) -> int {
    if v < 0 {
        -v
    } else {
        v
    }
}

/// Division truncated toward zero (the rounding of the executable code).
pub open spec fn tdiv(a: int, b: int) -> int {
    let q = mag(a) / mag(b);
    if (a < 0) != (b < 0) {
        -q
    } else {
        q
    }
}

pub open spec fn fx_add_spec(a: i64, b: i64) -> i64 {
    clip_i64(a + b)
}

pub open spec fn fx_sub_spec(a: i64, b: i64) -> i64 {
    clip_i64(a - b)
}

pub open spec fn fx_mul_spec(a: i64, b: i64) -> i64 {
    clip_i64(tdiv(a * b, FX_ONE as int))
}

pub open spec fn fx_div_spec(a: i64, b: i64) -> i64 {
    clip_i64(tdiv(a * (FX_ONE as int), b as int))
}

pub open spec fn fx_from_nat_spec(n: int) -> i64 {
    clip_i64(n * (FX_ONE as int))
}

fn clamp_i128(v: i128) -> (r: i64)
    ensures
        r == clip_i64(v as int),
{
    if v > i64::MAX as i128 {
        i64::MAX
    } else if v < i64::MIN as i128 {
        i64::MIN
    } else {
        v as i64
    }
}

fn mag_u128(a: i64) -> (r: u128)
    ensures
        r == mag(a as int),
        r <= 0x8000000000000000u128,
{
    if a >= 0 {
        a as u128
    } else {
        (-(a as i128)) as u128
    }
}

/// Rebuild a signed saturated value from a magnitude and a sign.
fn from_mag(q: u128, neg: bool) -> (r: i64)
    ensures
        r == clip_i64(if neg { -(q as int) } else { q as int }),
{
    if neg {
        if q >= 0x8000000000000000u128 {
            i64::MIN
        } else {
            -(q as i64)
        }
    } else {
        if q > 0x7fffffffffffffffu128 {
            i64::MAX
        } else {
            q as i64
        }
    }
}

proof fn lemma_sign_mag_mul(a: int, b: int, ma: int, mb: int)
    by (nonlinear_arith)
    requires
        ma == if a < 0 { -a } else { a },
        mb == if b < 0 { -b } else { b },
    ensures
        ((a < 0) != (b < 0)) ==> a * b == -(ma * mb),
        !((a < 0) != (b < 0)) ==> a * b == ma * mb,
        ma * mb >= 0,
{
}

pub fn fx_add(a: i64, b: i64) -> (r: i64)
    ensures
        r == fx_add_spec(a, b),
{
    clamp_i128(a as i128 + b as i128)
}

pub fn fx_sub(a: i64, b: i64) -> (r: i64)
    ensures
        r == fx_sub_spec(a, b),
{
    clamp_i128(a as i128 - b as i128)
}

pub fn fx_mul(a: i64, b: i64) -> (r: i64)
    ensures
        r == fx_mul_spec(a, b),
{
    let ma = mag_u128(a);
    let mb = mag_u128(b);
    proof {
        lemma_sign_mag_mul(a as int, b as int, ma as int, mb as int);
        assert(ma as int * mb as int <= 0x8000000000000000 * 0x8000000000000000)
            by (nonlinear_arith)
            requires
                0 <= ma as int <= 0x8000000000000000,
                0 <= mb as int <= 0x8000000000000000,
        ;
    }
    let p = ma * mb;
    let q = p / 4294967296u128;
    from_mag(q, (a < 0) != (b < 0))
}

pub fn fx_div(a: i64, b: i64) -> (r: i64)
    requires
        b != 0,
    ensures
        r == fx_div_spec(a, b),
{
    let ma = mag_u128(a);
    let mb = mag_u128(b);
    proof {
        lemma_sign_mag_mul(a as int, 4294967296, ma as int, 4294967296);
    }
    let p = ma * 4294967296u128;
    let q = p / mb;
    from_mag(q, (a < 0) != (b < 0))
}

/// Fixed-point value of an unsigned pixel count.
pub fn fx_from_usize(n: usize) -> (r: i64)
    ensures
        r == fx_from_nat_spec(n as int),
{
    let q = (n as u128) * 4294967296u128;
    from_mag(q, false)
}

fn pow2_u64(k: u64) -> (r: u64)
    requires
        k <= 63,
    ensures
        r as nat == pow2(k as nat),
    decreases k,
{
    if k == 0 {
        proof {
            lemma2_to64();
        }
        1
    } else {
        let h = pow2_u64(k - 1);
        proof {
            lemma2_to64();
            if k - 1 < 62 {
                lemma_pow2_strictly_increases((k - 1) as nat, 62);
            }
            assert(pow2(62) == 0x4000000000000000) by {
                lemma2_to64_rest();
            }
            lemma_pow2_unfold(k as nat);
        }
        2 * h
    }
}

/// Mantissa and exponent after scaling a small positive value up into
/// `[FX_ONE, 2 * FX_ONE)` by repeated doubling.
pub open spec fn norm_up(m: int) -> (int, int)
    decreases (if 1 <= m < FX_ONE as int {
        FX_ONE as int - m
    } else {
        0int
    }),
{
    if 1 <= m < FX_ONE as int {
        let r = norm_up(2 * m);
        (r.0, r.1 - 1)
    } else {
        (m, 0int)
    }
}

/// Mantissa and exponent after scaling a large value down into
/// `[FX_ONE, 2 * FX_ONE)` by repeated halving.
pub open spec fn norm_down(m: int) -> (int, int)
    decreases (if m >= 2 * (FX_ONE as int) {
        m
    } else {
        0int
    }),
{
    if m >= 2 * (FX_ONE as int) {
        let r = norm_down(m / 2);
        (r.0, r.1 + 1)
    } else {
        (m, 0int)
    }
}

/// Mantissa in `[FX_ONE, 2 * FX_ONE)` and binary exponent of a positive value.
pub open spec fn normalize(v: int) -> (int, int) {
    if v < FX_ONE as int {
        norm_up(v)
    } else {
        norm_down(v)
    }
}

proof fn lemma_norm_up_props(m: int)
    requires
        1 <= m < 2 * (FX_ONE as int),
    ensures
        FX_ONE as int <= norm_up(m).0 < 2 * (FX_ONE as int),
        norm_up(m).1 <= 0,
        norm_up(m).0 == m * pow2((-norm_up(m).1) as nat),
    decreases (if 1 <= m < FX_ONE as int {
        FX_ONE as int - m
    } else {
        0int
    }),
{
    if 1 <= m < FX_ONE as int {
        lemma_norm_up_props(2 * m);
        let e2 = norm_up(2 * m).1;
        let e = norm_up(m).1;
        let pw = pow2((-e2) as nat) as int;
        assert(e == e2 - 1);
        assert((-e) as nat == 1 + ((-e2) as nat));
        assert(pow2((-e) as nat) == 2 * pow2((-e2) as nat)) by {
            lemma_pow2_adds(1, (-e2) as nat);
            lemma2_to64();
        }
        assert(norm_up(m).0 == (2 * m) * pw);
        assert(m * (2 * pw) == (2 * m) * pw) by (nonlinear_arith);
        assert(pow2((-e) as nat) as int == 2 * pw);
        assert(m * (pow2((-e) as nat) as int) == m * (2 * pw));
        assert(norm_up(m).0 == m * (pow2((-e) as nat) as int));
    } else {
        lemma2_to64();
        assert(norm_up(m).1 == 0);
        assert(norm_up(m).0 == m);
        assert(pow2(0) == 1);
        assert(m * (pow2(0) as int) == m);
    }
}

proof fn lemma_norm_up_e_low(m: int)
    requires
        1 <= m < 2 * (FX_ONE as int),
    ensures
        -33 <= norm_up(m).1 <= 0,
{
    lemma_norm_up_props(m);
    let e = norm_up(m).1;
    if e < -33 {
        lemma2_to64();
        lemma2_to64_rest();
        lemma_pow2_strictly_increases(33, (-e) as nat);
        lemma_mul_inequality(1, m, pow2((-e) as nat) as int);
        assert(false);
    }
}

proof fn lemma_norm_down_props(m: int)
    requires
        FX_ONE as int <= m,
    ensures
        FX_ONE as int <= norm_down(m).0 < 2 * (FX_ONE as int),
        0 <= norm_down(m).1,
        pow2(norm_down(m).1 as nat) * (FX_ONE as int) <= m,
    decreases (if m >= 2 * (FX_ONE as int) {
        m
    } else {
        0int
    }),
{
    if m >= 2 * (FX_ONE as int) {
        lemma_norm_down_props(m / 2);
        let e2 = norm_down(m / 2).1;
        lemma_pow2_adds(1, e2 as nat);
        lemma2_to64();
        let pw = pow2(e2 as nat) as int;
        assert((2 * pw) * (FX_ONE as int) == 2 * (pw * (FX_ONE as int))) by (nonlinear_arith);
    } else {
        lemma2_to64();
    }
}

proof fn lemma_norm_down_e_high(m: int)
    requires
        FX_ONE as int <= m <= 0x10000000000000000,
    ensures
        0 <= norm_down(m).1 <= 32,
{
    lemma_norm_down_props(m);
    let e = norm_down(m).1;
    if e > 32 {
        lemma2_to64();
        lemma2_to64_rest();
        lemma_pow2_strictly_increases(32, e as nat);
        lemma_mul_inequality(0x100000000, pow2(e as nat) as int, FX_ONE as int);
        assert(false);
    }
}

fn norm_up_exec(m: u64) -> (r: (u64, i64))
    requires
        1 <= m < 8589934592u64,
    ensures
        r.0 as int == norm_up(m as int).0,
        r.1 as int == norm_up(m as int).1,
    decreases (if 1 <= (m as int) && (m as int) < FX_ONE as int {
        FX_ONE as int - m as int
    } else {
        0int
    }),
{
    if m < 4294967296u64 {
        let rec = norm_up_exec(2 * m);
        proof {
            lemma_norm_up_e_low(2 * m as int);
        }
        (rec.0, rec.1 - 1)
    } else {
        (m, 0)
    }
}

fn norm_down_exec(m: u64) -> (r: (u64, i64))
    requires
        4294967296u64 <= m,
    ensures
        r.0 as int == norm_down(m as int).0,
        r.1 as int == norm_down(m as int).1,
    decreases m,
{
    if m >= 8589934592u64 {
        let rec = norm_down_exec(m / 2);
        proof {
            lemma_norm_down_e_high(m as int / 2);
        }
        (rec.0, rec.1 + 1)
    } else {
        (m, 0)
    }
}

fn fx_norm(v: u64) -> (r: (u64, i64))
    requires
        1 <= v <= 0x8000000000000000u64,
    ensures
        r.0 as int == normalize(v as int).0,
        r.1 as int == normalize(v as int).1,
        4294967296u64 <= r.0 < 8589934592u64,
        -33 <= r.1 <= 32,
{
    if v < 4294967296u64 {
        proof {
            lemma_norm_up_props(v as int);
            lemma_norm_up_e_low(v as int);
        }
        norm_up_exec(v)
    } else {
        proof {
            lemma_norm_down_props(v as int);
            lemma_norm_down_e_high(v as int);
        }
        norm_down_exec(v)
    }
}

/// Fractional bits of the base-2 logarithm of a normalized mantissa,
/// by the classic squaring recurrence, `k` bits at a time.
pub open spec fn lg_frac(m: int, k: nat) -> int
    decreases k,
{
    if k == 0 {
        0int
    } else {
        let m2 = (m * m) / (FX_ONE as int);
        if m2 >= 2 * (FX_ONE as int) {
            pow2((k - 1) as nat) as int + lg_frac(m2 / 2, (k - 1) as nat)
        } else {
            lg_frac(m2, (k - 1) as nat)
        }
    }
}

fn lg_frac_exec(m: u64, k: u64) -> (r: u64)
    requires
        4294967296u64 <= m < 8589934592u64,
        k <= 32,
    ensures
        r as int == lg_frac(m as int, k as nat),
        (r as nat) < pow2(k as nat),
    decreases k,
{
    if k == 0 {
        proof {
            lemma2_to64();
        }
        0
    } else {
        proof {
            assert((m as int) * (m as int) < 0x40000000000000000) by (nonlinear_arith)
                requires
                    0 <= (m as int) < 0x200000000,
            ;
            assert((m as int) * (m as int) >= 0x10000000000000000) by (nonlinear_arith)
                requires
                    (m as int) >= 0x100000000,
            ;
            lemma_div_is_ordered((m as int) * (m as int), 0x40000000000000000 - 1, 4294967296);
            lemma_div_is_ordered(0x10000000000000000, (m as int) * (m as int), 4294967296);
        }
        let wide = (m as u128) * (m as u128);
        let m2 = (wide / 4294967296u128) as u64;
        let r = if m2 >= 8589934592u64 {
            let rest = lg_frac_exec(m2 / 2, k - 1);
            let bit = pow2_u64(k - 1);
            proof {
                lemma_pow2_unfold(k as nat);
                lemma2_to64();
                if k - 1 < 31 {
                    lemma_pow2_strictly_increases((k - 1) as nat, 31);
                }
            }
            bit + rest
        } else {
            lg_frac_exec(m2, k - 1)
        };
        proof {
            if k > 1 {
                lemma_pow2_strictly_increases((k - 1) as nat, k as nat);
            }
            lemma_pow2_unfold(k as nat);
        }
        r
    }
}

/// Base-2 logarithm of a positive fixed-point value, as a fixed-point value.
pub open spec fn lg_spec(v: int) -> i64 {
    let n = normalize(v);
    clip_i64(n.1 * (FX_ONE as int) + lg_frac(n.0, 32))
}

/// Fixed-point base-2 logarithm; defined for positive inputs.
pub fn fx_log2(v: i64) -> (r: i64)
    requires
        v >= 1,
    ensures
        r == lg_spec(v as int),
{
    let (m, e) = fx_norm(v as u64);
    let f = lg_frac_exec(m, 32);
    proof {
        lemma2_to64();
    }
    let r = e * 4294967296i64 + (f as i64);
    proof {
        assert(r == clip(e as int * (FX_ONE as int) + f as int));
    }
    r
}

proof fn lemma_lg_frac_range(m: int, k: nat)
    ensures
        0 <= lg_frac(m, k),
        lg_frac(m, k) < pow2(k) as int,
    decreases k,
{
    lemma_pow2_pos(k);
    if k > 0 {
        let m2 = (m * m) / (FX_ONE as int);
        lemma_pow2_unfold(k);
        lemma_pow2_pos((k - 1) as nat);
        if m2 >= 2 * (FX_ONE as int) {
            lemma_lg_frac_range(m2 / 2, (k - 1) as nat);
        } else {
            lemma_lg_frac_range(m2, (k - 1) as nat);
        }
    }
}

/// The fixed-point logarithm of any positive argument lies within
/// thirty-three units either way.
pub proof fn lemma_lg_bounds(v: int)
    requires
        1 <= v <= i64::MAX as int,
    ensures
        -33 * (FX_ONE as int) <= lg_spec(v) as int <= 33 * (FX_ONE as int),
{
    lemma2_to64();
    if v < FX_ONE as int {
        lemma_norm_up_props(v);
        lemma_norm_up_e_low(v);
    } else {
        lemma_norm_down_props(v);
        lemma_norm_down_e_high(v);
    }
    lemma_lg_frac_range(normalize(v).0, 32);
}

/// For arguments up to thirty-two units the logarithm stays below six
/// units.
pub proof fn lemma_lg_upper_small(v: int)
    requires
        1 <= v <= 32 * (FX_ONE as int),
    ensures
        (lg_spec(v) as int) < 6 * (FX_ONE as int),
{
    lemma2_to64();
    lemma_lg_frac_range(normalize(v).0, 32);
    if v < FX_ONE as int {
        lemma_norm_up_props(v);
        lemma_norm_up_e_low(v);
    } else {
        lemma_norm_down_props(v);
        lemma_norm_down_e_high(v);
        let e = norm_down(v).1;
        if e > 5 {
            lemma_pow2_strictly_increases(5, e as nat);
            lemma_mul_inequality(33, pow2(e as nat) as int, FX_ONE as int);
            assert(false);
        }
    }
}

/// Rounded factor `2^(2^(k - 33)) * FX_ONE` applied for the `k`-th
/// fractional exponent bit.
pub open spec fn e2_factor(k: int) -> int {
    if k == 32 {
        6074001000int
    } else if k == 31 {
        5107605667int
    } else if k == 30 {
        4683695048int
    } else if k == 29 {
        4485121744int
    } else if k == 28 {
        4389014833int
    } else if k == 27 {
        4341736423int
    } else if k == 26 {
        4318288544int
    } else if k == 25 {
        4306612134int
    } else if k == 24 {
        4300785774int
    } else if k == 23 {
        4297875550int
    } else if k == 22 {
        4296421177int
    } else if k == 21 {
        4295694175int
    } else if k == 20 {
        4295330720int
    } else if k == 19 {
        4295149004int
    } else if k == 18 {
        4295058149int
    } else if k == 17 {
        4295012722int
    } else if k == 16 {
        4294990009int
    } else if k == 15 {
        4294978653int
    } else if k == 14 {
        4294972974int
    } else if k == 13 {
        4294970135int
    } else if k == 12 {
        4294968716int
    } else if k == 11 {
        4294968006int
    } else if k == 10 {
        4294967651int
    } else if k == 9 {
        4294967473int
    } else if k == 8 {
        4294967385int
    } else if k == 7 {
        4294967340int
    } else if k == 6 {
        4294967318int
    } else if k == 5 {
        4294967307int
    } else if k == 4 {
        4294967302int
    } else if k == 3 {
        4294967299int
    } else {
        4294967297int
    }
}

proof fn lemma_e2_factor_bounds(k: int)
    ensures
        (FX_ONE as int) < e2_factor(k) < 2 * (FX_ONE as int),
{
}

fn e2_factor_exec(k: u64) -> (r: u64)
    requires
        1 <= k <= 32,
    ensures
        r as int == e2_factor(k as int),
{
    if k == 32 {
        6074001000
    } else if k == 31 {
        5107605667
    } else if k == 30 {
        4683695048
    } else if k == 29 {
        4485121744
    } else if k == 28 {
        4389014833
    } else if k == 27 {
        4341736423
    } else if k == 26 {
        4318288544
    } else if k == 25 {
        4306612134
    } else if k == 24 {
        4300785774
    } else if k == 23 {
        4297875550
    } else if k == 22 {
        4296421177
    } else if k == 21 {
        4295694175
    } else if k == 20 {
        4295330720
    } else if k == 19 {
        4295149004
    } else if k == 18 {
        4295058149
    } else if k == 17 {
        4295012722
    } else if k == 16 {
        4294990009
    } else if k == 15 {
        4294978653
    } else if k == 14 {
        4294972974
    } else if k == 13 {
        4294970135
    } else if k == 12 {
        4294968716
    } else if k == 11 {
        4294968006
    } else if k == 10 {
        4294967651
    } else if k == 9 {
        4294967473
    } else if k == 8 {
        4294967385
    } else if k == 7 {
        4294967340
    } else if k == 6 {
        4294967318
    } else if k == 5 {
        4294967307
    } else if k == 4 {
        4294967302
    } else if k == 3 {
        4294967299
    } else {
        4294967297
    }
}

/// `2^f` for a fractional fixed-point exponent `f`, one bit of `f` at a
/// time, as a mantissa in `[FX_ONE, 2 * FX_ONE)` up to rounding.
pub open spec fn e2_frac(f: int, k: nat) -> int
    decreases k,
{
    if k == 0 {
        FX_ONE as int
    } else {
        let bit = pow2((k - 1) as nat) as int;
        if f >= bit {
            (e2_frac(f - bit, (k - 1) as nat) * e2_factor(k as int)) / (FX_ONE as int)
        } else {
            e2_frac(f, (k - 1) as nat)
        }
    }
}

proof fn lemma_e2_frac_bounds(f: int, k: nat)
    requires
        0 <= f,
        1 <= k <= 32,
    ensures
        FX_ONE as int <= e2_frac(f, k),
        e2_frac(f, k) < (FX_ONE as int) * (pow2(k) as int),
    decreases k,
{
    let one = FX_ONE as int;
    lemma2_to64();
    if k == 1 {
        lemma_e2_factor_bounds(1);
        if f >= 1 {
            assert(e2_frac(f - 1, 0) == one);
            assert(e2_frac(f, 1) == (one * e2_factor(1)) / one);
            assert(one * e2_factor(1) == e2_factor(1) * one);
            lemma_div_by_multiple(e2_factor(1), one);
            assert(e2_frac(f, 1) == e2_factor(1));
            assert(one <= e2_frac(f, k));
            assert(e2_frac(f, k) < one * (pow2(k) as int));
        } else {
            assert(e2_frac(f, 1) == e2_frac(f, 0));
            assert(one <= e2_frac(f, k));
            assert(e2_frac(f, k) < one * (pow2(k) as int));
        }
    } else {
        let bit = pow2((k - 1) as nat) as int;
        lemma_pow2_pos((k - 1) as nat);
        lemma_pow2_unfold(k);
        if f >= bit {
            lemma_e2_frac_bounds(f - bit, (k - 1) as nat);
            lemma_e2_factor_bounds(k as int);
            let prev = e2_frac(f - bit, (k - 1) as nat);
            let fac = e2_factor(k as int);
            let pk1 = pow2((k - 1) as nat) as int;
            // lower bound
            assert(prev * fac >= one * (one + 1)) by (nonlinear_arith)
                requires
                    prev >= one,
                    fac >= one + 1,
                    one > 0,
            ;
            lemma_div_is_ordered(one * (one + 1), prev * fac, one);
            assert((one * (one + 1)) / one == one + 1) by (nonlinear_arith)
                requires
                    one > 0,
            ;
            // upper bound
            assert(prev * fac <= (one * pk1) * (2 * one - 1)) by (nonlinear_arith)
                requires
                    0 <= prev,
                    prev < one * pk1 || prev <= one * pk1,
                    prev <= one * pk1,
                    0 <= fac,
                    fac <= 2 * one - 1,
            ;
            assert((one * pk1) * (2 * one - 1) == (2 * one * pk1 - pk1) * one) by (nonlinear_arith);
            lemma_div_is_ordered(prev * fac, (2 * one * pk1 - pk1) * one, one);
            lemma_div_by_multiple(2 * one * pk1 - pk1, one);
            assert(one * (pow2(k) as int) == 2 * one * pk1) by (nonlinear_arith)
                requires
                    pow2(k) == 2 * pow2((k - 1) as nat),
                    pk1 == pow2((k - 1) as nat) as int,
            ;
            assert(e2_frac(f, k) == (prev * fac) / one);
            assert((one * (one + 1)) / one <= e2_frac(f, k));
            assert(e2_frac(f, k) <= 2 * one * pk1 - pk1);
            assert(pk1 >= 1);
            assert(one <= e2_frac(f, k));
            assert(e2_frac(f, k) < one * (pow2(k) as int));
        } else {
            lemma_e2_frac_bounds(f, (k - 1) as nat);
            assert((pow2((k - 1) as nat) as int) <= pow2(k) as int) by {
                lemma_pow2_strictly_increases((k - 1) as nat, k);
            }
            assert(one * (pow2((k - 1) as nat) as int) <= one * (pow2(k) as int)) by (nonlinear_arith)
                requires
                    (pow2((k - 1) as nat) as int) <= pow2(k) as int,
                    one > 0,
            ;
            assert(e2_frac(f, k) == e2_frac(f, (k - 1) as nat));
            assert(one <= e2_frac(f, k));
            assert(e2_frac(f, k) < one * (pow2(k) as int));
        }
    }
}

fn e2_frac_exec(f: u64, k: u64) -> (r: u64)
    requires
        k <= 32,
        (f as nat) < pow2(k as nat),
    ensures
        r as int == e2_frac(f as int, k as nat),
    decreases k,
{
    if k == 0 {
        4294967296u64
    } else {
        let bit = pow2_u64(k - 1);
        proof {
            lemma_pow2_unfold(k as nat);
        }
        if f >= bit {
            let prev = e2_frac_exec(f - bit, k - 1);
            let fac = e2_factor_exec(k);
            proof {
                lemma2_to64();
                lemma_e2_factor_bounds(k as int);
                if k >= 2 {
                    lemma_e2_frac_bounds(f as int - bit as int, (k - 1) as nat);
                    assert((FX_ONE as int) * (pow2((k - 1) as nat) as int) <= (FX_ONE as int) * 0x80000000) by (nonlinear_arith)
                        requires
                            pow2((k - 1) as nat) as int <= 0x80000000,
                            (FX_ONE as int) > 0,
                    ;
                    assert(pow2((k - 1) as nat) as int <= 0x80000000) by {
                        if k - 1 < 31 {
                            lemma_pow2_strictly_increases((k - 1) as nat, 31);
                        }
                    }
                }
                lemma_e2_frac_bounds(f as int, k as nat);
                assert((FX_ONE as int) * (pow2(k as nat) as int) <= (FX_ONE as int) * 0x100000000) by (nonlinear_arith)
                    requires
                        pow2(k as nat) as int <= 0x100000000,
                        (FX_ONE as int) > 0,
                ;
                assert(pow2(k as nat) as int <= 0x100000000) by {
                    if k < 32 {
                        lemma_pow2_strictly_increases(k as nat, 32);
                    }
                }
            }
            (((prev as u128) * (fac as u128)) / 4294967296u128) as u64
        } else {
            e2_frac_exec(f, k - 1)
        }
    }
}

/// `2^e` for a fixed-point exponent, saturating at the `i64` range.
pub open spec fn exp2_spec(e: int) -> i64 {
    let n = e / (FX_ONE as int);
    let f = e % (FX_ONE as int);
    let m = e2_frac(f, 32);
    if n >= 0 {
        clip_i64(m * (pow2(n as nat) as int))
    } else {
        clip_i64(m / (pow2((-n) as nat) as int))
    }
}

fn floor_divmod_one(e: i64) -> (r: (i64, u64))
    ensures
        r.0 as int == (e as int) / (FX_ONE as int),
        r.1 as int == (e as int) % (FX_ONE as int),
{
    if e >= 0 {
        let q = (e as u64) / 4294967296u64;
        let rm = (e as u64) % 4294967296u64;
        (q as i64, rm)
    } else {
        let u = (-(e as i128)) as u128;
        let k = (u + 4294967295u128) / 4294967296u128;
        proof {
            lemma_fundamental_div_mod(u as int + 4294967295, 4294967296);
        }
        let rm = k * 4294967296u128 - u;
        proof {
            lemma_fundamental_div_mod_converse(
                e as int,
                FX_ONE as int,
                -(k as int),
                rm as int,
            );
        }
        (-(k as i64), rm as u64)
    }
}

/// Fixed-point power of two, total on all of `i64`.
pub fn fx_exp2(e: i64) -> (r: i64)
    ensures
        r == exp2_spec(e as int),
{
    let (n, f) = floor_divmod_one(e);
    proof {
        lemma2_to64();
        assert((f as nat) < pow2(32)) by {
            lemma2_to64();
        }
    }
    let m = e2_frac_exec(f, 32);
    proof {
        lemma_e2_frac_bounds(f as int, 32);
    }
    if n >= 0 {
        if n >= 32 {
            proof {
                lemma2_to64();
                if n > 32 {
                    lemma_pow2_strictly_increases(32, n as nat);
                }
                lemma_mul_inequality(FX_ONE as int, m as int, pow2(n as nat) as int);
                lemma_mul_inequality(0x100000000, pow2(n as nat) as int, FX_ONE as int);
                assert((m as int) * (pow2(n as nat) as int) >= (FX_ONE as int) * (pow2(
                    n as nat,
                ) as int)) by (nonlinear_arith)
                    requires
                        m as int >= FX_ONE as int,
                        pow2(n as nat) as int >= 0,
                ;
            }
            i64::MAX
        } else {
            let pw = pow2_u64(n as u64);
            proof {
                lemma2_to64();
                if n < 31 {
                    lemma_pow2_strictly_increases(n as nat, 31);
                }
                assert((m as int) * (pw as int) <= 0xffffffffffffffff * 0x80000000)
                    by (nonlinear_arith)
                    requires
                        0 <= m as int <= 0xffffffffffffffff,
                        0 <= pw as int <= 0x80000000,
                ;
            }
            let p = (m as u128) * (pw as u128);
            from_mag(p, false)
        }
    } else {
        let s = -n;
        if s >= 64 {
            proof {
                lemma2_to64();
                if s > 64 {
                    lemma_pow2_strictly_increases(64, s as nat);
                }
                lemma_basic_div(m as int, pow2(s as nat) as int);
            }
            0
        } else {
            let d = pow2_u64(s as u64);
            proof {
                lemma_pow2_pos(s as nat);
                if s > 1 {
                    lemma_pow2_strictly_increases(1, s as nat);
                }
                lemma2_to64();
            }
            let q = m / d;
            proof {
                lemma_div_is_ordered_by_denominator(m as int, 2, d as int);
            }
            q as i64
        }
    }
}

/// Fixed-point power function: `x^p` through `exp2(p * log2 x)`;
/// zero for every non-positive base.
pub open spec fn pow_spec(x: i64, p: i64) -> i64 {
    if x <= 0 {
        0i64
    } else {
        exp2_spec(fx_mul_spec(p, lg_spec(x as int)) as int)
    }
}

pub fn fx_pow(x: i64, p: i64) -> (r: i64)
    ensures
        r == pow_spec(x, p),
{
    if x <= 0 {
        0
    } else {
        let l = fx_log2(x);
        let t = fx_mul(p, l);
        fx_exp2(t)
    }
}

} // verus!
