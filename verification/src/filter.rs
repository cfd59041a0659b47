//! The two filters of the pipeline: exponential gray tone mapping and
//! 8-bit quantization, with the quantization laws.
//!
//! Filters compose by direct application; each stage's output type must
//! match the next stage's input type, which the compiler checks.

use vstd::prelude::*;

verus! {

use vstd::arithmetic::div_mod::{lemma_div_by_multiple, lemma_div_is_ordered};
use crate::field::{QuantizedField, ScalarField};
use crate::fx::{
    fx_div, fx_div_spec, fx_from_nat_spec, fx_mul, fx_mul_spec, fx_pow, fx_sub, fx_sub_spec,
    pow_spec, FX_ONE,
};

/// Largest value of a non-empty sequence (zero for an empty one).
pub open spec fn seq_max(s: Seq<i64>) -> i64
    decreases s.len(),
{
    if s.len() == 0 {
        0i64
    } else if s.len() == 1 {
        s[0]
    } else {
        let m = seq_max(s.drop_last());
        if s.last() > m {
            s.last()
        } else {
            m
        }
    }
}

/// Smallest value of a non-empty sequence (zero for an empty one).
pub open spec fn seq_min(s: Seq<i64>) -> i64
    decreases s.len(),
{
    if s.len() == 0 {
        0i64
    } else if s.len() == 1 {
        s[0]
    } else {
        let m = seq_min(s.drop_last());
        if s.last() < m {
            s.last()
        } else {
            m
        }
    }
}

/// Tone mapping: rescale by the spread of the field, then apply a
/// power curve.
pub struct GrayExponentialFilter {
    pub multiplier: i64,
    pub power: i64,
}

/// The documented default gray filter: multiplier 1, power 0.1.
pub open spec fn default_gray_filter() -> GrayExponentialFilter {
    GrayExponentialFilter { multiplier: 4294967296i64, power: 429496730i64 }
}

impl Default for GrayExponentialFilter {
    fn default() -> (r: GrayExponentialFilter)
        ensures
            r == default_gray_filter(),
    {
        GrayExponentialFilter { multiplier: 4294967296, power: 429496730 }
    }
}

impl GrayExponentialFilter {
    /// One cell of the tone mapping: `(multiplier * v / range) ^ power`.
    /// A field with no spread maps to zero, as does any cell whose
    /// rescaled value is not positive.
    pub open spec fn apply_spec(self, range: i64, v: i64) -> i64 {
        if range == 0 {
            0i64
        } else {
            pow_spec(fx_div_spec(fx_mul_spec(self.multiplier, v), range), self.power)
        }
    }

    /// The whole filter: the range is `max - min` of the field, never
    /// shifted to a zero floor.
    pub open spec fn filter_spec(self, s: Seq<i64>) -> Seq<i64> {
        let range = fx_sub_spec(seq_max(s), seq_min(s));
        s.map_values(|v: i64| self.apply_spec(range, v))
    }

    /// Apply the tone mapping to a non-empty field.
    pub fn filter(&self, input: ScalarField) -> (r: ScalarField)
        requires
            input.data@.len() > 0,
        ensures
            r.dims == input.dims,
            r.data@ == self.filter_spec(input.data@),
    {
        let n = input.data.len();
        let ghost s = input.data@;
        let mut mx: i64 = input.data[0];
        let mut mn: i64 = input.data[0];
        proof {
            assert(s.take(1).len() == 1);
            assert(s.take(1)[0] == s[0]);
        }
        let mut i: usize = 1;
        while i < n
            invariant
                1 <= i <= n,
                n == s.len(),
                s == input.data@,
                mx == seq_max(s.take(i as int)),
                mn == seq_min(s.take(i as int)),
            decreases n as int - i as int,
        {
            let v = input.data[i];
            proof {
                assert(s.take(i as int + 1).drop_last() =~= s.take(i as int));
                assert(s.take(i as int + 1).last() == s[i as int]);
            }
            if v > mx {
                mx = v;
            }
            if v < mn {
                mn = v;
            }
            i += 1;
        }
        proof {
            assert(s.take(n as int) =~= s);
        }
        let range = fx_sub(mx, mn);
        let ghost rng = fx_sub_spec(seq_max(s), seq_min(s));
        let mut out: Vec<i64> = Vec::new();
        let mut j: usize = 0;
        while j < n
            invariant
                0 <= j <= n,
                n == s.len(),
                s == input.data@,
                range == rng,
                rng == fx_sub_spec(seq_max(s), seq_min(s)),
                out@.len() == j as int,
                forall|t: int| 0 <= t < j as int ==> out@[t] == self.apply_spec(rng, s[t]),
            decreases n as int - j as int,
        {
            let v = input.data[j];
            if range == 0 {
                out.push(0);
            } else {
                out.push(fx_pow(fx_div(fx_mul(self.multiplier, v), range), self.power));
            }
            j += 1;
        }
        proof {
            assert(out@ =~= self.filter_spec(input.data@));
        }
        ScalarField { dims: input.dims, data: out }
    }

    /// The filter behind an explicit validation of the non-empty
    /// precondition: an empty field is rejected, never mapped.
    pub fn filter_checked(&self, input: ScalarField) -> (r: Option<ScalarField>)
        ensures
            input.data@.len() == 0 ==> r is None,
            input.data@.len() > 0 ==> r is Some,
            r matches Some(f) ==> f.dims == input.dims && f.data@ == self.filter_spec(
                input.data@,
            ),
    {
        if input.data.len() == 0 {
            None
        } else {
            Some(self.filter(input))
        }
    }
}

/// A float value `v` maps to byte 255 above one, 0 below zero, and
/// `trunc(v * 255)` in between: clamping, not rescaling.
pub open spec fn quantize_spec(v: i64) -> u8 {
    if v > FX_ONE {
        255u8
    } else if v < 0 {
        0u8
    } else {
        ((v * 255) / (FX_ONE as int)) as u8
    }
}

/// Quantize one fixed-point value to a byte.
pub fn quantize(v: i64) -> (r: u8)
    ensures
        r == quantize_spec(v),
{
    if v > FX_ONE {
        255
    } else if v < 0 {
        0
    } else {
        proof {
            lemma_div_is_ordered(v as int * 255, FX_ONE as int * 255, FX_ONE as int);
            lemma_div_by_multiple(255, FX_ONE as int);
            assert(FX_ONE as int * 255 == 255 * (FX_ONE as int));
        }
        (((v as u64) * 255) / 4294967296u64) as u8
    }
}

/// 8-bit quantization of a whole field.
pub struct Quantization8;

impl Quantization8 {
    pub open spec fn filter_spec(s: Seq<i64>) -> Seq<u8> {
        s.map_values(|v: i64| quantize_spec(v))
    }

    pub fn filter(&self, input: ScalarField) -> (r: QuantizedField)
        ensures
            r.dims == input.dims,
            r.data@ == Self::filter_spec(input.data@),
    {
        let n = input.data.len();
        let ghost s = input.data@;
        let mut out: Vec<u8> = Vec::new();
        let mut i: usize = 0;
        while i < n
            invariant
                0 <= i <= n,
                n == s.len(),
                s == input.data@,
                out@.len() == i as int,
                forall|t: int| 0 <= t < i as int ==> out@[t] == quantize_spec(s[t]),
            decreases n as int - i as int,
        {
            let b = quantize(input.data[i]);
            out.push(b);
            i += 1;
        }
        proof {
            assert(out@ =~= Self::filter_spec(input.data@));
        }
        QuantizedField { dims: input.dims, data: out }
    }
}

/// Quantization preserves order: a cell no brighter than another can
/// never quantize to a larger byte.
pub proof fn lemma_quantize_monotonic(v1: i64, v2: i64)
    requires
        v1 <= v2,
    ensures
        quantize_spec(v1) <= quantize_spec(v2),
{
    lemma_div_by_multiple(255, FX_ONE as int);
    assert(FX_ONE as int * 255 == 255 * (FX_ONE as int));
    if v1 > FX_ONE {
    } else if v1 < 0 {
    } else {
        if v2 > FX_ONE {
            lemma_div_is_ordered(v1 as int * 255, FX_ONE as int * 255, FX_ONE as int);
        } else if v2 >= 0 {
            lemma_div_is_ordered(v1 as int * 255, v2 as int * 255, FX_ONE as int);
            lemma_div_is_ordered(v2 as int * 255, FX_ONE as int * 255, FX_ONE as int);
        }
    }
}

/// The fixed-point value of the byte `b / 255`: the rescaling that turns a
/// quantized field back into a real-valued one.
pub open spec fn rescale_spec(b: u8) -> i64 {
    fx_div_spec(fx_from_nat_spec(b as int), fx_from_nat_spec(255))
}

/// Quantization is idempotent on the extremes: a field holding exactly
/// 0 or 1 quantizes to 0 or 255, and rescaling that byte back to a real
/// value and quantizing again gives the same byte.
pub proof fn lemma_quantize_idempotent(v: i64)
    requires
        v == 0 || v == FX_ONE,
    ensures
        quantize_spec(v) == (if v == 0 {
            0u8
        } else {
            255u8
        }),
        rescale_spec(quantize_spec(v)) == v,
        quantize_spec(rescale_spec(quantize_spec(v))) == quantize_spec(v),
{
    lemma_div_by_multiple(255, FX_ONE as int);
    assert(FX_ONE as int * 255 == 255 * (FX_ONE as int));
    if v == FX_ONE {
        assert(quantize_spec(v) == 255u8);
        assert(rescale_spec(255u8) == FX_ONE) by {
            lemma_div_by_multiple(FX_ONE as int, 255 * (FX_ONE as int));
            assert((255 * (FX_ONE as int)) * (FX_ONE as int) == (FX_ONE as int) * (255 * (
            FX_ONE as int))) by (nonlinear_arith);
        }
    } else {
        assert(quantize_spec(0i64) == 0u8);
        assert(rescale_spec(0u8) == 0i64);
    }
}

} // verus!
