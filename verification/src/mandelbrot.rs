//! The escape-time generator: the per-pixel iteration with its smoothed
//! escape count, and the parallel field fill.

use vstd::prelude::*;

use rayon::iter::{IntoParallelIterator, ParallelIterator};

verus! {

use crate::camera::{default_camera, Complex, ComplexCamera, Xy};
use crate::field::ScalarField;
use crate::fx::{
    fx_add, fx_add_spec, fx_from_nat_spec, fx_from_usize, fx_log2, fx_mul, fx_mul_spec, fx_sub,
    fx_sub_spec, lemma_lg_bounds, lemma_lg_upper_small, lg_spec, tdiv, FX_ONE,
};

/// The full generation configuration.
pub struct Mandelbrot {
    pub camera: ComplexCamera,
    pub n_iters: usize,
    pub escape_threshold: i64,
}

/// The documented default configuration: the default camera, 1000
/// iterations, escape threshold 100.
pub open spec fn default_mandelbrot() -> Mandelbrot {
    Mandelbrot { camera: default_camera(), n_iters: 1000usize, escape_threshold: 429496729600i64 }
}

impl Default for Mandelbrot {
    fn default() -> (r: Mandelbrot)
        ensures
            r == default_mandelbrot(),
    {
        Mandelbrot {
            camera: ComplexCamera::default(),
            n_iters: 1000,
            escape_threshold: 429496729600,
        }
    }
}

/// Real part of `z^2 + c`.
pub open spec fn step_re(zre: i64, zim: i64, cre: i64) -> i64 {
    fx_add_spec(fx_sub_spec(fx_mul_spec(zre, zre), fx_mul_spec(zim, zim)), cre)
}

/// Imaginary part of `z^2 + c`.
pub open spec fn step_im(zre: i64, zim: i64, cim: i64) -> i64 {
    fx_add_spec(fx_add_spec(fx_mul_spec(zre, zim), fx_mul_spec(zim, zre)), cim)
}

/// Squared modulus `re^2 + im^2`.
pub open spec fn sq_modulus(zre: i64, zim: i64) -> i64 {
    fx_add_spec(fx_mul_spec(zre, zre), fx_mul_spec(zim, zim))
}

/// The smoothed escape value `i + (1 - log2(log2(ev) / 2))` recorded when
/// the squared modulus `ev` first exceeds the threshold at iteration `i`.
/// Where the inner quotient is below the smallest positive value the
/// correction term is taken as zero (the limit of the representation).
pub open spec fn smooth_spec(i: int, ev: i64) -> i64 {
    let inner = tdiv(lg_spec(ev as int) as int, 2);
    let corr: i64 = if inner >= 1 {
        lg_spec(inner)
    } else {
        0i64
    };
    fx_sub_spec(fx_add_spec(fx_from_nat_spec(i), FX_ONE), corr)
}

/// The escape-time recurrence from iteration `i` with current value `z`:
/// zero if the orbit never escapes within `n` iterations.
pub open spec fn escape_at(
    zre: i64,
    zim: i64,
    cre: i64,
    cim: i64,
    thr: i64,
    i: nat,
    n: nat,
) -> i64
    decreases n - i,
{
    if i >= n {
        0i64
    } else {
        let zre2 = step_re(zre, zim, cre);
        let zim2 = step_im(zre, zim, cim);
        let ev = sq_modulus(zre2, zim2);
        if ev > thr {
            smooth_spec(i as int, ev)
        } else {
            escape_at(zre2, zim2, cre, cim, thr, (i + 1) as nat, n)
        }
    }
}

/// The field value of the pixel whose scene coordinate is `c`.
pub open spec fn pixel_spec(c: Complex, thr: i64, n: nat) -> i64 {
    escape_at(0i64, 0i64, c.re, c.im, thr, 0, n)
}

fn half_toward_zero(v: i64) -> (r: i64)
    ensures
        r as int == tdiv(v as int, 2),
{
    if v >= 0 {
        ((v as u64) / 2) as i64
    } else {
        let m = (-(v as i128)) as u128;
        -((m / 2) as i64)
    }
}

/// Iterate `z := z^2 + c` up to `n_iters` times and report the smoothed
/// escape value, or zero if the orbit stays within the threshold.
pub fn escape_time(c: Complex, escape_threshold: i64, n_iters: usize) -> (r: i64)
    requires
        escape_threshold >= 1,
    ensures
        r == pixel_spec(c, escape_threshold, n_iters as nat),
{
    let mut zre: i64 = 0;
    let mut zim: i64 = 0;
    let mut i: usize = 0;
    while i < n_iters
        invariant
            0 <= i <= n_iters,
            escape_threshold >= 1,
            pixel_spec(c, escape_threshold, n_iters as nat) == escape_at(
                zre,
                zim,
                c.re,
                c.im,
                escape_threshold,
                i as nat,
                n_iters as nat,
            ),
        decreases n_iters as int - i as int,
    {
        let t_rr = fx_mul(zre, zre);
        let t_ii = fx_mul(zim, zim);
        let t_ri = fx_mul(zre, zim);
        let t_ir = fx_mul(zim, zre);
        let zre2 = fx_add(fx_sub(t_rr, t_ii), c.re);
        let zim2 = fx_add(fx_add(t_ri, t_ir), c.im);
        let ev = fx_add(fx_mul(zre2, zre2), fx_mul(zim2, zim2));
        if ev > escape_threshold {
            let lg_ev = fx_log2(ev);
            let inner = half_toward_zero(lg_ev);
            let corr: i64 = if inner >= 1 {
                fx_log2(inner)
            } else {
                0
            };
            let base = fx_add(fx_from_usize(i), FX_ONE);
            return fx_sub(base, corr);
        }
        zre = zre2;
        zim = zim2;
        i += 1;
    }
    0
}

impl Mandelbrot {
    /// Validity: a valid camera, at least one iteration, a positive
    /// threshold.
    pub open spec fn wf(self) -> bool {
        &&& self.camera.wf()
        &&& self.n_iters >= 1
        &&& self.escape_threshold >= 1
    }

    /// The field value at column-major offset `k`: pixel
    /// `(k % dims.x, k / dims.x)` mapped into the scene and iterated.
    pub open spec fn pixel_at_spec(self, k: int) -> i64 {
        let nx = self.camera.image_dims.x as int;
        let c = self.camera.image_to_scene_spec(k % nx, k / nx);
        pixel_spec(c, self.escape_threshold, self.n_iters as nat)
    }

    /// Generate the whole field: shape `(dims.x, dims.y)`, every cell the
    /// escape value of its own pixel.
    pub fn generate(&self) -> (r: ScalarField)
        requires
            self.wf(),
        ensures
            r.dims == self.camera.image_dims,
            r.data@.len() == self.camera.image_dims.x as int * self.camera.image_dims.y as int,
            forall|k: int| 0 <= k < r.data@.len() ==> r.data@[k] == self.pixel_at_spec(k),
    {
        let n = self.camera.image_dims.x * self.camera.image_dims.y;
        let data = compute_cells(self, n);
        ScalarField { dims: self.camera.image_dims, data }
    }
}

/// The verified per-pixel computation handed to the parallel fill.
pub fn pixel_value_at(m: &Mandelbrot, k: usize) -> (r: i64)
    requires
        m.wf(),
        k < m.camera.image_dims.x * m.camera.image_dims.y,
    ensures
        r == m.pixel_at_spec(k as int),
{
    let nx = m.camera.image_dims.x;
    let x = k % nx;
    let y = k / nx;
    let c = m.camera.image_to_scene(Xy { x, y });
    escape_time(c, m.escape_threshold, m.n_iters)
}

proof fn lemma_smooth_bounded(i: int, ev: i64)
    requires
        i >= 0,
        ev >= 2,
    ensures
        smooth_spec(i, ev) as int >= -5 * (FX_ONE as int),
{
    lemma_lg_bounds(ev as int);
    let lg_ev = lg_spec(ev as int) as int;
    let inner = tdiv(lg_ev, 2);
    assert(inner <= 17 * (FX_ONE as int)) by {
        vstd::arithmetic::div_mod::lemma_div_is_ordered(
            if lg_ev < 0 { -lg_ev } else { lg_ev },
            33 * (FX_ONE as int),
            2,
        );
    }
    if inner >= 1 {
        lemma_lg_upper_small(inner);
    }
}

proof fn lemma_escape_bounded(zre: i64, zim: i64, cre: i64, cim: i64, thr: i64, i: nat, n: nat)
    requires
        thr >= 1,
    ensures
        escape_at(zre, zim, cre, cim, thr, i, n) as int >= -5 * (FX_ONE as int),
    decreases n - i,
{
    if i < n {
        let zre2 = step_re(zre, zim, cre);
        let zim2 = step_im(zre, zim, cim);
        let ev = sq_modulus(zre2, zim2);
        if ev > thr {
            lemma_smooth_bounded(i as int, ev);
        } else {
            lemma_escape_bounded(zre2, zim2, cre, cim, thr, i + 1, n);
        }
    }
}

/// Every field value is bounded below by minus five units: the smoothing
/// correction can never exceed six units in this representation, while a
/// pixel that never escapes keeps the zero fill.
pub proof fn lemma_field_value_bounded_below(c: Complex, thr: i64, n: nat)
    requires
        thr >= 1,
    ensures
        pixel_spec(c, thr, n) as int >= -5 * (FX_ONE as int),
{
    lemma_escape_bounded(0i64, 0i64, c.re, c.im, thr, 0, n);
}

proof fn lemma_origin_stays_zero(thr: i64, i: nat, n: nat)
    requires
        thr >= 1,
    ensures
        escape_at(0i64, 0i64, 0i64, 0i64, thr, i, n) == 0i64,
    decreases n - i,
{
    if i < n {
        assert(step_re(0i64, 0i64, 0i64) == 0i64);
        assert(step_im(0i64, 0i64, 0i64) == 0i64);
        assert(sq_modulus(0i64, 0i64) == 0i64);
        lemma_origin_stays_zero(thr, i + 1, n);
    }
}

/// A pixel whose scene coordinate is the origin never escapes: for every
/// iteration budget and every positive threshold its field value stays at
/// the zero fill.
pub proof fn lemma_origin_never_escapes(c: Complex, thr: i64, n: nat)
    requires
        c.re == 0,
        c.im == 0,
        thr >= 1,
    ensures
        pixel_spec(c, thr, n) == 0i64,
{
    lemma_origin_stays_zero(thr, 0, n);
}

/// Relies on rayon's `into_par_iter` / `map` / `collect` over a range:
/// an indexed parallel iterator keeps index order under `map`, so the
/// collected vector holds, at each index, the value of the verified
/// per-pixel function for that index.
#[verifier::external_body]
fn compute_cells(m: &Mandelbrot, n: usize) -> (r: Vec<i64>)
    requires
        m.wf(),
        n == m.camera.image_dims.x * m.camera.image_dims.y,
    ensures
        r@.len() == n as int,
        forall|k: int| 0 <= k < n as int ==> r@[k] == m.pixel_at_spec(k),
{
    (0..n).into_par_iter().map(|k| pixel_value_at(m, k)).collect()
}

} // verus!
