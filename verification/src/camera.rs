//! Pixel coordinates and the coordinate camera: the affine mapping between
//! the complex plane of the scene and the pixel grid of the image.

use vstd::prelude::*;

verus! {

use vstd::arithmetic::div_mod::lemma_fundamental_div_mod;
use vstd::arithmetic::mul::lemma_mul_inequality;
use crate::fx::{
    fx_add, fx_add_spec, fx_div, fx_div_spec, fx_from_nat_spec, fx_from_usize, fx_mul,
    fx_mul_spec, fx_sub, fx_sub_spec, FX_HALF, FX_ONE,
};

/// A pair of per-axis values; `x` indexes rows (height), `y` indexes
/// columns (width).
#[derive(Clone, Copy)]
pub struct Xy<T> {
    pub x: T,
    pub y: T,
}

impl<T: Copy> Xy<T> {
    pub fn to_tuple(&self) -> (r: (T, T))
        ensures
            r.0 == self.x,
            r.1 == self.y,
    {
        (self.x, self.y)
    }
}

/// Image dimensions in pixels.
pub type Dims = Xy<usize>;

/// A complex number with Q32.32 fixed-point components.
#[derive(Clone, Copy)]
pub struct Complex {
    pub re: i64,
    pub im: i64,
}

/// The camera: image dimensions, a zoom factor, and the scene coordinates
/// of the image center.
pub struct ComplexCamera {
    pub image_dims: Dims,
    pub zoom: i64,
    pub center: Complex,
}

/// The documented default camera: 1024 x 1024 pixels, zoom 0.3,
/// centered at -0.5 + 0i.
pub open spec fn default_camera() -> ComplexCamera {
    ComplexCamera {
        image_dims: Xy { x: 1024usize, y: 1024usize },
        zoom: 1288490189i64,
        center: Complex { re: -2147483648i64, im: 0i64 },
    }
}

impl Default for ComplexCamera {
    fn default() -> (r: ComplexCamera)
        ensures
            r == default_camera(),
    {
        ComplexCamera {
            image_dims: Xy { x: 1024, y: 1024 },
            zoom: 1288490189,
            center: Complex { re: -2147483648, im: 0 },
        }
    }
}

/// Truncation of a non-negative fixed-point value to a pixel index;
/// negative values map to pixel zero.
pub open spec fn fx_pixel(v: i64) -> int {
    if v < 0 {
        0int
    } else {
        (v as int) / (FX_ONE as int)
    }
}

/// Product of two pixel counts, saturating at `usize::MAX`.
pub open spec fn sat_mul_spec(a: int, b: int) -> int {
    if a * b > usize::MAX as int {
        usize::MAX as int
    } else {
        a * b
    }
}

fn pixel_of_fx(v: i64) -> (r: usize)
    ensures
        r as int == fx_pixel(v),
{
    if v < 0 {
        0
    } else {
        ((v as u64) / 4294967296u64) as usize
    }
}

fn sat_mul(a: usize, b: usize) -> (r: usize)
    requires
        b >= 1,
    ensures
        r as int == sat_mul_spec(a as int, b as int),
{
    proof {
        lemma_fundamental_div_mod(usize::MAX as int, b as int);
        let q = usize::MAX as int / b as int;
        assert(q * (b as int) == (b as int) * q) by (nonlinear_arith);
        assert((q + 1) * (b as int) == q * (b as int) + b as int) by (nonlinear_arith);
    }
    if a > usize::MAX / b {
        proof {
            lemma_mul_inequality(usize::MAX as int / b as int + 1, a as int, b as int);
        }
        usize::MAX
    } else {
        proof {
            lemma_mul_inequality(a as int, usize::MAX as int / b as int, b as int);
        }
        a * b
    }
}

impl ComplexCamera {
    /// Validity: positive dimensions whose product is a representable
    /// pixel count, and a positive zoom.
    pub open spec fn wf(self) -> bool {
        &&& self.image_dims.x >= 1
        &&& self.image_dims.y >= 1
        &&& self.image_dims.x as int * self.image_dims.y as int <= usize::MAX as int
        &&& self.zoom >= 1
    }

    /// Scene coordinate of a pixel:
    /// `re = (x / width - 1/2) / zoom + center.re` and
    /// `im = (y / height - 1/2) / zoom + center.im`, where `width` is the
    /// second dimension and `height` the first, evaluated in saturating
    /// fixed-point arithmetic.
    pub open spec fn image_to_scene_spec(self, x: int, y: int) -> Complex {
        let w = fx_from_nat_spec(self.image_dims.y as int);
        let h = fx_from_nat_spec(self.image_dims.x as int);
        Complex {
            re: fx_add_spec(
                fx_div_spec(fx_sub_spec(fx_div_spec(fx_from_nat_spec(x), w), FX_HALF), self.zoom),
                self.center.re,
            ),
            im: fx_add_spec(
                fx_div_spec(fx_sub_spec(fx_div_spec(fx_from_nat_spec(y), h), FX_HALF), self.zoom),
                self.center.im,
            ),
        }
    }

    /// Pixel coordinate of a scene point:
    /// `x = trunc((re - center.re) * zoom + 1/2) * width` and the
    /// analogous column formula, with the multiplication saturating.
    pub open spec fn scene_to_image_spec(self, c: Complex) -> (int, int) {
        let px = fx_pixel(
            fx_add_spec(fx_mul_spec(fx_sub_spec(c.re, self.center.re), self.zoom), FX_HALF),
        );
        let py = fx_pixel(
            fx_add_spec(fx_mul_spec(fx_sub_spec(c.im, self.center.im), self.zoom), FX_HALF),
        );
        (
            sat_mul_spec(px, self.image_dims.y as int),
            sat_mul_spec(py, self.image_dims.x as int),
        )
    }

    pub fn image_to_scene(&self, image_coords: Xy<usize>) -> (r: Complex)
        requires
            self.wf(),
        ensures
            r == self.image_to_scene_spec(image_coords.x as int, image_coords.y as int),
    {
        let w = fx_from_usize(self.image_dims.y);
        let h = fx_from_usize(self.image_dims.x);
        proof {
            assert(self.image_dims.y as int * (FX_ONE as int) >= FX_ONE as int);
            assert(self.image_dims.x as int * (FX_ONE as int) >= FX_ONE as int);
        }
        let xr = fx_div(fx_from_usize(image_coords.x), w);
        let re = fx_add(fx_div(fx_sub(xr, FX_HALF), self.zoom), self.center.re);
        let yr = fx_div(fx_from_usize(image_coords.y), h);
        let im = fx_add(fx_div(fx_sub(yr, FX_HALF), self.zoom), self.center.im);
        Complex { re, im }
    }

    pub fn scene_to_image(&self, scene_coords: Complex) -> (r: Xy<usize>)
        requires
            self.wf(),
        ensures
            r.x as int == self.scene_to_image_spec(scene_coords).0,
            r.y as int == self.scene_to_image_spec(scene_coords).1,
    {
        let px = pixel_of_fx(
            fx_add(fx_mul(fx_sub(scene_coords.re, self.center.re), self.zoom), FX_HALF),
        );
        let py = pixel_of_fx(
            fx_add(fx_mul(fx_sub(scene_coords.im, self.center.im), self.zoom), FX_HALF),
        );
        Xy { x: sat_mul(px, self.image_dims.y), y: sat_mul(py, self.image_dims.x) }
    }
}

} // verus!
