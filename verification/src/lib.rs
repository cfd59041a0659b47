//! A Mandelbrot escape-time renderer over saturating Q32.32 fixed-point
//! arithmetic: a coordinate camera, a parallel escape-time field generator,
//! a tone-mapping and quantization filter pipeline, and a byte-buffer
//! render step.

use vstd::prelude::*;

pub mod camera;
pub mod field;
pub mod filter;
pub mod fx;
pub mod mandelbrot;

pub use camera::{default_camera, Complex, ComplexCamera, Dims, Xy};
pub use field::{render_spec, QuantizedField, ScalarField};
pub use filter::{
    default_gray_filter, lemma_quantize_idempotent, lemma_quantize_monotonic, quantize,
    quantize_spec, rescale_spec, GrayExponentialFilter, Quantization8,
};
pub use mandelbrot::{
    default_mandelbrot, escape_time, lemma_origin_never_escapes, pixel_spec, pixel_value_at,
    Mandelbrot,
};

verus! {

/// Outcome of one full generation request, as reported to an embedding
/// host: success, or a failure to persist the image.
pub enum GenerationResult {
    Saved,
    FileSaveError,
}

impl GenerationResult {
    /// The byte code handed across the embedding boundary: 0 for success,
    /// 1 for a persistence failure.
    pub fn code(&self) -> (r: u8)
        ensures
            r == (if self is Saved {
                0u8
            } else {
                1u8
            }),
    {
        match self {
            GenerationResult::Saved => 0,
            GenerationResult::FileSaveError => 1,
        }
    }
}

/// The byte buffer produced by the default pipeline for a given iteration
/// budget: generate the field with the default camera, tone-map it,
/// quantize it, and flatten it row-major.
pub open spec fn mandelbrot_bytes(n_iters: usize) -> Seq<u8> {
    let m = Mandelbrot {
        camera: default_camera(),
        n_iters,
        escape_threshold: 429496729600i64,
    };
    let field = Seq::new(1048576nat, |k: int| m.pixel_at_spec(k));
    let gray = default_gray_filter().filter_spec(field);
    let quant = Quantization8::filter_spec(gray);
    render_spec(1024, 1024, quant)
}

/// Run the whole default pipeline: a 1024 x 1024 field for the given
/// iteration budget, tone-mapped, quantized, and flattened row-major into
/// one byte per pixel.
pub fn generate_mandelbrot(n_iters: u32) -> (r: Vec<u8>)
    requires
        n_iters >= 1,
    ensures
        r@.len() == 1048576,
        r@ == mandelbrot_bytes(n_iters as usize),
{
    let m = Mandelbrot {
        camera: ComplexCamera::default(),
        n_iters: n_iters as usize,
        escape_threshold: 429496729600,
    };
    let field = m.generate();
    proof {
        assert(field.data@ =~= Seq::new(1048576nat, |k: int| m.pixel_at_spec(k)));
    }
    let gray = GrayExponentialFilter::default().filter(field);
    let quant = Quantization8.filter(gray);
    let bytes = quant.render();
    proof {
        assert(bytes@ =~= mandelbrot_bytes(n_iters as usize));
    }
    bytes
}

} // verus!
