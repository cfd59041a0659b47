//! Tests of the camera, the generator, the filters, the render step, and
//! the end-to-end default pipeline.

use baskin_rs::fx::{fx_div, fx_from_usize, FX_HALF, FX_ONE};
use baskin_rs::{
    escape_time, generate_mandelbrot, pixel_value_at, quantize, Complex, ComplexCamera,
    GenerationResult, GrayExponentialFilter, Mandelbrot, Quantization8, QuantizedField,
    ScalarField, Xy,
};

const T: i64 = FX_ONE;

#[test]
fn to_tuple_returns_the_pair() {
    let p = Xy { x: 3usize, y: 7usize };
    assert_eq!(p.to_tuple(), (3, 7));
}

#[test]
fn default_configuration_matches_the_documented_values() {
    let m = Mandelbrot::default();
    assert_eq!(m.n_iters, 1000);
    assert_eq!(m.escape_threshold, 100 * T);
    assert_eq!(m.camera.image_dims.to_tuple(), (1024, 1024));
    assert_eq!(m.camera.zoom, 1288490189); // 0.3 in Q32.32
    assert_eq!(m.camera.center.re, -FX_HALF);
    assert_eq!(m.camera.center.im, 0);
}

#[test]
fn image_to_scene_maps_the_center_pixel_to_the_camera_center() {
    let cam = ComplexCamera::default();
    let c = cam.image_to_scene(Xy { x: 512, y: 512 });
    // 512/1024 - 1/2 == 0, so both components sit at the center.
    assert_eq!(c.re, cam.center.re);
    assert_eq!(c.im, cam.center.im);
}

#[test]
fn image_to_scene_is_defined_on_every_corner() {
    let cam = ComplexCamera::default();
    let corners = [(0usize, 0usize), (0, 1023), (1023, 0), (1023, 1023)];
    for (x, y) in corners {
        let c = cam.image_to_scene(Xy { x, y });
        // Every pixel in range maps to a representable value.
        assert!(c.re > i64::MIN && c.re < i64::MAX);
        assert!(c.im > i64::MIN && c.im < i64::MAX);
    }
}

#[test]
fn scene_to_image_applies_the_documented_formula() {
    let cam = ComplexCamera::default();
    // re - center.re == 2, so trunc(2 * 0.3 + 0.5) == 1, times width 1024.
    let p = cam.scene_to_image(Complex { re: cam.center.re + 2 * T, im: 0 });
    assert_eq!(p.x, 1024);
    assert_eq!(p.y, 0);
}

#[test]
fn gray_filter_default_matches_the_documented_values() {
    let f = GrayExponentialFilter::default();
    assert_eq!(f.multiplier, T); // 1.0
    assert_eq!(f.power, 429496730); // 0.1 in Q32.32
}

#[test]
fn quantize_clamps_at_the_boundaries() {
    assert_eq!(quantize(-429496730), 0); // -0.1
    assert_eq!(quantize(4724464026), 255); // 1.1
    assert_eq!(quantize(FX_HALF), 127); // 0.5
    assert_eq!(quantize(0), 0);
    assert_eq!(quantize(T), 255);
}

#[test]
fn quantize_is_monotonic_on_samples() {
    let samples = [i64::MIN, -T, -1, 0, 1, FX_HALF, T - 1, T, T + 1, 4 * T, i64::MAX];
    for i in 0..samples.len() {
        for j in i..samples.len() {
            assert!(quantize(samples[i]) <= quantize(samples[j]));
        }
    }
}

#[test]
fn quantize_round_trips_on_the_extremes() {
    // A field of exactly 0 and 1 quantizes to 0 and 255; rescaling the
    // bytes back to the unit range and quantizing again changes nothing.
    for v in [0i64, T] {
        let b = quantize(v);
        assert_eq!(b, if v == 0 { 0 } else { 255 });
        let rescaled = fx_div(fx_from_usize(b as usize), fx_from_usize(255));
        assert_eq!(rescaled, v);
        assert_eq!(quantize(rescaled), b);
    }
}

#[test]
fn known_point_escapes_with_the_exact_smoothed_count() {
    // c = 2 + 0i, threshold 100: orbit 2, 6, 38; |38|^2 = 1444 > 100 at
    // iteration index 2, so the value is 2 + 1 - log2(log2(1444)/2).
    let c = Complex { re: 2 * T, im: 0 };
    assert_eq!(escape_time(c, 100 * T, 10), 2612423338);
    assert_eq!(escape_time(c, 100 * T, 1000), 2612423338);
}

#[test]
fn origin_never_escapes() {
    let c = Complex { re: 0, im: 0 };
    for n in [1usize, 2, 7, 1000] {
        assert_eq!(escape_time(c, 100 * T, n), 0);
    }
}

fn small_config() -> Mandelbrot {
    Mandelbrot {
        camera: ComplexCamera {
            image_dims: Xy { x: 64, y: 64 },
            ..ComplexCamera::default()
        },
        n_iters: 50,
        ..Mandelbrot::default()
    }
}

#[test]
fn generated_field_has_the_configured_shape() {
    let field = small_config().generate();
    assert_eq!(field.dims.to_tuple(), (64, 64));
    assert_eq!(field.data.len(), 64 * 64);
}

#[test]
fn parallel_fill_matches_the_per_pixel_function() {
    let m = small_config();
    let field = m.generate();
    for k in [0usize, 1, 63, 64, 1000, 4095] {
        assert_eq!(field.data[k], pixel_value_at(&m, k));
    }
}

#[test]
fn end_to_end_small_scenario_produces_one_byte_per_pixel() {
    let field = small_config().generate();
    let gray = GrayExponentialFilter { multiplier: T, power: 429496730 }.filter(field);
    let quant = Quantization8.filter(gray);
    let bytes = quant.render();
    assert_eq!(bytes.len(), 4096);
    // Bytes land in [0, 255] by type; the field must not be constant black.
    assert!(bytes.iter().any(|&b| b > 0));
}

#[test]
fn empty_field_fails_the_filter_precondition_check() {
    let filter = GrayExponentialFilter::default();
    let empty = ScalarField { dims: Xy { x: 0, y: 0 }, data: Vec::new() };
    assert!(filter.filter_checked(empty).is_none());
}

#[test]
fn nonempty_field_passes_the_filter_precondition_check() {
    let filter = GrayExponentialFilter { multiplier: T, power: 429496730 };
    let field = ScalarField { dims: Xy { x: 2, y: 1 }, data: vec![0, T] };
    let out = filter.filter_checked(field).unwrap();
    // range is 1, 1^0.1 == 1 exactly, and non-positive cells map to zero.
    assert_eq!(out.data, vec![0, T]);
}

#[test]
fn constant_field_maps_to_black() {
    let filter = GrayExponentialFilter { multiplier: T, power: 429496730 };
    let field = ScalarField { dims: Xy { x: 2, y: 2 }, data: vec![3 * T; 4] };
    let out = filter.filter(field);
    assert_eq!(out.data, vec![0, 0, 0, 0]);
}

#[test]
fn render_flattens_row_major_from_column_major_storage() {
    // dims.x == 2 rows, dims.y == 3 columns; cell (x, y) at x + y * 2.
    let field = QuantizedField { dims: Xy { x: 2, y: 3 }, data: vec![1, 2, 3, 4, 5, 6] };
    assert_eq!(field.render(), vec![1, 3, 5, 2, 4, 6]);
}

#[test]
fn default_pipeline_produces_a_full_buffer() {
    let bytes = generate_mandelbrot(2);
    assert_eq!(bytes.len(), 1024 * 1024);
}

#[test]
fn generation_result_codes_match_the_embedding_contract() {
    assert_eq!(GenerationResult::Saved.code(), 0);
    assert_eq!(GenerationResult::FileSaveError.code(), 1);
}
