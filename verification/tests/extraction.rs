//! Extraction on rendered images, with the arithmetic in floating point.

use numeris::imageproc::{gaussian_blur, BorderMode};
use numeris::DynMatrix;
use tetra3::background::{Corners, Deviation};
use tetra3::blobs::Place;
use tetra3::ccl::{Arithmetic, GrayBlob};
use tetra3::config::{self as settings, DeblendMode, InputError};
use tetra3::fast::{FastArithmetic, FastBlob};
use tetra3::gray::{ImageData, Samples};
use tetra3::ieee::{F32, F64};
use tetra3::measure::{Blob, Matrix2};
use tetra3::peak::{gather_moments, measure_peak, Fit, Moments, Position, ShapeArithmetic, Sums};
use tetra3::stats::Median;

fn single(v: f32) -> F32 {
    F32 { bits: v.to_bits() }
}

fn double(v: f64) -> F64 {
    F64 { bits: v.to_bits() }
}

fn value(v: F32) -> f32 {
    f32::from_bits(v.bits)
}

fn bits(pixels: &[f32]) -> Vec<F32> {
    pixels.iter().map(|&v| single(v)).collect()
}

/// Settings in floating point.
#[derive(Clone, Copy)]
struct CentroidExtractionConfig {
    sigma_threshold: f32,
    min_pixels: usize,
    max_pixels: usize,
    max_centroids: Option<usize>,
    sigma_clip_iterations: usize,
    sigma_clip_factor: f32,
    use_8_connectivity: bool,
    local_bg_block_size: Option<u32>,
    max_elongation: Option<f32>,
    matched_filter_sigma: Option<f32>,
    max_sharpness: Option<f32>,
    saturation_level: Option<f32>,
    deblend: DeblendMode,
    border_margin: u32,
}

impl Default for CentroidExtractionConfig {
    fn default() -> Self {
        let c = settings::CentroidExtractionConfig::default();
        CentroidExtractionConfig {
            sigma_threshold: value(c.sigma_threshold),
            min_pixels: c.min_pixels,
            max_pixels: c.max_pixels,
            max_centroids: c.max_centroids,
            sigma_clip_iterations: c.sigma_clip_iterations,
            sigma_clip_factor: value(c.sigma_clip_factor),
            use_8_connectivity: c.use_8_connectivity,
            local_bg_block_size: c.local_bg_block_size,
            max_elongation: c.max_elongation.map(value),
            matched_filter_sigma: c.matched_filter_sigma.map(value),
            max_sharpness: c.max_sharpness.map(value),
            saturation_level: c.saturation_level.map(value),
            deblend: c.deblend,
            border_margin: c.border_margin,
        }
    }
}

impl CentroidExtractionConfig {
    fn plain(&self) -> settings::CentroidExtractionConfig {
        settings::CentroidExtractionConfig {
            sigma_threshold: single(self.sigma_threshold),
            min_pixels: self.min_pixels,
            max_pixels: self.max_pixels,
            max_centroids: self.max_centroids,
            sigma_clip_iterations: self.sigma_clip_iterations,
            sigma_clip_factor: single(self.sigma_clip_factor),
            use_8_connectivity: self.use_8_connectivity,
            local_bg_block_size: self.local_bg_block_size,
            max_elongation: self.max_elongation.map(single),
            matched_filter_sigma: self.matched_filter_sigma.map(single),
            max_sharpness: self.max_sharpness.map(single),
            saturation_level: self.saturation_level.map(single),
            deblend: self.deblend,
            border_margin: self.border_margin,
        }
    }
}

/// Settings of the fast path in floating point.
#[derive(Clone, Copy)]
struct FastCentroidConfig {
    sigma_threshold: f32,
    bg_grid: u32,
    min_pixels: usize,
    max_centroids: Option<usize>,
    max_sharpness: Option<f32>,
    saturation_level: Option<f32>,
    max_pixels: usize,
    max_elongation: Option<f32>,
    border_margin: u32,
}

impl Default for FastCentroidConfig {
    fn default() -> Self {
        let c = settings::FastCentroidConfig::default();
        FastCentroidConfig {
            sigma_threshold: value(c.sigma_threshold),
            bg_grid: c.bg_grid,
            min_pixels: c.min_pixels,
            max_centroids: c.max_centroids,
            max_sharpness: c.max_sharpness.map(value),
            saturation_level: c.saturation_level.map(value),
            max_pixels: c.max_pixels,
            max_elongation: c.max_elongation.map(value),
            border_margin: c.border_margin,
        }
    }
}

#[derive(Debug)]
struct Star {
    x: f32,
    y: f32,
    mass: Option<f32>,
}

#[derive(Debug)]
struct Extraction {
    centroids: Vec<Star>,
    background_mean: f32,
    background_sigma: f32,
    threshold: f32,
    num_blobs_raw: usize,
}

fn extraction(r: settings::CentroidExtractionResult) -> Extraction {
    Extraction {
        centroids: r
            .centroids
            .iter()
            .map(|c| Star { x: value(c.x), y: value(c.y), mass: c.mass.map(value) })
            .collect(),
        background_mean: value(r.background_mean),
        background_sigma: value(r.background_sigma),
        threshold: value(r.threshold),
        num_blobs_raw: r.num_blobs_raw,
    }
}

fn rms(devs: &Vec<Deviation>) -> F32 {
    if devs.is_empty() {
        return single(0.0);
    }
    let sum: f64 = devs.iter().map(|&(v, m)| ((value(v) - value(m)) as f64).powi(2)).sum();
    single((sum / devs.len() as f64).sqrt() as f32)
}

fn weights(c: &Corners, x: usize, y: usize) -> (f32, f32) {
    let half = c.block as f32 / 2.0;
    let fx = (x as f32 - half) / c.block as f32;
    let fy = (y as f32 - half) / c.block as f32;
    (fx - c.bx as f32, fy - c.by as f32)
}

fn blend(c: Corners, x: usize, y: usize) -> f32 {
    let (tx, ty) = weights(&c, x, y);
    mix(c, tx.clamp(0.0, 1.0), ty.clamp(0.0, 1.0))
}

fn mix(c: Corners, tx: f32, ty: f32) -> f32 {
    let top = value(c.m00) * (1.0 - tx) + value(c.m10) * tx;
    let bot = value(c.m01) * (1.0 - tx) + value(c.m11) * tx;
    top * (1.0 - ty) + bot * ty
}

fn elongation_from_cov(cxx: f64, cyy: f64, cxy: f64) -> f32 {
    let trace = cxx + cyy;
    let det = cxx * cyy - cxy * cxy;
    let disc = (trace * trace - 4.0 * det).max(0.0).sqrt();
    let major = (trace + disc) / 2.0;
    let minor = (trace - disc).max(1e-12) / 2.0;
    (major / minor).sqrt() as f32
}

fn number(v: F64) -> f64 {
    f64::from_bits(v.bits)
}

fn accumulate(s: Sums, weight: F64, (r, c): Place, (r0, c0): Place) -> Sums {
    let i = number(weight);
    let (x, y) = (c as f64 - c0 as f64, r as f64 - r0 as f64);
    let plus = |a: F64, b: f64| double(number(a) + b);
    Sums {
        i: plus(s.i, i),
        x: plus(s.x, i * x),
        y: plus(s.y, i * y),
        xx: plus(s.xx, i * x * x),
        yy: plus(s.yy, i * y * y),
        xy: plus(s.xy, i * x * y),
    }
}

fn moments(s: Sums, (r0, c0): Place) -> Moments {
    let sum = number(s.i);
    let (x, y) = (number(s.x) / sum, number(s.y) / sum);
    let cxx = number(s.xx) / sum - x * x;
    let cyy = number(s.yy) / sum - y * y;
    let cxy = number(s.xy) / sum - x * y;
    Moments {
        flux: s.i,
        mass: single(sum as f32),
        center: (double(c0 as f64 + x), double(r0 as f64 + y)),
        cov: Matrix2 { xx: single(cxx as f32), xy: single(cxy as f32), yy: single(cyy as f32) },
        elongation: single(elongation_from_cov(cxx, cyy, cxy)),
    }
}

fn sharpness(peak: F64, ring: &Vec<F64>) -> F64 {
    let sum: f64 = ring.iter().map(|&v| number(v)).sum();
    double((number(peak) - sum / ring.len() as f64) / number(peak))
}

fn fit(peak: F64, ring: &Vec<F64>, logarithmic: bool) -> Fit {
    let g = |v: F64| if logarithmic { number(v).ln() } else { number(v) };
    let p = g(peak);
    let [nw, n, ne, w, e, sw, s, se] = [0, 1, 2, 3, 4, 5, 6, 7].map(|i: usize| g(ring[i]));
    let b = (e - w) / 2.0;
    let c = (s - n) / 2.0;
    let d = (e + w - 2.0 * p) / 2.0;
    let f = (s + n - 2.0 * p) / 2.0;
    let x = (se - sw - ne + nw) / 4.0;
    let denom = 4.0 * d * f - x * x;
    Fit {
        determinant: double(denom),
        x: double((x * c - 2.0 * f * b) / denom),
        y: double((x * b - 2.0 * d * c) / denom),
    }
}

fn shift((r, c): Place, f: Fit, center: Position) -> (Position, F64) {
    let (qx, qy) = (c as f64 + number(f.x), r as f64 + number(f.y));
    let d = (qx - number(center.0)).powi(2) + (qy - number(center.1)).powi(2);
    ((double(qx), double(qy)), double(d))
}

fn center(v: F64, n: usize) -> F32 {
    single(number(v) as f32 - (n - 1) as f32 / 2.0)
}

fn peak_sharpness(
    at: (usize, usize),
    size: (usize, usize),
    v: impl Fn(isize, isize) -> f64,
) -> Option<f64> {
    tetra3::peak::peak_sharpness(
        at,
        size,
        &|dy: isize, dx: isize| double(v(dy, dx)),
        &sharpness,
    )
    .map(number)
}

fn gaussian_noise_suppression(sigma: f32) -> f32 {
    let radius = (3.0 * sigma).ceil() as i64;
    let inv_two_sigma_sq = 1.0 / (2.0 * sigma as f64 * sigma as f64);
    let (mut sum, mut sum_sq) = (0.0f64, 0.0f64);
    for i in -radius..=radius {
        let w = (-((i * i) as f64) * inv_two_sigma_sq).exp();
        sum += w;
        sum_sq += w * w;
    }
    (sum_sq / (sum * sum)) as f32
}

fn average(a: F32, b: F32) -> F32 {
    single((value(a) + value(b)) / 2.0)
}

fn lowered(level: F32, sigma: F32, factor: F32) -> F32 {
    single(value(level) - value(factor) * value(sigma))
}

fn lifted(level: F32, sigma: F32, factor: F32) -> F32 {
    single(value(level) + value(factor) * value(sigma))
}

fn threshold(level: F32, sigma: F32, factor: F32, filter: Option<F32>) -> F32 {
    let suppression = filter.map_or(1.0, |s| gaussian_noise_suppression(value(s)));
    single(value(level) + value(factor) * value(sigma) * suppression)
}

fn blur(image: &Vec<F32>, w: usize, h: usize, sigma: F32) -> Vec<F32> {
    let plain: Vec<f32> = image.iter().map(|&v| value(v)).collect();
    let mat = DynMatrix::from_vec(w, h, plain);
    bits(&gaussian_blur(&mat, value(sigma), BorderMode::Replicate).into_vec())
}

fn estimate_background(
    pixels: &[f32],
    _width: u32,
    _height: u32,
    config: &CentroidExtractionConfig,
) -> (f32, f32) {
    let (mean, sigma) = tetra3::noise::estimate_background(
        &bits(pixels),
        config.sigma_clip_iterations,
        single(config.sigma_clip_factor),
        &average,
        &rms,
        &lowered,
    );
    (value(mean), value(sigma))
}

fn level(around: &Median) -> f64 {
    let m = match *around {
        Median::Empty => 0.0,
        Median::Middle(m) => value(m),
        Median::Between(a, b) => (value(a) + value(b)) / 2.0,
    };
    m as f64
}

fn weight(v: F32, around: &Median) -> F64 {
    double((value(v) as f64 - level(around)).max(0.0))
}

fn excess(v: F32, around: &Median) -> F64 {
    double(value(v) as f64 - level(around))
}

fn floor(peak: F64, around: &Median) -> F32 {
    single((level(around) + 0.3 * number(peak)) as f32)
}

fn surface(c: Corners, x: usize, y: usize) -> F32 {
    let (tx, ty) = weights(&c, x, y);
    single(mix(c, tx, ty))
}

fn minus(a: F32, b: F32) -> F32 {
    single(value(a) - value(b))
}

fn weigh(r: F32, g: F32, b: F32) -> F32 {
    single(0.2126 * value(r) + 0.7152 * value(g) + 0.0722 * value(b))
}

fn extract_centroids_from_image(
    img: &ImageData,
    config: &CentroidExtractionConfig,
) -> Result<Extraction, InputError> {
    let arithmetic = Arithmetic {
        average,
        rms,
        cut: lowered,
        blend: surface,
        subtract: minus,
        blur,
        threshold,
        blob: GrayBlob {
            weight,
            excess,
            floor,
            shape: ShapeArithmetic { accumulate, moments, sharpness, fit, shift, center },
        },
    };
    tetra3::gray::extract_centroids_from_image(img, &config.plain(), &weigh, &arithmetic)
        .map(extraction)
}

fn extract_centroids_from_raw(
    pixels: &[f32],
    width: u32,
    height: u32,
    config: &CentroidExtractionConfig,
) -> Result<Extraction, InputError> {
    let arithmetic = Arithmetic {
        average,
        rms,
        cut: lowered,
        blend: surface,
        subtract: minus,
        blur,
        threshold,
        blob: GrayBlob {
            weight,
            excess,
            floor,
            shape: ShapeArithmetic { accumulate, moments, sharpness, fit, shift, center },
        },
    };
    tetra3::ccl::extract_centroids_from_raw(
        &bits(pixels),
        width,
        height,
        &config.plain(),
        &arithmetic,
    )
    .map(extraction)
}

fn extract_centroids_fast(
    pixels: &[f32],
    width: u32,
    height: u32,
    config: &FastCentroidConfig,
) -> Result<Extraction, InputError> {
    let arithmetic = FastArithmetic {
        rms,
        cutoff: |c: Corners, x: usize, y: usize, sigma: F32, factor: F32| {
            lifted(single(blend(c, x, y)), sigma, factor)
        },
        blob: FastBlob {
            weight: |v: F32, c: Corners, x: usize, y: usize| {
                double((value(v) - blend(c, x, y)).max(0.0) as f64)
            },
            excess: |v: F32, c: Corners, x: usize, y: usize| {
                double(value(v) as f64 - blend(c, x, y) as f64)
            },
            shape: ShapeArithmetic { accumulate, moments, sharpness, fit, shift, center },
        },
        summary: lifted,
    };
    let plain = settings::FastCentroidConfig {
        sigma_threshold: single(config.sigma_threshold),
        bg_grid: config.bg_grid,
        min_pixels: config.min_pixels,
        max_centroids: config.max_centroids,
        max_sharpness: config.max_sharpness.map(single),
        saturation_level: config.saturation_level.map(single),
        max_pixels: config.max_pixels,
        max_elongation: config.max_elongation.map(single),
        border_margin: config.border_margin,
    };
    tetra3::fast::extract_centroids_fast(&bits(pixels), width, height, &plain, arithmetic)
        .map(extraction)
}

/// Helper: render Gaussian stars on a background with an optional gradient
/// and deterministic (seedless) per-pixel noise of amplitude `noise`.
fn render_stars(
    width: u32,
    height: u32,
    bg: f32,
    gradient: f32,
    noise: f32,
    sigma_px: f32,
    stars: &[(f32, f32, f32)],
) -> Vec<f32> {
    let (w, h) = (width as usize, height as usize);
    let mut pixels = vec![0.0_f32; w * h];
    for row in 0..h {
        for col in 0..w {
            // Large-scale gradient the coarse-grid background must reject,
            // plus a cheap deterministic dither so the noise sigma is nonzero.
            let dither = (((row * w + col) as u32).wrapping_mul(2_654_435_761) >> 8) as f32
                / 16_777_216.0
                - 0.5;
            pixels[row * w + col] = bg + gradient * (col as f32 / w as f32) + noise * dither;
        }
    }
    for &(sx, sy, brightness) in stars {
        for row in 0..h {
            for col in 0..w {
                let dx = col as f32 - sx;
                let dy = row as f32 - sy;
                let r2 = dx * dx + dy * dy;
                pixels[row * w + col] += brightness * (-r2 / (2.0 * sigma_px * sigma_px)).exp();
            }
        }
    }
    pixels
}

#[test]
fn mod_test_ccl_rejects_degenerate_geometry() {
    let cfg = CentroidExtractionConfig::default();
    // Zero-size and 1-wide images used to panic (chunk size 0 / width-1
    // underflow) rather than return an error.
    assert!(extract_centroids_from_raw(&[], 0, 0, &cfg).is_err());
    assert!(extract_centroids_from_raw(&[1.0], 1, 1, &cfg).is_err());
}

#[test]
fn centroid_extraction_test_ccl_rejects_degenerate_geometry() {
    let cfg = CentroidExtractionConfig::default();
    // Zero-size and 1-wide images used to panic (chunk size 0 / width-1
    // underflow) rather than return an error.
    assert!(extract_centroids_from_raw(&[], 0, 0, &cfg).is_err());
    assert!(extract_centroids_from_raw(&[1.0], 1, 1, &cfg).is_err());
}

#[test]
fn mod_test_ccl_rejects_bad_config() {
    let pixels = vec![0.0_f32; 16 * 16];
    let zero_block = CentroidExtractionConfig {
        local_bg_block_size: Some(0),
        ..Default::default()
    };
    assert!(extract_centroids_from_raw(&pixels, 16, 16, &zero_block).is_err());
    let nan_thresh = CentroidExtractionConfig {
        sigma_threshold: f32::NAN,
        ..Default::default()
    };
    assert!(extract_centroids_from_raw(&pixels, 16, 16, &nan_thresh).is_err());
}

#[test]
fn centroid_extraction_test_ccl_rejects_bad_config() {
    let pixels = vec![0.0_f32; 16 * 16];
    let zero_block = CentroidExtractionConfig {
        local_bg_block_size: Some(0),
        ..Default::default()
    };
    assert!(extract_centroids_from_raw(&pixels, 16, 16, &zero_block).is_err());
    let nan_thresh = CentroidExtractionConfig {
        sigma_threshold: f32::NAN,
        ..Default::default()
    };
    assert!(extract_centroids_from_raw(&pixels, 16, 16, &nan_thresh).is_err());
}

#[test]
fn mod_test_background_estimation() {
    // Uniform image: background should be ~100, sigma ~0
    let pixels = vec![100.0_f32; 100 * 100];
    let config = CentroidExtractionConfig::default();
    let (mean, sigma) = estimate_background(&pixels, 100, 100, &config);
    assert!((mean - 100.0).abs() < 1.0);
    assert!(sigma < 1.0);
}

#[test]
fn centroid_extraction_test_background_estimation() {
    // Uniform image: background should be ~100, sigma ~0
    let pixels = vec![100.0_f32; 100 * 100];
    let config = CentroidExtractionConfig::default();
    let (mean, sigma) = estimate_background(&pixels, 100, 100, &config);
    assert!((mean - 100.0).abs() < 1.0);
    assert!(sigma < 1.0);
}

#[test]
fn mod_test_extract_from_raw_single_star() {
    let width = 64u32;
    let height = 64u32;
    let mut pixels = vec![10.0_f32; (width * height) as usize];

    // Place a bright Gaussian-ish star near center
    let star_x = 32.0_f32;
    let star_y = 32.0_f32;
    let sigma_px = 2.0_f32;
    for row in 0..height {
        for col in 0..width {
            let dx = col as f32 - star_x;
            let dy = row as f32 - star_y;
            let r2 = dx * dx + dy * dy;
            pixels[(row * width + col) as usize] +=
                1000.0 * (-r2 / (2.0 * sigma_px * sigma_px)).exp();
        }
    }

    let config = CentroidExtractionConfig {
        sigma_threshold: 3.0,
        min_pixels: 2,
        ..Default::default()
    };

    let result = extract_centroids_from_raw(&pixels, width, height, &config).unwrap();
    assert_eq!(result.centroids.len(), 1);

    // The centroid should be near the center of the image (0, 0 in pixel coords)
    let c = &result.centroids[0];
    assert!(c.x.abs() < 1.0, "Expected x near 0, got {}", c.x);
    assert!(c.y.abs() < 1.0, "Expected y near 0, got {}", c.y);
    assert!(c.mass.unwrap() > 0.0);
}

#[test]
fn centroid_extraction_test_extract_from_raw_single_star() {
    let width = 64u32;
    let height = 64u32;
    let mut pixels = vec![10.0_f32; (width * height) as usize];

    // Place a bright Gaussian-ish star near center
    let star_x = 32.0_f32;
    let star_y = 32.0_f32;
    let sigma_px = 2.0_f32;
    for row in 0..height {
        for col in 0..width {
            let dx = col as f32 - star_x;
            let dy = row as f32 - star_y;
            let r2 = dx * dx + dy * dy;
            pixels[(row * width + col) as usize] +=
                1000.0 * (-r2 / (2.0 * sigma_px * sigma_px)).exp();
        }
    }

    let config = CentroidExtractionConfig {
        sigma_threshold: 3.0,
        min_pixels: 2,
        ..Default::default()
    };

    let result = extract_centroids_from_raw(&pixels, width, height, &config).unwrap();
    assert_eq!(result.centroids.len(), 1);

    // The centroid should be near the center of the image (0, 0 in pixel coords)
    let c = &result.centroids[0];
    assert!(c.x.abs() < 1.0, "Expected x near 0, got {}", c.x);
    assert!(c.y.abs() < 1.0, "Expected y near 0, got {}", c.y);
    assert!(c.mass.unwrap() > 0.0);
}

#[test]
fn test_matched_filter_depth_gain() {
    // A star too faint for the unfiltered 5sigma cut is recovered when the
    // matched filter is on — at the SAME sigma_threshold, because the
    // detection threshold is scaled by the kernel's noise-suppression
    // factor automatically.
    let (width, height) = (64u32, 64u32);
    let pixels = render_stars(width, height, 100.0, 0.0, 20.0, 1.5, &[(30.0, 30.0, 20.0)]);
    let base = CentroidExtractionConfig {
        sigma_threshold: 5.0,
        local_bg_block_size: None,
        matched_filter_sigma: None,
        ..Default::default()
    };
    let unfiltered = extract_centroids_from_raw(&pixels, width, height, &base).unwrap();
    assert_eq!(
        unfiltered.centroids.len(),
        0,
        "star should sit below the unfiltered cut"
    );

    let filtered_cfg = CentroidExtractionConfig {
        matched_filter_sigma: Some(1.5),
        ..base
    };
    let filtered = extract_centroids_from_raw(&pixels, width, height, &filtered_cfg).unwrap();
    assert_eq!(
        filtered.centroids.len(),
        1,
        "matched filter should recover the faint star"
    );
    assert!((filtered.centroids[0].x - (30.0 - 31.5)).abs() < 1.0);
    assert!((filtered.centroids[0].y - (30.0 - 31.5)).abs() < 1.0);
}

#[test]
fn test_matched_filter_no_noise_false_positives() {
    // Pure noise + gradient with the (default-on) filter and local
    // background: the compensated threshold must keep false positives at
    // zero. Regression guard: convolving the *clamped* residual rectified
    // negative noise into a positive DC offset comparable to the
    // compensated threshold, which would light up the whole frame.
    let (width, height) = (128u32, 128u32);
    let pixels = render_stars(width, height, 100.0, 30.0, 20.0, 1.5, &[]);
    let cfg = CentroidExtractionConfig {
        sigma_threshold: 5.0,
        ..Default::default()
    };
    let res = extract_centroids_from_raw(&pixels, width, height, &cfg).unwrap();
    assert_eq!(
        res.centroids.len(),
        0,
        "noise-only frame produced detections"
    );
}

#[test]
fn test_peak_sharpness_values() {
    // Lone hot pixel: all 8 neighbors zero -> sharpness exactly 1.
    let hot = |dy: isize, dx: isize| if dy == 0 && dx == 0 { 100.0 } else { 0.0 };
    assert_eq!(peak_sharpness((1, 1), (3, 3), hot), Some(1.0));
    // Flat plateau: neighbors equal the peak -> sharpness 0.
    let flat = |_: isize, _: isize| 50.0;
    assert_eq!(peak_sharpness((1, 1), (3, 3), flat), Some(0.0));
    // Corner peak: only the 3 in-bounds neighbors are averaged.
    let corner = |dy: isize, dx: isize| if dy == 0 && dx == 0 { 90.0 } else { 30.0 };
    assert_eq!(
        peak_sharpness((0, 0), (3, 3), corner),
        Some((90.0 - 30.0) / 90.0)
    );
    // Non-positive peak: undefined.
    assert_eq!(peak_sharpness((1, 1), (3, 3), |_, _| -1.0), None);
}

#[test]
fn test_sharpness_gate_rejects_hot_pixel() {
    // A real star plus a single hot pixel. The matched filter smears the
    // hot pixel into a blob that passes `min_pixels`, but its sharpness
    // on the *unfiltered* image (~1.0) trips the test; the star (~0.5)
    // survives. With the test disabled, both are detected.
    let (width, height) = (64u32, 64u32);
    let mut pixels = render_stars(width, height, 10.0, 0.0, 2.0, 1.5, &[(20.0, 20.0, 800.0)]);
    pixels[44 * 64 + 44] += 1200.0;

    let base = CentroidExtractionConfig {
        sigma_threshold: 4.0,
        min_pixels: 3,
        matched_filter_sigma: Some(1.5),
        local_bg_block_size: None,
        max_sharpness: Some(0.9),
        ..Default::default()
    };
    let gated = extract_centroids_from_raw(&pixels, width, height, &base).unwrap();
    assert_eq!(
        gated.centroids.len(),
        1,
        "hot pixel should be rejected by the sharpness gate"
    );
    assert!((gated.centroids[0].x - (20.0 - 31.5)).abs() < 1.0);

    let ungated = CentroidExtractionConfig {
        max_sharpness: None,
        ..base
    };
    let all = extract_centroids_from_raw(&pixels, width, height, &ungated).unwrap();
    assert_eq!(
        all.centroids.len(),
        2,
        "gate disabled: hot pixel should be detected"
    );
}

#[test]
fn test_fast_path_sharpness_gate() {
    // Single hot pixel with min_pixels = 1: only the sharpness test can
    // reject it on the fast path.
    let (width, height) = (64u32, 64u32);
    let mut pixels = render_stars(width, height, 10.0, 0.0, 2.0, 1.5, &[(20.0, 20.0, 800.0)]);
    pixels[44 * 64 + 44] += 1200.0;

    let base = FastCentroidConfig {
        sigma_threshold: 4.0,
        min_pixels: 1,
        max_sharpness: Some(0.9),
        ..Default::default()
    };
    let gated = extract_centroids_fast(&pixels, width, height, &base).unwrap();
    assert_eq!(gated.centroids.len(), 1, "hot pixel should be rejected");

    let ungated = FastCentroidConfig {
        max_sharpness: None,
        ..base
    };
    let all = extract_centroids_fast(&pixels, width, height, &ungated).unwrap();
    assert_eq!(all.centroids.len(), 2, "gate disabled: hot pixel detected");
}

#[test]
fn test_saturation_guard_keeps_com() {
    // A clipped (flat-top) star: with `saturation_level` set the parabola
    // refinement is skipped and the CoM position is kept. The symmetric
    // clipped PSF still centroids onto the true position.
    let (width, height) = (64u32, 64u32);
    let raw = render_stars(width, height, 10.0, 0.0, 1.0, 2.0, &[(30.0, 33.0, 20000.0)]);
    let clipped: Vec<f32> = raw.iter().map(|&v| v.min(1000.0)).collect();

    let config = CentroidExtractionConfig {
        sigma_threshold: 4.0,
        saturation_level: Some(1000.0),
        local_bg_block_size: None,
        ..Default::default()
    };
    let res = extract_centroids_from_raw(&clipped, width, height, &config).unwrap();
    assert_eq!(res.centroids.len(), 1);
    let c = &res.centroids[0];
    assert!(
        (c.x - (30.0 - 31.5)).abs() < 0.3 && (c.y - (33.0 - 31.5)).abs() < 0.3,
        "saturated star CoM off: ({}, {})",
        c.x,
        c.y
    );
}

#[test]
fn mod_test_fast_extract_recovers_stars_over_gradient() {
    let (width, height) = (128u32, 128u32);
    let sigma_px = 1.6_f32;
    // Sub-pixel true positions; a strong left-to-right gradient the
    // coarse-grid background must track, plus realistic noise.
    let stars = [
        (30.3, 30.0, 900.0),
        (90.0, 50.7, 1300.0),
        (60.5, 100.2, 600.0),
    ];
    let pixels = render_stars(width, height, 50.0, 400.0, 8.0, sigma_px, &stars);

    let config = FastCentroidConfig {
        sigma_threshold: 5.0,
        bg_grid: 32,
        ..Default::default()
    };
    let result = extract_centroids_fast(&pixels, width, height, &config).unwrap();
    assert_eq!(
        result.centroids.len(),
        3,
        "expected 3 stars, got {}",
        result.centroids.len()
    );
    // Brightest-first ordering.
    assert!(result.centroids[0].mass.unwrap() >= result.centroids[1].mass.unwrap());

    // Each true star must have a detection within ~0.6 px. The single-pass
    // path is a ~0.5-px-class centroider by design (threshold-clipped CoM +
    // parabola refine) — plenty for solving, not for tight astrometry.
    let cx = (width - 1) as f32 / 2.0;
    let cy = (height - 1) as f32 / 2.0;
    for &(sx, sy, _) in &stars {
        let (tx, ty) = (sx - cx, sy - cy);
        let best = result
            .centroids
            .iter()
            .map(|c| ((c.x - tx).powi(2) + (c.y - ty).powi(2)).sqrt())
            .fold(f32::INFINITY, f32::min);
        assert!(
            best < 0.6,
            "star ({sx}, {sy}) nearest detection {best:.3} px away"
        );
    }
}

#[test]
fn centroid_extraction_test_fast_extract_recovers_stars_over_gradient() {
    let (width, height) = (128u32, 128u32);
    let sigma_px = 1.6_f32;
    // Sub-pixel true positions; a strong left-to-right gradient the
    // coarse-grid background must track, plus realistic noise.
    let stars = [
        (30.3, 30.0, 900.0),
        (90.0, 50.7, 1300.0),
        (60.5, 100.2, 600.0),
    ];
    let pixels = render_stars(width, height, 50.0, 400.0, 8.0, sigma_px, &stars);

    let config = FastCentroidConfig {
        sigma_threshold: 5.0,
        bg_grid: 32,
        ..Default::default()
    };
    let result = extract_centroids_fast(&pixels, width, height, &config).unwrap();
    assert_eq!(
        result.centroids.len(),
        3,
        "expected 3 stars, got {}",
        result.centroids.len()
    );
    // Brightest-first ordering.
    assert!(result.centroids[0].mass.unwrap() >= result.centroids[1].mass.unwrap());

    // Each true star must have a detection within ~0.6 px. The single-pass
    // path is a ~0.5-px-class centroider by design (threshold-clipped CoM +
    // parabola refine) — plenty for solving, not for tight astrometry.
    let cx = (width - 1) as f32 / 2.0;
    let cy = (height - 1) as f32 / 2.0;
    for &(sx, sy, _) in &stars {
        let (tx, ty) = (sx - cx, sy - cy);
        let best = result
            .centroids
            .iter()
            .map(|c| ((c.x - tx).powi(2) + (c.y - ty).powi(2)).sqrt())
            .fold(f32::INFINITY, f32::min);
        assert!(
            best < 0.6,
            "star ({sx}, {sy}) nearest detection {best:.3} px away"
        );
    }
}

#[test]
fn mod_test_fast_extract_merges_touching_pixels_and_caps() {
    let (width, height) = (128u32, 128u32);
    // Two stars 1 px apart form one connected region (correct for a blended
    // pair); a far star is its own region -> 2 total.
    let stars = [
        (64.0, 64.0, 1000.0),
        (65.0, 64.0, 950.0),
        (20.0, 20.0, 800.0),
    ];
    let pixels = render_stars(width, height, 30.0, 0.0, 6.0, 1.5, &stars);

    let config = FastCentroidConfig {
        sigma_threshold: 5.0,
        max_centroids: Some(5),
        ..Default::default()
    };
    let result = extract_centroids_fast(&pixels, width, height, &config).unwrap();
    assert_eq!(
        result.centroids.len(),
        2,
        "blended pair should merge to 1 + 1 separate = 2, got {}",
        result.centroids.len()
    );
}

#[test]
fn centroid_extraction_test_fast_extract_merges_touching_pixels_and_caps() {
    let (width, height) = (128u32, 128u32);
    // Two stars 1 px apart form one connected region (correct for a blended
    // pair); a far star is its own region -> 2 total.
    let stars = [
        (64.0, 64.0, 1000.0),
        (65.0, 64.0, 950.0),
        (20.0, 20.0, 800.0),
    ];
    let pixels = render_stars(width, height, 30.0, 0.0, 6.0, 1.5, &stars);

    let config = FastCentroidConfig {
        sigma_threshold: 5.0,
        max_centroids: Some(5),
        ..Default::default()
    };
    let result = extract_centroids_fast(&pixels, width, height, &config).unwrap();
    assert_eq!(
        result.centroids.len(),
        2,
        "blended pair should merge to 1 + 1 separate = 2, got {}",
        result.centroids.len()
    );
}

#[test]
fn mod_test_fast_extract_rejects_bad_params() {
    let pixels = vec![0.0_f32; 64 * 64];
    let bad_sigma = FastCentroidConfig {
        sigma_threshold: 0.0,
        ..Default::default()
    };
    assert!(extract_centroids_fast(&pixels, 64, 64, &bad_sigma).is_err());
    let bad_grid = FastCentroidConfig {
        bg_grid: 0,
        ..Default::default()
    };
    assert!(extract_centroids_fast(&pixels, 64, 64, &bad_grid).is_err());
    // Length mismatch.
    assert!(extract_centroids_fast(&pixels, 64, 63, &FastCentroidConfig::default()).is_err());
}

#[test]
fn centroid_extraction_test_fast_extract_rejects_bad_params() {
    let pixels = vec![0.0_f32; 64 * 64];
    let bad_sigma = FastCentroidConfig {
        sigma_threshold: 0.0,
        ..Default::default()
    };
    assert!(extract_centroids_fast(&pixels, 64, 64, &bad_sigma).is_err());
    let bad_grid = FastCentroidConfig {
        bg_grid: 0,
        ..Default::default()
    };
    assert!(extract_centroids_fast(&pixels, 64, 64, &bad_grid).is_err());
    // Length mismatch.
    assert!(extract_centroids_fast(&pixels, 64, 63, &FastCentroidConfig::default()).is_err());
}

#[test]
fn mod_test_extract_from_raw_multiple_stars() {
    let width = 128u32;
    let height = 128u32;
    let mut pixels = vec![10.0_f32; (width * height) as usize];

    // Place 3 stars at different positions
    let stars = [
        (30.0, 30.0, 800.0),
        (90.0, 50.0, 1200.0),
        (60.0, 100.0, 500.0),
    ];
    let sigma_px = 2.0_f32;

    for &(sx, sy, brightness) in &stars {
        for row in 0..height {
            for col in 0..width {
                let dx = col as f32 - sx;
                let dy = row as f32 - sy;
                let r2 = dx * dx + dy * dy;
                pixels[(row * width + col) as usize] +=
                    brightness * (-r2 / (2.0 * sigma_px * sigma_px)).exp();
            }
        }
    }

    let config = CentroidExtractionConfig {
        sigma_threshold: 3.0,
        min_pixels: 2,
        ..Default::default()
    };

    let result = extract_centroids_from_raw(&pixels, width, height, &config).unwrap();
    assert_eq!(
        result.centroids.len(),
        3,
        "Expected 3 stars, got {}",
        result.centroids.len()
    );

    // Centroids should be sorted by brightness (descending)
    assert!(result.centroids[0].mass.unwrap() >= result.centroids[1].mass.unwrap());
    assert!(result.centroids[1].mass.unwrap() >= result.centroids[2].mass.unwrap());
}

#[test]
fn centroid_extraction_test_extract_from_raw_multiple_stars() {
    let width = 128u32;
    let height = 128u32;
    let mut pixels = vec![10.0_f32; (width * height) as usize];

    // Place 3 stars at different positions
    let stars = [
        (30.0, 30.0, 800.0),
        (90.0, 50.0, 1200.0),
        (60.0, 100.0, 500.0),
    ];
    let sigma_px = 2.0_f32;

    for &(sx, sy, brightness) in &stars {
        for row in 0..height {
            for col in 0..width {
                let dx = col as f32 - sx;
                let dy = row as f32 - sy;
                let r2 = dx * dx + dy * dy;
                pixels[(row * width + col) as usize] +=
                    brightness * (-r2 / (2.0 * sigma_px * sigma_px)).exp();
            }
        }
    }

    let config = CentroidExtractionConfig {
        sigma_threshold: 3.0,
        min_pixels: 2,
        ..Default::default()
    };

    let result = extract_centroids_from_raw(&pixels, width, height, &config).unwrap();
    assert_eq!(
        result.centroids.len(),
        3,
        "Expected 3 stars, got {}",
        result.centroids.len()
    );

    // Centroids should be sorted by brightness (descending)
    assert!(result.centroids[0].mass.unwrap() >= result.centroids[1].mass.unwrap());
    assert!(result.centroids[1].mass.unwrap() >= result.centroids[2].mass.unwrap());
}

#[test]
fn mod_test_max_centroids_limit() {
    let width = 128u32;
    let height = 128u32;
    let mut pixels = vec![10.0_f32; (width * height) as usize];

    let stars = [
        (30.0, 30.0, 800.0),
        (90.0, 50.0, 1200.0),
        (60.0, 100.0, 500.0),
    ];
    let sigma_px = 2.0_f32;

    for &(sx, sy, brightness) in &stars {
        for row in 0..height {
            for col in 0..width {
                let dx = col as f32 - sx;
                let dy = row as f32 - sy;
                let r2 = dx * dx + dy * dy;
                pixels[(row * width + col) as usize] +=
                    brightness * (-r2 / (2.0 * sigma_px * sigma_px)).exp();
            }
        }
    }

    let config = CentroidExtractionConfig {
        sigma_threshold: 3.0,
        min_pixels: 2,
        max_centroids: Some(2),
        ..Default::default()
    };

    let result = extract_centroids_from_raw(&pixels, width, height, &config).unwrap();
    assert_eq!(result.centroids.len(), 2);
}

#[test]
fn centroid_extraction_test_max_centroids_limit() {
    let width = 128u32;
    let height = 128u32;
    let mut pixels = vec![10.0_f32; (width * height) as usize];

    let stars = [
        (30.0, 30.0, 800.0),
        (90.0, 50.0, 1200.0),
        (60.0, 100.0, 500.0),
    ];
    let sigma_px = 2.0_f32;

    for &(sx, sy, brightness) in &stars {
        for row in 0..height {
            for col in 0..width {
                let dx = col as f32 - sx;
                let dy = row as f32 - sy;
                let r2 = dx * dx + dy * dy;
                pixels[(row * width + col) as usize] +=
                    brightness * (-r2 / (2.0 * sigma_px * sigma_px)).exp();
            }
        }
    }

    let config = CentroidExtractionConfig {
        sigma_threshold: 3.0,
        min_pixels: 2,
        max_centroids: Some(2),
        ..Default::default()
    };

    let result = extract_centroids_from_raw(&pixels, width, height, &config).unwrap();
    assert_eq!(result.centroids.len(), 2);
}

#[test]
fn mod_test_quadratic_refinement() {
    // Place a Gaussian star at a known sub-pixel offset on uniform background
    let width = 64u32;
    let height = 64u32;
    let bg = 100.0_f32;
    let true_x = 32.3_f32;
    let true_y = 32.7_f32;
    let sigma_px = 2.0_f32;
    let peak_brightness = 2000.0_f32;

    let mut pixels = vec![bg; (width * height) as usize];
    for row in 0..height {
        for col in 0..width {
            let dx = col as f32 - true_x;
            let dy = row as f32 - true_y;
            let r2 = dx * dx + dy * dy;
            pixels[(row * width + col) as usize] +=
                peak_brightness * (-r2 / (2.0 * sigma_px * sigma_px)).exp();
        }
    }

    let config = CentroidExtractionConfig {
        sigma_threshold: 3.0,
        min_pixels: 3,
        ..Default::default()
    };

    let result = extract_centroids_from_raw(&pixels, width, height, &config).unwrap();
    assert_eq!(
        result.centroids.len(),
        1,
        "Expected 1 star, got {}",
        result.centroids.len()
    );

    // Centroid is in centered coords (origin at image center)
    let c = &result.centroids[0];
    let cx = (width - 1) as f32 / 2.0;
    let cy = (height - 1) as f32 / 2.0;
    let abs_x = c.x + cx;
    let abs_y = c.y + cy;

    let err_x = (abs_x - true_x).abs();
    let err_y = (abs_y - true_y).abs();
    assert!(
        err_x < 0.15,
        "X error too large: centroid={abs_x:.4}, true={true_x}, err={err_x:.4}"
    );
    assert!(
        err_y < 0.15,
        "Y error too large: centroid={abs_y:.4}, true={true_y}, err={err_y:.4}"
    );
}

#[test]
fn centroid_extraction_test_quadratic_refinement() {
    // Place a Gaussian star at a known sub-pixel offset on uniform background
    let width = 64u32;
    let height = 64u32;
    let bg = 100.0_f32;
    let true_x = 32.3_f32;
    let true_y = 32.7_f32;
    let sigma_px = 2.0_f32;
    let peak_brightness = 2000.0_f32;

    let mut pixels = vec![bg; (width * height) as usize];
    for row in 0..height {
        for col in 0..width {
            let dx = col as f32 - true_x;
            let dy = row as f32 - true_y;
            let r2 = dx * dx + dy * dy;
            pixels[(row * width + col) as usize] +=
                peak_brightness * (-r2 / (2.0 * sigma_px * sigma_px)).exp();
        }
    }

    let config = CentroidExtractionConfig {
        sigma_threshold: 3.0,
        min_pixels: 3,
        ..Default::default()
    };

    let result = extract_centroids_from_raw(&pixels, width, height, &config).unwrap();
    assert_eq!(
        result.centroids.len(),
        1,
        "Expected 1 star, got {}",
        result.centroids.len()
    );

    // Centroid is in centered coords (origin at image center)
    let c = &result.centroids[0];
    let cx = (width - 1) as f32 / 2.0;
    let cy = (height - 1) as f32 / 2.0;
    let abs_x = c.x + cx;
    let abs_y = c.y + cy;

    let err_x = (abs_x - true_x).abs();
    let err_y = (abs_y - true_y).abs();
    assert!(
        err_x < 0.15,
        "X error too large: centroid={abs_x:.4}, true={true_x}, err={err_x:.4}"
    );
    assert!(
        err_y < 0.15,
        "Y error too large: centroid={abs_y:.4}, true={true_y}, err={err_y:.4}"
    );
}

#[test]
fn mod_test_quadratic_refinement_with_gradient_background() {
    // Place a star on a gradient background to test local background correction
    let width = 128u32;
    let height = 128u32;
    let true_x = 64.4_f32;
    let true_y = 64.6_f32;
    let sigma_px = 2.0_f32;
    let peak_brightness = 2000.0_f32;

    let mut pixels = vec![0.0_f32; (width * height) as usize];
    // Add a gradient background: increases from left to right (50 to 150)
    for row in 0..height {
        for col in 0..width {
            let bg = 50.0 + 100.0 * (col as f32 / width as f32);
            pixels[(row * width + col) as usize] = bg;
        }
    }
    // Add Gaussian star
    for row in 0..height {
        for col in 0..width {
            let dx = col as f32 - true_x;
            let dy = row as f32 - true_y;
            let r2 = dx * dx + dy * dy;
            pixels[(row * width + col) as usize] +=
                peak_brightness * (-r2 / (2.0 * sigma_px * sigma_px)).exp();
        }
    }

    let config = CentroidExtractionConfig {
        sigma_threshold: 5.0,
        min_pixels: 3,
        ..Default::default()
    };

    let result = extract_centroids_from_raw(&pixels, width, height, &config).unwrap();
    assert!(
        !result.centroids.is_empty(),
        "Should detect at least one star on gradient background"
    );

    // Find the centroid closest to our true position
    let cx = (width - 1) as f32 / 2.0;
    let cy = (height - 1) as f32 / 2.0;
    let best = result
        .centroids
        .iter()
        .min_by(|a, b| {
            let da = (a.x + cx - true_x).powi(2) + (a.y + cy - true_y).powi(2);
            let db = (b.x + cx - true_x).powi(2) + (b.y + cy - true_y).powi(2);
            da.partial_cmp(&db).unwrap()
        })
        .unwrap();

    let abs_x = best.x + cx;
    let abs_y = best.y + cy;
    let err_x = (abs_x - true_x).abs();
    let err_y = (abs_y - true_y).abs();
    assert!(
        err_x < 0.3,
        "X error too large on gradient bg: centroid={abs_x:.4}, true={true_x}, err={err_x:.4}"
    );
    assert!(
        err_y < 0.3,
        "Y error too large on gradient bg: centroid={abs_y:.4}, true={true_y}, err={err_y:.4}"
    );
}

#[test]
fn centroid_extraction_test_quadratic_refinement_with_gradient_background() {
    // Place a star on a gradient background to test local background correction
    let width = 128u32;
    let height = 128u32;
    let true_x = 64.4_f32;
    let true_y = 64.6_f32;
    let sigma_px = 2.0_f32;
    let peak_brightness = 2000.0_f32;

    let mut pixels = vec![0.0_f32; (width * height) as usize];
    // Add a gradient background: increases from left to right (50 to 150)
    for row in 0..height {
        for col in 0..width {
            let bg = 50.0 + 100.0 * (col as f32 / width as f32);
            pixels[(row * width + col) as usize] = bg;
        }
    }
    // Add Gaussian star
    for row in 0..height {
        for col in 0..width {
            let dx = col as f32 - true_x;
            let dy = row as f32 - true_y;
            let r2 = dx * dx + dy * dy;
            pixels[(row * width + col) as usize] +=
                peak_brightness * (-r2 / (2.0 * sigma_px * sigma_px)).exp();
        }
    }

    let config = CentroidExtractionConfig {
        sigma_threshold: 5.0,
        min_pixels: 3,
        ..Default::default()
    };

    let result = extract_centroids_from_raw(&pixels, width, height, &config).unwrap();
    assert!(
        !result.centroids.is_empty(),
        "Should detect at least one star on gradient background"
    );

    // Find the centroid closest to our true position
    let cx = (width - 1) as f32 / 2.0;
    let cy = (height - 1) as f32 / 2.0;
    let best = result
        .centroids
        .iter()
        .min_by(|a, b| {
            let da = (a.x + cx - true_x).powi(2) + (a.y + cy - true_y).powi(2);
            let db = (b.x + cx - true_x).powi(2) + (b.y + cy - true_y).powi(2);
            da.partial_cmp(&db).unwrap()
        })
        .unwrap();

    let abs_x = best.x + cx;
    let abs_y = best.y + cy;
    let err_x = (abs_x - true_x).abs();
    let err_y = (abs_y - true_y).abs();
    assert!(
        err_x < 0.3,
        "X error too large on gradient bg: centroid={abs_x:.4}, true={true_x}, err={err_x:.4}"
    );
    assert!(
        err_y < 0.3,
        "Y error too large on gradient bg: centroid={abs_y:.4}, true={true_y}, err={err_y:.4}"
    );
}

#[test]
fn every_refusal_has_its_error() {
    let cfg = CentroidExtractionConfig::default();
    let pixels = vec![0.0_f32; 16];
    assert_eq!(
        extract_centroids_from_raw(&pixels, 4, 5, &cfg).unwrap_err(),
        InputError::PixelLength { len: 16, width: 4, height: 5 }
    );
    assert_eq!(
        extract_centroids_from_raw(&pixels, 16, 1, &cfg).unwrap_err(),
        InputError::ImageTooSmall { width: 16, height: 1 }
    );
    let zero_block = CentroidExtractionConfig { local_bg_block_size: Some(0), ..cfg };
    assert_eq!(
        extract_centroids_from_raw(&pixels, 4, 4, &zero_block).unwrap_err(),
        InputError::ZeroBlockSize
    );
    let infinite = CentroidExtractionConfig { sigma_threshold: f32::INFINITY, ..cfg };
    assert_eq!(
        extract_centroids_from_raw(&pixels, 4, 4, &infinite).unwrap_err(),
        InputError::SigmaThreshold(single(f32::INFINITY))
    );
    let fast = FastCentroidConfig { bg_grid: 0, ..Default::default() };
    assert_eq!(extract_centroids_fast(&pixels, 4, 4, &fast).unwrap_err(), InputError::ZeroGrid);
}

#[test]
fn blends_are_rejected_on_request() {
    let (width, height) = (64u32, 64u32);
    let stars = [(30.0, 30.0, 1000.0), (36.0, 30.0, 900.0), (12.0, 50.0, 800.0)];
    let pixels = render_stars(width, height, 10.0, 0.0, 2.0, 1.8, &stars);
    let off = CentroidExtractionConfig {
        local_bg_block_size: None,
        matched_filter_sigma: None,
        sigma_threshold: 4.0,
        ..Default::default()
    };
    let merged = extract_centroids_from_raw(&pixels, width, height, &off).unwrap();
    assert_eq!(merged.centroids.len(), 2);
    let reject = CentroidExtractionConfig { deblend: DeblendMode::Reject, ..off };
    let kept = extract_centroids_from_raw(&pixels, width, height, &reject).unwrap();
    assert_eq!(kept.centroids.len(), 1);
    assert!((kept.centroids[0].x - (12.0 - 31.5)).abs() < 0.5);
    // The raw count is that before any test.
    assert_eq!(kept.num_blobs_raw, merged.num_blobs_raw);
    // A saturated blend is exempt.
    let saturated = CentroidExtractionConfig { saturation_level: Some(900.0), ..reject };
    let exempt = extract_centroids_from_raw(&pixels, width, height, &saturated).unwrap();
    assert_eq!(exempt.centroids.len(), 2);
}

#[test]
fn stars_near_the_border_are_dropped_on_request() {
    let (width, height) = (64u32, 64u32);
    let stars = [(4.0, 30.0, 1000.0), (32.0, 32.0, 900.0)];
    let pixels = render_stars(width, height, 10.0, 0.0, 2.0, 1.5, &stars);
    let fast = FastCentroidConfig::default();
    assert_eq!(extract_centroids_fast(&pixels, width, height, &fast).unwrap().centroids.len(), 2);
    let fast = FastCentroidConfig { border_margin: 8, ..fast };
    assert_eq!(extract_centroids_fast(&pixels, width, height, &fast).unwrap().centroids.len(), 1);
    let ccl = CentroidExtractionConfig { border_margin: 8, ..Default::default() };
    let res = extract_centroids_from_raw(&pixels, width, height, &ccl).unwrap();
    assert_eq!(res.centroids.len(), 1);
}

#[test]
fn sizes_and_shapes_are_tested() {
    // A trail 40 pixels long and a star.
    let (width, height) = (64u32, 64u32);
    let mut pixels = render_stars(width, height, 10.0, 0.0, 2.0, 1.5, &[(40.0, 50.0, 900.0)]);
    for c in 10..50 {
        for r in 19..22 {
            pixels[r * 64 + c] += 500.0;
        }
    }
    let base = CentroidExtractionConfig {
        local_bg_block_size: None,
        matched_filter_sigma: None,
        ..Default::default()
    };
    let all = extract_centroids_from_raw(&pixels, width, height, &base).unwrap();
    assert_eq!(all.centroids.len(), 2);
    let round = CentroidExtractionConfig { max_elongation: Some(3.0), ..base };
    let res = extract_centroids_from_raw(&pixels, width, height, &round).unwrap();
    assert_eq!(res.centroids.len(), 1);
    let small = CentroidExtractionConfig { max_pixels: 100, ..base };
    let res = extract_centroids_from_raw(&pixels, width, height, &small).unwrap();
    assert_eq!(res.centroids.len(), 1);
    let fast = FastCentroidConfig { max_pixels: 100, ..Default::default() };
    let res = extract_centroids_fast(&pixels, width, height, &fast).unwrap();
    assert!(res.centroids.iter().all(|c| c.y > 0.0));
}

#[test]
fn four_and_eight_neighbours_differ_on_a_diagonal() {
    // Two 3 x 3 squares that touch at a corner.
    let mut pixels = vec![10.0f32; 32 * 32];
    for r in 0..3 {
        for c in 0..3 {
            pixels[(10 + r) * 32 + 10 + c] = 500.0;
            pixels[(13 + r) * 32 + 13 + c] = 400.0;
        }
    }
    for (i, p) in pixels.iter_mut().enumerate() {
        *p += (i % 3) as f32;
    }
    let eight = CentroidExtractionConfig {
        local_bg_block_size: None,
        matched_filter_sigma: None,
        ..Default::default()
    };
    let four = CentroidExtractionConfig { use_8_connectivity: false, ..eight };
    assert_eq!(extract_centroids_from_raw(&pixels, 32, 32, &eight).unwrap().num_blobs_raw, 1);
    assert_eq!(extract_centroids_from_raw(&pixels, 32, 32, &four).unwrap().num_blobs_raw, 2);
}

#[test]
fn the_two_paths_report_level_and_threshold() {
    let pixels = render_stars(64, 64, 100.0, 0.0, 8.0, 1.5, &[(30.0, 30.0, 900.0)]);
    let res = extract_centroids_fast(&pixels, 64, 64, &FastCentroidConfig::default()).unwrap();
    assert!((res.background_mean - 100.0).abs() < 2.0);
    assert!(res.background_sigma > 0.0 && res.background_sigma < 5.0);
    assert_eq!(res.threshold, res.background_mean + 5.0 * res.background_sigma);
    let base = CentroidExtractionConfig {
        local_bg_block_size: None,
        matched_filter_sigma: None,
        ..Default::default()
    };
    let res = extract_centroids_from_raw(&pixels, 64, 64, &base).unwrap();
    assert_eq!(res.threshold, res.background_mean + 5.0 * res.background_sigma);
    assert_eq!(estimate_background(&pixels, 64, 64, &base).0, res.background_mean);
}

#[test]
fn no_rounds_no_noise() {
    let config = CentroidExtractionConfig { sigma_clip_iterations: 0, ..Default::default() };
    let (mean, sigma) = estimate_background(&[1.0, 2.0, 3.0], 3, 1, &config);
    assert_eq!((mean, sigma), (2.0, 0.0));
}

fn told(r: &Extraction) -> (Vec<(u32, u32, Option<u32>)>, u32, u32, u32, usize) {
    let stars = r
        .centroids
        .iter()
        .map(|c| (c.x.to_bits(), c.y.to_bits(), c.mass.map(f32::to_bits)))
        .collect();
    (
        stars,
        r.background_mean.to_bits(),
        r.background_sigma.to_bits(),
        r.threshold.to_bits(),
        r.num_blobs_raw,
    )
}

#[test]
fn an_image_goes_the_way_of_its_gray_values() {
    let stars = [(20.0, 21.0, 900.0), (45.3, 40.0, 2000.0)];
    let pixels: Vec<u16> =
        render_stars(64, 64, 100.0, 0.0, 8.0, 1.5, &stars).iter().map(|&v| v as u16).collect();
    let plain: Vec<f32> = pixels.iter().map(|&v| v as f32).collect();
    let config = CentroidExtractionConfig::default();
    let raw = extract_centroids_from_raw(&plain, 64, 64, &config).unwrap();
    let with_alpha: Vec<u16> = pixels.iter().flat_map(|&v| vec![v, 9]).collect();
    for samples in vec![Samples::Luma16(pixels), Samples::LumaA16(with_alpha)] {
        let img = ImageData { width: 64, height: 64, samples };
        let res = extract_centroids_from_image(&img, &config).unwrap();
        assert_eq!(res.centroids.len(), 2);
        assert_eq!(told(&res), told(&raw));
    }
    let tiny = ImageData { width: 1, height: 1, samples: Samples::Luma16(vec![1]) };
    assert_eq!(
        extract_centroids_from_image(&tiny, &config).unwrap_err(),
        InputError::ImageTooSmall { width: 1, height: 1 }
    );
}

#[test]
fn extraction_repeats_itself_and_stays_in_bounds() {
    let stars = [(20.0, 21.0, 900.0), (45.3, 40.0, 2000.0), (100.0, 90.0, 400.0)];
    let pixels = render_stars(128, 128, 100.0, 10.0, 8.0, 1.5, &stars);
    let config = CentroidExtractionConfig { max_centroids: Some(2), ..Default::default() };
    let fast = FastCentroidConfig { max_centroids: Some(2), ..Default::default() };
    let runs = [
        (
            extract_centroids_from_raw(&pixels, 128, 128, &config).unwrap(),
            extract_centroids_from_raw(&pixels, 128, 128, &config).unwrap(),
        ),
        (
            extract_centroids_fast(&pixels, 128, 128, &fast).unwrap(),
            extract_centroids_fast(&pixels, 128, 128, &fast).unwrap(),
        ),
    ];
    for (a, b) in &runs {
        assert_eq!(told(a), told(b));
        assert_eq!(a.centroids.len(), 2);
        assert!(a.num_blobs_raw >= 3);
        assert!(a.centroids[0].mass.unwrap() > a.centroids[1].mass.unwrap());
    }
}

#[test]
fn a_maximum_only_cuts_the_list() {
    let stars = [(20.0, 21.0, 900.0), (45.3, 40.0, 2000.0), (100.0, 90.0, 400.0)];
    let pixels = render_stars(128, 128, 100.0, 10.0, 8.0, 1.5, &stars);
    let default = CentroidExtractionConfig { max_centroids: None, ..Default::default() };
    let fast = FastCentroidConfig { max_centroids: None, ..Default::default() };
    let full = [
        extract_centroids_from_raw(&pixels, 128, 128, &default).unwrap(),
        extract_centroids_fast(&pixels, 128, 128, &fast).unwrap(),
    ];
    for n in [0usize, 1, 2, 3, 100] {
        let cut = [
            extract_centroids_from_raw(
                &pixels,
                128,
                128,
                &CentroidExtractionConfig { max_centroids: Some(n), ..default },
            )
            .unwrap(),
            extract_centroids_fast(
                &pixels,
                128,
                128,
                &FastCentroidConfig { max_centroids: Some(n), ..fast },
            )
            .unwrap(),
        ];
        for (all, some) in full.iter().zip(&cut) {
            let (whole, mean, sigma, threshold, blobs) = told(all);
            assert!(whole.len() >= 3);
            assert!(all.centroids.windows(2).all(|c| c[0].mass >= c[1].mass));
            let first = whole[..n.min(whole.len())].to_vec();
            assert_eq!(told(some), (first, mean, sigma, threshold, blobs));
        }
    }
}

#[test]
fn block_medians_are_taken_over_the_staggered_lattice() {
    // Blocks of 32 pixels have the stride 2: every other row, its columns
    // shifted by one from row to row. What lies off the lattice does not count.
    let mut pixels = vec![1000.0f32; 64 * 64];
    for r in (0..64).step_by(2) {
        for c in (r / 2 % 2..64).step_by(2) {
            pixels[r * 64 + c] = -5.0;
        }
    }
    let config = CentroidExtractionConfig {
        local_bg_block_size: Some(32),
        matched_filter_sigma: None,
        ..Default::default()
    };
    let res = extract_centroids_from_raw(&pixels, 64, 64, &config).unwrap();
    assert_eq!((res.background_mean, res.background_sigma, res.threshold), (0.0, 0.0, 0.0));
    assert_eq!(res.num_blobs_raw, 1);
}

#[test]
fn detection_leaves_photometry() {
    // A star with a sharp edge: the pixels above the cut are the same for both
    // thresholds, and so is what is measured.
    let mut pixels = render_stars(32, 32, 100.0, 0.0, 4.0, 1.5, &[]);
    for r in 14..18 {
        for c in 10..15 {
            pixels[r * 32 + c] = 5000.0 + (10 * r + c) as f32;
        }
    }
    let base = CentroidExtractionConfig { matched_filter_sigma: None, ..Default::default() };
    let higher = CentroidExtractionConfig { sigma_threshold: 9.0, ..base };
    let a = extract_centroids_from_raw(&pixels, 32, 32, &base).unwrap();
    let b = extract_centroids_from_raw(&pixels, 32, 32, &higher).unwrap();
    assert!(a.threshold < b.threshold);
    assert_eq!((a.num_blobs_raw, b.num_blobs_raw), (1, 1));
    assert_eq!(told(&a).0, told(&b).0);
    assert_eq!(told(&a).0.len(), 1);
}

#[test]
fn moments_are_summed_from_the_origin() {
    let weights = vec![double(1.0), double(3.0)];
    let places = vec![(7, 4), (7, 5)];
    let m = gather_moments(&accumulate, &moments, &weights, &places, (7, 4));
    assert_eq!((number(m.flux), value(m.mass)), (4.0, 4.0));
    assert_eq!((number(m.center.0), number(m.center.1)), (4.75, 7.0));
    assert_eq!((value(m.cov.xx), value(m.cov.xy), value(m.cov.yy)), (0.1875, 0.0, 0.0));
}

#[test]
fn a_peak_is_refined_only_by_a_good_fit() {
    let blob = |refine: bool| Blob {
        pixels: vec![(5, 5)],
        peak: (5, 5),
        ring: vec![],
        saturated: false,
        refine,
    };
    let moments_at = |x: f64, y: f64| Moments {
        flux: double(9.0),
        mass: single(9.0),
        center: (double(x), double(y)),
        cov: Matrix2 { xx: single(1.0), xy: single(0.0), yy: single(1.0) },
        elongation: single(1.0),
    };
    let ring: Vec<F64> = vec![double(1.0); 8];
    let place = |b: &Blob, m: Moments, f: (f64, f64, f64)| {
        let shape = ShapeArithmetic {
            accumulate,
            moments,
            sharpness,
            fit: |_: F64, _: &Vec<F64>, _: bool| Fit {
                determinant: double(f.0),
                x: double(f.1),
                y: double(f.2),
            },
            shift,
            center,
        };
        let out = measure_peak(&shape, b, m, double(4.0), &ring, 11, 11, single(2.0));
        assert_eq!((number(out.flux), value(out.peak_floor)), (9.0, 2.0));
        assert_eq!(out.sharpness.map(number), Some(0.75));
        (value(out.x), value(out.y))
    };
    // A good fit near the center of mass moves the position.
    assert_eq!(place(&blob(true), moments_at(5.0, 5.0), (1.0, 0.25, -0.25)), (0.25, -0.25));
    // A flat fit, one beyond half a pixel, one that disagrees with the center
    // of mass, and a blob that is not to be refined: the center of mass stays.
    assert_eq!(place(&blob(true), moments_at(5.0, 5.0), (1e-10, 0.25, 0.0)), (0.0, 0.0));
    assert_eq!(place(&blob(true), moments_at(5.0, 5.0), (1.0, 0.75, 0.0)), (0.0, 0.0));
    assert_eq!(place(&blob(true), moments_at(6.0, 5.0), (1.0, 0.25, 0.0)), (1.0, 0.0));
    assert_eq!(place(&blob(false), moments_at(5.0, 5.0), (1.0, 0.25, 0.0)), (0.0, 0.0));
}
