//! Extraction settings, their checks, and the result.

use vstd::prelude::*;

use crate::ieee::F32;
use crate::measure::Centroid;

verus! {

/// Policy for blobs with more than one distinct intensity peak.
#[derive(Clone, Copy, Debug, PartialEq, Eq, Structural)]
pub enum DeblendMode {
    /// Keep them merged.
    Off,
    /// Drop them.
    Reject,
}

/// Configuration for centroid extraction from an image.
#[derive(Clone, Debug)]
pub struct CentroidExtractionConfig {
    /// Number of sigma above background to use as the detection threshold.
    /// Stars brighter than `background + sigma_threshold * noise` are detected.
    /// Default: 5.0
    pub sigma_threshold: F32,
    /// Minimum number of pixels in a blob to be considered a star.
    /// Default: 3
    pub min_pixels: usize,
    /// Maximum number of pixels in a blob to be considered a star.
    /// Default: 10000
    pub max_pixels: usize,
    /// Maximum number of centroids to return, sorted by brightness (mass).
    /// If `None`, all detected centroids are returned.
    /// Default: None
    pub max_centroids: Option<usize>,
    /// Number of iterations for sigma-clipped background estimation.
    /// Default: 5
    pub sigma_clip_iterations: usize,
    /// Sigma clipping factor for background estimation.
    /// Default: 3.0
    pub sigma_clip_factor: F32,
    /// Whether to use 8-connectivity (true) or 4-connectivity (false) for
    /// connected component labeling.
    /// Default: true (8-connectivity)
    pub use_8_connectivity: bool,
    /// Block size (in pixels) for local background estimation. When `None`,
    /// only global background subtraction is used.
    /// Default: Some(64)
    pub local_bg_block_size: Option<u32>,
    /// Maximum allowed elongation ratio (major/minor axis) for a detected
    /// blob.
    /// Default: None (disabled)
    pub max_elongation: Option<F32>,
    /// Apply a Gaussian matched filter of this width to form the detection
    /// mask. Centroids are still measured on the unfiltered image.
    /// Default: Some(1.5)
    pub matched_filter_sigma: Option<F32>,
    /// Maximum DAOFIND-style sharpness: `(peak - mean(8 neighbors)) / peak`.
    /// Default: Some(0.9)
    pub max_sharpness: Option<F32>,
    /// Pixel value at or above which the sensor is considered saturated. A
    /// blob that reaches it skips quadratic peak refinement.
    /// Default: None (disabled)
    pub saturation_level: Option<F32>,
    /// What becomes of blobs with more than one peak. Saturated ones are
    /// exempt.
    /// Default: off
    pub deblend: DeblendMode,
    /// Drop blobs whose bounding box comes within this many pixels of an image
    /// edge.
    /// Default: 0 (disabled)
    pub border_margin: u32,
}

impl Default for CentroidExtractionConfig {
    fn default() -> (c: Self)
        ensures
            c.sigma_threshold == (F32 { bits: 0x40a0_0000 }),
            c.min_pixels == 3,
            c.max_pixels == 10000,
            c.max_centroids is None,
            c.sigma_clip_iterations == 5,
            c.sigma_clip_factor == (F32 { bits: 0x4040_0000 }),
            c.use_8_connectivity,
            c.local_bg_block_size == Some(64u32),
            c.max_elongation is None,
            c.matched_filter_sigma == Some(F32 { bits: 0x3fc0_0000 }),
            c.max_sharpness == Some(F32 { bits: 0x3f66_6666 }),
            c.saturation_level is None,
            c.deblend == DeblendMode::Off,
            c.border_margin == 0,
    {
        CentroidExtractionConfig {
            sigma_threshold: F32 { bits: 0x40a0_0000 },
            min_pixels: 3,
            max_pixels: 10000,
            max_centroids: None,
            sigma_clip_iterations: 5,
            sigma_clip_factor: F32 { bits: 0x4040_0000 },
            use_8_connectivity: true,
            local_bg_block_size: Some(64),
            max_elongation: None,
            matched_filter_sigma: Some(F32 { bits: 0x3fc0_0000 }),
            max_sharpness: Some(F32 { bits: 0x3f66_6666 }),
            saturation_level: None,
            deblend: DeblendMode::Off,
            border_margin: 0,
        }
    }
}

/// Configuration for the fast single-pass path: the knobs that a single-pass
/// detector needs.
#[derive(Clone, Debug)]
pub struct FastCentroidConfig {
    /// Detection threshold in noise sigmas above the local background.
    /// Default: 5.0
    pub sigma_threshold: F32,
    /// Coarse background-grid block size in pixels.
    /// Default: 64
    pub bg_grid: u32,
    /// Minimum pixels in a lit region to count as a star.
    /// Default: 2
    pub min_pixels: usize,
    /// Maximum number of centroids to return, brightest first.
    /// Default: None
    pub max_centroids: Option<usize>,
    /// Maximum DAOFIND-style sharpness.
    /// Default: Some(0.9)
    pub max_sharpness: Option<F32>,
    /// Pixel value at or above which the sensor is considered saturated.
    /// Default: None (disabled)
    pub saturation_level: Option<F32>,
    /// Maximum pixels in a region.
    /// Default: 10000
    pub max_pixels: usize,
    /// Maximum elongation ratio (major/minor axis).
    /// Default: None (disabled)
    pub max_elongation: Option<F32>,
    /// Drop regions whose bounding box comes within this many pixels of an
    /// image edge.
    /// Default: 0 (disabled)
    pub border_margin: u32,
}

impl Default for FastCentroidConfig {
    fn default() -> (c: Self)
        ensures
            c.sigma_threshold == (F32 { bits: 0x40a0_0000 }),
            c.bg_grid == 64,
            c.min_pixels == 2,
            c.max_centroids is None,
            c.max_sharpness == Some(F32 { bits: 0x3f66_6666 }),
            c.saturation_level is None,
            c.max_pixels == 10000,
            c.max_elongation is None,
            c.border_margin == 0,
    {
        FastCentroidConfig {
            sigma_threshold: F32 { bits: 0x40a0_0000 },
            bg_grid: 64,
            min_pixels: 2,
            max_centroids: None,
            max_sharpness: Some(F32 { bits: 0x3f66_6666 }),
            saturation_level: None,
            max_pixels: 10000,
            max_elongation: None,
            border_margin: 0,
        }
    }
}

/// Result of centroid extraction, containing the centroids and diagnostic info.
#[derive(Clone, Debug)]
pub struct CentroidExtractionResult {
    /// Extracted centroids in pixel coordinates, with (0, 0) at the image center.
    /// +X is right (increasing column), +Y is down (increasing row).
    pub centroids: Vec<Centroid>,
    /// Image width in pixels.
    pub image_width: u32,
    /// Image height in pixels.
    pub image_height: u32,
    /// Estimated background level (in image intensity units).
    pub background_mean: F32,
    /// Estimated background noise standard deviation.
    pub background_sigma: F32,
    /// Detection threshold used.
    pub threshold: F32,
    /// Number of blobs found before the size/elongation filters are applied.
    pub num_blobs_raw: usize,
}

/// Why an image or a setting is refused.
#[derive(Clone, Copy, Debug, PartialEq, Eq)]
pub enum InputError {
    /// The pixel data is not as long as the dimensions say.
    PixelLength { len: usize, width: u32, height: u32 },
    /// The image must be at least 2 by 2.
    ImageTooSmall { width: u32, height: u32 },
    /// A local background block must have at least one pixel.
    ZeroBlockSize,
    /// A background grid block must have at least one pixel.
    ZeroGrid,
    /// The threshold must be finite, and on the fast path positive.
    SigmaThreshold(F32),
}

/// Validate that a raw pixel buffer matches the claimed dimensions.
pub fn check_pixel_len(len: usize, width: u32, height: u32) -> (r: Result<(), InputError>)
    ensures
        r == (if len == width * height {
            Ok::<(), InputError>(())
        } else {
            Err(InputError::PixelLength { len, width, height })
        }),
{
    assert(0 <= width * height <= 0xffff_ffff * 0xffff_ffff) by (nonlinear_arith)
        requires
            0 <= width <= 0xffff_ffff,
            0 <= height <= 0xffff_ffff,
    ;
    let expected: u64 = width as u64 * height as u64;
    if len as u64 != expected {
        Err(InputError::PixelLength { len, width, height })
    } else {
        Ok(())
    }
}

/// What is wrong with the geometry or the settings of the default path, the
/// first in the order of the checks.
pub open spec fn settings_error(
    width: u32,
    height: u32,
    config: CentroidExtractionConfig,
) -> Option<InputError> {
    if width < 2 || height < 2 {
        Some(InputError::ImageTooSmall { width, height })
    } else if config.local_bg_block_size == Some(0u32) {
        Some(InputError::ZeroBlockSize)
    } else if !config.sigma_threshold.finite() {
        Some(InputError::SigmaThreshold(config.sigma_threshold))
    } else {
        None
    }
}

/// Check geometry and settings of the default path.
pub fn check_settings(width: u32, height: u32, config: &CentroidExtractionConfig) -> (r: Result<
    (),
    InputError,
>)
    ensures
        match settings_error(width, height, *config) {
            Some(e) => r == Err::<(), InputError>(e),
            None => r is Ok,
        },
{
    if width < 2 || height < 2 {
        return Err(InputError::ImageTooSmall { width, height });
    }
    if let Some(n) = config.local_bg_block_size {
        if n == 0 {
            return Err(InputError::ZeroBlockSize);
        }
    }
    if !config.sigma_threshold.is_finite() {
        return Err(InputError::SigmaThreshold(config.sigma_threshold));
    }
    Ok(())
}

/// What is wrong with the input of the fast path, the first in the order of the
/// checks.
pub open spec fn fast_error(
    len: usize,
    width: u32,
    height: u32,
    config: FastCentroidConfig,
) -> Option<InputError> {
    if len != width * height {
        Some(InputError::PixelLength { len, width, height })
    } else if !(config.sigma_threshold.finite() && config.sigma_threshold.above(F32::zero())) {
        Some(InputError::SigmaThreshold(config.sigma_threshold))
    } else if config.bg_grid == 0 {
        Some(InputError::ZeroGrid)
    } else if width < 2 || height < 2 {
        Some(InputError::ImageTooSmall { width, height })
    } else {
        None
    }
}

/// Check the input of the fast path.
pub fn check_fast(len: usize, width: u32, height: u32, config: &FastCentroidConfig) -> (r: Result<
    (),
    InputError,
>)
    ensures
        match fast_error(len, width, height, *config) {
            Some(e) => r == Err::<(), InputError>(e),
            None => r is Ok,
        },
{
    match check_pixel_len(len, width, height) {
        Err(e) => {
            return Err(e);
        },
        Ok(_) => {},
    }
    let zero = F32 { bits: 0 };
    if !(config.sigma_threshold.is_finite() && config.sigma_threshold.gt(zero)) {
        return Err(InputError::SigmaThreshold(config.sigma_threshold));
    }
    if config.bg_grid == 0 {
        return Err(InputError::ZeroGrid);
    }
    if width < 2 || height < 2 {
        return Err(InputError::ImageTooSmall { width, height });
    }
    Ok(())
}

/// The default path takes every image of at least two rows and two columns, with
/// any block size but zero and any finite threshold, whatever else is set.
pub proof fn law_settings_that_are_taken(width: u32, height: u32, config: CentroidExtractionConfig)
    ensures
        settings_error(width, height, config) is None <==> {
            &&& 2 <= width
            &&& 2 <= height
            &&& (config.local_bg_block_size matches Some(n) ==> n > 0)
            &&& config.sigma_threshold.magnitude() < 0x7f80_0000
        },
{
}

/// The fast path takes every image that is as long as its dimensions say and has at
/// least two rows and two columns, with any grid but zero and any threshold that is
/// a positive number.
pub proof fn law_fast_settings_that_are_taken(
    len: usize,
    width: u32,
    height: u32,
    config: FastCentroidConfig,
)
    ensures
        fast_error(len, width, height, config) is None <==> {
            &&& len == width * height
            &&& 2 <= width
            &&& 2 <= height
            &&& config.bg_grid > 0
            &&& 0 < config.sigma_threshold.bits < 0x7f80_0000
        },
{
}

} // verus!
