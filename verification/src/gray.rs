//! Decoded images as plain samples, and their gray values.

use image::{DynamicImage, GrayAlphaImage, GrayImage, RgbImage, RgbaImage};
use vstd::prelude::*;

use crate::background::{Corners, Deviation};
use crate::blobs::Place;
use crate::ccl::{extract_from_gray, is_gray_result, is_total, Arithmetic, GrayBlob};
use crate::config::{
    settings_error, CentroidExtractionConfig, CentroidExtractionResult, InputError,
};
use crate::ieee::{F32, F64};
use crate::peak::{Fit, Moments, Position, Sums};
use crate::stats::Median;

verus! {

/// The channels of 8-bit samples.
#[derive(Clone, Copy, Debug, PartialEq, Eq, Structural)]
pub enum Channels8 {
    Luma,
    LumaA,
    Rgb,
    Rgba,
}

/// The samples of an image, row by row, the channels of a pixel together.
pub enum Samples {
    Eight(Channels8, Vec<u8>),
    Luma16(Vec<u16>),
    LumaA16(Vec<u16>),
    Rgb16(Vec<u16>),
    Rgba16(Vec<u16>),
    Rgb32F(Vec<F32>),
    Rgba32F(Vec<F32>),
}

/// A decoded image.
pub struct ImageData {
    pub width: u32,
    pub height: u32,
    pub samples: Samples,
}

/// Samples to a pixel.
pub open spec fn channel_count(channels: Channels8) -> int {
    match channels {
        Channels8::Luma => 1,
        Channels8::LumaA => 2,
        Channels8::Rgb => 3,
        Channels8::Rgba => 4,
    }
}

impl ImageData {
    /// As many samples as pixels and channels call for.
    pub open spec fn wf(self) -> bool {
        let n = self.width * self.height;
        match self.samples {
            Samples::Eight(ch, v) => v@.len() == channel_count(ch) * n,
            Samples::Luma16(v) => v@.len() == n,
            Samples::LumaA16(v) => v@.len() == 2 * n,
            Samples::Rgb16(v) => v@.len() == 3 * n,
            Samples::Rgba16(v) => v@.len() == 4 * n,
            Samples::Rgb32F(v) => v@.len() == 3 * n,
            Samples::Rgba32F(v) => v@.len() == 4 * n,
        }
    }
}

/// `v` is the luminance of an sRGB colour, give or take six tenths.
pub open spec fn is_near_luma(r: u8, g: u8, b: u8, v: u8) -> bool {
    -6000 <= 10000 * v - (2126 * r + 7152 * g + 722 * b) <= 6000
}

/// `luma` is an 8-bit gray version of the samples: the luma channel where there
/// is one, else the luminance of each pixel.
pub open spec fn is_luma8(channels: Channels8, samples: Seq<u8>, luma: Seq<u8>) -> bool {
    let n = channel_count(channels);
    &&& n * luma.len() == samples.len()
    &&& forall|i: int|
        0 <= i < luma.len() ==> if n <= 2 {
            #[trigger] luma[i] == samples[n * i]
        } else {
            is_near_luma(samples[n * i], samples[n * i + 1], samples[n * i + 2], luma[i])
        }
}

/// Calls `image::DynamicImage::to_luma8` on the samples as an sRGB image: a luma
/// image comes back as it is, one with alpha loses it, and a colour image gets
/// the luminance of each pixel, whatever its alpha. The luminance is summed in
/// single precision with coefficients that are within a ten-thousandth of those
/// stated, and rounded. Which of two neighbouring values comes out where the sum
/// is about halfway between them rests on the machine's multiply-add and is left
/// unsaid.
#[verifier::external_body]
fn to_luma8(width: u32, height: u32, channels: Channels8, samples: Vec<u8>) -> (luma: Vec<u8>)
    requires
        samples@.len() == channel_count(channels) * (width * height),
    ensures
        luma@.len() == width * height,
        is_luma8(channels, samples@, luma@),
{
    let (w, h) = (width, height);
    let image = match channels {
        Channels8::Luma => GrayImage::from_raw(w, h, samples).map(DynamicImage::ImageLuma8),
        Channels8::LumaA => GrayAlphaImage::from_raw(w, h, samples).map(DynamicImage::ImageLumaA8),
        Channels8::Rgb => RgbImage::from_raw(w, h, samples).map(DynamicImage::ImageRgb8),
        Channels8::Rgba => RgbaImage::from_raw(w, h, samples).map(DynamicImage::ImageRgba8),
    };
    image.unwrap().to_luma8().into_raw()
}

/// The gray values of 8-bit luma: each as a number.
pub open spec fn are_singles8(luma: Seq<u8>, out: Seq<F32>) -> bool {
    &&& out.len() == luma.len()
    &&& forall|i: int| 0 <= i < out.len() ==> (#[trigger] out[i]).is_integer(luma[i] as int)
}

/// 8-bit luma as numbers.
pub fn gray_from_luma8(luma: &Vec<u8>) -> (out: Vec<F32>)
    ensures
        are_singles8(luma@, out@),
{
    let mut out: Vec<F32> = Vec::new();
    let mut i: usize = 0;
    while i < luma.len()
        invariant
            0 <= i <= luma@.len(),
            out@.len() == i,
            forall|j: int| 0 <= j < i ==> (#[trigger] out@[j]).is_integer(luma@[j] as int),
        decreases luma@.len() - i,
    {
        out.push(F32::from_u8(luma[i]));
        i += 1;
    }
    out
}

/// Every `step`-th sample as a number.
pub open spec fn are_singles16(samples: Seq<u16>, step: int, out: Seq<F32>) -> bool {
    forall|i: int|
        0 <= i < out.len() ==> (#[trigger] out[i]).is_integer(samples[step * i] as int)
}

fn gray_from_luma16(samples: &Vec<u16>, step: usize, n: usize) -> (out: Vec<F32>)
    requires
        step > 0,
        samples@.len() == step * n,
    ensures
        out@.len() == n,
        are_singles16(samples@, step as int, out@),
{
    let len: usize = samples.len();
    let mut out: Vec<F32> = Vec::new();
    let mut i: usize = 0;
    while i < n
        invariant
            0 <= i <= n,
            step > 0,
            len == samples@.len(),
            len == step * n,
            out@.len() == i,
            forall|j: int|
                0 <= j < i ==> (#[trigger] out@[j]).is_integer(samples@[step * j] as int),
        decreases n - i,
    {
        assert(0 <= step * i < step * n) by (nonlinear_arith)
            requires
                step > 0,
                0 <= i < n,
        ;
        out.push(F32::from_u16(samples[step * i]));
        i += 1;
    }
    out
}

/// The numbers that three channels of 16 bits stand for.
pub open spec fn is_weighed16<W: Fn(F32, F32, F32) -> F32>(
    weigh: W,
    r: u16,
    g: u16,
    b: u16,
    v: F32,
) -> bool {
    exists|x: F32, y: F32, z: F32|
        {
            &&& x.is_integer(r as int)
            &&& y.is_integer(g as int)
            &&& z.is_integer(b as int)
            &&& #[trigger] call_ensures(weigh, (x, y, z), v)
        }
}

/// What `weigh` may answer for the first three of every `step` samples.
pub open spec fn are_weighed16<W: Fn(F32, F32, F32) -> F32>(
    weigh: W,
    samples: Seq<u16>,
    step: int,
    out: Seq<F32>,
) -> bool {
    forall|i: int|
        0 <= i < out.len() ==> is_weighed16(
            weigh,
            samples[step * i],
            samples[step * i + 1],
            samples[step * i + 2],
            #[trigger] out[i],
        )
}

fn gray_from_rgb16<W: Fn(F32, F32, F32) -> F32>(
    samples: &Vec<u16>,
    step: usize,
    n: usize,
    weigh: &W,
) -> (out: Vec<F32>)
    requires
        step >= 3,
        samples@.len() == step * n,
        forall|r: F32, g: F32, b: F32| #[trigger] call_requires(*weigh, (r, g, b)),
    ensures
        out@.len() == n,
        are_weighed16(*weigh, samples@, step as int, out@),
{
    let len: usize = samples.len();
    let mut out: Vec<F32> = Vec::new();
    let mut i: usize = 0;
    while i < n
        invariant
            0 <= i <= n,
            step >= 3,
            len == samples@.len(),
            len == step * n,
            out@.len() == i,
            forall|r: F32, g: F32, b: F32| #[trigger] call_requires(*weigh, (r, g, b)),
            forall|j: int|
                0 <= j < i ==> is_weighed16(
                    *weigh,
                    samples@[step * j],
                    samples@[step * j + 1],
                    samples@[step * j + 2],
                    #[trigger] out@[j],
                ),
        decreases n - i,
    {
        assert(0 <= step * i && step * i + 2 < step * n) by (nonlinear_arith)
            requires
                step >= 3,
                0 <= i < n,
        ;
        let at: usize = step * i;
        let r = F32::from_u16(samples[at]);
        let g = F32::from_u16(samples[at + 1]);
        let b = F32::from_u16(samples[at + 2]);
        out.push(weigh(r, g, b));
        i += 1;
    }
    out
}

/// What `weigh` may answer for the first three of every `step` numbers.
pub open spec fn are_weighed32<W: Fn(F32, F32, F32) -> F32>(
    weigh: W,
    samples: Seq<F32>,
    step: int,
    out: Seq<F32>,
) -> bool {
    forall|i: int|
        0 <= i < out.len() ==> call_ensures(
            weigh,
            (samples[step * i], samples[step * i + 1], samples[step * i + 2]),
            #[trigger] out[i],
        )
}

fn gray_from_rgb32<W: Fn(F32, F32, F32) -> F32>(
    samples: &Vec<F32>,
    step: usize,
    n: usize,
    weigh: &W,
) -> (out: Vec<F32>)
    requires
        step >= 3,
        samples@.len() == step * n,
        forall|r: F32, g: F32, b: F32| #[trigger] call_requires(*weigh, (r, g, b)),
    ensures
        out@.len() == n,
        are_weighed32(*weigh, samples@, step as int, out@),
{
    let len: usize = samples.len();
    let mut out: Vec<F32> = Vec::new();
    let mut i: usize = 0;
    while i < n
        invariant
            0 <= i <= n,
            step >= 3,
            len == samples@.len(),
            len == step * n,
            out@.len() == i,
            forall|r: F32, g: F32, b: F32| #[trigger] call_requires(*weigh, (r, g, b)),
            forall|j: int|
                0 <= j < i ==> call_ensures(
                    *weigh,
                    (samples@[step * j], samples@[step * j + 1], samples@[step * j + 2]),
                    #[trigger] out@[j],
                ),
        decreases n - i,
    {
        assert(0 <= step * i && step * i + 2 < step * n) by (nonlinear_arith)
            requires
                step >= 3,
                0 <= i < n,
        ;
        let at: usize = step * i;
        out.push(weigh(samples[at], samples[at + 1], samples[at + 2]));
        i += 1;
    }
    out
}

/// `out` holds the gray values of an image: 16-bit samples keep their native
/// range, colours of 16 bits or more are weighed, and 8-bit formats go through
/// their luma.
pub open spec fn is_grayscale<W: Fn(F32, F32, F32) -> F32>(
    weigh: W,
    img: ImageData,
    out: Seq<F32>,
) -> bool {
    &&& out.len() == img.width * img.height
    &&& match img.samples {
        Samples::Eight(ch, v) => exists|luma: Seq<u8>| #[trigger]
            is_luma8(ch, v@, luma) && are_singles8(luma, out),
        Samples::Luma16(v) => are_singles16(v@, 1, out),
        Samples::LumaA16(v) => are_singles16(v@, 2, out),
        Samples::Rgb16(v) => are_weighed16(weigh, v@, 3, out),
        Samples::Rgba16(v) => are_weighed16(weigh, v@, 4, out),
        Samples::Rgb32F(v) => are_weighed32(weigh, v@, 3, out),
        Samples::Rgba32F(v) => are_weighed32(weigh, v@, 4, out),
    }
}

fn copied_bytes(v: &Vec<u8>) -> (out: Vec<u8>)
    ensures
        out@ == v@,
{
    let mut out: Vec<u8> = Vec::new();
    let mut i: usize = 0;
    while i < v.len()
        invariant
            0 <= i <= v@.len(),
            out@ == v@.take(i as int),
        decreases v@.len() - i,
    {
        out.push(v[i]);
        assert(out@ =~= v@.take(i + 1));
        i += 1;
    }
    assert(v@.take(v@.len() as int) =~= v@);
    out
}

/// Convert an image to grayscale values. `weigh` is the luminance of three
/// colour channels.
pub fn to_grayscale_f32<W: Fn(F32, F32, F32) -> F32>(img: &ImageData, weigh: &W) -> (out: Vec<F32>)
    requires
        img.wf(),
        img.width * img.height <= usize::MAX,
        forall|r: F32, g: F32, b: F32| #[trigger] call_requires(*weigh, (r, g, b)),
    ensures
        is_grayscale(*weigh, *img, out@),
{
    let n: usize = img.width as usize * img.height as usize;
    match &img.samples {
        Samples::Eight(ch, v) => {
            let luma = to_luma8(img.width, img.height, *ch, copied_bytes(v));
            gray_from_luma8(&luma)
        },
        Samples::Luma16(v) => gray_from_luma16(v, 1, n),
        Samples::LumaA16(v) => gray_from_luma16(v, 2, n),
        Samples::Rgb16(v) => gray_from_rgb16(v, 3, n, weigh),
        Samples::Rgba16(v) => gray_from_rgb16(v, 4, n, weigh),
        Samples::Rgb32F(v) => gray_from_rgb32(v, 3, n, weigh),
        Samples::Rgba32F(v) => gray_from_rgb32(v, 4, n, weigh),
    }
}

/// Extract star centroids from an already-decoded image.
///
/// Performs background subtraction, blob detection, and centroid computation
/// on an in-memory image. Centroids are returned in pixel coordinates with the
/// origin at the image center.
pub fn extract_centroids_from_image<
    W: Fn(F32, F32, F32) -> F32,
    A: Fn(F32, F32) -> F32,
    R: Fn(&Vec<Deviation>) -> F32,
    C: Fn(F32, F32, F32) -> F32,
    B: Fn(Corners, usize, usize) -> F32 + Sync + Send,
    S: Fn(F32, F32) -> F32 + Sync + Send,
    G: Fn(&Vec<F32>, usize, usize, F32) -> Vec<F32>,
    T: Fn(F32, F32, F32, Option<F32>) -> F32,
    O: Fn(F32, &Median) -> F64,
    X: Fn(F32, &Median) -> F64,
    L: Fn(F64, &Median) -> F32,
    D: Fn(Sums, F64, Place, Place) -> Sums,
    E: Fn(Sums, Place) -> Moments,
    K: Fn(F64, &Vec<F64>) -> F64,
    F: Fn(F64, &Vec<F64>, bool) -> Fit,
    H: Fn(Place, Fit, Position) -> (Position, F64),
    N: Fn(F64, usize) -> F32,
>(
    img: &ImageData,
    config: &CentroidExtractionConfig,
    weigh: &W,
    ar: &Arithmetic<A, R, C, B, S, G, T, GrayBlob<O, X, L, D, E, K, F, H, N>>,
) -> (out: Result<CentroidExtractionResult, InputError>)
    requires
        img.wf(),
        img.width * img.height < u32::MAX,
        forall|r: F32, g: F32, b: F32| #[trigger] call_requires(*weigh, (r, g, b)),
        is_total(*ar),
    ensures
        match settings_error(img.width, img.height, *config) {
            Some(e) => out == Err::<CentroidExtractionResult, InputError>(e),
            None => out matches Ok(res) && exists|gray: Seq<F32>| #[trigger]
                is_grayscale(*weigh, *img, gray) && is_gray_result(
                    *ar,
                    gray,
                    img.width,
                    img.height,
                    *config,
                    res,
                ),
        },
{
    let gray = to_grayscale_f32(img, weigh);
    extract_from_gray(&gray, img.width, img.height, config, ar)
}

/// An 8-bit colour image without colour keeps its levels.
pub proof fn law_gray_keeps_level(
    channels: Channels8,
    samples: Seq<u8>,
    luma: Seq<u8>,
    i: int,
)
    requires
        channels == Channels8::Rgb || channels == Channels8::Rgba,
        is_luma8(channels, samples, luma),
        0 <= i < luma.len(),
        samples[channel_count(channels) * i] == samples[channel_count(channels) * i + 1],
        samples[channel_count(channels) * i] == samples[channel_count(channels) * i + 2],
    ensures
        luma[i] == samples[channel_count(channels) * i],
{
    let n = channel_count(channels);
    assert(is_near_luma(samples[n * i], samples[n * i + 1], samples[n * i + 2], luma[i]));
}

/// For 16-bit gray images the alpha channel makes no difference.
pub proof fn law_alpha_is_dropped(
    plain: Seq<u16>,
    with_alpha: Seq<u16>,
    a: Seq<F32>,
    b: Seq<F32>,
    i: int,
)
    requires
        are_singles16(plain, 1, a),
        are_singles16(with_alpha, 2, b),
        0 <= i < a.len(),
        i < b.len(),
        with_alpha[2 * i] == plain[1 * i],
    ensures
        a[i] == b[i],
{
    assert(a[i].is_integer(plain[1 * i] as int));
    assert(b[i].is_integer(with_alpha[2 * i] as int));
    crate::ieee::law_rank_is_numeric(a[i], b[i]);
}

/// The three colour samples of pixel `i`, where an image has colours of 16 bits.
pub open spec fn colour16(samples: Samples, i: int) -> Option<(u16, u16, u16)> {
    match samples {
        Samples::Rgb16(v) => Some((v@[3 * i], v@[3 * i + 1], v@[3 * i + 2])),
        Samples::Rgba16(v) => Some((v@[4 * i], v@[4 * i + 1], v@[4 * i + 2])),
        _ => None,
    }
}

/// The three colour samples of pixel `i`, where an image has colours of 32 bits.
pub open spec fn colour32(samples: Samples, i: int) -> Option<(F32, F32, F32)> {
    match samples {
        Samples::Rgb32F(v) => Some((v@[3 * i], v@[3 * i + 1], v@[3 * i + 2])),
        Samples::Rgba32F(v) => Some((v@[4 * i], v@[4 * i + 1], v@[4 * i + 2])),
        _ => None,
    }
}

/// Equal questions have equal answers.
pub open spec fn weigh_steady<W: Fn(F32, F32, F32) -> F32>(weigh: W) -> bool {
    forall|r: F32, g: F32, b: F32, x: F32, y: F32| #[trigger]
        call_ensures(weigh, (r, g, b), x) && #[trigger] call_ensures(weigh, (r, g, b), y) ==> x
            == y
}

/// Two patterns that are the same integer are the same.
pub proof fn lemma_integer_unique(a: F32, b: F32, v: int)
    requires
        a.is_integer(v),
        b.is_integer(v),
    ensures
        a == b,
{
    crate::ieee::law_rank_is_numeric(a, b);
}

/// The gray value of a pixel comes from the samples of that pixel alone, in the
/// order red, green, blue: a gray sample as a number, the answer of `weigh` for
/// the three colours, or for 8-bit colours their luminance give or take six
/// tenths. An alpha sample counts for nothing.
pub proof fn law_gray_of_own_samples<W: Fn(F32, F32, F32) -> F32>(
    weigh: W,
    img: ImageData,
    out: Seq<F32>,
    i: int,
)
    requires
        is_grayscale(weigh, img, out),
        0 <= i < out.len(),
    ensures
        match img.samples {
            Samples::Eight(Channels8::Luma, v) => out[i].is_integer(v@[i] as int),
            Samples::Eight(Channels8::LumaA, v) => out[i].is_integer(v@[2 * i] as int),
            Samples::Eight(Channels8::Rgb, v) => exists|l: int| #[trigger]
                out[i].is_integer(l) && -6000 <= 10000 * l - 2126 * v@[3 * i] - 7152 * v@[3 * i
                    + 1] - 722 * v@[3 * i + 2] <= 6000,
            Samples::Eight(Channels8::Rgba, v) => exists|l: int| #[trigger]
                out[i].is_integer(l) && -6000 <= 10000 * l - 2126 * v@[4 * i] - 7152 * v@[4 * i
                    + 1] - 722 * v@[4 * i + 2] <= 6000,
            Samples::Luma16(v) => out[i].is_integer(v@[i] as int),
            Samples::LumaA16(v) => out[i].is_integer(v@[2 * i] as int),
            Samples::Rgb16(v) => exists|r: F32, g: F32, b: F32|
                {
                    &&& r.is_integer(v@[3 * i] as int)
                    &&& g.is_integer(v@[3 * i + 1] as int)
                    &&& b.is_integer(v@[3 * i + 2] as int)
                    &&& #[trigger] call_ensures(weigh, (r, g, b), out[i])
                },
            Samples::Rgba16(v) => exists|r: F32, g: F32, b: F32|
                {
                    &&& r.is_integer(v@[4 * i] as int)
                    &&& g.is_integer(v@[4 * i + 1] as int)
                    &&& b.is_integer(v@[4 * i + 2] as int)
                    &&& #[trigger] call_ensures(weigh, (r, g, b), out[i])
                },
            Samples::Rgb32F(v) => call_ensures(
                weigh,
                (v@[3 * i], v@[3 * i + 1], v@[3 * i + 2]),
                out[i],
            ),
            Samples::Rgba32F(v) => call_ensures(
                weigh,
                (v@[4 * i], v@[4 * i + 1], v@[4 * i + 2]),
                out[i],
            ),
        },
{
    assert(out[i] == out[i]);
    match img.samples {
        Samples::Eight(ch, v) => {
            let luma = choose|luma: Seq<u8>| #[trigger]
                is_luma8(ch, v@, luma) && are_singles8(luma, out);
            assert(out[i].is_integer(luma[i] as int));
            assert(luma[i] == luma[i]);
        },
        Samples::Rgb16(v) => {
            assert(is_weighed16(weigh, v@[3 * i], v@[3 * i + 1], v@[3 * i + 2], out[i]));
        },
        Samples::Rgba16(v) => {
            assert(is_weighed16(weigh, v@[4 * i], v@[4 * i + 1], v@[4 * i + 2], out[i]));
        },
        _ => {},
    }
}

/// Pixels of the same colour have the same gray value: in one image or in two, at
/// the same place or not, with or without alpha, whatever the other pixels hold.
pub proof fn law_equal_colours_equal_grays<W: Fn(F32, F32, F32) -> F32>(
    weigh: W,
    a: ImageData,
    x: Seq<F32>,
    i: int,
    b: ImageData,
    y: Seq<F32>,
    j: int,
)
    requires
        weigh_steady(weigh),
        is_grayscale(weigh, a, x),
        is_grayscale(weigh, b, y),
        0 <= i < x.len(),
        0 <= j < y.len(),
        ({
            ||| colour16(a.samples, i) is Some && colour16(a.samples, i) == colour16(b.samples, j)
            ||| colour32(a.samples, i) is Some && colour32(a.samples, i) == colour32(b.samples, j)
        }),
    ensures
        x[i] == y[j],
{
    law_gray_of_own_samples(weigh, a, x, i);
    law_gray_of_own_samples(weigh, b, y, j);
    if colour16(a.samples, i) is Some {
        let c = colour16(a.samples, i)->0;
        let (r, g, l) = choose|r: F32, g: F32, l: F32|
            {
                &&& r.is_integer(c.0 as int)
                &&& g.is_integer(c.1 as int)
                &&& l.is_integer(c.2 as int)
                &&& #[trigger] call_ensures(weigh, (r, g, l), x[i])
            };
        let (s, h, m) = choose|r: F32, g: F32, l: F32|
            {
                &&& r.is_integer(c.0 as int)
                &&& g.is_integer(c.1 as int)
                &&& l.is_integer(c.2 as int)
                &&& #[trigger] call_ensures(weigh, (r, g, l), y[j])
            };
        lemma_integer_unique(r, s, c.0 as int);
        lemma_integer_unique(g, h, c.1 as int);
        lemma_integer_unique(l, m, c.2 as int);
    }
}

/// A colour image without colour has at each pixel what `weigh` answers for that
/// level three times; and where `weigh` keeps such levels, so does the image.
pub proof fn law_colourless_image<W: Fn(F32, F32, F32) -> F32>(
    weigh: W,
    img: ImageData,
    out: Seq<F32>,
    levels: Seq<u16>,
)
    requires
        is_grayscale(weigh, img, out),
        levels.len() == out.len(),
        forall|i: int|
            0 <= i < out.len() ==> colour16(img.samples, i) == Some(
                (#[trigger] levels[i], levels[i], levels[i]),
            ),
        forall|v: F32, o: F32| #[trigger] call_ensures(weigh, (v, v, v), o) ==> o == v,
    ensures
        forall|i: int| 0 <= i < out.len() ==> (#[trigger] out[i]).is_integer(levels[i] as int),
{
    assert forall|i: int| 0 <= i < out.len() implies (#[trigger] out[i]).is_integer(
        levels[i] as int,
    ) by {
        assert(levels[i] == levels[i]);
        law_gray_of_own_samples(weigh, img, out, i);
        let c = levels[i] as int;
        let (r, g, l) = choose|r: F32, g: F32, l: F32|
            {
                &&& r.is_integer(c)
                &&& g.is_integer(c)
                &&& l.is_integer(c)
                &&& #[trigger] call_ensures(weigh, (r, g, l), out[i])
            };
        lemma_integer_unique(r, g, c);
        lemma_integer_unique(r, l, c);
    }
}

/// The gray image has a pixel for each of the image, in its place, and each comes
/// from the samples of that pixel.
pub proof fn law_grayscale_is_pixel_by_pixel<W: Fn(F32, F32, F32) -> F32>(
    weigh: W,
    img: ImageData,
    out: Vec<F32>,
    i: int,
)
    requires
        call_ensures(to_grayscale_f32::<W>, (&img, &weigh), out),
        img.wf(),
        0 <= i < img.width * img.height,
    ensures
        out@.len() == img.width * img.height,
        img.samples matches Samples::Luma16(v) ==> out@[i].is_integer(v@[i] as int),
        img.samples matches Samples::LumaA16(v) ==> out@[i].is_integer(v@[2 * i] as int),
        img.samples matches Samples::Rgb16(v) ==> exists|r: F32, g: F32, b: F32|
            {
                &&& r.is_integer(v@[3 * i] as int)
                &&& g.is_integer(v@[3 * i + 1] as int)
                &&& b.is_integer(v@[3 * i + 2] as int)
                &&& #[trigger] call_ensures(weigh, (r, g, b), out@[i])
            },
        img.samples matches Samples::Rgb32F(v) ==> call_ensures(
            weigh,
            (v@[3 * i], v@[3 * i + 1], v@[3 * i + 2]),
            out@[i],
        ),
        img.samples matches Samples::Rgba32F(v) ==> call_ensures(
            weigh,
            (v@[4 * i], v@[4 * i + 1], v@[4 * i + 2]),
            out@[i],
        ),
{
    law_gray_of_own_samples(weigh, img, out@, i);
}

} // verus!
