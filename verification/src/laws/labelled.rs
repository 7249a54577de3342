//! Results of the default path.

use vstd::prelude::*;

use crate::background::{
    blends, is_block_grid, lemma_ceil_div, lemma_pixel_index, BackgroundGrid, Corners, Deviation,
    Edges, Lattice,
};
use crate::blobs::{
    are_annulus_values, at, is_listing, is_peak, is_top, label_set, listed, px, raster_lt, ring_of,
    values_at, Place, NEG_INF_32,
};
use crate::ccl::{
    blob_emits, blob_outcomes, gray_measured, gray_run, gray_values, is_annulus_median, is_blend,
    is_distinct_peak, is_gray_result, keeps_measured, locally_prepared, Arithmetic, GrayBlob,
    Prepared,
};
use crate::config::{CentroidExtractionConfig, CentroidExtractionResult, DeblendMode};
use crate::connect::{connected, lemma_connected_step, Pixel};
use crate::convert::exceeds;
use crate::fast::{emitted, keeps_clear, passes_gates};
use crate::ieee::{F32, F64};
use crate::labels::{
    above_mask, describes, index_of, label_seen, labelled, lemma_index_of, lemma_pixel_of, mask_lit,
    pixel_of, Component,
};
use crate::laws::fast::lemma_emitted;
use crate::laws::shape::{
    is_position, is_vertex, law_measured_blob_is_placed, lemma_ring_surrounds, stands_at, surrounds,
};
use crate::measure::{is_blob, Blob, Centroid, Measurement};
use crate::noise::{are_residuals, is_background, lattice_points};
use crate::peak::{
    are_moments, is_measurement, is_sharpness_of, Fit, Moments, Position, ShapeArithmetic, Sums,
};
use crate::stats::{is_median, Median};

verus! {

/// Detection by the threshold: a pixel has a label exactly where the thresholded
/// image exceeds the threshold there. The labels are numbered without gaps, and
/// their number is the raw blob count.
pub proof fn law_gray_detects_what_exceeds<
    A: Fn(F32, F32) -> F32,
    R: Fn(&Vec<Deviation>) -> F32,
    C: Fn(F32, F32, F32) -> F32,
    B: Fn(Corners, usize, usize) -> F32,
    S: Fn(F32, F32) -> F32,
    G: Fn(&Vec<F32>, usize, usize, F32) -> Vec<F32>,
    T: Fn(F32, F32, F32, Option<F32>) -> F32,
    W: Fn(F32, &Median) -> F64,
    X: Fn(F32, &Median) -> F64,
    L: Fn(F64, &Median) -> F32,
    D: Fn(Sums, F64, Place, Place) -> Sums,
    E: Fn(Sums, Place) -> Moments,
    K: Fn(F64, &Vec<F64>) -> F64,
    F: Fn(F64, &Vec<F64>, bool) -> Fit,
    H: Fn(Place, Fit, Position) -> (Position, F64),
    N: Fn(F64, usize) -> F32,
>(
    ar: Arithmetic<A, R, C, B, S, G, T, GrayBlob<W, X, L, D, E, K, F, H, N>>,
    gray: Seq<F32>,
    width: u32,
    height: u32,
    config: CentroidExtractionConfig,
    prepared: Prepared,
    source: Vec<F32>,
    labels: Seq<u32>,
    components: Seq<Component>,
    all: Seq<Centroid>,
    res: CentroidExtractionResult,
    r: int,
    c: int,
)
    requires
        gray_run(
            ar,
            gray,
            width,
            height,
            config,
            prepared,
            source,
            labels,
            components,
            all,
            res,
        ),
        source@.len() == width * height,
        0 <= r < height,
        0 <= c < width,
    ensures
        labels.len() == width * height,
        0 <= r * width + c < labels.len(),
        labels[r * width + c] != 0 <==> !source@[r * width + c].nan() && !res.threshold.nan()
            && source@[r * width + c].rank() > res.threshold.rank(),
        labels[r * width + c] <= res.num_blobs_raw,
        forall|v: u32| 0 < v <= res.num_blobs_raw ==> #[trigger] labels.contains(v),
{
    let (w, h) = (width as int, height as int);
    lemma_pixel_index(w, h, r, c);
    let mask = above_mask(source@, res.threshold);
    assert(labels[r * w + c] == 0 <==> mask[r * w + c] == 0);
    assert forall|v: u32| 0 < v <= res.num_blobs_raw implies #[trigger] labels.contains(v) by {
        assert(label_seen(labels, v as int, labels.len() as int));
    }
}

/// Labels are numbered in the order in which a scan row by row meets them: each
/// pixel with a label comes after some pixel with every lower one.
pub proof fn law_gray_labels_come_in_order<
    A: Fn(F32, F32) -> F32,
    R: Fn(&Vec<Deviation>) -> F32,
    C: Fn(F32, F32, F32) -> F32,
    B: Fn(Corners, usize, usize) -> F32,
    S: Fn(F32, F32) -> F32,
    G: Fn(&Vec<F32>, usize, usize, F32) -> Vec<F32>,
    T: Fn(F32, F32, F32, Option<F32>) -> F32,
    W: Fn(F32, &Median) -> F64,
    X: Fn(F32, &Median) -> F64,
    L: Fn(F64, &Median) -> F32,
    D: Fn(Sums, F64, Place, Place) -> Sums,
    E: Fn(Sums, Place) -> Moments,
    K: Fn(F64, &Vec<F64>) -> F64,
    F: Fn(F64, &Vec<F64>, bool) -> Fit,
    H: Fn(Place, Fit, Position) -> (Position, F64),
    N: Fn(F64, usize) -> F32,
>(
    ar: Arithmetic<A, R, C, B, S, G, T, GrayBlob<W, X, L, D, E, K, F, H, N>>,
    gray: Seq<F32>,
    width: u32,
    height: u32,
    config: CentroidExtractionConfig,
    prepared: Prepared,
    source: Vec<F32>,
    labels: Seq<u32>,
    components: Seq<Component>,
    all: Seq<Centroid>,
    res: CentroidExtractionResult,
    i: int,
    v: u32,
)
    requires
        gray_run(
            ar,
            gray,
            width,
            height,
            config,
            prepared,
            source,
            labels,
            components,
            all,
            res,
        ),
        0 <= i < labels.len(),
        0 < v < labels[i],
    ensures
        exists|j: int| 0 <= j < i && #[trigger] labels[j] == v,
{
    assert(label_seen(labels, v as int, i));
}

/// A label is a whole blob: detected pixels that touch at an edge, or at a corner
/// with 8-connectivity, have the same label, and pixels with the same label are
/// linked by detected ones.
pub proof fn law_gray_labels_are_blobs<
    A: Fn(F32, F32) -> F32,
    R: Fn(&Vec<Deviation>) -> F32,
    C: Fn(F32, F32, F32) -> F32,
    B: Fn(Corners, usize, usize) -> F32,
    S: Fn(F32, F32) -> F32,
    G: Fn(&Vec<F32>, usize, usize, F32) -> Vec<F32>,
    T: Fn(F32, F32, F32, Option<F32>) -> F32,
    W: Fn(F32, &Median) -> F64,
    X: Fn(F32, &Median) -> F64,
    L: Fn(F64, &Median) -> F32,
    D: Fn(Sums, F64, Place, Place) -> Sums,
    E: Fn(Sums, Place) -> Moments,
    K: Fn(F64, &Vec<F64>) -> F64,
    F: Fn(F64, &Vec<F64>, bool) -> Fit,
    H: Fn(Place, Fit, Position) -> (Position, F64),
    N: Fn(F64, usize) -> F32,
>(
    ar: Arithmetic<A, R, C, B, S, G, T, GrayBlob<W, X, L, D, E, K, F, H, N>>,
    gray: Seq<F32>,
    width: u32,
    height: u32,
    config: CentroidExtractionConfig,
    prepared: Prepared,
    source: Vec<F32>,
    labels: Seq<u32>,
    components: Seq<Component>,
    all: Seq<Centroid>,
    res: CentroidExtractionResult,
    p: Pixel,
    q: Pixel,
)
    requires
        gray_run(
            ar,
            gray,
            width,
            height,
            config,
            prepared,
            source,
            labels,
            components,
            all,
            res,
        ),
        source@.len() == width * height,
        0 <= p.0 < height,
        0 <= p.1 < width,
        0 <= q.0 < height,
        0 <= q.1 < width,
        labels[p.0 * width + p.1] != 0,
        labels[q.0 * width + q.1] != 0,
    ensures
        -1 <= p.0 - q.0 <= 1 && -1 <= p.1 - q.1 <= 1 && (config.use_8_connectivity || p.0 == q.0
            || p.1 == q.1) ==> labels[p.0 * width + p.1] == labels[q.0 * width + q.1],
        labels[p.0 * width + p.1] == labels[q.0 * width + q.1] ==> connected(
            |z: Pixel|
                0 <= z.0 < height && 0 <= z.1 < width && labels[z.0 * width + z.1] != 0,
            config.use_8_connectivity,
            p,
            q,
        ),
{
    let (w, h) = (width as int, height as int);
    let eight = config.use_8_connectivity;
    let mask = above_mask(source@, res.threshold);
    let lit = mask_lit(mask, w, h);
    let own = |z: Pixel|
        0 <= z.0 < height && 0 <= z.1 < width && labels[z.0 * width + z.1] != 0;
    lemma_pixel_index(w, h, p.0, p.1);
    lemma_pixel_index(w, h, q.0, q.1);
    assert(p.0 * width + p.1 == index_of(w, p) && q.0 * width + q.1 == index_of(w, q));
    lemma_index_of(w, h, p);
    lemma_index_of(w, h, q);
    let (i, j) = (index_of(w, p), index_of(w, q));
    assert(labels[i] != 0 && labels[j] != 0);
    assert(pixel_of(w, i) == p && pixel_of(w, j) == q);
    assert(lit(p) && lit(q));
    if -1 <= p.0 - q.0 <= 1 && -1 <= p.1 - q.1 <= 1 && (eight || p.0 == q.0 || p.1 == q.1) {
        lemma_connected_step(lit, eight, p, q);
    }
    if labels[i] == labels[j] {
        assert forall|z: Pixel| #[trigger] lit(z) implies own(z) by {
            lemma_pixel_index(w, h, z.0, z.1);
            assert(labels[z.0 * w + z.1] == 0 <==> mask[z.0 * w + z.1] == 0);
        }
        crate::connect::lemma_connected_grows(lit, own, eight, p, q);
    }
}

/// The image that blobs are measured on: without a local background the image as
/// it is; with one, each pixel less what `blend` answers for the levels around
/// it, its column and its row, and zero where that is not above zero. The image
/// for the filter is the same without the zeros.
pub proof fn law_gray_measures_residuals<
    A: Fn(F32, F32) -> F32,
    R: Fn(&Vec<Deviation>) -> F32,
    C: Fn(F32, F32, F32) -> F32,
    B: Fn(Corners, usize, usize) -> F32,
    S: Fn(F32, F32) -> F32,
    G: Fn(&Vec<F32>, usize, usize, F32) -> Vec<F32>,
    T: Fn(F32, F32, F32, Option<F32>) -> F32,
    W: Fn(F32, &Median) -> F64,
    X: Fn(F32, &Median) -> F64,
    L: Fn(F64, &Median) -> F32,
    D: Fn(Sums, F64, Place, Place) -> Sums,
    E: Fn(Sums, Place) -> Moments,
    K: Fn(F64, &Vec<F64>) -> F64,
    F: Fn(F64, &Vec<F64>, bool) -> Fit,
    H: Fn(Place, Fit, Position) -> (Position, F64),
    N: Fn(F64, usize) -> F32,
>(
    ar: Arithmetic<A, R, C, B, S, G, T, GrayBlob<W, X, L, D, E, K, F, H, N>>,
    gray: Seq<F32>,
    width: u32,
    height: u32,
    config: CentroidExtractionConfig,
    prepared: Prepared,
    source: Vec<F32>,
    labels: Seq<u32>,
    components: Seq<Component>,
    all: Seq<Centroid>,
    res: CentroidExtractionResult,
    r: usize,
    c: usize,
)
    requires
        gray_run(
            ar,
            gray,
            width,
            height,
            config,
            prepared,
            source,
            labels,
            components,
            all,
            res,
        ),
        gray.len() == width * height,
        r < height,
        c < width,
    ensures
        config.local_bg_block_size is None ==> prepared.image@ == gray && prepared.unclamped@
            == gray,
        config.local_bg_block_size matches Some(block) ==> {
            let i = r * width + c;
            let u = prepared.unclamped@[i];
            &&& prepared.image@.len() == gray.len()
            &&& prepared.unclamped@.len() == gray.len()
            &&& prepared.image@[i] == if !u.nan() && u.rank() > 0 {
                u
            } else {
                F32 { bits: 0 }
            }
            &&& exists|bg: BackgroundGrid, b: F32|
                {
                    &&& bg.covers(width as int, height as int)
                    &&& bg.block == block
                    &&& #[trigger] call_ensures(
                        ar.blend,
                        (bg.levels_at(Edges::Extend, c as int, r as int), c, r),
                        b,
                    )
                    &&& call_ensures(ar.subtract, (gray[i], b), u)
                }
        },
{
    let (w, h) = (width as int, height as int);
    if config.local_bg_block_size is Some {
        let bs = config.local_bg_block_size->0;
        let rounds = config.sigma_clip_iterations as nat;
        let factor = config.sigma_clip_factor;
        let (bg, residuals, surface) = choose|
            bg: BackgroundGrid,
            residuals: Seq<F32>,
            surface: Seq<F32>,
        | #[trigger]
            locally_prepared(
                ar,
                gray,
                w,
                h,
                bs as int,
                rounds,
                factor,
                bg,
                residuals,
                surface,
                prepared,
            );
        lemma_pixel_index(w, h, r as int, c as int);
        let i = r * width + c;
        assert(i == r * w + c);
        assert(blends(ar.blend, bg, Edges::Extend, r, c, surface[r * w + c]));
        assert(call_ensures(ar.subtract, (gray[i], surface[i]), prepared.unclamped@[i]));
        assert(call_ensures(
            ar.blend,
            (bg.levels_at(Edges::Extend, c as int, r as int), c, r),
            surface[i],
        ));
    }
}

/// What is thresholded, and against what: the answer of the filter for the
/// unclamped image, its columns, its rows and the width of the filter, where that
/// is finite and above zero; else the image that blobs are measured on. The
/// threshold is asked for the level, the noise, the factor and that width, and
/// level and noise are reported.
pub proof fn law_gray_thresholds_the_filtered_image<
    A: Fn(F32, F32) -> F32,
    R: Fn(&Vec<Deviation>) -> F32,
    C: Fn(F32, F32, F32) -> F32,
    B: Fn(Corners, usize, usize) -> F32,
    S: Fn(F32, F32) -> F32,
    G: Fn(&Vec<F32>, usize, usize, F32) -> Vec<F32>,
    T: Fn(F32, F32, F32, Option<F32>) -> F32,
    W: Fn(F32, &Median) -> F64,
    X: Fn(F32, &Median) -> F64,
    L: Fn(F64, &Median) -> F32,
    D: Fn(Sums, F64, Place, Place) -> Sums,
    E: Fn(Sums, Place) -> Moments,
    K: Fn(F64, &Vec<F64>) -> F64,
    F: Fn(F64, &Vec<F64>, bool) -> Fit,
    H: Fn(Place, Fit, Position) -> (Position, F64),
    N: Fn(F64, usize) -> F32,
>(
    ar: Arithmetic<A, R, C, B, S, G, T, GrayBlob<W, X, L, D, E, K, F, H, N>>,
    gray: Seq<F32>,
    width: u32,
    height: u32,
    config: CentroidExtractionConfig,
    prepared: Prepared,
    source: Vec<F32>,
    labels: Seq<u32>,
    components: Seq<Component>,
    all: Seq<Centroid>,
    res: CentroidExtractionResult,
)
    requires
        gray_run(
            ar,
            gray,
            width,
            height,
            config,
            prepared,
            source,
            labels,
            components,
            all,
            res,
        ),
    ensures
        ({
            let width_of_filter = match config.matched_filter_sigma {
                Some(s) => if s.finite() && s.rank() > 0 {
                    Some(s)
                } else {
                    None
                },
                None => None,
            };
            &&& match width_of_filter {
                Some(s) => call_ensures(
                    ar.blur,
                    (&prepared.unclamped, width as usize, height as usize, s),
                    source,
                ),
                None => source@ == prepared.image@,
            }
            &&& call_ensures(
                ar.threshold,
                (
                    res.background_mean,
                    res.background_sigma,
                    config.sigma_threshold,
                    width_of_filter,
                ),
                res.threshold,
            )
        }),
        res.image_width == width,
        res.image_height == height,
        res.background_mean == prepared.mean,
        res.background_sigma == prepared.sigma,
{
}

/// The smallest box of rows and columns that holds the listed pixels.
pub open spec fn is_box(list: Seq<Place>, r0: int, r1: int, c0: int, c1: int) -> bool {
    &&& forall|i: int|
        0 <= i < list.len() ==> r0 <= (#[trigger] list[i]).0 <= r1 && c0 <= list[i].1 <= c1
    &&& exists|i: int| 0 <= i < list.len() && (#[trigger] list[i]).0 == r0
    &&& exists|i: int| 0 <= i < list.len() && (#[trigger] list[i]).0 == r1
    &&& exists|i: int| 0 <= i < list.len() && (#[trigger] list[i]).1 == c0
    &&& exists|i: int| 0 <= i < list.len() && (#[trigger] list[i]).1 == c1
}

/// The places, row by row, of the background around a blob: the pixels without a
/// label that lie at most five rows and columns outside its box.
pub open spec fn is_background_around(
    places: Seq<Place>,
    list: Seq<Place>,
    labels: Seq<u32>,
    w: int,
    h: int,
) -> bool {
    exists|r0: int, r1: int, c0: int, c1: int|
        {
            &&& #[trigger] is_box(list, r0, r1, c0, c1)
            &&& forall|s: int, t: int|
                0 <= s < t < places.len() ==> (#[trigger] places[s]).0 < (#[trigger] places[t]).0
                    || (places[s].0 == places[t].0 && places[s].1 < places[t].1)
            &&& forall|r: usize, c: usize| #[trigger]
                places.contains((r, c)) <==> r < h && c < w && r0 - 5 <= r <= r1 + 5 && c0 - 5
                    <= c <= c1 + 5 && labels[r * w + c] == 0
        }
}

/// What is known of a blob whose pixels are `list`, against the background
/// `local`: the weight of each pixel is that of its value, the moments are those
/// of the weighted pixels, counted from the corner of the box; the peak is the
/// first pixel that none exceeds, and its value, those around it and the floor for
/// other peaks are taken above the same background.
pub open spec fn weighed_blob<
    W: Fn(F32, &Median) -> F64,
    X: Fn(F32, &Median) -> F64,
    L: Fn(F64, &Median) -> F32,
    D: Fn(Sums, F64, Place, Place) -> Sums,
    E: Fn(Sums, Place) -> Moments,
    K: Fn(F64, &Vec<F64>) -> F64,
    F: Fn(F64, &Vec<F64>, bool) -> Fit,
    H: Fn(Place, Fit, Position) -> (Position, F64),
    N: Fn(F64, usize) -> F32,
>(
    blob: GrayBlob<W, X, L, D, E, K, F, H, N>,
    image: Seq<F32>,
    w: int,
    local: Median,
    list: Seq<Place>,
    weights: Seq<F64>,
    m: Moments,
    at: Place,
    peak: F64,
    around: Seq<Place>,
    ring: Vec<F64>,
    floor: F32,
) -> bool {
    &&& weights.len() == list.len()
    &&& forall|i: int|
        0 <= i < list.len() ==> call_ensures(
            blob.weight,
            (image[list[i].0 * w + list[i].1], &local),
            #[trigger] weights[i],
        )
    &&& exists|r0: usize, r1: int, c0: usize, c1: int|
        {
            &&& #[trigger] is_box(list, r0 as int, r1, c0 as int, c1)
            &&& are_moments(
                blob.shape.accumulate,
                blob.shape.moments,
                weights,
                list,
                (r0, c0),
                m,
            )
        }
    &&& (exists|i: int|
        0 <= i < list.len() && !image[(#[trigger] list[i]).0 * w + list[i].1].nan()
            && image[list[i].0 * w + list[i].1].rank() > -0x7f80_0000) ==> {
        &&& list.contains(at)
        &&& forall|i: int|
            0 <= i < list.len() && !image[list[i].0 * w + list[i].1].nan() ==> image[(
            #[trigger] list[i]).0 * w + list[i].1].rank() <= image[at.0 * w + at.1].rank()
    }
    &&& call_ensures(blob.excess, (image[at.0 * w + at.1], &local), peak)
    &&& ring@.len() == around.len()
    &&& forall|j: int|
        0 <= j < around.len() ==> call_ensures(
            blob.excess,
            (image[around[j].0 * w + around[j].1], &local),
            #[trigger] ring@[j],
        )
    &&& call_ensures(blob.floor, (peak, &local), floor)
}

/// A pixel above the floor and above every pixel around it.
pub open spec fn is_prominent(image: Seq<F32>, w: int, h: int, floor: F32, p: Place) -> bool {
    let v = image[p.0 * w + p.1];
    &&& !v.nan() && !floor.nan() && v.rank() > floor.rank()
    &&& forall|r: usize, c: usize|
        r < h && c < w && -1 <= r - p.0 <= 1 && -1 <= c - p.1 <= 1 && (r, c) != p ==> {
            let u = #[trigger] image[r * w + c];
            !u.nan() && v.rank() > u.rank()
        }
}

/// Two prominent pixels of a blob are more than two pixels apart.
pub open spec fn has_two_peaks(
    image: Seq<F32>,
    w: int,
    h: int,
    floor: F32,
    list: Seq<Place>,
) -> bool {
    exists|s: int, t: int|
        {
            &&& 0 <= s < list.len()
            &&& 0 <= t < list.len()
            &&& is_prominent(image, w, h, floor, #[trigger] list[s])
            &&& is_prominent(image, w, h, floor, #[trigger] list[t])
            &&& (list[s].0 - list[t].0) * (list[s].0 - list[t].0) + (list[s].1 - list[t].1) * (
            list[s].1 - list[t].1) > 4
        }
}

proof fn lemma_prominent(image: Seq<F32>, w: int, h: int, floor: F32, p: Place)
    ensures
        is_prominent(image, w, h, floor, p) <==> is_distinct_peak(image, w, h, floor, p),
{
    if is_distinct_peak(image, w, h, floor, p) {
        assert forall|r: usize, c: usize|
            r < h && c < w && -1 <= r - p.0 <= 1 && -1 <= c - p.1 <= 1 && (r, c) != p implies {
            let u = #[trigger] image[r * w + c];
            !u.nan() && image[p.0 * w + p.1].rank() > u.rank()
        } by {
            let q: Place = (r, c);
            assert(ring_of(p, w, h)(px(q)));
            assert(at(image, w, p).above(at(image, w, q)));
        }
    }
    if is_prominent(image, w, h, floor, p) {
        assert forall|q: Place| #[trigger] ring_of(p, w, h)(px(q)) implies at(image, w, p).above(
            at(image, w, q),
        ) by {
            let u = image[q.0 * w + q.1];
            assert((q.0, q.1) != p);
        }
    }
}

proof fn lemma_two_peaks(image: Seq<F32>, w: int, h: int, floor: F32, list: Seq<Place>)
    ensures
        has_two_peaks(image, w, h, floor, list) <==> is_blend(image, w, h, floor, list),
{
    assert forall|s: int| 0 <= s < list.len() implies (is_prominent(
        image,
        w,
        h,
        floor,
        #[trigger] list[s],
    ) <==> is_distinct_peak(image, w, h, floor, list[s])) by {
        lemma_prominent(image, w, h, floor, list[s]);
    }
    if has_two_peaks(image, w, h, floor, list) {
        let (s, t) = choose|s: int, t: int|
            {
                &&& 0 <= s < list.len()
                &&& 0 <= t < list.len()
                &&& is_prominent(image, w, h, floor, #[trigger] list[s])
                &&& is_prominent(image, w, h, floor, #[trigger] list[t])
                &&& (list[s].0 - list[t].0) * (list[s].0 - list[t].0) + (list[s].1 - list[t].1)
                    * (list[s].1 - list[t].1) > 4
            };
        assert(is_distinct_peak(image, w, h, floor, list[s]));
        assert(is_distinct_peak(image, w, h, floor, list[t]));
    }
    if is_blend(image, w, h, floor, list) {
        let (s, t) = choose|s: int, t: int|
            {
                &&& 0 <= s < list.len()
                &&& 0 <= t < list.len()
                &&& is_distinct_peak(image, w, h, floor, #[trigger] list[s])
                &&& is_distinct_peak(image, w, h, floor, #[trigger] list[t])
                &&& crate::ccl::far_apart(list[s], list[t])
            };
        assert(is_prominent(image, w, h, floor, list[s]));
        assert(is_prominent(image, w, h, floor, list[t]));
    }
}

/// Some pixel of the raw image in a blob is at or above the saturation level.
pub open spec fn reaches_saturation(
    raw: Seq<F32>,
    w: int,
    list: Seq<Place>,
    level: Option<F32>,
) -> bool {
    level matches Some(s) && exists|i: int|
        0 <= i < list.len() && !raw[(#[trigger] list[i]).0 * w + list[i].1].nan() && !s.nan()
            && raw[list[i].0 * w + list[i].1].rank() >= s.rank()
}

/// What a weighed blob comes to.
pub open spec fn blob_comes_to<
    D: Fn(Sums, F64, Place, Place) -> Sums,
    E: Fn(Sums, Place) -> Moments,
    K: Fn(F64, &Vec<F64>) -> F64,
    F: Fn(F64, &Vec<F64>, bool) -> Fit,
    H: Fn(Place, Fit, Position) -> (Position, F64),
    N: Fn(F64, usize) -> F32,
>(
    shape: ShapeArithmetic<D, E, K, F, H, N>,
    image: Seq<F32>,
    raw: Seq<F32>,
    width: u32,
    height: u32,
    config: CentroidExtractionConfig,
    list: Seq<Place>,
    m: Moments,
    at: Place,
    peak: F64,
    ring: Vec<F64>,
    sharpness: Option<F64>,
    floor: F32,
    o: Option<Centroid>,
) -> bool {
    let (w, h) = (width as int, height as int);
    let saturated = reaches_saturation(raw, w, list, config.saturation_level);
    match o {
        None => {
            ||| !m.flux.nan() && m.flux.rank() <= 0
            ||| config.max_elongation matches Some(e) && !m.elongation.nan() && !e.nan()
                && m.elongation.rank() > e.rank()
            ||| config.max_sharpness matches Some(l) && sharpness matches Some(s) && exceeds(s, l)
            ||| config.deblend == DeblendMode::Reject && !saturated && has_two_peaks(
                image,
                w,
                h,
                floor,
                list,
            )
        },
        Some(c) => {
            &&& m.flux.nan() || m.flux.rank() > 0
            &&& config.max_elongation matches Some(e) ==> m.elongation.nan() || e.nan()
                || m.elongation.rank() <= e.rank()
            &&& match (config.max_sharpness, sharpness) {
                (Some(l), Some(s)) => !exceeds(s, l),
                _ => true,
            }
            &&& config.deblend == DeblendMode::Reject && !saturated ==> !has_two_peaks(
                image,
                w,
                h,
                floor,
                list,
            )
            &&& exists|pos: Position|
                {
                    &&& #[trigger] stands_at(shape, m, width, height, pos, c)
                    &&& is_position(
                        shape,
                        list.len() >= 5 && 1 <= at.0 < height - 1 && 1 <= at.1 < width - 1
                            && !saturated,
                        at,
                        m.center,
                        peak,
                        ring,
                        pos,
                    )
                }
        },
    }
}

/// The pixels of a label stand in the order of the rows, there is at least one,
/// and their box is that of its component.
proof fn lemma_label_listed<
    A: Fn(F32, F32) -> F32,
    R: Fn(&Vec<Deviation>) -> F32,
    C: Fn(F32, F32, F32) -> F32,
    B: Fn(Corners, usize, usize) -> F32,
    S: Fn(F32, F32) -> F32,
    G: Fn(&Vec<F32>, usize, usize, F32) -> Vec<F32>,
    T: Fn(F32, F32, F32, Option<F32>) -> F32,
    W: Fn(F32, &Median) -> F64,
    X: Fn(F32, &Median) -> F64,
    L: Fn(F64, &Median) -> F32,
    D: Fn(Sums, F64, Place, Place) -> Sums,
    E: Fn(Sums, Place) -> Moments,
    K: Fn(F64, &Vec<F64>) -> F64,
    F: Fn(F64, &Vec<F64>, bool) -> Fit,
    H: Fn(Place, Fit, Position) -> (Position, F64),
    N: Fn(F64, usize) -> F32,
>(
    ar: Arithmetic<A, R, C, B, S, G, T, GrayBlob<W, X, L, D, E, K, F, H, N>>,
    gray: Seq<F32>,
    width: u32,
    height: u32,
    config: CentroidExtractionConfig,
    prepared: Prepared,
    source: Vec<F32>,
    labels: Seq<u32>,
    components: Seq<Component>,
    all: Seq<Centroid>,
    res: CentroidExtractionResult,
    k: int,
    list: Seq<Place>,
)
    requires
        gray_run(
            ar,
            gray,
            width,
            height,
            config,
            prepared,
            source,
            labels,
            components,
            all,
            res,
        ),
        0 <= k < components.len(),
        is_listing(list, label_set(labels, width as int, height as int, k + 1)),
    ensures
        list.len() > 0,
        forall|i: int|
            0 <= i < list.len() ==> (#[trigger] list[i]).0 < height && list[i].1 < width
                && labels[list[i].0 * width + list[i].1] == k + 1,
        is_box(
            list,
            components[k].bbox_min.0 as int,
            components[k].bbox_max.0 as int,
            components[k].bbox_min.1 as int,
            components[k].bbox_max.1 as int,
        ),
{
    let (w, h) = (width as int, height as int);
    let v = k + 1;
    let comp = components[k];
    let set = label_set(labels, w, h, v);
    assert(describes(comp, labels, w, v));
    assert(labels.len() == w * h);
    assert(label_seen(labels, v, labels.len() as int));
    let j = choose|j: int| 0 <= j < labels.len() && #[trigger] labels[j] == v;
    assert(w > 0 && h > 0) by (nonlinear_arith)
        requires
            0 <= j < w * h,
            w >= 0,
            h >= 0,
    ;
    assert forall|i: int| 0 <= i < list.len() implies (#[trigger] list[i]).0 < height && list[i].1
        < width && labels[list[i].0 * width + list[i].1] == v && comp.bbox_min.0 <= list[i].0
        <= comp.bbox_max.0 && comp.bbox_min.1 <= list[i].1 <= comp.bbox_max.1 by {
        let p = px(list[i]);
        assert(set(p));
        lemma_index_of(w, h, p);
        assert(labelled(labels, index_of(w, p), v));
    }
    assert forall|i: int| #[trigger] labelled(labels, i, v) implies exists|t: int|
        0 <= t < list.len() && px(#[trigger] list[t]) == pixel_of(w, i) by {
        lemma_pixel_of(w, h, i);
        let p = pixel_of(w, i);
        assert(set(p));
        assert(listed(list, p));
    }
    assert(labelled(labels, j, v));
    let a = choose|i: int| #[trigger]
        labelled(labels, i, v) && pixel_of(w, i).0 == comp.bbox_min.0;
    let b = choose|i: int| #[trigger]
        labelled(labels, i, v) && pixel_of(w, i).0 == comp.bbox_max.0;
    let c = choose|i: int| #[trigger]
        labelled(labels, i, v) && pixel_of(w, i).1 == comp.bbox_min.1;
    let d = choose|i: int| #[trigger]
        labelled(labels, i, v) && pixel_of(w, i).1 == comp.bbox_max.1;
    let ta = choose|t: int| 0 <= t < list.len() && px(#[trigger] list[t]) == pixel_of(w, a);
    let tb = choose|t: int| 0 <= t < list.len() && px(#[trigger] list[t]) == pixel_of(w, b);
    let tc = choose|t: int| 0 <= t < list.len() && px(#[trigger] list[t]) == pixel_of(w, c);
    let td = choose|t: int| 0 <= t < list.len() && px(#[trigger] list[t]) == pixel_of(w, d);
    assert(list[ta].0 == comp.bbox_min.0 && list[tb].0 == comp.bbox_max.0);
    assert(list[tc].1 == comp.bbox_min.1 && list[td].1 == comp.bbox_max.1);
}

/// The background around a component, listed.
proof fn lemma_annulus_listed(
    image: Seq<F32>,
    labels: Seq<u32>,
    w: int,
    h: int,
    comp: Component,
    list: Seq<Place>,
    local: Median,
) -> (places: Seq<Place>)
    requires
        is_box(
            list,
            comp.bbox_min.0 as int,
            comp.bbox_max.0 as int,
            comp.bbox_min.1 as int,
            comp.bbox_max.1 as int,
        ),
        is_annulus_median(image, labels, w, h, comp, local),
    ensures
        is_background_around(places, list, labels, w, h),
        is_median(Seq::new(places.len(), |t: int| image[places[t].0 * w + places[t].1]), local),
{
    let vals = choose|vals: Seq<F32>| #[trigger]
        are_annulus_values(image, labels, w, h, comp, vals) && is_median(vals, local);
    let set = crate::blobs::annulus_set(labels, w, h, comp);
    let places = choose|places: Seq<Place>| #[trigger]
        is_listing(places, set) && vals == values_at(image, w, places);
    assert(vals =~= Seq::new(places.len(), |t: int| image[places[t].0 * w + places[t].1]));
    assert forall|s: int, t: int| 0 <= s < t < places.len() implies (#[trigger] places[s]).0 < (
    #[trigger] places[t]).0 || (places[s].0 == places[t].0 && places[s].1 < places[t].1) by {
        assert(raster_lt(px(places[s]), px(places[t])));
    }
    let (r0, r1) = (comp.bbox_min.0 as int, comp.bbox_max.0 as int);
    let (c0, c1) = (comp.bbox_min.1 as int, comp.bbox_max.1 as int);
    assert forall|r: usize, c: usize| #[trigger]
        places.contains((r, c)) <==> r < h && c < w && r0 - 5 <= r <= r1 + 5 && c0 - 5 <= c <= c1
            + 5 && labels[r * w + c] == 0 by {
        let p: Place = (r, c);
        assert(index_of(w, px(p)) == r * w + c);
        if places.contains(p) {
            let t = choose|t: int| 0 <= t < places.len() && places[t] == p;
            assert(set(px(places[t])));
        }
        if r < h && c < w && r0 - 5 <= r <= r1 + 5 && c0 - 5 <= c <= c1 + 5 && labels[r * w + c]
            == 0 {
            assert(set(px(p)));
            assert(listed(places, px(p)));
            let t = choose|t: int| 0 <= t < places.len() && px(#[trigger] places[t]) == px(p);
            assert(places[t] == p);
        }
    }
    assert(is_box(list, r0, r1, c0, c1));
    places
}

/// What becomes of a blob. It is dropped where it has too few or too many pixels
/// or one within the margin of an edge. Else it is weighed against the median of
/// the background around it: it is dropped where its flux is zero or less, its
/// elongation or its sharpness above the limit, or where it is a blend that is to
/// be dropped; and where it is kept, its centroid stands at its center of mass or
/// at the vertex at its peak.
#[verifier::rlimit(30)]
pub proof fn law_gray_blob_outcome<
    A: Fn(F32, F32) -> F32,
    R: Fn(&Vec<Deviation>) -> F32,
    C: Fn(F32, F32, F32) -> F32,
    B: Fn(Corners, usize, usize) -> F32,
    S: Fn(F32, F32) -> F32,
    G: Fn(&Vec<F32>, usize, usize, F32) -> Vec<F32>,
    T: Fn(F32, F32, F32, Option<F32>) -> F32,
    W: Fn(F32, &Median) -> F64,
    X: Fn(F32, &Median) -> F64,
    L: Fn(F64, &Median) -> F32,
    D: Fn(Sums, F64, Place, Place) -> Sums,
    E: Fn(Sums, Place) -> Moments,
    K: Fn(F64, &Vec<F64>) -> F64,
    F: Fn(F64, &Vec<F64>, bool) -> Fit,
    H: Fn(Place, Fit, Position) -> (Position, F64),
    N: Fn(F64, usize) -> F32,
>(
    ar: Arithmetic<A, R, C, B, S, G, T, GrayBlob<W, X, L, D, E, K, F, H, N>>,
    gray: Seq<F32>,
    width: u32,
    height: u32,
    config: CentroidExtractionConfig,
    prepared: Prepared,
    source: Vec<F32>,
    labels: Seq<u32>,
    components: Seq<Component>,
    all: Seq<Centroid>,
    res: CentroidExtractionResult,
    outs: Seq<Option<Centroid>>,
    k: int,
    list: Seq<Place>,
)
    requires
        gray_run(
            ar,
            gray,
            width,
            height,
            config,
            prepared,
            source,
            labels,
            components,
            all,
            res,
        ),
        blob_outcomes(
            ar.blob,
            prepared.image,
            gray,
            labels,
            components,
            width as int,
            height as int,
            config,
            outs,
        ),
        0 <= k < outs.len(),
        is_listing(list, label_set(labels, width as int, height as int, k + 1)),
    ensures
        list.len() < config.min_pixels || list.len() > config.max_pixels ==> outs[k] is None,
        (exists|i: int|
            0 <= i < list.len() && !(config.border_margin <= (#[trigger] list[i]).0 < height
                - config.border_margin && config.border_margin <= list[i].1 < width
                - config.border_margin)) ==> outs[k] is None,
        ({
            ||| list.len() < config.min_pixels || list.len() > config.max_pixels
            ||| exists|i: int|
                0 <= i < list.len() && !(config.border_margin <= (#[trigger] list[i]).0 < height
                    - config.border_margin && config.border_margin <= list[i].1 < width
                    - config.border_margin)
            ||| exists|
                places: Seq<Place>,
                local: Median,
                weights: Seq<F64>,
                m: Moments,
                at: Place,
                peak: F64,
                around: Seq<Place>,
                ring: Vec<F64>,
                floor: F32,
                sharpness: Option<F64>,
            |
                {
                    &&& #[trigger] is_background_around(
                        places,
                        list,
                        labels,
                        width as int,
                        height as int,
                    )
                    &&& is_median(
                        Seq::new(
                            places.len(),
                            |t: int| prepared.image@[places[t].0 * width + places[t].1],
                        ),
                        local,
                    )
                    &&& #[trigger] weighed_blob(
                        ar.blob,
                        prepared.image@,
                        width as int,
                        local,
                        list,
                        weights,
                        m,
                        at,
                        peak,
                        around,
                        ring,
                        floor,
                    )
                    &&& surrounds(around, at, width as int, height as int)
                    &&& #[trigger] is_sharpness_of(
                        ar.blob.shape.sharpness,
                        peak,
                        ring,
                        sharpness,
                    )
                    &&& blob_comes_to(
                        ar.blob.shape,
                        prepared.image@,
                        gray,
                        width,
                        height,
                        config,
                        list,
                        m,
                        at,
                        peak,
                        ring,
                        sharpness,
                        floor,
                        outs[k],
                    )
                }
        }),
{
    let (w, h) = (width as int, height as int);
    let o = outs[k];
    let comp = components[k];
    let v = k + 1;
    let set = label_set(labels, w, h, v);
    let image = prepared.image;
    let origin = (comp.bbox_min.0 as usize, comp.bbox_min.1 as usize);
    assert(blob_emits(ar.blob, image, gray, labels, w, h, config, comp, v, o));
    let l2 = choose|l2: Seq<Place>|
        {
            &&& #[trigger] is_listing(l2, set)
            &&& if passes_gates(
                l2,
                config.min_pixels,
                config.max_pixels,
                config.border_margin,
                w,
                h,
            ) {
                exists|local: Median, b: Blob, m: Measurement|
                    {
                        &&& is_annulus_median(image@, labels, w, h, comp, local)
                        &&& is_blob(
                            b,
                            l2,
                            image@,
                            gray,
                            w,
                            h,
                            config.saturation_level,
                            origin,
                        )
                        &&& #[trigger] gray_measured(ar.blob, image, w, h, local, origin, b, m)
                        &&& o == if keeps_measured(config, image@, w, h, b, m) {
                            Some(m.centroid_of())
                        } else {
                            None
                        }
                    }
            } else {
                o is None
            }
        };
    crate::blobs::law_listing_unique(list, l2, set);
    lemma_label_listed(
        ar,
        gray,
        width,
        height,
        config,
        prepared,
        source,
        labels,
        components,
        all,
        res,
        k,
        list,
    );
    let margin = config.border_margin as int;
    if keeps_clear(list, margin, w, h) && config.min_pixels <= list.len() <= config.max_pixels {
        let (local, b, m) = choose|local: Median, b: Blob, m: Measurement|
            {
                &&& is_annulus_median(image@, labels, w, h, comp, local)
                &&& is_blob(b, list, image@, gray, w, h, config.saturation_level, origin)
                &&& #[trigger] gray_measured(ar.blob, image, w, h, local, origin, b, m)
                &&& o == if keeps_measured(config, image@, w, h, b, m) {
                    Some(m.centroid_of())
                } else {
                    None
                }
            };
        let (weights, moments, peak, ring, floor) = choose|
            weights: Seq<F64>,
            moments: Moments,
            peak: F64,
            ring: Vec<F64>,
            floor: F32,
        |
            {
                &&& #[trigger] gray_values(
                    ar.blob,
                    image,
                    w,
                    local,
                    origin,
                    b,
                    weights,
                    moments,
                    peak,
                    ring,
                    floor,
                )
                &&& is_measurement(
                    ar.blob.shape,
                    b,
                    moments,
                    peak,
                    ring,
                    w as usize,
                    h as usize,
                    floor,
                    m,
                )
            };
        let places = lemma_annulus_listed(image@, labels, w, h, comp, list, local);
        assert(Seq::new(places.len(), |t: int| image@[places[t].0 * w + places[t].1]) =~= Seq::new(
            places.len(),
            |t: int| prepared.image@[places[t].0 * width + places[t].1],
        ));
        lemma_peak_of(image@, w, list, origin, b.peak);
        lemma_ring_surrounds(b.ring@, b.peak, w, h);
        lemma_two_peaks(image@, w, h, floor, list);
        lemma_saturation(gray, w, list, config.saturation_level);
        assert(seq![peak][0] == peak && seq![b.peak][0] == b.peak);
        assert(is_box(
            list,
            origin.0 as int,
            comp.bbox_max.0 as int,
            origin.1 as int,
            comp.bbox_max.1 as int,
        ));
        assert(weighed_blob(
            ar.blob,
            image@,
            w,
            local,
            list,
            weights,
            moments,
            b.peak,
            peak,
            b.ring@,
            ring,
            floor,
        ));
        law_measured_blob_is_placed(
            ar.blob.shape,
            b,
            moments,
            peak,
            ring,
            width,
            height,
            floor,
            m,
        );
        assert(is_sharpness_of(ar.blob.shape.sharpness, peak, ring, m.sharpness));
        assert(blob_comes_to(
            ar.blob.shape,
            image@,
            gray,
            width,
            height,
            config,
            list,
            moments,
            b.peak,
            peak,
            ring,
            m.sharpness,
            floor,
            o,
        ));
    } else if config.min_pixels <= list.len() <= config.max_pixels {
        let t = choose|t: int|
            0 <= t < list.len() && !{
                &&& margin <= (#[trigger] list[t]).0 < h - margin
                &&& margin <= list[t].1 < w - margin
            };
        assert(!(config.border_margin <= list[t].0 < height - config.border_margin
            && config.border_margin <= list[t].1 < width - config.border_margin));
    }
}

proof fn lemma_saturation(raw: Seq<F32>, w: int, list: Seq<Place>, level: Option<F32>)
    ensures
        reaches_saturation(raw, w, list, level) <==> crate::measure::is_saturated(
            raw,
            w,
            list,
            level,
        ),
{
    if reaches_saturation(raw, w, list, level) {
        let s = level->0;
        let i = choose|i: int|
            0 <= i < list.len() && !raw[(#[trigger] list[i]).0 * w + list[i].1].nan() && !s.nan()
                && raw[list[i].0 * w + list[i].1].rank() >= s.rank();
        assert(at(raw, w, list[i]).at_least(s));
    }
    if crate::measure::is_saturated(raw, w, list, level) {
        let s = level->0;
        let i = choose|i: int| 0 <= i < list.len() && at(raw, w, #[trigger] list[i]).at_least(s);
        assert(raw[list[i].0 * w + list[i].1].rank() >= s.rank());
    }
}

/// The peak of pixels of which one exceeds the negative infinity is one of them,
/// and none exceeds it.
proof fn lemma_peak_of(image: Seq<F32>, w: int, list: Seq<Place>, fallback: Place, peak: Place)
    requires
        is_peak(image, w, list, fallback, peak),
    ensures
        (exists|i: int|
            0 <= i < list.len() && !image[(#[trigger] list[i]).0 * w + list[i].1].nan()
                && image[list[i].0 * w + list[i].1].rank() > -0x7f80_0000) ==> {
            &&& list.contains(peak)
            &&& forall|i: int|
                0 <= i < list.len() && !image[list[i].0 * w + list[i].1].nan() ==> image[(
                #[trigger] list[i]).0 * w + list[i].1].rank() <= image[peak.0 * w + peak.1].rank()
        },
{
    if exists|i: int|
        0 <= i < list.len() && !image[(#[trigger] list[i]).0 * w + list[i].1].nan()
            && image[list[i].0 * w + list[i].1].rank() > -0x7f80_0000 {
        let i = choose|i: int|
            0 <= i < list.len() && !image[(#[trigger] list[i]).0 * w + list[i].1].nan()
                && image[list[i].0 * w + list[i].1].rank() > -0x7f80_0000;
        assert(at(image, w, list[i]).above(F32 { bits: NEG_INF_32 }));
        let t = choose|t: int| #[trigger] is_top(image, w, list, t) && peak == list[t];
        assert(list[t] == peak);
        assert forall|j: int|
            0 <= j < list.len() && !image[list[j].0 * w + list[j].1].nan() implies image[(
        #[trigger] list[j]).0 * w + list[j].1].rank() <= image[peak.0 * w + peak.1].rank() by {
            assert(!at(image, w, list[j]).above(at(image, w, list[t])));
        }
    }
}

/// Every centroid of a result has its blob: the pixels of one of the labels,
/// weighed and placed.
pub proof fn law_gray_centroid_has_its_blob<
    A: Fn(F32, F32) -> F32,
    R: Fn(&Vec<Deviation>) -> F32,
    C: Fn(F32, F32, F32) -> F32,
    B: Fn(Corners, usize, usize) -> F32,
    S: Fn(F32, F32) -> F32,
    G: Fn(&Vec<F32>, usize, usize, F32) -> Vec<F32>,
    T: Fn(F32, F32, F32, Option<F32>) -> F32,
    W: Fn(F32, &Median) -> F64,
    X: Fn(F32, &Median) -> F64,
    L: Fn(F64, &Median) -> F32,
    D: Fn(Sums, F64, Place, Place) -> Sums,
    E: Fn(Sums, Place) -> Moments,
    K: Fn(F64, &Vec<F64>) -> F64,
    F: Fn(F64, &Vec<F64>, bool) -> Fit,
    H: Fn(Place, Fit, Position) -> (Position, F64),
    N: Fn(F64, usize) -> F32,
>(
    ar: Arithmetic<A, R, C, B, S, G, T, GrayBlob<W, X, L, D, E, K, F, H, N>>,
    gray: Seq<F32>,
    width: u32,
    height: u32,
    config: CentroidExtractionConfig,
    res: CentroidExtractionResult,
    i: int,
)
    requires
        is_gray_result(ar, gray, width, height, config, res),
        0 <= i < res.centroids@.len(),
    ensures
        exists|
            prepared: Prepared,
            source: Vec<F32>,
            labels: Seq<u32>,
            components: Seq<Component>,
            all: Seq<Centroid>,
            outs: Seq<Option<Centroid>>,
            k: int,
            list: Seq<Place>,
        |
            {
                &&& #[trigger] gray_run(
                    ar,
                    gray,
                    width,
                    height,
                    config,
                    prepared,
                    source,
                    labels,
                    components,
                    all,
                    res,
                )
                &&& #[trigger] blob_outcomes(
                    ar.blob,
                    prepared.image,
                    gray,
                    labels,
                    components,
                    width as int,
                    height as int,
                    config,
                    outs,
                )
                &&& 0 <= k < outs.len()
                &&& #[trigger] outs[k] == Some(res.centroids@[i])
                &&& #[trigger] is_listing(
                    list,
                    label_set(labels, width as int, height as int, k + 1),
                )
            },
        res.image_width == width,
        res.image_height == height,
        res.centroids@.len() <= res.num_blobs_raw,
{
    let (w, h) = (width as int, height as int);
    let (prepared, source, labels, components, all) = choose|
        prepared: Prepared,
        source: Vec<F32>,
        labels: Seq<u32>,
        components: Seq<Component>,
        all: Seq<Centroid>,
    | #[trigger]
        gray_run(
            ar,
            gray,
            width,
            height,
            config,
            prepared,
            source,
            labels,
            components,
            all,
            res,
        );
    let outs = choose|outs: Seq<Option<Centroid>>|
        {
            &&& #[trigger] blob_outcomes(
                ar.blob,
                prepared.image,
                gray,
                labels,
                components,
                w,
                h,
                config,
                outs,
            )
            &&& all == emitted(outs)
        };
    lemma_emitted(outs);
    let perm = choose|perm: Seq<usize>|
        {
            &&& #[trigger] crate::order::is_descending(
                crate::measure::brightnesses(all, F32::zero()),
                perm,
            )
            &&& res.centroids@ == Seq::new(
                crate::measure::kept(all.len() as int, config.max_centroids) as nat,
                |t: int| all[perm[t] as int],
            )
        };
    assert(perm[i] < all.len());
    let k = choose|k: int|
        0 <= k < outs.len() && #[trigger] outs[k] == Some(all[perm[i] as int]);
    assert(outs[k] == Some(res.centroids@[i]));
    let set = label_set(labels, w, h, k + 1);
    assert(blob_emits(
        ar.blob,
        prepared.image,
        gray,
        labels,
        w,
        h,
        config,
        components[k],
        k + 1,
        outs[k],
    ));
    let list = choose|list: Seq<Place>| #[trigger] is_listing(list, set);
    assert(is_listing(list, label_set(labels, width as int, height as int, k + 1)));
    crate::steady::law_gray_result_in_bounds(ar, gray, width, height, config, res);
}

/// The centroids stand in the frame of the image: x is a column counted from the
/// middle of the width, y a row counted from the middle of the height, for a
/// center of mass and for a vertex alike. So a star in the middle column and the
/// middle row is at the origin, square or not.
pub proof fn law_gray_centroids_are_centered<
    A: Fn(F32, F32) -> F32,
    R: Fn(&Vec<Deviation>) -> F32,
    C: Fn(F32, F32, F32) -> F32,
    B: Fn(Corners, usize, usize) -> F32,
    S: Fn(F32, F32) -> F32,
    G: Fn(&Vec<F32>, usize, usize, F32) -> Vec<F32>,
    T: Fn(F32, F32, F32, Option<F32>) -> F32,
    W: Fn(F32, &Median) -> F64,
    X: Fn(F32, &Median) -> F64,
    L: Fn(F64, &Median) -> F32,
    D: Fn(Sums, F64, Place, Place) -> Sums,
    E: Fn(Sums, Place) -> Moments,
    K: Fn(F64, &Vec<F64>) -> F64,
    F: Fn(F64, &Vec<F64>, bool) -> Fit,
    H: Fn(Place, Fit, Position) -> (Position, F64),
    N: Fn(F64, usize) -> F32,
>(
    ar: Arithmetic<A, R, C, B, S, G, T, GrayBlob<W, X, L, D, E, K, F, H, N>>,
    gray: Seq<F32>,
    width: u32,
    height: u32,
    config: CentroidExtractionConfig,
    res: CentroidExtractionResult,
    i: int,
)
    requires
        is_gray_result(ar, gray, width, height, config, res),
        0 <= i < res.centroids@.len(),
    ensures
        exists|m: Moments, pos: Position|
            {
                &&& #[trigger] stands_at(
                    ar.blob.shape,
                    m,
                    width,
                    height,
                    pos,
                    res.centroids@[i],
                )
                &&& pos == m.center || exists|at: Place, peak: F64, ring: Vec<F64>| #[trigger]
                    is_vertex(ar.blob.shape, at, m.center, peak, ring, pos)
            },
{
    law_gray_centroid_has_its_blob(ar, gray, width, height, config, res, i);
    let (prepared, source, labels, components, all, outs, k, list) = choose|
        prepared: Prepared,
        source: Vec<F32>,
        labels: Seq<u32>,
        components: Seq<Component>,
        all: Seq<Centroid>,
        outs: Seq<Option<Centroid>>,
        k: int,
        list: Seq<Place>,
    |
        {
            &&& #[trigger] gray_run(
            ar,
            gray,
            width,
            height,
            config,
            prepared,
            source,
            labels,
            components,
            all,
            res,
        )
            &&& #[trigger] blob_outcomes(
                ar.blob,
                prepared.image,
                gray,
                labels,
                components,
                width as int,
                height as int,
                config,
                outs,
            )
            &&& 0 <= k < outs.len()
            &&& #[trigger] outs[k] == Some(res.centroids@[i])
            &&& #[trigger] is_listing(
                list,
                label_set(labels, width as int, height as int, k + 1),
            )
        };
    law_gray_blob_outcome(
        ar,
        gray,
        width,
        height,
        config,
        prepared,
        source,
        labels,
        components,
        all,
        res,
        outs,
        k,
        list,
    );
}

/// Level and noise of a result. Without a local background they are those of the
/// image; with one, those of the residuals at the staggered lattice with a
/// sixteenth of a block between samples, at least one pixel, which the block levels
/// come from too.
pub proof fn law_gray_statistics<
    A: Fn(F32, F32) -> F32,
    R: Fn(&Vec<Deviation>) -> F32,
    C: Fn(F32, F32, F32) -> F32,
    B: Fn(Corners, usize, usize) -> F32,
    S: Fn(F32, F32) -> F32,
    G: Fn(&Vec<F32>, usize, usize, F32) -> Vec<F32>,
    T: Fn(F32, F32, F32, Option<F32>) -> F32,
    W: Fn(F32, &Median) -> F64,
    X: Fn(F32, &Median) -> F64,
    L: Fn(F64, &Median) -> F32,
    D: Fn(Sums, F64, Place, Place) -> Sums,
    E: Fn(Sums, Place) -> Moments,
    K: Fn(F64, &Vec<F64>) -> F64,
    F: Fn(F64, &Vec<F64>, bool) -> Fit,
    H: Fn(Place, Fit, Position) -> (Position, F64),
    N: Fn(F64, usize) -> F32,
>(
    ar: Arithmetic<A, R, C, B, S, G, T, GrayBlob<W, X, L, D, E, K, F, H, N>>,
    gray: Seq<F32>,
    width: u32,
    height: u32,
    config: CentroidExtractionConfig,
    prepared: Prepared,
    source: Vec<F32>,
    labels: Seq<u32>,
    components: Seq<Component>,
    all: Seq<Centroid>,
    res: CentroidExtractionResult,
)
    requires
        gray_run(
            ar,
            gray,
            width,
            height,
            config,
            prepared,
            source,
            labels,
            components,
            all,
            res,
        ),
        config.local_bg_block_size != Some(0u32),
        width > 0,
        height > 0,
    ensures
        config.local_bg_block_size is None ==> is_background(
            ar.average,
            ar.rms,
            ar.cut,
            gray,
            config.sigma_clip_iterations as nat,
            config.sigma_clip_factor,
            res.background_mean,
            res.background_sigma,
        ),
        config.local_bg_block_size matches Some(size) ==> exists|
            bg: BackgroundGrid,
            residuals: Seq<F32>,
            stride: usize,
            lattice: Lattice,
        |
            {
                &&& stride == if size >= 32 {
                    (size / 16) as usize
                } else {
                    1
                }
                &&& lattice == Lattice { stride, staggered: true, nonzero: false }
                &&& bg.block == size
                &&& (bg.nx - 1) * size < width <= bg.nx * size
                &&& (bg.ny - 1) * size < height <= bg.ny * size
                &&& #[trigger] is_block_grid(
                    gray,
                    width as int,
                    height as int,
                    size as int,
                    lattice,
                    bg.grid@,
                )
                &&& #[trigger] are_residuals(
                    ar.blend,
                    ar.subtract,
                    bg,
                    gray,
                    width as int,
                    lattice_points(gray, width as int, height as int, 0, stride as int),
                    residuals,
                )
                &&& is_background(
                    ar.average,
                    ar.rms,
                    ar.cut,
                    residuals,
                    config.sigma_clip_iterations as nat,
                    config.sigma_clip_factor,
                    res.background_mean,
                    res.background_sigma,
                )
            },
{
    let (w, h) = (width as int, height as int);
    if config.local_bg_block_size is Some {
        let size = config.local_bg_block_size->0;
        let rounds = config.sigma_clip_iterations as nat;
        let factor = config.sigma_clip_factor;
        let (bg, residuals, surface) = choose|
            bg: BackgroundGrid,
            residuals: Seq<F32>,
            surface: Seq<F32>,
        | #[trigger]
            locally_prepared(
                ar,
                gray,
                w,
                h,
                size as int,
                rounds,
                factor,
                bg,
                residuals,
                surface,
                prepared,
            );
        lemma_ceil_div(w, size as int);
        lemma_ceil_div(h, size as int);
        let stride: usize = if size >= 32 {
            (size / 16) as usize
        } else {
            1
        };
        let lattice = Lattice { stride, staggered: true, nonzero: false };
        assert(crate::background::coarse_stride(size as int, 16) == stride);
        assert(is_block_grid(gray, w, h, size as int, lattice, bg.grid@));
        assert(are_residuals(
            ar.blend,
            ar.subtract,
            bg,
            gray,
            w,
            lattice_points(gray, w, h, 0, stride as int),
            residuals,
        ));
    }
}

/// A measured label stands in the frame of the image, refined or not: x is counted
/// from the middle of the width, y from the middle of the height.
pub proof fn law_measured_label_is_centered<
    W: Fn(F32, &Median) -> F64,
    X: Fn(F32, &Median) -> F64,
    L: Fn(F64, &Median) -> F32,
    D: Fn(Sums, F64, Place, Place) -> Sums,
    E: Fn(Sums, Place) -> Moments,
    K: Fn(F64, &Vec<F64>) -> F64,
    F: Fn(F64, &Vec<F64>, bool) -> Fit,
    H: Fn(Place, Fit, Position) -> (Position, F64),
    N: Fn(F64, usize) -> F32,
>(
    blob: GrayBlob<W, X, L, D, E, K, F, H, N>,
    image: Vec<F32>,
    width: u32,
    height: u32,
    local: Median,
    origin: Place,
    b: Blob,
    m: Measurement,
)
    requires
        gray_measured(blob, image, width as int, height as int, local, origin, b, m),
    ensures
        exists|pos: Position|
            {
                &&& #[trigger] call_ensures(blob.shape.center, (pos.0, width as usize), m.x)
                &&& #[trigger] call_ensures(blob.shape.center, (pos.1, height as usize), m.y)
            },
{
    let (moments, peak, ring, floor) = choose|
        moments: Moments,
        peak: F64,
        ring: Vec<F64>,
        floor: F32,
    | #[trigger]
        is_measurement(
            blob.shape,
            b,
            moments,
            peak,
            ring,
            width as usize,
            height as usize,
            floor,
            m,
        );
    law_measured_blob_is_placed(blob.shape, b, moments, peak, ring, width, height, floor, m);
    let pos = choose|pos: Position| #[trigger]
        stands_at(blob.shape, moments, width, height, pos, m.centroid_of());
    assert(call_ensures(blob.shape.center, (pos.0, width as usize), m.x));
}

} // verus!
