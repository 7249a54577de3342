//! Results of the fast path.

use vstd::prelude::*;

use crate::background::{
    is_block_grid, lemma_ceil_div, noise_samples, BackgroundGrid, Corners, Deviation, Lattice,
};
use crate::blobs::{at, is_listing, is_peak, is_top, listed, px, region_set, Place, NEG_INF_32};
use crate::config::{CentroidExtractionResult, FastCentroidConfig};
use crate::connect::{connected, lemma_connected_step, Pixel};
use crate::fast::{
    are_cutoffs, are_weights, cuts, emits, emitted, fast_measured, fast_run, fast_values,
    is_fast_result, keeps_clear, lit_above, passes_gates, Cutoffs, FastArithmetic, FastBlob,
};
use crate::ieee::{F32, F64};
use crate::laws::shape::{
    flux_grows, is_position, is_vertex, law_measured_blob_is_placed,
    law_positive_weights_positive_flux, lemma_ring_surrounds, stands_at, surrounds,
};
use crate::measure::{is_blob, Blob, Centroid, Measurement};
use crate::peak::{
    are_moments, is_measurement, is_sharpness_of, Fit, Moments, Position, ShapeArithmetic, Sums,
};
use crate::regions::law_regions_are_components;
use crate::runs::{appears, covered, lemma_run_at, RunRegions};
use crate::stats::is_midpoint;

verus! {

/// What came out of the regions was found in one of them, and what was found in
/// one came out.
pub proof fn lemma_emitted(outs: Seq<Option<Centroid>>)
    ensures
        forall|j: int|
            0 <= j < emitted(outs).len() ==> exists|k: int|
                0 <= k < outs.len() && #[trigger] outs[k] == Some(#[trigger] emitted(outs)[j]),
        forall|k: int|
            0 <= k < outs.len() && (#[trigger] outs[k]) is Some ==> emitted(outs).contains(
                outs[k]->0,
            ),
    decreases outs.len(),
{
    if outs.len() > 0 {
        let front = outs.drop_last();
        lemma_emitted(front);
        assert forall|j: int| 0 <= j < emitted(outs).len() implies exists|k: int|
            0 <= k < outs.len() && #[trigger] outs[k] == Some(#[trigger] emitted(outs)[j]) by {
            if j < emitted(front).len() {
                let k = choose|k: int|
                    0 <= k < front.len() && #[trigger] front[k] == Some(emitted(front)[j]);
                assert(outs[k] == Some(emitted(outs)[j]));
            } else {
                assert(outs[outs.len() - 1] == Some(emitted(outs)[j]));
            }
        }
        assert forall|k: int| 0 <= k < outs.len() && (#[trigger] outs[k]) is Some implies emitted(
            outs,
        ).contains(outs[k]->0) by {
            if k < front.len() {
                assert(front[k] == outs[k]);
                let j = choose|j: int|
                    0 <= j < emitted(front).len() && emitted(front)[j] == outs[k]->0;
                assert(emitted(outs)[j] == outs[k]->0);
            } else {
                assert(emitted(outs)[emitted(front).len() as int] == outs[k]->0);
            }
        }
    }
}

/// The pixel at row `r` and column `c` is finite and exceeds `t`, which is what
/// `cutoff` answers for the levels around that place, its column, its row, the
/// noise and the factor.
pub open spec fn exceeds_cutoff<T: Fn(Corners, usize, usize, F32, F32) -> F32>(
    cutoff: T,
    grid: BackgroundGrid,
    sigma: F32,
    factor: F32,
    pixels: Seq<F32>,
    w: int,
    r: usize,
    c: usize,
    t: F32,
) -> bool {
    let v = pixels[r * w + c];
    &&& call_ensures(cutoff, (grid.corners_at(c as int, r as int), c, r, sigma, factor), t)
    &&& v.finite() && !t.nan() && v.rank() > t.rank()
}

/// The same of a pixel that is not finite or does not exceed the answer.
pub open spec fn stays_below_cutoff<T: Fn(Corners, usize, usize, F32, F32) -> F32>(
    cutoff: T,
    grid: BackgroundGrid,
    sigma: F32,
    factor: F32,
    pixels: Seq<F32>,
    w: int,
    r: usize,
    c: usize,
    t: F32,
) -> bool {
    let v = pixels[r * w + c];
    &&& call_ensures(cutoff, (grid.corners_at(c as int, r as int), c, r, sigma, factor), t)
    &&& !(v.finite() && !t.nan() && v.rank() > t.rank())
}

/// Detection by the cutoffs: a pixel belongs to a region exactly where it is
/// finite and exceeds its cutoff, and nothing outside the image does.
pub proof fn law_fast_detects_what_exceeds<
    R: Fn(&Vec<Deviation>) -> F32,
    T: Fn(Corners, usize, usize, F32, F32) -> F32,
    W: Fn(F32, Corners, usize, usize) -> F64,
    X: Fn(F32, Corners, usize, usize) -> F64,
    D: Fn(Sums, F64, Place, Place) -> Sums,
    E: Fn(Sums, Place) -> Moments,
    K: Fn(F64, &Vec<F64>) -> F64,
    F: Fn(F64, &Vec<F64>, bool) -> Fit,
    H: Fn(Place, Fit, Position) -> (Position, F64),
    N: Fn(F64, usize) -> F32,
    S: Fn(F32, F32, F32) -> F32,
>(
    ar: FastArithmetic<R, T, FastBlob<W, X, D, E, K, F, H, N>, S>,
    pixels: Seq<F32>,
    width: u32,
    height: u32,
    config: FastCentroidConfig,
    grid: BackgroundGrid,
    thr: Cutoffs,
    regions: RunRegions,
    outs: Seq<Option<Centroid>>,
    res: CentroidExtractionResult,
    r: usize,
    c: usize,
)
    requires
        fast_run(ar, pixels, width, height, config, grid, thr, regions, outs, res),
        r < height,
        c < width,
    ensures
        covered(regions.runs@)((r as int, c as int)) ==> exists|t: F32| #[trigger]
            exceeds_cutoff(
                ar.cutoff,
                grid,
                res.background_sigma,
                config.sigma_threshold,
                pixels,
                width as int,
                r,
                c,
                t,
            ),
        !covered(regions.runs@)((r as int, c as int)) ==> exists|t: F32| #[trigger]
            stays_below_cutoff(
                ar.cutoff,
                grid,
                res.background_sigma,
                config.sigma_threshold,
                pixels,
                width as int,
                r,
                c,
                t,
            ),
        forall|p: Pixel| #[trigger]
            covered(regions.runs@)(p) ==> 0 <= p.0 < height && 0 <= p.1 < width,
{
    let (w, h) = (width as int, height as int);
    let lit = lit_above(pixels, w, h, thr);
    let p: Pixel = (r as int, c as int);
    let t = thr(p);
    let (sigma, factor) = (res.background_sigma, config.sigma_threshold);
    assert(cuts(ar.cutoff, grid, sigma, factor, r, c, thr((r as int, c as int))));
    assert(covered(regions.runs@)(p) <==> lit(p));
    assert forall|q: Pixel| #[trigger] covered(regions.runs@)(q) implies 0 <= q.0 < height && 0
        <= q.1 < width by {
        assert(lit(q));
    }
    if lit(p) {
        assert(exceeds_cutoff(ar.cutoff, grid, sigma, factor, pixels, w, r, c, t));
    } else {
        assert(stays_below_cutoff(ar.cutoff, grid, sigma, factor, pixels, w, r, c, t));
    }
}

/// A region is a whole blob: it has a pixel, pixels of it that touch at an edge or
/// a corner are in one region, and each two of its pixels are linked by detected
/// ones.
pub proof fn law_fast_regions_are_blobs<
    R: Fn(&Vec<Deviation>) -> F32,
    T: Fn(Corners, usize, usize, F32, F32) -> F32,
    W: Fn(F32, Corners, usize, usize) -> F64,
    X: Fn(F32, Corners, usize, usize) -> F64,
    D: Fn(Sums, F64, Place, Place) -> Sums,
    E: Fn(Sums, Place) -> Moments,
    K: Fn(F64, &Vec<F64>) -> F64,
    F: Fn(F64, &Vec<F64>, bool) -> Fit,
    H: Fn(Place, Fit, Position) -> (Position, F64),
    N: Fn(F64, usize) -> F32,
    S: Fn(F32, F32, F32) -> F32,
>(
    ar: FastArithmetic<R, T, FastBlob<W, X, D, E, K, F, H, N>, S>,
    pixels: Seq<F32>,
    width: u32,
    height: u32,
    config: FastCentroidConfig,
    grid: BackgroundGrid,
    thr: Cutoffs,
    regions: RunRegions,
    outs: Seq<Option<Centroid>>,
    res: CentroidExtractionResult,
    k: int,
    p: Pixel,
    q: Pixel,
)
    requires
        fast_run(ar, pixels, width, height, config, grid, thr, regions, outs, res),
        0 <= k < outs.len(),
        region_set(regions, k)(p),
        covered(regions.runs@)(q),
    ensures
        -1 <= p.0 - q.0 <= 1 && -1 <= p.1 - q.1 <= 1 ==> region_set(regions, k)(q),
        region_set(regions, k)(q) ==> connected(covered(regions.runs@), true, p, q),
{
    let cov = covered(regions.runs@);
    assert(regions.regions_of(cov));
    law_regions_are_components(regions, cov, p, q);
    if -1 <= p.0 - q.0 <= 1 && -1 <= p.1 - q.1 <= 1 {
        lemma_connected_step(cov, true, p, q);
    }
}

/// What is known of a region whose pixels are `list`: the weight of each of them
/// is asked with the same levels, column and row as its cutoff; the moments are
/// those of the weighted pixels; the peak is the first pixel that none exceeds,
/// its value and those around it are taken above the background at the peak.
pub open spec fn weighed_region<
    W: Fn(F32, Corners, usize, usize) -> F64,
    X: Fn(F32, Corners, usize, usize) -> F64,
    D: Fn(Sums, F64, Place, Place) -> Sums,
    E: Fn(Sums, Place) -> Moments,
    K: Fn(F64, &Vec<F64>) -> F64,
    F: Fn(F64, &Vec<F64>, bool) -> Fit,
    H: Fn(Place, Fit, Position) -> (Position, F64),
    N: Fn(F64, usize) -> F32,
>(
    blob: FastBlob<W, X, D, E, K, F, H, N>,
    grid: BackgroundGrid,
    pixels: Seq<F32>,
    w: int,
    list: Seq<Place>,
    weights: Seq<F64>,
    m: Moments,
    at: Place,
    peak: F64,
    around: Seq<Place>,
    ring: Vec<F64>,
) -> bool {
    &&& weights.len() == list.len()
    &&& forall|i: int|
        0 <= i < list.len() ==> call_ensures(
            blob.weight,
            (
                pixels[list[i].0 * w + list[i].1],
                grid.corners_at(list[i].1 as int, list[i].0 as int),
                list[i].1,
                list[i].0,
            ),
            #[trigger] weights[i],
        )
    &&& are_moments(
        blob.shape.accumulate,
        blob.shape.moments,
        weights,
        list,
        (0usize, 0usize),
        m,
    )
    &&& list.contains(at)
    &&& forall|i: int|
        0 <= i < list.len() && !pixels[list[i].0 * w + list[i].1].nan() ==> pixels[(
        #[trigger] list[i]).0 * w + list[i].1].rank() <= pixels[at.0 * w + at.1].rank()
    &&& call_ensures(
        blob.excess,
        (pixels[at.0 * w + at.1], grid.corners_at(at.1 as int, at.0 as int), at.1, at.0),
        peak,
    )
    &&& ring@.len() == around.len()
    &&& forall|j: int|
        0 <= j < around.len() ==> call_ensures(
            blob.excess,
            (
                pixels[around[j].0 * w + around[j].1],
                grid.corners_at(at.1 as int, at.0 as int),
                at.1,
                at.0,
            ),
            #[trigger] ring@[j],
        )
}

/// The pixels of a region stand in raster order, and there is at least one.
proof fn lemma_region_listed<
    R: Fn(&Vec<Deviation>) -> F32,
    T: Fn(Corners, usize, usize, F32, F32) -> F32,
    W: Fn(F32, Corners, usize, usize) -> F64,
    X: Fn(F32, Corners, usize, usize) -> F64,
    D: Fn(Sums, F64, Place, Place) -> Sums,
    E: Fn(Sums, Place) -> Moments,
    K: Fn(F64, &Vec<F64>) -> F64,
    F: Fn(F64, &Vec<F64>, bool) -> Fit,
    H: Fn(Place, Fit, Position) -> (Position, F64),
    N: Fn(F64, usize) -> F32,
    S: Fn(F32, F32, F32) -> F32,
>(
    ar: FastArithmetic<R, T, FastBlob<W, X, D, E, K, F, H, N>, S>,
    pixels: Seq<F32>,
    width: u32,
    height: u32,
    config: FastCentroidConfig,
    grid: BackgroundGrid,
    thr: Cutoffs,
    regions: RunRegions,
    outs: Seq<Option<Centroid>>,
    res: CentroidExtractionResult,
    k: int,
    list: Seq<Place>,
)
    requires
        fast_run(ar, pixels, width, height, config, grid, thr, regions, outs, res),
        0 <= k < outs.len(),
        is_listing(list, region_set(regions, k)),
    ensures
        list.len() > 0,
        forall|i: int|
            0 <= i < list.len() ==> (#[trigger] list[i]).0 < height && list[i].1 < width
                && covered(regions.runs@)((list[i].0 as int, list[i].1 as int)),
{
    let ids = regions.region_of_run@;
    let set = region_set(regions, k);
    assert(appears(ids, k, ids.len() as int));
    let j = choose|j: int| 0 <= j < ids.len() && #[trigger] ids[j] == k;
    let run = regions.runs@[j];
    assert(run.c0 <= run.c1);
    let p = run.start();
    assert(regions.runs@[j].has(p));
    lemma_run_at(regions.runs@, j, p);
    assert(covered(regions.runs@)(p));
    assert(set(p));
    assert(listed(list, p));
    let lit = lit_above(pixels, width as int, height as int, thr);
    assert forall|i: int| 0 <= i < list.len() implies (#[trigger] list[i]).0 < height && list[i].1
        < width && covered(regions.runs@)((list[i].0 as int, list[i].1 as int)) by {
        assert(set(px(list[i])));
        assert(covered(regions.runs@)(px(list[i])));
        assert(lit(px(list[i])));
    }
}

/// What becomes of a region. It is dropped where it has too few or too many
/// pixels or one within the margin of an edge. Else it is weighed: it is dropped
/// where its flux is zero or less, its elongation or its sharpness above the
/// limit; and where it is kept, its centroid stands at its center of mass or the
/// vertex at its peak, which counts only where there are five pixels, the peak is
/// not at an edge and no pixel is saturated.
#[verifier::rlimit(30)]
pub proof fn law_fast_region_outcome<
    R: Fn(&Vec<Deviation>) -> F32,
    T: Fn(Corners, usize, usize, F32, F32) -> F32,
    W: Fn(F32, Corners, usize, usize) -> F64,
    X: Fn(F32, Corners, usize, usize) -> F64,
    D: Fn(Sums, F64, Place, Place) -> Sums,
    E: Fn(Sums, Place) -> Moments,
    K: Fn(F64, &Vec<F64>) -> F64,
    F: Fn(F64, &Vec<F64>, bool) -> Fit,
    H: Fn(Place, Fit, Position) -> (Position, F64),
    N: Fn(F64, usize) -> F32,
    S: Fn(F32, F32, F32) -> F32,
>(
    ar: FastArithmetic<R, T, FastBlob<W, X, D, E, K, F, H, N>, S>,
    pixels: Seq<F32>,
    width: u32,
    height: u32,
    config: FastCentroidConfig,
    grid: BackgroundGrid,
    thr: Cutoffs,
    regions: RunRegions,
    outs: Seq<Option<Centroid>>,
    res: CentroidExtractionResult,
    k: int,
    list: Seq<Place>,
)
    requires
        fast_run(ar, pixels, width, height, config, grid, thr, regions, outs, res),
        0 <= k < outs.len(),
        is_listing(list, region_set(regions, k)),
    ensures
        list.len() < config.min_pixels || list.len() > config.max_pixels ==> outs[k] is None,
        (exists|i: int|
            0 <= i < list.len() && !(config.border_margin <= (#[trigger] list[i]).0 < height
                - config.border_margin && config.border_margin <= list[i].1 < width
                - config.border_margin)) ==> outs[k] is None,
        ({
            ||| list.len() < config.min_pixels || list.len() > config.max_pixels
            ||| exists|i: int|
                0 <= i < list.len() && !(config.border_margin <= (#[trigger] list[i]).0 < height
                    - config.border_margin && config.border_margin <= list[i].1 < width
                    - config.border_margin)
            ||| exists|
                weights: Seq<F64>,
                m: Moments,
                at: Place,
                peak: F64,
                around: Seq<Place>,
                ring: Vec<F64>,
                sharpness: Option<F64>,
            |
                {
                    &&& #[trigger] weighed_region(
                        ar.blob,
                        grid,
                        pixels,
                        width as int,
                        list,
                        weights,
                        m,
                        at,
                        peak,
                        around,
                        ring,
                    )
                    &&& surrounds(around, at, width as int, height as int)
                    &&& #[trigger] is_sharpness_of(
                        ar.blob.shape.sharpness,
                        peak,
                        ring,
                        sharpness,
                    )
                    &&& region_comes_to(
                        ar.blob.shape,
                        pixels,
                        width,
                        height,
                        config,
                        list,
                        m,
                        at,
                        peak,
                        ring,
                        sharpness,
                        outs[k],
                    )
                }
        }),
{
    let (w, h) = (width as int, height as int);
    let o = outs[k];
    let set = region_set(regions, k);
    assert(emits(ar.blob, grid, pixels, w, h, config, set, o));
    let l2 = choose|l2: Seq<Place>|
        {
            &&& #[trigger] is_listing(l2, set)
            &&& if passes_gates(
                l2,
                config.min_pixels,
                config.max_pixels,
                config.border_margin,
                w,
                h,
            ) {
                exists|b: Blob, m: Measurement|
                    {
                        &&& is_blob(
                            b,
                            l2,
                            pixels,
                            pixels,
                            w,
                            h,
                            config.saturation_level,
                            (0usize, 0usize),
                        )
                        &&& #[trigger] fast_measured(ar.blob, grid, pixels, w, h, b, m)
                        &&& o == if m.passes(config.max_elongation, config.max_sharpness) {
                            Some(m.centroid_of())
                        } else {
                            None
                        }
                    }
            } else {
                o is None
            }
        };
    crate::blobs::law_listing_unique(list, l2, set);
    lemma_region_listed(
        ar,
        pixels,
        width,
        height,
        config,
        grid,
        thr,
        regions,
        outs,
        res,
        k,
        list,
    );
    let margin = config.border_margin as int;
    if keeps_clear(list, margin, w, h) && config.min_pixels <= list.len() <= config.max_pixels {
        let (b, m) = choose|b: Blob, m: Measurement|
            {
                &&& is_blob(
                    b,
                    list,
                    pixels,
                    pixels,
                    w,
                    h,
                    config.saturation_level,
                    (0usize, 0usize),
                )
                &&& #[trigger] fast_measured(ar.blob, grid, pixels, w, h, b, m)
                &&& o == if m.passes(config.max_elongation, config.max_sharpness) {
                    Some(m.centroid_of())
                } else {
                    None
                }
            };
        let (weights, moments, peak, ring) = choose|
            weights: Seq<F64>,
            moments: Moments,
            peak: F64,
            ring: Vec<F64>,
        |
            {
                &&& #[trigger] fast_values(
                    ar.blob,
                    grid,
                    pixels,
                    w,
                    b,
                    weights,
                    moments,
                    peak,
                    ring,
                )
                &&& is_measurement(
                    ar.blob.shape,
                    b,
                    moments,
                    peak,
                    ring,
                    w as usize,
                    h as usize,
                    F32::zero(),
                    m,
                )
            };
        let lit = lit_above(pixels, w, h, thr);
        lemma_lit_peak(pixels, w, list, b.peak);
        lemma_ring_surrounds(b.ring@, b.peak, w, h);
        assert(seq![peak][0] == peak && seq![b.peak][0] == b.peak);
        assert(weighed_region(
            ar.blob,
            grid,
            pixels,
            w,
            list,
            weights,
            moments,
            b.peak,
            peak,
            b.ring@,
            ring,
        ));
        law_measured_blob_is_placed(
            ar.blob.shape,
            b,
            moments,
            peak,
            ring,
            width,
            height,
            F32::zero(),
            m,
        );
        assert(is_sharpness_of(ar.blob.shape.sharpness, peak, ring, m.sharpness));
        assert(b.refine == may_refine(
            pixels,
            width,
            height,
            config.saturation_level,
            list,
            b.peak,
        )) by {
            if config.saturation_level is Some {
                let s = config.saturation_level->0;
                assert forall|i: int| 0 <= i < list.len() && b.refine implies !pixels[(
                #[trigger] list[i]).0 * w + list[i].1].at_least(s) by {
                    assert(!at(pixels, w, list[i]).at_least(s));
                }
            }
        }
        assert(region_comes_to(
            ar.blob.shape,
            pixels,
            width,
            height,
            config,
            list,
            moments,
            b.peak,
            peak,
            ring,
            m.sharpness,
            o,
        ));
    } else if config.min_pixels <= list.len() <= config.max_pixels {
        let t = choose|t: int|
            0 <= t < list.len() && !{
                &&& margin <= (#[trigger] list[t]).0 < h - margin
                &&& margin <= list[t].1 < w - margin
            };
        assert(!(config.border_margin <= list[t].0 < height - config.border_margin
            && config.border_margin <= list[t].1 < width - config.border_margin));
    }
}

/// The peak of pixels that are numbers above the negative infinity is one of them
/// and none exceeds it.
proof fn lemma_lit_peak(pixels: Seq<F32>, w: int, list: Seq<Place>, peak: Place)
    requires
        list.len() > 0,
        is_peak(pixels, w, list, (0usize, 0usize), peak),
        forall|i: int|
            0 <= i < list.len() ==> pixels[(#[trigger] list[i]).0 * w + list[i].1].finite(),
    ensures
        list.contains(peak),
        forall|i: int|
            0 <= i < list.len() ==> pixels[(#[trigger] list[i]).0 * w + list[i].1].rank()
                <= pixels[peak.0 * w + peak.1].rank(),
{
    assert(at(pixels, w, list[0]).finite());
    assert(at(pixels, w, list[0]).above(F32 { bits: NEG_INF_32 }));
    let t = choose|t: int| #[trigger] is_top(pixels, w, list, t) && peak == list[t];
    assert(list[t] == peak);
    assert forall|i: int| 0 <= i < list.len() implies pixels[(#[trigger] list[i]).0 * w
        + list[i].1].rank() <= pixels[peak.0 * w + peak.1].rank() by {
        assert(!at(pixels, w, list[i]).above(at(pixels, w, list[t])));
        assert(pixels[list[t].0 * w + list[t].1].finite());
    }
}

/// The peak of a region may be refined: there are five pixels, the peak is not on
/// the border, and no pixel is at or above the saturation level.
pub open spec fn may_refine(
    pixels: Seq<F32>,
    width: u32,
    height: u32,
    level: Option<F32>,
    list: Seq<Place>,
    at: Place,
) -> bool {
    &&& list.len() >= 5
    &&& 1 <= at.0 < height - 1
    &&& 1 <= at.1 < width - 1
    &&& level matches Some(s) ==> forall|i: int|
        0 <= i < list.len() ==> !pixels[(#[trigger] list[i]).0 * (width as int)
            + list[i].1].at_least(s)
}

/// What a weighed region comes to.
pub open spec fn region_comes_to<
    D: Fn(Sums, F64, Place, Place) -> Sums,
    E: Fn(Sums, Place) -> Moments,
    K: Fn(F64, &Vec<F64>) -> F64,
    F: Fn(F64, &Vec<F64>, bool) -> Fit,
    H: Fn(Place, Fit, Position) -> (Position, F64),
    N: Fn(F64, usize) -> F32,
>(
    shape: ShapeArithmetic<D, E, K, F, H, N>,
    pixels: Seq<F32>,
    width: u32,
    height: u32,
    config: FastCentroidConfig,
    list: Seq<Place>,
    m: Moments,
    at: Place,
    peak: F64,
    ring: Vec<F64>,
    sharpness: Option<F64>,
    o: Option<Centroid>,
) -> bool {
    match o {
        None => {
            ||| !m.flux.nan() && m.flux.rank() <= 0
            ||| config.max_elongation matches Some(e) && !m.elongation.nan() && !e.nan()
                && m.elongation.rank() > e.rank()
            ||| config.max_sharpness matches Some(l) && sharpness matches Some(s)
                && crate::convert::exceeds(s, l)
        },
        Some(c) => {
            &&& m.flux.nan() || m.flux.rank() > 0
            &&& config.max_elongation matches Some(e) ==> m.elongation.nan() || e.nan()
                || m.elongation.rank() <= e.rank()
            &&& match (config.max_sharpness, sharpness) {
                (Some(l), Some(s)) => !crate::convert::exceeds(s, l),
                _ => true,
            }
            &&& exists|pos: Position|
                {
                    &&& #[trigger] stands_at(shape, m, width, height, pos, c)
                    &&& is_position(
                        shape,
                        may_refine(pixels, width, height, config.saturation_level, list, at),
                        at,
                        m.center,
                        peak,
                        ring,
                        pos,
                    )
                }
        },
    }
}

/// Lit pixels weigh something: where the weight of a pixel is positive whenever it
/// exceeds the cutoff for the same levels, column and row, and positive weights
/// make a positive flux, a region is never dropped for lack of flux. Without
/// limits on elongation and sharpness every region of a permitted size and place
/// comes out.
pub proof fn law_fast_loses_no_region<
    R: Fn(&Vec<Deviation>) -> F32,
    T: Fn(Corners, usize, usize, F32, F32) -> F32,
    W: Fn(F32, Corners, usize, usize) -> F64,
    X: Fn(F32, Corners, usize, usize) -> F64,
    D: Fn(Sums, F64, Place, Place) -> Sums,
    E: Fn(Sums, Place) -> Moments,
    K: Fn(F64, &Vec<F64>) -> F64,
    F: Fn(F64, &Vec<F64>, bool) -> Fit,
    H: Fn(Place, Fit, Position) -> (Position, F64),
    N: Fn(F64, usize) -> F32,
    S: Fn(F32, F32, F32) -> F32,
>(
    ar: FastArithmetic<R, T, FastBlob<W, X, D, E, K, F, H, N>, S>,
    pixels: Seq<F32>,
    width: u32,
    height: u32,
    config: FastCentroidConfig,
    grid: BackgroundGrid,
    thr: Cutoffs,
    regions: RunRegions,
    outs: Seq<Option<Centroid>>,
    res: CentroidExtractionResult,
    k: int,
    list: Seq<Place>,
)
    requires
        fast_run(ar, pixels, width, height, config, grid, thr, regions, outs, res),
        0 <= k < outs.len(),
        is_listing(list, region_set(regions, k)),
        forall|v: F32, g: Corners, x: usize, y: usize, t: F32, weight: F64| #[trigger]
            call_ensures(
                ar.cutoff,
                (g, x, y, res.background_sigma, config.sigma_threshold),
                t,
            ) && v.finite() && !t.nan() && v.rank() > t.rank() && #[trigger] call_ensures(
                ar.blob.weight,
                (v, g, x, y),
                weight,
            ) ==> !weight.nan() && weight.rank() > 0,
        flux_grows(ar.blob.shape.accumulate, ar.blob.shape.moments),
        config.min_pixels <= list.len() <= config.max_pixels,
        config.max_elongation is None,
        config.max_sharpness is None,
        forall|i: int|
            0 <= i < list.len() ==> config.border_margin <= (#[trigger] list[i]).0 < height
                - config.border_margin && config.border_margin <= list[i].1 < width
                - config.border_margin,
    ensures
        outs[k] is Some,
        res.num_blobs_raw == outs.len(),
{
    let w = width as int;
    law_fast_region_outcome(
        ar,
        pixels,
        width,
        height,
        config,
        grid,
        thr,
        regions,
        outs,
        res,
        k,
        list,
    );
    lemma_region_listed(
        ar,
        pixels,
        width,
        height,
        config,
        grid,
        thr,
        regions,
        outs,
        res,
        k,
        list,
    );
    let (weights, m, at, peak, around, ring, sharpness) = choose|
        weights: Seq<F64>,
        m: Moments,
        at: Place,
        peak: F64,
        around: Seq<Place>,
        ring: Vec<F64>,
        sharpness: Option<F64>,
    |
        {
            &&& #[trigger] weighed_region(
                ar.blob,
                grid,
                pixels,
                w,
                list,
                weights,
                m,
                at,
                peak,
                around,
                ring,
            )
            &&& surrounds(around, at, w, height as int)
            &&& #[trigger] is_sharpness_of(ar.blob.shape.sharpness, peak, ring, sharpness)
            &&& region_comes_to(
                ar.blob.shape,
                pixels,
                width,
                height,
                config,
                list,
                m,
                at,
                peak,
                ring,
                sharpness,
                outs[k],
            )
        };
    assert forall|i: int| 0 <= i < weights.len() implies !(#[trigger] weights[i]).nan()
        && weights[i].rank() > 0 by {
        let (r, c) = list[i];
        assert(list[i].0 < height);
        law_fast_detects_what_exceeds(
            ar,
            pixels,
            width,
            height,
            config,
            grid,
            thr,
            regions,
            outs,
            res,
            r,
            c,
        );
        let t = choose|t: F32| #[trigger]
            exceeds_cutoff(
                ar.cutoff,
                grid,
                res.background_sigma,
                config.sigma_threshold,
                pixels,
                w,
                r,
                c,
                t,
            );
        assert(call_ensures(
            ar.blob.weight,
            (pixels[r * w + c], grid.corners_at(c as int, r as int), c, r),
            weights[i],
        ));
    }
    law_positive_weights_positive_flux(
        ar.blob.shape.accumulate,
        ar.blob.shape.moments,
        weights,
        list,
        (0usize, 0usize),
        m,
    );
}

/// Every centroid of a result has its region: the pixels of one of the detected
/// blobs, weighed and placed.
pub proof fn law_fast_centroid_has_its_region<
    R: Fn(&Vec<Deviation>) -> F32,
    T: Fn(Corners, usize, usize, F32, F32) -> F32,
    W: Fn(F32, Corners, usize, usize) -> F64,
    X: Fn(F32, Corners, usize, usize) -> F64,
    D: Fn(Sums, F64, Place, Place) -> Sums,
    E: Fn(Sums, Place) -> Moments,
    K: Fn(F64, &Vec<F64>) -> F64,
    F: Fn(F64, &Vec<F64>, bool) -> Fit,
    H: Fn(Place, Fit, Position) -> (Position, F64),
    N: Fn(F64, usize) -> F32,
    S: Fn(F32, F32, F32) -> F32,
>(
    ar: FastArithmetic<R, T, FastBlob<W, X, D, E, K, F, H, N>, S>,
    pixels: Seq<F32>,
    width: u32,
    height: u32,
    config: FastCentroidConfig,
    res: CentroidExtractionResult,
    i: int,
)
    requires
        is_fast_result(ar, pixels, width, height, config, res),
        0 <= i < res.centroids@.len(),
    ensures
        exists|
            grid: BackgroundGrid,
            thr: Cutoffs,
            regions: RunRegions,
            outs: Seq<Option<Centroid>>,
            k: int,
            list: Seq<Place>,
        |
            {
                &&& #[trigger] fast_run(
                    ar,
                    pixels,
                    width,
                    height,
                    config,
                    grid,
                    thr,
                    regions,
                    outs,
                    res,
                )
                &&& 0 <= k < outs.len()
                &&& #[trigger] outs[k] == Some(res.centroids@[i])
                &&& #[trigger] is_listing(list, region_set(regions, k))
            },
        res.image_width == width,
        res.image_height == height,
        res.centroids@.len() <= res.num_blobs_raw,
{
    let (grid, thr, regions, outs) = choose|
        grid: BackgroundGrid,
        thr: Cutoffs,
        regions: RunRegions,
        outs: Seq<Option<Centroid>>,
    | #[trigger]
        fast_run(ar, pixels, width, height, config, grid, thr, regions, outs, res);
    let all = emitted(outs);
    lemma_emitted(outs);
    let perm = choose|perm: Seq<usize>|
        {
            &&& #[trigger] crate::order::is_descending(
                crate::measure::brightnesses(all, F32::zero()),
                perm,
            )
            &&& res.centroids@ == Seq::new(
                crate::measure::kept(all.len() as int, config.max_centroids) as nat,
                |t: int| all[perm[t] as int],
            )
        };
    assert(perm[i] < all.len());
    let k = choose|k: int|
        0 <= k < outs.len() && #[trigger] outs[k] == Some(all[perm[i] as int]);
    assert(outs[k] == Some(res.centroids@[i]));
    let set = region_set(regions, k);
    assert(emits(
        ar.blob,
        grid,
        pixels,
        width as int,
        height as int,
        config,
        set,
        outs[k],
    ));
    let list = choose|list: Seq<Place>| #[trigger] is_listing(list, set);
    assert(is_listing(list, set));
    crate::steady::law_fast_result_in_bounds(ar, pixels, width, height, config, res);
}

/// The centroids stand in the frame of the image: x is a column counted from the
/// middle of the width, y a row counted from the middle of the height, for a
/// center of mass and for a vertex alike. So a star in the middle column and the
/// middle row is at the origin, square or not.
pub proof fn law_fast_centroids_are_centered<
    R: Fn(&Vec<Deviation>) -> F32,
    T: Fn(Corners, usize, usize, F32, F32) -> F32,
    W: Fn(F32, Corners, usize, usize) -> F64,
    X: Fn(F32, Corners, usize, usize) -> F64,
    D: Fn(Sums, F64, Place, Place) -> Sums,
    E: Fn(Sums, Place) -> Moments,
    K: Fn(F64, &Vec<F64>) -> F64,
    F: Fn(F64, &Vec<F64>, bool) -> Fit,
    H: Fn(Place, Fit, Position) -> (Position, F64),
    N: Fn(F64, usize) -> F32,
    S: Fn(F32, F32, F32) -> F32,
>(
    ar: FastArithmetic<R, T, FastBlob<W, X, D, E, K, F, H, N>, S>,
    pixels: Seq<F32>,
    width: u32,
    height: u32,
    config: FastCentroidConfig,
    res: CentroidExtractionResult,
    i: int,
)
    requires
        is_fast_result(ar, pixels, width, height, config, res),
        0 <= i < res.centroids@.len(),
    ensures
        exists|m: Moments, pos: Position|
            {
                &&& #[trigger] stands_at(
                    ar.blob.shape,
                    m,
                    width,
                    height,
                    pos,
                    res.centroids@[i],
                )
                &&& pos == m.center || exists|at: Place, peak: F64, ring: Vec<F64>| #[trigger]
                    is_vertex(ar.blob.shape, at, m.center, peak, ring, pos)
            },
{
    law_fast_centroid_has_its_region(ar, pixels, width, height, config, res, i);
    let (grid, thr, regions, outs, k, list) = choose|
        grid: BackgroundGrid,
        thr: Cutoffs,
        regions: RunRegions,
        outs: Seq<Option<Centroid>>,
        k: int,
        list: Seq<Place>,
    |
        {
            &&& #[trigger] fast_run(
                ar,
                pixels,
                width,
                height,
                config,
                grid,
                thr,
                regions,
                outs,
                res,
            )
            &&& 0 <= k < outs.len()
            &&& #[trigger] outs[k] == Some(res.centroids@[i])
            &&& #[trigger] is_listing(list, region_set(regions, k))
        };
    law_fast_region_outcome(
        ar,
        pixels,
        width,
        height,
        config,
        grid,
        thr,
        regions,
        outs,
        res,
        k,
        list,
    );
}

/// The statistics of a result: the grid has blocks of the configured size, as many
/// as cover the image; their levels and the noise come from the staggered lattice
/// with an eighth of a block between samples, at least one pixel; the level of the
/// result is the midpoint of the grid, and the threshold is asked for level, noise
/// and factor.
pub proof fn law_fast_statistics<
    R: Fn(&Vec<Deviation>) -> F32,
    T: Fn(Corners, usize, usize, F32, F32) -> F32,
    W: Fn(F32, Corners, usize, usize) -> F64,
    X: Fn(F32, Corners, usize, usize) -> F64,
    D: Fn(Sums, F64, Place, Place) -> Sums,
    E: Fn(Sums, Place) -> Moments,
    K: Fn(F64, &Vec<F64>) -> F64,
    F: Fn(F64, &Vec<F64>, bool) -> Fit,
    H: Fn(Place, Fit, Position) -> (Position, F64),
    N: Fn(F64, usize) -> F32,
    S: Fn(F32, F32, F32) -> F32,
>(
    ar: FastArithmetic<R, T, FastBlob<W, X, D, E, K, F, H, N>, S>,
    pixels: Seq<F32>,
    width: u32,
    height: u32,
    config: FastCentroidConfig,
    grid: BackgroundGrid,
    thr: Cutoffs,
    regions: RunRegions,
    outs: Seq<Option<Centroid>>,
    res: CentroidExtractionResult,
)
    requires
        fast_run(ar, pixels, width, height, config, grid, thr, regions, outs, res),
    ensures
        grid.block == config.bg_grid,
        (grid.nx - 1) * config.bg_grid < width <= grid.nx * config.bg_grid,
        (grid.ny - 1) * config.bg_grid < height <= grid.ny * config.bg_grid,
        grid.grid@.len() == grid.nx * grid.ny,
        ({
            let stride: usize = if config.bg_grid >= 16 {
                (config.bg_grid / 8) as usize
            } else {
                1
            };
            let lattice = Lattice { stride, staggered: true, nonzero: false };
            let (w, h, block) = (width as int, height as int, config.bg_grid as int);
            let devs = noise_samples(
                pixels,
                w,
                h,
                block,
                lattice,
                grid.grid@,
                grid.grid@.len() as int,
            );
            &&& is_block_grid(pixels, w, h, block, lattice, grid.grid@)
            &&& devs.len() == 0 ==> res.background_sigma == F32 { bits: 0 }
            &&& devs.len() > 0 ==> exists|v: Vec<Deviation>|
                v@ == devs && #[trigger] call_ensures(ar.rms, (&v,), res.background_sigma)
        }),
        is_midpoint(grid.grid@, res.background_mean),
        call_ensures(
            ar.summary,
            (res.background_mean, res.background_sigma, config.sigma_threshold),
            res.threshold,
        ),
        res.num_blobs_raw == regions.n_regions,
        res.image_width == width,
        res.image_height == height,
{
    lemma_ceil_div(width as int, config.bg_grid as int);
    lemma_ceil_div(height as int, config.bg_grid as int);
}

/// Regions are numbered in the order in which a scan row by row meets them: each
/// pixel of a region comes after some pixel of every region with a lower number.
pub proof fn law_fast_regions_come_in_order(regions: RunRegions, j: int, k: int, p: Pixel)
    requires
        regions.wf(),
        0 <= j < k,
        region_set(regions, k)(p),
    ensures
        exists|q: Pixel| #[trigger]
            region_set(regions, j)(q) && (q.0 < p.0 || q.0 == p.0 && q.1 < p.1),
{
    let runs = regions.runs@;
    let i = choose|i: int| 0 <= i < runs.len() && (#[trigger] runs[i]).has(p);
    lemma_run_at(runs, i, p);
    assert(appears(regions.region_of_run@, j, i));
    let t = choose|t: int| 0 <= t < i && #[trigger] regions.region_of_run@[t] == j;
    let q = runs[t].start();
    assert(runs[t].has(q));
    lemma_run_at(runs, t, q);
    assert(covered(runs)(q));
    assert(region_set(regions, j)(q));
}

/// The weight of a pixel and the cutoff that it was held against are asked with the
/// same levels, the same column and the same row: those of the pixel.
pub proof fn law_weight_and_cutoff_are_asked_alike<
    T: Fn(Corners, usize, usize, F32, F32) -> F32,
    W: Fn(F32, Corners, usize, usize) -> F64,
>(
    cutoff: T,
    weight: W,
    grid: BackgroundGrid,
    sigma: F32,
    factor: F32,
    pixels: Seq<F32>,
    w: int,
    h: int,
    thr: Cutoffs,
    list: Seq<Place>,
    weights: Seq<F64>,
    i: int,
)
    requires
        are_cutoffs(cutoff, grid, sigma, factor, w, h, thr),
        are_weights(weight, grid, pixels, w, list, weights),
        0 <= i < list.len(),
        list[i].0 < h,
        list[i].1 < w,
    ensures
        ({
            let (row, column) = list[i];
            exists|levels: Corners|
                {
                    &&& levels == grid.corners_at(column as int, row as int)
                    &&& #[trigger] call_ensures(
                        cutoff,
                        (levels, column, row, sigma, factor),
                        thr((row as int, column as int)),
                    )
                    &&& #[trigger] call_ensures(
                        weight,
                        (pixels[row * w + column], levels, column, row),
                        weights[i],
                    )
                }
        }),
{
    let (row, column) = list[i];
    let levels = grid.corners_at(column as int, row as int);
    assert(cuts(cutoff, grid, sigma, factor, row, column, thr((row as int, column as int))));
    assert(call_ensures(
        weight,
        (pixels[row * w + column], levels, column, row),
        weights[i],
    ));
}

} // verus!
