//! Extraction is determined: with arithmetic that gives equal answers to equal
//! questions, an image and its settings have one result, whatever the number of
//! threads. It is also in bounds: brightest first, at most as many as asked for.

use vstd::prelude::*;

use crate::background::{
    blends, block_samples, coarse_stride, is_block_grid, is_surface, low_half,
    noise_samples, rms_says, staggered_lattice, BackgroundGrid, Corners, Deviation, Edges,
    Lattice,
};
use crate::blobs::{
    annulus_set, are_annulus_values, is_listing, is_peak, is_top, label_set, law_listing_unique,
    region_set, ring_of, values_at, Place,
};
use crate::ccl::{
    blob_emits, blob_outcomes, gray_measured, gray_run, gray_values, is_annulus_median,
    is_gray_result, is_prepared, keeps_measured, law_detection_leaves_photometry,
    locally_prepared, Arithmetic, GrayBlob, Prepared,
};
use crate::config::{CentroidExtractionConfig, CentroidExtractionResult, FastCentroidConfig};
use crate::connect::{LitSet, Pixel};
use crate::fast::{
    cuts, emits, emitted, fast_measured, fast_run, fast_values, is_fast_result, lit_above,
    passes_gates, Cutoffs, FastArithmetic, FastBlob,
};
use crate::ieee::{law_total_rank, F32, F64};
use crate::labels::{
    above_mask, law_description_unique, law_labelling_unique, lemma_pixel_of, pixel_of, Component,
};
use crate::measure::{
    brightnesses, is_blob, is_brightest_first, kept, law_brightest_first, law_maximum_cuts,
    Blob, Centroid, Measurement,
};
use crate::noise::{
    are_residuals, clips_to, finite_only, is_background, is_level, is_residual, lattice_points,
    not_below, round, NO_NOISE,
};
use crate::order::{brightness, is_descending, law_order_unique};
use crate::peak::{
    is_measurement, law_measurement_determined, law_moments_determined, shape_steady, Fit,
    Moments, Position, Sums,
};
use crate::regions::law_regions_determined;
use crate::runs::RunRegions;
use crate::stats::{
    is_median, is_midpoint, law_median_unique, law_nth_unique, ranks, Median,
};

verus! {

/// Equal deviations have equal answers.
pub open spec fn rms_steady<R: Fn(&Vec<Deviation>) -> F32>(rms: R) -> bool {
    forall|u: Vec<Deviation>, v: Vec<Deviation>, a: F32, b: F32|
        u@ == v@ && #[trigger] call_ensures(rms, (&u,), a) && #[trigger] call_ensures(
            rms,
            (&v,),
            b,
        ) ==> a == b
}

/// Two blobs are described alike.
pub open spec fn same_blob(a: Blob, b: Blob) -> bool {
    &&& a.pixels@ == b.pixels@
    &&& a.peak == b.peak
    &&& a.ring@ == b.ring@
    &&& a.saturated == b.saturated
    &&& a.refine == b.refine
}

/// Two grids hold the same levels.
pub open spec fn same_grid(a: BackgroundGrid, b: BackgroundGrid) -> bool {
    &&& a.grid@ == b.grid@
    &&& a.nx == b.nx
    &&& a.ny == b.ny
    &&& a.block == b.block
}

/// The results agree in everything but their centroids.
pub open spec fn same_statistics(
    a: CentroidExtractionResult,
    b: CentroidExtractionResult,
) -> bool {
    &&& a.image_width == b.image_width
    &&& a.image_height == b.image_height
    &&& a.background_mean == b.background_mean
    &&& a.background_sigma == b.background_sigma
    &&& a.threshold == b.threshold
    &&& a.num_blobs_raw == b.num_blobs_raw
}

/// Two results are alike.
pub open spec fn same_result(a: CentroidExtractionResult, b: CentroidExtractionResult) -> bool {
    &&& a.centroids@ == b.centroids@
    &&& same_statistics(a, b)
}

proof fn lemma_midpoint_unique(values: Seq<F32>, a: F32, b: F32)
    requires
        is_midpoint(values, a),
        is_midpoint(values, b),
    ensures
        a == b,
{
    if values.len() > 0 {
        law_nth_unique(
            ranks(values),
            values.len() as int / 2,
            a.total_rank(),
            b.total_rank(),
        );
        law_total_rank(a, b);
    }
}

proof fn lemma_noise_unique<R: Fn(&Vec<Deviation>) -> F32>(
    rms: R,
    devs: Seq<Deviation>,
    a: F32,
    b: F32,
)
    requires
        rms_steady(rms),
        rms_says(rms, devs, a),
        rms_says(rms, devs, b),
    ensures
        a == b,
{
    let u = choose|v: Vec<Deviation>| v@ == devs && #[trigger] call_ensures(rms, (&v,), a);
    let v = choose|v: Vec<Deviation>| v@ == devs && #[trigger] call_ensures(rms, (&v,), b);
    assert(u@ == v@);
}

proof fn lemma_peak_unique(
    image: Seq<F32>,
    w: int,
    list: Seq<Place>,
    fallback: Place,
    a: Place,
    b: Place,
)
    requires
        is_peak(image, w, list, fallback, a),
        is_peak(image, w, list, fallback, b),
    ensures
        a == b,
{
    if exists|t: int| #[trigger] is_top(image, w, list, t) && a == list[t] {
        let s = choose|t: int| #[trigger] is_top(image, w, list, t) && a == list[t];
        assert(exists|t: int| #[trigger] is_top(image, w, list, t) && b == list[t]);
        let t = choose|t: int| #[trigger] is_top(image, w, list, t) && b == list[t];
        if s < t {
            assert(list[s] == a);
        } else if t < s {
            assert(list[t] == b);
        }
    }
}

proof fn lemma_blob_unique(
    a: Blob,
    b: Blob,
    list: Seq<Place>,
    image: Seq<F32>,
    raw: Seq<F32>,
    w: int,
    h: int,
    level: Option<F32>,
    fallback: Place,
)
    requires
        is_blob(a, list, image, raw, w, h, level, fallback),
        is_blob(b, list, image, raw, w, h, level, fallback),
    ensures
        same_blob(a, b),
{
    lemma_peak_unique(image, w, list, fallback, a.peak, b.peak);
    law_listing_unique(a.ring@, b.ring@, ring_of(a.peak, w, h));
}

proof fn lemma_brightest_unique(
    all: Seq<Centroid>,
    max: Option<usize>,
    a: Seq<Centroid>,
    b: Seq<Centroid>,
)
    requires
        is_brightest_first(all, max, a),
        is_brightest_first(all, max, b),
    ensures
        a == b,
{
    let keys = brightnesses(all, F32::zero());
    let p = choose|perm: Seq<usize>|
        {
            &&& #[trigger] is_descending(keys, perm)
            &&& a == Seq::new(kept(all.len() as int, max) as nat, |t: int| all[perm[t] as int])
        };
    let q = choose|perm: Seq<usize>|
        {
            &&& #[trigger] is_descending(keys, perm)
            &&& b == Seq::new(kept(all.len() as int, max) as nat, |t: int| all[perm[t] as int])
        };
    law_order_unique(keys, p, q);
}

/// A function of three numbers answers equal questions alike.
pub open spec fn scaled_steady<C: Fn(F32, F32, F32) -> F32>(f: C) -> bool {
    forall|x: F32, y: F32, z: F32, a: F32, b: F32| #[trigger]
        call_ensures(f, (x, y, z), a) && #[trigger] call_ensures(f, (x, y, z), b) ==> a == b
}

/// The arithmetic of the fast path answers equal questions alike.
pub open spec fn fast_steady<
    R: Fn(&Vec<Deviation>) -> F32,
    T: Fn(Corners, usize, usize, F32, F32) -> F32,
    W: Fn(F32, Corners, usize, usize) -> F64,
    X: Fn(F32, Corners, usize, usize) -> F64,
    D: Fn(Sums, F64, Place, Place) -> Sums,
    E: Fn(Sums, Place) -> Moments,
    K: Fn(F64, &Vec<F64>) -> F64,
    F: Fn(F64, &Vec<F64>, bool) -> Fit,
    H: Fn(Place, Fit, Position) -> (Position, F64),
    N: Fn(F64, usize) -> F32,
    S: Fn(F32, F32, F32) -> F32,
>(ar: FastArithmetic<R, T, FastBlob<W, X, D, E, K, F, H, N>, S>) -> bool {
    &&& rms_steady(ar.rms)
    &&& forall|k: Corners, x: usize, y: usize, s: F32, f: F32, a: F32, b: F32| #[trigger]
        call_ensures(ar.cutoff, (k, x, y, s, f), a) && #[trigger] call_ensures(
            ar.cutoff,
            (k, x, y, s, f),
            b,
        ) ==> a == b
    &&& forall|v: F32, k: Corners, x: usize, y: usize, a: F64, b: F64| #[trigger]
        call_ensures(ar.blob.weight, (v, k, x, y), a) && #[trigger] call_ensures(
            ar.blob.weight,
            (v, k, x, y),
            b,
        ) ==> a == b
    &&& forall|v: F32, k: Corners, x: usize, y: usize, a: F64, b: F64| #[trigger]
        call_ensures(ar.blob.excess, (v, k, x, y), a) && #[trigger] call_ensures(
            ar.blob.excess,
            (v, k, x, y),
            b,
        ) ==> a == b
    &&& shape_steady(ar.blob.shape)
    &&& scaled_steady(ar.summary)
}

proof fn lemma_fast_measured_unique<
    R: Fn(&Vec<Deviation>) -> F32,
    T: Fn(Corners, usize, usize, F32, F32) -> F32,
    W: Fn(F32, Corners, usize, usize) -> F64,
    X: Fn(F32, Corners, usize, usize) -> F64,
    D: Fn(Sums, F64, Place, Place) -> Sums,
    E: Fn(Sums, Place) -> Moments,
    K: Fn(F64, &Vec<F64>) -> F64,
    F: Fn(F64, &Vec<F64>, bool) -> Fit,
    H: Fn(Place, Fit, Position) -> (Position, F64),
    N: Fn(F64, usize) -> F32,
    S: Fn(F32, F32, F32) -> F32,
>(
    ar: FastArithmetic<R, T, FastBlob<W, X, D, E, K, F, H, N>, S>,
    g: BackgroundGrid,
    h: BackgroundGrid,
    pixels: Seq<F32>,
    w: int,
    hh: int,
    c: Blob,
    d: Blob,
    m: Measurement,
    n: Measurement,
)
    requires
        fast_steady(ar),
        same_grid(g, h),
        same_blob(c, d),
        fast_measured(ar.blob, g, pixels, w, hh, c, m),
        fast_measured(ar.blob, h, pixels, w, hh, d, n),
    ensures
        m == n,
{
    let (ww, wh) = (w as usize, hh as usize);
    let (w1, m1, p1, r1) = choose|
        weights: Seq<F64>,
        moments: Moments,
        peak: F64,
        ring: Vec<F64>,
    |
        {
            &&& #[trigger] fast_values(
                ar.blob,
                g,
                pixels,
                w,
                c,
                weights,
                moments,
                peak,
                ring,
            )
            &&& is_measurement(ar.blob.shape, c, moments, peak, ring, ww, wh, F32::zero(), m)
        };
    let (w2, m2, p2, r2) = choose|
        weights: Seq<F64>,
        moments: Moments,
        peak: F64,
        ring: Vec<F64>,
    |
        {
            &&& #[trigger] fast_values(
                ar.blob,
                h,
                pixels,
                w,
                d,
                weights,
                moments,
                peak,
                ring,
            )
            &&& is_measurement(ar.blob.shape, d, moments, peak, ring, ww, wh, F32::zero(), n)
        };
    let (x, y) = (c.peak.1, c.peak.0);
    assert(g.corners_at(x as int, y as int) == h.corners_at(x as int, y as int));
    assert forall|i: int| 0 <= i < w1.len() implies #[trigger] w1[i] == w2[i] by {
        let q = c.pixels@[i];
        assert(g.corners_at(q.1 as int, q.0 as int) == h.corners_at(q.1 as int, q.0 as int));
    }
    assert(w1 =~= w2);
    law_moments_determined(ar.blob.shape, w1, c.pixels@, (0usize, 0usize), m1, m2);
    assert(seq![p1][0] == p1 && seq![p2][0] == p2);
    assert(p1 == p2);
    assert forall|i: int| 0 <= i < r1@.len() implies #[trigger] r1@[i] == r2@[i] by {}
    assert(r1@ =~= r2@);
    law_measurement_determined(
        ar.blob.shape,
        c,
        d,
        m1,
        p1,
        r1,
        r2,
        ww,
        wh,
        F32::zero(),
        m,
        n,
    );
}

proof fn lemma_emits_unique<
    R: Fn(&Vec<Deviation>) -> F32,
    T: Fn(Corners, usize, usize, F32, F32) -> F32,
    W: Fn(F32, Corners, usize, usize) -> F64,
    X: Fn(F32, Corners, usize, usize) -> F64,
    D: Fn(Sums, F64, Place, Place) -> Sums,
    E: Fn(Sums, Place) -> Moments,
    K: Fn(F64, &Vec<F64>) -> F64,
    F: Fn(F64, &Vec<F64>, bool) -> Fit,
    H: Fn(Place, Fit, Position) -> (Position, F64),
    N: Fn(F64, usize) -> F32,
    S: Fn(F32, F32, F32) -> F32,
>(
    ar: FastArithmetic<R, T, FastBlob<W, X, D, E, K, F, H, N>, S>,
    g: BackgroundGrid,
    h: BackgroundGrid,
    pixels: Seq<F32>,
    w: int,
    hh: int,
    config: FastCentroidConfig,
    set: LitSet,
    a: Option<Centroid>,
    b: Option<Centroid>,
)
    requires
        fast_steady(ar),
        same_grid(g, h),
        emits(ar.blob, g, pixels, w, hh, config, set, a),
        emits(ar.blob, h, pixels, w, hh, config, set, b),
    ensures
        a == b,
{
    let level = config.saturation_level;
    let gates = |list: Seq<Place>|
        passes_gates(
            list,
            config.min_pixels,
            config.max_pixels,
            config.border_margin,
            w,
            hh,
        );
    let list = choose|list: Seq<Place>|
        {
            &&& #[trigger] is_listing(list, set)
            &&& if gates(list) {
                exists|b: Blob, m: Measurement|
                    {
                        &&& is_blob(b, list, pixels, pixels, w, hh, level, (0usize, 0usize))
                        &&& #[trigger] fast_measured(ar.blob, g, pixels, w, hh, b, m)
                        &&& a == if m.passes(config.max_elongation, config.max_sharpness) {
                            Some(m.centroid_of())
                        } else {
                            None
                        }
                    }
            } else {
                a is None
            }
        };
    let other = choose|list: Seq<Place>|
        {
            &&& #[trigger] is_listing(list, set)
            &&& if gates(list) {
                exists|c: Blob, m: Measurement|
                    {
                        &&& is_blob(c, list, pixels, pixels, w, hh, level, (0usize, 0usize))
                        &&& #[trigger] fast_measured(ar.blob, h, pixels, w, hh, c, m)
                        &&& b == if m.passes(config.max_elongation, config.max_sharpness) {
                            Some(m.centroid_of())
                        } else {
                            None
                        }
                    }
            } else {
                b is None
            }
        };
    law_listing_unique(list, other, set);
    if gates(list) {
        let (c, m) = choose|c: Blob, m: Measurement|
            {
                &&& is_blob(c, list, pixels, pixels, w, hh, level, (0usize, 0usize))
                &&& #[trigger] fast_measured(ar.blob, g, pixels, w, hh, c, m)
                &&& a == if m.passes(config.max_elongation, config.max_sharpness) {
                    Some(m.centroid_of())
                } else {
                    None
                }
            };
        let (d, n) = choose|c: Blob, m: Measurement|
            {
                &&& is_blob(c, list, pixels, pixels, w, hh, level, (0usize, 0usize))
                &&& #[trigger] fast_measured(ar.blob, h, pixels, w, hh, c, m)
                &&& b == if m.passes(config.max_elongation, config.max_sharpness) {
                    Some(m.centroid_of())
                } else {
                    None
                }
            };
        lemma_blob_unique(c, d, list, pixels, pixels, w, hh, level, (0usize, 0usize));
        lemma_fast_measured_unique(ar, g, h, pixels, w, hh, c, d, m, n);
    }
}

proof fn lemma_grid_unique(
    pixels: Seq<F32>,
    w: int,
    h: int,
    a: BackgroundGrid,
    b: BackgroundGrid,
    lattice: Lattice,
)
    requires
        a.covers(w, h),
        b.covers(w, h),
        a.block == b.block,
        is_block_grid(pixels, w, h, a.block as int, lattice, a.grid@),
        is_block_grid(pixels, w, h, b.block as int, lattice, b.grid@),
    ensures
        same_grid(a, b),
{
    assert forall|bi: int| 0 <= bi < a.grid@.len() implies #[trigger] a.grid@[bi]
        == b.grid@[bi] by {
        lemma_midpoint_unique(
            block_samples(pixels, w, h, a.block as int, lattice, bi),
            a.grid@[bi],
            b.grid@[bi],
        );
    }
    assert(a.grid@ =~= b.grid@);
}

/// The settings agree in everything but the maximum number of centroids.
pub open spec fn fast_alike(c: FastCentroidConfig, d: FastCentroidConfig) -> bool {
    d == FastCentroidConfig { max_centroids: d.max_centroids, ..c }
}

/// Up to the cut, two runs of the fast path are the same.
proof fn lemma_fast_runs_agree<
    R: Fn(&Vec<Deviation>) -> F32,
    T: Fn(Corners, usize, usize, F32, F32) -> F32,
    W: Fn(F32, Corners, usize, usize) -> F64,
    X: Fn(F32, Corners, usize, usize) -> F64,
    D: Fn(Sums, F64, Place, Place) -> Sums,
    E: Fn(Sums, Place) -> Moments,
    K: Fn(F64, &Vec<F64>) -> F64,
    F: Fn(F64, &Vec<F64>, bool) -> Fit,
    H: Fn(Place, Fit, Position) -> (Position, F64),
    N: Fn(F64, usize) -> F32,
    S: Fn(F32, F32, F32) -> F32,
>(
    ar: FastArithmetic<R, T, FastBlob<W, X, D, E, K, F, H, N>, S>,
    pixels: Seq<F32>,
    width: u32,
    height: u32,
    config: FastCentroidConfig,
    d: FastCentroidConfig,
    g1: BackgroundGrid,
    t1: Cutoffs,
    r1: RunRegions,
    o1: Seq<Option<Centroid>>,
    a: CentroidExtractionResult,
    g2: BackgroundGrid,
    t2: Cutoffs,
    r2: RunRegions,
    o2: Seq<Option<Centroid>>,
    b: CentroidExtractionResult,
)
    requires
        fast_steady(ar),
        fast_alike(config, d),
        fast_run(ar, pixels, width, height, config, g1, t1, r1, o1, a),
        fast_run(ar, pixels, width, height, d, g2, t2, r2, o2, b),
    ensures
        o1 == o2,
        same_statistics(a, b),
{
    let (w, h) = (width as int, height as int);
    let lattice = staggered_lattice(coarse_stride(config.bg_grid as int, 8));
    lemma_grid_unique(pixels, w, h, g1, g2, lattice);
    let devs = noise_samples(
        pixels,
        w,
        h,
        config.bg_grid as int,
        lattice,
        g1.grid@,
        g1.grid@.len() as int,
    );
    if devs.len() > 0 {
        lemma_noise_unique(ar.rms, devs, a.background_sigma, b.background_sigma);
    }
    let sigma = a.background_sigma;
    let factor = config.sigma_threshold;
    assert forall|p: Pixel| #[trigger]
        lit_above(pixels, w, h, t1)(p) <==> lit_above(pixels, w, h, t2)(p) by {
        if 0 <= p.0 < h && 0 <= p.1 < w {
            let (r, c) = (p.0 as usize, p.1 as usize);
            assert(p == (r as int, c as int));
            assert(cuts(ar.cutoff, g1, sigma, factor, r, c, t1((r as int, c as int))));
            assert(cuts(ar.cutoff, g2, sigma, factor, r, c, t2((r as int, c as int))));
            assert(g1.corners_at(c as int, r as int) == g2.corners_at(c as int, r as int));
        }
    }
    let lit = lit_above(pixels, w, h, t1);
    assert(lit =~= lit_above(pixels, w, h, t2));
    law_regions_determined(r1, r2, lit);
    assert forall|k: int| 0 <= k < o1.len() implies #[trigger] o1[k] == o2[k] by {
        assert(region_set(r1, k) =~= region_set(r2, k));
        assert(emits(ar.blob, g2, pixels, w, h, d, region_set(r2, k), o2[k]));
        assert(emits(ar.blob, g2, pixels, w, h, config, region_set(r2, k), o2[k]));
        lemma_emits_unique(ar, g1, g2, pixels, w, h, config, region_set(r1, k), o1[k], o2[k]);
    }
    assert(o1 =~= o2);
    lemma_midpoint_unique(g1.grid@, a.background_mean, b.background_mean);
}

/// The fast path gives one result: with steady arithmetic, equal pixels and
/// settings lead to equal results.
pub proof fn law_fast_result_determined<
    R: Fn(&Vec<Deviation>) -> F32,
    T: Fn(Corners, usize, usize, F32, F32) -> F32,
    W: Fn(F32, Corners, usize, usize) -> F64,
    X: Fn(F32, Corners, usize, usize) -> F64,
    D: Fn(Sums, F64, Place, Place) -> Sums,
    E: Fn(Sums, Place) -> Moments,
    K: Fn(F64, &Vec<F64>) -> F64,
    F: Fn(F64, &Vec<F64>, bool) -> Fit,
    H: Fn(Place, Fit, Position) -> (Position, F64),
    N: Fn(F64, usize) -> F32,
    S: Fn(F32, F32, F32) -> F32,
>(
    ar: FastArithmetic<R, T, FastBlob<W, X, D, E, K, F, H, N>, S>,
    pixels: Seq<F32>,
    width: u32,
    height: u32,
    config: FastCentroidConfig,
    a: CentroidExtractionResult,
    b: CentroidExtractionResult,
)
    requires
        fast_steady(ar),
        is_fast_result(ar, pixels, width, height, config, a),
        is_fast_result(ar, pixels, width, height, config, b),
    ensures
        same_result(a, b),
{
    let (g1, t1, r1, o1) = choose|
        grid: BackgroundGrid,
        thr: Cutoffs,
        regions: RunRegions,
        outs: Seq<Option<Centroid>>,
    | #[trigger]
        fast_run(ar, pixels, width, height, config, grid, thr, regions, outs, a);
    let (g2, t2, r2, o2) = choose|
        grid: BackgroundGrid,
        thr: Cutoffs,
        regions: RunRegions,
        outs: Seq<Option<Centroid>>,
    | #[trigger]
        fast_run(ar, pixels, width, height, config, grid, thr, regions, outs, b);
    lemma_fast_runs_agree(
        ar,
        pixels,
        width,
        height,
        config,
        config,
        g1,
        t1,
        r1,
        o1,
        a,
        g2,
        t2,
        r2,
        o2,
        b,
    );
    lemma_brightest_unique(emitted(o1), config.max_centroids, a.centroids@, b.centroids@);
}

/// A maximum only cuts the fast path's list: the brightest come first, the
/// result holds as many of them as the maximum lets, and nothing else changes.
pub proof fn law_fast_maximum_cuts<
    R: Fn(&Vec<Deviation>) -> F32,
    T: Fn(Corners, usize, usize, F32, F32) -> F32,
    W: Fn(F32, Corners, usize, usize) -> F64,
    X: Fn(F32, Corners, usize, usize) -> F64,
    D: Fn(Sums, F64, Place, Place) -> Sums,
    E: Fn(Sums, Place) -> Moments,
    K: Fn(F64, &Vec<F64>) -> F64,
    F: Fn(F64, &Vec<F64>, bool) -> Fit,
    H: Fn(Place, Fit, Position) -> (Position, F64),
    N: Fn(F64, usize) -> F32,
    S: Fn(F32, F32, F32) -> F32,
>(
    ar: FastArithmetic<R, T, FastBlob<W, X, D, E, K, F, H, N>, S>,
    pixels: Seq<F32>,
    width: u32,
    height: u32,
    c: FastCentroidConfig,
    full: CentroidExtractionResult,
    n: usize,
    cut: CentroidExtractionResult,
)
    requires
        fast_steady(ar),
        c.max_centroids is None,
        is_fast_result(ar, pixels, width, height, c, full),
        is_fast_result(
            ar,
            pixels,
            width,
            height,
            (FastCentroidConfig { max_centroids: Some(n), ..c }),
            cut,
        ),
    ensures
        cut.centroids@ == full.centroids@.take(kept(full.centroids@.len() as int, Some(n))),
        same_statistics(full, cut),
        in_bounds(full, None),
{
    let d = FastCentroidConfig { max_centroids: Some(n), ..c };
    let (g1, t1, r1, o1) = choose|
        grid: BackgroundGrid,
        thr: Cutoffs,
        regions: RunRegions,
        outs: Seq<Option<Centroid>>,
    | #[trigger]
        fast_run(ar, pixels, width, height, c, grid, thr, regions, outs, full);
    let (g2, t2, r2, o2) = choose|
        grid: BackgroundGrid,
        thr: Cutoffs,
        regions: RunRegions,
        outs: Seq<Option<Centroid>>,
    | #[trigger]
        fast_run(ar, pixels, width, height, d, grid, thr, regions, outs, cut);
    lemma_fast_runs_agree(
        ar,
        pixels,
        width,
        height,
        c,
        d,
        g1,
        t1,
        r1,
        o1,
        full,
        g2,
        t2,
        r2,
        o2,
        cut,
    );
    law_maximum_cuts(emitted(o1), n, cut.centroids@, full.centroids@);
    law_fast_result_in_bounds(ar, pixels, width, height, c, full);
}

/// A function of two numbers answers equal questions alike.
pub open spec fn pair_steady<A: Fn(F32, F32) -> F32>(f: A) -> bool {
    forall|x: F32, y: F32, a: F32, b: F32| #[trigger]
        call_ensures(f, (x, y), a) && #[trigger] call_ensures(f, (x, y), b) ==> a == b
}

/// Interpolation answers equal questions alike.
pub open spec fn blend_steady<B: Fn(Corners, usize, usize) -> F32>(blend: B) -> bool {
    forall|k: Corners, x: usize, y: usize, a: F32, b: F32| #[trigger]
        call_ensures(blend, (k, x, y), a) && #[trigger] call_ensures(blend, (k, x, y), b)
            ==> a == b
}

/// The arithmetic of a blob answers equal questions alike.
pub open spec fn gray_blob_steady<
    W: Fn(F32, &Median) -> F64,
    X: Fn(F32, &Median) -> F64,
    L: Fn(F64, &Median) -> F32,
    D: Fn(Sums, F64, Place, Place) -> Sums,
    E: Fn(Sums, Place) -> Moments,
    K: Fn(F64, &Vec<F64>) -> F64,
    F: Fn(F64, &Vec<F64>, bool) -> Fit,
    H: Fn(Place, Fit, Position) -> (Position, F64),
    N: Fn(F64, usize) -> F32,
>(blob: GrayBlob<W, X, L, D, E, K, F, H, N>) -> bool {
    &&& forall|v: F32, l: Median, a: F64, b: F64| #[trigger]
        call_ensures(blob.weight, (v, &l), a) && #[trigger] call_ensures(
            blob.weight,
            (v, &l),
            b,
        ) ==> a == b
    &&& forall|v: F32, l: Median, a: F64, b: F64| #[trigger]
        call_ensures(blob.excess, (v, &l), a) && #[trigger] call_ensures(
            blob.excess,
            (v, &l),
            b,
        ) ==> a == b
    &&& forall|v: F64, l: Median, a: F32, b: F32| #[trigger]
        call_ensures(blob.floor, (v, &l), a) && #[trigger] call_ensures(blob.floor, (v, &l), b)
            ==> a == b
    &&& shape_steady(blob.shape)
}

proof fn lemma_gray_measured_unique<
    W: Fn(F32, &Median) -> F64,
    X: Fn(F32, &Median) -> F64,
    L: Fn(F64, &Median) -> F32,
    D: Fn(Sums, F64, Place, Place) -> Sums,
    E: Fn(Sums, Place) -> Moments,
    K: Fn(F64, &Vec<F64>) -> F64,
    F: Fn(F64, &Vec<F64>, bool) -> Fit,
    H: Fn(Place, Fit, Position) -> (Position, F64),
    N: Fn(F64, usize) -> F32,
>(
    blob: GrayBlob<W, X, L, D, E, K, F, H, N>,
    u: Vec<F32>,
    v: Vec<F32>,
    w: int,
    h: int,
    local: Median,
    origin: Place,
    c: Blob,
    d: Blob,
    m: Measurement,
    n: Measurement,
)
    requires
        gray_blob_steady(blob),
        u@ == v@,
        same_blob(c, d),
        gray_measured(blob, u, w, h, local, origin, c, m),
        gray_measured(blob, v, w, h, local, origin, d, n),
    ensures
        m == n,
{
    let (ww, wh) = (w as usize, h as usize);
    let (w1, m1, p1, r1, f1) = choose|
        weights: Seq<F64>,
        moments: Moments,
        peak: F64,
        ring: Vec<F64>,
        floor: F32,
    |
        {
            &&& #[trigger] gray_values(
                blob,
                u,
                w,
                local,
                origin,
                c,
                weights,
                moments,
                peak,
                ring,
                floor,
            )
            &&& is_measurement(blob.shape, c, moments, peak, ring, ww, wh, floor, m)
        };
    let (w2, m2, p2, r2, f2) = choose|
        weights: Seq<F64>,
        moments: Moments,
        peak: F64,
        ring: Vec<F64>,
        floor: F32,
    |
        {
            &&& #[trigger] gray_values(
                blob,
                v,
                w,
                local,
                origin,
                d,
                weights,
                moments,
                peak,
                ring,
                floor,
            )
            &&& is_measurement(blob.shape, d, moments, peak, ring, ww, wh, floor, n)
        };
    assert forall|i: int| 0 <= i < w1.len() implies #[trigger] w1[i] == w2[i] by {}
    assert(w1 =~= w2);
    law_moments_determined(blob.shape, w1, c.pixels@, origin, m1, m2);
    assert(seq![p1][0] == p1 && seq![p2][0] == p2);
    assert(p1 == p2);
    assert forall|i: int| 0 <= i < r1@.len() implies #[trigger] r1@[i] == r2@[i] by {}
    assert(r1@ =~= r2@);
    assert(f1 == f2);
    law_measurement_determined(blob.shape, c, d, m1, p1, r1, r2, ww, wh, f1, m, n);
}

/// The arithmetic of the default path answers equal questions alike.
pub open spec fn gray_steady<
    A: Fn(F32, F32) -> F32,
    R: Fn(&Vec<Deviation>) -> F32,
    C: Fn(F32, F32, F32) -> F32,
    B: Fn(Corners, usize, usize) -> F32,
    S: Fn(F32, F32) -> F32,
    G: Fn(&Vec<F32>, usize, usize, F32) -> Vec<F32>,
    T: Fn(F32, F32, F32, Option<F32>) -> F32,
    W: Fn(F32, &Median) -> F64,
    X: Fn(F32, &Median) -> F64,
    L: Fn(F64, &Median) -> F32,
    D: Fn(Sums, F64, Place, Place) -> Sums,
    E: Fn(Sums, Place) -> Moments,
    K: Fn(F64, &Vec<F64>) -> F64,
    F: Fn(F64, &Vec<F64>, bool) -> Fit,
    H: Fn(Place, Fit, Position) -> (Position, F64),
    N: Fn(F64, usize) -> F32,
>(ar: Arithmetic<A, R, C, B, S, G, T, GrayBlob<W, X, L, D, E, K, F, H, N>>) -> bool {
    &&& pair_steady(ar.average)
    &&& rms_steady(ar.rms)
    &&& scaled_steady(ar.cut)
    &&& blend_steady(ar.blend)
    &&& pair_steady(ar.subtract)
    &&& forall|u: Vec<F32>, v: Vec<F32>, w: usize, h: usize, s: F32, a: Vec<F32>, b: Vec<F32>|
        u@ == v@ && #[trigger] call_ensures(ar.blur, (&u, w, h, s), a) && #[trigger] call_ensures(
            ar.blur,
            (&v, w, h, s),
            b,
        ) ==> a@ == b@
    &&& forall|l: F32, s: F32, k: F32, f: Option<F32>, a: F32, b: F32| #[trigger]
        call_ensures(ar.threshold, (l, s, k, f), a) && #[trigger] call_ensures(
            ar.threshold,
            (l, s, k, f),
            b,
        ) ==> a == b
    &&& gray_blob_steady(ar.blob)
}

proof fn lemma_clips_unique<R: Fn(&Vec<Deviation>) -> F32, C: Fn(F32, F32, F32) -> F32>(
    rms: R,
    cut: C,
    factor: F32,
    level: F32,
    devs: Seq<Deviation>,
    last: F32,
    n: nat,
    a: F32,
    b: F32,
)
    requires
        rms_steady(rms),
        scaled_steady(cut),
        clips_to(rms, cut, factor, level, devs, last, n, a),
        clips_to(rms, cut, factor, level, devs, last, n, b),
    ensures
        a == b,
    decreases n,
{
    if n > 0 && devs.len() > 0 {
        let floor = F32 { bits: NO_NOISE };
        let (s, lo) = choose|s: F32, lo: F32|
            {
                &&& #[trigger] round(rms, cut, factor, level, devs, s, lo)
                &&& if floor.above(s) || not_below(devs, lo).len() == devs.len() {
                    a == s
                } else {
                    clips_to(rms, cut, factor, level, not_below(devs, lo), s, (n - 1) as nat, a)
                }
            };
        let (t, lp) = choose|s: F32, lo: F32|
            {
                &&& #[trigger] round(rms, cut, factor, level, devs, s, lo)
                &&& if floor.above(s) || not_below(devs, lo).len() == devs.len() {
                    b == s
                } else {
                    clips_to(rms, cut, factor, level, not_below(devs, lo), s, (n - 1) as nat, b)
                }
            };
        lemma_noise_unique(rms, devs, s, t);
        if !floor.above(s) {
            assert(lo == lp);
            if not_below(devs, lo).len() != devs.len() {
                lemma_clips_unique(
                    rms,
                    cut,
                    factor,
                    level,
                    not_below(devs, lo),
                    s,
                    (n - 1) as nat,
                    a,
                    b,
                );
            }
        }
    }
}

proof fn lemma_level_unique<A: Fn(F32, F32) -> F32>(average: A, values: Seq<F32>, a: F32, b: F32)
    requires
        pair_steady(average),
        is_level(average, values, a),
        is_level(average, values, b),
    ensures
        a == b,
{
    let m = choose|m: Median| #[trigger]
        is_median(values, m) && match m {
            Median::Empty => a == F32::zero(),
            Median::Middle(v) => a == v,
            Median::Between(x, y) => call_ensures(average, (x, y), a),
        };
    let n = choose|m: Median| #[trigger]
        is_median(values, m) && match m {
            Median::Empty => b == F32::zero(),
            Median::Middle(v) => b == v,
            Median::Between(x, y) => call_ensures(average, (x, y), b),
        };
    law_median_unique(values, m, n);
}

/// Level and noise of values are determined.
pub proof fn law_background_determined<
    A: Fn(F32, F32) -> F32,
    R: Fn(&Vec<Deviation>) -> F32,
    C: Fn(F32, F32, F32) -> F32,
>(
    average: A,
    rms: R,
    cut: C,
    values: Seq<F32>,
    rounds: nat,
    factor: F32,
    a: (F32, F32),
    b: (F32, F32),
)
    requires
        pair_steady(average),
        rms_steady(rms),
        scaled_steady(cut),
        is_background(average, rms, cut, values, rounds, factor, a.0, a.1),
        is_background(average, rms, cut, values, rounds, factor, b.0, b.1),
    ensures
        a == b,
{
    let finite = finite_only(values);
    if finite.len() > 0 {
        lemma_level_unique(average, finite, a.0, b.0);
        lemma_clips_unique(
            rms,
            cut,
            factor,
            a.0,
            low_half(finite, a.0),
            F32::zero(),
            rounds,
            a.1,
            b.1,
        );
    }
}

proof fn lemma_blends_unique<B: Fn(Corners, usize, usize) -> F32>(
    blend: B,
    g: BackgroundGrid,
    h: BackgroundGrid,
    edges: Edges,
    y: usize,
    x: usize,
    a: F32,
    b: F32,
)
    requires
        blend_steady(blend),
        same_grid(g, h),
        blends(blend, g, edges, y, x, a),
        blends(blend, h, edges, y, x, b),
    ensures
        a == b,
{
    assert(g.levels_at(edges, x as int, y as int) == h.levels_at(edges, x as int, y as int));
}

proof fn lemma_surface_unique<B: Fn(Corners, usize, usize) -> F32>(
    blend: B,
    g: BackgroundGrid,
    h: BackgroundGrid,
    edges: Edges,
    w: u32,
    hh: u32,
    a: Seq<F32>,
    b: Seq<F32>,
)
    requires
        w > 0,
        blend_steady(blend),
        same_grid(g, h),
        is_surface(blend, g, edges, w as int, hh as int, a),
        is_surface(blend, h, edges, w as int, hh as int, b),
    ensures
        a == b,
{
    assert forall|i: int| 0 <= i < a.len() implies #[trigger] a[i] == b[i] by {
        lemma_pixel_of(w as int, hh as int, i);
        let (y, x) = (pixel_of(w as int, i).0 as usize, pixel_of(w as int, i).1 as usize);
        assert(i == y * w + x);
        assert(blends(blend, g, edges, y, x, a[y * w + x]));
        assert(blends(blend, h, edges, y, x, b[y * w + x]));
        lemma_blends_unique(blend, g, h, edges, y, x, a[i], b[i]);
    }
    assert(a =~= b);
}

proof fn lemma_residuals_unique<B: Fn(Corners, usize, usize) -> F32, S: Fn(F32, F32) -> F32>(
    blend: B,
    subtract: S,
    g: BackgroundGrid,
    h: BackgroundGrid,
    pixels: Seq<F32>,
    w: int,
    points: Seq<(usize, usize)>,
    a: Seq<F32>,
    b: Seq<F32>,
)
    requires
        blend_steady(blend),
        pair_steady(subtract),
        same_grid(g, h),
        are_residuals(blend, subtract, g, pixels, w, points, a),
        are_residuals(blend, subtract, h, pixels, w, points, b),
    ensures
        a == b,
{
    assert forall|i: int| 0 <= i < a.len() implies #[trigger] a[i] == b[i] by {
        let p = points[i];
        let v = pixels[p.0 * w + p.1];
        assert(is_residual(blend, subtract, g, pixels, w, p, a[i]));
        assert(is_residual(blend, subtract, h, pixels, w, p, b[i]));
        let x = choose|x: F32| #[trigger]
            blends(blend, g, Edges::Extend, p.0, p.1, x) && call_ensures(subtract, (v, x), a[i]);
        let y = choose|x: F32| #[trigger]
            blends(blend, h, Edges::Extend, p.0, p.1, x) && call_ensures(subtract, (v, x), b[i]);
        lemma_blends_unique(blend, g, h, Edges::Extend, p.0, p.1, x, y);
    }
    assert(a =~= b);
}

/// Two prepared images are alike.
pub open spec fn same_prepared(a: Prepared, b: Prepared) -> bool {
    &&& a.image@ == b.image@
    &&& a.unclamped@ == b.unclamped@
    &&& a.mean == b.mean
    &&& a.sigma == b.sigma
}

proof fn lemma_prepared_unique<
    A: Fn(F32, F32) -> F32,
    R: Fn(&Vec<Deviation>) -> F32,
    C: Fn(F32, F32, F32) -> F32,
    B: Fn(Corners, usize, usize) -> F32,
    S: Fn(F32, F32) -> F32,
    G: Fn(&Vec<F32>, usize, usize, F32) -> Vec<F32>,
    T: Fn(F32, F32, F32, Option<F32>) -> F32,
    W: Fn(F32, &Median) -> F64,
    X: Fn(F32, &Median) -> F64,
    L: Fn(F64, &Median) -> F32,
    D: Fn(Sums, F64, Place, Place) -> Sums,
    E: Fn(Sums, Place) -> Moments,
    K: Fn(F64, &Vec<F64>) -> F64,
    F: Fn(F64, &Vec<F64>, bool) -> Fit,
    H: Fn(Place, Fit, Position) -> (Position, F64),
    N: Fn(F64, usize) -> F32,
>(
    ar: Arithmetic<A, R, C, B, S, G, T, GrayBlob<W, X, L, D, E, K, F, H, N>>,
    gray: Seq<F32>,
    width: u32,
    height: u32,
    config: CentroidExtractionConfig,
    a: Prepared,
    b: Prepared,
)
    requires
        gray_steady(ar),
        is_prepared(ar, gray, width as int, height as int, config, a),
        is_prepared(ar, gray, width as int, height as int, config, b),
    ensures
        same_prepared(a, b),
{
    let (w, h) = (width as int, height as int);
    let rounds = config.sigma_clip_iterations as nat;
    let factor = config.sigma_clip_factor;
    match config.local_bg_block_size {
        Some(bs) => {
            let (g1, r1, s1) = choose|bg: BackgroundGrid, residuals: Seq<F32>, surface: Seq<F32>|
             #[trigger]
                locally_prepared(
                    ar,
                    gray,
                    w,
                    h,
                    bs as int,
                    rounds,
                    factor,
                    bg,
                    residuals,
                    surface,
                    a,
                );
            let (g2, r2, s2) = choose|bg: BackgroundGrid, residuals: Seq<F32>, surface: Seq<F32>|
             #[trigger]
                locally_prepared(
                    ar,
                    gray,
                    w,
                    h,
                    bs as int,
                    rounds,
                    factor,
                    bg,
                    residuals,
                    surface,
                    b,
                );
            lemma_grid_unique(gray, w, h, g1, g2, staggered_lattice(coarse_stride(bs as int, 16)));
            let points = lattice_points(gray, w, h, 0, coarse_stride(bs as int, 16));
            lemma_residuals_unique(ar.blend, ar.subtract, g1, g2, gray, w, points, r1, r2);
            law_background_determined(
                ar.average,
                ar.rms,
                ar.cut,
                r1,
                rounds,
                factor,
                (a.mean, a.sigma),
                (b.mean, b.sigma),
            );
            lemma_surface_unique(ar.blend, g1, g2, Edges::Extend, width, height, s1, s2);
            assert forall|i: int| 0 <= i < a.unclamped@.len() implies #[trigger] a.unclamped@[i]
                == b.unclamped@[i] by {
                assert(call_ensures(ar.subtract, (gray[i], s1[i]), a.unclamped@[i]));
                assert(call_ensures(ar.subtract, (gray[i], s2[i]), b.unclamped@[i]));
            }
            assert(a.unclamped@ =~= b.unclamped@);
        },
        None => {
            law_background_determined(
                ar.average,
                ar.rms,
                ar.cut,
                gray,
                rounds,
                factor,
                (a.mean, a.sigma),
                (b.mean, b.sigma),
            );
        },
    }
}

proof fn lemma_annulus_unique(
    image: Seq<F32>,
    labels: Seq<u32>,
    w: int,
    h: int,
    comp: Component,
    a: Median,
    b: Median,
)
    requires
        is_annulus_median(image, labels, w, h, comp, a),
        is_annulus_median(image, labels, w, h, comp, b),
    ensures
        a == b,
{
    let u = choose|vals: Seq<F32>| #[trigger]
        are_annulus_values(image, labels, w, h, comp, vals) && is_median(vals, a);
    let v = choose|vals: Seq<F32>| #[trigger]
        are_annulus_values(image, labels, w, h, comp, vals) && is_median(vals, b);
    let set = annulus_set(labels, w, h, comp);
    let l = choose|list: Seq<Place>| #[trigger]
        is_listing(list, set) && u == values_at(image, w, list);
    let m = choose|list: Seq<Place>| #[trigger]
        is_listing(list, set) && v == values_at(image, w, list);
    law_listing_unique(l, m, set);
    law_median_unique(u, a, b);
}

/// What the outcome of a listed component rests on.
spec fn outcome<
    W: Fn(F32, &Median) -> F64,
    X: Fn(F32, &Median) -> F64,
    L: Fn(F64, &Median) -> F32,
    D: Fn(Sums, F64, Place, Place) -> Sums,
    E: Fn(Sums, Place) -> Moments,
    K: Fn(F64, &Vec<F64>) -> F64,
    F: Fn(F64, &Vec<F64>, bool) -> Fit,
    H: Fn(Place, Fit, Position) -> (Position, F64),
    N: Fn(F64, usize) -> F32,
>(
    blob: GrayBlob<W, X, L, D, E, K, F, H, N>,
    image: Vec<F32>,
    raw: Seq<F32>,
    labels: Seq<u32>,
    w: int,
    h: int,
    config: CentroidExtractionConfig,
    comp: Component,
    list: Seq<Place>,
    local: Median,
    b: Blob,
    m: Measurement,
    o: Option<Centroid>,
) -> bool {
    &&& is_annulus_median(image@, labels, w, h, comp, local)
    &&& is_blob(
        b,
        list,
        image@,
        raw,
        w,
        h,
        config.saturation_level,
        (comp.bbox_min.0 as usize, comp.bbox_min.1 as usize),
    )
    &&& gray_measured(
        blob,
        image,
        w,
        h,
        local,
        (comp.bbox_min.0 as usize, comp.bbox_min.1 as usize),
        b,
        m,
    )
    &&& o == if keeps_measured(config, image@, w, h, b, m) {
        Some(m.centroid_of())
    } else {
        None
    }
}

proof fn lemma_outcome<
    W: Fn(F32, &Median) -> F64,
    X: Fn(F32, &Median) -> F64,
    L: Fn(F64, &Median) -> F32,
    D: Fn(Sums, F64, Place, Place) -> Sums,
    E: Fn(Sums, Place) -> Moments,
    K: Fn(F64, &Vec<F64>) -> F64,
    F: Fn(F64, &Vec<F64>, bool) -> Fit,
    H: Fn(Place, Fit, Position) -> (Position, F64),
    N: Fn(F64, usize) -> F32,
>(
    blob: GrayBlob<W, X, L, D, E, K, F, H, N>,
    image: Vec<F32>,
    raw: Seq<F32>,
    labels: Seq<u32>,
    w: int,
    h: int,
    config: CentroidExtractionConfig,
    comp: Component,
    v: int,
    o: Option<Centroid>,
) -> (list: Seq<Place>)
    requires
        blob_emits(blob, image, raw, labels, w, h, config, comp, v, o),
    ensures
        is_listing(list, label_set(labels, w, h, v)),
        if passes_gates(
            list,
            config.min_pixels,
            config.max_pixels,
            config.border_margin,
            w,
            h,
        ) {
            exists|local: Median, b: Blob, m: Measurement| #[trigger]
                outcome(blob, image, raw, labels, w, h, config, comp, list, local, b, m, o)
        } else {
            o is None
        },
{
    let list = choose|list: Seq<Place>|
        {
            &&& #[trigger] is_listing(list, label_set(labels, w, h, v))
            &&& if passes_gates(
                list,
                config.min_pixels,
                config.max_pixels,
                config.border_margin,
                w,
                h,
            ) {
                exists|local: Median, b: Blob, m: Measurement|
                    {
                        &&& is_annulus_median(image@, labels, w, h, comp, local)
                        &&& is_blob(
                            b,
                            list,
                            image@,
                            raw,
                            w,
                            h,
                            config.saturation_level,
                            (comp.bbox_min.0 as usize, comp.bbox_min.1 as usize),
                        )
                        &&& #[trigger] gray_measured(
                            blob,
                            image,
                            w,
                            h,
                            local,
                            (comp.bbox_min.0 as usize, comp.bbox_min.1 as usize),
                            b,
                            m,
                        )
                        &&& o == if keeps_measured(config, image@, w, h, b, m) {
                            Some(m.centroid_of())
                        } else {
                            None
                        }
                    }
            } else {
                o is None
            }
        };
    if passes_gates(
        list,
        config.min_pixels,
        config.max_pixels,
        config.border_margin,
        w,
        h,
    ) {
        let (local, b, m) = choose|local: Median, b: Blob, m: Measurement|
            {
                &&& is_annulus_median(image@, labels, w, h, comp, local)
                &&& is_blob(
                    b,
                    list,
                    image@,
                    raw,
                    w,
                    h,
                    config.saturation_level,
                    (comp.bbox_min.0 as usize, comp.bbox_min.1 as usize),
                )
                &&& #[trigger] gray_measured(
                    blob,
                    image,
                    w,
                    h,
                    local,
                    (comp.bbox_min.0 as usize, comp.bbox_min.1 as usize),
                    b,
                    m,
                )
                &&& o == if keeps_measured(config, image@, w, h, b, m) {
                    Some(m.centroid_of())
                } else {
                    None
                }
            };
        assert(outcome(blob, image, raw, labels, w, h, config, comp, list, local, b, m, o));
    }
    list
}

proof fn lemma_blob_emits_unique<
    W: Fn(F32, &Median) -> F64,
    X: Fn(F32, &Median) -> F64,
    L: Fn(F64, &Median) -> F32,
    D: Fn(Sums, F64, Place, Place) -> Sums,
    E: Fn(Sums, Place) -> Moments,
    K: Fn(F64, &Vec<F64>) -> F64,
    F: Fn(F64, &Vec<F64>, bool) -> Fit,
    H: Fn(Place, Fit, Position) -> (Position, F64),
    N: Fn(F64, usize) -> F32,
>(
    blob: GrayBlob<W, X, L, D, E, K, F, H, N>,
    i1: Vec<F32>,
    i2: Vec<F32>,
    raw: Seq<F32>,
    labels: Seq<u32>,
    w: int,
    h: int,
    config: CentroidExtractionConfig,
    comp: Component,
    v: int,
    a: Option<Centroid>,
    b: Option<Centroid>,
)
    requires
        gray_blob_steady(blob),
        i1@ == i2@,
        blob_emits(blob, i1, raw, labels, w, h, config, comp, v, a),
        blob_emits(blob, i2, raw, labels, w, h, config, comp, v, b),
    ensures
        a == b,
{
    let list = lemma_outcome(blob, i1, raw, labels, w, h, config, comp, v, a);
    let other = lemma_outcome(blob, i2, raw, labels, w, h, config, comp, v, b);
    law_listing_unique(list, other, label_set(labels, w, h, v));
    if passes_gates(
        list,
        config.min_pixels,
        config.max_pixels,
        config.border_margin,
        w,
        h,
    ) {
        let (l1, b1, m1) = choose|local: Median, c: Blob, m: Measurement| #[trigger]
            outcome(blob, i1, raw, labels, w, h, config, comp, list, local, c, m, a);
        let (l2, b2, m2) = choose|local: Median, c: Blob, m: Measurement| #[trigger]
            outcome(blob, i2, raw, labels, w, h, config, comp, list, local, c, m, b);
        lemma_annulus_unique(i1@, labels, w, h, comp, l1, l2);
        lemma_blob_unique(
            b1,
            b2,
            list,
            i1@,
            raw,
            w,
            h,
            config.saturation_level,
            (comp.bbox_min.0 as usize, comp.bbox_min.1 as usize),
        );
        lemma_gray_measured_unique(
            blob,
            i1,
            i2,
            w,
            h,
            l1,
            (comp.bbox_min.0 as usize, comp.bbox_min.1 as usize),
            b1,
            b2,
            m1,
            m2,
        );
    }
}

/// The settings agree in everything but the maximum number of centroids.
pub open spec fn gray_alike(c: CentroidExtractionConfig, d: CentroidExtractionConfig) -> bool {
    d == CentroidExtractionConfig { max_centroids: d.max_centroids, ..c }
}

/// Up to the cut, two runs of the default path are the same.
proof fn lemma_gray_runs_agree<
    A: Fn(F32, F32) -> F32,
    R: Fn(&Vec<Deviation>) -> F32,
    C: Fn(F32, F32, F32) -> F32,
    B: Fn(Corners, usize, usize) -> F32,
    S: Fn(F32, F32) -> F32,
    G: Fn(&Vec<F32>, usize, usize, F32) -> Vec<F32>,
    T: Fn(F32, F32, F32, Option<F32>) -> F32,
    W: Fn(F32, &Median) -> F64,
    X: Fn(F32, &Median) -> F64,
    L: Fn(F64, &Median) -> F32,
    D: Fn(Sums, F64, Place, Place) -> Sums,
    E: Fn(Sums, Place) -> Moments,
    K: Fn(F64, &Vec<F64>) -> F64,
    F: Fn(F64, &Vec<F64>, bool) -> Fit,
    H: Fn(Place, Fit, Position) -> (Position, F64),
    N: Fn(F64, usize) -> F32,
>(
    ar: Arithmetic<A, R, C, B, S, G, T, GrayBlob<W, X, L, D, E, K, F, H, N>>,
    gray: Seq<F32>,
    width: u32,
    height: u32,
    config: CentroidExtractionConfig,
    d: CentroidExtractionConfig,
    p1: Prepared,
    s1: Vec<F32>,
    l1: Seq<u32>,
    c1: Seq<Component>,
    all1: Seq<Centroid>,
    a: CentroidExtractionResult,
    p2: Prepared,
    s2: Vec<F32>,
    l2: Seq<u32>,
    c2: Seq<Component>,
    all2: Seq<Centroid>,
    b: CentroidExtractionResult,
)
    requires
        gray_steady(ar),
        gray_alike(config, d),
        gray_run(ar, gray, width, height, config, p1, s1, l1, c1, all1, a),
        gray_run(ar, gray, width, height, d, p2, s2, l2, c2, all2, b),
    ensures
        all1 == all2,
        same_statistics(a, b),
{
    let (w, h) = (width as int, height as int);
    let eight = config.use_8_connectivity;
    law_detection_leaves_photometry(ar, gray, w, h, config, d, p2, l2, c2, all2);
    lemma_prepared_unique(ar, gray, width, height, config, p1, p2);
    assert(s1@ == s2@);
    assert(a.threshold == b.threshold);
    let mask = above_mask(s1@, a.threshold);
    law_labelling_unique(
        mask,
        w,
        h,
        eight,
        l1,
        c1.len() as int,
        l2,
        c2.len() as int,
    );
    assert forall|k: int| 0 <= k < c1.len() implies #[trigger] c1[k] == c2[k] by {
        law_description_unique(c1[k], c2[k], l1, w, k + 1);
    }
    assert(c1 =~= c2);
    let o1 = choose|outs: Seq<Option<Centroid>>|
        {
            &&& #[trigger] blob_outcomes(ar.blob, p1.image, gray, l1, c1, w, h, config, outs)
            &&& all1 == emitted(outs)
        };
    let o2 = choose|outs: Seq<Option<Centroid>>|
        {
            &&& #[trigger] blob_outcomes(ar.blob, p2.image, gray, l1, c1, w, h, config, outs)
            &&& all2 == emitted(outs)
        };
    assert forall|k: int| 0 <= k < o1.len() implies #[trigger] o1[k] == o2[k] by {
        lemma_blob_emits_unique(
            ar.blob,
            p1.image,
            p2.image,
            gray,
            l1,
            w,
            h,
            config,
            c1[k],
            k + 1,
            o1[k],
            o2[k],
        );
    }
    assert(o1 =~= o2);
}

/// The default path gives one result: with steady arithmetic, equal pixels and
/// settings lead to equal results.
pub proof fn law_gray_result_determined<
    A: Fn(F32, F32) -> F32,
    R: Fn(&Vec<Deviation>) -> F32,
    C: Fn(F32, F32, F32) -> F32,
    B: Fn(Corners, usize, usize) -> F32,
    S: Fn(F32, F32) -> F32,
    G: Fn(&Vec<F32>, usize, usize, F32) -> Vec<F32>,
    T: Fn(F32, F32, F32, Option<F32>) -> F32,
    W: Fn(F32, &Median) -> F64,
    X: Fn(F32, &Median) -> F64,
    L: Fn(F64, &Median) -> F32,
    D: Fn(Sums, F64, Place, Place) -> Sums,
    E: Fn(Sums, Place) -> Moments,
    K: Fn(F64, &Vec<F64>) -> F64,
    F: Fn(F64, &Vec<F64>, bool) -> Fit,
    H: Fn(Place, Fit, Position) -> (Position, F64),
    N: Fn(F64, usize) -> F32,
>(
    ar: Arithmetic<A, R, C, B, S, G, T, GrayBlob<W, X, L, D, E, K, F, H, N>>,
    gray: Seq<F32>,
    width: u32,
    height: u32,
    config: CentroidExtractionConfig,
    a: CentroidExtractionResult,
    b: CentroidExtractionResult,
)
    requires
        gray_steady(ar),
        is_gray_result(ar, gray, width, height, config, a),
        is_gray_result(ar, gray, width, height, config, b),
    ensures
        same_result(a, b),
{
    let (p1, s1, l1, c1, all1) = choose|
        prepared: Prepared,
        source: Vec<F32>,
        labels: Seq<u32>,
        components: Seq<Component>,
        all: Seq<Centroid>,
    | #[trigger]
        gray_run(ar, gray, width, height, config, prepared, source, labels, components, all, a);
    let (p2, s2, l2, c2, all2) = choose|
        prepared: Prepared,
        source: Vec<F32>,
        labels: Seq<u32>,
        components: Seq<Component>,
        all: Seq<Centroid>,
    | #[trigger]
        gray_run(ar, gray, width, height, config, prepared, source, labels, components, all, b);
    lemma_gray_runs_agree(
        ar,
        gray,
        width,
        height,
        config,
        config,
        p1,
        s1,
        l1,
        c1,
        all1,
        a,
        p2,
        s2,
        l2,
        c2,
        all2,
        b,
    );
    lemma_brightest_unique(all1, config.max_centroids, a.centroids@, b.centroids@);
}

/// A maximum only cuts the default path's list: the brightest come first, the
/// result holds as many of them as the maximum lets, and nothing else changes.
pub proof fn law_gray_maximum_cuts<
    A: Fn(F32, F32) -> F32,
    R: Fn(&Vec<Deviation>) -> F32,
    C: Fn(F32, F32, F32) -> F32,
    B: Fn(Corners, usize, usize) -> F32,
    S: Fn(F32, F32) -> F32,
    G: Fn(&Vec<F32>, usize, usize, F32) -> Vec<F32>,
    T: Fn(F32, F32, F32, Option<F32>) -> F32,
    W: Fn(F32, &Median) -> F64,
    X: Fn(F32, &Median) -> F64,
    L: Fn(F64, &Median) -> F32,
    D: Fn(Sums, F64, Place, Place) -> Sums,
    E: Fn(Sums, Place) -> Moments,
    K: Fn(F64, &Vec<F64>) -> F64,
    F: Fn(F64, &Vec<F64>, bool) -> Fit,
    H: Fn(Place, Fit, Position) -> (Position, F64),
    N: Fn(F64, usize) -> F32,
>(
    ar: Arithmetic<A, R, C, B, S, G, T, GrayBlob<W, X, L, D, E, K, F, H, N>>,
    gray: Seq<F32>,
    width: u32,
    height: u32,
    c: CentroidExtractionConfig,
    full: CentroidExtractionResult,
    n: usize,
    cut: CentroidExtractionResult,
)
    requires
        gray_steady(ar),
        c.max_centroids is None,
        is_gray_result(ar, gray, width, height, c, full),
        is_gray_result(
            ar,
            gray,
            width,
            height,
            (CentroidExtractionConfig { max_centroids: Some(n), ..c }),
            cut,
        ),
    ensures
        cut.centroids@ == full.centroids@.take(kept(full.centroids@.len() as int, Some(n))),
        same_statistics(full, cut),
        in_bounds(full, None),
{
    let d = CentroidExtractionConfig { max_centroids: Some(n), ..c };
    let (p1, s1, l1, c1, all1) = choose|
        prepared: Prepared,
        source: Vec<F32>,
        labels: Seq<u32>,
        components: Seq<Component>,
        all: Seq<Centroid>,
    | #[trigger]
        gray_run(ar, gray, width, height, c, prepared, source, labels, components, all, full);
    let (p2, s2, l2, c2, all2) = choose|
        prepared: Prepared,
        source: Vec<F32>,
        labels: Seq<u32>,
        components: Seq<Component>,
        all: Seq<Centroid>,
    | #[trigger]
        gray_run(ar, gray, width, height, d, prepared, source, labels, components, all, cut);
    lemma_gray_runs_agree(
        ar,
        gray,
        width,
        height,
        c,
        d,
        p1,
        s1,
        l1,
        c1,
        all1,
        full,
        p2,
        s2,
        l2,
        c2,
        all2,
        cut,
    );
    law_maximum_cuts(all1, n, cut.centroids@, full.centroids@);
    law_gray_result_in_bounds(ar, gray, width, height, c, full);
}

proof fn lemma_emitted_len(outs: Seq<Option<Centroid>>)
    ensures
        emitted(outs).len() <= outs.len(),
    decreases outs.len(),
{
    if outs.len() > 0 {
        lemma_emitted_len(outs.drop_last());
    }
}

/// The centroids are brightest first, at most as many as asked for and as there
/// were blobs.
pub open spec fn in_bounds(res: CentroidExtractionResult, max: Option<usize>) -> bool {
    &&& res.centroids@.len() <= res.num_blobs_raw
    &&& max matches Some(m) ==> res.centroids@.len() <= m
    &&& forall|s: int, t: int|
        0 <= s < t < res.centroids@.len() ==> brightness(
            (#[trigger] res.centroids@[s]).mass,
            F32::zero(),
        ) >= brightness((#[trigger] res.centroids@[t]).mass, F32::zero())
}

proof fn lemma_in_bounds(
    outs: Seq<Option<Centroid>>,
    max: Option<usize>,
    res: CentroidExtractionResult,
)
    requires
        is_brightest_first(emitted(outs), max, res.centroids@),
        outs.len() == res.num_blobs_raw,
    ensures
        in_bounds(res, max),
{
    lemma_emitted_len(outs);
    let all = emitted(outs);
    assert forall|s: int, t: int| 0 <= s < t < res.centroids@.len() implies brightness(
        (#[trigger] res.centroids@[s]).mass,
        F32::zero(),
    ) >= brightness((#[trigger] res.centroids@[t]).mass, F32::zero()) by {
        law_brightest_first(all, max, res.centroids@, s, t);
    }
}

/// A result of the fast path is in bounds.
pub proof fn law_fast_result_in_bounds<
    R: Fn(&Vec<Deviation>) -> F32,
    T: Fn(Corners, usize, usize, F32, F32) -> F32,
    W: Fn(F32, Corners, usize, usize) -> F64,
    X: Fn(F32, Corners, usize, usize) -> F64,
    D: Fn(Sums, F64, Place, Place) -> Sums,
    E: Fn(Sums, Place) -> Moments,
    K: Fn(F64, &Vec<F64>) -> F64,
    F: Fn(F64, &Vec<F64>, bool) -> Fit,
    H: Fn(Place, Fit, Position) -> (Position, F64),
    N: Fn(F64, usize) -> F32,
    S: Fn(F32, F32, F32) -> F32,
>(
    ar: FastArithmetic<R, T, FastBlob<W, X, D, E, K, F, H, N>, S>,
    pixels: Seq<F32>,
    width: u32,
    height: u32,
    config: FastCentroidConfig,
    res: CentroidExtractionResult,
)
    requires
        is_fast_result(ar, pixels, width, height, config, res),
    ensures
        in_bounds(res, config.max_centroids),
{
    let (_, _, _, outs) = choose|
        grid: BackgroundGrid,
        thr: Cutoffs,
        regions: RunRegions,
        outs: Seq<Option<Centroid>>,
    | #[trigger]
        fast_run(ar, pixels, width, height, config, grid, thr, regions, outs, res);
    lemma_in_bounds(outs, config.max_centroids, res);
}

/// A result of the default path is in bounds.
pub proof fn law_gray_result_in_bounds<
    A: Fn(F32, F32) -> F32,
    R: Fn(&Vec<Deviation>) -> F32,
    C: Fn(F32, F32, F32) -> F32,
    B: Fn(Corners, usize, usize) -> F32,
    S: Fn(F32, F32) -> F32,
    G: Fn(&Vec<F32>, usize, usize, F32) -> Vec<F32>,
    T: Fn(F32, F32, F32, Option<F32>) -> F32,
    W: Fn(F32, &Median) -> F64,
    X: Fn(F32, &Median) -> F64,
    L: Fn(F64, &Median) -> F32,
    D: Fn(Sums, F64, Place, Place) -> Sums,
    E: Fn(Sums, Place) -> Moments,
    K: Fn(F64, &Vec<F64>) -> F64,
    F: Fn(F64, &Vec<F64>, bool) -> Fit,
    H: Fn(Place, Fit, Position) -> (Position, F64),
    N: Fn(F64, usize) -> F32,
>(
    ar: Arithmetic<A, R, C, B, S, G, T, GrayBlob<W, X, L, D, E, K, F, H, N>>,
    gray: Seq<F32>,
    width: u32,
    height: u32,
    config: CentroidExtractionConfig,
    res: CentroidExtractionResult,
)
    requires
        is_gray_result(ar, gray, width, height, config, res),
    ensures
        in_bounds(res, config.max_centroids),
{
    let (w, h) = (width as int, height as int);
    let (p, _, labels, components, all) = choose|
        prepared: Prepared,
        source: Vec<F32>,
        labels: Seq<u32>,
        components: Seq<Component>,
        all: Seq<Centroid>,
    | #[trigger]
        gray_run(ar, gray, width, height, config, prepared, source, labels, components, all, res);
    let outs = choose|outs: Seq<Option<Centroid>>|
        {
            &&& #[trigger] blob_outcomes(
                ar.blob,
                p.image,
                gray,
                labels,
                components,
                w,
                h,
                config,
                outs,
            )
            &&& all == emitted(outs)
        };
    lemma_in_bounds(outs, config.max_centroids, res);
}

} // verus!
