//! Fast single-pass extraction: coarse subsampled background grid + one raster
//! sweep with run-length connected regions, one centroid per region.

use vstd::prelude::*;

use crate::background::{
    coarse_stride, is_block_grid, is_noise, lemma_pixel_index, noise_samples,
    staggered_lattice, BackgroundGrid, Corners, Deviation,
};
use crate::blobs::{
    at, inside, is_listing, listed, px, region_pixels, region_set, Place,
};
use crate::config::{
    check_fast, fast_error, CentroidExtractionResult, FastCentroidConfig, InputError,
};
use crate::connect::{LitSet, Pixel};
use crate::ieee::{F32, F64};
use crate::mask::{
    law_packed_row_reads_back, lit_columns, mask_bits, pack_lit_row, sweep_runs_mask, words_for,
};
use crate::measure::{
    is_blob, is_brightest_first, make_blob, sort_and_truncate_by_mass, Blob, Centroid, Measurement,
};
use crate::peak::{
    are_moments, gather_moments, is_measurement, measure_peak, shape_total, Fit, Moments,
    Position, ShapeArithmetic, Sums,
};
use crate::regions::{group_of, grouped, is_extent, law_extent_bounds, lemma_members, members};
use crate::runs::{
    clipped, covered, labels_suffice, law_size_suffices, lemma_run_at, run_at, RunRegions,
};
use crate::stats::is_midpoint;

verus! {

/// The cutoff of every pixel.
pub type Cutoffs = spec_fn(Pixel) -> F32;

/// `cutoff` may answer `v` for column `c` of row `r`, with noise and factor.
pub open spec fn cuts<T: Fn(Corners, usize, usize, F32, F32) -> F32>(
    cutoff: T,
    grid: BackgroundGrid,
    sigma: F32,
    factor: F32,
    r: usize,
    c: usize,
    v: F32,
) -> bool {
    call_ensures(cutoff, (grid.corners_at(c as int, r as int), c, r, sigma, factor), v)
}

/// The pixels of a `w` by `h` image that are finite and exceed their cutoff.
pub open spec fn lit_above(pixels: Seq<F32>, w: int, h: int, thr: Cutoffs) -> LitSet {
    |p: Pixel|
        {
            &&& 0 <= p.0 < h
            &&& 0 <= p.1 < w
            &&& pixels[p.0 * w + p.1].finite()
            &&& pixels[p.0 * w + p.1].above(thr(p))
        }
}

/// `thr` holds what `cutoff` may answer for each pixel.
pub open spec fn are_cutoffs<T: Fn(Corners, usize, usize, F32, F32) -> F32>(
    cutoff: T,
    grid: BackgroundGrid,
    sigma: F32,
    factor: F32,
    w: int,
    h: int,
    thr: Cutoffs,
) -> bool {
    forall|r: usize, c: usize|
        r < h && c < w ==> #[trigger] cuts(cutoff, grid, sigma, factor, r, c, thr((r as int, c as int)))
}

/// The cutoffs of one row.
fn cutoff_row<T: Fn(Corners, usize, usize, F32, F32) -> F32>(
    cutoff: &T,
    grid: &BackgroundGrid,
    sigma: F32,
    factor: F32,
    r: usize,
    w: usize,
) -> (row: Vec<F32>)
    requires
        grid.block > 0,
        grid.nx > 0,
        grid.ny > 0,
        grid.grid@.len() == grid.nx * grid.ny,
        forall|k: Corners, x: usize, y: usize, s: F32, f: F32| #[trigger]
            call_requires(*cutoff, (k, x, y, s, f)),
    ensures
        row@.len() == w,
        forall|c: usize|
            c < w ==> #[trigger] cuts(*cutoff, *grid, sigma, factor, r, c, row@[c as int]),
{
    let mut row: Vec<F32> = Vec::new();
    let mut c: usize = 0;
    while c < w
        invariant
            0 <= c <= w,
            row@.len() == c,
            grid.block > 0,
            grid.nx > 0,
            grid.ny > 0,
            grid.grid@.len() == grid.nx * grid.ny,
            forall|k: Corners, x: usize, y: usize, s: F32, f: F32| #[trigger]
                call_requires(*cutoff, (k, x, y, s, f)),
            forall|j: usize|
                j < c ==> #[trigger] cuts(*cutoff, *grid, sigma, factor, r, j, row@[j as int]),
        decreases w - c,
    {
        let k = grid.corners(c, r);
        row.push(cutoff(k, c, r, sigma, factor));
        c += 1;
    }
    row
}

/// Single raster sweep: which pixels exceed the background by enough, and the
/// connected regions they form.
pub fn detect_regions<T: Fn(Corners, usize, usize, F32, F32) -> F32>(
    pixels: &[F32],
    w: usize,
    h: usize,
    grid: &BackgroundGrid,
    sigma: F32,
    factor: F32,
    cutoff: &T,
) -> (out: RunRegions)
    requires
        grid.covers(w as int, h as int),
        pixels@.len() == w * h,
        labels_suffice(w as int, h as int),
        forall|k: Corners, x: usize, y: usize, s: F32, f: F32| #[trigger]
            call_requires(*cutoff, (k, x, y, s, f)),
    ensures
        exists|thr: Cutoffs|
            {
                &&& are_cutoffs(*cutoff, *grid, sigma, factor, w as int, h as int, thr)
                &&& out.regions_of(#[trigger] lit_above(pixels@, w as int, h as int, thr))
            },
{
    let len: usize = pixels.len();
    let wpr: usize = if w % 64 == 0 {
        w / 64
    } else {
        w / 64 + 1
    };
    let mut mask: Vec<u64> = Vec::new();
    let ghost mut rows: Seq<Seq<F32>> = Seq::empty();
    let mut r: usize = 0;
    while r < h
        invariant
            grid.covers(w as int, h as int),
            len == pixels@.len(),
            len == w * h,
            0 <= r <= h,
            wpr == words_for(w as int),
            mask@.len() == r * wpr,
            rows.len() == r,
            forall|k: Corners, x: usize, y: usize, s: F32, f: F32| #[trigger]
                call_requires(*cutoff, (k, x, y, s, f)),
            forall|i: usize, c: usize|
                i < r && c < w ==> #[trigger] cuts(
                    *cutoff,
                    *grid,
                    sigma,
                    factor,
                    i,
                    c,
                    rows[i as int][c as int],
                ),
            forall|i: int, c: int|
                0 <= i < r && 0 <= c < w ==> (#[trigger] mask_bits(mask@, wpr as int)((i, c))
                    <==> pixels@[i * w + c].finite() && pixels@[i * w + c].above(rows[i][c])),
        decreases h - r,
    {
        proof {
            lemma_pixel_index(w as int, h as int, r as int, w - 1);
        }
        let thr = cutoff_row(cutoff, grid, sigma, factor, r, w);
        let row = &pixels[r * w..r * w + w];
        let mut words: Vec<u64> = vec![0u64; wpr];
        pack_lit_row(row, &thr, &mut words);
        let ghost before = mask@;
        let ghost old_rows = rows;
        append_words(&mut mask, &words);
        proof {
            rows = rows.push(thr@);
            assert((r + 1) * wpr == r * wpr + wpr) by (nonlinear_arith);
            assert forall|i: usize, c: usize| i < r + 1 && c < w implies #[trigger] cuts(
                *cutoff,
                *grid,
                sigma,
                factor,
                i,
                c,
                rows[i as int][c as int],
            ) by {
                if i < r {
                    assert(cuts(*cutoff, *grid, sigma, factor, i, c, old_rows[i as int][c as int]));
                }
            }
            assert forall|i: int, c: int| 0 <= i < r + 1 && 0 <= c < w implies (
            #[trigger] mask_bits(mask@, wpr as int)((i, c)) <==> pixels@[i * w + c].finite()
                && pixels@[i * w + c].above(rows[i][c])) by {
                let word = i * wpr + c / 64;
                assert(0 <= c / 64 < wpr);
                if i < r {
                    assert(mask_bits(before, wpr as int)((i, c)) <==> pixels@[i * w + c].finite()
                        && pixels@[i * w + c].above(old_rows[i][c]));
                    assert(0 <= word < r * wpr) by (nonlinear_arith)
                        requires
                            0 <= i < r,
                            0 <= c / 64 < wpr,
                            word == i * wpr + c / 64,
                    ;
                    assert(mask@[word] == before[word]);
                } else {
                    law_packed_row_reads_back(words@, w as int, lit_columns(row@, thr@), c);
                    assert(mask@[word] == words@[c / 64]);
                    assert(row@[c] == pixels@[r * w + c]);
                }
            }
        }
        r += 1;
    }
    proof {
        assert(wpr * h == h * wpr) by (nonlinear_arith);
    }
    proof {
        law_size_suffices(mask_bits(mask@, wpr as int), w as int, h as int);
    }
    let out = sweep_runs_mask(w, h, wpr, &mask);
    proof {
        let thr: Cutoffs = |p: Pixel| rows[p.0][p.1];
        let lit = lit_above(pixels@, w as int, h as int, thr);
        let bits = clipped(mask_bits(mask@, wpr as int), w as int, h as int);
        assert forall|p: Pixel| #[trigger] covered(out.runs@)(p) <==> lit(p) by {
            assert(covered(out.runs@)(p) <==> bits(p));
            if 0 <= p.0 < h && 0 <= p.1 < w {
                assert(p == (p.0, p.1));
                assert(mask_bits(mask@, wpr as int)((p.0, p.1)) <==> pixels@[p.0 * w
                    + p.1].finite() && pixels@[p.0 * w + p.1].above(rows[p.0][p.1]));
            }
        }
        assert(out.regions_of(lit));
    }
    out
}

fn append_words(mask: &mut Vec<u64>, words: &Vec<u64>)
    ensures
        final(mask)@ == old(mask)@ + words@,
{
    let ghost start = mask@;
    let mut i: usize = 0;
    while i < words.len()
        invariant
            0 <= i <= words@.len(),
            mask@ == start + words@.take(i as int),
        decreases words@.len() - i,
    {
        mask.push(words[i]);
        assert(mask@ =~= start + words@.take(i + 1));
        i += 1;
    }
    assert(words@.take(words@.len() as int) =~= words@);
}

/// No listed pixel lies within `margin` of an edge of a `w` by `h` image.
pub open spec fn keeps_clear(list: Seq<Place>, margin: int, w: int, h: int) -> bool {
    forall|t: int|
        0 <= t < list.len() ==> {
            &&& margin <= (#[trigger] list[t]).0 < h - margin
            &&& margin <= list[t].1 < w - margin
        }
}

/// The gates on the pixels alone: enough of them, not too many, and none too
/// near the border.
pub open spec fn passes_gates(
    list: Seq<Place>,
    min_pixels: usize,
    max_pixels: usize,
    border_margin: u32,
    w: int,
    h: int,
) -> bool {
    &&& min_pixels <= list.len() <= max_pixels
    &&& keeps_clear(list, border_margin as int, w, h)
}

/// The arithmetic of a region.
pub struct FastBlob<W, X, D, E, K, F, H, N> {
    /// The weight of a pixel at a column and row: what exceeds the background,
    /// from the levels around it, and zero below.
    pub weight: W,
    /// A pixel less the background at a column and row, from the levels around
    /// it.
    pub excess: X,
    /// The arithmetic of moments and peak.
    pub shape: ShapeArithmetic<D, E, K, F, H, N>,
}

/// The arithmetic of a region answers whatever it is asked.
pub open spec fn blob_total<
    W: Fn(F32, Corners, usize, usize) -> F64,
    X: Fn(F32, Corners, usize, usize) -> F64,
    D: Fn(Sums, F64, Place, Place) -> Sums,
    E: Fn(Sums, Place) -> Moments,
    K: Fn(F64, &Vec<F64>) -> F64,
    F: Fn(F64, &Vec<F64>, bool) -> Fit,
    H: Fn(Place, Fit, Position) -> (Position, F64),
    N: Fn(F64, usize) -> F32,
>(blob: FastBlob<W, X, D, E, K, F, H, N>) -> bool {
    &&& forall|v: F32, c: Corners, x: usize, y: usize| #[trigger]
        call_requires(blob.weight, (v, c, x, y))
    &&& forall|v: F32, c: Corners, x: usize, y: usize| #[trigger]
        call_requires(blob.excess, (v, c, x, y))
    &&& shape_total(blob.shape)
}

/// `vals` holds what `excess` may answer for the pixels at the places, against
/// the background at `p`.
pub open spec fn are_excesses<X: Fn(F32, Corners, usize, usize) -> F64>(
    excess: X,
    grid: BackgroundGrid,
    pixels: Seq<F32>,
    w: int,
    p: Place,
    places: Seq<Place>,
    vals: Seq<F64>,
) -> bool {
    &&& vals.len() == places.len()
    &&& forall|i: int|
        0 <= i < vals.len() ==> call_ensures(
            excess,
            (at(pixels, w, places[i]), grid.corners_at(p.1 as int, p.0 as int), p.1, p.0),
            #[trigger] vals[i],
        )
}

/// `vals` holds what `weight` may answer for the pixels at the places, against
/// the background below them.
pub open spec fn are_weights<W: Fn(F32, Corners, usize, usize) -> F64>(
    weight: W,
    grid: BackgroundGrid,
    pixels: Seq<F32>,
    w: int,
    places: Seq<Place>,
    vals: Seq<F64>,
) -> bool {
    &&& vals.len() == places.len()
    &&& forall|i: int|
        0 <= i < vals.len() ==> call_ensures(
            weight,
            (
                at(pixels, w, places[i]),
                grid.corners_at(places[i].1 as int, places[i].0 as int),
                places[i].1,
                places[i].0,
            ),
            #[trigger] vals[i],
        )
}

/// The weights of a region's pixels.
fn weigh_region<W: Fn(F32, Corners, usize, usize) -> F64>(
    weight: &W,
    grid: &BackgroundGrid,
    pixels: &[F32],
    w: usize,
    h: usize,
    places: &Vec<Place>,
) -> (vals: Vec<F64>)
    requires
        grid.covers(w as int, h as int),
        pixels@.len() == w * h,
        inside(places@, w as int, h as int),
        forall|v: F32, c: Corners, x: usize, y: usize| #[trigger]
            call_requires(*weight, (v, c, x, y)),
    ensures
        are_weights(*weight, *grid, pixels@, w as int, places@, vals@),
{
    let len: usize = pixels.len();
    let mut vals: Vec<F64> = Vec::new();
    let mut i: usize = 0;
    while i < places.len()
        invariant
            0 <= i <= places@.len(),
            grid.covers(w as int, h as int),
            len == pixels@.len(),
            len == w * h,
            inside(places@, w as int, h as int),
            forall|v: F32, c: Corners, x: usize, y: usize| #[trigger]
                call_requires(*weight, (v, c, x, y)),
            vals@.len() == i,
            forall|k: int|
                0 <= k < i ==> call_ensures(
                    *weight,
                    (
                        at(pixels@, w as int, places@[k]),
                        grid.corners_at(places@[k].1 as int, places@[k].0 as int),
                        places@[k].1,
                        places@[k].0,
                    ),
                    #[trigger] vals@[k],
                ),
        decreases places@.len() - i,
    {
        let (r, c) = places[i];
        proof {
            lemma_pixel_index(w as int, h as int, r as int, c as int);
        }
        let v = weight(pixels[r * w + c], grid.corners(c, r), c, r);
        vals.push(v);
        i += 1;
    }
    vals
}

/// The moments of a region and the values at its peak and ring, above the
/// background at the peak.
pub open spec fn fast_values<
    W: Fn(F32, Corners, usize, usize) -> F64,
    X: Fn(F32, Corners, usize, usize) -> F64,
    D: Fn(Sums, F64, Place, Place) -> Sums,
    E: Fn(Sums, Place) -> Moments,
    K: Fn(F64, &Vec<F64>) -> F64,
    F: Fn(F64, &Vec<F64>, bool) -> Fit,
    H: Fn(Place, Fit, Position) -> (Position, F64),
    N: Fn(F64, usize) -> F32,
>(
    blob: FastBlob<W, X, D, E, K, F, H, N>,
    grid: BackgroundGrid,
    pixels: Seq<F32>,
    w: int,
    b: Blob,
    weights: Seq<F64>,
    moments: Moments,
    peak: F64,
    ring: Vec<F64>,
) -> bool {
    &&& are_weights(blob.weight, grid, pixels, w, b.pixels@, weights)
    &&& are_moments(
        blob.shape.accumulate,
        blob.shape.moments,
        weights,
        b.pixels@,
        (0usize, 0usize),
        moments,
    )
    &&& are_excesses(blob.excess, grid, pixels, w, b.peak, seq![b.peak], seq![peak])
    &&& are_excesses(blob.excess, grid, pixels, w, b.peak, b.ring@, ring@)
}

/// `m` is the measurement of a region.
pub open spec fn fast_measured<
    W: Fn(F32, Corners, usize, usize) -> F64,
    X: Fn(F32, Corners, usize, usize) -> F64,
    D: Fn(Sums, F64, Place, Place) -> Sums,
    E: Fn(Sums, Place) -> Moments,
    K: Fn(F64, &Vec<F64>) -> F64,
    F: Fn(F64, &Vec<F64>, bool) -> Fit,
    H: Fn(Place, Fit, Position) -> (Position, F64),
    N: Fn(F64, usize) -> F32,
>(
    blob: FastBlob<W, X, D, E, K, F, H, N>,
    grid: BackgroundGrid,
    pixels: Seq<F32>,
    w: int,
    h: int,
    b: Blob,
    m: Measurement,
) -> bool {
    exists|weights: Seq<F64>, moments: Moments, peak: F64, ring: Vec<F64>|
        {
            &&& #[trigger] fast_values(blob, grid, pixels, w, b, weights, moments, peak, ring)
            &&& is_measurement(
                blob.shape,
                b,
                moments,
                peak,
                ring,
                w as usize,
                h as usize,
                F32::zero(),
                m,
            )
        }
}

fn measure_region<
    W: Fn(F32, Corners, usize, usize) -> F64,
    X: Fn(F32, Corners, usize, usize) -> F64,
    D: Fn(Sums, F64, Place, Place) -> Sums,
    E: Fn(Sums, Place) -> Moments,
    K: Fn(F64, &Vec<F64>) -> F64,
    F: Fn(F64, &Vec<F64>, bool) -> Fit,
    H: Fn(Place, Fit, Position) -> (Position, F64),
    N: Fn(F64, usize) -> F32,
>(
    grid: &BackgroundGrid,
    pixels: &[F32],
    w: usize,
    h: usize,
    b: &Blob,
    blob: &FastBlob<W, X, D, E, K, F, H, N>,
) -> (m: Measurement)
    requires
        grid.covers(w as int, h as int),
        pixels@.len() == w * h,
        b.peak.0 < h,
        b.peak.1 < w,
        inside(b.pixels@, w as int, h as int),
        inside(b.ring@, w as int, h as int),
        blob_total(*blob),
    ensures
        fast_measured(*blob, *grid, pixels@, w as int, h as int, *b, m),
{
    let weights = weigh_region(&blob.weight, grid, pixels, w, h, &b.pixels);
    let moments = gather_moments(
        &blob.shape.accumulate,
        &blob.shape.moments,
        &weights,
        &b.pixels,
        (0, 0),
    );
    let (pr, pc) = b.peak;
    let corners = grid.corners(pc, pr);
    proof {
        lemma_pixel_index(w as int, h as int, pr as int, pc as int);
    }
    let len: usize = pixels.len();
    let peak = (blob.excess)(pixels[pr * w + pc], corners, pc, pr);
    let mut ring: Vec<F64> = Vec::new();
    let mut i: usize = 0;
    while i < b.ring.len()
        invariant
            0 <= i <= b.ring@.len(),
            len == pixels@.len(),
            len == w * h,
            b.peak == (pr, pc),
            corners == grid.corners_at(pc as int, pr as int),
            inside(b.ring@, w as int, h as int),
            blob_total(*blob),
            ring@.len() == i,
            forall|k: int|
                0 <= k < i ==> call_ensures(
                    blob.excess,
                    (at(pixels@, w as int, b.ring@[k]), corners, pc, pr),
                    #[trigger] ring@[k],
                ),
        decreases b.ring@.len() - i,
    {
        let q = b.ring[i];
        proof {
            lemma_pixel_index(w as int, h as int, q.0 as int, q.1 as int);
        }
        ring.push((blob.excess)(pixels[q.0 * w + q.1], corners, pc, pr));
        i += 1;
    }
    assert(fast_values(
        *blob,
        *grid,
        pixels@,
        w as int,
        *b,
        weights@,
        moments,
        peak,
        ring,
    ));
    measure_peak(&blob.shape, b, moments, peak, &ring, w, h, F32 { bits: 0 })
}

/// What becomes of the region with pixels `set`: nothing where it fails a gate
/// or its measurement is refused, else its centroid.
pub open spec fn emits<
    W: Fn(F32, Corners, usize, usize) -> F64,
    X: Fn(F32, Corners, usize, usize) -> F64,
    D: Fn(Sums, F64, Place, Place) -> Sums,
    E: Fn(Sums, Place) -> Moments,
    K: Fn(F64, &Vec<F64>) -> F64,
    F: Fn(F64, &Vec<F64>, bool) -> Fit,
    H: Fn(Place, Fit, Position) -> (Position, F64),
    N: Fn(F64, usize) -> F32,
>(
    blob: FastBlob<W, X, D, E, K, F, H, N>,
    grid: BackgroundGrid,
    pixels: Seq<F32>,
    w: int,
    h: int,
    config: FastCentroidConfig,
    set: LitSet,
    o: Option<Centroid>,
) -> bool {
    exists|list: Seq<Place>|
        {
            &&& #[trigger] is_listing(list, set)
            &&& if passes_gates(
                list,
                config.min_pixels,
                config.max_pixels,
                config.border_margin,
                w,
                h,
            ) {
                exists|b: Blob, m: Measurement|
                    {
                        &&& is_blob(
                            b,
                            list,
                            pixels,
                            pixels,
                            w,
                            h,
                            config.saturation_level,
                            (0usize, 0usize),
                        )
                        &&& #[trigger] fast_measured(blob, grid, pixels, w, h, b, m)
                        &&& o == if m.passes(config.max_elongation, config.max_sharpness) {
                            Some(m.centroid_of())
                        } else {
                            None
                        }
                    }
            } else {
                o is None
            }
        }
}

/// The centroids that came out, in order.
pub open spec fn emitted(outs: Seq<Option<Centroid>>) -> Seq<Centroid>
    decreases outs.len(),
{
    if outs.len() == 0 {
        Seq::empty()
    } else {
        let head = emitted(outs.drop_last());
        match outs.last() {
            Some(c) => head.push(c),
            None => head,
        }
    }
}

/// The border test on the bounding box is the test on every pixel.
proof fn lemma_clear(
    regions: RunRegions,
    idx: Seq<u32>,
    k: int,
    list: Seq<Place>,
    e: crate::regions::RegionExtent,
    margin: int,
    w: int,
    h: int,
)
    requires
        regions.wf(),
        idx.len() > 0,
        Seq::new(idx.len(), |t: int| idx[t] as int) == members(
            regions.region_of_run@,
            k,
            regions.region_of_run@.len() as int,
        ),
        is_listing(list, region_set(regions, k)),
        is_extent(e, regions.runs@, idx),
    ensures
        e.is_clear(margin, w, h) <==> keeps_clear(list, margin, w, h),
        e.min_row <= e.max_row,
        e.min_col <= e.max_col,
{
    let runs = regions.runs@;
    let ids = regions.region_of_run@;
    let n = ids.len() as int;
    let m = Seq::new(idx.len(), |t: int| idx[t] as int);
    let set = region_set(regions, k);
    lemma_members(ids, k, n);
    assert forall|u: int| 0 <= u < idx.len() implies (#[trigger] idx[u]) < runs.len()
        && ids[idx[u] as int] == k by {
        assert(m[u] == members(ids, k, n)[u]);
    }
    if e.is_clear(margin, w, h) {
        assert forall|t: int| 0 <= t < list.len() implies {
            &&& margin <= (#[trigger] list[t]).0 < h - margin
            &&& margin <= list[t].1 < w - margin
        } by {
            let p = px(list[t]);
            assert(set(p));
            let i = run_at(runs, p);
            assert(runs[i].has(p));
            assert(members(ids, k, n).contains(i));
            let u = choose|u: int| 0 <= u < m.len() && m[u] == i;
            law_extent_bounds(e, runs, idx, u, p);
        }
    }
    assert(runs[idx[0] as int].c0 <= runs[idx[0] as int].c1);
    law_extent_bounds(e, runs, idx, 0, runs[idx[0] as int].start());
    if keeps_clear(list, margin, w, h) {
        let a = choose|s: int| 0 <= s < idx.len() && e.min_row == runs[#[trigger] idx[s] as int].row;
        let b = choose|s: int| 0 <= s < idx.len() && e.max_row == runs[#[trigger] idx[s] as int].row;
        let c = choose|s: int| 0 <= s < idx.len() && e.min_col == runs[#[trigger] idx[s] as int].c0;
        let d = choose|s: int| 0 <= s < idx.len() && e.max_col == runs[#[trigger] idx[s] as int].c1;
        lemma_run_listed(regions, idx[a] as int, k, list);
        lemma_run_listed(regions, idx[b] as int, k, list);
        lemma_run_listed(regions, idx[c] as int, k, list);
        lemma_run_listed(regions, idx[d] as int, k, list);
    }
}

/// Both ends of a run of region `k` are listed.
proof fn lemma_run_listed(regions: RunRegions, i: int, k: int, list: Seq<Place>)
    requires
        regions.wf(),
        0 <= i < regions.runs@.len(),
        regions.region_of_run@[i] == k,
        is_listing(list, region_set(regions, k)),
    ensures
        listed(list, (regions.runs@[i].row as int, regions.runs@[i].c0 as int)),
        listed(list, (regions.runs@[i].row as int, regions.runs@[i].c1 as int)),
{
    let run = regions.runs@[i];
    let set = region_set(regions, k);
    assert(run.c0 <= run.c1);
    let p: Pixel = (run.row as int, run.c0 as int);
    let q: Pixel = (run.row as int, run.c1 as int);
    assert(regions.runs@[i].has(p) && regions.runs@[i].has(q));
    lemma_run_at(regions.runs@, i, p);
    lemma_run_at(regions.runs@, i, q);
    assert(covered(regions.runs@)(p) && covered(regions.runs@)(q));
    assert(set(p) && set(q));
}

/// Describe region `k` and, where it passes the gates, measure it.
fn emit_region<
    W: Fn(F32, Corners, usize, usize) -> F64,
    X: Fn(F32, Corners, usize, usize) -> F64,
    D: Fn(Sums, F64, Place, Place) -> Sums,
    E: Fn(Sums, Place) -> Moments,
    K: Fn(F64, &Vec<F64>) -> F64,
    F: Fn(F64, &Vec<F64>, bool) -> Fit,
    H: Fn(Place, Fit, Position) -> (Position, F64),
    N: Fn(F64, usize) -> F32,
>(
    regions: &RunRegions,
    region_runs: &[u32],
    k: usize,
    pixels: &[F32],
    w: usize,
    h: usize,
    grid: &BackgroundGrid,
    config: &FastCentroidConfig,
    blob: &FastBlob<W, X, D, E, K, F, H, N>,
) -> (o: Option<Centroid>)
    requires
        regions.wf(),
        k < regions.n_regions,
        w > 0,
        h > 0,
        pixels@.len() == w * h,
        forall|p: Pixel| #[trigger]
            covered(regions.runs@)(p) ==> 0 <= p.0 < h && 0 <= p.1 < w,
        Seq::new(region_runs@.len(), |t: int| region_runs@[t] as int) == members(
            regions.region_of_run@,
            k as int,
            regions.region_of_run@.len() as int,
        ),
        grid.covers(w as int, h as int),
        blob_total(*blob),
    ensures
        emits(
            *blob,
            *grid,
            pixels@,
            w as int,
            h as int,
            *config,
            region_set(*regions, k as int),
            o,
        ),
{
    let list = region_pixels(regions, region_runs, k);
    let ghost places = list@;
    let ghost set = region_set(*regions, k as int);
    proof {
        assert forall|t: int| 0 <= t < places.len() implies (#[trigger] places[t]).0 < h
            && places[t].1 < w by {
            assert(set(px(places[t])));
            assert(covered(regions.runs@)(px(places[t])));
        }
    }
    let npix: usize = list.len();
    if npix < config.min_pixels || npix > config.max_pixels {
        return None;
    }
    let margin: usize = config.border_margin as usize;
    proof {
        let ids = regions.region_of_run@;
        let n = ids.len() as int;
        lemma_members(ids, k as int, n);
        assert(crate::runs::appears(ids, k as int, n));
        let j = choose|j: int| 0 <= j < n && #[trigger] ids[j] == k;
        assert(members(ids, k as int, n).contains(j));
        assert forall|u: int| 0 <= u < region_runs@.len() implies (#[trigger] region_runs@[u])
            < regions.runs@.len() by {
            assert(Seq::new(region_runs@.len(), |t: int| region_runs@[t] as int)[u] == members(
                ids,
                k as int,
                n,
            )[u]);
        }
    }
    let e = regions.extent(region_runs);
    proof {
        lemma_clear(*regions, region_runs@, k as int, places, e, margin as int, w as int, h as int);
        lemma_clear(*regions, region_runs@, k as int, places, e, 0, w as int, h as int);
        assert(keeps_clear(places, 0, w as int, h as int));
        assert(region_runs@.len() > 0);
    }
    // Border gate (truncated PSFs bias the center of mass inward).
    if !e.clear_of_border(margin, w, h) {
        return None;
    }
    let b = make_blob(list, pixels, pixels, w, h, config.saturation_level, (0, 0));
    let m = measure_region(grid, pixels, w, h, &b, blob);
    let o = if m.accepted(config.max_elongation, config.max_sharpness) {
        Some(m.centroid())
    } else {
        None
    };
    assert(fast_measured(*blob, *grid, pixels@, w as int, h as int, b, m));
    o
}

/// A group of runs as a slice of the order.
proof fn lemma_group_slice(
    regions: RunRegions,
    offsets: Seq<u32>,
    order: Seq<u32>,
    k: int,
)
    requires
        regions.wf(),
        grouped(regions.region_of_run@, regions.n_regions as int, offsets, order),
        0 <= k < regions.n_regions,
    ensures
        0 <= offsets[k] <= offsets[k + 1] <= order.len(),
        Seq::new(
            (offsets[k + 1] - offsets[k]) as nat,
            |t: int| order.subrange(offsets[k] as int, offsets[k + 1] as int)[t] as int,
        ) == members(regions.region_of_run@, k, regions.region_of_run@.len() as int),
{
    assert(offsets[0] <= offsets[k] <= offsets[k + 1] <= offsets[regions.n_regions as int]);
    assert(group_of(offsets, order, k) == members(
        regions.region_of_run@,
        k,
        regions.region_of_run@.len() as int,
    ));
    assert(Seq::new(
        (offsets[k + 1] - offsets[k]) as nat,
        |t: int| order.subrange(offsets[k] as int, offsets[k + 1] as int)[t] as int,
    ) =~= group_of(offsets, order, k));
}

/// The arithmetic of the fast path.
pub struct FastArithmetic<R, T, Z, S> {
    /// Root mean square of numbers about their levels.
    pub rms: R,
    /// The cutoff of a pixel: the background from the levels around it, its
    /// column and row, plus the noise times a factor.
    pub cutoff: T,
    /// What there is to compute of a region.
    pub blob: Z,
    /// A level plus the noise times a factor.
    pub summary: S,
}

/// How a result of the fast path comes about: the grid and noise of the
/// pre-pass, the regions of the pixels above their cutoffs, one outcome for each
/// region, and the brightest of the centroids.
pub open spec fn fast_run<
    R: Fn(&Vec<Deviation>) -> F32,
    T: Fn(Corners, usize, usize, F32, F32) -> F32,
    W: Fn(F32, Corners, usize, usize) -> F64,
    X: Fn(F32, Corners, usize, usize) -> F64,
    D: Fn(Sums, F64, Place, Place) -> Sums,
    E: Fn(Sums, Place) -> Moments,
    K: Fn(F64, &Vec<F64>) -> F64,
    F: Fn(F64, &Vec<F64>, bool) -> Fit,
    H: Fn(Place, Fit, Position) -> (Position, F64),
    N: Fn(F64, usize) -> F32,
    S: Fn(F32, F32, F32) -> F32,
>(
    arithmetic: FastArithmetic<R, T, FastBlob<W, X, D, E, K, F, H, N>, S>,
    pixels: Seq<F32>,
    width: u32,
    height: u32,
    config: FastCentroidConfig,
    grid: BackgroundGrid,
    thr: Cutoffs,
    regions: RunRegions,
    outs: Seq<Option<Centroid>>,
    res: CentroidExtractionResult,
) -> bool {
    let FastArithmetic { rms, cutoff, blob, summary } = arithmetic;
    let (w, h) = (width as int, height as int);
    let block = config.bg_grid as int;
    let lattice = staggered_lattice(coarse_stride(block, 8));
    let sigma = res.background_sigma;
    let factor = config.sigma_threshold;
    &&& grid.covers(w, h)
    &&& grid.block == block
    &&& is_block_grid(pixels, w, h, block, lattice, grid.grid@)
    &&& is_noise(
        rms,
        noise_samples(pixels, w, h, block, lattice, grid.grid@, grid.grid@.len() as int),
        sigma,
    )
    &&& are_cutoffs(cutoff, grid, sigma, factor, w, h, thr)
    &&& regions.regions_of(lit_above(pixels, w, h, thr))
    &&& outs.len() == regions.n_regions
    &&& forall|k: int|
        0 <= k < outs.len() ==> emits(
            blob,
            grid,
            pixels,
            w,
            h,
            config,
            region_set(regions, k),
            #[trigger] outs[k],
        )
    &&& is_brightest_first(emitted(outs), config.max_centroids, res.centroids@)
    &&& res.image_width == width
    &&& res.image_height == height
    &&& is_midpoint(grid.grid@, res.background_mean)
    &&& call_ensures(summary, (res.background_mean, sigma, factor), res.threshold)
    &&& res.num_blobs_raw == regions.n_regions
}

/// `res` is a result of the fast path.
pub open spec fn is_fast_result<
    R: Fn(&Vec<Deviation>) -> F32,
    T: Fn(Corners, usize, usize, F32, F32) -> F32,
    W: Fn(F32, Corners, usize, usize) -> F64,
    X: Fn(F32, Corners, usize, usize) -> F64,
    D: Fn(Sums, F64, Place, Place) -> Sums,
    E: Fn(Sums, Place) -> Moments,
    K: Fn(F64, &Vec<F64>) -> F64,
    F: Fn(F64, &Vec<F64>, bool) -> Fit,
    H: Fn(Place, Fit, Position) -> (Position, F64),
    N: Fn(F64, usize) -> F32,
    S: Fn(F32, F32, F32) -> F32,
>(
    arithmetic: FastArithmetic<R, T, FastBlob<W, X, D, E, K, F, H, N>, S>,
    pixels: Seq<F32>,
    width: u32,
    height: u32,
    config: FastCentroidConfig,
    res: CentroidExtractionResult,
) -> bool {
    exists|
        grid: BackgroundGrid,
        thr: Cutoffs,
        regions: RunRegions,
        outs: Seq<Option<Centroid>>,
    | #[trigger]
        fast_run(arithmetic, pixels, width, height, config, grid, thr, regions, outs, res)
}

/// Fast single-pass centroid extraction: the "adequate star tracker" path.
///
/// A cheap subsampled pre-pass builds a coarse background grid, then a single
/// raster sweep thresholds against the interpolated background, groups lit
/// pixels into connected regions via run-length + union-find, and emits a
/// center-of-mass per region. The arithmetic is the caller's.
///
/// `background_mean` is the median of the coarse grid, `background_sigma` the
/// global noise, and `num_blobs_raw` the region count before any gate.
pub fn extract_centroids_fast<
    R: Fn(&Vec<Deviation>) -> F32,
    T: Fn(Corners, usize, usize, F32, F32) -> F32,
    W: Fn(F32, Corners, usize, usize) -> F64,
    X: Fn(F32, Corners, usize, usize) -> F64,
    D: Fn(Sums, F64, Place, Place) -> Sums,
    E: Fn(Sums, Place) -> Moments,
    K: Fn(F64, &Vec<F64>) -> F64,
    F: Fn(F64, &Vec<F64>, bool) -> Fit,
    H: Fn(Place, Fit, Position) -> (Position, F64),
    N: Fn(F64, usize) -> F32,
    S: Fn(F32, F32, F32) -> F32,
>(
    pixels: &[F32],
    width: u32,
    height: u32,
    config: &FastCentroidConfig,
    arithmetic: FastArithmetic<R, T, FastBlob<W, X, D, E, K, F, H, N>, S>,
) -> (out: Result<CentroidExtractionResult, InputError>)
    requires
        fast_error(pixels@.len() as usize, width, height, *config) is None ==> labels_suffice(
            width as int,
            height as int,
        ),
        forall|v: Vec<Deviation>| #[trigger] call_requires(arithmetic.rms, (&v,)),
        forall|k: Corners, x: usize, y: usize, s: F32, f: F32| #[trigger]
            call_requires(arithmetic.cutoff, (k, x, y, s, f)),
        blob_total(arithmetic.blob),
        forall|a: F32, b: F32, f: F32| #[trigger] call_requires(arithmetic.summary, (a, b, f)),
    ensures
        match fast_error(pixels@.len() as usize, width, height, *config) {
            Some(e) => out == Err::<CentroidExtractionResult, InputError>(e),
            None => out matches Ok(res) && is_fast_result(
                arithmetic,
                pixels@,
                width,
                height,
                *config,
                res,
            ),
        },
{
    match check_fast(pixels.len(), width, height, config) {
        Err(e) => {
            return Err(e);
        },
        Ok(_) => {},
    }
    let w: usize = width as usize;
    let h: usize = height as usize;
    let block: usize = config.bg_grid as usize;
    let factor = config.sigma_threshold;
    let stride: usize = if block / 8 > 1 {
        block / 8
    } else {
        1
    };
    // Pre-pass: coarse background grid + global noise (subsampled).
    let (grid, sigma) = BackgroundGrid::build(pixels, w, h, block, stride, &arithmetic.rms);
    // Single raster sweep via the shared run-length core.
    let regions = detect_regions(pixels, w, h, &grid, sigma, factor, &arithmetic.cutoff);
    let ghost thr = choose|thr: Cutoffs|
        {
            &&& are_cutoffs(arithmetic.cutoff, grid, sigma, factor, w as int, h as int, thr)
            &&& regions.regions_of(#[trigger] lit_above(pixels@, w as int, h as int, thr))
        };
    let ghost lit = lit_above(pixels@, w as int, h as int, thr);
    assert(regions.regions_of(lit));
    let (offsets, order) = regions.group_by_region();
    let mut centroids: Vec<Centroid> = Vec::new();
    let ghost mut outs: Seq<Option<Centroid>> = Seq::empty();
    let mut k: usize = 0;
    assert(emitted(outs) =~= centroids@);
    while k < regions.n_regions
        invariant
            0 <= k <= regions.n_regions,
            w > 0,
            h > 0,
            pixels@.len() == w * h,
            regions.regions_of(lit),
            lit == lit_above(pixels@, w as int, h as int, thr),
            grouped(regions.region_of_run@, regions.n_regions as int, offsets@, order@),
            grid.covers(w as int, h as int),
            blob_total(arithmetic.blob),
            outs.len() == k,
            centroids@ == emitted(outs),
            forall|i: int|
                0 <= i < outs.len() ==> emits(
                    arithmetic.blob,
                    grid,
                    pixels@,
                    w as int,
                    h as int,
                    *config,
                    region_set(regions, i),
                    #[trigger] outs[i],
                ),
        decreases regions.n_regions - k,
    {
        proof {
            lemma_group_slice(regions, offsets@, order@, k as int);
            assert forall|p: Pixel| #[trigger] covered(regions.runs@)(p) implies 0 <= p.0 < h && 0
                <= p.1 < w by {
                assert(lit(p));
            }
        }
        let region_runs = &order[offsets[k] as usize..offsets[k + 1] as usize];
        let o = emit_region(
            &regions,
            region_runs,
            k,
            pixels,
            w,
            h,
            &grid,
            config,
            &arithmetic.blob,
        );
        proof {
            let before = outs;
            outs = outs.push(o);
            assert(outs.drop_last() =~= before);
        }
        if let Some(c) = o {
            centroids.push(c);
        }
        k += 1;
    }
    sort_and_truncate_by_mass(&mut centroids, config.max_centroids);
    let background_mean = grid.level();
    let threshold = (arithmetic.summary)(background_mean, sigma, factor);
    let res = CentroidExtractionResult {
        centroids,
        image_width: width,
        image_height: height,
        background_mean,
        background_sigma: sigma,
        threshold,
        num_blobs_raw: regions.n_regions,
    };
    assert(fast_run(
        arithmetic,
        pixels@,
        width,
        height,
        *config,
        grid,
        thr,
        regions,
        outs,
        res,
    ));
    Ok(res)
}

} // verus!
