//! Results of the extractions as they are called.

use vstd::prelude::*;

use crate::background::{BackgroundGrid, Corners, Deviation};
use crate::blobs::Place;
use crate::ccl::{
    blob_outcomes, extract_centroids_from_raw, extract_from_gray, gray_run, is_gray_result,
    Arithmetic, GrayBlob, Prepared,
};
use crate::config::{
    CentroidExtractionConfig, CentroidExtractionResult, FastCentroidConfig, InputError,
};
use crate::fast::{emitted, extract_centroids_fast, fast_run, Cutoffs, FastArithmetic, FastBlob};
use crate::gray::{extract_centroids_from_image, is_grayscale, ImageData};
use crate::ieee::{F32, F64};
use crate::labels::Component;
use crate::laws::fast::lemma_emitted;
use crate::laws::shape::{law_result_holds_the_brightest, mass_rank};
use crate::measure::{brightnesses, is_brightest_first, kept, Centroid};
use crate::order::{is_descending, lemma_lists_all};
use crate::peak::{Fit, Moments, Position, Sums};
use crate::runs::RunRegions;
use crate::stats::Median;

verus! {

/// Centroids that were found, up to the maximum all of them, brightest first: one
/// that was left out is no brighter than any that was kept.
pub open spec fn holds_what_was_found(
    outs: Seq<Option<Centroid>>,
    max: Option<usize>,
    kept: Seq<Centroid>,
) -> bool {
    &&& forall|t: int| 0 <= t < kept.len() ==> outs.contains(Some(#[trigger] kept[t]))
    &&& max matches Some(m) ==> kept.len() <= m
    &&& (max matches Some(m) ==> kept.len() < m) ==> forall|k: int|
        0 <= k < outs.len() && (#[trigger] outs[k]) is Some ==> kept.contains(outs[k]->0)
    &&& (forall|k: int|
        0 <= k < outs.len() ==> ((#[trigger] outs[k]) matches Some(c) ==> (c.mass matches Some(m)
            ==> !m.nan()))) ==> {
        &&& forall|s: int, t: int|
            0 <= s < t < kept.len() ==> mass_rank(#[trigger] kept[s]) >= mass_rank(
                #[trigger] kept[t],
            )
        &&& forall|k: int, t: int|
            0 <= k < outs.len() && 0 <= t < kept.len() && (#[trigger] outs[k]) is Some
                && !kept.contains(outs[k]->0) ==> mass_rank(#[trigger] kept[t]) >= mass_rank(
                outs[k]->0,
            )
    }
}

proof fn lemma_holds_what_was_found(
    outs: Seq<Option<Centroid>>,
    max: Option<usize>,
    out: Seq<Centroid>,
)
    requires
        is_brightest_first(emitted(outs), max, out),
    ensures
        holds_what_was_found(outs, max, out),
{
    let all = emitted(outs);
    lemma_emitted(outs);
    let keys = brightnesses(all, F32::zero());
    let perm = choose|perm: Seq<usize>|
        {
            &&& #[trigger] is_descending(keys, perm)
            &&& out == Seq::new(
                kept(all.len() as int, max) as nat,
                |t: int| all[perm[t] as int],
            )
        };
    assert forall|t: int| 0 <= t < out.len() implies outs.contains(Some(#[trigger] out[t])) by {
        let j = perm[t] as int;
        assert(0 <= j < all.len());
        assert(out[t] == all[j]);
        let k = choose|k: int| 0 <= k < outs.len() && #[trigger] outs[k] == Some(all[j]);
        assert(outs[k] == Some(out[t]));
    }
    if max matches Some(m) ==> out.len() < m {
        assert forall|k: int| 0 <= k < outs.len() && (#[trigger] outs[k]) is Some implies {
            out.contains(outs[k]->0)
        } by {
            let i = choose|i: int| 0 <= i < all.len() && all[i] == outs[k]->0;
            lemma_lists_all(perm, all.len() as int, i);
            let u = choose|u: int| 0 <= u < perm.len() && perm[u] == i;
            assert(out[u] == all[i]);
        }
    }
    if forall|k: int|
        0 <= k < outs.len() ==> ((#[trigger] outs[k]) matches Some(c) ==> (c.mass matches Some(m)
            ==> !m.nan())) {
        assert forall|i: int| 0 <= i < all.len() implies ((#[trigger] all[i]).mass matches Some(m)
            ==> !m.nan()) by {
            let k = choose|k: int| 0 <= k < outs.len() && #[trigger] outs[k] == Some(all[i]);
            assert(outs[k] is Some);
        }
        law_result_holds_the_brightest(all, max, out);
        assert forall|k: int, t: int|
            0 <= k < outs.len() && 0 <= t < out.len() && (#[trigger] outs[k]) is Some
                && !out.contains(outs[k]->0) implies mass_rank(#[trigger] out[t]) >= mass_rank(
            outs[k]->0,
        ) by {
            let i = choose|i: int| 0 <= i < all.len() && all[i] == outs[k]->0;
            assert(all[i] == outs[k]->0);
        }
    }
}

/// A call of the fast extraction: which images and settings it takes, and that its
/// result is of that image, in its width and its height, and holds what was found
/// there.
pub proof fn law_fast_extraction<
    R: Fn(&Vec<Deviation>) -> F32,
    T: Fn(Corners, usize, usize, F32, F32) -> F32,
    W: Fn(F32, Corners, usize, usize) -> F64,
    X: Fn(F32, Corners, usize, usize) -> F64,
    D: Fn(Sums, F64, Place, Place) -> Sums,
    E: Fn(Sums, Place) -> Moments,
    K: Fn(F64, &Vec<F64>) -> F64,
    F: Fn(F64, &Vec<F64>, bool) -> Fit,
    H: Fn(Place, Fit, Position) -> (Position, F64),
    N: Fn(F64, usize) -> F32,
    S: Fn(F32, F32, F32) -> F32,
>(
    pixels: &[F32],
    width: u32,
    height: u32,
    config: FastCentroidConfig,
    ar: FastArithmetic<R, T, FastBlob<W, X, D, E, K, F, H, N>, S>,
    out: Result<CentroidExtractionResult, InputError>,
)
    requires
        call_ensures(
            extract_centroids_fast::<R, T, W, X, D, E, K, F, H, N, S>,
            (pixels, width, height, &config, ar),
            out,
        ),
        pixels@.len() <= usize::MAX,
    ensures
        out is Ok <==> {
            &&& pixels@.len() == width * height
            &&& 2 <= width
            &&& 2 <= height
            &&& config.bg_grid > 0
            &&& 0 < config.sigma_threshold.bits < 0x7f80_0000
        },
        out matches Ok(res) ==> exists|
            grid: BackgroundGrid,
            thr: Cutoffs,
            regions: RunRegions,
            outs: Seq<Option<Centroid>>,
        |
            {
                &&& #[trigger] fast_run(
                    ar,
                    pixels@,
                    width,
                    height,
                    config,
                    grid,
                    thr,
                    regions,
                    outs,
                    res,
                )
                &&& outs.len() == res.num_blobs_raw
                &&& holds_what_was_found(outs, config.max_centroids, res.centroids@)
            },
        out matches Ok(res) ==> res.image_width == width && res.image_height == height,
{
    if let Ok(res) = out {
        let (grid, thr, regions, outs) = choose|
            grid: BackgroundGrid,
            thr: Cutoffs,
            regions: RunRegions,
            outs: Seq<Option<Centroid>>,
        | #[trigger]
            fast_run(ar, pixels@, width, height, config, grid, thr, regions, outs, res);
        lemma_holds_what_was_found(outs, config.max_centroids, res.centroids@);
    }
}

/// A call of the default extraction, likewise.
pub proof fn law_raw_extraction<
    A: Fn(F32, F32) -> F32,
    R: Fn(&Vec<Deviation>) -> F32,
    C: Fn(F32, F32, F32) -> F32,
    B: Fn(Corners, usize, usize) -> F32 + Sync + Send,
    S: Fn(F32, F32) -> F32 + Sync + Send,
    G: Fn(&Vec<F32>, usize, usize, F32) -> Vec<F32>,
    T: Fn(F32, F32, F32, Option<F32>) -> F32,
    W: Fn(F32, &Median) -> F64,
    X: Fn(F32, &Median) -> F64,
    L: Fn(F64, &Median) -> F32,
    D: Fn(Sums, F64, Place, Place) -> Sums,
    E: Fn(Sums, Place) -> Moments,
    K: Fn(F64, &Vec<F64>) -> F64,
    F: Fn(F64, &Vec<F64>, bool) -> Fit,
    H: Fn(Place, Fit, Position) -> (Position, F64),
    N: Fn(F64, usize) -> F32,
>(
    pixels: &[F32],
    width: u32,
    height: u32,
    config: CentroidExtractionConfig,
    ar: Arithmetic<A, R, C, B, S, G, T, GrayBlob<W, X, L, D, E, K, F, H, N>>,
    out: Result<CentroidExtractionResult, InputError>,
)
    requires
        call_ensures(
            extract_centroids_from_raw::<A, R, C, B, S, G, T, W, X, L, D, E, K, F, H, N>,
            (pixels, width, height, &config, &ar),
            out,
        ),
    ensures
        out is Ok <==> pixels@.len() == width * height && {
            &&& 2 <= width
            &&& 2 <= height
            &&& (config.local_bg_block_size matches Some(n) ==> n > 0)
            &&& config.sigma_threshold.magnitude() < 0x7f80_0000
        },
        out matches Ok(res) ==> exists|
            prepared: Prepared,
            source: Vec<F32>,
            labels: Seq<u32>,
            components: Seq<Component>,
            all: Seq<Centroid>,
            outs: Seq<Option<Centroid>>,
        |
            {
                &&& #[trigger] gray_run(
                    ar,
                    pixels@,
                    width,
                    height,
                    config,
                    prepared,
                    source,
                    labels,
                    components,
                    all,
                    res,
                )
                &&& #[trigger] blob_outcomes(
                    ar.blob,
                    prepared.image,
                    pixels@,
                    labels,
                    components,
                    width as int,
                    height as int,
                    config,
                    outs,
                )
                &&& outs.len() == res.num_blobs_raw
                &&& holds_what_was_found(outs, config.max_centroids, res.centroids@)
            },
        out matches Ok(res) ==> res.image_width == width && res.image_height == height,
{
    if let Ok(res) = out {
        let (prepared, source, labels, components, all) = choose|
            prepared: Prepared,
            source: Vec<F32>,
            labels: Seq<u32>,
            components: Seq<Component>,
            all: Seq<Centroid>,
        | #[trigger]
            gray_run(
                ar,
                pixels@,
                width,
                height,
                config,
                prepared,
                source,
                labels,
                components,
                all,
                res,
            );
        let outs = choose|outs: Seq<Option<Centroid>>|
            {
                &&& #[trigger] blob_outcomes(
                    ar.blob,
                    prepared.image,
                    pixels@,
                    labels,
                    components,
                    width as int,
                    height as int,
                    config,
                    outs,
                )
                &&& all == emitted(outs)
            };
        lemma_holds_what_was_found(outs, config.max_centroids, res.centroids@);
    }
}

/// A call of the extraction from gray pixels, likewise.
pub proof fn law_gray_extraction<
    A: Fn(F32, F32) -> F32,
    R: Fn(&Vec<Deviation>) -> F32,
    C: Fn(F32, F32, F32) -> F32,
    B: Fn(Corners, usize, usize) -> F32 + Sync + Send,
    S: Fn(F32, F32) -> F32 + Sync + Send,
    G: Fn(&Vec<F32>, usize, usize, F32) -> Vec<F32>,
    T: Fn(F32, F32, F32, Option<F32>) -> F32,
    W: Fn(F32, &Median) -> F64,
    X: Fn(F32, &Median) -> F64,
    L: Fn(F64, &Median) -> F32,
    D: Fn(Sums, F64, Place, Place) -> Sums,
    E: Fn(Sums, Place) -> Moments,
    K: Fn(F64, &Vec<F64>) -> F64,
    F: Fn(F64, &Vec<F64>, bool) -> Fit,
    H: Fn(Place, Fit, Position) -> (Position, F64),
    N: Fn(F64, usize) -> F32,
>(
    gray: &[F32],
    width: u32,
    height: u32,
    config: CentroidExtractionConfig,
    ar: Arithmetic<A, R, C, B, S, G, T, GrayBlob<W, X, L, D, E, K, F, H, N>>,
    out: Result<CentroidExtractionResult, InputError>,
)
    requires
        call_ensures(
            extract_from_gray::<A, R, C, B, S, G, T, W, X, L, D, E, K, F, H, N>,
            (gray, width, height, &config, &ar),
            out,
        ),
    ensures
        out is Ok <==> {
            &&& 2 <= width
            &&& 2 <= height
            &&& (config.local_bg_block_size matches Some(n) ==> n > 0)
            &&& config.sigma_threshold.magnitude() < 0x7f80_0000
        },
        out matches Ok(res) ==> exists|
            prepared: Prepared,
            source: Vec<F32>,
            labels: Seq<u32>,
            components: Seq<Component>,
            all: Seq<Centroid>,
            outs: Seq<Option<Centroid>>,
        |
            {
                &&& #[trigger] gray_run(
                    ar,
                    gray@,
                    width,
                    height,
                    config,
                    prepared,
                    source,
                    labels,
                    components,
                    all,
                    res,
                )
                &&& #[trigger] blob_outcomes(
                    ar.blob,
                    prepared.image,
                    gray@,
                    labels,
                    components,
                    width as int,
                    height as int,
                    config,
                    outs,
                )
                &&& outs.len() == res.num_blobs_raw
                &&& holds_what_was_found(outs, config.max_centroids, res.centroids@)
            },
        out matches Ok(res) ==> res.image_width == width && res.image_height == height,
{
    if let Ok(res) = out {
        let (prepared, source, labels, components, all) = choose|
            prepared: Prepared,
            source: Vec<F32>,
            labels: Seq<u32>,
            components: Seq<Component>,
            all: Seq<Centroid>,
        | #[trigger]
            gray_run(
                ar,
                gray@,
                width,
                height,
                config,
                prepared,
                source,
                labels,
                components,
                all,
                res,
            );
        let outs = choose|outs: Seq<Option<Centroid>>|
            {
                &&& #[trigger] blob_outcomes(
                    ar.blob,
                    prepared.image,
                    gray@,
                    labels,
                    components,
                    width as int,
                    height as int,
                    config,
                    outs,
                )
                &&& all == emitted(outs)
            };
        lemma_holds_what_was_found(outs, config.max_centroids, res.centroids@);
    }
}

/// A call of the extraction from an image, likewise: its result is of the gray
/// values of that image.
pub proof fn law_image_extraction<
    O: Fn(F32, F32, F32) -> F32,
    A: Fn(F32, F32) -> F32,
    R: Fn(&Vec<Deviation>) -> F32,
    C: Fn(F32, F32, F32) -> F32,
    B: Fn(Corners, usize, usize) -> F32 + Sync + Send,
    S: Fn(F32, F32) -> F32 + Sync + Send,
    G: Fn(&Vec<F32>, usize, usize, F32) -> Vec<F32>,
    T: Fn(F32, F32, F32, Option<F32>) -> F32,
    W: Fn(F32, &Median) -> F64,
    X: Fn(F32, &Median) -> F64,
    L: Fn(F64, &Median) -> F32,
    D: Fn(Sums, F64, Place, Place) -> Sums,
    E: Fn(Sums, Place) -> Moments,
    K: Fn(F64, &Vec<F64>) -> F64,
    F: Fn(F64, &Vec<F64>, bool) -> Fit,
    H: Fn(Place, Fit, Position) -> (Position, F64),
    N: Fn(F64, usize) -> F32,
>(
    img: ImageData,
    config: CentroidExtractionConfig,
    weigh: O,
    ar: Arithmetic<A, R, C, B, S, G, T, GrayBlob<W, X, L, D, E, K, F, H, N>>,
    out: Result<CentroidExtractionResult, InputError>,
)
    requires
        call_ensures(
            extract_centroids_from_image::<O, A, R, C, B, S, G, T, W, X, L, D, E, K, F, H, N>,
            (&img, &config, &weigh, &ar),
            out,
        ),
    ensures
        out is Ok <==> {
            &&& 2 <= img.width
            &&& 2 <= img.height
            &&& (config.local_bg_block_size matches Some(n) ==> n > 0)
            &&& config.sigma_threshold.magnitude() < 0x7f80_0000
        },
        out matches Ok(res) ==> exists|gray: Seq<F32>| #[trigger]
            is_grayscale(weigh, img, gray) && exists|
            prepared: Prepared,
            source: Vec<F32>,
            labels: Seq<u32>,
            components: Seq<Component>,
            all: Seq<Centroid>,
            outs: Seq<Option<Centroid>>,
        |
            {
                &&& #[trigger] gray_run(
                    ar,
                    gray,
                    img.width,
                    img.height,
                    config,
                    prepared,
                    source,
                    labels,
                    components,
                    all,
                    res,
                )
                &&& #[trigger] blob_outcomes(
                    ar.blob,
                    prepared.image,
                    gray,
                    labels,
                    components,
                    img.width as int,
                    img.height as int,
                    config,
                    outs,
                )
                &&& outs.len() == res.num_blobs_raw
                &&& holds_what_was_found(outs, config.max_centroids, res.centroids@)
            },
        out matches Ok(res) ==> res.image_width == img.width && res.image_height == img.height,
{
    if let Ok(res) = out {
        let gray = choose|gray: Seq<F32>| #[trigger]
            is_grayscale(weigh, img, gray) && is_gray_result(
                ar,
                gray,
                img.width,
                img.height,
                config,
                res,
            );
        let (prepared, source, labels, components, all) = choose|
            prepared: Prepared,
            source: Vec<F32>,
            labels: Seq<u32>,
            components: Seq<Component>,
            all: Seq<Centroid>,
        | #[trigger]
            gray_run(
                ar,
                gray,
                img.width,
                img.height,
                config,
                prepared,
                source,
                labels,
                components,
                all,
                res,
            );
        let outs = choose|outs: Seq<Option<Centroid>>|
            {
                &&& #[trigger] blob_outcomes(
                    ar.blob,
                    prepared.image,
                    gray,
                    labels,
                    components,
                    img.width as int,
                    img.height as int,
                    config,
                    outs,
                )
                &&& all == emitted(outs)
            };
        lemma_holds_what_was_found(outs, config.max_centroids, res.centroids@);
    }
}

} // verus!
