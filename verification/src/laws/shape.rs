//! Sums over pixels, and where a measured blob is placed.

use vstd::prelude::*;

use crate::blobs::{is_listing, listed, px, raster_lt, ring_of, Place};
use crate::ieee::{law_absolute_is_distance_64, F32, F64};
use crate::measure::{brightnesses, is_brightest_first, kept, Blob, Centroid, Measurement};
use crate::order::{is_descending, lemma_lists_all};
use crate::peak::{
    all_positive, are_moments, is_measurement, is_placed, is_settled, is_sharpness_of,
    peak_sharpness, samples_ring, sums_to, Fit, Moments, Position, ShapeArithmetic, Sums, QUARTER,
};

verus! {

/// `f(0) + ... + f(n - 1)`.
pub open spec fn total(f: spec_fn(int) -> int, n: int) -> int
    decreases n,
{
    if n <= 0 {
        0
    } else {
        total(f, n - 1) + f(n - 1)
    }
}

/// Whatever adds up pixel by pixel is, in the sums, the total over the pixels:
/// each of them counts once, with its own weight and at its own place from the
/// origin. (Flux and weighted coordinates are such quantities.)
pub proof fn law_sums_are_totals<D: Fn(Sums, F64, Place, Place) -> Sums>(
    accumulate: D,
    weights: Seq<F64>,
    places: Seq<Place>,
    origin: Place,
    n: nat,
    s: Sums,
    quantity: spec_fn(Sums) -> int,
    share: spec_fn(F64, Place, Place) -> int,
)
    requires
        sums_to(accumulate, weights, places, origin, n, s),
        quantity(
            Sums {
                i: F64 { bits: 0 },
                x: F64 { bits: 0 },
                y: F64 { bits: 0 },
                xx: F64 { bits: 0 },
                yy: F64 { bits: 0 },
                xy: F64 { bits: 0 },
            },
        ) == 0,
        forall|t: Sums, v: F64, p: Place, o: Place, u: Sums| #[trigger]
            call_ensures(accumulate, (t, v, p, o), u) ==> quantity(u) == quantity(t) + share(
                v,
                p,
                o,
            ),
    ensures
        quantity(s) == total(|i: int| share(weights[i], places[i], origin), n as int),
    decreases n,
{
    let f = |i: int| share(weights[i], places[i], origin);
    if n > 0 {
        let t = choose|t: Sums|
            {
                &&& sums_to(accumulate, weights, places, origin, (n - 1) as nat, t)
                &&& #[trigger] call_ensures(
                    accumulate,
                    (t, weights[n - 1], places[n - 1], origin),
                    s,
                )
            };
        law_sums_are_totals(
            accumulate,
            weights,
            places,
            origin,
            (n - 1) as nat,
            t,
            quantity,
            share,
        );
        assert(total(f, n as int) == total(f, n - 1) + f(n - 1));
    }
}

/// A positive weight makes the flux grow, and a flux that has grown stays
/// positive: so some positive weights and no negative ones make a positive flux.
pub open spec fn flux_grows<
    D: Fn(Sums, F64, Place, Place) -> Sums,
    E: Fn(Sums, Place) -> Moments,
>(accumulate: D, moments: E) -> bool {
    &&& forall|t: Sums, v: F64, p: Place, o: Place, u: Sums| #[trigger]
        call_ensures(accumulate, (t, v, p, o), u) && !t.i.nan() && t.i.rank() >= 0 && !v.nan()
            && v.rank() > 0 ==> !u.i.nan() && u.i.rank() > 0
    &&& forall|s: Sums, o: Place, m: Moments| #[trigger]
        call_ensures(moments, (s, o), m) && !s.i.nan() && s.i.rank() > 0 ==> !m.flux.nan()
            && m.flux.rank() > 0
}

proof fn lemma_flux_grows<
    D: Fn(Sums, F64, Place, Place) -> Sums,
    E: Fn(Sums, Place) -> Moments,
>(
    accumulate: D,
    moments: E,
    weights: Seq<F64>,
    places: Seq<Place>,
    origin: Place,
    n: nat,
    s: Sums,
)
    requires
        flux_grows(accumulate, moments),
        sums_to(accumulate, weights, places, origin, n, s),
        forall|i: int| 0 <= i < n ==> !(#[trigger] weights[i]).nan() && weights[i].rank() > 0,
    ensures
        !s.i.nan(),
        s.i.rank() >= 0,
        n > 0 ==> s.i.rank() > 0,
    decreases n,
{
    if n > 0 {
        let t = choose|t: Sums|
            {
                &&& sums_to(accumulate, weights, places, origin, (n - 1) as nat, t)
                &&& #[trigger] call_ensures(
                    accumulate,
                    (t, weights[n - 1], places[n - 1], origin),
                    s,
                )
            };
        lemma_flux_grows(accumulate, moments, weights, places, origin, (n - 1) as nat, t);
        assert(!weights[n - 1].nan());
    }
}

/// Pixels with positive weights have a positive flux.
pub proof fn law_positive_weights_positive_flux<
    D: Fn(Sums, F64, Place, Place) -> Sums,
    E: Fn(Sums, Place) -> Moments,
>(
    accumulate: D,
    moments: E,
    weights: Seq<F64>,
    places: Seq<Place>,
    origin: Place,
    m: Moments,
)
    requires
        flux_grows(accumulate, moments),
        are_moments(accumulate, moments, weights, places, origin, m),
        weights.len() == places.len(),
        places.len() > 0,
        forall|i: int|
            0 <= i < weights.len() ==> !(#[trigger] weights[i]).nan() && weights[i].rank() > 0,
    ensures
        !m.flux.nan(),
        m.flux.rank() > 0,
{
    let s = choose|s: Sums|
        {
            &&& #[trigger] sums_to(accumulate, weights, places, origin, places.len(), s)
            &&& call_ensures(moments, (s, origin), m)
        };
    lemma_flux_grows(accumulate, moments, weights, places, origin, places.len(), s);
}

/// `pos` is the vertex of a quadratic through a peak and its ring, through the
/// logarithms where every value is positive: not a flat one, at most half a pixel
/// from the peak along either axis and less than half a pixel from the center of
/// mass.
pub open spec fn is_vertex<
    D: Fn(Sums, F64, Place, Place) -> Sums,
    E: Fn(Sums, Place) -> Moments,
    K: Fn(F64, &Vec<F64>) -> F64,
    F: Fn(F64, &Vec<F64>, bool) -> Fit,
    H: Fn(Place, Fit, Position) -> (Position, F64),
    N: Fn(F64, usize) -> F32,
>(
    shape: ShapeArithmetic<D, E, K, F, H, N>,
    at: Place,
    center: Position,
    peak: F64,
    ring: Vec<F64>,
    pos: Position,
) -> bool {
    exists|f: Fit, d: F64, positive: bool|
        {
            &&& #[trigger] call_ensures(shape.fit, (peak, &ring, positive), f)
            &&& #[trigger] call_ensures(shape.shift, (at, f, center), (pos, d))
            &&& positive <==> !peak.nan() && peak.rank() > 0 && forall|j: int|
                0 <= j < ring@.len() ==> !(#[trigger] ring@[j]).nan() && ring@[j].rank() > 0
            &&& f.determinant.nan() || f.determinant.rank() > 0x3ddb_7cdf_d9d7_bdbb
                || f.determinant.rank() < -0x3ddb_7cdf_d9d7_bdbb
            &&& !f.x.nan() && -0x3fe0_0000_0000_0000 <= f.x.rank() <= 0x3fe0_0000_0000_0000
            &&& !f.y.nan() && -0x3fe0_0000_0000_0000 <= f.y.rank() <= 0x3fe0_0000_0000_0000
            &&& !d.nan() && d.rank() < 0x3fd0_0000_0000_0000
        }
}

/// The centroid has the mass and the second moments `m`, and stands at `pos`, the
/// column counted from the middle of the width and the row from the middle of the
/// height.
pub open spec fn stands_at<
    D: Fn(Sums, F64, Place, Place) -> Sums,
    E: Fn(Sums, Place) -> Moments,
    K: Fn(F64, &Vec<F64>) -> F64,
    F: Fn(F64, &Vec<F64>, bool) -> Fit,
    H: Fn(Place, Fit, Position) -> (Position, F64),
    N: Fn(F64, usize) -> F32,
>(
    shape: ShapeArithmetic<D, E, K, F, H, N>,
    m: Moments,
    width: u32,
    height: u32,
    pos: Position,
    c: Centroid,
) -> bool {
    &&& c.mass == Some(m.mass)
    &&& c.cov == Some(m.cov)
    &&& call_ensures(shape.center, (pos.0, width as usize), c.x)
    &&& call_ensures(shape.center, (pos.1, height as usize), c.y)
}

/// The vertex at a peak does not count: the fit is too flat or its vertex more than
/// half a pixel away along an axis, or the vertex lies too far from the center of
/// mass.
pub open spec fn has_no_vertex<
    D: Fn(Sums, F64, Place, Place) -> Sums,
    E: Fn(Sums, Place) -> Moments,
    K: Fn(F64, &Vec<F64>) -> F64,
    F: Fn(F64, &Vec<F64>, bool) -> Fit,
    H: Fn(Place, Fit, Position) -> (Position, F64),
    N: Fn(F64, usize) -> F32,
>(
    shape: ShapeArithmetic<D, E, K, F, H, N>,
    at: Place,
    center: Position,
    peak: F64,
    ring: Vec<F64>,
) -> bool {
    exists|f: Fit, positive: bool|
        {
            &&& #[trigger] call_ensures(shape.fit, (peak, &ring, positive), f)
            &&& positive <==> !peak.nan() && peak.rank() > 0 && forall|j: int|
                0 <= j < ring@.len() ==> !(#[trigger] ring@[j]).nan() && ring@[j].rank() > 0
            &&& {
                ||| !f.determinant.nan() && -0x3ddb_7cdf_d9d7_bdbb <= f.determinant.rank()
                    <= 0x3ddb_7cdf_d9d7_bdbb
                ||| f.x.nan() || f.x.rank() < -0x3fe0_0000_0000_0000 || f.x.rank()
                    > 0x3fe0_0000_0000_0000
                ||| f.y.nan() || f.y.rank() < -0x3fe0_0000_0000_0000 || f.y.rank()
                    > 0x3fe0_0000_0000_0000
                ||| exists|q: Position, d: F64| #[trigger]
                    call_ensures(shape.shift, (at, f, center), (q, d)) && (d.nan() || d.rank()
                        >= 0x3fd0_0000_0000_0000)
            }
        }
}

/// `pos` is where a blob is: where its peak may be refined, at the vertex there or,
/// where that does not count, at the center of mass; else at the center of mass.
pub open spec fn is_position<
    D: Fn(Sums, F64, Place, Place) -> Sums,
    E: Fn(Sums, Place) -> Moments,
    K: Fn(F64, &Vec<F64>) -> F64,
    F: Fn(F64, &Vec<F64>, bool) -> Fit,
    H: Fn(Place, Fit, Position) -> (Position, F64),
    N: Fn(F64, usize) -> F32,
>(
    shape: ShapeArithmetic<D, E, K, F, H, N>,
    refined: bool,
    at: Place,
    center: Position,
    peak: F64,
    ring: Vec<F64>,
    pos: Position,
) -> bool {
    if refined {
        ||| is_vertex(shape, at, center, peak, ring, pos)
        ||| pos == center && has_no_vertex(shape, at, center, peak, ring)
    } else {
        pos == center
    }
}

/// A measured blob stands at its center of mass or, where it may be refined, at
/// the vertex at its peak, which is taken wherever it counts; x is counted from the
/// middle of the width, y from the middle of the height.
pub proof fn law_measured_blob_is_placed<
    D: Fn(Sums, F64, Place, Place) -> Sums,
    E: Fn(Sums, Place) -> Moments,
    K: Fn(F64, &Vec<F64>) -> F64,
    F: Fn(F64, &Vec<F64>, bool) -> Fit,
    H: Fn(Place, Fit, Position) -> (Position, F64),
    N: Fn(F64, usize) -> F32,
>(
    shape: ShapeArithmetic<D, E, K, F, H, N>,
    b: Blob,
    m: Moments,
    peak: F64,
    ring: Vec<F64>,
    width: u32,
    height: u32,
    floor: F32,
    out: Measurement,
)
    requires
        is_measurement(
            shape,
            b,
            m,
            peak,
            ring,
            width as usize,
            height as usize,
            floor,
            out,
        ),
    ensures
        exists|pos: Position|
            {
                &&& #[trigger] stands_at(shape, m, width, height, pos, out.centroid_of())
                &&& is_position(shape, b.refine, b.peak, m.center, peak, ring, pos)
            },
{
    let (w, h) = (width as usize, height as usize);
    let pos = choose|pos: Position| #[trigger]
        is_placed(shape, b, m, peak, ring, w, h, pos, out.x, out.y);
    assert(stands_at(shape, m, width, height, pos, out.centroid_of()));
    if b.refine {
        let positive = all_positive(peak, ring@);
        let f = choose|f: Fit|
            {
                &&& #[trigger] call_ensures(shape.fit, (peak, &ring, positive), f)
                &&& is_settled(shape.shift, b.peak, m.center, f, pos)
            };
        law_absolute_is_distance_64(f.determinant);
        law_absolute_is_distance_64(f.x);
        law_absolute_is_distance_64(f.y);
        assert(positive <==> !peak.nan() && peak.rank() > 0 && forall|j: int|
            0 <= j < ring@.len() ==> !(#[trigger] ring@[j]).nan() && ring@[j].rank() > 0);
        assert(call_ensures(shape.fit, (peak, &ring, positive), f));
        if f.is_reliable() {
            let (q, d) = choose|q: Position, d: F64| #[trigger]
                call_ensures(shape.shift, (b.peak, f, m.center), (q, d)) && pos == if (F64 {
                    bits: QUARTER,
                }).above(d) {
                    q
                } else {
                    m.center
                };
            assert(call_ensures(shape.shift, (b.peak, f, m.center), (q, d)));
            if (F64 { bits: QUARTER }).above(d) {
                assert(is_vertex(shape, b.peak, m.center, peak, ring, pos));
            } else {
                assert(has_no_vertex(shape, b.peak, m.center, peak, ring));
            }
        } else {
            assert(has_no_vertex(shape, b.peak, m.center, peak, ring));
        }
    }
}

/// The result holds centroids that were found and, up to the maximum, all of
/// them: where one was left out, none that was kept is fainter. From first to last
/// no mass grows; one that is missing counts as zero.
pub proof fn law_result_holds_the_brightest(
    all: Seq<Centroid>,
    max: Option<usize>,
    out: Seq<Centroid>,
)
    requires
        is_brightest_first(all, max, out),
        forall|i: int|
            0 <= i < all.len() ==> ((#[trigger] all[i]).mass matches Some(m) ==> !m.nan()),
    ensures
        forall|t: int| 0 <= t < out.len() ==> all.contains(#[trigger] out[t]),
        max is None ==> out.len() == all.len(),
        max matches Some(m) ==> out.len() <= m && (out.len() == m || out.len() == all.len()),
        forall|s: int, t: int|
            0 <= s < t < out.len() ==> mass_rank(#[trigger] out[s]) >= mass_rank(
                #[trigger] out[t],
            ),
        forall|i: int|
            0 <= i < all.len() ==> out.contains(#[trigger] all[i]) || forall|t: int|
                0 <= t < out.len() ==> mass_rank(#[trigger] out[t]) >= mass_rank(all[i]),
{
    let keys = brightnesses(all, F32::zero());
    let perm = choose|perm: Seq<usize>|
        {
            &&& #[trigger] is_descending(keys, perm)
            &&& out == Seq::new(
                kept(all.len() as int, max) as nat,
                |t: int| all[perm[t] as int],
            )
        };
    assert forall|t: int| 0 <= t < out.len() implies all.contains(#[trigger] out[t])
        && mass_rank(out[t]) == keys[perm[t] as int] by {
        assert(perm[t] < all.len());
        assert(all[perm[t] as int] == out[t]);
    }
    assert forall|s: int, t: int| 0 <= s < t < out.len() implies mass_rank(#[trigger] out[s])
        >= mass_rank(#[trigger] out[t]) by {
        assert(keys[perm[s] as int] >= keys[perm[t] as int]);
    }
    assert forall|i: int| 0 <= i < all.len() implies out.contains(#[trigger] all[i]) || forall|
        t: int,
    |
        0 <= t < out.len() ==> mass_rank(#[trigger] out[t]) >= mass_rank(all[i]) by {
        lemma_lists_all(perm, all.len() as int, i);
        let u = choose|u: int| 0 <= u < perm.len() && perm[u] == i;
        if u < out.len() {
            assert(out[u] == all[i]);
        } else {
            assert forall|t: int| 0 <= t < out.len() implies mass_rank(#[trigger] out[t])
                >= mass_rank(all[i]) by {
                assert(keys[perm[t] as int] >= keys[perm[u] as int]);
                assert(mass_rank(out[t]) == keys[perm[t] as int]);
            }
        }
    }
}

/// The place of a centroid's mass among numbers, a missing one counting as zero.
pub open spec fn mass_rank(c: Centroid) -> int {
    match c.mass {
        Some(m) => m.rank(),
        None => 0,
    }
}

/// The eight pixels around `at` that lie inside the image, row by row.
pub open spec fn surrounds(around: Seq<Place>, at: Place, w: int, h: int) -> bool {
    &&& forall|s: int, t: int|
        0 <= s < t < around.len() ==> (#[trigger] around[s]).0 < (#[trigger] around[t]).0 || (
        around[s].0 == around[t].0 && around[s].1 < around[t].1)
    &&& forall|r: usize, c: usize|
        around.contains((r, c)) <==> r < h && c < w && -1 <= r - at.0 <= 1 && -1 <= c - at.1 <= 1
            && (r, c) != at
}

/// A listing of the ring is what surrounds a place.
pub proof fn lemma_ring_surrounds(around: Seq<Place>, at: Place, w: int, h: int)
    requires
        is_listing(around, ring_of(at, w, h)),
    ensures
        surrounds(around, at, w, h),
{
    let set = ring_of(at, w, h);
    assert forall|s: int, t: int| 0 <= s < t < around.len() implies (#[trigger] around[s]).0 < (
    #[trigger] around[t]).0 || (around[s].0 == around[t].0 && around[s].1 < around[t].1) by {
        assert(raster_lt(px(around[s]), px(around[t])));
    }
    assert forall|r: usize, c: usize|
        around.contains((r, c)) <==> r < h && c < w && -1 <= r - at.0 <= 1 && -1 <= c - at.1 <= 1
            && (r, c) != at by {
        let p: Place = (r, c);
        if around.contains(p) {
            let t = choose|t: int| 0 <= t < around.len() && around[t] == p;
            assert(set(px(around[t])));
        }
        if r < h && c < w && -1 <= r - at.0 <= 1 && -1 <= c - at.1 <= 1 && p != at {
            assert(set(px(p)));
            assert(listed(around, px(p)));
            let t = choose|t: int| 0 <= t < around.len() && px(#[trigger] around[t]) == px(p);
            assert(around[t] == p);
        }
    }
}

/// `samples` are what `v` may answer for the steps down and right from a row and a
/// column to the places `around`, one by one.
pub open spec fn steps_have<V: Fn(isize, isize) -> F64>(
    v: V,
    around: Seq<Place>,
    row: usize,
    column: usize,
    samples: Vec<F64>,
) -> bool {
    &&& samples@.len() == around.len()
    &&& forall|i: int|
        0 <= i < around.len() ==> call_ensures(
            v,
            ((around[i].0 - row) as isize, (around[i].1 - column) as isize),
            #[trigger] samples@[i],
        )
}

/// The sharpness of a peak, given by its column and row in an image of a width and
/// a height, comes from the value at the peak and the values at the steps down and
/// right to the pixels around it, row by row; there is none where the peak is zero
/// or less or nothing is around it.
pub proof fn law_sharpness_is_of_the_pixels_around<
    V: Fn(isize, isize) -> F64,
    K: Fn(F64, &Vec<F64>) -> F64,
>(v: V, sharpness: K, column: usize, row: usize, width: usize, height: usize, r: Option<F64>)
    requires
        call_ensures(
            peak_sharpness::<V, K>,
            ((column, row), (width, height), &v, &sharpness),
            r,
        ),
    ensures
        exists|peak: F64, around: Seq<Place>, samples: Vec<F64>|
            {
                &&& #[trigger] call_ensures(v, (0isize, 0isize), peak)
                &&& #[trigger] surrounds(around, (row, column), width as int, height as int)
                &&& #[trigger] steps_have(v, around, row, column, samples)
                &&& match r {
                    None => around.len() == 0 || !peak.nan() && peak.rank() <= 0,
                    Some(s) => {
                        &&& around.len() > 0
                        &&& peak.nan() || peak.rank() > 0
                        &&& call_ensures(sharpness, (peak, &samples), s)
                    },
                }
            },
{
    let (peak, ring, samples) = choose|peak: F64, ring: Seq<Place>, samples: Vec<F64>|
        {
            &&& #[trigger] call_ensures(v, (0isize, 0isize), peak)
            &&& #[trigger] samples_ring(
                v,
                (row, column),
                width as int,
                height as int,
                ring,
                samples@,
            )
            &&& is_sharpness_of(sharpness, peak, samples, r)
        };
    lemma_ring_surrounds(ring, (row, column), width as int, height as int);
    assert(steps_have(v, ring, row, column, samples));
}

} // verus!
