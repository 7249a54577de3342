//! Default connected-component-labeling extraction path: local background
//! subtraction, sigma-clipped global noise stats, optional matched filter,
//! threshold, labels, and one centroid per blob measured against the background
//! of an annulus around it.

use vstd::prelude::*;

use crate::background::{
    background_surface, coarse_stride, is_block_grid, is_surface, lemma_pixel_index,
    staggered_lattice, BackgroundGrid, Corners, Deviation, Edges,
};
use crate::blobs::{
    annulus_values, are_annulus_values, at, inside, is_listing, label_pixels, label_set, listed,
    neighbours, px, ring_of, Place,
};
use crate::config::{
    check_pixel_len, check_settings, settings_error, CentroidExtractionConfig,
    CentroidExtractionResult, DeblendMode, InputError,
};
use crate::fast::{emitted, keeps_clear, passes_gates};
use crate::ieee::{F32, F64};
use crate::labels::{
    above_mask, describes, index_of, is_labelling, label_above, labelled, lemma_index_of,
    lemma_pixel_of, pixel_of, Component,
};
use crate::measure::{
    is_blob, is_brightest_first, make_blob, sort_and_truncate_by_mass, Blob, Centroid, Measurement,
};
use crate::noise::{
    are_residuals, estimate_background, is_background, lattice_points, subsample_residuals,
};
use crate::par::{are_differences, clamp_all, clamped, map_subtract};
use crate::peak::{
    are_moments, gather_moments, is_measurement, measure_peak, shape_total, Fit, Moments,
    Position, ShapeArithmetic, Sums,
};
use crate::regions::RegionExtent;
use crate::stats::{is_median, median_f32, Median};

verus! {

/// The arithmetic of the default path.
pub struct Arithmetic<A, R, C, B, S, G, T, Z> {
    /// Average of two numbers.
    pub average: A,
    /// Root mean square of numbers about their levels.
    pub rms: R,
    /// A level less the noise times a factor.
    pub cut: C,
    /// The background at a column and row from the levels around it.
    pub blend: B,
    /// The first number less the second.
    pub subtract: S,
    /// The matched filter of a width on a row-major image with so many columns
    /// and rows.
    pub blur: G,
    /// The detection threshold: level plus noise times a factor, the noise
    /// reduced as a filter of the given width would.
    pub threshold: T,
    /// What there is to compute of a blob.
    pub blob: Z,
}

/// The width of the matched filter where it is on: finite and positive.
pub open spec fn filter_width(config: CentroidExtractionConfig) -> Option<F32> {
    match config.matched_filter_sigma {
        Some(s) => if s.finite() && s.above(F32::zero()) {
            Some(s)
        } else {
            None
        },
        None => None,
    }
}

/// A place is a strict maximum of its neighbourhood.
pub open spec fn is_local_max(image: Seq<F32>, w: int, h: int, p: Place) -> bool {
    forall|q: Place| #[trigger]
        ring_of(p, w, h)(px(q)) ==> at(image, w, p).above(at(image, w, q))
}

/// A distinct peak: a local maximum above the floor.
pub open spec fn is_distinct_peak(
    image: Seq<F32>,
    w: int,
    h: int,
    floor: F32,
    p: Place,
) -> bool {
    at(image, w, p).above(floor) && is_local_max(image, w, h, p)
}

/// More than two pixels apart.
pub open spec fn far_apart(p: Place, q: Place) -> bool {
    (p.0 - q.0) * (p.0 - q.0) + (p.1 - q.1) * (p.1 - q.1) > 4
}

/// Two distinct peaks of the listed pixels are more than two pixels apart.
pub open spec fn is_blend(image: Seq<F32>, w: int, h: int, floor: F32, list: Seq<Place>) -> bool {
    exists|s: int, t: int|
        {
            &&& 0 <= s < list.len()
            &&& 0 <= t < list.len()
            &&& is_distinct_peak(image, w, h, floor, #[trigger] list[s])
            &&& is_distinct_peak(image, w, h, floor, #[trigger] list[t])
            &&& far_apart(list[s], list[t])
        }
}

fn distinct_peak(image: &Vec<F32>, w: usize, h: usize, floor: F32, p: Place) -> (r: bool)
    requires
        image@.len() == w * h,
        p.0 < h,
        p.1 < w,
    ensures
        r == is_distinct_peak(image@, w as int, h as int, floor, p),
{
    let len: usize = image.len();
    proof {
        lemma_pixel_index(w as int, h as int, p.0 as int, p.1 as int);
    }
    let v = image[p.0 * w + p.1];
    if !v.gt(floor) {
        return false;
    }
    let ring = neighbours(p, w, h);
    let ghost set = ring_of(p, w as int, h as int);
    let mut i: usize = 0;
    while i < ring.len()
        invariant
            0 <= i <= ring@.len(),
            len == image@.len(),
            len == w * h,
            v == at(image@, w as int, p),
            set == ring_of(p, w as int, h as int),
            is_listing(ring@, set),
            inside(ring@, w as int, h as int),
            forall|k: int| 0 <= k < i ==> v.above(at(image@, w as int, #[trigger] ring@[k])),
        decreases ring@.len() - i,
    {
        let q = ring[i];
        proof {
            assert(ring@[i as int].0 < h);
            lemma_pixel_index(w as int, h as int, q.0 as int, q.1 as int);
        }
        if !v.gt(image[q.0 * w + q.1]) {
            assert(set(px(ring@[i as int])));
            return false;
        }
        i += 1;
    }
    proof {
        assert forall|q: Place| #[trigger] ring_of(p, w as int, h as int)(px(q)) implies at(
            image@,
            w as int,
            p,
        ).above(at(image@, w as int, q)) by {
            assert(set(px(q)));
            assert(listed(ring@, px(q)));
            let t = choose|t: int| 0 <= t < ring@.len() && px(#[trigger] ring@[t]) == px(q);
            assert(ring@[t] == q);
        }
    }
    true
}

fn distance_over_two(p: Place, q: Place) -> (r: bool)
    ensures
        r == far_apart(p, q),
{
    let dr: usize = if p.0 > q.0 {
        p.0 - q.0
    } else {
        q.0 - p.0
    };
    let dc: usize = if p.1 > q.1 {
        p.1 - q.1
    } else {
        q.1 - p.1
    };
    proof {
        let (a, b) = (p.0 - q.0, p.1 - q.1);
        let (x, y) = (dr as int, dc as int);
        assert(a * a == x * x) by (nonlinear_arith)
            requires
                a == x || a == -x,
        ;
        assert(b * b == y * y) by (nonlinear_arith)
            requires
                b == y || b == -y,
        ;
        if x > 2 || y > 2 || (x == 2 && y > 0) || (y == 2 && x > 0) {
            assert(x * x + y * y > 4) by (nonlinear_arith)
                requires
                    x > 2 || y > 2 || (x == 2 && y > 0) || (y == 2 && x > 0),
                    x >= 0,
                    y >= 0,
            ;
        } else {
            assert(x * x + y * y <= 4) by (nonlinear_arith)
                requires
                    (x == 2 && y == 0) || (x == 0 && y == 2) || (0 <= x <= 1 && 0 <= y <= 1),
            ;
        }
    }
    dr > 2 || dc > 2 || (dr == 2 && dc > 0) || (dc == 2 && dr > 0)
}

/// Whether a blob holds two peaks that are apart: a blended pair centroids to
/// a wrong midpoint.
pub fn find_blend(image: &Vec<F32>, w: usize, h: usize, floor: F32, list: &Vec<Place>) -> (r: bool)
    requires
        image@.len() == w * h,
        inside(list@, w as int, h as int),
    ensures
        r == is_blend(image@, w as int, h as int, floor, list@),
{
    let mut peaks: Vec<usize> = Vec::new();
    let mut t: usize = 0;
    while t < list.len()
        invariant
            0 <= t <= list@.len(),
            image@.len() == w * h,
            inside(list@, w as int, h as int),
            forall|k: int|
                0 <= k < peaks@.len() ==> {
                    &&& (#[trigger] peaks@[k]) < t
                    &&& is_distinct_peak(
                        image@,
                        w as int,
                        h as int,
                        floor,
                        list@[peaks@[k] as int],
                    )
                },
            forall|s: int|
                0 <= s < t && is_distinct_peak(
                    image@,
                    w as int,
                    h as int,
                    floor,
                    #[trigger] list@[s],
                ) ==> peaks@.contains(s as usize),
        decreases list@.len() - t,
    {
        assert(list@[t as int].0 < h);
        let ghost before = peaks@;
        if distinct_peak(image, w, h, floor, list[t]) {
            peaks.push(t);
            assert(peaks@[before.len() as int] == t);
        }
        proof {
            assert forall|s: int|
                0 <= s < t + 1 && is_distinct_peak(
                    image@,
                    w as int,
                    h as int,
                    floor,
                    #[trigger] list@[s],
                ) implies peaks@.contains(s as usize) by {
                if s < t {
                    assert(before.contains(s as usize));
                    let k = choose|k: int| 0 <= k < before.len() && before[k] == s as usize;
                    assert(peaks@[k] == s as usize);
                }
            }
        }
        t += 1;
    }
    let mut i: usize = 0;
    while i < peaks.len()
        invariant
            0 <= i <= peaks@.len(),
            forall|k: int|
                0 <= k < peaks@.len() ==> {
                    &&& (#[trigger] peaks@[k]) < list@.len()
                    &&& is_distinct_peak(
                        image@,
                        w as int,
                        h as int,
                        floor,
                        list@[peaks@[k] as int],
                    )
                },
            forall|a: int, b: int|
                0 <= a < i && 0 <= b < peaks@.len() ==> !far_apart(
                    list@[#[trigger] peaks@[a] as int],
                    list@[#[trigger] peaks@[b] as int],
                ),
        decreases peaks@.len() - i,
    {
        let mut j: usize = 0;
        while j < peaks.len()
            invariant
                0 <= i < peaks@.len(),
                0 <= j <= peaks@.len(),
                forall|k: int|
                    0 <= k < peaks@.len() ==> {
                        &&& (#[trigger] peaks@[k]) < list@.len()
                        &&& is_distinct_peak(
                            image@,
                            w as int,
                            h as int,
                            floor,
                            list@[peaks@[k] as int],
                        )
                    },
                forall|b: int|
                    0 <= b < j ==> !far_apart(
                        list@[peaks@[i as int] as int],
                        list@[#[trigger] peaks@[b] as int],
                    ),
            decreases peaks@.len() - j,
        {
            assert(peaks@[i as int] < list@.len() && peaks@[j as int] < list@.len());
            if distance_over_two(list[peaks[i]], list[peaks[j]]) {
                return true;
            }
            j += 1;
        }
        i += 1;
    }
    proof {
        if is_blend(image@, w as int, h as int, floor, list@) {
            let (s, t) = choose|s: int, t: int|
                {
                    &&& 0 <= s < list@.len()
                    &&& 0 <= t < list@.len()
                    &&& is_distinct_peak(
                        image@,
                        w as int,
                        h as int,
                        floor,
                        #[trigger] list@[s],
                    )
                    &&& is_distinct_peak(
                        image@,
                        w as int,
                        h as int,
                        floor,
                        #[trigger] list@[t],
                    )
                    &&& far_apart(list@[s], list@[t])
                };
            assert(peaks@.contains(s as usize) && peaks@.contains(t as usize));
            let a = choose|a: int| 0 <= a < peaks@.len() && peaks@[a] == s as usize;
            let b = choose|b: int| 0 <= b < peaks@.len() && peaks@[b] == t as usize;
            assert(!far_apart(list@[peaks@[a] as int], list@[peaks@[b] as int]));
        }
    }
    false
}

/// The arithmetic of a blob.
pub struct GrayBlob<W, X, L, D, E, K, F, H, N> {
    /// The weight of a pixel: what exceeds the background around a blob, and
    /// zero below.
    pub weight: W,
    /// A pixel less the background around a blob.
    pub excess: X,
    /// What a second peak has to exceed to count as one: three tenths of a peak
    /// above the background around it.
    pub floor: L,
    /// The arithmetic of moments and peak.
    pub shape: ShapeArithmetic<D, E, K, F, H, N>,
}

/// The arithmetic of a blob answers whatever it is asked.
pub open spec fn gray_blob_total<
    W: Fn(F32, &Median) -> F64,
    X: Fn(F32, &Median) -> F64,
    L: Fn(F64, &Median) -> F32,
    D: Fn(Sums, F64, Place, Place) -> Sums,
    E: Fn(Sums, Place) -> Moments,
    K: Fn(F64, &Vec<F64>) -> F64,
    F: Fn(F64, &Vec<F64>, bool) -> Fit,
    H: Fn(Place, Fit, Position) -> (Position, F64),
    N: Fn(F64, usize) -> F32,
>(blob: GrayBlob<W, X, L, D, E, K, F, H, N>) -> bool {
    &&& forall|v: F32, l: Median| #[trigger] call_requires(blob.weight, (v, &l))
    &&& forall|v: F32, l: Median| #[trigger] call_requires(blob.excess, (v, &l))
    &&& forall|v: F64, l: Median| #[trigger] call_requires(blob.floor, (v, &l))
    &&& shape_total(blob.shape)
}

/// `vals` holds what `excess` may answer for the pixels at the places.
pub open spec fn are_above<X: Fn(F32, &Median) -> F64>(
    excess: X,
    image: Seq<F32>,
    w: int,
    local: Median,
    places: Seq<Place>,
    vals: Seq<F64>,
) -> bool {
    &&& vals.len() == places.len()
    &&& forall|i: int|
        0 <= i < vals.len() ==> call_ensures(
            excess,
            (at(image, w, places[i]), &local),
            #[trigger] vals[i],
        )
}

/// The moments of a blob, the values at its peak and ring, above the background
/// around it, and the floor for other peaks.
pub open spec fn gray_values<
    W: Fn(F32, &Median) -> F64,
    X: Fn(F32, &Median) -> F64,
    L: Fn(F64, &Median) -> F32,
    D: Fn(Sums, F64, Place, Place) -> Sums,
    E: Fn(Sums, Place) -> Moments,
    K: Fn(F64, &Vec<F64>) -> F64,
    F: Fn(F64, &Vec<F64>, bool) -> Fit,
    H: Fn(Place, Fit, Position) -> (Position, F64),
    N: Fn(F64, usize) -> F32,
>(
    blob: GrayBlob<W, X, L, D, E, K, F, H, N>,
    image: Vec<F32>,
    w: int,
    local: Median,
    origin: Place,
    b: Blob,
    weights: Seq<F64>,
    moments: Moments,
    peak: F64,
    ring: Vec<F64>,
    floor: F32,
) -> bool {
    &&& are_above(blob.weight, image@, w, local, b.pixels@, weights)
    &&& are_moments(
        blob.shape.accumulate,
        blob.shape.moments,
        weights,
        b.pixels@,
        origin,
        moments,
    )
    &&& are_above(blob.excess, image@, w, local, seq![b.peak], seq![peak])
    &&& are_above(blob.excess, image@, w, local, b.ring@, ring@)
    &&& call_ensures(blob.floor, (peak, &local), floor)
}

/// `m` is the measurement of a blob, its coordinates summed from `origin`.
pub open spec fn gray_measured<
    W: Fn(F32, &Median) -> F64,
    X: Fn(F32, &Median) -> F64,
    L: Fn(F64, &Median) -> F32,
    D: Fn(Sums, F64, Place, Place) -> Sums,
    E: Fn(Sums, Place) -> Moments,
    K: Fn(F64, &Vec<F64>) -> F64,
    F: Fn(F64, &Vec<F64>, bool) -> Fit,
    H: Fn(Place, Fit, Position) -> (Position, F64),
    N: Fn(F64, usize) -> F32,
>(
    blob: GrayBlob<W, X, L, D, E, K, F, H, N>,
    image: Vec<F32>,
    w: int,
    h: int,
    local: Median,
    origin: Place,
    b: Blob,
    m: Measurement,
) -> bool {
    exists|weights: Seq<F64>, moments: Moments, peak: F64, ring: Vec<F64>, floor: F32|
        {
            &&& #[trigger] gray_values(
                blob,
                image,
                w,
                local,
                origin,
                b,
                weights,
                moments,
                peak,
                ring,
                floor,
            )
            &&& is_measurement(
                blob.shape,
                b,
                moments,
                peak,
                ring,
                w as usize,
                h as usize,
                floor,
                m,
            )
        }
}

/// What `excess` answers for the pixels at the places.
fn values_above<X: Fn(F32, &Median) -> F64>(
    excess: &X,
    image: &Vec<F32>,
    w: usize,
    h: usize,
    local: &Median,
    places: &Vec<Place>,
) -> (vals: Vec<F64>)
    requires
        image@.len() == w * h,
        inside(places@, w as int, h as int),
        forall|v: F32, l: Median| #[trigger] call_requires(*excess, (v, &l)),
    ensures
        are_above(*excess, image@, w as int, *local, places@, vals@),
{
    let len: usize = image.len();
    let mut vals: Vec<F64> = Vec::new();
    let mut i: usize = 0;
    while i < places.len()
        invariant
            0 <= i <= places@.len(),
            len == image@.len(),
            len == w * h,
            inside(places@, w as int, h as int),
            forall|v: F32, l: Median| #[trigger] call_requires(*excess, (v, &l)),
            vals@.len() == i,
            forall|k: int|
                0 <= k < i ==> call_ensures(
                    *excess,
                    (at(image@, w as int, places@[k]), local),
                    #[trigger] vals@[k],
                ),
        decreases places@.len() - i,
    {
        let q = places[i];
        proof {
            lemma_pixel_index(w as int, h as int, q.0 as int, q.1 as int);
        }
        let v = excess(image[q.0 * w + q.1], local);
        vals.push(v);
        i += 1;
    }
    vals
}

fn measure_labelled<
    W: Fn(F32, &Median) -> F64,
    X: Fn(F32, &Median) -> F64,
    L: Fn(F64, &Median) -> F32,
    D: Fn(Sums, F64, Place, Place) -> Sums,
    E: Fn(Sums, Place) -> Moments,
    K: Fn(F64, &Vec<F64>) -> F64,
    F: Fn(F64, &Vec<F64>, bool) -> Fit,
    H: Fn(Place, Fit, Position) -> (Position, F64),
    N: Fn(F64, usize) -> F32,
>(
    image: &Vec<F32>,
    w: usize,
    h: usize,
    local: &Median,
    origin: Place,
    b: &Blob,
    blob: &GrayBlob<W, X, L, D, E, K, F, H, N>,
) -> (m: Measurement)
    requires
        image@.len() == w * h,
        b.peak.0 < h,
        b.peak.1 < w,
        inside(b.pixels@, w as int, h as int),
        inside(b.ring@, w as int, h as int),
        gray_blob_total(*blob),
    ensures
        gray_measured(*blob, *image, w as int, h as int, *local, origin, *b, m),
{
    let weights = values_above(&blob.weight, image, w, h, local, &b.pixels);
    let moments = gather_moments(
        &blob.shape.accumulate,
        &blob.shape.moments,
        &weights,
        &b.pixels,
        origin,
    );
    let (pr, pc) = b.peak;
    proof {
        lemma_pixel_index(w as int, h as int, pr as int, pc as int);
    }
    let len: usize = image.len();
    let peak = (blob.excess)(image[pr * w + pc], local);
    let ring = values_above(&blob.excess, image, w, h, local, &b.ring);
    let floor = (blob.floor)(peak, local);
    assert(gray_values(
        *blob,
        *image,
        w as int,
        *local,
        origin,
        *b,
        weights@,
        moments,
        peak,
        ring,
        floor,
    ));
    measure_peak(&blob.shape, b, moments, peak, &ring, w, h, floor)
}

/// What becomes of the component labelled `v`: nothing where it fails a gate,
/// its measurement is refused, or it is a blend that is to be dropped; else its
/// centroid. It is measured against the median of the background pixels around
/// it, its saturation is taken from the raw image.
pub open spec fn blob_emits<
    W: Fn(F32, &Median) -> F64,
    X: Fn(F32, &Median) -> F64,
    L: Fn(F64, &Median) -> F32,
    D: Fn(Sums, F64, Place, Place) -> Sums,
    E: Fn(Sums, Place) -> Moments,
    K: Fn(F64, &Vec<F64>) -> F64,
    F: Fn(F64, &Vec<F64>, bool) -> Fit,
    H: Fn(Place, Fit, Position) -> (Position, F64),
    N: Fn(F64, usize) -> F32,
>(
    blob: GrayBlob<W, X, L, D, E, K, F, H, N>,
    image: Vec<F32>,
    raw: Seq<F32>,
    labels: Seq<u32>,
    w: int,
    h: int,
    config: CentroidExtractionConfig,
    comp: Component,
    v: int,
    o: Option<Centroid>,
) -> bool {
    exists|list: Seq<Place>|
        {
            &&& #[trigger] is_listing(list, label_set(labels, w, h, v))
            &&& if passes_gates(
                list,
                config.min_pixels,
                config.max_pixels,
                config.border_margin,
                w,
                h,
            ) {
                exists|local: Median, b: Blob, m: Measurement|
                    {
                        &&& is_annulus_median(image@, labels, w, h, comp, local)
                        &&& is_blob(
                            b,
                            list,
                            image@,
                            raw,
                            w,
                            h,
                            config.saturation_level,
                            (comp.bbox_min.0 as usize, comp.bbox_min.1 as usize),
                        )
                        &&& #[trigger] gray_measured(
                            blob,
                            image,
                            w,
                            h,
                            local,
                            (comp.bbox_min.0 as usize, comp.bbox_min.1 as usize),
                            b,
                            m,
                        )
                        &&& o == if keeps_measured(config, image@, w, h, b, m) {
                            Some(m.centroid_of())
                        } else {
                            None
                        }
                    }
            } else {
                o is None
            }
        }
}

/// `local` is the median of the background pixels around a component.
pub open spec fn is_annulus_median(
    image: Seq<F32>,
    labels: Seq<u32>,
    w: int,
    h: int,
    comp: Component,
    local: Median,
) -> bool {
    exists|vals: Seq<F32>| #[trigger]
        are_annulus_values(image, labels, w, h, comp, vals) && is_median(vals, local)
}

/// The measured blob stays: its measurement passes, and it is not a blend that
/// is to be dropped. Saturated blobs count as single.
pub open spec fn keeps_measured(
    config: CentroidExtractionConfig,
    image: Seq<F32>,
    w: int,
    h: int,
    b: Blob,
    m: Measurement,
) -> bool {
    &&& m.passes(config.max_elongation, config.max_sharpness)
    &&& config.deblend == DeblendMode::Reject && !b.saturated ==> !is_blend(
        image,
        w,
        h,
        m.peak_floor,
        b.pixels@,
    )
}

/// The border test on a component's box is the test on every pixel.
proof fn lemma_box_clear(
    comp: Component,
    labels: Seq<u32>,
    w: int,
    h: int,
    v: int,
    list: Seq<Place>,
    margin: int,
)
    requires
        0 < w,
        labels.len() == w * h,
        describes(comp, labels, w, v),
        is_listing(list, label_set(labels, w, h, v)),
    ensures
        ({
            &&& comp.bbox_min.0 >= margin
            &&& comp.bbox_min.1 >= margin
            &&& comp.bbox_max.0 < h - margin
            &&& comp.bbox_max.1 < w - margin
        }) <==> keeps_clear(list, margin, w, h),
{
    let set = label_set(labels, w, h, v);
    assert forall|t: int| 0 <= t < list.len() implies {
        &&& comp.bbox_min.0 <= (#[trigger] list[t]).0 <= comp.bbox_max.0
        &&& comp.bbox_min.1 <= list[t].1 <= comp.bbox_max.1
    } by {
        let p = px(list[t]);
        assert(set(p));
        lemma_index_of(w, h, p);
        assert(labelled(labels, index_of(w, p), v));
    }
    if keeps_clear(list, margin, w, h) {
        let a = choose|i: int| #[trigger]
            labelled(labels, i, v) && pixel_of(w, i).0 == comp.bbox_min.0;
        let b = choose|i: int| #[trigger]
            labelled(labels, i, v) && pixel_of(w, i).0 == comp.bbox_max.0;
        let c = choose|i: int| #[trigger]
            labelled(labels, i, v) && pixel_of(w, i).1 == comp.bbox_min.1;
        let d = choose|i: int| #[trigger]
            labelled(labels, i, v) && pixel_of(w, i).1 == comp.bbox_max.1;
        lemma_label_listed(labels, w, h, v, list, a);
        lemma_label_listed(labels, w, h, v, list, b);
        lemma_label_listed(labels, w, h, v, list, c);
        lemma_label_listed(labels, w, h, v, list, d);
    }
}

proof fn lemma_label_listed(
    labels: Seq<u32>,
    w: int,
    h: int,
    v: int,
    list: Seq<Place>,
    i: int,
)
    requires
        0 < w,
        labels.len() == w * h,
        labelled(labels, i, v),
        is_listing(list, label_set(labels, w, h, v)),
    ensures
        listed(list, pixel_of(w, i)),
{
    lemma_pixel_of(w, h, i);
    let set = label_set(labels, w, h, v);
    assert(set(pixel_of(w, i)));
}

/// Measure one labelled component.
fn emit_blob<
    W: Fn(F32, &Median) -> F64,
    X: Fn(F32, &Median) -> F64,
    L: Fn(F64, &Median) -> F32,
    D: Fn(Sums, F64, Place, Place) -> Sums,
    E: Fn(Sums, Place) -> Moments,
    K: Fn(F64, &Vec<F64>) -> F64,
    F: Fn(F64, &Vec<F64>, bool) -> Fit,
    H: Fn(Place, Fit, Position) -> (Position, F64),
    N: Fn(F64, usize) -> F32,
>(
    image: &Vec<F32>,
    raw: &[F32],
    labels: &Vec<u32>,
    w: usize,
    h: usize,
    config: &CentroidExtractionConfig,
    comp: &Component,
    v: u32,
    blob: &GrayBlob<W, X, L, D, E, K, F, H, N>,
) -> (o: Option<Centroid>)
    requires
        w > 0,
        h > 0,
        image@.len() == w * h,
        raw@.len() == w * h,
        labels@.len() == w * h,
        describes(*comp, labels@, w as int, v as int),
        gray_blob_total(*blob),
    ensures
        blob_emits(
            *blob,
            *image,
            raw@,
            labels@,
            w as int,
            h as int,
            *config,
            *comp,
            v as int,
            o,
        ),
{
    let list = label_pixels(labels, w, h, comp, v);
    let ghost places = list@;
    let pixel_count: usize = comp.area as usize;
    if pixel_count < config.min_pixels || pixel_count > config.max_pixels {
        return None;
    }
    let margin: usize = config.border_margin as usize;
    let e = RegionExtent {
        npix: pixel_count,
        min_row: comp.bbox_min.0 as usize,
        max_row: comp.bbox_max.0 as usize,
        min_col: comp.bbox_min.1 as usize,
        max_col: comp.bbox_max.1 as usize,
    };
    proof {
        lemma_box_clear(
            *comp,
            labels@,
            w as int,
            h as int,
            v as int,
            places,
            margin as int,
        );
        lemma_box_clear(*comp, labels@, w as int, h as int, v as int, places, 0);
    }
    if !e.clear_of_border(margin, w, h) {
        return None;
    }
    // Per-blob local background from the annulus.
    let vals = annulus_values(image, labels, w, h, comp);
    let local = median_f32(&vals);
    assert(is_annulus_median(image@, labels@, w as int, h as int, *comp, local));
    let fallback: Place = (comp.bbox_min.0 as usize, comp.bbox_min.1 as usize);
    let b = make_blob(list, image, raw, w, h, config.saturation_level, fallback);
    let m = measure_labelled(image, w, h, &local, fallback, &b, blob);
    let mut keep: bool = m.accepted(config.max_elongation, config.max_sharpness);
    if keep && config.deblend == DeblendMode::Reject && !b.saturated {
        keep = !find_blend(image, w, h, m.peak_floor, &b.pixels);
    }
    assert(keep == keeps_measured(*config, image@, w as int, h as int, b, m));
    let o = if keep {
        Some(m.centroid())
    } else {
        None
    };
    assert(gray_measured(*blob, *image, w as int, h as int, local, fallback, b, m));
    o
}

/// Compute intensity-weighted centroids for each labeled blob.
///
/// For each blob that passes the gates on its size and place:
/// 1. A local background is estimated from the median of non-blob pixels in a
///    5-pixel annulus around the blob's bounding box.
/// 2. The blob is measured against it, and the peak pixel tracked.
/// 3. Blobs that are too elongated or too sharp are rejected as non-stellar.
pub fn compute_blob_centroids<
    W: Fn(F32, &Median) -> F64,
    X: Fn(F32, &Median) -> F64,
    L: Fn(F64, &Median) -> F32,
    D: Fn(Sums, F64, Place, Place) -> Sums,
    E: Fn(Sums, Place) -> Moments,
    K: Fn(F64, &Vec<F64>) -> F64,
    F: Fn(F64, &Vec<F64>, bool) -> Fit,
    H: Fn(Place, Fit, Position) -> (Position, F64),
    N: Fn(F64, usize) -> F32,
>(
    gray: &Vec<F32>,
    raw: &[F32],
    labels: &Vec<u32>,
    components: &Vec<Component>,
    w: usize,
    h: usize,
    config: &CentroidExtractionConfig,
    blob: &GrayBlob<W, X, L, D, E, K, F, H, N>,
) -> (centroids: Vec<Centroid>)
    requires
        w > 0,
        h > 0,
        gray@.len() == w * h,
        raw@.len() == w * h,
        labels@.len() == w * h,
        components@.len() < u32::MAX,
        forall|k: int|
            0 <= k < components@.len() ==> describes(
                #[trigger] components@[k],
                labels@,
                w as int,
                k + 1,
            ),
        gray_blob_total(*blob),
    ensures
        are_blob_centroids(
            *blob,
            *gray,
            raw@,
            labels@,
            components@,
            w as int,
            h as int,
            *config,
            centroids@,
        ),
{
    let mut centroids: Vec<Centroid> = Vec::new();
    let ghost mut outs: Seq<Option<Centroid>> = Seq::empty();
    let mut k: usize = 0;
    assert(emitted(outs) =~= centroids@);
    while k < components.len()
        invariant
            0 <= k <= components@.len(),
            w > 0,
            h > 0,
            gray@.len() == w * h,
            raw@.len() == w * h,
            labels@.len() == w * h,
            components@.len() < u32::MAX,
            forall|k: int|
                0 <= k < components@.len() ==> describes(
                    #[trigger] components@[k],
                    labels@,
                    w as int,
                    k + 1,
                ),
            gray_blob_total(*blob),
            outs.len() == k,
            centroids@ == emitted(outs),
            forall|i: int|
                0 <= i < outs.len() ==> blob_emits(
                    *blob,
                    *gray,
                    raw@,
                    labels@,
                    w as int,
                    h as int,
                    *config,
                    components@[i],
                    i + 1,
                    #[trigger] outs[i],
                ),
        decreases components@.len() - k,
    {
        let comp = components[k];
        let o = emit_blob(gray, raw, labels, w, h, config, &comp, (k + 1) as u32, blob);
        proof {
            let before = outs;
            outs = outs.push(o);
            assert(outs.drop_last() =~= before);
        }
        if let Some(c) = o {
            centroids.push(c);
        }
        k += 1;
    }
    assert(blob_outcomes(
        *blob,
        *gray,
        raw@,
        labels@,
        components@,
        w as int,
        h as int,
        *config,
        outs,
    ));
    centroids
}

/// One outcome for each component.
pub open spec fn blob_outcomes<
    W: Fn(F32, &Median) -> F64,
    X: Fn(F32, &Median) -> F64,
    L: Fn(F64, &Median) -> F32,
    D: Fn(Sums, F64, Place, Place) -> Sums,
    E: Fn(Sums, Place) -> Moments,
    K: Fn(F64, &Vec<F64>) -> F64,
    F: Fn(F64, &Vec<F64>, bool) -> Fit,
    H: Fn(Place, Fit, Position) -> (Position, F64),
    N: Fn(F64, usize) -> F32,
>(
    blob: GrayBlob<W, X, L, D, E, K, F, H, N>,
    gray: Vec<F32>,
    raw: Seq<F32>,
    labels: Seq<u32>,
    components: Seq<Component>,
    w: int,
    h: int,
    config: CentroidExtractionConfig,
    outs: Seq<Option<Centroid>>,
) -> bool {
    &&& outs.len() == components.len()
    &&& forall|i: int|
        0 <= i < outs.len() ==> blob_emits(
            blob,
            gray,
            raw,
            labels,
            w,
            h,
            config,
            components[i],
            i + 1,
            #[trigger] outs[i],
        )
}

/// The centroids of the components, in the order of their labels.
pub open spec fn are_blob_centroids<
    W: Fn(F32, &Median) -> F64,
    X: Fn(F32, &Median) -> F64,
    L: Fn(F64, &Median) -> F32,
    D: Fn(Sums, F64, Place, Place) -> Sums,
    E: Fn(Sums, Place) -> Moments,
    K: Fn(F64, &Vec<F64>) -> F64,
    F: Fn(F64, &Vec<F64>, bool) -> Fit,
    H: Fn(Place, Fit, Position) -> (Position, F64),
    N: Fn(F64, usize) -> F32,
>(
    blob: GrayBlob<W, X, L, D, E, K, F, H, N>,
    gray: Vec<F32>,
    raw: Seq<F32>,
    labels: Seq<u32>,
    components: Seq<Component>,
    w: int,
    h: int,
    config: CentroidExtractionConfig,
    centroids: Seq<Centroid>,
) -> bool {
    exists|outs: Seq<Option<Centroid>>|
        {
            &&& #[trigger] blob_outcomes(
                blob,
                gray,
                raw,
                labels,
                components,
                w,
                h,
                config,
                outs,
            )
            &&& centroids == emitted(outs)
        }
}

/// The image that blobs are measured on and the one that a filter is applied
/// to, with level and noise.
pub struct Prepared {
    /// Background-subtracted and clamped at zero, or the image itself.
    pub image: Vec<F32>,
    /// Background-subtracted but not clamped, or the image itself. (Filtering
    /// the clamped image would turn negative noise into a positive offset;
    /// measuring on the unclamped one would let negative pixels cancel flux.)
    pub unclamped: Vec<F32>,
    pub mean: F32,
    pub sigma: F32,
}

/// How an image is prepared with a local background: a grid of block medians over
/// a staggered lattice, level and noise from the residuals at that lattice, and
/// the residuals of all pixels. Beyond the outermost block centres the blend has
/// the outermost two cells, so that a gradient can go on to the border.
pub open spec fn locally_prepared<
    A: Fn(F32, F32) -> F32,
    R: Fn(&Vec<Deviation>) -> F32,
    C: Fn(F32, F32, F32) -> F32,
    B: Fn(Corners, usize, usize) -> F32,
    S: Fn(F32, F32) -> F32,
    G,
    T,
    Z,
>(
    ar: Arithmetic<A, R, C, B, S, G, T, Z>,
    gray: Seq<F32>,
    w: int,
    h: int,
    block: int,
    rounds: nat,
    factor: F32,
    bg: BackgroundGrid,
    residuals: Seq<F32>,
    surface: Seq<F32>,
    out: Prepared,
) -> bool {
    let stride = coarse_stride(block, 16);
    &&& bg.covers(w, h)
    &&& bg.block == block
    &&& is_block_grid(gray, w, h, block, staggered_lattice(stride), bg.grid@)
    &&& are_residuals(
        ar.blend,
        ar.subtract,
        bg,
        gray,
        w,
        lattice_points(gray, w, h, 0, stride),
        residuals,
    )
    &&& is_background(
        ar.average,
        ar.rms,
        ar.cut,
        residuals,
        rounds,
        factor,
        out.mean,
        out.sigma,
    )
    &&& is_surface(ar.blend, bg, Edges::Extend, w, h, surface)
    &&& are_differences(ar.subtract, gray, surface, out.unclamped@)
    &&& out.image@ == clamped(out.unclamped@)
}

/// `out` is the prepared image: with a local background where a block size is
/// given, else the image as it is.
pub open spec fn is_prepared<
    A: Fn(F32, F32) -> F32,
    R: Fn(&Vec<Deviation>) -> F32,
    C: Fn(F32, F32, F32) -> F32,
    B: Fn(Corners, usize, usize) -> F32,
    S: Fn(F32, F32) -> F32,
    G,
    T,
    Z,
>(
    ar: Arithmetic<A, R, C, B, S, G, T, Z>,
    gray: Seq<F32>,
    w: int,
    h: int,
    config: CentroidExtractionConfig,
    out: Prepared,
) -> bool {
    let rounds = config.sigma_clip_iterations as nat;
    let factor = config.sigma_clip_factor;
    match config.local_bg_block_size {
        Some(bs) => exists|bg: BackgroundGrid, residuals: Seq<F32>, surface: Seq<F32>| #[trigger]
            locally_prepared(
                ar,
                gray,
                w,
                h,
                bs as int,
                rounds,
                factor,
                bg,
                residuals,
                surface,
                out,
            ),
        None => {
            &&& out.image@ == gray
            &&& out.unclamped@ == gray
            &&& is_background(
                ar.average,
                ar.rms,
                ar.cut,
                gray,
                rounds,
                factor,
                out.mean,
                out.sigma,
            )
        },
    }
}

fn copied(v: &[F32]) -> (out: Vec<F32>)
    ensures
        out@ == v@,
{
    let mut out: Vec<F32> = Vec::new();
    let mut i: usize = 0;
    while i < v.len()
        invariant
            0 <= i <= v@.len(),
            out@ == v@.take(i as int),
        decreases v@.len() - i,
    {
        out.push(v[i]);
        assert(out@ =~= v@.take(i + 1));
        i += 1;
    }
    assert(v@.take(v@.len() as int) =~= v@);
    out
}

/// Background model, residuals, and noise stats.
pub fn prepare<
    A: Fn(F32, F32) -> F32,
    R: Fn(&Vec<Deviation>) -> F32,
    C: Fn(F32, F32, F32) -> F32,
    B: Fn(Corners, usize, usize) -> F32 + Sync + Send,
    S: Fn(F32, F32) -> F32 + Sync + Send,
    G,
    T,
    Z,
>(
    gray: &[F32],
    w: usize,
    h: usize,
    config: &CentroidExtractionConfig,
    ar: &Arithmetic<A, R, C, B, S, G, T, Z>,
) -> (out: Prepared)
    requires
        0 < w <= u32::MAX,
        0 < h <= u32::MAX,
        gray@.len() == w * h,
        config.local_bg_block_size != Some(0u32),
        forall|a: F32, b: F32| #[trigger] call_requires(ar.average, (a, b)),
        forall|v: Vec<Deviation>| #[trigger] call_requires(ar.rms, (&v,)),
        forall|a: F32, b: F32, c: F32| #[trigger] call_requires(ar.cut, (a, b, c)),
        forall|c: Corners, x: usize, y: usize| #[trigger] call_requires(ar.blend, (c, x, y)),
        forall|a: F32, b: F32| #[trigger] call_requires(ar.subtract, (a, b)),
    ensures
        is_prepared(*ar, gray@, w as int, h as int, *config, out),
        out.image@.len() == w * h,
        out.unclamped@.len() == w * h,
{
    let rounds: usize = config.sigma_clip_iterations;
    let factor = config.sigma_clip_factor;
    match config.local_bg_block_size {
        Some(block_size) => {
            let bs: usize = block_size as usize;
            let stride: usize = if bs / 16 > 1 {
                bs / 16
            } else {
                1
            };
            let (bg, _) = BackgroundGrid::build(gray, w, h, bs, stride, &ar.rms);
            let surface = background_surface(&bg, Edges::Extend, gray.len(), w, h, &ar.blend);
            let residuals = subsample_residuals(
                gray,
                w,
                h,
                &bg,
                stride,
                &ar.blend,
                &ar.subtract,
            );
            let (mean, sigma) = estimate_background(
                &residuals,
                rounds,
                factor,
                &ar.average,
                &ar.rms,
                &ar.cut,
            );
            let unclamped = map_subtract(gray, &surface, &ar.subtract);
            let image = clamp_all(&unclamped);
            let out = Prepared { image, unclamped, mean, sigma };
            assert(locally_prepared(
                *ar,
                gray@,
                w as int,
                h as int,
                bs as int,
                rounds as nat,
                factor,
                bg,
                residuals@,
                surface@,
                out,
            ));
            out
        },
        None => {
            let (mean, sigma) = estimate_background(
                gray,
                rounds,
                factor,
                &ar.average,
                &ar.rms,
                &ar.cut,
            );
            Prepared { image: copied(gray), unclamped: copied(gray), mean, sigma }
        },
    }
}

/// `source` is the image that is thresholded: the filtered one where the
/// matched filter is on, else the one that blobs are measured on.
pub open spec fn is_source<G: Fn(&Vec<F32>, usize, usize, F32) -> Vec<F32>>(
    blur: G,
    w: usize,
    h: usize,
    config: CentroidExtractionConfig,
    prepared: Prepared,
    source: Vec<F32>,
) -> bool {
    match filter_width(config) {
        Some(s) => call_ensures(blur, (&prepared.unclamped, w, h, s), source),
        None => source@ == prepared.image@,
    }
}

/// How a result of the default path comes about: the prepared image, the
/// thresholded source, the labels of its blobs, and the brightest of their
/// centroids.
pub open spec fn gray_run<
    A: Fn(F32, F32) -> F32,
    R: Fn(&Vec<Deviation>) -> F32,
    C: Fn(F32, F32, F32) -> F32,
    B: Fn(Corners, usize, usize) -> F32,
    S: Fn(F32, F32) -> F32,
    G: Fn(&Vec<F32>, usize, usize, F32) -> Vec<F32>,
    T: Fn(F32, F32, F32, Option<F32>) -> F32,
    W: Fn(F32, &Median) -> F64,
    X: Fn(F32, &Median) -> F64,
    L: Fn(F64, &Median) -> F32,
    D: Fn(Sums, F64, Place, Place) -> Sums,
    E: Fn(Sums, Place) -> Moments,
    K: Fn(F64, &Vec<F64>) -> F64,
    F: Fn(F64, &Vec<F64>, bool) -> Fit,
    H: Fn(Place, Fit, Position) -> (Position, F64),
    N: Fn(F64, usize) -> F32,
>(
    ar: Arithmetic<A, R, C, B, S, G, T, GrayBlob<W, X, L, D, E, K, F, H, N>>,
    gray: Seq<F32>,
    width: u32,
    height: u32,
    config: CentroidExtractionConfig,
    prepared: Prepared,
    source: Vec<F32>,
    labels: Seq<u32>,
    components: Seq<Component>,
    all: Seq<Centroid>,
    res: CentroidExtractionResult,
) -> bool {
    let (w, h) = (width as int, height as int);
    &&& is_prepared(ar, gray, w, h, config, prepared)
    &&& is_source(ar.blur, width as usize, height as usize, config, prepared, source)
    &&& call_ensures(
        ar.threshold,
        (prepared.mean, prepared.sigma, config.sigma_threshold, filter_width(config)),
        res.threshold,
    )
    &&& is_labelling(
        above_mask(source@, res.threshold),
        w,
        h,
        config.use_8_connectivity,
        labels,
        components.len() as int,
    )
    &&& forall|k: int|
        0 <= k < components.len() ==> describes(#[trigger] components[k], labels, w, k + 1)
    &&& are_blob_centroids(
        ar.blob,
        prepared.image,
        gray,
        labels,
        components,
        w,
        h,
        config,
        all,
    )
    &&& is_brightest_first(all, config.max_centroids, res.centroids@)
    &&& res.image_width == width
    &&& res.image_height == height
    &&& res.background_mean == prepared.mean
    &&& res.background_sigma == prepared.sigma
    &&& res.num_blobs_raw == components.len()
}

/// `res` is a result of the default path.
pub open spec fn is_gray_result<
    A: Fn(F32, F32) -> F32,
    R: Fn(&Vec<Deviation>) -> F32,
    C: Fn(F32, F32, F32) -> F32,
    B: Fn(Corners, usize, usize) -> F32,
    S: Fn(F32, F32) -> F32,
    G: Fn(&Vec<F32>, usize, usize, F32) -> Vec<F32>,
    T: Fn(F32, F32, F32, Option<F32>) -> F32,
    W: Fn(F32, &Median) -> F64,
    X: Fn(F32, &Median) -> F64,
    L: Fn(F64, &Median) -> F32,
    D: Fn(Sums, F64, Place, Place) -> Sums,
    E: Fn(Sums, Place) -> Moments,
    K: Fn(F64, &Vec<F64>) -> F64,
    F: Fn(F64, &Vec<F64>, bool) -> Fit,
    H: Fn(Place, Fit, Position) -> (Position, F64),
    N: Fn(F64, usize) -> F32,
>(
    ar: Arithmetic<A, R, C, B, S, G, T, GrayBlob<W, X, L, D, E, K, F, H, N>>,
    gray: Seq<F32>,
    width: u32,
    height: u32,
    config: CentroidExtractionConfig,
    res: CentroidExtractionResult,
) -> bool {
    exists|
        prepared: Prepared,
        source: Vec<F32>,
        labels: Seq<u32>,
        components: Seq<Component>,
        all: Seq<Centroid>,
    | #[trigger]
        gray_run(
            ar,
            gray,
            width,
            height,
            config,
            prepared,
            source,
            labels,
            components,
            all,
            res,
        )
}

/// The arithmetic answers whatever it is asked, and the filter keeps the size
/// of an image.
pub open spec fn is_total<
    A: Fn(F32, F32) -> F32,
    R: Fn(&Vec<Deviation>) -> F32,
    C: Fn(F32, F32, F32) -> F32,
    B: Fn(Corners, usize, usize) -> F32,
    S: Fn(F32, F32) -> F32,
    G: Fn(&Vec<F32>, usize, usize, F32) -> Vec<F32>,
    T: Fn(F32, F32, F32, Option<F32>) -> F32,
    W: Fn(F32, &Median) -> F64,
    X: Fn(F32, &Median) -> F64,
    L: Fn(F64, &Median) -> F32,
    D: Fn(Sums, F64, Place, Place) -> Sums,
    E: Fn(Sums, Place) -> Moments,
    K: Fn(F64, &Vec<F64>) -> F64,
    F: Fn(F64, &Vec<F64>, bool) -> Fit,
    H: Fn(Place, Fit, Position) -> (Position, F64),
    N: Fn(F64, usize) -> F32,
>(ar: Arithmetic<A, R, C, B, S, G, T, GrayBlob<W, X, L, D, E, K, F, H, N>>) -> bool {
    &&& forall|a: F32, b: F32| #[trigger] call_requires(ar.average, (a, b))
    &&& forall|v: Vec<Deviation>| #[trigger] call_requires(ar.rms, (&v,))
    &&& forall|a: F32, b: F32, c: F32| #[trigger] call_requires(ar.cut, (a, b, c))
    &&& forall|c: Corners, x: usize, y: usize| #[trigger] call_requires(ar.blend, (c, x, y))
    &&& forall|a: F32, b: F32| #[trigger] call_requires(ar.subtract, (a, b))
    &&& forall|v: Vec<F32>, w: usize, h: usize, s: F32|
        v@.len() == w * h ==> #[trigger] call_requires(ar.blur, (&v, w, h, s))
    &&& forall|v: Vec<F32>, w: usize, h: usize, s: F32, o: Vec<F32>| #[trigger]
        call_ensures(ar.blur, (&v, w, h, s), o) ==> o@.len() == v@.len()
    &&& forall|a: F32, b: F32, k: F32, f: Option<F32>| #[trigger]
        call_requires(ar.threshold, (a, b, k, f))
    &&& gray_blob_total(ar.blob)
}

fn usable_filter(config: &CentroidExtractionConfig) -> (r: Option<F32>)
    ensures
        r == filter_width(*config),
{
    let zero = F32 { bits: 0 };
    match config.matched_filter_sigma {
        Some(s) => if s.is_finite() && s.gt(zero) {
            Some(s)
        } else {
            None
        },
        None => None,
    }
}

/// Shared extraction pipeline for both image and raw-pixel entry points.
///
/// The filter, where it is on, serves for thresholding only: centroids are
/// measured on the unfiltered image, so intensities and positions are
/// unaffected.
pub fn extract_from_gray<
    A: Fn(F32, F32) -> F32,
    R: Fn(&Vec<Deviation>) -> F32,
    C: Fn(F32, F32, F32) -> F32,
    B: Fn(Corners, usize, usize) -> F32 + Sync + Send,
    S: Fn(F32, F32) -> F32 + Sync + Send,
    G: Fn(&Vec<F32>, usize, usize, F32) -> Vec<F32>,
    T: Fn(F32, F32, F32, Option<F32>) -> F32,
    W: Fn(F32, &Median) -> F64,
    X: Fn(F32, &Median) -> F64,
    L: Fn(F64, &Median) -> F32,
    D: Fn(Sums, F64, Place, Place) -> Sums,
    E: Fn(Sums, Place) -> Moments,
    K: Fn(F64, &Vec<F64>) -> F64,
    F: Fn(F64, &Vec<F64>, bool) -> Fit,
    H: Fn(Place, Fit, Position) -> (Position, F64),
    N: Fn(F64, usize) -> F32,
>(
    gray_input: &[F32],
    width: u32,
    height: u32,
    config: &CentroidExtractionConfig,
    ar: &Arithmetic<A, R, C, B, S, G, T, GrayBlob<W, X, L, D, E, K, F, H, N>>,
) -> (out: Result<CentroidExtractionResult, InputError>)
    requires
        gray_input@.len() == width * height,
        gray_input@.len() < u32::MAX,
        is_total(*ar),
    ensures
        match settings_error(width, height, *config) {
            Some(e) => out == Err::<CentroidExtractionResult, InputError>(e),
            None => out matches Ok(res) && is_gray_result(
                *ar,
                gray_input@,
                width,
                height,
                *config,
                res,
            ),
        },
{
    match check_settings(width, height, config) {
        Err(e) => {
            return Err(e);
        },
        Ok(_) => {},
    }
    let w: usize = width as usize;
    let h: usize = height as usize;
    let prepared = prepare(gray_input, w, h, config, ar);
    let filter = usable_filter(config);
    let source: Vec<F32> = match filter {
        Some(s) => (ar.blur)(&prepared.unclamped, w, h, s),
        None => copied(&prepared.image),
    };
    assert(is_source(ar.blur, w, h, *config, prepared, source));
    let threshold = (ar.threshold)(
        prepared.mean,
        prepared.sigma,
        config.sigma_threshold,
        filter,
    );
    let (labels, components) = label_above(&source, threshold, w, h, config.use_8_connectivity);
    let mut centroids = compute_blob_centroids(
        &prepared.image,
        gray_input,
        &labels,
        &components,
        w,
        h,
        config,
        &ar.blob,
    );
    let ghost all = centroids@;
    sort_and_truncate_by_mass(&mut centroids, config.max_centroids);
    let res = CentroidExtractionResult {
        centroids,
        image_width: width,
        image_height: height,
        background_mean: prepared.mean,
        background_sigma: prepared.sigma,
        threshold,
        num_blobs_raw: components.len(),
    };
    assert(gray_run(
        *ar,
        gray_input@,
        width,
        height,
        *config,
        prepared,
        source,
        labels@,
        components@,
        all,
        res,
    ));
    Ok(res)
}

/// Extract star centroids from raw grayscale pixel data.
///
/// This is useful when you have pixel data that isn't in a standard image format,
/// e.g. from a camera SDK or FITS file parsed externally.
pub fn extract_centroids_from_raw<
    A: Fn(F32, F32) -> F32,
    R: Fn(&Vec<Deviation>) -> F32,
    C: Fn(F32, F32, F32) -> F32,
    B: Fn(Corners, usize, usize) -> F32 + Sync + Send,
    S: Fn(F32, F32) -> F32 + Sync + Send,
    G: Fn(&Vec<F32>, usize, usize, F32) -> Vec<F32>,
    T: Fn(F32, F32, F32, Option<F32>) -> F32,
    W: Fn(F32, &Median) -> F64,
    X: Fn(F32, &Median) -> F64,
    L: Fn(F64, &Median) -> F32,
    D: Fn(Sums, F64, Place, Place) -> Sums,
    E: Fn(Sums, Place) -> Moments,
    K: Fn(F64, &Vec<F64>) -> F64,
    F: Fn(F64, &Vec<F64>, bool) -> Fit,
    H: Fn(Place, Fit, Position) -> (Position, F64),
    N: Fn(F64, usize) -> F32,
>(
    pixels: &[F32],
    width: u32,
    height: u32,
    config: &CentroidExtractionConfig,
    ar: &Arithmetic<A, R, C, B, S, G, T, GrayBlob<W, X, L, D, E, K, F, H, N>>,
) -> (out: Result<CentroidExtractionResult, InputError>)
    requires
        pixels@.len() < u32::MAX,
        is_total(*ar),
    ensures
        if pixels@.len() != width * height {
            out == Err::<CentroidExtractionResult, InputError>(
                InputError::PixelLength { len: pixels@.len() as usize, width, height },
            )
        } else {
            match settings_error(width, height, *config) {
                Some(e) => out == Err::<CentroidExtractionResult, InputError>(e),
                None => out matches Ok(res) && is_gray_result(
                    *ar,
                    pixels@,
                    width,
                    height,
                    *config,
                    res,
                ),
            }
        },
{
    match check_pixel_len(pixels.len(), width, height) {
        Err(e) => {
            return Err(e);
        },
        Ok(_) => {},
    }
    extract_from_gray(pixels, width, height, config, ar)
}

/// Two configurations that differ in nothing but detection, the threshold and
/// the matched filter, and in how many centroids are kept.
pub open spec fn measure_alike(c: CentroidExtractionConfig, d: CentroidExtractionConfig) -> bool {
    &&& c.min_pixels == d.min_pixels
    &&& c.max_pixels == d.max_pixels
    &&& c.sigma_clip_iterations == d.sigma_clip_iterations
    &&& c.sigma_clip_factor == d.sigma_clip_factor
    &&& c.use_8_connectivity == d.use_8_connectivity
    &&& c.local_bg_block_size == d.local_bg_block_size
    &&& c.max_elongation == d.max_elongation
    &&& c.max_sharpness == d.max_sharpness
    &&& c.saturation_level == d.saturation_level
    &&& c.deblend == d.deblend
    &&& c.border_margin == d.border_margin
}

proof fn lemma_emits_alike<
    W: Fn(F32, &Median) -> F64,
    X: Fn(F32, &Median) -> F64,
    L: Fn(F64, &Median) -> F32,
    D: Fn(Sums, F64, Place, Place) -> Sums,
    E: Fn(Sums, Place) -> Moments,
    K: Fn(F64, &Vec<F64>) -> F64,
    F: Fn(F64, &Vec<F64>, bool) -> Fit,
    H: Fn(Place, Fit, Position) -> (Position, F64),
    N: Fn(F64, usize) -> F32,
>(
    blob: GrayBlob<W, X, L, D, E, K, F, H, N>,
    image: Vec<F32>,
    raw: Seq<F32>,
    labels: Seq<u32>,
    w: int,
    h: int,
    c: CentroidExtractionConfig,
    d: CentroidExtractionConfig,
    comp: Component,
    v: int,
    o: Option<Centroid>,
)
    requires
        measure_alike(c, d),
        blob_emits(blob, image, raw, labels, w, h, c, comp, v, o),
    ensures
        blob_emits(blob, image, raw, labels, w, h, d, comp, v, o),
{
}

proof fn lemma_centroids_alike<
    W: Fn(F32, &Median) -> F64,
    X: Fn(F32, &Median) -> F64,
    L: Fn(F64, &Median) -> F32,
    D: Fn(Sums, F64, Place, Place) -> Sums,
    E: Fn(Sums, Place) -> Moments,
    K: Fn(F64, &Vec<F64>) -> F64,
    F: Fn(F64, &Vec<F64>, bool) -> Fit,
    H: Fn(Place, Fit, Position) -> (Position, F64),
    N: Fn(F64, usize) -> F32,
>(
    blob: GrayBlob<W, X, L, D, E, K, F, H, N>,
    image: Vec<F32>,
    raw: Seq<F32>,
    labels: Seq<u32>,
    components: Seq<Component>,
    w: int,
    h: int,
    c: CentroidExtractionConfig,
    d: CentroidExtractionConfig,
    all: Seq<Centroid>,
)
    requires
        measure_alike(c, d),
        are_blob_centroids(blob, image, raw, labels, components, w, h, c, all),
    ensures
        are_blob_centroids(blob, image, raw, labels, components, w, h, d, all),
{
    let outs = choose|outs: Seq<Option<Centroid>>|
        {
            &&& #[trigger] blob_outcomes(blob, image, raw, labels, components, w, h, c, outs)
            &&& all == emitted(outs)
        };
    assert forall|i: int| 0 <= i < outs.len() implies blob_emits(
        blob,
        image,
        raw,
        labels,
        w,
        h,
        d,
        components[i],
        i + 1,
        #[trigger] outs[i],
    ) by {
        lemma_emits_alike(blob, image, raw, labels, w, h, c, d, components[i], i + 1, outs[i]);
    }
    assert(blob_outcomes(blob, image, raw, labels, components, w, h, d, outs));
}

/// Photometry is unaffected by how blobs are detected: with another threshold or
/// matched filter the image is prepared alike, and the same labels lead to the
/// same centroids.
pub proof fn law_detection_leaves_photometry<
    A: Fn(F32, F32) -> F32,
    R: Fn(&Vec<Deviation>) -> F32,
    C: Fn(F32, F32, F32) -> F32,
    B: Fn(Corners, usize, usize) -> F32,
    S: Fn(F32, F32) -> F32,
    G: Fn(&Vec<F32>, usize, usize, F32) -> Vec<F32>,
    T: Fn(F32, F32, F32, Option<F32>) -> F32,
    W: Fn(F32, &Median) -> F64,
    X: Fn(F32, &Median) -> F64,
    L: Fn(F64, &Median) -> F32,
    D: Fn(Sums, F64, Place, Place) -> Sums,
    E: Fn(Sums, Place) -> Moments,
    K: Fn(F64, &Vec<F64>) -> F64,
    F: Fn(F64, &Vec<F64>, bool) -> Fit,
    H: Fn(Place, Fit, Position) -> (Position, F64),
    N: Fn(F64, usize) -> F32,
>(
    ar: Arithmetic<A, R, C, B, S, G, T, GrayBlob<W, X, L, D, E, K, F, H, N>>,
    gray: Seq<F32>,
    w: int,
    h: int,
    c: CentroidExtractionConfig,
    d: CentroidExtractionConfig,
    prepared: Prepared,
    labels: Seq<u32>,
    components: Seq<Component>,
    all: Seq<Centroid>,
)
    requires
        measure_alike(c, d),
    ensures
        is_prepared(ar, gray, w, h, c, prepared) <==> is_prepared(ar, gray, w, h, d, prepared),
        are_blob_centroids(ar.blob, prepared.image, gray, labels, components, w, h, c, all)
            <==> are_blob_centroids(
            ar.blob,
            prepared.image,
            gray,
            labels,
            components,
            w,
            h,
            d,
            all,
        ),
{
    let image = prepared.image;
    if are_blob_centroids(ar.blob, image, gray, labels, components, w, h, c, all) {
        lemma_centroids_alike(ar.blob, image, gray, labels, components, w, h, c, d, all);
    }
    if are_blob_centroids(ar.blob, image, gray, labels, components, w, h, d, all) {
        lemma_centroids_alike(ar.blob, image, gray, labels, components, w, h, d, c, all);
    }
}

} // verus!
