//! The shape of a blob: its moments, how sharp its peak is, and where the peak
//! lies between the pixels.

use vstd::prelude::*;

use crate::blobs::{is_listing, neighbours, px, ring_of, Place};
use crate::ieee::{F32, F64};
use crate::measure::{Blob, Matrix2, Measurement};

verus! {

/// A fit with a determinant of 1e-10 or less is flat.
pub const FLAT_LIMIT: u64 = 0x3ddb_7cdf_d9d7_bdbb;

/// A fit is trusted up to half a pixel from the peak.
pub const HALF: u64 = 0x3fe0_0000_0000_0000;

/// The refined position has to lie within half a pixel of the center of mass:
/// the square of that distance.
pub const QUARTER: u64 = 0x3fd0_0000_0000_0000;

/// A position in pixels, x and y.
pub type Position = (F64, F64);

/// Intensity-weighted moments of a blob.
#[derive(Clone, Copy, Debug, PartialEq, Eq)]
pub struct Moments {
    /// Background-subtracted flux.
    pub flux: F64,
    /// The flux in single precision.
    pub mass: F32,
    /// Center of mass.
    pub center: Position,
    /// Central second moments.
    pub cov: Matrix2,
    /// Major over minor axis.
    pub elongation: F32,
}

/// Sums of weights and of weighted coordinates.
#[derive(Clone, Copy, Debug, PartialEq, Eq, Structural)]
pub struct Sums {
    pub i: F64,
    pub x: F64,
    pub y: F64,
    pub xx: F64,
    pub yy: F64,
    pub xy: F64,
}

impl Sums {
    /// Sums of nothing.
    pub open spec fn none() -> Sums {
        Sums {
            i: F64::zero(),
            x: F64::zero(),
            y: F64::zero(),
            xx: F64::zero(),
            yy: F64::zero(),
            xy: F64::zero(),
        }
    }
}

/// A quadratic through the nine values of a peak and its ring.
#[derive(Clone, Copy, Debug, PartialEq, Eq, Structural)]
pub struct Fit {
    /// Determinant of its Hessian.
    pub determinant: F64,
    /// The vertex, from the peak to the right.
    pub x: F64,
    /// The vertex, from the peak downwards.
    pub y: F64,
}

/// The arithmetic of a blob's moments and peak.
pub struct ShapeArithmetic<D, E, K, F, H, N> {
    /// The sums with one more weighted pixel, counted from an origin.
    pub accumulate: D,
    /// The moments that sums from an origin come to.
    pub moments: E,
    /// The peak less the mean of the values around it, over the peak.
    pub sharpness: K,
    /// The quadratic through a peak and its ring in raster order, or through
    /// the logarithms of the values.
    pub fit: F,
    /// The vertex of a fit at a pixel, and its squared distance from a position.
    pub shift: H,
    /// A coordinate from the center of an image of the given size.
    pub center: N,
}

/// `out` are the sums over the first `n` places with their weights, one after
/// the other.
pub open spec fn sums_to<D: Fn(Sums, F64, Place, Place) -> Sums>(
    accumulate: D,
    weights: Seq<F64>,
    places: Seq<Place>,
    origin: Place,
    n: nat,
    out: Sums,
) -> bool
    decreases n,
{
    if n == 0 {
        out == Sums::none()
    } else {
        exists|s: Sums|
            {
                &&& sums_to(accumulate, weights, places, origin, (n - 1) as nat, s)
                &&& #[trigger] call_ensures(
                    accumulate,
                    (s, weights[n - 1], places[n - 1], origin),
                    out,
                )
            }
    }
}

/// `out` are the moments of the places with their weights.
pub open spec fn are_moments<
    D: Fn(Sums, F64, Place, Place) -> Sums,
    E: Fn(Sums, Place) -> Moments,
>(
    accumulate: D,
    moments: E,
    weights: Seq<F64>,
    places: Seq<Place>,
    origin: Place,
    out: Moments,
) -> bool {
    exists|s: Sums|
        {
            &&& #[trigger] sums_to(accumulate, weights, places, origin, places.len(), s)
            &&& call_ensures(moments, (s, origin), out)
        }
}

/// Intensity-weighted moments of the places, in one pass. Coordinates are
/// counted from the origin, to keep the sums numerically stable.
pub fn gather_moments<
    D: Fn(Sums, F64, Place, Place) -> Sums,
    E: Fn(Sums, Place) -> Moments,
>(
    accumulate: &D,
    moments: &E,
    weights: &Vec<F64>,
    places: &Vec<Place>,
    origin: Place,
) -> (out: Moments)
    requires
        weights@.len() == places@.len(),
        forall|s: Sums, v: F64, p: Place, o: Place| #[trigger]
            call_requires(*accumulate, (s, v, p, o)),
        forall|s: Sums, o: Place| #[trigger] call_requires(*moments, (s, o)),
    ensures
        are_moments(*accumulate, *moments, weights@, places@, origin, out),
{
    let zero = F64 { bits: 0 };
    let mut sums = Sums { i: zero, x: zero, y: zero, xx: zero, yy: zero, xy: zero };
    let mut i: usize = 0;
    while i < places.len()
        invariant
            0 <= i <= places@.len(),
            weights@.len() == places@.len(),
            forall|s: Sums, v: F64, p: Place, o: Place| #[trigger]
                call_requires(*accumulate, (s, v, p, o)),
            sums_to(*accumulate, weights@, places@, origin, i as nat, sums),
        decreases places@.len() - i,
    {
        let ghost before = sums;
        sums = accumulate(sums, weights[i], places[i], origin);
        i += 1;
        assert(sums_to(*accumulate, weights@, places@, origin, (i - 1) as nat, before));
    }
    moments(sums, origin)
}

proof fn lemma_sums_unique<D: Fn(Sums, F64, Place, Place) -> Sums>(
    accumulate: D,
    weights: Seq<F64>,
    places: Seq<Place>,
    origin: Place,
    n: nat,
    a: Sums,
    b: Sums,
)
    requires
        forall|s: Sums, v: F64, p: Place, o: Place, x: Sums, y: Sums| #[trigger]
            call_ensures(accumulate, (s, v, p, o), x) && #[trigger] call_ensures(
                accumulate,
                (s, v, p, o),
                y,
            ) ==> x == y,
        sums_to(accumulate, weights, places, origin, n, a),
        sums_to(accumulate, weights, places, origin, n, b),
    ensures
        a == b,
    decreases n,
{
    if n > 0 {
        let (v, p) = (weights[n - 1], places[n - 1]);
        let s = choose|s: Sums|
            {
                &&& sums_to(accumulate, weights, places, origin, (n - 1) as nat, s)
                &&& #[trigger] call_ensures(accumulate, (s, v, p, origin), a)
            };
        let t = choose|s: Sums|
            {
                &&& sums_to(accumulate, weights, places, origin, (n - 1) as nat, s)
                &&& #[trigger] call_ensures(accumulate, (s, v, p, origin), b)
            };
        lemma_sums_unique(accumulate, weights, places, origin, (n - 1) as nat, s, t);
    }
}

/// The moments of weighted places are determined.
pub proof fn law_moments_determined<
    D: Fn(Sums, F64, Place, Place) -> Sums,
    E: Fn(Sums, Place) -> Moments,
    K: Fn(F64, &Vec<F64>) -> F64,
    F: Fn(F64, &Vec<F64>, bool) -> Fit,
    H: Fn(Place, Fit, Position) -> (Position, F64),
    N: Fn(F64, usize) -> F32,
>(
    ar: ShapeArithmetic<D, E, K, F, H, N>,
    weights: Seq<F64>,
    places: Seq<Place>,
    origin: Place,
    a: Moments,
    b: Moments,
)
    requires
        shape_steady(ar),
        are_moments(ar.accumulate, ar.moments, weights, places, origin, a),
        are_moments(ar.accumulate, ar.moments, weights, places, origin, b),
    ensures
        a == b,
{
    let n = places.len();
    let s = choose|s: Sums|
        {
            &&& #[trigger] sums_to(ar.accumulate, weights, places, origin, n, s)
            &&& call_ensures(ar.moments, (s, origin), a)
        };
    let t = choose|s: Sums|
        {
            &&& #[trigger] sums_to(ar.accumulate, weights, places, origin, n, s)
            &&& call_ensures(ar.moments, (s, origin), b)
        };
    lemma_sums_unique(ar.accumulate, weights, places, origin, n, s, t);
}

/// Every value is above zero.
pub open spec fn all_positive(peak: F64, ring: Seq<F64>) -> bool {
    &&& peak.above(F64::zero())
    &&& forall|i: int| 0 <= i < ring.len() ==> (#[trigger] ring[i]).above(F64::zero())
}

fn are_positive(peak: F64, ring: &Vec<F64>) -> (r: bool)
    ensures
        r == all_positive(peak, ring@),
{
    let zero = F64 { bits: 0 };
    if !peak.gt(zero) {
        return false;
    }
    let mut i: usize = 0;
    while i < ring.len()
        invariant
            0 <= i <= ring@.len(),
            zero == F64::zero(),
            peak.above(F64::zero()),
            forall|k: int| 0 <= k < i ==> (#[trigger] ring@[k]).above(F64::zero()),
        decreases ring@.len() - i,
    {
        if !ring[i].gt(zero) {
            return false;
        }
        i += 1;
    }
    true
}

impl Fit {
    /// The fit has a vertex within half a pixel.
    pub open spec fn is_reliable(self) -> bool {
        &&& !(F64 { bits: FLAT_LIMIT }).at_least(self.determinant.absolute())
        &&& (F64 { bits: HALF }).at_least(self.x.absolute())
        &&& (F64 { bits: HALF }).at_least(self.y.absolute())
    }

    fn reliable(&self) -> (r: bool)
        ensures
            r == self.is_reliable(),
    {
        let flat = F64 { bits: FLAT_LIMIT };
        let half = F64 { bits: HALF };
        !flat.ge(self.determinant.abs()) && half.ge(self.x.abs()) && half.ge(self.y.abs())
    }
}

/// `pos` is the position that a fit leads to: its vertex where it is reliable
/// and agrees with the center of mass, else the center of mass.
pub open spec fn is_settled<H: Fn(Place, Fit, Position) -> (Position, F64)>(
    shift: H,
    at: Place,
    center: Position,
    fit: Fit,
    pos: Position,
) -> bool {
    if fit.is_reliable() {
        exists|q: Position, d: F64| #[trigger]
            call_ensures(shift, (at, fit, center), (q, d)) && pos == if (F64 {
                bits: QUARTER,
            }).above(d) {
                q
            } else {
                center
            }
    } else {
        pos == center
    }
}

/// `pos` is the refined position of a peak: by a fit to the logarithms where all
/// values are positive, else to the values. (A Gaussian is exactly quadratic in
/// its logarithm.)
pub open spec fn is_refined<
    F: Fn(F64, &Vec<F64>, bool) -> Fit,
    H: Fn(Place, Fit, Position) -> (Position, F64),
>(fit: F, shift: H, at: Place, center: Position, peak: F64, ring: Vec<F64>, pos: Position) -> bool {
    exists|f: Fit|
        {
            &&& #[trigger] call_ensures(fit, (peak, &ring, all_positive(peak, ring@)), f)
            &&& is_settled(shift, at, center, f, pos)
        }
}

/// `s` is the sharpness of a peak: nothing where the peak is not above zero or
/// has no ring.
pub open spec fn is_sharpness_of<K: Fn(F64, &Vec<F64>) -> F64>(
    sharpness: K,
    peak: F64,
    ring: Vec<F64>,
    s: Option<F64>,
) -> bool {
    if F64::zero().at_least(peak) || ring@.len() == 0 {
        s is None
    } else {
        s matches Some(v) && call_ensures(sharpness, (peak, &ring), v)
    }
}

/// `pos` is the position of a blob, `x` and `y` are its coordinates from the
/// center of a `w` by `h` image.
pub open spec fn is_placed<
    D: Fn(Sums, F64, Place, Place) -> Sums,
    E: Fn(Sums, Place) -> Moments,
    K: Fn(F64, &Vec<F64>) -> F64,
    F: Fn(F64, &Vec<F64>, bool) -> Fit,
    H: Fn(Place, Fit, Position) -> (Position, F64),
    N: Fn(F64, usize) -> F32,
>(
    ar: ShapeArithmetic<D, E, K, F, H, N>,
    b: Blob,
    m: Moments,
    peak: F64,
    ring: Vec<F64>,
    w: usize,
    h: usize,
    pos: Position,
    x: F32,
    y: F32,
) -> bool {
    &&& if b.refine {
        is_refined(ar.fit, ar.shift, b.peak, m.center, peak, ring, pos)
    } else {
        pos == m.center
    }
    &&& call_ensures(ar.center, (pos.0, w), x)
    &&& call_ensures(ar.center, (pos.1, h), y)
}

/// `out` is the measurement of a blob with the given moments and values at its
/// peak and ring, for a `w` by `h` image.
pub open spec fn is_measurement<
    D: Fn(Sums, F64, Place, Place) -> Sums,
    E: Fn(Sums, Place) -> Moments,
    K: Fn(F64, &Vec<F64>) -> F64,
    F: Fn(F64, &Vec<F64>, bool) -> Fit,
    H: Fn(Place, Fit, Position) -> (Position, F64),
    N: Fn(F64, usize) -> F32,
>(
    ar: ShapeArithmetic<D, E, K, F, H, N>,
    b: Blob,
    m: Moments,
    peak: F64,
    ring: Vec<F64>,
    w: usize,
    h: usize,
    floor: F32,
    out: Measurement,
) -> bool {
    &&& out.flux == m.flux
    &&& out.mass == m.mass
    &&& out.cov == m.cov
    &&& out.elongation == m.elongation
    &&& out.peak_floor == floor
    &&& is_sharpness_of(ar.sharpness, peak, ring, out.sharpness)
    &&& exists|pos: Position| #[trigger]
        is_placed(ar, b, m, peak, ring, w, h, pos, out.x, out.y)
}

/// The arithmetic at a peak answers whatever it is asked.
pub open spec fn shape_total<
    D: Fn(Sums, F64, Place, Place) -> Sums,
    E: Fn(Sums, Place) -> Moments,
    K: Fn(F64, &Vec<F64>) -> F64,
    F: Fn(F64, &Vec<F64>, bool) -> Fit,
    H: Fn(Place, Fit, Position) -> (Position, F64),
    N: Fn(F64, usize) -> F32,
>(ar: ShapeArithmetic<D, E, K, F, H, N>) -> bool {
    &&& forall|s: Sums, v: F64, p: Place, o: Place| #[trigger]
        call_requires(ar.accumulate, (s, v, p, o))
    &&& forall|s: Sums, o: Place| #[trigger] call_requires(ar.moments, (s, o))
    &&& forall|p: F64, r: Vec<F64>| #[trigger] call_requires(ar.sharpness, (p, &r))
    &&& forall|p: F64, r: Vec<F64>, l: bool| #[trigger] call_requires(ar.fit, (p, &r, l))
    &&& forall|p: Place, f: Fit, c: Position| #[trigger] call_requires(ar.shift, (p, f, c))
    &&& forall|v: F64, n: usize| #[trigger] call_requires(ar.center, (v, n))
}

fn sharpness_of<K: Fn(F64, &Vec<F64>) -> F64>(sharpness: &K, peak: F64, ring: &Vec<F64>) -> (s:
    Option<F64>)
    requires
        forall|p: F64, r: Vec<F64>| #[trigger] call_requires(*sharpness, (p, &r)),
    ensures
        is_sharpness_of(*sharpness, peak, *ring, s),
{
    let zero = F64 { bits: 0 };
    if zero.ge(peak) || ring.len() == 0 {
        None
    } else {
        Some(sharpness(peak, ring))
    }
}

/// How far a neighbour is from a place along one axis.
fn step_between(from: usize, to: usize) -> (d: isize)
    requires
        -1 <= to - from <= 1,
    ensures
        d == to - from,
{
    if to > from {
        1
    } else if to < from {
        -1
    } else {
        0
    }
}

/// `samples` are what `v` may answer for the steps from `p` to its neighbours
/// inside a `w` by `h` image, in raster order.
pub open spec fn samples_ring<V: Fn(isize, isize) -> F64>(
    v: V,
    p: Place,
    w: int,
    h: int,
    ring: Seq<Place>,
    samples: Seq<F64>,
) -> bool {
    &&& is_listing(ring, ring_of(p, w, h))
    &&& samples.len() == ring.len()
    &&& forall|i: int|
        0 <= i < samples.len() ==> call_ensures(
            v,
            ((ring[i].0 - p.0) as isize, (ring[i].1 - p.1) as isize),
            #[trigger] samples[i],
        )
}

/// `r` is the sharpness of a peak at `p` from the values that `v` answers for
/// the steps from there.
pub open spec fn is_peak_sharpness<V: Fn(isize, isize) -> F64, K: Fn(F64, &Vec<F64>) -> F64>(
    v: V,
    sharpness: K,
    p: Place,
    w: int,
    h: int,
    r: Option<F64>,
) -> bool {
    exists|peak: F64, ring: Seq<Place>, samples: Vec<F64>|
        {
            &&& #[trigger] call_ensures(v, (0isize, 0isize), peak)
            &&& #[trigger] samples_ring(v, p, w, h, ring, samples@)
            &&& is_sharpness_of(sharpness, peak, samples, r)
        }
}

/// DAOFIND-style sharpness of a blob peak on background-subtracted values, where
/// `v` takes the steps down and right from the peak at a column and row of an
/// image with a width and height. Out-of-bounds neighbours are skipped. Nothing
/// when the peak is not positive or has no neighbour in bounds (callers should
/// not reject then).
pub fn peak_sharpness<V: Fn(isize, isize) -> F64, K: Fn(F64, &Vec<F64>) -> F64>(
    at: (usize, usize),
    size: (usize, usize),
    v: &V,
    sharpness: &K,
) -> (r: Option<F64>)
    requires
        at.1 < size.1,
        at.0 < size.0,
        forall|dy: isize, dx: isize| -1 <= dy <= 1 && -1 <= dx <= 1 ==> #[trigger] call_requires(
            *v,
            (dy, dx),
        ),
        forall|p: F64, s: Vec<F64>| #[trigger] call_requires(*sharpness, (p, &s)),
    ensures
        is_peak_sharpness(*v, *sharpness, (at.1, at.0), size.0 as int, size.1 as int, r),
{
    let (pc, pr) = at;
    let (w, h) = size;
    let p: Place = (pr, pc);
    let peak = v(0, 0);
    let ring = neighbours(p, w, h);
    let mut samples: Vec<F64> = Vec::new();
    let mut i: usize = 0;
    while i < ring.len()
        invariant
            0 <= i <= ring@.len(),
            samples@.len() == i,
            p == (pr, pc),
            is_listing(ring@, ring_of(p, w as int, h as int)),
            forall|dy: isize, dx: isize|
                -1 <= dy <= 1 && -1 <= dx <= 1 ==> #[trigger] call_requires(*v, (dy, dx)),
            forall|k: int|
                0 <= k < i ==> call_ensures(
                    *v,
                    ((ring@[k].0 - p.0) as isize, (ring@[k].1 - p.1) as isize),
                    #[trigger] samples@[k],
                ),
        decreases ring@.len() - i,
    {
        let q = ring[i];
        assert(ring_of(p, w as int, h as int)(px(ring@[i as int])));
        let sample = v(step_between(pr, q.0), step_between(pc, q.1));
        samples.push(sample);
        i += 1;
    }
    assert(samples_ring(*v, p, w as int, h as int, ring@, samples@));
    sharpness_of(sharpness, peak, &samples)
}

/// Sub-pixel refinement of a peak, used only when the fit is reliable and agrees
/// with the center of mass (for asymmetric or blended blobs the center of mass
/// is more reliable).
fn refine_peak<
    F: Fn(F64, &Vec<F64>, bool) -> Fit,
    H: Fn(Place, Fit, Position) -> (Position, F64),
>(fit: &F, shift: &H, at: Place, center: Position, peak: F64, ring: &Vec<F64>) -> (pos: Position)
    requires
        forall|p: F64, r: Vec<F64>, l: bool| #[trigger] call_requires(*fit, (p, &r, l)),
        forall|p: Place, f: Fit, c: Position| #[trigger] call_requires(*shift, (p, f, c)),
    ensures
        is_refined(*fit, *shift, at, center, peak, *ring, pos),
{
    let logarithmic: bool = are_positive(peak, ring);
    let f = fit(peak, ring, logarithmic);
    if !f.reliable() {
        return center;
    }
    let (q, d) = shift(at, f, center);
    let quarter = F64 { bits: QUARTER };
    let pos = if quarter.gt(d) {
        q
    } else {
        center
    };
    assert(is_settled(*shift, at, center, f, pos));
    pos
}

/// Measure a blob from its moments and the values at its peak and ring.
pub fn measure_peak<
    D: Fn(Sums, F64, Place, Place) -> Sums,
    E: Fn(Sums, Place) -> Moments,
    K: Fn(F64, &Vec<F64>) -> F64,
    F: Fn(F64, &Vec<F64>, bool) -> Fit,
    H: Fn(Place, Fit, Position) -> (Position, F64),
    N: Fn(F64, usize) -> F32,
>(
    ar: &ShapeArithmetic<D, E, K, F, H, N>,
    b: &Blob,
    m: Moments,
    peak: F64,
    ring: &Vec<F64>,
    w: usize,
    h: usize,
    floor: F32,
) -> (out: Measurement)
    requires
        shape_total(*ar),
    ensures
        is_measurement(*ar, *b, m, peak, *ring, w, h, floor, out),
{
    let sharpness = sharpness_of(&ar.sharpness, peak, ring);
    let pos = if b.refine {
        refine_peak(&ar.fit, &ar.shift, b.peak, m.center, peak, ring)
    } else {
        m.center
    };
    let x = (ar.center)(pos.0, w);
    let y = (ar.center)(pos.1, h);
    let out = Measurement {
        flux: m.flux,
        mass: m.mass,
        x,
        y,
        cov: m.cov,
        elongation: m.elongation,
        sharpness,
        peak_floor: floor,
    };
    assert(is_placed(*ar, *b, m, peak, *ring, w, h, pos, out.x, out.y));
    out
}

/// The arithmetic at a peak answers equal questions alike.
pub open spec fn shape_steady<
    D: Fn(Sums, F64, Place, Place) -> Sums,
    E: Fn(Sums, Place) -> Moments,
    K: Fn(F64, &Vec<F64>) -> F64,
    F: Fn(F64, &Vec<F64>, bool) -> Fit,
    H: Fn(Place, Fit, Position) -> (Position, F64),
    N: Fn(F64, usize) -> F32,
>(ar: ShapeArithmetic<D, E, K, F, H, N>) -> bool {
    &&& forall|s: Sums, v: F64, p: Place, o: Place, a: Sums, b: Sums| #[trigger]
        call_ensures(ar.accumulate, (s, v, p, o), a) && #[trigger] call_ensures(
            ar.accumulate,
            (s, v, p, o),
            b,
        ) ==> a == b
    &&& forall|s: Sums, o: Place, a: Moments, b: Moments| #[trigger]
        call_ensures(ar.moments, (s, o), a) && #[trigger] call_ensures(ar.moments, (s, o), b)
            ==> a == b
    &&& forall|p: F64, u: Vec<F64>, v: Vec<F64>, a: F64, b: F64|
        u@ == v@ && #[trigger] call_ensures(ar.sharpness, (p, &u), a) && #[trigger] call_ensures(
            ar.sharpness,
            (p, &v),
            b,
        ) ==> a == b
    &&& forall|p: F64, u: Vec<F64>, v: Vec<F64>, l: bool, a: Fit, b: Fit|
        u@ == v@ && #[trigger] call_ensures(ar.fit, (p, &u, l), a) && #[trigger] call_ensures(
            ar.fit,
            (p, &v, l),
            b,
        ) ==> a == b
    &&& forall|p: Place, f: Fit, c: Position, a: (Position, F64), b: (Position, F64)| #[trigger]
        call_ensures(ar.shift, (p, f, c), a) && #[trigger] call_ensures(ar.shift, (p, f, c), b)
            ==> a == b
    &&& forall|v: F64, n: usize, a: F32, b: F32| #[trigger]
        call_ensures(ar.center, (v, n), a) && #[trigger] call_ensures(ar.center, (v, n), b)
            ==> a == b
}

proof fn lemma_refined_unique<
    D: Fn(Sums, F64, Place, Place) -> Sums,
    E: Fn(Sums, Place) -> Moments,
    K: Fn(F64, &Vec<F64>) -> F64,
    F: Fn(F64, &Vec<F64>, bool) -> Fit,
    H: Fn(Place, Fit, Position) -> (Position, F64),
    N: Fn(F64, usize) -> F32,
>(
    ar: ShapeArithmetic<D, E, K, F, H, N>,
    at: Place,
    center: Position,
    peak: F64,
    u: Vec<F64>,
    v: Vec<F64>,
    a: Position,
    b: Position,
)
    requires
        shape_steady(ar),
        u@ == v@,
        is_refined(ar.fit, ar.shift, at, center, peak, u, a),
        is_refined(ar.fit, ar.shift, at, center, peak, v, b),
    ensures
        a == b,
{
    let l = all_positive(peak, u@);
    let f = choose|f: Fit|
        {
            &&& #[trigger] call_ensures(ar.fit, (peak, &u, l), f)
            &&& is_settled(ar.shift, at, center, f, a)
        };
    let g = choose|f: Fit|
        {
            &&& #[trigger] call_ensures(ar.fit, (peak, &v, l), f)
            &&& is_settled(ar.shift, at, center, f, b)
        };
    assert(f == g);
    if f.is_reliable() {
        let quarter = F64 { bits: QUARTER };
        let (p, d) = choose|q: Position, d: F64| #[trigger]
            call_ensures(ar.shift, (at, f, center), (q, d)) && a == if quarter.above(d) {
                q
            } else {
                center
            };
        let (q, e) = choose|q: Position, d: F64| #[trigger]
            call_ensures(ar.shift, (at, f, center), (q, d)) && b == if quarter.above(d) {
                q
            } else {
                center
            };
        assert((p, d) == (q, e));
    }
}

/// A measurement is determined by the moments and the values at the peak.
pub proof fn law_measurement_determined<
    D: Fn(Sums, F64, Place, Place) -> Sums,
    E: Fn(Sums, Place) -> Moments,
    K: Fn(F64, &Vec<F64>) -> F64,
    F: Fn(F64, &Vec<F64>, bool) -> Fit,
    H: Fn(Place, Fit, Position) -> (Position, F64),
    N: Fn(F64, usize) -> F32,
>(
    ar: ShapeArithmetic<D, E, K, F, H, N>,
    c: Blob,
    d: Blob,
    m: Moments,
    peak: F64,
    u: Vec<F64>,
    v: Vec<F64>,
    w: usize,
    h: usize,
    floor: F32,
    a: Measurement,
    b: Measurement,
)
    requires
        shape_steady(ar),
        c.refine == d.refine,
        c.peak == d.peak,
        u@ == v@,
        is_measurement(ar, c, m, peak, u, w, h, floor, a),
        is_measurement(ar, d, m, peak, v, w, h, floor, b),
    ensures
        a == b,
{
    let p = choose|pos: Position| #[trigger]
        is_placed(ar, c, m, peak, u, w, h, pos, a.x, a.y);
    let q = choose|pos: Position| #[trigger]
        is_placed(ar, d, m, peak, v, w, h, pos, b.x, b.y);
    if c.refine {
        lemma_refined_unique(ar, c.peak, m.center, peak, u, v, p, q);
    }
    assert(p == q);
}

/// A blob that is not to be refined keeps its center of mass.
pub proof fn law_unrefined_keeps_center<
    D: Fn(Sums, F64, Place, Place) -> Sums,
    E: Fn(Sums, Place) -> Moments,
    K: Fn(F64, &Vec<F64>) -> F64,
    F: Fn(F64, &Vec<F64>, bool) -> Fit,
    H: Fn(Place, Fit, Position) -> (Position, F64),
    N: Fn(F64, usize) -> F32,
>(
    ar: ShapeArithmetic<D, E, K, F, H, N>,
    b: Blob,
    m: Moments,
    peak: F64,
    ring: Vec<F64>,
    w: usize,
    h: usize,
    floor: F32,
    out: Measurement,
)
    requires
        !b.refine,
        is_measurement(ar, b, m, peak, ring, w, h, floor, out),
    ensures
        call_ensures(ar.center, (m.center.0, w), out.x),
        call_ensures(ar.center, (m.center.1, h), out.y),
{
}

} // verus!
