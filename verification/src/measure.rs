//! What is measured of a blob, and which measurements become centroids.

use vstd::prelude::*;

use crate::background::lemma_pixel_index;
use crate::blobs::{
    at, find_peak, inside, is_listing, is_peak, is_top, neighbours, ring_of, Place,
};
use crate::convert::{double_exceeds, exceeds};
use crate::ieee::{F32, F64};
use crate::order::{
    brightness, brightness_key, descending_order, is_descending, is_permutation, law_order_unique,
};

verus! {

/// A symmetric 2 by 2 matrix.
#[derive(Clone, Copy, Debug, PartialEq, Eq, Structural)]
pub struct Matrix2 {
    pub xx: F32,
    pub xy: F32,
    pub yy: F32,
}

/// A star position in pixels, the image center at the origin, +X right and +Y
/// down.
#[derive(Clone, Copy, Debug, PartialEq, Eq)]
pub struct Centroid {
    pub x: F32,
    pub y: F32,
    /// Background-subtracted flux, where it is known.
    pub mass: Option<F32>,
    /// Intensity-weighted covariance in square pixels, where it is known.
    pub cov: Option<Matrix2>,
}

/// The pixels of one detected region and what is decided of them beforehand.
pub struct Blob {
    /// All pixels as `(row, column)`, in raster order.
    pub pixels: Vec<Place>,
    /// The first of the brightest pixels.
    pub peak: Place,
    /// The neighbours of the peak inside the image.
    pub ring: Vec<Place>,
    /// Some pixel reaches the saturation level.
    pub saturated: bool,
    /// The peak may be refined to a sub-pixel position.
    pub refine: bool,
}

/// Some listed pixel of the raw image is at or above `level`.
pub open spec fn is_saturated(
    raw: Seq<F32>,
    w: int,
    list: Seq<Place>,
    level: Option<F32>,
) -> bool {
    match level {
        Some(s) => exists|t: int|
            0 <= t < list.len() && at(raw, w, #[trigger] list[t]).at_least(s),
        None => false,
    }
}

/// The eight neighbours of a place are all inside the image.
pub open spec fn is_interior(p: Place, w: int, h: int) -> bool {
    1 <= p.0 && 1 <= p.1 && p.0 + 1 < h && p.1 + 1 < w
}

/// A refinement needs this many pixels.
pub const MIN_REFINE_PIXELS: usize = 5;

/// `b` describes the listed pixels: its peak is taken from `image`, its
/// saturation from `raw`. The peak may be refined where there are enough pixels,
/// it does not touch the border, and it is not saturated.
pub open spec fn is_blob(
    b: Blob,
    list: Seq<Place>,
    image: Seq<F32>,
    raw: Seq<F32>,
    w: int,
    h: int,
    saturation_level: Option<F32>,
    fallback: Place,
) -> bool {
    &&& b.pixels@ == list
    &&& is_peak(image, w, list, fallback, b.peak)
    &&& is_listing(b.ring@, ring_of(b.peak, w, h))
    &&& b.saturated == is_saturated(raw, w, list, saturation_level)
    &&& b.refine == (list.len() >= MIN_REFINE_PIXELS && is_interior(b.peak, w, h) && !b.saturated)
}

fn find_saturated(raw: &[F32], w: usize, h: usize, list: &[Place], level: Option<F32>) -> (r: bool)
    requires
        raw@.len() == w * h,
        inside(list@, w as int, h as int),
    ensures
        r == is_saturated(raw@, w as int, list@, level),
{
    let len: usize = raw.len();
    match level {
        None => false,
        Some(s) => {
            let mut t: usize = 0;
            while t < list.len()
                invariant
                    level == Some(s),
                    0 <= t <= list@.len(),
                    len == raw@.len(),
                    len == w * h,
                    inside(list@, w as int, h as int),
                    forall|k: int|
                        0 <= k < t ==> !at(raw@, w as int, #[trigger] list@[k]).at_least(s),
                decreases list@.len() - t,
            {
                let p = list[t];
                proof {
                    assert(list@[t as int].0 < h);
                    lemma_pixel_index(w as int, h as int, p.0 as int, p.1 as int);
                }
                if raw[p.0 * w + p.1].ge(s) {
                    assert(at(raw@, w as int, list@[t as int]).at_least(s));
                    return true;
                }
                t += 1;
            }
            false
        },
    }
}

/// Describe the listed pixels.
pub fn make_blob(
    list: Vec<Place>,
    image: &[F32],
    raw: &[F32],
    w: usize,
    h: usize,
    saturation_level: Option<F32>,
    fallback: Place,
) -> (b: Blob)
    requires
        image@.len() == w * h,
        raw@.len() == w * h,
        inside(list@, w as int, h as int),
        fallback.0 < h,
        fallback.1 < w,
    ensures
        is_blob(b, list@, image@, raw@, w as int, h as int, saturation_level, fallback),
        b.peak.0 < h,
        b.peak.1 < w,
        inside(b.ring@, w as int, h as int),
{
    let peak = find_peak(image, w, h, &list, fallback);
    proof {
        if exists|t: int| #[trigger] is_top(image@, w as int, list@, t) && peak
            == list@[t] {
            let t = choose|t: int| #[trigger]
                is_top(image@, w as int, list@, t) && peak == list@[t];
            assert(list@[t].0 < h);
        }
    }
    let ring = neighbours(peak, w, h);
    let saturated: bool = find_saturated(raw, w, h, &list, saturation_level);
    let refine: bool = list.len() >= MIN_REFINE_PIXELS && peak.0 >= 1 && peak.1 >= 1 && peak.0 < h
        - 1 && peak.1 < w - 1 && !saturated;
    Blob { pixels: list, peak, ring, saturated, refine }
}

/// What arithmetic finds out about a blob.
#[derive(Clone, Copy, Debug, PartialEq, Eq)]
pub struct Measurement {
    /// Background-subtracted flux.
    pub flux: F64,
    /// The flux in single precision.
    pub mass: F32,
    /// Position from the image center.
    pub x: F32,
    pub y: F32,
    /// Intensity-weighted central second moments.
    pub cov: Matrix2,
    /// Major over minor axis.
    pub elongation: F32,
    /// `(peak - mean of the ring) / peak`, where the peak is positive and has a
    /// ring.
    pub sharpness: Option<F64>,
    /// What a second peak has to exceed to count as one.
    pub peak_floor: F32,
}

impl Measurement {
    /// The flux is not zero or less.
    pub open spec fn has_flux(self) -> bool {
        self.flux.nan() || self.flux.rank() > 0
    }

    /// The measurement passes the elongation and sharpness gates.
    pub open spec fn passes(self, max_elongation: Option<F32>, max_sharpness: Option<F32>) -> bool {
        &&& self.has_flux()
        &&& max_elongation matches Some(e) ==> !self.elongation.above(e)
        &&& match (max_sharpness, self.sharpness) {
            (Some(m), Some(s)) => !exceeds(s, m),
            _ => true,
        }
    }

    /// The gates on flux, elongation and sharpness.
    pub fn accepted(&self, max_elongation: Option<F32>, max_sharpness: Option<F32>) -> (r: bool)
        ensures
            r == self.passes(max_elongation, max_sharpness),
    {
        let zero = F64 { bits: 0 };
        if !self.flux.is_nan() && !self.flux.gt(zero) {
            return false;
        }
        if let Some(e) = max_elongation {
            if self.elongation.gt(e) {
                return false;
            }
        }
        if let Some(m) = max_sharpness {
            if let Some(s) = self.sharpness {
                if double_exceeds(s, m) {
                    return false;
                }
            }
        }
        true
    }

    /// The centroid of a measured blob.
    pub open spec fn centroid_of(self) -> Centroid {
        Centroid { x: self.x, y: self.y, mass: Some(self.mass), cov: Some(self.cov) }
    }

    /// The centroid of a measured blob.
    pub fn centroid(&self) -> (c: Centroid)
        ensures
            c == self.centroid_of(),
    {
        Centroid { x: self.x, y: self.y, mass: Some(self.mass), cov: Some(self.cov) }
    }
}

/// The masses of centroids as places in the order of brightness.
pub open spec fn brightnesses(centroids: Seq<Centroid>, missing: F32) -> Seq<int> {
    Seq::new(centroids.len(), |i: int| brightness(centroids[i].mass, missing))
}

/// How many of `n` are kept.
pub open spec fn kept(n: int, max: Option<usize>) -> int {
    match max {
        Some(m) => if m < n {
            m as int
        } else {
            n
        },
        None => n,
    }
}

/// `out` holds the brightest of `all`, brightest first, equal ones as they came,
/// cut to the maximum. A missing mass counts as zero.
pub open spec fn is_brightest_first(
    all: Seq<Centroid>,
    max: Option<usize>,
    out: Seq<Centroid>,
) -> bool {
    exists|perm: Seq<usize>|
        {
            &&& #[trigger] is_descending(brightnesses(all, F32::zero()), perm)
            &&& out == Seq::new(
                kept(all.len() as int, max) as nat,
                |t: int| all[perm[t] as int],
            )
        }
}

/// The keys of the centroids' brightness.
pub(crate) fn brightness_keys(centroids: &[Centroid], missing: F32) -> (keys: Vec<i64>)
    ensures
        keys@.len() == centroids@.len(),
        forall|i: int|
            0 <= i < keys@.len() ==> {
                &&& #[trigger] keys@[i] == brightness(centroids@[i].mass, missing)
                &&& keys@[i] > i64::MIN
            },
{
    let mut keys: Vec<i64> = Vec::new();
    let mut i: usize = 0;
    while i < centroids.len()
        invariant
            0 <= i <= centroids@.len(),
            keys@.len() == i,
            forall|k: int|
                0 <= k < i ==> {
                    &&& #[trigger] keys@[k] == brightness(centroids@[k].mass, missing)
                    &&& keys@[k] > i64::MIN
                },
        decreases centroids@.len() - i,
    {
        keys.push(brightness_key(centroids[i].mass, missing));
        i += 1;
    }
    keys
}

/// Sort centroids brightest-first (descending mass; missing mass sorts as 0)
/// and truncate to the configured maximum. Shared tail of both extraction
/// paths.
pub fn sort_and_truncate_by_mass(centroids: &mut Vec<Centroid>, max_centroids: Option<usize>)
    ensures
        is_brightest_first(old(centroids)@, max_centroids, final(centroids)@),
{
    let zero = F32 { bits: 0 };
    let keys = brightness_keys(centroids, zero);
    let perm = descending_order(&keys);
    let ghost all = centroids@;
    proof {
        assert(Seq::new(keys@.len(), |i: int| keys@[i] as int) =~= brightnesses(
            all,
            F32::zero(),
        ));
    }
    let n: usize = match max_centroids {
        Some(m) => if m < centroids.len() {
            m
        } else {
            centroids.len()
        },
        None => centroids.len(),
    };
    let mut out: Vec<Centroid> = Vec::new();
    let mut t: usize = 0;
    while t < n
        invariant
            0 <= t <= n,
            n <= perm@.len(),
            centroids@ == all,
            is_permutation(perm@, all.len() as int),
            out@.len() == t,
            forall|s: int| 0 <= s < t ==> #[trigger] out@[s] == all[perm@[s] as int],
        decreases n - t,
    {
        assert(perm@[t as int] < all.len());
        out.push(centroids[perm[t]]);
        t += 1;
    }
    *centroids = out;
    assert(is_descending(brightnesses(all, F32::zero()), perm@));
    assert(centroids@ =~= Seq::new(
        kept(all.len() as int, max_centroids) as nat,
        |t: int| all[perm@[t] as int],
    ));
}

/// Cutting takes the brightest: with a maximum the result is the beginning of
/// what comes without one.
pub proof fn law_maximum_cuts(
    all: Seq<Centroid>,
    max: usize,
    cut: Seq<Centroid>,
    whole: Seq<Centroid>,
)
    requires
        is_brightest_first(all, Some(max), cut),
        is_brightest_first(all, None, whole),
    ensures
        whole.len() == all.len(),
        cut == whole.take(kept(all.len() as int, Some(max))),
{
    let keys = brightnesses(all, F32::zero());
    let p = choose|perm: Seq<usize>|
        {
            &&& #[trigger] is_descending(keys, perm)
            &&& cut == Seq::new(
                kept(all.len() as int, Some(max)) as nat,
                |t: int| all[perm[t] as int],
            )
        };
    let q = choose|perm: Seq<usize>|
        {
            &&& #[trigger] is_descending(keys, perm)
            &&& whole == Seq::new(kept(all.len() as int, None) as nat, |t: int| all[perm[t] as int])
        };
    law_order_unique(keys, p, q);
    assert(cut =~= whole.take(kept(all.len() as int, Some(max))));
}

/// The result is in descending order of mass.
pub proof fn law_brightest_first(
    all: Seq<Centroid>,
    max: Option<usize>,
    out: Seq<Centroid>,
    s: int,
    t: int,
)
    requires
        is_brightest_first(all, max, out),
        0 <= s < t < out.len(),
    ensures
        brightness(out[s].mass, F32::zero()) >= brightness(out[t].mass, F32::zero()),
{
    let keys = brightnesses(all, F32::zero());
    let p = choose|perm: Seq<usize>|
        {
            &&& #[trigger] is_descending(keys, perm)
            &&& out == Seq::new(kept(all.len() as int, max) as nat, |t: int| all[perm[t] as int])
        };
    assert(p[s] < all.len() && p[t] < all.len());
    assert(keys[p[s] as int] >= keys[p[t] as int]);
}

/// A saturated blob is not refined: a flat-topped profile has no meaningful
/// sub-pixel maximum.
pub proof fn law_saturated_is_not_refined(
    b: Blob,
    list: Seq<Place>,
    image: Seq<F32>,
    raw: Seq<F32>,
    w: int,
    h: int,
    level: F32,
    fallback: Place,
    t: int,
)
    requires
        is_blob(b, list, image, raw, w, h, Some(level), fallback),
        0 <= t < list.len(),
        at(raw, w, list[t]).at_least(level),
    ensures
        !b.refine,
{
}

} // verus!
