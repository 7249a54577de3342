//! Background level and noise of an image.

use vstd::prelude::*;

use crate::background::{
    blends, collect_low, lemma_pixel_index, low_half, rms_says, BackgroundGrid, Corners,
    Deviation, Edges,
};
use crate::ieee::F32;
use crate::stats::{is_median, median_f32, Median};

verus! {

/// The finite ones of the values, in order.
pub open spec fn finite_only(values: Seq<F32>) -> Seq<F32>
    decreases values.len(),
{
    if values.len() == 0 {
        Seq::empty()
    } else {
        let head = finite_only(values.drop_last());
        if values.last().finite() {
            head.push(values.last())
        } else {
            head
        }
    }
}

/// The deviations whose number is not below `lo`.
pub open spec fn not_below(devs: Seq<Deviation>, lo: F32) -> Seq<Deviation>
    decreases devs.len(),
{
    if devs.len() == 0 {
        Seq::empty()
    } else {
        let head = not_below(devs.drop_last(), lo);
        if devs.last().0.at_least(lo) {
            head.push(devs.last())
        } else {
            head
        }
    }
}

/// Below this a noise counts as none: the single nearest to 1e-10.
pub const NO_NOISE: u32 = 0x2edb_e6ff;

/// `level` is the median of the values, the average of the two central ones
/// being what `average` may answer; zero where there are none.
pub open spec fn is_level<A: Fn(F32, F32) -> F32>(
    average: A,
    values: Seq<F32>,
    level: F32,
) -> bool {
    exists|m: Median| #[trigger]
        is_median(values, m) && match m {
            Median::Empty => level == F32::zero(),
            Median::Middle(v) => level == v,
            Median::Between(a, b) => call_ensures(average, (a, b), level),
        }
}

/// `sigma` comes out of at most `n` rounds of clipping the deviations `devs`:
/// each round takes the noise of what is left and drops what lies below the
/// cut that goes with it. The rounds end early where nothing is left, where
/// there is no noise, and where nothing was dropped.
pub open spec fn clips_to<R: Fn(&Vec<Deviation>) -> F32, C: Fn(F32, F32, F32) -> F32>(
    rms: R,
    cut: C,
    factor: F32,
    level: F32,
    devs: Seq<Deviation>,
    last: F32,
    n: nat,
    sigma: F32,
) -> bool
    decreases n,
{
    if n == 0 || devs.len() == 0 {
        sigma == last
    } else {
        exists|s: F32, lo: F32|
            {
                &&& #[trigger] round(rms, cut, factor, level, devs, s, lo)
                &&& if (F32 { bits: NO_NOISE }).above(s) || not_below(devs, lo).len()
                    == devs.len() {
                    sigma == s
                } else {
                    clips_to(rms, cut, factor, level, not_below(devs, lo), s, (n - 1) as nat, sigma)
                }
            }
    }
}

/// One round: the noise of the deviations and, where there is any, the cut.
pub open spec fn round<R: Fn(&Vec<Deviation>) -> F32, C: Fn(F32, F32, F32) -> F32>(
    rms: R,
    cut: C,
    factor: F32,
    level: F32,
    devs: Seq<Deviation>,
    s: F32,
    lo: F32,
) -> bool {
    &&& rms_says(rms, devs, s)
    &&& (F32 { bits: NO_NOISE }).above(s) || call_ensures(cut, (level, s, factor), lo)
}

fn keep_finite(values: &[F32]) -> (out: Vec<F32>)
    ensures
        out@ == finite_only(values@),
{
    let mut out: Vec<F32> = Vec::new();
    let mut i: usize = 0;
    assert(values@.take(0) =~= Seq::empty());
    while i < values.len()
        invariant
            0 <= i <= values@.len(),
            out@ == finite_only(values@.take(i as int)),
        decreases values@.len() - i,
    {
        let v = values[i];
        assert(values@.take(i + 1).drop_last() =~= values@.take(i as int));
        if v.is_finite() {
            out.push(v);
        }
        i += 1;
    }
    assert(values@.take(values@.len() as int) =~= values@);
    out
}

fn keep_not_below(devs: &Vec<Deviation>, lo: F32) -> (out: Vec<Deviation>)
    ensures
        out@ == not_below(devs@, lo),
        out@.len() <= devs@.len(),
{
    let mut out: Vec<Deviation> = Vec::new();
    let mut i: usize = 0;
    assert(devs@.take(0) =~= Seq::empty());
    while i < devs.len()
        invariant
            0 <= i <= devs@.len(),
            out@ == not_below(devs@.take(i as int), lo),
            out@.len() <= i,
        decreases devs@.len() - i,
    {
        let d = devs[i];
        assert(devs@.take(i + 1).drop_last() =~= devs@.take(i as int));
        if d.0.ge(lo) {
            out.push(d);
        }
        i += 1;
    }
    assert(devs@.take(devs@.len() as int) =~= devs@);
    out
}

/// Sigma-clip the lower tail to reject remaining outliers (dead or negative
/// pixels), re-estimating about the level each pass.
fn clip<R: Fn(&Vec<Deviation>) -> F32, C: Fn(F32, F32, F32) -> F32>(
    devs: Vec<Deviation>,
    level: F32,
    last: F32,
    n: usize,
    rms: &R,
    cut: &C,
    factor: F32,
) -> (sigma: F32)
    requires
        forall|v: Vec<Deviation>| #[trigger] call_requires(*rms, (&v,)),
        forall|a: F32, b: F32, c: F32| #[trigger] call_requires(*cut, (a, b, c)),
    ensures
        clips_to(*rms, *cut, factor, level, devs@, last, n as nat, sigma),
{
    let tiny = F32 { bits: NO_NOISE };
    let mut sigma = last;
    let mut i: usize = 0;
    let ghost start = devs@;
    let ghost mut rest: nat = n as nat;
    let mut left: Vec<Deviation> = devs;
    while i < n
        invariant
            tiny == (F32 { bits: NO_NOISE }),
            0 <= i <= n,
            rest == n - i,
            start == devs@,
            forall|v: Vec<Deviation>| #[trigger] call_requires(*rms, (&v,)),
            forall|a: F32, b: F32, c: F32| #[trigger] call_requires(*cut, (a, b, c)),
            forall|z: F32| #[trigger]
                clips_to(*rms, *cut, factor, level, left@, sigma, rest, z) ==> clips_to(
                    *rms,
                    *cut,
                    factor,
                    level,
                    start,
                    last,
                    n as nat,
                    z,
                ),
        decreases n - i,
    {
        if left.len() == 0 {
            assert(clips_to(*rms, *cut, factor, level, left@, sigma, rest, sigma));
            return sigma;
        }
        let s = rms(&left);
        assert(rms_says(*rms, left@, s));
        if tiny.gt(s) {
            assert(round(*rms, *cut, factor, level, left@, s, s));
            assert(clips_to(*rms, *cut, factor, level, left@, sigma, rest, s));
            return s;
        }
        let lo = cut(level, s, factor);
        assert(round(*rms, *cut, factor, level, left@, s, lo));
        let kept = keep_not_below(&left, lo);
        if kept.len() == left.len() {
            assert(clips_to(*rms, *cut, factor, level, left@, sigma, rest, s));
            return s;
        }
        proof {
            assert forall|z: F32| #[trigger]
                clips_to(
                    *rms,
                    *cut,
                    factor,
                    level,
                    kept@,
                    s,
                    (rest - 1) as nat,
                    z,
                ) implies clips_to(*rms, *cut, factor, level, start, last, n as nat, z) by {
                assert(clips_to(*rms, *cut, factor, level, left@, sigma, rest, z));
            }
        }
        left = kept;
        sigma = s;
        i += 1;
        proof {
            rest = (rest - 1) as nat;
        }
    }
    assert(clips_to(*rms, *cut, factor, level, left@, sigma, rest, sigma));
    sigma
}

/// `out` is a background level and noise of the values.
pub open spec fn is_background<
    A: Fn(F32, F32) -> F32,
    R: Fn(&Vec<Deviation>) -> F32,
    C: Fn(F32, F32, F32) -> F32,
>(
    average: A,
    rms: R,
    cut: C,
    values: Seq<F32>,
    rounds: nat,
    factor: F32,
    level: F32,
    sigma: F32,
) -> bool {
    let finite = finite_only(values);
    if finite.len() == 0 {
        level == F32::zero() && sigma == F32::zero()
    } else {
        &&& is_level(average, finite, level)
        &&& clips_to(rms, cut, factor, level, low_half(finite, level), F32::zero(), rounds, sigma)
    }
}

/// Estimate background level and noise.
///
/// Uses the median as the background level and estimates noise from the
/// lower half of the pixel distribution (below the median). This is robust
/// to contamination from stars and nebulosity, which only bias upward.
///
/// The noise estimate sigma-clips the below-median tail to reject remaining
/// outliers, then mirrors the lower-half RMS about the median to get the
/// full Gaussian sigma. The arithmetic is the caller's: `average` of two
/// numbers, `rms` of numbers about their level, and `cut`, a level less the noise
/// times a factor.
pub fn estimate_background<
    A: Fn(F32, F32) -> F32,
    R: Fn(&Vec<Deviation>) -> F32,
    C: Fn(F32, F32, F32) -> F32,
>(
    gray: &[F32],
    sigma_clip_iterations: usize,
    sigma_clip_factor: F32,
    average: &A,
    rms: &R,
    cut: &C,
) -> (out: (F32, F32))
    requires
        forall|a: F32, b: F32| #[trigger] call_requires(*average, (a, b)),
        forall|v: Vec<Deviation>| #[trigger] call_requires(*rms, (&v,)),
        forall|a: F32, b: F32, c: F32| #[trigger] call_requires(*cut, (a, b, c)),
    ensures
        is_background(
            *average,
            *rms,
            *cut,
            gray@,
            sigma_clip_iterations as nat,
            sigma_clip_factor,
            out.0,
            out.1,
        ),
{
    let zero = F32 { bits: 0 };
    let values = keep_finite(gray);
    if values.len() == 0 {
        return (zero, zero);
    }
    let m = median_f32(&values);
    let level = match m {
        Median::Empty => zero,
        Median::Middle(v) => v,
        Median::Between(a, b) => average(a, b),
    };
    assert(is_level(*average, values@, level));
    let mut low: Vec<Deviation> = Vec::new();
    collect_low(&values, level, &mut low);
    assert(low@ =~= low_half(values@, level));
    let sigma = clip(low, level, zero, sigma_clip_iterations, rms, cut, sigma_clip_factor);
    (level, sigma)
}

/// Clipping keeps deviations and adds none.
pub proof fn law_clipping_shrinks(devs: Seq<Deviation>, lo: F32)
    ensures
        not_below(devs, lo).len() <= devs.len(),
        forall|i: int|
            0 <= i < not_below(devs, lo).len() ==> {
                &&& devs.contains(#[trigger] not_below(devs, lo)[i])
                &&& not_below(devs, lo)[i].0.at_least(lo)
            },
    decreases devs.len(),
{
    if devs.len() > 0 {
        let head = devs.drop_last();
        law_clipping_shrinks(head, lo);
        let all = not_below(devs, lo);
        let some = not_below(head, lo);
        assert forall|i: int| 0 <= i < all.len() implies devs.contains(#[trigger] all[i])
            && all[i].0.at_least(lo) by {
            if i < some.len() {
                assert(head.contains(some[i]));
                let j = choose|j: int| 0 <= j < head.len() && head[j] == some[i];
                assert(devs[j] == all[i]);
            } else {
                assert(devs[devs.len() - 1] == all[i]);
            }
        }
    }
}

/// With no rounds of clipping there is no noise estimate: it stays zero.
pub proof fn law_no_rounds_no_noise<R: Fn(&Vec<Deviation>) -> F32, C: Fn(F32, F32, F32) -> F32>(
    rms: R,
    cut: C,
    factor: F32,
    level: F32,
    devs: Seq<Deviation>,
    sigma: F32,
)
    requires
        clips_to(rms, cut, factor, level, devs, F32::zero(), 0, sigma),
    ensures
        sigma == F32::zero(),
{
}

/// The finite pixels of row `y` at columns `x`, `x + stride`, ...
pub open spec fn row_points(
    pixels: Seq<F32>,
    w: int,
    y: int,
    x: int,
    stride: int,
) -> Seq<(usize, usize)>
    decreases w + stride - x,
{
    if x >= w || stride <= 0 {
        Seq::empty()
    } else {
        let rest = row_points(pixels, w, y, x + stride, stride);
        if pixels[y * w + x].finite() {
            seq![(y as usize, x as usize)] + rest
        } else {
            rest
        }
    }
}

/// The finite pixels of the staggered lattice from row `y` on, as `(row,
/// column)`: each sampled row begins one column further than the one before.
pub open spec fn lattice_points(
    pixels: Seq<F32>,
    w: int,
    h: int,
    y: int,
    stride: int,
) -> Seq<(usize, usize)>
    decreases h + stride - y,
{
    if y >= h || stride <= 0 {
        Seq::empty()
    } else {
        row_points(pixels, w, y, (y / stride) % stride, stride) + lattice_points(
            pixels,
            w,
            h,
            y + stride,
            stride,
        )
    }
}

/// `v` is what `subtract` may answer for a pixel and the surface below it.
pub open spec fn is_residual<B: Fn(Corners, usize, usize) -> F32, S: Fn(F32, F32) -> F32>(
    blend: B,
    subtract: S,
    bg: BackgroundGrid,
    pixels: Seq<F32>,
    w: int,
    p: (usize, usize),
    v: F32,
) -> bool {
    exists|b: F32| #[trigger]
        blends(blend, bg, Edges::Extend, p.0, p.1, b) && call_ensures(
            subtract,
            (pixels[p.0 * w + p.1], b),
            v,
        )
}

/// `out` holds a residual for each of the points.
pub open spec fn are_residuals<B: Fn(Corners, usize, usize) -> F32, S: Fn(F32, F32) -> F32>(
    blend: B,
    subtract: S,
    bg: BackgroundGrid,
    pixels: Seq<F32>,
    w: int,
    points: Seq<(usize, usize)>,
    out: Seq<F32>,
) -> bool {
    &&& out.len() == points.len()
    &&& forall|i: int|
        0 <= i < out.len() ==> is_residual(
            blend,
            subtract,
            bg,
            pixels,
            w,
            points[i],
            #[trigger] out[i],
        )
}

/// The points of the staggered lattice with a finite pixel.
fn points_of_lattice(pixels: &[F32], w: usize, h: usize, stride: usize) -> (points: Vec<
    (usize, usize),
>)
    requires
        w > 0,
        h > 0,
        pixels@.len() == w * h,
        stride > 0,
    ensures
        points@ == lattice_points(pixels@, w as int, h as int, 0, stride as int),
        forall|i: int|
            0 <= i < points@.len() ==> (#[trigger] points@[i]).0 < h && points@[i].1 < w,
{
    let len: usize = pixels.len();
    let mut points: Vec<(usize, usize)> = Vec::new();
    let ghost all = lattice_points(pixels@, w as int, h as int, 0, stride as int);
    let mut y: usize = 0;
    let mut more: bool = true;
    assert(points@ + all =~= all);
    while more
        invariant
            w > 0,
            h > 0,
            len == pixels@.len(),
            len == w * h,
            stride > 0,
            more ==> y < h,
            all == points@ + (if more {
                lattice_points(pixels@, w as int, h as int, y as int, stride as int)
            } else {
                Seq::empty()
            }),
            forall|i: int|
                0 <= i < points@.len() ==> (#[trigger] points@[i]).0 < h && points@[i].1 < w,
        decreases (if more {
            h - y
        } else {
            0
        }),
    {
        let phase: usize = (y / stride) % stride;
        let ghost before = points@;
        let ghost row_all = row_points(
            pixels@,
            w as int,
            y as int,
            phase as int,
            stride as int,
        );
        let mut x: usize = phase;
        let mut inside: bool = x < w;
        assert(before + row_all =~= points@ + row_all);
        assert(!inside ==> before + row_all =~= points@);
        while inside
            invariant
                y < h,
                len == pixels@.len(),
                len == w * h,
                stride > 0,
                inside ==> x < w,
                before + row_all == points@ + (if inside {
                    row_points(pixels@, w as int, y as int, x as int, stride as int)
                } else {
                    Seq::empty()
                }),
                forall|i: int|
                    0 <= i < points@.len() ==> (#[trigger] points@[i]).0 < h && points@[i].1 < w,
            decreases (if inside {
                w - x
            } else {
                0
            }),
        {
            proof {
                lemma_pixel_index(w as int, h as int, y as int, x as int);
            }
            let ghost rest = row_points(pixels@, w as int, y as int, x + stride, stride as int);
            let ghost held = points@;
            if pixels[y * w + x].is_finite() {
                points.push((y, x));
                assert(held + (seq![(y, x)] + rest) =~= points@ + rest);
            }
            if stride < w - x {
                x = x + stride;
            } else {
                inside = false;
                assert(points@ + rest =~= points@);
            }
        }
        proof {
            let rest = lattice_points(
                pixels@,
                w as int,
                h as int,
                y + stride,
                stride as int,
            );
            assert(points@ =~= before + row_all);
            assert(before + (row_all + rest) =~= points@ + rest);
            if stride >= h - y {
                assert(points@ + rest =~= points@);
            }
        }
        if stride < h - y {
            y = y + stride;
        } else {
            more = false;
        }
    }
    assert(points@ =~= all);
    points
}

/// Background-subtracted residuals at the block subsample lattice (the same
/// staggered lattice [`BackgroundGrid::build`] medians over), against the
/// bilinear surface.
pub fn subsample_residuals<B: Fn(Corners, usize, usize) -> F32, S: Fn(F32, F32) -> F32>(
    pixels: &[F32],
    w: usize,
    h: usize,
    bg: &BackgroundGrid,
    stride: usize,
    blend: &B,
    subtract: &S,
) -> (out: Vec<F32>)
    requires
        bg.covers(w as int, h as int),
        pixels@.len() == w * h,
        stride > 0,
        forall|c: Corners, x: usize, y: usize| #[trigger] call_requires(*blend, (c, x, y)),
        forall|a: F32, b: F32| #[trigger] call_requires(*subtract, (a, b)),
    ensures
        are_residuals(
            *blend,
            *subtract,
            *bg,
            pixels@,
            w as int,
            lattice_points(pixels@, w as int, h as int, 0, stride as int),
            out@,
        ),
{
    let points = points_of_lattice(pixels, w, h, stride);
    let len: usize = pixels.len();
    let mut out: Vec<F32> = Vec::new();
    let mut i: usize = 0;
    while i < points.len()
        invariant
            bg.covers(w as int, h as int),
            len == pixels@.len(),
            len == w * h,
            0 <= i <= points@.len(),
            out@.len() == i,
            forall|c: Corners, x: usize, y: usize| #[trigger] call_requires(*blend, (c, x, y)),
            forall|a: F32, b: F32| #[trigger] call_requires(*subtract, (a, b)),
            forall|k: int|
                0 <= k < points@.len() ==> (#[trigger] points@[k]).0 < h && points@[k].1 < w,
            forall|k: int|
                0 <= k < i ==> is_residual(
                    *blend,
                    *subtract,
                    *bg,
                    pixels@,
                    w as int,
                    points@[k],
                    #[trigger] out@[k],
                ),
        decreases points@.len() - i,
    {
        let (y, x) = points[i];
        proof {
            assert(points@[i as int].0 < h);
            lemma_pixel_index(w as int, h as int, y as int, x as int);
        }
        let c = bg.levels(Edges::Extend, x, y);
        let b = blend(c, x, y);
        let v = subtract(pixels[y * w + x], b);
        assert(blends(*blend, *bg, Edges::Extend, y, x, b));
        out.push(v);
        i += 1;
    }
    out
}

} // verus!
