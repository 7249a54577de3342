//! Brown-Conrady radial and tangential distortion.
//!
//! ```text
//! x_d = x (1 + k1 r^2 + k2 r^4 + k3 r^6)  +  2 p1 x y + p2 (r^2 + 2 x^2)
//! y_d = y (1 + k1 r^2 + k2 r^4 + k3 r^6)  +  p1 (r^2 + 2 y^2) + 2 p2 x y
//! ```
//!
//! All coordinates are in pixels relative to the model's own `center` (the
//! optical axis); the model shifts in and out of that frame itself.

use vstd::prelude::*;

use crate::ieee::F64;

verus! {

/// Newton steps at most.
pub const MAX_STEPS: usize = 20;

/// A squared residual below 1e-20 is none.
pub const RESIDUAL_LIMIT: u64 = 0x3bc7_9ca1_0c92_4223;

/// A determinant below 1e-15 cannot be divided by.
pub const DETERMINANT_LIMIT: u64 = 0x3cd2_03af_9ee7_5616;

/// A step below 1e-12 is the last.
pub const STEP_LIMIT: u64 = 0x3d71_9799_812d_ea11;

/// Brown-Conrady radial and tangential distortion: up to three radial
/// coefficients and two tangential (decentering) ones. With `p1 = p2 = 0` it is
/// purely radial.
#[derive(Clone, Copy, Debug, PartialEq, Eq)]
pub struct RadialDistortion {
    /// First radial coefficient (barrel below zero, pincushion above).
    pub k1: F64,
    /// Second radial coefficient.
    pub k2: F64,
    /// Third radial coefficient.
    pub k3: F64,
    /// First tangential coefficient.
    pub p1: F64,
    /// Second tangential coefficient.
    pub p2: F64,
    /// Distortion center (optical axis) in pixels from the image center.
    pub center: (F64, F64),
}

/// A coefficient or a coordinate of the center is not finite.
#[derive(Clone, Copy, Debug, PartialEq, Eq, Structural)]
pub struct NotFinite;

/// One evaluation of the forward model at centered coordinates: the distorted
/// position and the Jacobian, whose mixed term is symmetric.
#[derive(Clone, Copy, Debug, PartialEq, Eq, Structural)]
pub struct BrownConradyEval {
    pub fx: F64,
    pub fy: F64,
    pub j11: F64,
    pub j12: F64,
    pub j22: F64,
}

/// The arithmetic of the model.
pub struct PlaneArithmetic<E, A, S, Q, D, T, Z> {
    /// The forward model at centered coordinates.
    pub evaluate: E,
    /// Sum of two numbers.
    pub plus: A,
    /// The first number less the second.
    pub minus: S,
    /// Sum of two squares.
    pub squares: Q,
    /// Absolute determinant of the Jacobian.
    pub determinant: D,
    /// The inverse Jacobian applied to a residual.
    pub step: T,
    /// Sum of two absolute values.
    pub size: Z,
}

/// The positive zero.
pub open spec fn zero_64() -> F64 {
    F64 { bits: 0 }
}

impl RadialDistortion {
    /// The model with the given coefficients and center.
    pub open spec fn model(
        cx: F64,
        cy: F64,
        k1: F64,
        k2: F64,
        k3: F64,
        p1: F64,
        p2: F64,
    ) -> RadialDistortion {
        RadialDistortion { k1, k2, k3, p1, p2, center: (cx, cy) }
    }

    /// Every coefficient and the center are finite.
    pub open spec fn all_finite(self) -> bool {
        &&& self.k1.finite() && self.k2.finite() && self.k3.finite()
        &&& self.p1.finite() && self.p2.finite()
        &&& self.center.0.finite() && self.center.1.finite()
    }

    /// A purely radial model, centered on the image center. Unused coefficients
    /// are zero.
    pub fn new(k1: F64, k2: F64, k3: F64) -> (d: Self)
        ensures
            d == RadialDistortion::model(
                zero_64(),
                zero_64(),
                k1,
                k2,
                k3,
                zero_64(),
                zero_64(),
            ),
    {
        let zero = F64 { bits: 0 };
        RadialDistortion { k1, k2, k3, p1: zero, p2: zero, center: (zero, zero) }
    }

    /// A full model, centered on the image center.
    pub fn with_tangential(k1: F64, k2: F64, k3: F64, p1: F64, p2: F64) -> (d: Self)
        ensures
            d == RadialDistortion::model(zero_64(), zero_64(), k1, k2, k3, p1, p2),
    {
        let zero = F64 { bits: 0 };
        RadialDistortion { k1, k2, k3, p1, p2, center: (zero, zero) }
    }

    /// A full model, centered on the given optical-axis position.
    pub fn with_center(
        cx: F64,
        cy: F64,
        k1: F64,
        k2: F64,
        k3: F64,
        p1: F64,
        p2: F64,
    ) -> (d: Self)
        ensures
            d == RadialDistortion::model(cx, cy, k1, k2, k3, p1, p2),
    {
        RadialDistortion { k1, k2, k3, p1, p2, center: (cx, cy) }
    }

    /// Check that every coefficient and the center are finite: a NaN coefficient
    /// silently poisons every undistorted coordinate.
    pub fn validate(&self) -> (r: Result<(), NotFinite>)
        ensures
            r == if self.all_finite() {
                Ok::<(), NotFinite>(())
            } else {
                Err(NotFinite)
            },
    {
        if self.k1.is_finite() && self.k2.is_finite() && self.k3.is_finite()
            && self.p1.is_finite() && self.p2.is_finite() && self.center.0.is_finite()
            && self.center.1.is_finite() {
            Ok(())
        } else {
            Err(NotFinite)
        }
    }
}

/// A point of the plane.
pub type Point = (F64, F64);

/// `q` is what `f` may answer coordinate by coordinate.
pub open spec fn pairwise<A: Fn(F64, F64) -> F64>(f: A, a: Point, b: Point, q: Point) -> bool {
    call_ensures(f, (a.0, b.0), q.0) && call_ensures(f, (a.1, b.1), q.1)
}

fn apply<A: Fn(F64, F64) -> F64>(f: &A, a: Point, b: Point) -> (q: Point)
    requires
        forall|a: F64, b: F64| #[trigger] call_requires(*f, (a, b)),
    ensures
        pairwise(*f, a, b, q),
{
    (f(a.0, b.0), f(a.1, b.1))
}

/// The arithmetic answers whatever it is asked.
pub open spec fn plane_total<
    E: Fn(&RadialDistortion, F64, F64) -> BrownConradyEval,
    A: Fn(F64, F64) -> F64,
    S: Fn(F64, F64) -> F64,
    Q: Fn(F64, F64) -> F64,
    D: Fn(BrownConradyEval) -> F64,
    T: Fn(BrownConradyEval, F64, F64) -> (F64, F64),
    Z: Fn(F64, F64) -> F64,
>(ar: PlaneArithmetic<E, A, S, Q, D, T, Z>) -> bool {
    &&& forall|d: RadialDistortion, x: F64, y: F64| #[trigger]
        call_requires(ar.evaluate, (&d, x, y))
    &&& forall|a: F64, b: F64| #[trigger] call_requires(ar.plus, (a, b))
    &&& forall|a: F64, b: F64| #[trigger] call_requires(ar.minus, (a, b))
    &&& forall|a: F64, b: F64| #[trigger] call_requires(ar.squares, (a, b))
    &&& forall|e: BrownConradyEval| #[trigger] call_requires(ar.determinant, (e,))
    &&& forall|e: BrownConradyEval, a: F64, b: F64| #[trigger]
        call_requires(ar.step, (e, a, b))
    &&& forall|a: F64, b: F64| #[trigger] call_requires(ar.size, (a, b))
}

/// Newton's iteration from `at` ends at `out` within `n` steps: where the forward
/// model gives `target`, where the Jacobian is singular, after a negligible step,
/// or with the last step.
pub open spec fn settles<
    E: Fn(&RadialDistortion, F64, F64) -> BrownConradyEval,
    A: Fn(F64, F64) -> F64,
    S: Fn(F64, F64) -> F64,
    Q: Fn(F64, F64) -> F64,
    D: Fn(BrownConradyEval) -> F64,
    T: Fn(BrownConradyEval, F64, F64) -> (F64, F64),
    Z: Fn(F64, F64) -> F64,
>(
    ar: PlaneArithmetic<E, A, S, Q, D, T, Z>,
    d: RadialDistortion,
    target: Point,
    at: Point,
    n: nat,
    out: Point,
) -> bool
    decreases n,
{
    if n == 0 {
        out == at
    } else {
        exists|e: BrownConradyEval, res: Point, q: F64|
            {
                &&& #[trigger] call_ensures(ar.evaluate, (&d, at.0, at.1), e)
                &&& #[trigger] pairwise(ar.minus, (e.fx, e.fy), target, res)
                &&& #[trigger] call_ensures(ar.squares, (res.0, res.1), q)
                &&& if (F64 { bits: RESIDUAL_LIMIT }).above(q) {
                    out == at
                } else {
                    exists|det: F64|
                        {
                            &&& #[trigger] call_ensures(ar.determinant, (e,), det)
                            &&& if (F64 { bits: DETERMINANT_LIMIT }).above(det) {
                                out == at
                            } else {
                                exists|s: Point, next: Point, size: F64|
                                    {
                                        &&& #[trigger] call_ensures(ar.step, (e, res.0, res.1), s)
                                        &&& #[trigger] pairwise(ar.minus, at, s, next)
                                        &&& #[trigger] call_ensures(ar.size, (s.0, s.1), size)
                                        &&& if (F64 { bits: STEP_LIMIT }).above(size) {
                                            out == next
                                        } else {
                                            settles(ar, d, target, next, (n - 1) as nat, out)
                                        }
                                    }
                            }
                        }
                }
            }
    }
}

fn settle<
    E: Fn(&RadialDistortion, F64, F64) -> BrownConradyEval,
    A: Fn(F64, F64) -> F64,
    S: Fn(F64, F64) -> F64,
    Q: Fn(F64, F64) -> F64,
    D: Fn(BrownConradyEval) -> F64,
    T: Fn(BrownConradyEval, F64, F64) -> (F64, F64),
    Z: Fn(F64, F64) -> F64,
>(
    ar: &PlaneArithmetic<E, A, S, Q, D, T, Z>,
    d: &RadialDistortion,
    target: Point,
    at: Point,
    n: usize,
) -> (out: Point)
    requires
        plane_total(*ar),
    ensures
        settles(*ar, *d, target, at, n as nat, out),
    decreases n,
{
    if n == 0 {
        return at;
    }
    let e = (ar.evaluate)(d, at.0, at.1);
    let res = apply(&ar.minus, (e.fx, e.fy), target);
    let q = (ar.squares)(res.0, res.1);
    let residual_limit = F64 { bits: RESIDUAL_LIMIT };
    if residual_limit.gt(q) {
        return at;
    }
    let det = (ar.determinant)(e);
    let determinant_limit = F64 { bits: DETERMINANT_LIMIT };
    if determinant_limit.gt(det) {
        return at;
    }
    let s = (ar.step)(e, res.0, res.1);
    let next = apply(&ar.minus, at, s);
    let size = (ar.size)(s.0, s.1);
    let step_limit = F64 { bits: STEP_LIMIT };
    if step_limit.gt(size) {
        return next;
    }
    settle(ar, d, target, next, n - 1)
}

/// `out` is the forward model at `p`, computed in the frame of the center.
pub open spec fn is_distorted<
    E: Fn(&RadialDistortion, F64, F64) -> BrownConradyEval,
    A: Fn(F64, F64) -> F64,
    S: Fn(F64, F64) -> F64,
    Q: Fn(F64, F64) -> F64,
    D: Fn(BrownConradyEval) -> F64,
    T: Fn(BrownConradyEval, F64, F64) -> (F64, F64),
    Z: Fn(F64, F64) -> F64,
>(
    ar: PlaneArithmetic<E, A, S, Q, D, T, Z>,
    d: RadialDistortion,
    p: Point,
    out: Point,
) -> bool {
    exists|c: Point, e: BrownConradyEval|
        {
            &&& #[trigger] pairwise(ar.minus, p, d.center, c)
            &&& #[trigger] call_ensures(ar.evaluate, (&d, c.0, c.1), e)
            &&& pairwise(ar.plus, (e.fx, e.fy), d.center, out)
        }
}

/// `out` is where the iteration for `p` settles, computed in the frame of the
/// center from the guess that there is no distortion.
pub open spec fn is_undistorted<
    E: Fn(&RadialDistortion, F64, F64) -> BrownConradyEval,
    A: Fn(F64, F64) -> F64,
    S: Fn(F64, F64) -> F64,
    Q: Fn(F64, F64) -> F64,
    D: Fn(BrownConradyEval) -> F64,
    T: Fn(BrownConradyEval, F64, F64) -> (F64, F64),
    Z: Fn(F64, F64) -> F64,
>(
    ar: PlaneArithmetic<E, A, S, Q, D, T, Z>,
    d: RadialDistortion,
    p: Point,
    out: Point,
) -> bool {
    exists|c: Point, s: Point|
        {
            &&& #[trigger] pairwise(ar.minus, p, d.center, c)
            &&& #[trigger] settles(ar, d, c, c, MAX_STEPS as nat, s)
            &&& pairwise(ar.plus, s, d.center, out)
        }
}

impl RadialDistortion {
    /// Forward distortion: from ideal (pinhole) pixel coordinates to where the
    /// star actually appears.
    pub fn distort<
        E: Fn(&RadialDistortion, F64, F64) -> BrownConradyEval,
        A: Fn(F64, F64) -> F64,
        S: Fn(F64, F64) -> F64,
        Q: Fn(F64, F64) -> F64,
        D: Fn(BrownConradyEval) -> F64,
        T: Fn(BrownConradyEval, F64, F64) -> (F64, F64),
        Z: Fn(F64, F64) -> F64,
    >(&self, x: F64, y: F64, ar: &PlaneArithmetic<E, A, S, Q, D, T, Z>) -> (out: Point)
        requires
            plane_total(*ar),
        ensures
            is_distorted(*ar, *self, (x, y), out),
    {
        let c = apply(&ar.minus, (x, y), self.center);
        let e = (ar.evaluate)(self, c.0, c.1);
        apply(&ar.plus, (e.fx, e.fy), self.center)
    }

    /// Inverse distortion: from observed to ideal (pinhole) coordinates, by
    /// Newton's iteration on the forward model.
    pub fn undistort<
        E: Fn(&RadialDistortion, F64, F64) -> BrownConradyEval,
        A: Fn(F64, F64) -> F64,
        S: Fn(F64, F64) -> F64,
        Q: Fn(F64, F64) -> F64,
        D: Fn(BrownConradyEval) -> F64,
        T: Fn(BrownConradyEval, F64, F64) -> (F64, F64),
        Z: Fn(F64, F64) -> F64,
    >(&self, x_d: F64, y_d: F64, ar: &PlaneArithmetic<E, A, S, Q, D, T, Z>) -> (out: Point)
        requires
            plane_total(*ar),
        ensures
            is_undistorted(*ar, *self, (x_d, y_d), out),
    {
        let c = apply(&ar.minus, (x_d, y_d), self.center);
        let s = settle(ar, self, c, c, MAX_STEPS);
        apply(&ar.plus, s, self.center)
    }
}

/// A model validates if and only if what it was made of is finite; the
/// coefficients that a constructor leaves out are.
pub proof fn law_valid_model(cx: F64, cy: F64, k1: F64, k2: F64, k3: F64, p1: F64, p2: F64)
    ensures
        RadialDistortion::model(cx, cy, k1, k2, k3, p1, p2).all_finite() <==> cx.finite()
            && cy.finite() && k1.finite() && k2.finite() && k3.finite() && p1.finite()
            && p2.finite(),
        zero_64().finite(),
{
}

/// Where the forward model is exact at the first guess and shifting to the
/// center and back loses nothing, undistortion gives the point back.
pub proof fn law_undistorted_stays<
    E: Fn(&RadialDistortion, F64, F64) -> BrownConradyEval,
    A: Fn(F64, F64) -> F64,
    S: Fn(F64, F64) -> F64,
    Q: Fn(F64, F64) -> F64,
    D: Fn(BrownConradyEval) -> F64,
    T: Fn(BrownConradyEval, F64, F64) -> (F64, F64),
    Z: Fn(F64, F64) -> F64,
>(ar: PlaneArithmetic<E, A, S, Q, D, T, Z>, d: RadialDistortion, p: Point, out: Point)
    requires
        is_undistorted(ar, d, p, out),
        forall|c: Point, e: BrownConradyEval, res: Point, q: F64|
            pairwise(ar.minus, p, d.center, c) && #[trigger] call_ensures(
                ar.evaluate,
                (&d, c.0, c.1),
                e,
            ) && #[trigger] pairwise(ar.minus, (e.fx, e.fy), c, res) && #[trigger] call_ensures(
                ar.squares,
                (res.0, res.1),
                q,
            ) ==> (F64 { bits: RESIDUAL_LIMIT }).above(q),
        forall|c: Point, q: Point| #[trigger]
            pairwise(ar.minus, p, d.center, c) && #[trigger] pairwise(ar.plus, c, d.center, q)
                ==> q == p,
    ensures
        out == p,
{
    let (c, s) = choose|c: Point, s: Point|
        {
            &&& #[trigger] pairwise(ar.minus, p, d.center, c)
            &&& #[trigger] settles(ar, d, c, c, MAX_STEPS as nat, s)
            &&& pairwise(ar.plus, s, d.center, out)
        };
    assert(s == c);
}

/// The forward model gives `target` at `p`, the residual being negligible.
pub open spec fn solves_forward<
    E: Fn(&RadialDistortion, F64, F64) -> BrownConradyEval,
    A: Fn(F64, F64) -> F64,
    S: Fn(F64, F64) -> F64,
    Q: Fn(F64, F64) -> F64,
    D: Fn(BrownConradyEval) -> F64,
    T: Fn(BrownConradyEval, F64, F64) -> (F64, F64),
    Z: Fn(F64, F64) -> F64,
>(
    ar: PlaneArithmetic<E, A, S, Q, D, T, Z>,
    d: RadialDistortion,
    target: Point,
    p: Point,
) -> bool {
    exists|e: BrownConradyEval, res: Point, q: F64|
        {
            &&& #[trigger] call_ensures(ar.evaluate, (&d, p.0, p.1), e)
            &&& #[trigger] pairwise(ar.minus, (e.fx, e.fy), target, res)
            &&& #[trigger] call_ensures(ar.squares, (res.0, res.1), q)
            &&& (F64 { bits: RESIDUAL_LIMIT }).above(q)
        }
}

/// The Jacobian at `p` is singular.
pub open spec fn is_singular<
    E: Fn(&RadialDistortion, F64, F64) -> BrownConradyEval,
    A: Fn(F64, F64) -> F64,
    S: Fn(F64, F64) -> F64,
    Q: Fn(F64, F64) -> F64,
    D: Fn(BrownConradyEval) -> F64,
    T: Fn(BrownConradyEval, F64, F64) -> (F64, F64),
    Z: Fn(F64, F64) -> F64,
>(ar: PlaneArithmetic<E, A, S, Q, D, T, Z>, d: RadialDistortion, p: Point) -> bool {
    exists|e: BrownConradyEval, det: F64|
        {
            &&& #[trigger] call_ensures(ar.evaluate, (&d, p.0, p.1), e)
            &&& #[trigger] call_ensures(ar.determinant, (e,), det)
            &&& (F64 { bits: DETERMINANT_LIMIT }).above(det)
        }
}

/// A Newton step leads from `p` to `next`, a negligible one where `last`.
pub open spec fn steps_to<
    E: Fn(&RadialDistortion, F64, F64) -> BrownConradyEval,
    A: Fn(F64, F64) -> F64,
    S: Fn(F64, F64) -> F64,
    Q: Fn(F64, F64) -> F64,
    D: Fn(BrownConradyEval) -> F64,
    T: Fn(BrownConradyEval, F64, F64) -> (F64, F64),
    Z: Fn(F64, F64) -> F64,
>(
    ar: PlaneArithmetic<E, A, S, Q, D, T, Z>,
    d: RadialDistortion,
    target: Point,
    p: Point,
    next: Point,
    last: bool,
) -> bool {
    exists|e: BrownConradyEval, res: Point, s: Point, size: F64|
        {
            &&& #[trigger] call_ensures(ar.evaluate, (&d, p.0, p.1), e)
            &&& #[trigger] pairwise(ar.minus, (e.fx, e.fy), target, res)
            &&& #[trigger] call_ensures(ar.step, (e, res.0, res.1), s)
            &&& pairwise(ar.minus, p, s, next)
            &&& #[trigger] call_ensures(ar.size, (s.0, s.1), size)
            &&& last == (F64 { bits: STEP_LIMIT }).above(size)
        }
}

/// `n` Newton steps, none of them negligible, lead from `p` to `out`.
pub open spec fn walks<
    E: Fn(&RadialDistortion, F64, F64) -> BrownConradyEval,
    A: Fn(F64, F64) -> F64,
    S: Fn(F64, F64) -> F64,
    Q: Fn(F64, F64) -> F64,
    D: Fn(BrownConradyEval) -> F64,
    T: Fn(BrownConradyEval, F64, F64) -> (F64, F64),
    Z: Fn(F64, F64) -> F64,
>(
    ar: PlaneArithmetic<E, A, S, Q, D, T, Z>,
    d: RadialDistortion,
    target: Point,
    p: Point,
    n: nat,
    out: Point,
) -> bool
    decreases n,
{
    if n == 0 {
        out == p
    } else {
        exists|next: Point|
            {
                &&& #[trigger] steps_to(ar, d, target, p, next, false)
                &&& walks(ar, d, target, next, (n - 1) as nat, out)
            }
    }
}

/// Newton's iteration ends for one of four reasons: the forward model gives the
/// target there, the Jacobian there is singular, the last step was negligible, or
/// all steps were taken.
pub proof fn law_iteration_ends<
    E: Fn(&RadialDistortion, F64, F64) -> BrownConradyEval,
    A: Fn(F64, F64) -> F64,
    S: Fn(F64, F64) -> F64,
    Q: Fn(F64, F64) -> F64,
    D: Fn(BrownConradyEval) -> F64,
    T: Fn(BrownConradyEval, F64, F64) -> (F64, F64),
    Z: Fn(F64, F64) -> F64,
>(
    ar: PlaneArithmetic<E, A, S, Q, D, T, Z>,
    d: RadialDistortion,
    target: Point,
    at: Point,
    n: nat,
    out: Point,
)
    requires
        settles(ar, d, target, at, n, out),
    ensures
        ({
            ||| solves_forward(ar, d, target, out)
            ||| is_singular(ar, d, out)
            ||| exists|p: Point| #[trigger] steps_to(ar, d, target, p, out, true)
            ||| walks(ar, d, target, at, n, out)
        }),
    decreases n,
{
    if n > 0 {
        let (e, res, q) = choose|e: BrownConradyEval, res: Point, q: F64|
            {
                &&& #[trigger] call_ensures(ar.evaluate, (&d, at.0, at.1), e)
                &&& #[trigger] pairwise(ar.minus, (e.fx, e.fy), target, res)
                &&& #[trigger] call_ensures(ar.squares, (res.0, res.1), q)
                &&& if (F64 { bits: RESIDUAL_LIMIT }).above(q) {
                    out == at
                } else {
                    exists|det: F64|
                        {
                            &&& #[trigger] call_ensures(ar.determinant, (e,), det)
                            &&& if (F64 { bits: DETERMINANT_LIMIT }).above(det) {
                                out == at
                            } else {
                                exists|s: Point, next: Point, size: F64|
                                    {
                                        &&& #[trigger] call_ensures(ar.step, (e, res.0, res.1), s)
                                        &&& #[trigger] pairwise(ar.minus, at, s, next)
                                        &&& #[trigger] call_ensures(ar.size, (s.0, s.1), size)
                                        &&& if (F64 { bits: STEP_LIMIT }).above(size) {
                                            out == next
                                        } else {
                                            settles(ar, d, target, next, (n - 1) as nat, out)
                                        }
                                    }
                            }
                        }
                }
            };
        if !(F64 { bits: RESIDUAL_LIMIT }).above(q) {
            let det = choose|det: F64|
                {
                    &&& #[trigger] call_ensures(ar.determinant, (e,), det)
                    &&& if (F64 { bits: DETERMINANT_LIMIT }).above(det) {
                        out == at
                    } else {
                        exists|s: Point, next: Point, size: F64|
                                    {
                                        &&& #[trigger] call_ensures(ar.step, (e, res.0, res.1), s)
                                        &&& #[trigger] pairwise(ar.minus, at, s, next)
                                        &&& #[trigger] call_ensures(ar.size, (s.0, s.1), size)
                                        &&& if (F64 { bits: STEP_LIMIT }).above(size) {
                                            out == next
                                        } else {
                                            settles(ar, d, target, next, (n - 1) as nat, out)
                                        }
                                    }
                    }
                };
            if !(F64 { bits: DETERMINANT_LIMIT }).above(det) {
                let (s, next, size) = choose|s: Point, next: Point, size: F64|
                    {
                        &&& #[trigger] call_ensures(ar.step, (e, res.0, res.1), s)
                        &&& #[trigger] pairwise(ar.minus, at, s, next)
                        &&& #[trigger] call_ensures(ar.size, (s.0, s.1), size)
                        &&& if (F64 { bits: STEP_LIMIT }).above(size) {
                            out == next
                        } else {
                            settles(ar, d, target, next, (n - 1) as nat, out)
                        }
                    };
                let last = (F64 { bits: STEP_LIMIT }).above(size);
                assert(steps_to(ar, d, target, at, next, last));
                if !last {
                    law_iteration_ends(ar, d, target, next, (n - 1) as nat, out);
                }
            }
        }
    }
}

/// Equal questions to a function of two numbers have equal answers.
pub open spec fn two_steady<A: Fn(F64, F64) -> F64>(f: A) -> bool {
    forall|a: F64, b: F64, x: F64, y: F64| #[trigger]
        call_ensures(f, (a, b), x) && #[trigger] call_ensures(f, (a, b), y) ==> x == y
}

/// The arithmetic of the model answers equal questions alike.
pub open spec fn plane_steady<
    E: Fn(&RadialDistortion, F64, F64) -> BrownConradyEval,
    A: Fn(F64, F64) -> F64,
    S: Fn(F64, F64) -> F64,
    Q: Fn(F64, F64) -> F64,
    D: Fn(BrownConradyEval) -> F64,
    T: Fn(BrownConradyEval, F64, F64) -> (F64, F64),
    Z: Fn(F64, F64) -> F64,
>(ar: PlaneArithmetic<E, A, S, Q, D, T, Z>) -> bool {
    &&& forall|d: RadialDistortion, x: F64, y: F64, u: BrownConradyEval, v: BrownConradyEval|
        #[trigger]
        call_ensures(ar.evaluate, (&d, x, y), u) && #[trigger] call_ensures(
            ar.evaluate,
            (&d, x, y),
            v,
        ) ==> u == v
    &&& two_steady(ar.plus)
    &&& two_steady(ar.minus)
    &&& two_steady(ar.squares)
    &&& two_steady(ar.size)
    &&& forall|e: BrownConradyEval, u: F64, v: F64| #[trigger]
        call_ensures(ar.determinant, (e,), u) && #[trigger] call_ensures(
            ar.determinant,
            (e,),
            v,
        ) ==> u == v
    &&& forall|e: BrownConradyEval, a: F64, b: F64, u: Point, v: Point| #[trigger]
        call_ensures(ar.step, (e, a, b), u) && #[trigger] call_ensures(ar.step, (e, a, b), v)
            ==> u == v
}

/// The forward model goes by the coefficients of a model, not by its center: the
/// two models, alike but for that, have the same answers.
pub open spec fn same_forward<
    E: Fn(&RadialDistortion, F64, F64) -> BrownConradyEval,
    A: Fn(F64, F64) -> F64,
    S: Fn(F64, F64) -> F64,
    Q: Fn(F64, F64) -> F64,
    D: Fn(BrownConradyEval) -> F64,
    T: Fn(BrownConradyEval, F64, F64) -> (F64, F64),
    Z: Fn(F64, F64) -> F64,
>(
    ar: PlaneArithmetic<E, A, S, Q, D, T, Z>,
    d: RadialDistortion,
    e: RadialDistortion,
) -> bool {
    &&& d == RadialDistortion { center: d.center, ..e }
    &&& forall|x: F64, y: F64, v: BrownConradyEval| #[trigger]
        call_ensures(ar.evaluate, (&d, x, y), v) <==> #[trigger] call_ensures(
            ar.evaluate,
            (&e, x, y),
            v,
        )
}

proof fn lemma_settles_alike<
    E: Fn(&RadialDistortion, F64, F64) -> BrownConradyEval,
    A: Fn(F64, F64) -> F64,
    S: Fn(F64, F64) -> F64,
    Q: Fn(F64, F64) -> F64,
    D: Fn(BrownConradyEval) -> F64,
    T: Fn(BrownConradyEval, F64, F64) -> (F64, F64),
    Z: Fn(F64, F64) -> F64,
>(
    ar: PlaneArithmetic<E, A, S, Q, D, T, Z>,
    d: RadialDistortion,
    e: RadialDistortion,
    target: Point,
    at: Point,
    n: nat,
    a: Point,
    b: Point,
)
    requires
        plane_steady(ar),
        same_forward(ar, d, e),
        settles(ar, d, target, at, n, a),
        settles(ar, e, target, at, n, b),
    ensures
        a == b,
    decreases n,
{
    if n > 0 {
        let (v1, r1, q1) = lemma_settles_open(ar, d, target, at, n, a);
        let (v2, r2, q2) = lemma_settles_open(ar, e, target, at, n, b);
        assert(call_ensures(ar.evaluate, (&e, at.0, at.1), v1));
        assert(v1 == v2);
        assert(r1 == r2);
        assert(q1 == q2);
        if !(F64 { bits: RESIDUAL_LIMIT }).above(q1) {
            let (t1, s1, n1, z1) = lemma_settles_step(ar, d, target, at, n, a, v1, r1, q1);
            let (t2, s2, n2, z2) = lemma_settles_step(ar, e, target, at, n, b, v1, r1, q1);
            assert(t1 == t2);
            if !(F64 { bits: DETERMINANT_LIMIT }).above(t1) {
                assert(s1 == s2);
                assert(n1 == n2);
                assert(z1 == z2);
                if !(F64 { bits: STEP_LIMIT }).above(z1) {
                    lemma_settles_alike(ar, d, e, target, n1, (n - 1) as nat, a, b);
                }
            }
        }
    }
}

/// How an iteration that is not over goes on: the model, the residual and its
/// square at the point that was reached.
proof fn lemma_settles_open<
    E: Fn(&RadialDistortion, F64, F64) -> BrownConradyEval,
    A: Fn(F64, F64) -> F64,
    S: Fn(F64, F64) -> F64,
    Q: Fn(F64, F64) -> F64,
    D: Fn(BrownConradyEval) -> F64,
    T: Fn(BrownConradyEval, F64, F64) -> (F64, F64),
    Z: Fn(F64, F64) -> F64,
>(
    ar: PlaneArithmetic<E, A, S, Q, D, T, Z>,
    d: RadialDistortion,
    target: Point,
    at: Point,
    n: nat,
    out: Point,
) -> (r: (BrownConradyEval, Point, F64))
    requires
        n > 0,
        settles(ar, d, target, at, n, out),
    ensures
        call_ensures(ar.evaluate, (&d, at.0, at.1), r.0),
        pairwise(ar.minus, (r.0.fx, r.0.fy), target, r.1),
        call_ensures(ar.squares, (r.1.0, r.1.1), r.2),
        (F64 { bits: RESIDUAL_LIMIT }).above(r.2) ==> out == at,
        !(F64 { bits: RESIDUAL_LIMIT }).above(r.2) ==> goes_on(
            ar,
            d,
            target,
            at,
            n,
            out,
            r.0,
            r.1,
        ),
{
    let (e, res, q) = choose|e: BrownConradyEval, res: Point, q: F64|
        {
            &&& #[trigger] call_ensures(ar.evaluate, (&d, at.0, at.1), e)
            &&& #[trigger] pairwise(ar.minus, (e.fx, e.fy), target, res)
            &&& #[trigger] call_ensures(ar.squares, (res.0, res.1), q)
            &&& if (F64 { bits: RESIDUAL_LIMIT }).above(q) {
                out == at
            } else {
                exists|det: F64|
                    {
                        &&& #[trigger] call_ensures(ar.determinant, (e,), det)
                        &&& if (F64 { bits: DETERMINANT_LIMIT }).above(det) {
                            out == at
                        } else {
                            exists|s: Point, next: Point, size: F64|
                                {
                                    &&& #[trigger] call_ensures(ar.step, (e, res.0, res.1), s)
                                    &&& #[trigger] pairwise(ar.minus, at, s, next)
                                    &&& #[trigger] call_ensures(ar.size, (s.0, s.1), size)
                                    &&& if (F64 { bits: STEP_LIMIT }).above(size) {
                                        out == next
                                    } else {
                                        settles(ar, d, target, next, (n - 1) as nat, out)
                                    }
                                }
                        }
                    }
            }
        };
    (e, res, q)
}

/// The iteration goes on from `at`, where the model answered `e` with the residual
/// `res`, and ends at `out`.
spec fn goes_on<
    E: Fn(&RadialDistortion, F64, F64) -> BrownConradyEval,
    A: Fn(F64, F64) -> F64,
    S: Fn(F64, F64) -> F64,
    Q: Fn(F64, F64) -> F64,
    D: Fn(BrownConradyEval) -> F64,
    T: Fn(BrownConradyEval, F64, F64) -> (F64, F64),
    Z: Fn(F64, F64) -> F64,
>(
    ar: PlaneArithmetic<E, A, S, Q, D, T, Z>,
    d: RadialDistortion,
    target: Point,
    at: Point,
    n: nat,
    out: Point,
    e: BrownConradyEval,
    res: Point,
) -> bool {
    exists|det: F64|
        {
            &&& #[trigger] call_ensures(ar.determinant, (e,), det)
            &&& if (F64 { bits: DETERMINANT_LIMIT }).above(det) {
                out == at
            } else {
                exists|s: Point, next: Point, size: F64|
                    {
                        &&& #[trigger] call_ensures(ar.step, (e, res.0, res.1), s)
                        &&& #[trigger] pairwise(ar.minus, at, s, next)
                        &&& #[trigger] call_ensures(ar.size, (s.0, s.1), size)
                        &&& if (F64 { bits: STEP_LIMIT }).above(size) {
                            out == next
                        } else {
                            settles(ar, d, target, next, (n - 1) as nat, out)
                        }
                    }
            }
        }
}

/// Determinant, step, next point and size of the step of an iteration that goes
/// on.
proof fn lemma_settles_step<
    E: Fn(&RadialDistortion, F64, F64) -> BrownConradyEval,
    A: Fn(F64, F64) -> F64,
    S: Fn(F64, F64) -> F64,
    Q: Fn(F64, F64) -> F64,
    D: Fn(BrownConradyEval) -> F64,
    T: Fn(BrownConradyEval, F64, F64) -> (F64, F64),
    Z: Fn(F64, F64) -> F64,
>(
    ar: PlaneArithmetic<E, A, S, Q, D, T, Z>,
    d: RadialDistortion,
    target: Point,
    at: Point,
    n: nat,
    out: Point,
    e: BrownConradyEval,
    res: Point,
    q: F64,
) -> (r: (F64, Point, Point, F64))
    requires
        n > 0,
        goes_on(ar, d, target, at, n, out, e, res),
    ensures
        call_ensures(ar.determinant, (e,), r.0),
        (F64 { bits: DETERMINANT_LIMIT }).above(r.0) ==> out == at,
        !(F64 { bits: DETERMINANT_LIMIT }).above(r.0) ==> {
            &&& call_ensures(ar.step, (e, res.0, res.1), r.1)
            &&& pairwise(ar.minus, at, r.1, r.2)
            &&& call_ensures(ar.size, (r.1.0, r.1.1), r.3)
            &&& (F64 { bits: STEP_LIMIT }).above(r.3) ==> out == r.2
            &&& !(F64 { bits: STEP_LIMIT }).above(r.3) ==> settles(
                ar,
                d,
                target,
                r.2,
                (n - 1) as nat,
                out,
            )
        },
{
    let det = choose|det: F64|
        {
            &&& #[trigger] call_ensures(ar.determinant, (e,), det)
            &&& if (F64 { bits: DETERMINANT_LIMIT }).above(det) {
                out == at
            } else {
                exists|s: Point, next: Point, size: F64|
                    {
                        &&& #[trigger] call_ensures(ar.step, (e, res.0, res.1), s)
                        &&& #[trigger] pairwise(ar.minus, at, s, next)
                        &&& #[trigger] call_ensures(ar.size, (s.0, s.1), size)
                        &&& if (F64 { bits: STEP_LIMIT }).above(size) {
                            out == next
                        } else {
                            settles(ar, d, target, next, (n - 1) as nat, out)
                        }
                    }
            }
        };
    if (F64 { bits: DETERMINANT_LIMIT }).above(det) {
        (det, at, at, det)
    } else {
        let (s, next, size) = choose|s: Point, next: Point, size: F64|
            {
                &&& #[trigger] call_ensures(ar.step, (e, res.0, res.1), s)
                &&& #[trigger] pairwise(ar.minus, at, s, next)
                &&& #[trigger] call_ensures(ar.size, (s.0, s.1), size)
                &&& if (F64 { bits: STEP_LIMIT }).above(size) {
                    out == next
                } else {
                    settles(ar, d, target, next, (n - 1) as nat, out)
                }
            };
        (det, s, next, size)
    }
}

/// Moving from the center of `d` to that of `e` is moving by `shift`, exactly: `p`
/// lies from the one as `q` does from the other, and what is put back at the one
/// and at the other differs by the shift.
pub open spec fn shifted_exactly<
    E: Fn(&RadialDistortion, F64, F64) -> BrownConradyEval,
    A: Fn(F64, F64) -> F64,
    S: Fn(F64, F64) -> F64,
    Q: Fn(F64, F64) -> F64,
    D: Fn(BrownConradyEval) -> F64,
    T: Fn(BrownConradyEval, F64, F64) -> (F64, F64),
    Z: Fn(F64, F64) -> F64,
>(
    ar: PlaneArithmetic<E, A, S, Q, D, T, Z>,
    d: RadialDistortion,
    p: Point,
    e: RadialDistortion,
    q: Point,
    shift: Point,
) -> bool {
    &&& forall|c: Point| #[trigger]
        pairwise(ar.minus, p, d.center, c) <==> #[trigger] pairwise(ar.minus, q, e.center, c)
    &&& forall|c: Point, x: Point, y: Point| #[trigger]
        pairwise(ar.plus, c, d.center, x) && #[trigger] pairwise(ar.plus, c, e.center, y)
            ==> pairwise(ar.plus, x, shift, y)
}

/// Distortion moves with its center: moving a point and the center of the model
/// by the same amount moves the distorted point by that amount. So a model acts on
/// a point as the one about the image center acts on the point's place from its
/// own center.
pub proof fn law_distortion_moves_with_center<
    E: Fn(&RadialDistortion, F64, F64) -> BrownConradyEval,
    A: Fn(F64, F64) -> F64,
    S: Fn(F64, F64) -> F64,
    Q: Fn(F64, F64) -> F64,
    D: Fn(BrownConradyEval) -> F64,
    T: Fn(BrownConradyEval, F64, F64) -> (F64, F64),
    Z: Fn(F64, F64) -> F64,
>(
    ar: PlaneArithmetic<E, A, S, Q, D, T, Z>,
    d: RadialDistortion,
    p: Point,
    a: Point,
    e: RadialDistortion,
    q: Point,
    b: Point,
    shift: Point,
)
    requires
        plane_steady(ar),
        same_forward(ar, d, e),
        shifted_exactly(ar, d, p, e, q, shift),
        call_ensures(
            RadialDistortion::distort::<E, A, S, Q, D, T, Z>,
            (&d, p.0, p.1, &ar),
            a,
        ),
        call_ensures(
            RadialDistortion::distort::<E, A, S, Q, D, T, Z>,
            (&e, q.0, q.1, &ar),
            b,
        ),
    ensures
        pairwise(ar.plus, a, shift, b),
{
    let (c1, v1) = choose|c: Point, v: BrownConradyEval|
        {
            &&& #[trigger] pairwise(ar.minus, p, d.center, c)
            &&& #[trigger] call_ensures(ar.evaluate, (&d, c.0, c.1), v)
            &&& pairwise(ar.plus, (v.fx, v.fy), d.center, a)
        };
    let (c2, v2) = choose|c: Point, v: BrownConradyEval|
        {
            &&& #[trigger] pairwise(ar.minus, q, e.center, c)
            &&& #[trigger] call_ensures(ar.evaluate, (&e, c.0, c.1), v)
            &&& pairwise(ar.plus, (v.fx, v.fy), e.center, b)
        };
    assert(pairwise(ar.minus, p, d.center, c2));
    assert(c1 == c2);
    assert(call_ensures(ar.evaluate, (&e, c1.0, c1.1), v1));
    assert(v1 == v2);
}

/// Undistortion moves with the center of the model in the same way.
pub proof fn law_undistortion_moves_with_center<
    E: Fn(&RadialDistortion, F64, F64) -> BrownConradyEval,
    A: Fn(F64, F64) -> F64,
    S: Fn(F64, F64) -> F64,
    Q: Fn(F64, F64) -> F64,
    D: Fn(BrownConradyEval) -> F64,
    T: Fn(BrownConradyEval, F64, F64) -> (F64, F64),
    Z: Fn(F64, F64) -> F64,
>(
    ar: PlaneArithmetic<E, A, S, Q, D, T, Z>,
    d: RadialDistortion,
    p: Point,
    a: Point,
    e: RadialDistortion,
    q: Point,
    b: Point,
    shift: Point,
)
    requires
        plane_steady(ar),
        same_forward(ar, d, e),
        shifted_exactly(ar, d, p, e, q, shift),
        call_ensures(
            RadialDistortion::undistort::<E, A, S, Q, D, T, Z>,
            (&d, p.0, p.1, &ar),
            a,
        ),
        call_ensures(
            RadialDistortion::undistort::<E, A, S, Q, D, T, Z>,
            (&e, q.0, q.1, &ar),
            b,
        ),
    ensures
        pairwise(ar.plus, a, shift, b),
{
    let (c1, s1) = choose|c: Point, s: Point|
        {
            &&& #[trigger] pairwise(ar.minus, p, d.center, c)
            &&& #[trigger] settles(ar, d, c, c, MAX_STEPS as nat, s)
            &&& pairwise(ar.plus, s, d.center, a)
        };
    let (c2, s2) = choose|c: Point, s: Point|
        {
            &&& #[trigger] pairwise(ar.minus, q, e.center, c)
            &&& #[trigger] settles(ar, e, c, c, MAX_STEPS as nat, s)
            &&& pairwise(ar.plus, s, e.center, b)
        };
    assert(pairwise(ar.minus, p, d.center, c2));
    assert(c1 == c2);
    lemma_settles_alike(ar, d, e, c1, c1, MAX_STEPS as nat, s1, s2);
}

/// A point stays where it is only where the forward model leaves its place from
/// the center as it is.
pub proof fn law_distortion_acts<
    E: Fn(&RadialDistortion, F64, F64) -> BrownConradyEval,
    A: Fn(F64, F64) -> F64,
    S: Fn(F64, F64) -> F64,
    Q: Fn(F64, F64) -> F64,
    D: Fn(BrownConradyEval) -> F64,
    T: Fn(BrownConradyEval, F64, F64) -> (F64, F64),
    Z: Fn(F64, F64) -> F64,
>(ar: PlaneArithmetic<E, A, S, Q, D, T, Z>, d: RadialDistortion, p: Point, out: Point)
    requires
        call_ensures(
            RadialDistortion::distort::<E, A, S, Q, D, T, Z>,
            (&d, p.0, p.1, &ar),
            out,
        ),
        forall|c: Point, e: BrownConradyEval| #[trigger]
            pairwise(ar.minus, p, d.center, c) && #[trigger] call_ensures(
                ar.evaluate,
                (&d, c.0, c.1),
                e,
            ) ==> (e.fx, e.fy) != c,
        forall|c: Point, u: Point| #[trigger]
            pairwise(ar.minus, p, d.center, c) && #[trigger] pairwise(ar.plus, u, d.center, p)
                ==> u == c,
    ensures
        out != p,
{
    let (c, e) = choose|c: Point, e: BrownConradyEval|
        {
            &&& #[trigger] pairwise(ar.minus, p, d.center, c)
            &&& #[trigger] call_ensures(ar.evaluate, (&d, c.0, c.1), e)
            &&& pairwise(ar.plus, (e.fx, e.fy), d.center, out)
        };
    if out == p {
        assert(pairwise(ar.plus, (e.fx, e.fy), d.center, p));
    }
}

/// Newton's step lands: wherever the Jacobian can be divided by, the point less
/// the step has `target` as its image, up to a residual whose square is below
/// 1e-20.
pub open spec fn steps_land<
    E: Fn(&RadialDistortion, F64, F64) -> BrownConradyEval,
    A: Fn(F64, F64) -> F64,
    S: Fn(F64, F64) -> F64,
    Q: Fn(F64, F64) -> F64,
    D: Fn(BrownConradyEval) -> F64,
    T: Fn(BrownConradyEval, F64, F64) -> (F64, F64),
    Z: Fn(F64, F64) -> F64,
>(
    ar: PlaneArithmetic<E, A, S, Q, D, T, Z>,
    d: RadialDistortion,
    target: Point,
) -> bool {
    forall|p: Point, e: BrownConradyEval, res: Point, s: Point, next: Point, f: BrownConradyEval,
        left: Point, q: F64|
        #[trigger] call_ensures(ar.evaluate, (&d, p.0, p.1), e) && #[trigger] pairwise(
            ar.minus,
            (e.fx, e.fy),
            target,
            res,
        ) && #[trigger] call_ensures(ar.step, (e, res.0, res.1), s) && #[trigger] pairwise(
            ar.minus,
            p,
            s,
            next,
        ) && #[trigger] call_ensures(ar.evaluate, (&d, next.0, next.1), f) && #[trigger] pairwise(
            ar.minus,
            (f.fx, f.fy),
            target,
            left,
        ) && #[trigger] call_ensures(ar.squares, (left.0, left.1), q) ==> (F64 {
            bits: 0x3bc7_9ca1_0c92_4223,
        }).above(q)
}

/// Undistortion undoes distortion: where Newton's step lands, where points with
/// the same image, up to a negligible residual, are the same, and where shifting
/// to the center and back is exact, undistorting a distorted point gives the point.
pub proof fn law_undistortion_undoes<
    E: Fn(&RadialDistortion, F64, F64) -> BrownConradyEval,
    A: Fn(F64, F64) -> F64,
    S: Fn(F64, F64) -> F64,
    Q: Fn(F64, F64) -> F64,
    D: Fn(BrownConradyEval) -> F64,
    T: Fn(BrownConradyEval, F64, F64) -> (F64, F64),
    Z: Fn(F64, F64) -> F64,
>(
    ar: PlaneArithmetic<E, A, S, Q, D, T, Z>,
    d: RadialDistortion,
    p: Point,
    out: Point,
    back: Point,
)
    requires
        plane_answers(ar),
        call_ensures(
            RadialDistortion::distort::<E, A, S, Q, D, T, Z>,
            (&d, p.0, p.1, &ar),
            out,
        ),
        call_ensures(
            RadialDistortion::undistort::<E, A, S, Q, D, T, Z>,
            (&d, out.0, out.1, &ar),
            back,
        ),
        forall|target: Point| #[trigger] steps_land(ar, d, target),
        forall|e: BrownConradyEval, t: F64| #[trigger]
            call_ensures(ar.determinant, (e,), t) ==> !(F64 {
                bits: 0x3cd2_03af_9ee7_5616,
            }).above(t),
        forall|c: Point, v: BrownConradyEval, u: Point, w: BrownConradyEval, left: Point, q: F64|
            #[trigger] call_ensures(ar.evaluate, (&d, c.0, c.1), v) && #[trigger] call_ensures(
                ar.evaluate,
                (&d, u.0, u.1),
                w,
            ) && #[trigger] pairwise(ar.minus, (w.fx, w.fy), (v.fx, v.fy), left)
                && #[trigger] call_ensures(ar.squares, (left.0, left.1), q) && (F64 {
                bits: 0x3bc7_9ca1_0c92_4223,
            }).above(q) ==> u == c,
        forall|c: Point, x: Point, u: Point| #[trigger]
            pairwise(ar.plus, c, d.center, x) && #[trigger] pairwise(ar.minus, x, d.center, u)
                ==> u == c,
        forall|x: Point, c: Point, y: Point| #[trigger]
            pairwise(ar.minus, x, d.center, c) && #[trigger] pairwise(ar.plus, c, d.center, y)
                ==> y == x,
    ensures
        back == p,
{
    let (c, v) = choose|c: Point, v: BrownConradyEval|
        {
            &&& #[trigger] pairwise(ar.minus, p, d.center, c)
            &&& #[trigger] call_ensures(ar.evaluate, (&d, c.0, c.1), v)
            &&& pairwise(ar.plus, (v.fx, v.fy), d.center, out)
        };
    let f: Point = (v.fx, v.fy);
    let (u, s) = choose|u: Point, s: Point|
        {
            &&& #[trigger] pairwise(ar.minus, out, d.center, u)
            &&& #[trigger] settles(ar, d, u, u, MAX_STEPS as nat, s)
            &&& pairwise(ar.plus, s, d.center, back)
        };
    assert(u == f);
    assert(steps_land(ar, d, f));
    lemma_settles_lands(ar, d, f, f, MAX_STEPS as nat, s);
    let (w, left, q) = choose|w: BrownConradyEval, left: Point, q: F64|
        {
            &&& #[trigger] call_ensures(ar.evaluate, (&d, s.0, s.1), w)
            &&& #[trigger] pairwise(ar.minus, (w.fx, w.fy), f, left)
            &&& #[trigger] call_ensures(ar.squares, (left.0, left.1), q)
            &&& (F64 { bits: 0x3bc7_9ca1_0c92_4223 }).above(q)
        };
    assert(s == c);
}

/// Whatever the model and the residual are asked, there is an answer.
pub open spec fn plane_answers<
    E: Fn(&RadialDistortion, F64, F64) -> BrownConradyEval,
    A: Fn(F64, F64) -> F64,
    S: Fn(F64, F64) -> F64,
    Q: Fn(F64, F64) -> F64,
    D: Fn(BrownConradyEval) -> F64,
    T: Fn(BrownConradyEval, F64, F64) -> (F64, F64),
    Z: Fn(F64, F64) -> F64,
>(ar: PlaneArithmetic<E, A, S, Q, D, T, Z>) -> bool {
    &&& forall|d: RadialDistortion, x: F64, y: F64| #[trigger] has_image(ar.evaluate, d, x, y)
    &&& forall|a: F64, b: F64| #[trigger] has_answer(ar.minus, a, b)
    &&& forall|a: F64, b: F64| #[trigger] has_answer(ar.squares, a, b)
}

/// The model has an answer for a point.
pub open spec fn has_image<E: Fn(&RadialDistortion, F64, F64) -> BrownConradyEval>(
    evaluate: E,
    d: RadialDistortion,
    x: F64,
    y: F64,
) -> bool {
    exists|v: BrownConradyEval| #[trigger] call_ensures(evaluate, (&d, x, y), v)
}

/// A function has an answer for two numbers.
pub open spec fn has_answer<A: Fn(F64, F64) -> F64>(f: A, a: F64, b: F64) -> bool {
    exists|v: F64| #[trigger] call_ensures(f, (a, b), v)
}

/// Where the step lands and the Jacobian can be divided by, more than one step
/// leads to a point whose image is the target.
proof fn lemma_settles_lands<
    E: Fn(&RadialDistortion, F64, F64) -> BrownConradyEval,
    A: Fn(F64, F64) -> F64,
    S: Fn(F64, F64) -> F64,
    Q: Fn(F64, F64) -> F64,
    D: Fn(BrownConradyEval) -> F64,
    T: Fn(BrownConradyEval, F64, F64) -> (F64, F64),
    Z: Fn(F64, F64) -> F64,
>(
    ar: PlaneArithmetic<E, A, S, Q, D, T, Z>,
    d: RadialDistortion,
    target: Point,
    at: Point,
    n: nat,
    out: Point,
)
    requires
        plane_answers(ar),
        n >= 2,
        settles(ar, d, target, at, n, out),
        steps_land(ar, d, target),
        forall|e: BrownConradyEval, t: F64| #[trigger]
            call_ensures(ar.determinant, (e,), t) ==> !(F64 {
                bits: 0x3cd2_03af_9ee7_5616,
            }).above(t),
    ensures
        exists|w: BrownConradyEval, left: Point, q: F64|
            {
                &&& #[trigger] call_ensures(ar.evaluate, (&d, out.0, out.1), w)
                &&& #[trigger] pairwise(ar.minus, (w.fx, w.fy), target, left)
                &&& #[trigger] call_ensures(ar.squares, (left.0, left.1), q)
                &&& (F64 { bits: 0x3bc7_9ca1_0c92_4223 }).above(q)
            },
{
    let (e, res, q) = lemma_settles_open(ar, d, target, at, n, out);
    if !(F64 { bits: RESIDUAL_LIMIT }).above(q) {
        let (det, s, next, size) = lemma_settles_step(ar, d, target, at, n, out, e, res, q);
        if (F64 { bits: STEP_LIMIT }).above(size) {
            assert(has_image(ar.evaluate, d, next.0, next.1));
            let w = choose|w: BrownConradyEval| #[trigger]
                call_ensures(ar.evaluate, (&d, next.0, next.1), w);
            assert(has_answer(ar.minus, w.fx, target.0) && has_answer(ar.minus, w.fy, target.1));
            let x = choose|v: F64| #[trigger] call_ensures(ar.minus, (w.fx, target.0), v);
            let y = choose|v: F64| #[trigger] call_ensures(ar.minus, (w.fy, target.1), v);
            let left: Point = (x, y);
            assert(pairwise(ar.minus, (w.fx, w.fy), target, left));
            assert(has_answer(ar.squares, left.0, left.1));
            let t = choose|v: F64| #[trigger] call_ensures(ar.squares, (left.0, left.1), v);
            assert((F64 { bits: 0x3bc7_9ca1_0c92_4223 }).above(t));
        } else {
            let m = (n - 1) as nat;
            let (f, left, t) = lemma_settles_open(ar, d, target, next, m, out);
            assert((F64 { bits: 0x3bc7_9ca1_0c92_4223 }).above(t));
        }
    }
}

/// Where the center is the origin, so that shifting to it and back changes
/// nothing, a distorted point is what the forward model answers for the point.
pub proof fn law_centered_distortion_is_the_model<
    E: Fn(&RadialDistortion, F64, F64) -> BrownConradyEval,
    A: Fn(F64, F64) -> F64,
    S: Fn(F64, F64) -> F64,
    Q: Fn(F64, F64) -> F64,
    D: Fn(BrownConradyEval) -> F64,
    T: Fn(BrownConradyEval, F64, F64) -> (F64, F64),
    Z: Fn(F64, F64) -> F64,
>(
    ar: PlaneArithmetic<E, A, S, Q, D, T, Z>,
    d: RadialDistortion,
    p: Point,
    out: Point,
)
    requires
        call_ensures(
            RadialDistortion::distort::<E, A, S, Q, D, T, Z>,
            (&d, p.0, p.1, &ar),
            out,
        ),
        forall|x: Point, c: Point| #[trigger] pairwise(ar.minus, x, d.center, c) ==> c == x,
        forall|c: Point, x: Point| #[trigger] pairwise(ar.plus, c, d.center, x) ==> x == c,
    ensures
        exists|v: BrownConradyEval| #[trigger]
            call_ensures(ar.evaluate, (&d, p.0, p.1), v) && out == (v.fx, v.fy),
{
}

/// A model holds what it was made of; the shorter ways to make one leave the rest
/// at zero. It is valid where every one of its seven numbers is finite.
pub proof fn law_model_holds_its_parts(
    cx: F64,
    cy: F64,
    k1: F64,
    k2: F64,
    k3: F64,
    p1: F64,
    p2: F64,
    radial: RadialDistortion,
    tangential: RadialDistortion,
    full: RadialDistortion,
    r: Result<(), NotFinite>,
)
    requires
        call_ensures(RadialDistortion::new, (k1, k2, k3), radial),
        call_ensures(RadialDistortion::with_tangential, (k1, k2, k3, p1, p2), tangential),
        call_ensures(RadialDistortion::with_center, (cx, cy, k1, k2, k3, p1, p2), full),
        call_ensures(RadialDistortion::validate, (&full,), r),
    ensures
        full == (RadialDistortion { center: (cx, cy), k1, k2, k3, p1, p2 }),
        tangential == (RadialDistortion {
            center: (F64 { bits: 0 }, F64 { bits: 0 }),
            k1,
            k2,
            k3,
            p1,
            p2,
        }),
        radial == (RadialDistortion {
            center: (F64 { bits: 0 }, F64 { bits: 0 }),
            k1,
            k2,
            k3,
            p1: F64 { bits: 0 },
            p2: F64 { bits: 0 },
        }),
        r is Ok <==> {
            &&& cx.magnitude() < 0x7ff0_0000_0000_0000 && cy.magnitude() < 0x7ff0_0000_0000_0000
            &&& k1.magnitude() < 0x7ff0_0000_0000_0000 && k2.magnitude() < 0x7ff0_0000_0000_0000
            &&& k3.magnitude() < 0x7ff0_0000_0000_0000
            &&& p1.magnitude() < 0x7ff0_0000_0000_0000 && p2.magnitude() < 0x7ff0_0000_0000_0000
        },
{
}

/// The forward model at `p` misses `target`, and the Jacobian there can be divided
/// by: a step leads to `next`, a negligible one where `brief`.
pub open spec fn newton_step<
    E: Fn(&RadialDistortion, F64, F64) -> BrownConradyEval,
    A: Fn(F64, F64) -> F64,
    S: Fn(F64, F64) -> F64,
    Q: Fn(F64, F64) -> F64,
    D: Fn(BrownConradyEval) -> F64,
    T: Fn(BrownConradyEval, F64, F64) -> (F64, F64),
    Z: Fn(F64, F64) -> F64,
>(
    ar: PlaneArithmetic<E, A, S, Q, D, T, Z>,
    d: RadialDistortion,
    target: Point,
    p: Point,
    next: Point,
    brief: bool,
) -> bool {
    exists|e: BrownConradyEval, res: Point, q: F64, det: F64, s: Point, size: F64|
        {
            &&& #[trigger] call_ensures(ar.evaluate, (&d, p.0, p.1), e)
            &&& #[trigger] pairwise(ar.minus, (e.fx, e.fy), target, res)
            &&& #[trigger] call_ensures(ar.squares, (res.0, res.1), q)
            &&& !(F64 { bits: 0x3bc7_9ca1_0c92_4223 }).above(q)
            &&& #[trigger] call_ensures(ar.determinant, (e,), det)
            &&& !(F64 { bits: 0x3cd2_03af_9ee7_5616 }).above(det)
            &&& #[trigger] call_ensures(ar.step, (e, res.0, res.1), s)
            &&& pairwise(ar.minus, p, s, next)
            &&& #[trigger] call_ensures(ar.size, (s.0, s.1), size)
            &&& brief == (F64 { bits: 0x3d71_9799_812d_ea11 }).above(size)
        }
}

/// The iteration stops at `p`: the forward model there gives `target` up to a
/// negligible residual, or the Jacobian there cannot be divided by.
pub open spec fn stops_at<
    E: Fn(&RadialDistortion, F64, F64) -> BrownConradyEval,
    A: Fn(F64, F64) -> F64,
    S: Fn(F64, F64) -> F64,
    Q: Fn(F64, F64) -> F64,
    D: Fn(BrownConradyEval) -> F64,
    T: Fn(BrownConradyEval, F64, F64) -> (F64, F64),
    Z: Fn(F64, F64) -> F64,
>(
    ar: PlaneArithmetic<E, A, S, Q, D, T, Z>,
    d: RadialDistortion,
    target: Point,
    p: Point,
) -> bool {
    ||| exists|e: BrownConradyEval, res: Point, q: F64|
        {
            &&& #[trigger] call_ensures(ar.evaluate, (&d, p.0, p.1), e)
            &&& #[trigger] pairwise(ar.minus, (e.fx, e.fy), target, res)
            &&& #[trigger] call_ensures(ar.squares, (res.0, res.1), q)
            &&& (F64 { bits: 0x3bc7_9ca1_0c92_4223 }).above(q)
        }
    ||| exists|e: BrownConradyEval, det: F64|
        {
            &&& #[trigger] call_ensures(ar.evaluate, (&d, p.0, p.1), e)
            &&& #[trigger] call_ensures(ar.determinant, (e,), det)
            &&& (F64 { bits: 0x3cd2_03af_9ee7_5616 }).above(det)
        }
}

/// The points of an iteration: each is a step from the one before, and no step but
/// the last may be negligible.
pub open spec fn is_trail<
    E: Fn(&RadialDistortion, F64, F64) -> BrownConradyEval,
    A: Fn(F64, F64) -> F64,
    S: Fn(F64, F64) -> F64,
    Q: Fn(F64, F64) -> F64,
    D: Fn(BrownConradyEval) -> F64,
    T: Fn(BrownConradyEval, F64, F64) -> (F64, F64),
    Z: Fn(F64, F64) -> F64,
>(
    ar: PlaneArithmetic<E, A, S, Q, D, T, Z>,
    d: RadialDistortion,
    target: Point,
    trail: Seq<Point>,
    brief: bool,
) -> bool {
    &&& trail.len() > 0
    &&& forall|i: int, j: int|
        0 <= i && j == i + 1 && j < trail.len() ==> newton_step(
            ar,
            d,
            target,
            #[trigger] trail[i],
            #[trigger] trail[j],
            brief && j == trail.len() - 1,
        )
    &&& brief ==> trail.len() > 1
}

proof fn lemma_settles_by_trail<
    E: Fn(&RadialDistortion, F64, F64) -> BrownConradyEval,
    A: Fn(F64, F64) -> F64,
    S: Fn(F64, F64) -> F64,
    Q: Fn(F64, F64) -> F64,
    D: Fn(BrownConradyEval) -> F64,
    T: Fn(BrownConradyEval, F64, F64) -> (F64, F64),
    Z: Fn(F64, F64) -> F64,
>(
    ar: PlaneArithmetic<E, A, S, Q, D, T, Z>,
    d: RadialDistortion,
    target: Point,
    at: Point,
    n: nat,
    out: Point,
) -> (r: (Seq<Point>, bool))
    requires
        settles(ar, d, target, at, n, out),
    ensures
        is_trail(ar, d, target, r.0, r.1),
        r.0[0] == at,
        r.0.last() == out,
        r.0.len() <= n + 1,
        r.1 || r.0.len() == n + 1 || stops_at(ar, d, target, out),
    decreases n,
{
    if n == 0 {
        (seq![at], false)
    } else {
        let (e, res, q) = lemma_settles_open(ar, d, target, at, n, out);
        if (F64 { bits: RESIDUAL_LIMIT }).above(q) {
            assert(stops_at(ar, d, target, out));
            (seq![at], false)
        } else {
            let (det, s, next, size) = lemma_settles_step(ar, d, target, at, n, out, e, res, q);
            if (F64 { bits: DETERMINANT_LIMIT }).above(det) {
                assert(stops_at(ar, d, target, out));
                (seq![at], false)
            } else if (F64 { bits: STEP_LIMIT }).above(size) {
                assert(newton_step(ar, d, target, at, next, true));
                (seq![at, next], true)
            } else {
                assert(newton_step(ar, d, target, at, next, false));
                let (rest, brief) = lemma_settles_by_trail(
                    ar,
                    d,
                    target,
                    next,
                    (n - 1) as nat,
                    out,
                );
                let trail = seq![at] + rest;
                assert forall|i: int, j: int|
                    0 <= i && j == i + 1 && j < trail.len() implies newton_step(
                    ar,
                    d,
                    target,
                    #[trigger] trail[i],
                    #[trigger] trail[j],
                    brief && j == trail.len() - 1,
                ) by {
                    if i == 0 {
                        assert(trail[1] == next);
                        assert(brief ==> rest.len() > 1);
                    } else {
                        assert(trail[i] == rest[i - 1] && trail[j] == rest[j - 1]);
                        assert(newton_step(
                            ar,
                            d,
                            target,
                            rest[i - 1],
                            rest[j - 1],
                            brief && j - 1 == rest.len() - 1,
                        ));
                    }
                }
                (trail, brief)
            }
        }
    }
}

/// How undistortion goes on and when it ends: from the place of the point as seen
/// from the center, step by step towards a place whose image is that, until the
/// image is met, the Jacobian cannot be divided by, a step was negligible, or
/// twenty steps were taken; never before. What it arrives at is shifted back.
pub proof fn law_undistortion_takes_its_steps<
    E: Fn(&RadialDistortion, F64, F64) -> BrownConradyEval,
    A: Fn(F64, F64) -> F64,
    S: Fn(F64, F64) -> F64,
    Q: Fn(F64, F64) -> F64,
    D: Fn(BrownConradyEval) -> F64,
    T: Fn(BrownConradyEval, F64, F64) -> (F64, F64),
    Z: Fn(F64, F64) -> F64,
>(
    ar: PlaneArithmetic<E, A, S, Q, D, T, Z>,
    d: RadialDistortion,
    p: Point,
    out: Point,
)
    requires
        call_ensures(
            RadialDistortion::undistort::<E, A, S, Q, D, T, Z>,
            (&d, p.0, p.1, &ar),
            out,
        ),
    ensures
        exists|target: Point, trail: Seq<Point>, brief: bool|
            {
                &&& #[trigger] pairwise(ar.minus, p, d.center, target)
                &&& #[trigger] is_trail(ar, d, target, trail, brief)
                &&& trail[0] == target
                &&& trail.len() <= 21
                &&& brief || trail.len() == 21 || stops_at(ar, d, target, trail.last())
                &&& pairwise(ar.plus, trail.last(), d.center, out)
            },
{
    let (c, s) = choose|c: Point, s: Point|
        {
            &&& #[trigger] pairwise(ar.minus, p, d.center, c)
            &&& #[trigger] settles(ar, d, c, c, MAX_STEPS as nat, s)
            &&& pairwise(ar.plus, s, d.center, out)
        };
    let (trail, brief) = lemma_settles_by_trail(ar, d, c, c, MAX_STEPS as nat, s);
    assert(is_trail(ar, d, c, trail, brief));
}

} // verus!
