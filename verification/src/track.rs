//! Tracking: solve with an attitude hint instead of the pattern search.
//!
//! With a hint (typically the attitude of the frame before) the search for
//! patterns can be skipped:
//!
//! 1. Query catalog stars within a cone around the hinted boresight.
//! 2. Project them onto the camera plane by the hint.
//! 3. Match each centroid to its nearest predicted star.
//! 4. If enough matches exist, find the rotation that fits them best.
//! 5. Verify and refine that rotation.
//!
//! This succeeds with as few as three matched stars.

use vstd::prelude::*;

use crate::ieee::{law_absolute_is_distance, F32, F64};
use crate::measure::{brightness_keys, Centroid};
use crate::order::{brightness, descending_order, is_descending, lemma_lists_all};

verus! {

/// Minimum unique correspondences required to look for a rotation.
pub const MIN_HINT_MATCHES: usize = 3;

/// The lowest finite single, which stands for a brightness that is not known.
pub const LOWEST_BITS: u32 = 0xff7f_ffff;

/// Why there is no solution.
#[derive(Clone, Copy, Debug, PartialEq, Eq, Structural)]
pub enum SolveStatus {
    /// Nothing in the catalog fits.
    NoMatch,
    /// Too few centroids to try.
    TooFew,
}

/// A direction.
#[derive(Clone, Copy, Debug, PartialEq, Eq, Structural)]
pub struct Vector {
    pub x: F32,
    pub y: F32,
    pub z: F32,
}

/// A star index and its place on the camera plane.
pub type Projected = (usize, F32, F32);

/// Pairs of a centroid's place in order of brightness and a star index.
pub type Matches = Vec<(usize, usize)>;

/// What is known of camera and catalog beforehand.
#[derive(Clone, Copy, Debug, PartialEq, Eq, Structural)]
pub struct HintSetup {
    /// Angle of a pixel. Zero means that the camera is not configured.
    pub pixel_scale: F32,
    /// Half the width of the slightly padded image on the camera plane.
    pub half_w: F32,
    /// Half its height.
    pub half_h: F32,
    /// How many of the brightest centroids take part in matching.
    pub verification_stars: u32,
    /// The probability of a false match from which on a solution is refused.
    pub match_threshold: F64,
}

/// The steps that compute with numbers or consult the catalog.
pub struct HintSteps<Q, V, C, D, N, W, P, F> {
    /// The catalog stars in the cone around the hinted boresight.
    pub nearby: Q,
    /// The direction of a centroid in the camera frame.
    pub direction: V,
    /// The direction of a catalog star in the camera frame, by the hint.
    pub to_camera: C,
    /// The first number divided by the second.
    pub divide: D,
    /// Matches of the first so many directions to projected stars.
    pub nearest: N,
    /// The rotation that fits the matches best, unless there is none or it
    /// mirrors.
    pub rotation: W,
    /// The matches under a rotation and the probability that they are false.
    pub verify: P,
    /// The solution that a verified rotation refines to.
    pub refine: F,
}

/// What was left over of the items, in order.
pub open spec fn kept<T>(items: Seq<Option<T>>) -> Seq<T>
    decreases items.len(),
{
    if items.len() == 0 {
        Seq::empty()
    } else {
        let head = kept(items.drop_last());
        match items.last() {
            Some(t) => head.push(t),
            None => head,
        }
    }
}

impl HintSetup {
    /// The place is inside the padded image.
    pub open spec fn in_view(self, cx: F32, cy: F32) -> bool {
        self.half_w.at_least(cx.absolute()) && self.half_h.at_least(cy.absolute())
    }

    /// How many centroids take part in matching.
    pub open spec fn match_count(self, centroids: nat) -> int {
        if centroids <= self.verification_stars {
            centroids as int
        } else {
            self.verification_stars as int
        }
    }
}

/// `out` is where a star in direction `v` comes to lie on the camera plane;
/// nothing where that is outside the image.
pub open spec fn lands<D: Fn(F32, F32) -> F32>(
    divide: D,
    setup: HintSetup,
    star: usize,
    v: Vector,
    out: Option<Projected>,
) -> bool {
    exists|cx: F32, cy: F32|
        {
            &&& #[trigger] call_ensures(divide, (v.x, v.z), cx)
            &&& #[trigger] call_ensures(divide, (v.y, v.z), cy)
            &&& out == if setup.in_view(cx, cy) {
                Some((star, cx, cy))
            } else {
                None
            }
        }
}

/// `out` is where the star comes to lie on the camera plane; nothing where it is
/// behind the camera or outside the image.
pub open spec fn projects<C: Fn(usize) -> Vector, D: Fn(F32, F32) -> F32>(
    to_camera: C,
    divide: D,
    setup: HintSetup,
    star: usize,
    out: Option<Projected>,
) -> bool {
    exists|v: Vector|
        {
            &&& #[trigger] call_ensures(to_camera, (star,), v)
            &&& if v.z.above(F32::zero()) {
                lands(divide, setup, star, v, out)
            } else {
                out is None
            }
        }
}

/// `projected` is what can be seen of the stars, in their order.
pub open spec fn are_projected<C: Fn(usize) -> Vector, D: Fn(F32, F32) -> F32>(
    to_camera: C,
    divide: D,
    setup: HintSetup,
    stars: Seq<usize>,
    outs: Seq<Option<Projected>>,
    projected: Seq<Projected>,
) -> bool {
    &&& outs.len() == stars.len()
    &&& forall|i: int|
        0 <= i < outs.len() ==> projects(to_camera, divide, setup, stars[i], #[trigger] outs[i])
    &&& projected == kept(outs)
}

fn project<C: Fn(usize) -> Vector, D: Fn(F32, F32) -> F32>(
    to_camera: &C,
    divide: &D,
    setup: &HintSetup,
    star: usize,
) -> (out: Option<Projected>)
    requires
        forall|i: usize| #[trigger] call_requires(*to_camera, (i,)),
        forall|a: F32, b: F32| #[trigger] call_requires(*divide, (a, b)),
    ensures
        projects(*to_camera, *divide, *setup, star, out),
{
    let v = to_camera(star);
    let zero = F32 { bits: 0 };
    if !v.z.gt(zero) {
        return None;
    }
    let cx = divide(v.x, v.z);
    let cy = divide(v.y, v.z);
    if setup.half_w.ge(cx.abs()) && setup.half_h.ge(cy.abs()) {
        Some((star, cx, cy))
    } else {
        None
    }
}

/// Project the stars onto the camera plane and keep those in view.
fn project_all<C: Fn(usize) -> Vector, D: Fn(F32, F32) -> F32>(
    to_camera: &C,
    divide: &D,
    setup: &HintSetup,
    stars: &Vec<usize>,
) -> (projected: Vec<Projected>)
    requires
        forall|i: usize| #[trigger] call_requires(*to_camera, (i,)),
        forall|a: F32, b: F32| #[trigger] call_requires(*divide, (a, b)),
    ensures
        exists|outs: Seq<Option<Projected>>| #[trigger]
            are_projected(*to_camera, *divide, *setup, stars@, outs, projected@),
{
    let mut projected: Vec<Projected> = Vec::new();
    let ghost mut outs: Seq<Option<Projected>> = Seq::empty();
    let mut i: usize = 0;
    assert(kept(outs) =~= projected@);
    while i < stars.len()
        invariant
            0 <= i <= stars@.len(),
            outs.len() == i,
            forall|i: usize| #[trigger] call_requires(*to_camera, (i,)),
            forall|a: F32, b: F32| #[trigger] call_requires(*divide, (a, b)),
            forall|k: int|
                0 <= k < outs.len() ==> projects(
                    *to_camera,
                    *divide,
                    *setup,
                    stars@[k],
                    #[trigger] outs[k],
                ),
            projected@ == kept(outs),
        decreases stars@.len() - i,
    {
        let out = project(to_camera, divide, setup, stars[i]);
        proof {
            let before = outs;
            outs = outs.push(out);
            assert(outs.drop_last() =~= before);
        }
        if let Some(p) = out {
            projected.push(p);
        }
        i += 1;
    }
    assert(are_projected(*to_camera, *divide, *setup, stars@, outs, projected@));
    projected
}

/// `vectors` are the directions of the centroids in the given order.
pub open spec fn are_directions<V: Fn(Centroid) -> Vector>(
    direction: V,
    centroids: Seq<Centroid>,
    order: Seq<usize>,
    vectors: Seq<Vector>,
) -> bool {
    &&& vectors.len() == order.len()
    &&& forall|i: int|
        0 <= i < order.len() ==> call_ensures(
            direction,
            (centroids[order[i] as int],),
            #[trigger] vectors[i],
        )
}

fn directions<V: Fn(Centroid) -> Vector>(
    direction: &V,
    centroids: &[Centroid],
    order: &Vec<usize>,
) -> (vectors: Vec<Vector>)
    requires
        forall|c: Centroid| #[trigger] call_requires(*direction, (c,)),
        forall|i: int| 0 <= i < order@.len() ==> (#[trigger] order@[i]) < centroids@.len(),
    ensures
        are_directions(*direction, centroids@, order@, vectors@),
{
    let mut vectors: Vec<Vector> = Vec::new();
    let mut i: usize = 0;
    while i < order.len()
        invariant
            0 <= i <= order@.len(),
            vectors@.len() == i,
            forall|c: Centroid| #[trigger] call_requires(*direction, (c,)),
            forall|i: int| 0 <= i < order@.len() ==> (#[trigger] order@[i]) < centroids@.len(),
            forall|k: int|
                0 <= k < i ==> call_ensures(
                    *direction,
                    (centroids@[order@[k] as int],),
                    #[trigger] vectors@[k],
                ),
        decreases order@.len() - i,
    {
        let v = direction(centroids[order[i]]);
        vectors.push(v);
        i += 1;
    }
    vectors
}

/// The places of the centroids from the brightest to the faintest; one of
/// unknown brightness counts as the faintest.
pub open spec fn is_bright_order(centroids: Seq<Centroid>, order: Seq<usize>) -> bool {
    is_descending(
        Seq::new(
            centroids.len(),
            |i: int| brightness(centroids[i].mass, F32 { bits: LOWEST_BITS }),
        ),
        order,
    )
}

fn bright_order(centroids: &[Centroid]) -> (order: Vec<usize>)
    ensures
        is_bright_order(centroids@, order@),
{
    let keys = brightness_keys(centroids, F32 { bits: LOWEST_BITS });
    let order = descending_order(&keys);
    assert(Seq::new(keys@.len(), |i: int| keys@[i] as int) =~= Seq::new(
        centroids@.len(),
        |i: int| brightness(centroids@[i].mass, F32 { bits: LOWEST_BITS }),
    ));
    order
}

/// What a verified rotation comes to.
pub open spec fn refines_to<
    M,
    S,
    F: Fn(&M, &Matches, &Vec<usize>, usize, F64) -> Option<S>,
>(
    refine: F,
    m: M,
    verified: Matches,
    order: Vec<usize>,
    count: usize,
    prob: F64,
    r: Result<S, SolveStatus>,
) -> bool {
    exists|out: Option<S>|
        {
            &&& #[trigger] call_ensures(refine, (&m, &verified, &order, count, prob), out)
            &&& r == match out {
                Some(s) => Ok::<S, SolveStatus>(s),
                None => Err(SolveStatus::NoMatch),
            }
        }
}

/// What a rotation comes to: it is refused where it is probably false.
pub open spec fn verifies_to<
    M,
    S,
    P: Fn(&M, &Vec<Vector>, usize) -> (Matches, F64),
    F: Fn(&M, &Matches, &Vec<usize>, usize, F64) -> Option<S>,
>(
    verify: P,
    refine: F,
    threshold: F64,
    m: M,
    vectors: Vec<Vector>,
    order: Vec<usize>,
    count: usize,
    r: Result<S, SolveStatus>,
) -> bool {
    exists|verified: Matches, prob: F64|
        {
            &&& #[trigger] call_ensures(verify, (&m, &vectors, count), (verified, prob))
            &&& if prob.at_least(threshold) {
                r == Err::<S, SolveStatus>(SolveStatus::NoMatch)
            } else {
                refines_to(refine, m, verified, order, count, prob, r)
            }
        }
}

/// What matches come to: they have to be enough and to fit a rotation.
pub open spec fn fits_to<
    M,
    S,
    W: Fn(&Vec<Vector>, &Matches) -> Option<M>,
    P: Fn(&M, &Vec<Vector>, usize) -> (Matches, F64),
    F: Fn(&M, &Matches, &Vec<usize>, usize, F64) -> Option<S>,
>(
    rotation: W,
    verify: P,
    refine: F,
    threshold: F64,
    vectors: Vec<Vector>,
    order: Vec<usize>,
    count: usize,
    matches: Matches,
    r: Result<S, SolveStatus>,
) -> bool {
    if matches@.len() < MIN_HINT_MATCHES {
        r == Err::<S, SolveStatus>(SolveStatus::NoMatch)
    } else {
        exists|rot: Option<M>|
            {
                &&& #[trigger] call_ensures(rotation, (&vectors, &matches), rot)
                &&& match rot {
                    Some(m) => verifies_to(
                        verify,
                        refine,
                        threshold,
                        m,
                        vectors,
                        order,
                        count,
                        r,
                    ),
                    None => r == Err::<S, SolveStatus>(SolveStatus::NoMatch),
                }
            }
    }
}

/// What the stars in view come to: there have to be enough of them.
pub open spec fn matches_to<
    M,
    S,
    N: Fn(&Vec<Vector>, usize, &Vec<Projected>) -> Matches,
    W: Fn(&Vec<Vector>, &Matches) -> Option<M>,
    P: Fn(&M, &Vec<Vector>, usize) -> (Matches, F64),
    F: Fn(&M, &Matches, &Vec<usize>, usize, F64) -> Option<S>,
>(
    nearest: N,
    rotation: W,
    verify: P,
    refine: F,
    threshold: F64,
    vectors: Vec<Vector>,
    order: Vec<usize>,
    count: usize,
    projected: Vec<Projected>,
    r: Result<S, SolveStatus>,
) -> bool {
    if projected@.len() < MIN_HINT_MATCHES {
        r == Err::<S, SolveStatus>(SolveStatus::NoMatch)
    } else {
        exists|matches: Matches|
            {
                &&& #[trigger] call_ensures(nearest, (&vectors, count, &projected), matches)
                &&& fits_to(
                    rotation,
                    verify,
                    refine,
                    threshold,
                    vectors,
                    order,
                    count,
                    matches,
                    r,
                )
            }
    }
}

/// How the centroids and the stars near the boresight are laid out.
pub open spec fn is_layout<
    V: Fn(Centroid) -> Vector,
    C: Fn(usize) -> Vector,
    D: Fn(F32, F32) -> F32,
>(
    direction: V,
    to_camera: C,
    divide: D,
    setup: HintSetup,
    centroids: Seq<Centroid>,
    stars: Seq<usize>,
    order: Vec<usize>,
    vectors: Vec<Vector>,
    projected: Vec<Projected>,
) -> bool {
    &&& is_bright_order(centroids, order@)
    &&& are_directions(direction, centroids, order@, vectors@)
    &&& exists|outs: Seq<Option<Projected>>| #[trigger]
        are_projected(to_camera, divide, setup, stars, outs, projected@)
}

/// What the stars near the boresight come to: there have to be enough of them.
pub open spec fn solves_to<
    M,
    S,
    Q: Fn() -> Vec<usize>,
    V: Fn(Centroid) -> Vector,
    C: Fn(usize) -> Vector,
    D: Fn(F32, F32) -> F32,
    N: Fn(&Vec<Vector>, usize, &Vec<Projected>) -> Matches,
    W: Fn(&Vec<Vector>, &Matches) -> Option<M>,
    P: Fn(&M, &Vec<Vector>, usize) -> (Matches, F64),
    F: Fn(&M, &Matches, &Vec<usize>, usize, F64) -> Option<S>,
>(
    steps: HintSteps<Q, V, C, D, N, W, P, F>,
    setup: HintSetup,
    centroids: Seq<Centroid>,
    stars: Vec<usize>,
    r: Result<S, SolveStatus>,
) -> bool {
    if stars@.len() < MIN_HINT_MATCHES {
        r == Err::<S, SolveStatus>(SolveStatus::NoMatch)
    } else {
        exists|order: Vec<usize>, vectors: Vec<Vector>, projected: Vec<Projected>|
            {
                &&& #[trigger] is_layout(
                    steps.direction,
                    steps.to_camera,
                    steps.divide,
                    setup,
                    centroids,
                    stars@,
                    order,
                    vectors,
                    projected,
                )
                &&& matches_to(
                    steps.nearest,
                    steps.rotation,
                    steps.verify,
                    steps.refine,
                    setup.match_threshold,
                    vectors,
                    order,
                    setup.match_count(centroids.len()) as usize,
                    projected,
                    r,
                )
            }
    }
}

/// What a solve with a hint comes to.
pub open spec fn is_hint_solution<
    M,
    S,
    Q: Fn() -> Vec<usize>,
    V: Fn(Centroid) -> Vector,
    C: Fn(usize) -> Vector,
    D: Fn(F32, F32) -> F32,
    N: Fn(&Vec<Vector>, usize, &Vec<Projected>) -> Matches,
    W: Fn(&Vec<Vector>, &Matches) -> Option<M>,
    P: Fn(&M, &Vec<Vector>, usize) -> (Matches, F64),
    F: Fn(&M, &Matches, &Vec<usize>, usize, F64) -> Option<S>,
>(
    steps: HintSteps<Q, V, C, D, N, W, P, F>,
    setup: HintSetup,
    centroids: Seq<Centroid>,
    r: Result<S, SolveStatus>,
) -> bool {
    if F32::zero().at_least(setup.pixel_scale) {
        r == Err::<S, SolveStatus>(SolveStatus::NoMatch)
    } else if centroids.len() < MIN_HINT_MATCHES {
        r == Err::<S, SolveStatus>(SolveStatus::TooFew)
    } else {
        exists|stars: Vec<usize>|
            {
                &&& #[trigger] call_ensures(steps.nearby, (), stars)
                &&& solves_to(steps, setup, centroids, stars, r)
            }
    }
}

/// The steps answer whatever they are asked.
pub open spec fn steps_total<
    M,
    S,
    Q: Fn() -> Vec<usize>,
    V: Fn(Centroid) -> Vector,
    C: Fn(usize) -> Vector,
    D: Fn(F32, F32) -> F32,
    N: Fn(&Vec<Vector>, usize, &Vec<Projected>) -> Matches,
    W: Fn(&Vec<Vector>, &Matches) -> Option<M>,
    P: Fn(&M, &Vec<Vector>, usize) -> (Matches, F64),
    F: Fn(&M, &Matches, &Vec<usize>, usize, F64) -> Option<S>,
>(steps: HintSteps<Q, V, C, D, N, W, P, F>) -> bool {
    &&& call_requires(steps.nearby, ())
    &&& forall|c: Centroid| #[trigger] call_requires(steps.direction, (c,))
    &&& forall|i: usize| #[trigger] call_requires(steps.to_camera, (i,))
    &&& forall|a: F32, b: F32| #[trigger] call_requires(steps.divide, (a, b))
    &&& forall|v: Vec<Vector>, n: usize, p: Vec<Projected>| #[trigger]
        call_requires(steps.nearest, (&v, n, &p))
    &&& forall|v: Vec<Vector>, m: Matches| #[trigger] call_requires(steps.rotation, (&v, &m))
    &&& forall|m: M, v: Vec<Vector>, n: usize| #[trigger]
        call_requires(steps.verify, (&m, &v, n))
    &&& forall|m: M, p: Matches, o: Vec<usize>, n: usize, q: F64| #[trigger]
        call_requires(steps.refine, (&m, &p, &o, n, q))
}

/// Verify a rotation and refine it.
fn verify_and_refine<
    M,
    S,
    P: Fn(&M, &Vec<Vector>, usize) -> (Matches, F64),
    F: Fn(&M, &Matches, &Vec<usize>, usize, F64) -> Option<S>,
>(
    verify: &P,
    refine: &F,
    threshold: F64,
    m: &M,
    vectors: &Vec<Vector>,
    order: &Vec<usize>,
    count: usize,
) -> (r: Result<S, SolveStatus>)
    requires
        forall|m: M, v: Vec<Vector>, n: usize| #[trigger] call_requires(*verify, (&m, &v, n)),
        forall|m: M, p: Matches, o: Vec<usize>, n: usize, q: F64| #[trigger]
            call_requires(*refine, (&m, &p, &o, n, q)),
    ensures
        verifies_to(*verify, *refine, threshold, *m, *vectors, *order, count, r),
{
    let (verified, prob) = verify(m, vectors, count);
    // The probability is tested as it stands: no pattern was tried.
    if prob.ge(threshold) {
        return Err(SolveStatus::NoMatch);
    }
    let out = refine(m, &verified, order, count, prob);
    let r = match out {
        Some(s) => Ok(s),
        None => Err(SolveStatus::NoMatch),
    };
    assert(refines_to(*refine, *m, verified, *order, count, prob, r));
    r
}

/// Solve using an attitude hint.
///
/// Fails with `NoMatch`, or with `TooFew` if there are not enough centroids.
pub fn solve_with_hint<
    M,
    S,
    Q: Fn() -> Vec<usize>,
    V: Fn(Centroid) -> Vector,
    C: Fn(usize) -> Vector,
    D: Fn(F32, F32) -> F32,
    N: Fn(&Vec<Vector>, usize, &Vec<Projected>) -> Matches,
    W: Fn(&Vec<Vector>, &Matches) -> Option<M>,
    P: Fn(&M, &Vec<Vector>, usize) -> (Matches, F64),
    F: Fn(&M, &Matches, &Vec<usize>, usize, F64) -> Option<S>,
>(
    centroids: &[Centroid],
    setup: &HintSetup,
    steps: &HintSteps<Q, V, C, D, N, W, P, F>,
) -> (r: Result<S, SolveStatus>)
    requires
        steps_total::<M, S, Q, V, C, D, N, W, P, F>(*steps),
    ensures
        is_hint_solution::<M, S, Q, V, C, D, N, W, P, F>(*steps, *setup, centroids@, r),
{
    let zero = F32 { bits: 0 };
    if zero.ge(setup.pixel_scale) {
        return Err(SolveStatus::NoMatch);
    }
    if centroids.len() < MIN_HINT_MATCHES {
        return Err(SolveStatus::TooFew);
    }
    let stars = (steps.nearby)();
    if stars.len() < MIN_HINT_MATCHES {
        return Err(SolveStatus::NoMatch);
    }
    let order = bright_order(centroids);
    let count: usize = if centroids.len() <= setup.verification_stars as usize {
        centroids.len()
    } else {
        setup.verification_stars as usize
    };
    let vectors = directions(&steps.direction, centroids, &order);
    let projected = project_all(&steps.to_camera, &steps.divide, setup, &stars);
    assert(is_layout(
        steps.direction,
        steps.to_camera,
        steps.divide,
        *setup,
        centroids@,
        stars@,
        order,
        vectors,
        projected,
    ));
    if projected.len() < MIN_HINT_MATCHES {
        return Err(SolveStatus::NoMatch);
    }
    let matches = (steps.nearest)(&vectors, count, &projected);
    if matches.len() < MIN_HINT_MATCHES {
        return Err(SolveStatus::NoMatch);
    }
    let rot = (steps.rotation)(&vectors, &matches);
    match rot {
        None => Err(SolveStatus::NoMatch),
        Some(m) => verify_and_refine(
            &steps.verify,
            &steps.refine,
            setup.match_threshold,
            &m,
            &vectors,
            &order,
            count,
        ),
    }
}

/// A configured camera and too few centroids are what fails with `TooFew`, and
/// nothing else does.
pub proof fn law_too_few<
    M,
    S,
    Q: Fn() -> Vec<usize>,
    V: Fn(Centroid) -> Vector,
    C: Fn(usize) -> Vector,
    D: Fn(F32, F32) -> F32,
    N: Fn(&Vec<Vector>, usize, &Vec<Projected>) -> Matches,
    W: Fn(&Vec<Vector>, &Matches) -> Option<M>,
    P: Fn(&M, &Vec<Vector>, usize) -> (Matches, F64),
    F: Fn(&M, &Matches, &Vec<usize>, usize, F64) -> Option<S>,
>(
    steps: HintSteps<Q, V, C, D, N, W, P, F>,
    setup: HintSetup,
    centroids: Seq<Centroid>,
    r: Result<S, SolveStatus>,
)
    requires
        is_hint_solution::<M, S, Q, V, C, D, N, W, P, F>(steps, setup, centroids, r),
    ensures
        r == Err::<S, SolveStatus>(SolveStatus::TooFew) <==> !F32::zero().at_least(
            setup.pixel_scale,
        ) && centroids.len() < MIN_HINT_MATCHES,
        r is Ok ==> centroids.len() >= MIN_HINT_MATCHES,
{
}

/// What is left over of items was among them, and what was among them is left
/// over.
proof fn lemma_kept<T>(items: Seq<Option<T>>)
    ensures
        forall|j: int|
            0 <= j < kept(items).len() ==> exists|i: int|
                0 <= i < items.len() && #[trigger] items[i] == Some(#[trigger] kept(items)[j]),
        forall|i: int|
            0 <= i < items.len() && (#[trigger] items[i]) is Some ==> kept(items).contains(
                items[i]->0,
            ),
    decreases items.len(),
{
    if items.len() > 0 {
        let front = items.drop_last();
        lemma_kept(front);
        assert forall|j: int| 0 <= j < kept(items).len() implies exists|i: int|
            0 <= i < items.len() && #[trigger] items[i] == Some(#[trigger] kept(items)[j]) by {
            if j < kept(front).len() {
                let i = choose|i: int|
                    0 <= i < front.len() && #[trigger] front[i] == Some(kept(front)[j]);
                assert(items[i] == Some(kept(items)[j]));
            } else {
                assert(items[items.len() - 1] == Some(kept(items)[j]));
            }
        }
        assert forall|i: int| 0 <= i < items.len() && (#[trigger] items[i]) is Some implies kept(
            items,
        ).contains(items[i]->0) by {
            if i < front.len() {
                assert(front[i] == items[i]);
                let j = choose|j: int| 0 <= j < kept(front).len() && kept(front)[j] == items[i]->0;
                assert(kept(items)[j] == items[i]->0);
            } else {
                assert(kept(items)[kept(front).len() as int] == items[i]->0);
            }
        }
    }
}

/// A star lies in front of a camera in direction `v`, and `x` and `y` are its
/// coordinates over its distance along the axis, both inside the padded image.
pub open spec fn is_seen_at<D: Fn(F32, F32) -> F32>(
    divide: D,
    setup: HintSetup,
    v: Vector,
    x: F32,
    y: F32,
) -> bool {
    &&& !v.z.nan() && v.z.rank() > 0
    &&& call_ensures(divide, (v.x, v.z), x)
    &&& call_ensures(divide, (v.y, v.z), y)
    &&& !x.nan() && !setup.half_w.nan() && -setup.half_w.rank() <= x.rank() <= setup.half_w.rank()
    &&& !y.nan() && !setup.half_h.nan() && -setup.half_h.rank() <= y.rank() <= setup.half_h.rank()
}

/// The stars handed to the matching are stars of the cone, each where the camera
/// sees it: in front of it, at its x and its y over its z, inside the image.
pub proof fn law_projected_stars_are_seen<C: Fn(usize) -> Vector, D: Fn(F32, F32) -> F32>(
    to_camera: C,
    divide: D,
    setup: HintSetup,
    stars: Seq<usize>,
    outs: Seq<Option<Projected>>,
    projected: Seq<Projected>,
    j: int,
)
    requires
        are_projected(to_camera, divide, setup, stars, outs, projected),
        0 <= j < projected.len(),
    ensures
        stars.contains(projected[j].0),
        exists|v: Vector| #[trigger]
            call_ensures(to_camera, (projected[j].0,), v) && is_seen_at(
                divide,
                setup,
                v,
                projected[j].1,
                projected[j].2,
            ),
{
    lemma_kept(outs);
    let i = choose|i: int|
        0 <= i < outs.len() && #[trigger] outs[i] == Some(kept(outs)[j]);
    assert(projects(to_camera, divide, setup, stars[i], outs[i]));
    let v = choose|v: Vector|
        {
            &&& #[trigger] call_ensures(to_camera, (stars[i],), v)
            &&& if v.z.above(F32::zero()) {
                lands(divide, setup, stars[i], v, outs[i])
            } else {
                outs[i] is None
            }
        };
    let (cx, cy) = choose|cx: F32, cy: F32|
        {
            &&& #[trigger] call_ensures(divide, (v.x, v.z), cx)
            &&& #[trigger] call_ensures(divide, (v.y, v.z), cy)
            &&& outs[i] == if setup.in_view(cx, cy) {
                Some((stars[i], cx, cy))
            } else {
                None
            }
        };
    law_absolute_is_distance(cx);
    law_absolute_is_distance(cy);
    assert(projected[j] == (stars[i], cx, cy));
    assert(call_ensures(to_camera, (projected[j].0,), v));
}

/// And every star that the camera sees is handed on: where direction and division
/// are settled, one that is in front of it and inside the image is among them.
pub proof fn law_seen_stars_are_projected<C: Fn(usize) -> Vector, D: Fn(F32, F32) -> F32>(
    to_camera: C,
    divide: D,
    setup: HintSetup,
    stars: Seq<usize>,
    outs: Seq<Option<Projected>>,
    projected: Seq<Projected>,
    i: int,
    v: Vector,
    x: F32,
    y: F32,
)
    requires
        are_projected(to_camera, divide, setup, stars, outs, projected),
        0 <= i < stars.len(),
        forall|u: Vector| #[trigger] call_ensures(to_camera, (stars[i],), u) ==> u == v,
        forall|a: F32| #[trigger] call_ensures(divide, (v.x, v.z), a) ==> a == x,
        forall|a: F32| #[trigger] call_ensures(divide, (v.y, v.z), a) ==> a == y,
        is_seen_at(divide, setup, v, x, y),
    ensures
        projected.contains((stars[i], x, y)),
{
    lemma_kept(outs);
    assert(projects(to_camera, divide, setup, stars[i], outs[i]));
    law_absolute_is_distance(x);
    law_absolute_is_distance(y);
    assert(outs[i] == Some((stars[i], x, y)));
}

/// A centroid seen exactly where a star is has that star's place: the quotients
/// of its direction are the coordinates at which the star was handed on.
pub proof fn law_aligned_centroid_meets_its_star<
    V: Fn(Centroid) -> Vector,
    C: Fn(usize) -> Vector,
    D: Fn(F32, F32) -> F32,
>(
    direction: V,
    to_camera: C,
    divide: D,
    setup: HintSetup,
    centroids: Seq<Centroid>,
    stars: Seq<usize>,
    order: Vec<usize>,
    vectors: Vec<Vector>,
    projected: Vec<Projected>,
    k: int,
    i: int,
    v: Vector,
    x: F32,
    y: F32,
)
    requires
        is_layout(
            direction,
            to_camera,
            divide,
            setup,
            centroids,
            stars,
            order,
            vectors,
            projected,
        ),
        0 <= k < centroids.len(),
        0 <= i < stars.len(),
        forall|u: Vector| #[trigger] call_ensures(direction, (centroids[k],), u) ==> {
            &&& forall|a: F32| #[trigger] call_ensures(divide, (u.x, u.z), a) <==> a == x
            &&& forall|a: F32| #[trigger] call_ensures(divide, (u.y, u.z), a) <==> a == y
        },
        forall|u: Vector| #[trigger] call_ensures(to_camera, (stars[i],), u) ==> u == v,
        forall|a: F32| #[trigger] call_ensures(divide, (v.x, v.z), a) ==> a == x,
        forall|a: F32| #[trigger] call_ensures(divide, (v.y, v.z), a) ==> a == y,
        is_seen_at(divide, setup, v, x, y),
    ensures
        exists|t: int, j: int|
            {
                &&& 0 <= t < vectors@.len()
                &&& 0 <= j < projected@.len()
                &&& order@[t] == k
                &&& #[trigger] projected@[j] == (stars[i], x, y)
                &&& call_ensures(
                    divide,
                    ((#[trigger] vectors@[t]).x, vectors@[t].z),
                    projected@[j].1,
                )
                &&& call_ensures(divide, (vectors@[t].y, vectors@[t].z), projected@[j].2)
            },
{
    let outs = choose|outs: Seq<Option<Projected>>| #[trigger]
        are_projected(to_camera, divide, setup, stars, outs, projected@);
    law_seen_stars_are_projected(
        to_camera,
        divide,
        setup,
        stars,
        outs,
        projected@,
        i,
        v,
        x,
        y,
    );
    let j = choose|j: int| 0 <= j < projected@.len() && projected@[j] == (stars[i], x, y);
    lemma_lists_all(order@, centroids.len() as int, k);
    let t = choose|t: int| 0 <= t < order@.len() && #[trigger] order@[t] == k;
    assert(call_ensures(direction, (centroids[order@[t] as int],), vectors@[t]));
    assert(projected@[j] == (stars[i], x, y));
}

/// Brighter centroids come first, one of unknown brightness counting as the
/// faintest, and each takes its direction along: whatever is left out of the first
/// `n` is no brighter than any of them.
pub proof fn law_brightest_are_matched<V: Fn(Centroid) -> Vector>(
    direction: V,
    centroids: Seq<Centroid>,
    order: Seq<usize>,
    vectors: Seq<Vector>,
    s: int,
    t: int,
)
    requires
        is_bright_order(centroids, order),
        are_directions(direction, centroids, order, vectors),
        0 <= s < t < order.len(),
    ensures
        order.len() == centroids.len(),
        order[s] < centroids.len(),
        order[t] < centroids.len(),
        order[s] != order[t],
        call_ensures(direction, (centroids[order[s] as int],), vectors[s]),
        ({
            let a = centroids[order[s] as int].mass;
            let b = centroids[order[t] as int].mass;
            &&& match (a, b) {
                (Some(x), Some(y)) => !x.nan() && !y.nan() ==> x.rank() >= y.rank(),
                (None, Some(y)) => y.finite() ==> y.rank() == -0x7f7f_ffff,
                _ => true,
            }
        }),
{
    let keys = Seq::new(
        centroids.len(),
        |i: int| brightness(centroids[i].mass, F32 { bits: LOWEST_BITS }),
    );
    assert(keys[order[s] as int] >= keys[order[t] as int]);
    assert(vectors[s] == vectors[s]);
}

/// Where a solution comes from: at least three centroids, three stars of the cone,
/// three of them in view and three matches, a rotation that fits the matches, a
/// probability of a false match below the threshold, and the refinement of that
/// rotation. The matching is given the directions of the centroids from the
/// brightest on, how many of them take part, and the stars in view.
pub proof fn law_solution_is_matched_and_verified<
    M,
    S,
    Q: Fn() -> Vec<usize>,
    V: Fn(Centroid) -> Vector,
    C: Fn(usize) -> Vector,
    D: Fn(F32, F32) -> F32,
    N: Fn(&Vec<Vector>, usize, &Vec<Projected>) -> Matches,
    W: Fn(&Vec<Vector>, &Matches) -> Option<M>,
    P: Fn(&M, &Vec<Vector>, usize) -> (Matches, F64),
    F: Fn(&M, &Matches, &Vec<usize>, usize, F64) -> Option<S>,
>(
    steps: HintSteps<Q, V, C, D, N, W, P, F>,
    setup: HintSetup,
    centroids: &[Centroid],
    solution: S,
)
    requires
        call_ensures(
            solve_with_hint::<M, S, Q, V, C, D, N, W, P, F>,
            (centroids, &setup, &steps),
            Ok::<S, SolveStatus>(solution),
        ),
    ensures
        setup.pixel_scale.nan() || setup.pixel_scale.rank() > 0,
        centroids@.len() >= 3,
        exists|
            stars: Vec<usize>,
            order: Vec<usize>,
            vectors: Vec<Vector>,
            projected: Vec<Projected>,
            matches: Matches,
            m: M,
            verified: Matches,
            prob: F64,
            count: usize,
        |
            {
                &&& call_ensures(steps.nearby, (), stars)
                &&& stars@.len() >= 3
                &&& #[trigger] is_layout(
                    steps.direction,
                    steps.to_camera,
                    steps.divide,
                    setup,
                    centroids@,
                    stars@,
                    order,
                    vectors,
                    projected,
                )
                &&& projected@.len() >= 3
                &&& count <= centroids@.len() && count <= setup.verification_stars
                &&& count == centroids@.len() || count == setup.verification_stars
                &&& #[trigger] call_ensures(steps.nearest, (&vectors, count, &projected), matches)
                &&& matches@.len() >= 3
                &&& #[trigger] call_ensures(steps.rotation, (&vectors, &matches), Some(m))
                &&& #[trigger] call_ensures(steps.verify, (&m, &vectors, count), (verified, prob))
                &&& prob.nan() || setup.match_threshold.nan() || prob.rank()
                    < setup.match_threshold.rank()
                &&& call_ensures(
                    steps.refine,
                    (&m, &verified, &order, count, prob),
                    Some(solution),
                )
            },
{
    let r = Ok::<S, SolveStatus>(solution);
    let count = setup.match_count(centroids@.len()) as usize;
    let stars = choose|stars: Vec<usize>|
        {
            &&& #[trigger] call_ensures(steps.nearby, (), stars)
            &&& solves_to::<M, S, Q, V, C, D, N, W, P, F>(steps, setup, centroids@, stars, r)
        };
    let (order, vectors, projected) = choose|
        order: Vec<usize>,
        vectors: Vec<Vector>,
        projected: Vec<Projected>,
    |
        {
            &&& #[trigger] is_layout(
                steps.direction,
                steps.to_camera,
                steps.divide,
                setup,
                centroids@,
                stars@,
                order,
                vectors,
                projected,
            )
            &&& matches_to::<M, S, N, W, P, F>(
                steps.nearest,
                steps.rotation,
                steps.verify,
                steps.refine,
                setup.match_threshold,
                vectors,
                order,
                count,
                projected,
                r,
            )
        };
    let matches = choose|matches: Matches|
        {
            &&& #[trigger] call_ensures(steps.nearest, (&vectors, count, &projected), matches)
            &&& fits_to::<M, S, W, P, F>(
                steps.rotation,
                steps.verify,
                steps.refine,
                setup.match_threshold,
                vectors,
                order,
                count,
                matches,
                r,
            )
        };
    let rot = choose|rot: Option<M>|
        {
            &&& #[trigger] call_ensures(steps.rotation, (&vectors, &matches), rot)
            &&& match rot {
                Some(m) => verifies_to::<M, S, P, F>(
                    steps.verify,
                    steps.refine,
                    setup.match_threshold,
                    m,
                    vectors,
                    order,
                    count,
                    r,
                ),
                None => r == Err::<S, SolveStatus>(SolveStatus::NoMatch),
            }
        };
    let m = rot->0;
    let (verified, prob) = choose|verified: Matches, prob: F64|
        {
            &&& #[trigger] call_ensures(steps.verify, (&m, &vectors, count), (verified, prob))
            &&& if prob.at_least(setup.match_threshold) {
                r == Err::<S, SolveStatus>(SolveStatus::NoMatch)
            } else {
                refines_to::<M, S, F>(steps.refine, m, verified, order, count, prob, r)
            }
        };
    let out = choose|out: Option<S>|
        {
            &&& #[trigger] call_ensures(
                steps.refine,
                (&m, &verified, &order, count, prob),
                out,
            )
            &&& r == match out {
                Some(s) => Ok::<S, SolveStatus>(s),
                None => Err(SolveStatus::NoMatch),
            }
        };
    assert(out == Some(solution));
    assert(call_ensures(steps.nearest, (&vectors, count, &projected), matches));
    assert(call_ensures(steps.rotation, (&vectors, &matches), Some(m)));
}

/// The steps come through whatever they are asked: three stars near the boresight,
/// three of them in view, three matches, a rotation, a probability below the
/// threshold, a refinement.
pub open spec fn steps_come_through<
    M,
    S,
    Q: Fn() -> Vec<usize>,
    V: Fn(Centroid) -> Vector,
    C: Fn(usize) -> Vector,
    D: Fn(F32, F32) -> F32,
    N: Fn(&Vec<Vector>, usize, &Vec<Projected>) -> Matches,
    W: Fn(&Vec<Vector>, &Matches) -> Option<M>,
    P: Fn(&M, &Vec<Vector>, usize) -> (Matches, F64),
    F: Fn(&M, &Matches, &Vec<usize>, usize, F64) -> Option<S>,
>(
    steps: HintSteps<Q, V, C, D, N, W, P, F>,
    setup: HintSetup,
    centroids: Seq<Centroid>,
) -> bool {
    &&& forall|stars: Vec<usize>| #[trigger]
        call_ensures(steps.nearby, (), stars) ==> stars@.len() >= 3
    &&& forall|
        stars: Vec<usize>,
        order: Vec<usize>,
        vectors: Vec<Vector>,
        projected: Vec<Projected>,
    | #[trigger]
        is_layout(
            steps.direction,
            steps.to_camera,
            steps.divide,
            setup,
            centroids,
            stars@,
            order,
            vectors,
            projected,
        ) ==> projected@.len() >= 3
    &&& forall|v: Vec<Vector>, n: usize, p: Vec<Projected>, m: Matches| #[trigger]
        call_ensures(steps.nearest, (&v, n, &p), m) ==> m@.len() >= 3
    &&& forall|v: Vec<Vector>, m: Matches, o: Option<M>| #[trigger]
        call_ensures(steps.rotation, (&v, &m), o) ==> o is Some
    &&& forall|m: M, v: Vec<Vector>, n: usize, o: (Matches, F64)| #[trigger]
        call_ensures(steps.verify, (&m, &v, n), o) ==> o.1.rank() < setup.match_threshold.rank()
    &&& forall|m: M, a: Matches, o: Vec<usize>, n: usize, q: F64, s: Option<S>| #[trigger]
        call_ensures(steps.refine, (&m, &a, &o, n, q), s) ==> s is Some
}

/// When a solution is owed, and what is said where there is none. A pixel scale
/// that is zero or less says no match; else fewer than three centroids say that
/// they are too few. With enough of them, and steps that come through, there is a
/// solution.
pub proof fn law_solution_is_owed<
    M,
    S,
    Q: Fn() -> Vec<usize>,
    V: Fn(Centroid) -> Vector,
    C: Fn(usize) -> Vector,
    D: Fn(F32, F32) -> F32,
    N: Fn(&Vec<Vector>, usize, &Vec<Projected>) -> Matches,
    W: Fn(&Vec<Vector>, &Matches) -> Option<M>,
    P: Fn(&M, &Vec<Vector>, usize) -> (Matches, F64),
    F: Fn(&M, &Matches, &Vec<usize>, usize, F64) -> Option<S>,
>(
    steps: HintSteps<Q, V, C, D, N, W, P, F>,
    setup: HintSetup,
    centroids: &[Centroid],
    r: Result<S, SolveStatus>,
)
    requires
        call_ensures(
            solve_with_hint::<M, S, Q, V, C, D, N, W, P, F>,
            (centroids, &setup, &steps),
            r,
        ),
    ensures
        ({
            let scaled = setup.pixel_scale.nan() || setup.pixel_scale.rank() > 0;
            &&& !scaled ==> r == Err::<S, SolveStatus>(SolveStatus::NoMatch)
            &&& r == Err::<S, SolveStatus>(SolveStatus::TooFew) <==> scaled && centroids@.len() < 3
            &&& scaled && centroids@.len() >= 3 && steps_come_through::<
                M,
                S,
                Q,
                V,
                C,
                D,
                N,
                W,
                P,
                F,
            >(steps, setup, centroids@) ==> r is Ok
        }),
{
}

} // verus!
