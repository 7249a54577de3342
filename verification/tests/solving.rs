//! Solving with an attitude hint.

use std::cell::RefCell;

use tetra3::ieee::{F32, F64};
use tetra3::measure::Centroid;
use tetra3::track::{
    solve_with_hint, HintSetup, HintSteps, Matches, Projected, SolveStatus, Vector,
};

fn f(v: f32) -> F32 {
    F32 { bits: v.to_bits() }
}

fn v(v: F32) -> f32 {
    f32::from_bits(v.bits)
}

fn centroid(x: f32, mass: Option<f32>) -> Centroid {
    Centroid { x: f(x), y: f(0.0), mass: mass.map(f), cov: None }
}

fn setup() -> HintSetup {
    HintSetup {
        pixel_scale: f(0.001),
        half_w: f(0.5),
        half_h: f(0.5),
        verification_stars: 3,
        match_threshold: F64 { bits: 1e-5f64.to_bits() },
    }
}

/// What a run saw on its way.
#[derive(Default, Debug, PartialEq)]
struct Seen {
    directions: Vec<f32>,
    projected: Vec<usize>,
    count: usize,
    order: Vec<usize>,
}

/// Directions of the stars that the hint predicts.
const STARS: [(f32, f32, f32); 7] = [
    (0.0, 0.0, 1.0),
    (0.1, 0.1, 1.0),
    (0.1, 0.1, -1.0),
    (0.6, 0.0, 1.0),
    (-0.5, 0.5, 1.0),
    (0.2, -0.3, 0.5),
    (0.0, 0.3, 0.5),
];

struct Script {
    nearby: Vec<usize>,
    matches: usize,
    rotation: Option<u8>,
    prob: f64,
    refined: Option<u32>,
}

impl Default for Script {
    fn default() -> Self {
        Script {
            nearby: (0..7).collect(),
            matches: 3,
            rotation: Some(9),
            prob: 1e-9,
            refined: Some(77),
        }
    }
}

fn run(
    centroids: &[Centroid],
    setup: &HintSetup,
    script: &Script,
) -> (Result<u32, SolveStatus>, Seen) {
    let seen = RefCell::new(Seen::default());
    let steps = HintSteps {
        nearby: || script.nearby.clone(),
        direction: |c: Centroid| {
            seen.borrow_mut().directions.push(v(c.x));
            Vector { x: c.x, y: c.y, z: f(1.0) }
        },
        to_camera: |i: usize| {
            let (x, y, z) = STARS[i];
            Vector { x: f(x), y: f(y), z: f(z) }
        },
        divide: |a: F32, b: F32| f(v(a) / v(b)),
        nearest: |_: &Vec<Vector>, n: usize, p: &Vec<Projected>| -> Matches {
            seen.borrow_mut().projected = p.iter().map(|s| s.0).collect();
            seen.borrow_mut().count = n;
            (0..script.matches).map(|i| (i, i)).collect()
        },
        rotation: |_: &Vec<Vector>, _: &Matches| script.rotation,
        verify: |_: &u8, _: &Vec<Vector>, _: usize| -> (Matches, F64) {
            (vec![(0, 0)], F64 { bits: script.prob.to_bits() })
        },
        refine: |m: &u8, _: &Matches, order: &Vec<usize>, _: usize, _: F64| {
            seen.borrow_mut().order = order.clone();
            script.refined.map(|r| r + *m as u32)
        },
    };
    let r = solve_with_hint(centroids, setup, &steps);
    let seen = seen.borrow();
    let seen = Seen {
        directions: seen.directions.clone(),
        projected: seen.projected.clone(),
        count: seen.count,
        order: seen.order.clone(),
    };
    (r, seen)
}

fn four() -> Vec<Centroid> {
    vec![
        centroid(1.0, Some(10.0)),
        centroid(2.0, None),
        centroid(3.0, Some(30.0)),
        centroid(4.0, Some(10.0)),
    ]
}

#[test]
fn a_hint_leads_to_a_solution() {
    let (r, seen) = run(&four(), &setup(), &Script::default());
    assert_eq!(r, Ok(86));
    // Brightest first, equal ones as they came, unknown brightness last.
    assert_eq!(seen.directions, vec![3.0, 1.0, 4.0, 2.0]);
    assert_eq!(seen.order, vec![2, 0, 3, 1]);
    assert_eq!(seen.count, 3);
    // Behind the camera, outside to the right, and outside below are left out;
    // on the border is inside.
    assert_eq!(seen.projected, vec![0, 1, 4]);
}

#[test]
fn an_unconfigured_camera_matches_nothing() {
    for scale in [0.0, -0.0, -1.0] {
        let s = HintSetup { pixel_scale: f(scale), ..setup() };
        assert_eq!(run(&four(), &s, &Script::default()).0, Err(SolveStatus::NoMatch));
        // Even with too few centroids.
        assert_eq!(run(&[], &s, &Script::default()).0, Err(SolveStatus::NoMatch));
    }
}

#[test]
fn two_centroids_are_too_few() {
    let (r, _) = run(&four()[..2], &setup(), &Script::default());
    assert_eq!(r, Err(SolveStatus::TooFew));
    assert!(run(&four()[..3], &setup(), &Script::default()).0.is_ok());
}

#[test]
fn every_step_can_fail() {
    let scripts = [
        Script { nearby: vec![0, 1], ..Default::default() },
        Script { nearby: vec![0, 1, 2, 3, 5, 6], ..Default::default() },
        Script { matches: 2, ..Default::default() },
        Script { rotation: None, ..Default::default() },
        Script { prob: 1e-5, ..Default::default() },
        Script { refined: None, ..Default::default() },
    ];
    for s in &scripts {
        assert_eq!(run(&four(), &setup(), s).0, Err(SolveStatus::NoMatch));
    }
    // A probability that is not a number is not refused.
    let s = Script { prob: f64::NAN, ..Default::default() };
    assert!(run(&four(), &setup(), &s).0.is_ok());
}
