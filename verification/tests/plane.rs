//! Lens distortion, with the arithmetic in floating point.

use tetra3::distortion::{self, BrownConradyEval, NotFinite, PlaneArithmetic};
use tetra3::ieee::F64;

fn d(v: f64) -> F64 {
    F64 { bits: v.to_bits() }
}

fn v(v: F64) -> f64 {
    f64::from_bits(v.bits)
}

fn evaluate(m: &distortion::RadialDistortion, x: F64, y: F64) -> BrownConradyEval {
    let (k1, k2, k3, p1, p2) = (v(m.k1), v(m.k2), v(m.k3), v(m.p1), v(m.p2));
    let (x, y) = (v(x), v(y));
    let r2 = x * x + y * y;
    let r4 = r2 * r2;
    let r6 = r2 * r4;
    let radial = 1.0 + k1 * r2 + k2 * r4 + k3 * r6;
    let radial_prime = k1 + 2.0 * k2 * r2 + 3.0 * k3 * r4;
    let dx_t = 2.0 * p1 * x * y + p2 * (r2 + 2.0 * x * x);
    let dy_t = p1 * (r2 + 2.0 * y * y) + 2.0 * p2 * x * y;
    BrownConradyEval {
        fx: d(x * radial + dx_t),
        fy: d(y * radial + dy_t),
        j11: d(radial + 2.0 * x * x * radial_prime + 2.0 * p1 * y + 6.0 * p2 * x),
        j12: d(2.0 * x * y * radial_prime + 2.0 * p1 * x + 2.0 * p2 * y),
        j22: d(radial + 2.0 * y * y * radial_prime + 6.0 * p1 * y + 2.0 * p2 * x),
    }
}

fn det(e: BrownConradyEval) -> f64 {
    v(e.j11) * v(e.j22) - v(e.j12) * v(e.j12)
}

fn step(e: BrownConradyEval, rx: F64, ry: F64) -> (F64, F64) {
    let inv = 1.0 / det(e);
    (
        d(inv * (v(e.j22) * v(rx) - v(e.j12) * v(ry))),
        d(inv * (-v(e.j12) * v(rx) + v(e.j11) * v(ry))),
    )
}

struct RadialDistortion(distortion::RadialDistortion);

impl RadialDistortion {
    fn new(k1: f64, k2: f64, k3: f64) -> Self {
        RadialDistortion(distortion::RadialDistortion::new(d(k1), d(k2), d(k3)))
    }

    fn with_tangential(k1: f64, k2: f64, k3: f64, p1: f64, p2: f64) -> Self {
        RadialDistortion(distortion::RadialDistortion::with_tangential(
            d(k1),
            d(k2),
            d(k3),
            d(p1),
            d(p2),
        ))
    }

    fn with_center(cx: f64, cy: f64, k1: f64, k2: f64, k3: f64, p1: f64, p2: f64) -> Self {
        RadialDistortion(distortion::RadialDistortion::with_center(
            d(cx),
            d(cy),
            d(k1),
            d(k2),
            d(k3),
            d(p1),
            d(p2),
        ))
    }

    fn map(&self, x: f64, y: f64, forward: bool) -> (f64, f64) {
        let ar = PlaneArithmetic {
            evaluate,
            plus: |a: F64, b: F64| d(v(a) + v(b)),
            minus: |a: F64, b: F64| d(v(a) - v(b)),
            squares: |a: F64, b: F64| d(v(a) * v(a) + v(b) * v(b)),
            determinant: |e: BrownConradyEval| d(det(e).abs()),
            step,
            size: |a: F64, b: F64| d(v(a).abs() + v(b).abs()),
        };
        let (x, y) = if forward {
            self.0.distort(d(x), d(y), &ar)
        } else {
            self.0.undistort(d(x), d(y), &ar)
        };
        (v(x), v(y))
    }

    fn distort(&self, x: f64, y: f64) -> (f64, f64) {
        self.map(x, y, true)
    }

    fn undistort(&self, x: f64, y: f64) -> (f64, f64) {
        self.map(x, y, false)
    }
}

#[test]
fn test_roundtrip_off_center() {
    // Mosaic-style: distortion centered near a detector corner.
    let d = RadialDistortion::with_center(-1100.0, -1080.0, -5e-9, 1e-15, 0.0, 1e-7, -2e-7);
    for &(x, y) in &[(0.0, 0.0), (-900.0, -1000.0), (1024.0, 1024.0)] {
        let (xd, yd) = d.distort(x, y);
        let (xu, yu) = d.undistort(xd, yd);
        assert!(
            (xu - x).abs() < 1e-6 && (yu - y).abs() < 1e-6,
            "roundtrip failed at ({x}, {y}): got ({xu}, {yu})",
        );
    }
    // Distortion must vanish at the model's own center.
    let (xd, yd) = d.distort(-1100.0, -1080.0);
    assert!((xd + 1100.0).abs() < 1e-9 && (yd + 1080.0).abs() < 1e-9);
}

#[test]
fn test_roundtrip_radial_only() {
    let d = RadialDistortion::new(-7e-9, 2e-15, 0.0);
    // Test at various radii
    for &(x, y) in &[
        (100.0, 200.0),
        (500.0, 300.0),
        (0.0, 1000.0),
        (1024.0, 512.0),
    ] {
        let (xd, yd) = d.distort(x, y);
        let (xu, yu) = d.undistort(xd, yd);
        assert!(
            (xu - x).abs() < 1e-6 && (yu - y).abs() < 1e-6,
            "Roundtrip failed for ({}, {}): got ({}, {})",
            x,
            y,
            xu,
            yu
        );
    }
}

#[test]
fn test_roundtrip_full_brown_conrady() {
    // Realistic-magnitude Brown-Conrady with tangential terms.
    let d = RadialDistortion::with_tangential(-7e-9, 2e-15, 0.0, 5e-7, -3e-7);
    for &(x, y) in &[
        (100.0, 200.0),
        (500.0, 300.0),
        (0.0, 1000.0),
        (1024.0, 512.0),
        (-800.0, -700.0),
    ] {
        let (xd, yd) = d.distort(x, y);
        let (xu, yu) = d.undistort(xd, yd);
        assert!(
            (xu - x).abs() < 1e-6 && (yu - y).abs() < 1e-6,
            "Roundtrip failed for ({}, {}): got ({}, {})",
            x,
            y,
            xu,
            yu
        );
    }
}

#[test]
fn test_zero_distortion() {
    let d = RadialDistortion::new(0.0, 0.0, 0.0);
    let (xu, yu) = d.undistort(100.0, 200.0);
    assert!((xu - 100.0).abs() < 1e-12);
    assert!((yu - 200.0).abs() < 1e-12);
}

#[test]
fn test_origin() {
    let d = RadialDistortion::new(-1e-6, 1e-12, 0.0);
    let (xu, yu) = d.undistort(0.0, 0.0);
    assert!(xu.abs() < 1e-12);
    assert!(yu.abs() < 1e-12);
}

#[test]
fn only_finite_models_are_valid() {
    assert_eq!(RadialDistortion::new(-1e-8, 0.0, 0.0).0.validate(), Ok(()));
    for bad in [f64::NAN, f64::INFINITY, f64::NEG_INFINITY] {
        for i in 0..7 {
            let mut c = [1e-9; 7];
            c[i] = bad;
            let m = RadialDistortion::with_center(c[0], c[1], c[2], c[3], c[4], c[5], c[6]);
            assert_eq!(m.0.validate(), Err(NotFinite));
        }
    }
}

#[test]
fn the_constructors_agree() {
    let radial = RadialDistortion::new(1e-8, 2e-15, 3e-21).0;
    assert_eq!(radial, RadialDistortion::with_tangential(1e-8, 2e-15, 3e-21, 0.0, 0.0).0);
    let full = RadialDistortion::with_tangential(1e-8, 2e-15, 0.0, 5e-7, -3e-7).0;
    assert_eq!(full, RadialDistortion::with_center(0.0, 0.0, 1e-8, 2e-15, 0.0, 5e-7, -3e-7).0);
}

#[test]
fn the_forward_model_has_its_formula() {
    let m = RadialDistortion::with_tangential(1e-6, 0.0, 0.0, 1e-4, 0.0);
    // r^2 = 25: radial 1 + 25e-6; tangential 2 p1 x y = 24e-4 and p1 (r^2 + 2 y^2) = 57e-4.
    let (x, y) = m.distort(3.0, 4.0);
    assert!((x - (3.0 * (1.0 + 25e-6) + 24e-4)).abs() < 1e-15);
    assert!((y - (4.0 * (1.0 + 25e-6) + 57e-4)).abs() < 1e-15);
}

#[test]
fn a_singular_jacobian_stops_the_iteration() {
    // The radial derivative 1 + 3 k1 x^2 is zero at x = 1.
    let m = RadialDistortion::new(-1.0 / 3.0, 0.0, 0.0);
    assert_eq!(m.undistort(1.0, 0.0), (1.0, 0.0));
}

#[test]
fn the_iteration_ends_after_so_many_steps() {
    // A model that is always one off, and a step that never helps.
    let walk = |size: f64| {
        let ar = PlaneArithmetic {
            evaluate: |_: &distortion::RadialDistortion, x: F64, y: F64| BrownConradyEval {
                fx: d(v(x) + 1000.0),
                fy: y,
                j11: d(1.0),
                j12: d(0.0),
                j22: d(1.0),
            },
            plus: |a: F64, b: F64| d(v(a) + v(b)),
            minus: |a: F64, b: F64| d(v(a) - v(b)),
            squares: |a: F64, b: F64| d(v(a) * v(a) + v(b) * v(b)),
            determinant: |e: BrownConradyEval| d(det(e).abs()),
            step: |_: BrownConradyEval, _: F64, _: F64| (d(1.0), d(0.0)),
            size: |_: F64, _: F64| d(size),
        };
        let (x, y) = RadialDistortion::new(0.0, 0.0, 0.0).0.undistort(d(7.0), d(3.0), &ar);
        (v(x), v(y))
    };
    assert_eq!(walk(1.0), (7.0 - 20.0, 3.0));
    // A negligible step is the last.
    assert_eq!(walk(1e-13), (6.0, 3.0));
}
