//! Numbers as bit patterns, order statistics and orders.

use tetra3::ieee::{F32, F64};
use tetra3::measure::{sort_and_truncate_by_mass, Centroid};
use tetra3::order::{brightness_key, descending_order};
use tetra3::stats::{median_f32, median_mad, midpoint_f32, midpoint_f64, Median};

const MAD_SCALE: f64 = 1.4826;

fn f(v: f32) -> F32 {
    F32 { bits: v.to_bits() }
}

fn d(v: f64) -> F64 {
    F64 { bits: v.to_bits() }
}

fn median_mad_sigma(vals: &mut [f64]) -> (f64, f64) {
    let bits: Vec<F64> = vals.iter().map(|&v| d(v)).collect();
    let (m, mad) = median_mad(&bits, |v: F64, m: F64| {
        d((f64::from_bits(v.bits) - f64::from_bits(m.bits)).abs())
    });
    (f64::from_bits(m.bits), MAD_SCALE * f64::from_bits(mad.bits))
}

#[test]
fn median_mad_basic() {
    let mut v = vec![1.0, 2.0, 3.0, 4.0, 100.0];
    let (m, s) = median_mad_sigma(&mut v);
    assert_eq!(m, 3.0);
    assert!((s - MAD_SCALE).abs() < 1e-12); // |devs| = 2,1,0,1,97: the middle one is 1
    assert_eq!(median_mad_sigma(&mut []), (0.0, 0.0));
}

#[test]
fn median_mad_tolerates_nan() {
    let mut v = vec![1.0, f64::NAN, 2.0, 3.0];
    let (m, _) = median_mad_sigma(&mut v);
    assert!(m.is_finite());
}

const SAMPLES: [f32; 14] = [
    0.0,
    -0.0,
    1.0,
    -1.0,
    1.5e-45,
    -1.5e-45,
    1.17549435e-38,
    f32::MAX,
    f32::MIN,
    f32::INFINITY,
    f32::NEG_INFINITY,
    f32::NAN,
    0.1,
    -123.456,
];

#[test]
fn comparisons_are_numeric() {
    for &a in &SAMPLES {
        assert_eq!(f(a).is_finite(), a.is_finite());
        assert_eq!(f(a).is_nan(), a.is_nan());
        assert_eq!(f(a).abs().bits, a.abs().to_bits());
        for &b in &SAMPLES {
            assert_eq!(f(a).gt(f(b)), a > b, "{a} > {b}");
            assert_eq!(f(a).ge(f(b)), a >= b, "{a} >= {b}");
            let (x, y) = (a as f64, b as f64);
            assert_eq!(d(x).gt(d(y)), x > y);
            assert_eq!(d(x).ge(d(y)), x >= y);
            assert_eq!(f(a).total_key() < f(b).total_key(), a.total_cmp(&b).is_lt());
            assert_eq!(d(x).total_key() < d(y).total_key(), x.total_cmp(&y).is_lt());
        }
    }
}

#[test]
fn total_keys_read_back() {
    for &a in &SAMPLES {
        assert_eq!(F32::from_total_key(f(a).total_key()), f(a));
        assert_eq!(F64::from_total_key(d(a as f64).total_key()), d(a as f64));
    }
}

#[test]
fn widening_is_exact_and_narrowing_undoes_it() {
    for &a in &SAMPLES {
        let wide = f(a).widen();
        if a.is_nan() {
            assert!(f64::from_bits(wide.bits).is_nan());
            assert!(f32::from_bits(wide.narrow().bits).is_nan());
        } else {
            assert_eq!(wide.bits, (a as f64).to_bits());
            assert_eq!(wide.narrow(), f(a));
        }
    }
}

#[test]
fn narrowing_rounds_to_nearest_even() {
    let mut cases = vec![
        0.1,
        1.0 + f32::EPSILON as f64 / 2.0,
        1.0 + 1.5 * f32::EPSILON as f64,
        f32::MAX as f64 * 1.000_000_1,
        f64::MAX,
        f64::MIN_POSITIVE,
        1e-45,
        0.7e-45,
        7.0e-46,
        1.1754943e-38,
        3.4028235677973366e38,
        3.4028235677973362e38,
        -2.5e-42,
        f64::INFINITY,
        -0.0,
    ];
    let mut state = 0x9e37_79b9_7f4a_7c15u64;
    for _ in 0..2000 {
        state ^= state << 13;
        state ^= state >> 7;
        state ^= state << 17;
        // Exponents around the single range.
        let bits = (state & 0x800f_ffff_ffff_ffff) | ((860 + (state >> 52) % 300) << 52);
        cases.push(f64::from_bits(bits));
    }
    for v in cases {
        assert_eq!(d(v).narrow().bits, (v as f32).to_bits(), "{v:e}");
    }
    assert!(f32::from_bits(d(f64::NAN).narrow().bits).is_nan());
}

#[test]
fn small_integers_are_exact() {
    for v in [0u8, 1, 2, 3, 127, 255] {
        assert_eq!(F32::from_u8(v), f(v as f32));
    }
    for v in [0u16, 1, 255, 256, 4097, 65535] {
        assert_eq!(F32::from_u16(v), f(v as f32));
    }
    for v in [0i16, 1, -1, 255, -32768, 32767] {
        assert_eq!(F32::from_i16(v), f(v as f32));
    }
}

#[test]
fn order_statistics() {
    let v: Vec<F32> = [5.0, 1.0, 4.0, 2.0, 3.0, 9.0].iter().map(|&v| f(v)).collect();
    assert_eq!(midpoint_f32(&v), f(4.0));
    assert!(matches!(median_f32(&v), Median::Between(a, b) if a == f(3.0) && b == f(4.0)));
    assert!(matches!(median_f32(&v[..5]), Median::Middle(m) if m == f(3.0)));
    assert!(matches!(median_f32(&[]), Median::Empty));
    assert_eq!(midpoint_f32(&[]), f(0.0));
    assert_eq!(midpoint_f64(&[d(2.0), d(-1.0), d(7.0)]), d(2.0));
    // One NaN among three values is not in the middle.
    assert_eq!(midpoint_f32(&[f(2.0), f(f32::NAN), f(1.0)]), f(2.0));
}

#[test]
fn the_order_is_descending_and_stable() {
    assert_eq!(descending_order(&vec![3, 7, 3, 9, 7]), vec![3, 1, 4, 0, 2]);
    assert!(brightness_key(Some(f(2.0)), f(0.0)) > brightness_key(Some(f(1.0)), f(0.0)));
    assert_eq!(brightness_key(None, f(1.0)), brightness_key(Some(f(1.0)), f(5.0)));
    assert!(brightness_key(Some(f(f32::NAN)), f(0.0)) < brightness_key(Some(f(f32::MIN)), f(0.0)));
}

#[test]
fn centroids_are_sorted_and_cut() {
    let c = |x: f32, mass: Option<f32>| Centroid { x: f(x), y: f(0.0), mass: mass.map(f), cov: None };
    let mut list = vec![
        c(0.0, Some(1.0)),
        c(1.0, None),
        c(2.0, Some(5.0)),
        c(3.0, Some(-1.0)),
        c(4.0, Some(5.0)),
    ];
    let mut all = list.clone();
    sort_and_truncate_by_mass(&mut all, None);
    let xs: Vec<f32> = all.iter().map(|c| f32::from_bits(c.x.bits)).collect();
    assert_eq!(xs, vec![2.0, 4.0, 0.0, 1.0, 3.0]);
    sort_and_truncate_by_mass(&mut list, Some(2));
    assert_eq!(list, all[..2].to_vec());
}
