//! IEEE 754 numbers by their bit patterns.
//!
//! The library orders, selects and copies numbers, and never adds or multiplies
//! them: it holds each as its bit pattern and reads off what it decides on, the
//! sign, the magnitude, and whether the pattern stands for a number at all.

use vstd::arithmetic::mul::{lemma_mul_inequality, lemma_mul_strict_inequality};
use vstd::arithmetic::power2::{
    lemma2_to64, lemma_pow2_pos, lemma_pow2_strictly_increases, lemma_pow2_unfold, pow2,
};
use vstd::prelude::*;

verus! {

/// The bit of a single that holds its sign.
pub const SIGN_32: u32 = 0x8000_0000;

/// The magnitude of an infinite single; every larger one is not a number.
pub const INF_32: u32 = 0x7f80_0000;

/// One more than the largest fraction of a single.
pub const UNIT_32: u32 = 0x0080_0000;

/// The bit of a double that holds its sign.
pub const SIGN_64: u64 = 0x8000_0000_0000_0000;

/// The magnitude of an infinite double; every larger one is not a number.
pub const INF_64: u64 = 0x7ff0_0000_0000_0000;

/// A single-precision number by its bit pattern.
#[derive(Clone, Copy, Debug, PartialEq, Eq, Structural)]
pub struct F32 {
    pub bits: u32,
}

/// A double-precision number by its bit pattern.
#[derive(Clone, Copy, Debug, PartialEq, Eq, Structural)]
pub struct F64 {
    pub bits: u64,
}

impl F32 {
    /// The sign bit is set.
    pub open spec fn negative(self) -> bool {
        self.bits >= SIGN_32
    }

    /// The pattern without its sign.
    pub open spec fn magnitude(self) -> int {
        self.bits as int % SIGN_32 as int
    }

    /// Not a number.
    pub open spec fn nan(self) -> bool {
        self.magnitude() > INF_32
    }

    /// A number other than the two infinities.
    pub open spec fn finite(self) -> bool {
        self.magnitude() < INF_32
    }

    /// Position in the numeric order; both zeros are at 0.
    pub open spec fn rank(self) -> int {
        if self.negative() {
            -self.magnitude()
        } else {
            self.magnitude()
        }
    }

    /// Position in the total order of patterns, which puts the negative zero
    /// below the positive one, and what is not a number at the two ends.
    pub open spec fn total_rank(self) -> int {
        if self.negative() {
            -self.magnitude() - 1
        } else {
            self.magnitude()
        }
    }

    /// `self > other` in the numeric order; nothing compares with a NaN.
    pub open spec fn above(self, other: F32) -> bool {
        !self.nan() && !other.nan() && self.rank() > other.rank()
    }

    /// `self >= other` in the numeric order; nothing compares with a NaN.
    pub open spec fn at_least(self, other: F32) -> bool {
        !self.nan() && !other.nan() && self.rank() >= other.rank()
    }

    /// The number without its sign.
    pub open spec fn absolute(self) -> F32 {
        F32 { bits: self.magnitude() as u32 }
    }

    /// A finite number in units of the least positive single.
    pub open spec fn scaled(self) -> int {
        if self.negative() {
            -scaled_magnitude(self.magnitude())
        } else {
            scaled_magnitude(self.magnitude())
        }
    }

    /// The number is the integer `v`; zero is the positive one.
    pub open spec fn is_integer(self, v: int) -> bool {
        &&& self.finite()
        &&& self.scaled() == v * pow2(149)
        &&& self.negative() <==> v < 0
    }

    /// The positive zero.
    pub open spec fn zero() -> F32 {
        F32 { bits: 0 }
    }

    fn magnitude_bits(self) -> (m: u32)
        ensures
            m == self.magnitude(),
    {
        if self.bits >= SIGN_32 {
            self.bits - SIGN_32
        } else {
            self.bits
        }
    }

    /// Whether the number is neither infinite nor NaN.
    pub fn is_finite(self) -> (r: bool)
        ensures
            r == self.finite(),
    {
        self.magnitude_bits() < INF_32
    }

    /// Whether the pattern stands for no number.
    pub fn is_nan(self) -> (r: bool)
        ensures
            r == self.nan(),
    {
        self.magnitude_bits() > INF_32
    }

    /// The numeric position.
    pub fn rank_key(self) -> (k: i64)
        ensures
            k == self.rank(),
    {
        let m: i64 = self.magnitude_bits() as i64;
        if self.bits >= SIGN_32 {
            -m
        } else {
            m
        }
    }

    /// The position in the total order.
    pub fn total_key(self) -> (k: i64)
        ensures
            k == self.total_rank(),
    {
        let m: i64 = self.magnitude_bits() as i64;
        if self.bits >= SIGN_32 {
            -m - 1
        } else {
            m
        }
    }

    /// The number at a position of the total order.
    pub fn from_total_key(k: i64) -> (v: F32)
        requires
            -(SIGN_32 as int) <= k < SIGN_32,
        ensures
            v.total_rank() == k,
    {
        if k < 0 {
            F32 { bits: SIGN_32 + ((-(k + 1)) as u32) }
        } else {
            F32 { bits: k as u32 }
        }
    }

    /// `self > other`.
    pub fn gt(self, other: F32) -> (r: bool)
        ensures
            r == self.above(other),
    {
        !self.is_nan() && !other.is_nan() && self.rank_key() > other.rank_key()
    }

    /// `self >= other`.
    pub fn ge(self, other: F32) -> (r: bool)
        ensures
            r == self.at_least(other),
    {
        !self.is_nan() && !other.is_nan() && self.rank_key() >= other.rank_key()
    }

    /// The number without its sign.
    pub fn abs(self) -> (r: F32)
        ensures
            r == self.absolute(),
    {
        F32 { bits: self.magnitude_bits() }
    }

    /// The single that stands for an integer below 2^24 exactly.
    fn from_small(v: u32) -> (out: F32)
        requires
            v < 2 * UNIT_32,
        ensures
            out.finite(),
            !out.negative(),
            out.scaled() == v * pow2(149),
            v == 0 ==> out == F32::zero(),
    {
        if v == 0 {
            assert(0 * pow2(149) == 0) by (nonlinear_arith);
            assert(scaled_magnitude(0) == 0);
            return F32 { bits: 0 };
        }
        let mut m: u32 = v;
        let mut e: u32 = 150;
        proof {
            lemma2_to64();
        }
        while m < UNIT_32
            invariant
                0 < m < 2 * UNIT_32,
                1 <= e <= 150,
                m < UNIT_32 ==> e > 127,
                m as int * pow2((e - 1) as nat) == v as int * pow2(149),
                m >= pow2((150 - e) as nat),
            decreases e,
        {
            let ghost m0 = m as int;
            let ghost p = pow2((e - 2) as nat) as int;
            proof {
                lemma_pow2_unfold((e - 1) as nat);
                lemma_pow2_unfold((151 - e) as nat);
                assert(m0 * (2 * p) == (2 * m0) * p) by (nonlinear_arith);
                if e <= 128 {
                    lemma_pow2_23();
                    lemma_pow2_at_least(22, (150 - e) as nat);
                }
            }
            m = m * 2;
            e = e - 1;
            proof {
                if m < UNIT_32 && e <= 127 {
                    lemma_pow2_23();
                    lemma_pow2_at_least(23, (150 - e) as nat);
                }
            }
        }
        let bits: u32 = e * UNIT_32 + (m - UNIT_32);
        let out = F32 { bits };
        proof {
            let f = m - UNIT_32;
            assert(out.magnitude() / UNIT_32 as int == e && out.magnitude() % UNIT_32 as int == f);
        }
        out
    }

    /// The single that stands for `v`.
    pub fn from_u8(v: u8) -> (out: F32)
        ensures
            out.is_integer(v as int),
    {
        F32::from_small(v as u32)
    }

    /// The single that stands for `v`.
    pub fn from_u16(v: u16) -> (out: F32)
        ensures
            out.is_integer(v as int),
    {
        F32::from_small(v as u32)
    }

    /// The single that stands for `v`.
    pub fn from_i16(v: i16) -> (out: F32)
        ensures
            out.is_integer(v as int),
    {
        if v >= 0 {
            F32::from_small(v as u32)
        } else {
            let m: u32 = (-(v as i32)) as u32;
            let abs = F32::from_small(m);
            assert(-(m as int * pow2(149)) == (-(m as int)) * pow2(149)) by (nonlinear_arith);
            F32 { bits: abs.bits + SIGN_32 }
        }
    }
}

/// A finite magnitude in units of the least positive single: the fraction, with
/// its leading one where the exponent is not the lowest, times the power of two
/// that the exponent stands for.
pub open spec fn scaled_magnitude(m: int) -> int {
    let e = m / UNIT_32 as int;
    let f = m % UNIT_32 as int;
    if e == 0 {
        f
    } else {
        (UNIT_32 + f) * pow2((e - 1) as nat)
    }
}

proof fn lemma_pow2_at_least(a: nat, b: nat)
    requires
        a <= b,
    ensures
        pow2(a) <= pow2(b),
{
    if a < b {
        lemma_pow2_strictly_increases(a, b);
    }
}

proof fn lemma_pow2_23()
    ensures
        pow2(22) == 0x40_0000,
        pow2(23) == UNIT_32,
{
    lemma2_to64();
}

/// Larger magnitudes stand for larger numbers.
pub proof fn lemma_scaled_grows(m: int, n: int)
    requires
        0 <= m < n,
    ensures
        scaled_magnitude(m) < scaled_magnitude(n),
{
    let u = UNIT_32 as int;
    let (em, fm) = (m / u, m % u);
    let (en, f_n) = (n / u, n % u);
    assert(em <= en) by (nonlinear_arith)
        requires
            em == m / u,
            en == n / u,
            m < n,
            u == 0x0080_0000,
    ;
    if en == 0 {
    } else if em == en {
        lemma_pow2_pos((em - 1) as nat);
        lemma_mul_strict_inequality(u + fm, u + f_n, pow2((em - 1) as nat) as int);
    } else {
        // A whole step of the exponent: the smaller is below 2 * u units of its
        // own power, which is at most u units of the larger one's.
        let pn = pow2((en - 1) as nat) as int;
        lemma_pow2_pos((en - 1) as nat);
        lemma_mul_inequality(u, u + f_n, pn);
        if em == 0 {
            lemma_mul_inequality(1, pn, u);
            assert(u * pn == pn * u) by (nonlinear_arith);
            assert(fm < u);
        } else {
            let pm = pow2((em - 1) as nat) as int;
            lemma_pow2_pos((em - 1) as nat);
            lemma_mul_strict_inequality(u + fm, 2 * u, pm);
            lemma_pow2_unfold(em as nat);
            lemma_pow2_at_least(em as nat, (en - 1) as nat);
            assert((2 * u) * pm == u * (2 * pm)) by (nonlinear_arith);
            lemma_mul_inequality(2 * pm, pn, u);
            assert(u * (2 * pm) == (2 * pm) * u) by (nonlinear_arith);
            assert(u * pn == pn * u) by (nonlinear_arith);
        }
    }
}

proof fn lemma_scaled_sign(m: int)
    requires
        0 <= m,
    ensures
        scaled_magnitude(m) >= 0,
        scaled_magnitude(m) == 0 <==> m == 0,
{
    if m > 0 {
        lemma_scaled_grows(0, m);
    }
}

/// The order of finite patterns is the order of the numbers they stand for.
pub proof fn law_rank_is_numeric(a: F32, b: F32)
    requires
        a.finite(),
        b.finite(),
    ensures
        a.rank() < b.rank() <==> a.scaled() < b.scaled(),
        a.rank() == b.rank() <==> a.scaled() == b.scaled(),
{
    let m = a.magnitude();
    let n = b.magnitude();
    lemma_scaled_sign(m);
    lemma_scaled_sign(n);
    if m < n {
        lemma_scaled_grows(m, n);
    } else if n < m {
        lemma_scaled_grows(n, m);
    }
}

/// The positions of the total order belong to one pattern each, and refine the
/// numeric order.
pub proof fn law_total_rank(a: F32, b: F32)
    ensures
        a.total_rank() == b.total_rank() <==> a == b,
        a.rank() < b.rank() ==> a.total_rank() < b.total_rank(),
        -(SIGN_32 as int) <= a.total_rank() < SIGN_32,
{
}

/// The positions of the total order belong to one double each, and refine the
/// numeric order.
pub proof fn law_total_rank_64(a: F64, b: F64)
    ensures
        a.total_rank() == b.total_rank() <==> a == b,
        a.rank() < b.rank() ==> a.total_rank() < b.total_rank(),
{
}

/// A number without its sign is its distance from zero.
pub proof fn law_absolute_is_distance(a: F32)
    ensures
        a.absolute().nan() == a.nan(),
        a.absolute().rank() == if a.rank() < 0 {
            -a.rank()
        } else {
            a.rank()
        },
{
    assert(0 <= a.magnitude() < SIGN_32);
    assert(a.absolute().bits == a.magnitude());
}

/// A double without its sign is its distance from zero.
pub proof fn law_absolute_is_distance_64(a: F64)
    ensures
        a.absolute().nan() == a.nan(),
        a.absolute().rank() == if a.rank() < 0 {
            -a.rank()
        } else {
            a.rank()
        },
{
    assert(0 <= a.magnitude() < SIGN_64);
    assert(a.absolute().bits == a.magnitude());
}

/// In the total order every finite number comes before every positive NaN and
/// after every negative one.
pub proof fn law_nan_at_the_ends(a: F32, nan: F32)
    requires
        a.finite(),
        nan.nan(),
    ensures
        nan.negative() ==> nan.total_rank() < a.total_rank(),
        !nan.negative() ==> a.total_rank() < nan.total_rank(),
{
}

impl F64 {
    /// The sign bit is set.
    pub open spec fn negative(self) -> bool {
        self.bits >= SIGN_64
    }

    /// The pattern without its sign.
    pub open spec fn magnitude(self) -> int {
        self.bits as int % SIGN_64 as int
    }

    /// Not a number.
    pub open spec fn nan(self) -> bool {
        self.magnitude() > INF_64
    }

    /// A number other than the two infinities.
    pub open spec fn finite(self) -> bool {
        self.magnitude() < INF_64
    }

    /// Position in the numeric order; both zeros are at 0.
    pub open spec fn rank(self) -> int {
        if self.negative() {
            -self.magnitude()
        } else {
            self.magnitude()
        }
    }

    /// `self > other` in the numeric order; nothing compares with a NaN.
    pub open spec fn above(self, other: F64) -> bool {
        !self.nan() && !other.nan() && self.rank() > other.rank()
    }

    /// `self >= other` in the numeric order; nothing compares with a NaN.
    pub open spec fn at_least(self, other: F64) -> bool {
        !self.nan() && !other.nan() && self.rank() >= other.rank()
    }

    /// The number without its sign.
    pub open spec fn absolute(self) -> F64 {
        F64 { bits: self.magnitude() as u64 }
    }

    /// Position in the total order of patterns, which puts the negative zero
    /// below the positive one, and what is not a number at the two ends.
    pub open spec fn total_rank(self) -> int {
        if self.negative() {
            -self.magnitude() - 1
        } else {
            self.magnitude()
        }
    }

    /// The positive zero.
    pub open spec fn zero() -> F64 {
        F64 { bits: 0 }
    }

    /// The position in the total order.
    pub fn total_key(self) -> (k: i64)
        ensures
            k == self.total_rank(),
    {
        let m: i64 = self.magnitude_bits() as i64;
        if self.bits >= SIGN_64 {
            -m - 1
        } else {
            m
        }
    }

    /// The number at a position of the total order.
    pub fn from_total_key(k: i64) -> (v: F64)
        ensures
            v.total_rank() == k,
    {
        if k < 0 {
            F64 { bits: SIGN_64 + ((-(k + 1)) as u64) }
        } else {
            F64 { bits: k as u64 }
        }
    }

    fn magnitude_bits(self) -> (m: u64)
        ensures
            m == self.magnitude(),
    {
        if self.bits >= SIGN_64 {
            self.bits - SIGN_64
        } else {
            self.bits
        }
    }

    /// Whether the number is neither infinite nor NaN.
    pub fn is_finite(self) -> (r: bool)
        ensures
            r == self.finite(),
    {
        self.magnitude_bits() < INF_64
    }

    /// Whether the pattern stands for no number.
    pub fn is_nan(self) -> (r: bool)
        ensures
            r == self.nan(),
    {
        self.magnitude_bits() > INF_64
    }

    /// The number without its sign.
    pub fn abs(self) -> (r: F64)
        ensures
            r == self.absolute(),
    {
        F64 { bits: self.magnitude_bits() }
    }

    /// A number's position in the numeric order.
    fn rank_key(self) -> (r: i128)
        ensures
            r == self.rank(),
    {
        let m: i128 = self.magnitude_bits() as i128;
        if self.bits >= SIGN_64 {
            -m
        } else {
            m
        }
    }

    /// `self > other`.
    pub fn gt(self, other: F64) -> (r: bool)
        ensures
            r == self.above(other),
    {
        !self.is_nan() && !other.is_nan() && self.rank_key() > other.rank_key()
    }

    /// `self >= other`.
    pub fn ge(self, other: F64) -> (r: bool)
        ensures
            r == self.at_least(other),
    {
        !self.is_nan() && !other.is_nan() && self.rank_key() >= other.rank_key()
    }
}

} // verus!
