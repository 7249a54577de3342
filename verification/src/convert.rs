//! Conversions between singles and doubles, on bit patterns.

use vstd::arithmetic::mul::{lemma_mul_inequality, lemma_mul_strict_inequality};
use vstd::arithmetic::power2::{
    lemma2_to64, lemma2_to64_rest, lemma_pow2_adds, lemma_pow2_pos,
    lemma_pow2_strictly_increases, lemma_pow2_unfold, pow2,
};
use vstd::prelude::*;

use crate::ieee::{
    lemma_scaled_grows, scaled_magnitude, F32, F64, INF_32, INF_64, SIGN_32, SIGN_64, UNIT_32,
};

verus! {

/// One more than the largest fraction of a double.
pub const UNIT_64: u64 = 0x0010_0000_0000_0000;

/// How many fractions of a double make one of a single.
pub const STEP: u64 = 0x2000_0000;

/// A finite double magnitude in units of the least positive double.
pub open spec fn scaled_magnitude_64(m: int) -> int {
    let e = m / UNIT_64 as int;
    let f = m % UNIT_64 as int;
    if e == 0 {
        f
    } else {
        (UNIT_64 + f) * pow2((e - 1) as nat)
    }
}

impl F64 {
    /// A finite number in units of the least positive double.
    pub open spec fn scaled(self) -> int {
        if self.negative() {
            -scaled_magnitude_64(self.magnitude())
        } else {
            scaled_magnitude_64(self.magnitude())
        }
    }
}

/// `d` stands for the same number as `s`; the unit of singles is 2^925 units of
/// doubles.
pub open spec fn same_number(s: F32, d: F64) -> bool {
    &&& s.nan() <==> d.nan()
    &&& s.finite() <==> d.finite()
    &&& s.negative() <==> d.negative()
    &&& s.finite() ==> d.scaled() == s.scaled() * pow2(925)
}

/// A normal magnitude, widened.
proof fn lemma_widen_normal(e: int, f: int)
    requires
        0 < e < 255,
        0 <= f < UNIT_32,
    ensures
        ({
            let m = e * UNIT_32 + f;
            let d = (e + 896) * UNIT_64 + f * STEP;
            &&& 0 <= d < INF_64
            &&& scaled_magnitude_64(d) == scaled_magnitude(m) * pow2(925)
        }),
{
    let m = e * UNIT_32 + f;
    let d = (e + 896) * UNIT_64 + f * STEP;
    assert(m / UNIT_32 as int == e && m % UNIT_32 as int == f);
    assert(d / UNIT_64 as int == e + 896 && d % UNIT_64 as int == f * STEP);
    let a = UNIT_32 + f;
    let p = pow2((e - 1) as nat) as int;
    let s = STEP as int;
    lemma2_to64();
    assert(pow2(29) == STEP);
    lemma_pow2_adds((e - 1) as nat, 896);
    lemma_pow2_adds(29, 896);
    let q = pow2(896) as int;
    assert(UNIT_64 + f * STEP == a * s);
    assert((a * s) * (p * q) == (a * p) * (s * q)) by (nonlinear_arith);
}

/// A subnormal magnitude with its leading one moved up by `k` places, widened.
proof fn lemma_widen_subnormal(f: int, k: int, m: int)
    requires
        0 < f < UNIT_32,
        0 <= k <= 23,
        m == f * pow2(k as nat),
        UNIT_32 <= m < 2 * UNIT_32,
    ensures
        ({
            let d = (897 - k) * UNIT_64 + (m - UNIT_32) * STEP;
            &&& 0 <= d < INF_64
            &&& scaled_magnitude_64(d) == scaled_magnitude(f) * pow2(925)
        }),
{
    let d = (897 - k) * UNIT_64 + (m - UNIT_32) * STEP;
    assert(d / UNIT_64 as int == 897 - k && d % UNIT_64 as int == (m - UNIT_32) * STEP);
    let s = STEP as int;
    lemma2_to64();
    assert(pow2(29) == STEP);
    lemma_pow2_adds(29, 896);
    lemma_pow2_adds(k as nat, (896 - k) as nat);
    let pk = pow2(k as nat) as int;
    let q = pow2((896 - k) as nat) as int;
    assert(UNIT_64 + (m - UNIT_32) * STEP == m * s);
    assert(((f * pk) * s) * q == f * (s * (pk * q))) by (nonlinear_arith);
}

impl F32 {
    /// The double that stands for the same number.
    pub fn widen(self) -> (d: F64)
        ensures
            same_number(self, d),
    {
        let negative: bool = self.bits >= SIGN_32;
        let m: u32 = if negative {
            self.bits - SIGN_32
        } else {
            self.bits
        };
        let e: u32 = m / UNIT_32;
        let f: u32 = m % UNIT_32;
        let wide: u64;
        if e == 255 {
            wide = INF_64 + f as u64 * STEP;
        } else if e > 0 {
            wide = (e as u64 + 896) * UNIT_64 + f as u64 * STEP;
            proof {
                lemma_widen_normal(e as int, f as int);
            }
        } else if f == 0 {
            wide = 0;
            proof {
                assert(0 * pow2(925) == 0) by (nonlinear_arith);
            }
        } else {
            let mut k: u64 = 0;
            let mut n: u32 = f;
            proof {
                lemma2_to64();
            }
            while n < UNIT_32
                invariant
                    0 < f < UNIT_32,
                    0 < n < 2 * UNIT_32,
                    0 <= k <= 23,
                    n == f * pow2(k as nat),
                    n >= pow2(k as nat),
                decreases 23 - k,
            {
                proof {
                    lemma2_to64();
                    lemma_pow2_unfold((k + 1) as nat);
                    if k >= 23 {
                        assert(n >= UNIT_32);
                    }
                    let p = pow2(k as nat) as int;
                    assert(f * (2 * p) == 2 * (f * p)) by (nonlinear_arith);
                }
                n = n * 2;
                k = k + 1;
            }
            wide = (897 - k) * UNIT_64 + (n - UNIT_32) as u64 * STEP;
            proof {
                lemma_widen_subnormal(f as int, k as int, n as int);
            }
        }
        proof {
            if e == 255 {
            }
            let s = scaled_magnitude(m as int);
            assert((-s) * pow2(925) == -(s * pow2(925))) by (nonlinear_arith);
        }
        F64 {
            bits: if negative {
                SIGN_64 + wide
            } else {
                wide
            },
        }
    }
}

/// A single magnitude in units of the least positive double. The infinite
/// magnitude counts as the next step after the largest finite one.
pub open spec fn grid_value(n: int) -> int {
    scaled_magnitude(n) * pow2(925)
}

/// The single magnitude `n` is the nearest to `v`, the even one of two that are
/// equally near.
pub open spec fn rounds_to(v: int, n: int) -> bool {
    &&& 0 <= n <= INF_32
    &&& n > 0 ==> {
        ||| 2 * v > grid_value(n - 1) + grid_value(n)
        ||| 2 * v == grid_value(n - 1) + grid_value(n) && n % 2 == 0
    }
    &&& n < INF_32 ==> {
        ||| 2 * v < grid_value(n) + grid_value(n + 1)
        ||| 2 * v == grid_value(n) + grid_value(n + 1) && n % 2 == 0
    }
}

/// `s` is `d` rounded to single precision.
pub open spec fn is_narrowed(d: F64, s: F32) -> bool {
    &&& s.nan() <==> d.nan()
    &&& !d.nan() ==> (s.negative() <==> d.negative())
    &&& d.magnitude() == INF_64 ==> s.magnitude() == INF_32
    &&& d.finite() ==> rounds_to(scaled_magnitude_64(d.magnitude()), s.magnitude())
}

proof fn lemma_grid_grows(m: int, n: int)
    requires
        0 <= m < n,
    ensures
        grid_value(m) < grid_value(n),
{
    lemma_scaled_grows(m, n);
    lemma_pow2_pos(925);
    lemma_mul_strict_inequality(
        scaled_magnitude(m),
        scaled_magnitude(n),
        pow2(925) as int,
    );
}

/// Rounding between two neighbouring grid values.
proof fn lemma_round(v: int, k: int, rem: int, d: int, p: int, up: bool)
    requires
        0 <= k < INF_32,
        p > 0,
        0 <= rem < d,
        v == grid_value(k) + rem * p,
        grid_value(k + 1) == grid_value(k) + d * p,
        up == (2 * rem > d || (2 * rem == d && k % 2 == 1)),
    ensures
        rounds_to(
            v,
            if up {
                k + 1
            } else {
                k
            },
        ),
{
    assert(0 <= rem * p < d * p) by (nonlinear_arith)
        requires
            0 <= rem < d,
            p > 0,
    ;
    assert(2 * (rem * p) == (2 * rem) * p) by (nonlinear_arith);
    assert(2 * rem > d ==> (2 * rem) * p > d * p) by (nonlinear_arith)
        requires
            p > 0,
    ;
    assert(2 * rem < d ==> (2 * rem) * p < d * p) by (nonlinear_arith)
        requires
            p > 0,
    ;
    if up {
        if k + 1 < INF_32 {
            lemma_grid_grows(k + 1, k + 2);
        }
    } else if k > 0 {
        lemma_grid_grows(k - 1, k);
    }
}

/// The step from a normal magnitude to the next.
proof fn lemma_normal_step(e: int, f: int)
    requires
        0 < e < 255,
        0 <= f < UNIT_32,
    ensures
        grid_value(e * UNIT_32 + f) == ((UNIT_32 + f) * STEP) * pow2((e + 895) as nat),
        grid_value(e * UNIT_32 + f + 1) == grid_value(e * UNIT_32 + f) + STEP * pow2(
            (e + 895) as nat,
        ),
{
    let m = e * UNIT_32 + f;
    let a = UNIT_32 + f;
    let s = STEP as int;
    let p = pow2((e - 1) as nat) as int;
    let q = pow2(896) as int;
    lemma2_to64();
    assert(pow2(29) == STEP);
    lemma_pow2_adds((e - 1) as nat, 896);
    lemma_pow2_adds(29, 896);
    assert(m / UNIT_32 as int == e && m % UNIT_32 as int == f);
    assert((a * p) * (s * q) == (a * s) * (p * q)) by (nonlinear_arith);
    let n = m + 1;
    assert(((a + 1) * p) * (s * q) == (a * s) * (p * q) + s * (p * q)) by (nonlinear_arith);
    if f + 1 < UNIT_32 {
        assert(n / UNIT_32 as int == e && n % UNIT_32 as int == f + 1);
    } else {
        assert(n / UNIT_32 as int == e + 1 && n % UNIT_32 as int == 0);
        lemma_pow2_unfold(e as nat);
        let u = UNIT_32 as int;
        assert(u * (2 * p) == (a + 1) * p) by (nonlinear_arith)
            requires
                a + 1 == 2 * u,
        ;
    }
}

/// The lowest magnitudes are whole units.
proof fn lemma_low_step(k: int)
    requires
        0 <= k < UNIT_32,
    ensures
        grid_value(k) == k * pow2(925),
        grid_value(k + 1) == grid_value(k) + pow2(925),
{
    lemma2_to64();
    assert(scaled_magnitude(k + 1) == k + 1) by {
        if k + 1 == UNIT_32 {
            assert((k + 1) / UNIT_32 as int == 1);
        }
    }
    assert((k + 1) * pow2(925) == k * pow2(925) + pow2(925)) by (nonlinear_arith);
}

/// `m` less than `2^53` units of `2^(e - 1)`, in units of the least single.
proof fn lemma_small(m: int, e: int, k: int, rem: int, d: int)
    requires
        0 <= m < 0x20_0000_0000_0000,
        1 <= e <= 896,
        d == pow2((926 - e) as nat),
        m == k * d + rem,
        0 <= rem < d,
        0 <= k,
    ensures
        k < UNIT_32,
        m * pow2((e - 1) as nat) == grid_value(k) + rem * pow2((e - 1) as nat),
        grid_value(k + 1) == grid_value(k) + d * pow2((e - 1) as nat),
        pow2((e - 1) as nat) > 0,
{
    let p = pow2((e - 1) as nat) as int;
    lemma_pow2_pos((e - 1) as nat);
    lemma2_to64();
    assert(d >= 0x4000_0000) by {
        if e < 896 {
            lemma_pow2_strictly_increases(30, (926 - e) as nat);
        }
    }
    assert(k < UNIT_32) by (nonlinear_arith)
        requires
            k * d <= m,
            m < 0x20_0000_0000_0000,
            d >= 0x4000_0000,
            k >= 0,
    ;
    lemma_low_step(k);
    lemma_pow2_adds((926 - e) as nat, (e - 1) as nat);
    assert((k * d + rem) * p == k * (d * p) + rem * p) by (nonlinear_arith);
}

/// A magnitude of no more than half the least single rounds to zero.
proof fn lemma_vanishes(v: int)
    requires
        0 <= 2 * v < pow2(925),
    ensures
        rounds_to(v, 0),
{
    lemma_low_step(0);
    assert(0 * pow2(925) == 0) by (nonlinear_arith);
}

impl F64 {
    /// The nearest single, the even one of two that are equally near; beyond
    /// the largest it is infinite.
    pub fn narrow(self) -> (s: F32)
        ensures
            is_narrowed(self, s),
    {
        let negative: bool = self.bits >= SIGN_64;
        let m: u64 = if negative {
            self.bits - SIGN_64
        } else {
            self.bits
        };
        assert(m == self.magnitude());
        let n: u32 = if m > INF_64 {
            INF_32 + UNIT_32 / 2
        } else if m == INF_64 {
            INF_32
        } else {
            narrow_magnitude(m, m / UNIT_64, m % UNIT_64)
        };
        let s = F32 {
            bits: if negative {
                SIGN_32 + n
            } else {
                n
            },
        };
        assert(s.magnitude() == n);
        s
    }
}

/// A finite magnitude with exponent `e` and fraction `f`, rounded.
fn narrow_magnitude(m: u64, e: u64, f: u64) -> (n: u32)
    requires
        m < INF_64,
        e == m / UNIT_64,
        f == m % UNIT_64,
    ensures
        rounds_to(scaled_magnitude_64(m as int), n as int),
{
    let ghost v = scaled_magnitude_64(m as int);
    if e >= 1151 {
        proof {
            let u = UNIT_64 as int;
            let s = STEP as int;
            let p = pow2((e - 1) as nat) as int;
            lemma_pow2_pos((e - 1) as nat);
            // The largest finite single ends its binade at 2^23 steps more.
            lemma_normal_step(254, (UNIT_32 - 1) as int);
            let top = pow2(1149) as int;
            lemma_pow2_unfold(1150);
            if e > 1151 {
                lemma_pow2_strictly_increases(1150, (e - 1) as nat);
            }
            assert((u + f) * p >= u * p) by (nonlinear_arith)
                requires
                    f >= 0,
                    p > 0,
            ;
            assert(u * p >= u * (2 * top)) by (nonlinear_arith)
                requires
                    p >= 2 * top,
                    u > 0,
            ;
            lemma_pow2_pos(1149);
            assert(u * (2 * top) == ((UNIT_32 + (UNIT_32 - 1)) * s) * top + s * top)
                by (nonlinear_arith)
                requires
                    u == UNIT_32 * s,
                    UNIT_32 == 0x0080_0000,
            ;
            lemma_grid_grows(INF_32 - 1, INF_32 as int);
        }
        return INF_32;
    }
    if e >= 897 {
        let es: u32 = (e - 896) as u32;
        let fh: u32 = (f / STEP) as u32;
        let rem: u64 = f % STEP;
        let k: u32 = es * UNIT_32 + fh;
        let up: bool = 2 * rem > STEP || (2 * rem == STEP && k % 2 == 1);
        proof {
            let p = pow2((e - 1) as nat) as int;
            lemma_pow2_pos((e - 1) as nat);
            lemma_normal_step(es as int, fh as int);
            let a = (UNIT_32 + fh) * STEP;
            assert(UNIT_64 + f == a + rem);
            assert((a + rem) * p == a * p + rem * p) by (nonlinear_arith);
            lemma_round(v, k as int, rem as int, STEP as int, p, up);
        }
        return if up {
            k + 1
        } else {
            k
        };
    }
    if e < 872 {
        proof {
            lemma2_to64_rest();
            lemma_pow2_adds(54, 871);
            if e == 0 {
                lemma_pow2_pos(871);
                assert(2 * f < pow2(54) * pow2(871)) by (nonlinear_arith)
                    requires
                        2 * f < pow2(54),
                        pow2(871) >= 1,
                ;
            } else {
                let p = pow2((e - 1) as nat) as int;
                let q = pow2(871) as int;
                lemma_pow2_strictly_increases((e - 1) as nat, 871);
                lemma_pow2_pos((e - 1) as nat);
                assert(2 * ((UNIT_64 + f) * p) < pow2(54) * q) by (nonlinear_arith)
                    requires
                        2 * (UNIT_64 + f) <= pow2(54),
                        0 < p < q,
                        UNIT_64 + f > 0,
                ;
            }
            lemma_vanishes(v);
        }
        return 0;
    }
    let a: u64 = UNIT_64 + f;
    let d: u64 = power_of_two(926 - e);
    proof {
        lemma_pow2_pos((926 - e) as nat);
    }
    let k: u64 = a / d;
    let rem: u64 = a % d;
    proof {
        let (ai, di, ki, ri) = (a as int, d as int, k as int, rem as int);
        assert(ai == ki * di + ri && 0 <= ri < di) by (nonlinear_arith)
            requires
                di > 0,
                ki == ai / di,
                ri == ai % di,
        ;
        lemma_small(ai, e as int, ki, ri, di);
    }
    let up: bool = rem > d - rem || (rem == d - rem && k % 2 == 1);
    proof {
        lemma_round(v, k as int, rem as int, d as int, pow2((e - 1) as nat) as int, up);
    }
    if up {
        (k + 1) as u32
    } else {
        k as u32
    }
}

/// Two to the power `n`.
fn power_of_two(n: u64) -> (p: u64)
    requires
        n <= 54,
    ensures
        p == pow2(n as nat),
{
    let mut p: u64 = 1;
    let mut i: u64 = 0;
    proof {
        lemma2_to64();
    }
    while i < n
        invariant
            0 <= i <= n,
            n <= 54,
            p == pow2(i as nat),
        decreases n - i,
    {
        proof {
            lemma_pow2_unfold((i + 1) as nat);
            lemma2_to64();
            if i < 54 {
                lemma_pow2_strictly_increases(i as nat, 54);
            }
            assert(pow2(54) == 0x40_0000_0000_0000) by {
                lemma2_to64_rest();
            }
        }
        p = p * 2;
        i += 1;
    }
    p
}

/// A grid value rounds to itself.
proof fn lemma_grid_fixed(k: int, n: int)
    requires
        0 <= k < INF_32,
        rounds_to(grid_value(k), n),
    ensures
        n == k,
{
    if n < k {
        lemma_grid_grows(n, n + 1);
        if n + 1 < k {
            lemma_grid_grows(n + 1, k);
        }
    } else if k < n {
        lemma_grid_grows(n - 1, n);
        if k < n - 1 {
            lemma_grid_grows(k, n - 1);
        }
    }
}

/// Widening loses nothing: narrowing a widened number gives it back.
pub proof fn law_narrow_undoes_widen(s: F32, d: F64, t: F32)
    requires
        !s.nan(),
        same_number(s, d),
        is_narrowed(d, t),
    ensures
        t == s,
{
    if s.finite() {
        let a = scaled_magnitude_64(d.magnitude());
        let b = scaled_magnitude(s.magnitude());
        assert((-b) * pow2(925) == -(b * pow2(925))) by (nonlinear_arith);
        assert(a == grid_value(s.magnitude()));
        lemma_grid_fixed(s.magnitude(), t.magnitude());
    }
}

/// Rounding has one answer.
pub proof fn law_narrow_unique(d: F64, s: F32, t: F32)
    requires
        !d.nan(),
        is_narrowed(d, s),
        is_narrowed(d, t),
    ensures
        s == t,
{
    if d.finite() {
        let v = scaled_magnitude_64(d.magnitude());
        let (m, n) = (s.magnitude(), t.magnitude());
        if m <= n {
            lemma_rounds_once(v, m, n);
        } else {
            lemma_rounds_once(v, n, m);
        }
    }
}

/// Two magnitudes that one number rounds to are the same.
proof fn lemma_rounds_once(v: int, m: int, n: int)
    requires
        0 <= m <= n,
        rounds_to(v, m),
        rounds_to(v, n),
    ensures
        m == n,
{
    if m < n {
        lemma_grid_grows(m, m + 1);
        lemma_grid_grows(n - 1, n);
        if m + 1 < n {
            lemma_grid_grows(m, n - 1);
            lemma_grid_grows(m + 1, n);
        }
    }
}

proof fn lemma_scaled_grows_64(m: int, n: int)
    requires
        0 <= m < n,
    ensures
        scaled_magnitude_64(m) < scaled_magnitude_64(n),
{
    let u = UNIT_64 as int;
    let (em, fm) = (m / u, m % u);
    let (en, f_n) = (n / u, n % u);
    assert(em <= en) by (nonlinear_arith)
        requires
            em == m / u,
            en == n / u,
            m < n,
            u == 0x0010_0000_0000_0000,
    ;
    if en == 0 {
    } else if em == en {
        lemma_pow2_pos((em - 1) as nat);
        lemma_mul_strict_inequality(u + fm, u + f_n, pow2((em - 1) as nat) as int);
    } else {
        let pn = pow2((en - 1) as nat) as int;
        lemma_pow2_pos((en - 1) as nat);
        lemma_mul_inequality(u, u + f_n, pn);
        if em == 0 {
            lemma_mul_inequality(1, pn, u);
            assert(u * pn == pn * u) by (nonlinear_arith);
            assert(fm < u);
        } else {
            let pm = pow2((em - 1) as nat) as int;
            lemma_pow2_pos((em - 1) as nat);
            lemma_mul_strict_inequality(u + fm, 2 * u, pm);
            lemma_pow2_unfold(em as nat);
            if em < en - 1 {
                lemma_pow2_strictly_increases(em as nat, (en - 1) as nat);
            }
            assert((2 * u) * pm == u * (2 * pm)) by (nonlinear_arith);
            lemma_mul_inequality(2 * pm, pn, u);
            assert(u * (2 * pm) == (2 * pm) * u) by (nonlinear_arith);
            assert(u * pn == pn * u) by (nonlinear_arith);
        }
    }
}

/// The order of finite doubles is the order of the numbers they stand for.
pub proof fn law_rank_is_numeric_64(a: F64, b: F64)
    requires
        a.finite(),
        b.finite(),
    ensures
        a.rank() < b.rank() <==> a.scaled() < b.scaled(),
        a.rank() == b.rank() <==> a.scaled() == b.scaled(),
{
    let m = a.magnitude();
    let n = b.magnitude();
    if m > 0 {
        lemma_scaled_grows_64(0, m);
    }
    if n > 0 {
        lemma_scaled_grows_64(0, n);
    }
    if m < n {
        lemma_scaled_grows_64(m, n);
    } else if n < m {
        lemma_scaled_grows_64(n, m);
    }
}

/// `d > s`, across the two precisions; nothing compares with a NaN.
pub open spec fn exceeds(d: F64, s: F32) -> bool {
    exists|x: F64| #[trigger] same_number(s, x) && d.above(x)
}

/// Whether `d > s`.
pub fn double_exceeds(d: F64, s: F32) -> (r: bool)
    ensures
        r == exceeds(d, s),
{
    let x = s.widen();
    let r: bool = d.gt(x);
    proof {
        if !r && exceeds(d, s) {
            let y = choose|y: F64| #[trigger] same_number(s, y) && d.above(y);
            if s.finite() {
                law_rank_is_numeric_64(x, y);
            }
        }
    }
    r
}

/// Rounding goes to the nearest: no single magnitude `m` is nearer to a finite double
/// than the one it is rounded to, and where one is as near, that one is even. The
/// infinite magnitude counts as the next step after the largest finite one.
pub proof fn law_narrow_is_nearest(d: F64, s: F32, m: int)
    requires
        d.finite(),
        call_ensures(F64::narrow, (d,), s),
        0 <= m <= 0x7f80_0000,
    ensures
        ({
            let v = scaled_magnitude_64(d.magnitude());
            let a = v - scaled_magnitude(s.magnitude()) * pow2(925);
            let b = v - scaled_magnitude(m) * pow2(925);
            let near = if a < 0 {
                -a
            } else {
                a
            };
            let far = if b < 0 {
                -b
            } else {
                b
            };
            &&& near <= far
            &&& near == far && m != s.magnitude() ==> s.bits % 2 == 0
        }),
        s.negative() == d.negative(),
        s.magnitude() <= 0x7f80_0000,
{
    let n = s.magnitude();
    if m < n {
        if m < n - 1 {
            lemma_grid_grows(m, n - 1);
        }
        lemma_grid_grows(n - 1, n);
    } else if n < m {
        if n + 1 < m {
            lemma_grid_grows(n + 1, m);
        }
        lemma_grid_grows(n, n + 1);
    }
}

/// A double exceeds a single where the number it stands for is the greater.
pub proof fn law_exceeds_is_numeric(d: F64, s: F32, x: F64)
    requires
        d.finite(),
        s.finite(),
        same_number(s, x),
    ensures
        exceeds(d, s) <==> d.scaled() > s.scaled() * pow2(925),
{
    law_rank_is_numeric_64(d, x);
    if exceeds(d, s) {
        let y = choose|y: F64| #[trigger] same_number(s, y) && d.above(y);
        law_rank_is_numeric_64(d, y);
    }
    if d.scaled() > s.scaled() * pow2(925) {
        assert(d.above(x));
    }
}

/// Widening keeps the number: the sign, the infinities, what is no number, and of a
/// finite single its exact value.
pub proof fn law_widen_keeps_the_number(s: F32, d: F64)
    requires
        call_ensures(F32::widen, (s,), d),
    ensures
        (s.bits >= 0x8000_0000) == (d.bits >= 0x8000_0000_0000_0000),
        s.magnitude() == 0x7f80_0000 <==> d.magnitude() == 0x7ff0_0000_0000_0000,
        s.magnitude() > 0x7f80_0000 <==> d.magnitude() > 0x7ff0_0000_0000_0000,
        s.finite() ==> d.scaled() == s.scaled() * pow2(925),
{
}

} // verus!
