//! Order statistics by the total order of bit patterns.

use vstd::multiset::Multiset;
use vstd::prelude::*;

use crate::ieee::{law_total_rank, law_total_rank_64, F32, F64, SIGN_32};

verus! {

/// How many of the positions are below `x`.
pub open spec fn count_below(ranks: Seq<int>, x: int) -> int
    decreases ranks.len(),
{
    if ranks.len() == 0 {
        0
    } else {
        count_below(ranks.drop_last(), x) + if ranks.last() < x {
            1int
        } else {
            0
        }
    }
}

/// `x` is the position at index `k` once the positions are sorted: it is one of
/// them, at most `k` are below it and more than `k` are not above it.
pub open spec fn is_nth(ranks: Seq<int>, k: int, x: int) -> bool {
    &&& ranks.contains(x)
    &&& count_below(ranks, x) <= k < count_below(ranks, x + 1)
}

/// The total-order positions of singles.
pub open spec fn ranks(values: Seq<F32>) -> Seq<int> {
    Seq::new(values.len(), |i: int| values[i].total_rank())
}

/// The total-order positions of doubles.
pub open spec fn ranks_64(values: Seq<F64>) -> Seq<int> {
    Seq::new(values.len(), |i: int| values[i].total_rank())
}

spec fn ints(keys: Seq<i64>) -> Seq<int> {
    Seq::new(keys.len(), |i: int| keys[i] as int)
}

proof fn lemma_count_mono(ranks: Seq<int>, x: int, y: int)
    requires
        x <= y,
    ensures
        0 <= count_below(ranks, x) <= count_below(ranks, y) <= ranks.len(),
    decreases ranks.len(),
{
    if ranks.len() > 0 {
        lemma_count_mono(ranks.drop_last(), x, y);
    }
}

/// At most one position stands at index `k`.
pub proof fn law_nth_unique(ranks: Seq<int>, k: int, x: int, y: int)
    requires
        is_nth(ranks, k, x),
        is_nth(ranks, k, y),
    ensures
        x == y,
{
    if x < y {
        lemma_count_mono(ranks, x + 1, y);
    } else if y < x {
        lemma_count_mono(ranks, y + 1, x);
    }
}

proof fn lemma_count_as_multiset(keys: Seq<i64>, x: int)
    ensures
        count_below(ints(keys), x) == keys.to_multiset().filter(|k: i64| (k as int) < x).len(),
    decreases keys.len(),
{
    let small = |k: i64| (k as int) < x;
    broadcast use vstd::seq_lib::group_to_multiset_ensures;
    if keys.len() == 0 {
        assert(keys.to_multiset().filter(small) =~= Multiset::empty());
    } else {
        let head = keys.drop_last();
        lemma_count_as_multiset(head, x);
        assert(keys =~= head.push(keys.last()));
        assert(ints(keys).drop_last() =~= ints(head));
        let m = head.to_multiset();
        assert(keys.to_multiset() =~= m.insert(keys.last()));
        if small(keys.last()) {
            assert(m.insert(keys.last()).filter(small) =~= m.filter(small).insert(keys.last()));
        } else {
            assert(m.insert(keys.last()).filter(small) =~= m.filter(small));
        }
    }
}

proof fn lemma_count_permuted(a: Seq<i64>, b: Seq<i64>, x: int)
    requires
        a.to_multiset() == b.to_multiset(),
    ensures
        count_below(ints(a), x) == count_below(ints(b), x),
{
    lemma_count_as_multiset(a, x);
    lemma_count_as_multiset(b, x);
}

proof fn lemma_count_bounds(ranks: Seq<int>, k: int, x: int)
    requires
        0 <= k <= ranks.len(),
        forall|i: int| k <= i < ranks.len() ==> #[trigger] ranks[i] >= x,
    ensures
        count_below(ranks, x) <= k,
    decreases ranks.len(),
{
    if ranks.len() > k {
        lemma_count_bounds(ranks.drop_last(), k, x);
    } else {
        lemma_count_mono(ranks, x, x);
    }
}

proof fn lemma_count_at_least(ranks: Seq<int>, k: int, x: int)
    requires
        0 <= k <= ranks.len(),
        forall|i: int| 0 <= i < k ==> #[trigger] ranks[i] < x,
    ensures
        count_below(ranks, x) >= k,
    decreases ranks.len(),
{
    if ranks.len() > k {
        lemma_count_at_least(ranks.drop_last(), k, x);
    } else if k > 0 {
        lemma_count_at_least(ranks.drop_last(), k - 1, x);
    }
}

/// Calls `slice::select_nth_unstable` of the standard library: it reorders the
/// keys so that the one at index `k` is where a sort would put it, none before
/// it is greater, and none after it is smaller.
#[verifier::external_body]
fn select_nth(keys: &mut Vec<i64>, k: usize)
    requires
        k < old(keys)@.len(),
    ensures
        final(keys)@.len() == old(keys)@.len(),
        final(keys)@.to_multiset() == old(keys)@.to_multiset(),
        forall|i: int| 0 <= i < k ==> #[trigger] final(keys)@[i] <= final(keys)@[k as int],
        forall|i: int|
            k < i < final(keys)@.len() ==> #[trigger] final(keys)@[i] >= final(keys)@[k as int],
{
    keys.select_nth_unstable(k);
}

/// The key at index `k` of the sorted keys and, where there is one, the one
/// before it: the greatest key of the part that selection leaves to the left.
fn select_pair(keys: Vec<i64>, k: usize) -> (out: (Option<i64>, i64))
    requires
        k < keys@.len(),
    ensures
        is_nth(ints(keys@), k as int, out.1 as int),
        out.0 is Some <==> k > 0,
        out.0 matches Some(p) ==> is_nth(ints(keys@), k - 1, p as int),
{
    let mut sorted: Vec<i64> = keys;
    let ghost before = sorted@;
    select_nth(&mut sorted, k);
    let ghost after = sorted@;
    let nth: i64 = sorted[k];
    proof {
        let x = nth as int;
        broadcast use vstd::seq_lib::group_to_multiset_ensures;
        lemma_count_permuted(before, after, x);
        lemma_count_permuted(before, after, x + 1);
        lemma_count_bounds(ints(after), k as int, x);
        lemma_count_at_least(ints(after), k + 1, x + 1);
        assert(after.contains(nth));
        assert(before.to_multiset().count(nth) > 0);
        assert(before.contains(nth));
        let i = choose|i: int| 0 <= i < before.len() && before[i] == nth;
        assert(ints(before)[i] == x);
    }
    if k == 0 {
        return (None, nth);
    }
    let mut prev: i64 = sorted[0];
    let mut i: usize = 1;
    let ghost mut at: int = 0;
    while i < k
        invariant
            sorted@ == after,
            1 <= i <= k,
            k < after.len(),
            0 <= at < i,
            prev == after[at],
            forall|j: int| 0 <= j < i ==> #[trigger] after[j] <= prev,
        decreases k - i,
    {
        if sorted[i] > prev {
            prev = sorted[i];
            proof {
                at = i as int;
            }
        }
        i += 1;
    }
    proof {
        let x = prev as int;
        broadcast use vstd::seq_lib::group_to_multiset_ensures;
        lemma_count_permuted(before, after, x);
        lemma_count_permuted(before, after, x + 1);
        lemma_count_at_least(ints(after), k as int, x + 1);
        // Everything from `k` on is no smaller than `prev`, and `prev` itself
        // is one of the keys before: fewer than `k` are below it.
        let swapped = after.update(at, after[k - 1]).update(k - 1, prev);
        lemma_swap_same_count(after, at, k - 1, x);
        assert(forall|j: int| k <= j < after.len() ==> #[trigger] after[j] >= after[k as int]);
        assert(after[at] <= after[k as int]);
        lemma_count_bounds(ints(swapped), k - 1, x);
        assert(after.contains(prev));
        assert(before.to_multiset().count(prev) > 0);
        assert(before.contains(prev));
        let i = choose|i: int| 0 <= i < before.len() && before[i] == prev;
        assert(ints(before)[i] == x);
    }
    (Some(prev), nth)
}

proof fn lemma_count_update(ranks: Seq<int>, i: int, v: int, x: int)
    requires
        0 <= i < ranks.len(),
    ensures
        count_below(ranks.update(i, v), x) == count_below(ranks, x) - (if ranks[i] < x {
            1int
        } else {
            0
        }) + (if v < x {
            1int
        } else {
            0
        }),
    decreases ranks.len(),
{
    let n = ranks.len() as int;
    if i == n - 1 {
        assert(ranks.update(i, v).drop_last() =~= ranks.drop_last());
    } else {
        lemma_count_update(ranks.drop_last(), i, v, x);
        assert(ranks.update(i, v).drop_last() =~= ranks.drop_last().update(i, v));
    }
}

proof fn lemma_swap_same_count(keys: Seq<i64>, i: int, j: int, x: int)
    requires
        0 <= i < keys.len(),
        0 <= j < keys.len(),
    ensures
        count_below(ints(keys.update(i, keys[j]).update(j, keys[i])), x) == count_below(
            ints(keys),
            x,
        ),
{
    let a = ints(keys);
    lemma_count_update(a, i, a[j], x);
    lemma_count_update(a.update(i, a[j]), j, a[i], x);
    assert(ints(keys.update(i, keys[j]).update(j, keys[i])) =~= a.update(i, a[j]).update(j, a[i]));
}

fn keys_of(values: &[F32]) -> (keys: Vec<i64>)
    ensures
        keys@.len() == values@.len(),
        ints(keys@) == ranks(values@),
{
    let mut keys: Vec<i64> = Vec::new();
    let mut i: usize = 0;
    while i < values.len()
        invariant
            0 <= i <= values@.len(),
            keys@.len() == i,
            forall|j: int| 0 <= j < i ==> #[trigger] keys@[j] == values@[j].total_rank(),
        decreases values@.len() - i,
    {
        keys.push(values[i].total_key());
        i += 1;
    }
    assert(ints(keys@) =~= ranks(values@));
    keys
}

fn keys_of_64(values: &[F64]) -> (keys: Vec<i64>)
    ensures
        keys@.len() == values@.len(),
        ints(keys@) == ranks_64(values@),
{
    let mut keys: Vec<i64> = Vec::new();
    let mut i: usize = 0;
    while i < values.len()
        invariant
            0 <= i <= values@.len(),
            keys@.len() == i,
            forall|j: int| 0 <= j < i ==> #[trigger] keys@[j] == values@[j].total_rank(),
        decreases values@.len() - i,
    {
        keys.push(values[i].total_key());
        i += 1;
    }
    assert(ints(keys@) =~= ranks_64(values@));
    keys
}

proof fn lemma_rank_in_range(values: Seq<F32>, x: int)
    requires
        ranks(values).contains(x),
    ensures
        -(SIGN_32 as int) <= x < SIGN_32,
{
    let i = choose|i: int| 0 <= i < values.len() && ranks(values)[i] == x;
    law_total_rank(values[i], values[i]);
}

/// `m` is the upper midpoint `v[len / 2]` of the sorted values, or zero where
/// there are none.
pub open spec fn is_midpoint(values: Seq<F32>, m: F32) -> bool {
    if values.len() == 0 {
        m == F32::zero()
    } else {
        is_nth(ranks(values), values.len() as int / 2, m.total_rank())
    }
}

/// Upper-midpoint order statistic `v[len/2]`: the extraction pipeline's cheap
/// "median" convention for background grids. Zero for an empty slice.
pub fn midpoint_f32(values: &[F32]) -> (m: F32)
    ensures
        is_midpoint(values@, m),
{
    if values.len() == 0 {
        return F32 { bits: 0 };
    }
    let mid: usize = values.len() / 2;
    let (_, nth) = select_pair(keys_of(values), mid);
    proof {
        lemma_rank_in_range(values@, nth as int);
    }
    F32::from_total_key(nth)
}

/// A median before its arithmetic: what is left is to average two numbers.
#[derive(Clone, Copy, Debug, PartialEq, Eq, Structural)]
pub enum Median {
    /// There were no values; the median counts as zero.
    Empty,
    /// An odd number of values: the central one.
    Middle(F32),
    /// An even number of values: the two central ones, the lower first.
    Between(F32, F32),
}

/// `m` holds the central order statistics of the values.
pub open spec fn is_median(values: Seq<F32>, m: Median) -> bool {
    let n = values.len() as int;
    match m {
        Median::Empty => n == 0,
        Median::Middle(v) => n % 2 == 1 && is_nth(ranks(values), n / 2, v.total_rank()),
        Median::Between(a, b) => {
            &&& n > 0
            &&& n % 2 == 0
            &&& is_nth(ranks(values), n / 2 - 1, a.total_rank())
            &&& is_nth(ranks(values), n / 2, b.total_rank())
        },
    }
}

/// Median of the values: even lengths average the two central order
/// statistics, `values[n/2]` (the selected element) and `values[n/2 - 1]` (the
/// greatest of the part that selection leaves to its left).
pub fn median_f32(values: &[F32]) -> (m: Median)
    ensures
        is_median(values@, m),
{
    let n: usize = values.len();
    if n == 0 {
        return Median::Empty;
    }
    let (prev, nth) = select_pair(keys_of(values), n / 2);
    proof {
        lemma_rank_in_range(values@, nth as int);
    }
    if n % 2 == 0 {
        match prev {
            Some(p) => {
                proof {
                    lemma_rank_in_range(values@, p as int);
                }
                Median::Between(F32::from_total_key(p), F32::from_total_key(nth))
            },
            None => Median::Empty,
        }
    } else {
        Median::Middle(F32::from_total_key(nth))
    }
}

/// Both medians of the same values are the same.
pub proof fn law_median_unique(values: Seq<F32>, a: Median, b: Median)
    requires
        is_median(values, a),
        is_median(values, b),
    ensures
        a == b,
{
    let n = values.len() as int;
    match (a, b) {
        (Median::Middle(x), Median::Middle(y)) => {
            law_nth_unique(ranks(values), n / 2, x.total_rank(), y.total_rank());
            law_total_rank(x, y);
        },
        (Median::Between(x, u), Median::Between(y, v)) => {
            law_nth_unique(ranks(values), n / 2 - 1, x.total_rank(), y.total_rank());
            law_nth_unique(ranks(values), n / 2, u.total_rank(), v.total_rank());
            law_total_rank(x, y);
            law_total_rank(u, v);
        },
        _ => {},
    }
}

/// `m` is the sorted midpoint `v[len / 2]` of the doubles.
pub open spec fn is_midpoint_64(values: Seq<F64>, m: F64) -> bool {
    if values.len() == 0 {
        m == F64::zero()
    } else {
        is_nth(ranks_64(values), values.len() as int / 2, m.total_rank())
    }
}

/// Sorted midpoint `v[len / 2]` of doubles, NaNs ordered after every finite
/// value. Zero for an empty slice.
pub fn midpoint_f64(values: &[F64]) -> (m: F64)
    ensures
        is_midpoint_64(values@, m),
{
    if values.len() == 0 {
        return F64 { bits: 0 };
    }
    let mid: usize = values.len() / 2;
    let (_, nth) = select_pair(keys_of_64(values), mid);
    F64::from_total_key(nth)
}

/// What `deviation` may answer for each value and the median.
pub open spec fn deviates<D: Fn(F64, F64) -> F64>(
    deviation: D,
    values: Seq<F64>,
    median: F64,
    devs: Seq<F64>,
) -> bool {
    &&& devs.len() == values.len()
    &&& forall|i: int|
        0 <= i < values.len() ==> call_ensures(deviation, (values[i], median), #[trigger] devs[i])
}

/// Median of `vals` and median of their absolute deviations from it, the
/// arithmetic left to the caller: `deviation(v, median)` is `|v - median|`.
///
/// Both order statistics use the sorted midpoint `v[len / 2]`, selected rather
/// than sorted out. NaNs are ordered after every finite value, so a stray
/// non-finite input cannot upset the order. Empty values yield two zeros.
pub fn median_mad<D: Fn(F64, F64) -> F64>(vals: &[F64], deviation: D) -> (out: (F64, F64))
    requires
        forall|v: F64, m: F64| #[trigger] call_requires(deviation, (v, m)),
    ensures
        is_midpoint_64(vals@, out.0),
        exists|devs: Seq<F64>| #[trigger]
            deviates(deviation, vals@, out.0, devs) && is_midpoint_64(devs, out.1),
{
    let median = midpoint_f64(vals);
    let mut devs: Vec<F64> = Vec::new();
    let mut i: usize = 0;
    while i < vals.len()
        invariant
            0 <= i <= vals@.len(),
            devs@.len() == i,
            forall|v: F64, m: F64| #[trigger] call_requires(deviation, (v, m)),
            forall|j: int|
                0 <= j < i ==> call_ensures(deviation, (vals@[j], median), #[trigger] devs@[j]),
        decreases vals@.len() - i,
    {
        let d = deviation(vals[i], median);
        devs.push(d);
        i += 1;
    }
    let mad = midpoint_f64(&devs);
    assert(deviates(deviation, vals@, median, devs@));
    (median, mad)
}

/// With fewer NaNs than half of the values, rounded up, and none of them
/// negative, the midpoint is no NaN.
pub proof fn law_midpoint_tolerates_nan(values: Seq<F64>, m: F64)
    requires
        values.len() > 0,
        is_midpoint_64(values, m),
        forall|i: int| 0 <= i < values.len() && (#[trigger] values[i]).nan() ==> !values[i].negative(),
        count_below(ranks_64(values), crate::ieee::INF_64 + 1) > values.len() as int / 2,
    ensures
        !m.nan(),
{
    let r = ranks_64(values);
    let x = m.total_rank();
    if m.nan() {
        let i = choose|i: int| 0 <= i < r.len() && r[i] == x;
        law_total_rank_64(values[i], m);
        assert(values[i].nan());
        lemma_count_mono(r, crate::ieee::INF_64 + 1, x);
    }
}

proof fn lemma_values_below(values: Seq<F32>, x: int)
    ensures
        count_below(ranks(values), x) == values.to_multiset().filter(
            |v: F32| v.total_rank() < x,
        ).len(),
    decreases values.len(),
{
    let small = |v: F32| v.total_rank() < x;
    broadcast use vstd::seq_lib::group_to_multiset_ensures;

    if values.len() == 0 {
        assert(values.to_multiset().filter(small) =~= Multiset::empty());
    } else {
        let head = values.drop_last();
        lemma_values_below(head, x);
        assert(values =~= head.push(values.last()));
        assert(ranks(values).drop_last() =~= ranks(head));
        let m = head.to_multiset();
        assert(values.to_multiset() =~= m.insert(values.last()));
        if small(values.last()) {
            assert(m.insert(values.last()).filter(small) =~= m.filter(small).insert(
                values.last(),
            ));
        } else {
            assert(m.insert(values.last()).filter(small) =~= m.filter(small));
        }
    }
}

proof fn lemma_nth_permuted(a: Seq<F32>, b: Seq<F32>, k: int, x: int)
    requires
        a.to_multiset() == b.to_multiset(),
        is_nth(ranks(a), k, x),
    ensures
        is_nth(ranks(b), k, x),
{
    broadcast use vstd::seq_lib::group_to_multiset_ensures;

    lemma_values_below(a, x);
    lemma_values_below(b, x);
    lemma_values_below(a, x + 1);
    lemma_values_below(b, x + 1);
    let i = choose|i: int| 0 <= i < ranks(a).len() && ranks(a)[i] == x;
    assert(a.contains(a[i]));
    assert(b.to_multiset().count(a[i]) > 0);
    assert(b.contains(a[i]));
    let j = choose|j: int| 0 <= j < b.len() && b[j] == a[i];
    assert(ranks(b)[j] == x);
}

proof fn lemma_nth_of_sorted(values: Seq<F32>, k: int)
    requires
        0 <= k < values.len(),
        forall|i: int, j: int|
            0 <= i < j < values.len() ==> (#[trigger] values[i]).total_rank() <= (
            #[trigger] values[j]).total_rank(),
    ensures
        is_nth(ranks(values), k, values[k].total_rank()),
{
    let r = ranks(values);
    let x = values[k].total_rank();
    assert(r[k] == x);
    assert forall|i: int| k <= i < r.len() implies #[trigger] r[i] >= x by {
        if k < i {
            assert(values[k].total_rank() <= values[i].total_rank());
        }
    }
    assert forall|i: int| 0 <= i < k + 1 implies #[trigger] r[i] < x + 1 by {
        if i < k {
            assert(values[i].total_rank() <= values[k].total_rank());
        }
    }
    lemma_count_bounds(r, k, x);
    lemma_count_at_least(r, k + 1, x + 1);
}

/// The midpoint of singles is the one that stands at index `len / 2` once they are sorted,
/// however they came.
pub proof fn law_midpoint_of_sorted(values: Seq<F32>, sorted: Seq<F32>, m: F32)
    requires
        is_midpoint(values, m),
        values.to_multiset() == sorted.to_multiset(),
        sorted.len() > 0,
        forall|i: int, j: int|
            0 <= i < j < sorted.len() ==> (#[trigger] sorted[i]).total_rank() <= (
            #[trigger] sorted[j]).total_rank(),
    ensures
        m == sorted[sorted.len() as int / 2],
{
    broadcast use vstd::seq_lib::group_to_multiset_ensures;

    assert(values.to_multiset().len() == values.len());
    assert(sorted.to_multiset().len() == sorted.len());
    let k = sorted.len() as int / 2;
    lemma_nth_permuted(values, sorted, k, m.total_rank());
    lemma_nth_of_sorted(sorted, k);
    law_nth_unique(ranks(sorted), k, m.total_rank(), sorted[k].total_rank());
    law_total_rank(m, sorted[k]);
}

proof fn lemma_values_below_64(values: Seq<F64>, x: int)
    ensures
        count_below(ranks_64(values), x) == values.to_multiset().filter(
            |v: F64| v.total_rank() < x,
        ).len(),
    decreases values.len(),
{
    let small = |v: F64| v.total_rank() < x;
    broadcast use vstd::seq_lib::group_to_multiset_ensures;

    if values.len() == 0 {
        assert(values.to_multiset().filter(small) =~= Multiset::empty());
    } else {
        let head = values.drop_last();
        lemma_values_below_64(head, x);
        assert(values =~= head.push(values.last()));
        assert(ranks_64(values).drop_last() =~= ranks_64(head));
        let m = head.to_multiset();
        assert(values.to_multiset() =~= m.insert(values.last()));
        if small(values.last()) {
            assert(m.insert(values.last()).filter(small) =~= m.filter(small).insert(
                values.last(),
            ));
        } else {
            assert(m.insert(values.last()).filter(small) =~= m.filter(small));
        }
    }
}

proof fn lemma_nth_permuted_64(a: Seq<F64>, b: Seq<F64>, k: int, x: int)
    requires
        a.to_multiset() == b.to_multiset(),
        is_nth(ranks_64(a), k, x),
    ensures
        is_nth(ranks_64(b), k, x),
{
    broadcast use vstd::seq_lib::group_to_multiset_ensures;

    lemma_values_below_64(a, x);
    lemma_values_below_64(b, x);
    lemma_values_below_64(a, x + 1);
    lemma_values_below_64(b, x + 1);
    let i = choose|i: int| 0 <= i < ranks_64(a).len() && ranks_64(a)[i] == x;
    assert(a.contains(a[i]));
    assert(b.to_multiset().count(a[i]) > 0);
    assert(b.contains(a[i]));
    let j = choose|j: int| 0 <= j < b.len() && b[j] == a[i];
    assert(ranks_64(b)[j] == x);
}

proof fn lemma_nth_of_sorted_64(values: Seq<F64>, k: int)
    requires
        0 <= k < values.len(),
        forall|i: int, j: int|
            0 <= i < j < values.len() ==> (#[trigger] values[i]).total_rank() <= (
            #[trigger] values[j]).total_rank(),
    ensures
        is_nth(ranks_64(values), k, values[k].total_rank()),
{
    let r = ranks_64(values);
    let x = values[k].total_rank();
    assert(r[k] == x);
    assert forall|i: int| k <= i < r.len() implies #[trigger] r[i] >= x by {
        if k < i {
            assert(values[k].total_rank() <= values[i].total_rank());
        }
    }
    assert forall|i: int| 0 <= i < k + 1 implies #[trigger] r[i] < x + 1 by {
        if i < k {
            assert(values[i].total_rank() <= values[k].total_rank());
        }
    }
    lemma_count_bounds(r, k, x);
    lemma_count_at_least(r, k + 1, x + 1);
}

/// The midpoint of doubles is the one that stands at index `len / 2` once they are sorted,
/// however they came.
pub proof fn law_midpoint_64_of_sorted(values: Seq<F64>, sorted: Seq<F64>, m: F64)
    requires
        is_midpoint_64(values, m),
        values.to_multiset() == sorted.to_multiset(),
        sorted.len() > 0,
        forall|i: int, j: int|
            0 <= i < j < sorted.len() ==> (#[trigger] sorted[i]).total_rank() <= (
            #[trigger] sorted[j]).total_rank(),
    ensures
        m == sorted[sorted.len() as int / 2],
{
    broadcast use vstd::seq_lib::group_to_multiset_ensures;

    assert(values.to_multiset().len() == values.len());
    assert(sorted.to_multiset().len() == sorted.len());
    let k = sorted.len() as int / 2;
    lemma_nth_permuted_64(values, sorted, k, m.total_rank());
    lemma_nth_of_sorted_64(sorted, k);
    law_nth_unique(ranks_64(sorted), k, m.total_rank(), sorted[k].total_rank());
    law_total_rank_64(m, sorted[k]);
}

/// The median is made of what stands in the middle once the values are sorted,
/// however they came: of an odd number the central one, of an even number the two
/// central ones.
pub proof fn law_median_of_sorted(values: Seq<F32>, sorted: Seq<F32>, m: Median)
    requires
        is_median(values, m),
        values.to_multiset() == sorted.to_multiset(),
        forall|i: int, j: int|
            0 <= i < j < sorted.len() ==> (#[trigger] sorted[i]).total_rank() <= (
            #[trigger] sorted[j]).total_rank(),
    ensures
        m == if sorted.len() == 0 {
            Median::Empty
        } else if sorted.len() % 2 == 1 {
            Median::Middle(sorted[sorted.len() as int / 2])
        } else {
            Median::Between(
                sorted[sorted.len() as int / 2 - 1],
                sorted[sorted.len() as int / 2],
            )
        },
{
    broadcast use vstd::seq_lib::group_to_multiset_ensures;

    assert(values.to_multiset().len() == values.len());
    assert(sorted.to_multiset().len() == sorted.len());
    let k = sorted.len() as int / 2;
    match m {
        Median::Empty => {},
        Median::Middle(v) => {
            lemma_nth_permuted(values, sorted, k, v.total_rank());
            lemma_nth_of_sorted(sorted, k);
            law_nth_unique(ranks(sorted), k, v.total_rank(), sorted[k].total_rank());
            law_total_rank(v, sorted[k]);
        },
        Median::Between(a, b) => {
            lemma_nth_permuted(values, sorted, k, b.total_rank());
            lemma_nth_of_sorted(sorted, k);
            law_nth_unique(ranks(sorted), k, b.total_rank(), sorted[k].total_rank());
            law_total_rank(b, sorted[k]);
            lemma_nth_permuted(values, sorted, k - 1, a.total_rank());
            lemma_nth_of_sorted(sorted, k - 1);
            law_nth_unique(ranks(sorted), k - 1, a.total_rank(), sorted[k - 1].total_rank());
            law_total_rank(a, sorted[k - 1]);
        },
    }
}

/// The spread of values is the midpoint of their deviations from their midpoint,
/// each value giving one.
pub proof fn law_spread_is_about_the_midpoint<D: Fn(F64, F64) -> F64>(
    deviation: D,
    values: Seq<F64>,
    median: F64,
    devs: Seq<F64>,
    sorted: Seq<F64>,
    spread: F64,
)
    requires
        is_midpoint_64(values, median),
        deviates(deviation, values, median, devs),
        is_midpoint_64(devs, spread),
        devs.to_multiset() == sorted.to_multiset(),
        values.len() > 0,
        forall|i: int, j: int|
            0 <= i < j < sorted.len() ==> (#[trigger] sorted[i]).total_rank() <= (
            #[trigger] sorted[j]).total_rank(),
    ensures
        sorted.len() == values.len(),
        spread == sorted[values.len() as int / 2],
        forall|i: int|
            0 <= i < values.len() ==> call_ensures(
                deviation,
                (values[i], median),
                #[trigger] devs[i],
            ),
{
    broadcast use vstd::seq_lib::group_to_multiset_ensures;

    assert(devs.to_multiset().len() == devs.len());
    assert(sorted.to_multiset().len() == sorted.len());
    law_midpoint_64_of_sorted(devs, sorted, spread);
}

/// Ascending in the total order.
pub open spec fn is_sorted_64(s: Seq<F64>) -> bool {
    forall|i: int, j: int|
        0 <= i < j < s.len() ==> (#[trigger] s[i]).total_rank() <= (#[trigger] s[j]).total_rank()
}

/// The median and the spread of values: what stands in the middle once they are
/// sorted, and what stands in the middle once their deviations from that are.
pub proof fn law_median_and_spread<D: Fn(F64, F64) -> F64>(
    deviation: D,
    vals: &[F64],
    sorted: Seq<F64>,
    out: (F64, F64),
)
    requires
        call_ensures(median_mad::<D>, (vals, deviation), out),
        vals@.len() > 0,
        vals@.to_multiset() == sorted.to_multiset(),
        is_sorted_64(sorted),
    ensures
        out.0 == sorted[vals@.len() as int / 2],
        exists|devs: Seq<F64>|
            {
                &&& #[trigger] devs.len() == vals@.len()
                &&& forall|i: int|
                    0 <= i < devs.len() ==> call_ensures(
                        deviation,
                        (vals@[i], out.0),
                        #[trigger] devs[i],
                    )
                &&& forall|s: Seq<F64>|
                    is_sorted_64(s) && devs.to_multiset() == #[trigger] s.to_multiset() ==> out.1
                        == s[vals@.len() as int / 2]
            },
{
    broadcast use vstd::seq_lib::group_to_multiset_ensures;

    assert(vals@.to_multiset().len() == vals@.len());
    assert(sorted.to_multiset().len() == sorted.len());
    law_midpoint_64_of_sorted(vals@, sorted, out.0);
    let devs = choose|devs: Seq<F64>| #[trigger]
        deviates(deviation, vals@, out.0, devs) && is_midpoint_64(devs, out.1);
    assert forall|s: Seq<F64>|
        is_sorted_64(s) && devs.to_multiset() == #[trigger] s.to_multiset() implies out.1
        == s[vals@.len() as int / 2] by {
        law_spread_is_about_the_midpoint(deviation, vals@, out.0, devs, s, out.1);
    }
}

} // verus!
