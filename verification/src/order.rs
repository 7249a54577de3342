//! Brightest-first order.

use vstd::prelude::*;

use crate::ieee::F32;

verus! {

/// `perm` lists each index below `n` once.
pub open spec fn is_permutation(perm: Seq<usize>, n: int) -> bool {
    &&& perm.len() == n
    &&& perm.no_duplicates()
    &&& forall|t: int| 0 <= t < n ==> (#[trigger] perm[t]) < n
}

/// `perm` puts the keys in descending order and leaves equal keys in the order
/// in which they came.
pub open spec fn is_descending(keys: Seq<int>, perm: Seq<usize>) -> bool {
    &&& is_permutation(perm, keys.len() as int)
    &&& forall|s: int, t: int|
        0 <= s < t < perm.len() ==> {
            ||| keys[#[trigger] perm[s] as int] > keys[#[trigger] perm[t] as int]
            ||| keys[perm[s] as int] == keys[perm[t] as int] && perm[s] < perm[t]
        }
}

/// Calls `slice::sort` of the standard library on pairs of integers, which
/// compare by their first component and then by their second: the same pairs
/// come out in ascending order.
#[verifier::external_body]
fn sort_pairs(pairs: &mut Vec<(i64, usize)>)
    ensures
        final(pairs)@.len() == old(pairs)@.len(),
        final(pairs)@.to_multiset() == old(pairs)@.to_multiset(),
        forall|s: int, t: int|
            0 <= s < t < final(pairs)@.len() ==> {
                ||| (#[trigger] final(pairs)@[s]).0 < (#[trigger] final(pairs)@[t]).0
                ||| final(pairs)@[s].0 == final(pairs)@[t].0 && final(pairs)@[s].1
                    <= final(pairs)@[t].1
            },
{
    pairs.sort();
}

/// The order that sorts `keys` downwards, equal ones as they came.
pub fn descending_order(keys: &Vec<i64>) -> (perm: Vec<usize>)
    requires
        forall|i: int| 0 <= i < keys@.len() ==> #[trigger] keys@[i] > i64::MIN,
    ensures
        is_descending(Seq::new(keys@.len(), |i: int| keys@[i] as int), perm@),
{
    let mut pairs: Vec<(i64, usize)> = Vec::new();
    let mut i: usize = 0;
    while i < keys.len()
        invariant
            0 <= i <= keys@.len(),
            pairs@.len() == i,
            forall|k: int| 0 <= k < keys@.len() ==> #[trigger] keys@[k] > i64::MIN,
            forall|k: int| 0 <= k < i ==> #[trigger] pairs@[k] == ((-keys@[k]) as i64, k as usize),
        decreases keys@.len() - i,
    {
        pairs.push((-keys[i], i));
        i += 1;
    }
    let ghost start = pairs@;
    sort_pairs(&mut pairs);
    let ghost sorted = pairs@;
    proof {
        assert(start.no_duplicates());
        start.lemma_multiset_has_no_duplicates();
        sorted.lemma_multiset_has_no_duplicates_conv();
        assert forall|t: int| 0 <= t < sorted.len() implies {
            &&& (#[trigger] sorted[t]).1 < keys@.len()
            &&& sorted[t].0 == -keys@[sorted[t].1 as int]
        } by {
            broadcast use vstd::seq_lib::group_to_multiset_ensures;
            assert(sorted.contains(sorted[t]));
            assert(start.to_multiset().count(sorted[t]) > 0);
            assert(start.contains(sorted[t]));
        }
    }
    let mut perm: Vec<usize> = Vec::new();
    let mut t: usize = 0;
    while t < pairs.len()
        invariant
            0 <= t <= pairs@.len(),
            pairs@ == sorted,
            perm@.len() == t,
            forall|k: int| 0 <= k < t ==> #[trigger] perm@[k] == sorted[k].1,
        decreases pairs@.len() - t,
    {
        perm.push(pairs[t].1);
        t += 1;
    }
    proof {
        let k = Seq::new(keys@.len(), |i: int| keys@[i] as int);
        assert forall|s: int, t: int| 0 <= s < t < perm@.len() implies {
            ||| k[#[trigger] perm@[s] as int] > k[#[trigger] perm@[t] as int]
            ||| k[perm@[s] as int] == k[perm@[t] as int] && perm@[s] < perm@[t]
        } by {
            assert(sorted[s] != sorted[t]);
            assert(sorted[s].1 < keys@.len() && sorted[t].1 < keys@.len());
        }
    }
    perm
}

/// There is one descending order.
pub proof fn law_order_unique(keys: Seq<int>, a: Seq<usize>, b: Seq<usize>)
    requires
        is_descending(keys, a),
        is_descending(keys, b),
    ensures
        a == b,
{
    lemma_orders_agree(keys, a, b, a.len() as int);
    assert(a =~= b);
}

proof fn lemma_orders_agree(keys: Seq<int>, a: Seq<usize>, b: Seq<usize>, n: int)
    requires
        is_descending(keys, a),
        is_descending(keys, b),
        0 <= n <= a.len(),
    ensures
        forall|t: int| 0 <= t < n ==> #[trigger] a[t] == b[t],
    decreases n,
{
    if n > 0 {
        lemma_orders_agree(keys, a, b, n - 1);
        let t = n - 1;
        // Each lists the other's entry at `t`, and not before `t`.
        lemma_lists_all(a, keys.len() as int, b[t] as int);
        lemma_lists_all(b, keys.len() as int, a[t] as int);
        let i = choose|i: int| 0 <= i < a.len() && a[i] == b[t];
        let j = choose|j: int| 0 <= j < b.len() && b[j] == a[t];
        if a[t] != b[t] {
            if i < t {
                assert(b[i] == b[t]);
            }
            if j < t {
                assert(a[j] == a[t]);
            }
            assert(t < i && t < j);
            assert(a[t] == b[j] && a[i] == b[t]);
        }
    }
}

/// A list of `n` different indices below `n` holds every one of them.
pub proof fn lemma_lists_all(perm: Seq<usize>, n: int, x: int)
    requires
        is_permutation(perm, n),
        0 <= x < n,
    ensures
        exists|i: int| 0 <= i < perm.len() && perm[i] == x,
{
    if forall|i: int| 0 <= i < perm.len() ==> perm[i] != x {
        let s = perm.to_set();
        let all = vstd::set_lib::set_int_range(0, n);
        let vals = perm.map_values(|v: usize| v as int);
        assert(vals.no_duplicates());
        vals.unique_seq_to_set();
        vstd::set_lib::lemma_int_range(0, n);
        assert forall|v: int| vals.to_set().contains(v) implies all.remove(x).contains(v) by {
            let i = choose|i: int| 0 <= i < vals.len() && vals[i] == v;
            assert(perm[i] == v);
        }
        vstd::set_lib::lemma_len_subset(vals.to_set(), all.remove(x));
    }
}

/// Where a mass stands in the order of brightness: by its value, one that is
/// missing as `missing`, and one that is no number behind all others.
pub open spec fn brightness(mass: Option<F32>, missing: F32) -> int {
    let m = match mass {
        Some(v) => v,
        None => missing,
    };
    if m.nan() {
        -0x8000_0000
    } else {
        m.rank()
    }
}

/// The brightness key of a mass.
pub fn brightness_key(mass: Option<F32>, missing: F32) -> (k: i64)
    ensures
        k == brightness(mass, missing),
        k > i64::MIN,
{
    let m = match mass {
        Some(v) => v,
        None => missing,
    };
    if m.is_nan() {
        -0x8000_0000i64
    } else {
        m.rank_key()
    }
}

} // verus!
