//! Indexed work that may run on several threads.
//!
//! Every answer goes to a fixed slot, so the results do not depend on the
//! number of threads.

use rayon::iter::{IndexedParallelIterator, IntoParallelIterator, ParallelIterator};
use rayon::slice::ParallelSliceMut;
use vstd::prelude::*;

use crate::ieee::F32;

verus! {

/// Map `f` over `0..n` into a `Vec`, preserving index order.
///
/// Calls `into_par_iter().map(f).collect()` of rayon on the range: an indexed
/// parallel iterator collects the answer for index `i` at place `i`.
#[verifier::external_body]
pub fn map_indices<T: Send, F: Fn(usize) -> T + Sync + Send>(n: usize, f: F) -> (out: Vec<T>)
    requires
        forall|i: usize| i < n ==> #[trigger] call_requires(f, (i,)),
    ensures
        out@.len() == n,
        forall|i: usize| i < n ==> call_ensures(f, (i,), #[trigger] out@[i as int]),
{
    (0..n).into_par_iter().map(f).collect()
}

/// The `i`-th stretch of `len` items.
pub open spec fn chunk<T>(s: Seq<T>, len: int, i: int) -> Seq<T> {
    s.subrange(i * len, i * len + len)
}

/// Apply `f(i, chunk)` to each disjoint `chunk_len`-sized chunk of `buf`.
/// `buf.len()` must be a multiple of `chunk_len` (one chunk per image row).
///
/// Calls `par_chunks_mut(chunk_len).enumerate().for_each(..)` of rayon: `f` runs
/// once on each chunk, with the chunk's index, and nothing else writes to it.
#[verifier::external_body]
pub fn for_each_chunk_mut<T: Send, F: Fn(usize, &mut [T]) + Sync + Send>(
    buf: &mut [T],
    chunk_len: usize,
    f: F,
)
    requires
        chunk_len > 0,
        old(buf)@.len() as int % chunk_len as int == 0,
        forall|i: usize, c: &mut [T]|
            c@.len() == chunk_len ==> #[trigger] call_requires(f, (i, c)),
    ensures
        final(buf)@.len() == old(buf)@.len(),
        forall|i: usize|
            (i + 1) * chunk_len <= old(buf)@.len() ==> exists|c: &mut [T]|
                {
                    &&& #[trigger] call_ensures(f, (i, c), ())
                    &&& c@ == chunk(old(buf)@, chunk_len as int, i as int)
                    &&& final(c)@ == #[trigger] chunk(final(buf)@, chunk_len as int, i as int)
                },
{
    buf.par_chunks_mut(chunk_len).enumerate().for_each(|(i, c)| f(i, c));
}

/// `v` where it is above zero, else zero.
pub open spec fn clamp_low(v: F32) -> F32 {
    if v.above(F32::zero()) {
        v
    } else {
        F32::zero()
    }
}

/// The image with what is below zero set to zero.
pub open spec fn clamped(image: Seq<F32>) -> Seq<F32> {
    Seq::new(image.len(), |i: int| clamp_low(image[i]))
}

/// `out` holds what `subtract` may answer pixel by pixel, as far as both go.
pub open spec fn are_differences<S: Fn(F32, F32) -> F32>(
    subtract: S,
    a: Seq<F32>,
    b: Seq<F32>,
    out: Seq<F32>,
) -> bool {
    &&& out.len() == if a.len() <= b.len() {
        a.len()
    } else {
        b.len()
    }
    &&& forall|i: int|
        0 <= i < out.len() ==> call_ensures(subtract, (a[i], b[i]), #[trigger] out[i])
}

spec fn is_difference<S: Fn(F32, F32) -> F32>(
    subtract: &S,
    a: &[F32],
    b: &[F32],
    i: usize,
    v: F32,
) -> bool {
    call_ensures(*subtract, (a@[i as int], b@[i as int]), v)
}

/// `a - b` element-wise (background subtraction, unclamped).
pub fn map_subtract<S: Fn(F32, F32) -> F32 + Sync + Send>(
    a: &[F32],
    b: &[F32],
    subtract: &S,
) -> (out: Vec<F32>)
    requires
        forall|x: F32, y: F32| #[trigger] call_requires(*subtract, (x, y)),
    ensures
        are_differences(*subtract, a@, b@, out@),
{
    let n: usize = if a.len() <= b.len() {
        a.len()
    } else {
        b.len()
    };
    let at = |i: usize| -> (v: F32)
        requires
            i < n,
        ensures
            is_difference(subtract, a, b, i, v),
        { subtract(a[i], b[i]) };
    let out = map_indices(n, at);
    assert forall|i: int| 0 <= i < out@.len() implies call_ensures(
        *subtract,
        (a@[i], b@[i]),
        #[trigger] out@[i],
    ) by {
        assert(call_ensures(at, (i as usize,), out@[(i as usize) as int]));
        assert(is_difference(subtract, a, b, i as usize, out@[i]));
    }
    out
}

/// Set what is below zero to zero.
pub fn clamp_all(image: &Vec<F32>) -> (out: Vec<F32>)
    ensures
        out@ == clamped(image@),
{
    let zero = F32 { bits: 0 };
    let mut out: Vec<F32> = Vec::new();
    let mut i: usize = 0;
    while i < image.len()
        invariant
            0 <= i <= image@.len(),
            zero == F32::zero(),
            out@.len() == i,
            forall|j: int| 0 <= j < i ==> #[trigger] out@[j] == clamp_low(image@[j]),
        decreases image@.len() - i,
    {
        let v = image[i];
        out.push(
            if v.gt(zero) {
                v
            } else {
                zero
            },
        );
        i += 1;
    }
    assert(out@ =~= clamped(image@));
    out
}

/// `a - b` element-wise, with zero for what is below (background subtraction
/// with clamp).
pub fn map_subtract_clamp<S: Fn(F32, F32) -> F32 + Sync + Send>(
    a: &[F32],
    b: &[F32],
    subtract: &S,
) -> (out: Vec<F32>)
    requires
        forall|x: F32, y: F32| #[trigger] call_requires(*subtract, (x, y)),
    ensures
        exists|plain: Seq<F32>| #[trigger]
            are_differences(*subtract, a@, b@, plain) && out@ == clamped(plain),
{
    clamp_all(&map_subtract(a, b, subtract))
}

/// No pixel of a clamped image is below zero, and clamping again changes nothing.
pub proof fn law_clamp_settles(image: Seq<F32>, i: int)
    requires
        0 <= i < image.len(),
    ensures
        clamped(image)[i].at_least(F32::zero()),
        clamped(clamped(image)) == clamped(image),
{
    assert(clamped(clamped(image)) =~= clamped(image));
}

/// Background subtraction goes pixel by pixel: each pixel of the difference is the
/// answer for the pixels at its own place, the image's first and the background's
/// second, where that is a positive number, and else zero.
pub proof fn law_subtraction_is_pixelwise<S: Fn(F32, F32) -> F32 + Sync + Send>(
    subtract: S,
    a: &[F32],
    b: &[F32],
    out: Vec<F32>,
    i: int,
)
    requires
        call_ensures(map_subtract_clamp::<S>, (a, b, &subtract), out),
        a@.len() == b@.len(),
        0 <= i < a@.len(),
    ensures
        out@.len() == a@.len(),
        exists|v: F32| #[trigger]
            call_ensures(subtract, (a@[i], b@[i]), v) && out@[i] == (if !v.nan() && v.rank() > 0 {
                v
            } else {
                F32 { bits: 0 }
            }),
{
    let plain = choose|plain: Seq<F32>| #[trigger]
        are_differences(subtract, a@, b@, plain) && out@ == clamped(plain);
    assert(call_ensures(subtract, (a@[i], b@[i]), plain[i]));
}

} // verus!
