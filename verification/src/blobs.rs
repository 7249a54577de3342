//! Blobs: the pixels of one detected region, and the gates it has to pass.

use vstd::prelude::*;

use crate::background::lemma_pixel_index;
use crate::connect::{adjacent, LitSet, Pixel};
use crate::ieee::F32;
use crate::labels::{
    describes, index_of, label_count, labelled, lemma_index_of, lemma_pixel_of, pixel_of,
    Component,
};
use crate::regions::{lemma_members, members, pixel_count};
use crate::runs::{covered, lemma_run_at, run_at, run_before, RunRegions};

verus! {

/// A pixel as `(row, column)`.
pub type Place = (usize, usize);

/// A place as a pixel.
pub open spec fn px(p: Place) -> Pixel {
    (p.0 as int, p.1 as int)
}

/// `a` comes before `b` in raster order.
pub open spec fn raster_lt(a: Pixel, b: Pixel) -> bool {
    a.0 < b.0 || (a.0 == b.0 && a.1 < b.1)
}

/// `list` holds the pixels of `set`, all of them, in raster order.
pub open spec fn is_listing(list: Seq<Place>, set: LitSet) -> bool {
    &&& forall|s: int, t: int|
        0 <= s < t < list.len() ==> raster_lt(px(#[trigger] list[s]), px(#[trigger] list[t]))
    &&& forall|t: int| 0 <= t < list.len() ==> set(px(#[trigger] list[t]))
    &&& forall|p: Pixel| #[trigger] set(p) ==> listed(list, p)
}

/// `list` holds the pixel `p`.
pub open spec fn listed(list: Seq<Place>, p: Pixel) -> bool {
    exists|t: int| 0 <= t < list.len() && px(#[trigger] list[t]) == p
}

/// The listing of a set of pixels is determined by the set.
pub proof fn law_listing_unique(a: Seq<Place>, b: Seq<Place>, set: LitSet)
    requires
        is_listing(a, set),
        is_listing(b, set),
    ensures
        a == b,
{
    lemma_listings_agree(a, b, set, a.len() as int);
    lemma_listings_agree(b, a, set, b.len() as int);
    assert(a =~= b);
}

proof fn lemma_listings_agree(a: Seq<Place>, b: Seq<Place>, set: LitSet, n: int)
    requires
        is_listing(a, set),
        is_listing(b, set),
        0 <= n <= a.len(),
    ensures
        n <= b.len(),
        forall|t: int| 0 <= t < n ==> #[trigger] a[t] == b[t],
    decreases n,
{
    if n > 0 {
        lemma_listings_agree(a, b, set, n - 1);
        let t = n - 1;
        assert(set(px(a[t])));
        assert(listed(b, px(a[t])));
        let j = choose|j: int| 0 <= j < b.len() && px(#[trigger] b[j]) == px(a[t]);
        if j < t {
            assert(a[j] == b[j]);
            assert(raster_lt(px(a[j]), px(a[t])));
        }
        assert(set(px(b[t])));
        assert(listed(a, px(b[t])));
        let i = choose|i: int| 0 <= i < a.len() && px(#[trigger] a[i]) == px(b[t]);
        if i < t {
            assert(a[i] == b[i]);
            assert(raster_lt(px(b[i]), px(b[t])));
        } else if t < i {
            assert(raster_lt(px(a[t]), px(a[i])));
            if t < j {
                assert(raster_lt(px(b[t]), px(b[j])));
            }
        }
        assert(a[t] == b[t]);
    }
}

/// The value of an image at a place.
pub open spec fn at(image: Seq<F32>, w: int, p: Place) -> F32 {
    image[p.0 * w + p.1]
}

/// The places lie inside a `w` by `h` image.
pub open spec fn inside(list: Seq<Place>, w: int, h: int) -> bool {
    forall|t: int| 0 <= t < list.len() ==> (#[trigger] list[t]).0 < h && list[t].1 < w
}

/// The bit pattern of the negative infinity.
pub const NEG_INF_32: u32 = 0xff80_0000;

/// The value at index `t` of the list exceeds the negative infinity, is not
/// exceeded by any other, and exceeds those before it.
pub open spec fn is_top(image: Seq<F32>, w: int, list: Seq<Place>, t: int) -> bool {
    &&& 0 <= t < list.len()
    &&& at(image, w, list[t]).above(F32 { bits: NEG_INF_32 })
    &&& forall|s: int|
        0 <= s < list.len() ==> !at(image, w, #[trigger] list[s]).above(at(image, w, list[t]))
    &&& forall|s: int|
        0 <= s < t ==> !at(image, w, #[trigger] list[s]).at_least(at(image, w, list[t]))
}

/// The peak of the listed pixels is the first of the brightest; where none
/// exceeds the negative infinity, it is `fallback`.
pub open spec fn is_peak(
    image: Seq<F32>,
    w: int,
    list: Seq<Place>,
    fallback: Place,
    peak: Place,
) -> bool {
    ||| exists|t: int| #[trigger] is_top(image, w, list, t) && peak == list[t]
    ||| {
        &&& forall|s: int|
            0 <= s < list.len() ==> !at(image, w, #[trigger] list[s]).above(
                F32 { bits: NEG_INF_32 },
            )
        &&& peak == fallback
    }
}

/// Find the peak of the listed pixels.
pub fn find_peak(image: &[F32], w: usize, h: usize, list: &[Place], fallback: Place) -> (peak:
    Place)
    requires
        image@.len() == w * h,
        inside(list@, w as int, h as int),
    ensures
        is_peak(image@, w as int, list@, fallback, peak),
{
    let len: usize = image.len();
    let mut peak = fallback;
    let mut best = F32 { bits: NEG_INF_32 };
    let ghost mut top: int = -1;
    let mut t: usize = 0;
    while t < list.len()
        invariant
            0 <= t <= list@.len(),
            len == image@.len(),
            len == w * h,
            inside(list@, w as int, h as int),
            !best.nan(),
            forall|s: int|
                0 <= s < t ==> !at(image@, w as int, #[trigger] list@[s]).above(best),
            if top < 0 {
                best == (F32 { bits: NEG_INF_32 }) && peak == fallback
            } else {
                &&& top < t
                &&& peak == list@[top]
                &&& best == at(image@, w as int, list@[top])
                &&& best.above(F32 { bits: NEG_INF_32 })
                &&& forall|s: int|
                    0 <= s < top ==> !at(image@, w as int, #[trigger] list@[s]).at_least(best)
            },
        decreases list@.len() - t,
    {
        let p = list[t];
        proof {
            assert(list@[t as int].0 < h);
            lemma_pixel_index(w as int, h as int, p.0 as int, p.1 as int);
        }
        let v = image[p.0 * w + p.1];
        if v.gt(best) {
            proof {
                top = t as int;
            }
            best = v;
            peak = p;
        }
        t += 1;
    }
    proof {
        if top >= 0 {
            assert(is_top(image@, w as int, list@, top));
        }
    }
    peak
}

/// The neighbours of a place inside the image.
pub open spec fn ring_of(p: Place, w: int, h: int) -> LitSet {
    |q: Pixel| 0 <= q.0 < h && 0 <= q.1 < w && q != px(p) && adjacent(true, px(p), q)
}

/// The in-bounds neighbours of a place, in raster order; those beyond the
/// border are skipped.
pub fn neighbours(p: Place, w: usize, h: usize) -> (ring: Vec<Place>)
    requires
        p.0 < h,
        p.1 < w,
    ensures
        is_listing(ring@, ring_of(p, w as int, h as int)),
        inside(ring@, w as int, h as int),
{
    let mut ring: Vec<Place> = Vec::new();
    let r0: usize = if p.0 > 0 {
        p.0 - 1
    } else {
        0
    };
    let c0: usize = if p.1 > 0 {
        p.1 - 1
    } else {
        0
    };
    let r1: usize = if p.0 + 1 < h {
        p.0 + 1
    } else {
        p.0
    };
    let c1: usize = if p.1 + 1 < w {
        p.1 + 1
    } else {
        p.1
    };
    let ghost set = ring_of(p, w as int, h as int);
    let mut r: usize = r0;
    let mut more_rows: bool = true;
    while more_rows
        invariant
            r0 <= r <= r1,
            r1 < h,
            c0 <= c1 < w,
            p.0 < h,
            p.1 < w,
            p.0 <= r0 + 1,
            p.1 <= c0 + 1,
            r1 <= p.0 + 1,
            c1 <= p.1 + 1,
            r0 <= p.0 <= r1,
            c0 <= p.1 <= c1,
            r0 == 0 || r0 + 1 == p.0,
            c0 == 0 || c0 + 1 == p.1,
            r1 == h - 1 || r1 == p.0 + 1,
            c1 == w - 1 || c1 == p.1 + 1,
            set == ring_of(p, w as int, h as int),
            inside(ring@, w as int, h as int),
            listing_so_far(
                ring@,
                set,
                if more_rows {
                    (r as int, c0 as int)
                } else {
                    (r1 + 1, c0 as int)
                },
            ),
        decreases (if more_rows {
            r1 - r + 1
        } else {
            0
        }),
    {
        let mut c: usize = c0;
        let mut more: bool = true;
        while more
            invariant
                c0 <= c <= c1,
                r0 <= r <= r1,
                r1 < h,
                c0 <= c1 < w,
                p.0 < h,
                p.1 < w,
                p.0 <= r0 + 1,
                p.1 <= c0 + 1,
                r1 <= p.0 + 1,
                c1 <= p.1 + 1,
                set == ring_of(p, w as int, h as int),
                inside(ring@, w as int, h as int),
                listing_so_far(
                    ring@,
                    set,
                    if more {
                        (r as int, c as int)
                    } else {
                        (r as int, c1 + 1)
                    },
                ),
            decreases (if more {
                c1 - c + 1
            } else {
                0
            }),
        {
            let ghost before = ring@;
            let here: Place = (r, c);
            let own: bool = r == p.0 && c == p.1;
            if !own {
                ring.push(here);
            }
            proof {
                assert(set(px(here)) == !own);
                lemma_listing_step(before, ring@, set, here, (r as int, c + 1));
            }
            if c < c1 {
                c += 1;
            } else {
                more = false;
            }
        }
        proof {
            lemma_listing_skip(ring@, set, (r as int, c1 + 1), (r + 1, c0 as int));
        }
        if r < r1 {
            r += 1;
        } else {
            more_rows = false;
        }
    }
    proof {
        assert forall|q: Pixel| #[trigger] set(q) implies listed(ring@, q) by {
            assert(raster_lt(q, (r1 + 1, c0 as int)));
        }
    }
    ring
}

/// `list` holds the pixels of `set` that come before `end` in raster order.
pub open spec fn listing_so_far(list: Seq<Place>, set: LitSet, end: Pixel) -> bool {
    &&& forall|s: int, t: int|
        0 <= s < t < list.len() ==> raster_lt(px(#[trigger] list[s]), px(#[trigger] list[t]))
    &&& forall|t: int|
        0 <= t < list.len() ==> set(px(#[trigger] list[t])) && raster_lt(px(list[t]), end)
    &&& forall|p: Pixel| #[trigger] set(p) && raster_lt(p, end) ==> listed(list, p)
}

/// One pixel further.
pub proof fn lemma_listing_step(
    before: Seq<Place>,
    after: Seq<Place>,
    set: LitSet,
    here: Place,
    end: Pixel,
)
    requires
        listing_so_far(before, set, px(here)),
        end == (px(here).0, px(here).1 + 1),
        after == if set(px(here)) {
            before.push(here)
        } else {
            before
        },
    ensures
        listing_so_far(after, set, end),
{
    assert forall|p: Pixel| #[trigger] set(p) && raster_lt(p, end) implies listed(after, p) by {
        if p == px(here) {
            assert(px(after[before.len() as int]) == p);
        } else {
            assert(raster_lt(p, px(here)));
            assert(listed(before, p));
            let t = choose|t: int| 0 <= t < before.len() && px(#[trigger] before[t]) == p;
            assert(px(after[t]) == p);
        }
    }
}

/// Where no pixel of the set lies between, the end may move on.
pub proof fn lemma_listing_skip(list: Seq<Place>, set: LitSet, end: Pixel, later: Pixel)
    requires
        listing_so_far(list, set, end),
        raster_lt(end, later) || end == later,
        forall|p: Pixel| #[trigger] set(p) && raster_lt(p, later) ==> raster_lt(p, end),
    ensures
        listing_so_far(list, set, later),
{
}

/// The pixels of region `k`.
pub open spec fn region_set(out: RunRegions, k: int) -> LitSet {
    |p: Pixel| covered(out.runs@)(p) && out.region_of_run@[run_at(out.runs@, p)] == k
}

/// The pixels of one region from its run indices, in raster order.
pub fn region_pixels(regions: &RunRegions, region_runs: &[u32], k: usize) -> (list: Vec<
    Place,
>)
    requires
        regions.wf(),
        Seq::new(region_runs@.len(), |t: int| region_runs@[t] as int) == members(
            regions.region_of_run@,
            k as int,
            regions.region_of_run@.len() as int,
        ),
    ensures
        is_listing(list@, region_set(*regions, k as int)),
        list@.len() == pixel_count(regions.runs@, region_runs@),
{
    let ghost runs = regions.runs@;
    let ghost ids = regions.region_of_run@;
    let ghost idx = region_runs@;
    let ghost set = region_set(*regions, k as int);
    let ghost m = members(ids, k as int, ids.len() as int);
    proof {
        lemma_members(ids, k as int, ids.len() as int);
        assert forall|t: int| 0 <= t < idx.len() implies {
            &&& (#[trigger] idx[t]) < runs.len()
            &&& ids[idx[t] as int] == k
        } by {
            assert(m[t] == idx[t]);
        }
        assert forall|s: int, t: int| 0 <= s < t < idx.len() implies (#[trigger] idx[s]) < (
        #[trigger] idx[t]) by {
            assert(m[s] < m[t]);
        }
    }
    let mut list: Vec<Place> = Vec::new();
    let mut t: usize = 0;
    assert(idx.take(0) =~= Seq::empty());
    while t < region_runs.len()
        invariant
            0 <= t <= idx.len(),
            regions.wf(),
            runs == regions.runs@,
            ids == regions.region_of_run@,
            idx == region_runs@,
            set == region_set(*regions, k as int),
            forall|s: int|
                0 <= s < idx.len() ==> {
                    &&& (#[trigger] idx[s]) < runs.len()
                    &&& ids[idx[s] as int] == k
                },
            forall|s: int, u: int|
                0 <= s < u < idx.len() ==> (#[trigger] idx[s]) < (#[trigger] idx[u]),
            list@.len() == pixel_count(runs, idx.take(t as int)),
            lists_runs(list@, runs, idx, t as int),
        decreases idx.len() - t,
    {
        let run = regions.runs[region_runs[t] as usize];
        let ghost before = list@;
        let ghost i = idx[t as int] as int;
        proof {
            assert(idx[t as int] < runs.len());
            assert(run == runs[i]);
            assert(run.c0 <= run.c1);
            assert(idx.take(t + 1).drop_last() =~= idx.take(t as int));
        }
        let mut c: u32 = run.c0;
        while c <= run.c1
            invariant
                0 <= t < idx.len(),
                run == runs[i],
                i == idx[t as int],
                run.c0 <= c <= run.c1 + 1,
                run.c1 < u32::MAX,
                list@.len() == before.len() + (c - run.c0),
                forall|s: int| 0 <= s < before.len() ==> #[trigger] list@[s] == before[s],
                forall|s: int|
                    before.len() <= s < list@.len() ==> #[trigger] list@[s] == (
                        run.row as usize,
                        (run.c0 + (s - before.len())) as usize,
                    ),
            decreases run.c1 + 1 - c,
        {
            list.push((run.row as usize, c as usize));
            c += 1;
        }
        proof {
            lemma_lists_one_more(before, list@, runs, idx, t as int);
        }
        t += 1;
    }
    proof {
        assert(idx.take(idx.len() as int) =~= idx);
        lemma_lists_region(list@, *regions, idx, k as int);
    }
    list
}

/// `list` holds the pixels of the first `n` indexed runs in raster order.
spec fn lists_runs(list: Seq<Place>, runs: Seq<crate::runs::Run>, idx: Seq<u32>, n: int) -> bool {
    &&& forall|s: int, t: int|
        0 <= s < t < list.len() ==> raster_lt(px(#[trigger] list[s]), px(#[trigger] list[t]))
    &&& forall|s: int|
        0 <= s < list.len() ==> exists|u: int|
            0 <= u < n && (#[trigger] runs[idx[u] as int]).has(px(#[trigger] list[s]))
    &&& forall|u: int, p: Pixel|
        0 <= u < n && #[trigger] runs[idx[u] as int].has(p) ==> listed(list, p)
}

proof fn lemma_lists_one_more(
    before: Seq<Place>,
    after: Seq<Place>,
    runs: Seq<crate::runs::Run>,
    idx: Seq<u32>,
    n: int,
)
    requires
        crate::runs::ordered(runs),
        0 <= n < idx.len(),
        forall|s: int| 0 <= s < idx.len() ==> (#[trigger] idx[s]) < runs.len(),
        forall|s: int, u: int|
            0 <= s < u < idx.len() ==> (#[trigger] idx[s]) < (#[trigger] idx[u]),
        lists_runs(before, runs, idx, n),
        ({
            let run = runs[idx[n] as int];
            &&& after.len() == before.len() + (run.c1 - run.c0 + 1)
            &&& forall|s: int| 0 <= s < before.len() ==> #[trigger] after[s] == before[s]
            &&& forall|s: int|
                before.len() <= s < after.len() ==> #[trigger] after[s] == (
                    run.row as usize,
                    (run.c0 + (s - before.len())) as usize,
                )
        }),
    ensures
        lists_runs(after, runs, idx, n + 1),
{
    let run = runs[idx[n] as int];
    assert(run.c0 <= run.c1);
    assert forall|s: int, t: int| 0 <= s < t < after.len() implies raster_lt(
        px(#[trigger] after[s]),
        px(#[trigger] after[t]),
    ) by {
        if t < before.len() {
            assert(raster_lt(px(before[s]), px(before[t])));
        } else if s < before.len() {
            assert(before[s] == after[s]);
            let u = choose|u: int|
                0 <= u < n && (#[trigger] runs[idx[u] as int]).has(px(before[s]));
            assert(idx[u] < idx[n]);
            assert(run_before(runs[idx[u] as int], run));
        }
    }
    assert forall|s: int| 0 <= s < after.len() implies exists|u: int|
        0 <= u < n + 1 && (#[trigger] runs[idx[u] as int]).has(px(#[trigger] after[s])) by {
        if s < before.len() {
            assert(before[s] == after[s]);
            let u = choose|u: int|
                0 <= u < n && (#[trigger] runs[idx[u] as int]).has(px(before[s]));
            assert(runs[idx[u] as int].has(px(after[s])));
        } else {
            assert(runs[idx[n] as int].has(px(after[s])));
        }
    }
    assert forall|u: int, p: Pixel|
        0 <= u < n + 1 && #[trigger] runs[idx[u] as int].has(p) implies listed(after, p) by {
        if u < n {
            assert(listed(before, p));
            let t = choose|t: int| 0 <= t < before.len() && px(#[trigger] before[t]) == p;
            assert(px(after[t]) == p);
        } else {
            let t = before.len() + (p.1 - run.c0);
            assert(px(after[t]) == p);
        }
    }
}

proof fn lemma_lists_region(list: Seq<Place>, regions: RunRegions, idx: Seq<u32>, k: int)
    requires
        regions.wf(),
        lists_runs(list, regions.runs@, idx, idx.len() as int),
        Seq::new(idx.len(), |t: int| idx[t] as int) == members(
            regions.region_of_run@,
            k,
            regions.region_of_run@.len() as int,
        ),
    ensures
        is_listing(list, region_set(regions, k)),
{
    let runs = regions.runs@;
    let ids = regions.region_of_run@;
    let n = ids.len() as int;
    let set = region_set(regions, k);
    let m = Seq::new(idx.len(), |t: int| idx[t] as int);
    lemma_members(ids, k, n);
    assert forall|s: int| 0 <= s < list.len() implies set(px(#[trigger] list[s])) by {
        let u = choose|u: int|
            0 <= u < idx.len() && (#[trigger] runs[idx[u] as int]).has(px(list[s]));
        assert(m[u] == members(ids, k, n)[u]);
        lemma_run_at(runs, idx[u] as int, px(list[s]));
    }
    assert forall|p: Pixel| #[trigger] set(p) implies listed(list, p) by {
        let i = run_at(runs, p);
        assert(runs[i].has(p));
        assert(members(ids, k, n).contains(i));
        let u = choose|u: int| 0 <= u < m.len() && m[u] == i;
        assert(runs[idx[u] as int].has(p));
    }
}

/// The pixels labelled `v` in rows `r0..r1` and columns `c0..c1`.
pub open spec fn box_set(
    labels: Seq<u32>,
    w: int,
    r0: int,
    r1: int,
    c0: int,
    c1: int,
    v: int,
) -> LitSet {
    |p: Pixel| r0 <= p.0 < r1 && c0 <= p.1 < c1 && labels[index_of(w, p)] == v
}

/// The pixels labelled `v`.
pub open spec fn label_set(labels: Seq<u32>, w: int, h: int, v: int) -> LitSet {
    |p: Pixel| 0 <= p.0 < h && 0 <= p.1 < w && labels[index_of(w, p)] == v
}

/// The pixels labelled `v` in a box, in raster order.
fn label_places(
    labels: &[u32],
    w: usize,
    h: usize,
    r0: usize,
    r1: usize,
    c0: usize,
    c1: usize,
    v: u32,
) -> (list: Vec<Place>)
    requires
        labels@.len() == w * h,
        r0 <= r1 <= h,
        c0 <= c1 <= w,
    ensures
        is_listing(
            list@,
            box_set(
                labels@,
                w as int,
                r0 as int,
                r1 as int,
                c0 as int,
                c1 as int,
                v as int,
            ),
        ),
        inside(list@, w as int, h as int),
{
    let len: usize = labels.len();
    let ghost set = box_set(
        labels@,
        w as int,
        r0 as int,
        r1 as int,
        c0 as int,
        c1 as int,
        v as int,
    );
    let mut list: Vec<Place> = Vec::new();
    let mut r: usize = r0;
    while r < r1
        invariant
            r0 <= r <= r1,
            r1 <= h,
            c0 <= c1 <= w,
            len == labels@.len(),
            len == w * h,
            set == box_set(
                labels@,
                w as int,
                r0 as int,
                r1 as int,
                c0 as int,
                c1 as int,
                v as int,
            ),
            inside(list@, w as int, h as int),
            listing_so_far(list@, set, (r as int, c0 as int)),
        decreases r1 - r,
    {
        let mut c: usize = c0;
        while c < c1
            invariant
                r0 <= r < r1,
                r1 <= h,
                c0 <= c <= c1,
                c1 <= w,
                len == labels@.len(),
                len == w * h,
                set == box_set(
                    labels@,
                    w as int,
                    r0 as int,
                    r1 as int,
                    c0 as int,
                    c1 as int,
                    v as int,
                ),
                inside(list@, w as int, h as int),
                listing_so_far(list@, set, (r as int, c as int)),
            decreases c1 - c,
        {
            let ghost before = list@;
            proof {
                lemma_pixel_index(w as int, h as int, r as int, c as int);
            }
            if labels[r * w + c] == v {
                list.push((r, c));
            }
            proof {
                lemma_listing_step(before, list@, set, (r, c), (r as int, c + 1));
            }
            c += 1;
        }
        proof {
            lemma_listing_skip(list@, set, (r as int, c1 as int), (r + 1, c0 as int));
        }
        r += 1;
    }
    proof {
        assert forall|q: Pixel| #[trigger] set(q) implies listed(list@, q) by {
            assert(raster_lt(q, (r1 as int, c0 as int)));
        }
    }
    list
}

/// The list of the pixels labelled `v` is as long as their count.
proof fn lemma_listing_counts(
    labels: Seq<u32>,
    w: int,
    h: int,
    v: int,
    list: Seq<Place>,
    n: int,
) -> (t: int)
    requires
        0 < w,
        labels.len() == w * h,
        is_listing(list, label_set(labels, w, h, v)),
        0 <= n <= labels.len(),
    ensures
        0 <= t <= list.len(),
        t == label_count(labels, v, n),
        forall|s: int| 0 <= s < t ==> index_of(w, px(#[trigger] list[s])) < n,
        forall|s: int| t <= s < list.len() ==> index_of(w, px(#[trigger] list[s])) >= n,
    decreases n,
{
    let set = label_set(labels, w, h, v);
    if n == 0 {
        assert forall|s: int| 0 <= s < list.len() implies index_of(w, px(#[trigger] list[s])) >= 0 by {
            assert(set(px(list[s])));
            lemma_index_of(w, h, px(list[s]));
        }
        0
    } else {
        let t = lemma_listing_counts(labels, w, h, v, list, n - 1);
        let p = pixel_of(w, n - 1);
        lemma_pixel_of(w, h, n - 1);
        assert forall|s: int| t + 1 <= s < list.len() implies index_of(w, px(#[trigger] list[s]))
            >= n by {
            assert(raster_lt(px(list[t]), px(list[s])));
            assert(set(px(list[t])) && set(px(list[s])));
            crate::labels::lemma_raster_index(w, px(list[t]), px(list[s]));
        }
        if labels[n - 1] == v {
            assert(set(p));
            assert(listed(list, p));
            let j = choose|j: int| 0 <= j < list.len() && px(#[trigger] list[j]) == p;
            assert(index_of(w, px(list[j])) == n - 1);
            assert(j >= t);
            if t < j {
                assert(raster_lt(px(list[t]), px(list[j])));
                assert(set(px(list[t])));
                crate::labels::lemma_raster_index(w, px(list[t]), px(list[j]));
            }
            assert(j == t);
            t + 1
        } else {
            if t < list.len() {
                assert(set(px(list[t])));
                if index_of(w, px(list[t])) == n - 1 {
                    lemma_index_of(w, h, px(list[t]));
                }
            }
            t
        }
    }
}

/// The pixels of one labelled component, in raster order.
pub fn label_pixels(labels: &[u32], w: usize, h: usize, comp: &Component, v: u32) -> (list: Vec<
    Place,
>)
    requires
        0 < w,
        labels@.len() == w * h,
        describes(*comp, labels@, w as int, v as int),
    ensures
        is_listing(list@, label_set(labels@, w as int, h as int, v as int)),
        inside(list@, w as int, h as int),
        list@.len() == comp.area,
        comp.bbox_max.0 < h,
        comp.bbox_max.1 < w,
        comp.bbox_min.0 <= comp.bbox_max.0,
        comp.bbox_min.1 <= comp.bbox_max.1,
{
    proof {
        lemma_box_inside(*comp, labels@, w as int, h as int, v as int);
    }
    let r0: usize = comp.bbox_min.0 as usize;
    let c0: usize = comp.bbox_min.1 as usize;
    let r1: usize = comp.bbox_max.0 as usize + 1;
    let c1: usize = comp.bbox_max.1 as usize + 1;
    let list = label_places(labels, w, h, r0, r1, c0, c1, v);
    proof {
        let set = label_set(labels@, w as int, h as int, v as int);
        let small = box_set(
            labels@,
            w as int,
            r0 as int,
            r1 as int,
            c0 as int,
            c1 as int,
            v as int,
        );
        assert forall|p: Pixel| #[trigger] set(p) implies listed(list@, p) by {
            lemma_index_of(w as int, h as int, p);
            assert(labelled(labels@, index_of(w as int, p), v as int));
            assert(small(p));
        }
        assert forall|t: int| 0 <= t < list@.len() implies set(px(#[trigger] list@[t])) by {
            assert(small(px(list@[t])));
        }
        let t = lemma_listing_counts(
            labels@,
            w as int,
            h as int,
            v as int,
            list@,
            labels@.len() as int,
        );
        if t < list@.len() {
            assert(set(px(list@[t])));
            lemma_index_of(w as int, h as int, px(list@[t]));
        }
    }
    list
}

/// A component's box lies inside the image.
proof fn lemma_box_inside(comp: Component, labels: Seq<u32>, w: int, h: int, v: int)
    requires
        0 < w,
        labels.len() == w * h,
        describes(comp, labels, w, v),
    ensures
        comp.bbox_max.0 < h,
        comp.bbox_max.1 < w,
        comp.bbox_min.0 <= comp.bbox_max.0,
        comp.bbox_min.1 <= comp.bbox_max.1,
{
    let i = choose|i: int| #[trigger]
        labelled(labels, i, v) && pixel_of(w, i).0 == comp.bbox_max.0;
    let j = choose|j: int| #[trigger]
        labelled(labels, j, v) && pixel_of(w, j).1 == comp.bbox_max.1;
    lemma_pixel_of(w, h, i);
    lemma_pixel_of(w, h, j);
}

/// How far the annulus reaches beyond the box of a blob.
pub const ANNULUS_MARGIN: usize = 5;

/// The background pixels within the margin around a component's box.
pub open spec fn annulus_set(labels: Seq<u32>, w: int, h: int, comp: Component) -> LitSet {
    |p: Pixel|
        {
            &&& 0 <= p.0 < h
            &&& 0 <= p.1 < w
            &&& comp.bbox_min.0 - ANNULUS_MARGIN <= p.0 <= comp.bbox_max.0 + ANNULUS_MARGIN
            &&& comp.bbox_min.1 - ANNULUS_MARGIN <= p.1 <= comp.bbox_max.1 + ANNULUS_MARGIN
            &&& labels[index_of(w, p)] == 0
        }
}

/// The image's values at the listed places.
pub open spec fn values_at(image: Seq<F32>, w: int, list: Seq<Place>) -> Seq<F32> {
    Seq::new(list.len(), |t: int| at(image, w, list[t]))
}

/// `vals` holds the values of the background pixels around a component.
pub open spec fn are_annulus_values(
    gray: Seq<F32>,
    labels: Seq<u32>,
    w: int,
    h: int,
    comp: Component,
    vals: Seq<F32>,
) -> bool {
    exists|list: Seq<Place>| #[trigger]
        is_listing(list, annulus_set(labels, w, h, comp)) && vals == values_at(gray, w, list)
}

/// Expand the bounding box by the margin and collect the values of the pixels
/// that belong to no blob.
pub fn annulus_values(gray: &[F32], labels: &[u32], w: usize, h: usize, comp: &Component) -> (vals:
    Vec<F32>)
    requires
        labels@.len() == w * h,
        gray@.len() == w * h,
        comp.bbox_max.0 < h,
        comp.bbox_max.1 < w,
        comp.bbox_min.0 <= comp.bbox_max.0,
        comp.bbox_min.1 <= comp.bbox_max.1,
    ensures
        are_annulus_values(gray@, labels@, w as int, h as int, *comp, vals@),
{
    let len: usize = gray.len();
    let r0: usize = (comp.bbox_min.0 as usize).saturating_sub(ANNULUS_MARGIN);
    let c0: usize = (comp.bbox_min.1 as usize).saturating_sub(ANNULUS_MARGIN);
    let r1: usize = if h - comp.bbox_max.0 as usize > ANNULUS_MARGIN + 1 {
        comp.bbox_max.0 as usize + ANNULUS_MARGIN + 1
    } else {
        h
    };
    let c1: usize = if w - comp.bbox_max.1 as usize > ANNULUS_MARGIN + 1 {
        comp.bbox_max.1 as usize + ANNULUS_MARGIN + 1
    } else {
        w
    };
    let list = label_places(labels, w, h, r0, r1, c0, c1, 0);
    proof {
        let set = annulus_set(labels@, w as int, h as int, *comp);
        let boxed = box_set(labels@, w as int, r0 as int, r1 as int, c0 as int, c1 as int, 0);
        assert forall|p: Pixel| #[trigger] set(p) implies listed(list@, p) by {
            assert(boxed(p));
        }
        assert forall|t: int| 0 <= t < list@.len() implies set(px(#[trigger] list@[t])) by {
            assert(boxed(px(list@[t])));
        }
        assert(is_listing(list@, set));
    }
    let mut vals: Vec<F32> = Vec::new();
    let mut t: usize = 0;
    while t < list.len()
        invariant
            0 <= t <= list@.len(),
            len == gray@.len(),
            len == w * h,
            inside(list@, w as int, h as int),
            vals@.len() == t,
            forall|s: int| 0 <= s < t ==> #[trigger] vals@[s] == at(gray@, w as int, list@[s]),
        decreases list@.len() - t,
    {
        let p = list[t];
        proof {
            assert(list@[t as int].0 < h);
            lemma_pixel_index(w as int, h as int, p.0 as int, p.1 as int);
        }
        vals.push(gray[p.0 * w + p.1]);
        t += 1;
    }
    assert(vals@ =~= values_at(gray@, w as int, list@));
    vals
}

/// The peak of listed pixels is the highest of them and, of several that are as
/// high, the first; a place is made up only where none is above the negative
/// infinity.
pub proof fn law_peak_is_the_first_of_the_highest(
    image: &[F32],
    w: usize,
    h: usize,
    list: &[Place],
    fallback: Place,
    peak: Place,
)
    requires
        call_ensures(find_peak, (image, w, h, list, fallback), peak),
    ensures
        peak == fallback || exists|t: int| 0 <= t < list@.len() && #[trigger] list@[t] == peak,
        forall|i: int|
            0 <= i < list@.len() && !image@[(#[trigger] list@[i]).0 * w + list@[i].1].nan()
                && image@[list@[i].0 * w + list@[i].1].rank() > -0x7f80_0000 ==> exists|t: int|
                {
                    &&& 0 <= t < list@.len()
                    &&& #[trigger] list@[t] == peak
                    &&& image@[peak.0 * w + peak.1].rank() >= image@[list@[i].0 * w
                        + list@[i].1].rank()
                    &&& i < t ==> image@[peak.0 * w + peak.1].rank() > image@[list@[i].0 * w
                        + list@[i].1].rank()
                },
{
    assert forall|i: int|
        0 <= i < list@.len() && !image@[(#[trigger] list@[i]).0 * w + list@[i].1].nan()
            && image@[list@[i].0 * w + list@[i].1].rank() > -0x7f80_0000 implies exists|t: int|
        {
            &&& 0 <= t < list@.len()
            &&& #[trigger] list@[t] == peak
            &&& image@[peak.0 * w + peak.1].rank() >= image@[list@[i].0 * w + list@[i].1].rank()
            &&& i < t ==> image@[peak.0 * w + peak.1].rank() > image@[list@[i].0 * w
                + list@[i].1].rank()
        } by {
        assert(at(image@, w as int, list@[i]).above(F32 { bits: NEG_INF_32 }));
        let t = choose|t: int| #[trigger]
            is_top(image@, w as int, list@, t) && peak == list@[t];
        assert(!at(image@, w as int, list@[i]).above(at(image@, w as int, list@[t])));
        assert(list@[t] == peak);
        if i < t {
            assert(!at(image@, w as int, list@[i]).at_least(at(image@, w as int, list@[t])));
        }
    }
}

} // verus!
