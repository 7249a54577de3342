//! Regions of a run labelling: their run lists, extents, and the laws that tie
//! them to the connected regions of the lit pixels.

use vstd::prelude::*;
use vstd::set_lib::lemma_set_disjoint_lens;

use crate::connect::{
    connected, lemma_connected_grows, lemma_connected_sym, lemma_connected_trans, LitSet, Pixel,
};
use crate::runs::{
    appears, covered, first_appearance, lemma_run_at, lemma_run_connected, ordered, run_at,
    run_before, runs_connected, Run, RunRegions,
};

verus! {

/// The indices below `n` whose id is `k`, ascending.
pub open spec fn members(ids: Seq<u32>, k: int, n: int) -> Seq<int>
    decreases n,
{
    if n <= 0 {
        Seq::empty()
    } else if ids[n - 1] == k {
        members(ids, k, n - 1).push(n - 1)
    } else {
        members(ids, k, n - 1)
    }
}

/// How many of the first `n` ids are below `k`.
pub open spec fn count_below(ids: Seq<u32>, k: int, n: int) -> int
    decreases n,
{
    if n <= 0 {
        0
    } else {
        count_below(ids, k, n - 1) + if ids[n - 1] < k {
            1int
        } else {
            0
        }
    }
}

/// What `members` lists.
pub proof fn lemma_members(ids: Seq<u32>, k: int, n: int)
    requires
        0 <= n <= ids.len(),
    ensures
        members(ids, k, n).len() <= n,
        forall|t: int|
            0 <= t < members(ids, k, n).len() ==> 0 <= #[trigger] members(ids, k, n)[t] < n
                && ids[members(ids, k, n)[t]] == k,
        forall|s: int, t: int|
            0 <= s < t < members(ids, k, n).len() ==> #[trigger] members(ids, k, n)[s]
                < #[trigger] members(ids, k, n)[t],
        forall|i: int|
            0 <= i < n && #[trigger] ids[i] == k ==> members(ids, k, n).contains(i),
    decreases n,
{
    if n > 0 {
        lemma_members(ids, k, n - 1);
        let small = members(ids, k, n - 1);
        let all = members(ids, k, n);
        assert forall|i: int| 0 <= i < n && #[trigger] ids[i] == k implies all.contains(i) by {
            if i < n - 1 {
                assert(small.contains(i));
                let t = choose|t: int| 0 <= t < small.len() && small[t] == i;
                assert(all[t] == i);
            } else {
                assert(all[small.len() as int] == i);
            }
        }
    }
}

proof fn lemma_members_grow(ids: Seq<u32>, k: int, m: int, n: int)
    requires
        0 <= m <= n,
    ensures
        members(ids, k, m).len() <= members(ids, k, n).len(),
        forall|t: int|
            0 <= t < members(ids, k, m).len() ==> #[trigger] members(ids, k, n)[t] == members(
                ids,
                k,
                m,
            )[t],
    decreases n - m,
{
    if m < n {
        lemma_members_grow(ids, k, m, n - 1);
    }
}

proof fn lemma_count_step(ids: Seq<u32>, k: int, n: int)
    requires
        0 <= n,
    ensures
        count_below(ids, k + 1, n) == count_below(ids, k, n) + members(ids, k, n).len(),
        0 <= count_below(ids, k, n) <= n,
    decreases n,
{
    if n > 0 {
        lemma_count_step(ids, k, n - 1);
    }
}

proof fn lemma_count_all(ids: Seq<u32>, k: int, n: int)
    requires
        0 <= n <= ids.len(),
    ensures
        (forall|i: int| 0 <= i < n ==> (#[trigger] ids[i]) < k) ==> count_below(ids, k, n) == n,
        k <= 0 ==> count_below(ids, k, n) == 0,
    decreases n,
{
    if n > 0 {
        lemma_count_all(ids, k, n - 1);
    }
}

proof fn lemma_count_mono(ids: Seq<u32>, j: int, k: int, n: int)
    requires
        j <= k,
    ensures
        count_below(ids, j, n) <= count_below(ids, k, n),
    decreases n,
{
    if n > 0 {
        lemma_count_mono(ids, j, k, n - 1);
    }
}

/// `order`, cut at `offsets`, lists for each id below `n` its members.
pub open spec fn grouped(ids: Seq<u32>, n: int, offsets: Seq<u32>, order: Seq<u32>) -> bool {
    &&& offsets.len() == n + 1
    &&& order.len() == ids.len()
    &&& offsets[0] == 0
    &&& offsets[n] == ids.len()
    &&& forall|j: int, k: int|
        0 <= j <= k <= n ==> (#[trigger] offsets[j]) <= (#[trigger] offsets[k])
    &&& forall|k: int|
        0 <= k < n ==> #[trigger] group_of(offsets, order, k) == members(ids, k, ids.len() as int)
}

/// The entries of group `k`.
pub open spec fn group_of(offsets: Seq<u32>, order: Seq<u32>, k: int) -> Seq<int> {
    Seq::new(
        (offsets[k + 1] - offsets[k]) as nat,
        |t: int| order[offsets[k] + t] as int,
    )
}

/// Pixel count and bounding box of one region's run list.
#[derive(Clone, Copy, Debug, PartialEq, Eq, Structural)]
pub struct RegionExtent {
    pub npix: usize,
    pub min_row: usize,
    pub max_row: usize,
    pub min_col: usize,
    pub max_col: usize,
}

impl RegionExtent {
    /// The bounding box keeps `margin` pixels away from every edge of a `w` by
    /// `h` image.
    pub open spec fn is_clear(self, margin: int, w: int, h: int) -> bool {
        &&& self.min_row >= margin
        &&& self.min_col >= margin
        &&& self.max_row < h - margin
        &&& self.max_col < w - margin
    }

    /// Border gate shared by both extraction paths: `false` when the bounding
    /// box comes within `margin` pixels of any edge of a `w` by `h` image (a
    /// star cut by the frame edge has a truncated PSF and a CoM biased
    /// toward the interior, a plausible but wrong position). `margin == 0`
    /// disables the test. The `min_*` tests come first so a margin larger
    /// than the image cannot underflow `h - margin`.
    pub fn clear_of_border(&self, margin: usize, w: usize, h: usize) -> (clear: bool)
        requires
            margin == 0 || self.min_row < margin || self.min_col < margin || (margin <= h && (
            self.max_row >= h - margin || margin <= w)),
        ensures
            clear == (margin == 0 || self.is_clear(margin as int, w as int, h as int)),
    {
        margin == 0 || !(self.min_row < margin || self.min_col < margin || self.max_row >= h
            - margin || self.max_col >= w - margin)
    }
}

/// Number of pixels of the listed runs.
pub open spec fn pixel_count(runs: Seq<Run>, list: Seq<u32>) -> int
    decreases list.len(),
{
    if list.len() == 0 {
        0
    } else {
        let run = runs[list.last() as int];
        pixel_count(runs, list.drop_last()) + (run.c1 - run.c0 + 1)
    }
}

/// `m` is the least of `f(0)..f(n)`, or `none` if there are none.
pub open spec fn is_least(f: spec_fn(int) -> int, n: int, m: int, none: int) -> bool {
    if n <= 0 {
        m == none
    } else {
        &&& forall|k: int| 0 <= k < n ==> m <= #[trigger] f(k)
        &&& exists|k: int| 0 <= k < n && m == #[trigger] f(k)
    }
}

/// `m` is the greatest of `f(0)..f(n)`, or `none` if there are none.
pub open spec fn is_greatest(f: spec_fn(int) -> int, n: int, m: int, none: int) -> bool {
    if n <= 0 {
        m == none
    } else {
        &&& forall|k: int| 0 <= k < n ==> #[trigger] f(k) <= m
        &&& exists|k: int| 0 <= k < n && m == #[trigger] f(k)
    }
}

/// `e` counts the pixels of the listed runs and bounds them tightly.
pub open spec fn is_extent(e: RegionExtent, runs: Seq<Run>, list: Seq<u32>) -> bool {
    let n = list.len() as int;
    &&& e.npix == pixel_count(runs, list)
    &&& is_least(|k: int| runs[list[k] as int].row as int, n, e.min_row as int, usize::MAX as int)
    &&& is_greatest(|k: int| runs[list[k] as int].row as int, n, e.max_row as int, 0)
    &&& is_least(|k: int| runs[list[k] as int].c0 as int, n, e.min_col as int, usize::MAX as int)
    &&& is_greatest(|k: int| runs[list[k] as int].c1 as int, n, e.max_col as int, 0)
}

proof fn lemma_least_step(f: spec_fn(int) -> int, n: int, m: int, none: int, m2: int)
    requires
        n >= 0,
        is_least(f, n, m, none),
        f(n) <= none,
        m2 == if f(n) < m {
            f(n)
        } else {
            m
        },
    ensures
        is_least(f, n + 1, m2, none),
{
    if m2 == f(n) {
    } else {
        let k = choose|k: int| 0 <= k < n && m == #[trigger] f(k);
        assert(m2 == f(k));
    }
}

proof fn lemma_greatest_step(f: spec_fn(int) -> int, n: int, m: int, none: int, m2: int)
    requires
        n >= 0,
        is_greatest(f, n, m, none),
        none <= f(n),
        m2 == if f(n) > m {
            f(n)
        } else {
            m
        },
    ensures
        is_greatest(f, n + 1, m2, none),
{
    if m2 == f(n) {
    } else {
        let k = choose|k: int| 0 <= k < n && m == #[trigger] f(k);
        assert(m2 == f(k));
    }
}

proof fn lemma_pixel_count_prefix(runs: Seq<Run>, list: Seq<u32>, k: int)
    requires
        0 <= k < list.len(),
        forall|t: int| 0 <= t < list.len() ==> (#[trigger] list[t]) < runs.len(),
        forall|i: int| 0 <= i < runs.len() ==> (#[trigger] runs[i]).c0 <= runs[i].c1,
    ensures
        pixel_count(runs, list.take(k + 1)) == pixel_count(runs, list.take(k)) + (
        runs[list[k] as int].c1 - runs[list[k] as int].c0 + 1),
        pixel_count(runs, list.take(k + 1)) <= pixel_count(runs, list),
    decreases list.len() - k,
{
    assert(list.take(k + 1).drop_last() =~= list.take(k));
    if k + 1 < list.len() {
        lemma_pixel_count_prefix(runs, list, k + 1);
        let run = runs[list[k + 1] as int];
        assert(run.c0 <= run.c1);
    } else {
        assert(list.take(k + 1) =~= list);
    }
}

impl RunRegions {
    /// Pixel count and bounding box of the region whose (row-major) run
    /// indices are `region_runs` (a slice of the `order` returned by
    /// [`Self::group_by_region`]).
    pub fn extent(&self, region_runs: &[u32]) -> (e: RegionExtent)
        requires
            forall|t: int| 0 <= t < region_runs@.len() ==> (#[trigger] region_runs@[t])
                < self.runs@.len(),
            forall|i: int| 0 <= i < self.runs@.len() ==> (#[trigger] self.runs@[i]).c0
                <= self.runs@[i].c1 && self.runs@[i].c1 < u32::MAX,
            pixel_count(self.runs@, region_runs@) <= usize::MAX,
        ensures
            is_extent(e, self.runs@, region_runs@),
    {
        let mut e = RegionExtent {
            npix: 0,
            min_row: usize::MAX,
            max_row: 0,
            min_col: usize::MAX,
            max_col: 0,
        };
        let ghost runs = self.runs@;
        let ghost list = region_runs@;
        let ghost row = |k: int| runs[list[k] as int].row as int;
        let ghost first = |k: int| runs[list[k] as int].c0 as int;
        let ghost last = |k: int| runs[list[k] as int].c1 as int;
        let mut k: usize = 0;
        while k < region_runs.len()
            invariant
                0 <= k <= list.len(),
                runs == self.runs@,
                list == region_runs@,
                row == (|k: int| runs[list[k] as int].row as int),
                first == (|k: int| runs[list[k] as int].c0 as int),
                last == (|k: int| runs[list[k] as int].c1 as int),
                forall|t: int| 0 <= t < list.len() ==> (#[trigger] list[t]) < runs.len(),
                forall|i: int|
                    0 <= i < runs.len() ==> (#[trigger] runs[i]).c0 <= runs[i].c1 && runs[i].c1
                        < u32::MAX,
                pixel_count(runs, list) <= usize::MAX,
                e.npix == pixel_count(runs, list.take(k as int)),
                is_least(row, k as int, e.min_row as int, usize::MAX as int),
                is_greatest(row, k as int, e.max_row as int, 0),
                is_least(first, k as int, e.min_col as int, usize::MAX as int),
                is_greatest(last, k as int, e.max_col as int, 0),
            decreases list.len() - k,
        {
            let i: u32 = region_runs[k];
            let run = self.runs[i as usize];
            let ghost e0 = e;
            proof {
                lemma_pixel_count_prefix(runs, list, k as int);
            }
            e.npix = e.npix + run.len();
            if (run.row as usize) < e.min_row {
                e.min_row = run.row as usize;
            }
            if (run.row as usize) > e.max_row {
                e.max_row = run.row as usize;
            }
            if (run.c0 as usize) < e.min_col {
                e.min_col = run.c0 as usize;
            }
            if (run.c1 as usize) > e.max_col {
                e.max_col = run.c1 as usize;
            }
            proof {
                let max = usize::MAX as int;
                lemma_least_step(row, k as int, e0.min_row as int, max, e.min_row as int);
                lemma_greatest_step(row, k as int, e0.max_row as int, 0, e.max_row as int);
                lemma_least_step(first, k as int, e0.min_col as int, max, e.min_col as int);
                lemma_greatest_step(last, k as int, e0.max_col as int, 0, e.max_col as int);
            }
            k += 1;
        }
        assert(list.take(list.len() as int) =~= list);
        e
    }

    /// Group runs by region: `order[offsets[k] as usize..offsets[k + 1] as
    /// usize]` are the (ascending, hence row-major) run indices of region
    /// `k`. Counting sort: O(runs + regions).
    pub fn group_by_region(&self) -> (out: (Vec<u32>, Vec<u32>))
        requires
            self.region_of_run@.len() == self.runs@.len(),
            self.runs@.len() <= u32::MAX,
            self.n_regions < usize::MAX,
            forall|i: int|
                0 <= i < self.region_of_run@.len() ==> (#[trigger] self.region_of_run@[i])
                    < self.n_regions,
        ensures
            grouped(self.region_of_run@, self.n_regions as int, out.0@, out.1@),
    {
        let ghost ids = self.region_of_run@;
        let ghost n = ids.len() as int;
        let n_regions: usize = self.n_regions;
        let mut counts: Vec<u32> = vec![0u32; n_regions + 1];
        let mut i: usize = 0;
        while i < self.region_of_run.len()
            invariant
                ids == self.region_of_run@,
                ids.len() <= u32::MAX,
                n_regions < usize::MAX,
                0 <= i <= ids.len(),
                forall|k: int| 0 <= k < ids.len() ==> (#[trigger] ids[k]) < n_regions,
                counts@.len() == n_regions + 1,
                counts@[0] == 0,
                forall|k: int|
                    0 < k <= n_regions ==> #[trigger] counts@[k] == members(
                        ids,
                        k - 1,
                        i as int,
                    ).len(),
            decreases ids.len() - i,
        {
            let reg: usize = self.region_of_run[i] as usize;
            assert(ids[i as int] < n_regions);
            proof {
                lemma_members(ids, reg as int, i as int);
            }
            counts[reg + 1] = counts[reg + 1] + 1;
            i += 1;
        }
        proof {
            lemma_count_all(ids, 0, n);
        }
        let mut k: usize = 1;
        while k < counts.len()
            invariant
                ids == self.region_of_run@,
                n == ids.len(),
                n <= u32::MAX,
                1 <= k <= counts@.len(),
                counts@.len() == n_regions + 1,
                forall|j: int| 0 <= j < k ==> #[trigger] counts@[j] == count_below(ids, j, n),
                forall|j: int|
                    k <= j <= n_regions ==> #[trigger] counts@[j] == members(ids, j - 1, n).len(),
            decreases counts@.len() - k,
        {
            proof {
                lemma_count_step(ids, k - 1, n);
                lemma_count_step(ids, k as int, n);
            }
            counts[k] = counts[k] + counts[k - 1];
            k += 1;
        }
        let offsets: Vec<u32> = counts.clone();
        let mut cursor: Vec<u32> = counts;
        assert(offsets@ =~= cursor@);
        let mut order: Vec<u32> = vec![0u32; self.runs.len()];
        let mut i: usize = 0;
        while i < self.region_of_run.len()
            invariant
                ids == self.region_of_run@,
                n == ids.len(),
                n <= u32::MAX,
                0 <= i <= n,
                forall|k: int| 0 <= k < n ==> (#[trigger] ids[k]) < n_regions,
                offsets@.len() == n_regions + 1,
                cursor@.len() == n_regions + 1,
                order@.len() == n,
                forall|j: int|
                    0 <= j <= n_regions ==> #[trigger] offsets@[j] == count_below(ids, j, n),
                forall|j: int|
                    0 <= j < n_regions ==> #[trigger] cursor@[j] == offsets@[j] + members(
                        ids,
                        j,
                        i as int,
                    ).len(),
                forall|j: int, t: int|
                    0 <= j < n_regions && 0 <= t < members(ids, j, i as int).len()
                        ==> order@[offsets@[j] + t] == #[trigger] members(ids, j, i as int)[t],
            decreases n - i,
        {
            let reg: usize = self.region_of_run[i] as usize;
            assert(ids[i as int] < n_regions);
            let ghost before = order@;
            proof {
                lemma_slot_free(ids, offsets@, n_regions as int, reg as int, i as int);
            }
            let at: usize = cursor[reg] as usize;
            order[at] = i as u32;
            cursor[reg] = cursor[reg] + 1;
            proof {
                assert forall|j: int, t: int|
                    0 <= j < n_regions && 0 <= t < members(ids, j, i + 1).len() implies order@[
                offsets@[j] + t] == #[trigger] members(ids, j, i + 1)[t] by {
                    if t < members(ids, j, i as int).len() {
                        lemma_slots_apart(
                            ids,
                            offsets@,
                            n_regions as int,
                            reg as int,
                            j,
                            i as int,
                            t,
                        );
                        assert(members(ids, j, i as int)[t] == members(ids, j, i + 1)[t]);
                        assert(before[offsets@[j] + t] == members(ids, j, i as int)[t]);
                    }
                }
            }
            i += 1;
        }
        proof {
            lemma_count_all(ids, n_regions as int, n);
            lemma_count_all(ids, 0, n);
            assert forall|j: int, k: int| 0 <= j <= k <= n_regions implies (#[trigger] offsets@[j])
                <= (#[trigger] offsets@[k]) by {
                lemma_count_mono(ids, j, k, n);
            }
            assert forall|k: int| 0 <= k < n_regions implies #[trigger] group_of(
                offsets@,
                order@,
                k,
            ) == members(ids, k, n) by {
                lemma_count_step(ids, k, n);
                assert(offsets@[k + 1] == count_below(ids, k + 1, n));
                assert(group_of(offsets@, order@, k) =~= members(ids, k, n));
            }
        }
        (offsets, order)
    }
}

/// The next slot of a group lies inside it.
proof fn lemma_slot_free(ids: Seq<u32>, offsets: Seq<u32>, n_regions: int, reg: int, i: int)
    requires
        0 <= i < ids.len(),
        ids[i] == reg,
        0 <= reg < n_regions,
        offsets.len() == n_regions + 1,
        forall|j: int|
            0 <= j <= n_regions ==> #[trigger] offsets[j] == count_below(
                ids,
                j,
                ids.len() as int,
            ),
    ensures
        offsets[reg] + members(ids, reg, i).len() < offsets[reg + 1] <= ids.len(),
        members(ids, reg, i + 1).len() == members(ids, reg, i).len() + 1,
{
    let n = ids.len() as int;
    lemma_count_step(ids, reg, n);
    lemma_count_step(ids, reg + 1, n);
    lemma_members_grow(ids, reg, i + 1, n);
    assert(offsets[reg + 1] == count_below(ids, reg + 1, n));
}

/// The next slot of a group holds no listed entry.
proof fn lemma_slots_apart(
    ids: Seq<u32>,
    offsets: Seq<u32>,
    n_regions: int,
    reg: int,
    j: int,
    i: int,
    t: int,
)
    requires
        0 <= i < ids.len(),
        ids[i] == reg,
        0 <= reg < n_regions,
        0 <= j < n_regions,
        0 <= t < members(ids, j, i).len(),
        offsets.len() == n_regions + 1,
        forall|j: int|
            0 <= j <= n_regions ==> #[trigger] offsets[j] == count_below(
                ids,
                j,
                ids.len() as int,
            ),
    ensures
        0 <= offsets[j] + t < ids.len(),
        offsets[j] + t != offsets[reg] + members(ids, reg, i).len(),
{
    let n = ids.len() as int;
    lemma_slot_free(ids, offsets, n_regions, reg, i);
    lemma_members_grow(ids, j, i, n);
    lemma_count_step(ids, j, n);
    lemma_count_step(ids, j + 1, n);
    assert(offsets[j + 1] == count_below(ids, j + 1, n));
    if j < reg {
        lemma_count_mono(ids, j + 1, reg, n);
    } else if reg < j {
        lemma_count_mono(ids, reg + 1, j, n);
        assert(offsets[reg + 1] == count_below(ids, reg + 1, n));
    }
}

/// `a` comes before `b` in raster order.
spec fn raster_before(a: Pixel, b: Pixel) -> bool {
    a.0 < b.0 || (a.0 == b.0 && a.1 < b.1)
}

/// Where a pixel of a later run stands.
proof fn lemma_later_pixel(runs: Seq<Run>, k: int, m: int, p: Pixel)
    requires
        ordered(runs),
        0 <= k <= m < runs.len(),
        runs[m].has(p),
    ensures
        p == runs[k].start() || raster_before(runs[k].start(), p),
{
    assert(runs[k].c0 <= runs[k].c1);
    if k < m {
        assert(run_before(runs[k], runs[m]));
    }
}

/// If the first `k` runs agree and both go on, run `k` of `b` does not begin
/// before run `k` of `a`.
proof fn lemma_same_start(a: Seq<Run>, b: Seq<Run>, k: int)
    requires
        ordered(a),
        ordered(b),
        forall|p: Pixel| #[trigger] covered(a)(p) <==> covered(b)(p),
        0 <= k < a.len(),
        k < b.len(),
        forall|i: int| 0 <= i < k ==> #[trigger] a[i] == b[i],
    ensures
        !raster_before(b[k].start(), a[k].start()),
{
    let p = b[k].start();
    assert(b[k].c0 <= b[k].c1);
    assert(b[k].has(p));
    assert(covered(b)(p));
    assert(covered(a)(p));
    let m = choose|i: int| 0 <= i < a.len() && (#[trigger] a[i]).has(p);
    if m < k {
        assert(a[m] == b[m]);
        assert(run_before(b[m], b[k]));
    } else {
        lemma_later_pixel(a, k, m, p);
    }
}

/// If the first `k` runs agree, `b` goes on where `a` does.
proof fn lemma_goes_on(a: Seq<Run>, b: Seq<Run>, k: int)
    requires
        ordered(a),
        ordered(b),
        forall|p: Pixel| #[trigger] covered(a)(p) <==> covered(b)(p),
        0 <= k < a.len(),
        forall|i: int| 0 <= i < k && i < b.len() ==> #[trigger] a[i] == b[i],
    ensures
        k < b.len(),
{
    let p = a[k].start();
    assert(a[k].c0 <= a[k].c1);
    assert(a[k].has(p));
    assert(covered(a)(p));
    assert(covered(b)(p));
    let m = choose|i: int| 0 <= i < b.len() && (#[trigger] b[i]).has(p);
    if m < k {
        assert(a[m] == b[m]);
        assert(run_before(a[m], a[k]));
    }
}

/// Run `k` of `b` does not end beyond run `k` of `a` that begins with it.
proof fn lemma_same_end(a: Seq<Run>, b: Seq<Run>, k: int)
    requires
        ordered(a),
        ordered(b),
        forall|p: Pixel| #[trigger] covered(a)(p) <==> covered(b)(p),
        0 <= k < a.len(),
        k < b.len(),
        a[k].row == b[k].row,
        a[k].c0 == b[k].c0,
    ensures
        b[k].c1 <= a[k].c1,
{
    assert(a[k].c0 <= a[k].c1);
    if b[k].c1 > a[k].c1 {
        let p: Pixel = (a[k].row as int, a[k].c1 + 1);
        assert(b[k].has(p));
        assert(covered(b)(p));
        assert(covered(a)(p));
        let m = choose|i: int| 0 <= i < a.len() && (#[trigger] a[i]).has(p);
        if m < k {
            assert(run_before(a[m], a[k]));
        } else if k < m {
            assert(run_before(a[k], a[m]));
        }
    }
}

proof fn lemma_runs_agree(a: Seq<Run>, b: Seq<Run>, k: int)
    requires
        ordered(a),
        ordered(b),
        forall|p: Pixel| #[trigger] covered(a)(p) <==> covered(b)(p),
        0 <= k <= a.len(),
    ensures
        k <= b.len(),
        forall|i: int| 0 <= i < k ==> #[trigger] a[i] == b[i],
    decreases k,
{
    if k > 0 {
        lemma_runs_agree(a, b, k - 1);
        lemma_goes_on(a, b, k - 1);
        lemma_same_start(a, b, k - 1);
        lemma_same_start(b, a, k - 1);
        lemma_same_end(a, b, k - 1);
        lemma_same_end(b, a, k - 1);
        assert(a[k - 1] == b[k - 1]);
    }
}

/// The runs of a set of lit pixels are determined by the set.
pub proof fn lemma_runs_unique(a: Seq<Run>, b: Seq<Run>)
    requires
        ordered(a),
        ordered(b),
        forall|p: Pixel| #[trigger] covered(a)(p) <==> covered(b)(p),
    ensures
        a == b,
{
    lemma_runs_agree(a, b, a.len() as int);
    lemma_runs_agree(b, a, b.len() as int);
    assert(a =~= b);
}

proof fn lemma_ids_agree(a: Seq<u32>, na: int, b: Seq<u32>, nb: int, i: int)
    requires
        first_appearance(a, na),
        first_appearance(b, nb),
        a.len() == b.len(),
        forall|x: int, y: int|
            0 <= x < a.len() && 0 <= y < a.len() ==> ((#[trigger] a[x] == #[trigger] a[y])
                <==> b[x] == b[y]),
        0 <= i <= a.len(),
    ensures
        forall|k: int| 0 <= k < i ==> #[trigger] a[k] == b[k],
    decreases i,
{
    if i > 0 {
        lemma_ids_agree(a, na, b, nb, i - 1);
        let k = i - 1;
        if a[k] < b[k] {
            assert(appears(b, a[k] as int, k));
            let j = choose|j: int| 0 <= j < k && #[trigger] b[j] == a[k];
            assert(a[j] == b[j]);
            assert(a[j] == a[k]);
            assert(b[j] == b[k]);
        } else if b[k] < a[k] {
            assert(appears(a, b[k] as int, k));
            let j = choose|j: int| 0 <= j < k && #[trigger] a[j] == b[k];
            assert(a[j] == b[j]);
            assert(a[j] == a[k]);
        }
    }
}

/// Two labellings of the same lit pixels are the same: runs, region ids and
/// region count. So a packed mask and a predicate that agree on every pixel
/// sweep to the same regions.
pub proof fn law_regions_determined(a: RunRegions, b: RunRegions, lit: LitSet)
    requires
        a.regions_of(lit),
        b.regions_of(lit),
    ensures
        a.runs@ == b.runs@,
        a.region_of_run@ == b.region_of_run@,
        a.n_regions == b.n_regions,
{
    assert forall|p: Pixel| #[trigger] covered(a.runs@)(p) <==> covered(b.runs@)(p) by {
        assert(covered(a.runs@)(p) <==> lit(p));
        assert(covered(b.runs@)(p) <==> lit(p));
    }
    lemma_runs_unique(a.runs@, b.runs@);
    let n = a.runs@.len() as int;
    let x = a.region_of_run@;
    let y = b.region_of_run@;
    assert forall|i: int, j: int| 0 <= i < x.len() && 0 <= j < x.len() implies ((#[trigger] x[i]
        == #[trigger] x[j]) <==> y[i] == y[j]) by {
        assert(x[i] == x[j] <==> runs_connected(a.runs@, i, j));
        assert(y[i] == y[j] <==> runs_connected(b.runs@, i, j));
    }
    lemma_ids_agree(x, a.n_regions as int, y, b.n_regions as int, n);
    assert(x =~= y);
    if a.n_regions < b.n_regions {
        assert(appears(y, a.n_regions as int, n));
    } else if b.n_regions < a.n_regions {
        assert(appears(x, b.n_regions as int, n));
    }
}

/// Regions are the 8-connected components: two lit pixels have the same region
/// id exactly when a walk over lit pixels leads from one to the other.
pub proof fn law_regions_are_components(out: RunRegions, lit: LitSet, p: Pixel, q: Pixel)
    requires
        out.regions_of(lit),
        lit(p),
        lit(q),
    ensures
        0 <= run_at(out.runs@, p) < out.runs@.len(),
        0 <= run_at(out.runs@, q) < out.runs@.len(),
        out.region_of_run@[run_at(out.runs@, p)] == out.region_of_run@[run_at(out.runs@, q)]
            <==> connected(lit, true, p, q),
{
    let runs = out.runs@;
    let cov = covered(runs);
    assert(cov(p) && cov(q));
    let i = run_at(runs, p);
    let j = run_at(runs, q);
    assert(runs[i].has(p) && runs[j].has(q));
    lemma_run_connected(runs, i, p);
    lemma_run_connected(runs, j, q);
    let a = runs[i].start();
    let b = runs[j].start();
    if connected(lit, true, p, q) {
        lemma_connected_grows(lit, cov, true, p, q);
        lemma_connected_sym(cov, true, b, q);
        lemma_connected_trans(cov, true, a, p, q);
        lemma_connected_trans(cov, true, a, q, b);
    }
    if connected(cov, true, a, b) {
        lemma_connected_sym(cov, true, a, p);
        lemma_connected_trans(cov, true, p, a, b);
        lemma_connected_trans(cov, true, p, b, q);
        lemma_connected_grows(cov, lit, true, p, q);
    }
    assert(out.region_of_run@[i] == out.region_of_run@[j] <==> runs_connected(runs, i, j));
}

/// Every lit pixel lies in exactly one run.
pub proof fn law_one_run_per_pixel(out: RunRegions, lit: LitSet, p: Pixel, i: int)
    requires
        out.regions_of(lit),
        0 <= i < out.runs@.len(),
    ensures
        lit(p) <==> covered(out.runs@)(p),
        out.runs@[i].has(p) <==> lit(p) && run_at(out.runs@, p) == i,
{
    assert(covered(out.runs@)(p) <==> lit(p));
    if out.runs@[i].has(p) {
        lemma_run_at(out.runs@, i, p);
    }
}

/// The two ends of a run are followed by dark pixels: runs are maximal.
pub proof fn law_runs_maximal(out: RunRegions, lit: LitSet, i: int)
    requires
        out.regions_of(lit),
        0 <= i < out.runs@.len(),
    ensures
        !lit((out.runs@[i].row as int, out.runs@[i].c0 - 1)),
        !lit((out.runs@[i].row as int, out.runs@[i].c1 + 1)),
{
    let runs = out.runs@;
    assert(runs[i].c0 <= runs[i].c1);
    let p: Pixel = (runs[i].row as int, runs[i].c0 - 1);
    let q: Pixel = (runs[i].row as int, runs[i].c1 + 1);
    assert(covered(runs)(p) <==> lit(p));
    assert(covered(runs)(q) <==> lit(q));
    if lit(p) {
        let j = choose|j: int| 0 <= j < runs.len() && (#[trigger] runs[j]).has(p);
        if j < i {
            assert(run_before(runs[j], runs[i]));
        } else if i < j {
            assert(run_before(runs[i], runs[j]));
        }
    }
    if lit(q) {
        let j = choose|j: int| 0 <= j < runs.len() && (#[trigger] runs[j]).has(q);
        if j < i {
            assert(run_before(runs[j], runs[i]));
        } else if i < j {
            assert(run_before(runs[i], runs[j]));
        }
    }
}

/// Grouping splits the runs: each run is listed in the group of its region and
/// in no other, and a group lists its runs in ascending order.
pub proof fn law_groups_partition(
    ids: Seq<u32>,
    n: int,
    offsets: Seq<u32>,
    order: Seq<u32>,
    i: int,
    k: int,
)
    requires
        grouped(ids, n, offsets, order),
        0 <= i < ids.len(),
        0 <= k < n,
    ensures
        group_of(offsets, order, k).contains(i) <==> ids[i] == k,
        forall|s: int, t: int|
            0 <= s < t < group_of(offsets, order, k).len() ==> #[trigger] group_of(
                offsets,
                order,
                k,
            )[s] < #[trigger] group_of(offsets, order, k)[t],
{
    lemma_members(ids, k, ids.len() as int);
    let g = group_of(offsets, order, k);
    assert(g == members(ids, k, ids.len() as int));
    if g.contains(i) {
        let t = choose|t: int| 0 <= t < g.len() && g[t] == i;
        assert(ids[members(ids, k, ids.len() as int)[t]] == k);
    }
}

/// A pixel of a listed run lies in the bounding box of the list, and each side
/// of the box holds a pixel of a listed run.
pub proof fn law_extent_bounds(e: RegionExtent, runs: Seq<Run>, list: Seq<u32>, t: int, p: Pixel)
    requires
        is_extent(e, runs, list),
        0 <= t < list.len(),
        runs[list[t] as int].has(p),
    ensures
        e.min_row <= p.0 <= e.max_row,
        e.min_col <= p.1 <= e.max_col,
        exists|s: int| 0 <= s < list.len() && e.min_row == runs[#[trigger] list[s] as int].row,
        exists|s: int| 0 <= s < list.len() && e.max_row == runs[#[trigger] list[s] as int].row,
        exists|s: int| 0 <= s < list.len() && e.min_col == runs[#[trigger] list[s] as int].c0,
        exists|s: int| 0 <= s < list.len() && e.max_col == runs[#[trigger] list[s] as int].c1,
{
    let row = |k: int| runs[list[k] as int].row as int;
    let first = |k: int| runs[list[k] as int].c0 as int;
    let last = |k: int| runs[list[k] as int].c1 as int;
    assert(e.min_row <= row(t) <= e.max_row);
    assert(e.min_col <= first(t));
    assert(last(t) <= e.max_col);
    let a = choose|k: int| 0 <= k < list.len() && e.min_row == #[trigger] row(k);
    let b = choose|k: int| 0 <= k < list.len() && e.max_row == #[trigger] row(k);
    let c = choose|k: int| 0 <= k < list.len() && e.min_col == #[trigger] first(k);
    let d = choose|k: int| 0 <= k < list.len() && e.max_col == #[trigger] last(k);
    assert(e.min_row == runs[list[a] as int].row);
    assert(e.max_row == runs[list[b] as int].row);
    assert(e.min_col == runs[list[c] as int].c0);
    assert(e.max_col == runs[list[d] as int].c1);
}

/// A larger margin clears no more regions.
pub proof fn law_margin_narrows(e: RegionExtent, small: int, large: int, w: int, h: int)
    requires
        0 <= small <= large,
        e.is_clear(large, w, h),
    ensures
        e.is_clear(small, w, h),
{
}

/// The pixels of the listed runs.
pub open spec fn listed_pixels(runs: Seq<Run>, list: Seq<u32>) -> Set<Pixel> {
    Set::new(
        |p: Pixel|
            exists|t: int| 0 <= t < list.len() && (#[trigger] runs[list[t] as int]).has(p),
    )
}

proof fn lemma_stretch(row: int, a: int, b: int)
    requires
        a <= b,
    ensures
        Set::new(|p: Pixel| p.0 == row && a <= p.1 < b).finite(),
        Set::new(|p: Pixel| p.0 == row && a <= p.1 < b).len() == b - a,
    decreases b - a,
{
    let s = Set::new(|p: Pixel| p.0 == row && a <= p.1 < b);
    if a == b {
        assert(s =~= Set::empty());
    } else {
        lemma_stretch(row, a, b - 1);
        let t = Set::new(|p: Pixel| p.0 == row && a <= p.1 < b - 1);
        assert(s =~= t.insert((row, b - 1)));
    }
}

/// The pixel count of a list of distinct runs is the number of their pixels.
pub proof fn law_pixel_count(runs: Seq<Run>, list: Seq<u32>)
    requires
        ordered(runs),
        forall|t: int| 0 <= t < list.len() ==> (#[trigger] list[t]) < runs.len(),
        forall|s: int, t: int|
            0 <= s < t < list.len() ==> #[trigger] list[s] != #[trigger] list[t],
    ensures
        listed_pixels(runs, list).finite(),
        listed_pixels(runs, list).len() == pixel_count(runs, list),
    decreases list.len(),
{
    let all = listed_pixels(runs, list);
    if list.len() == 0 {
        assert(all =~= Set::empty());
    } else {
        let head = list.drop_last();
        law_pixel_count(runs, head);
        let most = listed_pixels(runs, head);
        let run = runs[list.last() as int];
        assert(list[list.len() - 1] < runs.len());
        assert(run.c0 <= run.c1);
        lemma_stretch(run.row as int, run.c0 as int, run.c1 + 1);
        let rest = Set::new(|p: Pixel| p.0 == run.row && run.c0 <= p.1 < run.c1 + 1);
        assert forall|p: Pixel| #[trigger] all.contains(p) <==> most.contains(p) || rest.contains(
            p,
        ) by {
            if most.contains(p) {
                let t = choose|t: int|
                    0 <= t < head.len() && (#[trigger] runs[head[t] as int]).has(p);
                assert(runs[list[t] as int].has(p));
            }
            if rest.contains(p) {
                assert(runs[list[list.len() - 1] as int].has(p));
            }
            if all.contains(p) {
                let t = choose|t: int|
                    0 <= t < list.len() && (#[trigger] runs[list[t] as int]).has(p);
                if t < head.len() {
                    assert(runs[head[t] as int].has(p));
                }
            }
        }
        assert(all =~= most + rest);
        assert(most.disjoint(rest)) by {
            assert forall|p: Pixel| most.contains(p) && rest.contains(p) implies false by {
                let t = choose|t: int|
                    0 <= t < head.len() && (#[trigger] runs[head[t] as int]).has(p);
                assert(list[t] == head[t]);
                assert(run.has(p));
                lemma_run_at(runs, list[t] as int, p);
                lemma_run_at(runs, list.last() as int, p);
            }
        }
        lemma_set_disjoint_lens(most, rest);
    }
}

/// The pixels listed for region `k` are its lit pixels, and the extent counts
/// them.
pub proof fn law_extent_counts_region(
    out: RunRegions,
    lit: LitSet,
    offsets: Seq<u32>,
    order: Seq<u32>,
    k: int,
    e: RegionExtent,
)
    requires
        out.regions_of(lit),
        grouped(out.region_of_run@, out.n_regions as int, offsets, order),
        0 <= k < out.n_regions,
        is_extent(e, out.runs@, order.subrange(offsets[k] as int, offsets[k + 1] as int)),
    ensures
        listed_pixels(out.runs@, order.subrange(offsets[k] as int, offsets[k + 1] as int))
            =~= Set::new(
            |p: Pixel| lit(p) && out.region_of_run@[run_at(out.runs@, p)] == k,
        ),
        e.npix == Set::new(
            |p: Pixel| lit(p) && out.region_of_run@[run_at(out.runs@, p)] == k,
        ).len(),
{
    let ids = out.region_of_run@;
    let runs = out.runs@;
    let n = ids.len() as int;
    let list = order.subrange(offsets[k] as int, offsets[k + 1] as int);
    let g = group_of(offsets, order, k);
    assert(g == members(ids, k, n));
    assert(offsets[k] <= offsets[k + 1] <= offsets[out.n_regions as int]);
    lemma_members(ids, k, n);
    assert forall|t: int| 0 <= t < list.len() implies (#[trigger] list[t]) == g[t] && list[t]
        < runs.len() by {
        assert(g[t] == members(ids, k, n)[t]);
    }
    assert forall|s: int, t: int| 0 <= s < t < list.len() implies #[trigger] list[s]
        != #[trigger] list[t] by {
        assert(members(ids, k, n)[s] < members(ids, k, n)[t]);
    }
    law_pixel_count(runs, list);
    let region = Set::new(|p: Pixel| lit(p) && ids[run_at(runs, p)] == k);
    assert forall|p: Pixel| #[trigger] listed_pixels(runs, list).contains(p) <==> region.contains(
        p,
    ) by {
        assert(covered(runs)(p) <==> lit(p));
        if listed_pixels(runs, list).contains(p) {
            let t = choose|t: int| 0 <= t < list.len() && (#[trigger] runs[list[t] as int]).has(p);
            lemma_run_at(runs, list[t] as int, p);
            assert(ids[members(ids, k, n)[t]] == k);
        }
        if region.contains(p) {
            let i = run_at(runs, p);
            assert(runs[i].has(p));
            assert(members(ids, k, n).contains(i));
            let t = choose|t: int| 0 <= t < g.len() && g[t] == i;
            assert(list[t] == i);
            assert(runs[list[t] as int].has(p));
        }
    }
    assert(listed_pixels(runs, list) =~= region);
}

} // verus!
