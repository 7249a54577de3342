//! Run-length connected-region core shared by both extraction paths.
//!
//! A single raster sweep turns a detection mask into horizontal runs and merges
//! 8-connected runs across rows with union-find. The mask comes either as a
//! predicate ([`sweep_runs`]) or as packed bits ([`sweep_runs_mask`]), where the
//! work scales with the number of runs rather than pixels; both give the same
//! [`RunRegions`] for the same lit set.

use vstd::prelude::*;

use crate::connect::{
    adjacent, connected, constant_on_neighbours, lemma_connected_grows, lemma_connected_in_row,
    lemma_connected_refl, lemma_connected_same_class, lemma_connected_step, lemma_connected_sym,
    lemma_connected_trans, LitSet, Pixel,
};
use crate::union_find::{
    find, is_forest, lemma_add_label, lemma_no_labels, lemma_root, root, same_class,
    union,
};

verus! {

/// A horizontal run of lit pixels: columns `c0..=c1` of `row`.
#[derive(Clone, Copy, Debug, PartialEq, Eq, Structural)]
pub struct Run {
    pub row: u32,
    pub c0: u32,
    pub c1: u32,
}

impl Run {
    /// The run holds the pixel `p`.
    pub open spec fn has(self, p: Pixel) -> bool {
        p.0 == self.row && self.c0 <= p.1 <= self.c1
    }

    /// The leftmost pixel.
    pub open spec fn start(self) -> Pixel {
        (self.row as int, self.c0 as int)
    }

    /// Number of pixels.
    pub fn len(&self) -> (n: usize)
        requires
            self.c0 <= self.c1,
            self.c1 - self.c0 < u32::MAX,
        ensures
            n == self.c1 - self.c0 + 1,
    {
        (self.c1 - self.c0 + 1) as usize
    }
}

/// `a` comes before `b` in raster order, with a gap when they share a row.
pub open spec fn run_before(a: Run, b: Run) -> bool {
    a.row < b.row || (a.row == b.row && a.c1 + 1 < b.c0)
}

/// Non-empty runs in raster order, no two of one row touching.
pub open spec fn ordered(runs: Seq<Run>) -> bool {
    &&& forall|i: int| 0 <= i < runs.len() ==> (#[trigger] runs[i]).c0 <= runs[i].c1
    &&& forall|i: int, j: int|
        0 <= i < j < runs.len() ==> run_before(#[trigger] runs[i], #[trigger] runs[j])
}

/// The pixels that some run holds.
pub open spec fn covered(runs: Seq<Run>) -> LitSet {
    |p: Pixel| exists|i: int| 0 <= i < runs.len() && (#[trigger] runs[i]).has(p)
}

/// The runs lie in neighbouring rows and 8-connect.
pub open spec fn touching(a: Run, b: Run) -> bool {
    &&& a.row + 1 == b.row || b.row + 1 == a.row
    &&& a.c0 <= b.c1 + 1
    &&& b.c0 <= a.c1 + 1
}

/// The two runs hold pixels of one 8-connected region of the covered pixels.
pub open spec fn runs_connected(runs: Seq<Run>, i: int, j: int) -> bool {
    connected(covered(runs), true, runs[i].start(), runs[j].start())
}

/// Ids `0..n`, each in use, in order of first appearance.
pub open spec fn first_appearance(ids: Seq<u32>, n: int) -> bool {
    &&& 0 <= n <= ids.len()
    &&& forall|i: int| 0 <= i < ids.len() ==> (#[trigger] ids[i]) < n
    &&& forall|v: int| 0 <= v < n ==> #[trigger] appears(ids, v, ids.len() as int)
    &&& forall|i: int, v: int|
        0 <= i < ids.len() && 0 <= v < ids[i] ==> #[trigger] appears(ids, v, i)
}

/// The id `v` is among the first `n`.
pub open spec fn appears(ids: Seq<u32>, v: int, n: int) -> bool {
    exists|j: int| 0 <= j < n && #[trigger] ids[j] == v
}

/// Result of [`sweep_runs`] / [`sweep_runs_mask`]: the runs in row-major order,
/// each run's dense region id, and the region count. Region ids are assigned in
/// order of first appearance, so iterating regions is deterministic.
pub struct RunRegions {
    pub runs: Vec<Run>,
    pub region_of_run: Vec<u32>,
    pub n_regions: usize,
}

impl RunRegions {
    /// Ordered runs, labelled by the 8-connected regions of the pixels that
    /// they cover.
    pub open spec fn wf(self) -> bool {
        &&& ordered(self.runs@)
        &&& self.runs@.len() < u32::MAX
        &&& forall|i: int| 0 <= i < self.runs@.len() ==> (#[trigger] self.runs@[i]).c1 < u32::MAX
        &&& self.region_of_run@.len() == self.runs@.len()
        &&& first_appearance(self.region_of_run@, self.n_regions as int)
        &&& forall|i: int, j: int|
            0 <= i < self.runs@.len() && 0 <= j < self.runs@.len() ==> ((
            #[trigger] self.region_of_run@[i] == #[trigger] self.region_of_run@[j])
                <==> runs_connected(self.runs@, i, j))
    }

    /// The regions of the lit pixels `lit`, all of them and no others.
    pub open spec fn regions_of(self, lit: LitSet) -> bool {
        &&& self.wf()
        &&& forall|p: Pixel| #[trigger] covered(self.runs@)(p) <==> lit(p)
    }
}

/// A run of one row as the sweep lists it: first column, last column, label.
pub type RowEntry = (u32, u32, u32);

/// The two entries' columns overlap or are next to each other.
pub open spec fn columns_touch(a: RowEntry, b: RowEntry) -> bool {
    a.0 <= b.1 + 1 && b.0 <= a.1 + 1
}

/// A row's entries from left to right with gaps between, labels below `n`.
pub open spec fn row_entries(list: Seq<RowEntry>, n: int) -> bool {
    &&& forall|i: int|
        0 <= i < list.len() ==> (#[trigger] list[i]).0 <= list[i].1 && list[i].1 < u32::MAX
            && list[i].2 < n
    &&& forall|i: int, j: int|
        0 <= i < j < list.len() ==> (#[trigger] list[i]).1 + 1 < (#[trigger] list[j]).0
}

/// An equivalence on labels that holds the classes of `p` and every touching
/// pair of `cur` and `prev`.
pub open spec fn joins(
    rel: spec_fn(int, int) -> bool,
    p: Seq<u32>,
    cur: Seq<RowEntry>,
    prev: Seq<RowEntry>,
) -> bool {
    &&& within(rel, p)
    &&& forall|x: int, y: int| #[trigger] rel(x, y) ==> rel(y, x)
    &&& forall|x: int, y: int, z: int| #[trigger] rel(x, y) && #[trigger] rel(y, z) ==> rel(x, z)
    &&& forall|i: int, j: int|
        0 <= i < cur.len() && 0 <= j < prev.len() && columns_touch(
            #[trigger] cur[i],
            #[trigger] prev[j],
        ) ==> rel(cur[i].2 as int, prev[j].2 as int)
}

/// Labels of one class of `p` are related.
pub open spec fn within(rel: spec_fn(int, int) -> bool, p: Seq<u32>) -> bool {
    forall|x: int, y: int|
        0 <= x < p.len() && 0 <= y < p.len() && #[trigger] same_class(p, x, y) ==> rel(x, y)
}

proof fn lemma_within_after_union(
    rel: spec_fn(int, int) -> bool,
    start: Seq<u32>,
    cur: Seq<RowEntry>,
    prev: Seq<RowEntry>,
    p: Seq<u32>,
    q: Seq<u32>,
    a: int,
    b: int,
)
    requires
        joins(rel, start, cur, prev),
        is_forest(p),
        within(rel, p),
        rel(a, b),
        0 <= a < p.len(),
        0 <= b < p.len(),
        q.len() == p.len(),
        forall|i: int|
            0 <= i < p.len() ==> #[trigger] root(q, i) == (if root(p, i) == root(p, a) {
                root(p, b)
            } else {
                root(p, i)
            }),
    ensures
        within(rel, q),
{
    assert forall|x: int, y: int|
        0 <= x < q.len() && 0 <= y < q.len() && #[trigger] same_class(q, x, y) implies rel(
        x,
        y,
    ) by {
        assert(rel(b, a));
        if same_class(p, x, y) {
        } else if same_class(p, x, a) {
            assert(same_class(p, y, b));
            assert(same_class(p, b, y));
            assert(rel(x, a) && rel(a, b) && rel(x, b) && rel(b, y));
        } else {
            assert(same_class(p, y, a));
            assert(same_class(p, x, b));
            assert(same_class(p, a, y));
            assert(rel(x, b) && rel(b, a) && rel(x, a) && rel(a, y));
        }
    }
}

/// Union every current-row run with each 8-connected previous-row run. Both
/// lists are column-sorted, so a two-pointer sweep finds all overlaps. The
/// classes afterwards are those of the least equivalence that holds the old
/// classes and the touching pairs.
pub fn merge_rows(parents: &mut [u32], cur: &[RowEntry], prev: &[RowEntry])
    requires
        is_forest(old(parents)@),
        row_entries(cur@, old(parents)@.len() as int),
        row_entries(prev@, old(parents)@.len() as int),
    ensures
        is_forest(final(parents)@),
        final(parents)@.len() == old(parents)@.len(),
        forall|x: int, y: int|
            0 <= x < old(parents)@.len() && 0 <= y < old(parents)@.len() && same_class(
                old(parents)@,
                x,
                y,
            ) ==> #[trigger] same_class(final(parents)@, x, y),
        forall|i: int, j: int|
            0 <= i < cur@.len() && 0 <= j < prev@.len() && columns_touch(
                #[trigger] cur@[i],
                #[trigger] prev@[j],
            ) ==> same_class(final(parents)@, cur@[i].2 as int, prev@[j].2 as int),
        forall|rel: spec_fn(int, int) -> bool|
            #[trigger] joins(rel, old(parents)@, cur@, prev@) ==> within(rel, final(parents)@),
{
    let ghost start = parents@;
    let mut i: usize = 0;
    let mut j: usize = 0;
    while i < cur.len() && j < prev.len()
        invariant
            is_forest(parents@),
            parents@.len() == start.len(),
            row_entries(cur@, start.len() as int),
            row_entries(prev@, start.len() as int),
            0 <= i <= cur@.len(),
            0 <= j <= prev@.len(),
            forall|x: int, y: int|
                0 <= x < start.len() && 0 <= y < start.len() && same_class(start, x, y)
                    ==> #[trigger] same_class(parents@, x, y),
            forall|a: int, b: int|
                0 <= a < cur@.len() && 0 <= b < prev@.len() && (a < i || b < j) && columns_touch(
                    #[trigger] cur@[a],
                    #[trigger] prev@[b],
                ) ==> same_class(parents@, cur@[a].2 as int, prev@[b].2 as int),
            forall|rel: spec_fn(int, int) -> bool|
                #[trigger] joins(rel, start, cur@, prev@) ==> within(rel, parents@),
        decreases cur@.len() - i + prev@.len() - j,
    {
        let (cs, ce, cl) = cur[i];
        let (ps, pe, pl) = prev[j];
        let ghost before = parents@;
        if ce + 1 < ps {
            assert forall|b: int| j <= b < prev@.len() implies !columns_touch(
                cur@[i as int],
                #[trigger] prev@[b],
            ) by {
                if b > j {
                    assert(prev@[j as int].1 + 1 < prev@[b].0);
                }
            }
            i += 1;
        } else if pe + 1 < cs {
            assert forall|a: int| i <= a < cur@.len() implies !columns_touch(
                #[trigger] cur@[a],
                prev@[j as int],
            ) by {
                if a > i {
                    assert(cur@[i as int].1 + 1 < cur@[a].0);
                }
            }
            j += 1;
        } else {
            union(parents, cl, pl);
            proof {
                assert(columns_touch(cur@[i as int], prev@[j as int]));
                assert forall|rel: spec_fn(int, int) -> bool|
                    #[trigger] joins(rel, start, cur@, prev@) implies within(rel, parents@) by {
                    lemma_within_after_union(
                        rel,
                        start,
                        cur@,
                        prev@,
                        before,
                        parents@,
                        cl as int,
                        pl as int,
                    );
                }
                assert forall|x: int, y: int|
                    0 <= x < start.len() && 0 <= y < start.len() && same_class(
                        start,
                        x,
                        y,
                    ) implies #[trigger] same_class(parents@, x, y) by {
                    assert(same_class(before, x, y));
                }
                assert forall|a: int, b: int|
                    0 <= a < cur@.len() && 0 <= b < prev@.len() && (a < i || b < j)
                        && columns_touch(#[trigger] cur@[a], #[trigger] prev@[b]) implies same_class(
                    parents@,
                    cur@[a].2 as int,
                    prev@[b].2 as int,
                ) by {
                    assert(same_class(before, cur@[a].2 as int, prev@[b].2 as int));
                }
                assert(same_class(parents@, cl as int, pl as int));
            }
            if ce < pe {
                assert forall|b: int| j < b < prev@.len() implies !columns_touch(
                    cur@[i as int],
                    #[trigger] prev@[b],
                ) by {
                    assert(prev@[j as int].1 + 1 < prev@[b].0);
                }
                i += 1;
            } else {
                assert forall|a: int| i < a < cur@.len() implies !columns_touch(
                    #[trigger] cur@[a],
                    prev@[j as int],
                ) by {
                    assert(cur@[i as int].1 + 1 < cur@[a].0);
                }
                j += 1;
            }
        }
    }
}

/// `list` holds the runs from `runs[lo]` on, as many as it is long, all of row
/// `row`; the label of a run is its index.
pub open spec fn lists_row(list: Seq<RowEntry>, runs: Seq<Run>, lo: int, row: int) -> bool {
    &&& 0 <= lo
    &&& lo + list.len() <= runs.len()
    &&& forall|k: int|
        0 <= k < list.len() ==> #[trigger] list[k] == (
            runs[lo + k].c0,
            runs[lo + k].c1,
            (lo + k) as u32,
        ) && runs[lo + k].row == row
}

/// Each run is connected to the run that is its root.
pub open spec fn links_connected(parents: Seq<u32>, runs: Seq<Run>) -> bool {
    forall|i: int|
        0 <= i < runs.len() ==> runs_connected(runs, i, #[trigger] root(parents, i))
}

/// Touching runs of the rows before `rows` share their class.
pub open spec fn touching_joined(parents: Seq<u32>, runs: Seq<Run>, rows: int) -> bool {
    forall|i: int, j: int|
        0 <= i < runs.len() && 0 <= j < runs.len() && touching(
            #[trigger] runs[i],
            #[trigger] runs[j],
        ) && runs[i].row < rows && runs[j].row < rows ==> same_class(parents, i, j)
}

/// Union-find state shared by the sweeps: one provisional label per run
/// (label id == run index), rows merged with their predecessor as they
/// complete, roots compacted to dense region ids at the end.
pub struct Sweep {
    pub parents: Vec<u32>,
    pub runs: Vec<Run>,
    /// Runs of the previous row: (c0, c1, label).
    pub prev: Vec<(u32, u32, u32)>,
    /// Runs of the current row: (c0, c1, label).
    pub cur: Vec<(u32, u32, u32)>,
    /// Number of rows ended.
    pub rows: Ghost<int>,
}

impl Sweep {
    /// The state that the operations keep.
    pub open spec fn wf(self) -> bool {
        &&& self.shape()
        &&& is_forest(self.parents@)
        &&& links_connected(self.parents@, self.runs@)
        &&& touching_joined(self.parents@, self.runs@, self.rows@)
    }

    /// The runs in order and the two row lists their last entries.
    pub open spec fn shape(self) -> bool {
        &&& self.rows@ >= 0
        &&& self.parents@.len() == self.runs@.len()
        &&& self.runs@.len() <= u32::MAX
        &&& ordered(self.runs@)
        &&& forall|i: int| 0 <= i < self.runs@.len() ==> (#[trigger] self.runs@[i]).c1 < u32::MAX
        &&& lists_row(self.cur@, self.runs@, self.cur_start(), self.rows@)
        &&& lists_row(self.prev@, self.runs@, self.prev_start(), self.rows@ - 1)
        &&& forall|i: int|
            0 <= i < self.prev_start() ==> (#[trigger] self.runs@[i]).row < self.rows@ - 1
    }

    /// Index of the current row's first run.
    pub open spec fn cur_start(self) -> int {
        self.runs@.len() - self.cur@.len()
    }

    /// Index of the previous row's first run.
    pub open spec fn prev_start(self) -> int {
        self.runs@.len() - self.cur@.len() - self.prev@.len()
    }

    /// A sweep that has seen no row.
    pub fn new() -> (s: Self)
        ensures
            s.wf(),
            s.runs@.len() == 0,
            s.cur@.len() == 0,
            s.rows@ == 0,
    {
        let s = Self {
            parents: Vec::new(),
            runs: Vec::new(),
            prev: Vec::new(),
            cur: Vec::new(),
            rows: Ghost(0),
        };
        proof {
            lemma_no_labels();
            assert(s.parents@ =~= Seq::<u32>::empty());
        }
        s
    }

    /// Append the run `c0..=c1` of `row`. Rows must be pushed in order and
    /// runs left to right within a row.
    pub fn push_run(&mut self, row: usize, c0: usize, c1: usize)
        requires
            old(self).wf(),
            row == old(self).rows@,
            row <= u32::MAX,
            c0 <= c1,
            c1 < u32::MAX,
            old(self).runs@.len() < u32::MAX,
            old(self).cur@.len() > 0 ==> old(self).cur@.last().1 + 1 < c0,
        ensures
            final(self).wf(),
            final(self).rows@ == old(self).rows@,
            final(self).runs@ == old(self).runs@.push(
                (Run { row: row as u32, c0: c0 as u32, c1: c1 as u32 }),
            ),
            final(self).prev@ == old(self).prev@,
            final(self).cur@ == old(self).cur@.push(
                (c0 as u32, c1 as u32, old(self).runs@.len() as u32),
            ),
    {
        let ghost before = *self;
        let label = self.runs.len() as u32;
        self.parents.push(label);
        self.runs.push(Run { row: row as u32, c0: c0 as u32, c1: c1 as u32 });
        self.cur.push((c0 as u32, c1 as u32, label));
        proof {
            lemma_add_label(before.parents@);
            lemma_push_keeps_shape(before, *self);
            lemma_push_keeps_links(before.parents@, before.runs@, self.parents@, self.runs@);
            assert(touching_joined(self.parents@, self.runs@, self.rows@)) by {
                assert forall|i: int, j: int|
                    0 <= i < self.runs@.len() && 0 <= j < self.runs@.len() && touching(
                        #[trigger] self.runs@[i],
                        #[trigger] self.runs@[j],
                    ) && self.runs@[i].row < self.rows@ && self.runs@[j].row
                        < self.rows@ implies same_class(self.parents@, i, j) by {
                    assert(touching(before.runs@[i], before.runs@[j]));
                    assert(root(self.parents@, i) == root(before.parents@, i));
                    assert(root(self.parents@, j) == root(before.parents@, j));
                }
            }
        }
    }
}

proof fn lemma_push_keeps_shape(a: Sweep, b: Sweep)
    requires
        a.shape(),
        b.rows@ == a.rows@,
        b.parents@.len() == a.parents@.len() + 1,
        b.runs@.len() <= u32::MAX,
        b.runs@ == a.runs@.push(b.runs@.last()),
        b.runs@.len() == a.runs@.len() + 1,
        b.runs@.last().row == a.rows@,
        b.runs@.last().c0 <= b.runs@.last().c1,
        b.runs@.last().c1 < u32::MAX,
        a.cur@.len() > 0 ==> a.cur@.last().1 + 1 < b.runs@.last().c0,
        b.prev@ == a.prev@,
        b.cur@ == a.cur@.push(
            (b.runs@.last().c0, b.runs@.last().c1, a.runs@.len() as u32),
        ),
    ensures
        b.shape(),
{
    let n = a.runs@.len() as int;
    let new = b.runs@.last();
    assert forall|i: int| 0 <= i < n implies run_before(#[trigger] a.runs@[i], new) by {
        lemma_row_of_run(a, i);
        if i >= a.cur_start() {
            let last = a.cur@.len() - 1;
            assert(a.cur@[last] == a.cur@.last());
            assert(a.runs@[a.cur_start() + last] == a.runs@[n - 1]);
            if i < n - 1 {
                assert(run_before(a.runs@[i], a.runs@[n - 1]));
            }
        }
    }
    assert forall|i: int, j: int| 0 <= i < j < b.runs@.len() implies run_before(
        #[trigger] b.runs@[i],
        #[trigger] b.runs@[j],
    ) by {
        if j < n {
            assert(run_before(a.runs@[i], a.runs@[j]));
        } else {
            assert(run_before(a.runs@[i], new));
        }
    }
    assert(b.cur_start() == a.cur_start());
    assert(b.prev_start() == a.prev_start());
    assert forall|k: int| 0 <= k < b.cur@.len() implies #[trigger] b.cur@[k] == (
        b.runs@[b.cur_start() + k].c0,
        b.runs@[b.cur_start() + k].c1,
        (b.cur_start() + k) as u32,
    ) && b.runs@[b.cur_start() + k].row == b.rows@ by {
        if k < a.cur@.len() {
            assert(a.cur@[k] == b.cur@[k]);
        }
    }
    assert forall|k: int| 0 <= k < b.prev@.len() implies #[trigger] b.prev@[k] == (
        b.runs@[b.prev_start() + k].c0,
        b.runs@[b.prev_start() + k].c1,
        (b.prev_start() + k) as u32,
    ) && b.runs@[b.prev_start() + k].row == b.rows@ - 1 by {
        assert(a.prev@[k] == b.prev@[k]);
    }
    assert forall|i: int| 0 <= i < b.runs@.len() implies (#[trigger] b.runs@[i]).c0
        <= b.runs@[i].c1 && b.runs@[i].c1 < u32::MAX by {
        if i < n {
            assert(a.runs@[i] == b.runs@[i]);
        }
    }
}

/// Where a run of the sweep stands: an earlier row, the previous or the current.
proof fn lemma_row_of_run(s: Sweep, i: int)
    requires
        s.shape(),
        0 <= i < s.runs@.len(),
    ensures
        i < s.prev_start() ==> s.runs@[i].row < s.rows@ - 1,
        s.prev_start() <= i < s.cur_start() ==> s.runs@[i].row == s.rows@ - 1
            && s.prev@[i - s.prev_start()] == (s.runs@[i].c0, s.runs@[i].c1, i as u32),
        s.cur_start() <= i ==> s.runs@[i].row == s.rows@ && s.cur@[i - s.cur_start()] == (
            s.runs@[i].c0,
            s.runs@[i].c1,
            i as u32,
        ),
{
    if i >= s.cur_start() {
        let k = i - s.cur_start();
        assert(s.cur@[k] == s.cur@[k]);
    } else if i >= s.prev_start() {
        let k = i - s.prev_start();
        assert(s.prev@[k] == s.prev@[k]);
    }
}

proof fn lemma_push_keeps_links(p: Seq<u32>, runs: Seq<Run>, q: Seq<u32>, more: Seq<Run>)
    requires
        is_forest(p),
        p.len() == runs.len(),
        links_connected(p, runs),
        more.len() == runs.len() + 1,
        more == runs.push(more.last()),
        more.last().c0 <= more.last().c1,
        forall|i: int| 0 <= i < p.len() ==> #[trigger] root(q, i) == root(p, i),
        root(q, p.len() as int) == p.len(),
    ensures
        links_connected(q, more),
{
    assert forall|x: Pixel| #[trigger] covered(runs)(x) implies covered(more)(x) by {
        let i = choose|i: int| 0 <= i < runs.len() && (#[trigger] runs[i]).has(x);
        assert(more[i].has(x));
    }
    assert forall|i: int| 0 <= i < more.len() implies runs_connected(
        more,
        i,
        #[trigger] root(q, i),
    ) by {
        if i < runs.len() {
            lemma_root(p, i);
            assert(runs_connected(runs, i, root(p, i)));
            lemma_connected_grows(
                covered(runs),
                covered(more),
                true,
                runs[i].start(),
                runs[root(p, i)].start(),
            );
        } else {
            assert(more[i].has(more[i].start()));
            lemma_connected_refl(covered(more), true, more[i].start());
        }
    }
}

/// The pixels of a run are connected to its start.
pub proof fn lemma_run_connected(runs: Seq<Run>, i: int, p: Pixel)
    requires
        0 <= i < runs.len(),
        runs[i].has(p),
    ensures
        connected(covered(runs), true, runs[i].start(), p),
{
    let row = runs[i].row as int;
    assert forall|c: int| runs[i].c0 <= c <= p.1 implies #[trigger] covered(runs)((row, c)) by {
        assert(runs[i].has((row, c)));
    }
    lemma_connected_in_row(covered(runs), true, row, runs[i].c0 as int, p.1);
}

/// Touching runs are connected.
proof fn lemma_touching_connected(runs: Seq<Run>, i: int, j: int)
    requires
        0 <= i < runs.len(),
        0 <= j < runs.len(),
        runs[i].c0 <= runs[i].c1,
        runs[j].c0 <= runs[j].c1,
        touching(runs[i], runs[j]),
    ensures
        runs_connected(runs, i, j),
{
    let a = runs[i];
    let b = runs[j];
    let ca: int = if a.c0 >= b.c0 {
        a.c0 as int
    } else if b.c0 <= a.c1 {
        b.c0 as int
    } else {
        a.c1 as int
    };
    let cb: int = if b.c0 >= a.c0 {
        b.c0 as int
    } else if a.c0 <= b.c1 {
        a.c0 as int
    } else {
        b.c1 as int
    };
    let p: Pixel = (a.row as int, ca);
    let q: Pixel = (b.row as int, cb);
    let lit = covered(runs);
    assert(a.has(p) && b.has(q));
    lemma_run_connected(runs, i, p);
    lemma_run_connected(runs, j, q);
    assert(runs[i].has(p) && runs[j].has(q));
    lemma_connected_step(lit, true, p, q);
    lemma_connected_sym(lit, true, b.start(), q);
    lemma_connected_trans(lit, true, a.start(), p, q);
    lemma_connected_trans(lit, true, a.start(), q, b.start());
}

/// The index of the run that holds `p`.
pub open spec fn run_at(runs: Seq<Run>, p: Pixel) -> int {
    choose|i: int| 0 <= i < runs.len() && (#[trigger] runs[i]).has(p)
}

/// At most one run holds a pixel.
pub proof fn lemma_run_at(runs: Seq<Run>, i: int, p: Pixel)
    requires
        ordered(runs),
        0 <= i < runs.len(),
        runs[i].has(p),
    ensures
        run_at(runs, p) == i,
{
    let j = run_at(runs, p);
    assert(0 <= j < runs.len() && runs[j].has(p));
    if i < j {
        assert(run_before(runs[i], runs[j]));
    } else if j < i {
        assert(run_before(runs[j], runs[i]));
    }
}

/// Once every row is merged, classes are connected regions.
proof fn lemma_classes_are_regions(p: Seq<u32>, runs: Seq<Run>, rows: int, i: int, j: int)
    requires
        is_forest(p),
        p.len() == runs.len(),
        ordered(runs),
        links_connected(p, runs),
        touching_joined(p, runs, rows),
        forall|k: int| 0 <= k < runs.len() ==> (#[trigger] runs[k]).row < rows,
        0 <= i < runs.len(),
        0 <= j < runs.len(),
    ensures
        same_class(p, i, j) <==> runs_connected(runs, i, j),
{
    let lit = covered(runs);
    if same_class(p, i, j) {
        lemma_root(p, i);
        let r = root(p, i);
        assert(runs_connected(runs, i, root(p, i)));
        assert(runs_connected(runs, j, root(p, j)));
        lemma_connected_sym(lit, true, runs[j].start(), runs[r].start());
        lemma_connected_trans(lit, true, runs[i].start(), runs[r].start(), runs[j].start());
    }
    if runs_connected(runs, i, j) {
        let class = |x: Pixel| root(p, run_at(runs, x));
        assert(constant_on_neighbours(lit, true, class)) by {
            assert forall|x: Pixel, y: Pixel|
                lit(x) && lit(y) && #[trigger] adjacent(true, x, y) implies class(x) == class(
                y,
            ) by {
                let a = choose|k: int| 0 <= k < runs.len() && (#[trigger] runs[k]).has(x);
                let b = choose|k: int| 0 <= k < runs.len() && (#[trigger] runs[k]).has(y);
                lemma_run_at(runs, a, x);
                lemma_run_at(runs, b, y);
                if x.0 == y.0 {
                    if a < b {
                        assert(run_before(runs[a], runs[b]));
                    } else if b < a {
                        assert(run_before(runs[b], runs[a]));
                    }
                } else {
                    assert(touching(runs[a], runs[b]));
                    assert(same_class(p, a, b));
                }
            }
        }
        lemma_connected_same_class(lit, true, class, runs[i].start(), runs[j].start());
        lemma_run_at(runs, i, runs[i].start());
        lemma_run_at(runs, j, runs[j].start());
    }
}

/// The row lists are rows of entries.
proof fn lemma_row_lists(s: Sweep)
    requires
        s.shape(),
    ensures
        row_entries(s.cur@, s.runs@.len() as int),
        row_entries(s.prev@, s.runs@.len() as int),
{
    let n = s.runs@.len() as int;
    assert forall|i: int| 0 <= i < s.cur@.len() implies (#[trigger] s.cur@[i]).0 <= s.cur@[i].1
        && s.cur@[i].1 < u32::MAX && s.cur@[i].2 < n by {
        let r = s.runs@[s.cur_start() + i];
        assert(r.c0 <= r.c1);
    }
    assert forall|i: int, j: int| 0 <= i < j < s.cur@.len() implies (#[trigger] s.cur@[i]).1 + 1 < (
    #[trigger] s.cur@[j]).0 by {
        assert(run_before(s.runs@[s.cur_start() + i], s.runs@[s.cur_start() + j]));
    }
    assert forall|i: int| 0 <= i < s.prev@.len() implies (#[trigger] s.prev@[i]).0 <= s.prev@[i].1
        && s.prev@[i].1 < u32::MAX && s.prev@[i].2 < n by {
        let r = s.runs@[s.prev_start() + i];
        assert(r.c0 <= r.c1);
    }
    assert forall|i: int, j: int| 0 <= i < j < s.prev@.len() implies (#[trigger] s.prev@[i]).1 + 1
        < (#[trigger] s.prev@[j]).0 by {
        assert(run_before(s.runs@[s.prev_start() + i], s.runs@[s.prev_start() + j]));
    }
}

/// Merging the two last rows keeps every link connected.
proof fn lemma_merge_keeps_links(s: Sweep, q: Seq<u32>)
    requires
        s.wf(),
        is_forest(q),
        q.len() == s.parents@.len(),
        forall|rel: spec_fn(int, int) -> bool|
            #[trigger] joins(rel, s.parents@, s.cur@, s.prev@) ==> within(rel, q),
    ensures
        links_connected(q, s.runs@),
{
    let runs = s.runs@;
    let lit = covered(runs);
    let rel = |x: int, y: int| runs_connected(runs, x, y);
    assert(joins(rel, s.parents@, s.cur@, s.prev@)) by {
        assert forall|x: int, y: int|
            0 <= x < s.parents@.len() && 0 <= y < s.parents@.len() && #[trigger] same_class(
                s.parents@,
                x,
                y,
            ) implies rel(x, y) by {
            lemma_root(s.parents@, x);
            let r = root(s.parents@, x);
            assert(runs_connected(runs, x, root(s.parents@, x)));
            assert(runs_connected(runs, y, root(s.parents@, y)));
            lemma_connected_sym(lit, true, runs[y].start(), runs[r].start());
            lemma_connected_trans(lit, true, runs[x].start(), runs[r].start(), runs[y].start());
        }
        assert forall|x: int, y: int| #[trigger] rel(x, y) implies rel(y, x) by {
            lemma_connected_sym(lit, true, runs[x].start(), runs[y].start());
        }
        assert forall|x: int, y: int, z: int| #[trigger] rel(x, y) && #[trigger] rel(
            y,
            z,
        ) implies rel(x, z) by {
            lemma_connected_trans(lit, true, runs[x].start(), runs[y].start(), runs[z].start());
        }
        assert forall|i: int, j: int|
            0 <= i < s.cur@.len() && 0 <= j < s.prev@.len() && columns_touch(
                #[trigger] s.cur@[i],
                #[trigger] s.prev@[j],
            ) implies rel(s.cur@[i].2 as int, s.prev@[j].2 as int) by {
            let a = s.cur_start() + i;
            let b = s.prev_start() + j;
            assert(runs[a].c0 <= runs[a].c1 && runs[b].c0 <= runs[b].c1);
            lemma_touching_connected(runs, a, b);
        }
    }
    assert forall|i: int| 0 <= i < runs.len() implies runs_connected(
        runs,
        i,
        #[trigger] root(q, i),
    ) by {
        lemma_root(q, i);
        assert(same_class(q, i, root(q, i)));
        assert(rel(i, root(q, i)));
    }
}

/// Merging the two last rows joins the touching runs up to the current row.
proof fn lemma_merge_joins_touching(s: Sweep, q: Seq<u32>)
    requires
        s.wf(),
        q.len() == s.parents@.len(),
        forall|x: int, y: int|
            0 <= x < s.parents@.len() && 0 <= y < s.parents@.len() && same_class(s.parents@, x, y)
                ==> #[trigger] same_class(q, x, y),
        forall|i: int, j: int|
            0 <= i < s.cur@.len() && 0 <= j < s.prev@.len() && columns_touch(
                #[trigger] s.cur@[i],
                #[trigger] s.prev@[j],
            ) ==> same_class(q, s.cur@[i].2 as int, s.prev@[j].2 as int),
    ensures
        touching_joined(q, s.runs@, s.rows@ + 1),
{
    let runs = s.runs@;
    assert forall|i: int, j: int|
        0 <= i < runs.len() && 0 <= j < runs.len() && touching(
            #[trigger] runs[i],
            #[trigger] runs[j],
        ) && runs[i].row < s.rows@ + 1 && runs[j].row < s.rows@ + 1 implies same_class(
        q,
        i,
        j,
    ) by {
        lemma_row_of_run(s, i);
        lemma_row_of_run(s, j);
        if runs[i].row < s.rows@ && runs[j].row < s.rows@ {
            assert(same_class(s.parents@, i, j));
        } else if runs[i].row == s.rows@ {
            assert(columns_touch(s.cur@[i - s.cur_start()], s.prev@[j - s.prev_start()]));
        } else {
            assert(columns_touch(s.cur@[j - s.cur_start()], s.prev@[i - s.prev_start()]));
        }
    }
}

impl Sweep {
    /// Merge the current row's runs with 8-connected runs of the previous
    /// row, then make it the previous row.
    pub fn end_row(&mut self)
        requires
            old(self).wf(),
        ensures
            final(self).wf(),
            final(self).rows@ == old(self).rows@ + 1,
            final(self).runs@ == old(self).runs@,
            final(self).prev@ == old(self).cur@,
            final(self).cur@.len() == 0,
    {
        let ghost before = *self;
        proof {
            lemma_row_lists(before);
        }
        merge_rows(&mut self.parents, &self.cur, &self.prev);
        proof {
            lemma_merge_keeps_links(before, self.parents@);
            lemma_merge_joins_touching(before, self.parents@);
        }
        std::mem::swap(&mut self.prev, &mut self.cur);
        self.cur.clear();
        self.rows = Ghost(self.rows@ + 1);
        proof {
            assert(self.prev_start() == before.cur_start());
            assert forall|i: int| 0 <= i < self.prev_start() implies (#[trigger] self.runs@[i]).row
                < self.rows@ - 1 by {
                lemma_row_of_run(before, i);
            }
        }
    }

    /// Resolve roots and compact them to dense region ids in
    /// first-appearance (row-major) order.
    pub fn finish(self) -> (out: RunRegions)
        requires
            self.wf(),
            self.cur@.len() == 0,
            self.runs@.len() < u32::MAX,
        ensures
            out.wf(),
            out.runs@ == self.runs@,
    {
        let Self { mut parents, runs, .. } = self;
        let ghost start = parents@;
        let n = runs.len();
        let mut region_of_run: Vec<u32> = vec![0u32; n];
        let mut id_of_root: Vec<u32> = vec![u32::MAX; parents.len()];
        let mut n_regions: usize = 0;
        let mut i: usize = 0;
        while i < n
            invariant
                0 <= i <= n,
                n == runs@.len(),
                n <= u32::MAX,
                start.len() == n,
                parents@.len() == n,
                region_of_run@.len() == n,
                id_of_root@.len() == n,
                is_forest(start),
                is_forest(parents@),
                forall|k: int| 0 <= k < n ==> #[trigger] root(parents@, k) == root(start, k),
                ids_in_progress(start, region_of_run@, id_of_root@, n_regions as int, i as int),
            decreases n - i,
        {
            let root_i = find(&mut parents, i as u32) as usize;
            let ghost ids = region_of_run@;
            let ghost table = id_of_root@;
            let ghost count = n_regions as int;
            if id_of_root[root_i] == u32::MAX {
                id_of_root[root_i] = n_regions as u32;
                n_regions += 1;
            }
            region_of_run[i] = id_of_root[root_i];
            proof {
                lemma_ids_step(
                    start,
                    ids,
                    table,
                    count,
                    region_of_run@,
                    id_of_root@,
                    n_regions as int,
                    i as int,
                );
            }
            i += 1;
        }
        let out = RunRegions { runs, region_of_run, n_regions };
        proof {
            assert forall|a: int, b: int|
                0 <= a < out.runs@.len() && 0 <= b < out.runs@.len() implies ((
            #[trigger] out.region_of_run@[a] == #[trigger] out.region_of_run@[b])
                <==> runs_connected(out.runs@, a, b)) by {
                assert forall|k: int| 0 <= k < self.runs@.len() implies (#[trigger] self.runs@[k]).row
                    < self.rows@ by {
                    lemma_row_of_run(self, k);
                }
                lemma_classes_are_regions(start, self.runs@, self.rows@, a, b);
            }
        }
        out
    }
}

/// The ids handed out to the first `i` labels: one per root, numbered in order
/// of first appearance; `table` holds the id of each root met so far.
pub open spec fn ids_in_progress(
    p: Seq<u32>,
    ids: Seq<u32>,
    table: Seq<u32>,
    count: int,
    i: int,
) -> bool {
    &&& 0 <= count <= i
    &&& forall|k: int| 0 <= k < i ==> (#[trigger] ids[k]) < count
    &&& forall|a: int, b: int|
        0 <= a < i && 0 <= b < i ==> ((#[trigger] ids[a] == #[trigger] ids[b]) <==> same_class(
            p,
            a,
            b,
        ))
    &&& forall|v: int| 0 <= v < count ==> #[trigger] appears(ids, v, i)
    &&& forall|k: int, v: int| 0 <= k < i && 0 <= v < ids[k] ==> #[trigger] appears(ids, v, k)
    &&& forall|k: int| 0 <= k < i ==> table[#[trigger] root(p, k)] == ids[k]
    &&& forall|r: int|
        0 <= r < p.len() && #[trigger] table[r] != u32::MAX ==> exists|k: int|
            0 <= k < i && #[trigger] root(p, k) == r
}

proof fn lemma_ids_step(
    p: Seq<u32>,
    ids: Seq<u32>,
    table: Seq<u32>,
    count: int,
    ids2: Seq<u32>,
    table2: Seq<u32>,
    count2: int,
    i: int,
)
    requires
        is_forest(p),
        p.len() <= u32::MAX,
        0 <= i < p.len(),
        ids.len() == p.len(),
        table.len() == p.len(),
        ids_in_progress(p, ids, table, count, i),
        if table[root(p, i)] == u32::MAX {
            &&& table2 == table.update(root(p, i), count as u32)
            &&& count2 == count + 1
            &&& ids2 == ids.update(i, count as u32)
        } else {
            &&& table2 == table
            &&& count2 == count
            &&& ids2 == ids.update(i, table[root(p, i)])
        },
    ensures
        ids_in_progress(p, ids2, table2, count2, i + 1),
{
    let r = root(p, i);
    lemma_root(p, i);
    assert forall|v: int, k: int| 0 <= k <= i && #[trigger] appears(ids, v, k) implies appears(
        ids2,
        v,
        k,
    ) && appears(ids2, v, i + 1) by {
        let j = choose|j: int| 0 <= j < k && #[trigger] ids[j] == v;
        assert(ids2[j] == v);
    }
    if table[r] == u32::MAX {
        assert forall|k: int| 0 <= k < i implies #[trigger] root(p, k) != r by {
            if root(p, k) == r {
                assert(table[root(p, k)] == ids[k]);
            }
        }
        assert(ids2[i] == count);
        assert(appears(ids2, count, i + 1));
        assert(root(p, i) == r);
        assert forall|k: int| 0 <= k < i + 1 implies table2[#[trigger] root(p, k)] == ids2[k] by {
            if k < i {
                lemma_root(p, k);
                assert(table[root(p, k)] == ids[k]);
            }
        }
        assert forall|k: int, v: int| 0 <= k < i + 1 && 0 <= v < ids2[k] implies #[trigger] appears(
            ids2,
            v,
            k,
        ) by {
            if k < i {
                assert(appears(ids, v, k));
            } else {
                assert(appears(ids, v, i));
            }
        }
    } else {
        let k0 = choose|k: int| 0 <= k < i && #[trigger] root(p, k) == r;
        assert(table[root(p, k0)] == ids[k0]);
        assert(ids2[i] == ids[k0]);
        assert forall|v: int| 0 <= v < ids[k0] implies #[trigger] appears(ids, v, i) by {
            assert(appears(ids, v, k0));
        }
        assert forall|k: int, v: int| 0 <= k < i + 1 && 0 <= v < ids2[k] implies #[trigger] appears(
            ids2,
            v,
            k,
        ) by {
            if k < i {
                assert(appears(ids, v, k));
            } else {
                assert(appears(ids, v, i));
            }
        }
        assert forall|a: int, b: int| 0 <= a < i + 1 && 0 <= b < i + 1 implies ((#[trigger] ids2[a]
            == #[trigger] ids2[b]) <==> same_class(p, a, b)) by {
            let a2 = if a == i {
                k0
            } else {
                a
            };
            let b2 = if b == i {
                k0
            } else {
                b
            };
            assert(ids[a2] == ids2[a] && ids[b2] == ids2[b]);
        }
    }
    assert forall|v: int| 0 <= v < count2 implies #[trigger] appears(ids2, v, i + 1) by {
        if v < count {
            assert(appears(ids, v, i));
        }
    }
    assert forall|x: int| 0 <= x < p.len() && #[trigger] table2[x] != u32::MAX implies exists|k: int|
        0 <= k < i + 1 && #[trigger] root(p, k) == x by {
        if x == r {
            assert(root(p, i) == x);
        } else {
            assert(table[x] != u32::MAX);
        }
    }
}

/// The sweep `s`, begun on its current row as `s0`, has read the columns below
/// `d` of a row whose lit columns are `lit`: their runs are pushed, and the
/// last of them ends with a dark column below `d`.
pub open spec fn swept(s: Sweep, s0: Sweep, lit: spec_fn(int) -> bool, d: int) -> bool {
    &&& s.wf()
    &&& s.rows@ == s0.rows@
    &&& s.prev@ == s0.prev@
    &&& s.cur_start() == s0.runs@.len()
    &&& s.cur@.len() > 0 ==> s.cur@.last().1 + 1 < d
    &&& forall|p: Pixel| #[trigger]
        covered(s.runs@)(p) <==> covered(s0.runs@)(p) || (p.0 == s0.rows@ && 0 <= p.1 < d && lit(
            p.1,
        ))
}

/// Dark columns may be skipped.
pub proof fn lemma_swept_dark(s: Sweep, s0: Sweep, lit: spec_fn(int) -> bool, d: int, e: int)
    requires
        swept(s, s0, lit, d),
        d <= e,
        forall|c: int| d <= c < e ==> !#[trigger] lit(c),
    ensures
        swept(s, s0, lit, e),
{
    assert forall|p: Pixel| #[trigger] covered(s.runs@)(p) <==> covered(s0.runs@)(p) || (p.0
        == s0.rows@ && 0 <= p.1 < e && lit(p.1)) by {
        if d <= p.1 < e {
            assert(!lit(p.1));
        }
    }
}

/// The pixels covered with one more run.
pub proof fn lemma_covered_push(runs: Seq<Run>, run: Run, p: Pixel)
    ensures
        covered(runs.push(run))(p) <==> covered(runs)(p) || run.has(p),
{
    let more = runs.push(run);
    if covered(runs)(p) {
        let i = choose|i: int| 0 <= i < runs.len() && (#[trigger] runs[i]).has(p);
        assert(more[i].has(p));
    }
    if run.has(p) {
        assert(more[runs.len() as int].has(p));
    }
    if covered(more)(p) {
        let i = choose|i: int| 0 <= i < more.len() && (#[trigger] more[i]).has(p);
        if i < runs.len() {
            assert(runs[i].has(p));
        }
    }
}

/// A pushed run moves the sweep past it and the dark column behind it.
pub proof fn lemma_swept_push(
    before: Sweep,
    s: Sweep,
    s0: Sweep,
    lit: spec_fn(int) -> bool,
    a: int,
    b: int,
)
    requires
        swept(before, s0, lit, a),
        0 <= a <= b < u32::MAX,
        0 <= s0.rows@ <= u32::MAX,
        forall|c: int| a <= c <= b ==> #[trigger] lit(c),
        !lit(b + 1),
        s.wf(),
        s.rows@ == before.rows@,
        s.prev@ == before.prev@,
        s.runs@ == before.runs@.push(
            (Run { row: s0.rows@ as u32, c0: a as u32, c1: b as u32 }),
        ),
        s.cur@ == before.cur@.push((a as u32, b as u32, before.runs@.len() as u32)),
    ensures
        swept(s, s0, lit, b + 2),
{
    let run = Run { row: s0.rows@ as u32, c0: a as u32, c1: b as u32 };
    assert forall|p: Pixel| #[trigger] covered(s.runs@)(p) <==> covered(s0.runs@)(p) || (p.0
        == s0.rows@ && 0 <= p.1 < b + 2 && lit(p.1)) by {
        lemma_covered_push(before.runs@, run, p);
        assert(covered(before.runs@)(p) <==> covered(s0.runs@)(p) || (p.0 == s0.rows@ && 0 <= p.1
            < a && lit(p.1)));
        if a <= p.1 <= b {
            assert(lit(p.1));
        }
    }
}

/// The runs of the row end on lit columns.
pub proof fn lemma_swept_end(s: Sweep, s0: Sweep, lit: spec_fn(int) -> bool, d: int)
    requires
        swept(s, s0, lit, d),
        s0.shape(),
        s0.cur@.len() == 0,
        s.cur@.len() > 0,
    ensures
        lit(s.cur@.last().1 as int),
{
    let n = s.runs@.len() - 1;
    lemma_row_of_run(s, n);
    let p: Pixel = (s.rows@, s.runs@[n].c1 as int);
    assert(s.runs@[n].c0 <= s.runs@[n].c1);
    assert(s.runs@[n].has(p));
    assert(covered(s.runs@)(p));
    if covered(s0.runs@)(p) {
        let i = choose|i: int| 0 <= i < s0.runs@.len() && (#[trigger] s0.runs@[i]).has(p);
        lemma_row_of_run(s0, i);
    }
}

/// Number of columns below `n` of a row that begin a run.
pub open spec fn run_starts(row: spec_fn(int) -> bool, n: int) -> int
    decreases n,
{
    if n <= 0 {
        0
    } else {
        run_starts(row, n - 1) + (if row(n - 1) && (n == 1 || !row(n - 2)) {
            1int
        } else {
            0
        })
    }
}

/// The lit columns of row `r`.
pub open spec fn row_of(lit: LitSet, r: int) -> spec_fn(int) -> bool {
    |c: int| lit((r, c))
}

/// Number of runs in the first `h` rows of an image that is `w` wide.
pub open spec fn run_count(lit: LitSet, w: int, h: int) -> int
    decreases h,
{
    if h <= 0 {
        0
    } else {
        run_count(lit, w, h - 1) + run_starts(row_of(lit, h - 1), w)
    }
}

/// Every run of a `w` by `h` image gets a 32-bit label of its own.
pub open spec fn runs_fit(lit: LitSet, w: int, h: int) -> bool {
    &&& 0 <= w <= u32::MAX
    &&& 0 <= h <= u32::MAX
    &&& run_count(lit, w, h) < u32::MAX
}

/// More columns begin more runs, but at most every other one does.
pub proof fn lemma_starts_grow(row: spec_fn(int) -> bool, a: int, b: int)
    requires
        0 <= a <= b,
    ensures
        0 <= run_starts(row, a) <= run_starts(row, b),
        2 * run_starts(row, b) <= b + 1,
    decreases b,
{
    if b > 0 {
        lemma_starts_grow(row, 0, b - 1);
        if a < b {
            lemma_starts_grow(row, a, b - 1);
        }
        if b > 1 {
            lemma_starts_grow(row, 0, b - 2);
        }
    }
}

/// The starts below `n` depend on the columns below `n` alone.
pub proof fn lemma_starts_alike(a: spec_fn(int) -> bool, b: spec_fn(int) -> bool, n: int)
    requires
        forall|c: int| 0 <= c < n ==> #[trigger] a(c) == b(c),
    ensures
        run_starts(a, n) == run_starts(b, n),
    decreases n,
{
    if n > 0 {
        lemma_starts_alike(a, b, n - 1);
        assert(a(n - 1) == b(n - 1));
        if n > 1 {
            assert(a(n - 2) == b(n - 2));
        }
    }
}

/// Dark columns begin nothing.
pub proof fn lemma_starts_dark(row: spec_fn(int) -> bool, n: int, d: int)
    requires
        0 <= n <= d,
        forall|c: int| n <= c < d ==> !#[trigger] row(c),
    ensures
        run_starts(row, d) == run_starts(row, n),
    decreases d,
{
    if n < d {
        lemma_starts_dark(row, n, d - 1);
        assert(!row(d - 1));
    }
}

/// More rows hold more runs.
pub proof fn lemma_count_grows(lit: LitSet, w: int, a: int, b: int)
    requires
        0 <= w,
        0 <= a <= b,
    ensures
        0 <= run_count(lit, w, a) <= run_count(lit, w, b),
    decreases b,
{
    if b > 0 {
        lemma_starts_grow(row_of(lit, b - 1), 0, w);
        lemma_count_grows(lit, w, 0, b - 1);
        if a < b {
            lemma_count_grows(lit, w, a, b - 1);
        }
    }
}

/// The runs of the first `h` rows depend on those rows alone.
pub proof fn lemma_count_alike(a: LitSet, b: LitSet, w: int, h: int)
    requires
        forall|r: int, c: int| 0 <= r < h && 0 <= c < w ==> #[trigger] a((r, c)) == b((r, c)),
    ensures
        run_count(a, w, h) == run_count(b, w, h),
    decreases h,
{
    if h > 0 {
        lemma_count_alike(a, b, w, h - 1);
        let (ra, rb) = (row_of(a, h - 1), row_of(b, h - 1));
        assert forall|c: int| 0 <= c < w implies #[trigger] ra(c) == rb(c) by {
            assert(a((h - 1, c)) == b((h - 1, c)));
        }
        lemma_starts_alike(ra, rb, w);
    }
}

/// The run that listed entry `k` of the current row stands for begins on a lit
/// column, behind a dark one.
proof fn lemma_entry_starts(s: Sweep, s0: Sweep, lit: spec_fn(int) -> bool, d: int, k: int)
    requires
        swept(s, s0, lit, d),
        s0.shape(),
        s0.cur@.len() == 0,
        0 <= k < s.cur@.len(),
    ensures
        0 <= s.cur@[k].0 < d,
        lit(s.cur@[k].0 as int),
        s.cur@[k].0 > 0 ==> !lit(s.cur@[k].0 - 1),
{
    let i = s.cur_start() + k;
    lemma_row_of_run(s, i);
    lemma_row_lists(s);
    let last = s.cur@.len() - 1;
    if k < last {
        assert(s.cur@[k].1 + 1 < s.cur@[last].0);
    }
    let run = s.runs@[i];
    assert(run.c0 <= run.c1);
    let p: Pixel = run.start();
    assert(run.has(p));
    assert(covered(s.runs@)(p));
    if covered(s0.runs@)(p) {
        let j = choose|j: int| 0 <= j < s0.runs@.len() && (#[trigger] s0.runs@[j]).has(p);
        lemma_row_of_run(s0, j);
    }
    if run.c0 > 0 && lit(run.c0 - 1) {
        let q: Pixel = (s.rows@, run.c0 - 1);
        assert(covered(s.runs@)(q));
        let j = choose|j: int| 0 <= j < s.runs@.len() && (#[trigger] s.runs@[j]).has(q);
        if j < i {
            assert(run_before(s.runs@[j], s.runs@[i]));
        } else if i < j {
            assert(run_before(s.runs@[i], s.runs@[j]));
        }
    }
}

proof fn lemma_entries_start(s: Sweep, s0: Sweep, lit: spec_fn(int) -> bool, d: int, k: int)
    requires
        swept(s, s0, lit, d),
        s0.shape(),
        s0.cur@.len() == 0,
        0 <= k < s.cur@.len(),
    ensures
        k + 1 <= run_starts(lit, s.cur@[k].0 + 1),
    decreases k,
{
    lemma_entry_starts(s, s0, lit, d, k);
    let c0 = s.cur@[k].0 as int;
    lemma_starts_grow(lit, 0, c0);
    if k > 0 {
        lemma_entries_start(s, s0, lit, d, k - 1);
        lemma_row_lists(s);
        assert(s.cur@[k - 1].1 + 1 < s.cur@[k].0);
        lemma_starts_grow(lit, s.cur@[k - 1].0 + 1, c0);
    }
}

/// A row has no more entries than columns that begin a run.
pub proof fn lemma_row_count(s: Sweep, s0: Sweep, lit: spec_fn(int) -> bool, d: int)
    requires
        swept(s, s0, lit, d),
        s0.shape(),
        s0.cur@.len() == 0,
        0 <= d,
    ensures
        s.cur@.len() <= run_starts(lit, d),
{
    lemma_starts_grow(lit, 0, d);
    if s.cur@.len() > 0 {
        let k = s.cur@.len() - 1;
        lemma_entries_start(s, s0, lit, d, k);
        lemma_entry_starts(s, s0, lit, d, k);
        lemma_starts_grow(lit, s.cur@[k].0 + 1, d);
    }
}

/// A run that begins where the sweep stands is one more than the entries.
pub proof fn lemma_row_room(s: Sweep, s0: Sweep, lit: spec_fn(int) -> bool, d: int, n: int)
    requires
        swept(s, s0, lit, d),
        s0.shape(),
        s0.cur@.len() == 0,
        0 <= d < n,
        lit(d),
    ensures
        s.cur@.len() + 1 <= run_starts(lit, n),
{
    lemma_row_count(s, s0, lit, d);
    if d > 0 && lit(d - 1) {
        let q: Pixel = (s.rows@, d - 1);
        assert(covered(s.runs@)(q)) by {
            assert(covered(s.runs@)(q) <==> covered(s0.runs@)(q) || (q.0 == s0.rows@ && 0 <= q.1
                < d && lit(q.1)));
        }
        let j = choose|j: int| 0 <= j < s.runs@.len() && (#[trigger] s.runs@[j]).has(q);
        lemma_row_of_run(s, j);
        let last = s.runs@.len() - 1;
        lemma_row_of_run(s, last);
        if j < last {
            assert(run_before(s.runs@[j], s.runs@[last]));
        }
    }
    lemma_starts_grow(lit, d + 1, n);
}

/// The lit pixels inside a `w` by `h` image.
pub open spec fn clipped(lit: LitSet, w: int, h: int) -> LitSet {
    |p: Pixel| 0 <= p.0 < h && 0 <= p.1 < w && lit(p)
}

/// `lit` may answer `m` for the pixel in row `r` and column `c`.
pub open spec fn answers<F: Fn(usize, usize) -> bool>(
    lit: F,
    m: LitSet,
    r: usize,
    c: usize,
) -> bool {
    call_ensures(lit, (r, c), m((r as int, c as int)))
}

/// `out` are the regions of some pixels that `lit` may answer.
pub open spec fn is_sweep<F: Fn(usize, usize) -> bool>(
    lit: F,
    w: usize,
    h: usize,
    out: RunRegions,
) -> bool {
    exists|m: LitSet|
        {
            &&& forall|r: usize, c: usize| r < h && c < w ==> #[trigger] answers(lit, m, r, c)
            &&& #[trigger] out.regions_of(clipped(m, w as int, h as int))
        }
}

/// Every run of a `w` by `h` image gets a label of its own: at most every
/// other column of a row begins one.
pub open spec fn labels_suffice(w: int, h: int) -> bool {
    &&& 0 <= w <= u32::MAX
    &&& 0 <= h <= u32::MAX
    &&& h * ((w + 1) / 2) < u32::MAX
}

/// Where the size alone leaves labels enough, every set of lit pixels does.
pub proof fn law_size_suffices(lit: LitSet, w: int, h: int)
    requires
        labels_suffice(w, h),
    ensures
        runs_fit(lit, w, h),
{
    lemma_count_bounded(lit, w, h);
}

proof fn lemma_count_bounded(lit: LitSet, w: int, h: int)
    requires
        0 <= w,
        0 <= h,
    ensures
        run_count(lit, w, h) <= h * ((w + 1) / 2),
    decreases h,
{
    let half = (w + 1) / 2;
    if h > 0 {
        lemma_count_bounded(lit, w, h - 1);
        lemma_starts_grow(row_of(lit, h - 1), 0, w);
        assert((h - 1) * half + half == h * half) by (nonlinear_arith);
    }
}

/// `lit` may answer `m` for the pixels that come before column `c` of row `r`
/// in raster order, and `m` holds no others.
pub open spec fn answers_before<F: Fn(usize, usize) -> bool>(
    lit: F,
    m: LitSet,
    w: usize,
    r: int,
    c: int,
) -> bool {
    &&& forall|i: usize, j: usize|
        j < w && (i < r || (i == r && j < c)) ==> #[trigger] answers(lit, m, i, j)
    &&& forall|p: Pixel| #[trigger]
        m(p) ==> 0 <= p.0 && 0 <= p.1 < w && (p.0 < r || (p.0 == r && p.1 < c))
}

/// However `lit` answers, and however far it has been asked, every run gets a
/// 32-bit label of its own.
pub open spec fn answers_fit<F: Fn(usize, usize) -> bool>(lit: F, w: usize, h: usize) -> bool {
    &&& w <= u32::MAX
    &&& h <= u32::MAX
    &&& forall|m: LitSet, r: int, c: int|
        0 <= r < h && 0 <= c <= w && #[trigger] answers_before(lit, m, w, r, c) ==> run_count(
            m,
            w as int,
            h as int,
        ) < u32::MAX
}

/// A set of pixels has at least the runs of what a raster scan has met of it.
proof fn lemma_count_before(part: LitSet, all: LitSet, w: int, h: int, r: int, c: int)
    requires
        0 <= h,
        0 <= c <= w,
        forall|p: Pixel|
            0 <= p.0 < h && 0 <= p.1 < w && (p.0 < r || (p.0 == r && p.1 < c)) ==> #[trigger] part(
                p,
            ) == all(p),
        forall|p: Pixel| #[trigger] part(p) ==> p.0 < r || (p.0 == r && p.1 < c),
    ensures
        run_count(part, w, h) <= run_count(all, w, h),
    decreases h,
{
    if h > 0 {
        lemma_count_before(part, all, w, h - 1, r, c);
        let (x, y) = (row_of(part, h - 1), row_of(all, h - 1));
        let n = if h - 1 < r {
            w
        } else if h - 1 == r {
            c
        } else {
            0
        };
        assert forall|j: int| 0 <= j < n implies #[trigger] x(j) == y(j) by {
            assert(part((h - 1, j)) == all((h - 1, j)));
        }
        assert forall|j: int| n <= j < w implies !#[trigger] x(j) by {
            if part((h - 1, j)) {
            }
        }
        lemma_starts_alike(x, y, n);
        lemma_starts_dark(x, n, w);
        lemma_starts_grow(y, n, w);
    }
}

/// A predicate that answers `m` and nothing else needs labels for the runs of
/// `m` alone.
pub proof fn law_settled_answers_fit<F: Fn(usize, usize) -> bool>(
    lit: F,
    m: LitSet,
    w: usize,
    h: usize,
)
    requires
        runs_fit(m, w as int, h as int),
        forall|r: usize, c: usize, b: bool|
            r < h && c < w && #[trigger] call_ensures(lit, (r, c), b) ==> b == m(
                (r as int, c as int),
            ),
    ensures
        answers_fit(lit, w, h),
{
    assert forall|part: LitSet, r: int, c: int|
        0 <= r < h && 0 <= c <= w && #[trigger] answers_before(lit, part, w, r, c) implies run_count(
        part,
        w as int,
        h as int,
    ) < u32::MAX by {
        assert forall|p: Pixel|
            0 <= p.0 < h && 0 <= p.1 < w && (p.0 < r || (p.0 == r && p.1 < c)) implies #[trigger] part(
            p,
        ) == m(p) by {
            assert(p == (p.0, p.1));
            assert(answers(lit, part, p.0 as usize, p.1 as usize));
        }
        lemma_count_before(part, m, w as int, h as int, r, c);
    }
}

/// Ending a row that was read to its end.
pub proof fn lemma_row_done(
    s: Sweep,
    s0: Sweep,
    row: spec_fn(int) -> bool,
    lit: LitSet,
    w: int,
    h: int,
    d: int,
)
    requires
        swept(s, s0, row, d),
        w <= d,
        0 <= s0.rows@ < h,
        forall|c: int| #[trigger] row(c) <==> clipped(lit, w, h)((s0.rows@, c)),
        forall|p: Pixel| #[trigger]
            covered(s0.runs@)(p) <==> p.0 < s0.rows@ && clipped(lit, w, h)(p),
    ensures
        forall|p: Pixel| #[trigger]
            covered(s.runs@)(p) <==> p.0 < s0.rows@ + 1 && clipped(lit, w, h)(p),
{
    assert forall|p: Pixel| #[trigger] covered(s.runs@)(p) <==> p.0 < s0.rows@ + 1 && clipped(
        lit,
        w,
        h,
    )(p) by {
        if p.0 == s0.rows@ {
            assert(p == (s0.rows@, p.1));
            assert(row(p.1) <==> clipped(lit, w, h)((s0.rows@, p.1)));
        }
    }
}

/// The runs of the rows through `r`, of which `m` took the earlier ones over
/// from `m0`.
proof fn lemma_count_through(
    m0: LitSet,
    m: LitSet,
    w: int,
    r: int,
    h: int,
    row: spec_fn(int) -> bool,
)
    requires
        0 <= w,
        0 <= r < h,
        forall|p: Pixel| p.0 < r ==> #[trigger] m(p) == m0(p),
        forall|c: int| 0 <= c < w ==> (#[trigger] row(c) <==> m((r, c))),
    ensures
        run_count(m, w, r + 1) == run_count(m0, w, r) + run_starts(row, w),
        run_count(m, w, r + 1) <= run_count(m, w, h),
{
    lemma_count_alike(m, m0, w, r);
    let own = row_of(m, r);
    assert forall|c: int| 0 <= c < w implies #[trigger] own(c) == row(c) by {
        assert(row(c) <==> m((r, c)));
    }
    lemma_starts_alike(own, row, w);
    lemma_count_grows(m, w, r + 1, h);
}

/// Run-length 8-connected labeling over `lit(row, col)`.
///
/// The predicate is called exactly once per pixel in raster order.
pub fn sweep_runs<F: Fn(usize, usize) -> bool>(w: usize, h: usize, lit: F) -> (out: RunRegions)
    requires
        answers_fit(lit, w, h),
        forall|r: usize, c: usize| r < h && c < w ==> #[trigger] call_requires(lit, (r, c)),
    ensures
        exists|m: LitSet|
            {
                &&& forall|r: usize, c: usize| r < h && c < w ==> #[trigger] answers(lit, m, r, c)
                &&& #[trigger] out.regions_of(clipped(m, w as int, h as int))
            },
        is_sweep(lit, w, h, out),
{
    let mut sweep = Sweep::new();
    let ghost mut m: LitSet = |p: Pixel| false;
    let mut r: usize = 0;
    while r < h
        invariant
            answers_fit(lit, w, h),
            0 <= r <= h,
            forall|i: usize, j: usize| i < h && j < w ==> #[trigger] call_requires(lit, (i, j)),
            forall|i: usize, j: usize| i < r && j < w ==> #[trigger] answers(lit, m, i, j),
            sweep.wf(),
            sweep.rows@ == r,
            sweep.cur@.len() == 0,
            sweep.runs@.len() <= run_count(m, w as int, r as int),
            forall|p: Pixel| #[trigger] m(p) ==> 0 <= p.0 < r && 0 <= p.1 < w,
            forall|p: Pixel| #[trigger]
                covered(sweep.runs@)(p) <==> p.0 < r && clipped(m, w as int, h as int)(p),
        decreases h - r,
    {
        let ghost s0 = sweep;
        let ghost m0 = m;
        let mut start: Option<usize> = None;
        let mut c: usize = 0;
        while c < w
            invariant
                answers_fit(lit, w, h),
                0 <= r < h,
                0 <= c <= w,
                s0.rows@ == r,
                s0.wf(),
                s0.cur@.len() == 0,
                s0.runs@.len() <= run_count(m0, w as int, r as int),
                forall|i: usize, j: usize| i < h && j < w ==> #[trigger] call_requires(lit, (i, j)),
                forall|i: usize, j: usize| i < r && j < w ==> #[trigger] answers(lit, m, i, j),
                forall|j: usize| j < c ==> #[trigger] answers(lit, m, r, j),
                forall|p: Pixel| p.0 < r ==> #[trigger] m(p) == m0(p),
                forall|p: Pixel| #[trigger]
                    m(p) ==> 0 <= p.0 && 0 <= p.1 < w && (p.0 < r || (p.0 == r && p.1 < c)),
                start matches Some(s) ==> s < c,
                forall|j: int|
                    (match start {
                        Some(s) => s as int,
                        None => c as int,
                    }) <= j < c ==> #[trigger] m((r as int, j)),
                swept(
                    sweep,
                    s0,
                    |j: int| 0 <= j < w && m((r as int, j)),
                    match start {
                        Some(s) => s as int,
                        None => c as int,
                    },
                ),
            decreases w - c,
        {
            let lit_here: bool = lit(r, c);
            let ghost row_before = |j: int| 0 <= j < w && m((r as int, j));
            let ghost m1: LitSet = |p: Pixel|
                if p == (r as int, c as int) {
                    lit_here
                } else {
                    m(p)
                };
            let ghost row = |j: int| 0 <= j < w && m1((r as int, j));
            let ghost d: int = match start {
                Some(s) => s as int,
                None => c as int,
            };
            proof {
                assert forall|i: usize, j: usize| i < r && j < w implies #[trigger] answers(
                    lit,
                    m1,
                    i,
                    j,
                ) by {
                    assert(answers(lit, m, i, j));
                }
                assert forall|j: usize| j < c + 1 implies #[trigger] answers(lit, m1, r, j) by {
                    if j < c {
                        assert(answers(lit, m, r, j));
                    }
                }
                assert(swept(sweep, s0, row, d)) by {
                    assert forall|p: Pixel| #[trigger] covered(sweep.runs@)(p) <==> covered(
                        s0.runs@,
                    )(p) || (p.0 == s0.rows@ && 0 <= p.1 < d && row(p.1)) by {
                        if 0 <= p.1 < d {
                            assert(row_before(p.1) == row(p.1));
                        }
                    }
                }
            }
            if lit_here {
                if start.is_none() {
                    start = Some(c);
                }
            } else if let Some(s) = start {
                start = None;
                proof {
                    assert(m((r as int, s as int)));
                    assert(row(s as int));
                    lemma_row_room(sweep, s0, row, s as int, w as int);
                    assert(answers_before(lit, m1, w, r as int, c + 1));
                    lemma_count_through(m0, m1, w as int, r as int, h as int, row);
                }
                let ghost before = sweep;
                sweep.push_run(r, s, c - 1);
                proof {
                    assert forall|j: int| s <= j <= c - 1 implies #[trigger] row(j) by {
                        assert(m((r as int, j)));
                    }
                    lemma_swept_push(before, sweep, s0, row, s as int, c - 1);
                }
            } else {
                proof {
                    lemma_swept_dark(sweep, s0, row, c as int, c + 1);
                }
            }
            proof {
                m = m1;
            }
            c += 1;
        }
        let ghost row = |j: int| 0 <= j < w && m((r as int, j));
        let ghost mut d: int = w as int;
        if let Some(s) = start {
            proof {
                assert(m((r as int, s as int)));
                assert(row(s as int));
                lemma_row_room(sweep, s0, row, s as int, w as int);
                assert(answers_before(lit, m, w, r as int, w as int));
                lemma_count_through(m0, m, w as int, r as int, h as int, row);
            }
            let ghost before = sweep;
            sweep.push_run(r, s, w - 1);
            proof {
                assert forall|j: int| s <= j <= w - 1 implies #[trigger] row(j) by {
                    assert(m((r as int, j)));
                }
                lemma_swept_push(before, sweep, s0, row, s as int, w - 1);
                d = w + 1;
            }
        }
        proof {
            lemma_row_count(sweep, s0, row, d);
            lemma_starts_dark(row, w as int, d);
            lemma_count_through(m0, m, w as int, r as int, h as int, row);
            assert forall|p: Pixel| #[trigger] covered(s0.runs@)(p) <==> p.0 < s0.rows@ && clipped(
                m,
                w as int,
                h as int,
            )(p) by {
                if p.0 < r {
                    assert(m(p) == m0(p));
                }
            }
            lemma_row_done(sweep, s0, row, m, w as int, h as int, d);
            assert forall|i: usize, j: usize| i < r + 1 && j < w implies #[trigger] answers(
                lit,
                m,
                i,
                j,
            ) by {
                if i == r {
                    assert(answers(lit, m, r, j));
                }
            }
        }
        sweep.end_row();
        r += 1;
    }
    proof {
        if h > 0 {
            assert(answers_before(lit, m, w, h - 1, w as int));
        }
    }
    let out = sweep.finish();
    assert(out.regions_of(clipped(m, w as int, h as int)));
    out
}

/// A sweep by a predicate finds what the predicate says: it is asked for the row and
/// the column of a pixel, a pixel that is in a run is one for which it may say yes,
/// any other of the image one for which it may say no; outside there is none.
pub proof fn law_sweep_finds_what_is_lit<F: Fn(usize, usize) -> bool>(
    w: usize,
    h: usize,
    lit: F,
    out: RunRegions,
    r: usize,
    c: usize,
)
    requires
        call_ensures(sweep_runs::<F>, (w, h, lit), out),
    ensures
        covered(out.runs@)((r as int, c as int)) ==> r < h && c < w && call_ensures(
            lit,
            (r, c),
            true,
        ),
        r < h && c < w && !covered(out.runs@)((r as int, c as int)) ==> call_ensures(
            lit,
            (r, c),
            false,
        ),
{
    assert(is_sweep(lit, w, h, out));
    let m = choose|m: LitSet|
        {
            &&& forall|i: usize, j: usize| i < h && j < w ==> #[trigger] answers(lit, m, i, j)
            &&& #[trigger] out.regions_of(clipped(m, w as int, h as int))
        };
    assert(out.regions_of(clipped(m, w as int, h as int)));
    let p: Pixel = (r as int, c as int);
    assert(covered(out.runs@)(p) <==> clipped(m, w as int, h as int)(p));
    if r < h && c < w {
        assert(answers(lit, m, r, c));
    }
}

} // verus!
