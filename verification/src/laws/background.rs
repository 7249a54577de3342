//! Background grids, surfaces and noise.

use vstd::arithmetic::div_mod::{
    lemma_fundamental_div_mod, lemma_fundamental_div_mod_converse_mod,
    lemma_mod_sub_multiples_vanish, lemma_small_mod,
};
use vstd::prelude::*;

use crate::background::{
    block_samples, ceil_div, cell_before, coarse_background, corner_lattice,
    estimate_local_background, inner_cell, is_block_grid, is_surface, keeps, lemma_ceil_div,
    low_half, min_int, noise_samples, row_samples, rows_samples, BackgroundGrid, Corners, Deviation,
    Edges, Lattice,
};
use crate::ieee::{law_total_rank, F32};
use crate::noise::{
    are_residuals, clips_to, estimate_background, finite_only, is_background, is_residual,
    lattice_points, not_below, round, row_points, NO_NOISE,
};
use crate::stats::{is_median, is_midpoint, law_midpoint_of_sorted, ranks, Median};

verus! {

/// A pixel is sampled by a lattice in blocks of `block` pixels. On a staggered
/// lattice, every `stride`-th row and column of the image, the columns one further
/// from row to row; else every `stride`-th row and column of the block.
pub open spec fn is_sampled(lattice: Lattice, block: int, r: int, c: int) -> bool {
    let s = lattice.stride as int;
    if lattice.staggered {
        r % s == 0 && c % s == (r / s) % s
    } else {
        (r % block) % s == 0 && (c % block) % s == 0
    }
}

/// A pixel counts: it is finite and, where zeros are ignored, not zero.
pub open spec fn counts(lattice: Lattice, v: F32) -> bool {
    v.finite() && (lattice.nonzero ==> v.rank() != 0)
}

/// One step further along a row of steps.
proof fn lemma_step(x: int, c: int, s: int)
    requires
        s > 0,
        x <= c,
    ensures
        (c - x) % s == 0 <==> c == x || (c >= x + s && (c - (x + s)) % s == 0),
{
    let d = c - x;
    lemma_mod_sub_multiples_vanish(d, s);
    assert((d - s) % s == d % s);
    if d == 0 {
        lemma_small_mod(0, s as nat);
    } else if d < s {
        lemma_small_mod(d as nat, s as nat);
    }
}

/// Column `c` of row `y` has the value `v`, is one of `x`, `x + s`, ... below `x1`
/// and is kept.
spec fn in_row(
    pixels: Seq<F32>,
    w: int,
    y: int,
    x: int,
    x1: int,
    s: int,
    nonzero: bool,
    c: int,
    v: F32,
) -> bool {
    &&& x <= c < x1
    &&& (c - x) % s == 0
    &&& keeps(v, nonzero)
    &&& pixels[y * w + c] == v
}

proof fn lemma_row_sample(
    pixels: Seq<F32>,
    w: int,
    y: int,
    x: int,
    x1: int,
    s: int,
    nonzero: bool,
    v: F32,
)
    requires
        s > 0,
    ensures
        row_samples(pixels, w, y, x, x1, s, nonzero).contains(v) <==> exists|c: int| #[trigger]
            in_row(pixels, w, y, x, x1, s, nonzero, c, v),
    decreases x1 + s - x,
{
    let all = row_samples(pixels, w, y, x, x1, s, nonzero);
    if x < x1 {
        let rest = row_samples(pixels, w, y, x + s, x1, s, nonzero);
        lemma_row_sample(pixels, w, y, x + s, x1, s, nonzero, v);
        let here = pixels[y * w + x];
        let off: int = if keeps(here, nonzero) {
            1
        } else {
            0
        };
        lemma_step(x, x, s);
        if all.contains(v) {
            let i = choose|i: int| 0 <= i < all.len() && all[i] == v;
            if i < off {
                assert(in_row(pixels, w, y, x, x1, s, nonzero, x, v));
            } else {
                assert(all[i] == rest[i - off]);
                assert(rest.contains(v));
                let c = choose|c: int| #[trigger]
                    in_row(pixels, w, y, x + s, x1, s, nonzero, c, v);
                lemma_step(x, c, s);
                assert(in_row(pixels, w, y, x, x1, s, nonzero, c, v));
            }
        }
        if exists|c: int| #[trigger] in_row(pixels, w, y, x, x1, s, nonzero, c, v) {
            let c = choose|c: int| #[trigger] in_row(pixels, w, y, x, x1, s, nonzero, c, v);
            lemma_step(x, c, s);
            if c == x {
                assert(all[0] == v);
            } else {
                assert(in_row(pixels, w, y, x + s, x1, s, nonzero, c, v));
                let i = choose|i: int| 0 <= i < rest.len() && rest[i] == v;
                assert(all[i + off] == rest[i]);
            }
        }
    } else {
        assert(forall|c: int| !(#[trigger] in_row(pixels, w, y, x, x1, s, nonzero, c, v)));
    }
}

/// A pixel of the rows `y`, `y + stride`, ... below `y1` that is sampled in its row
/// has the value `v` and is kept.
spec fn in_rows(
    pixels: Seq<F32>,
    w: int,
    lattice: Lattice,
    y: int,
    y1: int,
    x0: int,
    x1: int,
    r: int,
    c: int,
    v: F32,
) -> bool {
    let s = lattice.stride as int;
    &&& y <= r < y1
    &&& (r - y) % s == 0
    &&& in_row(pixels, w, r, lattice.first_col(r, x0), x1, s, lattice.nonzero, c, v)
}

proof fn lemma_rows_sample(
    pixels: Seq<F32>,
    w: int,
    lattice: Lattice,
    y: int,
    y1: int,
    x0: int,
    x1: int,
    v: F32,
)
    requires
        lattice.stride > 0,
    ensures
        rows_samples(pixels, w, lattice, y, y1, x0, x1).contains(v) <==> exists|r: int, c: int|
            #[trigger] in_rows(pixels, w, lattice, y, y1, x0, x1, r, c, v),
    decreases y1 + lattice.stride - y,
{
    let s = lattice.stride as int;
    let all = rows_samples(pixels, w, lattice, y, y1, x0, x1);
    if y < y1 {
        let x = lattice.first_col(y, x0);
        let row = row_samples(pixels, w, y, x, x1, s, lattice.nonzero);
        let rest = rows_samples(pixels, w, lattice, y + s, y1, x0, x1);
        lemma_row_sample(pixels, w, y, x, x1, s, lattice.nonzero, v);
        lemma_rows_sample(pixels, w, lattice, y + s, y1, x0, x1, v);
        lemma_step(y, y, s);
        if all.contains(v) {
            let i = choose|i: int| 0 <= i < all.len() && all[i] == v;
            if i < row.len() {
                assert(row[i] == v);
                let c = choose|c: int| #[trigger]
                    in_row(pixels, w, y, x, x1, s, lattice.nonzero, c, v);
                assert(in_rows(pixels, w, lattice, y, y1, x0, x1, y, c, v));
            } else {
                assert(rest[i - row.len()] == v);
                let (r, c) = choose|r: int, c: int| #[trigger]
                    in_rows(pixels, w, lattice, y + s, y1, x0, x1, r, c, v);
                lemma_step(y, r, s);
                assert(in_rows(pixels, w, lattice, y, y1, x0, x1, r, c, v));
            }
        }
        if exists|r: int, c: int| #[trigger]
            in_rows(pixels, w, lattice, y, y1, x0, x1, r, c, v) {
            let (r, c) = choose|r: int, c: int| #[trigger]
                in_rows(pixels, w, lattice, y, y1, x0, x1, r, c, v);
            lemma_step(y, r, s);
            if r == y {
                assert(in_row(pixels, w, y, x, x1, s, lattice.nonzero, c, v));
                let i = choose|i: int| 0 <= i < row.len() && row[i] == v;
                assert(all[i] == row[i]);
            } else {
                assert(in_rows(pixels, w, lattice, y + s, y1, x0, x1, r, c, v));
                let i = choose|i: int| 0 <= i < rest.len() && rest[i] == v;
                assert(all[i + row.len()] == rest[i]);
            }
        }
    } else {
        assert(forall|r: int, c: int| !(#[trigger]
            in_rows(pixels, w, lattice, y, y1, x0, x1, r, c, v)));
    }
}

/// From the first number at or after `from` with remainder `p`, steps lead to all
/// others.
proof fn lemma_from_first(from: int, first: int, p: int, s: int, r: int)
    requires
        s > 0,
        0 <= p < s,
        first == from + (p + s - from % s) % s,
    ensures
        r >= first && (r - first) % s == 0 <==> r >= from && r % s == p,
        first % s == p,
        from <= first < from + s,
{
    let q = from % s;
    lemma_fundamental_div_mod(from, s);
    let d = (p + s - q) % s;
    assert(0 <= q < s);
    if p >= q {
        lemma_mod_sub_multiples_vanish(p + s - q, s);
        lemma_small_mod((p - q) as nat, s as nat);
        assert(d == p - q);
    } else {
        lemma_small_mod((p + s - q) as nat, s as nat);
        assert(d == p + s - q);
    }
    let k = from / s;
    let j: int = if p >= q {
        k
    } else {
        k + 1
    };
    assert(first == s * j + p) by (nonlinear_arith)
        requires
            from == s * k + q,
            first == from + d,
            (j == k && d == p - q) || (j == k + 1 && d == p + s - q),
    ;
    assert(first == j * s + p) by (nonlinear_arith)
        requires
            first == s * j + p,
    ;
    lemma_fundamental_div_mod_converse_mod(first, s, j, p);
    if r >= first && (r - first) % s == 0 {
        lemma_fundamental_div_mod(r - first, s);
        let m = (r - first) / s;
        assert(r == (m + j) * s + p) by (nonlinear_arith)
            requires
                r - first == s * m,
                first == s * j + p,
        ;
        lemma_fundamental_div_mod_converse_mod(r, s, m + j, p);
    }
    if r >= from && r % s == p {
        lemma_fundamental_div_mod(r, s);
        let m = r / s;
        assert(r - first == s * (m - j)) by (nonlinear_arith)
            requires
                r == s * m + p,
                first == s * j + p,
        ;
        assert(m >= j) by (nonlinear_arith)
            requires
                r - first == s * (m - j),
                r >= from,
                first < from + s,
                s > 0,
        ;
        assert(r - first == (m - j) * s + 0) by (nonlinear_arith)
            requires
                r - first == s * (m - j),
        ;
        lemma_fundamental_div_mod_converse_mod(r - first, s, m - j, 0);
    }
}

/// A row or column is in the block that starts at `b * block`, inside the image.
proof fn lemma_in_block(b: int, block: int, n: int, r: int)
    requires
        block > 0,
        0 <= b,
    ensures
        b * block <= r < min_int(b * block + block, n) <==> 0 <= r < n && r / block == b,
        b * block <= r < b * block + block ==> r % block == r - b * block,
{
    lemma_fundamental_div_mod(r, block);
    let q = r / block;
    let m = r % block;
    assert(b * block <= r < b * block + block <==> q == b) by (nonlinear_arith)
        requires
            r == block * q + m,
            0 <= m < block,
            block > 0,
    ;
    assert(0 <= b * block) by (nonlinear_arith)
        requires
            0 <= b,
            block > 0,
    ;
    assert(q == b ==> m == r - b * block) by (nonlinear_arith)
        requires
            r == block * q + m,
    ;
}

/// The pixels of block `bi` that are sampled, one by one.
proof fn lemma_block_rows(
    pixels: Seq<F32>,
    w: int,
    h: int,
    block: int,
    lattice: Lattice,
    bi: int,
    r: int,
    c: int,
    v: F32,
)
    requires
        w > 0,
        h > 0,
        block > 0,
        lattice.stride > 0,
        0 <= bi < ceil_div(w, block) * ceil_div(h, block),
    ensures
        ({
            let nx = ceil_div(w, block);
            let x0 = (bi % nx) * block;
            let y0 = (bi / nx) * block;
            in_rows(
                pixels,
                w,
                lattice,
                lattice.first_row(y0),
                min_int(y0 + block, h),
                x0,
                min_int(x0 + block, w),
                r,
                c,
                v,
            ) <==> {
                &&& 0 <= r < h
                &&& 0 <= c < w
                &&& r / block == bi / nx
                &&& c / block == bi % nx
                &&& is_sampled(lattice, block, r, c)
                &&& counts(lattice, v)
                &&& pixels[r * w + c] == v
            }
        }),
{
    let nx = ceil_div(w, block);
    let s = lattice.stride as int;
    crate::background::lemma_block(w, h, block, bi);
    let (bx, by) = (bi % nx, bi / nx);
    let (x0, y0) = (bx * block, by * block);
    lemma_in_block(by, block, h, r);
    lemma_in_block(bx, block, w, c);
    if lattice.staggered {
        let fr = lattice.first_row(y0);
        assert((s - y0 % s) % s == (0 + s - y0 % s) % s);
        lemma_from_first(y0, fr, 0, s, r);
        let p = (r / s) % s;
        assert(0 <= p < s);
        let fc = lattice.first_col(r, x0);
        lemma_from_first(x0, fc, p, s, c);
    } else {
        assert(lattice.first_row(y0) == y0 && lattice.first_col(r, x0) == x0);
    }
}

/// What a block is sampled from: a value is among the samples of a block exactly
/// where a pixel of that block, inside the image, sampled by the lattice and
/// counting, has it.
pub proof fn law_block_is_sampled_by_its_lattice(
    pixels: Seq<F32>,
    w: int,
    h: int,
    block: int,
    lattice: Lattice,
    bi: int,
    v: F32,
)
    requires
        w > 0,
        h > 0,
        block > 0,
        lattice.stride > 0,
        0 <= bi < ceil_div(w, block) * ceil_div(h, block),
    ensures
        block_samples(pixels, w, h, block, lattice, bi).contains(v) <==> exists|r: int, c: int|
            0 <= r < h && 0 <= c < w && r / block == bi / ceil_div(w, block) && c / block == bi
                % ceil_div(w, block) && #[trigger] is_sampled(lattice, block, r, c) && counts(
                lattice,
                v,
            ) && pixels[r * w + c] == v,
{
    let nx = ceil_div(w, block);
    let x0 = (bi % nx) * block;
    let y0 = (bi / nx) * block;
    let (y, y1, x1) = (lattice.first_row(y0), min_int(y0 + block, h), min_int(x0 + block, w));
    let all = block_samples(pixels, w, h, block, lattice, bi);
    lemma_rows_sample(pixels, w, lattice, y, y1, x0, x1, v);
    if all.contains(v) {
        let (r, c) = choose|r: int, c: int| #[trigger]
            in_rows(pixels, w, lattice, y, y1, x0, x1, r, c, v);
        lemma_block_rows(pixels, w, h, block, lattice, bi, r, c, v);
        assert(is_sampled(lattice, block, r, c));
    }
    if exists|r: int, c: int|
        0 <= r < h && 0 <= c < w && r / block == bi / nx && c / block == bi % nx
            && #[trigger] is_sampled(lattice, block, r, c) && counts(lattice, v) && pixels[r * w
            + c] == v {
        let (r, c) = choose|r: int, c: int|
            0 <= r < h && 0 <= c < w && r / block == bi / nx && c / block == bi % nx
                && #[trigger] is_sampled(lattice, block, r, c) && counts(lattice, v) && pixels[r
                * w + c] == v;
        lemma_block_rows(pixels, w, h, block, lattice, bi, r, c, v);
        assert(in_rows(pixels, w, lattice, y, y1, x0, x1, r, c, v));
    }
}

/// The level of a block is a value that a sampled pixel of that block has; zero
/// where no pixel counts.
pub proof fn law_block_level_is_one_of_its_pixels(
    pixels: Seq<F32>,
    w: int,
    h: int,
    block: int,
    lattice: Lattice,
    grid: Seq<F32>,
    bi: int,
)
    requires
        w > 0,
        h > 0,
        block > 0,
        lattice.stride > 0,
        is_block_grid(pixels, w, h, block, lattice, grid),
        0 <= bi < grid.len(),
    ensures
        ({
            ||| exists|r: int, c: int|
                0 <= r < h && 0 <= c < w && r / block == bi / ceil_div(w, block) && c / block
                    == bi % ceil_div(w, block) && #[trigger] is_sampled(lattice, block, r, c)
                    && counts(lattice, grid[bi]) && pixels[r * w + c] == grid[bi]
            ||| {
                &&& grid[bi] == F32 { bits: 0 }
                &&& forall|r: int, c: int|
                    0 <= r < h && 0 <= c < w && r / block == bi / ceil_div(w, block) && c / block
                        == bi % ceil_div(w, block) && #[trigger] is_sampled(lattice, block, r, c)
                        ==> !counts(lattice, pixels[r * w + c])
            }
        }),
{
    let nx = ceil_div(w, block);
    let all = block_samples(pixels, w, h, block, lattice, bi);
    let m = grid[bi];
    assert(is_midpoint(all, m));
    if all.len() == 0 {
        assert forall|r: int, c: int|
            0 <= r < h && 0 <= c < w && r / block == bi / nx && c / block == bi % nx
                && #[trigger] is_sampled(lattice, block, r, c) implies !counts(
            lattice,
            pixels[r * w + c],
        ) by {
            let v = pixels[r * w + c];
            law_block_is_sampled_by_its_lattice(pixels, w, h, block, lattice, bi, v);
            if counts(lattice, v) {
                assert(is_sampled(lattice, block, r, c));
                assert(all.contains(v));
            }
        }
    } else {
        let i = choose|i: int| 0 <= i < ranks(all).len() && ranks(all)[i] == m.total_rank();
        law_total_rank(all[i], m);
        assert(all.contains(m));
        law_block_is_sampled_by_its_lattice(pixels, w, h, block, lattice, bi, m);
    }
}

/// The levels around a pixel: the first is that of block column `bx` and block row
/// `by`, whose center is at or before the pixel, the others those of the next block
/// to the right, below, and both. At the border the last block stands for the one
/// after it or, where the edges are extended, the last two blocks are taken.
pub proof fn law_levels_are_those_around(grid: BackgroundGrid, edges: Edges, x: int, y: int)
    requires
        grid.block > 0,
        grid.nx > 0,
        grid.ny > 0,
        0 <= x,
        0 <= y,
    ensures
        ({
            let c = grid.levels_at(edges, x, y);
            let (nx, ny, block) = (grid.nx as int, grid.ny as int, grid.block as int);
            let (bx, by) = (c.bx as int, c.by as int);
            let right = if bx + 1 < nx {
                bx + 1
            } else {
                nx - 1
            };
            let below = if by + 1 < ny {
                by + 1
            } else {
                ny - 1
            };
            &&& c.block == grid.block
            &&& 0 <= bx < nx
            &&& 0 <= by < ny
            &&& c.m00 == grid.grid@[by * nx + bx]
            &&& c.m10 == grid.grid@[by * nx + right]
            &&& c.m01 == grid.grid@[below * nx + bx]
            &&& c.m11 == grid.grid@[below * nx + right]
            &&& is_cell_of(edges, x, block, nx, bx)
            &&& is_cell_of(edges, y, block, ny, by)
        }),
{
    let (nx, ny, block) = (grid.nx as int, grid.ny as int, grid.block as int);
    lemma_cell_of(x, block, nx);
    lemma_cell_of(y, block, ny);
}

/// `b` is the first of the two blocks, of `n` along an axis, around position `x`:
/// the block whose center is the last at or before it, or the first block; but
/// with extended edges never the last of several.
pub open spec fn is_cell_of(edges: Edges, x: int, block: int, n: int, b: int) -> bool {
    let last = match edges {
        Edges::Hold => n - 1,
        Edges::Extend => if n > 1 {
            n - 2
        } else {
            0
        },
    };
    &&& 0 <= b <= last
    &&& b > 0 ==> b * (2 * block) + block <= 2 * x
    &&& b < last ==> 2 * x < (b + 1) * (2 * block) + block
}

proof fn lemma_cell_of(x: int, block: int, n: int)
    requires
        block > 0,
        n > 0,
        0 <= x,
    ensures
        is_cell_of(Edges::Hold, x, block, n, cell_before(x, block, n)),
        is_cell_of(Edges::Extend, x, block, n, inner_cell(x, block, n)),
        0 <= cell_before(x, block, n) <= n - 1,
        0 <= inner_cell(x, block, n) <= n - 1,
{
    let big = 2 * block;
    if 2 * x < block {
        assert((0 + 1) * big + block > 2 * x) by (nonlinear_arith)
            requires
                2 * x < block,
                big > 0,
        ;
    } else {
        let d = 2 * x - block;
        let q = d / big;
        lemma_fundamental_div_mod(d, big);
        assert(big * q <= d < big * q + big);
        assert(q >= 0) by (nonlinear_arith)
            requires
                d < big * q + big,
                d >= 0,
                big > 0,
        ;
        assert forall|b: int| 0 <= b <= q implies #[trigger] (b * big) + block <= 2 * x by {
            assert(b * big <= big * q) by (nonlinear_arith)
                requires
                    b <= q,
                    big > 0,
            ;
        }
        assert(2 * x < (q + 1) * big + block) by (nonlinear_arith)
            requires
                2 * x - block < big * q + big,
        ;
        let lo = cell_before(x, block, n);
        let inner = inner_cell(x, block, n);
        assert(lo * big + block <= 2 * x && inner * big + block <= 2 * x);
    }
}

/// The low half of samples: those at or below a level, each with that level.
pub proof fn law_low_half(samples: Seq<F32>, m: F32, d: Deviation)
    ensures
        low_half(samples, m).contains(d) <==> {
            &&& samples.contains(d.0)
            &&& d.1 == m
            &&& !d.0.nan() && !m.nan() && d.0.rank() <= m.rank()
        },
        low_half(samples, m).len() <= samples.len(),
    decreases samples.len(),
{
    let all = low_half(samples, m);
    if samples.len() > 0 {
        let front = samples.drop_last();
        let head = low_half(front, m);
        law_low_half(front, m, d);
        if all.contains(d) {
            let i = choose|i: int| 0 <= i < all.len() && all[i] == d;
            if i < head.len() {
                assert(head[i] == d);
                let j = choose|j: int| 0 <= j < front.len() && front[j] == d.0;
                assert(samples[j] == d.0);
            } else {
                assert(samples[samples.len() - 1] == d.0);
            }
        }
        if samples.contains(d.0) && d.1 == m && !d.0.nan() && !m.nan() && d.0.rank() <= m.rank() {
            let j = choose|j: int| 0 <= j < samples.len() && samples[j] == d.0;
            if j < front.len() {
                assert(front[j] == d.0);
                let i = choose|i: int| 0 <= i < head.len() && head[i] == d;
                assert(all[i] == d);
            } else {
                assert(all[all.len() - 1] == d);
            }
        }
    }
}

/// Noise is measured from what lies at or below the level of its block, each value
/// with the level of the block that it was sampled in, and from nothing else.
pub proof fn law_noise_is_below_the_levels(
    pixels: Seq<F32>,
    w: int,
    h: int,
    block: int,
    lattice: Lattice,
    grid: Seq<F32>,
    n: int,
    d: Deviation,
)
    requires
        0 <= n,
    ensures
        noise_samples(pixels, w, h, block, lattice, grid, n).contains(d) <==> exists|bi: int|
            {
                &&& 0 <= bi < n
                &&& d.1 == #[trigger] grid[bi]
                &&& block_samples(pixels, w, h, block, lattice, bi).contains(d.0)
                &&& !d.0.nan() && !d.1.nan() && d.0.rank() <= d.1.rank()
            },
    decreases n,
{
    let all = noise_samples(pixels, w, h, block, lattice, grid, n);
    if n > 0 {
        let head = noise_samples(pixels, w, h, block, lattice, grid, n - 1);
        let samples = block_samples(pixels, w, h, block, lattice, n - 1);
        let own = low_half(samples, grid[n - 1]);
        law_noise_is_below_the_levels(pixels, w, h, block, lattice, grid, n - 1, d);
        law_low_half(samples, grid[n - 1], d);
        if all.contains(d) {
            let i = choose|i: int| 0 <= i < all.len() && all[i] == d;
            if i < head.len() {
                assert(head[i] == d);
            } else {
                assert(own[i - head.len()] == d);
                assert(d.1 == grid[n - 1]);
            }
        }
        if exists|bi: int|
            {
                &&& 0 <= bi < n
                &&& d.1 == #[trigger] grid[bi]
                &&& block_samples(pixels, w, h, block, lattice, bi).contains(d.0)
                &&& !d.0.nan() && !d.1.nan() && d.0.rank() <= d.1.rank()
            } {
            let bi = choose|bi: int|
                {
                    &&& 0 <= bi < n
                    &&& d.1 == #[trigger] grid[bi]
                    &&& block_samples(pixels, w, h, block, lattice, bi).contains(d.0)
                    &&& !d.0.nan() && !d.1.nan() && d.0.rank() <= d.1.rank()
                };
            if bi < n - 1 {
                let i = choose|i: int| 0 <= i < head.len() && head[i] == d;
                assert(all[i] == d);
            } else {
                let i = choose|i: int| 0 <= i < own.len() && own[i] == d;
                assert(all[head.len() + i] == d);
            }
        }
    }
}

/// The finite ones of values are kept, all of them and no others.
pub proof fn law_finite_values_are_kept(values: Seq<F32>, v: F32)
    ensures
        finite_only(values).contains(v) <==> values.contains(v) && v.finite(),
        (forall|i: int| 0 <= i < values.len() ==> (#[trigger] values[i]).finite()) ==> finite_only(
            values,
        ) == values,
    decreases values.len(),
{
    let all = finite_only(values);
    if values.len() > 0 {
        let front = values.drop_last();
        let head = finite_only(front);
        law_finite_values_are_kept(front, v);
        if all.contains(v) {
            let i = choose|i: int| 0 <= i < all.len() && all[i] == v;
            if i < head.len() {
                assert(head[i] == v);
                let j = choose|j: int| 0 <= j < front.len() && front[j] == v;
                assert(values[j] == v);
            } else {
                assert(values[values.len() - 1] == v);
            }
        }
        if values.contains(v) && v.finite() {
            let j = choose|j: int| 0 <= j < values.len() && values[j] == v;
            if j < front.len() {
                assert(front[j] == v);
                let i = choose|i: int| 0 <= i < head.len() && head[i] == v;
                assert(all[i] == v);
            } else {
                assert(all[all.len() - 1] == v);
            }
        }
        if forall|i: int| 0 <= i < values.len() ==> (#[trigger] values[i]).finite() {
            assert forall|i: int| 0 <= i < front.len() implies (#[trigger] front[i]).finite() by {
                assert(values[i].finite());
            }
            assert(values[values.len() - 1].finite());
            assert(all =~= values);
        }
    } else {
        assert(all =~= values);
    }
}

/// Clipping keeps the deviations whose number is not below the cut, all of them
/// and no others.
pub proof fn law_clipping_keeps_what_is_not_below(devs: Seq<Deviation>, lo: F32, d: Deviation)
    ensures
        not_below(devs, lo).contains(d) <==> devs.contains(d) && !d.0.nan() && !lo.nan()
            && d.0.rank() >= lo.rank(),
        not_below(devs, lo).len() <= devs.len(),
        not_below(devs, lo).len() == devs.len() <==> (forall|i: int|
            0 <= i < devs.len() ==> !(#[trigger] devs[i]).0.nan() && !lo.nan() && devs[i].0.rank()
                >= lo.rank()),
    decreases devs.len(),
{
    let all = not_below(devs, lo);
    if devs.len() > 0 {
        let front = devs.drop_last();
        let head = not_below(front, lo);
        law_clipping_keeps_what_is_not_below(front, lo, d);
        if all.contains(d) {
            let i = choose|i: int| 0 <= i < all.len() && all[i] == d;
            if i < head.len() {
                assert(head[i] == d);
                let j = choose|j: int| 0 <= j < front.len() && front[j] == d;
                assert(devs[j] == d);
            } else {
                assert(devs[devs.len() - 1] == d);
            }
        }
        if devs.contains(d) && !d.0.nan() && !lo.nan() && d.0.rank() >= lo.rank() {
            let j = choose|j: int| 0 <= j < devs.len() && devs[j] == d;
            if j < front.len() {
                assert(front[j] == d);
                let i = choose|i: int| 0 <= i < head.len() && head[i] == d;
                assert(all[i] == d);
            } else {
                assert(all[all.len() - 1] == d);
            }
        }
        if all.len() == devs.len() {
            assert forall|i: int| 0 <= i < devs.len() implies !(#[trigger] devs[i]).0.nan()
                && !lo.nan() && devs[i].0.rank() >= lo.rank() by {
                if i < front.len() {
                    assert(front[i] == devs[i]);
                }
            }
        }
        if forall|i: int|
            0 <= i < devs.len() ==> !(#[trigger] devs[i]).0.nan() && !lo.nan() && devs[i].0.rank()
                >= lo.rank() {
            assert forall|i: int| 0 <= i < front.len() implies !(#[trigger] front[i]).0.nan()
                && !lo.nan() && front[i].0.rank() >= lo.rank() by {
                assert(devs[i] == front[i]);
            }
            assert(devs[devs.len() - 1].0.rank() >= lo.rank());
        }
    }
}

/// A deviation of a value at or below the level.
pub open spec fn is_low(values: Seq<F32>, level: F32, d: Deviation) -> bool {
    &&& values.contains(d.0)
    &&& d.0.finite()
    &&& d.1 == level
    &&& !level.nan() && d.0.rank() <= level.rank()
}

/// What noise is measured from: finite values at or below the level, about the
/// level. Without a round of clipping, or without such values, it is zero; else
/// it is the answer of `rms` for some of them.
pub proof fn law_noise_comes_from_low_values<
    A: Fn(F32, F32) -> F32,
    R: Fn(&Vec<Deviation>) -> F32,
    C: Fn(F32, F32, F32) -> F32,
>(
    average: A,
    rms: R,
    cut: C,
    values: Seq<F32>,
    rounds: nat,
    factor: F32,
    level: F32,
    sigma: F32,
)
    requires
        is_background(average, rms, cut, values, rounds, factor, level, sigma),
    ensures
        ({
            ||| sigma == F32 { bits: 0 } && (rounds == 0 || forall|d: Deviation| !#[trigger]
                is_low(values, level, d))
            ||| exists|devs: Vec<Deviation>|
                {
                    &&& #[trigger] call_ensures(rms, (&devs,), sigma)
                    &&& devs@.len() > 0
                    &&& forall|i: int|
                        0 <= i < devs@.len() ==> is_low(values, level, #[trigger] devs@[i])
                }
        }),
{
    let finite = finite_only(values);
    if finite.len() == 0 {
        assert forall|d: Deviation| !#[trigger] is_low(values, level, d) by {
            law_finite_values_are_kept(values, d.0);
            if is_low(values, level, d) {
                assert(finite.contains(d.0));
            }
        }
    } else {
        let low = low_half(finite, level);
        assert forall|i: int| 0 <= i < low.len() implies is_low(
            values,
            level,
            #[trigger] low[i],
        ) by {
            assert(low.contains(low[i]));
            law_low_half(finite, level, low[i]);
            law_finite_values_are_kept(values, low[i].0);
        }
        if low.len() == 0 {
            assert forall|d: Deviation| !#[trigger] is_low(values, level, d) by {
                law_finite_values_are_kept(values, d.0);
                law_low_half(finite, level, d);
                if is_low(values, level, d) {
                    assert(low.contains(d));
                }
            }
        }
        lemma_clip_source(
            rms,
            cut,
            factor,
            level,
            values,
            low,
            F32::zero(),
            rounds,
            sigma,
        );
    }
}

proof fn lemma_clip_source<R: Fn(&Vec<Deviation>) -> F32, C: Fn(F32, F32, F32) -> F32>(
    rms: R,
    cut: C,
    factor: F32,
    level: F32,
    values: Seq<F32>,
    devs: Seq<Deviation>,
    last: F32,
    n: nat,
    sigma: F32,
)
    requires
        clips_to(rms, cut, factor, level, devs, last, n, sigma),
        forall|i: int| 0 <= i < devs.len() ==> is_low(values, level, #[trigger] devs[i]),
    ensures
        ({
            ||| sigma == last && (n == 0 || devs.len() == 0)
            ||| exists|v: Vec<Deviation>|
                {
                    &&& #[trigger] call_ensures(rms, (&v,), sigma)
                    &&& v@.len() > 0
                    &&& forall|i: int|
                        0 <= i < v@.len() ==> is_low(values, level, #[trigger] v@[i])
                }
        }),
    decreases n,
{
    if n > 0 && devs.len() > 0 {
        let (s, lo) = choose|s: F32, lo: F32|
            {
                &&& #[trigger] round(rms, cut, factor, level, devs, s, lo)
                &&& if (F32 { bits: NO_NOISE }).above(s) || not_below(devs, lo).len()
                    == devs.len() {
                    sigma == s
                } else {
                    clips_to(
                        rms,
                        cut,
                        factor,
                        level,
                        not_below(devs, lo),
                        s,
                        (n - 1) as nat,
                        sigma,
                    )
                }
            };
        let v = choose|v: Vec<Deviation>| v@ == devs && #[trigger] call_ensures(rms, (&v,), s);
        assert(call_ensures(rms, (&v,), s));
        if !((F32 { bits: NO_NOISE }).above(s) || not_below(devs, lo).len() == devs.len()) {
            let rest = not_below(devs, lo);
            assert forall|i: int| 0 <= i < rest.len() implies is_low(
                values,
                level,
                #[trigger] rest[i],
            ) by {
                assert(rest.contains(rest[i]));
                law_clipping_keeps_what_is_not_below(devs, lo, rest[i]);
                let j = choose|j: int| 0 <= j < devs.len() && devs[j] == rest[i];
                assert(is_low(values, level, devs[j]));
            }
            lemma_clip_source(
                rms,
                cut,
                factor,
                level,
                values,
                rest,
                s,
                (n - 1) as nat,
                sigma,
            );
        }
    }
}

/// Where no low value lies below the cut for the noise of all of them, that noise
/// is the result, whatever the number of rounds.
pub proof fn law_unclipped_noise<
    A: Fn(F32, F32) -> F32,
    R: Fn(&Vec<Deviation>) -> F32,
    C: Fn(F32, F32, F32) -> F32,
>(
    average: A,
    rms: R,
    cut: C,
    values: Seq<F32>,
    rounds: nat,
    factor: F32,
    level: F32,
    sigma: F32,
)
    requires
        is_background(average, rms, cut, values, rounds, factor, level, sigma),
        rounds > 0,
        exists|d: Deviation| #[trigger] is_low(values, level, d),
        forall|v: Vec<Deviation>, s: F32, lo: F32, d: Deviation| #[trigger]
            call_ensures(rms, (&v,), s) && #[trigger] call_ensures(cut, (level, s, factor), lo)
                && #[trigger] is_low(values, level, d) ==> !lo.nan() && d.0.rank() >= lo.rank(),
    ensures
        exists|devs: Vec<Deviation>|
            {
                &&& #[trigger] call_ensures(rms, (&devs,), sigma)
                &&& forall|d: Deviation| #[trigger]
                    devs@.contains(d) <==> is_low(values, level, d)
            },
{
    let finite = finite_only(values);
    let low = low_half(finite, level);
    assert forall|d: Deviation| #[trigger] low.contains(d) <==> is_low(values, level, d) by {
        law_finite_values_are_kept(values, d.0);
        law_low_half(finite, level, d);
    }
    let d0 = choose|d: Deviation| #[trigger] is_low(values, level, d);
    assert(low.contains(d0));
    law_finite_values_are_kept(values, d0.0);
    assert(finite.len() > 0);
    let (s, lo) = choose|s: F32, lo: F32|
        {
            &&& #[trigger] round(rms, cut, factor, level, low, s, lo)
            &&& if (F32 { bits: NO_NOISE }).above(s) || not_below(low, lo).len() == low.len() {
                sigma == s
            } else {
                clips_to(
                    rms,
                    cut,
                    factor,
                    level,
                    not_below(low, lo),
                    s,
                    (rounds - 1) as nat,
                    sigma,
                )
            }
        };
    let v = choose|v: Vec<Deviation>| v@ == low && #[trigger] call_ensures(rms, (&v,), s);
    assert(call_ensures(rms, (&v,), s));
    if !(F32 { bits: NO_NOISE }).above(s) {
        assert forall|i: int| 0 <= i < low.len() implies !(#[trigger] low[i]).0.nan()
            && !lo.nan() && low[i].0.rank() >= lo.rank() by {
            assert(low.contains(low[i]));
            assert(is_low(values, level, low[i]));
        }
        law_clipping_keeps_what_is_not_below(low, lo, d0);
    }
    assert(sigma == s);
}

/// The level of values is what stands in the middle once the finite ones are
/// sorted, or what `average` answers for the two there; zero where none is finite.
pub proof fn law_level_is_in_the_middle<
    A: Fn(F32, F32) -> F32,
    R: Fn(&Vec<Deviation>) -> F32,
    C: Fn(F32, F32, F32) -> F32,
>(
    average: A,
    rms: R,
    cut: C,
    values: Seq<F32>,
    rounds: nat,
    factor: F32,
    level: F32,
    sigma: F32,
    sorted: Seq<F32>,
)
    requires
        is_background(average, rms, cut, values, rounds, factor, level, sigma),
        finite_only(values).to_multiset() == sorted.to_multiset(),
        forall|i: int, j: int|
            0 <= i < j < sorted.len() ==> (#[trigger] sorted[i]).total_rank() <= (
            #[trigger] sorted[j]).total_rank(),
    ensures
        ({
            let n = sorted.len() as int;
            if n == 0 {
                level == F32 { bits: 0 }
            } else if n % 2 == 1 {
                level == sorted[n / 2]
            } else {
                call_ensures(average, (sorted[n / 2 - 1], sorted[n / 2]), level)
            }
        }),
{
    broadcast use vstd::seq_lib::group_to_multiset_ensures;

    let finite = finite_only(values);
    assert(finite.to_multiset().len() == finite.len());
    assert(sorted.to_multiset().len() == sorted.len());
    if finite.len() > 0 {
        let m = choose|m: Median| #[trigger]
            is_median(finite, m) && match m {
                Median::Empty => level == F32::zero(),
                Median::Middle(v) => level == v,
                Median::Between(a, b) => call_ensures(average, (a, b), level),
            };
        crate::stats::law_median_of_sorted(finite, sorted, m);
    }
}

proof fn lemma_row_point(pixels: Seq<F32>, w: int, y: int, x: int, s: int, p: (usize, usize))
    requires
        s > 0,
        0 <= x,
        0 <= w <= u32::MAX,
        0 <= y <= u32::MAX,
    ensures
        row_points(pixels, w, y, x, s).contains(p) <==> p.0 == y && x <= p.1 < w && (p.1 - x) % s
            == 0 && pixels[y * w + p.1].finite(),
    decreases w + s - x,
{
    let all = row_points(pixels, w, y, x, s);
    if x < w {
        let rest = row_points(pixels, w, y, x + s, s);
        lemma_row_point(pixels, w, y, x + s, s, p);
        let off: int = if pixels[y * w + x].finite() {
            1
        } else {
            0
        };
        lemma_step(x, x, s);
        if x <= p.1 {
            lemma_step(x, p.1 as int, s);
        }
        if all.contains(p) {
            let i = choose|i: int| 0 <= i < all.len() && all[i] == p;
            if i >= off {
                assert(rest[i - off] == p);
                assert(rest.contains(p));
            }
        }
        if p.0 == y && x <= p.1 < w && (p.1 - x) % s == 0 && pixels[y * w + p.1].finite() {
            if p.1 == x {
                assert(all[0] == p);
            } else {
                let i = choose|i: int| 0 <= i < rest.len() && rest[i] == p;
                assert(all[i + off] == p);
            }
        }
    }
}

proof fn lemma_lattice_point(
    pixels: Seq<F32>,
    w: int,
    h: int,
    y: int,
    s: int,
    p: (usize, usize),
)
    requires
        s > 0,
        0 <= y,
        0 <= w <= u32::MAX,
        0 <= h <= u32::MAX,
    ensures
        lattice_points(pixels, w, h, y, s).contains(p) <==> y <= p.0 < h && (p.0 - y) % s == 0
            && p.1 < w && p.1 as int % s == (p.0 as int / s) % s && pixels[p.0 * w
            + p.1].finite(),
    decreases h + s - y,
{
    let all = lattice_points(pixels, w, h, y, s);
    if y < h {
        let x = (y / s) % s;
        assert(0 <= x < s);
        let row = row_points(pixels, w, y, x, s);
        let rest = lattice_points(pixels, w, h, y + s, s);
        lemma_row_point(pixels, w, y, x, s, p);
        lemma_lattice_point(pixels, w, h, y + s, s, p);
        lemma_step(y, y, s);
        if y <= p.0 {
            lemma_step(y, p.0 as int, s);
        }
        lemma_small_mod(0, s as nat);
        lemma_small_mod(s as nat, (s + 1) as nat);
        assert((x + s - 0int % s) % s == x) by {
            lemma_mod_sub_multiples_vanish(x + s, s);
            lemma_small_mod(x as nat, s as nat);
        }
        lemma_from_first(0, x, x, s, p.1 as int);
        if all.contains(p) {
            let i = choose|i: int| 0 <= i < all.len() && all[i] == p;
            if i < row.len() {
                assert(row[i] == p);
                assert(row.contains(p));
            } else {
                assert(rest[i - row.len()] == p);
                assert(rest.contains(p));
            }
        }
        if y <= p.0 < h && (p.0 - y) % s == 0 && p.1 < w && p.1 as int % s == (p.0 as int / s) % s
            && pixels[p.0 * w + p.1].finite() {
            if p.0 == y {
                assert(row.contains(p));
                let i = choose|i: int| 0 <= i < row.len() && row[i] == p;
                assert(all[i] == p);
            } else {
                assert(rest.contains(p));
                let i = choose|i: int| 0 <= i < rest.len() && rest[i] == p;
                assert(all[i + row.len()] == p);
            }
        }
    }
}

/// Residuals are taken where the block medians are: at the finite pixels of the
/// staggered lattice, all of them and no others.
pub proof fn law_residual_points_are_the_lattice(
    pixels: Seq<F32>,
    w: int,
    h: int,
    stride: usize,
    p: (usize, usize),
)
    requires
        stride > 0,
        0 <= w <= u32::MAX,
        0 <= h <= u32::MAX,
    ensures
        lattice_points(pixels, w, h, 0, stride as int).contains(p) <==> {
            &&& p.0 < h
            &&& p.1 < w
            &&& pixels[p.0 * w + p.1].finite()
            &&& is_sampled(
                (Lattice { stride, staggered: true, nonzero: false }),
                1,
                p.0 as int,
                p.1 as int,
            )
        },
{
    let s = stride as int;
    lemma_lattice_point(pixels, w, h, 0, s, p);
    assert((p.0 - 0) % s == p.0 as int % s);
}

/// A residual is the pixel less the background at its own place.
pub proof fn law_residual_is_pixel_less_background<
    B: Fn(Corners, usize, usize) -> F32,
    S: Fn(F32, F32) -> F32,
>(
    blend: B,
    subtract: S,
    bg: BackgroundGrid,
    pixels: Seq<F32>,
    w: int,
    points: Seq<(usize, usize)>,
    out: Seq<F32>,
    i: int,
)
    requires
        are_residuals(blend, subtract, bg, pixels, w, points, out),
        0 <= i < points.len(),
    ensures
        out.len() == points.len(),
        exists|b: F32|
            {
                &&& #[trigger] call_ensures(
                    blend,
                    (
                        bg.levels_at(Edges::Extend, points[i].1 as int, points[i].0 as int),
                        points[i].1,
                        points[i].0,
                    ),
                    b,
                )
                &&& call_ensures(
                    subtract,
                    (pixels[points[i].0 * w + points[i].1], b),
                    out[i],
                )
            },
{
    assert(is_residual(blend, subtract, bg, pixels, w, points[i], out[i]));
}

/// A background surface has at each pixel what `blend` answers for the levels
/// around it, its column and its row.
pub proof fn law_surface_is_blended_at_each_pixel<B: Fn(Corners, usize, usize) -> F32>(
    blend: B,
    grid: BackgroundGrid,
    edges: Edges,
    w: int,
    h: int,
    surface: Seq<F32>,
    r: usize,
    c: usize,
)
    requires
        is_surface(blend, grid, edges, w, h, surface),
        r < h,
        c < w,
    ensures
        surface.len() == w * h,
        call_ensures(
            blend,
            (grid.levels_at(edges, c as int, r as int), c, r),
            surface[r * w + c],
        ),
{
    assert(crate::background::blends(blend, grid, edges, r, c, surface[r * w + c]));
}

/// The level of a block is what stands in the middle once its samples are sorted.
pub proof fn law_block_level_is_in_the_middle(
    pixels: Seq<F32>,
    w: int,
    h: int,
    block: int,
    lattice: Lattice,
    grid: Seq<F32>,
    bi: int,
    sorted: Seq<F32>,
)
    requires
        is_block_grid(pixels, w, h, block, lattice, grid),
        0 <= bi < grid.len(),
        block_samples(pixels, w, h, block, lattice, bi).to_multiset() == sorted.to_multiset(),
        sorted.len() > 0,
        forall|i: int, j: int|
            0 <= i < j < sorted.len() ==> (#[trigger] sorted[i]).total_rank() <= (
            #[trigger] sorted[j]).total_rank(),
    ensures
        grid[bi] == sorted[sorted.len() as int / 2],
{
    law_midpoint_of_sorted(
        block_samples(pixels, w, h, block, lattice, bi),
        sorted,
        grid[bi],
    );
}

/// The coarse background has as many blocks as cover the image, row by row; their
/// levels and the noise come from the lattice that takes an eighth of a block, at
/// least one pixel, between samples from the corner of each block.
pub proof fn law_coarse_background<R: Fn(&Vec<Deviation>) -> F32>(
    pixels: &[F32],
    w: usize,
    h: usize,
    block: usize,
    rms: R,
    out: (Vec<F32>, usize, usize, F32),
)
    requires
        w > 0,
        h > 0,
        block > 0,
        call_ensures(coarse_background::<R>, (pixels, w, h, block, rms), out),
    ensures
        (out.1 - 1) * block < w <= out.1 * block,
        (out.2 - 1) * block < h <= out.2 * block,
        out.0@.len() == out.1 * out.2,
        ({
            let stride: usize = if block >= 16 {
                block / 8
            } else {
                1
            };
            let lattice = Lattice { stride, staggered: false, nonzero: false };
            let devs = noise_samples(
                pixels@,
                w as int,
                h as int,
                block as int,
                lattice,
                out.0@,
                out.0@.len() as int,
            );
            &&& is_block_grid(pixels@, w as int, h as int, block as int, lattice, out.0@)
            &&& devs.len() == 0 ==> out.3 == F32 { bits: 0 }
            &&& devs.len() > 0 ==> exists|v: Vec<Deviation>|
                v@ == devs && #[trigger] call_ensures(rms, (&v,), out.3)
        }),
{
    lemma_ceil_div(w as int, block as int);
    lemma_ceil_div(h as int, block as int);
    let stride: usize = if block >= 16 {
        block / 8
    } else {
        1
    };
    assert(corner_lattice(block as int) == (Lattice { stride, staggered: false, nonzero: false }));
}

/// A local background holds its levels at the edges: its grid covers the image with
/// blocks of the given size, whose levels leave zeros out, and at each pixel it has
/// what `blend` answers for the levels around it, its column and its row.
pub proof fn law_local_background<B: Fn(Corners, usize, usize) -> F32 + Sync + Send>(
    pixels: &[F32],
    width: u32,
    height: u32,
    size: u32,
    blend: B,
    out: (BackgroundGrid, Vec<F32>),
    r: usize,
    c: usize,
)
    requires
        size > 0,
        call_ensures(
            estimate_local_background::<B>,
            (pixels, width, height, size, &blend),
            out,
        ),
        r < height,
        c < width,
    ensures
        out.0.block == size,
        (out.0.nx - 1) * size < width <= out.0.nx * size,
        (out.0.ny - 1) * size < height <= out.0.ny * size,
        is_block_grid(
            pixels@,
            width as int,
            height as int,
            size as int,
            Lattice { stride: 1, staggered: false, nonzero: true },
            out.0.grid@,
        ),
        out.1@.len() == width * height,
        call_ensures(
            blend,
            (out.0.levels_at(Edges::Hold, c as int, r as int), c, r),
            out.1@[r * width + c],
        ),
{
    lemma_ceil_div(width as int, size as int);
    lemma_ceil_div(height as int, size as int);
    law_surface_is_blended_at_each_pixel(
        blend,
        out.0,
        Edges::Hold,
        width as int,
        height as int,
        out.1@,
        r,
        c,
    );
}

/// A round of clipping: the noise of `devs`, enough to go by, gives a cut, and
/// `left` are the deviations that are not below it, fewer than before and not none.
pub open spec fn clips<R: Fn(&Vec<Deviation>) -> F32, C: Fn(F32, F32, F32) -> F32>(
    rms: R,
    cut: C,
    factor: F32,
    level: F32,
    devs: Seq<Deviation>,
    left: Seq<Deviation>,
) -> bool {
    exists|v: Vec<Deviation>, s: F32, lo: F32|
        {
            &&& v@ == devs
            &&& #[trigger] call_ensures(rms, (&v,), s)
            &&& s.nan() || s.rank() >= 0x2edb_e6ff
            &&& #[trigger] call_ensures(cut, (level, s, factor), lo)
            &&& 0 < left.len() < devs.len()
            &&& forall|d: Deviation| #[trigger]
                left.contains(d) <==> devs.contains(d) && !d.0.nan() && !lo.nan() && d.0.rank()
                    >= lo.rank()
        }
}

/// The last round: `sigma` is the noise of `devs`; it is too little to go by, or
/// the cut that goes with it drops nothing or everything, or, where `spent`, there
/// are no more rounds.
pub open spec fn clips_last<R: Fn(&Vec<Deviation>) -> F32, C: Fn(F32, F32, F32) -> F32>(
    rms: R,
    cut: C,
    factor: F32,
    level: F32,
    devs: Seq<Deviation>,
    spent: bool,
    sigma: F32,
) -> bool {
    &&& exists|v: Vec<Deviation>| v@ == devs && #[trigger] call_ensures(rms, (&v,), sigma)
    &&& {
        ||| spent
        ||| !sigma.nan() && sigma.rank() < 0x2edb_e6ff
        ||| exists|lo: F32|
            {
                &&& #[trigger] call_ensures(cut, (level, sigma, factor), lo)
                &&& {
                    ||| forall|d: Deviation| #[trigger]
                        devs.contains(d) ==> !d.0.nan() && !lo.nan() && d.0.rank() >= lo.rank()
                    ||| forall|d: Deviation| #[trigger]
                        devs.contains(d) ==> d.0.nan() || lo.nan() || d.0.rank() < lo.rank()
                }
            }
    }
}

/// The deviations left after each round.
pub open spec fn is_clipping<R: Fn(&Vec<Deviation>) -> F32, C: Fn(F32, F32, F32) -> F32>(
    rms: R,
    cut: C,
    factor: F32,
    level: F32,
    trail: Seq<Seq<Deviation>>,
) -> bool {
    &&& trail.len() > 0
    &&& forall|i: int, j: int|
        0 <= i && j == i + 1 && j < trail.len() ==> clips(
            rms,
            cut,
            factor,
            level,
            #[trigger] trail[i],
            #[trigger] trail[j],
        )
}

proof fn lemma_clips_by_trail<R: Fn(&Vec<Deviation>) -> F32, C: Fn(F32, F32, F32) -> F32>(
    rms: R,
    cut: C,
    factor: F32,
    level: F32,
    devs: Seq<Deviation>,
    last: F32,
    n: nat,
    sigma: F32,
) -> (trail: Seq<Seq<Deviation>>)
    requires
        clips_to(rms, cut, factor, level, devs, last, n, sigma),
        n > 0,
        devs.len() > 0,
    ensures
        is_clipping(rms, cut, factor, level, trail),
        trail[0] == devs,
        trail.len() <= n,
        clips_last(rms, cut, factor, level, trail.last(), trail.len() == n, sigma),
    decreases n,
{
    let (s, lo) = choose|s: F32, lo: F32|
        {
            &&& #[trigger] round(rms, cut, factor, level, devs, s, lo)
            &&& if (F32 { bits: NO_NOISE }).above(s) || not_below(devs, lo).len() == devs.len() {
                sigma == s
            } else {
                clips_to(rms, cut, factor, level, not_below(devs, lo), s, (n - 1) as nat, sigma)
            }
        };
    let left = not_below(devs, lo);
    assert forall|d: Deviation| #[trigger] left.contains(d) <==> devs.contains(d) && !d.0.nan()
        && !lo.nan() && d.0.rank() >= lo.rank() by {
        law_clipping_keeps_what_is_not_below(devs, lo, d);
    }
    law_clipping_keeps_what_is_not_below(devs, lo, devs[0]);
    let v = choose|v: Vec<Deviation>| v@ == devs && #[trigger] call_ensures(rms, (&v,), s);
    assert(v@ == devs && call_ensures(rms, (&v,), s));
    if (F32 { bits: NO_NOISE }).above(s) {
        seq![devs]
    } else if left.len() == devs.len() {
        assert forall|d: Deviation| #[trigger] devs.contains(d) implies !d.0.nan() && !lo.nan()
            && d.0.rank() >= lo.rank() by {
            let i = choose|i: int| 0 <= i < devs.len() && devs[i] == d;
            assert(!devs[i].0.nan());
        }
        seq![devs]
    } else if left.len() == 0 {
        assert(sigma == s);
        assert forall|d: Deviation| #[trigger] devs.contains(d) implies d.0.nan() || lo.nan()
            || d.0.rank() < lo.rank() by {
            assert(!left.contains(d));
        }
        seq![devs]
    } else if n == 1 {
        assert(sigma == s);
        seq![devs]
    } else {
        assert(clips(rms, cut, factor, level, devs, left));
        let rest = lemma_clips_by_trail(rms, cut, factor, level, left, s, (n - 1) as nat, sigma);
        let trail = seq![devs] + rest;
        assert forall|i: int, j: int| 0 <= i && j == i + 1 && j < trail.len() implies clips(
            rms,
            cut,
            factor,
            level,
            #[trigger] trail[i],
            #[trigger] trail[j],
        ) by {
            if i > 0 {
                assert(trail[i] == rest[i - 1] && trail[j] == rest[j - 1]);
                assert(clips(rms, cut, factor, level, rest[i - 1], rest[j - 1]));
            } else {
                assert(trail[1] == left);
            }
        }
        assert(trail.last() == rest.last());
        trail
    }
}

/// How noise is clipped: from the low values on, round by round, until the noise is
/// too little to go by, a round drops nothing or everything, or the rounds are
/// spent; never before.
pub proof fn law_noise_is_clipped_round_by_round<
    A: Fn(F32, F32) -> F32,
    R: Fn(&Vec<Deviation>) -> F32,
    C: Fn(F32, F32, F32) -> F32,
>(
    average: A,
    rms: R,
    cut: C,
    gray: &[F32],
    rounds: usize,
    factor: F32,
    out: (F32, F32),
)
    requires
        call_ensures(
            estimate_background::<A, R, C>,
            (gray, rounds, factor, &average, &rms, &cut),
            out,
        ),
        rounds > 0,
        exists|d: Deviation| #[trigger] is_low(gray@, out.0, d),
    ensures
        exists|trail: Seq<Seq<Deviation>>|
            {
                &&& #[trigger] is_clipping(rms, cut, factor, out.0, trail)
                &&& forall|d: Deviation| #[trigger]
                    trail[0].contains(d) <==> is_low(gray@, out.0, d)
                &&& trail.len() <= rounds
                &&& clips_last(
                    rms,
                    cut,
                    factor,
                    out.0,
                    trail.last(),
                    trail.len() == rounds,
                    out.1,
                )
            },
{
    let values = gray@;
    let level = out.0;
    let finite = finite_only(values);
    let low = low_half(finite, level);
    assert forall|d: Deviation| #[trigger] low.contains(d) <==> is_low(values, level, d) by {
        law_low_half(finite, level, d);
        law_finite_values_are_kept(values, d.0);
    }
    let d = choose|d: Deviation| #[trigger] is_low(values, level, d);
    assert(low.contains(d));
    law_finite_values_are_kept(values, d.0);
    let trail = lemma_clips_by_trail(
        rms,
        cut,
        factor,
        level,
        low,
        F32::zero(),
        rounds as nat,
        out.1,
    );
}

} // verus!
