//! Background estimation: block medians from a sampling lattice, and the cells
//! of the block grid that surround a pixel.

use vstd::prelude::*;

use crate::ieee::{law_total_rank, F32};
use crate::par::{chunk, for_each_chunk_mut, map_indices};
use crate::stats::{is_midpoint, midpoint_f32, ranks};

verus! {

/// `a / b` rounded up.
pub open spec fn ceil_div(a: int, b: int) -> int {
    if a % b == 0 {
        a / b
    } else {
        a / b + 1
    }
}

fn div_up(a: usize, b: usize) -> (q: usize)
    requires
        b > 0,
    ensures
        q == ceil_div(a as int, b as int),
        q <= a,
        a <= q * b,
        a > 0 ==> q > 0 && (q - 1) * b < a,
{
    proof {
        lemma_ceil_div(a as int, b as int);
    }
    if a % b == 0 {
        a / b
    } else {
        a / b + 1
    }
}

pub proof fn lemma_ceil_div(a: int, b: int)
    requires
        a >= 0,
        b > 0,
    ensures
        a <= ceil_div(a, b) * b,
        0 <= a / b <= a,
        0 <= ceil_div(a, b) <= a,
        a > 0 ==> ceil_div(a, b) > 0 && (ceil_div(a, b) - 1) * b < a,
{
    let q = a / b;
    assert(a == b * q + a % b && 0 <= a % b < b) by (nonlinear_arith)
        requires
            b > 0,
            q == a / b,
    ;
    assert(0 <= q <= a) by (nonlinear_arith)
        requires
            a >= 0,
            b > 0,
            a == b * q + a % b,
            0 <= a % b < b,
    ;
    assert((q + 1) * b == b * q + b && q * b == b * q) by (nonlinear_arith);
    assert((q - 1) * b == b * q - b) by (nonlinear_arith);
    assert(a > 0 && a % b == 0 ==> q > 0) by (nonlinear_arith)
        requires
            b > 0,
            a == b * q + a % b,
    ;
    if a % b != 0 {
        assert(q + 1 <= a) by (nonlinear_arith)
            requires
                a >= 1,
                b > 0,
                q >= 0,
                a == b * q + a % b,
                0 < a % b < b,
        ;
    }
}

/// A row-major index stays inside the image.
pub proof fn lemma_pixel_index(w: int, h: int, r: int, c: int)
    requires
        0 <= r < h,
        0 <= c < w,
    ensures
        0 <= r * w + c < w * h,
        0 <= r * w,
{
    assert(0 <= r * w + c < w * h && 0 <= r * w) by (nonlinear_arith)
        requires
            0 <= r < h,
            0 <= c < w,
    ;
}

/// Which pixels a sample keeps: the finite ones, with `nonzero` all of them but
/// the zeros.
pub open spec fn keeps(v: F32, nonzero: bool) -> bool {
    v.finite() && (nonzero ==> v.rank() != 0)
}

/// The kept pixels of row `y` at columns `x`, `x + stride`, ... below `x1`.
pub open spec fn row_samples(
    pixels: Seq<F32>,
    w: int,
    y: int,
    x: int,
    x1: int,
    stride: int,
    nonzero: bool,
) -> Seq<F32>
    decreases x1 + stride - x,
{
    if x >= x1 || stride <= 0 {
        Seq::empty()
    } else {
        let v = pixels[y * w + x];
        let rest = row_samples(pixels, w, y, x + stride, x1, stride, nonzero);
        if keeps(v, nonzero) {
            seq![v] + rest
        } else {
            rest
        }
    }
}

/// How a block is sampled.
pub struct Lattice {
    /// Distance of sampled rows, and of sampled columns in a row.
    pub stride: usize,
    /// Sampled rows and columns are counted from the image corner, each row
    /// shifted by one column against the one before; else from the corner of
    /// the block.
    pub staggered: bool,
    /// Ignore pixels that are zero.
    pub nonzero: bool,
}

impl Lattice {
    /// The first sampled row from `y0` on.
    pub open spec fn first_row(self, y0: int) -> int {
        if self.staggered {
            y0 + (self.stride - y0 % self.stride as int) % self.stride as int
        } else {
            y0
        }
    }

    /// The first sampled column of row `y` from `x0` on.
    pub open spec fn first_col(self, y: int, x0: int) -> int {
        if self.staggered {
            let s = self.stride as int;
            x0 + ((y / s) % s + s - x0 % s) % s
        } else {
            x0
        }
    }
}

/// The kept pixels of the rows `y`, `y + stride`, ... below `y1`.
pub open spec fn rows_samples(
    pixels: Seq<F32>,
    w: int,
    lattice: Lattice,
    y: int,
    y1: int,
    x0: int,
    x1: int,
) -> Seq<F32>
    decreases y1 + lattice.stride - y,
{
    if y >= y1 || lattice.stride <= 0 {
        Seq::empty()
    } else {
        row_samples(
            pixels,
            w,
            y,
            lattice.first_col(y, x0),
            x1,
            lattice.stride as int,
            lattice.nonzero,
        ) + rows_samples(pixels, w, lattice, y + lattice.stride, y1, x0, x1)
    }
}

/// The smaller of two numbers.
pub open spec fn min_int(a: int, b: int) -> int {
    if a < b {
        a
    } else {
        b
    }
}

/// The samples of block `bi`, counted row by row with `nx` blocks to a row.
pub open spec fn block_samples(
    pixels: Seq<F32>,
    w: int,
    h: int,
    block: int,
    lattice: Lattice,
    bi: int,
) -> Seq<F32> {
    let nx = ceil_div(w, block);
    let x0 = (bi % nx) * block;
    let y0 = (bi / nx) * block;
    rows_samples(
        pixels,
        w,
        lattice,
        lattice.first_row(y0),
        min_int(y0 + block, h),
        x0,
        min_int(x0 + block, w),
    )
}

/// Bounds of block `bi`.
pub proof fn lemma_block(w: int, h: int, block: int, bi: int)
    requires
        w > 0,
        h > 0,
        block > 0,
        0 <= bi < ceil_div(w, block) * ceil_div(h, block),
    ensures
        ceil_div(w, block) > 0,
        0 <= bi % ceil_div(w, block) < ceil_div(w, block),
        0 <= bi / ceil_div(w, block) < ceil_div(h, block),
        0 <= (bi % ceil_div(w, block)) * block < w,
        0 <= (bi / ceil_div(w, block)) * block < h,
{
    let nx = ceil_div(w, block);
    let ny = ceil_div(h, block);
    lemma_ceil_div(w, block);
    lemma_ceil_div(h, block);
    let bx = bi % nx;
    let by = bi / nx;
    assert(0 <= bx < nx && 0 <= by < ny) by (nonlinear_arith)
        requires
            0 <= bi < nx * ny,
            nx > 0,
            bx == bi % nx,
            by == bi / nx,
    ;
    assert(0 <= bx * block <= (nx - 1) * block) by (nonlinear_arith)
        requires
            0 <= bx <= nx - 1,
            block > 0,
    ;
    assert(0 <= by * block <= (ny - 1) * block) by (nonlinear_arith)
        requires
            0 <= by <= ny - 1,
            block > 0,
    ;
}

/// Collect the kept pixels of one sampled row.
fn sample_row(
    pixels: &[F32],
    w: usize,
    h: usize,
    y: usize,
    x_first: usize,
    x1: usize,
    lattice: &Lattice,
    samples: &mut Vec<F32>,
)
    requires
        pixels@.len() == w * h,
        y < h,
        x1 <= w,
        lattice.stride > 0,
    ensures
        final(samples)@ == old(samples)@ + row_samples(
            pixels@,
            w as int,
            y as int,
            x_first as int,
            x1 as int,
            lattice.stride as int,
            lattice.nonzero,
        ),
{
    let stride: usize = lattice.stride;
    let nonzero: bool = lattice.nonzero;
    let ghost start = samples@;
    let ghost all = row_samples(
        pixels@,
        w as int,
        y as int,
        x_first as int,
        x1 as int,
        stride as int,
        nonzero,
    );
    proof {
        if x_first < x1 {
            lemma_pixel_index(w as int, h as int, y as int, x_first as int);
        }
    }
    let len: usize = pixels.len();
    if x_first >= x1 {
        assert(samples@ =~= start + all);
        return ;
    }
    let row: usize = y * w;
    let mut x: usize = x_first;
    let mut more: bool = true;
    while more
        invariant
            row == y * w,
            y < h,
            x1 <= w,
            len == pixels@.len(),
            len == w * h,
            stride > 0,
            more ==> x < x1,
            start + all == samples@ + (if more {
                row_samples(
                    pixels@,
                    w as int,
                    y as int,
                    x as int,
                    x1 as int,
                    stride as int,
                    nonzero,
                )
            } else {
                Seq::empty()
            }),
        decreases (if more {
            x1 - x
        } else {
            0
        }),
    {
        proof {
            lemma_pixel_index(w as int, h as int, y as int, x as int);
        }
        let v = pixels[row + x];
        let ghost before = samples@;
        let ghost rest = row_samples(
            pixels@,
            w as int,
            y as int,
            x + stride,
            x1 as int,
            stride as int,
            nonzero,
        );
        if v.is_finite() && (!nonzero || v.rank_key() != 0) {
            samples.push(v);
            assert(before + (seq![v] + rest) =~= samples@ + rest);
        }
        if stride < x1 - x {
            x = x + stride;
        } else {
            more = false;
            assert(samples@ + rest =~= samples@);
        }
    }
    assert(samples@ =~= start + all);
}

/// The way from remainder `q` up to remainder `p` of `s`.
fn forward(q: usize, p: usize, s: usize) -> (d: usize)
    requires
        q < s,
        p < s,
    ensures
        d == (p + s - q) % s as int,
{
    if p >= q {
        proof {
            assert((p + s - q) % s as int == p - q) by (nonlinear_arith)
                requires
                    0 <= p - q < s,
            ;
        }
        p - q
    } else {
        proof {
            assert((p + s - q) % s as int == p + s - q) by (nonlinear_arith)
                requires
                    0 <= p + s - q < s,
            ;
        }
        s - (q - p)
    }
}

/// Collect the samples of one block.
fn sample_block(
    pixels: &[F32],
    w: usize,
    h: usize,
    block: usize,
    lattice: &Lattice,
    bi: usize,
) -> (samples: Vec<F32>)
    requires
        w > 0,
        h > 0,
        pixels@.len() == w * h,
        block > 0,
        lattice.stride > 0,
        bi < ceil_div(w as int, block as int) * ceil_div(h as int, block as int),
    ensures
        samples@ == block_samples(
            pixels@,
            w as int,
            h as int,
            block as int,
            *lattice,
            bi as int,
        ),
{
    let nx: usize = div_up(w, block);
    proof {
        lemma_block(w as int, h as int, block as int, bi as int);
    }
    let x0: usize = (bi % nx) * block;
    let y0: usize = (bi / nx) * block;
    let x1: usize = if block < w - x0 {
        x0 + block
    } else {
        w
    };
    let y1: usize = if block < h - y0 {
        y0 + block
    } else {
        h
    };
    let stride: usize = lattice.stride;
    let mut samples: Vec<F32> = Vec::new();
    let down: usize = if lattice.staggered {
        (stride - y0 % stride) % stride
    } else {
        0
    };
    let ghost all = block_samples(
        pixels@,
        w as int,
        h as int,
        block as int,
        *lattice,
        bi as int,
    );
    assert(all == rows_samples(
        pixels@,
        w as int,
        *lattice,
        y0 + down,
        y1 as int,
        x0 as int,
        x1 as int,
    ));
    if down >= y1 - y0 {
        assert(samples@ =~= all);
        return samples;
    }
    let mut y: usize = y0 + down;
    let mut more: bool = true;
    assert(samples@ + all =~= all);
    while more
        invariant
            w > 0,
            y1 <= h,
            x0 < x1 <= w,
            pixels@.len() == w * h,
            stride == lattice.stride,
            stride > 0,
            more ==> y < y1,
            all == samples@ + (if more {
                rows_samples(
                    pixels@,
                    w as int,
                    *lattice,
                    y as int,
                    y1 as int,
                    x0 as int,
                    x1 as int,
                )
            } else {
                Seq::empty()
            }),
        decreases (if more {
            y1 - y
        } else {
            0
        }),
    {
        let shift: usize = if lattice.staggered {
            forward(x0 % stride, (y / stride) % stride, stride)
        } else {
            0
        };
        let ghost before = samples@;
        let ghost row = row_samples(
            pixels@,
            w as int,
            y as int,
            lattice.first_col(y as int, x0 as int),
            x1 as int,
            stride as int,
            lattice.nonzero,
        );
        if shift < x1 - x0 {
            sample_row(pixels, w, h, y, x0 + shift, x1, lattice, &mut samples);
        } else {
            assert(before + row =~= samples@);
        }
        proof {
            let rest = rows_samples(
                pixels@,
                w as int,
                *lattice,
                y + stride,
                y1 as int,
                x0 as int,
                x1 as int,
            );
            assert(before + (row + rest) =~= samples@ + rest);
            if stride >= y1 - y {
                assert(samples@ + rest =~= samples@);
            }
        }
        if stride < y1 - y {
            y = y + stride;
        } else {
            more = false;
        }
    }
    assert(samples@ =~= all);
    samples
}

/// A number and the level that it is measured from.
pub type Deviation = (F32, F32);

/// The samples at or below `m`, each with `m`.
pub open spec fn low_half(samples: Seq<F32>, m: F32) -> Seq<Deviation>
    decreases samples.len(),
{
    if samples.len() == 0 {
        Seq::empty()
    } else {
        let head = low_half(samples.drop_last(), m);
        if m.at_least(samples.last()) {
            head.push((samples.last(), m))
        } else {
            head
        }
    }
}

/// `grid` holds the midpoint of every block's samples.
pub open spec fn is_block_grid(
    pixels: Seq<F32>,
    w: int,
    h: int,
    block: int,
    lattice: Lattice,
    grid: Seq<F32>,
) -> bool {
    &&& grid.len() == ceil_div(w, block) * ceil_div(h, block)
    &&& forall|bi: int|
        0 <= bi < grid.len() ==> is_midpoint(
            block_samples(pixels, w, h, block, lattice, bi),
            #[trigger] grid[bi],
        )
}

/// The samples of the first `n` blocks that are at or below their block's
/// median, block by block.
pub open spec fn noise_samples(
    pixels: Seq<F32>,
    w: int,
    h: int,
    block: int,
    lattice: Lattice,
    grid: Seq<F32>,
    n: int,
) -> Seq<Deviation>
    decreases n,
{
    if n <= 0 {
        Seq::empty()
    } else {
        noise_samples(pixels, w, h, block, lattice, grid, n - 1) + low_half(
            block_samples(pixels, w, h, block, lattice, n - 1),
            grid[n - 1],
        )
    }
}

/// Append the samples at or below `m`.
pub(crate) fn collect_low(samples: &[F32], m: F32, out: &mut Vec<Deviation>)
    ensures
        final(out)@ == old(out)@ + low_half(samples@, m),
{
    let ghost start = out@;
    let mut i: usize = 0;
    assert(start + low_half(samples@.take(0), m) =~= start);
    while i < samples.len()
        invariant
            0 <= i <= samples@.len(),
            out@ == start + low_half(samples@.take(i as int), m),
        decreases samples@.len() - i,
    {
        let v = samples[i];
        assert(samples@.take(i + 1).drop_last() =~= samples@.take(i as int));
        if m.ge(v) {
            out.push((v, m));
            assert(out@ =~= start + low_half(samples@.take(i + 1), m));
        }
        i += 1;
    }
    assert(samples@.take(samples@.len() as int) =~= samples@);
}

/// The block grid and the low samples of all blocks.
fn block_medians(pixels: &[F32], w: usize, h: usize, block: usize, lattice: &Lattice) -> (out: (
    Vec<F32>,
    Vec<Deviation>,
))
    requires
        w > 0,
        h > 0,
        pixels@.len() == w * h,
        block > 0,
        lattice.stride > 0,
    ensures
        is_block_grid(pixels@, w as int, h as int, block as int, *lattice, out.0@),
        out.1@ == noise_samples(
            pixels@,
            w as int,
            h as int,
            block as int,
            *lattice,
            out.0@,
            out.0@.len() as int,
        ),
{
    let n: usize = count_blocks(pixels.len(), w, h, block);
    let mut grid: Vec<F32> = Vec::new();
    let mut low: Vec<Deviation> = Vec::new();
    let mut bi: usize = 0;
    while bi < n
        invariant
            w > 0,
            h > 0,
            pixels@.len() == w * h,
            block > 0,
            lattice.stride > 0,
            n == ceil_div(w as int, block as int) * ceil_div(h as int, block as int),
            0 <= bi <= n,
            grid@.len() == bi,
            forall|k: int|
                0 <= k < bi ==> is_midpoint(
                    block_samples(pixels@, w as int, h as int, block as int, *lattice, k),
                    #[trigger] grid@[k],
                ),
            low@ == noise_samples(
                pixels@,
                w as int,
                h as int,
                block as int,
                *lattice,
                grid@,
                bi as int,
            ),
        decreases n - bi,
    {
        let samples = sample_block(pixels, w, h, block, lattice, bi);
        let m = midpoint_f32(&samples);
        let ghost before = grid@;
        grid.push(m);
        collect_low(&samples, m, &mut low);
        proof {
            lemma_noise_prefix(
                pixels@,
                w as int,
                h as int,
                block as int,
                *lattice,
                before,
                grid@,
                bi as int,
            );
        }
        bi += 1;
    }
    (grid, low)
}

proof fn lemma_noise_prefix(
    pixels: Seq<F32>,
    w: int,
    h: int,
    block: int,
    lattice: Lattice,
    a: Seq<F32>,
    b: Seq<F32>,
    n: int,
)
    requires
        forall|k: int| 0 <= k < n ==> #[trigger] a[k] == b[k],
    ensures
        noise_samples(pixels, w, h, block, lattice, a, n) == noise_samples(
            pixels,
            w,
            h,
            block,
            lattice,
            b,
            n,
        ),
    decreases n,
{
    if n > 0 {
        lemma_noise_prefix(pixels, w, h, block, lattice, a, b, n - 1);
        assert(a[n - 1] == b[n - 1]);
    }
}

/// Number of blocks of an image of `len` pixels.
fn count_blocks(len: usize, w: usize, h: usize, block: usize) -> (n: usize)
    requires
        block > 0,
        len == w * h,
    ensures
        n == ceil_div(w as int, block as int) * ceil_div(h as int, block as int),
{
    let nx: usize = div_up(w, block);
    let ny: usize = div_up(h, block);
    assert(0 <= nx * ny <= w * h) by (nonlinear_arith)
        requires
            0 <= nx <= w,
            0 <= ny <= h,
    ;
    nx * ny
}

/// Background levels on a grid of blocks.
pub struct BackgroundGrid {
    /// Row-major, `nx` wide.
    pub grid: Vec<F32>,
    pub nx: usize,
    pub ny: usize,
    pub block: usize,
}

impl BackgroundGrid {
    /// The grid belongs to a `w` by `h` image.
    pub open spec fn covers(self, w: int, h: int) -> bool {
        &&& w > 0
        &&& h > 0
        &&& self.block > 0
        &&& self.nx == ceil_div(w, self.block as int)
        &&& self.ny == ceil_div(h, self.block as int)
        &&& self.grid@.len() == self.nx * self.ny
        &&& self.nx > 0
        &&& self.ny > 0
    }

    /// Median of the grid.
    pub fn level(&self) -> (m: F32)
        ensures
            is_midpoint(self.grid@, m),
    {
        midpoint_f32(&self.grid)
    }
}

/// What `rms` may answer for the deviations.
pub open spec fn rms_says<R: Fn(&Vec<Deviation>) -> F32>(
    rms: R,
    devs: Seq<Deviation>,
    s: F32,
) -> bool {
    exists|v: Vec<Deviation>| v@ == devs && #[trigger] call_ensures(rms, (&v,), s)
}

/// The noise of the deviations: what `rms` says, or zero where there are none.
pub open spec fn is_noise<R: Fn(&Vec<Deviation>) -> F32>(
    rms: R,
    devs: Seq<Deviation>,
    s: F32,
) -> bool {
    if devs.len() == 0 {
        s == F32::zero()
    } else {
        rms_says(rms, devs, s)
    }
}

fn noise_of<R: Fn(&Vec<Deviation>) -> F32>(rms: &R, devs: &Vec<Deviation>) -> (s: F32)
    requires
        forall|v: Vec<Deviation>| #[trigger] call_requires(*rms, (&v,)),
    ensures
        is_noise(*rms, devs@, s),
{
    if devs.len() == 0 {
        F32 { bits: 0 }
    } else {
        rms(devs)
    }
}

/// One of `parts` parts of a block, and at least one pixel.
pub open spec fn coarse_stride(block: int, parts: int) -> int {
    if block / parts > 1 {
        block / parts
    } else {
        1
    }
}

/// The lattice that samples each block from its corner.
pub open spec fn corner_lattice(block: int) -> Lattice {
    Lattice { stride: coarse_stride(block, 8) as usize, staggered: false, nonzero: false }
}

/// The lattice that shifts each sampled row by one column.
pub open spec fn staggered_lattice(stride: int) -> Lattice {
    Lattice { stride: stride as usize, staggered: true, nonzero: false }
}

/// Coarse background grid + global noise from a subsampled pre-pass.
///
/// The image is divided into `block` by `block` cells; each cell's median is
/// taken from a strided subsample (about 1/64 of the pixels for the default
/// block), giving an `nx` by `ny` background grid. The global noise is the RMS
/// of the below-median residuals across the subsample (the half-normal
/// estimate, robust to stars which only push the distribution upward); `rms`
/// does its arithmetic.
///
/// Returns `(grid, nx, ny, sigma)` with `grid` row-major `nx`-wide.
pub fn coarse_background<R: Fn(&Vec<Deviation>) -> F32>(
    pixels: &[F32],
    w: usize,
    h: usize,
    block: usize,
    rms: R,
) -> (out: (Vec<F32>, usize, usize, F32))
    requires
        w > 0,
        h > 0,
        pixels@.len() == w * h,
        block > 0,
        forall|v: Vec<Deviation>| #[trigger] call_requires(rms, (&v,)),
    ensures
        out.1 == ceil_div(w as int, block as int),
        out.2 == ceil_div(h as int, block as int),
        is_block_grid(
            pixels@,
            w as int,
            h as int,
            block as int,
            corner_lattice(block as int),
            out.0@,
        ),
        is_noise(
            rms,
            noise_samples(
                pixels@,
                w as int,
                h as int,
                block as int,
                corner_lattice(block as int),
                out.0@,
                out.0@.len() as int,
            ),
            out.3,
        ),
{
    let stride: usize = if block / 8 > 1 {
        block / 8
    } else {
        1
    };
    let lattice = Lattice { stride, staggered: false, nonzero: false };
    let (grid, low) = block_medians(pixels, w, h, block, &lattice);
    let sigma = noise_of(&rms, &low);
    (grid, div_up(w, block), div_up(h, block), sigma)
}

impl BackgroundGrid {
    /// Block medians over the staggered lattice, and the global noise from the
    /// samples at or below their block's median.
    pub fn build<R: Fn(&Vec<Deviation>) -> F32>(
        pixels: &[F32],
        w: usize,
        h: usize,
        block: usize,
        stride: usize,
        rms: &R,
    ) -> (out: (BackgroundGrid, F32))
        requires
            w > 0,
            h > 0,
            pixels@.len() == w * h,
            block > 0,
            stride > 0,
            forall|v: Vec<Deviation>| #[trigger] call_requires(*rms, (&v,)),
        ensures
            out.0.covers(w as int, h as int),
            out.0.block == block,
            is_block_grid(
                pixels@,
                w as int,
                h as int,
                block as int,
                staggered_lattice(stride as int),
                out.0.grid@,
            ),
            is_noise(
                *rms,
                noise_samples(
                    pixels@,
                    w as int,
                    h as int,
                    block as int,
                    staggered_lattice(stride as int),
                    out.0.grid@,
                    out.0.grid@.len() as int,
                ),
                out.1,
            ),
    {
        let lattice = Lattice { stride, staggered: true, nonzero: false };
        let (grid, low) = block_medians(pixels, w, h, block, &lattice);
        let sigma = noise_of(rms, &low);
        let nx: usize = div_up(w, block);
        let ny: usize = div_up(h, block);
        (BackgroundGrid { grid, nx, ny, block }, sigma)
    }
}

/// The last block whose centre is not beyond `x`, or the first.
pub open spec fn cell_before(x: int, block: int, n: int) -> int {
    if 2 * x < block {
        0
    } else {
        min_int((2 * x - block) / (2 * block), n - 1)
    }
}

/// The block after it, or the last.
pub open spec fn cell_after(x: int, block: int, n: int) -> int {
    min_int(cell_before(x, block, n) + 1, n - 1)
}

/// The two blocks along one axis whose centres surround position `x`. Grid
/// samples sit at block centres (`block/2 + i * block`); positions outside the
/// centres clamp to the nearest edge cell.
pub fn surrounding_cells(x: usize, block: usize, n: usize) -> (out: (usize, usize))
    requires
        block > 0,
        n > 0,
    ensures
        out.0 == cell_before(x as int, block as int, n as int),
        out.1 == cell_after(x as int, block as int, n as int),
        out.0 < n,
        out.1 < n,
{
    let half: usize = block - block / 2;
    let lo: usize = if x < half {
        0
    } else {
        let q: usize = (x - half) / block;
        proof {
            lemma_half_block(x as int, block as int);
        }
        if q < n - 1 {
            q
        } else {
            n - 1
        }
    };
    let hi: usize = if lo + 1 < n {
        lo + 1
    } else {
        n - 1
    };
    (lo, hi)
}

/// Halves may be rounded up before the division.
proof fn lemma_half_block(x: int, block: int)
    requires
        block > 0,
        x >= block - block / 2,
    ensures
        2 * x >= block,
        (2 * x - block) / (2 * block) == (x - (block - block / 2)) / block,
{
    let m = x - (block - block / 2);
    let q = m / block;
    let r = m % block;
    assert(m == block * q + r && 0 <= r < block) by (nonlinear_arith)
        requires
            block > 0,
            q == m / block,
            r == m % block,
    ;
    let odd = block % 2;
    assert(2 * x - block == 2 * m + odd);
    let big = 2 * block;
    assert((2 * m + odd) / big == q) by (nonlinear_arith)
        requires
            big == 2 * block,
            block > 0,
            m == block * q + r,
            0 <= r < block,
            0 <= odd < 2,
            odd == 0 || r + 1 <= block,
            2 * r + odd < big,
    ;
}

/// The centre of the first surrounding cell is at or before the position, and
/// that of the second after it, unless the position lies outside the centres.
/// Distances are counted in half pixels.
pub proof fn law_cells_surround(x: int, block: int, n: int)
    requires
        block > 0,
        n > 0,
        0 <= x,
    ensures
        2 * x >= block ==> 2 * cell_before(x, block, n) * block + block <= 2 * x,
        2 * x < block + 2 * (n - 1) * block ==> 2 * x < 2 * cell_after(x, block, n) * block + block
            || cell_after(x, block, n) == 0,
{
    let big = 2 * block;
    if 2 * x >= block {
        let d = 2 * x - block;
        let q = d / big;
        assert(big * q <= d < big * q + big) by (nonlinear_arith)
            requires
                big > 0,
                q == d / big,
        ;
        let lo = cell_before(x, block, n);
        assert(2 * lo * block <= big * q) by (nonlinear_arith)
            requires
                lo <= q,
                big == 2 * block,
                block > 0,
        ;
        assert(2 * (q + 1) * block == big * q + big) by (nonlinear_arith)
            requires
                big == 2 * block,
        ;
        if q < n - 1 {
            assert(cell_after(x, block, n) == q + 1);
        } else {
            assert(cell_after(x, block, n) == n - 1);
        }
    } else if n > 1 {
        assert(cell_after(x, block, n) == 1);
    }
}

/// The four grid levels around a pixel, with the first cell's place.
#[derive(Clone, Copy, Debug, PartialEq, Eq, Structural)]
pub struct Corners {
    pub m00: F32,
    pub m10: F32,
    pub m01: F32,
    pub m11: F32,
    pub bx: usize,
    pub by: usize,
    pub block: usize,
}

impl BackgroundGrid {
    /// The levels that the background at column `x` of row `y` blends.
    pub open spec fn corners_at(self, x: int, y: int) -> Corners {
        let block = self.block as int;
        let nx = self.nx as int;
        let bx0 = cell_before(x, block, nx);
        let bx1 = cell_after(x, block, nx);
        let by0 = cell_before(y, block, self.ny as int);
        let by1 = cell_after(y, block, self.ny as int);
        Corners {
            m00: self.grid@[by0 * nx + bx0],
            m10: self.grid@[by0 * nx + bx1],
            m01: self.grid@[by1 * nx + bx0],
            m11: self.grid@[by1 * nx + bx1],
            bx: bx0 as usize,
            by: by0 as usize,
            block: self.block,
        }
    }

    /// The levels around a pixel.
    pub fn corners(&self, x: usize, y: usize) -> (c: Corners)
        requires
            self.block > 0,
            self.nx > 0,
            self.ny > 0,
            self.grid@.len() == self.nx * self.ny,
        ensures
            c == self.corners_at(x as int, y as int),
    {
        let len: usize = self.grid.len();
        let (bx0, bx1) = surrounding_cells(x, self.block, self.nx);
        let (by0, by1) = surrounding_cells(y, self.block, self.ny);
        proof {
            let (nx, ny) = (self.nx as int, self.ny as int);
            lemma_pixel_index(nx, ny, by0 as int, bx0 as int);
            lemma_pixel_index(nx, ny, by0 as int, bx1 as int);
            lemma_pixel_index(nx, ny, by1 as int, bx0 as int);
            lemma_pixel_index(nx, ny, by1 as int, bx1 as int);
        }
        Corners {
            m00: self.grid[by0 * self.nx + bx0],
            m10: self.grid[by0 * self.nx + bx1],
            m01: self.grid[by1 * self.nx + bx0],
            m11: self.grid[by1 * self.nx + bx1],
            bx: bx0,
            by: by0,
            block: self.block,
        }
    }
}

/// What the background beyond the outermost block centres is made of.
#[derive(Clone, Copy, Debug, PartialEq, Eq, Structural)]
pub enum Edges {
    /// The nearest edge cell.
    Hold,
    /// The outermost two cells, so that a gradient can go on.
    Extend,
}

/// The first of the two neighbouring blocks nearest to `x`: the one that
/// [`cell_before`] gives, except that the last block has none after it.
pub open spec fn inner_cell(x: int, block: int, n: int) -> int {
    if n <= 1 {
        0
    } else {
        min_int(cell_before(x, block, n), n - 2)
    }
}

/// The two neighbouring blocks along one axis whose centres surround position
/// `x`, or the outermost two where it lies outside the centres.
pub fn inner_cells(x: usize, block: usize, n: usize) -> (out: (usize, usize))
    requires
        block > 0,
        n > 0,
    ensures
        out.0 == inner_cell(x as int, block as int, n as int),
        out.1 == min_int(inner_cell(x as int, block as int, n as int) + 1, n - 1),
        out.0 < n,
        out.1 < n,
{
    let (lo, hi) = surrounding_cells(x, block, n);
    if lo + 1 == n && n > 1 {
        (lo - 1, lo)
    } else {
        (lo, hi)
    }
}

impl BackgroundGrid {
    /// The levels of four neighbouring cells, the first at `bx`, `by`.
    pub open spec fn cells_at(self, bx: int, by: int) -> Corners {
        let nx = self.nx as int;
        let bx1 = min_int(bx + 1, nx - 1);
        let by1 = min_int(by + 1, self.ny - 1);
        Corners {
            m00: self.grid@[by * nx + bx],
            m10: self.grid@[by * nx + bx1],
            m01: self.grid@[by1 * nx + bx],
            m11: self.grid@[by1 * nx + bx1],
            bx: bx as usize,
            by: by as usize,
            block: self.block,
        }
    }

    /// The levels that the background at column `x` of row `y` is made of.
    pub open spec fn levels_at(self, edges: Edges, x: int, y: int) -> Corners {
        let block = self.block as int;
        match edges {
            Edges::Hold => self.corners_at(x, y),
            Edges::Extend => self.cells_at(
                inner_cell(x, block, self.nx as int),
                inner_cell(y, block, self.ny as int),
            ),
        }
    }

    /// The levels that the background at a pixel is made of.
    pub fn levels(&self, edges: Edges, x: usize, y: usize) -> (c: Corners)
        requires
            self.block > 0,
            self.nx > 0,
            self.ny > 0,
            self.grid@.len() == self.nx * self.ny,
        ensures
            c == self.levels_at(edges, x as int, y as int),
    {
        match edges {
            Edges::Hold => self.corners(x, y),
            Edges::Extend => {
                let len: usize = self.grid.len();
                let (bx0, bx1) = inner_cells(x, self.block, self.nx);
                let (by0, by1) = inner_cells(y, self.block, self.ny);
                proof {
                    let (nx, ny) = (self.nx as int, self.ny as int);
                    lemma_pixel_index(nx, ny, by0 as int, bx0 as int);
                    lemma_pixel_index(nx, ny, by0 as int, bx1 as int);
                    lemma_pixel_index(nx, ny, by1 as int, bx0 as int);
                    lemma_pixel_index(nx, ny, by1 as int, bx1 as int);
                }
                Corners {
                    m00: self.grid[by0 * self.nx + bx0],
                    m10: self.grid[by0 * self.nx + bx1],
                    m01: self.grid[by1 * self.nx + bx0],
                    m11: self.grid[by1 * self.nx + bx1],
                    bx: bx0,
                    by: by0,
                    block: self.block,
                }
            },
        }
    }
}

/// Between the outermost centres both treatments of the edges take the same
/// cells.
pub proof fn law_edges_agree_inside(x: int, block: int, n: int)
    requires
        block > 0,
        n > 1,
        0 <= x,
        2 * x < block + 2 * (n - 1) * block,
    ensures
        inner_cell(x, block, n) == cell_before(x, block, n),
        inner_cell(x, block, n) + 1 == cell_after(x, block, n),
{
    let big = 2 * block;
    if 2 * x >= block {
        let d = 2 * x - block;
        let q = d / big;
        assert(q < n - 1) by (nonlinear_arith)
            requires
                big == 2 * block,
                block > 0,
                q == d / big,
                d < 2 * (n - 1) * block,
        ;
    }
}

/// The lattice of every pixel that is not zero.
pub open spec fn nonzero_lattice() -> Lattice {
    Lattice { stride: 1, staggered: false, nonzero: true }
}

/// The midpoint of one block's pixels, ignoring zeros.
fn nonzero_midpoint(pixels: &[F32], w: usize, h: usize, block: usize, bi: usize) -> (m: F32)
    requires
        w > 0,
        h > 0,
        pixels@.len() == w * h,
        block > 0,
        bi < ceil_div(w as int, block as int) * ceil_div(h as int, block as int),
    ensures
        is_midpoint(
            block_samples(pixels@, w as int, h as int, block as int, nonzero_lattice(), bi as int),
            m,
        ),
{
    let lattice = Lattice { stride: 1, staggered: false, nonzero: true };
    let samples = sample_block(pixels, w, h, block, &lattice, bi);
    midpoint_f32(&samples)
}

/// `surface` holds what `blend` may answer for the levels around each pixel.
pub open spec fn is_surface<B: Fn(Corners, usize, usize) -> F32>(
    blend: B,
    grid: BackgroundGrid,
    edges: Edges,
    w: int,
    h: int,
    surface: Seq<F32>,
) -> bool {
    &&& surface.len() == w * h
    &&& forall|y: usize, x: usize|
        y < h && x < w ==> #[trigger] blends(blend, grid, edges, y, x, surface[y * w + x])
}

/// `blend` may answer `v` for column `x` of row `y`.
pub open spec fn blends<B: Fn(Corners, usize, usize) -> F32>(
    blend: B,
    grid: BackgroundGrid,
    edges: Edges,
    y: usize,
    x: usize,
    v: F32,
) -> bool {
    call_ensures(blend, (grid.levels_at(edges, x as int, y as int), x, y), v)
}

/// `row` holds what `blend` may answer for the columns of row `y`.
pub open spec fn row_blended<B: Fn(Corners, usize, usize) -> F32>(
    blend: &B,
    grid: &BackgroundGrid,
    edges: Edges,
    y: usize,
    row: Seq<F32>,
) -> bool {
    forall|x: usize| x < row.len() ==> #[trigger] blends(*blend, *grid, edges, y, x, row[x as int])
}

fn blend_row<B: Fn(Corners, usize, usize) -> F32>(
    blend: &B,
    grid: &BackgroundGrid,
    edges: Edges,
    y: usize,
    row: &mut [F32],
)
    requires
        grid.block > 0,
        grid.nx > 0,
        grid.ny > 0,
        grid.grid@.len() == grid.nx * grid.ny,
        forall|c: Corners, x: usize, y: usize| #[trigger] call_requires(*blend, (c, x, y)),
    ensures
        final(row)@.len() == old(row)@.len(),
        row_blended(blend, grid, edges, y, final(row)@),
{
    let ghost n = row@.len();
    let mut x: usize = 0;
    while x < row.len()
        invariant
            0 <= x <= n,
            row@.len() == n,
            grid.block > 0,
            grid.nx > 0,
            grid.ny > 0,
            grid.grid@.len() == grid.nx * grid.ny,
            forall|c: Corners, x: usize, y: usize| #[trigger] call_requires(*blend, (c, x, y)),
            forall|k: usize| k < x ==> #[trigger] blends(*blend, *grid, edges, y, k, row@[k as int]),
        decreases n - x,
    {
        let c = grid.levels(edges, x, y);
        let v = blend(c, x, y);
        let ghost before = row@;
        row[x] = v;
        assert(row@ == before.update(x as int, v));
        x += 1;
    }
}

/// The surface of a grid over a whole image, row by row.
pub fn background_surface<B: Fn(Corners, usize, usize) -> F32 + Sync + Send>(
    grid: &BackgroundGrid,
    edges: Edges,
    len: usize,
    w: usize,
    h: usize,
    blend: &B,
) -> (surface: Vec<F32>)
    requires
        grid.covers(w as int, h as int),
        len == w * h,
        forall|c: Corners, x: usize, y: usize| #[trigger] call_requires(*blend, (c, x, y)),
    ensures
        is_surface(*blend, *grid, edges, w as int, h as int, surface@),
{
    let mut surface: Vec<F32> = vec![F32 { bits: 0 }; len];
    let fill = |y: usize, row: &mut [F32]|
        requires
            old(row)@.len() == w,
        ensures
            final(row)@.len() == old(row)@.len(),
            row_blended(blend, grid, edges, y, final(row)@),
        { blend_row(blend, grid, edges, y, row) };
    proof {
        assert((w * h) % w as int == 0) by (nonlinear_arith)
            requires
                w > 0,
        ;
    }
    for_each_chunk_mut(&mut surface, w, fill);
    proof {
        assert forall|y: usize, x: usize| y < h && x < w implies #[trigger] blends(
            *blend,
            *grid,
            edges,
            y,
            x,
            surface@[y * w + x],
        ) by {
            assert((y + 1) * w <= w * h) by (nonlinear_arith)
                requires
                    y + 1 <= h,
                    w > 0,
            ;
            assert((y + 1) * w == y * w + w) by (nonlinear_arith);
            assert(0 <= y * w) by (nonlinear_arith);
            let row = chunk(surface@, w as int, y as int);
            assert(row.len() == w);
            assert(row[x as int] == surface@[y * w + x]);
            assert(exists|c: &mut [F32]|
                #[trigger] call_ensures(fill, (y, c), ()) && final(c)@ == row);
            assert(row_blended(blend, grid, edges, y, row));
            assert(blends(*blend, *grid, edges, y, x, row[x as int]));
        }
    }
    surface
}

/// Estimate a spatially varying background by computing block medians and
/// interpolating between block centers.
///
/// The image is divided into `block_size` by `block_size` tiles. For each tile,
/// the median pixel value is computed (ignoring zeros). A smooth background
/// surface is then reconstructed via bilinear interpolation between tile
/// centers; `blend` does its arithmetic.
///
/// This effectively removes large-scale structure (nebulosity, Milky Way
/// emission, vignetting) while preserving point sources (stars).
///
/// The per-block medians and the per-row interpolation both fan out across
/// threads. Each block / row writes its own output slot, so the result does
/// not depend on their number.
pub fn estimate_local_background<B: Fn(Corners, usize, usize) -> F32 + Sync + Send>(
    pixels: &[F32],
    width: u32,
    height: u32,
    block_size: u32,
    blend: &B,
) -> (out: (BackgroundGrid, Vec<F32>))
    requires
        width > 0,
        height > 0,
        block_size > 0,
        pixels@.len() == width * height,
        forall|c: Corners, x: usize, y: usize| #[trigger] call_requires(*blend, (c, x, y)),
    ensures
        out.0.covers(width as int, height as int),
        out.0.block == block_size,
        is_block_grid(
            pixels@,
            width as int,
            height as int,
            block_size as int,
            nonzero_lattice(),
            out.0.grid@,
        ),
        is_surface(*blend, out.0, Edges::Hold, width as int, height as int, out.1@),
{
    let w: usize = width as usize;
    let h: usize = height as usize;
    let bs: usize = block_size as usize;
    let n: usize = count_blocks(pixels.len(), w, h, bs);
    let median = |bi: usize| -> (m: F32)
        requires
            bi < n,
        ensures
            is_midpoint(
                block_samples(pixels@, w as int, h as int, bs as int, nonzero_lattice(), bi as int),
                m,
            ),
        { nonzero_midpoint(pixels, w, h, bs, bi) };
    let medians: Vec<F32> = map_indices(n, median);
    proof {
        assert forall|bi: int| 0 <= bi < medians@.len() implies is_midpoint(
            block_samples(pixels@, w as int, h as int, bs as int, nonzero_lattice(), bi),
            #[trigger] medians@[bi],
        ) by {
            let i = bi as usize;
            assert(call_ensures(median, (i,), medians@[i as int]));
        }
    }
    let grid = BackgroundGrid { grid: medians, nx: div_up(w, bs), ny: div_up(h, bs), block: bs };
    let surface = background_surface(&grid, Edges::Hold, pixels.len(), w, h, blend);
    (grid, surface)
}

proof fn lemma_row_all_alike(
    pixels: Seq<F32>,
    w: int,
    y: int,
    x: int,
    x1: int,
    stride: int,
    nonzero: bool,
    v: F32,
)
    requires
        stride > 0,
        0 <= x,
        forall|c: int| x <= c < x1 ==> #[trigger] pixels[y * w + c] == v,
    ensures
        forall|i: int|
            0 <= i < row_samples(pixels, w, y, x, x1, stride, nonzero).len() ==> (
            #[trigger] row_samples(pixels, w, y, x, x1, stride, nonzero)[i]) == v,
        row_samples(pixels, w, y, x, x1, stride, nonzero).len() > 0 <==> x < x1 && keeps(
            v,
            nonzero,
        ),
    decreases x1 + stride - x,
{
    if x < x1 {
        assert(pixels[y * w + x] == v);
        lemma_row_all_alike(pixels, w, y, x + stride, x1, stride, nonzero, v);
    }
}

proof fn lemma_rows_all_alike(
    pixels: Seq<F32>,
    w: int,
    lattice: Lattice,
    y: int,
    y1: int,
    x0: int,
    x1: int,
    v: F32,
)
    requires
        lattice.stride > 0,
        !lattice.staggered,
        0 <= y,
        0 <= x0 < x1,
        forall|r: int, c: int|
            y <= r < y1 && x0 <= c < x1 ==> #[trigger] pixels[r * w + c] == v,
    ensures
        forall|i: int|
            0 <= i < rows_samples(pixels, w, lattice, y, y1, x0, x1).len() ==> (
            #[trigger] rows_samples(pixels, w, lattice, y, y1, x0, x1)[i]) == v,
        rows_samples(pixels, w, lattice, y, y1, x0, x1).len() > 0 <==> y < y1 && keeps(
            v,
            lattice.nonzero,
        ),
    decreases y1 + lattice.stride - y,
{
    if y < y1 {
        lemma_row_all_alike(pixels, w, y, x0, x1, lattice.stride as int, lattice.nonzero, v);
        lemma_rows_all_alike(pixels, w, lattice, y + lattice.stride, y1, x0, x1, v);
    }
}

/// A constant image is its own background, negative or not, where four equal
/// levels blend to that level. One that is zero or not a number has the level
/// zero.
pub proof fn law_constant_background<B: Fn(Corners, usize, usize) -> F32>(
    blend: B,
    pixels: Seq<F32>,
    w: int,
    h: int,
    v: F32,
    grid: BackgroundGrid,
    surface: Seq<F32>,
)
    requires
        0 < w <= u32::MAX,
        0 < h <= u32::MAX,
        pixels.len() == w * h,
        forall|i: int| 0 <= i < pixels.len() ==> #[trigger] pixels[i] == v,
        grid.covers(w, h),
        is_block_grid(pixels, w, h, grid.block as int, nonzero_lattice(), grid.grid@),
        is_surface(blend, grid, Edges::Hold, w, h, surface),
        forall|c: Corners, x: usize, y: usize, b: F32|
            c.m00 == c.m10 && c.m00 == c.m01 && c.m00 == c.m11 && #[trigger] call_ensures(
                blend,
                (c, x, y),
                b,
            ) ==> b == c.m00,
    ensures
        forall|bi: int|
            0 <= bi < grid.grid@.len() ==> #[trigger] grid.grid@[bi] == (if keeps(v, true) {
                v
            } else {
                F32::zero()
            }),
        forall|i: int|
            0 <= i < surface.len() ==> #[trigger] surface[i] == (if keeps(v, true) {
                v
            } else {
                F32::zero()
            }),
{
    let block = grid.block as int;
    let level = if keeps(v, true) {
        v
    } else {
        F32::zero()
    };
    assert forall|bi: int| 0 <= bi < grid.grid@.len() implies #[trigger] grid.grid@[bi]
        == level by {
        lemma_block(w, h, block, bi);
        let nx = ceil_div(w, block);
        let x0 = (bi % nx) * block;
        let y0 = (bi / nx) * block;
        let x1 = min_int(x0 + block, w);
        let y1 = min_int(y0 + block, h);
        assert forall|r: int, c: int| y0 <= r < y1 && x0 <= c < x1 implies #[trigger] pixels[r * w
            + c] == v by {
            lemma_pixel_index(w, h, r, c);
        }
        lemma_rows_all_alike(pixels, w, nonzero_lattice(), y0, y1, x0, x1, v);
        let samples = block_samples(pixels, w, h, block, nonzero_lattice(), bi);
        let m = grid.grid@[bi];
        assert(is_midpoint(samples, m));
        if samples.len() > 0 {
            let rs = ranks(samples);
            let i = choose|i: int| 0 <= i < rs.len() && rs[i] == m.total_rank();
            assert(samples[i] == v);
            law_total_rank(m, v);
        }
    }
    let (nx, ny) = (grid.nx as int, grid.ny as int);
    assert forall|i: int| 0 <= i < surface.len() implies #[trigger] surface[i] == level by {
        let (y, x) = (i / w, i % w);
        assert(0 <= y < h && 0 <= x < w && y * w + x == i) by (nonlinear_arith)
            requires
                0 <= i < w * h,
                w > 0,
                y == i / w,
                x == i % w,
        ;
        assert(blends(blend, grid, Edges::Hold, y as usize, x as usize, surface[y * w + x]));
        let (bx0, bx1) = (cell_before(x, block, nx), cell_after(x, block, nx));
        let (by0, by1) = (cell_before(y, block, ny), cell_after(y, block, ny));
        lemma_cell_in_grid(x, block, nx);
        lemma_cell_in_grid(y, block, ny);
        lemma_pixel_index(nx, ny, by0, bx0);
        lemma_pixel_index(nx, ny, by0, bx1);
        lemma_pixel_index(nx, ny, by1, bx0);
        lemma_pixel_index(nx, ny, by1, bx1);
        let c = grid.levels_at(Edges::Hold, x, y);
        assert(c.m00 == level && c.m10 == level && c.m01 == level && c.m11 == level);
    }
}

proof fn lemma_cell_in_grid(x: int, block: int, n: int)
    requires
        block > 0,
        n > 0,
        0 <= x,
    ensures
        0 <= cell_before(x, block, n) < n,
        0 <= cell_after(x, block, n) < n,
{
    if 2 * x >= block {
        assert((2 * x - block) / (2 * block) >= 0) by (nonlinear_arith)
            requires
                2 * x >= block,
                block > 0,
        ;
    }
}

/// The block of a pixel.
pub open spec fn block_of(w: int, block: int, r: int, c: int) -> int {
    (r / block) * ceil_div(w, block) + c / block
}

/// Blocks tile the image: a pixel lies within the bounds of its own block and
/// of no other.
pub proof fn law_blocks_tile(w: int, h: int, block: int, r: int, c: int, bi: int)
    requires
        block > 0,
        0 <= r < h,
        0 <= c < w,
        0 <= bi < ceil_div(w, block) * ceil_div(h, block),
    ensures
        0 <= block_of(w, block, r, c) < ceil_div(w, block) * ceil_div(h, block),
        ({
            let nx = ceil_div(w, block);
            let x0 = (bi % nx) * block;
            let y0 = (bi / nx) * block;
            x0 <= c < x0 + block && y0 <= r < y0 + block
        }) <==> bi == block_of(w, block, r, c),
{
    let nx = ceil_div(w, block);
    let ny = ceil_div(h, block);
    lemma_ceil_div(w, block);
    lemma_ceil_div(h, block);
    lemma_block(w, h, block, bi);
    let (bx, by) = (c / block, r / block);
    lemma_quotient(c, block, bx);
    lemma_quotient(r, block, by);
    assert(0 <= bx < nx) by (nonlinear_arith)
        requires
            bx * block <= c,
            c < w,
            w <= nx * block,
            c < bx * block + block,
            0 <= c,
            block > 0,
    ;
    assert(0 <= by < ny) by (nonlinear_arith)
        requires
            by * block <= r,
            r < h,
            h <= ny * block,
            r < by * block + block,
            0 <= r,
            block > 0,
    ;
    lemma_pixel_index(nx, ny, by, bx);
    let own = by * nx + bx;
    assert(own % nx == bx && own / nx == by) by (nonlinear_arith)
        requires
            own == by * nx + bx,
            0 <= bx < nx,
    ;
    let (cx, cy) = (bi % nx, bi / nx);
    assert(bi == nx * cy + cx) by (nonlinear_arith)
        requires
            nx > 0,
            cx == bi % nx,
            cy == bi / nx,
    ;
    assert(nx * cy == cy * nx) by (nonlinear_arith);
    if cx * block <= c < cx * block + block {
        assert(cx == bx) by (nonlinear_arith)
            requires
                bx * block <= c < bx * block + block,
                cx * block <= c < cx * block + block,
                block > 0,
        ;
    }
    if cy * block <= r < cy * block + block {
        assert(cy == by) by (nonlinear_arith)
            requires
                by * block <= r < by * block + block,
                cy * block <= r < cy * block + block,
                block > 0,
        ;
    }
}

proof fn lemma_quotient(a: int, b: int, q: int)
    requires
        a >= 0,
        b > 0,
        q == a / b,
    ensures
        q * b <= a < q * b + b,
{
    assert(q * b <= a < q * b + b) by (nonlinear_arith)
        requires
            a >= 0,
            b > 0,
            q == a / b,
    ;
}

} // verus!
