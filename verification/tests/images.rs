//! Images, labels and backgrounds.

use tetra3::background::{
    background_surface, coarse_background, estimate_local_background, inner_cells,
    surrounding_cells, BackgroundGrid, Corners, Deviation, Edges,
};
use tetra3::blobs::{find_peak, neighbours};
use tetra3::gray::{to_grayscale_f32, Channels8, ImageData, Samples};
use tetra3::ieee::F32;
use tetra3::labels::label_above;
use tetra3::noise::subsample_residuals;
use tetra3::par::{for_each_chunk_mut, map_indices, map_subtract, map_subtract_clamp};

fn f(v: f32) -> F32 {
    F32 { bits: v.to_bits() }
}

fn v(v: F32) -> f32 {
    f32::from_bits(v.bits)
}

fn fs(values: &[f32]) -> Vec<F32> {
    values.iter().map(|&x| f(x)).collect()
}

fn weigh(r: F32, g: F32, b: F32) -> F32 {
    f(0.2126 * v(r) + 0.7152 * v(g) + 0.0722 * v(b))
}

fn gray(width: u32, height: u32, samples: Samples) -> Vec<f32> {
    to_grayscale_f32(&ImageData { width, height, samples }, &weigh).into_iter().map(v).collect()
}

#[test]
fn eight_bit_images_become_gray() {
    assert_eq!(gray(3, 1, Samples::Eight(Channels8::Luma, vec![0, 7, 255])), [0.0, 7.0, 255.0]);
    // Alpha is dropped.
    assert_eq!(gray(2, 1, Samples::Eight(Channels8::LumaA, vec![9, 1, 200, 255])), [9.0, 200.0]);
    // Gray pixels keep their level; one value to a pixel.
    let rgb = gray(2, 1, Samples::Eight(Channels8::Rgb, vec![50, 50, 50, 255, 255, 255]));
    assert_eq!(rgb, [50.0, 255.0]);
    let rgba = gray(1, 2, Samples::Eight(Channels8::Rgba, vec![0, 255, 0, 9, 0, 0, 0, 255]));
    assert_eq!(rgba.len(), 2);
    assert_eq!(rgba[0], 182.0);
    let red = gray(1, 1, Samples::Eight(Channels8::Rgb, vec![255, 0, 0]));
    assert_eq!(red, [54.0]);
    let blue = gray(1, 1, Samples::Eight(Channels8::Rgb, vec![0, 0, 255]));
    assert_eq!(blue, [18.0]);
    assert_eq!(rgba[1], 0.0);
}

#[test]
fn deep_images_keep_their_range() {
    assert_eq!(gray(2, 1, Samples::Luma16(vec![0, 65535])), [0.0, 65535.0]);
    assert_eq!(gray(1, 1, Samples::LumaA16(vec![1234, 9])), [1234.0]);
    let expected = 0.2126f32 * 1000.0 + 0.7152 * 2000.0 + 0.0722 * 3000.0;
    assert_eq!(gray(1, 1, Samples::Rgb16(vec![1000, 2000, 3000])), [expected]);
    assert_eq!(gray(1, 1, Samples::Rgba16(vec![1000, 2000, 3000, 5])), [expected]);
    let expected = 0.2126f32 * 0.25 + 0.7152 * 0.5 + 0.0722 * 0.75;
    assert_eq!(gray(1, 1, Samples::Rgb32F(fs(&[0.25, 0.5, 0.75]))), [expected]);
    assert_eq!(gray(1, 1, Samples::Rgba32F(fs(&[0.25, 0.5, 0.75, 1.0]))), [expected]);
}

#[test]
fn components_are_labelled() {
    let src = fs(&[
        9.0, 0.0, 0.0, 0.0, //
        0.0, 9.0, 0.0, 9.0, //
        0.0, 0.0, 0.0, 9.0,
    ]);
    let (labels, parts) = label_above(&src, f(5.0), 4, 3, true);
    assert_eq!(parts.len(), 2);
    assert_eq!(labels[0], labels[5]);
    assert_ne!(labels[0], labels[7]);
    assert_eq!(labels[1], 0);
    let second = &parts[labels[7] as usize - 1];
    assert_eq!(second.area, 2);
    assert_eq!((second.bbox_min, second.bbox_max), ((1, 3), (2, 3)));
    // Without diagonals the first part falls apart.
    let (_, parts) = label_above(&src, f(5.0), 4, 3, false);
    assert_eq!(parts.len(), 3);
    // Nothing is above the brightest.
    assert!(label_above(&src, f(9.0), 4, 3, true).1.is_empty());
}

#[test]
fn labels_and_runs_find_the_same_regions() {
    let mut state = 0x1234_5678_9abc_def1u64;
    let (w, h) = (37usize, 23usize);
    let src: Vec<F32> = (0..w * h)
        .map(|_| {
            state ^= state << 13;
            state ^= state >> 7;
            state ^= state << 17;
            f((state % 100) as f32)
        })
        .collect();
    let (labels, parts) = label_above(&src, f(70.0), w, h, true);
    let regions = tetra3::runs::sweep_runs(w, h, |r, c| v(src[r * w + c]) > 70.0);
    assert_eq!(parts.len(), regions.n_regions);
    // Two runs share a region exactly where their pixels share a label.
    let at = |i: usize| labels[regions.runs[i].row as usize * w + regions.runs[i].c0 as usize];
    for i in 0..regions.runs.len() {
        for j in 0..i {
            assert_eq!(at(i) == at(j), regions.region_of_run[i] == regions.region_of_run[j]);
        }
    }
}

fn blend(c: Corners, x: usize, y: usize) -> F32 {
    let half = c.block as f32 / 2.0;
    let tx = ((x as f32 - half) / c.block as f32 - c.bx as f32).clamp(0.0, 1.0);
    let ty = ((y as f32 - half) / c.block as f32 - c.by as f32).clamp(0.0, 1.0);
    let top = v(c.m00) * (1.0 - tx) + v(c.m10) * tx;
    let bot = v(c.m01) * (1.0 - tx) + v(c.m11) * tx;
    f(top * (1.0 - ty) + bot * ty)
}

fn rms(devs: &Vec<Deviation>) -> F32 {
    let sum: f64 = devs.iter().map(|&(x, m)| ((v(x) - v(m)) as f64).powi(2)).sum();
    f((sum / devs.len().max(1) as f64).sqrt() as f32)
}

#[test]
fn local_background_interpolates_block_medians() {
    // Four blocks with levels 10, 20, 30 and 40; zeros are ignored.
    let (w, h) = (8u32, 8u32);
    let mut pixels = vec![f(0.0); 64];
    for r in 0..8 {
        for c in 0..8 {
            let level = 10.0 * (1 + c / 4 + 2 * (r / 4)) as f32;
            pixels[r * 8 + c] = f(if (r + c) % 4 == 3 { 0.0 } else { level });
        }
    }
    let (grid, surface) = estimate_local_background(&pixels, w, h, 4, &blend);
    assert_eq!(grid.grid, fs(&[10.0, 20.0, 30.0, 40.0]));
    assert_eq!((grid.nx, grid.ny, grid.block), (2, 2, 4));
    // Beyond the block centers the level of the nearest block holds.
    assert_eq!(v(surface[0]), 10.0);
    assert_eq!(v(surface[63]), 40.0);
    // At the centers the levels themselves, between them their blend.
    assert_eq!(v(surface[2 * 8 + 6]), 20.0);
    assert_eq!(v(surface[4 * 8 + 4]), 25.0);
}

#[test]
fn constant_image_is_its_own_background() {
    for level in [-5.0f32, 5.0, 0.25] {
        let (grid, surface) = estimate_local_background(&vec![f(level); 16], 4, 4, 4, &blend);
        assert_eq!(grid.grid, fs(&[level]));
        assert!(surface.iter().all(|&s| v(s) == level));
    }
    // Zeros of either sign and what is not a number are ignored.
    let mixed = fs(&[-5.0, 0.0, -0.0, f32::NAN]);
    let (grid, _) = estimate_local_background(&mixed, 2, 2, 2, &blend);
    assert_eq!(grid.grid, fs(&[-5.0]));
    let (grid, surface) = estimate_local_background(&fs(&[-0.0; 4]), 2, 2, 2, &blend);
    assert_eq!(grid.grid, fs(&[0.0]));
    assert!(surface.iter().all(|&s| v(s) == 0.0));
}

#[test]
fn a_gradient_goes_on_beyond_the_outermost_centers() {
    // Block centers at 2, 6 and 10 along each axis.
    let grid = BackgroundGrid {
        grid: fs(&[10.0, 20.0, 40.0, 11.0, 21.0, 41.0]),
        nx: 3,
        ny: 2,
        block: 4,
    };
    assert_eq!(inner_cells(0, 4, 3), (0, 1));
    assert_eq!(inner_cells(6, 4, 3), (1, 2));
    assert_eq!(inner_cells(11, 4, 3), (1, 2));
    assert_eq!(inner_cells(11, 4, 1), (0, 0));
    let held = grid.levels(Edges::Hold, 11, 0);
    assert_eq!((held.bx, v(held.m00), v(held.m10)), (2, 40.0, 40.0));
    let extended = grid.levels(Edges::Extend, 11, 0);
    assert_eq!((extended.bx, v(extended.m00), v(extended.m10)), (1, 20.0, 40.0));
    assert_eq!((extended.by, v(extended.m01), v(extended.m11)), (0, 21.0, 41.0));
    let linear = |c: Corners, x: usize, _y: usize| {
        let t = (x as f32 - 2.0) / 4.0 - c.bx as f32;
        f(v(c.m00) * (1.0 - t) + v(c.m10) * t)
    };
    let surface = background_surface(&grid, Edges::Extend, 96, 12, 8, &linear);
    assert_eq!([v(surface[0]), v(surface[6]), v(surface[11])], [5.0, 20.0, 45.0]);
    let surface = background_surface(&grid, Edges::Hold, 96, 12, 8, &blend);
    assert_eq!([v(surface[0]), v(surface[6]), v(surface[11])], [10.0, 20.0, 40.0]);
}

#[test]
fn coarse_background_finds_level_and_noise() {
    let pixels = fs(&[1.0, 1.0, 3.0, 3.0, 1.0, 1.0, 3.0, 5.0]);
    let (grid, nx, ny, sigma) = coarse_background(&pixels, 4, 2, 2, rms);
    assert_eq!((nx, ny), (2, 1));
    assert_eq!(grid, fs(&[1.0, 3.0]));
    assert_eq!(v(sigma), 0.0);
    let (grid, _) = BackgroundGrid::build(&pixels, 4, 2, 2, 1, &rms);
    assert_eq!(v(grid.level()), 3.0);
    assert_eq!(surrounding_cells(0, 4, 3), (0, 1));
    assert_eq!(surrounding_cells(6, 4, 3), (1, 2));
    assert_eq!(surrounding_cells(11, 4, 3), (2, 2));
}

#[test]
fn residuals_are_taken_at_the_lattice() {
    let pixels: Vec<F32> = (0..16).map(|i| f(i as f32)).collect();
    let bg = BackgroundGrid { grid: fs(&[1.0]), nx: 1, ny: 1, block: 4 };
    let minus = |a: F32, b: F32| f(v(a) - v(b));
    let out = subsample_residuals(&pixels, 4, 4, &bg, 2, &blend, &minus);
    // Rows 0 and 2, the second shifted by one column.
    assert_eq!(out, fs(&[-1.0, 1.0, 8.0, 10.0]));
}

#[test]
fn indexed_work_fills_its_slots() {
    assert_eq!(map_indices(5, |i: usize| 10 * i), vec![0, 10, 20, 30, 40]);
    let mut buf = vec![0usize; 6];
    for_each_chunk_mut(&mut buf, 2, |i: usize, c: &mut [usize]| {
        c[0] = i;
        c[1] = 10 + i;
    });
    assert_eq!(buf, vec![0, 10, 1, 11, 2, 12]);
}

#[test]
fn subtraction_may_clamp() {
    let minus = |a: F32, b: F32| f(v(a) - v(b));
    let (a, b) = (fs(&[5.0, 1.0, f32::NAN]), fs(&[2.0, 4.0, 0.0, 9.0]));
    let plain = map_subtract(&a, &b, &minus);
    assert_eq!(plain[..2], fs(&[3.0, -3.0])[..]);
    assert!(v(plain[2]).is_nan());
    assert_eq!(map_subtract_clamp(&a, &b, &minus), fs(&[3.0, 0.0, 0.0]));
}

#[test]
fn rings_stop_at_the_border() {
    assert_eq!(neighbours((0, 0), 3, 3), vec![(0, 1), (1, 0), (1, 1)]);
    assert_eq!(neighbours((1, 1), 3, 3).len(), 8);
    assert!(neighbours((0, 0), 1, 1).is_empty());
    let image = fs(&[1.0, 9.0, 2.0, 9.0]);
    assert_eq!(find_peak(&image, 2, 2, &vec![(0, 0), (0, 1), (1, 1)], (0, 0)), (0, 1));
}
