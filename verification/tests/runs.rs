//! The sweep over lit pixels: runs, regions and packed rows.

use tetra3::ieee::F32;
use tetra3::mask::{pack_above_row, pack_bytes, pack_lit_row, sweep_runs_mask, MaskGeometry};
use tetra3::regions::RegionExtent;
use tetra3::runs::{merge_rows, sweep_runs, Run, RunRegions, Sweep};
use tetra3::union_find::{find, union};

fn bits(row: &[f32]) -> Vec<F32> {
    row.iter().map(|v| F32 { bits: v.to_bits() }).collect()
}


fn regions_of(mask: &[&[u8]]) -> RunRegions {
    let h = mask.len();
    let w = mask[0].len();
    sweep_runs(w, h, |r, c| mask[r][c] != 0)
}

/// Pack a byte mask into `words_per_row` words per row. Padding bits
/// (at or beyond `w`) and padding words are filled with garbage to
/// prove the sweep ignores them.
fn pack(mask: &[&[u8]], words_per_row: usize) -> Vec<u64> {
    let w = mask[0].len();
    let mut out = vec![u64::MAX; words_per_row * mask.len()];
    for (r, row) in mask.iter().enumerate() {
        for wi in 0..words_per_row {
            let mut word = 0u64;
            for b in 0..64 {
                let c = wi * 64 + b;
                let lit = if c < w { row[c] != 0 } else { (c + r) % 3 == 0 };
                word |= (lit as u64) << b;
            }
            out[r * words_per_row + wi] = word;
        }
    }
    out
}

fn regions_of_mask(mask: &[&[u8]]) -> RunRegions {
    let h = mask.len();
    let w = mask[0].len();
    let wpr = w.div_ceil(64);
    sweep_runs_mask(w, h, wpr, &pack(mask, wpr))
}

fn assert_same(a: &RunRegions, b: &RunRegions) {
    assert_eq!(a.n_regions, b.n_regions);
    assert_eq!(a.runs, b.runs);
    assert_eq!(a.region_of_run, b.region_of_run);
}

fn check_basic(rr: RunRegions) {
    assert_eq!(rr.n_regions, 4);
    let (offsets, order) = rr.group_by_region();
    // Region of the first run (top-left pair) contains 2 runs.
    let first = rr.region_of_run[0] as usize;
    assert_eq!((offsets[first + 1] - offsets[first]), 2);
    // Total pixels across all runs.
    let total: usize = order.iter().map(|&i| rr.runs[i as usize].len()).sum();
    assert_eq!(total, 7);
}

const BASIC: [&[u8]; 4] = [
    &[1, 1, 0, 0, 1],
    &[0, 1, 0, 1, 0], // diagonal touch joins col-4/row-0 with col-3/row-1
    &[0, 0, 0, 0, 0],
    &[1, 0, 0, 0, 1],
];

#[test]
fn test_sweep_runs_basic() {
    check_basic(regions_of(&BASIC));
}

#[test]
fn test_sweep_runs_mask_basic() {
    check_basic(regions_of_mask(&BASIC));
    assert_same(&regions_of(&BASIC), &regions_of_mask(&BASIC));
}

#[test]
fn test_sweep_runs_full_row_and_empty() {
    let rr = regions_of(&[&[1, 1, 1], &[1, 1, 1]]);
    assert_eq!(rr.n_regions, 1);
    assert_eq!(rr.runs.len(), 2);

    let rr = regions_of(&[&[0, 0], &[0, 0]]);
    assert_eq!(rr.n_regions, 0);
    assert!(rr.runs.is_empty());
}

#[test]
fn test_sweep_runs_mask_full_row_and_empty() {
    let rr = regions_of_mask(&[&[1, 1, 1], &[1, 1, 1]]);
    assert_eq!(rr.n_regions, 1);
    assert_eq!(rr.runs.len(), 2);

    let rr = regions_of_mask(&[&[0, 0], &[0, 0]]);
    assert_eq!(rr.n_regions, 0);
    assert!(rr.runs.is_empty());
}

#[test]
fn test_sweep_runs_mask_word_boundaries() {
    // Runs ending exactly at, starting exactly at, and spanning word
    // boundaries; a fully lit word inside a run; runs touching the right
    // image edge both with 64 | w and with w % 64 != 0.
    for w in [64usize, 65, 127, 128, 129, 200] {
        let row: Vec<u8> = (0..w)
            .map(|c| {
                (c == 0
                    || (60..=63).contains(&c)
                    || ((64..=70).contains(&c) && w > 66)
                    || (120..w).contains(&c)
                    || ((30..=191).contains(&c) && w == 200)) as u8
            })
            .collect();
        let blank = vec![0u8; w];
        let mask: [&[u8]; 3] = [&row, &blank, &row];
        assert_same(&regions_of(&mask), &regions_of_mask(&mask));
    }
    // Every pixel lit: one run per row spanning several words.
    let row = vec![1u8; 300];
    let mask: [&[u8]; 2] = [&row, &row];
    let rr = regions_of_mask(&mask);
    assert_same(&regions_of(&mask), &rr);
    assert_eq!(rr.n_regions, 1);
    assert_eq!(
        rr.runs[0],
        Run {
            row: 0,
            c0: 0,
            c1: 299
        }
    );
}

#[test]
fn test_sweep_runs_mask_matches_sweep_runs_random() {
    let mut state = 0x9e37_79b9_7f4a_7c15u64;
    let mut next = move || {
        state ^= state << 13;
        state ^= state >> 7;
        state ^= state << 17;
        state
    };
    let sizes = [
        (1usize, 1usize),
        (7, 3),
        (63, 5),
        (64, 4),
        (65, 6),
        (130, 9),
        (2136, 3),
        (257, 40),
    ];
    for &(w, h) in &sizes {
        for density in [1u64, 8, 32, 60] {
            let rows: Vec<Vec<u8>> = (0..h)
                .map(|_| (0..w).map(|_| (next() % 64 < density) as u8).collect())
                .collect();
            let mask: Vec<&[u8]> = rows.iter().map(|r| r.as_slice()).collect();
            let a = regions_of(&mask);
            let b = regions_of_mask(&mask);
            assert_same(&a, &b);
            // Padding words beyond `w.div_ceil(64)` are ignored too.
            let wpr = w.div_ceil(64) + 2;
            let c = sweep_runs_mask(w, h, wpr, &pack(&mask, wpr));
            assert_same(&a, &c);
        }
    }
}
#[test]
fn test_pack_lit_row_matches_predicate() {
    let w = 2136usize; // not a multiple of 64
    let mut state = 0x2545_f491_4f6c_dd1du64;
    let mut next = move || {
        state ^= state << 13;
        state ^= state >> 7;
        state ^= state << 17;
        state
    };
    let thr: Vec<f32> = (0..w).map(|c| c as f32 * 0.5).collect();
    let mut row: Vec<f32> = (0..w)
        .map(|c| c as f32 * 0.5 + (next() % 5) as f32 - 2.0)
        .collect();
    // Non-finite values must never be lit, whatever the threshold.
    row[3] = f32::NAN;
    row[64] = f32::INFINITY;
    row[65] = f32::NEG_INFINITY;
    row[w - 1] = f32::INFINITY;
    let mut words = vec![u64::MAX; w.div_ceil(64)];
    pack_lit_row(&bits(&row), &bits(&thr), &mut words);
    for c in 0..w {
        let expect = row[c].is_finite() && row[c] > thr[c];
        let got = words[c / 64] >> (c % 64) & 1 == 1;
        assert_eq!(got, expect, "column {c}");
    }
    // Padding bits are zero.
    assert_eq!(words[w / 64] >> (w % 64), 0);
}

#[test]
fn test_pack_above_row_matches_predicate() {
    let w = 2136usize;
    let mut state = 0x2545_f491_4f6c_dd1du64;
    let mut next = move || {
        state ^= state << 13;
        state ^= state >> 7;
        state ^= state << 17;
        state
    };
    let thr = 2.0_f32;
    let mut row: Vec<f32> = (0..w).map(|_| (next() % 5) as f32).collect();
    // Plain `>`: NaN never lit, +inf lit, -inf not.
    row[3] = f32::NAN;
    row[64] = f32::INFINITY;
    row[65] = f32::NEG_INFINITY;
    row[w - 1] = f32::INFINITY;
    let mut words = vec![u64::MAX; w.div_ceil(64)];
    pack_above_row(&bits(&row), F32 { bits: thr.to_bits() }, &mut words);
    for c in 0..w {
        let expect = row[c] > thr;
        let got = words[c / 64] >> (c % 64) & 1 == 1;
        assert_eq!(got, expect, "column {c}");
    }
    assert_eq!(words[w / 64] >> (w % 64), 0);
}

#[test]
fn union_find_joins_and_keeps_apart() {
    let mut parents: Vec<u32> = (0..6).collect();
    union(&mut parents, 1, 4);
    union(&mut parents, 4, 2);
    assert_eq!(find(&mut parents, 2), find(&mut parents, 1));
    assert_ne!(find(&mut parents, 0), find(&mut parents, 1));
    assert_eq!(find(&mut parents, 4), find(&mut parents, 1));
    assert_eq!(find(&mut parents, 5), 5);
}

#[test]
fn merge_rows_joins_touching_runs() {
    // Entries are (first column, last column, run).
    let mut parents: Vec<u32> = (0..5).collect();
    let prev = [(0, 1, 0), (4, 6, 1), (9, 9, 2)];
    let cur = [(2, 3, 3), (11, 12, 4)];
    merge_rows(&mut parents, &cur, &prev);
    // Columns 2..=3 touch 0..=1 and 4..=6 at a corner; 11 is clear of 9.
    assert_eq!(find(&mut parents, 3), find(&mut parents, 0));
    assert_eq!(find(&mut parents, 1), find(&mut parents, 0));
    assert_eq!(find(&mut parents, 2), 2);
    assert_eq!(find(&mut parents, 4), 4);
}

#[test]
fn sweep_by_hand() {
    let mut sweep = Sweep::new();
    sweep.push_run(0, 0, 2);
    sweep.push_run(0, 6, 6);
    sweep.end_row();
    sweep.push_run(1, 3, 5);
    sweep.end_row();
    sweep.push_run(2, 8, 9);
    sweep.end_row();
    let out = sweep.finish();
    assert_eq!(out.runs.len(), 4);
    assert_eq!(out.region_of_run, vec![0, 0, 0, 1]);
    assert_eq!(out.n_regions, 2);
    assert_eq!(out.runs[2].len(), 3);
    let (offsets, order) = out.group_by_region();
    assert_eq!(offsets, vec![0, 3, 4]);
    assert_eq!(order, vec![0, 1, 2, 3]);
}

#[test]
fn extent_of_a_region() {
    let rr = regions_of(&BASIC);
    let (offsets, order) = rr.group_by_region();
    let first = rr.region_of_run[0] as usize;
    let e = rr.extent(&order[offsets[first] as usize..offsets[first + 1] as usize]);
    assert_eq!(e.npix, 3);
    assert_eq!((e.min_col, e.max_col, e.min_row, e.max_row), (0, 1, 0, 1));
    assert!(e.clear_of_border(0, 5, 4));
    assert!(!e.clear_of_border(1, 5, 4));
}

#[test]
fn border_margin_counts_from_every_edge() {
    let e = RegionExtent { npix: 1, min_col: 3, max_col: 5, min_row: 2, max_row: 4 };
    assert!(e.clear_of_border(2, 8, 7));
    // Each edge in turn one pixel too close.
    assert!(!e.clear_of_border(3, 9, 8));
    assert!(!e.clear_of_border(2, 7, 7));
    assert!(!e.clear_of_border(2, 8, 6));
}

#[test]
fn pack_bytes_puts_byte_i_in_bit_i() {
    let mut bytes = [0u8; 64];
    bytes[0] = 1;
    bytes[9] = 1;
    bytes[63] = 1;
    assert_eq!(pack_bytes(&bytes), 1 | 1 << 9 | 1 << 63);
}

#[test]
fn one_mask_row_at_a_time() {
    let g = MaskGeometry::new(70, 1, 2, 2);
    let mut sweep = Sweep::new();
    g.push_row(&mut sweep, 0, &[u64::MAX << 60, u64::MAX]);
    sweep.end_row();
    let out = sweep.finish();
    assert_eq!(out.runs, vec![Run { row: 0, c0: 60, c1: 69 }]);
}

#[test]
fn finite_rows_pack_alike() {
    let row = bits(&[1.0, 2.0, -3.0, 2.5, 2.0]);
    let thr = F32 { bits: 2.0f32.to_bits() };
    let mut a = [0u64];
    let mut b = [0u64];
    pack_lit_row(&row, &[thr; 5], &mut a);
    pack_above_row(&row, thr, &mut b);
    assert_eq!(a, b);
    assert_eq!(a, [0b01000]);
}

#[test]
fn every_lit_pixel_is_in_one_run_and_runs_are_maximal() {
    let rr = regions_of(&BASIC);
    for r in 0..4usize {
        for c in 0..5usize {
            let hits = rr
                .runs
                .iter()
                .filter(|run| {
                    run.row as usize == r && run.c0 as usize <= c && c <= run.c1 as usize
                })
                .count();
            assert_eq!(hits, (BASIC[r][c] != 0) as usize);
        }
    }
    for run in &rr.runs {
        let row = BASIC[run.row as usize];
        assert!(run.c0 == 0 || row[run.c0 as usize - 1] == 0);
        assert!(run.c1 as usize == 4 || row[run.c1 as usize + 1] == 0);
    }
}

#[test]
fn regions_are_the_components() {
    // A ring with a dot inside: two components under 8-connectivity.
    let rr = regions_of(&[
        &[1, 1, 1, 1, 1],
        &[1, 0, 0, 0, 1],
        &[1, 0, 1, 0, 1],
        &[1, 0, 0, 0, 1],
        &[1, 1, 1, 1, 1],
    ]);
    assert_eq!(rr.n_regions, 2);
    let inner = rr.runs.iter().position(|r| r.row == 2 && r.c0 == 2).unwrap();
    for i in 0..rr.runs.len() {
        assert_eq!(rr.region_of_run[i] == rr.region_of_run[inner], i == inner);
    }
}

#[test]
fn only_the_bits_of_the_image_count() {
    // Two rows of 70 columns: a run across the word boundary and one below it.
    let (w, h) = (70usize, 2usize);
    let narrow = vec![0xf000_0000_0000_0000u64, 0x0003, 0x0001, 0x0020];
    let wide = vec![
        0xf000_0000_0000_0000u64,
        0xffff_ffff_ffff_ff83,
        0xdead_beef,
        0x0001,
        0x0a20,
        u64::MAX,
        0x1234,
    ];
    let a = sweep_runs_mask(w, h, 2, &narrow);
    let b = sweep_runs_mask(w, h, 3, &wide);
    assert_same(&a, &b);
    let bit = |r: usize, c: usize| narrow[2 * r + c / 64] >> (c % 64) & 1 == 1;
    assert_same(&a, &sweep_runs(w, h, bit));
    let expected = vec![
        Run { row: 0, c0: 60, c1: 65 },
        Run { row: 1, c0: 0, c1: 0 },
        Run { row: 1, c0: 69, c1: 69 },
    ];
    assert_eq!(a.runs, expected);
    assert_eq!((a.region_of_run, a.n_regions), (vec![0, 1, 2], 3));
}
