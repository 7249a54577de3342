//! Packed detection masks: one bit per pixel, swept word by word.

use vstd::arithmetic::div_mod::{lemma_basic_div, lemma_div_denominator};
use vstd::arithmetic::power2::{
    lemma2_to64, lemma_pow2_adds, lemma_pow2_pos, lemma_pow2_strictly_increases, pow2,
};
use vstd::bits::lemma_u64_shr_is_div;
use vstd::prelude::*;

use crate::connect::{LitSet, Pixel};
use crate::ieee::F32;
use crate::regions::law_regions_determined;
use crate::runs::{
    answers, clipped, covered, lemma_count_alike, lemma_count_grows, lemma_row_count,
    lemma_row_room, lemma_starts_alike, lemma_starts_dark, lemma_swept_dark, lemma_swept_end,
    lemma_swept_push, row_of, run_count, run_starts, runs_fit, swept, RunRegions, Sweep,
};

verus! {

/// Bit `i` of `word`, the lowest being bit 0.
pub open spec fn bit(word: u64, i: int) -> bool {
    (word >> (i as u64)) & 1 == 1
}

/// Number of words that hold `w` bits.
pub open spec fn words_for(w: int) -> int {
    (w + 63) / 64
}

/// The lit columns of one row of words, `w` wide.
pub open spec fn row_bits(row: Seq<u64>, w: int) -> spec_fn(int) -> bool {
    |c: int| 0 <= c < w && bit(row[c / 64], c % 64)
}

/// The lit pixels of a mask with `words_per_row` words to a row.
pub open spec fn mask_bits(mask: Seq<u64>, words_per_row: int) -> LitSet {
    |p: Pixel| bit(mask[p.0 * words_per_row + p.1 / 64], p.1 % 64)
}

proof fn lemma_bit_of_shifted(x: u64, a: u64, t: u64)
    requires
        a < 64,
        t < 64,
    ensures
        a + t < 64 ==> (bit(x >> a, t as int) <==> bit(x, a + t)),
        a + t >= 64 ==> !bit(x >> a, t as int),
        a + t < 64 ==> (x >> a) >> t == x >> ((a + t) as u64),
{
    let b = (a + t) as u64;
    lemma_u64_shr_is_div(x, a);
    lemma_u64_shr_is_div(x >> a, t);
    lemma_pow2_pos(a as nat);
    lemma_pow2_pos(t as nat);
    lemma_div_denominator(x as int, pow2(a as nat) as int, pow2(t as nat) as int);
    lemma_pow2_adds(a as nat, t as nat);
    if b < 64 {
        lemma_u64_shr_is_div(x, b);
    } else {
        lemma2_to64();
        if b > 64 {
            lemma_pow2_strictly_increases(64, b as nat);
        }
        lemma_basic_div(x as int, pow2(b as nat) as int);
        assert(0u64 & 1 == 0) by (bit_vector);
    }
}

proof fn lemma_bit_of_zero(t: int)
    requires
        0 <= t < 64,
    ensures
        !bit(0, t),
{
    let u = t as u64;
    assert((0u64 >> u) & 1 == 0) by (bit_vector);
}

proof fn lemma_shift_by_zero(x: u64)
    ensures
        x >> 0u64 == x,
{
    assert(x >> 0u64 == x) by (bit_vector);
}

/// Clearing the bits from `rem` on keeps those below.
proof fn lemma_tail_mask(word: u64, rem: u64, t: u64)
    requires
        0 < rem < 64,
        t < 64,
    ensures
        bit(word & (((1u64 << rem) - 1) as u64), t as int) <==> bit(word, t as int) && t < rem,
{
    assert(0 < rem < 64 && t < 64 ==> ((((word & (((1u64 << rem) - 1) as u64)) >> t) & 1 == 1)
        <==> (((word >> t) & 1 == 1) && t < rem))) by (bit_vector);
}

/// The lit columns of the word at column `base` are the set bits of `word`.
spec fn word_lit(word: u64, lit: spec_fn(int) -> bool, base: int) -> bool {
    forall|t: int| 0 <= t < 64 ==> #[trigger] lit(base + t) == bit(word, t)
}

/// The leading columns of a word that begins with set bits.
proof fn lemma_open_word(word: u64, lit: spec_fn(int) -> bool, base: int, ones: u32)
    requires
        word_lit(word, lit, base),
        ones == vstd::std_specs::bits::u64_trailing_ones(word),
    ensures
        ones <= 64,
        forall|c: int| base <= c < base + ones ==> #[trigger] lit(c),
        ones < 64 ==> !lit(base + ones),
{
    vstd::std_specs::bits::axiom_u64_trailing_ones(word);
    assert forall|c: int| base <= c < base + ones implies #[trigger] lit(c) by {
        let t = (c - base) as u64;
        assert(c == base + t);
        assert((word >> t) & 1u64 == 1u64);
        assert(lit(base + t) == bit(word, t as int));
    }
    if ones < 64 {
        assert(lit(base + ones) == bit(word, ones as int));
    }
}

/// The next set bit after the first `pos` ends a dark stretch.
proof fn lemma_first_lit(word: u64, lit: spec_fn(int) -> bool, base: int, pos: u32, tz: u32, d: int)
    requires
        word_lit(word, lit, base),
        pos < 64,
        word >> (pos as u64) != 0,
        tz == vstd::std_specs::bits::u64_trailing_zeros(word >> (pos as u64)),
        base + pos <= d <= base + pos + 1,
        d == base + pos + 1 ==> !lit(base + pos),
    ensures
        tz < 64,
        pos + tz < 64,
        d <= base + pos + tz,
        forall|c: int| d <= c < base + pos + tz ==> !#[trigger] lit(c),
        lit(base + pos + tz),
        (word >> (pos as u64)) >> (tz as u64) == word >> ((pos + tz) as u64),
{
    let rest = word >> (pos as u64);
    vstd::std_specs::bits::axiom_u64_trailing_zeros(rest);
    lemma_bit_of_shifted(word, pos as u64, tz as u64);
    assert(bit(rest, tz as int));
    assert(lit(base + (pos + tz)) == bit(word, pos + tz));
    assert forall|c: int| d <= c < base + pos + tz implies !#[trigger] lit(c) by {
        let t = (c - base - pos) as u64;
        lemma_bit_of_shifted(word, pos as u64, t);
        assert((rest >> t) & 1u64 == 0u64);
        assert(lit(base + (pos + t)) == bit(word, pos + t));
    }
}

/// The run of set bits that begins at `pos`.
proof fn lemma_run_of_ones(word: u64, lit: spec_fn(int) -> bool, base: int, pos: u32, ones: u32)
    requires
        word_lit(word, lit, base),
        pos < 64,
        lit(base + pos),
        ones == vstd::std_specs::bits::u64_trailing_ones(word >> (pos as u64)),
    ensures
        1 <= ones,
        pos + ones <= 64,
        forall|c: int| base + pos <= c < base + pos + ones ==> #[trigger] lit(c),
        pos + ones < 64 ==> !lit(base + pos + ones),
        pos + ones < 64 ==> (word >> (pos as u64)) >> (ones as u64) == word >> ((pos + ones) as u64),
{
    let rest = word >> (pos as u64);
    vstd::std_specs::bits::axiom_u64_trailing_ones(rest);
    lemma_bit_of_shifted(word, pos as u64, 0);
    assert(lit(base + pos) == bit(word, pos as int));
    assert(bit(rest, 0));
    if ones == 0 {
        assert((rest >> 0u64) & 1 == 0);
    }
    if pos + ones > 64 {
        let t = (64 - pos) as u64;
        if t < 64 {
            lemma_bit_of_shifted(word, pos as u64, t);
            assert((rest >> t) & 1u64 == 1u64);
        }
    }
    assert forall|c: int| base + pos <= c < base + pos + ones implies #[trigger] lit(c) by {
        let t = (c - base - pos) as u64;
        lemma_bit_of_shifted(word, pos as u64, t);
        assert((rest >> t) & 1u64 == 1u64);
        assert(lit(base + (pos + t)) == bit(word, pos + t));
    }
    if pos + ones < 64 {
        lemma_bit_of_shifted(word, pos as u64, ones as u64);
        assert(lit(base + (pos + ones)) == bit(word, pos + ones));
    }
}

/// Per-image constants of a packed mask: the words that hold real columns
/// and the mask that clears a row's padding bits (see [`sweep_runs_mask`]).
#[derive(Clone, Copy)]
pub struct MaskGeometry {
    pub w: usize,
    pub n_words: usize,
    pub tail_mask: u64,
}

impl MaskGeometry {
    /// The constants belong to an image `w` wide.
    pub open spec fn wf(self) -> bool {
        &&& self.n_words == words_for(self.w as int)
        &&& self.tail_mask == (if self.w % 64 == 0 {
            u64::MAX
        } else {
            ((1u64 << ((self.w % 64) as u64)) - 1) as u64
        })
    }

    /// The constants of a `w` by `h` image whose mask is large enough.
    pub fn new(w: usize, h: usize, words_per_row: usize, mask_len: usize) -> (g: Self)
        requires
            words_per_row >= words_for(w as int),
            mask_len >= words_per_row * h,
        ensures
            g.wf(),
            g.w == w,
    {
        let n_words: usize = if w % 64 == 0 {
            w / 64
        } else {
            w / 64 + 1
        };
        // Clears the padding bits of a row's last word (no-op when 64 | w).
        let tail_mask: u64 = if w % 64 == 0 {
            u64::MAX
        } else {
            let rem: u64 = (w % 64) as u64;
            assert(0 < rem < 64 ==> 1u64 << rem >= 1) by (bit_vector);
            (1u64 << rem) - 1
        };
        Self { w, n_words, tail_mask }
    }

    /// Word `wi` of a row without its padding bits.
    fn word(&self, row: &[u64], wi: usize) -> (bits: u64)
        requires
            self.wf(),
            wi < self.n_words,
            self.n_words <= row@.len(),
        ensures
            forall|t: int|
                0 <= t < 64 ==> (#[trigger] bit(bits, t) <==> row_bits(row@, self.w as int)(
                    wi * 64 + t,
                )),
    {
        let word: u64 = row[wi];
        let bits: u64 = if wi + 1 == self.n_words {
            word & self.tail_mask
        } else {
            word
        };
        proof {
            let w = self.w as int;
            assert forall|t: int| 0 <= t < 64 implies (#[trigger] bit(bits, t) <==> row_bits(
                row@,
                w,
            )(wi * 64 + t)) by {
                let c = wi * 64 + t;
                assert(c / 64 == wi && c % 64 == t);
                if wi + 1 == self.n_words {
                    if w % 64 == 0 {
                        let m: u64 = u64::MAX;
                        assert(word & 0xffff_ffff_ffff_ffff == word) by (bit_vector);
                    } else {
                        lemma_tail_mask(word, (w % 64) as u64, t as u64);
                    }
                }
            }
        }
        bits
    }

    /// Push the runs of mask row `r` (its `words_per_row` words, of which
    /// the first `n_words` are read) onto `sweep`, left to right.
    #[verifier::rlimit(40)]
    pub fn push_row(&self, sweep: &mut Sweep, r: usize, row: &[u64])
        requires
            self.wf(),
            old(sweep).wf(),
            old(sweep).rows@ == r,
            old(sweep).cur@.len() == 0,
            r <= u32::MAX,
            self.w <= u32::MAX,
            old(sweep).runs@.len() + run_starts(row_bits(row@, self.w as int), self.w as int)
                <= u32::MAX,
            self.n_words <= row@.len(),
        ensures
            final(sweep).wf(),
            final(sweep).rows@ == old(sweep).rows@,
            final(sweep).prev@ == old(sweep).prev@,
            final(sweep).cur_start() == old(sweep).runs@.len(),
            final(sweep).cur@.len() <= run_starts(row_bits(row@, self.w as int), self.w as int),
            forall|p: Pixel| #[trigger]
                covered(final(sweep).runs@)(p) <==> covered(old(sweep).runs@)(p) || (p.0 == r
                    && row_bits(row@, self.w as int)(p.1)),
    {
        let ghost s0 = *sweep;
        let ghost lit = row_bits(row@, self.w as int);
        let n_words: usize = self.n_words;
        // Start column of a run that reached the top bit of the previous word.
        let mut open: Option<usize> = None;
        let mut wi: usize = 0;
        while wi < n_words
            invariant
                self.wf(),
                n_words == self.n_words,
                n_words <= row@.len(),
                0 <= wi <= n_words,
                lit == row_bits(row@, self.w as int),
                s0.wf(),
                s0.cur@.len() == 0,
                s0.rows@ == r,
                r <= u32::MAX,
                self.w <= u32::MAX,
                s0.runs@.len() + run_starts(lit, self.w as int) <= u32::MAX,
                match open {
                    Some(s) => {
                        &&& s < wi * 64
                        &&& swept(*sweep, s0, lit, s as int)
                        &&& forall|c: int| s <= c < wi * 64 ==> #[trigger] lit(c)
                    },
                    None => swept(*sweep, s0, lit, wi * 64),
                },
            decreases n_words - wi,
        {
            let base: usize = wi * 64;
            let masked: u64 = self.word(row, wi);
            let mut bits: u64 = masked;
            // Bits of this word already consumed (shifted out of `bits`).
            let mut pos: u32 = 0;
            let ghost mut d: int = base as int;
            let mut whole: bool = false;
            proof {
                lemma_shift_by_zero(masked);
                assert forall|t: int| 0 <= t < 64 implies #[trigger] lit(base + t) == bit(
                    masked,
                    t,
                ) by {}
            }
            if let Some(s) = open {
                let ones: u32 = bits.trailing_ones();
                proof {
                    vstd::std_specs::bits::axiom_u64_trailing_ones(bits);
                    lemma_open_word(masked, lit, base as int, ones);
                    assert(lit(s as int));
                }
                if ones == 64 {
                    whole = true;  // whole word lit: the run stays open
                } else {
                    proof {
                        lemma_row_room(*sweep, s0, lit, s as int, self.w as int);
                        assert(base + ones >= 1 && lit(base + ones - 1)) by {
                            if ones == 0 {
                                assert(lit(base - 1));
                            }
                        }
                    }
                    let ghost before = *sweep;
                    sweep.push_run(r, s, base + ones as usize - 1);
                    open = None;
                    bits = bits >> ones;
                    pos = ones;
                    proof {
                        lemma_swept_push(before, *sweep, s0, lit, s as int, base + ones - 1);
                        d = base + ones + 1;
                    }
                }
            }
            if !whole {
                while bits != 0
                    invariant_except_break
                        open.is_none(),
                        swept(*sweep, s0, lit, d),
                        base + pos <= d <= base + pos + 1,
                        d == base + pos + 1 ==> !lit(base + pos),
                        pos < 64,
                        bits == masked >> (pos as u64),
                    invariant
                        self.wf(),
                        n_words == self.n_words,
                        base == wi * 64,
                        wi < n_words,
                        lit == row_bits(row@, self.w as int),
                        s0.rows@ == r,
                        r <= u32::MAX,
                        self.w <= u32::MAX,
                        s0.wf(),
                        s0.cur@.len() == 0,
                        s0.runs@.len() + run_starts(lit, self.w as int) <= u32::MAX,
                        word_lit(masked, lit, base as int),
                    ensures
                        match open {
                            Some(s) => {
                                &&& base <= s < base + 64
                                &&& swept(*sweep, s0, lit, s as int)
                                &&& forall|c: int| s <= c < base + 64 ==> #[trigger] lit(c)
                            },
                            None => {
                                &&& swept(*sweep, s0, lit, d)
                                &&& base + pos <= d <= base + pos + 1
                                &&& pos < 64
                                &&& masked >> (pos as u64) == 0
                            },
                        },
                    decreases 64 - pos,
                {
                    let tz: u32 = bits.trailing_zeros();
                    let ghost pos0 = pos;
                    proof {
                        vstd::std_specs::bits::axiom_u64_trailing_zeros(bits);
                        lemma_first_lit(masked, lit, base as int, pos, tz, d);
                    }
                    bits = bits >> tz;
                    pos = pos + tz;
                    let start: usize = base + pos as usize;
                    let ones: u32 = bits.trailing_ones();
                    proof {
                        vstd::std_specs::bits::axiom_u64_trailing_ones(bits);
                        lemma_run_of_ones(masked, lit, base as int, pos, ones);
                        lemma_swept_dark(*sweep, s0, lit, d, start as int);
                    }
                    if pos + ones >= 64 {
                        open = Some(start);  // reaches the top bit: may continue
                        break ;
                    }
                    proof {
                        assert(lit(start as int));
                        lemma_row_room(*sweep, s0, lit, start as int, self.w as int);
                        assert(lit(start + ones - 1));
                    }
                    let ghost before = *sweep;
                    sweep.push_run(r, start, start + ones as usize - 1);
                    bits = bits >> ones;
                    pos = pos + ones;
                    proof {
                        lemma_swept_push(
                            before,
                            *sweep,
                            s0,
                            lit,
                            start as int,
                            start + ones - 1,
                        );
                        d = start + ones + 1;
                    }
                }
                proof {
                    if open.is_none() {
                        assert forall|c: int| d <= c < base + 64 implies !#[trigger] lit(c) by {
                            let t = c - base;
                            lemma_bit_of_shifted(masked, pos as u64, (t - pos) as u64);
                            lemma_bit_of_zero(t - pos);
                            assert(lit(base + t) == bit(masked, t));
                        }
                        lemma_swept_dark(*sweep, s0, lit, d, base + 64);
                    }
                }
            }
            wi += 1;
        }
        proof {
            assert(self.w <= n_words * 64);
        }
        let ghost mut d: int = n_words * 64;
        if let Some(s) = open {
            proof {
                assert(lit(s as int));
                assert(lit(n_words * 64 - 1));
                assert(n_words * 64 == self.w);
                lemma_row_room(*sweep, s0, lit, s as int, self.w as int);
            }
            let ghost before = *sweep;
            sweep.push_run(r, s, self.w - 1);
            proof {
                lemma_swept_push(before, *sweep, s0, lit, s as int, self.w - 1);
                d = self.w + 1;
            }
        } else {
            proof {
                if sweep.cur@.len() > 0 {
                    lemma_swept_end(*sweep, s0, lit, n_words * 64);
                }
            }
        }
        proof {
            lemma_row_count(*sweep, s0, lit, d);
            lemma_starts_dark(lit, self.w as int, d);
        }
    }
}

/// Run-length 8-connected labeling over a packed bit mask.
///
/// `mask` holds `words_per_row` `u64` words per image row (`h` rows, row
/// `r` at `mask[r * words_per_row..]`); column `c` is lit when bit `c % 64`
/// of word `c / 64` is set. Bits at or beyond `w` in the last word of a row
/// are ignored, so `w` need not be a multiple of 64. Runs are read off the
/// words with `trailing_zeros` / `trailing_ones` (a run that reaches the top
/// bit of a word is carried into the next), so the cost is proportional to
/// the number of runs, not pixels.
pub fn sweep_runs_mask(w: usize, h: usize, words_per_row: usize, mask: &[u64]) -> (out: RunRegions)
    requires
        0 < words_per_row,
        words_per_row >= words_for(w as int),
        mask@.len() >= words_per_row * h,
        runs_fit(mask_bits(mask@, words_per_row as int), w as int, h as int),
    ensures
        out.regions_of(clipped(mask_bits(mask@, words_per_row as int), w as int, h as int)),
{
    let mask_len: usize = mask.len();
    let geom = MaskGeometry::new(w, h, words_per_row, mask_len);
    let ghost lit = mask_bits(mask@, words_per_row as int);
    let mut sweep = Sweep::new();
    let mut at: usize = 0;
    let mut r: usize = 0;
    while r < h
        invariant
            geom.wf(),
            geom.w == w,
            0 < words_per_row,
            words_per_row >= words_for(w as int),
            mask_len == mask@.len(),
            mask_len >= words_per_row * h,
            runs_fit(lit, w as int, h as int),
            lit == mask_bits(mask@, words_per_row as int),
            0 <= r <= h,
            at == r * words_per_row,
            sweep.wf(),
            sweep.rows@ == r,
            sweep.cur@.len() == 0,
            sweep.runs@.len() <= run_count(lit, w as int, r as int),
            forall|p: Pixel| #[trigger]
                covered(sweep.runs@)(p) <==> p.0 < r && clipped(lit, w as int, h as int)(p),
        decreases h - r,
    {
        proof {
            lemma_count_grows(lit, w as int, r + 1, h as int);
            assert(r * words_per_row + words_per_row == (r + 1) * words_per_row)
                by (nonlinear_arith);
            assert((r + 1) * words_per_row <= words_per_row * h) by (nonlinear_arith)
                requires
                    r + 1 <= h,
                    words_per_row >= 0,
            ;
        }
        let row = &mask[at..at + words_per_row];
        proof {
            let (own, bits) = (row_of(lit, r as int), row_bits(row@, w as int));
            assert forall|c: int| 0 <= c < w implies #[trigger] own(c) == bits(c) by {
                assert(row@[c / 64] == mask@[r * words_per_row + c / 64]);
            }
            lemma_starts_alike(own, bits, w as int);
        }
        geom.push_row(&mut sweep, r, row);
        proof {
            assert forall|p: Pixel| #[trigger] covered(sweep.runs@)(p) <==> p.0 < r + 1 && clipped(
                lit,
                w as int,
                h as int,
            )(p) by {
                if p.0 == r && 0 <= p.1 < w {
                    assert(row@[p.1 / 64] == mask@[r * words_per_row + p.1 / 64]);
                }
            }
        }
        sweep.end_row();
        at += words_per_row;
        r += 1;
    }
    sweep.finish()
}

/// A mask and a predicate that agree on every pixel of the image sweep to the
/// same runs, region ids and region count.
pub proof fn law_mask_sweeps_like_predicate<F: Fn(usize, usize) -> bool>(
    lit: F,
    w: usize,
    h: usize,
    words_per_row: usize,
    mask: Seq<u64>,
    by_mask: RunRegions,
    by_lit: RunRegions,
)
    requires
        0 < words_per_row,
        words_per_row >= words_for(w as int),
        mask.len() >= words_per_row * h,
        forall|r: usize, c: usize, b: bool|
            r < h && c < w && #[trigger] call_ensures(lit, (r, c), b) ==> b == mask_bits(
                mask,
                words_per_row as int,
            )((r as int, c as int)),
        by_mask.regions_of(clipped(mask_bits(mask, words_per_row as int), w as int, h as int)),
        exists|m: LitSet|
            {
                &&& forall|r: usize, c: usize| r < h && c < w ==> #[trigger] answers(lit, m, r, c)
                &&& #[trigger] by_lit.regions_of(clipped(m, w as int, h as int))
            },
    ensures
        by_mask.runs@ == by_lit.runs@,
        by_mask.region_of_run@ == by_lit.region_of_run@,
        by_mask.n_regions == by_lit.n_regions,
{
    let bits = clipped(mask_bits(mask, words_per_row as int), w as int, h as int);
    let m = choose|m: LitSet|
        {
            &&& forall|r: usize, c: usize| r < h && c < w ==> #[trigger] answers(lit, m, r, c)
            &&& #[trigger] by_lit.regions_of(clipped(m, w as int, h as int))
        };
    let asked = clipped(m, w as int, h as int);
    assert forall|p: Pixel| #[trigger] covered(by_lit.runs@)(p) <==> bits(p) by {
        assert(covered(by_lit.runs@)(p) <==> asked(p));
        if 0 <= p.0 < h && 0 <= p.1 < w {
            assert(p == (p.0, p.1));
            assert(answers(lit, m, p.0 as usize, p.1 as usize));
        }
    }
    law_regions_determined(by_mask, by_lit, bits);
}

/// Only the bits of the image count: masks that agree on them sweep alike,
/// whatever their words per row and whatever stands in the bits at or beyond
/// the width, in the padding words of a row and behind the last row.
pub proof fn law_padding_ignored(
    w: usize,
    h: usize,
    words1: usize,
    mask1: Seq<u64>,
    words2: usize,
    mask2: Seq<u64>,
    a: RunRegions,
    b: RunRegions,
)
    requires
        0 < words1,
        words1 >= words_for(w as int),
        mask1.len() >= words1 * h,
        0 < words2,
        words2 >= words_for(w as int),
        mask2.len() >= words2 * h,
        forall|r: int, c: int|
            0 <= r < h && 0 <= c < w ==> #[trigger] mask_bits(mask1, words1 as int)((r, c))
                == mask_bits(mask2, words2 as int)((r, c)),
        a.regions_of(clipped(mask_bits(mask1, words1 as int), w as int, h as int)),
        b.regions_of(clipped(mask_bits(mask2, words2 as int), w as int, h as int)),
    ensures
        runs_fit(mask_bits(mask1, words1 as int), w as int, h as int) <==> runs_fit(
            mask_bits(mask2, words2 as int),
            w as int,
            h as int,
        ),
        a.runs@ == b.runs@,
        a.region_of_run@ == b.region_of_run@,
        a.n_regions == b.n_regions,
{
    let (m1, m2) = (mask_bits(mask1, words1 as int), mask_bits(mask2, words2 as int));
    let (bits, other) = (clipped(m1, w as int, h as int), clipped(m2, w as int, h as int));
    lemma_count_alike(m1, m2, w as int, h as int);
    assert forall|p: Pixel| #[trigger] covered(b.runs@)(p) <==> bits(p) by {
        assert(covered(b.runs@)(p) <==> other(p));
        if 0 <= p.0 < h && 0 <= p.1 < w {
            assert(p == (p.0, p.1));
            assert(m1((p.0, p.1)) == m2((p.0, p.1)));
        }
    }
    law_regions_determined(a, b, bits);
}

/// Multiplying eight bytes, each 0 or 1, gathers them in the top byte, lowest
/// byte to lowest bit.
proof fn lemma_gather(b0: u64, b1: u64, b2: u64, b3: u64, b4: u64, b5: u64, b6: u64, b7: u64)
    by (bit_vector)
    requires
        b0 <= 1,
        b1 <= 1,
        b2 <= 1,
        b3 <= 1,
        b4 <= 1,
        b5 <= 1,
        b6 <= 1,
        b7 <= 1,
    ensures
        (((b0 | (b1 << 8) | (b2 << 16) | (b3 << 24) | (b4 << 32) | (b5 << 40) | (b6 << 48) | (b7
            << 56)) * 0x0102_0408_1020_4080u64) as u64) >> 56 == b0 | (b1 << 1) | (b2 << 2) | (b3
            << 3) | (b4 << 4) | (b5 << 5) | (b6 << 6) | (b7 << 7),
{
}

/// The bits of eight gathered bytes.
proof fn lemma_gathered_bits(
    b0: u64,
    b1: u64,
    b2: u64,
    b3: u64,
    b4: u64,
    b5: u64,
    b6: u64,
    b7: u64,
    y: u64,
)
    by (bit_vector)
    requires
        b0 <= 1,
        b1 <= 1,
        b2 <= 1,
        b3 <= 1,
        b4 <= 1,
        b5 <= 1,
        b6 <= 1,
        b7 <= 1,
        y == b0 | (b1 << 1) | (b2 << 2) | (b3 << 3) | (b4 << 4) | (b5 << 5) | (b6 << 6) | (b7 << 7),
    ensures
        y < 256,
        (y >> 0) & 1 == b0,
        (y >> 1) & 1 == b1,
        (y >> 2) & 1 == b2,
        (y >> 3) & 1 == b3,
        (y >> 4) & 1 == b4,
        (y >> 5) & 1 == b5,
        (y >> 6) & 1 == b6,
        (y >> 7) & 1 == b7,
{
}

/// Byte `k` of a word, merged into one whose bytes from `k` on are clear.
proof fn lemma_merge_byte(acc: u64, y: u64, s: u64, t: u64)
    by (bit_vector)
    requires
        y < 256,
        s == 0 || s == 8 || s == 16 || s == 24 || s == 32 || s == 40 || s == 48 || s == 56,
        t < 64,
        s == 0 ==> acc == 0,
        s > 0 ==> acc >> s == 0,
    ensures
        t < s ==> ((acc | (y << s)) >> t) & 1 == (acc >> t) & 1,
        s <= t < s + 8 ==> ((acc | (y << s)) >> t) & 1 == (y >> ((t - s) as u64)) & 1,
        s < 56 ==> (acc | (y << s)) >> ((s + 8) as u64) == 0,
{
}

/// Fold 64 bytes, each 0 or 1, into a u64 with byte `i` -> bit `i`.
pub fn pack_bytes(bytes: &[u8; 64]) -> (word: u64)
    requires
        forall|i: int| 0 <= i < 64 ==> (#[trigger] bytes@[i]) <= 1,
    ensures
        forall|i: int| 0 <= i < 64 ==> (#[trigger] bit(word, i) <==> bytes@[i] == 1),
{
    let mut acc: u64 = 0;
    let mut k: usize = 0;
    while k < 8
        invariant
            0 <= k <= 8,
            forall|i: int| 0 <= i < 64 ==> (#[trigger] bytes@[i]) <= 1,
            forall|i: int| 0 <= i < 8 * k ==> (#[trigger] bit(acc, i) <==> bytes@[i] == 1),
            k == 0 ==> acc == 0,
            0 < k < 8 ==> acc >> ((8 * k) as u64) == 0,
        decreases 8 - k,
    {
        let at: usize = 8 * k;
        let b0: u64 = bytes[at] as u64;
        let b1: u64 = bytes[at + 1] as u64;
        let b2: u64 = bytes[at + 2] as u64;
        let b3: u64 = bytes[at + 3] as u64;
        let b4: u64 = bytes[at + 4] as u64;
        let b5: u64 = bytes[at + 5] as u64;
        let b6: u64 = bytes[at + 6] as u64;
        let b7: u64 = bytes[at + 7] as u64;
        let x: u64 = b0 | (b1 << 8) | (b2 << 16) | (b3 << 24) | (b4 << 32) | (b5 << 40) | (b6
            << 48) | (b7 << 56);
        // Each byte is 0 or 1; the multiply gathers the low bit of each
        // byte into the top byte, lowest byte -> lowest bit.
        let y: u64 = x.wrapping_mul(0x0102_0408_1020_4080) >> 56;
        let ghost before = acc;
        acc = acc | (y << (8 * k));
        proof {
            lemma_gather(b0, b1, b2, b3, b4, b5, b6, b7);
            assert((x * 0x0102_0408_1020_4080u64) as u64 == (x * 0x0102_0408_1020_4080u64) % (
            0x1_0000_0000_0000_0000)) by (bit_vector);
            lemma_gathered_bits(b0, b1, b2, b3, b4, b5, b6, b7, y);
            let s = (8 * k) as u64;
            assert(acc == before | (y << s));
            assert forall|i: int| 0 <= i < 8 * (k + 1) implies (#[trigger] bit(acc, i) <==> bytes@[i]
                == 1) by {
                lemma_merge_byte(before, y, s, i as u64);
                if i < 8 * k {
                    assert(bit(before, i) <==> bytes@[i] == 1);
                } else {
                    let j = i - 8 * k;
                    assert(((i as u64) - s) as u64 == j as u64);
                    if j == 0 {
                    } else if j == 1 {
                    } else if j == 2 {
                    } else if j == 3 {
                    } else if j == 4 {
                    } else if j == 5 {
                    } else if j == 6 {
                    }
                }
            }
            lemma_merge_byte(before, y, s, 0);
        }
        k += 1;
    }
    acc
}

/// Word `wi` of a packed row of `n` columns whose lit columns are `lit`.
pub open spec fn packs_word(word: u64, wi: int, n: int, lit: spec_fn(int) -> bool) -> bool {
    forall|t: int|
        0 <= t < 64 ==> (#[trigger] bit(word, t) <==> wi * 64 + t < n && lit(wi * 64 + t))
}

/// `words` packs a row of `n` columns whose lit columns are `lit`: bit `c % 64`
/// of `words[c / 64]` is set when column `c` is lit, and the padding is zero.
pub open spec fn packs_row(words: Seq<u64>, n: int, lit: spec_fn(int) -> bool) -> bool {
    &&& words.len() == words_for(n)
    &&& forall|wi: int| 0 <= wi < words.len() ==> packs_word(#[trigger] words[wi], wi, n, lit)
}

/// The columns of `row` that are finite and exceed their threshold.
pub open spec fn lit_columns(row: Seq<F32>, thr: Seq<F32>) -> spec_fn(int) -> bool {
    |c: int| row[c].finite() && row[c].above(thr[c])
}

/// The columns of `row` that exceed one threshold.
pub open spec fn columns_above(row: Seq<F32>, thr: F32) -> spec_fn(int) -> bool {
    |c: int| row[c].above(thr)
}

/// Pack one image row's detection mask: bit `c % 64` of `words[c / 64]` is
/// set when `row[c]` is finite and exceeds `thr[c]`. `p > t && p < inf` is
/// exactly that: a NaN fails both compares, the negative infinity the first,
/// the positive one the second. The compares fill a 64-byte scratch, then
/// each 8 bytes fold to 8 bits with the multiply-shift trick.
/// Padding bits at or beyond `row.len()` are zero.
pub fn pack_lit_row(row: &[F32], thr: &[F32], words: &mut [u64])
    requires
        row@.len() == thr@.len(),
        old(words)@.len() == words_for(row@.len() as int),
    ensures
        packs_row(final(words)@, row@.len() as int, lit_columns(row@, thr@)),
{
    let ghost lit = lit_columns(row@, thr@);
    let n: usize = row.len();
    let inf = F32 { bits: crate::ieee::INF_32 };
    let mut wi: usize = 0;
    while wi < words.len()
        invariant
            0 <= wi <= words@.len(),
            n == row@.len(),
            n == thr@.len(),
            words@.len() == words_for(n as int),
            lit == lit_columns(row@, thr@),
            inf.bits == crate::ieee::INF_32,
            forall|k: int|
                0 <= k < wi ==> packs_word(#[trigger] words@[k], k, n as int, lit),
        decreases words@.len() - wi,
    {
        let c0: usize = wi * 64;
        let count: usize = if n - c0 < 64 {
            n - c0
        } else {
            64
        };
        let mut bytes: [u8; 64] = [0u8; 64];
        let mut j: usize = 0;
        while j < count
            invariant
                0 <= j <= count,
                count <= 64,
                c0 + count <= n,
                n == row@.len(),
                n == thr@.len(),
                lit == lit_columns(row@, thr@),
                inf.bits == crate::ieee::INF_32,
                forall|t: int| 0 <= t < j ==> (#[trigger] bytes@[t]) == (if lit(c0 + t) {
                    1u8
                } else {
                    0u8
                }),
                forall|t: int| j <= t < 64 ==> (#[trigger] bytes@[t]) == 0,
            decreases count - j,
        {
            let p = row[c0 + j];
            let t = thr[c0 + j];
            bytes[j] = if p.gt(t) && inf.gt(p) {
                1
            } else {
                0
            };
            j += 1;
        }
        let word: u64 = pack_bytes(&bytes);
        let ghost before = words@;
        words[wi] = word;
        proof {
            assert(packs_word(word, wi as int, n as int, lit)) by {
                assert forall|t: int| 0 <= t < 64 implies (#[trigger] bit(word, t) <==> wi * 64 + t
                    < n && lit(wi * 64 + t)) by {
                    assert(bytes@[t] == bytes@[t]);
                }
            }
            assert(words@ == before.update(wi as int, word));
        }
        wi += 1;
    }
}

/// Pack one image row against a single threshold: bit `c % 64` of
/// `words[c / 64]` is set exactly when `row[c] > thr` (the plain `>`
/// predicate: a NaN is never lit, the positive infinity always is). Same
/// packing as [`pack_lit_row`]; padding bits are zero.
pub fn pack_above_row(row: &[F32], thr: F32, words: &mut [u64])
    requires
        old(words)@.len() == words_for(row@.len() as int),
    ensures
        packs_row(final(words)@, row@.len() as int, columns_above(row@, thr)),
{
    let ghost lit = columns_above(row@, thr);
    let n: usize = row.len();
    let mut wi: usize = 0;
    while wi < words.len()
        invariant
            0 <= wi <= words@.len(),
            n == row@.len(),
            words@.len() == words_for(n as int),
            lit == columns_above(row@, thr),
            forall|k: int|
                0 <= k < wi ==> packs_word(#[trigger] words@[k], k, n as int, lit),
        decreases words@.len() - wi,
    {
        let c0: usize = wi * 64;
        let count: usize = if n - c0 < 64 {
            n - c0
        } else {
            64
        };
        let mut bytes: [u8; 64] = [0u8; 64];
        let mut j: usize = 0;
        while j < count
            invariant
                0 <= j <= count,
                count <= 64,
                c0 + count <= n,
                n == row@.len(),
                lit == columns_above(row@, thr),
                forall|t: int| 0 <= t < j ==> (#[trigger] bytes@[t]) == (if lit(c0 + t) {
                    1u8
                } else {
                    0u8
                }),
                forall|t: int| j <= t < 64 ==> (#[trigger] bytes@[t]) == 0,
            decreases count - j,
        {
            bytes[j] = if row[c0 + j].gt(thr) {
                1
            } else {
                0
            };
            j += 1;
        }
        let word: u64 = pack_bytes(&bytes);
        let ghost before = words@;
        words[wi] = word;
        proof {
            assert(packs_word(word, wi as int, n as int, lit)) by {
                assert forall|t: int| 0 <= t < 64 implies (#[trigger] bit(word, t) <==> wi * 64 + t
                    < n && lit(wi * 64 + t)) by {
                    assert(bytes@[t] == bytes@[t]);
                }
            }
            assert(words@ == before.update(wi as int, word));
        }
        wi += 1;
    }
}

/// A packed row reads back as the columns that were packed.
pub proof fn law_packed_row_reads_back(words: Seq<u64>, n: int, lit: spec_fn(int) -> bool, c: int)
    requires
        packs_row(words, n, lit),
        0 <= c < n,
    ensures
        row_bits(words, n)(c) <==> lit(c),
{
    let wi = c / 64;
    assert(0 <= wi < words.len());
    assert(packs_word(words[wi], wi, n, lit));
    assert(bit(words[wi], c % 64) <==> wi * 64 + c % 64 < n && lit(wi * 64 + c % 64));
}

/// For finite pixels the two packers agree on equal thresholds.
pub proof fn law_finite_rows_pack_alike(row: Seq<F32>, thr: F32, c: int)
    requires
        0 <= c < row.len(),
        row[c].finite(),
    ensures
        lit_columns(row, Seq::new(row.len(), |i: int| thr))(c) == columns_above(row, thr)(c),
{
}

/// Bit `i` of a word is worth two to the power `i`.
pub proof fn law_bit_is_worth_its_power(k: u64, i: u64, word: u64)
    requires
        k < 64,
        i < 64,
    ensures
        bit(1u64 << k, i as int) <==> i == k,
        bit(word | (1u64 << k), i as int) <==> i == k || bit(word, i as int),
{
    assert((((1u64 << k) >> i) & 1 == 1) <==> i == k) by (bit_vector)
        requires
            k < 64,
            i < 64,
    ;
    assert((((word | (1u64 << k)) >> i) & 1 == 1) <==> (i == k || (word >> i) & 1 == 1))
        by (bit_vector)
        requires
            k < 64,
            i < 64,
    ;
}

/// A packed row is lit where a pixel is finite and its number is above that of its
/// threshold; and with one threshold for the row, where it is above that.
pub proof fn law_packed_columns(row: Seq<F32>, thr: Seq<F32>, one: F32, c: int)
    ensures
        lit_columns(row, thr)(c) <==> row[c].finite() && !thr[c].nan() && row[c].rank()
            > thr[c].rank(),
        columns_above(row, one)(c) <==> !row[c].nan() && !one.nan() && row[c].rank()
            > one.rank(),
{
}

/// A mask is read row after row, 64 columns to a word, the lowest bit first.
pub proof fn law_mask_is_read_row_by_row(
    mask: Seq<u64>,
    words_per_row: int,
    r: int,
    k: int,
    i: int,
)
    requires
        0 <= k,
        0 <= i < 64,
    ensures
        mask_bits(mask, words_per_row)((r, 64 * k + i)) <==> (mask[r * words_per_row + k] >> (
        i as u64)) & 1 == 1,
{
    assert((64 * k + i) / 64 == k && (64 * k + i) % 64 == i);
}

/// A sweep of a mask finds the bits that are set: those of a row from its first word
/// on, 64 columns to a word, the lowest bit first.
pub proof fn law_mask_sweep_finds_set_bits(
    w: usize,
    h: usize,
    words_per_row: usize,
    mask: &[u64],
    out: RunRegions,
    r: int,
    k: int,
    i: u64,
)
    requires
        call_ensures(sweep_runs_mask, (w, h, words_per_row, mask), out),
        0 <= k,
        i < 64,
    ensures
        covered(out.runs@)((r, 64 * k + i)) <==> {
            &&& 0 <= r < h
            &&& 64 * k + i < w
            &&& (mask@[r * words_per_row + k] >> i) & 1 == 1
        },
{
    let p: Pixel = (r, 64 * k + i);
    let bits = mask_bits(mask@, words_per_row as int);
    law_mask_is_read_row_by_row(mask@, words_per_row as int, r, k, i as int);
    assert(covered(out.runs@)(p) <==> clipped(bits, w as int, h as int)(p));
}

} // verus!
