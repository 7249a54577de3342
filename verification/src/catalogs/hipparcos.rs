//! The Hipparcos catalog (new reduction): one star to a line, in columns of fixed
//! width.

use vstd::prelude::*;
use vstd::string::StringSliceAdditionalSpecFns;
use vstd::utf8::{
    decode_first_scalar, decode_utf8, encode_utf8_decode_utf8, length_of_first_scalar,
    pop_first_scalar, valid_utf8,
};

use crate::ieee::{F32, F64};

verus! {

/// A star from the Hipparcos catalog.
///
/// Only the fields the solver consumes (position, proper motion, and the
/// magnitude/colour used for the Hp to V transform) are parsed and stored; the
/// catalog's per-field uncertainties, parallax, and V-I colour are skipped.
#[derive(Clone, Copy, Debug, PartialEq, Eq, Structural)]
pub struct HipparcosStar {
    pub hip: u32,
    pub ra_rad: F64,
    pub dec_rad: F64,
    pub pm_ra: F64,
    pub pm_dec: F64,
    pub hpmag: F32,
    pub b_v: F32,
}

/// Calls `std::str::from_utf8`: a string of the same bytes where they are valid
/// UTF-8, and nothing where they are not.
#[verifier::external_body]
fn str_from_utf8(bytes: &[u8]) -> (r: Option<&str>)
    ensures
        r is Some <==> valid_utf8(bytes@),
        r matches Some(s) ==> s.spec_bytes() == bytes@,
{
    std::str::from_utf8(bytes).ok()
}

/// The characters with the Unicode property White_Space.
pub open spec fn is_white(c: char) -> bool {
    let v = c as u32;
    ||| 0x9 <= v <= 0xd
    ||| v == 0x20
    ||| v == 0x85
    ||| v == 0xa0
    ||| v == 0x1680
    ||| 0x2000 <= v <= 0x200a
    ||| v == 0x2028
    ||| v == 0x2029
    ||| v == 0x202f
    ||| v == 0x205f
    ||| v == 0x3000
}

/// `t` is `s` without its leading and trailing whitespace.
pub open spec fn is_trimmed(s: Seq<char>, t: Seq<char>) -> bool {
    exists|i: int, j: int|
        {
            &&& 0 <= i <= j <= s.len()
            &&& t == #[trigger] s.subrange(i, j)
            &&& forall|k: int| 0 <= k < i ==> is_white(#[trigger] s[k])
            &&& forall|k: int| j <= k < s.len() ==> is_white(#[trigger] s[k])
            &&& i < j ==> !is_white(s[i]) && !is_white(s[j - 1])
        }
}

/// Calls `str::trim`: the string without leading and trailing whitespace.
#[verifier::external_body]
fn trimmed(s: &str) -> (t: &str)
    ensures
        is_trimmed(s@, t@),
{
    s.trim()
}

/// A decimal digit.
pub open spec fn is_digit(c: char) -> bool {
    '0' <= c <= '9'
}

/// The number that decimal digits stand for.
pub open spec fn decimal_value(s: Seq<char>) -> int
    decreases s.len(),
{
    if s.len() == 0 {
        0
    } else {
        10 * decimal_value(s.drop_last()) + (s.last() as u32 - '0' as u32)
    }
}

/// The number that a string stands for: an optional plus sign and then digits
/// only, at least one, of a number that fits.
pub open spec fn parsed_u32(s: Seq<char>) -> Option<u32> {
    let digits = if s.len() > 0 && s[0] == '+' {
        s.skip(1)
    } else {
        s
    };
    if digits.len() > 0 && (forall|i: int| 0 <= i < digits.len() ==> is_digit(#[trigger] digits[i]))
        && decimal_value(digits) <= u32::MAX {
        Some(decimal_value(digits) as u32)
    } else {
        None
    }
}

/// Calls `str::parse` for `u32`: the number that the string stands for in
/// decimal, with or without a plus sign.
#[verifier::external_body]
fn parse_u32(s: &str) -> (r: Option<u32>)
    ensures
        r == parsed_u32(s@),
{
    s.parse::<u32>().ok()
}

/// Extract a fixed-width column as a string, or `None` if the bytes in that
/// range are not valid UTF-8 or not all there. Slicing the record as bytes
/// keeps a multi-byte character straddling a column boundary from panicking:
/// such a line is malformed and gets skipped like any other unparseable record.
pub fn column(record: &[u8], range: core::ops::Range<usize>) -> (r: Option<&str>)
    ensures
        r is Some <==> range.start <= range.end <= record@.len() && valid_utf8(
            record@.subrange(range.start as int, range.end as int),
        ),
        r matches Some(s) ==> s@ == decode_utf8(
            record@.subrange(range.start as int, range.end as int),
        ),
{
    if range.start > range.end || range.end > record.len() {
        return None;
    }
    let r = str_from_utf8(&record[range.start..range.end]);
    proof {
        if let Some(s) = r {
            encode_utf8_decode_utf8(s@);
        }
    }
    r
}

/// The characters of a column.
pub open spec fn column_chars(record: Seq<u8>, a: int, b: int) -> Option<Seq<char>> {
    if 0 <= a <= b <= record.len() && valid_utf8(record.subrange(a, b)) {
        Some(decode_utf8(record.subrange(a, b)))
    } else {
        None
    }
}

/// `n` is the number that a text stands for, whitespace around it aside.
pub open spec fn text_reads_u32(s: Seq<char>, n: Option<u32>) -> bool {
    exists|t: Seq<char>| #[trigger] is_trimmed(s, t) && n == parsed_u32(t)
}

/// `n` is the number in a column.
pub open spec fn reads_u32(record: Seq<u8>, a: int, b: int, n: Option<u32>) -> bool {
    match column_chars(record, a, b) {
        Some(s) => text_reads_u32(s, n),
        None => n is None,
    }
}

/// `n` is what `parse` may answer for a text, whitespace around it aside.
pub open spec fn text_reads<N, P: Fn(&str) -> Option<N>>(
    parse: P,
    s: Seq<char>,
    n: Option<N>,
) -> bool {
    exists|t: &str| is_trimmed(s, t@) && #[trigger] call_ensures(parse, (t,), n)
}

/// `n` is what `parse` may answer for the trimmed text of a column, and nothing
/// where the column is no text.
pub open spec fn reads<N, P: Fn(&str) -> Option<N>>(
    parse: P,
    record: Seq<u8>,
    a: int,
    b: int,
    n: Option<N>,
) -> bool {
    match column_chars(record, a, b) {
        Some(s) => text_reads(parse, s, n),
        None => n is None,
    }
}

fn read_u32(record: &[u8], a: usize, b: usize) -> (n: Option<u32>)
    ensures
        reads_u32(record@, a as int, b as int, n),
{
    match column(record, a..b) {
        Some(s) => {
            let t = trimmed(s);
            let n = parse_u32(t);
            assert(is_trimmed(s@, t@) && n == parsed_u32(t@));
            n
        },
        None => None,
    }
}

fn read<N, P: Fn(&str) -> Option<N>>(record: &[u8], a: usize, b: usize, parse: &P) -> (n: Option<N>)
    requires
        forall|t: &str| #[trigger] call_requires(*parse, (t,)),
    ensures
        reads(*parse, record@, a as int, b as int, n),
{
    match column(record, a..b) {
        Some(s) => {
            let t = trimmed(s);
            parse(t)
        },
        None => None,
    }
}

/// Highest column offset the parser reads: the end of the B-V field.
pub const RECORD_END: usize = 158;

/// How a record is read: the fields in their columns; a star where all of them
/// are numbers.
pub open spec fn record_read<D: Fn(&str) -> Option<F64>, S: Fn(&str) -> Option<F32>>(
    double: D,
    single: S,
    record: Seq<u8>,
    fields: (
        Option<u32>,
        Option<F64>,
        Option<F64>,
        Option<F64>,
        Option<F64>,
        Option<F32>,
        Option<F32>,
    ),
    star: Option<HipparcosStar>,
) -> bool {
    &&& reads_u32(record, 0, 6, fields.0)
    &&& reads(double, record, 15, 28, fields.1)
    &&& reads(double, record, 29, 42, fields.2)
    &&& reads(double, record, 51, 59, fields.3)
    &&& reads(double, record, 60, 68, fields.4)
    &&& reads(single, record, 129, 136, fields.5)
    &&& reads(single, record, 152, 158, fields.6)
    &&& star == match fields {
        (
            Some(hip),
            Some(ra_rad),
            Some(dec_rad),
            Some(pm_ra),
            Some(pm_dec),
            Some(hpmag),
            Some(b_v),
        ) => Some(HipparcosStar { hip, ra_rad, dec_rad, pm_ra, pm_dec, hpmag, b_v }),
        _ => None,
    }
}

/// `star` is what a record says: nothing where it is too short or a field is not
/// a number.
pub open spec fn is_record<D: Fn(&str) -> Option<F64>, S: Fn(&str) -> Option<F32>>(
    double: D,
    single: S,
    record: Seq<u8>,
    star: Option<HipparcosStar>,
) -> bool {
    if record.len() < RECORD_END {
        star is None
    } else {
        exists|
            fields: (
                Option<u32>,
                Option<F64>,
                Option<F64>,
                Option<F64>,
                Option<F64>,
                Option<F32>,
                Option<F32>,
            ),
        | #[trigger]
            record_read(double, single, record, fields, star)
    }
}

fn parse_record<D: Fn(&str) -> Option<F64>, S: Fn(&str) -> Option<F32>>(
    bytes: &[u8],
    double: &D,
    single: &S,
) -> (star: Option<HipparcosStar>)
    requires
        forall|t: &str| #[trigger] call_requires(*double, (t,)),
        forall|t: &str| #[trigger] call_requires(*single, (t,)),
    ensures
        is_record(*double, *single, bytes@, star),
{
    if bytes.len() < RECORD_END {
        return None;
    }
    let fields = (
        read_u32(bytes, 0, 6),
        read(bytes, 15, 28, double),
        read(bytes, 29, 42, double),
        read(bytes, 51, 59, double),
        read(bytes, 60, 68, double),
        read(bytes, 129, 136, single),
        read(bytes, 152, 158, single),
    );
    let star = match fields {
        (
            Some(hip),
            Some(ra_rad),
            Some(dec_rad),
            Some(pm_ra),
            Some(pm_dec),
            Some(hpmag),
            Some(b_v),
        ) => Some(HipparcosStar { hip, ra_rad, dec_rad, pm_ra, pm_dec, hpmag, b_v }),
        _ => None,
    };
    assert(record_read(*double, *single, bytes@, fields, star));
    star
}

/// Parse a single Hipparcos catalog record. `double` and `single` read decimal
/// numbers.
pub fn parse_hipparcos_star<D: Fn(&str) -> Option<F64>, S: Fn(&str) -> Option<F32>>(
    record: &str,
    double: &D,
    single: &S,
) -> (star: Option<HipparcosStar>)
    requires
        forall|t: &str| #[trigger] call_requires(*double, (t,)),
        forall|t: &str| #[trigger] call_requires(*single, (t,)),
    ensures
        is_record(*double, *single, record.spec_bytes(), star),
{
    parse_record(record.as_bytes(), double, single)
}

/// Bytes `a` to `b` of a record hold a field that is read.
pub open spec fn is_field(a: int, b: int) -> bool {
    ||| (a, b) == (0int, 6int)
    ||| (a, b) == (15int, 28int)
    ||| (a, b) == (29int, 42int)
    ||| (a, b) == (51int, 59int)
    ||| (a, b) == (60int, 68int)
    ||| (a, b) == (129int, 136int)
    ||| (a, b) == (152int, 158int)
}

/// A record in which a field is cut through a character is skipped.
pub proof fn law_cut_character_skips<D: Fn(&str) -> Option<F64>, S: Fn(&str) -> Option<F32>>(
    double: D,
    single: S,
    record: Seq<u8>,
    a: int,
    b: int,
    star: Option<HipparcosStar>,
)
    requires
        is_record(double, single, record, star),
        is_field(a, b),
        !valid_utf8(record.subrange(a, b)),
    ensures
        star is None,
{
}

/// Where the line that begins at `at` ends: at the next line feed, or with the
/// data.
pub open spec fn line_end(data: Seq<u8>, at: int) -> int
    decreases data.len() - at,
{
    if at >= data.len() || data[at] == 0x0a {
        at
    } else {
        line_end(data, at + 1)
    }
}

/// The line from `at` to `end` without its line ending: a carriage return before
/// a line feed belongs to it.
pub open spec fn line_text(data: Seq<u8>, at: int, end: int) -> Seq<u8> {
    if at < end < data.len() && data[end - 1] == 0x0d {
        data.subrange(at, end - 1)
    } else {
        data.subrange(at, end)
    }
}

/// The lines of the data from `at` on. The last line ending is optional.
pub open spec fn lines_from(data: Seq<u8>, at: int) -> Seq<Seq<u8>>
    decreases data.len() + 1 - at,
{
    if at >= data.len() || at < 0 {
        Seq::empty()
    } else {
        let end = line_end(data, at);
        proof {
            lemma_line_end(data, at);
        }
        seq![line_text(data, at, end)] + lines_from(data, end + 1)
    }
}

/// A line ends at or after its beginning and within the data.
pub proof fn lemma_line_end(data: Seq<u8>, at: int)
    requires
        0 <= at <= data.len(),
    ensures
        at <= line_end(data, at) <= data.len(),
    decreases data.len() - at,
{
    if at < data.len() && data[at] != 0x0a {
        lemma_line_end(data, at + 1);
    }
}

proof fn lemma_line_end_at(data: Seq<u8>, at: int, n: int)
    requires
        0 <= at <= n < data.len(),
        forall|i: int| at <= i < n ==> #[trigger] data[i] != 0x0a,
        data[n] == 0x0a,
    ensures
        line_end(data, at) == n,
    decreases n - at,
{
    if at < n {
        lemma_line_end_at(data, at + 1, n);
    }
}

/// What follows a point reads the same on its own.
proof fn lemma_lines_suffix(data: Seq<u8>, head: int, at: int)
    requires
        0 <= head <= data.len(),
        0 <= at <= data.len() - head,
    ensures
        line_end(data, head + at) == head + line_end(data.skip(head), at),
        lines_from(data, head + at) == lines_from(data.skip(head), at),
    decreases data.len() - head - at,
{
    let tail = data.skip(head);
    if at < tail.len() {
        assert(data[head + at] == tail[at]);
        if data[head + at] != 0x0a {
            lemma_lines_suffix(data, head, at + 1);
        }
        let end = line_end(tail, at);
        lemma_line_end(tail, at);
        assert(line_end(data, head + at) == head + end);
        assert(line_text(data, head + at, head + end) =~= line_text(tail, at, end)) by {
            if at < end < tail.len() {
                assert(tail[end - 1] == data[head + end - 1]);
            }
        }
        if end < tail.len() {
            lemma_lines_suffix(data, head, end + 1);
        } else {
            assert(lines_from(data, head + end + 1) =~= Seq::empty());
            assert(lines_from(tail, end + 1) =~= Seq::empty());
        }
    }
}

/// A line in front of other data reads back as the first line, whichever of the
/// two line endings it has, and the rest reads as it does alone.
pub proof fn law_first_line_reads_back(line: Seq<u8>, carriage_return: bool, rest: Seq<u8>)
    requires
        forall|i: int| 0 <= i < line.len() ==> #[trigger] line[i] != 0x0a,
        !carriage_return && line.len() > 0 ==> line.last() != 0x0d,
    ensures
        lines_from(
            line + (if carriage_return {
                seq![0x0du8, 0x0au8]
            } else {
                seq![0x0au8]
            }) + rest,
            0,
        ) == seq![line] + lines_from(rest, 0),
{
    let ending = if carriage_return {
        seq![0x0du8, 0x0au8]
    } else {
        seq![0x0au8]
    };
    let data = line + ending + rest;
    let n = line.len() + ending.len() - 1;
    assert forall|i: int| 0 <= i < n implies #[trigger] data[i] != 0x0a by {
        if i < line.len() {
            assert(data[i] == line[i]);
        }
    }
    lemma_line_end_at(data, 0, n);
    assert(line_text(data, 0, n) =~= line);
    assert(data.skip(n + 1) =~= rest);
    lemma_lines_suffix(data, n + 1, 0);
}

fn find_line_end(data: &[u8], at: usize) -> (end: usize)
    requires
        at <= data@.len(),
    ensures
        end == line_end(data@, at as int),
        at <= end <= data@.len(),
{
    let mut end: usize = at;
    while end < data.len() && data[end] != 0x0a
        invariant
            at <= end <= data@.len(),
            line_end(data@, end as int) == line_end(data@, at as int),
        decreases data@.len() - end,
    {
        end += 1;
    }
    end
}

/// A line of nothing but whitespace.
pub open spec fn is_blank(line: Seq<u8>) -> bool {
    valid_utf8(line) && is_trimmed(decode_utf8(line), Seq::empty())
}

fn is_blank_line(line: &[u8]) -> (r: bool)
    ensures
        r == is_blank(line@),
{
    match str_from_utf8(line) {
        Some(s) => {
            let t = trimmed(s);
            proof {
                encode_utf8_decode_utf8(s@);
                if t@.len() == 0 {
                    assert(t@ =~= Seq::empty());
                } else {
                    lemma_trimmed_empty(s@, t@);
                }
            }
            t.is_empty()
        },
        None => false,
    }
}

/// What can be trimmed to something cannot be trimmed to nothing.
proof fn lemma_trimmed_empty(s: Seq<char>, t: Seq<char>)
    requires
        is_trimmed(s, t),
        t.len() > 0,
    ensures
        !is_trimmed(s, Seq::empty()),
{
    let (i, j) = choose|i: int, j: int|
        {
            &&& 0 <= i <= j <= s.len()
            &&& t == #[trigger] s.subrange(i, j)
            &&& forall|k: int| 0 <= k < i ==> is_white(#[trigger] s[k])
            &&& forall|k: int| j <= k < s.len() ==> is_white(#[trigger] s[k])
            &&& i < j ==> !is_white(s[i]) && !is_white(s[j - 1])
        };
    if is_trimmed(s, Seq::empty()) {
        let (a, b) = choose|a: int, b: int|
            {
                &&& 0 <= a <= b <= s.len()
                &&& Seq::<char>::empty() == #[trigger] s.subrange(a, b)
                &&& forall|k: int| 0 <= k < a ==> is_white(#[trigger] s[k])
                &&& forall|k: int| b <= k < s.len() ==> is_white(#[trigger] s[k])
                &&& a < b ==> !is_white(s[a]) && !is_white(s[b - 1])
            };
        assert(s.subrange(a, b).len() == b - a);
        assert(is_white(s[i]));
    }
}

/// What was read of a catalog.
pub struct CatalogRead {
    pub stars: Vec<HipparcosStar>,
    /// Lines that are not blank.
    pub total_lines: usize,
    /// Lines that are not blank and hold no star.
    pub dropped: usize,
}

/// The stars that came out, in order.
pub open spec fn stars_in(outs: Seq<Option<HipparcosStar>>) -> Seq<HipparcosStar>
    decreases outs.len(),
{
    if outs.len() == 0 {
        Seq::empty()
    } else {
        let head = stars_in(outs.drop_last());
        match outs.last() {
            Some(s) => head.push(s),
            None => head,
        }
    }
}

/// How many of the first `n` lines are not blank; with `starless`, only those
/// that hold no star.
pub open spec fn count_lines(
    lines: Seq<Seq<u8>>,
    outs: Seq<Option<HipparcosStar>>,
    starless: bool,
    n: int,
) -> int
    decreases n,
{
    if n <= 0 {
        0
    } else {
        count_lines(lines, outs, starless, n - 1) + if !is_blank(lines[n - 1]) && !(starless && outs[
        n - 1] is Some) {
            1int
        } else {
            0
        }
    }
}

/// One outcome for each line.
pub open spec fn lines_read<D: Fn(&str) -> Option<F64>, S: Fn(&str) -> Option<F32>>(
    double: D,
    single: S,
    lines: Seq<Seq<u8>>,
    outs: Seq<Option<HipparcosStar>>,
) -> bool {
    &&& outs.len() == lines.len()
    &&& forall|i: int|
        0 <= i < outs.len() ==> is_record(double, single, lines[i], #[trigger] outs[i])
}

/// `out` is what the lines of the data say.
pub open spec fn is_catalog<D: Fn(&str) -> Option<F64>, S: Fn(&str) -> Option<F32>>(
    double: D,
    single: S,
    data: Seq<u8>,
    out: CatalogRead,
) -> bool {
    let lines = lines_from(data, 0);
    exists|outs: Seq<Option<HipparcosStar>>|
        {
            &&& #[trigger] lines_read(double, single, lines, outs)
            &&& out.stars@ == stars_in(outs)
            &&& out.total_lines == count_lines(lines, outs, false, lines.len() as int)
            &&& out.dropped == count_lines(lines, outs, true, lines.len() as int)
        }
}

proof fn lemma_count_prefix(
    a: Seq<Seq<u8>>,
    b: Seq<Seq<u8>>,
    x: Seq<Option<HipparcosStar>>,
    y: Seq<Option<HipparcosStar>>,
    starless: bool,
    n: int,
)
    requires
        forall|i: int| 0 <= i < n ==> #[trigger] a[i] == b[i],
        forall|i: int| 0 <= i < n ==> #[trigger] x[i] == y[i],
    ensures
        count_lines(a, x, starless, n) == count_lines(b, y, starless, n),
    decreases n,
{
    if n > 0 {
        lemma_count_prefix(a, b, x, y, starless, n - 1);
        assert(a[n - 1] == b[n - 1] && x[n - 1] == y[n - 1]);
    }
}

/// The text of a part from the beginning is the beginning of the text.
proof fn lemma_decode_prefix(bytes: Seq<u8>, k: int)
    requires
        0 <= k <= bytes.len(),
        valid_utf8(bytes),
        valid_utf8(bytes.take(k)),
    ensures
        decode_utf8(bytes.take(k)).len() <= decode_utf8(bytes).len(),
        forall|i: int|
            0 <= i < decode_utf8(bytes.take(k)).len() ==> #[trigger] decode_utf8(bytes.take(k))[i]
                == decode_utf8(bytes)[i],
    decreases bytes.len(),
{
    let part = bytes.take(k);
    if k > 0 {
        assert(part[0] == bytes[0]);
        let n = length_of_first_scalar(part);
        assert(forall|i: int| 0 <= i < n ==> #[trigger] part[i] == bytes[i]);
        assert(n == length_of_first_scalar(bytes));
        assert(decode_first_scalar(part) == decode_first_scalar(bytes));
        let rest = pop_first_scalar(bytes);
        assert(pop_first_scalar(part) =~= rest.take(k - n));
        lemma_decode_prefix(rest, k - n);
    }
}

/// A line with a star on it is not blank.
proof fn lemma_star_line<D: Fn(&str) -> Option<F64>, S: Fn(&str) -> Option<F32>>(
    double: D,
    single: S,
    line: Seq<u8>,
    star: Option<HipparcosStar>,
)
    requires
        is_record(double, single, line, star),
        star is Some,
    ensures
        !is_blank(line),
{
    if is_blank(line) {
        assert(line.subrange(0, 6) =~= line.take(6));
        let s = decode_utf8(line.take(6));
        lemma_decode_prefix(line, 6);
        let text = decode_utf8(line);
        let (a, b) = choose|a: int, b: int|
            {
                &&& 0 <= a <= b <= text.len()
                &&& Seq::<char>::empty() == #[trigger] text.subrange(a, b)
                &&& forall|k: int| 0 <= k < a ==> is_white(#[trigger] text[k])
                &&& forall|k: int| b <= k < text.len() ==> is_white(#[trigger] text[k])
                &&& a < b ==> !is_white(text[a]) && !is_white(text[b - 1])
            };
        assert(text.subrange(a, b).len() == b - a);
        assert forall|k: int| 0 <= k < s.len() implies is_white(#[trigger] s[k]) by {
            assert(is_white(text[k]));
        }
        let fields = choose|
            fields: (
                Option<u32>,
                Option<F64>,
                Option<F64>,
                Option<F64>,
                Option<F64>,
                Option<F32>,
                Option<F32>,
            ),
        | #[trigger]
            record_read(double, single, line, fields, star);
        assert(reads_u32(line, 0, 6, fields.0));
        let t = choose|t: Seq<char>| #[trigger] is_trimmed(s, t) && fields.0 == parsed_u32(t);
        assert(t.len() > 0);
        assert(s.subrange(0, 0) =~= Seq::<char>::empty());
        lemma_trimmed_empty(s, t);
    }
}

proof fn lemma_line_counts<D: Fn(&str) -> Option<F64>, S: Fn(&str) -> Option<F32>>(
    double: D,
    single: S,
    lines: Seq<Seq<u8>>,
    outs: Seq<Option<HipparcosStar>>,
    n: int,
)
    requires
        lines_read(double, single, lines, outs),
        0 <= n <= outs.len(),
    ensures
        count_lines(lines, outs, false, n) == stars_in(outs.take(n)).len() + count_lines(
            lines,
            outs,
            true,
            n,
        ),
    decreases n,
{
    if n > 0 {
        lemma_line_counts(double, single, lines, outs, n - 1);
        assert(outs.take(n).drop_last() =~= outs.take(n - 1));
        assert(outs.take(n).last() == outs[n - 1]);
        if outs[n - 1] is Some {
            lemma_star_line(double, single, lines[n - 1], outs[n - 1]);
        }
    }
}

/// Every line that is not blank holds a star or is counted as skipped.
pub proof fn law_lines_accounted_for<D: Fn(&str) -> Option<F64>, S: Fn(&str) -> Option<F32>>(
    double: D,
    single: S,
    data: Seq<u8>,
    out: CatalogRead,
)
    requires
        is_catalog(double, single, data, out),
    ensures
        out.total_lines == out.stars@.len() + out.dropped,
{
    let lines = lines_from(data, 0);
    let outs = choose|outs: Seq<Option<HipparcosStar>>|
        {
            &&& #[trigger] lines_read(double, single, lines, outs)
            &&& out.stars@ == stars_in(outs)
            &&& out.total_lines == count_lines(lines, outs, false, lines.len() as int)
            &&& out.dropped == count_lines(lines, outs, true, lines.len() as int)
        };
    lemma_line_counts(double, single, lines, outs, outs.len() as int);
    assert(outs.take(outs.len() as int) =~= outs);
}

/// Read the stars of a catalog and count its lines.
fn read_catalog<D: Fn(&str) -> Option<F64>, S: Fn(&str) -> Option<F32>>(
    data: &[u8],
    double: &D,
    single: &S,
) -> (out: CatalogRead)
    requires
        forall|t: &str| #[trigger] call_requires(*double, (t,)),
        forall|t: &str| #[trigger] call_requires(*single, (t,)),
    ensures
        is_catalog(*double, *single, data@, out),
{
    let len: usize = data.len();
    let ghost all = lines_from(data@, 0);
    let ghost mut lines: Seq<Seq<u8>> = Seq::empty();
    let ghost mut outs: Seq<Option<HipparcosStar>> = Seq::empty();
    let mut stars: Vec<HipparcosStar> = Vec::new();
    let mut total_lines: usize = 0;
    let mut dropped: usize = 0;
    let mut at: usize = 0;
    proof {
        assert(lines + all =~= all);
        assert(stars_in(outs) =~= stars@);
    }
    while at < len
        invariant
            len == data@.len(),
            0 <= at <= len,
            forall|t: &str| #[trigger] call_requires(*double, (t,)),
            forall|t: &str| #[trigger] call_requires(*single, (t,)),
            all == lines + lines_from(data@, at as int),
            lines_read(*double, *single, lines, outs),
            stars@ == stars_in(outs),
            total_lines == count_lines(lines, outs, false, lines.len() as int),
            dropped == count_lines(lines, outs, true, lines.len() as int),
            total_lines <= at,
            dropped <= at,
        decreases len - at,
    {
        let end: usize = find_line_end(data, at);
        let stop: usize = if at < end && end < len && data[end - 1] == 0x0d {
            end - 1
        } else {
            end
        };
        let line = &data[at..stop];
        let o = parse_record(line, double, single);
        let blank: bool = is_blank_line(line);
        let ghost (lines0, outs0) = (lines, outs);
        let ghost rest = lines_from(data@, end + 1);
        proof {
            assert(line@ =~= line_text(data@, at as int, end as int));
            lines = lines.push(line@);
            outs = outs.push(o);
            assert(outs.drop_last() =~= outs0);
            assert(lines0 + (seq![line@] + rest) =~= lines + rest);
            lemma_count_prefix(lines0, lines, outs0, outs, false, lines0.len() as int);
            lemma_count_prefix(lines0, lines, outs0, outs, true, lines0.len() as int);
        }
        if !blank {
            total_lines += 1;
            if o.is_none() {
                dropped += 1;
            }
        }
        if let Some(s) = o {
            stars.push(s);
        }
        if end < len {
            at = end + 1;
        } else {
            at = len;
            assert(rest =~= Seq::empty());
        }
        assert(all =~= lines + lines_from(data@, at as int));
    }
    let out = CatalogRead { stars, total_lines, dropped };
    proof {
        assert(lines =~= all);
    }
    out
}

/// Load the Hipparcos catalog from an in-memory string: the star of every line
/// that holds one.
pub fn load_hipparcos_catalog<D: Fn(&str) -> Option<F64>, S: Fn(&str) -> Option<F32>>(
    data: &str,
    double: &D,
    single: &S,
) -> (stars: Vec<HipparcosStar>)
    requires
        forall|t: &str| #[trigger] call_requires(*double, (t,)),
        forall|t: &str| #[trigger] call_requires(*single, (t,)),
    ensures
        exists|out: CatalogRead| #[trigger]
            is_catalog(*double, *single, data.spec_bytes(), out) && stars == out.stars,
{
    let out = read_catalog(data.as_bytes(), double, single);
    assert(is_catalog(*double, *single, data.spec_bytes(), out));
    out.stars
}

/// No line of a catalog that has lines held a star.
#[derive(Clone, Copy, Debug, PartialEq, Eq, Structural)]
pub struct WrongFormat {
    pub total_lines: usize,
}

/// The contents of a catalog file: its stars and the number of lines that were
/// skipped. A wrong-format file parses to zero stars but would otherwise build a
/// useless (empty) database without any error.
pub fn load_hipparcos_catalog_from_text<D: Fn(&str) -> Option<F64>, S: Fn(&str) -> Option<F32>>(
    data: &str,
    double: &D,
    single: &S,
) -> (r: Result<CatalogRead, WrongFormat>)
    requires
        forall|t: &str| #[trigger] call_requires(*double, (t,)),
        forall|t: &str| #[trigger] call_requires(*single, (t,)),
    ensures
        exists|out: CatalogRead| #[trigger]
            is_catalog(*double, *single, data.spec_bytes(), out) && r == (if out.total_lines > 0
                && out.stars@.len() == 0 {
                Err::<CatalogRead, WrongFormat>(WrongFormat { total_lines: out.total_lines })
            } else {
                Ok(out)
            }),
{
    let out = read_catalog(data.as_bytes(), double, single);
    assert(is_catalog(*double, *single, data.spec_bytes(), out));
    if out.total_lines > 0 && out.stars.len() == 0 {
        return Err(WrongFormat { total_lines: out.total_lines });
    }
    Ok(out)
}

/// Where a star's numbers stand in its record: the number in the first six
/// columns, the two angles in columns 15 and 29 on, the two motions in columns 51
/// and 60 on, the magnitude in columns 129 and the colour in columns 152 on. A
/// record of at least 158 bytes in which all seven can be read is a star.
pub proof fn law_star_reads_its_columns<D: Fn(&str) -> Option<F64>, S: Fn(&str) -> Option<F32>>(
    double: D,
    single: S,
    text: &str,
    record: Seq<u8>,
    star: Option<HipparcosStar>,
)
    requires
        call_ensures(parse_hipparcos_star::<D, S>, (text, &double, &single), star),
        record == text.spec_bytes(),
    ensures
        star matches Some(s) ==> {
            &&& record.len() >= 158
            &&& reads_u32(record, 0, 6, Some(s.hip))
            &&& reads(double, record, 15, 28, Some(s.ra_rad))
            &&& reads(double, record, 29, 42, Some(s.dec_rad))
            &&& reads(double, record, 51, 59, Some(s.pm_ra))
            &&& reads(double, record, 60, 68, Some(s.pm_dec))
            &&& reads(single, record, 129, 136, Some(s.hpmag))
            &&& reads(single, record, 152, 158, Some(s.b_v))
        },
        star is None ==> {
            ||| record.len() < 158
            ||| reads_u32(record, 0, 6, None)
            ||| reads(double, record, 15, 28, None)
            ||| reads(double, record, 29, 42, None)
            ||| reads(double, record, 51, 59, None)
            ||| reads(double, record, 60, 68, None)
            ||| reads(single, record, 129, 136, None)
            ||| reads(single, record, 152, 158, None)
        },
{
}

/// What is left of a text without the whitespace at its two ends.
proof fn lemma_trimmed_text(before: Seq<char>, text: Seq<char>, after: Seq<char>, t: Seq<char>)
    requires
        forall|i: int| 0 <= i < before.len() ==> is_white(#[trigger] before[i]),
        forall|i: int| 0 <= i < after.len() ==> is_white(#[trigger] after[i]),
        text.len() > 0,
        !is_white(text[0]),
        !is_white(text.last()),
    ensures
        is_trimmed(before + text + after, t) <==> t == text,
{
    let s = before + text + after;
    let (i, j) = (before.len() as int, before.len() as int + text.len());
    assert(s.subrange(i, j) =~= text);
    assert forall|k: int| 0 <= k < i implies is_white(#[trigger] s[k]) by {
        assert(s[k] == before[k]);
    }
    assert forall|k: int| j <= k < s.len() implies is_white(#[trigger] s[k]) by {
        assert(s[k] == after[k - j]);
    }
    assert(s[i] == text[0] && s[j - 1] == text.last());
    assert(is_trimmed(s, text));
    if is_trimmed(s, t) {
        let (a, b) = choose|a: int, b: int|
            {
                &&& 0 <= a <= b <= s.len()
                &&& t == #[trigger] s.subrange(a, b)
                &&& forall|k: int| 0 <= k < a ==> is_white(#[trigger] s[k])
                &&& forall|k: int| b <= k < s.len() ==> is_white(#[trigger] s[k])
                &&& a < b ==> !is_white(s[a]) && !is_white(s[b - 1])
            };
        if a == b {
            assert(is_white(s[i]));
        } else {
            if a < i {
                assert(is_white(s[a]));
            } else if i < a {
                assert(is_white(s[i]));
            }
            if b < j {
                assert(is_white(s[j - 1]));
            } else if j < b {
                assert(is_white(s[b - 1]));
            }
        }
        assert(t =~= text);
    }
}

/// A column is read without the whitespace around its text: what is between is the
/// number, and what a number is asked for.
pub proof fn law_whitespace_around_a_number_is_ignored<N, P: Fn(&str) -> Option<N>>(
    parse: P,
    before: Seq<char>,
    text: Seq<char>,
    after: Seq<char>,
    n: Option<u32>,
    v: Option<N>,
)
    requires
        forall|i: int| 0 <= i < before.len() ==> is_white(#[trigger] before[i]),
        forall|i: int| 0 <= i < after.len() ==> is_white(#[trigger] after[i]),
        text.len() > 0,
        !is_white(text[0]),
        !is_white(text.last()),
    ensures
        text_reads_u32(before + text + after, n) <==> n == parsed_u32(text),
        text_reads(parse, before + text + after, v) <==> exists|t: &str|
            t@ == text && #[trigger] call_ensures(parse, (t,), v),
{
    let s = before + text + after;
    lemma_trimmed_text(before, text, after, text);
    if text_reads_u32(s, n) {
        let t = choose|t: Seq<char>| #[trigger] is_trimmed(s, t) && n == parsed_u32(t);
        lemma_trimmed_text(before, text, after, t);
    }
    if text_reads(parse, s, v) {
        let t = choose|t: &str| is_trimmed(s, t@) && #[trigger] call_ensures(parse, (t,), v);
        lemma_trimmed_text(before, text, after, t@);
        assert(t@ == text && call_ensures(parse, (t,), v));
    }
    if exists|t: &str| t@ == text && #[trigger] call_ensures(parse, (t,), v) {
        let t = choose|t: &str| t@ == text && #[trigger] call_ensures(parse, (t,), v);
        assert(is_trimmed(s, t@) && call_ensures(parse, (t,), v));
    }
}

/// Digits stand for a number, the last being worth one: a further digit makes ten
/// times the number and the digit.
pub proof fn law_digits_are_decimal(s: Seq<char>, c: char)
    ensures
        decimal_value(s.push(c)) == 10 * decimal_value(s) + (c as u32 - 0x30),
        decimal_value(Seq::<char>::empty()) == 0,
        is_digit(c) <==> 0x30 <= c as u32 <= 0x39,
{
    assert(s.push(c).drop_last() =~= s);
}

/// A catalog is read line by line: a line in front of a catalog puts its star, if
/// it holds one, in front of the stars of the catalog.
pub proof fn law_catalog_reads_line_by_line<
    D: Fn(&str) -> Option<F64>,
    S: Fn(&str) -> Option<F32>,
>(
    double: D,
    single: S,
    line: Seq<u8>,
    carriage_return: bool,
    rest: Seq<u8>,
    text: &str,
    stars: Vec<HipparcosStar>,
)
    requires
        forall|i: int| 0 <= i < line.len() ==> #[trigger] line[i] != 0x0a,
        !carriage_return && line.len() > 0 ==> line.last() != 0x0d,
        call_ensures(load_hipparcos_catalog::<D, S>, (text, &double, &single), stars),
        text.spec_bytes() == line + (if carriage_return {
            seq![0x0du8, 0x0au8]
        } else {
            seq![0x0au8]
        }) + rest,
    ensures
        exists|first: Option<HipparcosStar>, others: Seq<Option<HipparcosStar>>|
            {
                &&& #[trigger] is_record(double, single, line, first)
                &&& #[trigger] lines_read(double, single, lines_from(rest, 0), others)
                &&& stars@ == (match first {
                    Some(s) => seq![s],
                    None => Seq::empty(),
                }) + stars_in(others)
            },
{
    let data = line + (if carriage_return {
        seq![0x0du8, 0x0au8]
    } else {
        seq![0x0au8]
    }) + rest;
    let out = choose|out: CatalogRead| #[trigger]
        is_catalog(double, single, data, out) && stars == out.stars;
    law_first_line_reads_back(line, carriage_return, rest);
    let lines = lines_from(data, 0);
    let tail = lines_from(rest, 0);
    let outs = choose|outs: Seq<Option<HipparcosStar>>|
        {
            &&& #[trigger] lines_read(double, single, lines, outs)
            &&& out.stars@ == stars_in(outs)
            &&& out.total_lines == count_lines(lines, outs, false, lines.len() as int)
            &&& out.dropped == count_lines(lines, outs, true, lines.len() as int)
        };
    let first = outs[0];
    let others = outs.skip(1);
    assert(lines[0] == line);
    assert(is_record(double, single, line, first));
    assert forall|i: int| 0 <= i < others.len() implies is_record(
        double,
        single,
        tail[i],
        #[trigger] others[i],
    ) by {
        assert(lines[i + 1] == tail[i]);
        assert(is_record(double, single, lines[i + 1], outs[i + 1]));
    }
    assert(lines_read(double, single, tail, others));
    assert(outs =~= seq![first] + others);
    lemma_stars_after(first, others);
}

proof fn lemma_stars_after(first: Option<HipparcosStar>, others: Seq<Option<HipparcosStar>>)
    ensures
        stars_in(seq![first] + others) == (match first {
            Some(s) => seq![s],
            None => Seq::empty(),
        }) + stars_in(others),
    decreases others.len(),
{
    let all = seq![first] + others;
    let head = match first {
        Some(s) => seq![s],
        None => Seq::<HipparcosStar>::empty(),
    };
    if others.len() == 0 {
        assert(all.drop_last() =~= Seq::empty());
        assert(all.last() == first);
        assert(stars_in(all.drop_last()) =~= Seq::empty());
        assert(stars_in(all) =~= head + stars_in(others));
    } else {
        lemma_stars_after(first, others.drop_last());
        assert(all.drop_last() =~= seq![first] + others.drop_last());
        assert(all.last() == others.last());
        assert(stars_in(all) =~= head + stars_in(others));
    }
}

/// A catalog with the count of what was dropped holds the same stars, and is
/// refused where there are lines with something on them and no star.
pub proof fn law_catalog_with_counts<D: Fn(&str) -> Option<F64>, S: Fn(&str) -> Option<F32>>(
    double: D,
    single: S,
    text: &str,
    r: Result<CatalogRead, WrongFormat>,
)
    requires
        call_ensures(load_hipparcos_catalog_from_text::<D, S>, (text, &double, &single), r),
    ensures
        match r {
            Ok(out) => {
                &&& is_catalog(double, single, text.spec_bytes(), out)
                &&& out.stars@.len() > 0 || out.total_lines == 0
                &&& out.stars@.len() + out.dropped == out.total_lines
            },
            Err(e) => exists|out: CatalogRead|
                {
                    &&& #[trigger] is_catalog(double, single, text.spec_bytes(), out)
                    &&& out.stars@.len() == 0
                    &&& e.total_lines > 0
                    &&& e.total_lines == out.total_lines
                    &&& out.dropped == e.total_lines
                },
        },
{
    let out = choose|out: CatalogRead| #[trigger]
        is_catalog(double, single, text.spec_bytes(), out) && r == (if out.total_lines > 0
            && out.stars@.len() == 0 {
            Err::<CatalogRead, WrongFormat>(WrongFormat { total_lines: out.total_lines })
        } else {
            Ok(out)
        });
    law_lines_accounted_for(double, single, text.spec_bytes(), out);
}

} // verus!
