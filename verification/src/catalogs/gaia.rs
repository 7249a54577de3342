//! The Gaia binary catalog.
//!
//! - Header: magic "GDR3" (4 bytes) + version (u32 LE, value 1) + num_stars (u64 LE)
//! - Per star (36 bytes): source_id (i64 LE) + ra (f64 LE) + dec (f64 LE) +
//!   mag (f32 LE) + pmra (f32 LE) + pmdec (f32 LE)
//!
//! What follows the last star is ignored.

use vstd::prelude::*;

use crate::convert::is_narrowed;
use crate::ieee::{F32, F64};

verus! {

/// A star from the Gaia catalog.
#[derive(Clone, Copy, Debug, PartialEq, Eq, Structural)]
pub struct GaiaStar {
    pub source_id: i64,
    pub ra_deg: F32,
    pub dec_deg: F32,
    pub phot_g_mean_mag: F32,
    pub pmra: F32,
    pub pmdec: F32,
}

/// Why a file is no Gaia catalog.
#[derive(Clone, Copy, Debug, PartialEq, Eq, Structural)]
pub enum GaiaError {
    /// The file ends inside the header.
    ShortHeader,
    /// The file does not begin with the magic bytes.
    BadMagic,
    /// The version is not the supported one.
    UnsupportedVersion(u32),
    /// So many stars that their bytes cannot be counted.
    TooManyStars,
    /// The header claims more stars than the file has bytes for.
    Truncated { num_stars: u64, expected_bytes: u64, data_bytes: u64 },
}

/// Length of the header.
pub const HEADER_SIZE: usize = 16;

/// Length of a star's record.
pub const RECORD_SIZE: usize = 36;

/// The number that little-endian bytes stand for.
pub open spec fn le_value(bytes: Seq<u8>) -> int
    decreases bytes.len(),
{
    if bytes.len() == 0 {
        0
    } else {
        bytes[0] + 256 * le_value(bytes.skip(1))
    }
}

/// A number as `n` little-endian bytes.
pub open spec fn le_bytes(v: int, n: nat) -> Seq<u8>
    decreases n,
{
    if n == 0 {
        Seq::empty()
    } else {
        seq![(v % 256) as u8] + le_bytes(v / 256, (n - 1) as nat)
    }
}

/// Two to the power `8 * n`.
pub open spec fn byte_range(n: nat) -> int
    decreases n,
{
    if n == 0 {
        1
    } else {
        256 * byte_range((n - 1) as nat)
    }
}

/// A 64-bit pattern as a signed number.
pub open spec fn as_signed(v: int) -> int {
    if v < 0x8000_0000_0000_0000 {
        v
    } else {
        v - 0x1_0000_0000_0000_0000
    }
}

proof fn lemma_le_bound(bytes: Seq<u8>)
    ensures
        0 <= le_value(bytes) < byte_range(bytes.len()),
    decreases bytes.len(),
{
    if bytes.len() > 0 {
        lemma_le_bound(bytes.skip(1));
    }
}

proof fn lemma_byte_ranges()
    ensures
        byte_range(4) == 0x1_0000_0000,
        byte_range(8) == 0x1_0000_0000_0000_0000,
{
    reveal_with_fuel(byte_range, 9);
}

fn read_u64(data: &[u8], at: usize) -> (v: u64)
    requires
        at + 8 <= data@.len(),
    ensures
        v == le_value(data@.subrange(at as int, at + 8)),
{
    let len: usize = data.len();
    let mut v: u64 = 0;
    let mut k: usize = 8;
    proof {
        assert(data@.subrange(at + 8, at + 8) =~= Seq::<u8>::empty());
    }
    while k > 0
        invariant
            0 <= k <= 8,
            len == data@.len(),
            at + 8 <= len,
            v == le_value(data@.subrange(at + k, at + 8)),
        decreases k,
    {
        k -= 1;
        proof {
            let rest = data@.subrange(at + k + 1, at + 8);
            let all = data@.subrange(at + k, at + 8);
            assert(all.skip(1) =~= rest);
            lemma_le_bound(all);
            lemma_byte_ranges();
            lemma_range_grows(all.len(), 8);
        }
        v = v * 256 + data[at + k] as u64;
    }
    v
}

proof fn lemma_range_grows(a: nat, b: nat)
    requires
        a <= b,
    ensures
        byte_range(a) <= byte_range(b),
        byte_range(a) > 0,
    decreases b,
{
    if a < b {
        lemma_range_grows(a, (b - 1) as nat);
    } else if a > 0 {
        lemma_range_grows((a - 1) as nat, (a - 1) as nat);
    }
}

fn read_u32(data: &[u8], at: usize) -> (v: u32)
    requires
        at + 4 <= data@.len(),
    ensures
        v == le_value(data@.subrange(at as int, at + 4)),
{
    let ghost bytes = data@.subrange(at as int, at + 4);
    proof {
        reveal_with_fuel(le_value, 5);
        assert(bytes.skip(1).skip(1) =~= bytes.skip(2));
        assert(bytes.skip(2).skip(1) =~= bytes.skip(3));
        assert(bytes.skip(3).skip(1) =~= Seq::<u8>::empty());
    }
    data[at] as u32 + 256 * (data[at + 1] as u32 + 256 * (data[at + 2] as u32 + 256 * (data[at
        + 3] as u32)))
}

/// `star` is what the 36 bytes say, the coordinates rounded to single precision.
pub open spec fn is_star(rec: Seq<u8>, star: GaiaStar) -> bool {
    &&& star.source_id == as_signed(le_value(rec.subrange(0, 8)))
    &&& is_narrowed(F64 { bits: le_value(rec.subrange(8, 16)) as u64 }, star.ra_deg)
    &&& is_narrowed(F64 { bits: le_value(rec.subrange(16, 24)) as u64 }, star.dec_deg)
    &&& star.phot_g_mean_mag.bits == le_value(rec.subrange(24, 28))
    &&& star.pmra.bits == le_value(rec.subrange(28, 32))
    &&& star.pmdec.bits == le_value(rec.subrange(32, 36))
}

/// The magic bytes.
pub open spec fn magic() -> Seq<u8> {
    seq![0x47u8, 0x44u8, 0x52u8, 0x33u8]
}

/// The number of stars that the header claims.
pub open spec fn star_count(data: Seq<u8>) -> int {
    le_value(data.subrange(8, 16))
}

/// What is wrong with the file, the first in the order of the checks.
pub open spec fn gaia_error(data: Seq<u8>) -> Option<GaiaError> {
    let version = le_value(data.subrange(4, 8));
    let n = star_count(data);
    if data.len() < HEADER_SIZE {
        Some(GaiaError::ShortHeader)
    } else if data.subrange(0, 4) != magic() {
        Some(GaiaError::BadMagic)
    } else if version != 1 {
        Some(GaiaError::UnsupportedVersion(version as u32))
    } else if n * RECORD_SIZE > u64::MAX {
        Some(GaiaError::TooManyStars)
    } else if n * RECORD_SIZE > data.len() - HEADER_SIZE {
        Some(
            GaiaError::Truncated {
                num_stars: n as u64,
                expected_bytes: (n * RECORD_SIZE) as u64,
                data_bytes: (data.len() - HEADER_SIZE) as u64,
            },
        )
    } else {
        None
    }
}

/// The record of star `i`.
pub open spec fn record(data: Seq<u8>, i: int) -> Seq<u8> {
    data.subrange(HEADER_SIZE + i * RECORD_SIZE, HEADER_SIZE + i * RECORD_SIZE + RECORD_SIZE)
}

/// `stars` are the stars of the file.
pub open spec fn are_stars(data: Seq<u8>, stars: Seq<GaiaStar>) -> bool {
    &&& stars.len() == star_count(data)
    &&& forall|i: int| 0 <= i < stars.len() ==> is_star(record(data, i), #[trigger] stars[i])
}

fn read_star(data: &[u8], at: usize) -> (star: GaiaStar)
    requires
        at + RECORD_SIZE <= data@.len(),
    ensures
        is_star(data@.subrange(at as int, at + RECORD_SIZE), star),
{
    let ghost rec = data@.subrange(at as int, at + RECORD_SIZE);
    proof {
        assert(rec.subrange(0, 8) =~= data@.subrange(at as int, at + 8));
        assert(rec.subrange(8, 16) =~= data@.subrange(at + 8, at + 16));
        assert(rec.subrange(16, 24) =~= data@.subrange(at + 16, at + 24));
        assert(rec.subrange(24, 28) =~= data@.subrange(at + 24, at + 28));
        assert(rec.subrange(28, 32) =~= data@.subrange(at + 28, at + 32));
        assert(rec.subrange(32, 36) =~= data@.subrange(at + 32, at + 36));
    }
    let len: usize = data.len();
    let id: u64 = read_u64(data, at);
    let source_id: i64 = if id < 0x8000_0000_0000_0000 {
        id as i64
    } else {
        -((u64::MAX - id) as i64) - 1
    };
    let ra = F64 { bits: read_u64(data, at + 8) };
    let dec = F64 { bits: read_u64(data, at + 16) };
    GaiaStar {
        source_id,
        ra_deg: ra.narrow(),
        dec_deg: dec.narrow(),
        phot_g_mean_mag: F32 { bits: read_u32(data, at + 24) },
        pmra: F32 { bits: read_u32(data, at + 28) },
        pmdec: F32 { bits: read_u32(data, at + 32) },
    }
}

/// Load a Gaia catalog from the bytes of a file in the binary format.
///
/// A corrupt header could claim a huge number of stars; the claim is held
/// against the bytes that are there before anything is allocated.
pub fn load_gaia_binary(data: &[u8]) -> (r: Result<Vec<GaiaStar>, GaiaError>)
    ensures
        match gaia_error(data@) {
            Some(e) => r == Err::<Vec<GaiaStar>, GaiaError>(e),
            None => r matches Ok(stars) && are_stars(data@, stars@),
        },
{
    let len: usize = data.len();
    if len < HEADER_SIZE {
        return Err(GaiaError::ShortHeader);
    }
    let magic_ok: bool = data[0] == 0x47 && data[1] == 0x44 && data[2] == 0x52 && data[3] == 0x33;
    proof {
        let head = data@.subrange(0, 4);
        assert(magic_ok == (head =~= magic()));
    }
    if !magic_ok {
        return Err(GaiaError::BadMagic);
    }
    let version: u32 = read_u32(data, 4);
    if version != 1 {
        return Err(GaiaError::UnsupportedVersion(version));
    }
    let num_stars: u64 = read_u64(data, 8);
    let data_bytes: u64 = (len - HEADER_SIZE) as u64;
    let expected_bytes: u64 = match num_stars.checked_mul(36) {
        Some(b) => b,
        None => {
            return Err(GaiaError::TooManyStars);
        },
    };
    if expected_bytes > data_bytes {
        return Err(GaiaError::Truncated { num_stars, expected_bytes, data_bytes });
    }
    let mut stars: Vec<GaiaStar> = Vec::new();
    let mut at: usize = HEADER_SIZE;
    let mut i: u64 = 0;
    while i < num_stars
        invariant
            len == data@.len(),
            0 <= i <= num_stars,
            at == HEADER_SIZE + i * RECORD_SIZE,
            HEADER_SIZE + num_stars * RECORD_SIZE <= len,
            stars@.len() == i,
            forall|k: int| 0 <= k < i ==> is_star(record(data@, k), #[trigger] stars@[k]),
        decreases num_stars - i,
    {
        stars.push(read_star(data, at));
        at += RECORD_SIZE;
        i += 1;
    }
    Ok(stars)
}

proof fn lemma_le_roundtrip(v: int, n: nat)
    requires
        0 <= v < byte_range(n),
    ensures
        le_bytes(v, n).len() == n,
        le_value(le_bytes(v, n)) == v,
    decreases n,
{
    if n > 0 {
        let b = le_bytes(v, n);
        let rest = le_bytes(v / 256, (n - 1) as nat);
        lemma_le_roundtrip(v / 256, (n - 1) as nat);
        assert(b.skip(1) =~= rest);
    }
}

/// The bytes of a star's record.
pub open spec fn star_bytes(
    id: int,
    ra: F64,
    dec: F64,
    mag: F32,
    pmra: F32,
    pmdec: F32,
) -> Seq<u8> {
    le_bytes(id % 0x1_0000_0000_0000_0000, 8) + le_bytes(ra.bits as int, 8) + le_bytes(
        dec.bits as int,
        8,
    ) + le_bytes(mag.bits as int, 4) + le_bytes(pmra.bits as int, 4) + le_bytes(
        pmdec.bits as int,
        4,
    )
}

/// A record that was written down field by field reads back as those fields, the
/// coordinates rounded to single precision.
pub proof fn law_record_reads_back(
    id: i64,
    ra: F64,
    dec: F64,
    mag: F32,
    pmra: F32,
    pmdec: F32,
    star: GaiaStar,
)
    requires
        is_star(star_bytes(id as int, ra, dec, mag, pmra, pmdec), star),
    ensures
        star.source_id == id,
        is_narrowed(ra, star.ra_deg),
        is_narrowed(dec, star.dec_deg),
        star.phot_g_mean_mag == mag,
        star.pmra == pmra,
        star.pmdec == pmdec,
{
    lemma_byte_ranges();
    let word = id as int % 0x1_0000_0000_0000_0000;
    lemma_le_roundtrip(word, 8);
    lemma_le_roundtrip(ra.bits as int, 8);
    lemma_le_roundtrip(dec.bits as int, 8);
    lemma_le_roundtrip(mag.bits as int, 4);
    lemma_le_roundtrip(pmra.bits as int, 4);
    lemma_le_roundtrip(pmdec.bits as int, 4);
    let rec = star_bytes(id as int, ra, dec, mag, pmra, pmdec);
    assert(rec.subrange(0, 8) =~= le_bytes(word, 8));
    assert(rec.subrange(8, 16) =~= le_bytes(ra.bits as int, 8));
    assert(rec.subrange(16, 24) =~= le_bytes(dec.bits as int, 8));
    assert(rec.subrange(24, 28) =~= le_bytes(mag.bits as int, 4));
    assert(rec.subrange(28, 32) =~= le_bytes(pmra.bits as int, 4));
    assert(rec.subrange(32, 36) =~= le_bytes(pmdec.bits as int, 4));
}

/// A file with a header for `n` stars and at least their records is accepted,
/// whatever follows.
pub proof fn law_complete_file_loads(n: int, body: Seq<u8>)
    requires
        0 <= n < 0x1_0000_0000_0000_0000,
        n * RECORD_SIZE <= u64::MAX,
        n * RECORD_SIZE <= body.len(),
    ensures
        gaia_error(magic() + le_bytes(1, 4) + le_bytes(n, 8) + body) is None,
        star_count(magic() + le_bytes(1, 4) + le_bytes(n, 8) + body) == n,
{
    lemma_byte_ranges();
    lemma_le_roundtrip(1, 4);
    lemma_le_roundtrip(n, 8);
    let data = magic() + le_bytes(1, 4) + le_bytes(n, 8) + body;
    assert(data.subrange(0, 4) =~= magic());
    assert(data.subrange(4, 8) =~= le_bytes(1, 4));
    assert(data.subrange(8, 16) =~= le_bytes(n, 8));
}

/// Trailing bytes make no difference: what loads without them loads the same
/// stars with them.
pub proof fn law_trailing_bytes_ignored(data: Seq<u8>, extra: Seq<u8>, stars: Seq<GaiaStar>)
    requires
        gaia_error(data) is None,
    ensures
        gaia_error(data + extra) is None,
        are_stars(data, stars) <==> are_stars(data + extra, stars),
{
    let more = data + extra;
    assert(more.subrange(0, 4) =~= data.subrange(0, 4));
    assert(more.subrange(4, 8) =~= data.subrange(4, 8));
    assert(more.subrange(8, 16) =~= data.subrange(8, 16));
    assert forall|i: int| 0 <= i < star_count(data) implies #[trigger] record(more, i) == record(
        data,
        i,
    ) by {
        assert(record(more, i) =~= record(data, i));
    }
    if are_stars(more, stars) {
        assert forall|i: int| 0 <= i < stars.len() implies is_star(
            record(data, i),
            #[trigger] stars[i],
        ) by {
            assert(record(more, i) == record(data, i));
        }
    }
    if are_stars(data, stars) {
        assert forall|i: int| 0 <= i < stars.len() implies is_star(
            record(more, i),
            #[trigger] stars[i],
        ) by {
            assert(record(more, i) == record(data, i));
        }
    }
}

/// Which files are refused, and why: by the first of five tests that fails. A file
/// needs a header of 16 bytes that begins with "GDR3", the version 1, and 36 bytes
/// for each star that it claims, a number of bytes that can be counted.
pub proof fn law_gaia_refusals(
    data: &[u8],
    version: int,
    n: int,
    r: Result<Vec<GaiaStar>, GaiaError>,
)
    requires
        call_ensures(load_gaia_binary, (data,), r),
        data@.len() >= 16 ==> data@.subrange(4, 8) == le_bytes(version, 4),
        data@.len() >= 16 ==> data@.subrange(8, 16) == le_bytes(n, 8),
        0 <= version < 0x1_0000_0000,
        0 <= n < 0x1_0000_0000_0000_0000,
    ensures
        r == Err::<Vec<GaiaStar>, GaiaError>(GaiaError::ShortHeader) <==> data@.len() < 16,
        r == Err::<Vec<GaiaStar>, GaiaError>(GaiaError::BadMagic) <==> data@.len() >= 16 && !(
        data@[0] == 0x47 && data@[1] == 0x44 && data@[2] == 0x52 && data@[3] == 0x33),
        (r matches Err(GaiaError::UnsupportedVersion(v)) && v == version) <==> {
            &&& data@.len() >= 16
            &&& data@[0] == 0x47 && data@[1] == 0x44 && data@[2] == 0x52 && data@[3] == 0x33
            &&& version != 1
        },
        r is Ok <==> {
            &&& data@.len() >= 16
            &&& data@[0] == 0x47 && data@[1] == 0x44 && data@[2] == 0x52 && data@[3] == 0x33
            &&& version == 1
            &&& 36 * n <= u64::MAX
            &&& 16 + 36 * n <= data@.len()
        },
        r == Err::<Vec<GaiaStar>, GaiaError>(GaiaError::TooManyStars) ==> 36 * n > u64::MAX,
        r matches Err(
            GaiaError::Truncated { num_stars, expected_bytes, data_bytes },
        ) ==> {
            &&& num_stars == n
            &&& expected_bytes == 36 * n
            &&& data@.len() - 16 < 36 * n
            &&& data@.len() <= u64::MAX ==> data_bytes == data@.len() - 16
        },
{
    lemma_byte_ranges();
    lemma_le_roundtrip(version, 4);
    lemma_le_roundtrip(n, 8);
    if data@.len() >= 16 {
        let head = data@.subrange(0, 4);
        assert(head =~= magic() <==> data@[0] == 0x47 && data@[1] == 0x44 && data@[2] == 0x52
            && data@[3] == 0x33) by {
            if head =~= magic() {
                assert(head[0] == 0x47 && head[1] == 0x44 && head[2] == 0x52 && head[3] == 0x33);
            }
        }
    }
}

/// The stars come out in the order of their records, which follow the header one
/// after the other: where the `i`-th 36 bytes after it were written down from the
/// fields of a star, the `i`-th star has those fields.
pub proof fn law_gaia_stars_in_order(
    data: &[u8],
    stars: Vec<GaiaStar>,
    i: int,
    id: i64,
    ra: F64,
    dec: F64,
    mag: F32,
    pmra: F32,
    pmdec: F32,
)
    requires
        call_ensures(load_gaia_binary, (data,), Ok::<Vec<GaiaStar>, GaiaError>(stars)),
        0 <= i < stars@.len(),
        data@.subrange(16 + 36 * i, 16 + 36 * i + 36) == star_bytes(
            id as int,
            ra,
            dec,
            mag,
            pmra,
            pmdec,
        ),
    ensures
        stars@.len() == le_value(data@.subrange(8, 16)),
        stars@[i].source_id == id,
        is_narrowed(ra, stars@[i].ra_deg),
        is_narrowed(dec, stars@[i].dec_deg),
        stars@[i].phot_g_mean_mag == mag,
        stars@[i].pmra == pmra,
        stars@[i].pmdec == pmdec,
{
    assert(is_star(record(data@, i), stars@[i]));
    law_record_reads_back(id, ra, dec, mag, pmra, pmdec, stars@[i]);
}

/// Bytes stand for a number, the lowest first: each is worth 256 times the one
/// before.
pub proof fn law_bytes_are_digits(v: int, n: nat, k: int)
    requires
        0 <= v < byte_range(n),
        0 <= k < n,
    ensures
        le_bytes(v, n).len() == n,
        le_bytes(v, n)[k] == (v / byte_range(k as nat)) % 256,
    decreases n,
{
    let rest = le_bytes(v / 256, (n - 1) as nat);
    lemma_le_roundtrip(v, n);
    lemma_range_grows(k as nat, k as nat);
    if k == 0 {
        assert(v / 1 == v);
    } else {
        law_bytes_are_digits(v / 256, (n - 1) as nat, k - 1);
        let r = byte_range((k - 1) as nat);
        assert(le_bytes(v, n)[k] == rest[k - 1]);
        lemma_range_grows((k - 1) as nat, (k - 1) as nat);
        vstd::arithmetic::div_mod::lemma_div_denominator(v, 256, r);
    }
}

} // verus!
