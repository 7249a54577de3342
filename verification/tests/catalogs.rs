//! Star catalogs.

use tetra3::catalogs::gaia::{load_gaia_binary, GaiaError};
use tetra3::catalogs::hipparcos::{
    self, load_hipparcos_catalog_from_text, HipparcosStar, WrongFormat,
};
use tetra3::ieee::{F32, F64};

fn double(text: &str) -> Option<F64> {
    text.parse::<f64>().ok().map(|v| F64 { bits: v.to_bits() })
}

fn single(text: &str) -> Option<F32> {
    text.parse::<f32>().ok().map(|v| F32 { bits: v.to_bits() })
}

fn parse_hipparcos_star(line: &str) -> Option<HipparcosStar> {
    hipparcos::parse_hipparcos_star(line, &double, &single)
}

/// A line with the given fields in their columns.
fn line(hip: &str, ra: &str, dec: &str, hp: &str, bv: &str) -> String {
    format!(
        "{:>6}{:9}{:>13} {:>13}{:9}{:>8} {:>8}{:61}{:>7}{:16}{:>6}",
        hip, "", ra, dec, "", "-4.58", "-1.61", "", hp, "", bv
    )
}

#[test]
fn multibyte_utf8_line_is_skipped_not_panicked() {
    // Regression: `&str` byte-range slicing panicked when a multi-byte
    // character straddled a fixed-width column boundary (e.g. at byte 5).
    let mut line = String::from("  12é"); // 'é' spans bytes 4..6, across the 0..6 boundary
    line.push_str(&" ".repeat(160));
    assert!(parse_hipparcos_star(&line).is_none());

    // A fully multi-byte line long enough to pass the length gate.
    let junk = "é".repeat(100);
    assert!(parse_hipparcos_star(&junk).is_none());
}

#[test]
fn a_cut_character_is_no_column() {
    let text = "  123é";
    assert_eq!(hipparcos::column(text.as_bytes(), 0..5), Some("  123"));
    assert_eq!(hipparcos::column(text.as_bytes(), 0..6), None);
    assert_eq!(hipparcos::column(text.as_bytes(), 0..7), Some("  123é"));
    assert_eq!(hipparcos::column(text.as_bytes(), 5..8), None);
    assert_eq!(hipparcos::column(text.as_bytes(), 4..4), Some(""));
}

#[test]
fn a_record_is_read_by_columns() {
    let l = line("+42", "0.0000159", "0.0190068", "9.2043", "0.482");
    assert_eq!(l.len(), 158);
    let star = parse_hipparcos_star(&l).unwrap();
    assert_eq!(star.hip, 42);
    assert_eq!(f64::from_bits(star.ra_rad.bits), 0.0000159);
    assert_eq!(f64::from_bits(star.dec_rad.bits), 0.0190068);
    assert_eq!(f64::from_bits(star.pm_ra.bits), -4.58);
    assert_eq!(f64::from_bits(star.pm_dec.bits), -1.61);
    assert_eq!(f32::from_bits(star.hpmag.bits), 9.2043);
    assert_eq!(f32::from_bits(star.b_v.bits), 0.482);
    // Too short by one byte.
    assert!(parse_hipparcos_star(&l[..157]).is_none());
    // A field that is no number.
    assert!(parse_hipparcos_star(&line("-42", "0.1", "0.2", "9.0", "0.4")).is_none());
    assert!(parse_hipparcos_star(&line("4294967296", "0.1", "0.2", "9.0", "0.4")).is_none());
    assert!(parse_hipparcos_star(&line("42", "0.1", "0.2", "x", "0.4")).is_none());
}

#[test]
fn a_catalog_is_read_by_lines() {
    let a = line("1", "0.1", "0.2", "9.0", "0.4");
    let b = line("2", "0.3", "0.4", "8.0", "0.5");
    let text = format!("{a}\r\n\n  \nnot a star\n{b}");
    let stars = hipparcos::load_hipparcos_catalog(&text, &double, &single);
    assert_eq!(stars.iter().map(|s| s.hip).collect::<Vec<_>>(), vec![1, 2]);
    let out = load_hipparcos_catalog_from_text(&text, &double, &single);
    match out {
        Ok(read) => {
            assert_eq!((read.total_lines, read.dropped), (3, 1));
            assert_eq!(read.total_lines, read.stars.len() + read.dropped);
        }
        Err(_) => panic!("the catalog holds stars"),
    }
}

#[test]
fn a_file_without_stars_is_refused() {
    let out = load_hipparcos_catalog_from_text("a,b\n\n1,2\n", &double, &single);
    assert!(matches!(out, Err(WrongFormat { total_lines: 2 })));
    // Nothing at all is a catalog of no stars.
    let out = load_hipparcos_catalog_from_text(" \n\u{3000}\n", &double, &single);
    assert!(matches!(out, Ok(read) if read.total_lines == 0 && read.stars.is_empty()));
}

fn gaia_file(num_stars: u64, stars: &[(i64, f64, f64, f32, f32, f32)]) -> Vec<u8> {
    let mut f = b"GDR3".to_vec();
    f.extend(1u32.to_le_bytes());
    f.extend(num_stars.to_le_bytes());
    for &(id, ra, dec, mag, pmra, pmdec) in stars {
        f.extend(id.to_le_bytes());
        f.extend(ra.to_le_bytes());
        f.extend(dec.to_le_bytes());
        f.extend(mag.to_le_bytes());
        f.extend(pmra.to_le_bytes());
        f.extend(pmdec.to_le_bytes());
    }
    f
}

#[test]
fn gaia_records_read_back() {
    let data = gaia_file(
        2,
        &[
            (4_295_806_720, 44.996_155_368_642_3, 0.005_615_226_341_865, 17.64, 11.94, -19.28),
            (-7, 359.999_999_999_9, -89.5, 3.25, -0.0, f32::NAN),
        ],
    );
    let stars = load_gaia_binary(&data).unwrap();
    assert_eq!(stars.len(), 2);
    assert_eq!(stars[0].source_id, 4_295_806_720);
    assert_eq!(f32::from_bits(stars[0].ra_deg.bits), 44.996_155_368_642_3_f64 as f32);
    assert_eq!(f32::from_bits(stars[0].dec_deg.bits), 0.005_615_226_341_865_f64 as f32);
    assert_eq!(f32::from_bits(stars[0].phot_g_mean_mag.bits), 17.64);
    assert_eq!(f32::from_bits(stars[0].pmra.bits), 11.94);
    assert_eq!(f32::from_bits(stars[0].pmdec.bits), -19.28);
    assert_eq!(stars[1].source_id, -7);
    assert_eq!(f32::from_bits(stars[1].ra_deg.bits), 360.0);
    assert!(f32::from_bits(stars[1].pmdec.bits).is_nan());
}

#[test]
fn gaia_trailing_bytes_are_ignored() {
    let mut data = gaia_file(1, &[(1, 2.0, 3.0, 4.0, 5.0, 6.0)]);
    let plain = load_gaia_binary(&data).unwrap();
    data.extend([0xaa; 50]);
    assert_eq!(load_gaia_binary(&data).unwrap(), plain);
}

#[test]
fn every_bad_gaia_file_has_its_error() {
    let star = [(1, 2.0, 3.0, 4.0, 5.0, 6.0)];
    let good = gaia_file(1, &star);
    assert_eq!(load_gaia_binary(&good[..15]).unwrap_err(), GaiaError::ShortHeader);
    let mut bad = good.clone();
    bad[3] = b'2';
    assert_eq!(load_gaia_binary(&bad).unwrap_err(), GaiaError::BadMagic);
    let mut bad = good.clone();
    bad[4] = 2;
    assert_eq!(load_gaia_binary(&bad).unwrap_err(), GaiaError::UnsupportedVersion(2));
    let bad = gaia_file(u64::MAX / 4, &star);
    assert_eq!(load_gaia_binary(&bad).unwrap_err(), GaiaError::TooManyStars);
    let bad = gaia_file(3, &star);
    assert_eq!(
        load_gaia_binary(&bad).unwrap_err(),
        GaiaError::Truncated { num_stars: 3, expected_bytes: 108, data_bytes: 36 }
    );
}
