//! What callers pass.

use tetra3::arguments::{
    at_most_one_angle_rad, exactly_one_angle_rad, exception_for, extraction_config, image_action,
    image_to_f32, parse_centroids_single, parse_deblend, parse_solve_results_and_centroids,
    resolve_image_dims, AngleError, ArrayInfo, CentroidInput, CentroidInputError, CentroidSets,
    DimensionError, ErrorKind, Exception, ExtractionArguments, ExtractionData, ImageAction,
    ImageError, PairingError, PixelKind, Pixels, SolveInput, SolveItem, Table,
};
use tetra3::config::{CentroidExtractionResult, DeblendMode};
use tetra3::ieee::{F32, F64};
use tetra3::measure::Centroid;

fn f(v: f32) -> F32 {
    F32 { bits: v.to_bits() }
}

fn d(v: f64) -> F64 {
    F64 { bits: v.to_bits() }
}

fn centroid(x: f32) -> Centroid {
    Centroid { x: f(x), y: f(-x), mass: None, cov: None }
}

#[test]
fn dimensions_come_in_one_form() {
    assert_eq!(resolve_image_dims(Some((10, 20)), None, None), Ok((20, 10)));
    assert_eq!(resolve_image_dims(None, Some(20), Some(10)), Ok((20, 10)));
    for (s, w, h) in [
        (Some((1, 2)), Some(2), None),
        (Some((1, 2)), None, Some(1)),
        (Some((1, 2)), Some(2), Some(1)),
    ] {
        assert_eq!(resolve_image_dims(s, w, h), Err(DimensionError::Both));
    }
    for (w, h) in [(None, None), (Some(2), None), (None, Some(1))] {
        assert_eq!(resolve_image_dims(None, w, h), Err(DimensionError::Neither));
    }
    assert_eq!(
        resolve_image_dims(Some((0, 5)), None, None),
        Err(DimensionError::Zero { width: 5, height: 0 })
    );
}

#[test]
fn angles_come_in_one_unit() {
    let rad = |a: F32| f(f32::from_bits(a.bits).to_radians());
    let half = f((180.0f64 as f32).to_radians());
    assert_eq!(exactly_one_angle_rad(Some(d(180.0)), None, &rad), Ok(half));
    assert_eq!(exactly_one_angle_rad(None, Some(d(0.1)), &rad), Ok(f(0.1)));
    assert_eq!(exactly_one_angle_rad(Some(d(1.0)), Some(d(1.0)), &rad), Err(AngleError::Both));
    assert_eq!(exactly_one_angle_rad(None, None, &rad), Err(AngleError::Neither));
    assert_eq!(at_most_one_angle_rad(Some(d(180.0)), None, &rad), Ok(Some(half)));
    assert_eq!(at_most_one_angle_rad(None, None, &rad), Ok(None));
    assert_eq!(at_most_one_angle_rad(Some(d(1.0)), Some(d(1.0)), &rad), Err(AngleError::Both));
}

#[test]
fn arrays_are_told_apart() {
    let info = |ndim: usize, is_native: bool, kind: &'static str, itemsize: usize| {
        image_action(Some(ArrayInfo { ndim, is_native, kind, itemsize }))
    };
    assert_eq!(image_action(None), Err(ImageError::NotAnArray));
    assert_eq!(info(3, false, "f", 4), Err(ImageError::Dimensions(3)));
    assert_eq!(info(2, false, "x", 4), Ok(ImageAction::ToNative));
    assert_eq!(info(2, true, "f", 8), Ok(ImageAction::Read(PixelKind::F64)));
    assert_eq!(info(2, true, "f", 4), Ok(ImageAction::Read(PixelKind::F32)));
    assert_eq!(info(2, true, "u", 1), Ok(ImageAction::Read(PixelKind::U8)));
    assert_eq!(info(2, true, "u", 2), Ok(ImageAction::Read(PixelKind::U16)));
    assert_eq!(info(2, true, "i", 2), Ok(ImageAction::Read(PixelKind::I16)));
    for (kind, size) in [("i", 1), ("u", 4), ("f", 2), ("ff", 8), ("", 8)] {
        assert_eq!(info(2, true, kind, size), Err(ImageError::Kind));
    }
}

#[test]
fn pixels_become_singles() {
    let (p, w, h) = image_to_f32(&Pixels::I16(vec![-3, 0, 7, 8, 9, 10]), 2, 3);
    assert_eq!((w, h), (3, 2));
    assert_eq!(p, [-3.0, 0.0, 7.0, 8.0, 9.0, 10.0].map(f).to_vec());
    assert_eq!(image_to_f32(&Pixels::F64(vec![d(0.1)]), 1, 1).0, vec![f(0.1)]);
    assert_eq!(image_to_f32(&Pixels::F32(vec![f(0.1)]), 1, 1).0, vec![f(0.1)]);
    assert_eq!(image_to_f32(&Pixels::U8(vec![200]), 1, 1).0, vec![f(200.0)]);
    assert_eq!(image_to_f32(&Pixels::U16(vec![60000]), 1, 1).0, vec![f(60000.0)]);
}

fn table(columns: usize, data: &[f64]) -> CentroidInput {
    let rows = data.len() / columns;
    CentroidInput::Array(Some(Table { data: data.iter().map(|&v| d(v)).collect(), rows, columns }))
}

#[test]
fn centroids_come_as_lists_or_tables() {
    let list = CentroidInput::List(vec![Some(centroid(1.0)), Some(centroid(2.0))]);
    assert_eq!(parse_centroids_single(&list), Ok(vec![centroid(1.0), centroid(2.0)]));
    let two = parse_centroids_single(&table(2, &[1.0, 2.0, 3.0, 4.0])).unwrap();
    assert_eq!(two[1], Centroid { x: f(3.0), y: f(4.0), mass: None, cov: None });
    let three = parse_centroids_single(&table(4, &[1.0, 2.0, 0.1, 9.0])).unwrap();
    assert_eq!(three, vec![Centroid { x: f(1.0), y: f(2.0), mass: Some(f(0.1)), cov: None }]);
    let bad = CentroidInput::List(vec![Some(centroid(1.0)), None]);
    assert_eq!(parse_centroids_single(&bad), Err(CentroidInputError::Item));
    assert_eq!(parse_centroids_single(&table(1, &[1.0])), Err(CentroidInputError::Columns));
    assert_eq!(
        parse_centroids_single(&CentroidInput::Array(None)),
        Err(CentroidInputError::NotATable)
    );
    assert_eq!(parse_centroids_single(&CentroidInput::Other), Err(CentroidInputError::Kind));
}

fn sets(items: Option<Vec<CentroidInput>>) -> CentroidSets {
    CentroidSets { whole: table(2, &[5.0, 6.0]), items }
}

#[test]
fn solves_and_centroids_are_paired() {
    let one: SolveInput<u8, u8> = SolveInput::Single(1);
    let (s, c) = parse_solve_results_and_centroids(&one, &sets(None)).unwrap();
    assert_eq!(s, vec![Ok(1)]);
    assert_eq!(c.len(), 1);
    assert_eq!(c[0][0].x, f(5.0));

    // A list of one is still the list form, and failures are kept.
    let list = SolveInput::List(vec![SolveItem::Failure(7u8)]);
    let list: SolveInput<u8, u8> = list;
    let items = || vec![CentroidInput::List(vec![Some(centroid(3.0))])];
    let (s, c) = parse_solve_results_and_centroids(&list, &sets(Some(items()))).unwrap();
    assert_eq!(s, vec![Err(7)]);
    assert_eq!(c, vec![vec![centroid(3.0)]]);

    let two: SolveInput<u8, u8> =
        SolveInput::List(vec![SolveItem::Solution(1), SolveItem::Failure(2)]);
    let pair = |c: CentroidSets| parse_solve_results_and_centroids(&two, &c).unwrap_err();
    assert_eq!(pair(sets(None)), PairingError::NotAList);
    assert_eq!(
        pair(sets(Some(items()))),
        PairingError::Lengths { centroids: 1, solves: 2 }
    );
    assert_eq!(
        pair(sets(Some(vec![CentroidInput::Array(None), CentroidInput::Other]))),
        PairingError::Centroids(CentroidInputError::NotATable)
    );
    let odd: SolveInput<u8, u8> = SolveInput::List(vec![SolveItem::Other]);
    assert_eq!(
        parse_solve_results_and_centroids(&odd, &sets(None)).unwrap_err(),
        PairingError::SolveItem
    );
    let other: SolveInput<u8, u8> = SolveInput::Other;
    assert_eq!(
        parse_solve_results_and_centroids(&other, &sets(None)).unwrap_err(),
        PairingError::SolveKind
    );
}

#[test]
fn settings_are_taken_over() {
    assert_eq!(parse_deblend("off"), Some(DeblendMode::Off));
    assert_eq!(parse_deblend("reject"), Some(DeblendMode::Reject));
    assert_eq!(parse_deblend("Reject"), None);
    assert_eq!(parse_deblend("of"), None);
    let a = ExtractionArguments {
        sigma_threshold: f(4.0),
        min_pixels: 1,
        max_pixels: 2,
        max_centroids: Some(3),
        local_bg_block_size: Some(4),
        max_elongation: Some(f(3.0)),
        matched_filter_sigma: None,
        max_sharpness: None,
        saturation_level: Some(f(5.0)),
        border_margin: 6,
    };
    let c = extraction_config(&a, "reject").unwrap();
    assert_eq!(c.sigma_clip_iterations, 5);
    assert_eq!(c.sigma_clip_factor, f(3.0));
    assert_eq!(c.deblend, DeblendMode::Reject);
    assert_eq!((c.min_pixels, c.max_pixels, c.border_margin), (1, 2, 6));
    assert!(extraction_config(&a, "split").is_none());
}

#[test]
fn results_are_widened() {
    let r = CentroidExtractionResult {
        centroids: vec![centroid(1.0)],
        image_width: 4,
        image_height: 5,
        background_mean: f(0.1),
        background_sigma: f(-2.5),
        threshold: f(1e-40),
        num_blobs_raw: 6,
    };
    let data = ExtractionData::from_result(r);
    assert_eq!(data.background_mean, d(0.1f32 as f64));
    assert_eq!(data.background_sigma, d(-2.5));
    assert_eq!(data.threshold, d(1e-40f32 as f64));
    assert_eq!((data.image_width, data.image_height, data.num_blobs_raw), (4, 5, 6));
}

#[test]
fn errors_have_their_exceptions() {
    assert_eq!(exception_for(ErrorKind::InvalidInput), (Exception::Value, ""));
    assert_eq!(exception_for(ErrorKind::InvalidCatalog), (Exception::Value, "invalid catalog: "));
    assert_eq!(exception_for(ErrorKind::Io), (Exception::Io, ""));
    assert_eq!(exception_for(ErrorKind::Encoding), (Exception::Runtime, "postcard error: "));
}
