//! Tests of the EWKB walker: rewriting, structure preservation, and the
//! exact failure for each kind of malformed input.

use eviltransform_ewkb::coord::TransformKind;
use eviltransform_ewkb::ewkb::{transform_ewkb_in_place, EwkbError};

fn hex_to_bytes(hex: &str) -> Vec<u8> {
    let mut out = Vec::with_capacity(hex.len() / 2);
    let bytes = hex.as_bytes();
    let mut i = 0;
    while i + 1 < bytes.len() {
        let hi = (bytes[i] as char).to_digit(16).unwrap();
        let lo = (bytes[i + 1] as char).to_digit(16).unwrap();
        out.push(((hi << 4) | lo) as u8);
        i += 2;
    }
    out
}

fn read_le_f64(bytes: &[u8], offset: usize) -> f64 {
    let mut raw = [0u8; 8];
    raw.copy_from_slice(&bytes[offset..offset + 8]);
    f64::from_le_bytes(raw)
}

fn read_be_f64(bytes: &[u8], offset: usize) -> f64 {
    let mut raw = [0u8; 8];
    raw.copy_from_slice(&bytes[offset..offset + 8]);
    f64::from_be_bytes(raw)
}

/// A little-endian point record: marker, type word, X, Y, then any extra
/// ordinates.
fn le_point(type_word: u32, ordinates: &[f64]) -> Vec<u8> {
    let mut v = vec![1u8];
    v.extend_from_slice(&type_word.to_le_bytes());
    for o in ordinates {
        v.extend_from_slice(&o.to_le_bytes());
    }
    v
}

#[test]
fn test_transform_point_wkb() {
    let mut ewkb = hex_to_bytes("01010000000000000000005E400000000000003E40");
    transform_ewkb_in_place(&mut ewkb, TransformKind::Wgs2Gcj).unwrap();

    let lng = read_le_f64(&ewkb, 5);
    let lat = read_le_f64(&ewkb, 13);
    assert!((lng - 120.004_660_445_597).abs() < 1e-6);
    assert!((lat - 29.997_534_331_696_1).abs() < 1e-6);
}

#[test]
fn test_invalid_geometry_type() {
    let mut ewkb = vec![1, 0xFF, 0, 0, 0];
    let err = transform_ewkb_in_place(&mut ewkb, TransformKind::Wgs2Gcj).unwrap_err();
    assert_eq!(err, EwkbError::UnsupportedType(255));
}

#[test]
fn test_point_header_untouched() {
    let original = hex_to_bytes("01010000000000000000005E400000000000003E40");
    let mut ewkb = original.clone();
    transform_ewkb_in_place(&mut ewkb, TransformKind::Wgs2Gcj).unwrap();
    assert_eq!(ewkb.len(), original.len());
    assert_eq!(&ewkb[..5], &original[..5]);
    assert_ne!(&ewkb[5..], &original[5..]);
}

#[test]
fn test_big_endian_point() {
    let mut ewkb = vec![0u8];
    ewkb.extend_from_slice(&1u32.to_be_bytes());
    ewkb.extend_from_slice(&120.0f64.to_be_bytes());
    ewkb.extend_from_slice(&30.0f64.to_be_bytes());
    transform_ewkb_in_place(&mut ewkb, TransformKind::Wgs2Gcj).unwrap();
    assert!((read_be_f64(&ewkb, 5) - 120.004_660_445_597).abs() < 1e-6);
    assert!((read_be_f64(&ewkb, 13) - 29.997_534_331_696_1).abs() < 1e-6);
}

#[test]
fn test_point_with_z_and_m_untouched_ordinates() {
    // Z and M flags set: the trailing 16 bytes are skipped, never rewritten.
    let mut ewkb = le_point(0xC000_0001, &[120.0, 30.0, 5.5, 7.25]);
    transform_ewkb_in_place(&mut ewkb, TransformKind::Wgs2Gcj).unwrap();
    assert!((read_le_f64(&ewkb, 5) - 120.004_660_445_597).abs() < 1e-6);
    assert!((read_le_f64(&ewkb, 13) - 29.997_534_331_696_1).abs() < 1e-6);
    assert_eq!(read_le_f64(&ewkb, 21), 5.5);
    assert_eq!(read_le_f64(&ewkb, 29), 7.25);
}

#[test]
fn test_point_with_srid_untouched() {
    // SRID flag set: the 4-byte SRID is read past and kept exactly.
    let mut v = vec![1u8];
    v.extend_from_slice(&0x2000_0001u32.to_le_bytes());
    v.extend_from_slice(&4326u32.to_le_bytes());
    v.extend_from_slice(&120.0f64.to_le_bytes());
    v.extend_from_slice(&30.0f64.to_le_bytes());
    transform_ewkb_in_place(&mut v, TransformKind::Wgs2Gcj).unwrap();
    assert_eq!(&v[5..9], &4326u32.to_le_bytes());
    assert!((read_le_f64(&v, 9) - 120.004_660_445_597).abs() < 1e-6);
}

#[test]
fn test_linestring_rewrites_every_point() {
    let mut v = vec![1u8];
    v.extend_from_slice(&2u32.to_le_bytes());
    v.extend_from_slice(&2u32.to_le_bytes());
    for o in [116.404f64, 39.915, 121.4737, 31.2304] {
        v.extend_from_slice(&o.to_le_bytes());
    }
    transform_ewkb_in_place(&mut v, TransformKind::Wgs2Gcj).unwrap();
    assert!((read_le_f64(&v, 9) - 116.410_244_499_169_38).abs() < 1e-6);
    assert!((read_le_f64(&v, 17) - 39.916_404_281_501_64).abs() < 1e-6);
    assert_ne!(read_le_f64(&v, 25), 121.4737);
    assert_ne!(read_le_f64(&v, 33), 31.2304);
}

#[test]
fn test_polygon_structure_preserved() {
    // A polygon of two rings; counts and type bytes stay, coordinates move.
    let mut v = vec![1u8];
    v.extend_from_slice(&3u32.to_le_bytes());
    v.extend_from_slice(&2u32.to_le_bytes());
    v.extend_from_slice(&2u32.to_le_bytes());
    for o in [116.0f64, 39.0, 116.1, 39.1] {
        v.extend_from_slice(&o.to_le_bytes());
    }
    v.extend_from_slice(&1u32.to_le_bytes());
    for o in [116.05f64, 39.05] {
        v.extend_from_slice(&o.to_le_bytes());
    }
    let original = v.clone();
    transform_ewkb_in_place(&mut v, TransformKind::Wgs2Gcj).unwrap();
    assert_eq!(v.len(), original.len());
    // marker, type word, outer count, first ring count
    assert_eq!(&v[..13], &original[..13]);
    // second ring count sits between the first ring's 32 coordinate bytes
    // and its own coordinates
    assert_eq!(&v[45..49], &original[45..49]);
    for off in [13usize, 21, 29, 37, 49, 57] {
        assert_ne!(read_le_f64(&v, off), read_le_f64(&original, off));
    }
}

#[test]
fn test_nested_collection_mixed_endianness() {
    // A collection holding a little-endian point and a big-endian point:
    // each record's own marker governs its bytes.
    let mut v = vec![1u8];
    v.extend_from_slice(&7u32.to_le_bytes());
    v.extend_from_slice(&2u32.to_le_bytes());
    v.extend_from_slice(&le_point(1, &[116.404, 39.915]));
    v.push(0u8);
    v.extend_from_slice(&1u32.to_be_bytes());
    v.extend_from_slice(&120.0f64.to_be_bytes());
    v.extend_from_slice(&30.0f64.to_be_bytes());
    let original = v.clone();
    transform_ewkb_in_place(&mut v, TransformKind::Wgs2Gcj).unwrap();
    assert_eq!(v.len(), original.len());
    assert_eq!(&v[..14], &original[..14]);
    assert_eq!(&v[30..35], &original[30..35]);
    assert!((read_le_f64(&v, 14) - 116.410_244_499_169_38).abs() < 1e-6);
    assert!((read_le_f64(&v, 22) - 39.916_404_281_501_64).abs() < 1e-6);
    assert!((read_be_f64(&v, 35) - 120.004_660_445_597).abs() < 1e-6);
    assert!((read_be_f64(&v, 43) - 29.997_534_331_696_1).abs() < 1e-6);
}

#[test]
fn test_count_zero_parses_and_rewrites_nothing() {
    for type_word in [2u32, 3, 7] {
        let mut v = vec![1u8];
        v.extend_from_slice(&type_word.to_le_bytes());
        v.extend_from_slice(&0u32.to_le_bytes());
        let original = v.clone();
        transform_ewkb_in_place(&mut v, TransformKind::Wgs2Gcj).unwrap();
        assert_eq!(v, original, "type {type_word}");
    }
}

#[test]
fn test_truncated_coordinate_fails_eof() {
    let mut full = le_point(1, &[120.0, 30.0]);
    full.truncate(17);
    let err = transform_ewkb_in_place(&mut full, TransformKind::Wgs2Gcj).unwrap_err();
    assert_eq!(err, EwkbError::UnexpectedEof);
}

#[test]
fn test_empty_and_header_only_fail_eof() {
    let mut empty: Vec<u8> = Vec::new();
    assert_eq!(
        transform_ewkb_in_place(&mut empty, TransformKind::Wgs2Gcj).unwrap_err(),
        EwkbError::UnexpectedEof
    );
    let mut marker_only = vec![1u8, 2, 0];
    assert_eq!(
        transform_ewkb_in_place(&mut marker_only, TransformKind::Wgs2Gcj).unwrap_err(),
        EwkbError::UnexpectedEof
    );
}

#[test]
fn test_invalid_endian_marker() {
    let mut v = le_point(1, &[120.0, 30.0]);
    v[0] = 2;
    let err = transform_ewkb_in_place(&mut v, TransformKind::Wgs2Gcj).unwrap_err();
    assert_eq!(err, EwkbError::InvalidEndian(2));
}

#[test]
fn test_trailing_byte_fails() {
    let mut v = le_point(1, &[120.0, 30.0]);
    v.push(0);
    let err = transform_ewkb_in_place(&mut v, TransformKind::Wgs2Gcj).unwrap_err();
    assert_eq!(err, EwkbError::TrailingData(1));
}

#[test]
fn test_point_array_code_13() {
    // Code 13 shares the count-plus-tuples payload of a linestring.
    let mut v = vec![1u8];
    v.extend_from_slice(&13u32.to_le_bytes());
    v.extend_from_slice(&1u32.to_le_bytes());
    v.extend_from_slice(&116.404f64.to_le_bytes());
    v.extend_from_slice(&39.915f64.to_le_bytes());
    transform_ewkb_in_place(&mut v, TransformKind::Wgs2Gcj).unwrap();
    assert!((read_le_f64(&v, 9) - 116.410_244_499_169_38).abs() < 1e-6);
}

#[test]
fn test_ring_list_code_17() {
    // Code 17 shares the ring-list payload of a polygon.
    let mut v = vec![1u8];
    v.extend_from_slice(&17u32.to_le_bytes());
    v.extend_from_slice(&1u32.to_le_bytes());
    v.extend_from_slice(&1u32.to_le_bytes());
    v.extend_from_slice(&116.404f64.to_le_bytes());
    v.extend_from_slice(&39.915f64.to_le_bytes());
    transform_ewkb_in_place(&mut v, TransformKind::Wgs2Gcj).unwrap();
    assert!((read_le_f64(&v, 13) - 116.410_244_499_169_38).abs() < 1e-6);
}

#[test]
fn test_error_inside_nested_geometry() {
    // The second child of a collection carries an unsupported code: the
    // exact error surfaces, and the first child stays rewritten.
    let mut v = vec![1u8];
    v.extend_from_slice(&7u32.to_le_bytes());
    v.extend_from_slice(&2u32.to_le_bytes());
    v.extend_from_slice(&le_point(1, &[116.404, 39.915]));
    v.extend_from_slice(&[1u8, 0xFF, 0, 0, 0]);
    let err = transform_ewkb_in_place(&mut v, TransformKind::Wgs2Gcj).unwrap_err();
    assert_eq!(err, EwkbError::UnsupportedType(255));
    assert!((read_le_f64(&v, 14) - 116.410_244_499_169_38).abs() < 1e-6);
}

#[test]
fn test_gcj2bd_through_walker() {
    let mut v = le_point(1, &[116.404, 39.915]);
    transform_ewkb_in_place(&mut v, TransformKind::Gcj2Bd).unwrap();
    assert!((read_le_f64(&v, 5) - 116.410_369_493_710_29).abs() < 1e-6);
    assert!((read_le_f64(&v, 13) - 39.921_336_993_510_21).abs() < 1e-6);
}
