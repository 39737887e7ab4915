//! Tests of the coordinate conversions, driven through the byte-level API.

use eviltransform_ewkb::coord::{
    apply_le, bd2gcj_le, gcj2bd_le, gcj2wgs_le, out_of_region_check, wgs2gcj_le, TransformKind,
};

fn to_le(v: f64) -> Vec<u8> {
    v.to_le_bytes().to_vec()
}

fn from_le(v: &Vec<u8>) -> f64 {
    let mut raw = [0u8; 8];
    raw.copy_from_slice(v);
    f64::from_le_bytes(raw)
}

fn assert_nearly(a: f64, b: f64) {
    assert!((a - b).abs() < 1e-6, "{a} != {b}");
}

#[test]
fn test_wgs2gcj_reference_point() {
    let (lat, lng) = wgs2gcj_le(&to_le(39.915), &to_le(116.404));
    assert_nearly(from_le(&lat), 39.916_404_281_501_64);
    assert_nearly(from_le(&lng), 116.410_244_499_169_38);
}

#[test]
fn test_gcj2bd_reference_point() {
    let (lat, lng) = gcj2bd_le(&to_le(39.915), &to_le(116.404));
    assert_nearly(from_le(&lat), 39.921_336_993_510_21);
    assert_nearly(from_le(&lng), 116.410_369_493_710_29);
}

#[test]
fn test_out_of_china_not_changed() {
    let (lat, lng) = wgs2gcj_le(&to_le(30.0), &to_le(-120.0));
    assert_eq!(from_le(&lat), 30.0);
    assert_eq!(from_le(&lng), -120.0);
}

#[test]
fn test_round_trip_inside_region() {
    // The forward offset and its inverse agree within 1e-5 degrees.
    let points = [
        (39.915, 116.404),
        (31.2304, 121.4737),
        (22.543, 113.929),
        (45.75, 126.65),
        (1.0, 73.0),
        (55.0, 137.0),
    ];
    for (lat, lng) in points {
        let gcj = wgs2gcj_le(&to_le(lat), &to_le(lng));
        let back = gcj2wgs_le(&gcj.0, &gcj.1);
        assert!((from_le(&back.0) - lat).abs() < 1e-5, "lat {lat}");
        assert!((from_le(&back.1) - lng).abs() < 1e-5, "lng {lng}");
    }
}

#[test]
fn test_identity_outside_region_all_directions() {
    // West, east, south and north of the region, and a far-away point:
    // every direction returns the input exactly.
    let points = [
        (30.0, -120.0),
        (30.0, 71.0),
        (30.0, 138.0),
        (0.5, 100.0),
        (60.0, 100.0),
    ];
    let kinds = [
        TransformKind::Wgs2Gcj,
        TransformKind::Gcj2Wgs,
        TransformKind::Gcj2Bd,
        TransformKind::Bd2Gcj,
        TransformKind::Wgs2Bd,
        TransformKind::Bd2Wgs,
    ];
    for (lat, lng) in points {
        for kind in kinds {
            let r = apply_le(kind, &to_le(lat), &to_le(lng));
            assert_eq!(from_le(&r.0), lat, "{kind:?} lat");
            assert_eq!(from_le(&r.1), lng, "{kind:?} lng");
        }
    }
}

#[test]
fn test_region_edge_boundaries() {
    // The exemption is strict: the edge values themselves are still inside.
    assert!(!out_of_region_check(&to_le(0.8293), &to_le(72.004)));
    assert!(!out_of_region_check(&to_le(55.8271), &to_le(137.8347)));
    assert!(out_of_region_check(&to_le(0.8292), &to_le(100.0)));
    assert!(out_of_region_check(&to_le(55.8272), &to_le(100.0)));
    assert!(out_of_region_check(&to_le(30.0), &to_le(72.0039)));
    assert!(out_of_region_check(&to_le(30.0), &to_le(137.8348)));
}

#[test]
fn test_composites_compose() {
    // Wgs2Bd equals Gcj2Bd after Wgs2Gcj, and Bd2Wgs equals Gcj2Wgs after
    // Bd2Gcj, byte for byte.
    let (lat, lng) = (30.0, 120.0);
    let direct = apply_le(TransformKind::Wgs2Bd, &to_le(lat), &to_le(lng));
    let gcj = wgs2gcj_le(&to_le(lat), &to_le(lng));
    let staged = gcj2bd_le(&gcj.0, &gcj.1);
    assert_eq!(direct.0, staged.0);
    assert_eq!(direct.1, staged.1);

    let direct = apply_le(TransformKind::Bd2Wgs, &to_le(lat), &to_le(lng));
    let gcj = bd2gcj_le(&to_le(lat), &to_le(lng));
    let staged = gcj2wgs_le(&gcj.0, &gcj.1);
    assert_eq!(direct.0, staged.0);
    assert_eq!(direct.1, staged.1);
}

#[test]
fn test_bd_round_trip() {
    let (lat, lng) = (39.915, 116.404);
    let bd = gcj2bd_le(&to_le(lat), &to_le(lng));
    let back = bd2gcj_le(&bd.0, &bd.1);
    assert!((from_le(&back.0) - lat).abs() < 1e-5);
    assert!((from_le(&back.1) - lng).abs() < 1e-5);
}
