//! The six directional conversions among WGS84, GCJ02 and BD09.
//!
//! A coordinate is handled as the 8 little-endian bytes of its IEEE-754
//! double-precision encoding, so that the byte-level contracts of the EWKB
//! rewriter can speak about coordinates exactly.  The numeric offset formulas
//! themselves are computed by the `coordtransform` crate behind trusted
//! wrappers; the out-of-region exemption, the selection among the six directions
//! and the composition of the two composite directions are verified here.

use vstd::prelude::*;

use byteorder::ByteOrder;

verus! {

/// Selects one of the six directional conversions among the three systems.
#[derive(Clone, Copy, Debug)]
pub enum TransformKind {
    Wgs2Gcj,
    Gcj2Wgs,
    Gcj2Bd,
    Bd2Gcj,
    Wgs2Bd,
    Bd2Wgs,
}

/// IEEE-754 `<` on two doubles, each given as its 8 little-endian bytes.
pub uninterp spec fn ieee_lt(a: Seq<u8>, b: Seq<u8>) -> bool;

/// The raw WGS84 -> GCJ02 offset formula (no region check), on (lat, lng)
/// given and returned as 8 little-endian bytes each.
pub uninterp spec fn gcj_of_wgs(lat: Seq<u8>, lng: Seq<u8>) -> (Seq<u8>, Seq<u8>);

/// The raw GCJ02 -> WGS84 inverse (no region check).
pub uninterp spec fn wgs_of_gcj(lat: Seq<u8>, lng: Seq<u8>) -> (Seq<u8>, Seq<u8>);

/// The raw GCJ02 -> BD09 polar offset (no region check).
pub uninterp spec fn bd_of_gcj(lat: Seq<u8>, lng: Seq<u8>) -> (Seq<u8>, Seq<u8>);

/// The raw BD09 -> GCJ02 polar inverse (no region check).
pub uninterp spec fn gcj_of_bd(lat: Seq<u8>, lng: Seq<u8>) -> (Seq<u8>, Seq<u8>);

/// The little-endian encoding of the double 72.004, the region's west edge.
pub open spec fn west_edge() -> Seq<u8> {
    seq![0xc7u8, 0x4bu8, 0x37u8, 0x89u8, 0x41u8, 0x00u8, 0x52u8, 0x40u8]
}

/// The little-endian encoding of the double 137.8347, the region's east edge.
pub open spec fn east_edge() -> Seq<u8> {
    seq![0x14u8, 0x3fu8, 0xc6u8, 0xdcu8, 0xb5u8, 0x3au8, 0x61u8, 0x40u8]
}

/// The little-endian encoding of the double 0.8293, the region's south edge.
pub open spec fn south_edge() -> Seq<u8> {
    seq![0x61u8, 0x54u8, 0x52u8, 0x27u8, 0xa0u8, 0x89u8, 0xeau8, 0x3fu8]
}

/// The little-endian encoding of the double 55.8271, the region's north edge.
pub open spec fn north_edge() -> Seq<u8> {
    seq![0xc4u8, 0x42u8, 0xadu8, 0x69u8, 0xdeu8, 0xe9u8, 0x4bu8, 0x40u8]
}

/// A location is exempt from the obfuscation when its longitude lies west of
/// 72.004 or east of 137.8347, or its latitude lies south of 0.8293 or north
/// of 55.8271.
pub open spec fn out_of_region(lat: Seq<u8>, lng: Seq<u8>) -> bool {
    ||| ieee_lt(lng, west_edge())
    ||| ieee_lt(east_edge(), lng)
    ||| ieee_lt(lat, south_edge())
    ||| ieee_lt(north_edge(), lat)
}

/// WGS84 -> GCJ02: identity outside the region, the raw offset inside.
pub open spec fn spec_wgs2gcj(lat: Seq<u8>, lng: Seq<u8>) -> (Seq<u8>, Seq<u8>) {
    if out_of_region(lat, lng) {
        (lat, lng)
    } else {
        gcj_of_wgs(lat, lng)
    }
}

/// GCJ02 -> WGS84: identity outside the region, the raw inverse inside.
pub open spec fn spec_gcj2wgs(lat: Seq<u8>, lng: Seq<u8>) -> (Seq<u8>, Seq<u8>) {
    if out_of_region(lat, lng) {
        (lat, lng)
    } else {
        wgs_of_gcj(lat, lng)
    }
}

/// GCJ02 -> BD09: identity outside the region, the raw polar offset inside.
/// The exemption tests the pre-offset input coordinates.
pub open spec fn spec_gcj2bd(lat: Seq<u8>, lng: Seq<u8>) -> (Seq<u8>, Seq<u8>) {
    if out_of_region(lat, lng) {
        (lat, lng)
    } else {
        bd_of_gcj(lat, lng)
    }
}

/// BD09 -> GCJ02: identity outside the region, the raw polar inverse inside.
/// The exemption tests the BD-encoded input directly, before the constant
/// offsets are removed.
pub open spec fn spec_bd2gcj(lat: Seq<u8>, lng: Seq<u8>) -> (Seq<u8>, Seq<u8>) {
    if out_of_region(lat, lng) {
        (lat, lng)
    } else {
        gcj_of_bd(lat, lng)
    }
}

/// The conversion that `kind` selects.  The two composite directions go
/// through GCJ02, so their region exemption applies transitively at each step.
pub open spec fn spec_apply(kind: TransformKind, lat: Seq<u8>, lng: Seq<u8>) -> (Seq<u8>, Seq<u8>) {
    match kind {
        TransformKind::Wgs2Gcj => spec_wgs2gcj(lat, lng),
        TransformKind::Gcj2Wgs => spec_gcj2wgs(lat, lng),
        TransformKind::Gcj2Bd => spec_gcj2bd(lat, lng),
        TransformKind::Bd2Gcj => spec_bd2gcj(lat, lng),
        TransformKind::Wgs2Bd => {
            let g = spec_wgs2gcj(lat, lng);
            spec_gcj2bd(g.0, g.1)
        },
        TransformKind::Bd2Wgs => {
            let g = spec_bd2gcj(lat, lng);
            spec_gcj2wgs(g.0, g.1)
        },
    }
}

/// Any input outside the region comes back exactly unchanged, under every one
/// of the six directions; for the two composite directions the intermediate
/// GCJ02 value equals the input, so the second step keeps it unchanged too.
pub proof fn lemma_identity_outside_region(kind: TransformKind, lat: Seq<u8>, lng: Seq<u8>)
    requires
        out_of_region(lat, lng),
    ensures
        spec_apply(kind, lat, lng) == (lat, lng),
{
}

/// Relies on byteorder's `LittleEndian::read_f64` (any 8-byte slice is a
/// valid double) and on the primitive `<` of doubles.
#[verifier::external_body]
fn ieee_lt_exec(a: &Vec<u8>, b: &Vec<u8>) -> (r: bool)
    requires
        a@.len() == 8,
        b@.len() == 8,
    ensures
        r == ieee_lt(a@, b@),
{
    byteorder::LittleEndian::read_f64(a) < byteorder::LittleEndian::read_f64(b)
}

/// Relies on coordtransform's `wgs84_to_gcj02_in_mainland` (the raw offset
/// formula, no region check, total) through byteorder's `read_f64`; the crate
/// speaks (longitude, latitude) while this library speaks (latitude,
/// longitude), and `f64::to_le_bytes` yields exactly 8 bytes.
#[verifier::external_body]
fn raw_wgs2gcj(lat: &Vec<u8>, lng: &Vec<u8>) -> (r: (Vec<u8>, Vec<u8>))
    requires
        lat@.len() == 8,
        lng@.len() == 8,
    ensures
        (r.0@, r.1@) == gcj_of_wgs(lat@, lng@),
        r.0@.len() == 8,
        r.1@.len() == 8,
{
    let (lng2, lat2) = coordtransform::wgs84_to_gcj02_in_mainland(
        byteorder::LittleEndian::read_f64(lng),
        byteorder::LittleEndian::read_f64(lat),
    );
    (lat2.to_le_bytes().to_vec(), lng2.to_le_bytes().to_vec())
}

/// Relies on coordtransform's `gcj02_to_wgs84_in_mainland` (the raw seeded
/// inverse, no region check, total) through byteorder's `read_f64`; argument
/// order as in `raw_wgs2gcj`.
#[verifier::external_body]
fn raw_gcj2wgs(lat: &Vec<u8>, lng: &Vec<u8>) -> (r: (Vec<u8>, Vec<u8>))
    requires
        lat@.len() == 8,
        lng@.len() == 8,
    ensures
        (r.0@, r.1@) == wgs_of_gcj(lat@, lng@),
        r.0@.len() == 8,
        r.1@.len() == 8,
{
    let (lng2, lat2) = coordtransform::gcj02_to_wgs84_in_mainland(
        byteorder::LittleEndian::read_f64(lng),
        byteorder::LittleEndian::read_f64(lat),
    );
    (lat2.to_le_bytes().to_vec(), lng2.to_le_bytes().to_vec())
}

/// Relies on coordtransform's `gcj02_to_bd09` (the raw polar offset, no
/// region check, total) through byteorder's `read_f64`; argument order as in
/// `raw_wgs2gcj`.
#[verifier::external_body]
fn raw_gcj2bd(lat: &Vec<u8>, lng: &Vec<u8>) -> (r: (Vec<u8>, Vec<u8>))
    requires
        lat@.len() == 8,
        lng@.len() == 8,
    ensures
        (r.0@, r.1@) == bd_of_gcj(lat@, lng@),
        r.0@.len() == 8,
        r.1@.len() == 8,
{
    let (lng2, lat2) = coordtransform::gcj02_to_bd09(
        byteorder::LittleEndian::read_f64(lng),
        byteorder::LittleEndian::read_f64(lat),
    );
    (lat2.to_le_bytes().to_vec(), lng2.to_le_bytes().to_vec())
}

/// Relies on coordtransform's `bd09_to_gcj02_fast` (the raw single-pass polar
/// inverse, no region check, total) through byteorder's `read_f64`; argument
/// order as in `raw_wgs2gcj`.
#[verifier::external_body]
fn raw_bd2gcj(lat: &Vec<u8>, lng: &Vec<u8>) -> (r: (Vec<u8>, Vec<u8>))
    requires
        lat@.len() == 8,
        lng@.len() == 8,
    ensures
        (r.0@, r.1@) == gcj_of_bd(lat@, lng@),
        r.0@.len() == 8,
        r.1@.len() == 8,
{
    let (lng2, lat2) = coordtransform::bd09_to_gcj02_fast(
        byteorder::LittleEndian::read_f64(lng),
        byteorder::LittleEndian::read_f64(lat),
    );
    (lat2.to_le_bytes().to_vec(), lng2.to_le_bytes().to_vec())
}

/// A fresh copy of an 8-byte coordinate.
fn copy8(v: &Vec<u8>) -> (r: Vec<u8>)
    requires
        v@.len() == 8,
    ensures
        r@ == v@,
{
    let mut r: Vec<u8> = Vec::new();
    let mut i: usize = 0;
    while i < 8
        invariant
            v@.len() == 8,
            i <= 8,
            r@ == v@.take(i as int),
        decreases 8 - i,
    {
        r.push(v[i]);
        proof {
            assert(v@.take(i + 1 as int) == v@.take(i as int).push(v@[i as int]));
        }
        i = i + 1;
    }
    proof {
        assert(v@.take(8) == v@);
    }
    r
}

/// The region's west edge, 72.004, as 8 little-endian bytes.
fn west_edge_bytes() -> (r: Vec<u8>)
    ensures
        r@ == west_edge(),
{
    let r: Vec<u8> = vec![0xc7, 0x4b, 0x37, 0x89, 0x41, 0x00, 0x52, 0x40];
    proof {
        assert(r@ =~= west_edge());
    }
    r
}

/// The region's east edge, 137.8347, as 8 little-endian bytes.
fn east_edge_bytes() -> (r: Vec<u8>)
    ensures
        r@ == east_edge(),
{
    let r: Vec<u8> = vec![0x14, 0x3f, 0xc6, 0xdc, 0xb5, 0x3a, 0x61, 0x40];
    proof {
        assert(r@ =~= east_edge());
    }
    r
}

/// The region's south edge, 0.8293, as 8 little-endian bytes.
fn south_edge_bytes() -> (r: Vec<u8>)
    ensures
        r@ == south_edge(),
{
    let r: Vec<u8> = vec![0x61, 0x54, 0x52, 0x27, 0xa0, 0x89, 0xea, 0x3f];
    proof {
        assert(r@ =~= south_edge());
    }
    r
}

/// The region's north edge, 55.8271, as 8 little-endian bytes.
fn north_edge_bytes() -> (r: Vec<u8>)
    ensures
        r@ == north_edge(),
{
    let r: Vec<u8> = vec![0xc4, 0x42, 0xad, 0x69, 0xde, 0xe9, 0x4b, 0x40];
    proof {
        assert(r@ =~= north_edge());
    }
    r
}

/// Whether the location is exempt from the obfuscation.
pub fn out_of_region_check(lat: &Vec<u8>, lng: &Vec<u8>) -> (r: bool)
    requires
        lat@.len() == 8,
        lng@.len() == 8,
    ensures
        r == out_of_region(lat@, lng@),
{
    let west = west_edge_bytes();
    let east = east_edge_bytes();
    let south = south_edge_bytes();
    let north = north_edge_bytes();
    ieee_lt_exec(lng, &west) || ieee_lt_exec(&east, lng) || ieee_lt_exec(lat, &south)
        || ieee_lt_exec(&north, lat)
}

/// WGS84 -> GCJ02 on (lat, lng) as little-endian doubles.
pub fn wgs2gcj_le(lat: &Vec<u8>, lng: &Vec<u8>) -> (r: (Vec<u8>, Vec<u8>))
    requires
        lat@.len() == 8,
        lng@.len() == 8,
    ensures
        (r.0@, r.1@) == spec_wgs2gcj(lat@, lng@),
        r.0@.len() == 8,
        r.1@.len() == 8,
{
    if out_of_region_check(lat, lng) {
        (copy8(lat), copy8(lng))
    } else {
        raw_wgs2gcj(lat, lng)
    }
}

/// GCJ02 -> WGS84 on (lat, lng) as little-endian doubles.
pub fn gcj2wgs_le(lat: &Vec<u8>, lng: &Vec<u8>) -> (r: (Vec<u8>, Vec<u8>))
    requires
        lat@.len() == 8,
        lng@.len() == 8,
    ensures
        (r.0@, r.1@) == spec_gcj2wgs(lat@, lng@),
        r.0@.len() == 8,
        r.1@.len() == 8,
{
    if out_of_region_check(lat, lng) {
        (copy8(lat), copy8(lng))
    } else {
        raw_gcj2wgs(lat, lng)
    }
}

/// GCJ02 -> BD09 on (lat, lng) as little-endian doubles.
pub fn gcj2bd_le(lat: &Vec<u8>, lng: &Vec<u8>) -> (r: (Vec<u8>, Vec<u8>))
    requires
        lat@.len() == 8,
        lng@.len() == 8,
    ensures
        (r.0@, r.1@) == spec_gcj2bd(lat@, lng@),
        r.0@.len() == 8,
        r.1@.len() == 8,
{
    if out_of_region_check(lat, lng) {
        (copy8(lat), copy8(lng))
    } else {
        raw_gcj2bd(lat, lng)
    }
}

/// BD09 -> GCJ02 on (lat, lng) as little-endian doubles.
pub fn bd2gcj_le(lat: &Vec<u8>, lng: &Vec<u8>) -> (r: (Vec<u8>, Vec<u8>))
    requires
        lat@.len() == 8,
        lng@.len() == 8,
    ensures
        (r.0@, r.1@) == spec_bd2gcj(lat@, lng@),
        r.0@.len() == 8,
        r.1@.len() == 8,
{
    if out_of_region_check(lat, lng) {
        (copy8(lat), copy8(lng))
    } else {
        raw_bd2gcj(lat, lng)
    }
}

/// The conversion that `kind` selects, on (lat, lng) as little-endian
/// doubles.  The composite directions are computed by composition, so the
/// region exemption applies at each of their two steps.
pub fn apply_le(kind: TransformKind, lat: &Vec<u8>, lng: &Vec<u8>) -> (r: (Vec<u8>, Vec<u8>))
    requires
        lat@.len() == 8,
        lng@.len() == 8,
    ensures
        (r.0@, r.1@) == spec_apply(kind, lat@, lng@),
        r.0@.len() == 8,
        r.1@.len() == 8,
{
    match kind {
        TransformKind::Wgs2Gcj => wgs2gcj_le(lat, lng),
        TransformKind::Gcj2Wgs => gcj2wgs_le(lat, lng),
        TransformKind::Gcj2Bd => gcj2bd_le(lat, lng),
        TransformKind::Bd2Gcj => bd2gcj_le(lat, lng),
        TransformKind::Wgs2Bd => {
            let g = wgs2gcj_le(lat, lng);
            gcj2bd_le(&g.0, &g.1)
        },
        TransformKind::Bd2Wgs => {
            let g = bd2gcj_le(lat, lng);
            gcj2wgs_le(&g.0, &g.1)
        },
    }
}

} // verus!
