//! In-place rewriting of every coordinate tuple of an EWKB-encoded geometry.
//!
//! The byte buffer is modelled by a spec-level recursive-descent parse that
//! yields the positions of all coordinate tuples (or the exact error), and a
//! spec-level rewrite that replaces each tuple in order.  The executable
//! walker is verified to return exactly the parse's error, or to leave the
//! buffer equal to the spec rewrite.

use vstd::prelude::*;

use crate::coord::TransformKind;
use crate::coord::apply_le;
use crate::coord::spec_apply;

verus! {

/// A parse failure of the EWKB rewriter.
#[derive(Debug, Clone, PartialEq, Eq)]
pub enum EwkbError {
    /// A read would have passed the end of the buffer.
    UnexpectedEof,
    /// An endianness marker other than 0 or 1.
    InvalidEndian(u8),
    /// A base type code outside the recognized table.
    UnsupportedType(u32),
    /// So many bytes were left over after the top-level geometry.
    TrailingData(usize),
}

/// The byte order of one geometry record.
#[derive(Clone, Copy, Debug)]
pub enum Endian {
    Big,
    Little,
}

/// Z-coordinate flag of the EWKB type word.
pub const EWKB_Z: u32 = 0x8000_0000;

/// M-coordinate flag of the EWKB type word.
pub const EWKB_M: u32 = 0x4000_0000;

/// SRID-present flag of the EWKB type word.
pub const EWKB_SRID: u32 = 0x2000_0000;

/// Mask of the base type code in the EWKB type word.
pub const EWKB_TYPE_MASK: u32 = 0x0000_FFFF;

/// One coordinate tuple inside the buffer: 8 bytes of X at `off`, then 8
/// bytes of Y, both stored in the record's byte order.
pub struct CoordSlot {
    pub off: int,
    pub big: bool,
}

/// What parsing a part of the buffer yields: the position after it and the
/// coordinate tuples inside it, or the error.
#[verifier::ext_equal]
pub enum Parsed {
    Done { end: int, slots: Seq<CoordSlot> },
    Fail { err: EwkbError },
}

/// The unsigned value of four bytes given from least to most significant.
pub open spec fn u32_word(b0: u8, b1: u8, b2: u8, b3: u8) -> u32 {
    (b0 + b1 * 0x100 + b2 * 0x10000 + b3 * 0x1000000) as u32
}

/// The 4-byte unsigned word at `off`, read in the given byte order.
pub open spec fn u32_at(b: Seq<u8>, off: int, big: bool) -> u32 {
    if big {
        u32_word(b[off + 3], b[off + 2], b[off + 1], b[off])
    } else {
        u32_word(b[off], b[off + 1], b[off + 2], b[off + 3])
    }
}

/// Base type codes whose payload is a count followed by coordinate tuples.
pub open spec fn is_point_array_code(code: u32) -> bool {
    code == 2 || code == 8 || code == 13
}

/// Base type codes whose payload is a count followed by point arrays.
pub open spec fn is_ring_list_code(code: u32) -> bool {
    code == 3 || code == 17
}

/// Base type codes whose payload is a count followed by nested geometries.
pub open spec fn is_collection_code(code: u32) -> bool {
    code == 4 || code == 5 || code == 6 || code == 7 || code == 9 || code == 10 || code == 11
        || code == 12 || code == 14 || code == 15 || code == 16
}

/// The byte width of one coordinate tuple: X and Y, then Z and M if present.
pub open spec fn tuple_width(has_z: bool, has_m: bool) -> int {
    16 + (if has_z {
        8int
    } else {
        0int
    }) + (if has_m {
        8int
    } else {
        0int
    })
}

/// `n` consecutive coordinate tuples starting at `off`.
pub open spec fn parse_tuples(
    b: Seq<u8>,
    off: int,
    n: int,
    big: bool,
    has_z: bool,
    has_m: bool,
) -> Parsed
    decreases n,
{
    if n <= 0 {
        Parsed::Done { end: off, slots: Seq::empty() }
    } else if off + tuple_width(has_z, has_m) > b.len() {
        Parsed::Fail { err: EwkbError::UnexpectedEof }
    } else {
        match parse_tuples(b, off + tuple_width(has_z, has_m), n - 1, big, has_z, has_m) {
            Parsed::Fail { err } => Parsed::Fail { err },
            Parsed::Done { end, slots } => Parsed::Done {
                end,
                slots: seq![CoordSlot { off, big }] + slots,
            },
        }
    }
}

/// A count-prefixed run of coordinate tuples (the payload of line-like and
/// multipoint-like geometries, and of each polygon ring).  A count of zero is
/// valid and yields no tuples.
pub open spec fn parse_point_array(
    b: Seq<u8>,
    off: int,
    big: bool,
    has_z: bool,
    has_m: bool,
) -> Parsed {
    if off + 4 > b.len() {
        Parsed::Fail { err: EwkbError::UnexpectedEof }
    } else {
        parse_tuples(b, off + 4, u32_at(b, off, big) as int, big, has_z, has_m)
    }
}

/// `n` consecutive count-prefixed point arrays (the rings of a polygon).
pub open spec fn parse_rings(
    b: Seq<u8>,
    off: int,
    n: int,
    big: bool,
    has_z: bool,
    has_m: bool,
) -> Parsed
    decreases n,
{
    if n <= 0 {
        Parsed::Done { end: off, slots: Seq::empty() }
    } else {
        match parse_point_array(b, off, big, has_z, has_m) {
            Parsed::Fail { err } => Parsed::Fail { err },
            Parsed::Done { end, slots } => match parse_rings(b, end, n - 1, big, has_z, has_m) {
                Parsed::Fail { err } => Parsed::Fail { err },
                Parsed::Done { end: e2, slots: s2 } => Parsed::Done { end: e2, slots: slots + s2 },
            },
        }
    }
}

/// A count-prefixed run of point arrays (the payload of polygon-like
/// geometries).  A count of zero is valid and yields no tuples.
pub open spec fn parse_ring_list(b: Seq<u8>, off: int, big: bool, has_z: bool, has_m: bool) -> Parsed
    decreases b.len() - off, 1int,
{
    if off + 4 > b.len() {
        Parsed::Fail { err: EwkbError::UnexpectedEof }
    } else {
        parse_rings(b, off + 4, u32_at(b, off, big) as int, big, has_z, has_m)
    }
}

/// A count-prefixed run of nested geometries (the payload of collection-like
/// geometries).  A count of zero is valid and yields no tuples.
pub open spec fn parse_collection(b: Seq<u8>, off: int, big: bool) -> Parsed
    decreases b.len() - off, 1int,
{
    if off + 4 > b.len() {
        Parsed::Fail { err: EwkbError::UnexpectedEof }
    } else {
        parse_geoms(b, off + 4, u32_at(b, off, big) as int)
    }
}

/// One geometry record: endianness marker, type word, an SRID to skip when
/// flagged, then the payload of its category.
pub open spec fn parse_geometry(b: Seq<u8>, off: int) -> Parsed
    decreases b.len() - off, 0int,
{
    if off + 1 > b.len() {
        Parsed::Fail { err: EwkbError::UnexpectedEof }
    } else if b[off] != 0 && b[off] != 1 {
        Parsed::Fail { err: EwkbError::InvalidEndian(b[off]) }
    } else {
        let big = b[off] == 0;
        if off + 5 > b.len() {
            Parsed::Fail { err: EwkbError::UnexpectedEof }
        } else {
            let type_word = u32_at(b, off + 1, big);
            let has_z = type_word & EWKB_Z != 0;
            let has_m = type_word & EWKB_M != 0;
            let has_srid = type_word & EWKB_SRID != 0;
            let code = type_word & EWKB_TYPE_MASK;
            let pay = if has_srid {
                off + 9
            } else {
                off + 5
            };
            if has_srid && off + 9 > b.len() {
                Parsed::Fail { err: EwkbError::UnexpectedEof }
            } else if code == 1 {
                if pay + tuple_width(has_z, has_m) > b.len() {
                    Parsed::Fail { err: EwkbError::UnexpectedEof }
                } else {
                    Parsed::Done {
                        end: pay + tuple_width(has_z, has_m),
                        slots: seq![CoordSlot { off: pay, big }],
                    }
                }
            } else if is_point_array_code(code) {
                parse_point_array(b, pay, big, has_z, has_m)
            } else if is_ring_list_code(code) {
                parse_ring_list(b, pay, big, has_z, has_m)
            } else if is_collection_code(code) {
                parse_collection(b, pay, big)
            } else {
                Parsed::Fail { err: EwkbError::UnsupportedType(code) }
            }
        }
    }
}

/// `n` consecutive nested geometries, each with its own full header.  The
/// guard on `end` never fails on a successful sub-parse (a geometry consumes
/// at least its header and stops inside the buffer, see
/// `lemma_parse_geometry_bounds`); it makes the recursion's termination
/// measure evident.
pub open spec fn parse_geoms(b: Seq<u8>, off: int, n: int) -> Parsed
    decreases b.len() - off, n,
{
    if n <= 0 {
        Parsed::Done { end: off, slots: Seq::empty() }
    } else {
        match parse_geometry(b, off) {
            Parsed::Fail { err } => Parsed::Fail { err },
            Parsed::Done { end, slots } => {
                if off < end && end <= b.len() {
                    match parse_geoms(b, end, n - 1) {
                        Parsed::Fail { err } => Parsed::Fail { err },
                        Parsed::Done { end: e2, slots: s2 } => Parsed::Done {
                            end: e2,
                            slots: slots + s2,
                        },
                    }
                } else {
                    Parsed::Fail { err: EwkbError::UnexpectedEof }
                }
            },
        }
    }
}

/// The whole buffer as one top-level geometry: every byte must be consumed.
pub open spec fn parse_top(b: Seq<u8>) -> Parsed {
    match parse_geometry(b, 0) {
        Parsed::Fail { err } => Parsed::Fail { err },
        Parsed::Done { end, slots } => {
            if end == b.len() {
                Parsed::Done { end, slots }
            } else {
                Parsed::Fail { err: EwkbError::TrailingData((b.len() - end) as usize) }
            }
        },
    }
}

/// The little-endian view of an 8-byte field stored in the given order.
pub open spec fn le_of(s: Seq<u8>, big: bool) -> Seq<u8> {
    if big {
        s.reverse()
    } else {
        s
    }
}

/// The buffer after the one tuple at `slot` is rewritten under `kind`: X and
/// Y are read in the record's order, converted as (lat = Y, lng = X), and the
/// results written back into the same 16 bytes; every other byte keeps its
/// value.
pub open spec fn apply_slot(b: Seq<u8>, slot: CoordSlot, kind: TransformKind) -> Seq<u8> {
    let x = b.subrange(slot.off, slot.off + 8);
    let y = b.subrange(slot.off + 8, slot.off + 16);
    let out = spec_apply(kind, le_of(y, slot.big), le_of(x, slot.big));
    let new_x = le_of(out.1, slot.big);
    let new_y = le_of(out.0, slot.big);
    Seq::new(
        b.len(),
        |i: int|
            if slot.off <= i < slot.off + 8 {
                new_x[i - slot.off]
            } else if slot.off + 8 <= i < slot.off + 16 {
                new_y[i - slot.off - 8]
            } else {
                b[i]
            },
    )
}

/// The buffer after the listed tuples are rewritten, in order.
pub open spec fn rewrite_slots(b: Seq<u8>, slots: Seq<CoordSlot>, kind: TransformKind) -> Seq<u8>
    decreases slots.len(),
{
    if slots.len() == 0 {
        b
    } else {
        rewrite_slots(apply_slot(b, slots[0], kind), slots.drop_first(), kind)
    }
}

/// Rewriting never changes the buffer's length.
pub proof fn lemma_rewrite_len(b: Seq<u8>, slots: Seq<CoordSlot>, kind: TransformKind)
    ensures
        rewrite_slots(b, slots, kind).len() == b.len(),
    decreases slots.len(),
{
    if slots.len() > 0 {
        lemma_rewrite_len(apply_slot(b, slots[0], kind), slots.drop_first(), kind);
    }
}

/// A byte that lies inside none of the tuples keeps its value: a rewrite
/// changes only the 8-byte X and Y fields of the coordinate tuples, so type
/// codes, counts, markers and skipped ordinates stay exactly as they were.
pub proof fn lemma_rewrite_untouched(
    b: Seq<u8>,
    slots: Seq<CoordSlot>,
    kind: TransformKind,
    i: int,
)
    requires
        0 <= i < b.len(),
        forall|k: int|
            0 <= k < slots.len() ==> !((#[trigger] slots[k]).off <= i < slots[k].off + 16),
    ensures
        rewrite_slots(b, slots, kind)[i] == b[i],
    decreases slots.len(),
{
    if slots.len() > 0 {
        let b2 = apply_slot(b, slots[0], kind);
        assert(b2[i] == b[i]);
        assert(forall|k: int|
            0 <= k < slots.drop_first().len() ==> slots.drop_first()[k] == slots[k + 1]);
        lemma_rewrite_untouched(b2, slots.drop_first(), kind, i);
    }
}

/// A successful run of tuples starts no earlier than `off`, ends inside the
/// buffer, and each of its slots lies between `off` and the end.
pub proof fn lemma_parse_tuples_bounds(
    b: Seq<u8>,
    off: int,
    n: int,
    big: bool,
    has_z: bool,
    has_m: bool,
)
    ensures
        parse_tuples(b, off, n, big, has_z, has_m) matches Parsed::Done { end, slots } ==> {
            &&& off <= end <= b.len() || (n <= 0 && end == off)
            &&& forall|k: int|
                0 <= k < slots.len() ==> off <= (#[trigger] slots[k]).off && slots[k].off + 16
                    <= end
        },
    decreases n,
{
    if n > 0 && off + tuple_width(has_z, has_m) <= b.len() {
        lemma_parse_tuples_bounds(b, off + tuple_width(has_z, has_m), n - 1, big, has_z, has_m);
    }
}

/// A successful point array consumes at least its count and ends inside the
/// buffer; each of its slots lies between the count and the end.
pub proof fn lemma_parse_point_array_bounds(
    b: Seq<u8>,
    off: int,
    big: bool,
    has_z: bool,
    has_m: bool,
)
    ensures
        parse_point_array(b, off, big, has_z, has_m) matches Parsed::Done { end, slots } ==> {
            &&& off + 4 <= end <= b.len()
            &&& forall|k: int|
                0 <= k < slots.len() ==> off + 4 <= (#[trigger] slots[k]).off && slots[k].off + 16
                    <= end
        },
{
    if off + 4 <= b.len() {
        let n = u32_at(b, off, big) as int;
        lemma_parse_tuples_bounds(b, off + 4, n, big, has_z, has_m);
    }
}

/// A successful run of rings never moves backwards and ends inside the
/// buffer once it contains at least one ring.
pub proof fn lemma_parse_rings_bounds(
    b: Seq<u8>,
    off: int,
    n: int,
    big: bool,
    has_z: bool,
    has_m: bool,
)
    ensures
        parse_rings(b, off, n, big, has_z, has_m) matches Parsed::Done { end, slots } ==> {
            &&& off <= end
            &&& end <= b.len() || (n <= 0 && end == off)
            &&& forall|k: int|
                0 <= k < slots.len() ==> off <= (#[trigger] slots[k]).off && slots[k].off + 16
                    <= end
        },
    decreases n,
{
    if n > 0 {
        lemma_parse_point_array_bounds(b, off, big, has_z, has_m);
        match parse_point_array(b, off, big, has_z, has_m) {
            Parsed::Done { end: e1, slots: s1 } => {
                lemma_parse_rings_bounds(b, e1, n - 1, big, has_z, has_m);
            },
            Parsed::Fail { err } => {},
        }
    }
}

/// A successful geometry consumes at least its 5-byte header and ends inside
/// the buffer; each of its slots lies between its start and its end.
pub proof fn lemma_parse_geometry_bounds(b: Seq<u8>, off: int)
    ensures
        parse_geometry(b, off) matches Parsed::Done { end, slots } ==> {
            &&& off + 5 <= end <= b.len()
            &&& forall|k: int|
                0 <= k < slots.len() ==> off <= (#[trigger] slots[k]).off && slots[k].off + 16
                    <= end
        },
    decreases b.len() - off, 0int,
{
    if off + 5 <= b.len() && (b[off] == 0 || b[off] == 1) {
        let big = b[off] == 0;
        let type_word = u32_at(b, off + 1, big);
        let has_z = type_word & EWKB_Z != 0;
        let has_m = type_word & EWKB_M != 0;
        let has_srid = type_word & EWKB_SRID != 0;
        let code = type_word & EWKB_TYPE_MASK;
        let pay = if has_srid {
            off + 9
        } else {
            off + 5
        };
        if !(has_srid && off + 9 > b.len()) {
            if is_point_array_code(code) {
                lemma_parse_point_array_bounds(b, pay, big, has_z, has_m);
            } else if is_ring_list_code(code) && pay + 4 <= b.len() {
                lemma_parse_rings_bounds(b, pay + 4, u32_at(b, pay, big) as int, big, has_z, has_m);
            } else if is_collection_code(code) && pay + 4 <= b.len() {
                lemma_parse_geoms_bounds(b, pay + 4, u32_at(b, pay, big) as int);
            }
        }
    }
}

/// A successful run of nested geometries never moves backwards and ends
/// inside the buffer once it contains at least one geometry.
pub proof fn lemma_parse_geoms_bounds(b: Seq<u8>, off: int, n: int)
    ensures
        parse_geoms(b, off, n) matches Parsed::Done { end, slots } ==> {
            &&& off <= end
            &&& end <= b.len() || (n <= 0 && end == off)
            &&& forall|k: int|
                0 <= k < slots.len() ==> off <= (#[trigger] slots[k]).off && slots[k].off + 16
                    <= end
        },
    decreases b.len() - off, n,
{
    if n > 0 {
        lemma_parse_geometry_bounds(b, off);
        match parse_geometry(b, off) {
            Parsed::Done { end: e1, slots: s1 } => {
                if off < e1 && e1 <= b.len() {
                    lemma_parse_geoms_bounds(b, e1, n - 1);
                }
            },
            Parsed::Fail { err } => {},
        }
    }
}

/// A run of tuples is parsed from lengths and offsets alone: two buffers of
/// the same length parse alike, whatever their bytes hold.
pub proof fn lemma_parse_tuples_len_only(
    b1: Seq<u8>,
    b2: Seq<u8>,
    off: int,
    n: int,
    big: bool,
    has_z: bool,
    has_m: bool,
)
    requires
        b1.len() == b2.len(),
    ensures
        parse_tuples(b1, off, n, big, has_z, has_m) == parse_tuples(b2, off, n, big, has_z, has_m),
    decreases n,
{
    if n > 0 && off + tuple_width(has_z, has_m) <= b1.len() {
        lemma_parse_tuples_len_only(
            b1,
            b2,
            off + tuple_width(has_z, has_m),
            n - 1,
            big,
            has_z,
            has_m,
        );
    }
}

/// Two buffers of the same length that agree from `off` on parse alike for a
/// point array.
pub proof fn lemma_parse_point_array_agree(
    b1: Seq<u8>,
    b2: Seq<u8>,
    off: int,
    big: bool,
    has_z: bool,
    has_m: bool,
)
    requires
        0 <= off,
        b1.len() == b2.len(),
        forall|j: int| off <= j < b1.len() ==> b1[j] == b2[j],
    ensures
        parse_point_array(b1, off, big, has_z, has_m) == parse_point_array(
            b2,
            off,
            big,
            has_z,
            has_m,
        ),
{
    if off + 4 <= b1.len() {
        assert(u32_at(b1, off, big) == u32_at(b2, off, big));
        lemma_parse_tuples_len_only(b1, b2, off + 4, u32_at(b1, off, big) as int, big, has_z, has_m);
    }
}

/// Two buffers of the same length that agree from `off` on parse alike for a
/// run of rings.
pub proof fn lemma_parse_rings_agree(
    b1: Seq<u8>,
    b2: Seq<u8>,
    off: int,
    n: int,
    big: bool,
    has_z: bool,
    has_m: bool,
)
    requires
        0 <= off,
        b1.len() == b2.len(),
        forall|j: int| off <= j < b1.len() ==> b1[j] == b2[j],
    ensures
        parse_rings(b1, off, n, big, has_z, has_m) == parse_rings(b2, off, n, big, has_z, has_m),
    decreases n,
{
    if n > 0 {
        lemma_parse_point_array_agree(b1, b2, off, big, has_z, has_m);
        lemma_parse_point_array_bounds(b1, off, big, has_z, has_m);
        match parse_point_array(b1, off, big, has_z, has_m) {
            Parsed::Done { end: e1, slots: s1 } => {
                lemma_parse_rings_agree(b1, b2, e1, n - 1, big, has_z, has_m);
            },
            Parsed::Fail { err } => {},
        }
    }
}

/// Two buffers of the same length that agree from `off` on parse alike for a
/// geometry: the parse never reads a byte before `off`.
pub proof fn lemma_parse_geometry_agree(b1: Seq<u8>, b2: Seq<u8>, off: int)
    requires
        0 <= off,
        b1.len() == b2.len(),
        forall|j: int| off <= j < b1.len() ==> b1[j] == b2[j],
    ensures
        parse_geometry(b1, off) == parse_geometry(b2, off),
    decreases b1.len() - off, 0int,
{
    if off + 5 <= b1.len() && (b1[off] == 0 || b1[off] == 1) {
        let big = b1[off] == 0;
        assert(u32_at(b1, off + 1, big) == u32_at(b2, off + 1, big));
        let type_word = u32_at(b1, off + 1, big);
        let has_z = type_word & EWKB_Z != 0;
        let has_m = type_word & EWKB_M != 0;
        let has_srid = type_word & EWKB_SRID != 0;
        let code = type_word & EWKB_TYPE_MASK;
        let pay = if has_srid {
            off + 9
        } else {
            off + 5
        };
        if !(has_srid && off + 9 > b1.len()) {
            if is_point_array_code(code) {
                lemma_parse_point_array_agree(b1, b2, pay, big, has_z, has_m);
            } else if is_ring_list_code(code) && pay + 4 <= b1.len() {
                assert(u32_at(b1, pay, big) == u32_at(b2, pay, big));
                lemma_parse_rings_agree(
                    b1,
                    b2,
                    pay + 4,
                    u32_at(b1, pay, big) as int,
                    big,
                    has_z,
                    has_m,
                );
            } else if is_collection_code(code) && pay + 4 <= b1.len() {
                assert(u32_at(b1, pay, big) == u32_at(b2, pay, big));
                lemma_parse_geoms_agree(b1, b2, pay + 4, u32_at(b1, pay, big) as int);
            }
        }
    }
}

/// Two buffers of the same length that agree from `off` on parse alike for a
/// run of nested geometries.
pub proof fn lemma_parse_geoms_agree(b1: Seq<u8>, b2: Seq<u8>, off: int, n: int)
    requires
        0 <= off,
        b1.len() == b2.len(),
        forall|j: int| off <= j < b1.len() ==> b1[j] == b2[j],
    ensures
        parse_geoms(b1, off, n) == parse_geoms(b2, off, n),
    decreases b1.len() - off, n,
{
    if n > 0 {
        lemma_parse_geometry_agree(b1, b2, off);
        match parse_geometry(b1, off) {
            Parsed::Done { end: e1, slots: s1 } => {
                if off < e1 && e1 <= b1.len() {
                    lemma_parse_geoms_agree(b1, b2, e1, n - 1);
                }
            },
            Parsed::Fail { err } => {},
        }
    }
}

/// Rewriting a concatenation of two slot lists equals rewriting the first
/// list and then the second.
pub proof fn lemma_rewrite_append(
    b: Seq<u8>,
    s1: Seq<CoordSlot>,
    s2: Seq<CoordSlot>,
    kind: TransformKind,
)
    ensures
        rewrite_slots(b, s1 + s2, kind) == rewrite_slots(rewrite_slots(b, s1, kind), s2, kind),
    decreases s1.len(),
{
    if s1.len() == 0 {
        assert(s1 + s2 =~= s2);
    } else {
        assert((s1 + s2)[0] == s1[0]);
        assert((s1 + s2).drop_first() =~= s1.drop_first() + s2);
        lemma_rewrite_append(apply_slot(b, s1[0], kind), s1.drop_first(), s2, kind);
    }
}

/// The unsigned value of four bytes given from least to most significant.
fn u32_comb(b0: u8, b1: u8, b2: u8, b3: u8) -> (r: u32)
    ensures
        r == u32_word(b0, b1, b2, b3),
{
    b0 as u32 + b1 as u32 * 0x100 + b2 as u32 * 0x10000 + b3 as u32 * 0x1000000
}

impl Endian {
    /// The byte order that the given marker selects: 0 is big-endian, 1 is
    /// little-endian, anything else is rejected.
    fn from_marker(marker: u8) -> (r: Result<Endian, EwkbError>)
        ensures
            match r {
                Ok(e) => (marker == 0 || marker == 1) && ((e is Big) <==> marker == 0),
                Err(err) => marker != 0 && marker != 1 && err == EwkbError::InvalidEndian(marker),
            },
    {
        match marker {
            0 => Ok(Endian::Big),
            1 => Ok(Endian::Little),
            other => Err(EwkbError::InvalidEndian(other)),
        }
    }

    /// The value of four bytes read in this byte order.
    fn read_u32(self, bytes: [u8; 4]) -> (r: u32)
        ensures
            r == u32_at(bytes@, 0, self is Big),
    {
        match self {
            Endian::Big => u32_comb(bytes[3], bytes[2], bytes[1], bytes[0]),
            Endian::Little => u32_comb(bytes[0], bytes[1], bytes[2], bytes[3]),
        }
    }
}

/// There must be at least `need` more bytes at `offset`.
fn ensure_remaining(buf: &Vec<u8>, offset: usize, need: usize) -> (r: Result<(), EwkbError>)
    ensures
        match r {
            Ok(()) => offset + need <= buf@.len(),
            Err(e) => offset + need > buf@.len() && e == EwkbError::UnexpectedEof,
        },
{
    if offset <= buf.len() && need <= buf.len() - offset {
        Ok(())
    } else {
        Err(EwkbError::UnexpectedEof)
    }
}

/// Reads the byte at the cursor and advances it.
fn read_u8(buf: &Vec<u8>, offset: &mut usize) -> (r: Result<u8, EwkbError>)
    ensures
        match r {
            Ok(v) => *old(offset) + 1 <= buf@.len() && *final(offset) == *old(offset) + 1 && v
                == buf@[*old(offset) as int],
            Err(e) => *old(offset) + 1 > buf@.len() && *final(offset) == *old(offset) && e
                == EwkbError::UnexpectedEof,
        },
{
    ensure_remaining(buf, *offset, 1)?;
    let blen: usize = buf.len();
    assert(*offset + 1 <= blen);
    let v = buf[*offset];
    *offset = *offset + 1;
    Ok(v)
}

/// Reads a 4-byte word at the cursor in the given byte order and advances it.
fn read_u32(buf: &Vec<u8>, offset: &mut usize, endian: Endian) -> (r: Result<u32, EwkbError>)
    ensures
        match r {
            Ok(v) => *old(offset) + 4 <= buf@.len() && *final(offset) == *old(offset) + 4 && v
                == u32_at(buf@, *old(offset) as int, endian is Big),
            Err(e) => *old(offset) + 4 > buf@.len() && *final(offset) == *old(offset) && e
                == EwkbError::UnexpectedEof,
        },
{
    ensure_remaining(buf, *offset, 4)?;
    let blen: usize = buf.len();
    let o = *offset;
    assert(o + 4 <= blen);
    let raw = [buf[o], buf[o + 1], buf[o + 2], buf[o + 3]];
    *offset = o + 4;
    Ok(endian.read_u32(raw))
}

/// Advances the cursor over `n` bytes without reading them.
fn skip_bytes(buf: &Vec<u8>, offset: &mut usize, n: usize) -> (r: Result<(), EwkbError>)
    ensures
        match r {
            Ok(()) => *old(offset) + n <= buf@.len() && *final(offset) == *old(offset) + n,
            Err(e) => *old(offset) + n > buf@.len() && *final(offset) == *old(offset) && e
                == EwkbError::UnexpectedEof,
        },
{
    ensure_remaining(buf, *offset, n)?;
    let blen: usize = buf.len();
    assert(*offset + n <= blen);
    *offset = *offset + n;
    Ok(())
}

/// Whether `j` lies inside one of the listed coordinate tuples.
pub open spec fn slot_covers(slots: Seq<CoordSlot>, j: int) -> bool {
    exists|k: int| 0 <= k < slots.len() && (#[trigger] slots[k]).off <= j < slots[k].off + 16
}

/// A position is covered by a concatenation exactly when one of the two
/// parts covers it.
pub proof fn lemma_slot_covers_append(s1: Seq<CoordSlot>, s2: Seq<CoordSlot>, j: int)
    ensures
        slot_covers(s1 + s2, j) <==> (slot_covers(s1, j) || slot_covers(s2, j)),
{
    if slot_covers(s1 + s2, j) {
        let k = choose|k: int|
            0 <= k < (s1 + s2).len() && (#[trigger] (s1 + s2)[k]).off <= j < (s1 + s2)[k].off + 16;
        if k < s1.len() {
            assert(s1[k] == (s1 + s2)[k]);
        } else {
            assert(s2[k - s1.len()] == (s1 + s2)[k]);
        }
    }
    if slot_covers(s1, j) {
        let k = choose|k: int| 0 <= k < s1.len() && (#[trigger] s1[k]).off <= j < s1[k].off + 16;
        assert((s1 + s2)[k] == s1[k]);
        assert(slot_covers(s1 + s2, j));
    }
    if slot_covers(s2, j) {
        let k = choose|k: int| 0 <= k < s2.len() && (#[trigger] s2[k]).off <= j < s2[k].off + 16;
        assert((s1 + s2)[k + s1.len()] == s2[k]);
        assert(slot_covers(s1 + s2, j));
    }
}

/// A point array parses alike in a second buffer of the same length that
/// agrees with the first everywhere in the parsed range but inside the
/// parsed coordinate tuples themselves.
pub proof fn lemma_reparse_point_array(
    b: Seq<u8>,
    b2: Seq<u8>,
    off: int,
    big: bool,
    has_z: bool,
    has_m: bool,
)
    requires
        0 <= off,
        b.len() == b2.len(),
        ({
            let r = parse_point_array(b, off, big, has_z, has_m);
            r matches Parsed::Done { end, slots } && forall|j: int|
                off <= j < end && !slot_covers(slots, j) ==> b[j] == b2[j]
        }),
    ensures
        parse_point_array(b2, off, big, has_z, has_m) == parse_point_array(
            b,
            off,
            big,
            has_z,
            has_m,
        ),
{
    lemma_parse_point_array_bounds(b, off, big, has_z, has_m);
    match parse_point_array(b, off, big, has_z, has_m) {
        Parsed::Done { end, slots } => {
            assert forall|j: int| off <= j < off + 4 implies b[j] == b2[j] by {
                assert(!slot_covers(slots, j));
            }
            assert(u32_at(b, off, big) == u32_at(b2, off, big));
            lemma_parse_tuples_len_only(
                b,
                b2,
                off + 4,
                u32_at(b, off, big) as int,
                big,
                has_z,
                has_m,
            );
        },
        Parsed::Fail { err } => {},
    }
}

/// A run of rings parses alike in a second buffer of the same length that
/// agrees with the first outside the parsed coordinate tuples.
pub proof fn lemma_reparse_rings(
    b: Seq<u8>,
    b2: Seq<u8>,
    off: int,
    n: int,
    big: bool,
    has_z: bool,
    has_m: bool,
)
    requires
        0 <= off,
        b.len() == b2.len(),
        ({
            let r = parse_rings(b, off, n, big, has_z, has_m);
            r matches Parsed::Done { end, slots } && forall|j: int|
                off <= j < end && !slot_covers(slots, j) ==> b[j] == b2[j]
        }),
    ensures
        parse_rings(b2, off, n, big, has_z, has_m) == parse_rings(b, off, n, big, has_z, has_m),
    decreases n,
{
    if n > 0 {
        match parse_point_array(b, off, big, has_z, has_m) {
            Parsed::Done { end: e1, slots: s1 } => {
                lemma_parse_point_array_bounds(b, off, big, has_z, has_m);
                match parse_rings(b, e1, n - 1, big, has_z, has_m) {
                    Parsed::Done { end: e2, slots: s2 } => {
                        lemma_parse_rings_bounds(b, e1, n - 1, big, has_z, has_m);
                        assert forall|j: int|
                            off <= j < e1 && !slot_covers(s1, j) implies b[j] == b2[j] by {
                            lemma_slot_covers_append(s1, s2, j);
                            assert(!slot_covers(s2, j));
                        }
                        lemma_reparse_point_array(b, b2, off, big, has_z, has_m);
                        assert forall|j: int|
                            e1 <= j < e2 && !slot_covers(s2, j) implies b[j] == b2[j] by {
                            lemma_slot_covers_append(s1, s2, j);
                            assert(!slot_covers(s1, j));
                        }
                        lemma_reparse_rings(b, b2, e1, n - 1, big, has_z, has_m);
                    },
                    Parsed::Fail { err } => {},
                }
            },
            Parsed::Fail { err } => {},
        }
    }
}

/// A geometry parses alike in a second buffer of the same length that agrees
/// with the first outside the parsed coordinate tuples: markers, type words,
/// SRIDs and counts are all read from uncovered positions.
pub proof fn lemma_reparse_geometry(b: Seq<u8>, b2: Seq<u8>, off: int)
    requires
        0 <= off,
        b.len() == b2.len(),
        ({
            let r = parse_geometry(b, off);
            r matches Parsed::Done { end, slots } && forall|j: int|
                off <= j < end && !slot_covers(slots, j) ==> b[j] == b2[j]
        }),
    ensures
        parse_geometry(b2, off) == parse_geometry(b, off),
    decreases b.len() - off, 0int,
{
    lemma_parse_geometry_bounds(b, off);
    match parse_geometry(b, off) {
        Parsed::Done { end, slots } => {
            let big = b[off] == 0;
            let type_word = u32_at(b, off + 1, big);
            let has_z = type_word & EWKB_Z != 0;
            let has_m = type_word & EWKB_M != 0;
            let has_srid = type_word & EWKB_SRID != 0;
            let code = type_word & EWKB_TYPE_MASK;
            let pay = if has_srid {
                off + 9
            } else {
                off + 5
            };
            if code == 1 {
                assert forall|j: int| off <= j < pay implies b[j] == b2[j] by {
                    assert(!slot_covers(slots, j));
                }
                assert(b2[off] == b[off]);
                assert(u32_at(b2, off + 1, big) == type_word);
            } else if is_point_array_code(code) {
                lemma_parse_point_array_bounds(b, pay, big, has_z, has_m);
                assert forall|j: int| off <= j < pay + 4 implies b[j] == b2[j] by {
                    assert(!slot_covers(slots, j));
                }
                assert(b2[off] == b[off]);
                assert(u32_at(b2, off + 1, big) == type_word);
                lemma_reparse_point_array(b, b2, pay, big, has_z, has_m);
            } else if is_ring_list_code(code) {
                lemma_parse_rings_bounds(b, pay + 4, u32_at(b, pay, big) as int, big, has_z, has_m);
                assert forall|j: int| off <= j < pay + 4 implies b[j] == b2[j] by {
                    assert(!slot_covers(slots, j));
                }
                assert(b2[off] == b[off]);
                assert(u32_at(b2, off + 1, big) == type_word);
                assert(u32_at(b2, pay, big) == u32_at(b, pay, big));
                lemma_reparse_rings(b, b2, pay + 4, u32_at(b, pay, big) as int, big, has_z, has_m);
            } else if is_collection_code(code) {
                lemma_parse_geoms_bounds(b, pay + 4, u32_at(b, pay, big) as int);
                assert forall|j: int| off <= j < pay + 4 implies b[j] == b2[j] by {
                    assert(!slot_covers(slots, j));
                }
                assert(b2[off] == b[off]);
                assert(u32_at(b2, off + 1, big) == type_word);
                assert(u32_at(b2, pay, big) == u32_at(b, pay, big));
                lemma_reparse_geoms(b, b2, pay + 4, u32_at(b, pay, big) as int);
            }
        },
        Parsed::Fail { err } => {},
    }
}

/// A run of nested geometries parses alike in a second buffer of the same
/// length that agrees with the first outside the parsed coordinate tuples.
pub proof fn lemma_reparse_geoms(b: Seq<u8>, b2: Seq<u8>, off: int, n: int)
    requires
        0 <= off,
        b.len() == b2.len(),
        ({
            let r = parse_geoms(b, off, n);
            r matches Parsed::Done { end, slots } && forall|j: int|
                off <= j < end && !slot_covers(slots, j) ==> b[j] == b2[j]
        }),
    ensures
        parse_geoms(b2, off, n) == parse_geoms(b, off, n),
    decreases b.len() - off, n,
{
    if n > 0 {
        match parse_geometry(b, off) {
            Parsed::Done { end: e1, slots: s1 } => {
                lemma_parse_geometry_bounds(b, off);
                if off < e1 && e1 <= b.len() {
                    match parse_geoms(b, e1, n - 1) {
                        Parsed::Done { end: e2, slots: s2 } => {
                            lemma_parse_geoms_bounds(b, e1, n - 1);
                            assert forall|j: int|
                                off <= j < e1 && !slot_covers(s1, j) implies b[j] == b2[j] by {
                                lemma_slot_covers_append(s1, s2, j);
                                assert(!slot_covers(s2, j));
                            }
                            lemma_reparse_geometry(b, b2, off);
                            assert forall|j: int|
                                e1 <= j < e2 && !slot_covers(s2, j) implies b[j] == b2[j] by {
                                lemma_slot_covers_append(s1, s2, j);
                                assert(!slot_covers(s1, j));
                            }
                            lemma_reparse_geoms(b, b2, e1, n - 1);
                        },
                        Parsed::Fail { err } => {},
                    }
                }
            },
            Parsed::Fail { err } => {},
        }
    }
}

/// Structural preservation: a buffer that parses, rewritten at exactly its
/// own coordinate slots, parses again with the same end and the same slots,
/// so every type code, count, marker, SRID and skipped ordinate reads back
/// unchanged.
pub proof fn lemma_rewrite_preserves_structure(b: Seq<u8>, kind: TransformKind)
    ensures
        ({
            let r = parse_top(b);
            r matches Parsed::Done { end, slots } ==> parse_top(rewrite_slots(b, slots, kind))
                == r
        }),
{
    match parse_top(b) {
        Parsed::Done { end, slots } => {
            let b2 = rewrite_slots(b, slots, kind);
            lemma_rewrite_len(b, slots, kind);
            assert forall|j: int| 0 <= j < end && !slot_covers(slots, j) implies b[j] == b2[j] by {
                lemma_rewrite_untouched(b, slots, kind, j);
            }
            lemma_reparse_geometry(b, b2, 0);
        },
        Parsed::Fail { err } => {},
    }
}

/// Reads the 8 bytes at `off` in the given order, yielding their
/// little-endian form.
fn read_coord(buf: &Vec<u8>, off: usize, big: bool) -> (r: Vec<u8>)
    requires
        off + 8 <= buf@.len(),
    ensures
        r@ == le_of(buf@.subrange(off as int, off as int + 8), big),
        r@.len() == 8,
{
    let blen: usize = buf.len();
    let mut r: Vec<u8> = Vec::new();
    let mut j: usize = 0;
    while j < 8
        invariant
            off + 8 <= blen,
            blen == buf@.len(),
            j <= 8,
            r@.len() == j,
            forall|t: int|
                0 <= t < j ==> r@[t] == (if big {
                    buf@[off + 7 - t]
                } else {
                    buf@[off + t]
                }),
        decreases 8 - j,
    {
        if big {
            r.push(buf[off + 7 - j]);
        } else {
            r.push(buf[off + j]);
        }
        j = j + 1;
    }
    proof {
        assert(r@ =~= le_of(buf@.subrange(off as int, off as int + 8), big));
    }
    r
}

/// Writes the 8 little-endian bytes of `v` at `off` in the given order; no
/// other byte changes.
fn write_coord(buf: &mut Vec<u8>, off: usize, big: bool, v: &Vec<u8>)
    requires
        v@.len() == 8,
        off + 8 <= old(buf)@.len(),
    ensures
        final(buf)@.len() == old(buf)@.len(),
        forall|i: int|
            0 <= i < final(buf)@.len() && !(off <= i < off + 8) ==> final(buf)@[i] == old(
                buf,
            )@[i],
        forall|i: int|
            off <= i < off + 8 ==> final(buf)@[i] == (if big {
                v@[off + 7 - i]
            } else {
                v@[i - off]
            }),
{
    let ghost b0 = buf@;
    let blen: usize = buf.len();
    let mut j: usize = 0;
    while j < 8
        invariant
            v@.len() == 8,
            off + 8 <= blen,
            blen == b0.len(),
            buf@.len() == b0.len(),
            j <= 8,
            forall|i: int| 0 <= i < b0.len() && !(off <= i < off + 8) ==> buf@[i] == b0[i],
            forall|i: int|
                off <= i < off + 8 && (if big {
                    off + 7 - i < j
                } else {
                    i - off < j
                }) ==> buf@[i] == (if big {
                    v@[off + 7 - i]
                } else {
                    v@[i - off]
                }),
        decreases 8 - j,
    {
        let p: usize = if big {
            off + 7 - j
        } else {
            off + j
        };
        buf[p] = v[j];
        j = j + 1;
    }
}

/// Rewrites the coordinate tuple at the cursor: X and Y are read in the
/// record's order, converted as (lat = Y, lng = X), written back into the
/// same bytes, and the Z and M ordinates, when present, are skipped without
/// being read or written.
fn transform_coord_tuple(
    buf: &mut Vec<u8>,
    offset: &mut usize,
    endian: Endian,
    has_z: bool,
    has_m: bool,
    kind: TransformKind,
) -> (r: Result<(), EwkbError>)
    requires
        *old(offset) <= old(buf)@.len(),
    ensures
        final(buf)@.len() == old(buf)@.len(),
        *final(offset) <= final(buf)@.len(),
        match r {
            Ok(()) => {
                &&& *old(offset) + tuple_width(has_z, has_m) <= old(buf)@.len()
                &&& *final(offset) == *old(offset) + tuple_width(has_z, has_m)
                &&& final(buf)@ == apply_slot(
                    old(buf)@,
                    CoordSlot { off: *old(offset) as int, big: endian is Big },
                    kind,
                )
            },
            Err(e) => {
                &&& *old(offset) + tuple_width(has_z, has_m) > old(buf)@.len()
                &&& e == EwkbError::UnexpectedEof
            },
        },
{
    let ghost b0 = buf@;
    let x_off = *offset;
    ensure_remaining(buf, x_off, 16)?;
    let blen: usize = buf.len();
    assert(x_off + 16 <= blen);
    let big = match endian {
        Endian::Big => true,
        Endian::Little => false,
    };
    let x_le = read_coord(buf, x_off, big);
    let y_le = read_coord(buf, x_off + 8, big);
    let out = apply_le(kind, &y_le, &x_le);
    write_coord(buf, x_off, big, &out.1);
    write_coord(buf, x_off + 8, big, &out.0);
    proof {
        let slot = CoordSlot { off: x_off as int, big };
        let target = apply_slot(b0, slot, kind);
        assert forall|i: int| 0 <= i < buf@.len() implies buf@[i] == target[i] by {
        }
        assert(buf@ =~= target);
    }
    *offset = x_off + 16;
    if has_z {
        skip_bytes(buf, offset, 8)?;
    }
    if has_m {
        skip_bytes(buf, offset, 8)?;
    }
    Ok(())
}

/// Rewrites a count-prefixed run of coordinate tuples at the cursor.
#[verifier::loop_isolation(false)]
fn transform_point_array(
    buf: &mut Vec<u8>,
    offset: &mut usize,
    endian: Endian,
    has_z: bool,
    has_m: bool,
    kind: TransformKind,
) -> (r: Result<(), EwkbError>)
    requires
        *old(offset) <= old(buf)@.len(),
    ensures
        final(buf)@.len() == old(buf)@.len(),
        *final(offset) <= final(buf)@.len(),
        match r {
            Ok(()) => parse_point_array(
                old(buf)@,
                *old(offset) as int,
                endian is Big,
                has_z,
                has_m,
            ) matches Parsed::Done { end, slots } && end == *final(offset) as int && final(buf)@
                == rewrite_slots(old(buf)@, slots, kind),
            Err(e) => parse_point_array(
                old(buf)@,
                *old(offset) as int,
                endian is Big,
                has_z,
                has_m,
            ) matches Parsed::Fail { err } && err == e,
        },
{
    let ghost b0 = buf@;
    let ghost o0 = *offset as int;
    let ghost big = endian is Big;
    let npoints = read_u32(buf, offset, endian)?;
    let ghost w = tuple_width(has_z, has_m);
    let ghost full = parse_tuples(b0, o0 + 4, npoints as int, big, has_z, has_m);
    let ghost mut done: Seq<CoordSlot> = Seq::empty();
    let mut i: u32 = 0;
    while i < npoints
        invariant
            *old(offset) as int == o0,
            o0 + 4 <= b0.len(),
            i <= npoints,
            buf@.len() == b0.len(),
            *offset <= buf@.len(),
            buf@ == rewrite_slots(b0, done, kind),
            full == parse_tuples(b0, o0 + 4, npoints as int, big, has_z, has_m),
            w == tuple_width(has_z, has_m),
            big == (endian is Big),
            ({
                let rest = parse_tuples(
                    b0,
                    *offset as int,
                    npoints as int - i as int,
                    big,
                    has_z,
                    has_m,
                );
                match rest {
                    Parsed::Done { end, slots } => full == (Parsed::Done {
                        end,
                        slots: done + slots,
                    }),
                    Parsed::Fail { err } => full == rest,
                }
            }),
        decreases npoints - i,
    {
        let ghost cur = *offset as int;
        let ghost curbuf = buf@;
        let ghost rest = parse_tuples(b0, cur, npoints as int - i as int, big, has_z, has_m);
        let res = transform_coord_tuple(buf, offset, endian, has_z, has_m, kind);
        match res {
            Err(e) => {
                proof {
                    assert(cur + w > b0.len());
                    assert(rest == (Parsed::Fail { err: EwkbError::UnexpectedEof }));
                    assert(full == rest);
                }
                return Err(e);
            },
            Ok(()) => {
                proof {
                    let s = CoordSlot { off: cur, big };
                    assert(buf@ == apply_slot(curbuf, s, kind));
                    assert(seq![s].drop_first() =~= Seq::<CoordSlot>::empty());
                    assert(rewrite_slots(apply_slot(curbuf, s, kind), Seq::<CoordSlot>::empty(), kind)
                        == apply_slot(curbuf, s, kind));
                    assert(rewrite_slots(curbuf, seq![s], kind) == apply_slot(curbuf, s, kind));
                    lemma_rewrite_append(b0, done, seq![s], kind);
                    assert(done + seq![s] =~= done.push(s));
                    assert(rewrite_slots(b0, done.push(s), kind) == buf@);
                    let rest2 = parse_tuples(
                        b0,
                        cur + w,
                        npoints as int - i as int - 1,
                        big,
                        has_z,
                        has_m,
                    );
                    match rest2 {
                        Parsed::Done { end, slots } => {
                            assert(rest == (Parsed::Done { end, slots: seq![s] + slots }));
                            assert(done + (seq![s] + slots) =~= done.push(s) + slots);
                        },
                        Parsed::Fail { err } => {
                            assert(rest == rest2);
                        },
                    }
                    done = done.push(s);
                }
                i = i + 1;
            },
        }
    }
    proof {
        assert(parse_tuples(b0, *offset as int, 0, big, has_z, has_m) == (Parsed::Done {
            end: *offset as int,
            slots: Seq::<CoordSlot>::empty(),
        }));
        assert(done + Seq::<CoordSlot>::empty() =~= done);
    }
    Ok(())
}

/// Rewrites a count-prefixed run of rings at the cursor.
#[verifier::loop_isolation(false)]
#[verifier::rlimit(40)]
fn transform_polygon(
    buf: &mut Vec<u8>,
    offset: &mut usize,
    endian: Endian,
    has_z: bool,
    has_m: bool,
    kind: TransformKind,
) -> (r: Result<(), EwkbError>)
    requires
        *old(offset) <= old(buf)@.len(),
    ensures
        final(buf)@.len() == old(buf)@.len(),
        *final(offset) <= final(buf)@.len(),
        match r {
            Ok(()) => parse_ring_list(
                old(buf)@,
                *old(offset) as int,
                endian is Big,
                has_z,
                has_m,
            ) matches Parsed::Done { end, slots } && end == *final(offset) as int && final(buf)@
                == rewrite_slots(old(buf)@, slots, kind),
            Err(e) => parse_ring_list(
                old(buf)@,
                *old(offset) as int,
                endian is Big,
                has_z,
                has_m,
            ) matches Parsed::Fail { err } && err == e,
        },
{
    let ghost b0 = buf@;
    let ghost o0 = *offset as int;
    let ghost big = endian is Big;
    let nrings = read_u32(buf, offset, endian)?;
    let ghost full = parse_rings(b0, o0 + 4, nrings as int, big, has_z, has_m);
    let ghost mut done: Seq<CoordSlot> = Seq::empty();
    let mut i: u32 = 0;
    while i < nrings
        invariant
            i <= nrings,
            buf@.len() == b0.len(),
            *offset <= buf@.len(),
            o0 + 4 <= *offset as int,
            buf@ == rewrite_slots(b0, done, kind),
            forall|j: int| *offset as int <= j < b0.len() ==> buf@[j] == b0[j],
            forall|k: int| 0 <= k < done.len() ==> (#[trigger] done[k]).off + 16 <= *offset as int,
            ({
                let rest = parse_rings(
                    b0,
                    *offset as int,
                    nrings as int - i as int,
                    big,
                    has_z,
                    has_m,
                );
                match rest {
                    Parsed::Done { end, slots } => full == (Parsed::Done {
                        end,
                        slots: done + slots,
                    }),
                    Parsed::Fail { err } => full == rest,
                }
            }),
        decreases nrings - i,
    {
        let ghost cur = *offset as int;
        let ghost curbuf = buf@;
        let ghost rest = parse_rings(b0, cur, nrings as int - i as int, big, has_z, has_m);
        proof {
            lemma_parse_point_array_agree(b0, curbuf, cur, big, has_z, has_m);
            lemma_parse_point_array_bounds(b0, cur, big, has_z, has_m);
        }
        let res = transform_point_array(buf, offset, endian, has_z, has_m, kind);
        match res {
            Err(e) => {
                return Err(e);
            },
            Ok(()) => {
                proof {
                    match parse_point_array(b0, cur, big, has_z, has_m) {
                        Parsed::Done { end: e1, slots: s1 } => {
                            lemma_rewrite_append(b0, done, s1, kind);
                            assert forall|j: int|
                                *offset as int <= j < b0.len() implies buf@[j] == b0[j] by {
                                lemma_rewrite_untouched(curbuf, s1, kind, j);
                            }
                            match parse_rings(b0, e1, nrings as int - i as int - 1, big, has_z,
                                has_m) {
                                Parsed::Done { end: e2, slots: s2 } => {
                                    assert(done + (s1 + s2) =~= (done + s1) + s2);
                                },
                                Parsed::Fail { err } => {},
                            }
                            done = done + s1;
                        },
                        Parsed::Fail { err } => {
                            assert(false);
                        },
                    }
                }
                i = i + 1;
            },
        }
    }
    proof {
        assert(done + Seq::<CoordSlot>::empty() =~= done);
    }
    Ok(())
}

/// Rewrites a count-prefixed run of nested geometries at the cursor.
#[verifier::loop_isolation(false)]
fn transform_collection(
    buf: &mut Vec<u8>,
    offset: &mut usize,
    endian: Endian,
    kind: TransformKind,
) -> (r: Result<(), EwkbError>)
    requires
        *old(offset) <= old(buf)@.len(),
    ensures
        final(buf)@.len() == old(buf)@.len(),
        *final(offset) <= final(buf)@.len(),
        match r {
            Ok(()) => parse_collection(
                old(buf)@,
                *old(offset) as int,
                endian is Big,
            ) matches Parsed::Done { end, slots } && end == *final(offset) as int && final(buf)@
                == rewrite_slots(old(buf)@, slots, kind),
            Err(e) => parse_collection(
                old(buf)@,
                *old(offset) as int,
                endian is Big,
            ) matches Parsed::Fail { err } && err == e,
        },
    decreases old(buf)@.len() - *old(offset), 1int,
{
    let ghost b0 = buf@;
    let ghost o0 = *offset as int;
    let ghost big = endian is Big;
    let ngeoms = read_u32(buf, offset, endian)?;
    let ghost full = parse_geoms(b0, o0 + 4, ngeoms as int);
    let ghost mut done: Seq<CoordSlot> = Seq::empty();
    let mut i: u32 = 0;
    while i < ngeoms
        invariant
            i <= ngeoms,
            buf@.len() == b0.len(),
            *offset <= buf@.len(),
            o0 + 4 <= *offset as int,
            buf@ == rewrite_slots(b0, done, kind),
            forall|j: int| *offset as int <= j < b0.len() ==> buf@[j] == b0[j],
            forall|k: int| 0 <= k < done.len() ==> (#[trigger] done[k]).off + 16 <= *offset as int,
            ({
                let rest = parse_geoms(b0, *offset as int, ngeoms as int - i as int);
                match rest {
                    Parsed::Done { end, slots } => full == (Parsed::Done {
                        end,
                        slots: done + slots,
                    }),
                    Parsed::Fail { err } => full == rest,
                }
            }),
        decreases ngeoms - i,
    {
        let ghost cur = *offset as int;
        let ghost curbuf = buf@;
        proof {
            lemma_parse_geometry_agree(b0, curbuf, cur);
            lemma_parse_geometry_bounds(b0, cur);
        }
        let res = transform_geometry(buf, offset, kind);
        match res {
            Err(e) => {
                return Err(e);
            },
            Ok(()) => {
                proof {
                    match parse_geometry(b0, cur) {
                        Parsed::Done { end: e1, slots: s1 } => {
                            lemma_rewrite_append(b0, done, s1, kind);
                            assert forall|j: int|
                                *offset as int <= j < b0.len() implies buf@[j] == b0[j] by {
                                lemma_rewrite_untouched(curbuf, s1, kind, j);
                            }
                            match parse_geoms(b0, e1, ngeoms as int - i as int - 1) {
                                Parsed::Done { end: e2, slots: s2 } => {
                                    assert(done + (s1 + s2) =~= (done + s1) + s2);
                                },
                                Parsed::Fail { err } => {},
                            }
                            done = done + s1;
                        },
                        Parsed::Fail { err } => {
                            assert(false);
                        },
                    }
                }
                i = i + 1;
            },
        }
    }
    proof {
        assert(done + Seq::<CoordSlot>::empty() =~= done);
    }
    Ok(())
}

/// Rewrites one geometry record at the cursor: its header is read, an SRID
/// is skipped unchanged when flagged, and its payload is dispatched on the
/// base type code.
#[verifier::loop_isolation(false)]
fn transform_geometry(buf: &mut Vec<u8>, offset: &mut usize, kind: TransformKind) -> (r: Result<
    (),
    EwkbError,
>)
    requires
        *old(offset) <= old(buf)@.len(),
    ensures
        final(buf)@.len() == old(buf)@.len(),
        *final(offset) <= final(buf)@.len(),
        match r {
            Ok(()) => parse_geometry(old(buf)@, *old(offset) as int) matches Parsed::Done {
                end,
                slots,
            } && end == *final(offset) as int && final(buf)@ == rewrite_slots(
                old(buf)@,
                slots,
                kind,
            ),
            Err(e) => parse_geometry(old(buf)@, *old(offset) as int) matches Parsed::Fail { err }
                && err == e,
        },
    decreases old(buf)@.len() - *old(offset), 0int,
{
    let ghost b0 = buf@;
    let ghost o0 = *offset as int;
    let marker = read_u8(buf, offset)?;
    let endian = Endian::from_marker(marker)?;
    let ghost big = endian is Big;
    let type_word = read_u32(buf, offset, endian)?;
    let has_z = (type_word & EWKB_Z) != 0;
    let has_m = (type_word & EWKB_M) != 0;
    let has_srid = (type_word & EWKB_SRID) != 0;
    let gtype = type_word & EWKB_TYPE_MASK;
    if has_srid {
        let _srid = read_u32(buf, offset, endian)?;
    }
    let ghost pay = *offset as int;
    match gtype {
        1 => {
            let res = transform_coord_tuple(buf, offset, endian, has_z, has_m, kind);
            proof {
                if res is Ok {
                    let s = CoordSlot { off: pay, big };
                    let ss = seq![s];
                    assert(ss.len() == 1);
                    assert(ss[0] == s);
                    assert(ss.drop_first() =~= Seq::<CoordSlot>::empty());
                    let b1 = apply_slot(b0, s, kind);
                    assert(rewrite_slots(b1, Seq::<CoordSlot>::empty(), kind) == b1);
                    assert(rewrite_slots(b0, ss, kind) == rewrite_slots(b1, ss.drop_first(), kind));
                    assert(rewrite_slots(b0, ss, kind) == b1);
                }
            }
            res
        },
        2 | 8 | 13 => transform_point_array(buf, offset, endian, has_z, has_m, kind),
        3 | 17 => transform_polygon(buf, offset, endian, has_z, has_m, kind),
        4 | 5 | 6 | 7 | 9 | 10 | 11 | 12 | 14 | 15 | 16 => transform_collection(
            buf,
            offset,
            endian,
            kind,
        ),
        _ => Err(EwkbError::UnsupportedType(gtype)),
    }
}

/// Rewrites every coordinate tuple of the single EWKB geometry that fills
/// the buffer, leaving every structural byte unchanged.  On failure the
/// exact parse error is returned; tuples already rewritten before the
/// failure stay rewritten, so the buffer must then be treated as invalid.
#[verifier::loop_isolation(false)]
pub fn transform_ewkb_in_place(buf: &mut Vec<u8>, kind: TransformKind) -> (r: Result<
    (),
    EwkbError,
>)
    ensures
        final(buf)@.len() == old(buf)@.len(),
        match parse_top(old(buf)@) {
            Parsed::Done { end, slots } => r == Ok::<(), EwkbError>(()) && final(buf)@
                == rewrite_slots(old(buf)@, slots, kind),
            Parsed::Fail { err } => r == Err::<(), EwkbError>(err),
        },
{
    let ghost b0 = buf@;
    let mut offset: usize = 0;
    proof {
        lemma_parse_geometry_bounds(b0, 0);
    }
    match transform_geometry(buf, &mut offset, kind) {
        Err(e) => Err(e),
        Ok(()) => {
            if offset != buf.len() {
                Err(EwkbError::TrailingData(buf.len() - offset))
            } else {
                Ok(())
            }
        },
    }
}

} // verus!
