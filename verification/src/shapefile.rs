//! Binary shape decoder: parses a byte buffer into polygon shape records.
//!
//! The buffer holds a header (big-endian magic 9994, 24 reserved bytes, a
//! little-endian version that must be 1000, a little-endian shape type
//! that must be 5 — polygon — and 64 further header bytes), followed by
//! one or more records: a 4-byte record index (ignored), a big-endian
//! length in 16-bit words bounding the record's content, and within it the
//! shape type (again 5), a bounding rectangle as four little-endian
//! 64-bit values, little-endian part and point counts, the part-offset
//! array and the point array. Decoding is all-or-nothing: any mismatch or
//! truncation rejects the whole buffer.
//!
//! The 64-bit fields carry the bit patterns of the file's floating-point
//! values; the decoder hands them out as raw `u64` bits and leaves their
//! numeric reading to the caller.

use vstd::prelude::*;

use crate::geometry::Coord;
use crate::geometry::Ring;

verus! {

/// One point of a record, as two raw 64-bit little-endian bit patterns.
#[derive(Clone, Copy, PartialEq, Eq, Structural, Debug)]
pub struct PointBits {
    pub x: u64,
    pub y: u64,
}

/// One decoded shape record: the bounding rectangle's four values as raw
/// bits (min x, min y, max x, max y), the part-offset array and the point
/// array.
#[derive(Clone, Debug)]
pub struct ShapeRecord {
    pub bbox_bits: [u64; 4],
    pub parts: Vec<u32>,
    pub point_bits: Vec<PointBits>,
}

/// The mathematical content of a record.
pub struct ShapeRecordView {
    pub bbox_bits: Seq<u64>,
    pub parts: Seq<u32>,
    pub point_bits: Seq<PointBits>,
}

impl View for ShapeRecord {
    type V = ShapeRecordView;

    open spec fn view(&self) -> ShapeRecordView {
        ShapeRecordView { bbox_bits: self.bbox_bits@, parts: self.parts@, point_bits: self.point_bits@ }
    }
}

/// A decoded file: its records, in order.
#[derive(Debug)]
pub struct Shapefile {
    pub records: Vec<ShapeRecord>,
}

/// The little-endian 32-bit value at `off`.
#[verifier::opaque]
pub open spec fn le_u32_at(b: Seq<u8>, off: int) -> u32 {
    (b[off] + b[off + 1] * 0x100 + b[off + 2] * 0x1_0000 + b[off + 3] * 0x100_0000) as u32
}

/// The big-endian 32-bit value at `off`.
#[verifier::opaque]
pub open spec fn be_u32_at(b: Seq<u8>, off: int) -> u32 {
    (b[off + 3] + b[off + 2] * 0x100 + b[off + 1] * 0x1_0000 + b[off] * 0x100_0000) as u32
}

/// The little-endian 64-bit value at `off`.
#[verifier::opaque]
pub open spec fn le_u64_at(b: Seq<u8>, off: int) -> u64 {
    (b[off] + b[off + 1] * 0x100 + b[off + 2] * 0x1_0000 + b[off + 3] * 0x100_0000 + b[off + 4]
        * 0x1_0000_0000 + b[off + 5] * 0x100_0000_0000 + b[off + 6] * 0x1_0000_0000_0000 + b[off
        + 7] * 0x100_0000_0000_0000) as u64
}

fn read_le_u32(b: &Vec<u8>, off: usize) -> (r: u32)
    requires
        off + 4 <= b@.len(),
    ensures
        r == le_u32_at(b@, off as int),
{
    let n = b.len();
    proof {
        assert(off + 4 <= n);
        reveal(le_u32_at);
    }
    (b[off] as u32) + (b[off + 1] as u32) * 0x100 + (b[off + 2] as u32) * 0x1_0000 + (b[off
        + 3] as u32) * 0x100_0000
}

fn read_be_u32(b: &Vec<u8>, off: usize) -> (r: u32)
    requires
        off + 4 <= b@.len(),
    ensures
        r == be_u32_at(b@, off as int),
{
    let n = b.len();
    proof {
        assert(off + 4 <= n);
        reveal(be_u32_at);
    }
    (b[off + 3] as u32) + (b[off + 2] as u32) * 0x100 + (b[off + 1] as u32) * 0x1_0000 + (
    b[off] as u32) * 0x100_0000
}

fn read_le_u64(b: &Vec<u8>, off: usize) -> (r: u64)
    requires
        off + 8 <= b@.len(),
    ensures
        r == le_u64_at(b@, off as int),
{
    let n = b.len();
    proof {
        assert(off + 8 <= n);
        reveal(le_u64_at);
    }
    (b[off] as u64) + (b[off + 1] as u64) * 0x100 + (b[off + 2] as u64) * 0x1_0000 + (b[off
        + 3] as u64) * 0x100_0000 + (b[off + 4] as u64) * 0x1_0000_0000 + (b[off + 5] as u64)
        * 0x100_0000_0000 + (b[off + 6] as u64) * 0x1_0000_0000_0000 + (b[off + 7] as u64)
        * 0x100_0000_0000_0000
}

/// Part offsets are strictly increasing and never beyond the point count.
pub open spec fn parts_ok(parts: Seq<u32>, npt: int) -> bool {
    forall|i: int|
        0 <= i < parts.len() ==> #[trigger] parts[i] <= npt && (i + 1 < parts.len() ==> parts[i]
            < parts[i + 1])
}

/// The file header is valid: magic, version and polygon shape type.
pub open spec fn shp_header_ok(b: Seq<u8>) -> bool {
    &&& b.len() >= 100
    &&& be_u32_at(b, 0) == 9994
    &&& le_u32_at(b, 28) == 1000
    &&& le_u32_at(b, 32) == 5
}

/// One record decoded at `off`: its content and the offset just after it,
/// or nothing if the record is malformed or truncated.
#[verifier::opaque]
pub open spec fn record_at(b: Seq<u8>, off: int) -> Option<(ShapeRecordView, int)> {
    if off + 8 > b.len() {
        None
    } else {
        let words = be_u32_at(b, off + 4);
        let content = 2 * (words as int);
        let c0 = off + 8;
        if words > 0x7FFF_FFFF || c0 + content > b.len() || content < 44 {
            None
        } else if le_u32_at(b, c0) != 5 {
            None
        } else {
            let np = le_u32_at(b, c0 + 36) as int;
            let npt = le_u32_at(b, c0 + 40) as int;
            if 44 + 4 * np + 16 * npt > content {
                None
            } else {
                let parts = Seq::new(np as nat, |i: int| le_u32_at(b, c0 + 44 + 4 * i));
                if !parts_ok(parts, npt) {
                    None
                } else {
                    Some(
                        (
                            ShapeRecordView {
                                bbox_bits: Seq::new(4, |i: int| le_u64_at(b, c0 + 4 + 8 * i)),
                                parts,
                                point_bits: Seq::new(
                                    npt as nat,
                                    |i: int|
                                        PointBits {
                                            x: le_u64_at(b, c0 + 44 + 4 * np + 16 * i),
                                            y: le_u64_at(b, c0 + 44 + 4 * np + 16 * i + 8),
                                        },
                                ),
                            },
                            c0 + content,
                        ),
                    )
                }
            }
        }
    }
}

/// All records from `off` to the end of the buffer; the whole remainder
/// must decode.
pub open spec fn records_from(b: Seq<u8>, off: int) -> Option<Seq<ShapeRecordView>>
    decreases b.len() - off,
{
    if off == b.len() {
        Some(Seq::empty())
    } else {
        match record_at(b, off) {
            None => None,
            Some((rv, next)) => if next <= off || next > b.len() {
                None
            } else {
                match records_from(b, next) {
                    None => None,
                    Some(rest) => Some(seq![rv] + rest),
                }
            },
        }
    }
}

/// The whole decode: a valid header followed by one or more records that
/// consume the entire buffer.
pub open spec fn shp_records_spec(b: Seq<u8>) -> Option<Seq<ShapeRecordView>> {
    if !shp_header_ok(b) {
        None
    } else {
        match records_from(b, 100) {
            None => None,
            Some(rs) => if rs.len() >= 1 {
                Some(rs)
            } else {
                None
            },
        }
    }
}

/// The views of a sequence of records.
pub open spec fn record_views(s: Seq<ShapeRecord>) -> Seq<ShapeRecordView> {
    s.map_values(|x: ShapeRecord| x@)
}

/// The record-content sequences that `record_at` reads at `off`.
pub open spec fn rec_parts_at(b: Seq<u8>, off: int) -> Seq<u32> {
    Seq::new(
        (le_u32_at(b, off + 8 + 36) as int) as nat,
        |j: int| le_u32_at(b, off + 8 + 44 + 4 * j),
    )
}

proof fn lemma_record_none(b: Seq<u8>, off: int)
    requires
        0 <= off <= b.len(),
        off + 8 > b.len() || be_u32_at(b, off + 4) > 0x7FFF_FFFF || off + 8 + 2 * (be_u32_at(
            b,
            off + 4,
        ) as int) > b.len() || 2 * (be_u32_at(b, off + 4) as int) < 44 || le_u32_at(b, off + 8)
            != 5 || 44 + 4 * (le_u32_at(b, off + 8 + 36) as int) + 16 * (le_u32_at(
            b,
            off + 8 + 40,
        ) as int) > 2 * (be_u32_at(b, off + 4) as int) || !parts_ok(
            rec_parts_at(b, off),
            le_u32_at(b, off + 8 + 40) as int,
        ),
    ensures
        record_at(b, off) is None,
{
    reveal(record_at);
}

proof fn lemma_record_some(b: Seq<u8>, off: int, rv: ShapeRecordView)
    requires
        0 <= off,
        off + 8 <= b.len(),
        be_u32_at(b, off + 4) <= 0x7FFF_FFFF,
        off + 8 + 2 * (be_u32_at(b, off + 4) as int) <= b.len(),
        2 * (be_u32_at(b, off + 4) as int) >= 44,
        le_u32_at(b, off + 8) == 5,
        44 + 4 * (le_u32_at(b, off + 8 + 36) as int) + 16 * (le_u32_at(b, off + 8 + 40) as int)
            <= 2 * (be_u32_at(b, off + 4) as int),
        parts_ok(rec_parts_at(b, off), le_u32_at(b, off + 8 + 40) as int),
        rv.parts == rec_parts_at(b, off),
        rv.bbox_bits == Seq::new(4, |j: int| le_u64_at(b, off + 8 + 4 + 8 * j)),
        rv.point_bits == Seq::new(
            (le_u32_at(b, off + 8 + 40) as int) as nat,
            |j: int|
                PointBits {
                    x: le_u64_at(
                        b,
                        off + 8 + 44 + 4 * (le_u32_at(b, off + 8 + 36) as int) + 16 * j,
                    ),
                    y: le_u64_at(
                        b,
                        off + 8 + 44 + 4 * (le_u32_at(b, off + 8 + 36) as int) + 16 * j + 8,
                    ),
                },
        ),
    ensures
        record_at(b, off) matches Some(q) && q.0 == rv && q.1 == off + 8 + 2 * (be_u32_at(
            b,
            off + 4,
        ) as int),
{
    reveal(record_at);
    let q = record_at(b, off)->Some_0;
    assert(q.0.parts =~= rv.parts);
    assert(q.0.bbox_bits =~= rv.bbox_bits);
    assert(q.0.point_bits =~= rv.point_bits);
}

/// Decodes one record at `off`.
#[verifier::rlimit(60)]
fn parse_record(b: &Vec<u8>, off: usize) -> (r: Option<(ShapeRecord, usize)>)
    requires
        off <= b@.len(),
    ensures
        r matches Some(p) ==> (record_at(b@, off as int) matches Some(q) && p.0@ == q.0
            && p.1 as int == q.1 && off < p.1 <= b@.len()),
        r is None ==> record_at(b@, off as int) is None,
{
    let n = b.len();
    if n - off < 8 {
        proof {
            lemma_record_none(b@, off as int);
        }
        return None;
    }
    let words = read_be_u32(b, off + 4);
    if words > 0x7FFF_FFFF {
        proof {
            lemma_record_none(b@, off as int);
        }
        return None;
    }
    let content: usize = 2 * (words as usize);
    if content > n - (off + 8) || content < 44 {
        proof {
            lemma_record_none(b@, off as int);
        }
        return None;
    }
    let c0 = off + 8;
    if read_le_u32(b, c0) != 5 {
        proof {
            lemma_record_none(b@, off as int);
        }
        return None;
    }
    let np32 = read_le_u32(b, c0 + 36);
    let npt32 = read_le_u32(b, c0 + 40);
    if 44u64 + 4 * (np32 as u64) + 16 * (npt32 as u64) > content as u64 {
        proof {
            lemma_record_none(b@, off as int);
        }
        return None;
    }
    let np = np32 as usize;
    let npt = npt32 as usize;
    proof {
        assert(c0 + 44 + 4 * (np as int) + 16 * (npt as int) <= b@.len());
    }
    let bbox_bits: [u64; 4] = [
        read_le_u64(b, c0 + 4),
        read_le_u64(b, c0 + 12),
        read_le_u64(b, c0 + 20),
        read_le_u64(b, c0 + 28),
    ];
    let mut parts: Vec<u32> = Vec::new();
    let mut i: usize = 0;
    while i < np
        invariant
            0 <= i <= np,
            n == b@.len(),
            c0 == off + 8,
            c0 + 44 + 4 * (np as int) + 16 * (npt as int) <= n,
            parts@.len() == i,
            forall|j: int| 0 <= j < i ==> #[trigger] parts@[j] == le_u32_at(b@, c0 + 44 + 4 * j),
        decreases np - i,
    {
        let v = read_le_u32(b, c0 + 44 + 4 * i);
        parts.push(v);
        i += 1;
    }
    proof {
        assert(parts@ =~= rec_parts_at(b@, off as int));
    }
    // validate the data-model invariant of the part offsets
    let mut i: usize = 0;
    while i < np
        invariant
            0 <= i <= np,
            off <= b@.len(),
            np == parts@.len(),
            np == np32 as int,
            npt == npt32 as int,
            npt32 == le_u32_at(b@, off as int + 8 + 40),
            parts@ == rec_parts_at(b@, off as int),
            forall|j: int|
                0 <= j < i ==> #[trigger] parts@[j] <= npt32 && (j + 1 < parts@.len()
                    ==> parts@[j] < parts@[j + 1]),
        decreases np - i,
    {
        let bad1 = parts[i] > npt32;
        let bad2 = i + 1 < np && parts[i] >= parts[i + 1];
        if bad1 || bad2 {
            proof {
                assert(!parts_ok(rec_parts_at(b@, off as int), npt32 as int));
                lemma_record_none(b@, off as int);
            }
            return None;
        }
        i += 1;
    }
    proof {
        assert(parts_ok(rec_parts_at(b@, off as int), npt32 as int));
    }
    let mut point_bits: Vec<PointBits> = Vec::new();
    let mut i: usize = 0;
    let pts0 = c0 + 44 + 4 * np;
    while i < npt
        invariant
            0 <= i <= npt,
            n == b@.len(),
            pts0 == c0 + 44 + 4 * (np as int),
            c0 == off + 8,
            pts0 + 16 * (npt as int) <= n,
            point_bits@.len() == i,
            forall|j: int|
                0 <= j < i ==> #[trigger] point_bits@[j] == (PointBits {
                    x: le_u64_at(b@, pts0 + 16 * j),
                    y: le_u64_at(b@, pts0 + 16 * j + 8),
                }),
        decreases npt - i,
    {
        let x = read_le_u64(b, pts0 + 16 * i);
        let y = read_le_u64(b, pts0 + 16 * i + 8);
        point_bits.push(PointBits { x, y });
        i += 1;
    }
    let rec = ShapeRecord { bbox_bits, parts, point_bits };
    proof {
        let so = off as int;
        assert(rec.bbox_bits@ =~= Seq::new(4, |j: int| le_u64_at(b@, so + 8 + 4 + 8 * j)));
        assert(rec.point_bits@ =~= Seq::new(
            (le_u32_at(b@, so + 8 + 40) as int) as nat,
            |j: int|
                PointBits {
                    x: le_u64_at(b@, so + 8 + 44 + 4 * (le_u32_at(b@, so + 8 + 36) as int) + 16
                        * j),
                    y: le_u64_at(
                        b@,
                        so + 8 + 44 + 4 * (le_u32_at(b@, so + 8 + 36) as int) + 16 * j + 8,
                    ),
                },
        ));
        lemma_record_some(b@, so, rec@);
    }
    Some((rec, c0 + content))
}

/// Decodes a whole buffer. Returns the records exactly when the header is
/// valid, at least one record is present, every record is well formed and
/// the records consume the buffer completely; otherwise nothing.
pub fn parse_shp(data: &Vec<u8>) -> (r: Option<Shapefile>)
    ensures
        r matches Some(sf) ==> (shp_records_spec(data@) matches Some(sr) && record_views(
            sf.records@,
        ) =~= sr),
        r is None <==> shp_records_spec(data@) is None,
{
    let n = data.len();
    if n < 100 {
        return None;
    }
    if read_be_u32(data, 0) != 9994 {
        return None;
    }
    if read_le_u32(data, 28) != 1000 {
        return None;
    }
    if read_le_u32(data, 32) != 5 {
        return None;
    }
    let mut records: Vec<ShapeRecord> = Vec::new();
    let mut off: usize = 100;
    proof {
        assert(record_views(records@) =~= Seq::<ShapeRecordView>::empty());
    }
    while off < n
        invariant
            100 <= off <= n,
            n == data@.len(),
            shp_header_ok(data@),
            records_from(data@, 100) matches Some(full) ==> (records_from(data@, off as int)
                matches Some(rest) && full =~= record_views(records@) + rest),
            records_from(data@, 100) is None ==> records_from(data@, off as int) is None,
            records@.len() > 0 || off == 100,
        decreases n - off,
    {
        let ghost off0 = off as int;
        let ghost recs0 = records@;
        match parse_record(data, off) {
            None => {
                proof {
                    assert(records_from(data@, off0) is None);
                }
                return None;
            },
            Some((rec, next)) => {
                proof {
                    let q = record_at(data@, off0)->Some_0;
                    assert(records_from(data@, off0) matches Some(rest0) ==> rest0 =~= seq![q.0]
                        + records_from(data@, q.1)->Some_0);
                }
                records.push(rec);
                off = next;
                proof {
                    assert(record_views(records@) =~= record_views(recs0).push(rec@));
                    if records_from(data@, 100) is Some {
                        let full = records_from(data@, 100)->Some_0;
                        assert(records_from(data@, off0) is Some);
                        let rest0 = records_from(data@, off0)->Some_0;
                        let rest1 = records_from(data@, off as int)->Some_0;
                        assert(rest0 =~= seq![rec@] + rest1);
                        assert(full =~= record_views(recs0) + rest0);
                        assert(full =~= record_views(records@) + rest1);
                    }
                }
            },
        }
    }
    proof {
        assert(records_from(data@, n as int) matches Some(e) && e =~= Seq::<
            ShapeRecordView,
        >::empty());
    }
    if records.len() == 0 {
        return None;
    }
    proof {
        assert(records_from(data@, 100) matches Some(full) && full =~= record_views(records@));
    }
    Some(Shapefile { records })
}

/// The part offsets are strictly increasing and end within the points.
pub open spec fn parts_strictly_increasing(parts: Seq<u32>, n_points: int) -> bool {
    parts_ok(parts, n_points)
}

/// Splits a record's point array into one ring per part: ring `i` spans
/// from offset `parts[i]` to offset `parts[i + 1]` (or to the end for the
/// last part). Points before the first offset belong to no ring.
pub fn record_rings(parts: &Vec<u32>, points: &Vec<Coord>) -> (rings: Vec<Ring>)
    requires
        parts_strictly_increasing(parts@, points@.len() as int),
    ensures
        rings@.len() == parts@.len(),
        forall|i: int|
            0 <= i < parts@.len() ==> #[trigger] rings@[i]@ == points@.subrange(
                parts@[i] as int,
                if i + 1 < parts@.len() {
                    parts@[i + 1] as int
                } else {
                    points@.len() as int
                },
            ),
{
    let np = parts.len();
    let mut rings: Vec<Ring> = Vec::new();
    let mut i: usize = 0;
    while i < np
        invariant
            0 <= i <= np,
            np == parts@.len(),
            parts_strictly_increasing(parts@, points@.len() as int),
            rings@.len() == i,
            forall|j: int|
                0 <= j < i ==> #[trigger] rings@[j]@ == points@.subrange(
                    parts@[j] as int,
                    if j + 1 < parts@.len() {
                        parts@[j + 1] as int
                    } else {
                        points@.len() as int
                    },
                ),
        decreases np - i,
    {
        let start = parts[i] as usize;
        let end = if i + 1 < np {
            parts[i + 1] as usize
        } else {
            points.len()
        };
        let mut ring: Vec<Coord> = Vec::new();
        let mut k: usize = start;
        proof {
            assert(parts@[i as int] <= points@.len());
            if i + 1 < np {
                assert(parts@[i as int] < parts@[i as int + 1]);
                assert(parts@[i as int + 1] <= points@.len());
            }
        }
        while k < end
            invariant
                start <= k <= end,
                end <= points@.len(),
                ring@ =~= points@.subrange(start as int, k as int),
            decreases end - k,
        {
            let p = points[k];
            ring.push(p);
            proof {
                assert(ring@ =~= points@.subrange(start as int, k as int + 1));
            }
            k += 1;
        }
        rings.push(Ring(ring));
        i += 1;
    }
    rings
}

} // verus!
