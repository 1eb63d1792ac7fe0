//! Geometric data types: coordinates, rings, polygons and rectangles.
//!
//! A coordinate component is an `i64` counting units of 1e-7 degree.
//! `COORD_LIMIT` bounds the components of every well-formed value; the
//! bound leaves enough head room that products of two coordinate
//! differences always fit in an `i128`.

use vstd::prelude::*;

verus! {

/// Largest magnitude a coordinate component may take (about 2.7e11 units,
/// i.e. about 27,000 degrees; the world spans 3.6e9 units).
pub const COORD_LIMIT: i64 = 0x40_0000_0000;

/// A position on the flat longitude/latitude plane, in units of
/// 1e-7 degree.
#[derive(Clone, Copy, PartialEq, Eq, Structural, Debug)]
pub struct Coord {
    pub x: i64,
    pub y: i64,
}

/// An ordered sequence of coordinates; a closed ring repeats its first
/// coordinate as its last.
#[derive(Clone, Debug)]
pub struct Ring(pub Vec<Coord>);

/// One exterior ring plus interior rings (holes).
#[derive(Clone, Debug)]
pub struct Polygon {
    pub exterior: Ring,
    pub interiors: Vec<Ring>,
}

/// A set of polygons.
#[derive(Clone, Debug)]
pub struct MultiPolygon(pub Vec<Polygon>);

/// An axis-aligned rectangle, `min` componentwise below `max`.
#[derive(Clone, Copy, PartialEq, Eq, Structural, Debug)]
pub struct Rect {
    pub min: Coord,
    pub max: Coord,
}

impl View for Ring {
    type V = Seq<Coord>;

    open spec fn view(&self) -> Seq<Coord> {
        self.0@
    }
}

/// The component of `c` on axis `ax` (0 selects x, 1 selects y).
pub open spec fn axis_val(c: Coord, ax: int) -> i64 {
    if ax == 0 {
        c.x
    } else {
        c.y
    }
}

pub open spec fn in_range(v: i64) -> bool {
    -COORD_LIMIT <= v <= COORD_LIMIT
}

pub open spec fn coord_in_range(c: Coord) -> bool {
    in_range(c.x) && in_range(c.y)
}

/// Every coordinate of the ring is within the global bound.
pub open spec fn ring_in_range(r: Seq<Coord>) -> bool {
    forall|i: int| 0 <= i < r.len() ==> coord_in_range(#[trigger] r[i])
}

/// A non-empty closed ring ends where it starts.
pub open spec fn ring_closed(r: Seq<Coord>) -> bool {
    r.len() > 0 ==> r[0] == r[r.len() - 1]
}

pub open spec fn polygon_in_range(p: Polygon) -> bool {
    &&& ring_in_range(p.exterior@)
    &&& forall|i: int| 0 <= i < p.interiors@.len() ==> ring_in_range(#[trigger] p.interiors@[i]@)
}

pub open spec fn multi_polygon_in_range(m: MultiPolygon) -> bool {
    forall|i: int| 0 <= i < m.0@.len() ==> polygon_in_range(#[trigger] m.0@[i])
}

pub open spec fn rect_wf(r: Rect) -> bool {
    &&& coord_in_range(r.min)
    &&& coord_in_range(r.max)
    &&& r.min.x <= r.max.x
    &&& r.min.y <= r.max.y
}

/// Every vertex of the ring lies within `[k1, k2]` on axis `ax`.
pub open spec fn ring_within(r: Seq<Coord>, ax: int, k1: i64, k2: i64) -> bool {
    forall|i: int| 0 <= i < r.len() ==> k1 <= axis_val(#[trigger] r[i], ax) <= k2
}

/// The closed ring tracing the boundary of `rect`, counter-clockwise from
/// its minimum corner.
pub open spec fn rect_ring(rect: Rect) -> Seq<Coord> {
    seq![
        Coord { x: rect.min.x, y: rect.min.y },
        Coord { x: rect.max.x, y: rect.min.y },
        Coord { x: rect.max.x, y: rect.max.y },
        Coord { x: rect.min.x, y: rect.max.y },
        Coord { x: rect.min.x, y: rect.min.y },
    ]
}

/// Builds the boundary ring of `rect` as an owned value.
pub fn rect_to_ring(rect: &Rect) -> (r: Ring)
    ensures
        r@ == rect_ring(*rect),
{
    let v: Vec<Coord> = vec![
        Coord { x: rect.min.x, y: rect.min.y },
        Coord { x: rect.max.x, y: rect.min.y },
        Coord { x: rect.max.x, y: rect.max.y },
        Coord { x: rect.min.x, y: rect.max.y },
        Coord { x: rect.min.x, y: rect.min.y },
    ];
    proof {
        assert(v@ =~= rect_ring(*rect));
    }
    Ring(v)
}

} // verus!
