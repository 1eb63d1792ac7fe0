//! Polygon clipping against an axis-aligned rectangle: two axis-clip
//! passes (x, then y) over the exterior and over each hole, with a
//! containment fallback that substitutes the rectangle itself when the
//! exterior clips away entirely but the polygon surrounds the rectangle.
//! The fallback does not subtract holes from the substituted rectangle.

use vstd::prelude::*;

use crate::geometry::Coord;
use crate::geometry::Ring;
use crate::geometry::Polygon;
use crate::geometry::Rect;
use crate::geometry::rect_wf;
use crate::geometry::rect_ring;
use crate::geometry::rect_to_ring;
use crate::geometry::ring_in_range;
use crate::geometry::ring_within;
use crate::geometry::polygon_in_range;
use crate::geometry::coord_in_range;
use crate::clip::clip_ring_spec;
use crate::clip::clip_line_axis;

verus! {

/// Whether the edge `a -> b` crosses the horizontal ray running from `p`
/// toward positive x. The comparison of the crossing abscissa is done with
/// cross-multiplied exact integer arithmetic.
pub open spec fn edge_crosses(p: Coord, a: Coord, b: Coord) -> bool {
    ((a.y > p.y) != (b.y > p.y)) && {
        let lhs = (p.x - a.x) * (b.y - a.y);
        let rhs = (p.y - a.y) * (b.x - a.x);
        if b.y > a.y {
            lhs < rhs
        } else {
            rhs < lhs
        }
    }
}

/// How many of the first `n` edges of `r` cross the ray from `p`.
pub open spec fn crossings(p: Coord, r: Seq<Coord>, n: int) -> nat
    decreases n,
{
    if n <= 0 {
        0
    } else {
        crossings(p, r, n - 1) + if edge_crosses(p, r[n - 1], r[n]) {
            1nat
        } else {
            0nat
        }
    }
}

/// Even-odd containment: `p` is inside the ring when the ray from `p`
/// crosses its edges an odd number of times.
pub open spec fn point_in_ring_spec(p: Coord, r: Seq<Coord>) -> bool {
    r.len() > 0 && crossings(p, r, r.len() - 1) % 2 == 1
}

/// Decides `point_in_ring_spec` by walking the edges once.
pub fn point_in_ring(p: Coord, r: &Ring) -> (inside: bool)
    requires
        coord_in_range(p),
        ring_in_range(r@),
    ensures
        inside == point_in_ring_spec(p, r@),
{
    let n = r.0.len();
    if n == 0 {
        return false;
    }
    let mut odd = false;
    let mut i: usize = 0;
    while i < n - 1
        invariant
            0 <= i <= n - 1,
            n == r@.len(),
            n >= 1,
            coord_in_range(p),
            ring_in_range(r@),
            odd == (crossings(p, r@, i as int) % 2 == 1),
        decreases n - i,
    {
        let a = r.0[i];
        let b = r.0[i + 1];
        if (a.y > p.y) != (b.y > p.y) {
            proof {
                assert((p.x as i128 - a.x as i128) * (b.y as i128 - a.y as i128) == (p.x - a.x)
                    * (b.y - a.y) && (p.y as i128 - a.y as i128) * (b.x as i128 - a.x as i128) == (
                p.y - a.y) * (b.x - a.x) && -0x10_0000_0000_0000_0000_0000 <= (p.x - a.x) * (b.y
                    - a.y) <= 0x10_0000_0000_0000_0000_0000 && -0x10_0000_0000_0000_0000_0000 <= (
                p.y - a.y) * (b.x - a.x) <= 0x10_0000_0000_0000_0000_0000) by (nonlinear_arith)
                    requires
                        coord_in_range(p),
                        coord_in_range(a),
                        coord_in_range(b),
                ;
            }
            let lhs: i128 = (p.x as i128 - a.x as i128) * (b.y as i128 - a.y as i128);
            let rhs: i128 = (p.y as i128 - a.y as i128) * (b.x as i128 - a.x as i128);
            let hit = if b.y > a.y {
                lhs < rhs
            } else {
                rhs < lhs
            };
            if hit {
                odd = !odd;
            }
        }
        i += 1;
    }
    odd
}

/// The rectangle's region is taken as contained in the polygon when all
/// four of its corners are inside the exterior ring and inside none of the
/// holes, by the even-odd test. This four-corner reading is this crate's
/// rendering of "the polygon topologically contains the rectangle": a
/// heuristic, not an exact topological test, exactly as the ring
/// classification elsewhere is.
pub open spec fn contains_rect_spec(p: Polygon, rect: Rect) -> bool {
    forall|c: Coord|
        #[trigger] rect_corner(rect, c) ==> point_in_ring_spec(c, p.exterior@) && forall|k: int|
            0 <= k < p.interiors@.len() ==> !point_in_ring_spec(c, #[trigger] p.interiors@[k]@)
}

/// The four corners of a rectangle.
pub open spec fn rect_corner(rect: Rect, c: Coord) -> bool {
    ||| c == Coord { x: rect.min.x, y: rect.min.y }
    ||| c == Coord { x: rect.max.x, y: rect.min.y }
    ||| c == Coord { x: rect.max.x, y: rect.max.y }
    ||| c == Coord { x: rect.min.x, y: rect.max.y }
}

/// One corner's test against the exterior and all holes.
fn corner_inside(p: &Polygon, c: Coord) -> (inside: bool)
    requires
        coord_in_range(c),
        polygon_in_range(*p),
    ensures
        inside == (point_in_ring_spec(c, p.exterior@) && forall|k: int|
            0 <= k < p.interiors@.len() ==> !point_in_ring_spec(c, #[trigger] p.interiors@[k]@)),
{
    if !point_in_ring(c, &p.exterior) {
        return false;
    }
    let m = p.interiors.len();
    let mut k: usize = 0;
    while k < m
        invariant
            0 <= k <= m,
            m == p.interiors@.len(),
            coord_in_range(c),
            polygon_in_range(*p),
            point_in_ring_spec(c, p.exterior@),
            forall|j: int| 0 <= j < k ==> !point_in_ring_spec(c, #[trigger] p.interiors@[j]@),
        decreases m - k,
    {
        if point_in_ring(c, &p.interiors[k]) {
            return false;
        }
        k += 1;
    }
    true
}

/// Decides `contains_rect_spec` by testing the four corners.
pub fn contains_rect(p: &Polygon, rect: &Rect) -> (res: bool)
    requires
        polygon_in_range(*p),
        rect_wf(*rect),
    ensures
        res == contains_rect_spec(*p, *rect),
{
    let c1 = Coord { x: rect.min.x, y: rect.min.y };
    let c2 = Coord { x: rect.max.x, y: rect.min.y };
    let c3 = Coord { x: rect.max.x, y: rect.max.y };
    let c4 = Coord { x: rect.min.x, y: rect.max.y };
    let res = corner_inside(p, c1) && corner_inside(p, c2) && corner_inside(p, c3) && corner_inside(
        p,
        c4,
    );
    proof {
        if res {
            assert forall|c: Coord| #[trigger] rect_corner(*rect, c) implies point_in_ring_spec(
                c,
                p.exterior@,
            ) && forall|k: int|
                0 <= k < p.interiors@.len() ==> !point_in_ring_spec(
                    c,
                    #[trigger] p.interiors@[k]@,
                ) by {
                assert(c == c1 || c == c2 || c == c3 || c == c4);
            }
        } else {
            assert(rect_corner(*rect, c1) && rect_corner(*rect, c2) && rect_corner(*rect, c3)
                && rect_corner(*rect, c4));
        }
    }
    res
}

/// Both axis-clip passes over one ring: x against the rectangle's
/// horizontal span, then y against its vertical span.
pub open spec fn clip2_spec(r: Seq<Coord>, rect: Rect) -> Seq<Coord> {
    clip_ring_spec(clip_ring_spec(r, 0, rect.min.x, rect.max.x), 1, rect.min.y, rect.max.y)
}

fn clip_ring_both(r: &Ring, rect: &Rect) -> (out: Ring)
    requires
        ring_in_range(r@),
        rect_wf(*rect),
    ensures
        out@ == clip2_spec(r@, *rect),
        ring_in_range(out@),
        ring_within(out@, 0, rect.min.x, rect.max.x),
        ring_within(out@, 1, rect.min.y, rect.max.y),
{
    let e1 = clip_line_axis(r, 0, rect.min.x, rect.max.x);
    let e2 = clip_line_axis(&e1, 1, rect.min.y, rect.max.y);
    proof {
        assert(ring_within(e1@, 0, rect.min.x, rect.max.x));
        assert(ring_within(e2@, 0, rect.min.x, rect.max.x));
    }
    e2
}

/// Clips the polygon against the rectangle: the exterior and every hole
/// get both axis-clip passes; when the clipped exterior is empty but the
/// polygon contains the rectangle's region, the rectangle's own boundary
/// becomes the exterior (holes are not subtracted from it). No coordinate
/// of the result lies outside the rectangle.
pub fn clip_polygon(polygon: &Polygon, rect: &Rect) -> (out: Polygon)
    requires
        polygon_in_range(*polygon),
        rect_wf(*rect),
    ensures
        out.exterior@ == ({
            let e = clip2_spec(polygon.exterior@, *rect);
            if e.len() == 0 && contains_rect_spec(*polygon, *rect) {
                rect_ring(*rect)
            } else {
                e
            }
        }),
        out.interiors@.len() == polygon.interiors@.len(),
        forall|k: int|
            0 <= k < polygon.interiors@.len() ==> #[trigger] out.interiors@[k]@ == clip2_spec(
                polygon.interiors@[k]@,
                *rect,
            ),
        polygon_in_range(out),
        ring_within(out.exterior@, 0, rect.min.x, rect.max.x),
        ring_within(out.exterior@, 1, rect.min.y, rect.max.y),
        forall|k: int|
            0 <= k < out.interiors@.len() ==> ring_within(
                #[trigger] out.interiors@[k]@,
                0,
                rect.min.x,
                rect.max.x,
            ) && ring_within(out.interiors@[k]@, 1, rect.min.y, rect.max.y),
{
    let clipped = clip_ring_both(&polygon.exterior, rect);
    let exterior = if clipped.0.len() == 0 && contains_rect(polygon, rect) {
        let rr = rect_to_ring(rect);
        proof {
            assert(ring_within(rr@, 0, rect.min.x, rect.max.x));
            assert(ring_within(rr@, 1, rect.min.y, rect.max.y));
            assert(ring_in_range(rr@));
        }
        rr
    } else {
        clipped
    };

    let m = polygon.interiors.len();
    let mut interiors: Vec<Ring> = Vec::new();
    let mut k: usize = 0;
    while k < m
        invariant
            0 <= k <= m,
            m == polygon.interiors@.len(),
            polygon_in_range(*polygon),
            rect_wf(*rect),
            interiors@.len() == k,
            forall|j: int|
                0 <= j < k ==> #[trigger] interiors@[j]@ == clip2_spec(
                    polygon.interiors@[j]@,
                    *rect,
                ) && ring_in_range(interiors@[j]@) && ring_within(
                    interiors@[j]@,
                    0,
                    rect.min.x,
                    rect.max.x,
                ) && ring_within(interiors@[j]@, 1, rect.min.y, rect.max.y),
        decreases m - k,
    {
        let c = clip_ring_both(&polygon.interiors[k], rect);
        interiors.push(c);
        k += 1;
    }
    Polygon { exterior, interiors }
}

} // verus!
