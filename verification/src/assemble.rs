//! Assembling a record's rings into a polygon with holes: with several
//! rings, the one with the largest bounding-box area becomes the exterior
//! and the rest become holes. This is an area heuristic, not a topological
//! nesting test; it misclassifies records with more than one genuinely
//! disjoint outer ring.

use vstd::prelude::*;

use crate::geometry::Coord;
use crate::geometry::Ring;
use crate::geometry::Polygon;
use crate::geometry::axis_val;
use crate::geometry::ring_in_range;

verus! {

/// The least component on axis `ax` among the first `n` vertices.
pub open spec fn fold_lo(r: Seq<Coord>, ax: int, n: int) -> i64
    decreases n,
{
    if n <= 1 {
        axis_val(r[0], ax)
    } else {
        let p = fold_lo(r, ax, n - 1);
        let v = axis_val(r[n - 1], ax);
        if v < p {
            v
        } else {
            p
        }
    }
}

/// The greatest component on axis `ax` among the first `n` vertices.
pub open spec fn fold_hi(r: Seq<Coord>, ax: int, n: int) -> i64
    decreases n,
{
    if n <= 1 {
        axis_val(r[0], ax)
    } else {
        let p = fold_hi(r, ax, n - 1);
        let v = axis_val(r[n - 1], ax);
        if v > p {
            v
        } else {
            p
        }
    }
}

/// The area of the ring's bounding box; an empty ring has area 0.
pub open spec fn ring_bbox_area(r: Seq<Coord>) -> int {
    if r.len() == 0 {
        0
    } else {
        (fold_hi(r, 0, r.len() as int) - fold_lo(r, 0, r.len() as int)) * (fold_hi(
            r,
            1,
            r.len() as int,
        ) - fold_lo(r, 1, r.len() as int))
    }
}

/// Computes `ring_bbox_area` by one scan over the vertices.
pub fn bbox_area(r: &Ring) -> (a: i128)
    requires
        ring_in_range(r@),
    ensures
        a as int == ring_bbox_area(r@),
        a >= 0,
{
    let n = r.0.len();
    if n == 0 {
        return 0;
    }
    let mut lox = r.0[0].x;
    let mut hix = r.0[0].x;
    let mut loy = r.0[0].y;
    let mut hiy = r.0[0].y;
    let mut i: usize = 1;
    while i < n
        invariant
            1 <= i <= n,
            n == r@.len(),
            ring_in_range(r@),
            lox == fold_lo(r@, 0, i as int),
            hix == fold_hi(r@, 0, i as int),
            loy == fold_lo(r@, 1, i as int),
            hiy == fold_hi(r@, 1, i as int),
            -crate::geometry::COORD_LIMIT <= lox <= hix <= crate::geometry::COORD_LIMIT,
            -crate::geometry::COORD_LIMIT <= loy <= hiy <= crate::geometry::COORD_LIMIT,
        decreases n - i,
    {
        let c = r.0[i];
        if c.x < lox {
            lox = c.x;
        }
        if c.x > hix {
            hix = c.x;
        }
        if c.y < loy {
            loy = c.y;
        }
        if c.y > hiy {
            hiy = c.y;
        }
        i += 1;
    }
    proof {
        assert((hix as i128 - lox as i128) * (hiy as i128 - loy as i128) >= 0 && (hix as i128
            - lox as i128) * (hiy as i128 - loy as i128) <= 0x10_0000_0000_0000_0000_0000
            && (hix as i128 - lox as i128) * (hiy as i128 - loy as i128) == (hix - lox) * (hiy
            - loy)) by (nonlinear_arith)
            requires
                0 <= (hix as i128 - lox as i128) <= 0x100_0000_0000,
                0 <= (hiy as i128 - loy as i128) <= 0x100_0000_0000,
        ;
    }
    (hix as i128 - lox as i128) * (hiy as i128 - loy as i128)
}

/// The index of the ring with the greatest bounding-box area among the
/// first `n`; on ties the later ring wins.
pub open spec fn max_area_idx(rings: Seq<Ring>, n: int) -> int
    decreases n,
{
    if n <= 1 {
        0
    } else {
        let p = max_area_idx(rings, n - 1);
        if ring_bbox_area(rings[n - 1]@) >= ring_bbox_area(rings[p]@) {
            n - 1
        } else {
            p
        }
    }
}

pub proof fn lemma_max_area_idx(rings: Seq<Ring>, n: int)
    requires
        1 <= n <= rings.len(),
    ensures
        0 <= max_area_idx(rings, n) < n,
        forall|k: int|
            0 <= k < n ==> ring_bbox_area(rings[max_area_idx(rings, n)]@) >= ring_bbox_area(
                #[trigger] rings[k]@,
            ),
    decreases n,
{
    if n > 1 {
        lemma_max_area_idx(rings, n - 1);
    }
}

/// Builds a polygon from a record's rings: none gives the empty polygon,
/// one gives an exterior without holes, several give the ring of largest
/// bounding-box area as exterior (later rings win ties) and all remaining
/// rings, in their original order, as holes — whatever the order of the
/// rings in the record.
pub fn polygon_from_rings(rings: Vec<Ring>) -> (out: Polygon)
    requires
        forall|k: int| 0 <= k < rings@.len() ==> ring_in_range(#[trigger] rings@[k]@),
    ensures
        rings@.len() == 0 ==> out.exterior@.len() == 0 && out.interiors@.len() == 0,
        rings@.len() == 1 ==> out.exterior == rings@[0] && out.interiors@.len() == 0,
        rings@.len() >= 2 ==> {
            let idx = max_area_idx(rings@, rings@.len() as int);
            out.exterior == rings@[idx] && out.interiors@ == rings@.remove(idx)
        },
        forall|k: int|
            0 <= k < rings@.len() ==> ring_bbox_area(out.exterior@) >= ring_bbox_area(
                #[trigger] rings@[k]@,
            ),
{
    let mut rings = rings;
    let n = rings.len();
    if n == 0 {
        return Polygon { exterior: Ring(Vec::new()), interiors: Vec::new() };
    }
    if n == 1 {
        let ext = rings.remove(0);
        proof {
            assert(ring_bbox_area(ext@) >= ring_bbox_area(ext@));
        }
        return Polygon { exterior: ext, interiors: Vec::new() };
    }
    let mut best: usize = 0;
    let mut best_area: i128 = bbox_area(&rings[0]);
    let mut i: usize = 1;
    while i < n
        invariant
            1 <= i <= n,
            n == rings@.len(),
            forall|k: int| 0 <= k < rings@.len() ==> ring_in_range(#[trigger] rings@[k]@),
            best as int == max_area_idx(rings@, i as int),
            0 <= best < i,
            best_area as int == ring_bbox_area(rings@[best as int]@),
        decreases n - i,
    {
        let a = bbox_area(&rings[i]);
        if a >= best_area {
            best = i;
            best_area = a;
        }
        i += 1;
    }
    proof {
        lemma_max_area_idx(rings@, n as int);
    }
    let ext = rings.remove(best);
    Polygon { exterior: ext, interiors: rings }
}

} // verus!
