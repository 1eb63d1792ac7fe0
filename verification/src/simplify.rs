//! Effective-area ring simplification for tile emission: vertices whose
//! triangle with their two neighbours encloses less than a tolerance are
//! removed, smallest first, until every remaining vertex matters. A tile
//! is simplified only when its own tolerance, `tile_min_area` (the tile
//! rectangle's area divided by 1024 x 512), exceeds the fixed floor of
//! 1e-5 square degrees; below it the tile keeps full detail. After
//! simplification every ring with fewer than 4 points is dropped, holes
//! included, and a polygon whose exterior is dropped is dropped whole.
//!
//! All areas are doubled in the arithmetic (the cross product gives twice
//! the triangle area), so thresholds are doubled before comparing.

use vstd::prelude::*;

use crate::geometry::Coord;
use crate::geometry::Ring;
use crate::geometry::Polygon;
use crate::geometry::MultiPolygon;
use crate::geometry::Rect;
use crate::geometry::rect_wf;
use crate::geometry::ring_in_range;
use crate::geometry::polygon_in_range;
use crate::geometry::multi_polygon_in_range;
use crate::clip::ring_copy;

verus! {

/// 1e-5 square degrees in squared coordinate units: the smallest
/// per-tile tolerance at which simplification is applied at all.
pub const SIMPLIFY_FLOOR: i64 = 1_000_000_000;

/// The divisor that turns a tile rectangle's area into its tolerance.
pub const AREA_DIVISOR: i64 = 524288;

/// Twice the area of the triangle `(a, b, c)`.
pub open spec fn tri2(a: Coord, b: Coord, c: Coord) -> int {
    let cr = (b.x - a.x) * (c.y - a.y) - (c.x - a.x) * (b.y - a.y);
    if cr < 0 {
        -cr
    } else {
        cr
    }
}

/// Computes `tri2` in machine integers.
fn tri_area2(a: Coord, b: Coord, c: Coord) -> (t: i128)
    requires
        crate::geometry::coord_in_range(a),
        crate::geometry::coord_in_range(b),
        crate::geometry::coord_in_range(c),
    ensures
        t as int == tri2(a, b, c),
        t >= 0,
{
    proof {
        assert((b.x as i128 - a.x as i128) * (c.y as i128 - a.y as i128) == (b.x - a.x) * (c.y
            - a.y) && (c.x as i128 - a.x as i128) * (b.y as i128 - a.y as i128) == (c.x - a.x) * (
        b.y - a.y) && -0x10_0000_0000_0000_0000_0000 <= (b.x - a.x) * (c.y - a.y)
            <= 0x10_0000_0000_0000_0000_0000 && -0x10_0000_0000_0000_0000_0000 <= (c.x - a.x) * (
        b.y - a.y) <= 0x10_0000_0000_0000_0000_0000) by (nonlinear_arith)
            requires
                crate::geometry::coord_in_range(a),
                crate::geometry::coord_in_range(b),
                crate::geometry::coord_in_range(c),
        ;
    }
    let cr: i128 = (b.x as i128 - a.x as i128) * (c.y as i128 - a.y as i128) - (c.x as i128
        - a.x as i128) * (b.y as i128 - a.y as i128);
    if cr < 0 {
        -cr
    } else {
        cr
    }
}

/// The interior vertex with the smallest doubled triangle area among
/// positions 1 to `k`; on ties the earliest wins.
pub open spec fn min_tri_idx(r: Seq<Coord>, k: int) -> int
    decreases k,
{
    if k <= 1 {
        1
    } else {
        let p = min_tri_idx(r, k - 1);
        if tri2(r[k - 1], r[k], r[k + 1]) < tri2(r[p - 1], r[p], r[p + 1]) {
            k
        } else {
            p
        }
    }
}

/// Finds the interior vertex of least doubled triangle area.
fn find_min_vertex(r: &Ring) -> (v: usize)
    requires
        r@.len() >= 4,
        ring_in_range(r@),
    ensures
        v as int == min_tri_idx(r@, r@.len() - 2),
        1 <= v <= r@.len() - 2,
{
    let n = r.0.len();
    let mut best: usize = 1;
    let mut best_t: i128 = tri_area2(r.0[0], r.0[1], r.0[2]);
    let mut k: usize = 2;
    while k <= n - 2
        invariant
            2 <= k <= n - 1,
            n == r@.len(),
            n >= 4,
            ring_in_range(r@),
            1 <= best <= k - 1,
            best as int == min_tri_idx(r@, k as int - 1),
            best_t as int == tri2(r@[best as int - 1], r@[best as int], r@[best as int + 1]),
        decreases n - k,
    {
        let t = tri_area2(r.0[k - 1], r.0[k], r.0[k + 1]);
        if t < best_t {
            best = k;
            best_t = t;
        }
        k += 1;
    }
    best
}

/// Repeatedly removes the interior vertex of least doubled triangle area
/// while that area is below `eps2`; a ring of fewer than 4 points is left
/// alone.
pub open spec fn simplify_ring_spec(r: Seq<Coord>, eps2: int) -> Seq<Coord>
    decreases r.len(),
{
    if r.len() < 4 {
        r
    } else {
        let v = min_tri_idx(r, r.len() - 2);
        if 1 <= v <= r.len() - 2 && tri2(r[v - 1], r[v], r[v + 1]) < eps2 {
            simplify_ring_spec(r.remove(v), eps2)
        } else {
            r
        }
    }
}

/// Simplifies one ring to `simplify_ring_spec`.
pub fn simplify_ring(r: &Ring, eps2: i128) -> (out: Ring)
    requires
        ring_in_range(r@),
    ensures
        out@ == simplify_ring_spec(r@, eps2 as int),
        ring_in_range(out@),
    decreases r.0@.len(),
{
    let n = r.0.len();
    if n < 4 {
        return ring_copy(r);
    }
    let v = find_min_vertex(r);
    let t = tri_area2(r.0[v - 1], r.0[v], r.0[v + 1]);
    if t < eps2 {
        let mut rest: Vec<Coord> = Vec::new();
        let mut j: usize = 0;
        while j < n
            invariant
                0 <= j <= n,
                n == r@.len(),
                1 <= v <= n - 2,
                ring_in_range(r@),
                rest@ =~= if j <= v {
                    r@.subrange(0, j as int)
                } else {
                    r@.subrange(0, v as int) + r@.subrange(v as int + 1, j as int)
                },
            decreases n - j,
        {
            if j != v {
                let c = r.0[j];
                rest.push(c);
            }
            j += 1;
        }
        let rr = Ring(rest);
        proof {
            assert(rr@ =~= r@.remove(v as int));
        }
        simplify_ring(&rr, eps2)
    } else {
        ring_copy(r)
    }
}

/// The indices of `p`'s first `n` holes that keep more than 3 points
/// after simplification, in order.
pub open spec fn simp_hole_indices(p: Polygon, eps2: int, n: int) -> Seq<int>
    decreases n,
{
    if n <= 0 {
        Seq::empty()
    } else {
        let pre = simp_hole_indices(p, eps2, n - 1);
        if simplify_ring_spec(p.interiors@[n - 1]@, eps2).len() > 3 {
            pre.push(n - 1)
        } else {
            pre
        }
    }
}

pub proof fn lemma_simp_hole_indices_bounds(p: Polygon, eps2: int, n: int)
    requires
        0 <= n <= p.interiors@.len(),
    ensures
        forall|j: int|
            0 <= j < simp_hole_indices(p, eps2, n).len() ==> 0 <= #[trigger] simp_hole_indices(
                p,
                eps2,
                n,
            )[j] < n,
    decreases n,
{
    if n > 0 {
        lemma_simp_hole_indices_bounds(p, eps2, n - 1);
        let kn = simp_hole_indices(p, eps2, n);
        let pre = simp_hole_indices(p, eps2, n - 1);
        assert forall|j: int| 0 <= j < kn.len() implies 0 <= #[trigger] kn[j] < n by {
            if j < pre.len() {
                assert(kn[j] == pre[j]);
            } else {
                assert(kn[j] == n - 1);
            }
        }
    }
}

/// `out` is `p` with every ring simplified at `eps2` and every hole that
/// fell below 4 points dropped.
pub open spec fn is_simplified_of(out: Polygon, p: Polygon, eps2: int) -> bool {
    let kept = simp_hole_indices(p, eps2, p.interiors@.len() as int);
    &&& out.exterior@ == simplify_ring_spec(p.exterior@, eps2)
    &&& out.interiors@.len() == kept.len()
    &&& forall|j: int|
        0 <= j < kept.len() ==> #[trigger] out.interiors@[j]@ == simplify_ring_spec(
            p.interiors@[kept[j]]@,
            eps2,
        )
}

/// Simplifies a polygon's rings and drops its short holes.
pub fn simplify_polygon(p: &Polygon, eps2: i128) -> (out: Polygon)
    requires
        polygon_in_range(*p),
    ensures
        is_simplified_of(out, *p, eps2 as int),
        polygon_in_range(out),
{
    let exterior = simplify_ring(&p.exterior, eps2);
    let m = p.interiors.len();
    let mut kept_ints: Vec<Ring> = Vec::new();
    let mut k: usize = 0;
    proof {
        lemma_simp_hole_indices_bounds(*p, eps2 as int, p.interiors@.len() as int);
    }
    while k < m
        invariant
            0 <= k <= m,
            m == p.interiors@.len(),
            polygon_in_range(*p),
            kept_ints@.len() == simp_hole_indices(*p, eps2 as int, k as int).len(),
            forall|j: int|
                0 <= j < kept_ints@.len() ==> #[trigger] kept_ints@[j]@ == simplify_ring_spec(
                    p.interiors@[simp_hole_indices(*p, eps2 as int, k as int)[j]]@,
                    eps2 as int,
                ) && ring_in_range(kept_ints@[j]@),
        decreases m - k,
    {
        let s = simplify_ring(&p.interiors[k], eps2);
        let ghost kb = kept_ints@;
        if s.0.len() > 3 {
            kept_ints.push(s);
        }
        proof {
            lemma_simp_hole_indices_bounds(*p, eps2 as int, k as int + 1);
            let pre = simp_hole_indices(*p, eps2 as int, k as int);
            let post = simp_hole_indices(*p, eps2 as int, k as int + 1);
            assert forall|j: int| 0 <= j < kept_ints@.len() implies #[trigger] kept_ints@[j]@
                == simplify_ring_spec(p.interiors@[post[j]]@, eps2 as int) && ring_in_range(
                kept_ints@[j]@,
            ) by {
                if j < pre.len() {
                    assert(post[j] == pre[j]);
                    assert(kept_ints@[j] == kb[j]);
                } else {
                    assert(post[j] == k as int);
                    assert(kept_ints@[j] == s);
                }
            }
        }
        k += 1;
    }
    Polygon { exterior, interiors: kept_ints }
}

/// The tolerance a tile's rectangle gives: its area divided by
/// 1024 x 512.
pub open spec fn tile_min_area(rect: Rect) -> int {
    ((rect.max.x - rect.min.x) * (rect.max.y - rect.min.y)) / (AREA_DIVISOR as int)
}

/// Computes `tile_min_area` in machine integers.
pub fn tile_min_area_exec(rect: &Rect) -> (a: i128)
    requires
        rect_wf(*rect),
    ensures
        a as int == tile_min_area(*rect),
        0 <= a <= 0x10_0000_0000_0000_0000_0000,
{
    proof {
        assert((rect.max.x as i128 - rect.min.x as i128) * (rect.max.y as i128
            - rect.min.y as i128) == (rect.max.x - rect.min.x) * (rect.max.y - rect.min.y) && 0
            <= (rect.max.x - rect.min.x) * (rect.max.y - rect.min.y)
            <= 0x10_0000_0000_0000_0000_0000) by (nonlinear_arith)
            requires
                0 <= (rect.max.x as i128 - rect.min.x as i128) <= 0x100_0000_0000,
                0 <= (rect.max.y as i128 - rect.min.y as i128) <= 0x100_0000_0000,
        ;
    }
    let area2: i128 = (rect.max.x as i128 - rect.min.x as i128) * (rect.max.y as i128
        - rect.min.y as i128);
    proof {
        vstd::arithmetic::div_mod::lemma_div_pos_is_pos(area2 as int, AREA_DIVISOR as int);
        vstd::arithmetic::div_mod::lemma_div_nonincreasing(area2 as int, AREA_DIVISOR as int);
    }
    crate::clip::floor_div_i128(area2, AREA_DIVISOR as i128)
}

/// The indices of the first `n` polygons whose simplified exterior keeps
/// more than 3 points, in order.
pub open spec fn simp_poly_indices(polys: Seq<Polygon>, eps2: int, n: int) -> Seq<int>
    decreases n,
{
    if n <= 0 {
        Seq::empty()
    } else {
        let pre = simp_poly_indices(polys, eps2, n - 1);
        if simplify_ring_spec(polys[n - 1].exterior@, eps2).len() > 3 {
            pre.push(n - 1)
        } else {
            pre
        }
    }
}

/// Position `j` of `out_s` holds the simplification of the `j`-th kept
/// polygon of the first `n` of `polys`.
pub open spec fn simplified_at(
    out_s: Seq<Polygon>,
    polys: Seq<Polygon>,
    eps2: int,
    n: int,
    j: int,
) -> bool {
    let idx = simp_poly_indices(polys, eps2, n)[j];
    0 <= idx < polys.len() && is_simplified_of(out_s[j], polys[idx], eps2)
}

/// The two polygon collections hold the same geometry, ring for ring.
pub open spec fn multi_polygon_eq_view(a: Seq<Polygon>, b: Seq<Polygon>) -> bool {
    &&& a.len() == b.len()
    &&& forall|i: int|
        0 <= i < a.len() ==> (#[trigger] a[i]).exterior@ == b[i].exterior@
            && a[i].interiors@.len() == b[i].interiors@.len() && forall|k: int|
            0 <= k < a[i].interiors@.len() ==> #[trigger] a[i].interiors@[k]@ == b[i].interiors@[k]@
}

/// Copies a polygon ring by ring.
fn polygon_copy(p: &Polygon) -> (out: Polygon)
    ensures
        out.exterior@ == p.exterior@,
        out.interiors@.len() == p.interiors@.len(),
        forall|k: int|
            0 <= k < p.interiors@.len() ==> #[trigger] out.interiors@[k]@ == p.interiors@[k]@,
{
    let exterior = ring_copy(&p.exterior);
    let m = p.interiors.len();
    let mut interiors: Vec<Ring> = Vec::new();
    let mut k: usize = 0;
    while k < m
        invariant
            0 <= k <= m,
            m == p.interiors@.len(),
            interiors@.len() == k,
            forall|j: int| 0 <= j < k ==> #[trigger] interiors@[j]@ == p.interiors@[j]@,
        decreases m - k,
    {
        let r = ring_copy(&p.interiors[k]);
        interiors.push(r);
        k += 1;
    }
    Polygon { exterior, interiors }
}

/// Simplifies a tile's polygons when the tile's tolerance exceeds the
/// floor, dropping every ring that falls below 4 points (a polygon whose
/// exterior falls below is dropped whole); a tile at or below the floor
/// comes back unchanged. The doubled tolerance is what the triangle test
/// compares against.
pub fn simplify_tile(m: &MultiPolygon, tile_rect: &Rect) -> (out: MultiPolygon)
    requires
        multi_polygon_in_range(*m),
        rect_wf(*tile_rect),
    ensures
        tile_min_area(*tile_rect) <= SIMPLIFY_FLOOR ==> multi_polygon_eq_view(out.0@, m.0@),
        tile_min_area(*tile_rect) > SIMPLIFY_FLOOR ==> {
            let eps2 = 2 * tile_min_area(*tile_rect);
            out.0@.len() == simp_poly_indices(m.0@, eps2, m.0@.len() as int).len() && forall|
                j: int,
            |
                0 <= j < out.0@.len() ==> #[trigger] simplified_at(
                    out.0@,
                    m.0@,
                    eps2,
                    m.0@.len() as int,
                    j,
                )
        },
        multi_polygon_in_range(out),
{
    let min_area = tile_min_area_exec(tile_rect);
    if min_area <= SIMPLIFY_FLOOR as i128 {
        let n = m.0.len();
        let mut copied: Vec<Polygon> = Vec::new();
        let mut i: usize = 0;
        while i < n
            invariant
                0 <= i <= n,
                n == m.0@.len(),
                multi_polygon_in_range(*m),
                copied@.len() == i,
                forall|j: int|
                    0 <= j < i ==> (#[trigger] copied@[j]).exterior@ == m.0@[j].exterior@
                        && copied@[j].interiors@.len() == m.0@[j].interiors@.len() && forall|k: int|
                        0 <= k < copied@[j].interiors@.len() ==> #[trigger] copied@[j].interiors@[k]@
                            == m.0@[j].interiors@[k]@,
                forall|j: int| 0 <= j < i ==> polygon_in_range(#[trigger] copied@[j]),
            decreases n - i,
        {
            let p = polygon_copy(&m.0[i]);
            copied.push(p);
            i += 1;
        }
        return MultiPolygon(copied);
    }
    let eps2: i128 = 2 * min_area;
    let ghost seps2 = 2 * tile_min_area(*tile_rect);
    let n = m.0.len();
    let mut kept: Vec<Polygon> = Vec::new();
    let mut i: usize = 0;
    while i < n
        invariant
            0 <= i <= n,
            n == m.0@.len(),
            multi_polygon_in_range(*m),
            eps2 as int == seps2,
            kept@.len() == simp_poly_indices(m.0@, seps2, i as int).len(),
            forall|j: int|
                0 <= j < kept@.len() ==> #[trigger] simplified_at(kept@, m.0@, seps2, i as int, j),
            forall|j: int| 0 <= j < kept@.len() ==> polygon_in_range(#[trigger] kept@[j]),
        decreases n - i,
    {
        let p = &m.0[i];
        let sp = simplify_polygon(p, eps2);
        let ghost t = sp;
        let ghost kept_before = kept@;
        if sp.exterior.0.len() > 3 {
            kept.push(sp);
        }
        proof {
            let pre = simp_poly_indices(m.0@, seps2, i as int);
            let post = simp_poly_indices(m.0@, seps2, i as int + 1);
            assert(t.exterior@ == simplify_ring_spec(m.0@[i as int].exterior@, seps2));
            assert(post == if simplify_ring_spec(m.0@[i as int].exterior@, seps2).len() > 3 {
                pre.push(i as int)
            } else {
                pre
            });
            assert forall|j: int| 0 <= j < kept@.len() implies #[trigger] simplified_at(
                kept@,
                m.0@,
                seps2,
                i as int + 1,
                j,
            ) by {
                if j < pre.len() {
                    assert(post[j] == pre[j]);
                    assert(kept@[j] == kept_before[j]);
                    assert(simplified_at(kept_before, m.0@, seps2, i as int, j));
                } else {
                    assert(post[j] == i as int);
                    assert(kept@[j] == t);
                }
            }
        }
        i += 1;
    }
    let ghost kv = kept@;
    let out = MultiPolygon(kept);
    proof {
        assert(out.0@ == kv);
        assert forall|j: int| 0 <= j < out.0@.len() implies #[trigger] simplified_at(
            out.0@,
            m.0@,
            seps2,
            n as int,
            j,
        ) by {
            assert(simplified_at(kv, m.0@, seps2, n as int, j));
        }
    }
    out
}

} // verus!
