//! Building one tile's geometry: clip every polygon of the parent tile
//! against the tile rectangle and drop every clipped ring — exterior or
//! hole — with fewer than 4 points, too few to enclose area. A polygon
//! whose clipped exterior is dropped is dropped whole.

use vstd::prelude::*;

use crate::geometry::MultiPolygon;
use crate::geometry::Polygon;
use crate::geometry::Rect;
use crate::geometry::rect_wf;
use crate::geometry::ring_in_range;
use crate::geometry::rect_ring;
use crate::geometry::ring_within;
use crate::geometry::polygon_in_range;
use crate::geometry::multi_polygon_in_range;
use crate::polygon::clip_polygon;
use crate::polygon::clip2_spec;
use crate::polygon::contains_rect_spec;

verus! {

/// Clip one polygon against a rectangle.
pub trait Clip<T>: Sized {
    /// What `clip` returns for this receiver and clip shape.
    spec fn clip_rel(&self, clipto: T, r: Self) -> bool;

    fn clip(&self, clipto: T) -> (r: Self)
        ensures
            self.clip_rel(clipto, r),
    ;
}

/// Checks every coordinate of the ring against the global bound.
pub fn ring_in_range_exec(r: &crate::geometry::Ring) -> (res: bool)
    ensures
        res == crate::geometry::ring_in_range(r@),
{
    let n = r.0.len();
    let mut i: usize = 0;
    while i < n
        invariant
            0 <= i <= n,
            n == r@.len(),
            forall|j: int| 0 <= j < i ==> crate::geometry::coord_in_range(#[trigger] r@[j]),
        decreases n - i,
    {
        let c = r.0[i];
        if !(-crate::geometry::COORD_LIMIT <= c.x && c.x <= crate::geometry::COORD_LIMIT
            && -crate::geometry::COORD_LIMIT <= c.y && c.y <= crate::geometry::COORD_LIMIT) {
            return false;
        }
        i += 1;
    }
    true
}

/// Checks every ring of the polygon against the global bound.
pub fn polygon_in_range_exec(p: &Polygon) -> (res: bool)
    ensures
        res == polygon_in_range(*p),
{
    if !ring_in_range_exec(&p.exterior) {
        return false;
    }
    let m = p.interiors.len();
    let mut k: usize = 0;
    while k < m
        invariant
            0 <= k <= m,
            m == p.interiors@.len(),
            crate::geometry::ring_in_range(p.exterior@),
            forall|j: int|
                0 <= j < k ==> crate::geometry::ring_in_range(#[trigger] p.interiors@[j]@),
        decreases m - k,
    {
        if !ring_in_range_exec(&p.interiors[k]) {
            return false;
        }
        k += 1;
    }
    true
}

impl Clip<Rect> for Polygon {
    /// In-range geometry clips exactly as `clip_polygon` does; a receiver
    /// or rectangle outside the machine coordinate bounds clips to the
    /// empty polygon.
    open spec fn clip_rel(&self, clipto: Rect, r: Polygon) -> bool {
        if polygon_in_range(*self) && rect_wf(clipto) {
            is_clip_of(r, *self, clipto)
        } else {
            r.exterior@.len() == 0 && r.interiors@.len() == 0
        }
    }

    fn clip(&self, clipto: Rect) -> (r: Polygon) {
        let wf = -crate::geometry::COORD_LIMIT <= clipto.min.x && clipto.min.x
            <= crate::geometry::COORD_LIMIT && -crate::geometry::COORD_LIMIT <= clipto.min.y
            && clipto.min.y <= crate::geometry::COORD_LIMIT && -crate::geometry::COORD_LIMIT
            <= clipto.max.x && clipto.max.x <= crate::geometry::COORD_LIMIT
            && -crate::geometry::COORD_LIMIT <= clipto.max.y && clipto.max.y
            <= crate::geometry::COORD_LIMIT && clipto.min.x <= clipto.max.x && clipto.min.y
            <= clipto.max.y;
        if !wf || !polygon_in_range_exec(self) {
            // out-of-range geometry clips to nothing
            return Polygon { exterior: crate::geometry::Ring(Vec::new()), interiors: Vec::new() };
        }
        clip_polygon(self, &clipto)
    }
}

/// The exterior ring that clipping `p` against `rect` produces, including
/// the containment fallback.
pub open spec fn clipped_exterior_spec(p: Polygon, rect: Rect) -> Seq<crate::geometry::Coord> {
    let e = clip2_spec(p.exterior@, rect);
    if e.len() == 0 && contains_rect_spec(p, rect) {
        rect_ring(rect)
    } else {
        e
    }
}

/// The full relation between one input polygon and one output polygon of
/// `create_tile`.
pub open spec fn is_clip_of(out: Polygon, p: Polygon, rect: Rect) -> bool {
    &&& out.exterior@ == clipped_exterior_spec(p, rect)
    &&& out.interiors@.len() == p.interiors@.len()
    &&& forall|k: int|
        0 <= k < p.interiors@.len() ==> #[trigger] out.interiors@[k]@ == clip2_spec(
            p.interiors@[k]@,
            rect,
        )
}

/// The indices of `p`'s first `n` holes whose clip keeps more than 3
/// points, in order.
pub open spec fn kept_hole_indices(p: Polygon, rect: Rect, n: int) -> Seq<int>
    decreases n,
{
    if n <= 0 {
        Seq::empty()
    } else {
        let pre = kept_hole_indices(p, rect, n - 1);
        if clip2_spec(p.interiors@[n - 1]@, rect).len() > 3 {
            pre.push(n - 1)
        } else {
            pre
        }
    }
}

pub proof fn lemma_kept_hole_indices_bounds(p: Polygon, rect: Rect, n: int)
    requires
        0 <= n <= p.interiors@.len(),
    ensures
        forall|j: int|
            0 <= j < kept_hole_indices(p, rect, n).len() ==> 0 <= #[trigger] kept_hole_indices(
                p,
                rect,
                n,
            )[j] < n,
    decreases n,
{
    if n > 0 {
        lemma_kept_hole_indices_bounds(p, rect, n - 1);
        let kn = kept_hole_indices(p, rect, n);
        let pre = kept_hole_indices(p, rect, n - 1);
        assert forall|j: int| 0 <= j < kn.len() implies 0 <= #[trigger] kn[j] < n by {
            if j < pre.len() {
                assert(kn[j] == pre[j]);
            } else {
                assert(kn[j] == n - 1);
            }
        }
    }
}

/// `out` is the clip of `p` against `rect` with every hole of fewer than
/// 4 points dropped: its exterior is the clipped (or substituted)
/// exterior, and its holes are exactly the clips of the holes that kept
/// more than 3 points, in their original order.
pub open spec fn is_trimmed_clip_of(out: Polygon, p: Polygon, rect: Rect) -> bool {
    let kept = kept_hole_indices(p, rect, p.interiors@.len() as int);
    &&& out.exterior@ == clipped_exterior_spec(p, rect)
    &&& out.interiors@.len() == kept.len()
    &&& forall|j: int|
        0 <= j < kept.len() ==> #[trigger] out.interiors@[j]@ == clip2_spec(
            p.interiors@[kept[j]]@,
            rect,
        )
}

/// The indices of the first `n` polygons whose clipped exterior keeps more
/// than 3 points, in order.
pub open spec fn kept_poly_indices(polys: Seq<Polygon>, rect: Rect, n: int) -> Seq<int>
    decreases n,
{
    if n <= 0 {
        Seq::empty()
    } else {
        let pre = kept_poly_indices(polys, rect, n - 1);
        if clipped_exterior_spec(polys[n - 1], rect).len() > 3 {
            pre.push(n - 1)
        } else {
            pre
        }
    }
}

/// Position `j` of `out_s` holds the trimmed clip of the `j`-th kept
/// polygon of the first `n` of `polys`.
pub open spec fn trimmed_at(out_s: Seq<Polygon>, polys: Seq<Polygon>, rect: Rect, n: int, j: int) -> bool {
    let idx = kept_poly_indices(polys, rect, n)[j];
    0 <= idx < polys.len() && is_trimmed_clip_of(out_s[j], polys[idx], rect)
}

/// Clips `p` and drops its short holes.
fn clip_and_trim(p: &Polygon, rect: &Rect) -> (out: Polygon)
    requires
        polygon_in_range(*p),
        rect_wf(*rect),
    ensures
        is_trimmed_clip_of(out, *p, *rect),
        polygon_in_range(out),
        ring_within(out.exterior@, 0, rect.min.x, rect.max.x),
        ring_within(out.exterior@, 1, rect.min.y, rect.max.y),
{
    let clipped = clip_polygon(p, rect);
    let Polygon { exterior, interiors } = clipped;
    let ghost civ = interiors@;
    let m = interiors.len();
    let mut kept_ints: Vec<crate::geometry::Ring> = Vec::new();
    let mut interiors = interiors;
    let mut k: usize = 0;
    proof {
        lemma_kept_hole_indices_bounds(*p, *rect, p.interiors@.len() as int);
    }
    while k < m
        invariant
            0 <= k <= m,
            m == civ.len(),
            m == p.interiors@.len(),
            polygon_in_range(*p),
            rect_wf(*rect),
            interiors@ == civ.skip(k as int),
            forall|j: int|
                0 <= j < civ.len() ==> #[trigger] civ[j]@ == clip2_spec(p.interiors@[j]@, *rect)
                    && ring_in_range(civ[j]@) && ring_within(civ[j]@, 0, rect.min.x, rect.max.x)
                    && ring_within(civ[j]@, 1, rect.min.y, rect.max.y),
            kept_ints@.len() == kept_hole_indices(*p, *rect, k as int).len(),
            forall|j: int|
                0 <= j < kept_ints@.len() ==> #[trigger] kept_ints@[j]@ == clip2_spec(
                    p.interiors@[kept_hole_indices(*p, *rect, k as int)[j]]@,
                    *rect,
                ) && ring_in_range(kept_ints@[j]@),
        decreases m - k,
    {
        let r = interiors.remove(0);
        proof {
            assert(r@ == civ[k as int]@);
            assert(interiors@ =~= civ.skip(k as int + 1));
            lemma_kept_hole_indices_bounds(*p, *rect, k as int + 1);
        }
        if r.0.len() > 3 {
            kept_ints.push(r);
        }
        proof {
            let kepts = kept_hole_indices(*p, *rect, k as int + 1);
            assert forall|j: int| 0 <= j < kept_ints@.len() implies #[trigger] kept_ints@[j]@
                == clip2_spec(p.interiors@[kepts[j]]@, *rect) && ring_in_range(kept_ints@[j]@) by {
                if j < kept_ints@.len() - 1 || kepts.len() == kept_hole_indices(
                    *p,
                    *rect,
                    k as int,
                ).len() {
                    assert(kepts[j] == kept_hole_indices(*p, *rect, k as int)[j]);
                }
            }
        }
        k += 1;
    }
    let out = Polygon { exterior, interiors: kept_ints };
    out
}

/// Clips every polygon of the collection against the tile rectangle,
/// drops every clipped hole with fewer than 4 points, and keeps exactly
/// those polygons whose clipped exterior has more than 3 points, in input
/// order.
pub fn create_tile(polygons: &MultiPolygon, tile_rect: &Rect) -> (out: MultiPolygon)
    requires
        multi_polygon_in_range(*polygons),
        rect_wf(*tile_rect),
    ensures
        out.0@.len() == kept_poly_indices(
            polygons.0@,
            *tile_rect,
            polygons.0@.len() as int,
        ).len(),
        forall|j: int|
            0 <= j < out.0@.len() ==> #[trigger] trimmed_at(
                out.0@,
                polygons.0@,
                *tile_rect,
                polygons.0@.len() as int,
                j,
            ),
        multi_polygon_in_range(out),
        forall|j: int|
            0 <= j < out.0@.len() ==> (#[trigger] out.0@[j]).exterior@.len() > 3 && ring_within(
                out.0@[j].exterior@,
                0,
                tile_rect.min.x,
                tile_rect.max.x,
            ) && ring_within(out.0@[j].exterior@, 1, tile_rect.min.y, tile_rect.max.y),
{
    let n = polygons.0.len();
    let mut kept: Vec<Polygon> = Vec::new();
    let mut i: usize = 0;
    while i < n
        invariant
            0 <= i <= n,
            n == polygons.0@.len(),
            multi_polygon_in_range(*polygons),
            rect_wf(*tile_rect),
            kept@.len() == kept_poly_indices(polygons.0@, *tile_rect, i as int).len(),
            forall|j: int|
                0 <= j < kept@.len() ==> #[trigger] trimmed_at(
                    kept@,
                    polygons.0@,
                    *tile_rect,
                    i as int,
                    j,
                ),
            forall|j: int|
                0 <= j < kept@.len() ==> polygon_in_range(#[trigger] kept@[j]),
            forall|j: int|
                0 <= j < kept@.len() ==> (#[trigger] kept@[j]).exterior@.len() > 3 && ring_within(
                    kept@[j].exterior@,
                    0,
                    tile_rect.min.x,
                    tile_rect.max.x,
                ) && ring_within(kept@[j].exterior@, 1, tile_rect.min.y, tile_rect.max.y),
        decreases n - i,
    {
        let p = &polygons.0[i];
        let trimmed = clip_and_trim(p, tile_rect);
        let ghost t = trimmed;
        let ghost kept_before = kept@;
        let keep = trimmed.exterior.0.len() > 3;
        if keep {
            kept.push(trimmed);
        }
        proof {
            let pre = kept_poly_indices(polygons.0@, *tile_rect, i as int);
            let post = kept_poly_indices(polygons.0@, *tile_rect, i as int + 1);
            assert(t.exterior@ == clipped_exterior_spec(polygons.0@[i as int], *tile_rect));
            assert(post == if clipped_exterior_spec(polygons.0@[i as int], *tile_rect).len() > 3 {
                pre.push(i as int)
            } else {
                pre
            });
            if keep {
                assert(kept@ == kept_before.push(t));
            } else {
                assert(kept@ == kept_before);
            }
            assert forall|j: int| 0 <= j < kept@.len() implies #[trigger] trimmed_at(
                kept@,
                polygons.0@,
                *tile_rect,
                i as int + 1,
                j,
            ) by {
                assert(trimmed_at(kept_before, polygons.0@, *tile_rect, i as int, j) || j
                    >= kept_before.len());
                if j < pre.len() {
                    assert(post[j] == pre[j]);
                    assert(kept@[j] == kept_before[j]);
                    assert(0 <= pre[j] < polygons.0@.len() && is_trimmed_clip_of(
                        kept_before[j],
                        polygons.0@[pre[j]],
                        *tile_rect,
                    ));
                } else {
                    assert(post[j] == i as int);
                    assert(kept@[j] == t);
                }
            }
        }
        i += 1;
    }
    let ghost kv = kept@;
    let out = MultiPolygon(kept);
    proof {
        assert(out.0@ == kv);
        assert forall|j: int| 0 <= j < out.0@.len() implies #[trigger] trimmed_at(
            out.0@,
            polygons.0@,
            *tile_rect,
            polygons.0@.len() as int,
            j,
        ) by {
            assert(trimmed_at(kv, polygons.0@, *tile_rect, n as int, j));
        }
    }
    out
}

} // verus!
