//! Axis clipping: the fundamental geometric primitive.
//!
//! A ring is clipped against the interval `(k1, k2)` on one axis: vertices
//! strictly inside the interval are kept, edges that cross a bound get a
//! synthesized intersection point, and the result is closed. The test for
//! keeping a vertex is strict while the test for appending the input's last
//! vertex is inclusive of the bounds; this asymmetry is deliberate.

use vstd::prelude::*;

use crate::geometry::Coord;
use crate::geometry::Ring;
use crate::geometry::axis_val;
use crate::geometry::coord_in_range;
use crate::geometry::in_range;
use crate::geometry::ring_in_range;
use crate::geometry::ring_closed;
use crate::geometry::ring_within;

verus! {

/// Selects one coordinate axis; `X` and `Y` implement it.
pub trait Axis {
    spec fn spec_index() -> int;

    fn index() -> (r: usize)
        ensures
            r as int == Self::spec_index(),
            r <= 1,
    ;
}

/// The longitude axis.
pub struct X;

impl Axis for X {
    open spec fn spec_index() -> int {
        0
    }

    fn index() -> usize {
        0
    }
}

/// The latitude axis.
pub struct Y;

impl Axis for Y {
    open spec fn spec_index() -> int {
        1
    }

    fn index() -> usize {
        1
    }
}

/// Read one component of a position, selected by an `Axis` type parameter.
pub trait GetCoord<U> {
    spec fn spec_coord(self, ax: int) -> U;

    fn coord<T: Axis>(self) -> (r: U)
        ensures
            r == self.spec_coord(T::spec_index()),
    ;
}

impl GetCoord<i64> for Coord {
    open spec fn spec_coord(self, ax: int) -> i64 {
        axis_val(self, ax)
    }

    fn coord<T: Axis>(self) -> (r: i64) {
        let i = T::index();
        if i == 0 {
            self.x
        } else {
            self.y
        }
    }
}

/// `v` lies between `e1` and `e2`, whichever order they come in.
pub open spec fn between(v: int, e1: int, e2: int) -> bool {
    (e1 <= v <= e2) || (e2 <= v <= e1)
}

/// `s` does not leave the envelope of `r`: any interval (on either axis)
/// that holds every vertex of `r` also holds every vertex of `s`.
pub open spec fn preserves_within(s: Seq<Coord>, r: Seq<Coord>) -> bool {
    forall|ax: int, m1: i64, m2: i64|
        ring_within(r, ax, m1, m2) ==> #[trigger] ring_within(s, ax, m1, m2)
}

/// Floor division (quotient rounded toward minus infinity), which for a
/// positive divisor agrees with the Euclidean `/` of specifications.
pub(crate) fn floor_div_i128(n: i128, d: i128) -> (q: i128)
    requires
        0 < d,
        i128::MIN < n,
    ensures
        q as int == n as int / d as int,
{
    if n >= 0 {
        let nu = n as u128;
        let du = d as u128;
        let q = nu / du;
        proof {
            assert(q <= nu);
        }
        q as i128
    } else {
        let m = (-n) as u128;
        let du = d as u128;
        let t = (m + du - 1) / du;
        proof {
            let mi = m as int;
            let dd = d as int;
            vstd::arithmetic::div_mod::lemma_fundamental_div_mod(mi + dd - 1, dd);
            let ti = (mi + dd - 1) / dd;
            let r2 = (mi + dd - 1) % dd;
            assert(mi + dd - 1 == dd * ti + r2);
            assert((-mi) == (-ti) * dd + (dd - 1 - r2)) by (nonlinear_arith)
                requires
                    mi + dd - 1 == dd * ti + r2,
            ;
            vstd::arithmetic::div_mod::lemma_fundamental_div_mod_converse(
                -mi,
                dd,
                -ti,
                dd - 1 - r2,
            );
            assert(ti >= 0) by {
                vstd::arithmetic::div_mod::lemma_div_pos_is_pos(mi + dd - 1, dd);
            }
            assert(ti <= mi) by {
                assert(mi + dd - 1 <= dd * mi) by (nonlinear_arith)
                    requires
                        mi >= 1,
                        dd >= 1,
                ;
                vstd::arithmetic::div_mod::lemma_div_is_ordered(mi + dd - 1, dd * mi, dd);
                vstd::arithmetic::div_mod::lemma_div_multiples_vanish(mi, dd);
            }
        }
        -(t as i128)
    }
}

/// The interpolated value of the off axis where the edge from
/// (`av`, `ao`) to (`bv`, `bo`) meets `k` on the clip axis: an affine
/// blend, quantized by floor division.
pub open spec fn blend_other(av: int, bv: int, ao: int, bo: int, k: int) -> int {
    let n = (k - av) * (bo - ao);
    let d = bv - av;
    if d < 0 {
        ao + (-n) / (-d)
    } else {
        ao + n / d
    }
}

/// The synthesized point where the edge `a -> b` meets the value `k` on
/// axis `ax`; its clip-axis component is exactly `k`.
pub open spec fn isect(a: Coord, b: Coord, ax: int, k: i64) -> Coord {
    if ax == 0 {
        Coord { x: k, y: blend_other(a.x as int, b.x as int, a.y as int, b.y as int, k as int) as i64 }
    } else {
        Coord { x: blend_other(a.y as int, b.y as int, a.x as int, b.x as int, k as int) as i64, y: k }
    }
}

/// Computes the intersection point of the edge `a -> b` with the line at
/// `k` on axis `axis`. The result equals `isect` and never leaves the
/// bounding box of its two endpoints.
pub fn intersect(a: Coord, b: Coord, axis: usize, k: i64) -> (r: Coord)
    requires
        axis <= 1,
        coord_in_range(a),
        coord_in_range(b),
        axis_val(a, axis as int) != axis_val(b, axis as int),
        between(k as int, axis_val(a, axis as int) as int, axis_val(b, axis as int) as int),
    ensures
        r == isect(a, b, axis as int, k),
        coord_in_range(r),
        between(r.x as int, a.x as int, b.x as int),
        between(r.y as int, a.y as int, b.y as int),
{
    let (av, bv, ao, bo) = if axis == 0 {
        (a.x, b.x, a.y, b.y)
    } else {
        (a.y, b.y, a.x, b.x)
    };
    let dk: i128 = k as i128 - av as i128;
    let dw: i128 = bo as i128 - ao as i128;
    proof {
        assert(-0x10_0000_0000_0000_0000_0000 <= dk * dw <= 0x10_0000_0000_0000_0000_0000)
            by (nonlinear_arith)
            requires
                -0x100_0000_0000 <= dk <= 0x100_0000_0000,
                -0x100_0000_0000 <= dw <= 0x100_0000_0000,
        ;
    }
    let mut n: i128 = dk * dw;
    let mut d: i128 = bv as i128 - av as i128;
    if d < 0 {
        n = -n;
        d = -d;
    }
    proof {
        let u = if bv < av { av - k } else { k - av } as int;
        let w = (bo - ao) as int;
        assert((-dk) * dw == -(dk * dw) && dk * dw == dk as int * dw) by (nonlinear_arith);
        assert(n == u * w && 0 <= u <= d) by (nonlinear_arith)
            requires
                d == if (bv as int) < av as int { av as int - bv } else { bv as int - av },
                n == (if (bv as int) < av as int { (av as int - k) * (bo as int - ao) } else {
                    (k as int - av) * (bo as int - ao)
                }),
                u == if (bv as int) < av as int { av as int - k } else { k as int - av },
                w == bo as int - ao as int,
                between(k as int, av as int, bv as int),
        ;
        // the quotient lies between 0 and w, so the blend stays between
        // the endpoints
        if w >= 0 {
            assert(0 <= n <= d * w) by (nonlinear_arith)
                requires
                    n == u * w,
                    0 <= u <= d,
                    0 <= w,
            ;
            vstd::arithmetic::div_mod::lemma_div_pos_is_pos(n as int, d as int);
            vstd::arithmetic::div_mod::lemma_div_is_ordered(n as int, d * w, d as int);
            vstd::arithmetic::div_mod::lemma_div_multiples_vanish(w, d as int);
        } else {
            assert(d * w <= n <= 0) by (nonlinear_arith)
                requires
                    n == u * w,
                    0 <= u <= d,
                    w < 0,
            ;
            vstd::arithmetic::div_mod::lemma_div_is_ordered(d * w, n as int, d as int);
            vstd::arithmetic::div_mod::lemma_div_is_ordered(n as int, 0, d as int);
            vstd::arithmetic::div_mod::lemma_div_multiples_vanish(w, d as int);
            assert((d as int * 0) / d as int == 0);
        }
    }
    let q = floor_div_i128(n, d);
    let o = (ao as i128 + q) as i64;
    let r = if axis == 0 {
        Coord { x: k, y: o }
    } else {
        Coord { x: o, y: k }
    };
    r
}

/// `v` lies strictly inside the open interval `(k1, k2)`.
pub open spec fn strictly_inside(v: i64, k1: i64, k2: i64) -> bool {
    k1 < v < k2
}

/// Some vertex of `r` lies strictly inside `(k1, k2)` on axis `ax`.
pub open spec fn any_inside(r: Seq<Coord>, ax: int, k1: i64, k2: i64) -> bool {
    exists|i: int| 0 <= i < r.len() && strictly_inside(axis_val(#[trigger] r[i], ax), k1, k2)
}

/// Every vertex of `r` lies strictly inside `(k1, k2)` on axis `ax`.
pub open spec fn all_inside(r: Seq<Coord>, ax: int, k1: i64, k2: i64) -> bool {
    forall|i: int| 0 <= i < r.len() ==> strictly_inside(axis_val(#[trigger] r[i], ax), k1, k2)
}

/// The points the edge `a -> b` contributes to the clipped ring: its start
/// point when inside the interval, an entry intersection when the edge
/// comes in from outside, and an exit intersection when it leaves on the
/// low or the high side. An edge spanning both bounds contributes two
/// points.
#[verifier::opaque]
pub open spec fn edge_points(a: Coord, b: Coord, ax: int, k1: i64, k2: i64) -> Seq<Coord> {
    let av = axis_val(a, ax);
    let bv = axis_val(b, ax);
    let enter: Seq<Coord> = if av < k1 {
        if bv > k1 {
            seq![isect(a, b, ax, k1)]
        } else {
            seq![]
        }
    } else if av > k2 {
        if bv < k2 {
            seq![isect(a, b, ax, k2)]
        } else {
            seq![]
        }
    } else {
        seq![a]
    };
    let exit_low: Seq<Coord> = if bv < k1 && av >= k1 {
        seq![isect(a, b, ax, k1)]
    } else {
        seq![]
    };
    let exit_high: Seq<Coord> = if bv > k2 && av <= k2 {
        seq![isect(a, b, ax, k2)]
    } else {
        seq![]
    };
    enter + exit_low + exit_high
}

/// The points contributed by the first `n` edges of `r`.
#[verifier::opaque]
pub open spec fn walk_edges(r: Seq<Coord>, ax: int, k1: i64, k2: i64, n: int) -> Seq<Coord>
    decreases n,
{
    if n <= 0 {
        Seq::empty()
    } else {
        walk_edges(r, ax, k1, k2, n - 1) + edge_points(r[n - 1], r[n], ax, k1, k2)
    }
}

/// The full axis clip of `r` against `(k1, k2)` on axis `ax`: empty on
/// trivial reject, the input itself on trivial accept, otherwise the edge
/// walk followed by the boundary-inclusive last vertex and a closing copy
/// of the first point.
pub open spec fn clip_ring_spec(r: Seq<Coord>, ax: int, k1: i64, k2: i64) -> Seq<Coord> {
    if !any_inside(r, ax, k1, k2) {
        Seq::empty()
    } else if all_inside(r, ax, k1, k2) {
        r
    } else {
        let walked = walk_edges(r, ax, k1, k2, r.len() - 1);
        let with_last = if k1 <= axis_val(r[r.len() - 1], ax) <= k2 {
            walked.push(r[r.len() - 1])
        } else {
            walked
        };
        if with_last.len() > 0 && with_last[0] != with_last[with_last.len() - 1] {
            with_last.push(with_last[0])
        } else {
            with_last
        }
    }
}


/// Emits the points that the edge `a -> b` (vertices `ia` and `ia + 1` of
/// the ring `r`) contributes to the clip result.
fn clip_edge(res: &mut Vec<Coord>, a: Coord, b: Coord, axis: usize, k1: i64, k2: i64)
    requires
        axis <= 1,
        k1 <= k2,
        in_range(k1),
        in_range(k2),
        coord_in_range(a),
        coord_in_range(b),
    ensures
        final(res)@ == old(res)@ + edge_points(a, b, axis as int, k1, k2),
        forall|j: int|
            old(res)@.len() <= j < final(res)@.len() ==> coord_in_range(#[trigger] final(res)@[j])
                && k1 <= axis_val(final(res)@[j], axis as int) <= k2 && between(
                final(res)@[j].x as int,
                a.x as int,
                b.x as int,
            ) && between(final(res)@[j].y as int, a.y as int, b.y as int),
{
    let ghost ax = axis as int;
    let ghost base = res@;
    let av = if axis == 0 {
        a.x
    } else {
        a.y
    };
    let bv = if axis == 0 {
        b.x
    } else {
        b.y
    };
    if av < k1 {
        if bv > k1 {
            let p = intersect(a, b, axis, k1);
            res.push(p);
        }
    } else if av > k2 {
        if bv < k2 {
            let p = intersect(a, b, axis, k2);
            res.push(p);
        }
    } else {
        res.push(a);
    }
    if bv < k1 && av >= k1 {
        let p = intersect(a, b, axis, k1);
        res.push(p);
    }
    if bv > k2 && av <= k2 {
        let p = intersect(a, b, axis, k2);
        res.push(p);
    }
    proof {
        reveal(edge_points);
        assert(res@ =~= base + edge_points(a, b, ax, k1, k2));
    }
}

fn scan_any_inside(line_strip: &Ring, axis: usize, k1: i64, k2: i64) -> (r: bool)
    requires
        axis <= 1,
    ensures
        r <==> any_inside(line_strip@, axis as int, k1, k2),
{
    let ghost ax = axis as int;
    let ghost rv = line_strip@;
    let n = line_strip.0.len();
    let mut any_in = false;
    let mut i: usize = 0;
    while i < n
        invariant
            0 <= i <= n,
            n == rv.len(),
            rv == line_strip@,
            axis <= 1,
            ax == axis as int,
            any_in <==> exists|j: int|
                0 <= j < i && strictly_inside(axis_val(#[trigger] rv[j], ax), k1, k2),
        decreases n - i,
    {
        let c = line_strip.0[i];
        let v = if axis == 0 {
            c.x
        } else {
            c.y
        };
        if k1 < v && v < k2 {
            any_in = true;
        }
        i += 1;
    }
    any_in
}

fn scan_all_inside(line_strip: &Ring, axis: usize, k1: i64, k2: i64) -> (r: bool)
    requires
        axis <= 1,
    ensures
        r <==> all_inside(line_strip@, axis as int, k1, k2),
{
    let ghost ax = axis as int;
    let ghost rv = line_strip@;
    let n = line_strip.0.len();
    let mut all_in = true;
    let mut i: usize = 0;
    while i < n
        invariant
            0 <= i <= n,
            n == rv.len(),
            rv == line_strip@,
            axis <= 1,
            ax == axis as int,
            all_in <==> forall|j: int|
                0 <= j < i ==> strictly_inside(axis_val(#[trigger] rv[j], ax), k1, k2),
        decreases n - i,
    {
        let c = line_strip.0[i];
        let v = if axis == 0 {
            c.x
        } else {
            c.y
        };
        if !(k1 < v && v < k2) {
            all_in = false;
        }
        i += 1;
    }
    all_in
}

/// Copies a ring vertex by vertex.
pub fn ring_copy(line_strip: &Ring) -> (out: Ring)
    ensures
        out@ == line_strip@,
{
    let ghost rv = line_strip@;
    let n = line_strip.0.len();
    let mut copied: Vec<Coord> = Vec::new();
    let mut i: usize = 0;
    while i < n
        invariant
            0 <= i <= n,
            n == rv.len(),
            rv == line_strip@,
            copied@ =~= rv.subrange(0, i as int),
        decreases n - i,
    {
        copied.push(line_strip.0[i]);
        i += 1;
    }
    let out = Ring(copied);
    proof {
        assert(out@ =~= rv);
    }
    out
}

fn clip_walk(line_strip: &Ring, axis: usize, k1: i64, k2: i64) -> (res: Vec<Coord>)
    requires
        axis <= 1,
        k1 <= k2,
        in_range(k1),
        in_range(k2),
        ring_in_range(line_strip@),
        line_strip@.len() >= 1,
    ensures
        res@ == walk_edges(line_strip@, axis as int, k1, k2, line_strip@.len() - 1),
        ring_in_range(res@),
        ring_within(res@, axis as int, k1, k2),
        preserves_within(res@, line_strip@),
{
    let ghost ax = axis as int;
    let ghost rv = line_strip@;
    let n = line_strip.0.len();
    let mut res: Vec<Coord> = Vec::new();
    proof {
        reveal_with_fuel(walk_edges, 1);
        assert(res@ =~= walk_edges(rv, ax, k1, k2, 0));
    }
    let mut i: usize = 0;
    while i < n - 1
        invariant
            0 <= i <= n - 1,
            n == rv.len(),
            n >= 1,
            rv == line_strip@,
            axis <= 1,
            ax == axis as int,
            k1 <= k2,
            in_range(k1),
            in_range(k2),
            ring_in_range(rv),
            res@ == walk_edges(rv, ax, k1, k2, i as int),
            ring_in_range(res@),
            ring_within(res@, ax, k1, k2),
            preserves_within(res@, rv),
        decreases n - i,
    {
        let a = line_strip.0[i];
        let b = line_strip.0[i + 1];
        let ghost prev = res@;
        clip_edge(&mut res, a, b, axis, k1, k2);
        proof {
            reveal_with_fuel(walk_edges, 2);
            assert(res@ =~= walk_edges(rv, ax, k1, k2, i as int + 1));
            assert forall|axq: int, m1: i64, m2: i64|
                ring_within(rv, axq, m1, m2) implies #[trigger] ring_within(
                res@,
                axq,
                m1,
                m2,
            ) by {
                assert(ring_within(prev, axq, m1, m2));
                assert(m1 <= axis_val(rv[i as int], axq) <= m2);
                assert(m1 <= axis_val(rv[i as int + 1], axq) <= m2);
                assert forall|j: int| 0 <= j < res@.len() implies m1 <= axis_val(
                    #[trigger] res@[j],
                    axq,
                ) <= m2 by {
                    if j < prev.len() {
                        assert(res@[j] == prev[j]);
                    }
                }
            }
        }
        i += 1;
    }
    res
}

/// Clips the ring against `(k1, k2)` on the axis named by `axis`
/// (0 selects x, 1 selects y).
///
/// The result equals `clip_ring_spec`; beyond that the contract states the
/// clipped ring's key properties directly: a ring entirely inside the open
/// interval comes back as the identical vertex sequence; one entirely
/// outside the closed interval comes back empty; every clipped vertex lies
/// within `[k1, k2]` on the clip axis and within the input's envelope on
/// both axes; a non-empty result of a closed ring is closed.
pub fn clip_line_axis(line_strip: &Ring, axis: usize, k1: i64, k2: i64) -> (out: Ring)
    requires
        axis <= 1,
        k1 <= k2,
        in_range(k1),
        in_range(k2),
        ring_in_range(line_strip@),
    ensures
        out@ == clip_ring_spec(line_strip@, axis as int, k1, k2),
        ring_in_range(out@),
        ring_within(out@, axis as int, k1, k2),
        preserves_within(out@, line_strip@),
        all_inside(line_strip@, axis as int, k1, k2) ==> out@ == line_strip@,
        !any_inside(line_strip@, axis as int, k1, k2) ==> out@.len() == 0,
        (forall|i: int|
            0 <= i < line_strip@.len() ==> !(k1 <= axis_val(#[trigger] line_strip@[i], axis as int)
                <= k2)) ==> out@.len() == 0,
        ring_closed(line_strip@) ==> ring_closed(out@),
{
    if !scan_any_inside(line_strip, axis, k1, k2) {
        return clip_rejected(line_strip, axis, k1, k2);
    }
    if scan_all_inside(line_strip, axis, k1, k2) {
        return clip_accepted(line_strip, axis, k1, k2);
    }
    // general case: walk the edges
    clip_general(line_strip, axis, k1, k2)
}

/// The trivial reject: nothing of the ring lies inside the interval.
fn clip_rejected(line_strip: &Ring, axis: usize, k1: i64, k2: i64) -> (out: Ring)
    requires
        axis <= 1,
        !any_inside(line_strip@, axis as int, k1, k2),
    ensures
        out@ == clip_ring_spec(line_strip@, axis as int, k1, k2),
        out@.len() == 0,
        all_inside(line_strip@, axis as int, k1, k2) ==> out@ == line_strip@,
{
    let ghost ax = axis as int;
    let ghost rv = line_strip@;
    let out = Ring(Vec::new());
    proof {
        assert(out@ =~= clip_ring_spec(rv, ax, k1, k2));
        if all_inside(rv, ax, k1, k2) {
            if rv.len() > 0 {
                assert(strictly_inside(axis_val(rv[0], ax), k1, k2));
                assert(any_inside(rv, ax, k1, k2));
            }
            assert(out@ =~= rv);
        }
    }
    out
}

/// The trivial accept: the whole ring lies strictly inside the interval,
/// so it is passed through unchanged.
fn clip_accepted(line_strip: &Ring, axis: usize, k1: i64, k2: i64) -> (out: Ring)
    requires
        axis <= 1,
        any_inside(line_strip@, axis as int, k1, k2),
        all_inside(line_strip@, axis as int, k1, k2),
        ring_in_range(line_strip@),
    ensures
        out@ == clip_ring_spec(line_strip@, axis as int, k1, k2),
        out@ == line_strip@,
        ring_in_range(out@),
        ring_within(out@, axis as int, k1, k2),
        preserves_within(out@, line_strip@),
{
    let ghost ax = axis as int;
    let ghost rv = line_strip@;
    let out = ring_copy(line_strip);
    out
}

/// The non-trivial clip: edge walk, boundary-inclusive last vertex,
/// closing point.
fn clip_general(line_strip: &Ring, axis: usize, k1: i64, k2: i64) -> (out: Ring)
    requires
        axis <= 1,
        k1 <= k2,
        in_range(k1),
        in_range(k2),
        ring_in_range(line_strip@),
        any_inside(line_strip@, axis as int, k1, k2),
        !all_inside(line_strip@, axis as int, k1, k2),
    ensures
        out@ == clip_ring_spec(line_strip@, axis as int, k1, k2),
        ring_in_range(out@),
        ring_within(out@, axis as int, k1, k2),
        preserves_within(out@, line_strip@),
        out@.len() > 0 ==> out@[0] == out@[out@.len() - 1],
{
    let ghost ax = axis as int;
    let ghost rv = line_strip@;
    let n = line_strip.0.len();
    assert(n >= 1);
    let mut res: Vec<Coord> = clip_walk(line_strip, axis, k1, k2);
    let ghost walked = res@;

    // the last vertex is kept when it lies within the closed interval
    let last = line_strip.0[n - 1];
    let lv = if axis == 0 {
        last.x
    } else {
        last.y
    };
    if k1 <= lv && lv <= k2 {
        res.push(last);
    }

    let ghost with_last = res@;

    // close the ring if its endpoints differ after clipping
    if res.len() > 0 {
        let first = res[0];
        let endp = res[res.len() - 1];
        if first != endp {
            res.push(first);
        }
    }

    proof {
        let w0 = walk_edges(rv, ax, k1, k2, rv.len() - 1);
        let wl = if k1 <= axis_val(rv[rv.len() - 1], ax) <= k2 {
            w0.push(rv[rv.len() - 1])
        } else {
            w0
        };
        let closed = if wl.len() > 0 && wl[0] != wl[wl.len() - 1] {
            wl.push(wl[0])
        } else {
            wl
        };
        assert(walked == w0);
        assert(with_last == wl);
        assert(res@ == closed);
        assert(clip_ring_spec(rv, ax, k1, k2) == closed);
        assert forall|axq: int, m1: i64, m2: i64|
            ring_within(rv, axq, m1, m2) implies #[trigger] ring_within(res@, axq, m1, m2) by {
            assert(ring_within(walked, axq, m1, m2));
            assert(m1 <= axis_val(rv[n - 1], axq) <= m2);
            assert forall|j: int| 0 <= j < res@.len() implies m1 <= axis_val(
                #[trigger] res@[j],
                axq,
            ) <= m2 by {
                if j < walked.len() {
                    assert(res@[j] == walked[j]);
                } else if j < with_last.len() {
                    assert(res@[j] == rv[n - 1]);
                } else {
                    assert(res@[j] == with_last[0]);
                    if 0 < walked.len() {
                        assert(with_last[0] == walked[0]);
                    } else {
                        assert(with_last[0] == rv[n - 1]);
                    }
                }
            }
        }
    }
    Ring(res)
}

/// Clips the ring against `(k1, k2)` on the axis chosen by `A`; see
/// `clip_line_axis` for the contract's meaning.
pub fn clip_line<A: Axis>(line_strip: &Ring, k1: i64, k2: i64) -> (out: Ring)
    requires
        k1 <= k2,
        in_range(k1),
        in_range(k2),
        ring_in_range(line_strip@),
    ensures
        out@ == clip_ring_spec(line_strip@, A::spec_index(), k1, k2),
        ring_in_range(out@),
        ring_within(out@, A::spec_index(), k1, k2),
        preserves_within(out@, line_strip@),
        all_inside(line_strip@, A::spec_index(), k1, k2) ==> out@ == line_strip@,
        !any_inside(line_strip@, A::spec_index(), k1, k2) ==> out@.len() == 0,
        ring_closed(line_strip@) ==> ring_closed(out@),
{
    let ax = A::index();
    clip_line_axis(line_strip, ax, k1, k2)
}

} // verus!
