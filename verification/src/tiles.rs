//! Quadtree tile arithmetic: how many tiles a zoom range holds and the
//! exact rectangle a tile covers.
//!
//! The full extent spans longitudes -180..180 and latitudes -90..90, i.e.
//! 3.6e9 by 1.8e9 coordinate units. A tile at depth `d` covers a
//! `1 / 2^d` fraction per axis, computed by direct arithmetic from the
//! tile numbers (no accumulation over levels), and is widened on each side
//! by half the overlap fraction of its own span so that neighbouring tiles
//! overlap slightly.

use vstd::prelude::*;

use crate::geometry::Coord;
use crate::geometry::Rect;
use crate::geometry::rect_wf;

verus! {

/// Width of the full extent in coordinate units (360 degrees).
pub const WORLD_WIDTH: i64 = 3_600_000_000;

/// Height of the full extent in coordinate units (180 degrees).
pub const WORLD_HEIGHT: i64 = 1_800_000_000;

/// 2 to the power `n`.
pub open spec fn pow2i(n: nat) -> int
    decreases n,
{
    if n == 0 {
        1
    } else {
        2 * pow2i((n - 1) as nat)
    }
}

/// 4 to the power `n`.
pub open spec fn pow4(n: nat) -> int
    decreases n,
{
    if n == 0 {
        1
    } else {
        4 * pow4((n - 1) as nat)
    }
}

/// The number of tiles of a quadtree of depth `z`: the sum of `4^k` for
/// `k` from 0 to `z`.
pub open spec fn tiles_sum(z: nat) -> int
    decreases z,
{
    if z == 0 {
        1
    } else {
        tiles_sum((z - 1) as nat) + pow4(z)
    }
}

pub proof fn lemma_pow4_pos(n: nat)
    ensures
        pow4(n) >= 1,
    decreases n,
{
    if n > 0 {
        lemma_pow4_pos((n - 1) as nat);
    }
}

pub proof fn lemma_tiles_sum_lt_pow4(z: nat)
    ensures
        1 <= tiles_sum(z) < pow4(z + 1),
    decreases z,
{
    lemma_pow4_pos(z);
    if z == 0 {
    } else {
        lemma_tiles_sum_lt_pow4((z - 1) as nat);
    }
}

pub proof fn lemma_pow2i_pos(n: nat)
    ensures
        pow2i(n) >= 1,
    decreases n,
{
    if n > 0 {
        lemma_pow2i_pos((n - 1) as nat);
    }
}

pub proof fn lemma_pow2i_mono(a: nat, b: nat)
    requires
        a <= b,
    ensures
        pow2i(a) <= pow2i(b),
    decreases b,
{
    lemma_pow2i_pos(a);
    if a < b {
        lemma_pow2i_mono(a, (b - 1) as nat);
    }
}

/// The total number of quadtree tiles down to and including zoom `z`.
/// The bound on `z` is the machine limit: the count of a depth-16 tree no
/// longer fits in 32 bits.
pub fn tiles_for_z(z: u32) -> (r: u32)
    requires
        z <= 15,
    ensures
        r as int == tiles_sum(z as nat),
{
    let mut sum: u64 = 0;
    let mut p: u64 = 1;
    let mut k: u32 = 0;
    proof {
        lemma_tiles_sum_lt_pow4(15);
        assert(pow4(16) == 0x1_0000_0000) by {
            reveal_with_fuel(pow4, 17);
        }
    }
    while k <= z
        invariant
            z <= 15,
            0 <= k <= z + 1,
            pow4(16) == 0x1_0000_0000,
            p as int == pow4(k as nat),
            sum as int == if k == 0 {
                0
            } else {
                tiles_sum((k - 1) as nat)
            },
            sum < 0x1_0000_0000,
            p <= 0x1_0000_0000,
        decreases z + 1 - k,
    {
        proof {
            lemma_tiles_sum_lt_pow4(k as nat);
            lemma_tiles_sum_lt_pow4(15);
            if k > 0 {
                lemma_tiles_sum_lt_pow4((k - 1) as nat);
            }
            lemma_pow4_mono((k + 1) as nat, 16);
        }
        sum = sum + p;
        proof {
            assert(sum as int == tiles_sum(k as nat));
        }
        p = p * 4;
        k = k + 1;
    }
    sum as u32
}

pub proof fn lemma_pow4_mono(a: nat, b: nat)
    requires
        a <= b,
    ensures
        pow4(a) <= pow4(b),
    decreases b,
{
    lemma_pow4_pos(a);
    if a < b {
        lemma_pow4_mono(a, (b - 1) as nat);
        lemma_pow4_pos((b - 1) as nat);
    }
}

/// The span of tile `q` of `p` equal cells over `[-total/2, total/2]`,
/// widened on each side by `ppm` millionths of half the cell span.
pub open spec fn tile_span(q: int, total: int, p: int, ppm: int) -> (int, int) {
    let lo0 = -(total / 2) + (q * total) / p;
    let hi0 = -(total / 2) + ((q + 1) * total) / p;
    let margin = ((hi0 - lo0) * ppm) / 2000000;
    (lo0 - margin, hi0 + margin)
}

/// One bound pair of `tile_span`, computed in machine integers.
fn tile_span_exec(q: i64, total: i64, p: i64, ppm: u32) -> (r: (i64, i64))
    requires
        1 <= p <= 0x1000_0000,
        0 <= q < p,
        0 < total <= 0x1_0000_0000,
        total % 2 == 0,
        ppm <= 1_000_000,
    ensures
        (r.0 as int, r.1 as int) == tile_span(q as int, total as int, p as int, ppm as int),
        -2 * (total as int) <= r.0 <= r.1 <= 2 * (total as int),
{
    let half: i64 = total / 2;
    proof {
        let ti = total as int;
        let pi = p as int;
        let qi = q as int;
        assert(half as int == ti / 2) by {
            assert(total as int >= 0);
        }
        assert(0 <= qi * ti <= (qi + 1) * ti <= pi * ti) by (nonlinear_arith)
            requires
                0 <= qi < pi,
                0 < ti,
        ;
        vstd::arithmetic::div_mod::lemma_div_pos_is_pos(qi * ti, pi);
        vstd::arithmetic::div_mod::lemma_div_is_ordered(qi * ti, (qi + 1) * ti, pi);
        vstd::arithmetic::div_mod::lemma_div_is_ordered((qi + 1) * ti, pi * ti, pi);
        vstd::arithmetic::div_mod::lemma_div_multiples_vanish(ti, pi);
        assert(pi * ti == ti * pi) by (nonlinear_arith);
    }
    proof {
        assert((q as i128) * (total as i128) >= 0 && (q as i128) * (total as i128) <= 0x1000_0000
            * 0x1_0000_0000int && (q as i128 + 1) * (total as i128) >= 0 && (q as i128 + 1) * (
        total as i128) <= 0x1000_0000 * 0x1_0000_0000int) by (nonlinear_arith)
            requires
                0 <= (q as i128) < 0x1000_0000,
                0 < (total as i128) <= 0x1_0000_0000,
        ;
    }
    let lo_num: i128 = (q as i128) * (total as i128);
    let hi_num: i128 = (q as i128 + 1) * (total as i128);
    let lo_frac = crate::clip::floor_div_i128(lo_num, p as i128);
    let hi_frac = crate::clip::floor_div_i128(hi_num, p as i128);
    let lo0: i64 = (-(half as i128) + lo_frac) as i64;
    let hi0: i64 = (-(half as i128) + hi_frac) as i64;
    proof {
        assert(lo_frac <= hi_frac);
        assert(((hi0 - lo0) as i128) * (ppm as i128) >= 0 && ((hi0 - lo0) as i128) * (
        ppm as i128) <= 0x1_0000_0000 * 1_000_000int) by (nonlinear_arith)
            requires
                0 <= ((hi0 - lo0) as i128) <= 0x1_0000_0000,
                0 <= (ppm as i128) <= 1_000_000,
        ;
    }
    let margin_num: i128 = ((hi0 - lo0) as i128) * (ppm as i128);
    proof {
        assert(((hi0 - lo0) as i128) * (ppm as i128) >= 0 && ((hi0 - lo0) as i128) * (
        ppm as i128) <= 0x1_0000_0000 * 1_000_000int) by (nonlinear_arith)
            requires
                0 <= ((hi0 - lo0) as i128) <= 0x1_0000_0000,
                0 <= (ppm as i128) <= 1_000_000,
        ;
        vstd::arithmetic::div_mod::lemma_div_pos_is_pos(margin_num as int, 2000000);
        assert(margin_num as int <= 2000000 * (total as int)) by (nonlinear_arith)
            requires
                margin_num as int == ((hi0 - lo0) as int) * (ppm as int),
                0 <= ((hi0 - lo0) as int) <= total as int,
                0 <= (ppm as int) <= 1_000_000,
                total as int > 0,
        ;
        vstd::arithmetic::div_mod::lemma_div_is_ordered(
            margin_num as int,
            2000000 * (total as int),
            2000000,
        );
        vstd::arithmetic::div_mod::lemma_div_multiples_vanish(total as int, 2000000);
    }
    let margin = crate::clip::floor_div_i128(margin_num, 2000000) as i64;
    (lo0 - margin, hi0 + margin)
}

/// The rectangle of tile `(x, y)` at `zoom` (0 is the whole extent and
/// each step of -1 halves the span per axis), widened by the overlap
/// fraction given in millionths. The bounds on the arguments are machine
/// limits, generous against any practical tiling: depth at most 20, tile
/// numbers within the row, overlap at most the whole span.
pub fn get_tile(x: i32, y: i32, zoom: i32, overlap_ppm: u32) -> (r: Rect)
    requires
        -20 <= zoom <= 0,
        0 <= x < pow2i((-zoom) as nat),
        0 <= y < pow2i((-zoom) as nat),
        overlap_ppm <= 1_000_000,
    ensures
        ({
            let p = pow2i((-zoom) as nat);
            let (xlo, xhi) = tile_span(x as int, WORLD_WIDTH as int, p, overlap_ppm as int);
            let (ylo, yhi) = tile_span(y as int, WORLD_HEIGHT as int, p, overlap_ppm as int);
            r.min.x == xlo && r.max.x == xhi && r.min.y == ylo && r.max.y == yhi
        }),
        rect_wf(r),
{
    let depth: u32 = (-zoom) as u32;
    let mut p: i64 = 1;
    let mut j: u32 = 0;
    proof {
        lemma_pow2i_mono(depth as nat, 20);
        assert(pow2i(20) == 0x10_0000) by {
            reveal_with_fuel(pow2i, 21);
        }
    }
    while j < depth
        invariant
            depth <= 20,
            0 <= j <= depth,
            p as int == pow2i(j as nat),
            1 <= p <= 0x10_0000,
        decreases depth - j,
    {
        proof {
            lemma_pow2i_mono((j + 1) as nat, 20);
            assert(pow2i(20) == 0x10_0000) by {
                reveal_with_fuel(pow2i, 21);
            }
            assert(pow2i((j + 1) as nat) == 2 * pow2i(j as nat));
        }
        p = p * 2;
        j = j + 1;
    }
    let (xlo, xhi) = tile_span_exec(x as i64, WORLD_WIDTH, p, overlap_ppm);
    let (ylo, yhi) = tile_span_exec(y as i64, WORLD_HEIGHT, p, overlap_ppm);
    Rect { min: Coord { x: xlo, y: ylo }, max: Coord { x: xhi, y: yhi } }
}

} // verus!
