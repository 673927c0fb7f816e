//! What the bytes of the water's two generated textures stand for, in whole steps of the exact
//! numbers: the wave field the simulation publishes, and the ripple map.

use vstd::prelude::*;

use crate::fixed::Fixed;
use crate::ripple::{
    chain_bytes, chain_of, halved, lemma_level_sides, lemma_texel_place, level_of_map, level_side,
    map_level, AREA, SIZE,
};
use crate::ripple_sim::{
    above, below, encoded, left_of, right_of, sim_cell, slope_byte, wake_slope, SIM_AREA, SIM_CELLS,
};
use crate::scalar::{clamped, int_of, signed_byte, unit_byte, Scalar};

verus! {

/// Whether a byte shows a quantity of `n` steps, of which a whole has `0x1_0000_0000`: nothing or
/// less is 0, a whole or more is 255, and between them the byte counts the quantity's two hundred and
/// fifty fifths.
pub open spec fn shows(b: u8, n: int) -> bool {
    if n <= 0 {
        b == 0
    } else if n >= 0x1_0000_0000 {
        b == 255
    } else {
        b * 0x1_0000_0000 <= 255 * n < (b + 1) * 0x1_0000_0000
    }
}

/// A byte shows one quantity in order: of two quantities the larger never has the lower byte, and one
/// at least a two hundred and fifty fifth larger has a higher one.
pub proof fn law_bytes_keep_order(a: u8, b: u8, m: int, n: int)
    requires
        shows(a, m),
        shows(b, n),
        m <= n,
    ensures
        a <= b,
        0 <= m && n <= 0x1_0000_0000 && 255 * (n - m) >= 0x1_0000_0000 ==> a < b,
        m == n ==> a == b,
{
}

proof fn lemma_unit_byte(x: Fixed)
    ensures
        shows(unit_byte(x), x.raw as int),
{
    let (zero, one, full) = (int_of::<Fixed>(0), int_of::<Fixed>(1), int_of::<Fixed>(255));
    assert(zero.raw == 0 && one.raw == 0x1_0000_0000 && full.raw == 0xff_0000_0000);
    let c = clamped(x, zero, one);
    assert(0 <= c.raw <= 0x1_0000_0000);
    assert((c.raw * 0xff_0000_0000) / 0x1_0000_0000 == 255 * c.raw);
    let y = c * full;
    assert(y.raw == 255 * c.raw);
}

proof fn lemma_signed_byte(x: Fixed)
    ensures
        shows(signed_byte(x), x.raw as int / 2 + 0x8000_0000),
{
    let half = Fixed::frac(1, 2);
    assert(half.raw == 0x8000_0000);
    assert((x.raw * 0x8000_0000) / 0x1_0000_0000 == x.raw as int / 2);
    let y = x * half;
    assert(y.raw == x.raw as int / 2);
    lemma_unit_byte(y + half);
}

/// The published height of a cell is its own, signed: a cell at rest shows as a half, and the whole
/// range of a byte is a yard of height, half of it below rest.
pub proof fn law_the_published_height_is_the_cells(h: Seq<Fixed>, x: int, y: int)
    requires
        0 <= x < SIM_CELLS,
        0 <= y < SIM_CELLS,
    ensures
        shows(encoded(h)[4 * (192 * y + x) + 2], h[192 * y + x].raw + 0x8000_0000),
        h[192 * y + x].raw == 0 ==> encoded(h)[4 * (192 * y + x) + 2] == 127,
        h[192 * y + x].raw <= -0x8000_0000 ==> encoded(h)[4 * (192 * y + x) + 2] == 0,
        h[192 * y + x].raw >= 0x8000_0000 ==> encoded(h)[4 * (192 * y + x) + 2] == 255,
        h[192 * y + x].raw <= -0x100_0000 ==> encoded(h)[4 * (192 * y + x) + 2] < 127,
        h[192 * y + x].raw >= 0x100_0000 ==> encoded(h)[4 * (192 * y + x) + 2] > 127,
{
    let k = 192 * y + x;
    let v = h[k];
    assert((4 * k + 2) / 4 == k && (4 * k + 2) % 4 == 2);
    let two = int_of::<Fixed>(2);
    assert(two.raw == 0x2_0000_0000);
    assert((v.raw * 0x2_0000_0000) / 0x1_0000_0000 == 2 * v.raw);
    let w = v * two;
    lemma_signed_byte(w);
}

/// The published slopes of a cell are the differences of its neighbours, across in the first channel
/// and along in the second, signed and rising with the water: level water shows as a half, and what
/// they are scaled by is seventeen tenths. At the window's edge a cell is its own neighbour. The
/// fourth channel is full.
pub proof fn law_the_published_slopes_are_the_neighbours_differences(h: Seq<Fixed>, x: int, y: int)
    requires
        0 <= x < SIM_CELLS,
        0 <= y < SIM_CELLS,
        forall|k: int|
            0 <= k < SIM_AREA ==> -0x1000_0000_0000_0000 <= (#[trigger] h[k]).raw
                <= 0x1000_0000_0000_0000,
    ensures
        ({
            let right = h[192 * y + if x < 191 { x + 1 } else { x }].raw;
            let left = h[192 * y + if x > 0 { x - 1 } else { x }].raw;
            let up = h[192 * (if y < 191 { y + 1 } else { y }) + x].raw;
            let down = h[192 * (if y > 0 { y - 1 } else { y }) + x].raw;
            let at = 4 * (192 * y + x);
            let seventeen_tenths = 7301444403int;
            &&& shows(
                encoded(h)[at],
                ((right - left) * seventeen_tenths) / 0x1_0000_0000 + 0x8000_0000,
            )
            &&& shows(
                encoded(h)[at + 1],
                ((up - down) * seventeen_tenths) / 0x1_0000_0000 + 0x8000_0000,
            )
            &&& encoded(h)[at + 3] == 255
        }),
{
    let k = 192 * y + x;
    assert(k % 192 == x && k / 192 == y);
    assert(0 <= k < SIM_AREA);
    assert((4 * k) / 4 == k && (4 * k) % 4 == 0);
    assert((4 * k + 1) / 4 == k && (4 * k + 1) % 4 == 1);
    assert((4 * k + 3) % 4 == 3);
    let (r, l, u, d) = (h[right_of(k)], h[left_of(k)], h[above(k)], h[below(k)]);
    assert(0 <= right_of(k) < SIM_AREA && 0 <= left_of(k) < SIM_AREA);
    assert(0 <= above(k) < SIM_AREA && 0 <= below(k) < SIM_AREA);
    lemma_slope_byte(r - l);
    lemma_slope_byte(u - d);
}

proof fn lemma_slope_byte(d: Fixed)
    requires
        -0x2000_0000_0000_0000 <= d.raw <= 0x2000_0000_0000_0000,
    ensures
        shows(slope_byte(d), (d.raw * 7301444403) / 0x1_0000_0000 + 0x8000_0000),
{
    let (half, cell) = (Fixed::frac(1, 2), sim_cell::<Fixed>());
    assert(int_of::<Fixed>(48).raw == 0x30_0000_0000);
    assert(int_of::<Fixed>(192).raw == 0xc0_0000_0000);
    assert(cell.raw == 0x4000_0000);
    assert(half.raw == 0x8000_0000);
    let twice = half / cell;
    assert(twice.raw == 0x2_0000_0000);
    let steep = wake_slope::<Fixed>();
    assert(steep.raw == 7301444403);
    assert((d.raw * 0x2_0000_0000) / 0x1_0000_0000 == 2 * d.raw);
    let x = d * twice;
    assert(x.raw == 2 * d.raw);
    let p = d.raw * 7301444403;
    assert(x.raw * steep.raw == 2 * p) by (nonlinear_arith)
        requires
            x.raw == 2 * d.raw,
            steep.raw == 7301444403,
            p == d.raw * 7301444403,
    ;
    let y = x * steep;
    let whole = (2 * p) / 0x1_0000_0000;
    assert(whole / 2 == p / 0x1_0000_0000);
    lemma_signed_byte(y);
    if whole > i64::MAX {
        assert(y.raw == i64::MAX);
    } else if whole < i64::MIN {
        assert(y.raw == i64::MIN);
    }
}

/// The ripple map's third channel is the height of its own point, signed: a half below rest shows as
/// nothing, and a half above as full.
pub proof fn law_the_maps_height_is_its_points(h: Seq<Fixed>, x: int, z: int)
    requires
        0 <= x < SIZE,
        0 <= z < SIZE,
    ensures
        shows(map_level(h)[4 * (256 * z + x) + 2], h[256 * z + x].raw + 0x8000_0000),
        map_level(h)[4 * (256 * z + x) + 3] == 255,
{
    let k = 256 * z + x;
    assert((4 * k + 2) / 4 == k && (4 * k + 2) % 4 == 2);
    assert((4 * k + 3) % 4 == 3);
    let half = Fixed::frac(1, 2);
    assert(half.raw == 0x8000_0000);
    lemma_unit_byte(h[k] + half);
}

/// The ripple map's slopes are the differences of a point's neighbours, across in the first channel
/// and along in the second, signed and rising with the height; the neighbours of a point on one edge
/// of the map are on the other.
pub proof fn law_the_maps_slopes_are_the_neighbours_differences(h: Seq<Fixed>, x: int, z: int)
    requires
        0 <= x < SIZE,
        0 <= z < SIZE,
        forall|k: int|
            0 <= k < AREA ==> -0x1000_0000_0000_0000 <= (#[trigger] h[k]).raw
                <= 0x1000_0000_0000_0000,
    ensures
        ({
            let east = h[256 * z + if x < 255 { x + 1 } else { 0 }].raw;
            let west = h[256 * z + if x > 0 { x - 1 } else { 255 }].raw;
            let north = h[256 * (if z < 255 { z + 1 } else { 0 }) + x].raw;
            let south = h[256 * (if z > 0 { z - 1 } else { 255 }) + x].raw;
            let at = 4 * (256 * z + x);
            &&& shows(map_level(h)[at], (east - west) / 2 + 0x8000_0000)
            &&& shows(map_level(h)[at + 1], (north - south) / 2 + 0x8000_0000)
        }),
{
    let k = 256 * z + x;
    assert(k % 256 == x && k / 256 == z);
    assert((4 * k) / 4 == k && (4 * k) % 4 == 0);
    assert((4 * k + 1) / 4 == k && (4 * k + 1) % 4 == 1);
    let (e, w) = ((x + 1) % 256, (x + 255) % 256);
    let (n, s) = ((z + 1) % 256, (z + 255) % 256);
    assert(e == if x < 255 { x + 1 } else { 0 });
    assert(w == if x > 0 { x - 1 } else { 255 });
    assert(n == if z < 255 { z + 1 } else { 0 });
    assert(s == if z > 0 { z - 1 } else { 255 });
    let (he, hw, hn, hs) = (h[256 * z + e], h[256 * z + w], h[256 * n + x], h[256 * s + x]);
    lemma_signed_byte(he - hw);
    lemma_signed_byte(hn - hs);
}

/// A level one size down holds at each point, channel by channel, the rounded mean of the two by two
/// points it stands for.
pub proof fn law_a_halved_point_is_the_mean_of_its_four(
    level: Seq<u8>,
    n: int,
    x: int,
    z: int,
    c: int,
)
    requires
        0 <= x < n,
        0 <= z < n,
        0 <= c < 4,
    ensures
        ({
            let b = halved(level, 2 * n)[4 * (z * n + x) + c];
            let row = 2 * z * (2 * n);
            let sum = level[4 * (row + 2 * x) + c] + level[4 * (row + 2 * x + 1) + c]
                + level[4 * (row + 2 * n + 2 * x) + c] + level[4 * (row + 2 * n + 2 * x + 1) + c];
            4 * b <= sum + 2 < 4 * b + 4
        }),
        halved(level, 2 * n).len() == 4 * (n * n),
{
    lemma_texel_place(x, z, c, n);
    assert((2 * z + 1) * (2 * n) == 2 * z * (2 * n) + 2 * n) by (nonlinear_arith);
    assert((2 * n) / 2 == n);
}

/// The chain starts with the map itself and goes on, each level right after the one before, down to a
/// single point, each half the edge of the one before.
pub proof fn law_the_chain_holds_every_level(h: Seq<Fixed>, n: int, l: int, i: int)
    requires
        0 <= l < n <= 9,
        0 <= i < 4 * (level_side(l) * level_side(l)),
    ensures
        chain_of(h, n)[chain_bytes(l) + i] == level_of_map(h, l)[i],
        level_of_map(h, 0) == map_level(h),
        chain_bytes(0) == 0,
        chain_bytes(l + 1) == chain_bytes(l) + 4 * (level_side(l) * level_side(l)),
        level_side(0) == 256,
        l < 8 ==> level_side(l) == 2 * level_side(l + 1),
        level_side(8) == 1,
        level_of_map(h, l + 1) == halved(level_of_map(h, l), level_side(l)),
    decreases n,
{
    lemma_level_sides();
    lemma_chain_length(h, n - 1);
    lemma_chain_length(h, l);
    lemma_level_length(h, l);
    if l < n - 1 {
        law_the_chain_holds_every_level(h, n - 1, l, i);
        lemma_chain_grows(l + 1, n - 1);
    }
}

/// A longer chain has no fewer bytes.
proof fn lemma_chain_grows(a: int, b: int)
    requires
        0 <= a <= b,
    ensures
        0 <= chain_bytes(a) <= chain_bytes(b),
    decreases b,
{
    if b > 0 {
        let s = level_side(b - 1);
        assert(s * s >= 0) by (nonlinear_arith);
        if a < b {
            lemma_chain_grows(a, b - 1);
        } else {
            lemma_chain_grows(a - 1, b - 1);
        }
    }
}

proof fn lemma_level_length(h: Seq<Fixed>, l: int)
    requires
        0 <= l <= 8,
    ensures
        level_of_map(h, l).len() == 4 * (level_side(l) * level_side(l)),
{
    lemma_level_sides();
    if l == 0 {
        assert(256int * 256int == 65536) by (nonlinear_arith);
    } else {
        let s = level_side(l - 1);
        assert(s / 2 == level_side(l));
        let t = level_side(l);
        assert(t * t >= 0) by (nonlinear_arith);
    }
}

proof fn lemma_chain_length(h: Seq<Fixed>, n: int)
    requires
        0 <= n <= 9,
    ensures
        chain_of(h, n).len() == chain_bytes(n),
    decreases n,
{
    if n > 0 {
        lemma_chain_length(h, n - 1);
        lemma_level_length(h, n - 1);
    }
}

} // verus!
