//! What the ripple map's noise comes to, in whole steps of the exact numbers.

use vstd::prelude::*;

use crate::fixed::{saturated, Fixed};
use crate::geometry::Vec2;
use crate::ripple::{
    cell_noise, diagonal, direction, eased, height_scale, heights, lattice_hash, map_point, octave_sum,
    perlin, pull, raw_height, raw_peak,
};
use crate::scalar::{int_of, Scalar};

verus! {

/// A product that fits, rounded down.
pub proof fn lemma_product(a: Fixed, b: Fixed)
    requires
        -0x1000_0000_0000_0000_0000_0000 <= a.raw * b.raw <= 0x1000_0000_0000_0000_0000_0000,
    ensures
        (a * b).raw * 0x1_0000_0000 <= a.raw * b.raw < ((a * b).raw + 1) * 0x1_0000_0000,
        -0x1000_0000_0000_0000 <= (a * b).raw <= 0x1000_0000_0000_0000,
{
    let p = a.raw * b.raw;
    assert(a * b == saturated(p / 0x1_0000_0000));
}

/// The ease curve in whole steps, times the fourth power of how many steps there are to one: six of the
/// fifth power, less fifteen of the fourth, and ten of the third.
pub open spec fn curve(t: int) -> int {
    6 * (t * t * t * t * t) - 0xf_0000_0000 * (t * t * t * t) + 0xa_0000_0000_0000_0000 * (t * t * t)
}

/// The ease curve runs from nothing to one as six of the fifth power, less fifteen of the fourth, and
/// ten of the third, to within twenty-two of the numbers' steps.
#[verifier::spinoff_prover]
pub proof fn law_the_ease_curve_is_its_powers(t: Fixed)
    requires
        0 <= t.raw <= 0x1_0000_0000,
    ensures
        eased(t).raw * 0x1_0000_0000_0000_0000_0000_0000_0000_0000 <= curve(t.raw as int),
        curve(t.raw as int) <= (eased(t).raw + 22) * 0x1_0000_0000_0000_0000_0000_0000_0000_0000,
        0 <= eased(t).raw <= 0x1_0000_0000,
        t.raw == 0 ==> eased(t).raw == 0,
        t.raw == 0x1_0000_0000 ==> eased(t).raw == 0x1_0000_0000,
{
    let x = t.raw as int;
    let a = t * t;
    let sq = x * x;
    assert(0 <= sq <= 0x1_0000_0000_0000_0000) by (nonlinear_arith)
        requires
            sq == x * x,
            0 <= x <= 0x1_0000_0000,
    ;
    lemma_product(t, t);
    let y = a.raw as int;
    let ax = y * x;
    assert(0 <= ax <= 0x1_0000_0000_0000_0000) by (nonlinear_arith)
        requires
            ax == y * x,
            0 <= x <= 0x1_0000_0000,
            0 <= y <= 0x1_0000_0000,
    ;
    lemma_product(a, t);
    let b = a * t;
    let (six, fifteen, ten) = (int_of::<Fixed>(6), int_of::<Fixed>(15), int_of::<Fixed>(10));
    assert(six.raw == 0x6_0000_0000 && fifteen.raw == 0xf_0000_0000 && ten.raw == 0xa_0000_0000);
    let xs = x * six.raw;
    assert(xs == 0x6_0000_0000 * x) by (nonlinear_arith)
        requires
            xs == x * six.raw,
            six.raw == 0x6_0000_0000,
    ;
    assert(xs / 0x1_0000_0000 == 6 * x);
    assert((t * six).raw == 6 * x);
    let d = t * six - fifteen;
    assert(d.raw == 6 * x - 0xf_0000_0000);
    let dr = d.raw as int;
    let xd = x * dr;
    assert(xd == 6 * sq - 0xf_0000_0000 * x) by (nonlinear_arith)
        requires
            xd == x * dr,
            sq == x * x,
            dr == 6 * x - 0xf_0000_0000,
    ;
    lemma_product(t, d);
    let e = t * d;
    let f = e + ten;
    assert(f.raw == e.raw + 0xa_0000_0000);
    let (p, q) = (b.raw as int, f.raw as int);
    lemma_quadratic(x, sq);
    assert(0 <= q <= 0xa_0000_0000);
    assert(0 <= p <= 0x1_0000_0000);
    let pq = p * q;
    assert(0 <= pq <= 0xa_0000_0000_0000_0000) by (nonlinear_arith)
        requires
            pq == p * q,
            0 <= p <= 0x1_0000_0000,
            0 <= q <= 0xa_0000_0000,
    ;
    lemma_product(b, f);
    let g = b * f;
    assert(eased(t) == g);
    lemma_curve(x, sq, y, p, q, g.raw as int, pq);
    lemma_curve_is_at_most_one(x);
    if x == 0 {
        assert(sq == 0 && ax == 0) by (nonlinear_arith)
            requires
                sq == x * x,
                ax == y * x,
                x == 0,
        ;
        assert(p == 0);
        assert(pq == 0) by (nonlinear_arith)
            requires
                pq == p * q,
                p == 0,
        ;
    }
    if x == 0x1_0000_0000 {
        assert(sq == 0x1_0000_0000 * 0x1_0000_0000) by (nonlinear_arith)
            requires
                sq == x * x,
                x == 0x1_0000_0000,
        ;
        assert(y == 0x1_0000_0000);
        assert(ax == 0x1_0000_0000 * 0x1_0000_0000) by (nonlinear_arith)
            requires
                ax == y * x,
                x == 0x1_0000_0000,
                y == 0x1_0000_0000,
        ;
        assert(p == 0x1_0000_0000 && q == 0x1_0000_0000);
        assert(pq == 0x1_0000_0000 * 0x1_0000_0000) by (nonlinear_arith)
            requires
                pq == p * q,
                p == 0x1_0000_0000,
                q == 0x1_0000_0000,
        ;
    }
}

/// What the third power is multiplied by lies between one and ten.
proof fn lemma_quadratic(x: int, sq: int)
    requires
        0 <= x <= 0x1_0000_0000,
        sq == x * x,
    ensures
        0x1_0000_0000_0000_0000 <= 6 * sq - 0xf_0000_0000 * x + 0xa_0000_0000_0000_0000,
        6 * sq - 0xf_0000_0000 * x <= 0,
{
    assert(sq <= 0x1_0000_0000 * x) by (nonlinear_arith)
        requires
            0 <= x <= 0x1_0000_0000,
            sq == x * x,
    ;
    let r = 0x1_0000_0000 - x;
    let m = r * (9 * 0x1_0000_0000 - 6 * x);
    assert(m >= 0) by (nonlinear_arith)
        requires
            m == r * (9 * 0x1_0000_0000 - 6 * x),
            r >= 0,
            9 * 0x1_0000_0000 - 6 * x >= 0,
    ;
    assert(m == 9 * 0x1_0000_0000 * 0x1_0000_0000 - 0xf_0000_0000 * x + 6 * sq) by (nonlinear_arith)
        requires
            m == r * (9 * 0x1_0000_0000 - 6 * x),
            r == 0x1_0000_0000 - x,
            sq == x * x,
    ;
}

/// What the roundings on the way come to.
#[verifier::spinoff_prover]
proof fn lemma_curve(x: int, sq: int, y: int, p: int, q: int, g: int, pq: int)
    requires
        0 <= x <= 0x1_0000_0000,
        sq == x * x,
        0 <= sq <= 0x1_0000_0000_0000_0000,
        0 <= y <= 0x1_0000_0000,
        y * 0x1_0000_0000 <= sq < (y + 1) * 0x1_0000_0000,
        p * 0x1_0000_0000 <= y * x < (p + 1) * 0x1_0000_0000,
        0 <= p <= 0x1_0000_0000,
        0 <= q,
        q * 0x1_0000_0000 <= 6 * sq - 0xf_0000_0000 * x + 0xa_0000_0000_0000_0000 < (q + 1)
            * 0x1_0000_0000,
        pq == p * q,
        g * 0x1_0000_0000 <= pq < (g + 1) * 0x1_0000_0000,
    ensures
        g * 0x1_0000_0000_0000_0000_0000_0000_0000_0000 <= curve(x),
        curve(x) <= (g + 22) * 0x1_0000_0000_0000_0000_0000_0000_0000_0000,
{
    let z = 6 * sq - 0xf_0000_0000 * x + 0xa_0000_0000_0000_0000;
    lemma_quadratic(x, sq);
    let cube = sq * x;
    let yx = y * x;
    // the third power, to within two
    let r1 = sq - y * 0x1_0000_0000;
    assert(cube == 0x1_0000_0000 * yx + r1 * x) by (nonlinear_arith)
        requires
            cube == sq * x,
            yx == y * x,
            r1 == sq - y * 0x1_0000_0000,
    ;
    let rx = r1 * x;
    assert(0 <= rx <= 0x1_0000_0000_0000_0000) by (nonlinear_arith)
        requires
            rx == r1 * x,
            0 <= r1 <= 0x1_0000_0000,
            0 <= x <= 0x1_0000_0000,
    ;
    let s = cube - p * 0x1_0000_0000_0000_0000;
    assert(0 <= s <= 0x2_0000_0000_0000_0000);
    assert(0 <= cube <= 0x1_0000_0000_0000_0000_0000_0000) by (nonlinear_arith)
        requires
            cube == sq * x,
            0 <= sq <= 0x1_0000_0000_0000_0000,
            0 <= x <= 0x1_0000_0000,
    ;
    let r3 = z - q * 0x1_0000_0000;
    let cz = cube * z;
    let third = p * 0x1_0000_0000_0000_0000;
    let other = q * 0x1_0000_0000;
    assert(third * other == 0x1_0000_0000_0000_0000_0000_0000 * pq) by (nonlinear_arith)
        requires
            third == p * 0x1_0000_0000_0000_0000,
            other == q * 0x1_0000_0000,
            pq == p * q,
    ;
    let (sz, tr) = (s * z, third * r3);
    assert(cz == third * other + sz + tr) by (nonlinear_arith)
        requires
            cz == cube * z,
            cube == third + s,
            z == other + r3,
            sz == s * z,
            tr == third * r3,
    ;
    assert(0 <= sz <= 0x14_0000_0000_0000_0000_0000_0000_0000_0000) by (nonlinear_arith)
        requires
            sz == s * z,
            0 <= s <= 0x2_0000_0000_0000_0000,
            0 <= z <= 0xa_0000_0000_0000_0000,
    ;
    assert(0 <= tr <= 0x1_0000_0000_0000_0000_0000_0000_0000_0000) by (nonlinear_arith)
        requires
            tr == third * r3,
            0 <= third <= 0x1_0000_0000_0000_0000_0000_0000,
            0 <= r3 <= 0x1_0000_0000,
    ;
    lemma_powers(x, sq, cube, z);
}

proof fn lemma_powers(x: int, sq: int, cube: int, z: int)
    requires
        sq == x * x,
        cube == sq * x,
        z == 6 * sq - 0xf_0000_0000 * x + 0xa_0000_0000_0000_0000,
    ensures
        curve(x) == cube * z,
{
    assert(x * x * x == cube);
    let four = cube * x;
    let five = four * x;
    assert(cube * sq == five) by (nonlinear_arith)
        requires
            five == four * x,
            four == cube * x,
            sq == x * x,
    ;
    assert(cube * z == 6 * (cube * sq) - 0xf_0000_0000 * (cube * x) + 0xa_0000_0000_0000_0000 * cube)
        by (nonlinear_arith)
        requires
            z == 6 * sq - 0xf_0000_0000 * x + 0xa_0000_0000_0000_0000,
    ;
}

/// The curve never passes one: what it lacks is the third power of what is left, times a number that
/// is not negative.
#[verifier::spinoff_prover]
proof fn lemma_curve_is_at_most_one(x: int)
    requires
        0 <= x <= 0x1_0000_0000,
    ensures
        curve(x) <= 0x1_0000_0000_0000_0000_0000_0000_0000_0000_0000_0000,
{
    let sq = x * x;
    let cube = x * x * x;
    let four = x * x * x * x;
    let five = x * x * x * x * x;
    let m = 0x1_0000_0000 - x;
    let m2 = m * m;
    assert(m2 == 0x1_0000_0000_0000_0000 - 0x2_0000_0000 * x + sq) by (nonlinear_arith)
        requires
            m2 == m * m,
            m == 0x1_0000_0000 - x,
            sq == x * x,
    ;
    let m3 = m2 * m;
    assert(m3 == 0x1_0000_0000_0000_0000_0000_0000 - 0x3_0000_0000_0000_0000 * x + 0x3_0000_0000 * sq
        - cube) by (nonlinear_arith)
        requires
            m3 == m2 * m,
            m == 0x1_0000_0000 - x,
            m2 == 0x1_0000_0000_0000_0000 - 0x2_0000_0000 * x + sq,
            sq == x * x,
            cube == x * x * x,
    ;
    assert(m3 >= 0) by (nonlinear_arith)
        requires
            m3 == m2 * m,
            m2 == m * m,
            m >= 0,
    ;
    let (mx, ms) = (m3 * x, m3 * sq);
    assert(mx == 0x1_0000_0000_0000_0000_0000_0000 * x - 0x3_0000_0000_0000_0000 * sq + 0x3_0000_0000
        * cube - four) by (nonlinear_arith)
        requires
            mx == m3 * x,
            m3 == 0x1_0000_0000_0000_0000_0000_0000 - 0x3_0000_0000_0000_0000 * x + 0x3_0000_0000 * sq
                - cube,
            sq == x * x,
            cube == x * x * x,
            four == x * x * x * x,
    ;
    assert(ms == mx * x) by (nonlinear_arith)
        requires
            ms == m3 * sq,
            mx == m3 * x,
            sq == x * x,
    ;
    assert(ms == 0x1_0000_0000_0000_0000_0000_0000 * sq - 0x3_0000_0000_0000_0000 * cube
        + 0x3_0000_0000 * four - five) by (nonlinear_arith)
        requires
            ms == mx * x,
            mx == 0x1_0000_0000_0000_0000_0000_0000 * x - 0x3_0000_0000_0000_0000 * sq + 0x3_0000_0000
                * cube - four,
            sq == x * x,
            cube == x * x * x,
            four == x * x * x * x,
            five == x * x * x * x * x,
    ;
    assert(mx >= 0 && ms >= 0) by (nonlinear_arith)
        requires
            mx == m3 * x,
            ms == mx * x,
            m3 >= 0,
            x >= 0,
    ;
}

/// The lattice point's own number, which picks the way its ground slopes.
pub open spec fn slope_number(gx: int, gz: int, seed: u32) -> u32 {
    lattice_hash(gx as u32, gz as u32, seed) & 7
}

/// A lattice point's ground slopes one of eight ways. The first four are along an axis: an odd number
/// is downwards, and the upper two are along the second axis. The others are along the diagonals: an
/// odd number is downwards along the first axis, and the upper two are downwards along the second; a
/// diagonal's slope is one over the root of two on either axis, but for what the numbers round.
#[verifier::spinoff_prover]
pub proof fn law_the_ground_slopes_one_of_eight_ways(gx: int, gz: int, seed: u32, dx: Fixed, dz: Fixed)
    requires
        -0x1_0000_0000 <= dx.raw <= 0x1_0000_0000,
        -0x1_0000_0000 <= dz.raw <= 0x1_0000_0000,
    ensures
        ({
            let n = slope_number(gx, gz, seed);
            let p = pull(gx, gz, seed, dx, dz).raw;
            &&& n <= 7
            &&& n == 0 ==> p == dx.raw
            &&& n == 1 ==> p == -dx.raw
            &&& n == 2 ==> p == dz.raw
            &&& n == 3 ==> p == -dz.raw
            &&& n == 4 ==> diagonally(p as int, dx.raw + dz.raw)
            &&& n == 5 ==> diagonally(p as int, dz.raw - dx.raw)
            &&& n == 6 ==> diagonally(p as int, dx.raw - dz.raw)
            &&& n == 7 ==> diagonally(p as int, -dx.raw - dz.raw)
            &&& -0x2_0000_0000 <= p <= 0x2_0000_0000
        }),
{
    let h = lattice_hash(gx as u32, gz as u32, seed);
    let n = slope_number(gx, gz, seed);
    assert(h & 7 <= 7) by (bit_vector);
    let d = direction::<Fixed>(n);
    assert(int_of::<Fixed>(0).raw == 0 && int_of::<Fixed>(1).raw == 0x1_0000_0000
        && int_of::<Fixed>(-1).raw == -0x1_0000_0000);
    assert(diagonal::<Fixed>().raw == 3037000499);
    let (a, b) = (d.x.raw as int, d.y.raw as int);
    lemma_side(d.x, dx);
    lemma_side(d.y, dz);
}

/// Whether `p` is `n` over the root of two, to within two steps.
pub open spec fn diagonally(p: int, n: int) -> bool {
    &&& p * 0x1_0000_0000 <= 3037000499 * n + 0x1_0000_0000
    &&& 3037000499 * n - 0x2_0000_0000 <= p * 0x1_0000_0000
}

proof fn lemma_side(way: Fixed, off: Fixed)
    requires
        way.raw == 0 || way.raw == 0x1_0000_0000 || way.raw == -0x1_0000_0000 || way.raw == 3037000499
            || way.raw == -3037000499,
        -0x1_0000_0000 <= off.raw <= 0x1_0000_0000,
    ensures
        way.raw == 0 ==> (way * off).raw == 0,
        way.raw == 0x1_0000_0000 ==> (way * off).raw == off.raw,
        way.raw == -0x1_0000_0000 ==> (way * off).raw == -off.raw,
        way.raw == 3037000499 ==> (way * off).raw == (3037000499 * off.raw) / 0x1_0000_0000,
        way.raw == -3037000499 ==> (way * off).raw == (-3037000499 * off.raw) / 0x1_0000_0000,
{
    let p = way.raw * off.raw;
    if way.raw == 0 {
        assert(p == 0) by (nonlinear_arith)
            requires
                p == way.raw * off.raw,
                way.raw == 0,
        ;
    } else if way.raw == 0x1_0000_0000 {
        assert(p == 0x1_0000_0000 * off.raw) by (nonlinear_arith)
            requires
                p == way.raw * off.raw,
                way.raw == 0x1_0000_0000,
        ;
    } else if way.raw == -0x1_0000_0000 {
        assert(p == -0x1_0000_0000 * off.raw) by (nonlinear_arith)
            requires
                p == way.raw * off.raw,
                way.raw == -0x1_0000_0000,
        ;
    } else if way.raw == 3037000499 {
        assert(p == 3037000499 * off.raw) by (nonlinear_arith)
            requires
                p == way.raw * off.raw,
                way.raw == 3037000499,
        ;
    } else {
        assert(p == -3037000499 * off.raw) by (nonlinear_arith)
            requires
                p == way.raw * off.raw,
                way.raw == -3037000499,
        ;
    }
    assert(way * off == saturated(p / 0x1_0000_0000));
}

/// A lattice point's hash, undone: what was mixed into it.
pub open spec fn unmixed(h: u32) -> int {
    let b = h ^ (h >> 13) ^ (h >> 26);
    let c = ((b as int * 0x4144_4C71) % 0x1_0000_0000) as u32;
    (c ^ (c >> 15) ^ (c >> 30)) as int
}

/// A hash can be undone: it holds, mixed, the point's two numbers and the seed, each a fixed number of
/// times over.
pub proof fn law_a_hash_can_be_undone(gx: u32, gz: u32, seed: u32)
    ensures
        unmixed(lattice_hash(gx, gz, seed)) == (gx * 0x9E37_79B9 + gz * 0x85EB_CA6B + seed
            * 0xC2B2_AE35) % 0x1_0000_0000,
{
    let (x, z, t) = (
        gx.wrapping_mul(0x9E37_79B9),
        gz.wrapping_mul(0x85EB_CA6B),
        seed.wrapping_mul(0xC2B2_AE35),
    );
    let a = x.wrapping_add(z).wrapping_add(t);
    lemma_sum_wraps(
        gx * 0x9E37_79B9,
        gz * 0x85EB_CA6B,
        seed * 0xC2B2_AE35,
        x,
        z,
        t,
    );
    let c = a ^ (a >> 15);
    let b = c.wrapping_mul(0x2545_F491);
    let h = b ^ (b >> 13);
    assert(h == lattice_hash(gx, gz, seed));
    assert((b ^ (b >> 13)) ^ ((b ^ (b >> 13)) >> 13) ^ ((b ^ (b >> 13)) >> 26) == b) by (bit_vector);
    assert((a ^ (a >> 15)) ^ ((a ^ (a >> 15)) >> 15) ^ ((a ^ (a >> 15)) >> 30) == a) by (bit_vector);
    lemma_times_undone(c as int, b as int);
}

proof fn lemma_sum_wraps(p: int, q: int, r: int, x: u32, z: u32, t: u32)
    requires
        x == p % 0x1_0000_0000,
        z == q % 0x1_0000_0000,
        t == r % 0x1_0000_0000,
    ensures
        x.wrapping_add(z).wrapping_add(t) == (p + q + r) % 0x1_0000_0000,
{
}

proof fn lemma_times_undone(c: int, b: int)
    requires
        0 <= c < 0x1_0000_0000,
        b == (c * 0x2545_F491) % 0x1_0000_0000,
    ensures
        (b * 0x4144_4C71) % 0x1_0000_0000 == c,
{
    let q = (c * 0x2545_F491) / 0x1_0000_0000;
    assert(b == c * 0x2545_F491 - q * 0x1_0000_0000);
    assert(0x2545_F491int * 0x4144_4C71 == 1 + 0x980B4CF * 0x1_0000_0000int);
    let m = 0x980B4CF * c - 0x4144_4C71 * q;
    assert(b * 0x4144_4C71 == c + m * 0x1_0000_0000);
}

/// The part of a number past its whole.
pub open spec fn past(n: int) -> int {
    n % 0x1_0000_0000
}

/// A corner of the lattice cell a point is in, and how its ground's slope rises to the point. The
/// corners beyond the last are the first again.
pub open spec fn corner_rise(p: Vec2<Fixed>, period: int, seed: u32, i: int, j: int) -> int {
    pull(
        (p.x.raw as int / 0x1_0000_0000 + i) % period,
        (p.y.raw as int / 0x1_0000_0000 + j) % period,
        seed,
        Fixed { raw: (past(p.x.raw as int) - i * 0x1_0000_0000) as i64 },
        Fixed { raw: (past(p.y.raw as int) - j * 0x1_0000_0000) as i64 },
    ).raw as int
}

/// The four corners' rises, each by the share of it that is taken.
pub open spec fn weighed(n00: int, n10: int, n01: int, n11: int, u: int, v: int) -> int {
    (0x1_0000_0000 - u) * (0x1_0000_0000 - v) * n00 + u * (0x1_0000_0000 - v) * n10 + (0x1_0000_0000
        - u) * v * n01 + u * v * n11
}

/// Noise is what its lattice cell's four corners make of it: each corner's rise to the point, by the
/// share that the ease curve gives the corner on either axis, to within two of the numbers' steps.
pub proof fn law_noise_is_its_corners_rises_weighed(p: Vec2<Fixed>, period: int, seed: u32)
    requires
        0 < period,
        -0x1000_0000_0000_0000 <= p.x.raw <= 0x1000_0000_0000_0000,
        -0x1000_0000_0000_0000 <= p.y.raw <= 0x1000_0000_0000_0000,
    ensures
        ({
            let u = eased(Fixed { raw: past(p.x.raw as int) as i64 }).raw as int;
            let v = eased(Fixed { raw: past(p.y.raw as int) as i64 }).raw as int;
            let w = weighed(
                corner_rise(p, period, seed, 0, 0),
                corner_rise(p, period, seed, 1, 0),
                corner_rise(p, period, seed, 0, 1),
                corner_rise(p, period, seed, 1, 1),
                u,
                v,
            );
            let n = perlin(p, period, seed).raw;
            &&& n * 0x1_0000_0000_0000_0000 <= w
            &&& w < (n + 2) * 0x1_0000_0000_0000_0000
            &&& -0x2_0000_0002 <= n <= 0x2_0000_0001
        }),
{
    let (x, z) = (past(p.x.raw as int), past(p.y.raw as int));
    let (xi, zi) = (p.x.raw as int / 0x1_0000_0000, p.y.raw as int / 0x1_0000_0000);
    let (xf, zf) = (Fixed { raw: x as i64 }, Fixed { raw: z as i64 });
    lemma_cell_of(p.x);
    lemma_cell_of(p.y);
    let (x0, z0) = (xi % period, zi % period);
    assert(perlin(p, period, seed) == cell_noise(x0, z0, period, seed, xf, zf));
    vstd::arithmetic::div_mod::lemma_add_mod_noop(xi, 1, period);
    vstd::arithmetic::div_mod::lemma_add_mod_noop(zi, 1, period);
    vstd::arithmetic::div_mod::lemma_add_mod_noop(x0, 1, period);
    vstd::arithmetic::div_mod::lemma_add_mod_noop(z0, 1, period);
    vstd::arithmetic::div_mod::lemma_mod_twice(xi, period);
    vstd::arithmetic::div_mod::lemma_mod_twice(zi, period);
    assert((x0 + 1) % period == (xi + 1) % period);
    assert((z0 + 1) % period == (zi + 1) % period);
    let one = int_of::<Fixed>(1);
    assert(one.raw == 0x1_0000_0000);
    assert(xf - one == Fixed { raw: (x - 0x1_0000_0000) as i64 });
    assert(zf - one == Fixed { raw: (z - 0x1_0000_0000) as i64 });
    assert(xf == Fixed { raw: (x - 0 * 0x1_0000_0000) as i64 });
    assert(zf == Fixed { raw: (z - 0 * 0x1_0000_0000) as i64 });
    lemma_cell_weighed(x0, z0, period, seed, xf, zf);
}

proof fn lemma_cell_of(x: Fixed)
    requires
        -0x1000_0000_0000_0000 <= x.raw <= 0x1000_0000_0000_0000,
    ensures
        (x - x.floored()).raw == past(x.raw as int),
        x.floored().whole() as int == x.raw as int / 0x1_0000_0000,
{
    let w = x.raw as int / 0x1_0000_0000;
    assert(x.floored().raw == w * 0x1_0000_0000);
}

#[verifier::spinoff_prover]
proof fn lemma_cell_weighed(x0: int, z0: int, period: int, seed: u32, xf: Fixed, zf: Fixed)
    requires
        0 <= xf.raw < 0x1_0000_0000,
        0 <= zf.raw < 0x1_0000_0000,
    ensures
        ({
            let one = int_of::<Fixed>(1);
            let w = weighed(
                pull(x0, z0, seed, xf, zf).raw as int,
                pull((x0 + 1) % period, z0, seed, xf - one, zf).raw as int,
                pull(x0, (z0 + 1) % period, seed, xf, zf - one).raw as int,
                pull((x0 + 1) % period, (z0 + 1) % period, seed, xf - one, zf - one).raw as int,
                eased(xf).raw as int,
                eased(zf).raw as int,
            );
            let n = cell_noise(x0, z0, period, seed, xf, zf).raw;
            &&& n * 0x1_0000_0000_0000_0000 <= w
            &&& w < (n + 2) * 0x1_0000_0000_0000_0000
            &&& -0x2_0000_0002 <= n <= 0x2_0000_0001
        }),
{
    let one = int_of::<Fixed>(1);
    assert(one.raw == 0x1_0000_0000);
    let (x1, z1) = ((x0 + 1) % period, (z0 + 1) % period);
    let (xb, zb) = (xf - one, zf - one);
    assert(xb.raw == xf.raw - 0x1_0000_0000 && zb.raw == zf.raw - 0x1_0000_0000);
    law_the_ground_slopes_one_of_eight_ways(x0, z0, seed, xf, zf);
    law_the_ground_slopes_one_of_eight_ways(x1, z0, seed, xb, zf);
    law_the_ground_slopes_one_of_eight_ways(x0, z1, seed, xf, zb);
    law_the_ground_slopes_one_of_eight_ways(x1, z1, seed, xb, zb);
    law_the_ease_curve_is_its_powers(xf);
    law_the_ease_curve_is_its_powers(zf);
    lemma_blend(
        pull(x0, z0, seed, xf, zf),
        pull(x1, z0, seed, xb, zf),
        pull(x0, z1, seed, xf, zb),
        pull(x1, z1, seed, xb, zb),
        eased(xf),
        eased(zf),
    );
}

/// One number and a share of the way to another.
spec fn part_way(a: Fixed, b: Fixed, u: Fixed) -> Fixed {
    a + u * (b - a)
}

proof fn lemma_part_way(a: Fixed, b: Fixed, u: Fixed, most: int)
    requires
        0 <= most <= 0x100_0000_0000,
        -most <= a.raw <= most,
        -most <= b.raw <= most,
        0 <= u.raw <= 0x1_0000_0000,
    ensures
        ({
            let r = part_way(a, b, u).raw * 0x1_0000_0000;
            let s = (0x1_0000_0000 - u.raw) * a.raw + u.raw * b.raw;
            &&& r <= s < r + 0x1_0000_0000
            &&& -most - 1 <= part_way(a, b, u).raw <= most
        }),
{
    let d = b - a;
    assert(d.raw == b.raw - a.raw);
    let (x, y, n) = (u.raw as int, d.raw as int, u.raw * d.raw);
    assert(-0x2_0000_0000 * most <= n <= 0x2_0000_0000 * most) by (nonlinear_arith)
        requires
            n == x * y,
            0 <= x <= 0x1_0000_0000,
            -2 * most <= y <= 2 * most,
    ;
    lemma_product(u, d);
    let (f, g) = (a.raw as int, b.raw as int);
    let s = (0x1_0000_0000 - x) * f + x * g;
    assert(s == 0x1_0000_0000 * f + n) by (nonlinear_arith)
        requires
            s == (0x1_0000_0000 - x) * f + x * g,
            n == x * y,
            y == g - f,
    ;
    assert(-0x1_0000_0000 * most <= s <= 0x1_0000_0000 * most) by (nonlinear_arith)
        requires
            s == (0x1_0000_0000 - x) * f + x * g,
            0 <= x <= 0x1_0000_0000,
            -most <= f <= most,
            -most <= g <= most,
    ;
    assert(part_way(a, b, u).raw == a.raw + (u * d).raw);
}

#[verifier::spinoff_prover]
proof fn lemma_blend(n00: Fixed, n10: Fixed, n01: Fixed, n11: Fixed, u: Fixed, v: Fixed)
    requires
        -0x2_0000_0000 <= n00.raw <= 0x2_0000_0000,
        -0x2_0000_0000 <= n10.raw <= 0x2_0000_0000,
        -0x2_0000_0000 <= n01.raw <= 0x2_0000_0000,
        -0x2_0000_0000 <= n11.raw <= 0x2_0000_0000,
        0 <= u.raw <= 0x1_0000_0000,
        0 <= v.raw <= 0x1_0000_0000,
    ensures
        ({
            let a = n00 + u * (n10 - n00);
            let b = n01 + u * (n11 - n01);
            let n = (a + v * (b - a)).raw;
            let w = weighed(
                n00.raw as int,
                n10.raw as int,
                n01.raw as int,
                n11.raw as int,
                u.raw as int,
                v.raw as int,
            );
            &&& n * 0x1_0000_0000_0000_0000 <= w
            &&& w < (n + 2) * 0x1_0000_0000_0000_0000
            &&& -0x2_0000_0002 <= n <= 0x2_0000_0001
        }),
{
    let (a, b) = (part_way(n00, n10, u), part_way(n01, n11, u));
    lemma_part_way(n00, n10, u, 0x2_0000_0000);
    lemma_part_way(n01, n11, u, 0x2_0000_0000);
    lemma_part_way(a, b, v, 0x2_0000_0001);
    let n = part_way(a, b, v).raw as int;
    let (x, y) = (u.raw as int, v.raw as int);
    let sa = (0x1_0000_0000 - x) * n00.raw + x * n10.raw;
    let sb = (0x1_0000_0000 - x) * n01.raw + x * n11.raw;
    let (ra, rb) = (sa - a.raw * 0x1_0000_0000, sb - b.raw * 0x1_0000_0000);
    let w = (0x1_0000_0000 - y) * sa + y * sb;
    lemma_regroup(n00.raw as int, n10.raw as int, n01.raw as int, n11.raw as int, x, y, sa, sb);
    let inner = (0x1_0000_0000 - y) * a.raw + y * b.raw;
    let e = (0x1_0000_0000 - y) * ra + y * rb;
    assert(w == 0x1_0000_0000 * inner + e) by (nonlinear_arith)
        requires
            w == (0x1_0000_0000 - y) * sa + y * sb,
            inner == (0x1_0000_0000 - y) * a.raw + y * b.raw,
            e == (0x1_0000_0000 - y) * ra + y * rb,
            sa == ra + a.raw * 0x1_0000_0000,
            sb == rb + b.raw * 0x1_0000_0000,
    ;
    assert(0 <= e <= 0x1_0000_0000_0000_0000) by (nonlinear_arith)
        requires
            e == (0x1_0000_0000 - y) * ra + y * rb,
            0 <= y <= 0x1_0000_0000,
            0 <= ra <= 0x1_0000_0000,
            0 <= rb <= 0x1_0000_0000,
    ;
}

pub proof fn lemma_regroup(
    n00: int,
    n10: int,
    n01: int,
    n11: int,
    x: int,
    y: int,
    sa: int,
    sb: int,
)
    requires
        sa == (0x1_0000_0000 - x) * n00 + x * n10,
        sb == (0x1_0000_0000 - x) * n01 + x * n11,
    ensures
        weighed(n00, n10, n01, n11, x, y) == (0x1_0000_0000 - y) * sa + y * sb,
{
    let (s, t) = (0x1_0000_0000 - x, 0x1_0000_0000 - y);
    assert(t * (s * n00 + x * n10) == s * t * n00 + x * t * n10) by (nonlinear_arith);
    assert(y * (s * n01 + x * n11) == s * y * n01 + x * y * n11) by (nonlinear_arith);
}

/// Noise is nothing where a lattice point is.
pub proof fn law_noise_is_nothing_at_a_lattice_point(p: Vec2<Fixed>, period: int, seed: u32)
    requires
        0 < period,
        -0x1000_0000_0000_0000 <= p.x.raw <= 0x1000_0000_0000_0000,
        -0x1000_0000_0000_0000 <= p.y.raw <= 0x1000_0000_0000_0000,
        past(p.x.raw as int) == 0,
        past(p.y.raw as int) == 0,
    ensures
        perlin(p, period, seed).raw == 0,
{
    lemma_cell_of(p.x);
    lemma_cell_of(p.y);
    let nothing = Fixed { raw: 0 };
    law_the_ease_curve_is_its_powers(nothing);
    assert(forall|v: Fixed| #[trigger] (nothing * v) == nothing) by {
        assert forall|v: Fixed| #[trigger] (nothing * v) == nothing by {
            lemma_nothing_times(v);
        }
    }
    let (x0, z0) = (p.x.raw as int / 0x1_0000_0000 % period, p.y.raw as int / 0x1_0000_0000 % period);
    law_the_ground_slopes_one_of_eight_ways(x0, z0, seed, nothing, nothing);
    assert(pull(x0, z0, seed, nothing, nothing).raw == 0);
}

proof fn lemma_nothing_times(v: Fixed)
    ensures
        (Fixed { raw: 0 }) * v == (Fixed { raw: 0 }),
{
    let p = 0 * v.raw;
    assert(p == 0);
}

/// A point of the map, where an octave has `period` lattice points across it. The map is two hundred
/// and fifty-six points each way, row by row.
pub open spec fn octave_point(k: int, period: int) -> Vec2<Fixed> {
    Vec2 {
        x: Fixed { raw: (k % 256 * period * 0x100_0000) as i64 },
        y: Fixed { raw: (k / 256 * period * 0x100_0000) as i64 },
    }
}

/// One octave's noise at a point of the map, in whole steps. Every octave has a seed of its own.
pub open spec fn octave(seed: u32, k: int, period: int) -> int {
    perlin(octave_point(k, period), period, (seed + period) as u32).raw as int
}

/// A point of the map is as high as the sum of four octaves, each twice as fine as the one before: the
/// first in full, the second by half, the third by twenty-eight hundredths and the last by fourteen; to
/// within eight of the numbers' steps.
pub proof fn law_a_point_is_the_sum_of_four_octaves(seed: u32, k: int)
    requires
        0 <= k < 65536,
    ensures
        -800 <= 100 * raw_height::<Fixed>(seed, k).raw - (100 * octave(seed, k, 4) + 50 * octave(
            seed,
            k,
            8,
        ) + 28 * octave(seed, k, 16) + 14 * octave(seed, k, 32)) <= 800,
        -0x4_0000_0000 <= raw_height::<Fixed>(seed, k).raw <= 0x4_0000_0000,
{
    let uv = map_point::<Fixed>(k);
    lemma_map_point(k);
    lemma_octave_point(k, 4);
    lemma_octave_point(k, 8);
    lemma_octave_point(k, 16);
    lemma_octave_point(k, 32);
    law_noise_is_its_corners_rises_weighed(octave_point(k, 4), 4, (seed + 4) as u32);
    law_noise_is_its_corners_rises_weighed(octave_point(k, 8), 8, (seed + 8) as u32);
    law_noise_is_its_corners_rises_weighed(octave_point(k, 16), 16, (seed + 16) as u32);
    law_noise_is_its_corners_rises_weighed(octave_point(k, 32), 32, (seed + 32) as u32);
    lemma_four_sums(uv, seed);
    lemma_amplitudes(
        perlin(octave_point(k, 4), 4, (seed + 4) as u32),
        perlin(octave_point(k, 8), 8, (seed + 8) as u32),
        perlin(octave_point(k, 16), 16, (seed + 16) as u32),
        perlin(octave_point(k, 32), 32, (seed + 32) as u32),
    );
}

proof fn lemma_map_point(k: int)
    requires
        0 <= k < 65536,
    ensures
        map_point::<Fixed>(k).x.raw == k % 256 * 0x100_0000,
        map_point::<Fixed>(k).y.raw == k / 256 * 0x100_0000,
{
    lemma_share_of_map(k % 256);
    lemma_share_of_map(k / 256);
}

proof fn lemma_share_of_map(i: int)
    requires
        0 <= i < 256,
    ensures
        (int_of::<Fixed>(i) / int_of::<Fixed>(256)).raw == i * 0x100_0000,
{
    assert(int_of::<Fixed>(i).raw == i * 0x1_0000_0000);
    assert(int_of::<Fixed>(256).raw == 0x100_0000_0000);
    let n = i * 0x1_0000_0000;
    assert((n * 0x1_0000_0000) / 0x100_0000_0000 == i * 0x100_0000);
}

proof fn lemma_octave_point(k: int, period: int)
    requires
        0 <= k < 65536,
        period == 4 || period == 8 || period == 16 || period == 32,
    ensures
        map_point::<Fixed>(k) * int_of::<Fixed>(period) == octave_point(k, period),
        0 <= octave_point(k, period).x.raw <= 0x20_0000_0000,
        0 <= octave_point(k, period).y.raw <= 0x20_0000_0000,
{
    lemma_map_point(k);
    lemma_times_period(map_point::<Fixed>(k).x, k % 256, period);
    lemma_times_period(map_point::<Fixed>(k).y, k / 256, period);
}

proof fn lemma_times_period(v: Fixed, i: int, period: int)
    requires
        0 <= i < 256,
        v.raw == i * 0x100_0000,
        period == 4 || period == 8 || period == 16 || period == 32,
    ensures
        (v * int_of::<Fixed>(period)).raw == i * period * 0x100_0000,
        0 <= i * period * 0x100_0000 <= 0x20_0000_0000,
{
    let t = int_of::<Fixed>(period);
    assert(t.raw == period * 0x1_0000_0000);
    let ip = i * period;
    assert(0 <= ip <= 8192) by (nonlinear_arith)
        requires
            ip == i * period,
            0 <= i < 256,
            0 <= period <= 32,
    ;
    let p = v.raw * t.raw;
    assert(p == ip * 0x100_0000_0000_0000) by (nonlinear_arith)
        requires
            p == v.raw * t.raw,
            v.raw == i * 0x100_0000,
            t.raw == period * 0x1_0000_0000,
            ip == i * period,
    ;
    assert(p / 0x1_0000_0000 == ip * 0x100_0000);
}

/// The sum, octave by octave.
proof fn lemma_four_sums<S: Scalar>(uv: Vec2<S>, seed: u32)
    ensures
        octave_sum(uv, seed, 4) == int_of::<S>(0) + perlin(
            uv * int_of::<S>(4),
            4,
            (seed + 4) as u32,
        ) * int_of::<S>(1) + perlin(uv * int_of::<S>(8), 8, (seed + 8) as u32) * S::frac(5, 10)
            + perlin(uv * int_of::<S>(16), 16, (seed + 16) as u32) * S::frac(28, 100) + perlin(
            uv * int_of::<S>(32),
            32,
            (seed + 32) as u32,
        ) * S::frac(14, 100),
{
    reveal_with_fuel(octave_sum, 5);
}

proof fn lemma_amplitudes(a: Fixed, b: Fixed, c: Fixed, d: Fixed)
    requires
        -0x2_0000_0002 <= a.raw <= 0x2_0000_0001,
        -0x2_0000_0002 <= b.raw <= 0x2_0000_0001,
        -0x2_0000_0002 <= c.raw <= 0x2_0000_0001,
        -0x2_0000_0002 <= d.raw <= 0x2_0000_0001,
    ensures
        -800 <= 100 * (int_of::<Fixed>(0) + a * int_of::<Fixed>(1) + b * Fixed::frac(5, 10) + c
            * Fixed::frac(28, 100) + d * Fixed::frac(14, 100)).raw - (100 * a.raw + 50 * b.raw + 28
            * c.raw + 14 * d.raw) <= 800,
{
    assert(int_of::<Fixed>(0).raw == 0);
    assert(int_of::<Fixed>(1).raw == 0x1_0000_0000);
    assert(Fixed::frac(5, 10).raw == 0x8000_0000);
    assert(Fixed::frac(28, 100).raw == 1202590842);
    assert(Fixed::frac(14, 100).raw == 601295421);
    let (p, q, r, t) = (
        a.raw * int_of::<Fixed>(1).raw,
        b.raw * Fixed::frac(5, 10).raw,
        c.raw * Fixed::frac(28, 100).raw,
        d.raw * Fixed::frac(14, 100).raw,
    );
    assert(p == a.raw * 0x1_0000_0000);
    assert(q == b.raw * 0x8000_0000);
    assert(r == c.raw * 1202590842);
    assert(t == d.raw * 601295421);
}

/// The greatest magnitude among the first `n` of a run of numbers.
spec fn greatest_of<S: Scalar>(f: spec_fn(int) -> S, n: int) -> S
    decreases n,
{
    if n <= 0 {
        int_of::<S>(0)
    } else {
        greatest_of(f, n - 1).greater(f(n - 1).magnitude())
    }
}

proof fn lemma_peak_is_the_greatest<S: Scalar>(seed: u32, f: spec_fn(int) -> S, n: int)
    requires
        forall|k: int| #[trigger] f(k) == raw_height::<S>(seed, k),
    ensures
        raw_peak::<S>(seed, n) == greatest_of(f, n),
    decreases n,
{
    if n > 0 {
        lemma_peak_is_the_greatest(seed, f, n - 1);
        assert(f(n - 1) == raw_height::<S>(seed, n - 1));
    }
}

proof fn lemma_greatest(f: spec_fn(int) -> Fixed, n: int)
    requires
        0 <= n,
    ensures
        0 <= greatest_of(f, n).raw,
        forall|k: int| 0 <= k < n ==> (#[trigger] f(k)).magnitude().raw <= greatest_of(f, n).raw,
        greatest_of(f, n).raw == 0 || exists|k: int|
            0 <= k < n && (#[trigger] f(k)).magnitude() == greatest_of(f, n),
    decreases n,
{
    assert(int_of::<Fixed>(0).raw == 0);
    if n > 0 {
        lemma_greatest(f, n - 1);
        let (before, top) = (greatest_of(f, n - 1), greatest_of(f, n));
        if top == before {
            if top.raw != 0 {
                let k = choose|k: int| 0 <= k < n - 1 && (#[trigger] f(k)).magnitude() == before;
                assert(f(k).magnitude() == top);
            }
        } else {
            assert(f(n - 1).magnitude() == top);
        }
    }
}

/// A point of the map before it is scaled, in whole steps.
pub open spec fn unscaled(seed: u32, k: int) -> Fixed {
    raw_height::<Fixed>(seed, k)
}

/// The tallest of the points is at least as far from the level as any, up or down, and one is as far.
#[verifier::spinoff_prover]
pub proof fn law_the_tallest_is_the_tallest(seed: u32, n: int)
    requires
        0 <= n,
    ensures
        0 <= raw_peak::<Fixed>(seed, n).raw,
        forall|k: int|
            0 <= k < n ==> (#[trigger] unscaled(seed, k)).magnitude().raw <= raw_peak::<Fixed>(
                seed,
                n,
            ).raw,
        raw_peak::<Fixed>(seed, n).raw == 0 || exists|k: int|
            0 <= k < n && (#[trigger] unscaled(seed, k)).magnitude() == raw_peak::<Fixed>(seed, n),
{
    let f = |k: int| unscaled(seed, k);
    assert(forall|k: int| #[trigger] f(k) == raw_height::<Fixed>(seed, k));
    lemma_peak_is_the_greatest::<Fixed>(seed, f, n);
    lemma_greatest(f, n);
    let top = greatest_of(f, n);
    assert forall|k: int| 0 <= k < n implies (#[trigger] unscaled(seed, k)).magnitude().raw
        <= top.raw by {
        assert(f(k) == unscaled(seed, k));
    }
    if top.raw != 0 {
        let k = choose|k: int| 0 <= k < n && (#[trigger] f(k)).magnitude() == top;
        assert(unscaled(seed, k) == f(k));
    }
}

/// Whether `h` is to a half as `raw` is to the tallest, but for what the numbers round.
pub open spec fn in_proportion(h: int, raw: int, tallest: int) -> bool {
    let miss = (2 * (tallest * h) - 0x1_0000_0000 * raw) * 0x1_0000_0000;
    let most = 2 * (tallest * (tallest + 0x1_0000_0001));
    -most <= miss <= most
}

/// The map's heights keep their proportions, and the tallest comes to a half: no height is over a half
/// above the level or below it, and each is to a half as the point was to the tallest.
#[verifier::spinoff_prover]
pub proof fn law_the_map_is_as_tall_as_a_half(seed: u32, k: int)
    requires
        0 <= k < 65536,
        0 < raw_peak::<Fixed>(seed, 65536).raw,
    ensures
        -0x8000_0000 <= heights::<Fixed>(seed)[k].raw <= 0x8000_0000,
        in_proportion(
            heights::<Fixed>(seed)[k].raw as int,
            raw_height::<Fixed>(seed, k).raw as int,
            raw_peak::<Fixed>(seed, 65536).raw as int,
        ),
{
    let peak = raw_peak::<Fixed>(seed, 65536);
    let scale = height_scale::<Fixed>(seed);
    let h = raw_height::<Fixed>(seed, k);
    law_the_tallest_is_the_tallest(seed, 65536);
    assert(unscaled(seed, k) == h);
    law_a_point_is_the_sum_of_four_octaves(seed, k);
    assert(int_of::<Fixed>(0).raw == 0);
    assert(Fixed::frac(1, 2).raw == 0x8000_0000);
    assert(scale == Fixed::frac(1, 2) / peak);
    assert(heights::<Fixed>(seed)[k] == h * scale);
    lemma_scale(peak, scale);
    lemma_scaled(h.raw as int, peak.raw as int, scale.raw as int);
    let n = h.raw * scale.raw;
    assert(h * scale == saturated(n / 0x1_0000_0000));
    let r = n / 0x1_0000_0000;
    lemma_proportion(h.raw as int, peak.raw as int, scale.raw as int, n, r);
}

proof fn lemma_scale(peak: Fixed, scale: Fixed)
    requires
        0 < peak.raw,
        scale == Fixed::frac(1, 2) / peak,
        Fixed::frac(1, 2).raw == 0x8000_0000,
    ensures
        0 <= scale.raw,
        0 <= 0x8000_0000_0000_0000 - scale.raw * peak.raw <= peak.raw,
{
    let (p, half) = (peak.raw as int, 0x8000_0000_0000_0000int);
    let q = half / p;
    vstd::arithmetic::div_mod::lemma_fundamental_div_mod(half, p);
    vstd::arithmetic::div_mod::lemma_mod_bound(half, p);
    assert(q * p == half - half % p) by (nonlinear_arith)
        requires
            half == p * q + half % p,
    ;
    assert(0 <= q <= half) by (nonlinear_arith)
        requires
            0 <= q * p <= half,
            1 <= p,
            q * p > half - p,
            half == 0x8000_0000_0000_0000,
    ;
    assert(scale == saturated(q));
    if q == half {
        assert(p == 1) by (nonlinear_arith)
            requires
                q * p <= half,
                q == half,
                1 <= p,
                half == 0x8000_0000_0000_0000,
        ;
    }
}

proof fn lemma_scaled(h: int, peak: int, scale: int)
    requires
        -peak <= h <= peak,
        0 <= scale,
        scale * peak <= 0x8000_0000_0000_0000,
    ensures
        -0x8000_0000_0000_0000 <= h * scale <= 0x8000_0000_0000_0000,
{
    assert(-(scale * peak) <= h * scale <= scale * peak) by (nonlinear_arith)
        requires
            -peak <= h <= peak,
            0 <= scale,
    ;
}

proof fn lemma_proportion(h: int, peak: int, scale: int, n: int, r: int)
    requires
        0 < peak,
        -peak <= h <= peak,
        0 <= 0x8000_0000_0000_0000 - scale * peak <= peak,
        n == h * scale,
        r * 0x1_0000_0000 <= n < (r + 1) * 0x1_0000_0000,
    ensures
        in_proportion(r, h, peak),
{
    let e = n - r * 0x1_0000_0000;
    let short = 0x8000_0000_0000_0000 - scale * peak;
    let pn = peak * n;
    assert(pn == 0x8000_0000_0000_0000 * h - h * short) by (nonlinear_arith)
        requires
            pn == peak * n,
            n == h * scale,
            short == 0x8000_0000_0000_0000 - scale * peak,
    ;
    let (hs, pe, pp) = (h * short, peak * e, peak * peak);
    assert(-pp <= hs <= pp) by (nonlinear_arith)
        requires
            hs == h * short,
            pp == peak * peak,
            -peak <= h <= peak,
            0 <= short <= peak,
    ;
    assert(0 <= pe <= 0x1_0000_0000 * peak) by (nonlinear_arith)
        requires
            pe == peak * e,
            0 <= e <= 0x1_0000_0000,
            0 < peak,
    ;
    let pr = peak * r;
    assert(0x1_0000_0000 * pr == pn - pe) by (nonlinear_arith)
        requires
            pr == peak * r,
            pn == peak * n,
            pe == peak * e,
            e == n - r * 0x1_0000_0000,
    ;
    assert(peak * (peak + 0x1_0000_0001) == pp + 0x1_0000_0001 * peak) by (nonlinear_arith)
        requires
            pp == peak * peak,
    ;
}

} // verus!
