//! The ripple map: a generated, seamlessly tiling slope texture.
//!
//! The map holds the slope of a smooth noise height field in its first two channels and the height
//! itself in the third, with a complete chain of halved levels below it. The noise tiles because its
//! lattice wraps.

use vstd::prelude::*;

use crate::fixed::{Fixed, ONE};
use crate::geometry::Vec2;
use crate::scalar::{
    encode_signed, encode_unit, int_of, signed_byte, unit_byte, whole_number, Scalar,
};

verus! {

/// Edge length of the map.
pub const SIZE: usize = 256;

/// Points of the map.
pub const AREA: usize = 65536;

/// How many octaves are summed.
pub const OCTAVES: usize = 4;

/// Bytes of the whole chain: four for each point of every level from the map's own size down to a
/// single point.
pub const CHAIN_BYTES: usize = 349524;

/// The seed the map is made from. Fixed, so that two runs of one scene are one picture.
pub const RIPPLE_SEED: u32 = 0xB0A7_5EA5;

/// An octave's lattice period. Every one divides the map's size, so each layer tiles on its own.
pub open spec fn octave_period(n: int) -> int {
    if n == 0 {
        4
    } else if n == 1 {
        8
    } else if n == 2 {
        16
    } else {
        32
    }
}

/// An octave's amplitude.
pub open spec fn octave_amplitude<S: Scalar>(n: int) -> S {
    if n == 0 {
        int_of::<S>(1)
    } else if n == 1 {
        S::frac(5, 10)
    } else if n == 2 {
        S::frac(28, 100)
    } else {
        S::frac(14, 100)
    }
}

/// The hash of a lattice point.
pub open spec fn lattice_hash(gx: u32, gz: u32, seed: u32) -> u32 {
    let a = gx.wrapping_mul(0x9E37_79B9).wrapping_add(gz.wrapping_mul(0x85EB_CA6B)).wrapping_add(
        seed.wrapping_mul(0xC2B2_AE35),
    );
    let b = (a ^ (a >> 15)).wrapping_mul(0x2545_F491);
    b ^ (b >> 13)
}

/// One over the square root of two.
pub open spec fn diagonal<S: Scalar>() -> S {
    S::frac(70710678118654752, 100000000000000000)
}

/// One of the eight directions a gradient may take.
pub open spec fn direction<S: Scalar>(n: u32) -> Vec2<S> {
    let (zero, one, back) = (int_of::<S>(0), int_of::<S>(1), int_of::<S>(-1));
    let r = diagonal::<S>();
    if n == 0 {
        Vec2 { x: one, y: zero }
    } else if n == 1 {
        Vec2 { x: back, y: zero }
    } else if n == 2 {
        Vec2 { x: zero, y: one }
    } else if n == 3 {
        Vec2 { x: zero, y: back }
    } else if n == 4 {
        Vec2 { x: r, y: r }
    } else if n == 5 {
        Vec2 { x: -r, y: r }
    } else if n == 6 {
        Vec2 { x: r, y: -r }
    } else {
        Vec2 { x: -r, y: -r }
    }
}

/// What the gradient of a lattice point contributes at an offset from it.
pub open spec fn pull<S: Scalar>(gx: int, gz: int, seed: u32, dx: S, dz: S) -> S {
    let d = direction::<S>(lattice_hash(gx as u32, gz as u32, seed) & 7);
    d.x * dx + d.y * dz
}

/// The ease curve: flat at both ends.
pub open spec fn eased<S: Scalar>(t: S) -> S {
    t * t * t * (t * (t * int_of::<S>(6) - int_of::<S>(15)) + int_of::<S>(10))
}

/// Noise inside one lattice cell: the four corners' pulls, blended along the ease curve. The corners
/// are the wrapped ones, and the offsets are within the cell.
pub open spec fn cell_noise<S: Scalar>(
    x0: int,
    z0: int,
    period: int,
    seed: u32,
    xf: S,
    zf: S,
) -> S {
    let x1 = (x0 + 1) % period;
    let z1 = (z0 + 1) % period;
    let one = int_of::<S>(1);
    let (u, v) = (eased(xf), eased(zf));
    let n00 = pull(x0, z0, seed, xf, zf);
    let n10 = pull(x1, z0, seed, xf - one, zf);
    let n01 = pull(x0, z1, seed, xf, zf - one);
    let n11 = pull(x1, z1, seed, xf - one, zf - one);
    let a = n00 + u * (n10 - n00);
    let b = n01 + u * (n11 - n01);
    a + v * (b - a)
}

/// Noise that tiles with the given lattice period.
pub open spec fn perlin<S: Scalar>(p: Vec2<S>, period: int, seed: u32) -> S {
    let (xi, zi) = (p.x.floored(), p.y.floored());
    cell_noise(
        xi.whole() as int % period,
        zi.whole() as int % period,
        period,
        seed,
        p.x - xi,
        p.y - zi,
    )
}

/// A lattice coordinate, wrapped.
fn wrap(v: i64, period: i32) -> (r: i64)
    requires
        period != 0,
        i32::MIN <= v <= 0x1_0000_0000,
    ensures
        r == v as int % period as int,
        0 <= r <= 0x8000_0000,
{
    let p: i64 = period as i64;
    assert(0 <= v as int % p as int <= 0x8000_0000) by (nonlinear_arith)
        requires
            -0x8000_0000 <= p <= 0x7fff_ffff,
            p != 0,
    ;
    match v.checked_rem_euclid(p) {
        Some(r) => r,
        None => 0,
    }
}

/// What the gradient of a lattice point contributes at an offset from it.
fn gradient<S: Scalar>(gx: i64, gz: i64, seed: u32, dx: S, dz: S) -> (r: S)
    requires
        0 <= gx <= u32::MAX,
        0 <= gz <= u32::MAX,
    ensures
        r == pull(gx as int, gz as int, seed, dx, dz),
{
    let a: u32 = (gx as u32).wrapping_mul(0x9E37_79B9).wrapping_add(
        (gz as u32).wrapping_mul(0x85EB_CA6B),
    ).wrapping_add(seed.wrapping_mul(0xC2B2_AE35));
    let b: u32 = (a ^ (a >> 15)).wrapping_mul(0x2545_F491);
    let h: u32 = b ^ (b >> 13);
    let d: Vec2<S> = direction_of(h & 7);
    d.x.times(dx).plus(d.y.times(dz))
}

/// One of the eight directions a gradient may take.
fn direction_of<S: Scalar>(n: u32) -> (r: Vec2<S>)
    ensures
        r == direction::<S>(n),
{
    let zero: S = whole_number(0);
    let one: S = whole_number(1);
    let back: S = whole_number(-1);
    let r: S = S::ratio(70710678118654752, 100000000000000000);
    if n == 0 {
        Vec2 { x: one, y: zero }
    } else if n == 1 {
        Vec2 { x: back, y: zero }
    } else if n == 2 {
        Vec2 { x: zero, y: one }
    } else if n == 3 {
        Vec2 { x: zero, y: back }
    } else if n == 4 {
        Vec2 { x: r, y: r }
    } else if n == 5 {
        Vec2 { x: r.negated(), y: r }
    } else if n == 6 {
        Vec2 { x: r, y: r.negated() }
    } else {
        Vec2 { x: r.negated(), y: r.negated() }
    }
}

/// The ease curve.
fn ease<S: Scalar>(t: S) -> (r: S)
    ensures
        r == eased(t),
{
    let six: S = whole_number(6);
    let fifteen: S = whole_number(15);
    let ten: S = whole_number(10);
    t.times(t).times(t).times(t.times(t.times(six).minus(fifteen)).plus(ten))
}

/// Noise that tiles seamlessly with the given lattice period.
///
/// The gradient is looked up at the wrapped lattice point while the offset uses the unwrapped one:
/// mixing those two up is what tears noise at the seam.
pub fn tileable_perlin<S: Scalar>(p: Vec2<S>, period: i32, seed: u32) -> (r: S)
    requires
        period != 0,
    ensures
        r == perlin(p, period as int, seed),
{
    let one: S = whole_number(1);
    let xi: S = p.x.floor();
    let zi: S = p.y.floor();
    let xf: S = p.x.minus(xi);
    let zf: S = p.y.minus(zi);
    let x0: i64 = wrap(xi.to_i32() as i64, period);
    let z0: i64 = wrap(zi.to_i32() as i64, period);
    let x1: i64 = wrap(x0 + 1, period);
    let z1: i64 = wrap(z0 + 1, period);
    let u: S = ease(xf);
    let v: S = ease(zf);
    let n00: S = gradient(x0, z0, seed, xf, zf);
    let n10: S = gradient(x1, z0, seed, xf.minus(one), zf);
    let n01: S = gradient(x0, z1, seed, xf, zf.minus(one));
    let n11: S = gradient(x1, z1, seed, xf.minus(one), zf.minus(one));
    let a: S = n00.plus(u.times(n10.minus(n00)));
    let b: S = n01.plus(u.times(n11.minus(n01)));
    a.plus(v.times(b.minus(a)))
}

/// The first `n` octaves at a point of the map, summed.
pub open spec fn octave_sum<S: Scalar>(uv: Vec2<S>, seed: u32, n: int) -> S
    decreases n,
{
    if n <= 0 {
        int_of::<S>(0)
    } else {
        let period = octave_period(n - 1);
        octave_sum(uv, seed, n - 1) + perlin(
            uv * int_of::<S>(period),
            period,
            (seed + period) as u32,
        ) * octave_amplitude::<S>(n - 1)
    }
}

/// A point of the map as a share of its size.
pub open spec fn map_point<S: Scalar>(k: int) -> Vec2<S> {
    Vec2 {
        x: int_of::<S>(k % SIZE as int) / int_of::<S>(SIZE as int),
        y: int_of::<S>(k / SIZE as int) / int_of::<S>(SIZE as int),
    }
}

/// The height of a point of the map before it is scaled.
pub open spec fn raw_height<S: Scalar>(seed: u32, k: int) -> S {
    octave_sum(map_point::<S>(k), seed, OCTAVES as int)
}

/// The tallest of the first `n` points, by magnitude.
pub open spec fn raw_peak<S: Scalar>(seed: u32, n: int) -> S
    decreases n,
{
    if n <= 0 {
        int_of::<S>(0)
    } else {
        raw_peak::<S>(seed, n - 1).greater(raw_height::<S>(seed, n - 1).magnitude())
    }
}

/// What every height is multiplied by, so that the tallest comes to a half.
pub open spec fn height_scale<S: Scalar>(seed: u32) -> S {
    let peak = raw_peak::<S>(seed, AREA as int);
    if int_of::<S>(0) < peak {
        S::frac(1, 2) / peak
    } else {
        int_of::<S>(1)
    }
}

/// The height field.
pub open spec fn heights<S: Scalar>(seed: u32) -> Seq<S> {
    Seq::new(AREA as nat, |k: int| raw_height::<S>(seed, k) * height_scale::<S>(seed))
}

/// The height of a point of the map before it is scaled.
fn sum_octaves<S: Scalar>(seed: u32, k: usize) -> (r: S)
    requires
        seed + 32 <= u32::MAX,
        k < AREA,
    ensures
        r == raw_height::<S>(seed, k as int),
{
    let size: S = whole_number(SIZE as i64);
    let x: S = whole_number((k % SIZE) as i64);
    let z: S = whole_number((k / SIZE) as i64);
    let uv: Vec2<S> = Vec2 { x: x.over(size), y: z.over(size) };
    let mut h: S = whole_number(0);
    let mut n: usize = 0;
    while n < OCTAVES
        invariant
            n <= OCTAVES,
            seed + 32 <= u32::MAX,
            h == octave_sum(uv, seed, n as int),
        decreases OCTAVES - n,
    {
        let period: i32 = match n {
            0 => 4,
            1 => 8,
            2 => 16,
            _ => 32,
        };
        let amplitude: S = match n {
            0 => S::ratio(1, 1),
            1 => S::ratio(5, 10),
            2 => S::ratio(28, 100),
            _ => S::ratio(14, 100),
        };
        let at: Vec2<S> = uv.scale(whole_number(period as i64));
        h = h.plus(tileable_perlin(at, period, seed + period as u32).times(amplitude));
        n = n + 1;
    }
    h
}

/// The summed octaves, scaled so that the tallest point comes to a half.
pub fn height_field<S: Scalar>(seed: u32) -> (r: Vec<S>)
    requires
        seed + 32 <= u32::MAX,
    ensures
        r@ == heights::<S>(seed),
{
    let zero: S = whole_number(0);
    let mut height: Vec<S> = Vec::new();
    let mut peak: S = zero;
    let mut k: usize = 0;
    while k < AREA
        invariant
            k <= AREA,
            seed + 32 <= u32::MAX,
            height@.len() == k,
            forall|j: int| 0 <= j < k ==> #[trigger] height@[j] == raw_height::<S>(seed, j),
            peak == raw_peak::<S>(seed, k as int),
        decreases AREA - k,
    {
        let h: S = sum_octaves(seed, k);
        height.push(h);
        peak = peak.greatest(h.absolute());
        k = k + 1;
    }
    let half: S = S::ratio(1, 2);
    let scale: S = if zero.less(peak) {
        half.over(peak)
    } else {
        whole_number(1)
    };
    let mut i: usize = 0;
    while i < AREA
        invariant
            i <= AREA,
            height@.len() == AREA,
            scale == height_scale::<S>(seed),
            forall|j: int|
                0 <= j < i ==> #[trigger] height@[j] == raw_height::<S>(seed, j)
                    * height_scale::<S>(seed),
            forall|j: int| i <= j < AREA ==> #[trigger] height@[j] == raw_height::<S>(seed, j),
        decreases AREA - i,
    {
        let h: S = height[i].times(scale);
        height.set(i, h);
        i = i + 1;
    }
    assert(height@ =~= heights::<S>(seed));
    height
}

/// The rounded mean of four bytes.
pub open spec fn mean_of_four(a: u8, b: u8, c: u8, d: u8) -> u8 {
    ((a + b + c + d + 2) / 4) as u8
}

/// A byte of a level one size down: the mean of the two by two points above it, channel by channel.
pub open spec fn halved_byte(level: Seq<u8>, n: int, i: int) -> u8 {
    let half = n / 2;
    let c = i % 4;
    let x = (i / 4) % half;
    let z = (i / 4) / half;
    mean_of_four(
        level[((2 * z) * n + 2 * x) * 4 + c],
        level[((2 * z) * n + 2 * x + 1) * 4 + c],
        level[((2 * z + 1) * n + 2 * x) * 4 + c],
        level[((2 * z + 1) * n + 2 * x + 1) * 4 + c],
    )
}

/// A level one size down.
pub open spec fn halved(level: Seq<u8>, n: int) -> Seq<u8> {
    Seq::new(4 * ((n / 2) * (n / 2)) as nat, |i: int| halved_byte(level, n, i))
}

/// The place of a point's channel, and that it can be read back.
pub proof fn lemma_texel_place(x: int, z: int, c: int, half: int)
    requires
        0 <= x < half,
        0 <= z < half,
        0 <= c < 4,
    ensures
        ({
            let i = (z * half + x) * 4 + c;
            &&& i % 4 == c
            &&& (i / 4) % half == x
            &&& (i / 4) / half == z
            &&& 0 <= i < 4 * (half * half)
        }),
{
    let k = z * half + x;
    assert(0 <= z * half && k < half * half) by (nonlinear_arith)
        requires
            0 <= x < half,
            0 <= z < half,
            k == z * half + x,
    ;
    vstd::arithmetic::div_mod::lemma_fundamental_div_mod_converse(k, half, z, x);
}

/// The four points above a point are all on the level.
proof fn lemma_box_in_level(x: int, z: int, n: int)
    requires
        0 <= x < n / 2,
        0 <= z < n / 2,
    ensures
        0 <= (2 * z) * n,
        (2 * z + 1) * n == (2 * z) * n + n,
        ((2 * z + 1) * n + 2 * x + 1) < n * n,
{
    assert(0 <= (2 * z) * n && (2 * z + 1) * n == (2 * z) * n + n && (2 * z + 1) * n + 2 * x + 1
        < n * n) by (nonlinear_arith)
        requires
            0 <= z,
            0 <= x,
            2 * z + 1 < n,
            2 * x + 1 < n,
    ;
}

/// Box-filter one level down to half its edge. A two by two box never crosses the edge, so a map
/// that tiles still does one level down.
pub fn halve(level: &Vec<u8>, n: usize) -> (r: Vec<u8>)
    requires
        4 * (n * n) <= level@.len(),
    ensures
        r@ == halved(level@, n as int),
{
    let half: usize = n / 2;
    let mut next: Vec<u8> = Vec::new();
    assert(level.len() <= usize::MAX);
    assert(0 * half == 0);
    let mut z: usize = 0;
    while z < half
        invariant
            half == n / 2,
            4 * (n * n) <= level@.len() <= usize::MAX,
            z <= half,
            next@.len() == (z * half) * 4,
            forall|i: int|
                0 <= i < next@.len() ==> #[trigger] next@[i] == halved_byte(level@, n as int, i),
        decreases half - z,
    {
        let mut x: usize = 0;
        while x < half
            invariant
                half == n / 2,
                4 * (n * n) <= level@.len() <= usize::MAX,
                z < half,
                x <= half,
                next@.len() == (z * half + x) * 4,
                forall|i: int|
                    0 <= i < next@.len() ==> #[trigger] next@[i] == halved_byte(
                        level@,
                        n as int,
                        i,
                    ),
            decreases half - x,
        {
            proof {
                lemma_box_in_level(x as int, z as int, n as int);
            }
            let at: usize = (2 * z) * n + 2 * x;
            let mut c: usize = 0;
            while c < 4
                invariant
                    half == n / 2,
                    4 * (n * n) <= level@.len() <= usize::MAX,
                    z < half,
                    x < half,
                    c <= 4,
                    at == (2 * z) * n + 2 * x,
                    (2 * z + 1) * n == (2 * z) * n + n,
                    at + n + 1 < n * n,
                    next@.len() == (z * half + x) * 4 + c,
                    forall|i: int|
                        0 <= i < next@.len() ==> #[trigger] next@[i] == halved_byte(
                            level@,
                            n as int,
                            i,
                        ),
                decreases 4 - c,
            {
                let a: u8 = level[at * 4 + c];
                let b: u8 = level[(at + 1) * 4 + c];
                let d: u8 = level[(at + n) * 4 + c];
                let e: u8 = level[(at + n + 1) * 4 + c];
                let sum: u32 = a as u32 + b as u32 + d as u32 + e as u32 + 2;
                let mean: u8 = (sum / 4) as u8;
                proof {
                    lemma_texel_place(x as int, z as int, c as int, half as int);
                }
                next.push(mean);
                c = c + 1;
            }
            x = x + 1;
        }
        assert((z + 1) * half == z * half + half) by (nonlinear_arith);
        z = z + 1;
    }
    assert(next@ =~= halved(level@, n as int));
    next
}

/// A byte of the map: the slope across and along in the first two channels, the height in the
/// third, and the fourth full. The differences wrap, so the slope tiles as well as the height does.
pub open spec fn map_byte<S: Scalar>(h: Seq<S>, i: int) -> u8 {
    let (x, z) = ((i / 4) % SIZE as int, (i / 4) / SIZE as int);
    let east = h[z * SIZE + (x + 1) % SIZE as int];
    let west = h[z * SIZE + (x + SIZE - 1) % SIZE as int];
    let north = h[((z + 1) % SIZE as int) * SIZE + x];
    let south = h[((z + SIZE - 1) % SIZE as int) * SIZE + x];
    if i % 4 == 0 {
        signed_byte(east - west)
    } else if i % 4 == 1 {
        signed_byte(north - south)
    } else if i % 4 == 2 {
        unit_byte(h[i / 4] + S::frac(1, 2))
    } else {
        255
    }
}

/// The map's own level.
pub open spec fn map_level<S: Scalar>(h: Seq<S>) -> Seq<u8> {
    Seq::new(4 * AREA as nat, |i: int| map_byte(h, i))
}

/// The edge of a level.
pub open spec fn level_side(l: int) -> int
    decreases l,
{
    if l <= 0 {
        SIZE as int
    } else {
        level_side(l - 1) / 2
    }
}

/// A level of the chain.
pub open spec fn level_of_map<S: Scalar>(h: Seq<S>, l: int) -> Seq<u8>
    decreases l,
{
    if l <= 0 {
        map_level(h)
    } else {
        halved(level_of_map(h, l - 1), level_side(l - 1))
    }
}

/// The first `n` levels, end to end.
pub open spec fn chain_of<S: Scalar>(h: Seq<S>, n: int) -> Seq<u8>
    decreases n,
{
    if n <= 0 {
        Seq::empty()
    } else {
        chain_of(h, n - 1) + level_of_map(h, n - 1)
    }
}

/// The ripple map: how many levels it has, and their bytes, largest first.
pub struct RippleMap {
    pub levels: u32,
    pub data: Vec<u8>,
}

/// The map's own level.
fn first_level<S: Scalar>(h: &Vec<S>) -> (r: Vec<u8>)
    requires
        h@.len() == AREA,
    ensures
        r@ == map_level(h@),
{
    let half: S = S::ratio(1, 2);
    let mut mip: Vec<u8> = Vec::new();
    let mut k: usize = 0;
    while k < AREA
        invariant
            k <= AREA,
            h@.len() == AREA,
            half == S::frac(1, 2),
            mip@.len() == 4 * k,
            forall|i: int| 0 <= i < 4 * k ==> #[trigger] mip@[i] == map_byte(h@, i),
        decreases AREA - k,
    {
        let x: usize = k % SIZE;
        let z: usize = k / SIZE;
        let east: S = h[z * SIZE + (x + 1) % SIZE];
        let west: S = h[z * SIZE + (x + SIZE - 1) % SIZE];
        let north: S = h[((z + 1) % SIZE) * SIZE + x];
        let south: S = h[((z + SIZE - 1) % SIZE) * SIZE + x];
        mip.push(encode_signed(east.minus(west)));
        mip.push(encode_signed(north.minus(south)));
        mip.push(encode_unit(h[k].plus(half)));
        mip.push(255);
        k = k + 1;
    }
    assert(mip@ =~= map_level(h@));
    mip
}

/// The edges of the nine levels.
pub proof fn lemma_level_sides()
    ensures
        level_side(0) == 256,
        level_side(1) == 128,
        level_side(2) == 64,
        level_side(3) == 32,
        level_side(4) == 16,
        level_side(5) == 8,
        level_side(6) == 4,
        level_side(7) == 2,
        level_side(8) == 1,
{
    reveal_with_fuel(level_side, 9);
}

/// Bytes of the first `n` levels.
pub open spec fn chain_bytes(n: int) -> int
    decreases n,
{
    if n <= 0 {
        0
    } else {
        chain_bytes(n - 1) + 4 * (level_side(n - 1) * level_side(n - 1))
    }
}

proof fn lemma_chain_bytes()
    ensures
        chain_bytes(9) == CHAIN_BYTES,
{
    lemma_level_sides();
    reveal_with_fuel(chain_bytes, 10);
    assert(256int * 256int == 65536) by (nonlinear_arith);
    assert(128int * 128int == 16384) by (nonlinear_arith);
    assert(64int * 64int == 4096) by (nonlinear_arith);
    assert(32int * 32int == 1024) by (nonlinear_arith);
    assert(16int * 16int == 256) by (nonlinear_arith);
    assert(8int * 8int == 64) by (nonlinear_arith);
    assert(4int * 4int == 16) by (nonlinear_arith);
    assert(2int * 2int == 4) by (nonlinear_arith);
}

/// Build the ripple map: wrapped central difference slopes and the height they came from, with a
/// complete box-filtered chain down to a single point.
pub fn ripple_map<S: Scalar>(seed: u32) -> (r: RippleMap)
    requires
        seed + 32 <= u32::MAX,
    ensures
        r.levels == 9,
        r.data@ == chain_of(heights::<S>(seed), 9),
        r.data@.len() == CHAIN_BYTES,
{
    let height: Vec<S> = height_field(seed);
    let ghost h = height@;
    let mut level: Vec<u8> = first_level(&height);
    let mut chain: Vec<u8> = Vec::new();
    append_bytes(&mut chain, &level);
    let mut n: usize = SIZE;
    let mut levels: u32 = 1;
    proof {
        lemma_level_sides();
        reveal_with_fuel(chain_bytes, 2);
        assert(256int * 256int == 65536) by (nonlinear_arith);
        reveal_with_fuel(chain_of, 2);
        assert(chain@ =~= chain_of(h, 1));
    }
    while n > 1
        invariant
            1 <= levels <= 9,
            n == level_side(levels - 1),
            h == heights::<S>(seed),
            level@ == level_of_map(h, levels - 1),
            level@.len() == 4 * (n * n),
            chain@ == chain_of(h, levels as int),
            chain@.len() == chain_bytes(levels as int),
        decreases n,
    {
        proof {
            lemma_level_sides();
        }
        level = halve(&level, n);
        n = n / 2;
        append_bytes(&mut chain, &level);
        levels = levels + 1;
    }
    proof {
        lemma_level_sides();
        lemma_chain_bytes();
    }
    RippleMap { levels, data: chain }
}

/// Add bytes to the end of others.
fn append_bytes(to: &mut Vec<u8>, from: &Vec<u8>)
    ensures
        final(to)@ == old(to)@ + from@,
{
    let ghost start = to@;
    let mut k: usize = 0;
    while k < from.len()
        invariant
            k <= from@.len(),
            to@ == start + from@.take(k as int),
        decreases from@.len() - k,
    {
        to.push(from[k]);
        k = k + 1;
        assert(to@ =~= start + from@.take(k as int));
    }
    assert(from@.take(from@.len() as int) =~= from@);
}

/// A coordinate a whole number of periods on lies in the same place of its cell, and its cell wraps
/// to the same one.
proof fn lemma_periods_on(x: Fixed, a: int, period: int)
    requires
        0 < period,
        -0x1000_0000_0000_0000 <= x.raw <= 0x1000_0000_0000_0000,
        -0x1000_0000 <= a * period <= 0x1000_0000,
    ensures
        ({
            let y = x + int_of::<Fixed>(a * period);
            &&& y - y.floored() == x - x.floored()
            &&& y.floored().whole() as int % period == x.floored().whole() as int % period
        }),
{
    let step = a * period;
    let y = x + int_of::<Fixed>(step);
    assert(int_of::<Fixed>(step).raw == step * ONE);
    assert(y.raw == x.raw + step * ONE);
    let w = x.raw as int / ONE as int;
    assert(y.raw as int / ONE as int == w + step);
    assert(x.floored().raw == w * ONE);
    assert(y.floored().raw == (w + step) * ONE);
    assert(x.floored().whole() == w);
    assert(y.floored().whole() == w + step);
    vstd::arithmetic::div_mod::lemma_mod_multiples_vanish(a, w, period);
    assert(period * a + w == w + step) by (nonlinear_arith)
        requires
            step == a * period,
    ;
}

/// The noise tiles: any whole number of periods away, in either direction, it is what it was. Exact
/// in the crate's own numbers, as far out as the water reaches.
pub proof fn law_noise_tiles(p: Vec2<Fixed>, period: int, seed: u32, a: int, b: int)
    requires
        0 < period,
        -0x1000_0000_0000_0000 <= p.x.raw <= 0x1000_0000_0000_0000,
        -0x1000_0000_0000_0000 <= p.y.raw <= 0x1000_0000_0000_0000,
        -0x1000_0000 <= a * period <= 0x1000_0000,
        -0x1000_0000 <= b * period <= 0x1000_0000,
    ensures
        perlin(
            Vec2 {
                x: p.x + int_of::<Fixed>(a * period),
                y: p.y + int_of::<Fixed>(b * period),
            },
            period,
            seed,
        ) == perlin(p, period, seed),
{
    lemma_periods_on(p.x, a, period);
    lemma_periods_on(p.y, b, period);
}

/// A point of the map one map's width on, and one map's length on, in an octave's own cells.
proof fn lemma_one_map_on(k: int, n: int)
    requires
        0 <= k < AREA,
        0 <= n < OCTAVES,
    ensures
        ({
            let period = octave_period(n);
            let p = map_point::<Fixed>(k);
            let one = int_of::<Fixed>(1);
            let cells = int_of::<Fixed>(period);
            let at = p * cells;
            &&& (p.x + one) * cells == at.x + int_of::<Fixed>(1 * period)
            &&& (p.y + one) * cells == at.y + int_of::<Fixed>(1 * period)
            &&& 0 <= at.x.raw <= 0x1000_0000_0000_0000
            &&& 0 <= at.y.raw <= 0x1000_0000_0000_0000
        }),
{
    lemma_share_of_map(k % 256);
    lemma_share_of_map(k / 256);
    let p = map_point::<Fixed>(k);
    lemma_one_on(p.x, octave_period(n));
    lemma_one_on(p.y, octave_period(n));
}

/// A coordinate of the map is less than one of it.
proof fn lemma_share_of_map(x: int)
    requires
        0 <= x < 256,
    ensures
        ({
            let share = int_of::<Fixed>(x) / int_of::<Fixed>(SIZE as int);
            0 <= share.raw < ONE
        }),
{
    assert(int_of::<Fixed>(x).raw == x * ONE);
    assert(int_of::<Fixed>(256).raw == 256 * ONE);
    assert((x * 0x1_0000_0000 * 0x1_0000_0000) / 0x100_0000_0000 == x * 0x100_0000);
    assert(int_of::<Fixed>(x).raw * ONE == x * 0x1_0000_0000 * 0x1_0000_0000);
}

/// A coordinate one map on is an octave's whole period on in the octave's own cells.
proof fn lemma_one_on(x: Fixed, period: int)
    requires
        0 <= x.raw < ONE,
        period == 4 || period == 8 || period == 16 || period == 32,
    ensures
        ({
            let at = x * int_of::<Fixed>(period);
            let there = (x + int_of::<Fixed>(1)) * int_of::<Fixed>(period);
            &&& there == at + int_of::<Fixed>(1 * period)
            &&& 0 <= at.raw <= 0x1000_0000_0000_0000
        }),
{
    let one = int_of::<Fixed>(1);
    assert(one.raw == ONE);
    assert((x + one).raw == x.raw + ONE);
    lemma_scaled_up(x, period);
    lemma_scaled_up(x + one, period);
    assert(int_of::<Fixed>(1 * period).raw == period * ONE);
    let at = x * int_of::<Fixed>(period);
    assert((at + int_of::<Fixed>(1 * period)).raw == period * x.raw + period * ONE);
    assert(period * (x.raw + ONE) == period * x.raw + period * ONE) by (nonlinear_arith);
}

/// A small number times an octave's period, exactly.
proof fn lemma_scaled_up(x: Fixed, period: int)
    requires
        0 <= x.raw <= 0x2_0000_0000,
        period == 4 || period == 8 || period == 16 || period == 32,
    ensures
        (x * int_of::<Fixed>(period)).raw == period * x.raw,
{
    assert(int_of::<Fixed>(period).raw == period * ONE);
    if period == 4 {
        assert((x.raw * 0x4_0000_0000) / 0x1_0000_0000 == 4 * x.raw);
    } else if period == 8 {
        assert((x.raw * 0x8_0000_0000) / 0x1_0000_0000 == 8 * x.raw);
    } else if period == 16 {
        assert((x.raw * 0x10_0000_0000) / 0x1_0000_0000 == 16 * x.raw);
    } else {
        assert((x.raw * 0x20_0000_0000) / 0x1_0000_0000 == 32 * x.raw);
    }
}

/// The map has no seam: every octave, and so their sum, is the same one map's width on, one map's
/// length on, and both, as where it started.
pub proof fn law_the_map_has_no_seam(seed: u32, k: int, n: int)
    requires
        0 <= k < AREA,
        0 <= n <= OCTAVES,
    ensures
        ({
            let p = map_point::<Fixed>(k);
            let one = int_of::<Fixed>(1);
            let here = octave_sum(p, seed, n);
            &&& octave_sum(Vec2 { x: p.x + one, y: p.y }, seed, n) == here
            &&& octave_sum(Vec2 { x: p.x, y: p.y + one }, seed, n) == here
            &&& octave_sum(Vec2 { x: p.x + one, y: p.y + one }, seed, n) == here
        }),
    decreases n,
{
    if n > 0 {
        law_the_map_has_no_seam(seed, k, n - 1);
        lemma_one_map_on(k, n - 1);
        let period = octave_period(n - 1);
        let at = map_point::<Fixed>(k) * int_of::<Fixed>(period);
        let none = int_of::<Fixed>(0 * period);
        assert(none.raw == 0);
        assert(at.x + none == at.x);
        assert(at.y + none == at.y);
        law_noise_tiles(at, period, (seed + period) as u32, 1, 0);
        law_noise_tiles(at, period, (seed + period) as u32, 0, 1);
        law_noise_tiles(at, period, (seed + period) as u32, 1, 1);
    }
}

/// Halving a level averages it: a byte whose four points agree is what they are, and no byte leaves
/// the range of its four points.
pub proof fn law_halving_averages(a: u8, b: u8, c: u8, d: u8)
    ensures
        a == b && b == c && c == d ==> mean_of_four(a, b, c, d) == a,
        mean_of_four(a, b, c, d) >= a || mean_of_four(a, b, c, d) >= b || mean_of_four(a, b, c, d)
            >= c || mean_of_four(a, b, c, d) >= d,
        mean_of_four(a, b, c, d) <= a || mean_of_four(a, b, c, d) <= b || mean_of_four(a, b, c, d)
            <= c || mean_of_four(a, b, c, d) <= d,
{
}

} // verus!
