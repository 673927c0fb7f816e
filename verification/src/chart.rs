//! What is read off a liquid's grid: where its surface is between its points, how high it stands, and
//! which lattice cells it covers; in whole steps of the exact numbers.

use vstd::prelude::*;

use crate::fixed::{saturated, Fixed};
use crate::geometry::{Vec2, Vec3};
use crate::liquid_mesh::{
    cell_below, has_height, height_count, height_or, height_sum, level_of, no_height, LiquidMesh,
};
use crate::noise::{lemma_product, lemma_regroup, weighed};
use crate::outline::law_a_length_is_of_both_parts;
use crate::scalar::{blended, int_of, mixed, Scalar};
use crate::shoreline::nearest_of;
use crate::waterline::{middle_of, sample_point, stand_in, traceable};
use crate::wet_lattice::{
    batch_cells, centre_of, corner_sample, covered, flooded, known_at_corner, lattice_cell,
    lattice_pitch, lattice_traced, law_any_surface_makes_a_cell_wet, pitch_of, some_cell_in,
    wet_at_corner, wetness, Cells, WetLattice,
};

verus! {

/// Whether a coordinate is within sixteen thousand yards of the world's origin.
pub open spec fn on_the_map(v: Fixed) -> bool {
    -0x4000_0000_0000 <= v.raw <= 0x4000_0000_0000
}

proof fn lemma_mixed(a: Fixed, b: Fixed, u: Fixed, most: int)
    requires
        0 <= most <= 0x4000_0000_0001,
        -most <= a.raw <= most,
        -most <= b.raw <= most,
        0 <= u.raw <= 0x1_0000_0000,
    ensures
        ({
            let r = mixed(a, b, u).raw * 0x1_0000_0000;
            let s = (0x1_0000_0000 - u.raw) * a.raw + u.raw * b.raw;
            &&& r <= s < r + 0x1_0000_0000
            &&& -most - 1 <= mixed(a, b, u).raw <= most
        }),
{
    let d = b - a;
    assert(d.raw == b.raw - a.raw);
    let (x, y, n) = (u.raw as int, d.raw as int, d.raw * u.raw);
    assert(-0x2_0000_0000 * most <= n <= 0x2_0000_0000 * most) by (nonlinear_arith)
        requires
            n == y * x,
            0 <= x <= 0x1_0000_0000,
            -2 * most <= y <= 2 * most,
    ;
    lemma_product(d, u);
    let (f, g) = (a.raw as int, b.raw as int);
    let s = (0x1_0000_0000 - x) * f + x * g;
    assert(s == 0x1_0000_0000 * f + n) by (nonlinear_arith)
        requires
            s == (0x1_0000_0000 - x) * f + x * g,
            n == y * x,
            y == g - f,
    ;
    assert(-0x1_0000_0000 * most <= s <= 0x1_0000_0000 * most) by (nonlinear_arith)
        requires
            s == (0x1_0000_0000 - x) * f + x * g,
            0 <= x <= 0x1_0000_0000,
            -most <= f <= most,
            -most <= g <= most,
    ;
    assert(mixed(a, b, u).raw == a.raw + (d * u).raw);
}

/// Whether `n` is four corners' numbers, each by the share of the cell that is across from it, to
/// within two steps.
pub open spec fn is_weighed(n: int, a: int, b: int, c: int, d: int, u: int, v: int) -> bool {
    &&& n * 0x1_0000_0000_0000_0000 <= weighed(a, b, c, d, u, v)
    &&& weighed(a, b, c, d, u, v) < (n + 2) * 0x1_0000_0000_0000_0000
}

#[verifier::spinoff_prover]
proof fn lemma_blended(a: Fixed, b: Fixed, c: Fixed, d: Fixed, u: Fixed, v: Fixed)
    requires
        on_the_map(a),
        on_the_map(b),
        on_the_map(c),
        on_the_map(d),
        0 <= u.raw <= 0x1_0000_0000,
        0 <= v.raw <= 0x1_0000_0000,
    ensures
        is_weighed(
            blended(a, b, c, d, u, v).raw as int,
            a.raw as int,
            b.raw as int,
            c.raw as int,
            d.raw as int,
            u.raw as int,
            v.raw as int,
        ),
{
    let (p, q) = (mixed(a, b, u), mixed(c, d, u));
    lemma_mixed(a, b, u, 0x4000_0000_0000);
    lemma_mixed(c, d, u, 0x4000_0000_0000);
    lemma_mixed(p, q, v, 0x4000_0000_0001);
    let n = mixed(p, q, v).raw as int;
    let (x, y) = (u.raw as int, v.raw as int);
    let sa = (0x1_0000_0000 - x) * a.raw + x * b.raw;
    let sb = (0x1_0000_0000 - x) * c.raw + x * d.raw;
    let (ra, rb) = (sa - p.raw * 0x1_0000_0000, sb - q.raw * 0x1_0000_0000);
    let w = (0x1_0000_0000 - y) * sa + y * sb;
    lemma_regroup(a.raw as int, b.raw as int, c.raw as int, d.raw as int, x, y, sa, sb);
    let inner = (0x1_0000_0000 - y) * p.raw + y * q.raw;
    let e = (0x1_0000_0000 - y) * ra + y * rb;
    assert(w == 0x1_0000_0000 * inner + e) by (nonlinear_arith)
        requires
            w == (0x1_0000_0000 - y) * sa + y * sb,
            inner == (0x1_0000_0000 - y) * p.raw + y * q.raw,
            e == (0x1_0000_0000 - y) * ra + y * rb,
            sa == ra + p.raw * 0x1_0000_0000,
            sb == rb + q.raw * 0x1_0000_0000,
    ;
    assert(0 <= e <= 0x1_0000_0000_0000_0000) by (nonlinear_arith)
        requires
            e == (0x1_0000_0000 - y) * ra + y * rb,
            0 <= y <= 0x1_0000_0000,
            0 <= ra <= 0x1_0000_0000,
            0 <= rb <= 0x1_0000_0000,
    ;
}

/// A height in whole steps, or the level where it is a hundred million yards or more.
pub open spec fn height_at(z: Fixed, level: Fixed) -> int {
    if -429496729600000000 < z.raw < 429496729600000000 {
        z.raw as int
    } else {
        level.raw as int
    }
}

/// The point of a grid at a column and a row. The points are row by row.
pub open spec fn grid_point(mesh: LiquidMesh<Fixed>, i: int, j: int) -> Vec3<Fixed> {
    mesh.positions@[j * mesh.grid@[0] + i]
}

/// Whether a grid's point is on the map, with a height that is too, or none.
pub open spec fn charted(p: Vec3<Fixed>, level: Fixed) -> bool {
    &&& on_the_map(p.x)
    &&& on_the_map(p.y)
    &&& -0x4000_0000_0000 <= height_at(p.z, level) <= 0x4000_0000_0000
}

/// The cell a place along a side lies in: the last takes in its far end.
pub open spec fn cell_along(u: int, points: int) -> int {
    if u / 0x1_0000_0000 < points - 2 {
        u / 0x1_0000_0000
    } else {
        points - 2
    }
}

/// Between its points a surface is its cell's four corners, each by the share of the cell that is
/// across from it: on either axis of the world, and in height, where a corner without a height stands
/// at the level.
pub proof fn law_a_surface_lies_between_its_points(
    mesh: LiquidMesh<Fixed>,
    level: Fixed,
    u: Fixed,
    v: Fixed,
)
    requires
        2 <= mesh.grid@[0] <= 0x4000_0000,
        2 <= mesh.grid@[1] <= 0x4000_0000,
        0 <= u.raw <= (mesh.grid@[0] - 1) * 0x1_0000_0000,
        0 <= v.raw <= (mesh.grid@[1] - 1) * 0x1_0000_0000,
        forall|i: int, j: int|
            0 <= i < mesh.grid@[0] && 0 <= j < mesh.grid@[1] ==> charted(
                #[trigger] grid_point(mesh, i, j),
                level,
            ),
    ensures
        ({
            let (i, j) = (
                cell_along(u.raw as int, mesh.grid@[0] as int),
                cell_along(v.raw as int, mesh.grid@[1] as int),
            );
            let (x, y) = (u.raw - i * 0x1_0000_0000, v.raw - j * 0x1_0000_0000);
            let (a, b, c, d) = (
                grid_point(mesh, i, j),
                grid_point(mesh, i + 1, j),
                grid_point(mesh, i, j + 1),
                grid_point(mesh, i + 1, j + 1),
            );
            let p = mesh.point_at(level, u, v);
            &&& is_weighed(
                p.x.raw as int,
                a.x.raw as int,
                b.x.raw as int,
                c.x.raw as int,
                d.x.raw as int,
                x,
                y,
            )
            &&& is_weighed(
                p.y.raw as int,
                a.y.raw as int,
                b.y.raw as int,
                c.y.raw as int,
                d.y.raw as int,
                x,
                y,
            )
            &&& is_weighed(
                p.z.raw as int,
                height_at(a.z, level),
                height_at(b.z, level),
                height_at(c.z, level),
                height_at(d.z, level),
                x,
                y,
            )
        }),
{
    let (cols, rows) = (mesh.grid@[0] as int, mesh.grid@[1] as int);
    let (i, j) = (cell_along(u.raw as int, cols), cell_along(v.raw as int, rows));
    lemma_cell_along(u, cols);
    lemma_cell_along(v, rows);
    let (fu, fv) = (u - int_of::<Fixed>(i), v - int_of::<Fixed>(j));
    let (a, b, c, d) = (
        grid_point(mesh, i, j),
        grid_point(mesh, i + 1, j),
        grid_point(mesh, i, j + 1),
        grid_point(mesh, i + 1, j + 1),
    );
    lemma_height(a.z, level);
    lemma_height(b.z, level);
    lemma_height(c.z, level);
    lemma_height(d.z, level);
    lemma_blended(a.x, b.x, c.x, d.x, fu, fv);
    lemma_blended(a.y, b.y, c.y, d.y, fu, fv);
    lemma_blended(
        height_or(a.z, level),
        height_or(b.z, level),
        height_or(c.z, level),
        height_or(d.z, level),
        fu,
        fv,
    );
    lemma_corners_at(mesh, level, u, v, i, j);
}

/// The surface at a place, by the cell it is in.
proof fn lemma_corners_at<S: Scalar>(
    mesh: LiquidMesh<S>,
    level: S,
    u: S,
    v: S,
    i: int,
    j: int,
)
    requires
        i == cell_below(u, mesh.grid@[0] as int),
        j == cell_below(v, mesh.grid@[1] as int),
    ensures
        ({
            let (fu, fv) = (u - int_of::<S>(i), v - int_of::<S>(j));
            let w = mesh.grid@[0] as int;
            let (a, b, c, d) = (
                mesh.positions@[j * w + i],
                mesh.positions@[j * w + (i + 1)],
                mesh.positions@[(j + 1) * w + i],
                mesh.positions@[(j + 1) * w + (i + 1)],
            );
            let p = mesh.point_at(level, u, v);
            &&& p.x == blended(a.x, b.x, c.x, d.x, fu, fv)
            &&& p.y == blended(a.y, b.y, c.y, d.y, fu, fv)
            &&& p.z == blended(
                height_or(a.z, level),
                height_or(b.z, level),
                height_or(c.z, level),
                height_or(d.z, level),
                fu,
                fv,
            )
        }),
{
}

proof fn lemma_cell_along(u: Fixed, points: int)
    requires
        2 <= points <= 0x4000_0000,
        0 <= u.raw <= (points - 1) * 0x1_0000_0000,
    ensures
        cell_below(u, points) == cell_along(u.raw as int, points),
        0 <= cell_along(u.raw as int, points) <= points - 2,
        ({
            let i = cell_along(u.raw as int, points);
            &&& (u - int_of::<Fixed>(i)).raw == u.raw - i * 0x1_0000_0000
            &&& 0 <= u.raw - i * 0x1_0000_0000 <= 0x1_0000_0000
        }),
{
    let w = u.raw as int / 0x1_0000_0000;
    assert(int_of::<Fixed>(0).raw == 0);
    assert(u.greater(int_of::<Fixed>(0)) == u);
    assert(u.floored().raw == w * 0x1_0000_0000);
    assert(u.floored().index() == w);
    let i = cell_along(u.raw as int, points);
    assert(int_of::<Fixed>(i).raw == i * 0x1_0000_0000);
}

proof fn lemma_height(z: Fixed, level: Fixed)
    ensures
        height_or(z, level).raw == height_at(z, level),
        has_height(z) <==> -429496729600000000 < z.raw < 429496729600000000,
{
    assert(no_height::<Fixed>().raw == 429496729600000000);
}

/// A traced surface is sampled four times to a cell.
pub proof fn law_samples_are_a_quarter_apart(mesh: LiquidMesh<Fixed>, si: int, sj: int)
    requires
        0 <= si < 0x8000_0000,
        0 <= sj < 0x8000_0000,
    ensures
        sample_point(mesh, si, sj) == mesh.point_at(
            stand_in(mesh),
            Fixed { raw: (si * 0x4000_0000) as i64 },
            Fixed { raw: (sj * 0x4000_0000) as i64 },
        ),
{
    lemma_quarter(si);
    lemma_quarter(sj);
}

proof fn lemma_quarter(s: int)
    requires
        0 <= s < 0x8000_0000,
    ensures
        int_of::<Fixed>(s) / int_of::<Fixed>(4) == (Fixed { raw: (s * 0x4000_0000) as i64 }),
{
    assert(int_of::<Fixed>(4).raw == 0x4_0000_0000);
    assert(int_of::<Fixed>(s).raw == s * 0x1_0000_0000);
    let n = s * 0x1_0000_0000;
    assert((n * 0x1_0000_0000) / 0x4_0000_0000 == s * 0x4000_0000);
}

/// The middle of a surface is half way along either side.
pub proof fn law_the_middle_is_half_way(mesh: LiquidMesh<Fixed>)
    requires
        2 <= mesh.grid@[0] <= 0x4000_0000,
        2 <= mesh.grid@[1] <= 0x4000_0000,
    ensures
        middle_of(mesh) == mesh.point_at(
            stand_in(mesh),
            Fixed { raw: ((mesh.grid@[0] - 1) * 0x8000_0000) as i64 },
            Fixed { raw: ((mesh.grid@[1] - 1) * 0x8000_0000) as i64 },
        ),
{
    lemma_half(mesh.grid@[0] - 1);
    lemma_half(mesh.grid@[1] - 1);
}

proof fn lemma_half(n: int)
    requires
        0 <= n <= 0x4000_0000,
    ensures
        int_of::<Fixed>(n) * Fixed::frac(1, 2) == (Fixed { raw: (n * 0x8000_0000) as i64 }),
{
    let half = Fixed::frac(1, 2);
    assert(half.raw == 0x8000_0000);
    assert(int_of::<Fixed>(n).raw == n * 0x1_0000_0000);
    let p = int_of::<Fixed>(n).raw * half.raw;
    assert(p == n * 0x8000_0000_0000_0000) by (nonlinear_arith)
        requires
            p == int_of::<Fixed>(n).raw * half.raw,
            int_of::<Fixed>(n).raw == n * 0x1_0000_0000,
            half.raw == 0x8000_0000,
    ;
}

/// The middle of a cell is the mean of its four corners.
pub proof fn law_the_middle_of_a_cell_is_its_corners_mean(mesh: LiquidMesh<Fixed>, i: int, j: int)
    requires
        forall|x: int, y: int|
            i <= x <= i + 1 && j <= y <= j + 1 ==> on_the_map((#[trigger] grid_point(mesh, x, y)).x)
                && on_the_map(grid_point(mesh, x, y).y),
    ensures
        ({
            let m = centre_of(mesh, i, j);
            let (a, b, c, d) = (
                grid_point(mesh, i, j),
                grid_point(mesh, i + 1, j),
                grid_point(mesh, i, j + 1),
                grid_point(mesh, i + 1, j + 1),
            );
            &&& 4 * m.x.raw <= a.x.raw + b.x.raw + c.x.raw + d.x.raw < 4 * (m.x.raw + 1)
            &&& 4 * m.y.raw <= a.y.raw + b.y.raw + c.y.raw + d.y.raw < 4 * (m.y.raw + 1)
        }),
{
    let (a, b, c, d) = (
        grid_point(mesh, i, j),
        grid_point(mesh, i + 1, j),
        grid_point(mesh, i, j + 1),
        grid_point(mesh, i + 1, j + 1),
    );
    lemma_mean(a.x, b.x, c.x, d.x);
    lemma_mean(a.y, b.y, c.y, d.y);
    assert(mesh.positions@[mesh.point(i, j)] == a);
    assert(mesh.positions@[mesh.point(i + 1, j)] == b);
    assert(mesh.positions@[mesh.point(i, j + 1)] == c);
    assert(mesh.positions@[mesh.point(i + 1, j + 1)] == d);
}

proof fn lemma_mean(a: Fixed, b: Fixed, c: Fixed, d: Fixed)
    requires
        on_the_map(a),
        on_the_map(b),
        on_the_map(c),
        on_the_map(d),
    ensures
        ({
            let m = ((a + b + c + d) / int_of::<Fixed>(4)).raw;
            4 * m <= a.raw + b.raw + c.raw + d.raw < 4 * (m + 1)
        }),
{
    let s = a.raw + b.raw + c.raw + d.raw;
    assert((a + b + c + d).raw == s);
    assert(int_of::<Fixed>(4).raw == 0x4_0000_0000);
    assert((s * 0x1_0000_0000) / 0x4_0000_0000 == s / 4);
    assert(((a + b + c + d) / int_of::<Fixed>(4)).raw == s / 4);
}

/// A surface's cell lies in the lattice cell that holds its middle.
pub proof fn law_a_cell_lies_where_its_middle_is(
    mesh: LiquidMesh<Fixed>,
    pitch: Fixed,
    i: int,
    j: int,
)
    requires
        0 < pitch.raw,
        -0x4000_0000 * pitch.raw <= centre_of(mesh, i, j).x.raw <= 0x4000_0000 * pitch.raw,
        -0x4000_0000 * pitch.raw <= centre_of(mesh, i, j).y.raw <= 0x4000_0000 * pitch.raw,
    ensures
        lattice_cell(mesh, pitch, i, j) matches Some(c) && {
            let m = centre_of(mesh, i, j);
            &&& c.0 * pitch.raw <= m.x.raw < (c.0 + 1) * pitch.raw
            &&& c.1 * pitch.raw <= m.y.raw < (c.1 + 1) * pitch.raw
        },
{
    let m = centre_of(mesh, i, j);
    lemma_lattice_line(m.x, pitch);
    lemma_lattice_line(m.y, pitch);
}

proof fn lemma_lattice_line(x: Fixed, pitch: Fixed)
    requires
        0 < pitch.raw,
        -0x4000_0000 * pitch.raw <= x.raw <= 0x4000_0000 * pitch.raw,
    ensures
        ({
            let c = (x / pitch).floored().whole() as int;
            c * pitch.raw <= x.raw < (c + 1) * pitch.raw
        }),
{
    let (p, n) = (pitch.raw as int, x.raw * 0x1_0000_0000);
    let q = n / p;
    vstd::arithmetic::div_mod::lemma_fundamental_div_mod(n, p);
    vstd::arithmetic::div_mod::lemma_mod_bound(n, p);
    let qp = q * p;
    assert(qp <= n < qp + p) by (nonlinear_arith)
        requires
            n == p * q + n % p,
            0 <= n % p < p,
            qp == q * p,
    ;
    assert(-0x4000_0000_0000_0000 <= q <= 0x4000_0000_0000_0000) by (nonlinear_arith)
        requires
            q * p <= n < q * p + p,
            0 < p,
            -0x4000_0000_0000_0000 * p <= n <= 0x4000_0000_0000_0000 * p,
    ;
    assert(x / pitch == saturated(q));
    let c = q / 0x1_0000_0000;
    assert((x / pitch).floored().raw == c * 0x1_0000_0000);
    assert((x / pitch).floored().whole() as int == c);
    let cp = c * p;
    assert(0x1_0000_0000 * cp <= qp) by (nonlinear_arith)
        requires
            cp == c * p,
            qp == q * p,
            c * 0x1_0000_0000 <= q,
            0 < p,
    ;
    assert(qp + p <= 0x1_0000_0000 * (cp + p)) by (nonlinear_arith)
        requires
            cp == c * p,
            qp == q * p,
            q + 1 <= (c + 1) * 0x1_0000_0000,
            0 < p,
    ;
    assert((c + 1) * p == cp + p) by (nonlinear_arith)
        requires
            cp == c * p,
    ;
}

/// The field that is traced round a lattice's water is, at a corner, the wet share of the covered cells
/// that meet there, less a half; and the corner is as many pitches along as it counts.
pub proof fn law_a_corners_field_is_its_wet_share(cells: Cells, pitch: Fixed, i: int, j: int)
    requires
        -0x4000_0000_0000_0000 <= i * pitch.raw <= 0x4000_0000_0000_0000,
        -0x4000_0000_0000_0000 <= j * pitch.raw <= 0x4000_0000_0000_0000,
        -0x8000_0000 < i < 0x8000_0000,
        -0x8000_0000 < j < 0x8000_0000,
        known_at_corner(cells, i, j) > 0,
    ensures
        ({
            let s = corner_sample(cells, pitch, i, j);
            let (w, k) = (wet_at_corner(cells, i, j), known_at_corner(cells, i, j));
            &&& s.at.x.raw == i * pitch.raw
            &&& s.at.y.raw == j * pitch.raw
            &&& k * (s.value.raw + 0x8000_0000) <= w * 0x1_0000_0000
            &&& w * 0x1_0000_0000 < k * (s.value.raw + 0x8000_0001)
        }),
{
    let (w, k) = (wet_at_corner(cells, i, j), known_at_corner(cells, i, j));
    lemma_pitches(i, pitch);
    lemma_pitches(j, pitch);
    assert(0 <= w <= k <= 4);
    assert(int_of::<Fixed>(w).raw == w * 0x1_0000_0000);
    assert(int_of::<Fixed>(k).raw == k * 0x1_0000_0000);
    assert(Fixed::frac(1, 2).raw == 0x8000_0000);
    let top = w * 0x1_0000_0000 * 0x1_0000_0000;
    vstd::arithmetic::div_mod::lemma_div_denominator(top, 0x1_0000_0000, k);
    assert(top / 0x1_0000_0000 == w * 0x1_0000_0000);
    let q = (w * 0x1_0000_0000) / k;
    assert(top / (k * 0x1_0000_0000) == q);
    assert(k == 1 || k == 2 || k == 3 || k == 4);
    assert(0 <= q <= 0x1_0000_0000);
    assert(wetness::<Fixed>(cells, i, j) == saturated(top / (k * 0x1_0000_0000)));
    assert(corner_sample(cells, pitch, i, j).value.raw == q - 0x8000_0000);
}

proof fn lemma_pitches(i: int, pitch: Fixed)
    requires
        -0x4000_0000_0000_0000 <= i * pitch.raw <= 0x4000_0000_0000_0000,
        -0x8000_0000 < i < 0x8000_0000,
    ensures
        (int_of::<Fixed>(i) * pitch).raw == i * pitch.raw,
{
    assert(int_of::<Fixed>(i).raw == i * 0x1_0000_0000);
    let (m, n) = (i * pitch.raw, int_of::<Fixed>(i).raw * pitch.raw);
    assert(n == m * 0x1_0000_0000) by (nonlinear_arith)
        requires
            m == i * pitch.raw,
            n == int_of::<Fixed>(i).raw * pitch.raw,
            int_of::<Fixed>(i).raw == i * 0x1_0000_0000,
    ;
    assert(n / 0x1_0000_0000 == m);
}

/// Whether a cell is one of the four that meet at a corner.
pub open spec fn meets(c: (int, int), i: int, j: int) -> bool {
    i - 1 <= c.0 <= i && j - 1 <= c.1 <= j
}

/// A corner is of the four cells about it and no other: another cell's coming or going is nothing to
/// it, and each of the four, as it comes, is one more that is covered and, where it is wet, one more
/// that is wet.
pub proof fn law_a_corner_is_of_the_four_cells_about_it(
    cells: Cells,
    c: (int, int),
    wet: bool,
    i: int,
    j: int,
)
    requires
        !cells.wet.dom().contains(c),
    ensures
        ({
            let more = Cells { order: cells.order.push(c), wet: cells.wet.insert(c, wet) };
            &&& known_at_corner(more, i, j) - known_at_corner(cells, i, j) == if meets(c, i, j) {
                1int
            } else {
                0
            }
            &&& wet_at_corner(more, i, j) - wet_at_corner(cells, i, j) == if meets(c, i, j) && wet {
                1int
            } else {
                0
            }
        }),
{
    let more = Cells { order: cells.order.push(c), wet: cells.wet.insert(c, wet) };
    assert forall|x: int, y: int| (x, y) != c implies #[trigger] covered(more, x, y) == covered(
        cells,
        x,
        y,
    ) && flooded(more, x, y) == flooded(cells, x, y) by {}
    assert(covered(more, c.0, c.1) == 1 && covered(cells, c.0, c.1) == 0);
    assert(flooded(cells, c.0, c.1) == 0);
}

/// A level is a mean: it is no lower than the lowest of the heights and no higher than the highest.
pub proof fn law_a_level_lies_among_the_heights(ps: Seq<Vec3<Fixed>>, lo: int, hi: int)
    requires
        ps.len() <= 0x1_0000,
        -0x4000_0000_0000 <= lo <= hi <= 0x4000_0000_0000,
        forall|k: int|
            0 <= k < ps.len() && -429496729600000000 < (#[trigger] ps[k]).z.raw < 429496729600000000
                ==> lo <= ps[k].z.raw <= hi,
    ensures
        level_of(ps) is Some <==> exists|k: int|
            0 <= k < ps.len() && -429496729600000000 < (#[trigger] ps[k]).z.raw < 429496729600000000,
        level_of(ps) matches Some(level) ==> lo <= level.raw <= hi,
{
    let n = ps.len() as int;
    lemma_heights(ps, lo, hi, n);
    let (sum, count) = (height_sum(ps, n), height_count(ps, n) as int);
    if count > 0 {
        lemma_over_count(sum, count);
        let q = (sum / int_of::<Fixed>(count)).raw as int;
        assert(lo <= q <= hi) by (nonlinear_arith)
            requires
                count > 0,
                lo * count <= sum.raw <= hi * count,
                q * count <= sum.raw < (q + 1) * count,
        ;
    }
}

/// The sum of the heights, and how many there are.
proof fn lemma_heights(ps: Seq<Vec3<Fixed>>, lo: int, hi: int, n: int)
    requires
        0 <= n <= ps.len() <= 0x1_0000,
        -0x4000_0000_0000 <= lo <= hi <= 0x4000_0000_0000,
        forall|k: int|
            0 <= k < ps.len() && -429496729600000000 < (#[trigger] ps[k]).z.raw < 429496729600000000
                ==> lo <= ps[k].z.raw <= hi,
    ensures
        ({
            let (sum, count) = (height_sum(ps, n).raw as int, height_count(ps, n) as int);
            &&& count <= n
            &&& lo * count <= sum <= hi * count
            &&& count > 0 <==> exists|k: int|
                0 <= k < n && -429496729600000000 < (#[trigger] ps[k]).z.raw < 429496729600000000
        }),
    decreases n,
{
    assert(int_of::<Fixed>(0).raw == 0);
    if n > 0 {
        lemma_heights(ps, lo, hi, n - 1);
        lemma_height(ps[n - 1].z, ps[n - 1].z);
        let (sum, count) = (height_sum(ps, n - 1).raw as int, height_count(ps, n - 1) as int);
        assert(-0x4000_0000_0000_0000 <= lo * count && hi * count <= 0x4000_0000_0000_0000)
            by (nonlinear_arith)
            requires
                -0x4000_0000_0000 <= lo <= hi <= 0x4000_0000_0000,
                0 <= count <= 0x1_0000,
        ;
        assert(lo * (count + 1) == lo * count + lo && hi * (count + 1) == hi * count + hi)
            by (nonlinear_arith);
        if has_height(ps[n - 1].z) {
            assert(lo <= ps[n - 1].z.raw <= hi);
            assert(height_sum(ps, n).raw == sum + ps[n - 1].z.raw);
        }
    } else {
        assert(lo * 0 == 0 && hi * 0 == 0);
    }
}

proof fn lemma_over_count(sum: Fixed, count: int)
    requires
        0 < count <= 0x1_0000,
    ensures
        ({
            let q = (sum / int_of::<Fixed>(count)).raw as int;
            q * count <= sum.raw < (q + 1) * count
        }),
{
    assert(int_of::<Fixed>(count).raw == count * 0x1_0000_0000);
    let (top, d) = (sum.raw * 0x1_0000_0000, count * 0x1_0000_0000);
    let q = top / d;
    vstd::arithmetic::div_mod::lemma_fundamental_div_mod(top, d);
    vstd::arithmetic::div_mod::lemma_mod_bound(top, d);
    let qc = q * count;
    assert(qc * 0x1_0000_0000 == d * q) by (nonlinear_arith)
        requires
            qc == q * count,
            d == count * 0x1_0000_0000,
    ;
    assert((q + 1) * count == qc + count) by (nonlinear_arith)
        requires
            qc == q * count,
    ;
    assert(i64::MIN <= q <= i64::MAX) by (nonlinear_arith)
        requires
            q * count <= sum.raw < (q + 1) * count,
            0 < count,
            i64::MIN <= sum.raw <= i64::MAX,
    ;
}

/// One more point draws the level to it by its share: what it was, as many times as there were heights,
/// and the new one, over one more. A point without a height leaves the level as it was.
#[verifier::spinoff_prover]
pub proof fn law_one_more_point_draws_the_level(ps: Seq<Vec3<Fixed>>, p: Vec3<Fixed>)
    requires
        ps.len() < 0x1_0000,
        forall|k: int|
            0 <= k < ps.len() && -429496729600000000 < (#[trigger] ps[k]).z.raw < 429496729600000000
                ==> on_the_map(ps[k].z),
    ensures
        -429496729600000000 >= p.z.raw || p.z.raw >= 429496729600000000 ==> level_of(ps.push(p))
            == level_of(ps),
        on_the_map(p.z) ==> {
            let n = height_count(ps, ps.len() as int) as int;
            &&& level_of(ps) is None ==> level_of(ps.push(p)) == Some(p.z)
            &&& level_of(ps) matches Some(was) ==> {
                &&& level_of(ps.push(p)) matches Some(now)
                &&& -n <= (n + 1) * now.raw - (n * was.raw + p.z.raw) <= n
            }
        },
{
    let n = ps.len() as int;
    let all = ps.push(p);
    lemma_heights(ps, -0x4000_0000_0000, 0x4000_0000_0000, n);
    lemma_same_start(ps, all, n);
    lemma_height(p.z, p.z);
    assert(all[n] == p);
    let (sum, count) = (height_sum(ps, n), height_count(ps, n) as int);
    if on_the_map(p.z) {
        let after = sum + p.z;
        assert(height_sum(all, n + 1) == after);
        assert(height_count(all, n + 1) == count + 1);
        assert(level_of(all) == Some(after / int_of::<Fixed>(count + 1)));
        assert(-0x4000_0000_0000_0000 <= sum.raw <= 0x4000_0000_0000_0000) by (nonlinear_arith)
            requires
                -0x4000_0000_0000 * count <= sum.raw <= 0x4000_0000_0000 * count,
                0 <= count <= 0x1_0000,
        ;
        assert(after.raw == sum.raw + p.z.raw);
        lemma_over_count(after, count + 1);
        let now = (after / int_of::<Fixed>(count + 1)).raw as int;
        if count > 0 {
            lemma_over_count(sum, count);
            assert(level_of(ps) == Some(sum / int_of::<Fixed>(count)));
            let was = (sum / int_of::<Fixed>(count)).raw as int;
            lemma_drawn(count, was, now, sum.raw as int, p.z.raw as int);
        } else {
            assert(sum.raw == 0) by (nonlinear_arith)
                requires
                    -0x4000_0000_0000 * count <= sum.raw <= 0x4000_0000_0000 * count,
                    count == 0,
            ;
            assert(level_of(ps) is None);
            assert(now == p.z.raw) by (nonlinear_arith)
                requires
                    now * (count + 1) <= p.z.raw < (now + 1) * (count + 1),
                    count == 0,
            ;
        }
    } else if -429496729600000000 >= p.z.raw || p.z.raw >= 429496729600000000 {
        assert(height_sum(all, n + 1) == sum);
        assert(height_count(all, n + 1) == count);
    }
}

proof fn lemma_drawn(n: int, was: int, now: int, sum: int, z: int)
    requires
        n > 0,
        was * n <= sum < (was + 1) * n,
        now * (n + 1) <= sum + z < (now + 1) * (n + 1),
    ensures
        -n <= (n + 1) * now - (n * was + z) <= n,
{
    assert((now + 1) * (n + 1) == (n + 1) * now + n + 1) by (nonlinear_arith);
    assert((was + 1) * n == n * was + n) by (nonlinear_arith);
    assert(now * (n + 1) == (n + 1) * now) by (nonlinear_arith);
    assert(was * n == n * was) by (nonlinear_arith);
}

proof fn lemma_same_start<S: Scalar>(a: Seq<Vec3<S>>, b: Seq<Vec3<S>>, n: int)
    requires
        n <= a.len(),
        n <= b.len(),
        forall|k: int| 0 <= k < n ==> a[k] == b[k],
    ensures
        height_sum(a, n) == height_sum(b, n),
        height_count(a, n) == height_count(b, n),
    decreases n,
{
    if n > 0 {
        lemma_same_start(a, b, n - 1);
    }
}

/// A batch's lattice is as fine as the first of its surfaces that has cells: a cell is as long as from
/// that surface's first point to its second, seen from above.
pub proof fn law_a_lattice_is_as_fine_as_its_first_surface(meshes: Seq<LiquidMesh<Fixed>>, n: int)
    requires
        0 <= n <= meshes.len(),
    ensures
        lattice_pitch(meshes, n) is None <==> forall|k: int|
            0 <= k < n ==> !has_a_cell(#[trigger] meshes[k]),
        lattice_pitch(meshes, n) matches Some(pitch) ==> exists|k: int|
            {
                &&& 0 <= k < n
                &&& has_a_cell(#[trigger] meshes[k])
                &&& forall|i: int| 0 <= i < k ==> !has_a_cell(#[trigger] meshes[i])
                &&& pitch == pitch_of(meshes[k])
            },
    decreases n,
{
    if n > 0 {
        law_a_lattice_is_as_fine_as_its_first_surface(meshes, n - 1);
        assert(has_a_cell(meshes[n - 1]) == meshes[n - 1].has_cells());
        if lattice_pitch(meshes, n - 1) is Some {
            let pitch = lattice_pitch(meshes, n - 1)->Some_0;
            let k = choose|k: int|
                {
                    &&& 0 <= k < n - 1
                    &&& has_a_cell(#[trigger] meshes[k])
                    &&& forall|i: int| 0 <= i < k ==> !has_a_cell(#[trigger] meshes[i])
                    &&& pitch == pitch_of(meshes[k])
                };
            assert(has_a_cell(meshes[k]));
        }
    }
}

/// Whether a surface has a cell: two points at least each way.
pub open spec fn has_a_cell(mesh: LiquidMesh<Fixed>) -> bool {
    mesh.grid@[0] >= 2 && mesh.grid@[1] >= 2
}

/// A surface's cells are as long as its second point is from its first, seen from above.
pub proof fn law_a_pitch_is_between_the_first_two_points(mesh: LiquidMesh<Fixed>)
    requires
        on_the_map(mesh.positions@[0].x),
        on_the_map(mesh.positions@[0].y),
        on_the_map(mesh.positions@[1].x),
        on_the_map(mesh.positions@[1].y),
        -0x2000_0000_0000 <= mesh.positions@[1].x.raw - mesh.positions@[0].x.raw <= 0x2000_0000_0000,
        -0x2000_0000_0000 <= mesh.positions@[1].y.raw - mesh.positions@[0].y.raw <= 0x2000_0000_0000,
    ensures
        ({
            let (a, b) = (mesh.positions@[0], mesh.positions@[1]);
            let (dx, dy) = (b.x.raw - a.x.raw, b.y.raw - a.y.raw);
            let r = pitch_of(mesh).raw;
            &&& 0 <= r
            &&& r * r <= dx * dx + dy * dy
            &&& dx * dx + dy * dy < (r + 1) * (r + 1) + 0x2_0000_0000
        }),
{
    let (a, b) = (mesh.positions@[0], mesh.positions@[1]);
    let v = Vec2::<Fixed> { x: a.x - b.x, y: a.y - b.y };
    law_a_length_is_of_both_parts(v);
    let (dx, dy) = (b.x.raw - a.x.raw, b.y.raw - a.y.raw);
    assert(v.x.raw == -dx && v.y.raw == -dy);
    assert(v.x.raw * v.x.raw == dx * dx) by (nonlinear_arith)
        requires
            v.x.raw == -dx,
    ;
    assert(v.y.raw * v.y.raw == dy * dy) by (nonlinear_arith)
        requires
            v.y.raw == -dy,
    ;
}

/// A batch has a lattice where it has a cell a thousandth of a yard long or more that lies anywhere.
pub proof fn law_a_batch_with_cells_has_a_lattice(
    meshes: Seq<LiquidMesh<Fixed>>,
    r: Option<WetLattice<Fixed>>,
)
    requires
        lattice_traced(meshes, r),
    ensures
        lattice_pitch(meshes, meshes.len() as int) is None ==> r is None,
        lattice_pitch(meshes, meshes.len() as int) matches Some(pitch) ==> (r is Some <==> 4294967
            < pitch.raw && exists|c: (int, int)| #[trigger] some_cell_in(meshes, pitch, c, false)),
{
    if let Some(pitch) = lattice_pitch(meshes, meshes.len() as int) {
        let cells = batch_cells(meshes, pitch, meshes.len() as int);
        assert(Fixed::frac(1, 1000).raw == 4294967);
        if cells.order.len() > 0 {
            let c = cells.order[0];
            law_any_surface_makes_a_cell_wet(meshes, pitch, c);
            assert(cells.order.contains(c));
            assert(some_cell_in(meshes, pitch, c, false));
        }
        if exists|c: (int, int)| #[trigger] some_cell_in(meshes, pitch, c, false) {
            let c = choose|c: (int, int)| #[trigger] some_cell_in(meshes, pitch, c, false);
            law_any_surface_makes_a_cell_wet(meshes, pitch, c);
        }
    }
}

/// The water's edge is as far off as the nearest piece of it that is looked at, and twenty-four yards
/// where none is.
pub proof fn law_no_edge_near_is_twenty_four_yards(lattice: WetLattice<Fixed>, p: Vec2<Fixed>)
    ensures
        lattice.edge is None ==> lattice.reach(p).raw == 0x18_0000_0000,
        lattice.edge matches Some(e) ==> match nearest_of(e.ring(p), p) {
            Some(n) => lattice.reach(p) == n.d && e.reach(p) == n.d,
            None => lattice.reach(p).raw == 0x18_0000_0000 && e.reach(p).raw == 0x18_0000_0000,
        },
{
    assert(int_of::<Fixed>(24).raw == 0x18_0000_0000);
}

/// A surface is traced where it has a cell, exactly as many points as its grid, and a height among them.
pub proof fn law_a_surface_is_traced_by_its_whole_grid(mesh: LiquidMesh<Fixed>)
    ensures
        traceable(mesh) <==> has_a_cell(mesh) && mesh.positions@.len() == mesh.grid@[0]
            * mesh.grid@[1] && exists|k: int|
            0 <= k < mesh.positions@.len() && -429496729600000000 < (
            #[trigger] mesh.positions@[k]).z.raw < 429496729600000000,
{
    lemma_some_height(mesh.positions@, mesh.positions@.len() as int);
}

proof fn lemma_some_height(ps: Seq<Vec3<Fixed>>, n: int)
    requires
        0 <= n <= ps.len(),
    ensures
        height_count(ps, n) > 0 <==> exists|k: int|
            0 <= k < n && -429496729600000000 < (#[trigger] ps[k]).z.raw < 429496729600000000,
    decreases n,
{
    if n > 0 {
        lemma_some_height(ps, n - 1);
        lemma_height(ps[n - 1].z, ps[n - 1].z);
        if height_count(ps, n - 1) > 0 {
            let k = choose|k: int|
                0 <= k < n - 1 && -429496729600000000 < (#[trigger] ps[k]).z.raw < 429496729600000000;
            assert(-429496729600000000 < ps[k].z.raw < 429496729600000000);
        }
    }
}

} // verus!
