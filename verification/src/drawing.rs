//! What a drawn surface shows, corner by corner, in whole steps of the exact numbers: where each
//! corner is and what it carries, in terms of the grid it was drawn from and of the shore.

use vstd::prelude::*;

use crate::fixed::Fixed;
use crate::geometry::{scene_of, Vec2, Vec3};
use crate::liquid_mesh::{cell_below, height_or, lemma_point_in_grid, LiquidMesh};
use crate::scalar::{blended, int_of, mixed, Scalar};
use crate::shoreline::{law_nearest_is_on_the_line, nearest_of, nearest_on, Near};
use crate::surface::{
    cell_drawn, drawn, drawn_level, is_drawing, lemma_inside_cell, lemma_share, row_drawn, rows_drawn, splits,
    square, square_row, square_rows, vertex_at, vertex_rows, MeshData, Patchwork, Shores, Vertex,
    SHORE_CELL_SUB,
};

verus! {

/// Whether a number is no further than five hundred million yards from nothing.
pub open spec fn tame(v: Fixed) -> bool {
    -0x2000_0000_0000_0000 <= v.raw <= 0x2000_0000_0000_0000
}

/// The number `s` of `sub` equal parts of the way from one number to another, rounded down.
pub open spec fn part_way(a: int, b: int, s: int, sub: int) -> int {
    a + ((b - a) * s) / sub
}

/// The number so many parts across and along a square with four numbers at its corners: part of the
/// way along between the numbers part of the way across.
pub open spec fn part_of_square(
    a: int,
    b: int,
    c: int,
    d: int,
    si: int,
    sj: int,
    sub: int,
) -> int {
    part_way(part_way(a, b, si, sub), part_way(c, d, si, sub), sj, sub)
}

proof fn lemma_part_way(a: Fixed, b: Fixed, s: int, sub: int)
    requires
        tame(a),
        tame(b),
        sub == 1 || sub == 2 || sub == 8,
        0 <= s <= sub,
    ensures
        mixed(a, b, int_of::<Fixed>(s) / int_of::<Fixed>(sub)).raw == part_way(
            a.raw as int,
            b.raw as int,
            s,
            sub,
        ),
        tame(mixed(a, b, int_of::<Fixed>(s) / int_of::<Fixed>(sub))),
{
    let f = int_of::<Fixed>(s) / int_of::<Fixed>(sub);
    assert(int_of::<Fixed>(s).raw == s * 0x1_0000_0000);
    let d = b.raw - a.raw;
    assert((b - a).raw == d);
    let p = d * s;
    if sub == 1 {
        assert(int_of::<Fixed>(sub).raw == 0x1_0000_0000);
        assert(f.raw == s * 0x1_0000_0000);
        assert(d * (s * 0x1_0000_0000) == (d * s) * 0x1_0000_0000) by (nonlinear_arith);
        assert((p * 0x1_0000_0000) / 0x1_0000_0000 == p / 1);
    } else if sub == 2 {
        assert(int_of::<Fixed>(sub).raw == 0x2_0000_0000);
        assert((s * 0x1_0000_0000 * 0x1_0000_0000) / 0x2_0000_0000 == s * 0x8000_0000);
        assert(f.raw == s * 0x8000_0000);
        assert(d * (s * 0x8000_0000) == (d * s) * 0x8000_0000) by (nonlinear_arith);
        assert((p * 0x8000_0000) / 0x1_0000_0000 == p / 2);
    } else {
        assert(int_of::<Fixed>(sub).raw == 0x8_0000_0000);
        assert((s * 0x1_0000_0000 * 0x1_0000_0000) / 0x8_0000_0000 == s * 0x2000_0000);
        assert(f.raw == s * 0x2000_0000);
        assert(d * (s * 0x2000_0000) == (d * s) * 0x2000_0000) by (nonlinear_arith);
        assert((p * 0x2000_0000) / 0x1_0000_0000 == p / 8);
    }
    if d >= 0 {
        assert(0 <= p <= d * sub) by (nonlinear_arith)
            requires
                p == d * s,
                0 <= d,
                0 <= s <= sub,
        ;
    } else {
        assert(d * sub <= p <= 0) by (nonlinear_arith)
            requires
                p == d * s,
                d <= 0,
                0 <= s <= sub,
        ;
    }
}

proof fn lemma_part_of_square(
    a: Fixed,
    b: Fixed,
    c: Fixed,
    d: Fixed,
    si: int,
    sj: int,
    sub: int,
)
    requires
        tame(a),
        tame(b),
        tame(c),
        tame(d),
        sub == 1 || sub == 2 || sub == 8,
        0 <= si <= sub,
        0 <= sj <= sub,
    ensures
        blended(
            a,
            b,
            c,
            d,
            int_of::<Fixed>(si) / int_of::<Fixed>(sub),
            int_of::<Fixed>(sj) / int_of::<Fixed>(sub),
        ).raw == part_of_square(
            a.raw as int,
            b.raw as int,
            c.raw as int,
            d.raw as int,
            si,
            sj,
            sub,
        ),
        tame(
            blended(
                a,
                b,
                c,
                d,
                int_of::<Fixed>(si) / int_of::<Fixed>(sub),
                int_of::<Fixed>(sj) / int_of::<Fixed>(sub),
            ),
        ),
{
    lemma_part_way(a, b, si, sub);
    lemma_part_way(c, d, si, sub);
    let f = int_of::<Fixed>(si) / int_of::<Fixed>(sub);
    lemma_part_way(mixed(a, b, f), mixed(c, d, f), sj, sub);
}

/// The four points of a cell, in the row-by-row order.
proof fn lemma_cell_in_grid(i: int, j: int, cols: int)
    requires
        0 <= i,
        0 <= j,
        0 <= cols,
    ensures
        0 <= j * cols + i,
        (j + 1) * cols == j * cols + cols,
{
    assert(0 <= j * cols) by (nonlinear_arith)
        requires
            0 <= j,
            0 <= cols,
    ;
    assert((j + 1) * cols == j * cols + cols) by (nonlinear_arith);
}

/// A drawn corner carries its grid's depth and its grid's place on the sheet, part of the way between
/// the four points of its cell: as far across as the corner is, and as far along.
pub proof fn law_a_corner_carries_its_grids_depth_and_place(
    mesh: LiquidMesh<Fixed>,
    shores: Shores<Fixed>,
    i: int,
    j: int,
    sub: int,
    si: int,
    sj: int,
)
    requires
        sub == 1 || sub == 8,
        0 <= si <= sub,
        0 <= sj <= sub,
        0 <= i < mesh.across(),
        0 <= j < mesh.along(),
        mesh.point(i + 1, j + 1) < mesh.depths@.len(),
        mesh.point(i + 1, j + 1) < mesh.uvs@.len(),
        forall|k: int| 0 <= k < mesh.depths@.len() ==> tame(#[trigger] mesh.depths@[k]),
        forall|k: int|
            0 <= k < mesh.uvs@.len() ==> tame((#[trigger] mesh.uvs@[k]).x) && tame(mesh.uvs@[k].y),
    ensures
        ({
            let v = vertex_at(mesh, shores, i, j, sub, si, sj);
            let cols = mesh.grid@[0] as int;
            let (a, b) = (j * cols + i, j * cols + i + 1);
            let (c, d) = ((j + 1) * cols + i, (j + 1) * cols + i + 1);
            let (depth, uv) = (mesh.depths@, mesh.uvs@);
            &&& v.uv1.x.raw == part_of_square(
                depth[a].raw as int,
                depth[b].raw as int,
                depth[c].raw as int,
                depth[d].raw as int,
                si,
                sj,
                sub,
            )
            &&& v.uv.x.raw == part_of_square(
                uv[a].x.raw as int,
                uv[b].x.raw as int,
                uv[c].x.raw as int,
                uv[d].x.raw as int,
                si,
                sj,
                sub,
            )
            &&& v.uv.y.raw == part_of_square(
                uv[a].y.raw as int,
                uv[b].y.raw as int,
                uv[c].y.raw as int,
                uv[d].y.raw as int,
                si,
                sj,
                sub,
            )
        }),
{
    let cols = mesh.grid@[0] as int;
    let (a, b) = (j * cols + i, j * cols + i + 1);
    let (c, d) = ((j + 1) * cols + i, (j + 1) * cols + i + 1);
    let (depth, uv) = (mesh.depths@, mesh.uvs@);
    lemma_cell_in_grid(i, j, cols);
    assert(tame(depth[a]) && tame(depth[b]) && tame(depth[c]) && tame(depth[d]));
    assert(tame(uv[a].x) && tame(uv[b].x) && tame(uv[c].x) && tame(uv[d].x));
    lemma_part_of_square(depth[a], depth[b], depth[c], depth[d], si, sj, sub);
    lemma_part_of_square(uv[a].x, uv[b].x, uv[c].x, uv[d].x, si, sj, sub);
    lemma_part_of_square(uv[a].y, uv[b].y, uv[c].y, uv[d].y, si, sj, sub);
}

/// Whether a corner is one of a wet cell's.
pub open spec fn of_a_wet_cell<S: Scalar>(
    v: Vertex<S>,
    mesh: LiquidMesh<S>,
    shores: Shores<S>,
) -> bool {
    exists|i: int, j: int, sub: int, si: int, sj: int|
        {
            &&& 0 <= i < mesh.across()
            &&& 0 <= j < mesh.along()
            &&& mesh.is_wet(i, j)
            &&& sub == splits(mesh, shores, i, j)
            &&& 0 <= si <= sub
            &&& 0 <= sj <= sub
            &&& v == #[trigger] vertex_at(mesh, shores, i, j, sub, si, sj)
        }
}

proof fn lemma_rows_of_a_cell<S: Scalar>(
    mesh: LiquidMesh<S>,
    shores: Shores<S>,
    i: int,
    j: int,
    sub: int,
    n: int,
)
    requires
        0 <= i < mesh.across(),
        0 <= j < mesh.along(),
        mesh.is_wet(i, j),
        sub == splits(mesh, shores, i, j),
        0 <= n <= sub + 1,
    ensures
        vertex_rows(mesh, shores, i, j, sub, n).len() == n * (sub + 1),
        forall|k: int|
            0 <= k < vertex_rows(mesh, shores, i, j, sub, n).len() ==> of_a_wet_cell(
                #[trigger] vertex_rows(mesh, shores, i, j, sub, n)[k],
                mesh,
                shores,
            ),
        forall|si: int, sj: int|
            0 <= si <= sub && 0 <= sj < n ==> vertex_rows(mesh, shores, i, j, sub, n)[sj * (sub + 1)
                + si] == #[trigger] vertex_at(mesh, shores, i, j, sub, si, sj),
    decreases n,
{
    if n > 0 {
        lemma_rows_of_a_cell(mesh, shores, i, j, sub, n - 1);
        let before = vertex_rows(mesh, shores, i, j, sub, n - 1);
        let all = vertex_rows(mesh, shores, i, j, sub, n);
        let w = sub + 1;
        assert(n * w == (n - 1) * w + w) by (nonlinear_arith);
        assert forall|k: int| 0 <= k < all.len() implies of_a_wet_cell(
            #[trigger] all[k],
            mesh,
            shores,
        ) by {
            if k < before.len() {
                assert(all[k] == before[k]);
            } else {
                let si = k - before.len();
                assert(all[k] == vertex_at(mesh, shores, i, j, sub, si, n - 1));
            }
        }
        assert forall|si: int, sj: int| 0 <= si <= sub && 0 <= sj < n implies all[sj * w + si]
            == #[trigger] vertex_at(mesh, shores, i, j, sub, si, sj) by {
            if sj < n - 1 {
                assert(sj * w + si < (n - 1) * w) by (nonlinear_arith)
                    requires
                        sj <= n - 2,
                        0 <= si < w,
                ;
                assert(0 <= sj * w) by (nonlinear_arith)
                    requires
                        0 <= sj,
                        0 < w,
                ;
                assert(before[sj * w + si] == vertex_at(mesh, shores, i, j, sub, si, sj));
            }
        }
    } else {
        assert(0 * (sub + 1) == 0);
    }
}

proof fn lemma_row_of_cells<S: Scalar>(
    so_far: Patchwork<S>,
    mesh: LiquidMesh<S>,
    shores: Shores<S>,
    j: int,
    n: int,
)
    requires
        0 <= j < mesh.along(),
        n <= mesh.across(),
        forall|k: int|
            0 <= k < so_far.vertices.len() ==> of_a_wet_cell(
                #[trigger] so_far.vertices[k],
                mesh,
                shores,
            ),
    ensures
        forall|k: int|
            0 <= k < row_drawn(so_far, mesh, shores, j, n).vertices.len() ==> of_a_wet_cell(
                #[trigger] row_drawn(so_far, mesh, shores, j, n).vertices[k],
                mesh,
                shores,
            ),
    decreases n,
{
    if n > 0 {
        lemma_row_of_cells(so_far, mesh, shores, j, n - 1);
        if mesh.is_wet(n - 1, j) {
            let sub = splits(mesh, shores, n - 1, j);
            lemma_rows_of_a_cell(mesh, shores, n - 1, j, sub, sub + 1);
            let before = row_drawn(so_far, mesh, shores, j, n - 1).vertices;
            let patch = vertex_rows(mesh, shores, n - 1, j, sub, sub + 1);
            let all = row_drawn(so_far, mesh, shores, j, n).vertices;
            assert(all == before + patch);
            assert forall|k: int| 0 <= k < all.len() implies of_a_wet_cell(
                #[trigger] all[k],
                mesh,
                shores,
            ) by {
                if k < before.len() {
                    assert(all[k] == before[k]);
                } else {
                    assert(all[k] == patch[k - before.len()]);
                }
            }
        } else {
            assert(row_drawn(so_far, mesh, shores, j, n) == row_drawn(
                so_far,
                mesh,
                shores,
                j,
                n - 1,
            ));
        }
    } else {
        assert(row_drawn(so_far, mesh, shores, j, n) == so_far);
    }
}

proof fn lemma_rows_of_cells<S: Scalar>(mesh: LiquidMesh<S>, shores: Shores<S>, n: int)
    requires
        n <= mesh.along(),
    ensures
        forall|k: int|
            0 <= k < rows_drawn(mesh, shores, n).vertices.len() ==> of_a_wet_cell(
                #[trigger] rows_drawn(mesh, shores, n).vertices[k],
                mesh,
                shores,
            ),
    decreases n,
{
    if n > 0 {
        lemma_rows_of_cells(mesh, shores, n - 1);
        lemma_row_of_cells(
            rows_drawn(mesh, shores, n - 1),
            mesh,
            shores,
            n - 1,
            mesh.across(),
        );
    }
}

/// Every corner drawn is one of a wet cell's.
pub proof fn law_only_wet_cells_have_corners<S: Scalar>(
    mesh: LiquidMesh<S>,
    shores: Shores<S>,
    k: int,
)
    requires
        0 <= k < drawn(mesh, shores).vertices.len(),
    ensures
        of_a_wet_cell(drawn(mesh, shores).vertices[k], mesh, shores),
{
    lemma_rows_of_cells(mesh, shores, mesh.along());
}

/// Where a corner of the scene is in the world, seen from above: the world's first axis runs against
/// the scene's third, and its second against the scene's first.
pub open spec fn seen_from_above(position: Vec3<Fixed>) -> Vec2<Fixed> {
    Vec2 {
        x: Fixed { raw: (-position.z.raw) as i64 },
        y: Fixed { raw: (-position.x.raw) as i64 },
    }
}

/// Whether the traced waterline is the shore a point sees, and `n` its point nearest that one: it is
/// traced, and no further than the grids' own edge, or than twenty four yards where there is none.
pub open spec fn sees_the_waterline(shores: Shores<Fixed>, p: Vec2<Fixed>, n: Near<Fixed>) -> bool {
    &&& shores.shoreline matches Some(s) && nearest_of(s.ring(p), p) == Some(n)
    &&& match shores.lattice {
        Some(l) => n.d.raw <= l.reach(p).raw,
        None => n.d.raw <= 0x18_0000_0000,
    }
}

/// The shore offset a drawn corner carries leads to the shore: where the traced waterline is what it
/// sees, the corner's place in the scene and the offset add up to the waterline's point nearest it,
/// whichever way the waterline runs; the offset is as long as the corner's shore distance; and that is
/// how far the waterline is.
pub proof fn law_a_corners_offset_leads_to_the_waterline(
    mesh: LiquidMesh<Fixed>,
    shores: Shores<Fixed>,
    k: int,
    n: Near<Fixed>,
)
    requires
        0 <= k < drawn(mesh, shores).vertices.len(),
        ({
            let at = drawn(mesh, shores).vertices[k].position;
            &&& tame(at.x)
            &&& tame(at.z)
            &&& tame(n.at.x)
            &&& tame(n.at.y)
            &&& sees_the_waterline(shores, seen_from_above(at), n)
        }),
    ensures
        ({
            let v = drawn(mesh, shores).vertices[k];
            &&& v.position.x.raw + v.offset.x.raw == -n.at.y.raw
            &&& v.position.z.raw + v.offset.y.raw == -n.at.x.raw
            &&& v.uv1.y == n.d
            &&& v.offset.measure() == n.d
        }),
{
    law_only_wet_cells_have_corners(mesh, shores, k);
    let v = drawn(mesh, shores).vertices[k];
    let (i, j, sub, si, sj) = choose|i: int, j: int, sub: int, si: int, sj: int|
        v == #[trigger] vertex_at(mesh, shores, i, j, sub, si, sj);
    lemma_corner_offset(mesh, shores, i, j, sub, si, sj, n);
}

proof fn lemma_corner_offset(
    mesh: LiquidMesh<Fixed>,
    shores: Shores<Fixed>,
    i: int,
    j: int,
    sub: int,
    si: int,
    sj: int,
    n: Near<Fixed>,
)
    requires
        ({
            let at = vertex_at(mesh, shores, i, j, sub, si, sj).position;
            &&& tame(at.x)
            &&& tame(at.z)
            &&& tame(n.at.x)
            &&& tame(n.at.y)
            &&& sees_the_waterline(shores, seen_from_above(at), n)
        }),
    ensures
        ({
            let v = vertex_at(mesh, shores, i, j, sub, si, sj);
            &&& v.position.x.raw + v.offset.x.raw == -n.at.y.raw
            &&& v.position.z.raw + v.offset.y.raw == -n.at.x.raw
            &&& v.uv1.y == n.d
            &&& v.offset.measure() == n.d
        }),
{
    let v = vertex_at(mesh, shores, i, j, sub, si, sj);
    let w = mesh.point_at(
        drawn_level(mesh),
        int_of::<Fixed>(i) + int_of::<Fixed>(si) / int_of::<Fixed>(sub),
        int_of::<Fixed>(j) + int_of::<Fixed>(sj) / int_of::<Fixed>(sub),
    );
    let p = seen_from_above(v.position);
    assert(v.position == scene_of(w));
    assert(p.x == w.x && p.y == w.y);
    assert(p == Vec2 { x: w.x, y: w.y });
    lemma_seen(shores, p, n);
    lemma_offset_is_as_long(p, n.at, v.offset);
}

proof fn lemma_seen(shores: Shores<Fixed>, p: Vec2<Fixed>, n: Near<Fixed>)
    requires
        sees_the_waterline(shores, p, n),
    ensures
        shores.seen_from(p).d == n.d,
        shores.seen_from(p).offset == n.at - p,
        n.d == (p - n.at).measure(),
{
    let s = shores.shoreline->Some_0;
    assert(int_of::<Fixed>(24).raw == 0x18_0000_0000);
    law_nearest_is_on_the_line(s.ring(p), p);
    let i = choose|i: int|
        0 <= i < s.ring(p).len() && n == nearest_on(#[trigger] s.ring(p)[i], p);
    assert(n == nearest_on(s.ring(p)[i], p));
}

proof fn lemma_offset_is_as_long(p: Vec2<Fixed>, at: Vec2<Fixed>, offset: Vec2<Fixed>)
    requires
        tame(p.x),
        tame(p.y),
        tame(at.x),
        tame(at.y),
        offset.x.raw == p.y.raw - at.y.raw,
        offset.y.raw == p.x.raw - at.x.raw,
    ensures
        offset.measure() == (p - at).measure(),
{
    let d = p - at;
    assert(d.x == offset.y && d.y == offset.x);
    assert(offset.square() == d.square());
}

/// Which cell a parameter falls in, and how far into it.
proof fn lemma_parameter(i: int, sub: int, s: int, points: int)
    requires
        sub == 1 || sub == SHORE_CELL_SUB,
        0 <= s <= sub,
        0 <= i < 0x3fff_ffff,
        i < points - 1,
    ensures
        ({
            let v = int_of::<Fixed>(i) + int_of::<Fixed>(s) / int_of::<Fixed>(sub);
            let c = cell_below(v, points);
            let f = v - int_of::<Fixed>(c);
            ||| c == i && f == int_of::<Fixed>(s) / int_of::<Fixed>(sub)
            ||| s == sub && c == i + 1 && i + 1 < points - 1 && f == int_of::<Fixed>(0)
                / int_of::<Fixed>(sub)
        }),
{
    let v = int_of::<Fixed>(i) + int_of::<Fixed>(s) / int_of::<Fixed>(sub);
    if s < sub {
        lemma_inside_cell(i, sub, s, points);
    } else {
        lemma_share(i, sub, sub);
        lemma_share(i + 1, sub, 0);
        let f = int_of::<Fixed>(0) / int_of::<Fixed>(sub);
        assert(f.raw == 0);
        assert(int_of::<Fixed>(i).raw == i * 0x1_0000_0000);
        assert(int_of::<Fixed>(i + 1).raw == (i + 1) * 0x1_0000_0000);
        assert(v.raw == (i + 1) * 0x1_0000_0000);
        assert(int_of::<Fixed>(0).raw == 0);
        assert(v.greater(int_of::<Fixed>(0)) == v);
        assert(v.raw as int / 0x1_0000_0000 == i + 1);
        assert(v.floored().raw == (i + 1) * 0x1_0000_0000);
        assert(v.floored().index() == i + 1);
    }
}

/// The number part of the way across a square, from either of two squares that share the side it is
/// on.
proof fn lemma_square_at(
    f: spec_fn(int, int) -> Fixed,
    i: int,
    j: int,
    sub: int,
    si: int,
    sj: int,
    cols: int,
    rows: int,
)
    requires
        sub == 1 || sub == SHORE_CELL_SUB,
        0 <= si <= sub,
        0 <= sj <= sub,
        0 <= i < 0x3fff_ffff,
        0 <= j < 0x3fff_ffff,
        i < cols - 1,
        j < rows - 1,
        forall|x: int, y: int| 0 <= x < cols && 0 <= y < rows ==> tame(#[trigger] f(x, y)),
    ensures
        ({
            let u = int_of::<Fixed>(i) + int_of::<Fixed>(si) / int_of::<Fixed>(sub);
            let v = int_of::<Fixed>(j) + int_of::<Fixed>(sj) / int_of::<Fixed>(sub);
            let (c, d) = (cell_below(u, cols), cell_below(v, rows));
            let at = blended(
                f(c, d),
                f(c + 1, d),
                f(c, d + 1),
                f(c + 1, d + 1),
                u - int_of::<Fixed>(c),
                v - int_of::<Fixed>(d),
            );
            &&& at.raw == part_of_square(
                f(i, j).raw as int,
                f(i + 1, j).raw as int,
                f(i, j + 1).raw as int,
                f(i + 1, j + 1).raw as int,
                si,
                sj,
                sub,
            )
            &&& tame(at)
        }),
{
    lemma_parameter(i, sub, si, cols);
    lemma_parameter(j, sub, sj, rows);
    let u = int_of::<Fixed>(i) + int_of::<Fixed>(si) / int_of::<Fixed>(sub);
    let v = int_of::<Fixed>(j) + int_of::<Fixed>(sj) / int_of::<Fixed>(sub);
    let (c, d) = (cell_below(u, cols), cell_below(v, rows));
    let s = if c == i { si } else { 0 };
    let t = if d == j { sj } else { 0 };
    lemma_part_of_square(f(c, d), f(c + 1, d), f(c, d + 1), f(c + 1, d + 1), s, t, sub);
    lemma_whole_way(f(i, j).raw as int, f(i + 1, j).raw as int, f(i + 2, j).raw as int, sub);
    lemma_whole_way(
        f(i, j + 1).raw as int,
        f(i + 1, j + 1).raw as int,
        f(i + 2, j + 1).raw as int,
        sub,
    );
    lemma_whole_way(
        f(i, j + 2).raw as int,
        f(i + 1, j + 2).raw as int,
        f(i + 2, j + 2).raw as int,
        sub,
    );
    let (p, q, r) = (
        part_way(f(i, j).raw as int, f(i + 1, j).raw as int, si, sub),
        part_way(f(i, j + 1).raw as int, f(i + 1, j + 1).raw as int, si, sub),
        part_way(f(i, j + 2).raw as int, f(i + 1, j + 2).raw as int, si, sub),
    );
    lemma_whole_way(p, q, r, sub);
}

/// All of the way to a number is the number, and none of the way from it is too.
proof fn lemma_whole_way(a: int, b: int, c: int, sub: int)
    requires
        sub == 1 || sub == SHORE_CELL_SUB,
    ensures
        part_way(a, b, sub, sub) == b,
        part_way(b, c, 0, sub) == b,
{
    assert((c - b) * 0 == 0);
}

/// One coordinate of a point.
spec fn pick(p: Vec3<Fixed>, axis: int) -> Fixed {
    if axis == 0 {
        p.x
    } else if axis == 1 {
        p.y
    } else {
        p.z
    }
}

/// One coordinate of a point of a grid, with a height for every one.
spec fn coordinate(mesh: LiquidMesh<Fixed>, level: Fixed, axis: int, x: int, y: int) -> Fixed {
    let p = mesh.positions@[mesh.point(x, y)];
    if axis == 2 {
        height_or(p.z, level)
    } else {
        pick(p, axis)
    }
}

/// One coordinate of the surface, part of the way across a cell.
#[verifier::spinoff_prover]
proof fn lemma_axis(
    mesh: LiquidMesh<Fixed>,
    level: Fixed,
    axis: int,
    i: int,
    j: int,
    sub: int,
    si: int,
    sj: int,
)
    requires
        0 <= axis <= 2,
        sub == 1 || sub == SHORE_CELL_SUB,
        0 <= si <= sub,
        0 <= sj <= sub,
        0 <= i < mesh.across(),
        0 <= j < mesh.along(),
        i < 0x3fff_ffff,
        j < 0x3fff_ffff,
        mesh.wf(),
        forall|k: int|
            0 <= k < mesh.positions@.len() ==> tame((#[trigger] mesh.positions@[k]).x) && tame(
                mesh.positions@[k].y,
            ) && tame(mesh.positions@[k].z),
        tame(level),
    ensures
        ({
            let u = int_of::<Fixed>(i) + int_of::<Fixed>(si) / int_of::<Fixed>(sub);
            let v = int_of::<Fixed>(j) + int_of::<Fixed>(sj) / int_of::<Fixed>(sub);
            let at = pick(mesh.point_at(level, u, v), axis);
            &&& at.raw == part_of_square(
                coordinate(mesh, level, axis, i, j).raw as int,
                coordinate(mesh, level, axis, i + 1, j).raw as int,
                coordinate(mesh, level, axis, i, j + 1).raw as int,
                coordinate(mesh, level, axis, i + 1, j + 1).raw as int,
                si,
                sj,
                sub,
            )
            &&& tame(at)
        }),
{
    let f = |x: int, y: int| coordinate(mesh, level, axis, x, y);
    assert forall|x: int, y: int| 0 <= x < mesh.cols() && 0 <= y < mesh.rows() implies tame(
        #[trigger] f(x, y),
    ) by {
        lemma_point_in_grid(x, y, mesh.cols(), mesh.rows());
        assert(tame(mesh.positions@[mesh.point(x, y)].x));
    }
    lemma_square_at(f, i, j, sub, si, sj, mesh.cols(), mesh.rows());
    let u = int_of::<Fixed>(i) + int_of::<Fixed>(si) / int_of::<Fixed>(sub);
    let v = int_of::<Fixed>(j) + int_of::<Fixed>(sj) / int_of::<Fixed>(sub);
    let (c, d) = (cell_below(u, mesh.cols()), cell_below(v, mesh.rows()));
    assert(pick(mesh.point_at(level, u, v), axis) == blended(
        coordinate(mesh, level, axis, c, d),
        coordinate(mesh, level, axis, c + 1, d),
        coordinate(mesh, level, axis, c, d + 1),
        coordinate(mesh, level, axis, c + 1, d + 1),
        u - int_of::<Fixed>(c),
        v - int_of::<Fixed>(d),
    ));
    assert(f(c, d) == coordinate(mesh, level, axis, c, d));
    assert(f(c + 1, d) == coordinate(mesh, level, axis, c + 1, d));
    assert(f(c, d + 1) == coordinate(mesh, level, axis, c, d + 1));
    assert(f(c + 1, d + 1) == coordinate(mesh, level, axis, c + 1, d + 1));
    assert(f(i, j) == coordinate(mesh, level, axis, i, j));
    assert(f(i + 1, j) == coordinate(mesh, level, axis, i + 1, j));
    assert(f(i, j + 1) == coordinate(mesh, level, axis, i, j + 1));
    assert(f(i + 1, j + 1) == coordinate(mesh, level, axis, i + 1, j + 1));
}

/// Whether a place in the scene is so many parts across and along a cell of a grid: part of the way
/// between the cell's four points. The world's first axis runs against the scene's third, its second
/// against the scene's first, and up is up; a point that has no height stands at `level`.
pub open spec fn at_place(
    at: Vec3<Fixed>,
    mesh: LiquidMesh<Fixed>,
    level: Fixed,
    i: int,
    j: int,
    sub: int,
    si: int,
    sj: int,
) -> bool {
    let cols = mesh.grid@[0] as int;
    let (a, b) = (mesh.positions@[j * cols + i], mesh.positions@[j * cols + i + 1]);
    let (c, d) = (mesh.positions@[(j + 1) * cols + i], mesh.positions@[(j + 1) * cols + i + 1]);
    &&& at.z.raw == -part_of_square(
        a.x.raw as int,
        b.x.raw as int,
        c.x.raw as int,
        d.x.raw as int,
        si,
        sj,
        sub,
    )
    &&& at.x.raw == -part_of_square(
        a.y.raw as int,
        b.y.raw as int,
        c.y.raw as int,
        d.y.raw as int,
        si,
        sj,
        sub,
    )
    &&& at.y.raw == part_of_square(
        height_or(a.z, level).raw as int,
        height_or(b.z, level).raw as int,
        height_or(c.z, level).raw as int,
        height_or(d.z, level).raw as int,
        si,
        sj,
        sub,
    )
}

/// A drawn corner is where its grid has it: as far across its cell as the corner is, and as far along.
pub proof fn law_a_corner_is_where_its_grid_is(
    mesh: LiquidMesh<Fixed>,
    shores: Shores<Fixed>,
    i: int,
    j: int,
    sub: int,
    si: int,
    sj: int,
)
    requires
        sub == 1 || sub == 8,
        0 <= si <= sub,
        0 <= sj <= sub,
        0 <= i < mesh.across(),
        0 <= j < mesh.along(),
        i < 0x3fff_ffff,
        j < 0x3fff_ffff,
        mesh.wf(),
        forall|k: int|
            0 <= k < mesh.positions@.len() ==> tame((#[trigger] mesh.positions@[k]).x) && tame(
                mesh.positions@[k].y,
            ) && tame(mesh.positions@[k].z),
        tame(drawn_level(mesh)),
    ensures
        at_place(
            vertex_at(mesh, shores, i, j, sub, si, sj).position,
            mesh,
            drawn_level(mesh),
            i,
            j,
            sub,
            si,
            sj,
        ),
{
    lemma_vertex_position(mesh, shores, i, j, sub, si, sj);
    lemma_scene_point(mesh, drawn_level(mesh), i, j, sub, si, sj);
}

/// A corner's place is the surface's, in the scene.
proof fn lemma_vertex_position<S: Scalar>(
    mesh: LiquidMesh<S>,
    shores: Shores<S>,
    i: int,
    j: int,
    sub: int,
    si: int,
    sj: int,
)
    ensures
        vertex_at(mesh, shores, i, j, sub, si, sj).position == scene_of(
            mesh.point_at(
                drawn_level(mesh),
                int_of::<S>(i) + int_of::<S>(si) / int_of::<S>(sub),
                int_of::<S>(j) + int_of::<S>(sj) / int_of::<S>(sub),
            ),
        ),
{
}

/// The surface part of the way across a cell, in the scene.
#[verifier::spinoff_prover]
proof fn lemma_scene_point(
    mesh: LiquidMesh<Fixed>,
    level: Fixed,
    i: int,
    j: int,
    sub: int,
    si: int,
    sj: int,
)
    requires
        sub == 1 || sub == SHORE_CELL_SUB,
        0 <= si <= sub,
        0 <= sj <= sub,
        0 <= i < mesh.across(),
        0 <= j < mesh.along(),
        i < 0x3fff_ffff,
        j < 0x3fff_ffff,
        mesh.wf(),
        forall|k: int|
            0 <= k < mesh.positions@.len() ==> tame((#[trigger] mesh.positions@[k]).x) && tame(
                mesh.positions@[k].y,
            ) && tame(mesh.positions@[k].z),
        tame(level),
    ensures
        at_place(
            scene_of(
                mesh.point_at(
                    level,
                    int_of::<Fixed>(i) + int_of::<Fixed>(si) / int_of::<Fixed>(sub),
                    int_of::<Fixed>(j) + int_of::<Fixed>(sj) / int_of::<Fixed>(sub),
                ),
            ),
            mesh,
            level,
            i,
            j,
            sub,
            si,
            sj,
        ),
{
    lemma_axis(mesh, level, 0, i, j, sub, si, sj);
    lemma_axis(mesh, level, 1, i, j, sub, si, sj);
    lemma_axis(mesh, level, 2, i, j, sub, si, sj);
}

proof fn lemma_row_of_squares(base: int, sub: int, sj: int, n: int)
    requires
        0 <= n,
    ensures
        square_row(base, sub, sj, n).len() == 6 * n,
        forall|si: int, m: int|
            #![trigger square_row(base, sub, sj, n)[6 * si + m]]
            0 <= si < n && 0 <= m < 6 ==> square_row(base, sub, sj, n)[6 * si + m] == square(
                base + sj * (sub + 1) + si,
                sub + 1,
            )[m],
    decreases n,
{
    if n > 0 {
        lemma_row_of_squares(base, sub, sj, n - 1);
        let (before, all) = (square_row(base, sub, sj, n - 1), square_row(base, sub, sj, n));
        assert forall|si: int, m: int|
            #![trigger all[6 * si + m]]
            0 <= si < n && 0 <= m < 6 implies all[6 * si + m] == square(
            base + sj * (sub + 1) + si,
            sub + 1,
        )[m] by {
            if si < n - 1 {
                assert(all[6 * si + m] == before[6 * si + m]);
            }
        }
    }
}

proof fn lemma_rows_of_squares(base: int, sub: int, n: int)
    requires
        0 <= n,
        0 < sub,
    ensures
        square_rows(base, sub, n).len() == 6 * (n * sub),
        forall|si: int, sj: int, m: int|
            #![trigger square_rows(base, sub, n)[6 * (sj * sub + si) + m]]
            0 <= si < sub && 0 <= sj < n && 0 <= m < 6 ==> square_rows(base, sub, n)[6 * (sj * sub
                + si) + m] == square(base + sj * (sub + 1) + si, sub + 1)[m],
    decreases n,
{
    if n > 0 {
        lemma_rows_of_squares(base, sub, n - 1);
        lemma_row_of_squares(base, sub, n - 1, sub);
        let (before, all) = (square_rows(base, sub, n - 1), square_rows(base, sub, n));
        let last = square_row(base, sub, n - 1, sub);
        assert(n * sub == (n - 1) * sub + sub) by (nonlinear_arith);
        assert forall|si: int, sj: int, m: int|
            #![trigger all[6 * (sj * sub + si) + m]]
            0 <= si < sub && 0 <= sj < n && 0 <= m < 6 implies all[6 * (sj * sub + si) + m]
            == square(base + sj * (sub + 1) + si, sub + 1)[m] by {
            assert(0 <= sj * sub) by (nonlinear_arith)
                requires
                    0 <= sj,
                    0 < sub,
            ;
            if sj < n - 1 {
                assert(sj * sub + si < (n - 1) * sub) by (nonlinear_arith)
                    requires
                        sj <= n - 2,
                        0 <= si < sub,
                ;
                assert(all[6 * (sj * sub + si) + m] == before[6 * (sj * sub + si) + m]);
            } else {
                assert(all[6 * (sj * sub + si) + m] == last[6 * si + m]);
            }
        }
    } else {
        assert(0 * sub == 0);
    }
}

/// Whether the two triangles of one square of a cell join its four corners, where the cell's corners are
/// numbered from `base` on, row by row, and its triangles stand from place `from` on: on either side of
/// the line from the square's first corner to the one across from it.
pub open spec fn joins(
    indices: Seq<int>,
    base: int,
    from: int,
    sub: int,
    si: int,
    sj: int,
) -> bool {
    let first = base + sj * (sub + 1) + si;
    let at = from + 6 * (sj * sub + si);
    &&& indices[at] == first
    &&& indices[at + 1] == first + sub + 1
    &&& indices[at + 2] == first + sub + 2
    &&& indices[at + 3] == first
    &&& indices[at + 4] == first + sub + 2
    &&& indices[at + 5] == first + 1
}

/// Whether a cell is drawn in a patchwork, its corners numbered from `base` on and its triangles
/// from place `from` on: every corner of it row by row, and two triangles for each of its squares.
pub open spec fn drawn_at<S: Scalar>(
    p: Patchwork<S>,
    mesh: LiquidMesh<S>,
    shores: Shores<S>,
    i: int,
    j: int,
    base: int,
    from: int,
) -> bool {
    let sub = splits(mesh, shores, i, j);
    &&& 0 <= base
    &&& 0 <= from
    &&& base + (sub + 1) * (sub + 1) <= p.vertices.len()
    &&& from + 6 * (sub * sub) <= p.indices.len()
    &&& forall|si: int, sj: int|
        0 <= si <= sub && 0 <= sj <= sub ==> p.vertices[base + (sj * (sub + 1) + si)]
            == #[trigger] vertex_at(mesh, shores, i, j, sub, si, sj)
    &&& forall|si: int, sj: int|
        0 <= si < sub && 0 <= sj < sub ==> #[trigger] joins(p.indices, base, from, sub, si, sj)
}

/// Whether one patchwork goes on from another.
spec fn goes_on<S: Scalar>(a: Patchwork<S>, b: Patchwork<S>) -> bool {
    &&& a.vertices.len() <= b.vertices.len()
    &&& a.indices.len() <= b.indices.len()
    &&& forall|k: int| 0 <= k < a.vertices.len() ==> #[trigger] b.vertices[k] == a.vertices[k]
    &&& forall|k: int| 0 <= k < a.indices.len() ==> #[trigger] b.indices[k] == a.indices[k]
}

proof fn lemma_still_drawn<S: Scalar>(
    a: Patchwork<S>,
    b: Patchwork<S>,
    mesh: LiquidMesh<S>,
    shores: Shores<S>,
    i: int,
    j: int,
    base: int,
    from: int,
)
    requires
        goes_on(a, b),
        drawn_at(a, mesh, shores, i, j, base, from),
    ensures
        drawn_at(b, mesh, shores, i, j, base, from),
{
    let sub = splits(mesh, shores, i, j);
    assert(sub == 1 || sub == SHORE_CELL_SUB);
    assert forall|si: int, sj: int| 0 <= si <= sub && 0 <= sj <= sub implies b.vertices[base + (sj
        * (sub + 1) + si)] == #[trigger] vertex_at(mesh, shores, i, j, sub, si, sj) by {
        lemma_point_in_grid(si, sj, sub + 1, sub + 1);
        assert(a.vertices[base + (sj * (sub + 1) + si)] == vertex_at(
            mesh,
            shores,
            i,
            j,
            sub,
            si,
            sj,
        ));
    }
    assert forall|si: int, sj: int|
        0 <= si < sub && 0 <= sj < sub implies #[trigger] joins(b.indices, base, from, sub, si, sj) by {
        lemma_point_in_grid(si, sj, sub, sub);
        let at = from + 6 * (sj * sub + si);
        assert(joins(a.indices, base, from, sub, si, sj));
        assert(b.indices[at] == a.indices[at] && b.indices[at + 1] == a.indices[at + 1]);
        assert(b.indices[at + 2] == a.indices[at + 2] && b.indices[at + 3] == a.indices[at + 3]);
        assert(b.indices[at + 4] == a.indices[at + 4] && b.indices[at + 5] == a.indices[at + 5]);
    }
}

proof fn lemma_cell_drawn<S: Scalar>(
    so_far: Patchwork<S>,
    mesh: LiquidMesh<S>,
    shores: Shores<S>,
    i: int,
    j: int,
)
    requires
        0 <= i < mesh.across(),
        0 <= j < mesh.along(),
    ensures
        goes_on(so_far, cell_drawn(so_far, mesh, shores, i, j)),
        mesh.is_wet(i, j) ==> drawn_at(
            cell_drawn(so_far, mesh, shores, i, j),
            mesh,
            shores,
            i,
            j,
            so_far.vertices.len() as int,
            so_far.indices.len() as int,
        ),
{
    if mesh.is_wet(i, j) {
        let sub = splits(mesh, shores, i, j);
        let (base, from) = (so_far.vertices.len() as int, so_far.indices.len() as int);
        let all = cell_drawn(so_far, mesh, shores, i, j);
        lemma_rows_of_a_cell(mesh, shores, i, j, sub, sub + 1);
        lemma_rows_of_squares(base, sub, sub);
        let (corners, squares) = (
            vertex_rows(mesh, shores, i, j, sub, sub + 1),
            square_rows(base, sub, sub),
        );
        assert forall|si: int, sj: int| 0 <= si <= sub && 0 <= sj <= sub implies all.vertices[base + (
        sj * (sub + 1) + si)] == #[trigger] vertex_at(mesh, shores, i, j, sub, si, sj) by {
            lemma_point_in_grid(si, sj, sub + 1, sub + 1);
            assert(corners[sj * (sub + 1) + si] == vertex_at(mesh, shores, i, j, sub, si, sj));
        }
        assert forall|si: int, sj: int|
            0 <= si < sub && 0 <= sj < sub implies #[trigger] joins(
            all.indices,
            base,
            from,
            sub,
            si,
            sj,
        ) by {
            lemma_point_in_grid(si, sj, sub, sub);
            let k = 6 * (sj * sub + si);
            let turn = square(base + sj * (sub + 1) + si, sub + 1);
            assert(squares[6 * (sj * sub + si) + 0] == turn[0]);
            assert(squares[6 * (sj * sub + si) + 1] == turn[1]);
            assert(squares[6 * (sj * sub + si) + 2] == turn[2]);
            assert(squares[6 * (sj * sub + si) + 3] == turn[3]);
            assert(squares[6 * (sj * sub + si) + 4] == turn[4]);
            assert(squares[6 * (sj * sub + si) + 5] == turn[5]);
        }
    }
}

proof fn lemma_row_drawn<S: Scalar>(
    so_far: Patchwork<S>,
    mesh: LiquidMesh<S>,
    shores: Shores<S>,
    j: int,
    n: int,
    i: int,
) -> (r: (int, int))
    requires
        0 <= j < mesh.along(),
        0 <= n <= mesh.across(),
    ensures
        goes_on(so_far, row_drawn(so_far, mesh, shores, j, n)),
        0 <= i < n && mesh.is_wet(i, j) ==> drawn_at(
            row_drawn(so_far, mesh, shores, j, n),
            mesh,
            shores,
            i,
            j,
            r.0,
            r.1,
        ),
    decreases n,
{
    if n > 0 {
        let before = row_drawn(so_far, mesh, shores, j, n - 1);
        let after = row_drawn(so_far, mesh, shores, j, n);
        let r = lemma_row_drawn(so_far, mesh, shores, j, n - 1, i);
        lemma_cell_drawn(before, mesh, shores, n - 1, j);
        lemma_goes_on(so_far, before, after);
        if i == n - 1 {
            (before.vertices.len() as int, before.indices.len() as int)
        } else {
            if 0 <= i < n - 1 && mesh.is_wet(i, j) {
                lemma_still_drawn(before, after, mesh, shores, i, j, r.0, r.1);
            }
            r
        }
    } else {
        (0, 0)
    }
}

proof fn lemma_goes_on<S: Scalar>(a: Patchwork<S>, b: Patchwork<S>, c: Patchwork<S>)
    requires
        goes_on(a, b),
        goes_on(b, c),
    ensures
        goes_on(a, c),
{
    assert forall|k: int| 0 <= k < a.vertices.len() implies #[trigger] c.vertices[k]
        == a.vertices[k] by {
        assert(b.vertices[k] == a.vertices[k]);
    }
    assert forall|k: int| 0 <= k < a.indices.len() implies #[trigger] c.indices[k]
        == a.indices[k] by {
        assert(b.indices[k] == a.indices[k]);
    }
}

proof fn lemma_rows_drawn<S: Scalar>(
    mesh: LiquidMesh<S>,
    shores: Shores<S>,
    n: int,
    i: int,
    j: int,
) -> (r: (int, int))
    requires
        0 <= n <= mesh.along(),
        0 <= i < mesh.across(),
        0 <= j < mesh.along(),
    ensures
        j < n && mesh.is_wet(i, j) ==> drawn_at(
            rows_drawn(mesh, shores, n),
            mesh,
            shores,
            i,
            j,
            r.0,
            r.1,
        ),
    decreases n,
{
    if n > 0 {
        let before = rows_drawn(mesh, shores, n - 1);
        let r = lemma_rows_drawn(mesh, shores, n - 1, i, j);
        let own = lemma_row_drawn(before, mesh, shores, n - 1, mesh.across(), i);
        if j == n - 1 {
            own
        } else {
            if j < n - 1 && mesh.is_wet(i, j) {
                lemma_still_drawn(
                    before,
                    rows_drawn(mesh, shores, n),
                    mesh,
                    shores,
                    i,
                    j,
                    r.0,
                    r.1,
                );
            }
            r
        }
    } else {
        (0, 0)
    }
}

/// Every wet cell is drawn, all of its corners and all of its squares.
pub proof fn law_every_wet_cell_is_drawn<S: Scalar>(
    mesh: LiquidMesh<S>,
    shores: Shores<S>,
    i: int,
    j: int,
) -> (r: (int, int))
    requires
        mesh.has_cells(),
        0 <= i < mesh.across(),
        0 <= j < mesh.along(),
        mesh.is_wet(i, j),
    ensures
        drawn_at(drawn(mesh, shores), mesh, shores, i, j, r.0, r.1),
{
    lemma_rows_drawn(mesh, shores, mesh.along(), i, j)
}

/// A cell is drawn eight times as fine within five yards of the shore, as its middle sees it, and whole
/// elsewhere.
pub proof fn law_cells_are_finer_along_the_shore(
    mesh: LiquidMesh<Fixed>,
    shores: Shores<Fixed>,
    i: int,
    j: int,
)
    ensures
        ({
            let half = Fixed { raw: 0x8000_0000 };
            let mid = mesh.point_at(
                drawn_level(mesh),
                int_of::<Fixed>(i) + half,
                int_of::<Fixed>(j) + half,
            );
            let d = shores.seen_from(Vec2 { x: mid.x, y: mid.y }).d.raw;
            splits(mesh, shores, i, j) == if d < 0x5_0000_0000 {
                8int
            } else {
                1int
            }
        }),
{
    assert(Fixed::frac(1, 2).raw == 0x8000_0000);
    assert(int_of::<Fixed>(5).raw == 0x5_0000_0000);
}

/// The shore a point sees is the nearer of the traced waterline and the grids' own edge, and twenty four
/// yards off where it sees neither.
pub proof fn law_the_shore_seen_is_the_nearer(shores: Shores<Fixed>, p: Vec2<Fixed>)
    ensures
        ({
            let edge = match shores.lattice {
                Some(l) => l.reach(p).raw as int,
                None => 0x18_0000_0000,
            };
            let traced = match shores.shoreline {
                Some(s) => match nearest_of(s.ring(p), p) {
                    Some(n) => n.d.raw as int,
                    None => edge,
                },
                None => edge,
            };
            shores.seen_from(p).d.raw == if traced <= edge {
                traced
            } else {
                edge
            }
        }),
{
    assert(int_of::<Fixed>(24).raw == 0x18_0000_0000);
}

/// A drawn surface faces straight up at every corner, and where it has a colour of its own every corner
/// is of that colour, and opaque.
pub proof fn law_a_surface_faces_up_in_its_own_colour(
    data: MeshData<Fixed>,
    mesh: LiquidMesh<Fixed>,
    body_color: Option<Vec3<Fixed>>,
    shores: Shores<Fixed>,
    k: int,
)
    requires
        is_drawing(data, mesh, body_color, shores),
        0 <= k < data.positions@.len(),
    ensures
        data.normals@.len() == data.positions@.len(),
        data.normals@[k].x.raw == 0,
        data.normals@[k].y.raw == 0x1_0000_0000,
        data.normals@[k].z.raw == 0,
        body_color is Some <==> data.colors is Some,
        data.colors matches Some(colors) ==> {
            let (own, c) = (body_color->Some_0, colors@[k]);
            &&& colors@.len() == data.positions@.len()
            &&& c.x == own.x
            &&& c.y == own.y
            &&& c.z == own.z
            &&& c.w.raw == 0x1_0000_0000
        },
{
    assert(int_of::<Fixed>(0).raw == 0 && int_of::<Fixed>(1).raw == 0x1_0000_0000);
}

/// Where no traced waterline is as near as the grids' own edge, the offset is that edge's distance, all
/// along the world's first axis; and where one is, it leads to the waterline.
pub proof fn law_an_edge_lies_along_the_first_axis(shores: Shores<Fixed>, p: Vec2<Fixed>)
    requires
        tame(p.x),
        tame(p.y),
    ensures
        ({
            let edge = match shores.lattice {
                Some(l) => l.reach(p).raw as int,
                None => 0x18_0000_0000,
            };
            let (s, traced) = (
                shores.seen_from(p),
                match shores.shoreline {
                    Some(line) => nearest_of(line.ring(p), p),
                    None => None,
                },
            );
            &&& (traced is None || edge < traced->Some_0.d.raw) ==> s.offset.x.raw == edge
                && s.offset.y.raw == 0
            &&& (traced matches Some(n) ==> (n.d.raw <= edge && tame(n.at.x) && tame(n.at.y)
                ==> s.offset.x.raw == n.at.x.raw - p.x.raw && s.offset.y.raw == n.at.y.raw - p.y.raw))
        }),
{
    assert(int_of::<Fixed>(24).raw == 0x18_0000_0000);
    assert(int_of::<Fixed>(0).raw == 0);
}

} // verus!
