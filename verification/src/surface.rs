//! The drawn surface of one liquid: its grid as triangles, finer where the waterline runs.

use vstd::prelude::*;

use crate::fixed::{saturated, Fixed, ONE};
use crate::geometry::{scene_of, wow_to_bevy, Vec2, Vec3, Vec4};
use crate::liquid_mesh::{
    cell_below, height_or, lemma_next_row, lemma_point_in_grid, level_of, LiquidMesh,
};
use crate::scalar::{blend, blended, int_of, mixed, whole_number, Scalar};
use crate::shoreline::{far_from_shore, nearest_of, Near, Shoreline};
use crate::wet_lattice::{cell_is_wet, WetLattice};

verus! {

/// How finely a cell near the waterline is broken up for drawing.
pub const SHORE_CELL_SUB: u32 = 8;

/// How near the waterline a cell must come, in yards, to be broken up.
pub open spec fn shore_cell_reach<S: Scalar>() -> S {
    int_of::<S>(5)
}

/// Where a surface may look for its shore: the edge of the liquid grids it belongs to, and the
/// waterline traced over the terrain.
pub struct Shores<'a, S> {
    pub lattice: Option<&'a WetLattice<S>>,
    pub shoreline: Option<&'a Shoreline<S>>,
}

/// How far the shore is, and the offset to it.
pub struct ShoreAt<S> {
    pub d: S,
    pub offset: Vec2<S>,
}

impl<'a, S: Scalar> Shores<'a, S> {
    /// Both can be searched.
    pub open spec fn wf(&self) -> bool {
        &&& self.lattice matches Some(l) ==> l.wf()
        &&& self.shoreline matches Some(s) ==> s.wf()
    }

    /// The shore seen from a point: the nearer of the traced waterline and the grids' own edge. The
    /// waterline has a point to offer, and wins a tie; the edge has none, so its offset is its
    /// distance along the first axis.
    pub open spec fn seen_from(&self, p: Vec2<S>) -> ShoreAt<S> {
        let traced = match self.shoreline {
            Some(s) => nearest_of(s.ring(p), p),
            None => None,
        };
        let edge = match self.lattice {
            Some(l) => l.reach(p),
            None => far_from_shore::<S>(),
        };
        let aside = Vec2 { x: edge, y: int_of::<S>(0) };
        match traced {
            Some(n) => if n.d <= edge {
                ShoreAt { d: n.d, offset: n.at - p }
            } else {
                ShoreAt { d: n.d.lesser(edge), offset: aside }
            },
            None => ShoreAt { d: edge, offset: aside },
        }
    }

    /// How far the shore is from a point, and the offset to it.
    pub fn shore_at(&self, p: Vec2<S>) -> (r: ShoreAt<S>)
        requires
            self.wf(),
        ensures
            r == self.seen_from(p),
    {
        let traced: Option<Near<S>> = match self.shoreline {
            Some(s) => s.nearest(p),
            None => None,
        };
        let edge: S = match self.lattice {
            Some(l) => l.distance_to_dry(p),
            None => whole_number(24),
        };
        let aside: Vec2<S> = Vec2 { x: edge, y: whole_number(0) };
        match traced {
            Some(n) => if n.d.at_most(edge) {
                ShoreAt { d: n.d, offset: n.at.minus(p) }
            } else {
                ShoreAt { d: n.d.least(edge), offset: aside }
            },
            None => ShoreAt { d: edge, offset: aside },
        }
    }
}

/// One corner of a drawn surface.
pub struct Vertex<S> {
    /// Where it is, in the scene.
    pub position: Vec3<S>,
    /// Where it is on the animated sheet.
    pub uv: Vec2<S>,
    /// The depth of the water and the distance to the shore.
    pub uv1: Vec2<S>,
    /// The offset to the shore, seen from above in the scene.
    pub offset: Vec2<S>,
}

/// What has been drawn so far: the corners, and the triangles as their numbers.
#[verifier::ext_equal]
pub struct Patchwork<S> {
    pub vertices: Seq<Vertex<S>>,
    pub indices: Seq<int>,
}

/// Nothing drawn.
pub open spec fn blank<S: Scalar>() -> Patchwork<S> {
    Patchwork { vertices: Seq::empty(), indices: Seq::empty() }
}

/// The height standing in for the points of a surface that have none.
pub open spec fn drawn_level<S: Scalar>(mesh: LiquidMesh<S>) -> S {
    match level_of(mesh.positions@) {
        Some(level) => level,
        None => int_of::<S>(0),
    }
}

/// Into how many pieces the sides of a cell are split: many within reach of the shore, else one.
pub open spec fn splits<S: Scalar>(mesh: LiquidMesh<S>, shores: Shores<S>, i: int, j: int) -> int {
    let half = S::frac(1, 2);
    let mid = mesh.point_at(drawn_level(mesh), int_of::<S>(i) + half, int_of::<S>(j) + half);
    if shores.seen_from(Vec2 { x: mid.x, y: mid.y }).d < shore_cell_reach::<S>() {
        SHORE_CELL_SUB as int
    } else {
        1
    }
}

/// The corner `si` across and `sj` along in a cell split into `sub`.
pub open spec fn vertex_at<S: Scalar>(
    mesh: LiquidMesh<S>,
    shores: Shores<S>,
    i: int,
    j: int,
    sub: int,
    si: int,
    sj: int,
) -> Vertex<S> {
    let fu = int_of::<S>(si) / int_of::<S>(sub);
    let fv = int_of::<S>(sj) / int_of::<S>(sub);
    let p = mesh.point_at(drawn_level(mesh), int_of::<S>(i) + fu, int_of::<S>(j) + fv);
    let (a, b) = (mesh.point(i, j), mesh.point(i + 1, j));
    let (c, d) = (mesh.point(i, j + 1), mesh.point(i + 1, j + 1));
    let (uv, depth) = (mesh.uvs@, mesh.depths@);
    let shore = shores.seen_from(Vec2 { x: p.x, y: p.y });
    Vertex {
        position: scene_of(p),
        uv: Vec2 {
            x: blended(uv[a].x, uv[b].x, uv[c].x, uv[d].x, fu, fv),
            y: blended(uv[a].y, uv[b].y, uv[c].y, uv[d].y, fu, fv),
        },
        uv1: Vec2 {
            x: blended(depth[a], depth[b], depth[c], depth[d], fu, fv),
            y: shore.d,
        },
        offset: scene_of(
            Vec3 { x: shore.offset.x, y: shore.offset.y, z: int_of::<S>(0) },
        ).flat(),
    }
}

/// One row of a cell's corners.
pub open spec fn vertex_row<S: Scalar>(
    mesh: LiquidMesh<S>,
    shores: Shores<S>,
    i: int,
    j: int,
    sub: int,
    sj: int,
    n: int,
) -> Seq<Vertex<S>> {
    Seq::new(n as nat, |si: int| vertex_at(mesh, shores, i, j, sub, si, sj))
}

/// The first `n` rows of a cell's corners.
pub open spec fn vertex_rows<S: Scalar>(
    mesh: LiquidMesh<S>,
    shores: Shores<S>,
    i: int,
    j: int,
    sub: int,
    n: int,
) -> Seq<Vertex<S>>
    decreases n,
{
    if n <= 0 {
        Seq::empty()
    } else {
        vertex_rows(mesh, shores, i, j, sub, n - 1) + vertex_row(
            mesh,
            shores,
            i,
            j,
            sub,
            n - 1,
            sub + 1,
        )
    }
}

/// The two triangles of a square whose first corner is `tl`, where a row of corners is `stride`
/// long.
pub open spec fn square(tl: int, stride: int) -> Seq<int> {
    seq![tl, tl + stride, tl + stride + 1, tl, tl + stride + 1, tl + 1]
}

/// The triangles of the first `n` squares of a row.
pub open spec fn square_row(base: int, sub: int, sj: int, n: int) -> Seq<int>
    decreases n,
{
    if n <= 0 {
        Seq::empty()
    } else {
        square_row(base, sub, sj, n - 1) + square(base + sj * (sub + 1) + (n - 1), sub + 1)
    }
}

/// The triangles of the first `n` rows of squares.
pub open spec fn square_rows(base: int, sub: int, n: int) -> Seq<int>
    decreases n,
{
    if n <= 0 {
        Seq::empty()
    } else {
        square_rows(base, sub, n - 1) + square_row(base, sub, n - 1, sub)
    }
}

/// What is drawn once a cell has been: a wet cell as its own patch, sharing no corner with another,
/// and nothing for a dry one.
pub open spec fn cell_drawn<S: Scalar>(
    so_far: Patchwork<S>,
    mesh: LiquidMesh<S>,
    shores: Shores<S>,
    i: int,
    j: int,
) -> Patchwork<S> {
    if mesh.is_wet(i, j) {
        let sub = splits(mesh, shores, i, j);
        Patchwork {
            vertices: so_far.vertices + vertex_rows(mesh, shores, i, j, sub, sub + 1),
            indices: so_far.indices + square_rows(so_far.vertices.len() as int, sub, sub),
        }
    } else {
        so_far
    }
}

/// What is drawn once the first `n` cells of a row have been.
pub open spec fn row_drawn<S: Scalar>(
    so_far: Patchwork<S>,
    mesh: LiquidMesh<S>,
    shores: Shores<S>,
    j: int,
    n: int,
) -> Patchwork<S>
    decreases n,
{
    if n <= 0 {
        so_far
    } else {
        cell_drawn(row_drawn(so_far, mesh, shores, j, n - 1), mesh, shores, n - 1, j)
    }
}

/// What is drawn once the first `n` rows of cells have been.
pub open spec fn rows_drawn<S: Scalar>(mesh: LiquidMesh<S>, shores: Shores<S>, n: int) -> Patchwork<
    S,
>
    decreases n,
{
    if n <= 0 {
        blank()
    } else {
        row_drawn(rows_drawn(mesh, shores, n - 1), mesh, shores, n - 1, mesh.across())
    }
}

/// A whole surface, drawn.
pub open spec fn drawn<S: Scalar>(mesh: LiquidMesh<S>, shores: Shores<S>) -> Patchwork<S> {
    if mesh.has_cells() {
        rows_drawn(mesh, shores, mesh.along())
    } else {
        blank()
    }
}

/// A drawn surface, one sequence per attribute.
pub struct MeshData<S> {
    /// Where each corner is, in the scene.
    pub positions: Vec<Vec3<S>>,
    /// Which way the surface faces at each corner.
    pub normals: Vec<Vec3<S>>,
    /// Where each corner is on the animated sheet.
    pub uvs: Vec<Vec2<S>>,
    /// The depth of the water and the distance to the shore at each corner.
    pub uv1: Vec<Vec2<S>>,
    /// The offset to the shore at each corner, seen from above in the scene.
    pub shore_offsets: Vec<Vec2<S>>,
    /// The body colour at each corner, of a surface that carries its own.
    pub colors: Option<Vec<Vec4<S>>>,
    /// The triangles, as the numbers of their corners.
    pub indices: Vec<u32>,
}

impl<S: Scalar> MeshData<S> {
    /// The corners and triangles of a drawn surface.
    pub open spec fn view(&self) -> Patchwork<S> {
        Patchwork {
            vertices: Seq::new(
                self.positions@.len(),
                |k: int|
                    Vertex {
                        position: self.positions@[k],
                        uv: self.uvs@[k],
                        uv1: self.uv1@[k],
                        offset: self.shore_offsets@[k],
                    },
            ),
            indices: Seq::new(self.indices@.len(), |k: int| self.indices@[k] as int),
        }
    }

    /// Every attribute that varies has one value for each corner.
    pub open spec fn even(&self) -> bool {
        &&& self.uvs@.len() == self.positions@.len()
        &&& self.uv1@.len() == self.positions@.len()
        &&& self.shore_offsets@.len() == self.positions@.len()
    }

    /// Nothing drawn.
    fn new() -> (r: Self)
        ensures
            r.even(),
            r@ == blank::<S>(),
            r.normals@.len() == 0,
            r.colors is None,
    {
        let r = MeshData {
            positions: Vec::new(),
            normals: Vec::new(),
            uvs: Vec::new(),
            uv1: Vec::new(),
            shore_offsets: Vec::new(),
            colors: None,
            indices: Vec::new(),
        };
        assert(r@.vertices =~= blank::<S>().vertices);
        assert(r@.indices =~= blank::<S>().indices);
        r
    }

    /// Draw one corner.
    fn add_vertex(&mut self, v: Vertex<S>)
        requires
            old(self).even(),
        ensures
            final(self).even(),
            final(self)@.vertices == old(self)@.vertices.push(v),
            final(self)@.indices == old(self)@.indices,
            final(self).normals == old(self).normals,
            final(self).colors == old(self).colors,
    {
        self.positions.push(v.position);
        self.uvs.push(v.uv);
        self.uv1.push(v.uv1);
        self.shore_offsets.push(v.offset);
        assert(self@.vertices =~= old(self)@.vertices.push(v));
    }

    /// Draw one square.
    fn add_square(&mut self, tl: u32, stride: u32)
        requires
            tl + stride + 1 <= u32::MAX,
        ensures
            final(self)@.indices == old(self)@.indices + square(tl as int, stride as int),
            final(self)@.vertices == old(self)@.vertices,
            final(self).even() == old(self).even(),
            final(self).normals == old(self).normals,
            final(self).colors == old(self).colors,
    {
        self.indices.push(tl);
        self.indices.push(tl + stride);
        self.indices.push(tl + stride + 1);
        self.indices.push(tl);
        self.indices.push(tl + stride + 1);
        self.indices.push(tl + 1);
        assert(self@.indices =~= old(self)@.indices + square(tl as int, stride as int));
        assert(self@.vertices =~= old(self)@.vertices);
    }
}

/// Whether the corners of every wet cell have a place on the sheet and a depth.
pub open spec fn wet_corners_known<S: Scalar>(mesh: LiquidMesh<S>) -> bool {
    forall|i: int, j: int|
        0 <= i < mesh.across() && 0 <= j < mesh.along() && #[trigger] mesh.is_wet(i, j) ==> {
            &&& mesh.point(i + 1, j + 1) < mesh.uvs@.len()
            &&& mesh.point(i + 1, j + 1) < mesh.depths@.len()
        }
}

/// How many corners a cell is drawn with: none where it is dry, four where it is whole, and nine to
/// a side where it is split. Where it is not known how far the shore is, as many as it could be.
pub open spec fn cell_corners<S: Scalar>(
    mesh: LiquidMesh<S>,
    shores: Option<Shores<S>>,
    i: int,
    j: int,
) -> int {
    if mesh.is_wet(i, j) {
        match shores {
            Some(shores) if splits(mesh, shores, i, j) == 1 => 4,
            _ => 81,
        }
    } else {
        0
    }
}

/// How many corners the first `n` cells of a row are drawn with.
pub open spec fn row_corners<S: Scalar>(
    mesh: LiquidMesh<S>,
    shores: Option<Shores<S>>,
    j: int,
    n: int,
) -> int
    decreases n,
{
    if n <= 0 {
        0
    } else {
        row_corners(mesh, shores, j, n - 1) + cell_corners(mesh, shores, n - 1, j)
    }
}

/// How many corners the first `n` rows of cells are drawn with.
pub open spec fn rows_corners<S: Scalar>(
    mesh: LiquidMesh<S>,
    shores: Option<Shores<S>>,
    n: int,
) -> int
    decreases n,
{
    if n <= 0 {
        0
    } else {
        rows_corners(mesh, shores, n - 1) + row_corners(mesh, shores, n - 1, mesh.across())
    }
}

/// Whether the corners a surface is drawn with can be numbered in 32 bits.
pub open spec fn numberable<S: Scalar>(mesh: LiquidMesh<S>, shores: Option<Shores<S>>) -> bool {
    mesh.has_cells() ==> rows_corners(mesh, shores, mesh.along()) <= u32::MAX
}

/// Corners only ever add up.
proof fn lemma_corners_add_up<S: Scalar>(
    mesh: LiquidMesh<S>,
    shores: Option<Shores<S>>,
    j: int,
    i: int,
    n: int,
)
    requires
        i <= n,
    ensures
        0 <= row_corners(mesh, shores, j, i) <= row_corners(mesh, shores, j, n),
    decreases n,
{
    if 0 < n {
        if i < n {
            lemma_corners_add_up(mesh, shores, j, i, n - 1);
        } else {
            lemma_corners_add_up(mesh, shores, j, n - 1, n - 1);
        }
    }
}

/// Rows of corners only ever add up.
proof fn lemma_rows_add_up<S: Scalar>(
    mesh: LiquidMesh<S>,
    shores: Option<Shores<S>>,
    j: int,
    n: int,
)
    requires
        j <= n,
    ensures
        0 <= rows_corners(mesh, shores, j) <= rows_corners(mesh, shores, n),
    decreases n,
{
    if 0 < n {
        lemma_corners_add_up(mesh, shores, n - 1, 0, mesh.across());
        if j < n {
            lemma_rows_add_up(mesh, shores, j, n - 1);
        } else {
            lemma_rows_add_up(mesh, shores, n - 1, n - 1);
        }
    }
}

/// A row is drawn with no more corners than it could be.
proof fn lemma_row_at_most<S: Scalar>(mesh: LiquidMesh<S>, shores: Shores<S>, j: int, n: int)
    ensures
        row_corners(mesh, Some(shores), j, n) <= row_corners(mesh, None, j, n),
    decreases n,
{
    if n > 0 {
        lemma_row_at_most(mesh, shores, j, n - 1);
    }
}

/// Rows are drawn with no more corners than they could be.
proof fn lemma_rows_at_most<S: Scalar>(mesh: LiquidMesh<S>, shores: Shores<S>, n: int)
    ensures
        rows_corners(mesh, Some(shores), n) <= rows_corners(mesh, None, n),
    decreases n,
{
    if n > 0 {
        lemma_rows_at_most(mesh, shores, n - 1);
        lemma_row_at_most(mesh, shores, n - 1, mesh.across());
    }
}

/// What can be drawn however far the shore is can be drawn on any shore.
pub proof fn lemma_drawable_on_any_shore<S: Scalar>(mesh: LiquidMesh<S>, shores: Shores<S>)
    requires
        drawable(mesh, None),
    ensures
        drawable(mesh, Some(shores)),
{
    lemma_rows_at_most(mesh, shores, mesh.along());
}

/// Into how many pieces the sides of a cell are split.
fn cell_splits<S: Scalar>(
    mesh: &LiquidMesh<S>,
    level: S,
    shores: &Shores<S>,
    i: usize,
    j: usize,
) -> (r: u32)
    requires
        mesh.wf(),
        mesh.has_cells(),
        level == drawn_level(*mesh),
        shores.wf(),
        i <= u32::MAX,
        j <= u32::MAX,
    ensures
        r == splits(*mesh, *shores, i as int, j as int),
        r == 1 || r == SHORE_CELL_SUB,
{
    let half: S = S::ratio(1, 2);
    let u: S = whole_number(i as i64);
    let v: S = whole_number(j as i64);
    let mid: Vec3<S> = mesh.surface_point(level, u.plus(half), v.plus(half));
    let reach: S = whole_number(5);
    if shores.shore_at(Vec2 { x: mid.x, y: mid.y }).d.less(reach) {
        SHORE_CELL_SUB
    } else {
        1
    }
}

/// The corner `si` across and `sj` along in a cell split into `sub`.
fn make_vertex<S: Scalar>(
    mesh: &LiquidMesh<S>,
    level: S,
    shores: &Shores<S>,
    i: usize,
    j: usize,
    sub: u32,
    si: u32,
    sj: u32,
) -> (r: Vertex<S>)
    requires
        mesh.wf(),
        level == drawn_level(*mesh),
        shores.wf(),
        i < mesh.across(),
        j < mesh.along(),
        mesh.point(i + 1, j + 1) < mesh.uvs@.len(),
        mesh.point(i + 1, j + 1) < mesh.depths@.len(),
    ensures
        r == vertex_at(*mesh, *shores, i as int, j as int, sub as int, si as int, sj as int),
{
    let cols: usize = mesh.width();
    let pieces: S = whole_number(sub as i64);
    let across: S = whole_number(si as i64);
    let along: S = whole_number(sj as i64);
    let fu: S = across.over(pieces);
    let fv: S = along.over(pieces);
    let u: S = whole_number(i as i64);
    let v: S = whole_number(j as i64);
    let p: Vec3<S> = mesh.surface_point(level, u.plus(fu), v.plus(fv));
    proof {
        lemma_point_in_grid(i as int, j as int, mesh.cols(), mesh.rows());
        lemma_next_row(j as int, mesh.cols());
        assert(mesh.uvs.len() <= usize::MAX);
    }
    let a: usize = j * cols + i;
    let b: usize = a + 1;
    let c: usize = a + cols;
    let d: usize = a + cols + 1;
    let shore: ShoreAt<S> = shores.shore_at(Vec2 { x: p.x, y: p.y });
    let off: Vec3<S> = wow_to_bevy(
        Vec3 { x: shore.offset.x, y: shore.offset.y, z: whole_number(0) },
    );
    Vertex {
        position: wow_to_bevy(p),
        uv: Vec2 {
            x: blend(mesh.uvs[a].x, mesh.uvs[b].x, mesh.uvs[c].x, mesh.uvs[d].x, fu, fv),
            y: blend(mesh.uvs[a].y, mesh.uvs[b].y, mesh.uvs[c].y, mesh.uvs[d].y, fu, fv),
        },
        uv1: Vec2 {
            x: blend(mesh.depths[a], mesh.depths[b], mesh.depths[c], mesh.depths[d], fu, fv),
            y: shore.d,
        },
        offset: off.from_above(),
    }
}

/// Draw the corners of one wet cell.
fn draw_vertices<S: Scalar>(
    data: &mut MeshData<S>,
    mesh: &LiquidMesh<S>,
    level: S,
    shores: &Shores<S>,
    i: usize,
    j: usize,
    sub: u32,
)
    requires
        old(data).even(),
        mesh.wf(),
        level == drawn_level(*mesh),
        shores.wf(),
        i < mesh.across(),
        j < mesh.along(),
        mesh.point(i + 1, j + 1) < mesh.uvs@.len(),
        mesh.point(i + 1, j + 1) < mesh.depths@.len(),
        1 <= sub <= SHORE_CELL_SUB,
    ensures
        final(data).even(),
        final(data)@.vertices == old(data)@.vertices + vertex_rows(
            *mesh,
            *shores,
            i as int,
            j as int,
            sub as int,
            sub + 1,
        ),
        final(data)@.indices == old(data)@.indices,
        final(data).normals == old(data).normals,
        final(data).colors == old(data).colors,
{
    let ghost before = data@.vertices;
    assert(before + Seq::<Vertex<S>>::empty() =~= before);
    let mut sj: u32 = 0;
    while sj <= sub
        invariant
            sj <= sub + 1,
            data.even(),
            mesh.wf(),
            level == drawn_level(*mesh),
            shores.wf(),
            i < mesh.across(),
            j < mesh.along(),
            mesh.point(i + 1, j + 1) < mesh.uvs@.len(),
            mesh.point(i + 1, j + 1) < mesh.depths@.len(),
            1 <= sub <= SHORE_CELL_SUB,
            data@.vertices == before + vertex_rows(
                *mesh,
                *shores,
                i as int,
                j as int,
                sub as int,
                sj as int,
            ),
            data@.indices == old(data)@.indices,
            data.normals == old(data).normals,
            data.colors == old(data).colors,
        decreases sub + 1 - sj,
    {
        let ghost above = data@.vertices;
        assert(above + vertex_row(*mesh, *shores, i as int, j as int, sub as int, sj as int, 0)
            =~= above);
        let mut si: u32 = 0;
        while si <= sub
            invariant
                si <= sub + 1,
                sj <= sub,
                data.even(),
                mesh.wf(),
                level == drawn_level(*mesh),
                shores.wf(),
                i < mesh.across(),
                j < mesh.along(),
                mesh.point(i + 1, j + 1) < mesh.uvs@.len(),
                mesh.point(i + 1, j + 1) < mesh.depths@.len(),
                1 <= sub <= SHORE_CELL_SUB,
                data@.vertices == above + vertex_row(
                    *mesh,
                    *shores,
                    i as int,
                    j as int,
                    sub as int,
                    sj as int,
                    si as int,
                ),
                data@.indices == old(data)@.indices,
                data.normals == old(data).normals,
                data.colors == old(data).colors,
            decreases sub + 1 - si,
        {
            let v: Vertex<S> = make_vertex(mesh, level, shores, i, j, sub, si, sj);
            data.add_vertex(v);
            si = si + 1;
            assert(data@.vertices =~= above + vertex_row(
                *mesh,
                *shores,
                i as int,
                j as int,
                sub as int,
                sj as int,
                si as int,
            ));
        }
        sj = sj + 1;
        assert(data@.vertices =~= before + vertex_rows(
            *mesh,
            *shores,
            i as int,
            j as int,
            sub as int,
            sj as int,
        ));
    }
}

/// Draw the triangles of one wet cell whose first corner is numbered `base`.
fn draw_squares<S: Scalar>(data: &mut MeshData<S>, base: u32, sub: u32)
    requires
        1 <= sub <= SHORE_CELL_SUB,
        base + (sub + 1) * (sub + 1) <= u32::MAX,
    ensures
        final(data)@.indices == old(data)@.indices + square_rows(
            base as int,
            sub as int,
            sub as int,
        ),
        final(data)@.vertices == old(data)@.vertices,
        final(data).even() == old(data).even(),
        final(data).normals == old(data).normals,
        final(data).colors == old(data).colors,
{
    let stride: u32 = sub + 1;
    let ghost before = data@.indices;
    assert(before + Seq::<int>::empty() =~= before);
    let mut sj: u32 = 0;
    while sj < sub
        invariant
            sj <= sub,
            1 <= sub <= SHORE_CELL_SUB,
            stride == sub + 1,
            base + (sub + 1) * (sub + 1) <= u32::MAX,
            data@.indices == before + square_rows(base as int, sub as int, sj as int),
            data@.vertices == old(data)@.vertices,
            data.even() == old(data).even(),
            data.normals == old(data).normals,
            data.colors == old(data).colors,
        decreases sub - sj,
    {
        let ghost above = data@.indices;
        assert(above + Seq::<int>::empty() =~= above);
        let mut si: u32 = 0;
        while si < sub
            invariant
                si <= sub,
                sj < sub,
                1 <= sub <= SHORE_CELL_SUB,
                stride == sub + 1,
                base + (sub + 1) * (sub + 1) <= u32::MAX,
                data@.indices == above + square_row(base as int, sub as int, sj as int, si as int),
                data@.vertices == old(data)@.vertices,
                data.even() == old(data).even(),
                data.normals == old(data).normals,
                data.colors == old(data).colors,
            decreases sub - si,
        {
            assert(0 <= sj * stride && sj * stride + si + stride + 2 <= (sub + 1) * (sub + 1))
                by (nonlinear_arith)
                requires
                    0 <= sj < sub,
                    0 <= si < sub,
                    stride == sub + 1,
            ;
            let tl: u32 = base + sj * stride + si;
            data.add_square(tl, stride);
            si = si + 1;
            assert(data@.indices =~= above + square_row(
                base as int,
                sub as int,
                sj as int,
                si as int,
            ));
        }
        sj = sj + 1;
        assert(data@.indices =~= before + square_rows(base as int, sub as int, sj as int));
    }
}

proof fn lemma_patch_size<S: Scalar>(
    mesh: LiquidMesh<S>,
    shores: Shores<S>,
    i: int,
    j: int,
    sub: int,
    n: int,
)
    requires
        0 <= n,
        0 <= sub,
    ensures
        vertex_rows(mesh, shores, i, j, sub, n).len() == n * (sub + 1),
    decreases n,
{
    if n > 0 {
        lemma_patch_size(mesh, shores, i, j, sub, n - 1);
        lemma_next_row(n - 1, sub + 1);
    } else {
        assert(0 * (sub + 1) == 0);
    }
}

/// Whether a surface can be drawn: its data is whole where it is wet, and its corners can be
/// numbered, as far off as the shore is or, where that is not known, however far off.
pub open spec fn drawable<S: Scalar>(mesh: LiquidMesh<S>, shores: Option<Shores<S>>) -> bool {
    mesh.wf() && wet_corners_known(mesh) && numberable(mesh, shores)
}

/// Whether a surface can be drawn, as far off as the shore is or, where that is not known, however
/// far off.
pub fn can_draw<S: Scalar>(mesh: &LiquidMesh<S>, shores: Option<&Shores<S>>) -> (r: bool)
    requires
        shores matches Some(s) ==> s.wf(),
    ensures
        r == drawable(
            *mesh,
            match shores {
                Some(s) => Some(*s),
                None => None,
            },
        ),
{
    let ghost known: Option<Shores<S>> = match shores {
        Some(s) => Some(*s),
        None => None,
    };
    let cols: usize = mesh.width();
    let rows: usize = mesh.height();
    if !mesh.is_whole() {
        return false;
    }
    if cols < 2 || rows < 2 {
        return true;
    }
    let level: S = match mesh.level() {
        Some(level) => level,
        None => whole_number(0),
    };
    let mut corners: u64 = 0;
    let mut j: usize = 0;
    while j < rows - 1
        invariant
            mesh.wf(),
            shores matches Some(s) ==> s.wf() && known == Some(*s),
            shores is None ==> known is None,
            level == drawn_level(*mesh),
            cols == mesh.cols(),
            rows == mesh.rows(),
            2 <= cols <= 0x4000_0000,
            2 <= rows <= 0x4000_0000,
            j <= rows - 1,
            corners == rows_corners(*mesh, known, j as int),
            corners <= u32::MAX,
            forall|x: int, y: int|
                0 <= x < cols - 1 && 0 <= y < j && #[trigger] mesh.is_wet(x, y) ==> {
                    &&& mesh.point(x + 1, y + 1) < mesh.uvs@.len()
                    &&& mesh.point(x + 1, y + 1) < mesh.depths@.len()
                },
        decreases rows - j,
    {
        let mut i: usize = 0;
        while i < cols - 1
            invariant
                mesh.wf(),
                shores matches Some(s) ==> s.wf() && known == Some(*s),
                shores is None ==> known is None,
                level == drawn_level(*mesh),
                cols == mesh.cols(),
                rows == mesh.rows(),
                2 <= cols <= 0x4000_0000,
                2 <= rows <= 0x4000_0000,
                j < rows - 1,
                i <= cols - 1,
                corners == rows_corners(*mesh, known, j as int) + row_corners(
                    *mesh,
                    known,
                    j as int,
                    i as int,
                ),
                corners <= u32::MAX,
                forall|x: int, y: int|
                    0 <= x < cols - 1 && 0 <= y && (y < j || y == j && x < i)
                        && #[trigger] mesh.is_wet(x, y) ==> {
                        &&& mesh.point(x + 1, y + 1) < mesh.uvs@.len()
                        &&& mesh.point(x + 1, y + 1) < mesh.depths@.len()
                    },
            decreases cols - i,
        {
            if cell_is_wet(mesh, i, j) {
                proof {
                    lemma_grid_fits(j + 1, cols as int);
                }
                let corner: u64 = (j + 1) as u64 * cols as u64 + i as u64 + 1;
                assert(mesh.is_wet(i as int, j as int));
                assert(corner == mesh.point(i + 1, j + 1));
                if corner >= mesh.uvs.len() as u64 || corner >= mesh.depths.len() as u64 {
                    return false;
                }
                let sub: u32 = match shores {
                    Some(s) => cell_splits(mesh, level, s, i, j),
                    None => SHORE_CELL_SUB,
                };
                corners = corners + if sub == 1 {
                    4
                } else {
                    81
                };
                if corners > u32::MAX as u64 {
                    proof {
                        lemma_corners_add_up(
                            *mesh,
                            known,
                            j as int,
                            i as int + 1,
                            mesh.across(),
                        );
                        lemma_rows_add_up(*mesh, known, j as int + 1, mesh.along());
                    }
                    return false;
                }
            }
            i = i + 1;
        }
        j = j + 1;
    }
    true
}

/// The places of a grid with sides that can be sampled can be counted in 64 bits.
proof fn lemma_grid_fits(a: int, b: int)
    requires
        0 <= a <= 0x4000_0000,
        0 <= b <= 0x4000_0000,
    ensures
        0 <= a * b <= 0x1000_0000_0000_0000,
{
    assert(0 <= a * b <= 0x1000_0000_0000_0000) by (nonlinear_arith)
        requires
            0 <= a <= 0x4000_0000,
            0 <= b <= 0x4000_0000,
    ;
}

/// Whether data is the drawing of a surface: its corners and triangles, facing up throughout, and
/// of one body colour throughout when it carries its own.
pub open spec fn is_drawing<S: Scalar>(
    data: MeshData<S>,
    mesh: LiquidMesh<S>,
    body_color: Option<Vec3<S>>,
    shores: Shores<S>,
) -> bool {
    &&& data.even()
    &&& data@ == drawn(mesh, shores)
    &&& data.normals@ == Seq::new(
        data.positions@.len(),
        |k: int| Vec3 { x: int_of::<S>(0), y: int_of::<S>(1), z: int_of::<S>(0) },
    )
    &&& match (body_color, data.colors) {
        (Some(c), Some(colors)) => colors@ == Seq::new(
            data.positions@.len(),
            |k: int| Vec4 { x: c.x, y: c.y, z: c.z, w: int_of::<S>(1) },
        ),
        (None, None) => true,
        _ => false,
    }
}

/// Build the drawn mesh of one liquid surface: its points carried into the scene's axes, facing up,
/// with the sheet's coordinates, the depth of the water, and the distance and offset to the shore.
///
/// The triangles are emitted per wet cell, because the cells along the waterline are split and the
/// rest are not. `body_color` is the colour of a surface that carries its own.
pub fn liquid_bevy_mesh<S: Scalar>(
    mesh: &LiquidMesh<S>,
    body_color: Option<Vec3<S>>,
    lattice: Option<&WetLattice<S>>,
    shoreline: Option<&Shoreline<S>>,
) -> (r: MeshData<S>)
    requires
        drawable(*mesh, Some(Shores { lattice, shoreline })),
        lattice matches Some(l) ==> l.wf(),
        shoreline matches Some(s) ==> s.wf(),
    ensures
        is_drawing(r, *mesh, body_color, Shores { lattice, shoreline }),
{
    let shores: Shores<S> = Shores { lattice, shoreline };
    let mut data: MeshData<S> = MeshData::new();
    let cols: usize = mesh.width();
    let rows: usize = mesh.height();
    if cols >= 2 && rows >= 2 {
        let level: S = match mesh.level() {
            Some(level) => level,
            None => whole_number(0),
        };
        let mut j: usize = 0;
        while j < rows - 1
            invariant
                mesh.wf(),
                wet_corners_known(*mesh),
                numberable(*mesh, Some(shores)),
                shores.wf(),
                cols == mesh.cols(),
                rows == mesh.rows(),
                cols >= 2,
                rows >= 2,
                level == drawn_level(*mesh),
                j <= rows - 1,
                data.even(),
                data@ == rows_drawn(*mesh, shores, j as int),
                data@.vertices.len() == rows_corners(*mesh, Some(shores), j as int),
                data.normals@.len() == 0,
                data.colors is None,
            decreases rows - j,
        {
            let ghost above = data@;
            let mut i: usize = 0;
            while i < cols - 1
                invariant
                    mesh.wf(),
                    wet_corners_known(*mesh),
                    numberable(*mesh, Some(shores)),
                    shores.wf(),
                    cols == mesh.cols(),
                    rows == mesh.rows(),
                    cols >= 2,
                    rows >= 2,
                    level == drawn_level(*mesh),
                    j < rows - 1,
                    i <= cols - 1,
                    data.even(),
                    data@ == row_drawn(above, *mesh, shores, j as int, i as int),
                    data@.vertices.len() == rows_corners(*mesh, Some(shores), j as int)
                        + row_corners(*mesh, Some(shores), j as int, i as int),
                    data.normals@.len() == 0,
                    data.colors is None,
                decreases cols - i,
            {
                let ghost before = data@;
                proof {
                    lemma_corners_add_up(
                        *mesh,
                        Some(shores),
                        j as int,
                        i as int + 1,
                        mesh.across(),
                    );
                    lemma_rows_add_up(*mesh, Some(shores), j as int + 1, mesh.along());
                    lemma_rows_add_up(*mesh, Some(shores), j as int, j as int);
                    lemma_corners_add_up(*mesh, Some(shores), j as int, i as int, i as int);
                }
                if cell_is_wet(mesh, i, j) {
                    let sub: u32 = cell_splits(mesh, level, &shores, i, j);
                    let base: u32 = data.positions.len() as u32;
                    assert(mesh.is_wet(i as int, j as int));
                    assert((sub + 1) * (sub + 1) == if sub == 1 {
                        4int
                    } else {
                        81
                    }) by (nonlinear_arith)
                        requires
                            sub == 1 || sub == 8,
                    ;
                    draw_vertices(&mut data, mesh, level, &shores, i, j, sub);
                    draw_squares(&mut data, base, sub);
                    proof {
                        lemma_patch_size(
                            *mesh,
                            shores,
                            i as int,
                            j as int,
                            sub as int,
                            sub + 1,
                        );
                    }
                }
                assert(data@ == cell_drawn(before, *mesh, shores, i as int, j as int));
                i = i + 1;
            }
            j = j + 1;
        }
    }
    let n: usize = data.positions.len();
    let zero: S = whole_number(0);
    let one: S = whole_number(1);
    data.normals = copies(Vec3 { x: zero, y: one, z: zero }, n);
    data.colors = match body_color {
        Some(c) => Some(copies(Vec4 { x: c.x, y: c.y, z: c.z, w: one }, n)),
        None => None,
    };
    data
}

/// A value so many times over.
fn copies<T: Copy>(v: T, n: usize) -> (r: Vec<T>)
    ensures
        r@ == Seq::new(n as nat, |k: int| v),
{
    let mut r: Vec<T> = Vec::new();
    let mut k: usize = 0;
    while k < n
        invariant
            k <= n,
            r@ == Seq::new(k as nat, |j: int| v),
        decreases n - k,
    {
        r.push(v);
        k = k + 1;
    }
    r
}

proof fn lemma_square_row_in_range(base: int, sub: int, sj: int, n: int)
    requires
        0 <= n <= sub,
        0 <= sj < sub,
    ensures
        square_row(base, sub, sj, n).len() == 6 * n,
        forall|k: int|
            0 <= k < square_row(base, sub, sj, n).len() ==> base <= #[trigger] square_row(
                base,
                sub,
                sj,
                n,
            )[k] < base + (sub + 1) * (sub + 1),
    decreases n,
{
    if n > 0 {
        lemma_square_row_in_range(base, sub, sj, n - 1);
        lemma_point_in_grid(n - 1, sj, sub + 1, sub + 1);
        lemma_point_in_grid(n, sj + 1, sub + 1, sub + 1);
        lemma_next_row(sj, sub + 1);
    }
}

proof fn lemma_squares_in_range(base: int, sub: int, n: int)
    requires
        0 <= n <= sub,
    ensures
        square_rows(base, sub, n).len() == 6 * (n * sub),
        forall|k: int|
            0 <= k < square_rows(base, sub, n).len() ==> base <= #[trigger] square_rows(
                base,
                sub,
                n,
            )[k] < base + (sub + 1) * (sub + 1),
    decreases n,
{
    if n > 0 {
        lemma_squares_in_range(base, sub, n - 1);
        lemma_square_row_in_range(base, sub, n - 1, sub);
        lemma_next_row(n - 1, sub);
    } else {
        assert(0 * sub == 0);
    }
}

/// Whether every number in a patchwork's triangles is that of one of its corners, and the triangles
/// are whole.
pub open spec fn sound<S: Scalar>(p: Patchwork<S>) -> bool {
    &&& p.indices.len() % 3 == 0
    &&& forall|k: int|
        0 <= k < p.indices.len() ==> 0 <= #[trigger] p.indices[k] < p.vertices.len()
}

proof fn lemma_cell_sound<S: Scalar>(
    so_far: Patchwork<S>,
    mesh: LiquidMesh<S>,
    shores: Shores<S>,
    i: int,
    j: int,
)
    requires
        sound(so_far),
    ensures
        sound(cell_drawn(so_far, mesh, shores, i, j)),
{
    if mesh.is_wet(i, j) {
        let sub = splits(mesh, shores, i, j);
        lemma_squares_in_range(so_far.vertices.len() as int, sub, sub);
        lemma_patch_size(mesh, shores, i, j, sub, sub + 1);
    }
}

proof fn lemma_row_sound<S: Scalar>(
    so_far: Patchwork<S>,
    mesh: LiquidMesh<S>,
    shores: Shores<S>,
    j: int,
    n: int,
)
    requires
        sound(so_far),
    ensures
        sound(row_drawn(so_far, mesh, shores, j, n)),
    decreases n,
{
    if n > 0 {
        lemma_row_sound(so_far, mesh, shores, j, n - 1);
        lemma_cell_sound(row_drawn(so_far, mesh, shores, j, n - 1), mesh, shores, n - 1, j);
    }
}

proof fn lemma_rows_sound<S: Scalar>(mesh: LiquidMesh<S>, shores: Shores<S>, n: int)
    ensures
        sound(rows_drawn(mesh, shores, n)),
    decreases n,
{
    if n > 0 {
        lemma_rows_sound(mesh, shores, n - 1);
        lemma_row_sound(
            rows_drawn(mesh, shores, n - 1),
            mesh,
            shores,
            n - 1,
            mesh.across(),
        );
    }
}

/// A drawn surface is made of whole triangles, and every one of them joins corners that were drawn.
pub proof fn law_triangles_join_drawn_corners<S: Scalar>(mesh: LiquidMesh<S>, shores: Shores<S>)
    ensures
        sound(drawn(mesh, shores)),
{
    lemma_rows_sound(mesh, shores, mesh.along());
}

/// Only wet cells are drawn: a surface with none draws nothing.
pub proof fn law_dry_cells_are_not_drawn<S: Scalar>(mesh: LiquidMesh<S>, shores: Shores<S>)
    requires
        forall|i: int, j: int|
            0 <= i < mesh.across() && 0 <= j < mesh.along() ==> !#[trigger] mesh.is_wet(i, j),
    ensures
        drawn(mesh, shores) == blank::<S>(),
{
    if mesh.has_cells() {
        lemma_dry_rows(mesh, shores, mesh.along());
    }
}

proof fn lemma_dry_rows<S: Scalar>(mesh: LiquidMesh<S>, shores: Shores<S>, n: int)
    requires
        n <= mesh.along(),
        forall|i: int, j: int|
            0 <= i < mesh.across() && 0 <= j < mesh.along() ==> !#[trigger] mesh.is_wet(i, j),
    ensures
        rows_drawn(mesh, shores, n) == blank::<S>(),
    decreases n,
{
    if n > 0 {
        lemma_dry_rows(mesh, shores, n - 1);
        lemma_dry_row(mesh, shores, n - 1, mesh.across());
    }
}

proof fn lemma_dry_row<S: Scalar>(mesh: LiquidMesh<S>, shores: Shores<S>, j: int, n: int)
    requires
        0 <= j < mesh.along(),
        n <= mesh.across(),
        forall|i: int, k: int|
            0 <= i < mesh.across() && 0 <= k < mesh.along() ==> !#[trigger] mesh.is_wet(i, k),
    ensures
        row_drawn(blank(), mesh, shores, j, n) == blank::<S>(),
    decreases n,
{
    if n > 0 {
        lemma_dry_row(mesh, shores, j, n - 1);
    }
}

/// The shore is never further than either of the two lines it is measured to.
pub proof fn law_the_shore_is_the_nearer_line(shores: Shores<Fixed>, p: Vec2<Fixed>)
    ensures
        shores.lattice matches Some(l) ==> shores.seen_from(p).d <= l.reach(p),
        shores.shoreline matches Some(s) ==> (nearest_of(s.ring(p), p) matches Some(n)
            ==> shores.seen_from(p).d <= n.d),
{
}

/// A share of a whole, in exact numbers.
pub proof fn lemma_share(j: int, sub: int, sj: int)
    requires
        sub == 1 || sub == SHORE_CELL_SUB,
        0 <= sj <= sub,
        0 <= j < 0x4000_0000,
    ensures
        ({
            let f = int_of::<Fixed>(sj) / int_of::<Fixed>(sub);
            let v = int_of::<Fixed>(j) + f;
            &&& v.raw == j * ONE + f.raw
            &&& 0 <= f.raw <= ONE
            &&& f.raw == ONE <==> sj == sub
            &&& sj == 0 ==> f.raw == 0
        }),
{
    assert(int_of::<Fixed>(sj).raw == sj * ONE);
    assert(int_of::<Fixed>(j).raw == j * ONE);
    let top = sj * 0x1_0000_0000 * 0x1_0000_0000;
    assert(int_of::<Fixed>(sj).raw * ONE == top);
    let f = int_of::<Fixed>(sj) / int_of::<Fixed>(sub);
    if sub == 1 {
        assert(int_of::<Fixed>(sub).raw == 0x1_0000_0000);
        assert(f == saturated(top / 0x1_0000_0000));
    } else {
        assert(int_of::<Fixed>(sub).raw == 0x8_0000_0000);
        assert(f == saturated(top / 0x8_0000_0000));
    }
}

/// Cells that share a side share its ends, however each of them is split: the last corner of a row
/// of one cell is the first of the next cell's.
pub proof fn law_neighbouring_cells_meet(
    mesh: LiquidMesh<Fixed>,
    shores: Shores<Fixed>,
    i: int,
    j: int,
    sub: int,
    next: int,
)
    requires
        0 <= i < mesh.across() - 1,
        0 <= j < mesh.along(),
        i < 0x3fff_ffff,
        j < 0x4000_0000,
        sub == 1 || sub == SHORE_CELL_SUB,
        next == 1 || next == SHORE_CELL_SUB,
    ensures
        vertex_at(mesh, shores, i, j, sub, sub, 0).position == vertex_at(
            mesh,
            shores,
            i + 1,
            j,
            next,
            0,
            0,
        ).position,
        vertex_at(mesh, shores, i, j, sub, sub, sub).position == vertex_at(
            mesh,
            shores,
            i + 1,
            j,
            next,
            0,
            next,
        ).position,
{
    lemma_share(i, sub, sub);
    lemma_share(i + 1, next, 0);
    lemma_share(j, sub, 0);
    lemma_share(j, next, 0);
    lemma_share(j, sub, sub);
    lemma_share(j, next, next);
}

/// So do cells one beyond the other: the first and the last corner of a cell's last row are those of
/// the first row of the cell beyond it.
pub proof fn law_cells_beyond_each_other_meet(
    mesh: LiquidMesh<Fixed>,
    shores: Shores<Fixed>,
    i: int,
    j: int,
    sub: int,
    next: int,
)
    requires
        0 <= i < mesh.across(),
        0 <= j < mesh.along() - 1,
        i < 0x4000_0000,
        j < 0x3fff_ffff,
        sub == 1 || sub == SHORE_CELL_SUB,
        next == 1 || next == SHORE_CELL_SUB,
    ensures
        vertex_at(mesh, shores, i, j, sub, 0, sub).position == vertex_at(
            mesh,
            shores,
            i,
            j + 1,
            next,
            0,
            0,
        ).position,
        vertex_at(mesh, shores, i, j, sub, sub, sub).position == vertex_at(
            mesh,
            shores,
            i,
            j + 1,
            next,
            next,
            0,
        ).position,
{
    lemma_share(j, sub, sub);
    lemma_share(j + 1, next, 0);
    lemma_share(i, sub, 0);
    lemma_share(i, next, 0);
    lemma_share(i, sub, sub);
    lemma_share(i, next, next);
}

/// Whether two corners are drawn in the same place, with the same shore.
pub open spec fn coincide<S: Scalar>(a: Vertex<S>, b: Vertex<S>) -> bool {
    a.position == b.position && a.uv1.y == b.uv1.y && a.offset == b.offset
}

/// The side a cell shares with the next one is that cell's own: split alike, they draw each corner
/// on it in the same place, with the same shore.
pub proof fn law_a_shared_side_is_the_next_cells_own(
    mesh: LiquidMesh<Fixed>,
    shores: Shores<Fixed>,
    i: int,
    j: int,
    sub: int,
    s: int,
)
    requires
        0 <= i < mesh.across(),
        0 <= j < mesh.along(),
        i < 0x3fff_ffff,
        j < 0x3fff_ffff,
        sub == 1 || sub == SHORE_CELL_SUB,
        0 <= s <= sub,
    ensures
        i + 1 < mesh.across() ==> coincide(
            vertex_at(mesh, shores, i, j, sub, sub, s),
            vertex_at(mesh, shores, i + 1, j, sub, 0, s),
        ),
        j + 1 < mesh.along() ==> coincide(
            vertex_at(mesh, shores, i, j, sub, s, sub),
            vertex_at(mesh, shores, i, j + 1, sub, s, 0),
        ),
{
    lemma_share(i, sub, sub);
    lemma_share(i + 1, sub, 0);
    lemma_share(j, sub, sub);
    lemma_share(j + 1, sub, 0);
}

/// The point a share of the way from one point of the lattice to another, where it is drawn.
pub open spec fn drawn_between<S: Scalar>(mesh: LiquidMesh<S>, a: int, b: int, f: S) -> Vec3<S> {
    let level = drawn_level(mesh);
    let (p, q) = (mesh.positions@[a], mesh.positions@[b]);
    scene_of(
        Vec3 {
            x: mixed(p.x, q.x, f),
            y: mixed(p.y, q.y, f),
            z: mixed(height_or(p.z, level), height_or(q.z, level), f),
        },
    )
}

/// A split side does not leave the side its neighbour draws whole: every corner on the two sides a
/// cell starts at lies the same share of the way along from end to end.
#[verifier::spinoff_prover]
pub proof fn law_a_split_side_lies_on_the_whole_one(
    mesh: LiquidMesh<Fixed>,
    shores: Shores<Fixed>,
    i: int,
    j: int,
    sub: int,
    s: int,
)
    requires
        0 <= i < mesh.across(),
        0 <= j < mesh.along(),
        i < 0x4000_0000,
        j < 0x4000_0000,
        sub == 1 || sub == SHORE_CELL_SUB,
        0 <= s < sub,
    ensures
        ({
            let f = int_of::<Fixed>(s) / int_of::<Fixed>(sub);
            &&& vertex_at(mesh, shores, i, j, sub, 0, s).position == drawn_between(
                mesh,
                mesh.point(i, j),
                mesh.point(i, j + 1),
                f,
            )
            &&& vertex_at(mesh, shores, i, j, sub, s, 0).position == drawn_between(
                mesh,
                mesh.point(i, j),
                mesh.point(i + 1, j),
                f,
            )
        }),
{
    lemma_inside_cell(i, sub, 0, mesh.cols());
    lemma_inside_cell(i, sub, s, mesh.cols());
    lemma_inside_cell(j, sub, 0, mesh.rows());
    lemma_inside_cell(j, sub, s, mesh.rows());
    lemma_share(i, sub, 0);
    let none = int_of::<Fixed>(0);
    assert(int_of::<Fixed>(0) / int_of::<Fixed>(sub) == none);
    assert forall|a: Fixed, b: Fixed| #[trigger] mixed(a, b, none) == a by {
        assert((b - a).raw * 0 == 0);
        assert((b - a) * none == none);
    }
}

/// The other two sides of a cell are the sides the next cells start at, so they lie on the whole ones
/// too.
pub proof fn law_a_shared_split_side_lies_on_the_whole_one(
    mesh: LiquidMesh<Fixed>,
    shores: Shores<Fixed>,
    i: int,
    j: int,
    sub: int,
    s: int,
)
    requires
        0 <= i < mesh.across(),
        0 <= j < mesh.along(),
        i < 0x3fff_ffff,
        j < 0x3fff_ffff,
        sub == 1 || sub == SHORE_CELL_SUB,
        0 <= s < sub,
    ensures
        ({
            let f = int_of::<Fixed>(s) / int_of::<Fixed>(sub);
            &&& i + 1 < mesh.across() ==> vertex_at(mesh, shores, i, j, sub, sub, s).position
                == drawn_between(mesh, mesh.point(i + 1, j), mesh.point(i + 1, j + 1), f)
            &&& j + 1 < mesh.along() ==> vertex_at(mesh, shores, i, j, sub, s, sub).position
                == drawn_between(mesh, mesh.point(i, j + 1), mesh.point(i + 1, j + 1), f)
        }),
{
    law_a_shared_side_is_the_next_cells_own(mesh, shores, i, j, sub, s);
    if i + 1 < mesh.across() {
        law_a_split_side_lies_on_the_whole_one(mesh, shores, i + 1, j, sub, s);
    }
    if j + 1 < mesh.along() {
        law_a_split_side_lies_on_the_whole_one(mesh, shores, i, j + 1, sub, s);
    }
}

/// A parameter short of the end of a cell lies in it, its share above the cell's line.
pub proof fn lemma_inside_cell(j: int, sub: int, sj: int, points: int)
    requires
        sub == 1 || sub == SHORE_CELL_SUB,
        0 <= sj < sub,
        0 <= j < 0x4000_0000,
        j < points - 1,
    ensures
        ({
            let f = int_of::<Fixed>(sj) / int_of::<Fixed>(sub);
            let v = int_of::<Fixed>(j) + f;
            &&& cell_below(v, points) == j
            &&& v - int_of::<Fixed>(j) == f
        }),
{
    lemma_share(j, sub, sj);
    let none = int_of::<Fixed>(0);
    let f = int_of::<Fixed>(sj) / int_of::<Fixed>(sub);
    let v = int_of::<Fixed>(j) + f;
    assert(int_of::<Fixed>(j).raw == j * ONE);
    assert(v.greater(none) == v);
    assert(v.raw as int / ONE as int == j);
    assert(v.floored().raw == j * ONE);
    assert(v.floored().index() == j);
}

} // verus!
