//! One liquid surface as its data describes it: a grid of points, which of its cells are wet, and
//! what the liquid is.

use vstd::prelude::*;

use crate::fixed::{Fixed, ONE};
use crate::geometry::{Vec2, Vec3};
use crate::scalar::{blend, blended, int_of, whole_number, Scalar};

verus! {

/// What a liquid is.
#[derive(Clone, Copy, Debug, PartialEq, Eq, Structural)]
pub enum LiquidKind {
    Still,
    Rapids,
    Ocean,
    Magma,
    Slime,
}

impl LiquidKind {
    /// Whether the animated sheet is the whole body: opaque, unlit and without a depth to fade by.
    pub open spec fn fullbright(self) -> bool {
        self == LiquidKind::Magma || self == LiquidKind::Slime
    }

    /// Whether the animated sheet is the whole body.
    pub fn is_fullbright(self) -> (r: bool)
        ensures
            r == self.fullbright(),
    {
        match self {
            LiquidKind::Magma => true,
            LiquidKind::Slime => true,
            LiquidKind::Still => false,
            LiquidKind::Rapids => false,
            LiquidKind::Ocean => false,
        }
    }

    /// The hazard liquid a type nibble names, if it names one. Two nibbles name each.
    pub open spec fn hazard_of(nibble: u8) -> Option<LiquidKind> {
        if nibble == 2 || nibble == 6 {
            Some(LiquidKind::Magma)
        } else if nibble == 3 || nibble == 7 {
            Some(LiquidKind::Slime)
        } else {
            None
        }
    }

    /// The hazard liquid a type nibble names, if it names one.
    pub fn hazard(nibble: u8) -> (r: Option<LiquidKind>)
        ensures
            r == Self::hazard_of(nibble),
    {
        if nibble == 2 || nibble == 6 {
            Some(LiquidKind::Magma)
        } else if nibble == 3 || nibble == 7 {
            Some(LiquidKind::Slime)
        } else {
            None
        }
    }
}

/// One liquid surface: a grid of points in the world's axes, row by row, and the cells between
/// them.
pub struct LiquidMesh<S> {
    /// How many points there are in a row, and how many rows.
    pub grid: [u32; 2],
    /// Whether each cell carries liquid, row by row.
    pub wet: Vec<bool>,
    /// Whether each cell is shared with another surface, row by row.
    pub shared: Vec<bool>,
    /// Where each point is.
    pub positions: Vec<Vec3<S>>,
    /// Where each point is on the animated sheet.
    pub uvs: Vec<Vec2<S>>,
    /// How deep the water is under each point.
    pub depths: Vec<S>,
    /// The whole grid's triangles.
    pub indices: Vec<u32>,
    /// The type nibble, which says how the liquid sounds and whether it flows.
    pub sound_nibble: u8,
    /// The entry of the owning model's material table, when it has one.
    pub material_id: Option<u16>,
    /// What the liquid is.
    pub kind: LiquidKind,
}

/// A height at or beyond this stands for no height at all.
pub open spec fn no_height<S: Scalar>() -> S {
    int_of::<S>(100000000)
}

/// Whether a height is one, and not the mark left under dry ground.
pub open spec fn has_height<S: Scalar>(z: S) -> bool {
    z.magnitude() < no_height::<S>()
}

/// The sum of the heights among the first `n` points.
pub open spec fn height_sum<S: Scalar>(ps: Seq<Vec3<S>>, n: int) -> S
    decreases n,
{
    if n <= 0 {
        int_of::<S>(0)
    } else if has_height(ps[n - 1].z) {
        height_sum(ps, n - 1) + ps[n - 1].z
    } else {
        height_sum(ps, n - 1)
    }
}

/// How many of the first `n` points have a height.
pub open spec fn height_count<S: Scalar>(ps: Seq<Vec3<S>>, n: int) -> nat
    decreases n,
{
    if n <= 0 {
        0
    } else if has_height(ps[n - 1].z) {
        height_count(ps, n - 1) + 1
    } else {
        height_count(ps, n - 1)
    }
}

/// The mean height of a surface's points, when any has one.
pub open spec fn level_of<S: Scalar>(ps: Seq<Vec3<S>>) -> Option<S> {
    let count = height_count(ps, ps.len() as int);
    if count == 0 {
        None
    } else {
        Some(height_sum(ps, ps.len() as int) / int_of::<S>(count as int))
    }
}

/// A point's height, or `level` where it has none.
pub open spec fn height_or<S: Scalar>(z: S, level: S) -> S {
    if has_height(z) {
        z
    } else {
        level
    }
}

/// The grid line at or below a parameter, held so that a whole cell lies above it.
pub open spec fn cell_below<S: Scalar>(u: S, points: int) -> int {
    let n = u.greater(int_of::<S>(0)).floored().index();
    if n < points - 2 {
        n as int
    } else {
        points - 2
    }
}

impl<S: Scalar> LiquidMesh<S> {
    /// Points in a row.
    pub open spec fn cols(&self) -> int {
        self.grid@[0] as int
    }

    /// Rows of points.
    pub open spec fn rows(&self) -> int {
        self.grid@[1] as int
    }

    /// Cells in a row.
    pub open spec fn across(&self) -> int {
        if self.cols() == 0 {
            0
        } else {
            self.cols() - 1
        }
    }

    /// Rows of cells.
    pub open spec fn along(&self) -> int {
        if self.rows() == 0 {
            0
        } else {
            self.rows() - 1
        }
    }

    /// Whether the grid has a cell at all.
    pub open spec fn has_cells(&self) -> bool {
        self.cols() >= 2 && self.rows() >= 2
    }

    /// The place of a point in the row-by-row order.
    pub open spec fn point(&self, i: int, j: int) -> int {
        j * self.cols() + i
    }

    /// Whether a cell carries liquid.
    pub open spec fn is_wet(&self, i: int, j: int) -> bool {
        self.wet@[j * self.across() + i]
    }

    /// The points, and the samples taken along a side, four to a cell, can be counted in 32 bits.
    pub open spec fn countable(&self) -> bool {
        &&& self.positions@.len() <= u32::MAX
        &&& self.has_cells() ==> self.cols() <= 0x4000_0000 && self.rows() <= 0x4000_0000
    }

    /// Every point of a grid that has cells has a position, and every cell says whether it is wet.
    pub open spec fn wf(&self) -> bool {
        &&& self.countable()
        &&& self.has_cells() ==> self.cols() * self.rows() <= self.positions@.len()
        &&& self.has_cells() ==> self.across() * self.along() <= self.wet@.len()
    }

    /// The surface at a grid parameter: bilinear over the four corners around it, with `level` for
    /// the corners that have no height.
    pub open spec fn point_at(&self, level: S, u: S, v: S) -> Vec3<S> {
        let i = cell_below(u, self.cols());
        let j = cell_below(v, self.rows());
        let fu = u - int_of::<S>(i);
        let fv = v - int_of::<S>(j);
        let a = self.positions@[self.point(i, j)];
        let b = self.positions@[self.point(i + 1, j)];
        let c = self.positions@[self.point(i, j + 1)];
        let d = self.positions@[self.point(i + 1, j + 1)];
        Vec3 {
            x: blended(a.x, b.x, c.x, d.x, fu, fv),
            y: blended(a.y, b.y, c.y, d.y, fu, fv),
            z: blended(
                height_or(a.z, level),
                height_or(b.z, level),
                height_or(c.z, level),
                height_or(d.z, level),
                fu,
                fv,
            ),
        }
    }

    /// Whether a surface's data is whole.
    pub fn is_whole(&self) -> (r: bool)
        ensures
            r == self.wf(),
    {
        let cols: u64 = self.grid[0] as u64;
        let rows: u64 = self.grid[1] as u64;
        if self.positions.len() as u64 > u32::MAX as u64 {
            return false;
        }
        if cols < 2 || rows < 2 {
            return true;
        }
        if cols > 0x4000_0000 || rows > 0x4000_0000 {
            return false;
        }
        assert(cols * rows <= 0x1000_0000_0000_0000) by (nonlinear_arith)
            requires
                cols <= 0x4000_0000,
                rows <= 0x4000_0000,
        ;
        assert((cols - 1) * (rows - 1) <= 0x1000_0000_0000_0000) by (nonlinear_arith)
            requires
                2 <= cols <= 0x4000_0000,
                2 <= rows <= 0x4000_0000,
        ;
        cols * rows <= self.positions.len() as u64 && (cols - 1) * (rows - 1)
            <= self.wet.len() as u64
    }

    /// Points in a row.
    pub fn width(&self) -> (r: usize)
        ensures
            r == self.cols(),
    {
        self.grid[0] as usize
    }

    /// Rows of points.
    pub fn height(&self) -> (r: usize)
        ensures
            r == self.rows(),
    {
        self.grid[1] as usize
    }

    /// The mean height of the surface's points, standing in for the points left without one under
    /// dry ground; nothing when none has a height.
    pub fn level(&self) -> (r: Option<S>)
        requires
            self.positions@.len() <= u32::MAX,
        ensures
            r == level_of(self.positions@),
    {
        let mut sum: S = whole_number(0);
        let mut count: usize = 0;
        let mut k: usize = 0;
        while k < self.positions.len()
            invariant
                k <= self.positions@.len() <= u32::MAX,
                sum == height_sum(self.positions@, k as int),
                count == height_count(self.positions@, k as int),
                count <= k,
            decreases self.positions@.len() - k,
        {
            let z: S = self.positions[k].z;
            if is_height(z) {
                sum = sum.plus(z);
                count = count + 1;
            }
            k = k + 1;
        }
        if count == 0 {
            None
        } else {
            Some(sum.over(whole_number(count as i64)))
        }
    }

    /// A point on the surface at grid parameter `(u, v)`, bilinear over the four corners around it.
    /// Corners without a height take `level` instead, so a cell that is half under the bank still
    /// yields a sane surface.
    pub fn surface_point(&self, level: S, u: S, v: S) -> (r: Vec3<S>)
        requires
            self.has_cells(),
            self.cols() * self.rows() <= self.positions@.len(),
        ensures
            r == self.point_at(level, u, v),
    {
        let cols: usize = self.width();
        let rows: usize = self.height();
        let i: usize = corner_below(u, cols);
        let j: usize = corner_below(v, rows);
        proof {
            lemma_point_in_grid(i as int, j as int, cols as int, rows as int);
            lemma_point_in_grid(i + 1, j + 1, cols as int, rows as int);
            lemma_next_row(j as int, cols as int);
            assert(self.positions.len() <= usize::MAX);
        }
        let fu: S = u.minus(whole_number(i as i64));
        let fv: S = v.minus(whole_number(j as i64));
        let at: usize = j * cols + i;
        let a: Vec3<S> = self.positions[at];
        let b: Vec3<S> = self.positions[at + 1];
        let c: Vec3<S> = self.positions[at + cols];
        let d: Vec3<S> = self.positions[at + cols + 1];
        Vec3 {
            x: blend(a.x, b.x, c.x, d.x, fu, fv),
            y: blend(a.y, b.y, c.y, d.y, fu, fv),
            z: blend(
                height_else(a.z, level),
                height_else(b.z, level),
                height_else(c.z, level),
                height_else(d.z, level),
                fu,
                fv,
            ),
        }
    }
}

/// Whether a height is one, and not the mark left under dry ground.
pub fn is_height<S: Scalar>(z: S) -> (r: bool)
    ensures
        r == has_height(z),
{
    let none: S = whole_number(100000000);
    z.absolute().less(none)
}

/// A point's height, or `level` where it has none.
fn height_else<S: Scalar>(z: S, level: S) -> (r: S)
    ensures
        r == height_or(z, level),
{
    if is_height(z) {
        z
    } else {
        level
    }
}

/// The grid line at or below a parameter, held so that a whole cell lies above it.
fn corner_below<S: Scalar>(u: S, points: usize) -> (r: usize)
    requires
        2 <= points <= u32::MAX,
    ensures
        r == cell_below(u, points as int),
        0 <= r <= points - 2,
{
    let zero: S = whole_number(0);
    let n: usize = u.greatest(zero).floor().to_index();
    if n < points - 2 {
        n
    } else {
        points - 2
    }
}

/// A column and a row of a grid name a place among its points.
pub proof fn lemma_point_in_grid(i: int, j: int, cols: int, rows: int)
    requires
        0 <= i < cols,
        0 <= j < rows,
    ensures
        0 <= j * cols,
        0 <= j * cols + i < cols * rows,
{
    assert(0 <= j * cols && j * cols + i < cols * rows) by (nonlinear_arith)
        requires
            0 <= i < cols,
            0 <= j < rows,
    ;
}

/// The next row starts one row of points on.
pub proof fn lemma_next_row(j: int, cols: int)
    ensures
        (j + 1) * cols == j * cols + cols,
{
    assert((j + 1) * cols == j * cols + cols) by (nonlinear_arith);
}

/// A surface meets its own data: in the crate's exact numbers it passes through every point of the
/// grid that has a whole cell above it, at the point's height or, where it has none, at the level.
pub proof fn law_surface_meets_its_points(mesh: LiquidMesh<Fixed>, level: Fixed, i: int, j: int)
    requires
        mesh.has_cells(),
        0 <= i < mesh.cols() - 1,
        0 <= j < mesh.rows() - 1,
        i < 0x8000_0000,
        j < 0x8000_0000,
    ensures
        ({
            let p = mesh.positions@[mesh.point(i, j)];
            mesh.point_at(level, int_of::<Fixed>(i), int_of::<Fixed>(j)) == (Vec3 {
                x: p.x,
                y: p.y,
                z: height_or(p.z, level),
            })
        }),
{
    lemma_whole_cell(i, mesh.cols());
    lemma_whole_cell(j, mesh.rows());
    let none = int_of::<Fixed>(0);
    assert forall|x: Fixed| #[trigger] (x * none) == none by {
        assert(x.raw * 0 == 0);
    }
}

/// A whole number below the last cell is its own grid line.
proof fn lemma_whole_cell(i: int, points: int)
    requires
        0 <= i < points - 1,
        i < 0x8000_0000,
    ensures
        cell_below(int_of::<Fixed>(i), points) == i,
        int_of::<Fixed>(i) - int_of::<Fixed>(i) == int_of::<Fixed>(0),
{
    let n = int_of::<Fixed>(i);
    assert(n.raw == i * ONE);
    assert(n.floored().raw == i * ONE);
    assert(n.floored().index() == i);
}

} // verus!
