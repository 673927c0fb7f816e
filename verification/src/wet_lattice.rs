//! Where the liquid grids themselves end.
//!
//! Every cell of a batch of surfaces is folded onto one lattice, so that the water's edge can be
//! traced across the seams between them: a cell one surface calls dry and its neighbour calls wet
//! is wet, and a cell no surface covers is not counted at all rather than counted dry. The edge is
//! the half-way line of the wetness at the lattice's corners, which cuts each corner cell across
//! the diagonal instead of following its sides.

use std::collections::HashMap;
use vstd::prelude::*;

use crate::contour::{contour, law_a_line_parts_the_signs, march, Sample, Segment};
use crate::fixed::{saturated, Fixed, ONE};
use crate::geometry::Vec2;
use crate::liquid_mesh::{lemma_next_row, lemma_point_in_grid, LiquidMesh};
use crate::pair_key::{half_key, key_of, lemma_keys_differ, pair_key};
use crate::scalar::{int_of, whole_number, Scalar};
use crate::shoreline::{far_from_shore, Shoreline};

verus! {

broadcast use vstd::std_specs::hash::group_hash_axioms;

/// The cells a batch of surfaces covers: in the order they were first met, and whether each carries
/// liquid.
#[verifier::ext_equal]
pub struct Cells {
    pub order: Seq<(int, int)>,
    pub wet: Map<(int, int), bool>,
}

/// No cells at all.
pub open spec fn no_cells() -> Cells {
    Cells { order: Seq::empty(), wet: Map::empty() }
}

/// The cells once another has been met. A cell that any surface calls wet is wet.
pub open spec fn noted(cells: Cells, c: (int, int), wet: bool) -> Cells {
    if cells.wet.dom().contains(c) {
        Cells { order: cells.order, wet: cells.wet.insert(c, cells.wet[c] || wet) }
    } else {
        Cells { order: cells.order.push(c), wet: cells.wet.insert(c, wet) }
    }
}

/// The length of a surface's cells, between its first two points seen from above.
pub open spec fn pitch_of<S: Scalar>(mesh: LiquidMesh<S>) -> S {
    let a = mesh.positions@[0];
    let b = mesh.positions@[1];
    (Vec2 { x: a.x - b.x, y: a.y - b.y }).measure()
}

/// The length of the lattice's cells: that of the first surface that has any.
pub open spec fn lattice_pitch<S: Scalar>(meshes: Seq<LiquidMesh<S>>, n: int) -> Option<S>
    decreases n,
{
    if n <= 0 {
        None
    } else {
        match lattice_pitch(meshes, n - 1) {
            Some(p) => Some(p),
            None => if meshes[n - 1].has_cells() {
                Some(pitch_of(meshes[n - 1]))
            } else {
                None
            },
        }
    }
}

/// The middle of a cell, seen from above: the mean of its four corners, whichever way the grid's
/// axes lie.
pub open spec fn centre_of<S: Scalar>(mesh: LiquidMesh<S>, i: int, j: int) -> Vec2<S> {
    let a = mesh.positions@[mesh.point(i, j)];
    let b = mesh.positions@[mesh.point(i + 1, j)];
    let c = mesh.positions@[mesh.point(i, j + 1)];
    let d = mesh.positions@[mesh.point(i + 1, j + 1)];
    Vec2 {
        x: (a.x + b.x + c.x + d.x) / int_of::<S>(4),
        y: (a.y + b.y + c.y + d.y) / int_of::<S>(4),
    }
}

/// The lattice cell a surface's cell lies in, if it lies anywhere.
pub open spec fn lattice_cell<S: Scalar>(
    mesh: LiquidMesh<S>,
    pitch: S,
    i: int,
    j: int,
) -> Option<(int, int)> {
    let c = centre_of(mesh, i, j);
    if c.x.finite() && c.y.finite() {
        Some(
            (
                (c.x / pitch).floored().whole() as int,
                (c.y / pitch).floored().whole() as int,
            ),
        )
    } else {
        None
    }
}

/// The cells once the first `n` of a row of a surface have been met.
pub open spec fn row_noted<S: Scalar>(
    cells: Cells,
    mesh: LiquidMesh<S>,
    pitch: S,
    j: int,
    n: int,
) -> Cells
    decreases n,
{
    if n <= 0 {
        cells
    } else {
        let before = row_noted(cells, mesh, pitch, j, n - 1);
        match lattice_cell(mesh, pitch, n - 1, j) {
            Some(c) => noted(before, c, mesh.is_wet(n - 1, j)),
            None => before,
        }
    }
}

/// The cells once the first `n` rows of a surface have been met.
pub open spec fn rows_noted<S: Scalar>(
    cells: Cells,
    mesh: LiquidMesh<S>,
    pitch: S,
    n: int,
) -> Cells
    decreases n,
{
    if n <= 0 {
        cells
    } else {
        row_noted(rows_noted(cells, mesh, pitch, n - 1), mesh, pitch, n - 1, mesh.across())
    }
}

/// The cells the first `n` surfaces of a batch cover.
pub open spec fn batch_cells<S: Scalar>(meshes: Seq<LiquidMesh<S>>, pitch: S, n: int) -> Cells
    decreases n,
{
    if n <= 0 {
        no_cells()
    } else if meshes[n - 1].has_cells() {
        rows_noted(
            batch_cells(meshes, pitch, n - 1),
            meshes[n - 1],
            pitch,
            meshes[n - 1].along(),
        )
    } else {
        batch_cells(meshes, pitch, n - 1)
    }
}

/// One if a cell is covered.
pub open spec fn covered(cells: Cells, i: int, j: int) -> int {
    if cells.wet.dom().contains((i, j)) {
        1
    } else {
        0
    }
}

/// One if a cell is covered by liquid.
pub open spec fn flooded(cells: Cells, i: int, j: int) -> int {
    if cells.wet.dom().contains((i, j)) && cells.wet[(i, j)] {
        1
    } else {
        0
    }
}

/// How many of the covered cells meeting at a lattice corner carry liquid.
pub open spec fn wet_at_corner(cells: Cells, i: int, j: int) -> int {
    flooded(cells, i - 1, j - 1) + flooded(cells, i, j - 1) + flooded(cells, i - 1, j) + flooded(
        cells,
        i,
        j,
    )
}

/// How many covered cells meet at a lattice corner.
pub open spec fn known_at_corner(cells: Cells, i: int, j: int) -> int {
    covered(cells, i - 1, j - 1) + covered(cells, i, j - 1) + covered(cells, i - 1, j) + covered(
        cells,
        i,
        j,
    )
}

/// The share of the covered cells meeting at a lattice corner that carry liquid.
pub open spec fn wetness<S: Scalar>(cells: Cells, i: int, j: int) -> S {
    int_of::<S>(wet_at_corner(cells, i, j)) / int_of::<S>(known_at_corner(cells, i, j))
}

/// The field whose zero line is the water's edge, at a lattice corner.
pub open spec fn corner_sample<S: Scalar>(cells: Cells, pitch: S, i: int, j: int) -> Sample<S> {
    Sample {
        at: Vec2 { x: int_of::<S>(i) * pitch, y: int_of::<S>(j) * pitch },
        value: wetness::<S>(cells, i, j) - S::frac(1, 2),
    }
}

/// The water's edge inside one lattice cell.
pub open spec fn cell_edge<S: Scalar>(cells: Cells, pitch: S, c: (int, int)) -> Seq<Segment<S>> {
    contour(
        corner_sample(cells, pitch, c.0, c.1),
        corner_sample(cells, pitch, c.0 + 1, c.1),
        corner_sample(cells, pitch, c.0 + 1, c.1 + 1),
        corner_sample(cells, pitch, c.0, c.1 + 1),
    )
}

/// The water's edge inside the first `n` cells.
pub open spec fn cells_edge<S: Scalar>(cells: Cells, pitch: S, n: int) -> Seq<Segment<S>>
    decreases n,
{
    if n <= 0 {
        Seq::empty()
    } else {
        cells_edge(cells, pitch, n - 1) + cell_edge(cells, pitch, cells.order[n - 1])
    }
}

/// The lattice cells met so far.
struct CellSet {
    index: HashMap<u64, usize>,
    cells: Vec<(i32, i32)>,
    wet: Vec<bool>,
}

impl CellSet {
    spec fn wf(&self) -> bool {
        &&& self.cells@.len() == self.wet@.len()
        &&& forall|k: int|
            #![trigger self.cells@[k]]
            0 <= k < self.cells@.len() ==> {
                let key = key_of(self.cells@[k].0 as int, self.cells@[k].1 as int);
                self.index@.contains_key(key) && self.index@[key] == k
            }
        &&& forall|key: u64| #[trigger]
            self.index@.contains_key(key) ==> {
                let k = self.index@[key] as int;
                k < self.cells@.len() && key_of(
                    self.cells@[k].0 as int,
                    self.cells@[k].1 as int,
                ) == key
            }
    }

    spec fn view(&self) -> Cells {
        Cells {
            order: Seq::new(
                self.cells@.len(),
                |k: int| (self.cells@[k].0 as int, self.cells@[k].1 as int),
            ),
            wet: Map::new(
                |c: (int, int)|
                    half_key(c.0) && half_key(c.1) && self.index@.contains_key(key_of(c.0, c.1)),
                |c: (int, int)| self.wet@[self.index@[key_of(c.0, c.1)] as int],
            ),
        }
    }

    fn new() -> (r: Self)
        ensures
            r.wf(),
            r@ == no_cells(),
    {
        let r = CellSet { index: HashMap::new(), cells: Vec::new(), wet: Vec::new() };
        assert(r@.order =~= no_cells().order);
        assert(r@.wet =~= no_cells().wet);
        r
    }

    /// Meet a cell.
    fn note(&mut self, i: i32, j: i32, wet: bool)
        requires
            old(self).wf(),
        ensures
            final(self).wf(),
            final(self)@ == noted(old(self)@, (i as int, j as int), wet),
    {
        let key: u64 = pair_key(i, j);
        let ghost was = *self;
        let ghost c = (i as int, j as int);
        proof {
            lemma_keys_differ(i as int, j as int);
        }
        match self.index.get(&key) {
            Some(n) => {
                let n: usize = *n;
                if wet {
                    self.wet.set(n, true);
                }
                assert forall|d: (int, int)| #[trigger]
                    self@.wet.dom().contains(d) implies self@.wet[d] == noted(
                    was@,
                    c,
                    wet,
                ).wet[d] by {
                    if d != c {
                        assert(was.index@[key_of(d.0, d.1)] != n);
                    }
                }
                assert(self@.order =~= noted(was@, c, wet).order);
                assert(self@.wet =~= noted(was@, c, wet).wet);
            },
            None => {
                let n: usize = self.cells.len();
                self.cells.push((i, j));
                self.wet.push(wet);
                self.index.insert(key, n);
                assert forall|k: int|
                    #![trigger self.cells@[k]]
                    0 <= k < self.cells@.len() implies {
                    let at = key_of(self.cells@[k].0 as int, self.cells@[k].1 as int);
                    self.index@.contains_key(at) && self.index@[at] == k
                } by {
                    if k < n {
                        assert(was.cells@[k] == self.cells@[k]);
                    }
                }
                assert(self@.order =~= noted(was@, c, wet).order);
                assert(self@.wet =~= noted(was@, c, wet).wet);
            },
        }
    }

    /// What is known of a cell: nothing, or whether it carries liquid.
    fn look(&self, i: i64, j: i64) -> (r: Option<bool>)
        requires
            self.wf(),
        ensures
            r is Some <==> self@.wet.dom().contains((i as int, j as int)),
            r matches Some(w) ==> w == self@.wet[(i as int, j as int)],
    {
        if i < i32::MIN as i64 || i > i32::MAX as i64 || j < i32::MIN as i64 || j
            > i32::MAX as i64 {
            return None;
        }
        let key: u64 = pair_key(i as i32, j as i32);
        match self.index.get(&key) {
            Some(n) => Some(self.wet[*n]),
            None => None,
        }
    }

    /// The field whose zero line is the water's edge, at a lattice corner.
    fn corner<S: Scalar>(&self, pitch: S, i: i64, j: i64) -> (r: Sample<S>)
        requires
            self.wf(),
            i32::MIN <= i <= i32::MAX + 1,
            i32::MIN <= j <= i32::MAX + 1,
        ensures
            r == corner_sample(self@, pitch, i as int, j as int),
    {
        let (a, b) = tally(self.look(i - 1, j - 1));
        let (c, d) = tally(self.look(i, j - 1));
        let (e, f) = tally(self.look(i - 1, j));
        let (g, h) = tally(self.look(i, j));
        let known: S = whole_number(a + c + e + g);
        let wet: S = whole_number(b + d + f + h);
        let half: S = S::ratio(1, 2);
        let x: S = whole_number(i);
        let y: S = whole_number(j);
        Sample {
            at: Vec2 { x: x.times(pitch), y: y.times(pitch) },
            value: wet.over(known).minus(half),
        }
    }

    /// Trace the water's edge.
    fn edge<S: Scalar>(&self, pitch: S) -> (r: Vec<Segment<S>>)
        requires
            self.wf(),
        ensures
            r@ == cells_edge(self@, pitch, self@.order.len() as int),
    {
        let mut raw: Vec<Segment<S>> = Vec::new();
        let mut n: usize = 0;
        while n < self.cells.len()
            invariant
                n <= self.cells@.len(),
                self.wf(),
                raw@ == cells_edge(self@, pitch, n as int),
            decreases self.cells@.len() - n,
        {
            let i: i64 = self.cells[n].0 as i64;
            let j: i64 = self.cells[n].1 as i64;
            assert(self@.order[n as int] == (i as int, j as int));
            let a: Sample<S> = self.corner(pitch, i, j);
            let b: Sample<S> = self.corner(pitch, i + 1, j);
            let c: Sample<S> = self.corner(pitch, i + 1, j + 1);
            let d: Sample<S> = self.corner(pitch, i, j + 1);
            march(a, b, c, d, &mut raw);
            n = n + 1;
        }
        raw
    }

    /// Meet every cell of a surface.
    fn note_all<S: Scalar>(&mut self, mesh: &LiquidMesh<S>, pitch: S)
        requires
            old(self).wf(),
            mesh.wf(),
            mesh.has_cells(),
        ensures
            final(self).wf(),
            final(self)@ == rows_noted(old(self)@, *mesh, pitch, mesh.along()),
    {
        let cols: usize = mesh.width();
        let rows: usize = mesh.height();
        let ghost start = self@;
        let mut j: usize = 0;
        while j < rows - 1
            invariant
                mesh.wf(),
                cols == mesh.cols(),
                rows == mesh.rows(),
                cols >= 2,
                rows >= 2,
                j <= rows - 1,
                self.wf(),
                self@ == rows_noted(start, *mesh, pitch, j as int),
            decreases rows - j,
        {
            let ghost above = self@;
            let mut i: usize = 0;
            while i < cols - 1
                invariant
                    mesh.wf(),
                    cols == mesh.cols(),
                    rows == mesh.rows(),
                    cols >= 2,
                    rows >= 2,
                    j < rows - 1,
                    i <= cols - 1,
                    self.wf(),
                    self@ == row_noted(above, *mesh, pitch, j as int, i as int),
                decreases cols - i,
            {
                let c: Vec2<S> = cell_centre(mesh, i, j);
                if c.x.is_finite() && c.y.is_finite() {
                    let x: i32 = c.x.over(pitch).floor().to_i32();
                    let y: i32 = c.y.over(pitch).floor().to_i32();
                    let wet: bool = cell_is_wet(mesh, i, j);
                    self.note(x, y, wet);
                }
                i = i + 1;
            }
            j = j + 1;
        }
    }
}

/// One and one for a covered cell with liquid, one and none for one without, and nothing for a
/// cell that is not covered.
fn tally(seen: Option<bool>) -> (r: (i64, i64))
    ensures
        r.0 == if seen is Some {
            1int
        } else {
            0
        },
        r.1 == if seen == Some(true) {
            1int
        } else {
            0
        },
{
    match seen {
        Some(true) => (1, 1),
        Some(false) => (1, 0),
        None => (0, 0),
    }
}

/// Whether a surface's cell carries liquid.
pub fn cell_is_wet<S: Scalar>(mesh: &LiquidMesh<S>, i: usize, j: usize) -> (r: bool)
    requires
        mesh.has_cells(),
        mesh.across() * mesh.along() <= mesh.wet@.len(),
        i < mesh.across(),
        j < mesh.along(),
    ensures
        r == mesh.is_wet(i as int, j as int),
{
    let across: usize = mesh.width() - 1;
    proof {
        lemma_point_in_grid(i as int, j as int, mesh.across(), mesh.along());
        assert(mesh.wet.len() <= usize::MAX);
    }
    mesh.wet[j * across + i]
}

/// The middle of a surface's cell, seen from above.
fn cell_centre<S: Scalar>(mesh: &LiquidMesh<S>, i: usize, j: usize) -> (r: Vec2<S>)
    requires
        mesh.wf(),
        mesh.has_cells(),
        i < mesh.across(),
        j < mesh.along(),
    ensures
        r == centre_of(*mesh, i as int, j as int),
{
    let cols: usize = mesh.width();
    proof {
        lemma_point_in_grid(i as int, j as int, mesh.cols(), mesh.rows());
        lemma_point_in_grid(i + 1, j + 1, mesh.cols(), mesh.rows());
        lemma_next_row(j as int, mesh.cols());
        assert(mesh.positions.len() <= usize::MAX);
    }
    let at: usize = j * cols + i;
    let a = mesh.positions[at];
    let b = mesh.positions[at + 1];
    let c = mesh.positions[at + cols];
    let d = mesh.positions[at + cols + 1];
    let four: S = whole_number(4);
    Vec2 {
        x: a.x.plus(b.x).plus(c.x).plus(d.x).over(four),
        y: a.y.plus(b.y).plus(c.y).plus(d.y).over(four),
    }
}

/// The edge of the water as the liquid grids of a batch draw it.
pub struct WetLattice<S> {
    /// The traced edge, if the batch's water ends anywhere.
    pub edge: Option<Shoreline<S>>,
}

/// Whether `r` is the lattice of a batch of surfaces: none without a usable grid, a pitch to speak
/// of or a cell that lies anywhere, and otherwise one with the traced edge of the batch's cells.
pub open spec fn lattice_traced<S: Scalar>(
    meshes: Seq<LiquidMesh<S>>,
    r: Option<WetLattice<S>>,
) -> bool {
    match lattice_pitch(meshes, meshes.len() as int) {
        None => r is None,
        Some(pitch) => {
            let cells = batch_cells(meshes, pitch, meshes.len() as int);
            let raw = cells_edge(cells, pitch, cells.order.len() as int);
            &&& r is Some <==> (S::frac(1, 1000) < pitch && cells.order.len() > 0)
            &&& r matches Some(lattice) ==> {
                &&& lattice.wf()
                &&& lattice.edge is None <==> raw.len() == 0
                &&& lattice.edge matches Some(e) ==> e.files(raw)
            }
        },
    }
}

impl<S: Scalar> WetLattice<S> {
    /// The traced edge can be searched.
    pub open spec fn wf(&self) -> bool {
        self.edge matches Some(e) ==> e.wf()
    }

    /// How far the water's edge is, as far as it is looked for.
    pub open spec fn reach(&self, p: Vec2<S>) -> S {
        match self.edge {
            Some(e) => e.reach(p),
            None => far_from_shore::<S>(),
        }
    }

    /// Fold every surface of a batch onto one lattice, and trace where its water ends. Nothing when
    /// the batch has no usable grid.
    pub fn build(meshes: &Vec<LiquidMesh<S>>) -> (r: Option<Self>)
        requires
            forall|k: int| 0 <= k < meshes@.len() ==> (#[trigger] meshes@[k]).wf(),
        ensures
            lattice_traced(meshes@, r),
    {
        let tiny: S = S::ratio(1, 1000);
        let mut pitch: Option<S> = None;
        let mut cells: CellSet = CellSet::new();
        let mut k: usize = 0;
        while k < meshes.len()
            invariant
                k <= meshes@.len(),
                forall|n: int| 0 <= n < meshes@.len() ==> (#[trigger] meshes@[n]).wf(),
                tiny == S::frac(1, 1000),
                pitch == lattice_pitch(meshes@, k as int),
                pitch matches Some(p) ==> tiny < p,
                cells.wf(),
                pitch matches Some(p) ==> cells@ == batch_cells(meshes@, p, k as int),
                pitch is None ==> cells@ == no_cells(),
            decreases meshes@.len() - k,
        {
            let mesh: &LiquidMesh<S> = &meshes[k];
            if mesh.width() >= 2 && mesh.height() >= 2 {
                let p: S = match pitch {
                    Some(p) => p,
                    None => {
                        proof {
                            lemma_point_in_grid(1, 0, mesh.cols(), mesh.rows());
                        }
                        let a = mesh.positions[0];
                        let b = mesh.positions[1];
                        let p: S = (Vec2 { x: a.x.minus(b.x), y: a.y.minus(b.y) }).length();
                        if !tiny.less(p) {
                            proof {
                                lemma_pitch_is_first(meshes@, k as int + 1, meshes@.len() as int);
                            }
                            return None;
                        }
                        proof {
                            lemma_no_pitch_no_cells(meshes@, p, k as int);
                        }
                        p
                    },
                };
                pitch = Some(p);
                cells.note_all(mesh, p);
            }
            k = k + 1;
        }
        match pitch {
            None => None,
            Some(p) => {
                if cells.cells.len() == 0 {
                    return None;
                }
                let raw: Vec<Segment<S>> = cells.edge(p);
                Some(WetLattice { edge: Shoreline::from_segments(&raw) })
            },
        }
    }

    /// How far the water's edge is as the liquid grids draw it, from a point.
    pub fn distance_to_dry(&self, p: Vec2<S>) -> (r: S)
        requires
            self.wf(),
        ensures
            r == self.reach(p),
    {
        match &self.edge {
            Some(e) => e.distance(p),
            None => whole_number(24),
        }
    }
}

/// Once a surface has given the lattice its pitch, later ones do not change it.
proof fn lemma_pitch_is_first<S: Scalar>(meshes: Seq<LiquidMesh<S>>, k: int, n: int)
    requires
        0 <= k <= n,
        lattice_pitch(meshes, k) is Some,
    ensures
        lattice_pitch(meshes, n) == lattice_pitch(meshes, k),
    decreases n,
{
    if k < n {
        lemma_pitch_is_first(meshes, k, n - 1);
    }
}

/// Until a surface has given the lattice its pitch, no cell has been met.
proof fn lemma_no_pitch_no_cells<S: Scalar>(meshes: Seq<LiquidMesh<S>>, pitch: S, n: int)
    requires
        lattice_pitch(meshes, n) is None,
    ensures
        batch_cells(meshes, pitch, n) == no_cells(),
    decreases n,
{
    if n > 0 {
        lemma_no_pitch_no_cells(meshes, pitch, n - 1);
    }
}

/// Whether some cell of the first `n` surfaces of a batch, before column `i` of row `j` of the
/// last, lies in a lattice cell, carrying liquid where `wet` asks for it.
spec fn met<S: Scalar>(
    meshes: Seq<LiquidMesh<S>>,
    pitch: S,
    n: int,
    i: int,
    j: int,
    c: (int, int),
    wet: bool,
) -> bool {
    exists|m: int, x: int, y: int|
        {
            &&& 0 <= m < n
            &&& meshes[m].has_cells()
            &&& 0 <= x < meshes[m].across()
            &&& 0 <= y < meshes[m].along()
            &&& m == n - 1 ==> y < j || y == j && x < i
            &&& #[trigger] lattice_cell(meshes[m], pitch, x, y) == Some(c)
            &&& wet ==> meshes[m].is_wet(x, y)
        }
}

/// Whether the cells met are exactly those of the surfaces, wet where any surface says so, and each
/// is in the order once.
spec fn faithful<S: Scalar>(
    cells: Cells,
    meshes: Seq<LiquidMesh<S>>,
    pitch: S,
    n: int,
    i: int,
    j: int,
) -> bool {
    &&& forall|c: (int, int)| #[trigger]
        cells.wet.dom().contains(c) <==> met(meshes, pitch, n, i, j, c, false)
    &&& forall|c: (int, int)|
        cells.wet.dom().contains(c) ==> (#[trigger] cells.wet[c] <==> met(
            meshes,
            pitch,
            n,
            i,
            j,
            c,
            true,
        ))
    &&& forall|c: (int, int)| #[trigger]
        cells.order.contains(c) <==> cells.wet.dom().contains(c)
    &&& cells.order.no_duplicates()
}

proof fn lemma_noted_faithful<S: Scalar>(
    cells: Cells,
    meshes: Seq<LiquidMesh<S>>,
    pitch: S,
    n: int,
    i: int,
    j: int,
)
    requires
        0 < n,
        faithful(cells, meshes, pitch, n, i, j),
        meshes[n - 1].has_cells(),
        0 <= i < meshes[n - 1].across(),
        0 <= j < meshes[n - 1].along(),
    ensures
        faithful(
            match lattice_cell(meshes[n - 1], pitch, i, j) {
                Some(c) => noted(cells, c, meshes[n - 1].is_wet(i, j)),
                None => cells,
            },
            meshes,
            pitch,
            n,
            i + 1,
            j,
        ),
{
    let here = lattice_cell(meshes[n - 1], pitch, i, j);
    let wet = meshes[n - 1].is_wet(i, j);
    assert forall|c: (int, int), w: bool| #[trigger]
        met(meshes, pitch, n, i + 1, j, c, w) <==> met(meshes, pitch, n, i, j, c, w) || here
            == Some(c) && (w ==> wet) by {
        if met(meshes, pitch, n, i + 1, j, c, w) {
            let (m, x, y) = choose|m: int, x: int, y: int|
                {
                    &&& 0 <= m < n
                    &&& meshes[m].has_cells()
                    &&& 0 <= x < meshes[m].across()
                    &&& 0 <= y < meshes[m].along()
                    &&& m == n - 1 ==> y < j || y == j && x < i + 1
                    &&& #[trigger] lattice_cell(meshes[m], pitch, x, y) == Some(c)
                    &&& w ==> meshes[m].is_wet(x, y)
                };
            if m == n - 1 && y == j && x == i {
            } else {
                assert(met(meshes, pitch, n, i, j, c, w));
            }
        }
    }
    if let Some(c) = here {
        let next = noted(cells, c, wet);
        if !cells.wet.dom().contains(c) {
            assert(!cells.order.contains(c));
            assert forall|d: (int, int)| #[trigger]
                next.order.contains(d) <==> next.wet.dom().contains(d) by {
                if d == c {
                    assert(next.order[cells.order.len() as int] == c);
                } else if cells.order.contains(d) {
                    let k = choose|k: int| 0 <= k < cells.order.len() && cells.order[k] == d;
                    assert(next.order[k] == d);
                } else if next.order.contains(d) {
                    let k = choose|k: int| 0 <= k < next.order.len() && next.order[k] == d;
                    assert(cells.order[k] == d);
                }
            }
        }
    }
}

proof fn lemma_row_faithful<S: Scalar>(
    cells: Cells,
    meshes: Seq<LiquidMesh<S>>,
    pitch: S,
    n: int,
    i: int,
    j: int,
)
    requires
        0 < n,
        faithful(cells, meshes, pitch, n, 0, j),
        meshes[n - 1].has_cells(),
        0 <= i <= meshes[n - 1].across(),
        0 <= j < meshes[n - 1].along(),
    ensures
        faithful(row_noted(cells, meshes[n - 1], pitch, j, i), meshes, pitch, n, i, j),
    decreases i,
{
    if i > 0 {
        lemma_row_faithful(cells, meshes, pitch, n, i - 1, j);
        lemma_noted_faithful(
            row_noted(cells, meshes[n - 1], pitch, j, i - 1),
            meshes,
            pitch,
            n,
            i - 1,
            j,
        );
    }
}

proof fn lemma_met_same<S: Scalar>(
    meshes: Seq<LiquidMesh<S>>,
    pitch: S,
    n: int,
    i: int,
    j: int,
    k: int,
    x: int,
    y: int,
)
    requires
        forall|m: int, a: int, b: int|
            0 <= m && meshes[m].has_cells() && 0 <= a < meshes[m].across() && 0 <= b
                < meshes[m].along() && #[trigger] lattice_cell(meshes[m], pitch, a, b) is Some ==> (
            m < n && (m == n - 1 ==> b < j || b == j && a < i) <==> m < k && (m == k - 1 ==> b < y
                || b == y && a < x)),
    ensures
        forall|c: (int, int), w: bool| #[trigger]
            met(meshes, pitch, n, i, j, c, w) == met(meshes, pitch, k, x, y, c, w),
{
    assert forall|c: (int, int), w: bool| #[trigger]
        met(meshes, pitch, n, i, j, c, w) == met(meshes, pitch, k, x, y, c, w) by {
        if met(meshes, pitch, n, i, j, c, w) {
            let (m, a, b) = choose|m: int, a: int, b: int|
                {
                    &&& 0 <= m < n
                    &&& meshes[m].has_cells()
                    &&& 0 <= a < meshes[m].across()
                    &&& 0 <= b < meshes[m].along()
                    &&& m == n - 1 ==> b < j || b == j && a < i
                    &&& #[trigger] lattice_cell(meshes[m], pitch, a, b) == Some(c)
                    &&& w ==> meshes[m].is_wet(a, b)
                };
            assert(met(meshes, pitch, k, x, y, c, w));
        }
        if met(meshes, pitch, k, x, y, c, w) {
            let (m, a, b) = choose|m: int, a: int, b: int|
                {
                    &&& 0 <= m < k
                    &&& meshes[m].has_cells()
                    &&& 0 <= a < meshes[m].across()
                    &&& 0 <= b < meshes[m].along()
                    &&& m == k - 1 ==> b < y || b == y && a < x
                    &&& #[trigger] lattice_cell(meshes[m], pitch, a, b) == Some(c)
                    &&& w ==> meshes[m].is_wet(a, b)
                };
            assert(met(meshes, pitch, n, i, j, c, w));
        }
    }
}

proof fn lemma_rows_faithful<S: Scalar>(
    cells: Cells,
    meshes: Seq<LiquidMesh<S>>,
    pitch: S,
    n: int,
    j: int,
)
    requires
        0 < n,
        faithful(cells, meshes, pitch, n, 0, 0),
        meshes[n - 1].has_cells(),
        0 <= j <= meshes[n - 1].along(),
    ensures
        faithful(rows_noted(cells, meshes[n - 1], pitch, j), meshes, pitch, n, 0, j),
    decreases j,
{
    if j > 0 {
        let across = meshes[n - 1].across();
        lemma_rows_faithful(cells, meshes, pitch, n, j - 1);
        lemma_row_faithful(
            rows_noted(cells, meshes[n - 1], pitch, j - 1),
            meshes,
            pitch,
            n,
            across,
            j - 1,
        );
        lemma_met_same(meshes, pitch, n, across, j - 1, n, 0, j);
        assert(met(meshes, pitch, n, 0, j, (0, 0), true) == met(
            meshes,
            pitch,
            n,
            across,
            j - 1,
            (0, 0),
            true,
        ));
    }
}

proof fn lemma_batch_faithful<S: Scalar>(meshes: Seq<LiquidMesh<S>>, pitch: S, n: int)
    requires
        0 <= n <= meshes.len(),
    ensures
        faithful(batch_cells(meshes, pitch, n), meshes, pitch, n + 1, 0, 0),
    decreases n,
{
    if n > 0 {
        lemma_batch_faithful(meshes, pitch, n - 1);
        let last = meshes[n - 1];
        if last.has_cells() {
            lemma_rows_faithful(
                batch_cells(meshes, pitch, n - 1),
                meshes,
                pitch,
                n,
                last.along(),
            );
        }
        lemma_met_same(meshes, pitch, n, 0, last.along(), n + 1, 0, 0);
        lemma_met_same(meshes, pitch, n, 0, 0, n, 0, 0);
    }
}

/// Whether a batch of surfaces has a cell in a lattice cell, carrying liquid where `wet` asks for
/// it.
pub open spec fn some_cell_in<S: Scalar>(
    meshes: Seq<LiquidMesh<S>>,
    pitch: S,
    c: (int, int),
    wet: bool,
) -> bool {
    exists|m: int, i: int, j: int|
        {
            &&& 0 <= m < meshes.len()
            &&& meshes[m].has_cells()
            &&& 0 <= i < meshes[m].across()
            &&& 0 <= j < meshes[m].along()
            &&& #[trigger] lattice_cell(meshes[m], pitch, i, j) == Some(c)
            &&& wet ==> meshes[m].is_wet(i, j)
        }
}

/// A lattice cell is covered if any surface has a cell there, wet if any of those is, and traced
/// once however many there are: the join of two surfaces is no edge of the water, and it does not
/// matter which of them comes first.
pub proof fn law_any_surface_makes_a_cell_wet<S: Scalar>(
    meshes: Seq<LiquidMesh<S>>,
    pitch: S,
    c: (int, int),
)
    ensures
        ({
            let cells = batch_cells(meshes, pitch, meshes.len() as int);
            &&& cells.wet.dom().contains(c) <==> some_cell_in(meshes, pitch, c, false)
            &&& cells.wet.dom().contains(c) ==> (cells.wet[c] <==> some_cell_in(
                meshes,
                pitch,
                c,
                true,
            ))
            &&& cells.order.contains(c) <==> cells.wet.dom().contains(c)
            &&& cells.order.no_duplicates()
        }),
{
    let n = meshes.len() as int;
    lemma_batch_faithful(meshes, pitch, n);
    assert forall|w: bool| #[trigger]
        met(meshes, pitch, n + 1, 0, 0, c, w) == some_cell_in(meshes, pitch, c, w) by {
        if met(meshes, pitch, n + 1, 0, 0, c, w) {
            let (m, i, j) = choose|m: int, x: int, y: int|
                {
                    &&& 0 <= m < n + 1
                    &&& meshes[m].has_cells()
                    &&& 0 <= x < meshes[m].across()
                    &&& 0 <= y < meshes[m].along()
                    &&& m == n + 1 - 1 ==> y < 0 || y == 0 && x < 0
                    &&& #[trigger] lattice_cell(meshes[m], pitch, x, y) == Some(c)
                    &&& w ==> meshes[m].is_wet(x, y)
                };
            assert(lattice_cell(meshes[m], pitch, i, j) == Some(c));
        }
    }
    assert(met(meshes, pitch, n + 1, 0, 0, c, true) == some_cell_in(meshes, pitch, c, true));
    assert(met(meshes, pitch, n + 1, 0, 0, c, false) == some_cell_in(meshes, pitch, c, false));
}

/// Whether more than half of the covered cells meeting at a lattice corner carry liquid.
pub open spec fn mostly_wet(cells: Cells, i: int, j: int) -> bool {
    2 * wet_at_corner(cells, i, j) > known_at_corner(cells, i, j)
}

/// A share of up to four cells, in steps: how it is reckoned, and when it is more than half.
proof fn lemma_share_of_cells(w: int, k: int)
    requires
        0 <= w <= k <= 4,
        0 < k,
    ensures
        (w * 0x1_0000_0000 * 0x1_0000_0000) / (k * 0x1_0000_0000) == (w * 0x1_0000_0000) / k,
        0 <= (w * 0x1_0000_0000) / k <= 0x1_0000_0000,
        (w * 0x1_0000_0000) / k > 0x8000_0000 <==> 2 * w > k,
{
    let top = w * 0x1_0000_0000 * 0x1_0000_0000;
    vstd::arithmetic::div_mod::lemma_div_denominator(top, 0x1_0000_0000, k);
    assert(top / 0x1_0000_0000 == w * 0x1_0000_0000);
    assert(k == 1 || k == 2 || k == 3 || k == 4);
}

proof fn lemma_mostly_wet_is_positive(cells: Cells, pitch: Fixed, i: int, j: int)
    requires
        known_at_corner(cells, i, j) > 0,
    ensures
        corner_sample(cells, pitch, i, j).positive() == mostly_wet(cells, i, j),
{
    let w = wet_at_corner(cells, i, j);
    let k = known_at_corner(cells, i, j);
    assert(0 <= w <= k <= 4);
    assert(int_of::<Fixed>(0).raw == 0);
    assert(int_of::<Fixed>(w).raw == w * ONE);
    assert(int_of::<Fixed>(k).raw == k * ONE);
    assert(Fixed::frac(1, 2).raw == ONE / 2);
    let q = int_of::<Fixed>(w) / int_of::<Fixed>(k);
    let top = w * 0x1_0000_0000 * 0x1_0000_0000;
    assert(int_of::<Fixed>(w).raw * ONE == top);
    lemma_share_of_cells(w, k);
    assert(top / (k * 0x1_0000_0000) == (w * 0x1_0000_0000) / k);
    assert(q == saturated(top / (k * 0x1_0000_0000)));
    let sample = corner_sample(cells, pitch, i, j);
    assert(wetness::<Fixed>(cells, i, j) == q);
    assert(sample.value == saturated(q.raw - 0x8000_0000));
    assert(q.raw > 0x8000_0000 <==> 2 * w > k);
}

/// The edge runs between corners that are mostly wet and corners that are not, and nowhere else: a
/// covered cell carries a piece of it exactly when its four corners disagree.
pub proof fn law_the_edge_parts_wet_from_dry(cells: Cells, pitch: Fixed, c: (int, int))
    requires
        cells.wet.dom().contains(c),
    ensures
        ({
            let a = mostly_wet(cells, c.0, c.1);
            cell_edge(cells, pitch, c).len() == 0 <==> (a == mostly_wet(cells, c.0 + 1, c.1) && a
                == mostly_wet(cells, c.0 + 1, c.1 + 1) && a == mostly_wet(cells, c.0, c.1 + 1))
        }),
{
    assert(covered(cells, c.0, c.1) == 1);
    lemma_mostly_wet_is_positive(cells, pitch, c.0, c.1);
    lemma_mostly_wet_is_positive(cells, pitch, c.0 + 1, c.1);
    lemma_mostly_wet_is_positive(cells, pitch, c.0 + 1, c.1 + 1);
    lemma_mostly_wet_is_positive(cells, pitch, c.0, c.1 + 1);
    law_a_line_parts_the_signs(
        corner_sample(cells, pitch, c.0, c.1),
        corner_sample(cells, pitch, c.0 + 1, c.1),
        corner_sample(cells, pitch, c.0 + 1, c.1 + 1),
        corner_sample(cells, pitch, c.0, c.1 + 1),
    );
}

/// Where a batch's covered cells end is not where its water ends: a batch that is wet wherever it
/// has a cell has no edge at all.
pub proof fn law_open_water_has_no_edge(cells: Cells, pitch: Fixed, n: int)
    requires
        forall|c: (int, int)| #[trigger] cells.wet.dom().contains(c) ==> cells.wet[c],
        forall|k: int|
            0 <= k < cells.order.len() ==> cells.wet.dom().contains(#[trigger] cells.order[k]),
        0 <= n <= cells.order.len(),
    ensures
        cells_edge(cells, pitch, n) == Seq::<Segment<Fixed>>::empty(),
    decreases n,
{
    if n > 0 {
        law_open_water_has_no_edge(cells, pitch, n - 1);
        let c = cells.order[n - 1];
        assert(cells.wet.dom().contains(c));
        law_the_edge_parts_wet_from_dry(cells, pitch, c);
        assert forall|i: int, j: int|
            #![trigger mostly_wet(cells, i, j)]
            known_at_corner(cells, i, j) > 0 implies mostly_wet(cells, i, j) by {
            assert(flooded(cells, i - 1, j - 1) == covered(cells, i - 1, j - 1));
            assert(flooded(cells, i, j - 1) == covered(cells, i, j - 1));
            assert(flooded(cells, i - 1, j) == covered(cells, i - 1, j));
            assert(flooded(cells, i, j) == covered(cells, i, j));
        }
        assert(covered(cells, c.0, c.1) == 1);
        assert(cells_edge(cells, pitch, n) =~= Seq::<Segment<Fixed>>::empty());
    }
}

} // verus!
