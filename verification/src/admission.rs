//! What is always taken in: surfaces whose data is whole, windows on the map, and heights that are
//! numbers one meets.

use vstd::prelude::*;

use crate::fixed::Fixed;
use crate::frame::Frame;
use crate::geometry::{Vec2, Vec3};
use crate::liquid_mesh::{level_of, LiquidMesh};
use crate::plane::{law_a_view_is_bounded, rankable, ranking, screen_share, Sounding};
use crate::prominence::{counts, has_room, ranked, Slot};
use crate::ripple_sim::{corner_for, RippleSim};
use crate::scalar::{int_of, Scalar};
use crate::surface::{cell_corners, drawable, drawn_level, row_corners, rows_corners, Shores};
use crate::ties::{law_the_first_of_the_nearest_heights, plain};
use crate::window::law_the_window_is_centred;

verus! {

/// Whether a surface's data is whole: a position, a place on the sheet and a depth for every point, and
/// a word on every cell.
pub open spec fn whole(mesh: LiquidMesh<Fixed>) -> bool {
    let (cols, rows) = (mesh.grid@[0] as int, mesh.grid@[1] as int);
    &&& 2 <= cols
    &&& 2 <= rows
    &&& mesh.positions@.len() == cols * rows
    &&& mesh.uvs@.len() == cols * rows
    &&& mesh.depths@.len() == cols * rows
    &&& mesh.wet@.len() == (cols - 1) * (rows - 1)
}

/// A surface whose data is whole can be drawn, wherever the shore is, up to fifty-three million points.
pub proof fn law_a_whole_surface_can_be_drawn(mesh: LiquidMesh<Fixed>, shores: Option<Shores<Fixed>>)
    requires
        whole(mesh),
        mesh.grid@[0] * mesh.grid@[1] <= 53_000_000,
    ensures
        drawable(mesh, shores),
{
    let (cols, rows) = (mesh.grid@[0] as int, mesh.grid@[1] as int);
    assert(cols <= 53_000_000 && rows <= 53_000_000) by (nonlinear_arith)
        requires
            cols * rows <= 53_000_000,
            2 <= cols,
            2 <= rows,
    ;
    assert forall|i: int, j: int|
        0 <= i < mesh.across() && 0 <= j < mesh.along() && #[trigger] mesh.is_wet(i, j) implies {
        &&& mesh.point(i + 1, j + 1) < mesh.uvs@.len()
        &&& mesh.point(i + 1, j + 1) < mesh.depths@.len()
    } by {
        assert((j + 1) * cols + (i + 1) < cols * rows) by (nonlinear_arith)
            requires
                0 <= i < cols - 1,
                0 <= j < rows - 1,
        ;
    }
    lemma_rows_are_few(mesh, shores, mesh.along());
    assert((cols - 1) * (rows - 1) <= cols * rows) by (nonlinear_arith)
        requires
            2 <= cols,
            2 <= rows,
    ;
    assert(81 * ((rows - 1) * (cols - 1)) == 81 * ((cols - 1) * (rows - 1))) by (nonlinear_arith);
}

proof fn lemma_row_is_few(
    mesh: LiquidMesh<Fixed>,
    shores: Option<Shores<Fixed>>,
    j: int,
    n: int,
)
    requires
        0 <= n,
    ensures
        row_corners(mesh, shores, j, n) <= 81 * n,
    decreases n,
{
    if n > 0 {
        lemma_row_is_few(mesh, shores, j, n - 1);
        assert(cell_corners(mesh, shores, n - 1, j) <= 81);
    }
}

proof fn lemma_rows_are_few(mesh: LiquidMesh<Fixed>, shores: Option<Shores<Fixed>>, n: int)
    requires
        0 <= n,
    ensures
        rows_corners(mesh, shores, n) <= 81 * (n * mesh.across()),
    decreases n,
{
    let w = mesh.across();
    if n > 0 {
        lemma_rows_are_few(mesh, shores, n - 1);
        lemma_row_is_few(mesh, shores, n - 1, w);
        assert(n * w == (n - 1) * w + w) by (nonlinear_arith);
    } else {
        assert(0 * w == 0);
    }
}

/// The points of a surface that has no height at all stand at nothing.
pub proof fn law_no_height_at_all_is_nothing(mesh: LiquidMesh<Fixed>)
    ensures
        level_of(mesh.positions@) is None ==> drawn_level(mesh).raw == 0,
        level_of(mesh.positions@) matches Some(level) ==> drawn_level(mesh) == level,
{
    assert(int_of::<Fixed>(0).raw == 0);
}

/// A window can be carried from anywhere to anywhere within sixty-seven million yards of the origin.
pub proof fn law_a_window_can_be_carried_anywhere(sim: RippleSim<Fixed>, centre: Vec2<Fixed>)
    requires
        -0x400_0000_0000_0000 <= centre.x.raw <= 0x400_0000_0000_0000,
        -0x400_0000_0000_0000 <= centre.y.raw <= 0x400_0000_0000_0000,
        sim.placed ==> -0x4000_0000 <= sim.origin_x <= 0x4000_0000,
        sim.placed ==> -0x4000_0000 <= sim.origin_y <= 0x4000_0000,
    ensures
        sim.reachable(centre),
        -0x4000_0000 <= corner_for(centre.x) <= 0x4000_0000,
        -0x4000_0000 <= corner_for(centre.y) <= 0x4000_0000,
{
    law_the_window_is_centred(centre.x);
    law_the_window_is_centred(centre.y);
}

/// Any heights within two hundred and fifty million yards can be ranked, in any order and however many.
pub proof fn law_plain_heights_can_be_ranked(
    soundings: Seq<Option<Sounding<Fixed>>>,
    eye: Vec3<Fixed>,
    frame: Frame<Fixed>,
    reach: Fixed,
    n: int,
)
    requires
        0 <= n <= soundings.len(),
        forall|i: int|
            0 <= i < soundings.len() ==> ((#[trigger] soundings[i]) matches Some(s) ==> plain(s.wet.z)),
    ensures
        rankable(soundings, eye, frame, reach, n),
        forall|i: int|
            0 <= i < ranking(soundings, eye, frame, reach, n).slots.len() ==> plain(
                (#[trigger] ranking(soundings, eye, frame, reach, n).slots[i]).z,
            ),
    decreases n,
{
    if n > 0 {
        law_plain_heights_can_be_ranked(soundings, eye, frame, reach, n - 1);
        law_a_view_is_bounded(soundings, eye, frame, reach, n - 1);
        let before = ranking(soundings, eye, frame, reach, n - 1).slots;
        if let Some(s) = soundings[n - 1] {
            if let Some(score) = screen_share(s, eye, frame, reach) {
                lemma_room(before, s.wet.z, score);
            }
        }
    }
}

proof fn lemma_room(slots: Seq<Slot<Fixed>>, z: Fixed, score: Fixed)
    requires
        slots.len() <= 12,
        plain(z),
        forall|i: int| 0 <= i < slots.len() ==> plain((#[trigger] slots[i]).z),
    ensures
        counts(score) ==> has_room(slots, z),
        forall|i: int|
            0 <= i < ranked(slots, z, score).len() ==> plain((#[trigger] ranked(slots, z, score)[i]).z),
{
    law_the_first_of_the_nearest_heights(slots, z, slots.len() as int);
    assert(Fixed::frac(1, 2).raw == 0x8000_0000);
}

} // verus!
