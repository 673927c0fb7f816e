//! What the survey of the water around an eye and the choice among it come to, in whole steps of the
//! exact numbers.

use vstd::prelude::*;

use crate::coverage::{lemma_along, short};
use crate::fixed::{saturated, Fixed};
use crate::frame::Frame;
use crate::geometry::{Vec2, Vec3};
use crate::plane::{
    ahead, chosen, depth_along, law_a_view_is_bounded, lowest_of, over, rankable, ranking,
    screen_share, sounded, wet_near, Bounds, Ranking, Sounding, Wet,
};
use crate::prominence::{
    best_of, counts, has_room, law_a_surface_adds_to_the_nearest, lemma_standing_is_one, ranked,
    same_bucket, standing, sticky_of, top_score, Slot, PROMINENCE_SLOTS,
};
use crate::scalar::{int_of, Scalar};

verus! {

/// A whole number, held between two others.
pub open spec fn held_between(n: int, lo: int, hi: int) -> int {
    if n < lo {
        lo
    } else if n > hi {
        hi
    } else {
        n
    }
}

/// The point of a footprint nearest the eye, where the eye is in the scene, seen from above in the
/// world: the world's first axis runs against the scene's third, and its second against the scene's
/// first.
pub open spec fn foot(b: Bounds<Fixed>, eye: Vec3<Fixed>) -> (int, int) {
    (
        held_between(-eye.z.raw, b.min.x.raw as int, b.max.x.raw as int),
        held_between(-eye.x.raw, b.min.y.raw as int, b.max.y.raw as int),
    )
}

/// The square of how far a point is from the eye, seen from above.
pub open spec fn off_squared(p: (int, int), eye: Vec3<Fixed>) -> int {
    (p.0 + eye.z.raw) * (p.0 + eye.z.raw) + (p.1 + eye.x.raw) * (p.1 + eye.x.raw)
}

/// Whether a footprint lies within sixteen thousand yards of an eye on either axis.
pub open spec fn in_the_country(b: Bounds<Fixed>, eye: Vec3<Fixed>) -> bool {
    &&& b.wf()
    &&& -0x4000_0000_0000 <= b.min.x.raw + eye.z.raw
    &&& b.max.x.raw + eye.z.raw <= 0x4000_0000_0000
    &&& -0x4000_0000_0000 <= b.min.y.raw + eye.x.raw
    &&& b.max.y.raw + eye.x.raw <= 0x4000_0000_0000
    &&& b.min.x.raw + eye.z.raw <= 0x4000_0000_0000
    &&& -0x4000_0000_0000 <= b.max.x.raw + eye.z.raw
    &&& b.min.y.raw + eye.x.raw <= 0x4000_0000_0000
    &&& -0x4000_0000_0000 <= b.max.y.raw + eye.x.raw
    &&& -0x1000_0000_0000_0000 <= eye.x.raw <= 0x1000_0000_0000_0000
    &&& -0x1000_0000_0000_0000 <= eye.z.raw <= 0x1000_0000_0000_0000
}

/// The square of a distance, rounded down a step for each axis.
proof fn lemma_square(x: Fixed, y: Fixed)
    requires
        -0x4000_0000_0000 <= x.raw <= 0x4000_0000_0000,
        -0x4000_0000_0000 <= y.raw <= 0x4000_0000_0000,
    ensures
        ({
            let (q, s) = ((Vec2 { x, y }).square().raw as int, x.raw * x.raw + y.raw * y.raw);
            q * 0x1_0000_0000 <= s < (q + 2) * 0x1_0000_0000
        }),
{
    lemma_one_square(x);
    lemma_one_square(y);
}

proof fn lemma_one_square(x: Fixed)
    requires
        -0x4000_0000_0000 <= x.raw <= 0x4000_0000_0000,
    ensures
        (x * x).raw * 0x1_0000_0000 <= x.raw * x.raw < ((x * x).raw + 1) * 0x1_0000_0000,
        0 <= (x * x).raw <= 0x1000_0000_0000_0000,
{
    let p = x.raw * x.raw;
    assert(0 <= p <= 0x1000_0000_0000_0000_0000_0000) by (nonlinear_arith)
        requires
            p == x.raw * x.raw,
            -0x4000_0000_0000 <= x.raw <= 0x4000_0000_0000,
    ;
    assert(x * x == saturated(p / 0x1_0000_0000));
}

/// A surface is sounded where the nearest point of its footprint is within reach of the eye, seen from
/// above, and it is near within a hundred and twenty yards, but for what the numbers round. The ground
/// it covers is its footprint's.
pub proof fn law_only_water_within_reach_is_sounded<F: Fn(usize, Vec2<Fixed>) -> Option<Fixed>>(
    surface_z: F,
    chunk: usize,
    b: Bounds<Fixed>,
    eye: Vec3<Fixed>,
    forward: Vec3<Fixed>,
    reach: Fixed,
    r: Option<Sounding<Fixed>>,
)
    requires
        sounded(surface_z, chunk, Some(b), eye, forward, reach, r),
        in_the_country(b, eye),
        0 <= reach.raw <= 0x4000_0000_0000,
    ensures
        off_squared(foot(b, eye), eye) >= reach.raw * reach.raw + 0x3_0000_0000 ==> r is None,
        r matches Some(s) ==> {
            &&& off_squared(foot(b, eye), eye) <= 0x78_0000_0000 * 0x78_0000_0000 ==> s.near
            &&& s.near ==> off_squared(foot(b, eye), eye) < 0x78_0000_0000 * 0x78_0000_0000
                + 0x2_0000_0000
            &&& s.area == saturated(
                ((b.max.x.raw - b.min.x.raw) * (b.max.y.raw - b.min.y.raw)) / 0x1_0000_0000,
            )
        },
{
    let p = over(eye);
    assert(p.x.raw == -eye.z.raw && p.y.raw == -eye.x.raw);
    let q = b.nearest(p);
    assert(q.x.raw == foot(b, eye).0 && q.y.raw == foot(b, eye).1);
    let d = q - p;
    assert(d.x.raw == foot(b, eye).0 + eye.z.raw);
    assert(d.y.raw == foot(b, eye).1 + eye.x.raw);
    lemma_square(d.x, d.y);
    lemma_one_square(reach);
    let near = int_of::<Fixed>(120);
    assert(near.raw == 0x78_0000_0000);
    lemma_one_square(near);
    assert((near * near).raw == 0x3840_0000_0000);
    assert(0x78_0000_0000int * 0x78_0000_0000 == 0x3840_0000_0000int * 0x1_0000_0000);
    assert((b.max.x - b.min.x).raw == b.max.x.raw - b.min.x.raw);
    assert((b.max.y - b.min.y).raw == b.max.y.raw - b.min.y.raw);
}

/// The answer of a surface is as far off as it says, seen from above: the square of the distance between
/// where it is and the eye, but for what the numbers round.
pub proof fn law_a_sounding_is_as_far_off_as_it_says<F: Fn(usize, Vec2<Fixed>) -> Option<Fixed>>(
    surface_z: F,
    chunk: usize,
    b: Bounds<Fixed>,
    p: Vec2<Fixed>,
    lattice: bool,
    w: Wet<Fixed>,
)
    requires
        wet_near(surface_z, chunk, b, p, lattice, Some(w)),
        -0x4000_0000_0000 <= w.at.x.raw - p.x.raw <= 0x4000_0000_0000,
        -0x4000_0000_0000 <= w.at.y.raw - p.y.raw <= 0x4000_0000_0000,
    ensures
        ({
            let (dx, dy) = (w.at.x.raw - p.x.raw, w.at.y.raw - p.y.raw);
            w.d2.raw * 0x1_0000_0000 <= dx * dx + dy * dy < (w.d2.raw + 2) * 0x1_0000_0000
        }),
{
    crate::fixed::law_fixed_is_strictly_ordered();
    crate::plane::law_the_answer_is_water_near(surface_z, chunk, b, p, lattice, Some(w));
    lemma_square(w.at.x - p.x, w.at.y - p.y);
}

/// The probes of a footprint are five by five, evenly spaced from corner to corner, column by column.
pub proof fn law_a_footprint_is_probed_evenly(b: Bounds<Fixed>, n: int)
    requires
        b.wf(),
        0 <= n < 25,
        -0x1000_0000_0000_0000 <= b.min.x.raw,
        b.max.x.raw < 0x1000_0000_0000_0000,
        -0x1000_0000_0000_0000 <= b.min.y.raw,
        b.max.y.raw < 0x1000_0000_0000_0000,
    ensures
        b.lattice_point(n).x.raw == b.min.x.raw + ((b.max.x.raw - b.min.x.raw) * (n / 5)) / 4,
        b.lattice_point(n).y.raw == b.min.y.raw + ((b.max.y.raw - b.min.y.raw) * (n % 5)) / 4,
{
    lemma_quarters(b.min.x, b.max.x, n / 5);
    lemma_quarters(b.min.y, b.max.y, n % 5);
}

proof fn lemma_quarters(lo: Fixed, hi: Fixed, i: int)
    requires
        -0x1000_0000_0000_0000 <= lo.raw <= hi.raw < 0x1000_0000_0000_0000,
        0 <= i <= 4,
    ensures
        (lo + (hi - lo) * int_of::<Fixed>(i) / int_of::<Fixed>(4)).raw == lo.raw + ((hi.raw - lo.raw)
            * i) / 4,
{
    let d = hi.raw - lo.raw;
    let p = d * i;
    assert((hi - lo).raw == d);
    assert(int_of::<Fixed>(i).raw == i * 0x1_0000_0000);
    assert(int_of::<Fixed>(4).raw == 0x4_0000_0000);
    assert(d * (i * 0x1_0000_0000) == p * 0x1_0000_0000) by (nonlinear_arith)
        requires
            p == d * i,
    ;
    assert((p * 0x1_0000_0000) / 0x1_0000_0000 == p);
    assert(0 <= p <= 4 * d) by (nonlinear_arith)
        requires
            p == d * i,
            0 <= d,
            0 <= i <= 4,
    ;
    let m = (hi - lo) * int_of::<Fixed>(i);
    assert(m.raw == p);
    let q = m / int_of::<Fixed>(4);
    assert((p * 0x1_0000_0000) / 0x4_0000_0000 == p / 4);
    assert(q.raw == p / 4);
}

/// Whether a corner of the ground has depth along a view, by more than the numbers round.
pub open spec fn corner_ahead(
    x: Fixed,
    y: Fixed,
    z: Fixed,
    eye: Vec3<Fixed>,
    forward: Vec3<Fixed>,
    least: int,
) -> bool {
    (-y.raw - eye.x.raw) * forward.x.raw + (z.raw - eye.y.raw) * forward.y.raw + (-x.raw - eye.z.raw)
        * forward.z.raw >= least
}

/// Whether a corner of the ground is within four million yards of an eye.
pub open spec fn corner_near(x: Fixed, y: Fixed, z: Fixed, eye: Vec3<Fixed>) -> bool {
    &&& -0x40_0000_0000_0000 <= -y.raw - eye.x.raw <= 0x40_0000_0000_0000
    &&& -0x40_0000_0000_0000 <= z.raw - eye.y.raw <= 0x40_0000_0000_0000
    &&& -0x40_0000_0000_0000 <= -x.raw - eye.z.raw <= 0x40_0000_0000_0000
    &&& i64::MIN < x.raw
    &&& i64::MIN < y.raw
}

proof fn lemma_depth(x: Fixed, y: Fixed, z: Fixed, eye: Vec3<Fixed>, forward: Vec3<Fixed>)
    requires
        corner_near(x, y, z, eye),
        short(forward),
    ensures
        ({
            let d = depth_along(Vec3 { x, y, z }, eye, forward).raw;
            &&& corner_ahead(x, y, z, eye, forward, 0x3_0000_0000) ==> 0 < d
            &&& 0 < d ==> corner_ahead(x, y, z, eye, forward, 1)
        }),
{
    let p = Vec3::<Fixed> { x: -y, y: z, z: -x };
    let v = p - eye;
    assert(v.x.raw == -y.raw - eye.x.raw);
    assert(v.y.raw == z.raw - eye.y.raw);
    assert(v.z.raw == -x.raw - eye.z.raw);
    lemma_along(v, forward);
}

/// Water is ahead where the eye stands over its footprint, or a corner of it at the water's height has
/// depth along the view; but for what the numbers round, and nowhere else.
pub proof fn law_water_is_ahead_by_a_corner_or_underfoot(
    b: Bounds<Fixed>,
    z: Fixed,
    eye: Vec3<Fixed>,
    forward: Vec3<Fixed>,
)
    requires
        short(forward),
        corner_near(b.min.x, b.min.y, z, eye),
        corner_near(b.max.x, b.min.y, z, eye),
        corner_near(b.min.x, b.max.y, z, eye),
        corner_near(b.max.x, b.max.y, z, eye),
        i64::MIN < eye.x.raw,
        i64::MIN < eye.z.raw,
    ensures
        ({
            let underfoot = b.min.x.raw <= -eye.z.raw <= b.max.x.raw && b.min.y.raw <= -eye.x.raw
                <= b.max.y.raw;
            &&& ({
                ||| underfoot
                ||| corner_ahead(b.min.x, b.min.y, z, eye, forward, 0x3_0000_0000)
                ||| corner_ahead(b.max.x, b.min.y, z, eye, forward, 0x3_0000_0000)
                ||| corner_ahead(b.min.x, b.max.y, z, eye, forward, 0x3_0000_0000)
                ||| corner_ahead(b.max.x, b.max.y, z, eye, forward, 0x3_0000_0000)
            }) ==> ahead(b, z, eye, forward)
            &&& ahead(b, z, eye, forward) ==> {
                ||| underfoot
                ||| corner_ahead(b.min.x, b.min.y, z, eye, forward, 1)
                ||| corner_ahead(b.max.x, b.min.y, z, eye, forward, 1)
                ||| corner_ahead(b.min.x, b.max.y, z, eye, forward, 1)
                ||| corner_ahead(b.max.x, b.max.y, z, eye, forward, 1)
            }
        }),
{
    assert(int_of::<Fixed>(0).raw == 0);
    lemma_depth(b.min.x, b.min.y, z, eye, forward);
    lemma_depth(b.max.x, b.min.y, z, eye, forward);
    lemma_depth(b.min.x, b.max.y, z, eye, forward);
    lemma_depth(b.max.x, b.max.y, z, eye, forward);
}

/// Heights within half a yard of each other are one body of water's, and others are not.
pub proof fn law_heights_within_half_a_yard_are_one_bodys(a: Fixed, b: Fixed)
    requires
        -0x1000_0000_0000_0000 <= a.raw <= 0x1000_0000_0000_0000,
        -0x1000_0000_0000_0000 <= b.raw <= 0x1000_0000_0000_0000,
    ensures
        same_bucket(a, b) <==> -0x8000_0000 <= a.raw - b.raw <= 0x8000_0000,
{
    assert(Fixed::frac(1, 2).raw == 0x8000_0000);
}

/// The greatest score is that of one of the heights, or nothing, and none is greater.
pub proof fn law_the_greatest_score_is_one_of_them(slots: Seq<Slot<Fixed>>, n: int)
    requires
        0 <= n <= slots.len(),
    ensures
        0 <= top_score(slots, n).raw,
        forall|i: int| 0 <= i < n ==> (#[trigger] slots[i]).score.raw <= top_score(slots, n).raw,
        top_score(slots, n).raw == 0 || exists|i: int|
            0 <= i < n && (#[trigger] slots[i]).score == top_score(slots, n),
    decreases n,
{
    assert(int_of::<Fixed>(0).raw == 0);
    if n > 0 {
        law_the_greatest_score_is_one_of_them(slots, n - 1);
        if top_score(slots, n - 1).raw < slots[n - 1].score.raw {
            assert(slots[n - 1].score == top_score(slots, n));
        } else if top_score(slots, n - 1).raw != 0 {
            let i = choose|i: int|
                0 <= i < n - 1 && (#[trigger] slots[i]).score == top_score(slots, n - 1);
            assert(slots[i].score == top_score(slots, n));
        }
    }
}

/// A plane in use is given up only to one that scores half as much again: while the height it is at is
/// in view, it is kept exactly where twice the greatest score is at most three times its own.
pub proof fn law_a_challenger_needs_half_as_much_again(slots: Seq<Slot<Fixed>>, held: Fixed)
    requires
        standing(slots, held, 0) matches Some(s) && -0x1000_0000_0000_0000 <= s.score.raw
            <= 0x1000_0000_0000_0000,
    ensures
        ({
            let s = standing(slots, held, 0)->Some_0;
            let top = top_score(slots, slots.len() as int).raw;
            &&& 2 * top <= 3 * s.score.raw ==> sticky_of(slots, Some(held)) == Some(s.z)
            &&& 2 * top > 3 * s.score.raw ==> sticky_of(slots, Some(held)) == best_of(slots)
            &&& same_bucket(s.z, held)
        }),
{
    let s = standing(slots, held, 0)->Some_0;
    lemma_standing_is_one(slots, held, 0);
    crate::prominence::law_a_view_with_water_has_a_plane(slots, Some(held));
    let bar = Fixed::frac(15, 10);
    assert(bar.raw == 6442450944);
    let p = s.score.raw * bar.raw;
    assert(p == 6442450944 * s.score.raw) by (nonlinear_arith)
        requires
            p == s.score.raw * bar.raw,
            bar.raw == 6442450944,
    ;
    assert(p / 0x1_0000_0000 == (3 * s.score.raw) / 2);
    assert((s.score * bar).raw == (3 * s.score.raw) / 2);
}

/// Whether a height has a tenth of the greatest score, as the numbers round it.
pub open spec fn has_a_share(slot: Slot<Fixed>, top: Fixed) -> bool {
    slot.score.raw >= (top.raw * 429496729) / 0x1_0000_0000
}

/// The lowest water is that of the plane or of a height in view with a tenth of the greatest score, and
/// none of those is lower.
pub proof fn law_the_lowest_water_has_a_share(rank: Ranking<Fixed>, held: Option<Fixed>)
    ensures
        chosen(rank, held) matches Some(p) ==> {
            let top = top_score(rank.slots, rank.slots.len() as int);
            &&& p.lowest.raw <= p.plane.raw
            &&& forall|i: int|
                0 <= i < rank.slots.len() && has_a_share(#[trigger] rank.slots[i], top)
                    ==> p.lowest.raw <= rank.slots[i].z.raw
            &&& p.lowest == p.plane || exists|i: int|
                0 <= i < rank.slots.len() && has_a_share(#[trigger] rank.slots[i], top) && p.lowest
                    == rank.slots[i].z
        },
{
    if let Some(p) = chosen(rank, held) {
        let n = rank.slots.len() as int;
        let top = top_score(rank.slots, n);
        let tenth = Fixed::frac(10, 100);
        assert(tenth.raw == 429496729);
        law_the_greatest_score_is_one_of_them(rank.slots, n);
        let bar = top * tenth;
        let q = top.raw * tenth.raw;
        assert(q == top.raw * 429496729) by (nonlinear_arith)
            requires
                q == top.raw * tenth.raw,
                tenth.raw == 429496729,
        ;
        assert(bar.raw == (top.raw * 429496729) / 0x1_0000_0000);
        lemma_lowest_share(rank.slots, p.plane, bar, n);
        assert forall|i: int|
            0 <= i < rank.slots.len() && has_a_share(#[trigger] rank.slots[i], top) implies p.lowest.raw
            <= rank.slots[i].z.raw by {
            assert(rank.slots[i].score.raw >= bar.raw);
        }
        if p.lowest != p.plane {
            let i = choose|i: int|
                0 <= i < n && (#[trigger] rank.slots[i]).score.raw >= bar.raw && p.lowest
                    == rank.slots[i].z;
            assert(has_a_share(rank.slots[i], top));
        }
    }
}

proof fn lemma_lowest_share(slots: Seq<Slot<Fixed>>, plane: Fixed, bar: Fixed, n: int)
    requires
        0 <= n <= slots.len(),
    ensures
        ({
            let low = lowest_of(slots, plane, bar, n);
            &&& low.raw <= plane.raw
            &&& forall|i: int|
                0 <= i < n && (#[trigger] slots[i]).score.raw >= bar.raw ==> low.raw
                    <= slots[i].z.raw
            &&& low == plane || exists|i: int|
                0 <= i < n && (#[trigger] slots[i]).score.raw >= bar.raw && low == slots[i].z
        }),
    decreases n,
{
    if n > 0 {
        lemma_lowest_share(slots, plane, bar, n - 1);
        let (before, low) = (
            lowest_of(slots, plane, bar, n - 1),
            lowest_of(slots, plane, bar, n),
        );
        if low != before {
            assert(slots[n - 1].score.raw >= bar.raw && low == slots[n - 1].z);
        } else if low != plane {
            let i = choose|i: int|
                0 <= i < n - 1 && (#[trigger] slots[i]).score.raw >= bar.raw && before == slots[i].z;
            assert(slots[i].score.raw >= bar.raw && low == slots[i].z);
        }
    }
}

/// A surface within reach is sounded where it is wet near the eye, and looked for over its whole footprint
/// only where it is near; it is ahead as it stands at the height found. Within reach nothing is found
/// only where no such water is.
pub proof fn law_a_surface_is_sounded_where_it_is_wet<F: Fn(usize, Vec2<Fixed>) -> Option<Fixed>>(
    surface_z: F,
    chunk: usize,
    b: Bounds<Fixed>,
    eye: Vec3<Fixed>,
    forward: Vec3<Fixed>,
    reach: Fixed,
    r: Option<Sounding<Fixed>>,
)
    requires
        sounded(surface_z, chunk, Some(b), eye, forward, reach, r),
        in_the_country(b, eye),
        0 <= reach.raw <= 0x4000_0000_0000,
    ensures
        ({
            let from = Vec2 {
                x: Fixed { raw: (-eye.z.raw) as i64 },
                y: Fixed { raw: (-eye.x.raw) as i64 },
            };
            let off = off_squared(foot(b, eye), eye);
            &&& r matches Some(s) ==> {
                &&& wet_near(surface_z, chunk, b, from, s.near, Some(s.wet))
                &&& s.ahead == ahead(b, s.wet.z, eye, forward)
            }
            &&& r is None && off + 0x1_0000_0000 <= reach.raw * reach.raw ==> {
                &&& off <= 0x78_0000_0000 * 0x78_0000_0000 ==> wet_near(
                    surface_z,
                    chunk,
                    b,
                    from,
                    true,
                    None,
                )
                &&& off >= 0x78_0000_0000 * 0x78_0000_0000 + 0x2_0000_0000 ==> wet_near(
                    surface_z,
                    chunk,
                    b,
                    from,
                    false,
                    None,
                )
            }
        }),
{
    let p = over(eye);
    assert(p.x.raw == -eye.z.raw && p.y.raw == -eye.x.raw);
    let q = b.nearest(p);
    assert(q.x.raw == foot(b, eye).0 && q.y.raw == foot(b, eye).1);
    let d = q - p;
    assert(d.x.raw == foot(b, eye).0 + eye.z.raw);
    assert(d.y.raw == foot(b, eye).1 + eye.x.raw);
    lemma_square(d.x, d.y);
    lemma_one_square(reach);
    let near = int_of::<Fixed>(120);
    assert(near.raw == 0x78_0000_0000);
    lemma_one_square(near);
    assert((near * near).raw == 0x3840_0000_0000);
    assert(0x78_0000_0000int * 0x78_0000_0000 == 0x3840_0000_0000int * 0x1_0000_0000);
    if r is None && off_squared(foot(b, eye), eye) + 0x1_0000_0000 <= reach.raw * reach.raw {
        let w = choose|w: Option<Wet<Fixed>>| #[trigger]
            wet_near(surface_z, chunk, b, p, d.square() <= near * near, w) && r == match w {
                Some(wet) => Some(
                    Sounding {
                        wet,
                        near: d.square() <= near * near,
                        ahead: ahead(b, wet.z, eye, forward),
                        area: b.area(),
                    },
                ),
                None => None,
            };
        assert(w is None);
    }
}

/// All the scores of a ranking together, in whole steps.
pub open spec fn total(slots: Seq<Slot<Fixed>>) -> int
    decreases slots.len(),
{
    if slots.len() == 0 {
        0
    } else {
        total(slots.drop_last()) + slots.last().score.raw
    }
}

/// All that the first `n` surfaces cover of the screen together, in whole steps.
pub open spec fn covered_by(
    soundings: Seq<Option<Sounding<Fixed>>>,
    eye: Vec3<Fixed>,
    frame: Frame<Fixed>,
    reach: Fixed,
    n: int,
) -> int
    decreases n,
{
    if n <= 0 {
        0
    } else {
        covered_by(soundings, eye, frame, reach, n - 1) + match soundings[n - 1] {
            Some(s) => match screen_share(s, eye, frame, reach) {
                Some(share) => if share.raw > 0 {
                    share.raw as int
                } else {
                    0
                },
                None => 0,
            },
            None => 0,
        }
    }
}

proof fn lemma_total_of_update(slots: Seq<Slot<Fixed>>, k: int, s: Slot<Fixed>)
    requires
        0 <= k < slots.len(),
    ensures
        total(slots.update(k, s)) == total(slots) - slots[k].score.raw + s.score.raw,
    decreases slots.len(),
{
    let after = slots.update(k, s);
    if k == slots.len() - 1 {
        assert(after.drop_last() =~= slots.drop_last());
    } else {
        assert(after.drop_last() =~= slots.drop_last().update(k, s));
        lemma_total_of_update(slots.drop_last(), k, s);
    }
}

proof fn lemma_total_is_most(slots: Seq<Slot<Fixed>>, k: int)
    requires
        0 <= k < slots.len(),
        forall|i: int| 0 <= i < slots.len() ==> (#[trigger] slots[i]).score.raw >= 0,
    ensures
        slots[k].score.raw <= total(slots),
        0 <= total(slots),
    decreases slots.len(),
{
    let rest = slots.drop_last();
    assert forall|i: int| 0 <= i < rest.len() implies (#[trigger] rest[i]).score.raw >= 0 by {
        assert(rest[i] == slots[i]);
    }
    assert(slots.last() == slots[slots.len() - 1]);
    if rest.len() == 0 {
        assert(total(rest) == 0);
    } else {
        if k < rest.len() {
            lemma_total_is_most(rest, k);
        } else {
            lemma_total_is_most(rest, 0);
        }
    }
}

proof fn lemma_ranked_total(slots: Seq<Slot<Fixed>>, z: Fixed, score: Fixed)
    requires
        counts(score) ==> has_room(slots, z),
        slots.len() <= PROMINENCE_SLOTS,
        forall|i: int| 0 <= i < slots.len() ==> (#[trigger] slots[i]).score.raw >= 0,
        total(slots) + score.raw <= i64::MAX,
    ensures
        total(ranked(slots, z, score)) == total(slots) + if score.raw > 0 {
            score.raw as int
        } else {
            0
        },
        forall|i: int|
            0 <= i < ranked(slots, z, score).len() ==> (#[trigger] ranked(slots, z, score)[i]).score.raw
                >= 0,
{
    let after = ranked(slots, z, score);
    assert(int_of::<Fixed>(0).raw == 0);
    if score.raw > 0 {
        assert(counts(score));
        crate::fixed::law_fixed_is_strictly_ordered();
        law_a_surface_adds_to_the_nearest(slots, z, score);
        if after == slots.push(Slot { z, score }) {
            assert(after.drop_last() =~= slots);
        } else {
            let k = choose|k: int|
                0 <= k < slots.len() && after == slots.update(
                    k,
                    Slot { z: slots[k].z, score: #[trigger] slots[k].score + score },
                );
            lemma_total_is_most(slots, k);
            lemma_total_of_update(slots, k, Slot { z: slots[k].z, score: slots[k].score + score });
        }
    }
}

/// No share of the screen is lost: the scores that a view is ranked by come to all that its surfaces
/// cover together.
pub proof fn law_no_share_is_lost(
    soundings: Seq<Option<Sounding<Fixed>>>,
    eye: Vec3<Fixed>,
    frame: Frame<Fixed>,
    reach: Fixed,
    n: int,
)
    requires
        0 <= n <= soundings.len(),
        rankable(soundings, eye, frame, reach, n),
        covered_by(soundings, eye, frame, reach, n) <= i64::MAX,
    ensures
        total(ranking(soundings, eye, frame, reach, n).slots) == covered_by(
            soundings,
            eye,
            frame,
            reach,
            n,
        ),
        forall|i: int|
            0 <= i < ranking(soundings, eye, frame, reach, n).slots.len() ==> (
            #[trigger] ranking(soundings, eye, frame, reach, n).slots[i]).score.raw >= 0,
        0 <= covered_by(soundings, eye, frame, reach, n),
    decreases n,
{
    if n > 0 {
        law_no_share_is_lost(soundings, eye, frame, reach, n - 1);
        law_a_view_is_bounded(soundings, eye, frame, reach, n - 1);
        let before = ranking(soundings, eye, frame, reach, n - 1).slots;
        if let Some(s) = soundings[n - 1] {
            if let Some(share) = screen_share(s, eye, frame, reach) {
                lemma_ranked_total(before, s.wet.z, share);
            }
        }
    }
}

} // verus!
