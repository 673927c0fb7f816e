//! What a body does to the water it wades through, in whole steps of the exact numbers: a ring for
//! every seven tenths of a yard it travels, born a little ahead of it.

use vstd::prelude::*;

use crate::aim::{aimed, away_squared, law_a_push_reaches_no_further};
use crate::fixed::{saturated, Fixed};
use crate::geometry::{Vec2, Vec3};
use crate::outline::law_a_length_is_of_both_parts;
use crate::ripple_sim::{corner_of, on_lattice, push_at, Disc};
use crate::scalar::{int_of, Scalar};
use crate::wake::{
    bodies_of, distinct, ids_of, memory_after, push_min_depth, push_radius, recalled, remembered, ring,
    ring_due, shed, step_of, struck, time_with_frame, waders, window_centre, window_lanes, Body, Memory,
    Pulse, WakeScene,
};

verus! {

/// How far a body has come from above since it was last seen, along the scene's first axis and its
/// third: nowhere when it is new.
pub open spec fn travel(m: Memory<Fixed>, body: Body<Fixed>) -> (int, int) {
    if m.was.dom().contains(body.id) {
        (
            body.at.x.raw - m.was[body.id].x.raw,
            body.at.z.raw - m.was[body.id].z.raw,
        )
    } else {
        (0, 0)
    }
}

/// Whether a body has come less than sixteen thousand yards along either axis.
pub open spec fn came_by_land(m: Memory<Fixed>, body: Body<Fixed>) -> bool {
    &&& -0x4000_0000_0000 <= travel(m, body).0 <= 0x4000_0000_0000
    &&& -0x4000_0000_0000 <= travel(m, body).1 <= 0x4000_0000_0000
}

/// The share of a ring a body has earned.
pub open spec fn earned_before(m: Memory<Fixed>, body: Body<Fixed>) -> int {
    if m.credit.dom().contains(body.id) {
        m.credit[body.id].raw as int
    } else {
        0
    }
}

proof fn lemma_travel(m: Memory<Fixed>, body: Body<Fixed>)
    requires
        came_by_land(m, body),
    ensures
        step_of(m, body).x.raw == travel(m, body).0,
        step_of(m, body).y.raw == travel(m, body).1,
{
    assert(int_of::<Fixed>(0).raw == 0);
}

/// A body earns a ring for every seven tenths of a yard it travels, as seen from above: going up or
/// down earns nothing, and neither does less than a thousandth of a yard a frame. It sheds one as soon
/// as it has earned it, keeps what it earned over, and never keeps more than one.
pub proof fn law_a_ring_is_earned_by_travel(m: Memory<Fixed>, body: Body<Fixed>) -> (len: int)
    requires
        came_by_land(m, body),
        -0x1000_0000_0000_0000 <= earned_before(m, body) <= 0x1000_0000_0000_0000,
    ensures
        ({
            let (dx, dz) = travel(m, body);
            let e = earned_before(m, body) + (len * 0x1_0000_0000) / 3006477107;
            let after = remembered(m, body);
            &&& 0 <= len
            &&& len * len <= dx * dx + dz * dz
            &&& dx * dx + dz * dz < (len + 1) * (len + 1) + 0x2_0000_0000
            &&& ring_due(m, body) <==> len > 4294967 && e >= 0x1_0000_0000
            &&& len <= 4294967 ==> after.credit == m.credit
            &&& len > 4294967 && e < 0x1_0000_0000 ==> after.credit == m.credit.insert(
                body.id,
                Fixed { raw: e as i64 },
            ) && i64::MIN <= e <= i64::MAX
            &&& len > 4294967 && 0x1_0000_0000 <= e <= 0x2_0000_0000 ==> after.credit
                == m.credit.insert(body.id, Fixed { raw: (e - 0x1_0000_0000) as i64 })
            &&& len > 4294967 && 0x2_0000_0000 <= e ==> after.credit == m.credit.insert(
                body.id,
                Fixed { raw: 0x1_0000_0000 },
            )
            &&& after.was == m.was.insert(body.id, body.at)
        }),
{
    lemma_travel(m, body);
    let step = step_of(m, body);
    law_a_length_is_of_both_parts(step);
    let len = step.measure().raw as int;
    assert(Fixed::frac(1, 1000).raw == 4294967);
    let stride = Fixed::frac(7, 10);
    assert(stride.raw == 3006477107);
    assert(int_of::<Fixed>(0).raw == 0);
    assert(int_of::<Fixed>(1).raw == 0x1_0000_0000);
    assert(len <= 0x8000_0000_0000) by {
        lemma_no_longer(step, len);
    }
    let strides = step.measure() / stride;
    assert(strides.raw == (len * 0x1_0000_0000) / 3006477107);
    len
}

proof fn lemma_no_longer(v: Vec2<Fixed>, len: int)
    requires
        -0x4000_0000_0000 <= v.x.raw <= 0x4000_0000_0000,
        -0x4000_0000_0000 <= v.y.raw <= 0x4000_0000_0000,
        0 <= len,
        len * len <= v.x.raw * v.x.raw + v.y.raw * v.y.raw,
    ensures
        len <= 0x8000_0000_0000,
{
    let (p, q) = (v.x.raw * v.x.raw, v.y.raw * v.y.raw);
    assert(p <= 0x1000_0000_0000_0000_0000_0000) by (nonlinear_arith)
        requires
            p == v.x.raw * v.x.raw,
            -0x4000_0000_0000 <= v.x.raw <= 0x4000_0000_0000,
    ;
    assert(q <= 0x1000_0000_0000_0000_0000_0000) by (nonlinear_arith)
        requires
            q == v.y.raw * v.y.raw,
            -0x4000_0000_0000 <= v.y.raw <= 0x4000_0000_0000,
    ;
    if len > 0x8000_0000_0000 {
        assert(len * len > 0x4000_0000_0000_0000_0000_0000) by (nonlinear_arith)
            requires
                len > 0x8000_0000_0000,
        ;
    }
}

/// A ring is born fifty five hundredths of a yard ahead of its body, the way the body went: along either
/// axis that distance is the share of it that the body's travel along the axis is of all its travel,
/// but for what rounding down takes. It is three hundredths of what the depth allows.
pub proof fn law_a_ring_is_born_ahead(step: Vec2<Fixed>, at: Vec3<Fixed>, reach: Fixed)
    requires
        -0x4000_0000_0000 <= step.x.raw <= 0x4000_0000_0000,
        -0x4000_0000_0000 <= step.y.raw <= 0x4000_0000_0000,
        0x1_0000 <= step.measure().raw,
        -0x1000_0000_0000_0000 <= at.x.raw <= 0x1000_0000_0000_0000,
        -0x1000_0000_0000_0000 <= at.z.raw <= 0x1000_0000_0000_0000,
        -0x1000_0000_0000_0000 <= reach.raw <= 0x1000_0000_0000_0000,
    ensures
        ({
            let r = ring(step, at, reach);
            let (ex, ez) = (r.at.x.raw - at.x.raw, r.at.y.raw - at.z.raw);
            let (len, bow) = (step.measure().raw as int, 2362232012int);
            &&& ex * len <= bow * step.x.raw <= (ex + 2) * len
            &&& ez * len <= bow * step.y.raw <= (ez + 2) * len
            &&& r.amount.raw * 0x1_0000_0000 <= 128849018 * reach.raw < (r.amount.raw + 1)
                * 0x1_0000_0000
        }),
{
    let len = step.measure();
    let bow = Fixed::frac(55, 100);
    assert(bow.raw == 2362232012);
    lemma_ahead(step.x, len);
    lemma_ahead(step.y, len);
    let hard = Fixed::frac(30, 1000);
    assert(hard.raw == 128849018);
    let p = hard.raw * reach.raw;
    assert(p == 128849018 * reach.raw) by (nonlinear_arith)
        requires
            p == hard.raw * reach.raw,
            hard.raw == 128849018,
    ;
    assert(hard * reach == saturated(p / 0x1_0000_0000));
}

proof fn lemma_ahead(s: Fixed, len: Fixed)
    requires
        -0x4000_0000_0000 <= s.raw <= 0x4000_0000_0000,
        0x1_0000 <= len.raw,
    ensures
        ({
            let e = (s / len * Fixed::frac(55, 100)).raw;
            &&& e * len.raw <= 2362232012 * s.raw <= (e + 2) * len.raw
            &&& -0x4000_0000_0000_0000 <= e <= 0x4000_0000_0000_0000
        }),
{
    let bow = Fixed::frac(55, 100);
    assert(bow.raw == 2362232012);
    let (n, l) = (s.raw * 0x1_0000_0000, len.raw as int);
    let q = n / l;
    let r = n % l;
    vstd::arithmetic::div_mod::lemma_fundamental_div_mod(n, l);
    vstd::arithmetic::div_mod::lemma_mod_bound(n, l);
    assert(-0x4000_0000_0000_0001 <= q <= 0x4000_0000_0000_0000) by (nonlinear_arith)
        requires
            n == l * q + r,
            0 <= r < l,
            0x1_0000 <= l,
            -0x4000_0000_0000_0000_0000 <= n <= 0x4000_0000_0000_0000_0000,
    ;
    let unit = s / len;
    assert(unit.raw == q);
    let p = q * 2362232012;
    assert(unit.raw * bow.raw == p) by (nonlinear_arith)
        requires
            p == q * 2362232012,
            unit.raw == q,
            bow.raw == 2362232012,
    ;
    let e = p / 0x1_0000_0000;
    let t = p % 0x1_0000_0000;
    assert((unit * bow).raw == e);
    assert((2362232012 * s.raw - e * l) * 0x1_0000_0000 == 2362232012 * r + t * l)
        by (nonlinear_arith)
        requires
            s.raw * 0x1_0000_0000 == l * q + r,
            q * 2362232012 == 0x1_0000_0000 * e + t,
    ;
    assert(0 <= t * l <= l * 0x1_0000_0000) by (nonlinear_arith)
        requires
            0 <= t <= 0x1_0000_0000,
            0 < l,
    ;
    assert((e + 2) * l == e * l + 2 * l) by (nonlinear_arith);
}

/// A ring is shed only when one is due, over water at least thirty five hundredths of a yard deep, by a
/// body that disturbs water so deep; and then it is shed, as strong as the body disturbs it.
pub proof fn law_a_ring_needs_water<
    D: Fn(Vec3<Fixed>) -> Option<Fixed>,
    G: Fn(Fixed, Fixed) -> Option<Fixed>,
>(
    m: Memory<Fixed>,
    body: Body<Fixed>,
    depth_at: D,
    strength: G,
    r: Option<Pulse<Fixed>>,
)
    requires
        shed(m, body, depth_at, strength, r),
    ensures
        r is Some ==> ring_due(m, body) && exists|d: Fixed, s: Fixed|
            {
                &&& #[trigger] call_ensures(depth_at, (body.at,), Some(d))
                &&& d.raw >= 1503238553
                &&& #[trigger] call_ensures(strength, (body.height, d), Some(s))
                &&& r == Some(ring(step_of(m, body), body.at, s))
            },
        r is None && ring_due(m, body) ==> {
            ||| call_ensures(depth_at, (body.at,), None)
            ||| exists|d: Fixed| #[trigger]
                call_ensures(depth_at, (body.at,), Some(d)) && d.raw < 1503238553
            ||| exists|d: Fixed| #[trigger]
                call_ensures(depth_at, (body.at,), Some(d)) && call_ensures(
                    strength,
                    (body.height, d),
                    None,
                )
        },
{
    assert(Fixed::frac(35, 100).raw == 1503238553);
    if ring_due(m, body) {
        let depth = choose|depth: Option<Fixed>| #[trigger]
            call_ensures(depth_at, (body.at,), depth) && match depth {
                None => r is None,
                Some(d) => if d < push_min_depth::<Fixed>() {
                    r is None
                } else {
                    exists|reach: Option<Fixed>| #[trigger]
                        call_ensures(strength, (body.height, d), reach) && match reach {
                            None => r is None,
                            Some(s) => r == Some(ring(step_of(m, body), body.at, s)),
                        }
                },
            };
        if let Some(d) = depth {
            if d.raw >= 1503238553 {
                let reach = choose|reach: Option<Fixed>| #[trigger]
                    call_ensures(strength, (body.height, d), reach) && match reach {
                        None => r is None,
                        Some(s) => r == Some(ring(step_of(m, body), body.at, s)),
                    };
                assert(call_ensures(strength, (body.height, d), reach));
            }
        }
    }
}

/// The bodies a frame takes in are the player's own and every other that wades, and no others.
pub proof fn law_waders_and_the_player_are_taken_in<S: Scalar>(
    avatar: Option<Body<S>>,
    units: Seq<Body<S>>,
)
    ensures
        avatar matches Some(b) ==> bodies_of(avatar, units).contains(b),
        forall|i: int|
            0 <= i < units.len() && (#[trigger] units[i]).wades ==> bodies_of(
                avatar,
                units,
            ).contains(units[i]),
        forall|k: int|
            0 <= k < bodies_of(avatar, units).len() ==> {
                let b = #[trigger] bodies_of(avatar, units)[k];
                avatar == Some(b) || b.wades && units.contains(b)
            },
{
    let n = units.len() as int;
    lemma_waders(units, n);
    let all = bodies_of(avatar, units);
    let own = if avatar is Some {
        1int
    } else {
        0
    };
    assert forall|i: int| 0 <= i < units.len() && (#[trigger] units[i]).wades implies all.contains(
        units[i],
    ) by {
        let k = choose|k: int| 0 <= k < waders(units, n).len() && waders(units, n)[k] == units[i];
        assert(all[own + k] == units[i]);
    }
    if avatar is Some {
        assert(all[0] == avatar->Some_0);
    }
    assert forall|k: int| 0 <= k < all.len() implies {
        let b = #[trigger] all[k];
        avatar == Some(b) || b.wades && units.contains(b)
    } by {
        if k >= own {
            assert(all[k] == waders(units, n)[k - own]);
        }
    }
}

proof fn lemma_waders<S: Scalar>(units: Seq<Body<S>>, n: int)
    requires
        0 <= n <= units.len(),
    ensures
        forall|i: int|
            0 <= i < n && (#[trigger] units[i]).wades ==> waders(units, n).contains(units[i]),
        forall|k: int|
            0 <= k < waders(units, n).len() ==> (#[trigger] waders(units, n)[k]).wades
                && units.contains(waders(units, n)[k]),
    decreases n,
{
    if n > 0 {
        lemma_waders(units, n - 1);
        let (before, all) = (waders(units, n - 1), waders(units, n));
        assert forall|i: int| 0 <= i < n && (#[trigger] units[i]).wades implies all.contains(
            units[i],
        ) by {
            if i < n - 1 {
                let k = choose|k: int| 0 <= k < before.len() && before[k] == units[i];
                assert(all[k] == units[i]);
            } else {
                assert(all[all.len() - 1] == units[i]);
            }
        }
        assert forall|k: int| 0 <= k < all.len() implies (#[trigger] all[k]).wades
            && units.contains(all[k]) by {
            if k < before.len() {
                assert(all[k] == before[k]);
            } else {
                assert(all[k] == units[n - 1]);
            }
        }
    }
}

/// The window follows the player's body where there is one, and the camera otherwise, as either is seen
/// from above.
pub proof fn law_the_window_follows_the_player<S: Scalar>(
    avatar: Option<Body<S>>,
    camera: Option<Vec3<S>>,
)
    ensures
        avatar matches Some(b) ==> window_centre(avatar, camera) == Some(
            Vec2 { x: b.at.x, y: b.at.z },
        ),
        avatar is None ==> (camera matches Some(p) ==> window_centre(avatar, camera) == Some(
            Vec2 { x: p.x, y: p.z },
        )),
        avatar is None && camera is None ==> window_centre(avatar, camera) is None,
{
}

/// A ring spreads eight tenths of a yard about where it is born: a cell of the window whose middle is
/// further off in the world, by more than the numbers round, is left as it was, and so is every cell
/// where no ring is struck.
pub proof fn law_a_ring_spreads_eight_tenths_of_a_yard<F: Fn(Fixed) -> Fixed>(
    before: Seq<Fixed>,
    after: Seq<Fixed>,
    r: Option<Pulse<Fixed>>,
    ox: int,
    oy: int,
    cosine: F,
    x: int,
    y: int,
)
    requires
        struck(before, after, r, corner_of::<Fixed>(ox, oy), cosine),
        on_lattice(x, y),
        r matches Some(p) ==> aimed(ox, oy, p.at, Fixed { raw: 3435973836 }),
    ensures
        r is None ==> after == before,
        r matches Some(p) ==> (after[192 * y + x] != before[192 * y + x] ==> away_squared(
            ox,
            oy,
            x,
            y,
            p.at,
        ) <= 3435973836 * 3435973836 + 0x2000_0000),
{
    if let Some(p) = r {
        let radius = push_radius::<Fixed>();
        assert(radius.raw == 3435973836);
        assert(radius == Fixed { raw: 3435973836 });
        let k = 192 * y + x;
        assert(0 <= k < 36864);
        assert(push_at(
            Disc::of(p.at, radius, corner_of::<Fixed>(ox, oy)),
            p.amount,
            cosine,
            before[k],
            after[k],
            k,
        ));
        law_a_push_reaches_no_further(
            ox,
            oy,
            p.at,
            radius,
            p.amount,
            cosine,
            x,
            y,
            before[k],
            after[k],
        );
    }
}

/// The shader finds the window by its lower corner and by one over its forty-eight yards, and is told to
/// show it once over, or twice when the field itself is to be seen.
pub proof fn law_the_window_is_forty_eight_yards_wide(corner: Vec2<Fixed>, show: bool)
    ensures
        ({
            let w = window_lanes(corner, show);
            &&& w.x == corner.x
            &&& w.y == corner.y
            &&& 48 * w.z.raw <= 0x1_0000_0000 < 48 * (w.z.raw + 1)
            &&& w.w.raw == if show {
                0x2_0000_0000int
            } else {
                0x1_0000_0000
            }
        }),
{
    assert(int_of::<Fixed>(1).raw == 0x1_0000_0000 && int_of::<Fixed>(2).raw == 0x2_0000_0000);
    assert(int_of::<Fixed>(48).raw == 0x30_0000_0000);
}

/// A frame adds the time it took, but never runs backwards, and never adds more than a quarter of a
/// second.
pub proof fn law_a_frame_adds_a_quarter_second_at_most(accum: Fixed, dt: Fixed)
    requires
        -0x1000_0000_0000_0000 <= accum.raw <= 0x1000_0000_0000_0000,
    ensures
        dt.raw <= 0 ==> time_with_frame(accum, dt) == accum,
        0 <= dt.raw <= 0x4000_0000 ==> time_with_frame(accum, dt).raw == accum.raw + dt.raw,
        0x4000_0000 <= dt.raw ==> time_with_frame(accum, dt).raw == accum.raw + 0x4000_0000,
{
    assert(int_of::<Fixed>(0).raw == 0);
    assert(Fixed::frac(1, 4).raw == 0x4000_0000);
}

/// The player's own body is taken in first, and then the others that wade, in the order they are told.
pub proof fn law_bodies_are_taken_in_in_order<S: Scalar>(avatar: Option<Body<S>>, units: Seq<Body<S>>)
    ensures
        avatar matches Some(b) ==> bodies_of(avatar, units) == seq![b] + units.filter(
            |u: Body<S>| u.wades,
        ),
        avatar is None ==> bodies_of(avatar, units) == units.filter(|u: Body<S>| u.wades),
{
    lemma_waders_in_order(units, units.len() as int);
    assert(units.take(units.len() as int) =~= units);
    if avatar is None {
        assert(bodies_of(avatar, units) =~= waders(units, units.len() as int));
    }
}

proof fn lemma_waders_in_order<S: Scalar>(units: Seq<Body<S>>, n: int)
    requires
        0 <= n <= units.len(),
    ensures
        waders(units, n) == units.take(n).filter(|u: Body<S>| u.wades),
    decreases n,
{
    reveal(Seq::filter);
    if n > 0 {
        lemma_waders_in_order(units, n - 1);
        assert(units.take(n).drop_last() =~= units.take(n - 1));
        assert(units.take(n).last() == units[n - 1]);
    }
}

/// Whether two memories hold the same of one body.
pub open spec fn same_of<S: Scalar>(a: Memory<S>, b: Memory<S>, id: u64) -> bool {
    &&& a.was.dom().contains(id) == b.was.dom().contains(id)
    &&& a.was.dom().contains(id) ==> a.was[id] == b.was[id]
    &&& a.credit.dom().contains(id) == b.credit.dom().contains(id)
    &&& a.credit.dom().contains(id) ==> a.credit[id] == b.credit[id]
}

/// A body that is taken in is remembered for itself: what is held of it is what it alone would have left,
/// and of any other what was held before.
proof fn lemma_one_taken_in<S: Scalar>(a: Memory<S>, b: Memory<S>, body: Body<S>, id: u64)
    ensures
        same_of(a, b, body.id) ==> same_of(remembered(a, body), remembered(b, body), body.id),
        id != body.id ==> same_of(remembered(a, body), a, id),
{
}

proof fn lemma_others_are_left<S: Scalar>(m: Memory<S>, bodies: Seq<Body<S>>, n: int, id: u64)
    requires
        0 <= n <= bodies.len(),
        forall|k: int| 0 <= k < n ==> (#[trigger] bodies[k]).id != id,
    ensures
        same_of(recalled(m, bodies, n), m, id),
    decreases n,
{
    if n > 0 {
        lemma_others_are_left(m, bodies, n - 1, id);
        let before = recalled(m, bodies, n - 1);
        lemma_one_taken_in(before, before, bodies[n - 1], id);
    }
}

proof fn lemma_each_for_itself<S: Scalar>(m: Memory<S>, bodies: Seq<Body<S>>, n: int, i: int)
    requires
        0 <= i < n <= bodies.len(),
        ids_of(bodies).no_duplicates(),
    ensures
        same_of(recalled(m, bodies, n), remembered(m, bodies[i]), bodies[i].id),
    decreases n,
{
    assert forall|k: int| 0 <= k < bodies.len() && k != i implies (#[trigger] bodies[k]).id
        != bodies[i].id by {
        assert(ids_of(bodies)[k] != ids_of(bodies)[i]);
    }
    let before = recalled(m, bodies, n - 1);
    if i == n - 1 {
        lemma_others_are_left(m, bodies, n - 1, bodies[i].id);
        lemma_one_taken_in(before, m, bodies[i], bodies[i].id);
    } else {
        lemma_each_for_itself(m, bodies, n - 1, i);
        lemma_one_taken_in(before, before, bodies[n - 1], bodies[i].id);
    }
}

/// Every body has its own memory: after a frame, what is held of a body is what it alone would have left,
/// whatever the others did. On the reference look, and while there is nothing for the window to follow,
/// a frame changes nothing.
pub proof fn law_each_body_is_remembered_for_itself<S: Scalar>(
    m: Memory<S>,
    scene: WakeScene<S>,
    i: int,
)
    requires
        distinct(scene),
        0 <= i < bodies_of(scene.avatar, scene.units@).len(),
    ensures
        ({
            let body = bodies_of(scene.avatar, scene.units@)[i];
            let followed = scene.avatar is Some || scene.camera is Some;
            &&& scene.style is Stylised && followed ==> same_of(
                memory_after(m, scene),
                remembered(m, body),
                body.id,
            )
            &&& !(scene.style is Stylised && followed) ==> memory_after(m, scene) == m
        }),
{
    let bodies = bodies_of(scene.avatar, scene.units@);
    lemma_each_for_itself(m, bodies, bodies.len() as int, i);
    assert(ids_of(bodies)[i] == bodies[i].id);
    assert(ids_of(bodies).to_set().contains(bodies[i].id)) by {
        assert(ids_of(bodies).contains(bodies[i].id));
    }
}

} // verus!
