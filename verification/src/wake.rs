//! What disturbs the water, and the frame that carries the disturbance into the wave field.
//!
//! A body in water sheds one ring, then another, each once per so many yards of travel; a wake is
//! what several of them look like once the body has moved on between them. This module remembers
//! where each body was and how much of its next ring it has earned, turns travel into pulses, and
//! drives the simulation with them once a frame.

use vstd::prelude::*;

use crate::entity_table::{entity_bits, EntityTable};
use crate::geometry::{Vec2, Vec3, Vec4};
use crate::ripple_sim::{
    blank_pixels, corner_for, corner_of, encode, encoded, push_at, scrolled, sim_yards, steps_owed,
    stepped_times, time_left, window_yards, Disc, RippleSim, SIM_AREA, SIM_MAX_STEPS,
};
use crate::scalar::{clamp, clamped, int_of, whole_number, Scalar};
use crate::style::WaterStyle;

verus! {

/// How far a body travels between the rings it sheds, in yards.
pub open spec fn pulse_stride<S: Scalar>() -> S {
    S::frac(7, 10)
}

/// One ring's displacement.
pub open spec fn pulse_amount<S: Scalar>() -> S {
    S::frac(30, 1000)
}

/// Radius of a body's push, in yards.
pub open spec fn push_radius<S: Scalar>() -> S {
    S::frac(8, 10)
}

/// How far ahead of a body its wake is born, in yards.
pub open spec fn push_bow_offset<S: Scalar>() -> S {
    S::frac(55, 100)
}

/// How far a body must move in one frame to count as moving at all, in yards.
pub open spec fn moved_epsilon<S: Scalar>() -> S {
    S::frac(1, 1000)
}

/// How deep the water has to be under a body before it disturbs anything, in yards.
pub open spec fn push_min_depth<S: Scalar>() -> S {
    S::frac(35, 100)
}

/// The longest frame taken at its word, in seconds.
pub open spec fn longest_frame<S: Scalar>() -> S {
    S::frac(1, 4)
}

/// A body that may disturb the water this frame.
pub struct Body<S> {
    /// The bits of the entity it is.
    pub id: u64,
    /// Where it is, in the scene.
    pub at: Vec3<S>,
    /// How tall it is, in yards.
    pub height: S,
    /// Whether it wades at all.
    pub wades: bool,
}

/// A ring about to be struck: where, seen from above, and how hard.
pub struct Pulse<S> {
    pub at: Vec2<S>,
    pub amount: S,
}

/// What the wake remembers: where each body was, and how much of its next ring it has earned.
#[verifier::ext_equal]
pub struct Memory<S> {
    pub was: Map<u64, Vec3<S>>,
    pub credit: Map<u64, S>,
}

/// How far a body has come since it was last seen, from above; nowhere when it is new.
pub open spec fn step_of<S: Scalar>(m: Memory<S>, body: Body<S>) -> Vec2<S> {
    if m.was.dom().contains(body.id) {
        body.at.flat() - m.was[body.id].flat()
    } else {
        Vec2 { x: int_of::<S>(0), y: int_of::<S>(0) }
    }
}

/// Whether a body has moved enough this frame to count.
pub open spec fn has_moved<S: Scalar>(m: Memory<S>, body: Body<S>) -> bool {
    !(step_of(m, body).measure() <= moved_epsilon::<S>())
}

/// A body's share of its next ring, this frame's travel taken in.
pub open spec fn credit_with_travel<S: Scalar>(m: Memory<S>, body: Body<S>) -> S {
    let had = if m.credit.dom().contains(body.id) {
        m.credit[body.id]
    } else {
        int_of::<S>(0)
    };
    had + step_of(m, body).measure() / pulse_stride::<S>()
}

/// Whether a body owes a ring this frame.
pub open spec fn ring_due<S: Scalar>(m: Memory<S>, body: Body<S>) -> bool {
    has_moved(m, body) && !(credit_with_travel(m, body) < int_of::<S>(1))
}

/// What is remembered once a body has been taken in: its place always; its credit when it moved,
/// less the one ring a frame may spend and never more than one ring over.
pub open spec fn remembered<S: Scalar>(m: Memory<S>, body: Body<S>) -> Memory<S> {
    let earned = credit_with_travel(m, body);
    Memory {
        was: m.was.insert(body.id, body.at),
        credit: if !has_moved(m, body) {
            m.credit
        } else if ring_due(m, body) {
            m.credit.insert(body.id, (earned - int_of::<S>(1)).lesser(int_of::<S>(1)))
        } else {
            m.credit.insert(body.id, earned)
        },
    }
}

/// Whether `r` is what a body sheds: a ring when one is due, there is water over the body's feet,
/// deep enough, and the body is not wholly under it; born at the bow and as strong as the depth
/// allows.
pub open spec fn shed<S: Scalar, D: Fn(Vec3<S>) -> Option<S>, G: Fn(S, S) -> Option<S>>(
    m: Memory<S>,
    body: Body<S>,
    depth_at: D,
    strength: G,
    r: Option<Pulse<S>>,
) -> bool {
    if !ring_due(m, body) {
        r is None
    } else {
        exists|depth: Option<S>| #[trigger]
            call_ensures(depth_at, (body.at,), depth) && match depth {
                None => r is None,
                Some(d) => if d < push_min_depth::<S>() {
                    r is None
                } else {
                    exists|reach: Option<S>| #[trigger]
                        call_ensures(strength, (body.height, d), reach) && match reach {
                            None => r is None,
                            Some(s) => r == Some(ring(step_of(m, body), body.at, s)),
                        }
                },
            }
    }
}

/// The ring a body at `at`, come by `step`, strikes at strength `reach`.
pub open spec fn ring<S: Scalar>(step: Vec2<S>, at: Vec3<S>, reach: S) -> Pulse<S> {
    Pulse {
        at: at.flat() + step / step.measure() * push_bow_offset::<S>(),
        amount: pulse_amount::<S>() * reach,
    }
}

/// Where each body was, and how much of its next ring it has earned.
#[verifier::reject_recursive_types(S)]
pub struct Wake<S> {
    was: EntityTable<Vec3<S>>,
    credit: EntityTable<S>,
}

impl<S: Scalar> Wake<S> {
    pub closed spec fn wf(&self) -> bool {
        self.was.wf() && self.credit.wf()
    }

    pub closed spec fn view(&self) -> Memory<S> {
        Memory { was: self.was@, credit: self.credit@ }
    }

    /// Nothing remembered.
    pub fn new() -> (r: Self)
        ensures
            r.wf(),
            r@ == blank_memory::<S>(),
    {
        Wake { was: EntityTable::new(), credit: EntityTable::new() }
    }

    /// Take in a body's travel, and say which ring it sheds, if any.
    ///
    /// At most one ring a frame, however long the frame was: rings are spaced along the path, and
    /// a stall that struck six at once would put them all in the same place. `depth_at` answers how
    /// much water stands over a point, and `strength` how strongly a body of a height disturbs
    /// water of a depth.
    pub fn fire<D: Fn(Vec3<S>) -> Option<S>, G: Fn(S, S) -> Option<S>>(
        &mut self,
        body: &Body<S>,
        depth_at: &D,
        strength: &G,
    ) -> (r: Option<Pulse<S>>)
        requires
            old(self).wf(),
            entity_bits(body.id),
            forall|p: Vec3<S>| #[trigger] call_requires(*depth_at, (p,)),
            forall|h: S, d: S| #[trigger] call_requires(*strength, (h, d)),
        ensures
            final(self).wf(),
            final(self)@ == remembered(old(self)@, *body),
            shed(old(self)@, *body, *depth_at, *strength, r),
    {
        let zero: S = whole_number(0);
        let one: S = whole_number(1);
        let here: Vec2<S> = body.at.from_above();
        let step: Vec2<S> = match self.was.put(body.id, body.at) {
            Some(prev) => here.minus(prev.from_above()),
            None => Vec2 { x: zero, y: zero },
        };
        let moved: S = step.length();
        let still: S = S::ratio(1, 1000);
        if moved.at_most(still) {
            return None;
        }
        let stride: S = S::ratio(7, 10);
        let had: S = match self.credit.get(body.id) {
            Some(c) => c,
            None => zero,
        };
        let earned: S = had.plus(moved.over(stride));
        if earned.less(one) {
            self.credit.put(body.id, earned);
            return None;
        }
        self.credit.put(body.id, earned.minus(one).least(one));
        let depth: S = match depth_at(body.at) {
            Some(d) => d,
            None => {
                return None;
            },
        };
        let shallow: S = S::ratio(35, 100);
        if depth.less(shallow) {
            return None;
        }
        let reach: S = match strength(body.height, depth) {
            Some(s) => s,
            None => {
                return None;
            },
        };
        let bow: S = S::ratio(55, 100);
        let hard: S = S::ratio(30, 1000);
        Some(
            Pulse { at: here.plus(step.shrink(moved).scale(bow)), amount: hard.times(reach) },
        )
    }

    /// Forget every body that is not among `seen`, once more are remembered than were seen.
    fn prune(&mut self, seen: &Vec<u64>)
        requires
            old(self).wf(),
            forall|i: int| 0 <= i < seen@.len() ==> entity_bits(#[trigger] seen@[i]),
        ensures
            final(self).wf(),
            final(self)@ == pruned(old(self)@, seen@),
    {
        if self.was.len() > seen.len() {
            self.was.keep_only(seen);
            self.credit.keep_only(seen);
        }
    }
}

/// What is remembered once the bodies that are gone have been forgotten. Nothing is looked at until
/// more bodies are remembered than were seen.
pub open spec fn pruned<S: Scalar>(m: Memory<S>, seen: Seq<u64>) -> Memory<S> {
    if m.was.dom().len() > seen.len() {
        Memory {
            was: m.was.restrict(seen.to_set()),
            credit: m.credit.restrict(seen.to_set()),
        }
    } else {
        m
    }
}

/// Everything a frame tells the water about the world.
pub struct WakeScene<S> {
    /// The look the player has chosen.
    pub style: WaterStyle,
    /// The player's own body, when there is one in the world.
    pub avatar: Option<Body<S>>,
    /// Where the camera is, in the scene.
    pub camera: Option<Vec3<S>>,
    /// Every other body in the world.
    pub units: Vec<Body<S>>,
    /// How long the frame took, in seconds.
    pub dt: S,
    /// Whether the wave field itself is to be painted instead of shaded with.
    pub show: bool,
}

/// What a frame hands to the renderer.
pub struct WakeFrame<S> {
    /// The window: its lower corner in world yards, one over its side, and how strongly it shows.
    pub window: Vec4<S>,
    /// The field's texture, on the frames that moved the field.
    pub pixels: Option<Vec<u8>>,
}

/// The bodies among the first `n` that wade.
pub open spec fn waders<S: Scalar>(units: Seq<Body<S>>, n: int) -> Seq<Body<S>>
    decreases n,
{
    if n <= 0 {
        Seq::empty()
    } else if units[n - 1].wades {
        waders(units, n - 1).push(units[n - 1])
    } else {
        waders(units, n - 1)
    }
}

/// The bodies a frame takes in, in order: the player's own, then every other that wades.
pub open spec fn bodies_of<S: Scalar>(avatar: Option<Body<S>>, units: Seq<Body<S>>) -> Seq<
    Body<S>,
> {
    let own = match avatar {
        Some(body) => seq![body],
        None => Seq::empty(),
    };
    own + waders(units, units.len() as int)
}

/// The names of a run of bodies.
pub open spec fn ids_of<S: Scalar>(bodies: Seq<Body<S>>) -> Seq<u64> {
    Seq::new(bodies.len(), |i: int| bodies[i].id)
}

/// What is remembered once the first `n` bodies have been taken in.
pub open spec fn recalled<S: Scalar>(m: Memory<S>, bodies: Seq<Body<S>>, n: int) -> Memory<S>
    decreases n,
{
    if n <= 0 {
        m
    } else {
        remembered(recalled(m, bodies, n - 1), bodies[n - 1])
    }
}

/// Whether `after` is the field `before` with a ring struck into it.
pub open spec fn struck<S: Scalar, F: Fn(S) -> S>(
    before: Seq<S>,
    after: Seq<S>,
    r: Option<Pulse<S>>,
    corner: Vec2<S>,
    cosine: F,
) -> bool {
    match r {
        None => after == before,
        Some(p) => {
            let disc = Disc::of(p.at, push_radius::<S>(), corner);
            &&& after.len() == before.len()
            &&& forall|k: int|
                #![trigger after[k]]
                0 <= k < SIM_AREA ==> push_at(disc, p.amount, cosine, before[k], after[k], k)
        },
    }
}

/// Whether `rings` are what a run of bodies sheds, one after another, and `fields` the heights
/// before the first, between each two, and after the last.
pub open spec fn disturbance<
    S: Scalar,
    D: Fn(Vec3<S>) -> Option<S>,
    G: Fn(S, S) -> Option<S>,
    F: Fn(S) -> S,
>(
    m: Memory<S>,
    bodies: Seq<Body<S>>,
    corner: Vec2<S>,
    depth_at: D,
    strength: G,
    cosine: F,
    rings: Seq<Option<Pulse<S>>>,
    fields: Seq<Seq<S>>,
) -> bool {
    &&& rings.len() == bodies.len()
    &&& fields.len() == bodies.len() + 1
    &&& forall|i: int|
        #![trigger rings[i]]
        0 <= i < bodies.len() ==> {
            &&& shed(recalled(m, bodies, i), bodies[i], depth_at, strength, rings[i])
            &&& struck(fields[i], fields[i + 1], rings[i], corner, cosine)
        }
}

/// Whether a run of bodies may leave the field `after` where it found `before`.
pub open spec fn disturbed<
    S: Scalar,
    D: Fn(Vec3<S>) -> Option<S>,
    G: Fn(S, S) -> Option<S>,
    F: Fn(S) -> S,
>(
    m: Memory<S>,
    bodies: Seq<Body<S>>,
    corner: Vec2<S>,
    depth_at: D,
    strength: G,
    cosine: F,
    before: Seq<S>,
    after: Seq<S>,
) -> bool {
    exists|rings: Seq<Option<Pulse<S>>>, fields: Seq<Seq<S>>|
        {
            &&& #[trigger] disturbance(
                m,
                bodies,
                corner,
                depth_at,
                strength,
                cosine,
                rings,
                fields,
            )
            &&& fields[0] == before
            &&& fields[bodies.len() as int] == after
        }
}

/// Where the window is carried: after the player's body when there is one, and after the camera
/// otherwise.
pub open spec fn window_centre<S: Scalar>(
    avatar: Option<Body<S>>,
    camera: Option<Vec3<S>>,
) -> Option<Vec2<S>> {
    match (avatar, camera) {
        (Some(body), _) => Some(body.at.flat()),
        (None, Some(p)) => Some(p.flat()),
        (None, None) => None,
    }
}

/// What the shader is told of the window: its lower corner, one over its side, and how strongly it
/// shows.
pub open spec fn window_lanes<S: Scalar>(corner: Vec2<S>, show: bool) -> Vec4<S> {
    Vec4 {
        x: corner.x,
        y: corner.y,
        z: int_of::<S>(1) / sim_yards::<S>(),
        w: if show {
            int_of::<S>(2)
        } else {
            int_of::<S>(1)
        },
    }
}

/// The time there is to run, once a frame that took `dt` has been added to what was left over.
pub open spec fn time_with_frame<S: Scalar>(accum: S, dt: S) -> S {
    accum + clamped(dt, int_of::<S>(0), longest_frame::<S>())
}

/// A field carried along with its window to a new centre.
pub open spec fn carried<S: Scalar>(sim: RippleSim<S>, f: Seq<S>, c: Vec2<S>) -> Seq<S> {
    if sim.placed {
        scrolled(f, corner_for(c.x) - sim.origin_x, corner_for(c.y) - sim.origin_y)
    } else {
        f
    }
}

/// How much water stands over a point at height `feet`: of the `n` surfaces there, the first that
/// is wet at the point, less the point's own height. `surface_z` answers a surface's height there,
/// where it is wet.
pub fn depth_over<S: Scalar, F: Fn(usize) -> Option<S>>(surface_z: &F, n: usize, feet: S) -> (r:
    Option<S>)
    requires
        forall|k: usize| k < n ==> #[trigger] call_requires(*surface_z, (k,)),
    ensures
        match r {
            None => forall|k: usize| k < n ==> #[trigger] call_ensures(*surface_z, (k,), None),
            Some(d) => exists|k: usize, z: S|
                {
                    &&& k < n
                    &&& #[trigger] call_ensures(*surface_z, (k,), Some(z))
                    &&& d == z - feet
                    &&& forall|j: usize| j < k ==> #[trigger] call_ensures(*surface_z, (j,), None)
                },
        },
{
    let mut k: usize = 0;
    while k < n
        invariant
            k <= n,
            forall|j: usize| j < n ==> #[trigger] call_requires(*surface_z, (j,)),
            forall|j: usize| j < k ==> #[trigger] call_ensures(*surface_z, (j,), None),
        decreases n - k,
    {
        match surface_z(k) {
            Some(z) => {
                return Some(z.minus(feet));
            },
            None => {},
        }
        k = k + 1;
    }
    None
}

/// Take in one body: remember it, and strike the ring it sheds.
fn strike<
    S: Scalar,
    D: Fn(Vec3<S>) -> Option<S>,
    G: Fn(S, S) -> Option<S>,
    F: Fn(S) -> S,
>(
    sim: &mut RippleSim<S>,
    wake: &mut Wake<S>,
    body: &Body<S>,
    depth_at: &D,
    strength: &G,
    cosine: &F,
) -> (r: Option<Pulse<S>>)
    requires
        old(sim).wf(),
        old(wake).wf(),
        entity_bits(body.id),
        forall|p: Vec3<S>| #[trigger] call_requires(*depth_at, (p,)),
        forall|h: S, d: S| #[trigger] call_requires(*strength, (h, d)),
        forall|a: S| #[trigger] call_requires(*cosine, (a,)),
    ensures
        final(sim).wf(),
        final(wake).wf(),
        final(wake)@ == remembered(old(wake)@, *body),
        shed(old(wake)@, *body, *depth_at, *strength, r),
        struck(
            old(sim).h@,
            final(sim).h@,
            r,
            corner_of::<S>(old(sim).origin_x as int, old(sim).origin_y as int),
            *cosine,
        ),
        final(sim).prev@ == old(sim).prev@,
        final(sim).pixels@ == old(sim).pixels@,
        final(sim).origin_x == old(sim).origin_x,
        final(sim).origin_y == old(sim).origin_y,
        final(sim).accum == old(sim).accum,
        final(sim).placed == old(sim).placed,
{
    let r: Option<Pulse<S>> = wake.fire(body, depth_at, strength);
    match &r {
        Some(p) => {
            let radius: S = S::ratio(8, 10);
            sim.push(p.at, radius, p.amount, cosine);
        },
        None => {},
    }
    r
}

/// Carry the window, take this frame's disturbances, integrate, and publish.
///
/// Where the field was stepped, its picture is handed over and the staging bytes are blank again.
/// Inert on the reference look, and while there is nothing for the window to follow: the window
/// shows at no strength and the field is left alone. `depth_at` answers how much water stands over
/// a point of the scene, `strength` how strongly a body of a height disturbs water of a depth, and
/// `cosine` the cosine of an angle.
#[verifier::rlimit(40)]
pub fn drive_ripple_sim<
    S: Scalar,
    D: Fn(Vec3<S>) -> Option<S>,
    G: Fn(S, S) -> Option<S>,
    F: Fn(S) -> S,
>(
    sim: &mut RippleSim<S>,
    wake: &mut Wake<S>,
    scene: &WakeScene<S>,
    depth_at: &D,
    strength: &G,
    cosine: &F,
) -> (r: WakeFrame<S>)
    requires
        old(sim).wf(),
        old(wake).wf(),
        scene.avatar matches Some(body) ==> entity_bits(body.id),
        forall|i: int| 0 <= i < scene.units@.len() ==> entity_bits(#[trigger] scene.units@[i].id),
        scene.style == WaterStyle::Stylised ==> (window_centre(
            scene.avatar,
            scene.camera,
        ) matches Some(c) ==> old(sim).reachable(c)),
        forall|p: Vec3<S>| #[trigger] call_requires(*depth_at, (p,)),
        forall|h: S, d: S| #[trigger] call_requires(*strength, (h, d)),
        forall|a: S| #[trigger] call_requires(*cosine, (a,)),
    ensures
        final(sim).wf(),
        final(wake).wf(),
        final(wake)@ == memory_after(old(wake)@, *scene),
        scene.style != WaterStyle::Stylised || window_centre(scene.avatar, scene.camera) is None
            ==> {
            &&& *final(sim) == *old(sim)
            &&& r.window == Vec4::all(int_of::<S>(0))
            &&& r.pixels is None
        },
        scene.style == WaterStyle::Stylised ==> (window_centre(
            scene.avatar,
            scene.camera,
        ) matches Some(c) ==> {
            let bodies = bodies_of(scene.avatar, scene.units@);
            let corner = corner_of::<S>(corner_for(c.x), corner_for(c.y));
            let time = time_with_frame(old(sim).accum, scene.dt);
            let steps = steps_owed(time, SIM_MAX_STEPS as nat);
            let prev = carried(*old(sim), old(sim).prev@, c);
            &&& final(sim).placed
            &&& final(sim).origin_x == corner_for(c.x)
            &&& final(sim).origin_y == corner_for(c.y)
            &&& final(sim).accum == time_left(time)
            &&& exists|h: Seq<S>|
                {
                    &&& #[trigger] disturbed(
                        old(wake)@,
                        bodies,
                        corner,
                        *depth_at,
                        *strength,
                        *cosine,
                        carried(*old(sim), old(sim).h@, c),
                        h,
                    )
                    &&& (final(sim).h@, final(sim).prev@) == stepped_times(h, prev, steps)
                }
            &&& r.window == window_lanes(corner, scene.show)
            &&& match r.pixels {
                Some(bytes) => steps > 0 && bytes@ == encoded(final(sim).h@),
                None => steps == 0,
            }
            &&& final(sim).pixels@ == if steps > 0 {
                Seq::new(4 * SIM_AREA as nat, |k: int| 0u8)
            } else {
                old(sim).pixels@
            }
        }),
{
    let zero: S = whole_number(0);
    let one: S = whole_number(1);
    if scene.style != WaterStyle::Stylised {
        return WakeFrame { window: Vec4::splat(zero), pixels: None };
    }
    let centre: Vec2<S> = match &scene.avatar {
        Some(body) => body.at.from_above(),
        None => match &scene.camera {
            Some(p) => p.from_above(),
            None => {
                return WakeFrame { window: Vec4::splat(zero), pixels: None };
            },
        },
    };
    sim.recentre(centre);

    let ghost before = sim.h@;
    let ghost prev = sim.prev@;
    let ghost corner = corner_of::<S>(sim.origin_x as int, sim.origin_y as int);
    let ghost m = wake@;
    let ghost own = bodies_of(scene.avatar, Seq::<Body<S>>::empty());
    let ghost mut rings: Seq<Option<Pulse<S>>> = Seq::empty();
    let ghost mut fields: Seq<Seq<S>> = seq![sim.h@];
    let mut seen: Vec<u64> = Vec::new();
    match &scene.avatar {
        Some(body) => {
            seen.push(body.id);
            let ring = strike(sim, wake, body, depth_at, strength, cosine);
            proof {
                rings = rings.push(ring);
                fields = fields.push(sim.h@);
                reveal_with_fuel(recalled, 2);
            }
        },
        None => {},
    }
    assert(waders(Seq::<Body<S>>::empty(), 0) =~= Seq::<Body<S>>::empty());
    assert(ids_of(own) =~= seen@);
    assert(own + waders(scene.units@, 0) =~= own);
    let mut i: usize = 0;
    while i < scene.units.len()
        invariant
            i <= scene.units@.len(),
            sim.wf(),
            wake.wf(),
            sim.placed,
            sim.prev@ == prev,
            sim.pixels@ == old(sim).pixels@,
            sim.origin_x == corner_for(centre.x),
            sim.origin_y == corner_for(centre.y),
            sim.accum == old(sim).accum,
            corner == corner_of::<S>(sim.origin_x as int, sim.origin_y as int),
            own == bodies_of(scene.avatar, Seq::<Body<S>>::empty()),
            forall|p: Vec3<S>| #[trigger] call_requires(*depth_at, (p,)),
            forall|h: S, d: S| #[trigger] call_requires(*strength, (h, d)),
            forall|a: S| #[trigger] call_requires(*cosine, (a,)),
            forall|j: int|
                0 <= j < scene.units@.len() ==> entity_bits(#[trigger] scene.units@[j].id),
            forall|j: int| 0 <= j < seen@.len() ==> entity_bits(#[trigger] seen@[j]),
            ({
                let bodies = own + waders(scene.units@, i as int);
                &&& seen@ == ids_of(bodies)
                &&& wake@ == recalled(m, bodies, bodies.len() as int)
                &&& disturbance(m, bodies, corner, *depth_at, *strength, *cosine, rings, fields)
                &&& fields[0] == before
                &&& fields[bodies.len() as int] == sim.h@
            }),
        decreases scene.units@.len() - i,
    {
        let ghost bodies = own + waders(scene.units@, i as int);
        if scene.units[i].wades {
            seen.push(scene.units[i].id);
            let ghost heard = wake@;
            let ring = strike(sim, wake, &scene.units[i], depth_at, strength, cosine);
            proof {
                let more = own + waders(scene.units@, i as int + 1);
                assert(more =~= bodies.push(scene.units@[i as int]));
                assert(seen@ =~= ids_of(more));
                lemma_recalled_prefix(m, bodies, more, bodies.len() as int);
                assert forall|j: int| 0 <= j < bodies.len() implies #[trigger] recalled(m, bodies, j)
                    == recalled(m, more, j) by {
                    lemma_recalled_prefix(m, bodies, more, j);
                }
                let all = rings.push(ring);
                let steps = fields.push(sim.h@);
                assert forall|j: int|
                    #![trigger all[j]]
                    0 <= j < more.len() implies {
                    &&& shed(recalled(m, more, j), more[j], *depth_at, *strength, all[j])
                    &&& struck(steps[j], steps[j + 1], all[j], corner, *cosine)
                } by {
                    if j < bodies.len() {
                        assert(rings[j] == all[j]);
                        assert(recalled(m, bodies, j) == recalled(m, more, j));
                    }
                }
                rings = all;
                fields = steps;
            }
        } else {
            assert(own + waders(scene.units@, i as int + 1) =~= bodies);
        }
        i = i + 1;
    }
    let ghost bodies = bodies_of(scene.avatar, scene.units@);
    let ghost h = sim.h@;
    assert(bodies =~= own + waders(scene.units@, scene.units@.len() as int));
    assert(disturbed(m, bodies, corner, *depth_at, *strength, *cosine, before, h));
    wake.prune(&seen);

    let dt: S = clamp(scene.dt, zero, S::ratio(1, 4));
    let steps: u32 = sim.advance(dt);
    let pixels: Option<Vec<u8>> = if steps > 0 {
        let mut staged: Vec<u8> = blank_pixels();
        std::mem::swap(&mut staged, &mut sim.pixels);
        encode(&sim.h, &mut staged);
        Some(staged)
    } else {
        None
    };
    assert(disturbed(
        old(wake)@,
        bodies,
        corner_of::<S>(corner_for(centre.x), corner_for(centre.y)),
        *depth_at,
        *strength,
        *cosine,
        carried(*old(sim), old(sim).h@, centre),
        h,
    ));
    let at: Vec2<S> = sim.corner();
    let yards: S = window_yards();
    let loud: S = if scene.show {
        whole_number(2)
    } else {
        one
    };
    WakeFrame { window: Vec4 { x: at.x, y: at.y, z: one.over(yards), w: loud }, pixels }
}

/// What is remembered after `n` bodies depends on those alone.
proof fn lemma_recalled_prefix<S: Scalar>(
    m: Memory<S>,
    a: Seq<Body<S>>,
    b: Seq<Body<S>>,
    n: int,
)
    requires
        n <= a.len() <= b.len(),
        forall|i: int| 0 <= i < a.len() ==> #[trigger] a[i] == b[i],
    ensures
        recalled(m, a, n) == recalled(m, b, n),
    decreases n,
{
    if n > 0 {
        lemma_recalled_prefix(m, a, b, n - 1);
    }
}

/// A body that is not going anywhere makes no waves, and earns nothing towards one.
pub proof fn law_a_still_body_makes_no_waves<
    S: Scalar,
    D: Fn(Vec3<S>) -> Option<S>,
    G: Fn(S, S) -> Option<S>,
>(m: Memory<S>, body: Body<S>, depth_at: D, strength: G, r: Option<Pulse<S>>)
    requires
        step_of(m, body).measure() <= moved_epsilon::<S>(),
        shed(m, body, depth_at, strength, r),
    ensures
        r is None,
        remembered(m, body).credit == m.credit,
{
}

/// While nothing moves, nothing disturbs the water: a run of still bodies leaves the field exactly
/// as it was.
pub proof fn law_still_bodies_leave_the_water_alone<
    S: Scalar,
    D: Fn(Vec3<S>) -> Option<S>,
    G: Fn(S, S) -> Option<S>,
    F: Fn(S) -> S,
>(
    m: Memory<S>,
    bodies: Seq<Body<S>>,
    corner: Vec2<S>,
    depth_at: D,
    strength: G,
    cosine: F,
    before: Seq<S>,
    after: Seq<S>,
)
    requires
        disturbed(m, bodies, corner, depth_at, strength, cosine, before, after),
        forall|i: int|
            0 <= i < bodies.len() ==> !has_moved(recalled(m, bodies, i), #[trigger] bodies[i]),
    ensures
        after == before,
{
    let (rings, fields) = choose|rings: Seq<Option<Pulse<S>>>, fields: Seq<Seq<S>>|
        {
            &&& #[trigger] disturbance(
                m,
                bodies,
                corner,
                depth_at,
                strength,
                cosine,
                rings,
                fields,
            )
            &&& fields[0] == before
            &&& fields[bodies.len() as int] == after
        };
    lemma_no_rings_no_change(rings, fields, bodies.len() as int, corner, cosine);
}

proof fn lemma_no_rings_no_change<S: Scalar, F: Fn(S) -> S>(
    rings: Seq<Option<Pulse<S>>>,
    fields: Seq<Seq<S>>,
    n: int,
    corner: Vec2<S>,
    cosine: F,
)
    requires
        0 <= n <= rings.len(),
        forall|i: int|
            0 <= i < n ==> (#[trigger] rings[i]) is None && struck(
                fields[i],
                fields[i + 1],
                rings[i],
                corner,
                cosine,
            ),
    ensures
        fields[n] == fields[0],
    decreases n,
{
    if n > 0 {
        lemma_no_rings_no_change(rings, fields, n - 1, corner, cosine);
        assert(rings[n - 1] is None);
    }
}

/// Nothing remembered.
pub open spec fn blank_memory<S: Scalar>() -> Memory<S> {
    Memory { was: Map::empty(), credit: Map::empty() }
}

/// What is remembered after a frame: as before it on the reference look, and while there is nothing
/// for the window to follow.
pub open spec fn memory_after<S: Scalar>(m: Memory<S>, scene: WakeScene<S>) -> Memory<S> {
    if scene.style == WaterStyle::Stylised && window_centre(scene.avatar, scene.camera) is Some {
        let bodies = bodies_of(scene.avatar, scene.units@);
        pruned(recalled(m, bodies, bodies.len() as int), ids_of(bodies))
    } else {
        m
    }
}

/// What is remembered after a run of frames, by a wake that began with nothing.
pub open spec fn memory_over<S: Scalar>(frames: Seq<WakeScene<S>>) -> Memory<S>
    decreases frames.len(),
{
    if frames.len() == 0 {
        blank_memory()
    } else {
        memory_after(memory_over(frames.drop_last()), frames.last())
    }
}

/// Whether no two bodies of a frame are the same entity.
pub open spec fn distinct<S: Scalar>(scene: WakeScene<S>) -> bool {
    ids_of(bodies_of(scene.avatar, scene.units@)).no_duplicates()
}

/// Whether what is remembered is kept of finitely many bodies, and no credit is without a place.
pub open spec fn tidy<S: Scalar>(m: Memory<S>) -> bool {
    m.was.dom().finite() && m.credit.dom().subset_of(m.was.dom())
}

/// Taking in bodies adds their places, and credits of theirs at most.
proof fn lemma_recalled<S: Scalar>(m: Memory<S>, bodies: Seq<Body<S>>, n: int)
    requires
        tidy(m),
        0 <= n <= bodies.len(),
    ensures
        tidy(recalled(m, bodies, n)),
        forall|id: u64| #[trigger]
            recalled(m, bodies, n).was.dom().contains(id) <==> m.was.dom().contains(id) || exists|
                i: int,
            |
                0 <= i < n && #[trigger] ids_of(bodies)[i] == id,
    decreases n,
{
    if n > 0 {
        lemma_recalled(m, bodies, n - 1);
        let before = recalled(m, bodies, n - 1);
        let after = recalled(m, bodies, n);
        assert(after.was.dom() =~= before.was.dom().insert(bodies[n - 1].id));
        assert(after.credit.dom().subset_of(before.credit.dom().insert(bodies[n - 1].id)));
        assert(ids_of(bodies)[n - 1] == bodies[n - 1].id);
    }
}

/// A frame that is taken in leaves exactly its own bodies remembered.
proof fn lemma_frame_leaves_its_bodies<S: Scalar>(m: Memory<S>, bodies: Seq<Body<S>>)
    requires
        tidy(m),
        ids_of(bodies).no_duplicates(),
    ensures
        ({
            let after = pruned(recalled(m, bodies, bodies.len() as int), ids_of(bodies));
            &&& tidy(after)
            &&& after.was.dom() == ids_of(bodies).to_set()
        }),
{
    let ids = ids_of(bodies);
    let full = recalled(m, bodies, bodies.len() as int);
    let after = pruned(full, ids);
    lemma_recalled(m, bodies, bodies.len() as int);
    ids.unique_seq_to_set();
    vstd::seq_lib::seq_to_set_is_finite(ids);
    assert forall|id: u64| ids.to_set().contains(id) implies #[trigger] full.was.dom().contains(
        id,
    ) by {
        let i = choose|i: int| 0 <= i < ids.len() && ids[i] == id;
        assert(ids[i] == id);
    }
    assert(ids.to_set().subset_of(full.was.dom()));
    if full.was.dom().len() > ids.len() {
        assert(after.was.dom() =~= ids.to_set());
        assert(after.credit.dom() =~= full.credit.dom().intersect(ids.to_set()));
    } else {
        vstd::set_lib::lemma_len_subset(ids.to_set(), full.was.dom());
        vstd::set_lib::lemma_subset_equality(ids.to_set(), full.was.dom());
    }
}

/// Nothing is remembered for ever: after any run of frames that ends in one taken in, the places
/// remembered are those of exactly the bodies of that frame, and credit is kept of them alone.
pub proof fn law_only_the_last_frames_bodies_are_remembered<S: Scalar>(frames: Seq<WakeScene<S>>)
    requires
        frames.len() > 0,
        forall|i: int| 0 <= i < frames.len() ==> distinct(#[trigger] frames[i]),
        frames.last().style == WaterStyle::Stylised,
        window_centre(frames.last().avatar, frames.last().camera) is Some,
    ensures
        ({
            let seen = ids_of(bodies_of(frames.last().avatar, frames.last().units@)).to_set();
            &&& memory_over(frames).was.dom() == seen
            &&& memory_over(frames).credit.dom().subset_of(seen)
        }),
{
    let before = frames.drop_last();
    assert forall|i: int| 0 <= i < before.len() implies distinct(#[trigger] before[i]) by {
        assert(distinct(frames[i]));
    }
    lemma_memory_is_tidy(before);
    assert(distinct(frames[frames.len() - 1]));
    lemma_frame_leaves_its_bodies(
        memory_over(before),
        bodies_of(frames.last().avatar, frames.last().units@),
    );
}

proof fn lemma_memory_is_tidy<S: Scalar>(frames: Seq<WakeScene<S>>)
    requires
        forall|i: int| 0 <= i < frames.len() ==> distinct(#[trigger] frames[i]),
    ensures
        tidy(memory_over(frames)),
    decreases frames.len(),
{
    if frames.len() > 0 {
        let before = frames.drop_last();
        assert forall|i: int| 0 <= i < before.len() implies distinct(#[trigger] before[i]) by {
            assert(distinct(frames[i]));
        }
        lemma_memory_is_tidy(before);
        let last = frames.last();
        assert(distinct(frames[frames.len() - 1]));
        if last.style == WaterStyle::Stylised && window_centre(last.avatar, last.camera) is Some {
            lemma_frame_leaves_its_bodies(
                memory_over(before),
                bodies_of(last.avatar, last.units@),
            );
        }
    }
}

/// Nothing is remembered for ever: after a frame no more bodies are remembered than the frame saw,
/// and once any had to be forgotten only bodies that were seen are left.
pub proof fn law_memory_is_bounded<S: Scalar>(m: Memory<S>, seen: Seq<u64>)
    requires
        m.was.dom().finite(),
    ensures
        pruned(m, seen).was.dom().len() <= seen.len(),
        m.was.dom().len() > seen.len() ==> forall|id: u64|
            #![trigger seen.contains(id)]
            pruned(m, seen).was.dom().contains(id) || pruned(m, seen).credit.dom().contains(id)
                ==> seen.contains(id),
{
    if m.was.dom().len() > seen.len() {
        let kept = m.was.restrict(seen.to_set());
        seen.lemma_cardinality_of_set();
        vstd::seq_lib::seq_to_set_is_finite(seen);
        assert(kept.dom().subset_of(seen.to_set()));
        vstd::set_lib::lemma_len_subset(kept.dom(), seen.to_set());
    }
}

} // verus!
