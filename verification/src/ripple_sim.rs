//! The wave simulation: a height field the world pushes on, so that a swimmer's wake is water
//! actually moving.
//!
//! The field is the two dimensional wave equation, integrated explicitly on a square lattice, and
//! the lattice is a window on the world that follows the viewer in whole cells. Everything here
//! speaks of cells by their position in one flat row-major sequence, [`SIM_CELLS`] to a row.

use vstd::prelude::*;

use crate::fixed::{saturated, Fixed, ONE};
use crate::geometry::Vec2;
use crate::scalar::{encode_signed, int_of, signed_byte, whole_number, Scalar};

verus! {

/// Lattice resolution, per side.
pub const SIM_CELLS: usize = 192;

/// Cells of the whole lattice.
pub const SIM_AREA: usize = 36864;

/// Most substeps one frame may run; past that the simulation loses time rather than chase it.
pub const SIM_MAX_STEPS: u32 = 4;

/// Width of the absorbing rim, in cells.
pub const EDGE_ABSORB: usize = 14;

/// How much world the window covers, per side, in yards.
pub open spec fn sim_yards<S: Scalar>() -> S {
    int_of::<S>(48)
}

/// Cell pitch in yards.
pub open spec fn sim_cell<S: Scalar>() -> S {
    sim_yards::<S>() / int_of::<S>(SIM_CELLS as int)
}

/// The integrator's fixed timestep, in seconds.
pub open spec fn sim_dt<S: Scalar>() -> S {
    S::frac(1, 90)
}

/// The square of the wave speed in lattice units. The scheme is stable up to one half.
pub open spec fn sim_c2<S: Scalar>() -> S {
    S::frac(1, 1000)
}

/// Per-step amplitude retention.
pub open spec fn sim_damp<S: Scalar>() -> S {
    S::frac(9955, 10000)
}

/// The slope the encoded texture's full range stands for.
pub open spec fn wake_slope<S: Scalar>() -> S {
    S::frac(17, 10)
}

/// The height the encoded blue channel's full range stands for.
pub open spec fn wake_height<S: Scalar>() -> S {
    int_of::<S>(2)
}

/// The ratio of a circle's circumference to its diameter.
pub open spec fn pi<S: Scalar>() -> S {
    S::frac(314159265358979, 100000000000000)
}

/// How much world the window covers, per side, in yards.
pub fn window_yards<S: Scalar>() -> (r: S)
    ensures
        r == sim_yards::<S>(),
{
    whole_number(48)
}

/// Cell pitch in yards.
pub fn cell_pitch<S: Scalar>() -> (r: S)
    ensures
        r == sim_cell::<S>(),
{
    let yards: S = window_yards();
    yards.over(whole_number(SIM_CELLS as i64))
}

/// The integrator's fixed timestep, in seconds.
pub fn timestep<S: Scalar>() -> (r: S)
    ensures
        r == sim_dt::<S>(),
{
    S::ratio(1, 90)
}

/// The square of the wave speed in lattice units.
pub fn wave_speed_squared<S: Scalar>() -> (r: S)
    ensures
        r == sim_c2::<S>(),
{
    S::ratio(1, 1000)
}

/// A cell's column.
pub open spec fn col(k: int) -> int {
    k % SIM_CELLS as int
}

/// A cell's row.
pub open spec fn row(k: int) -> int {
    k / SIM_CELLS as int
}

/// The cell at a column and a row.
pub open spec fn cell_at(x: int, y: int) -> int {
    y * SIM_CELLS + x
}

/// Whether a column and a row lie on the lattice.
pub open spec fn on_lattice(x: int, y: int) -> bool {
    0 <= x < SIM_CELLS && 0 <= y < SIM_CELLS
}

/// How many cells lie between a column and the nearer end of its row.
pub open spec fn inset(x: int) -> int {
    if x <= SIM_CELLS - 1 - x {
        x
    } else {
        SIM_CELLS - 1 - x
    }
}

/// How many cells lie between a cell and the nearest edge of the lattice.
pub open spec fn depth_in(k: int) -> int {
    if inset(col(k)) <= inset(row(k)) {
        inset(col(k))
    } else {
        inset(row(k))
    }
}

/// Whether a cell is on the outermost ring.
pub open spec fn on_rim(k: int) -> bool {
    depth_in(k) == 0
}

/// The discrete Laplacian of a field at an inner cell: its four neighbours less four of itself.
pub open spec fn laplacian<S: Scalar>(h: Seq<S>, k: int) -> S {
    h[k - 1] + h[k + 1] + h[k - SIM_CELLS] + h[k + SIM_CELLS] - int_of::<S>(4) * h[k]
}

/// How much of a wave's amplitude a cell at depth `d`, which is off the rim, keeps: rising linearly
/// from a hard loss at the outermost cell that moves to none at the inner edge of the absorbing
/// band.
pub open spec fn absorption<S: Scalar>(d: int) -> S {
    if d < EDGE_ABSORB {
        S::frac(72, 100) + S::frac(28, 100) * (int_of::<S>(d - 1) / int_of::<S>(EDGE_ABSORB - 1))
    } else {
        int_of::<S>(1)
    }
}

/// The height of a cell one step on: the rim is at rest, an inner cell follows the wave equation,
/// damped.
pub open spec fn stepped_cell<S: Scalar>(h: Seq<S>, prev: Seq<S>, k: int) -> S {
    if on_rim(k) {
        int_of::<S>(0)
    } else {
        ((int_of::<S>(2) * h[k] - prev[k] + sim_c2::<S>() * laplacian(h, k)) * sim_damp::<S>())
            * absorption::<S>(depth_in(k))
    }
}

/// A whole field one step on.
pub open spec fn stepped<S: Scalar>(h: Seq<S>, prev: Seq<S>) -> Seq<S> {
    Seq::new(SIM_AREA as nat, |k: int| stepped_cell(h, prev, k))
}

/// A field at rest.
pub open spec fn calm<S: Scalar>() -> Seq<S> {
    Seq::new(SIM_AREA as nat, |k: int| int_of::<S>(0))
}

/// A field seen from a window moved by `(dx, dy)` cells: the cell that was at `(x + dx, y + dy)`
/// is now at `(x, y)`, and what scrolls in from outside is at rest.
pub open spec fn scrolled<S: Scalar>(f: Seq<S>, dx: int, dy: int) -> Seq<S> {
    Seq::new(
        SIM_AREA as nat,
        |k: int|
            if on_lattice(col(k) + dx, row(k) + dy) {
                f[cell_at(col(k) + dx, row(k) + dy)]
            } else {
                int_of::<S>(0)
            },
    )
}

/// The window corner, in whole cells of the world, that puts a coordinate at the middle.
pub open spec fn corner_for<S: Scalar>(c: S) -> int {
    (c / sim_cell::<S>()).rounded().whole() - SIM_CELLS / 2
}

/// The world position of a window corner.
pub open spec fn corner_of<S: Scalar>(ox: int, oy: int) -> Vec2<S> {
    Vec2 { x: int_of::<S>(ox) * sim_cell::<S>(), y: int_of::<S>(oy) * sim_cell::<S>() }
}

/// A disc to be pressed into a field: its middle in cells, and its radius in cells.
pub struct Disc<S> {
    pub c: Vec2<S>,
    pub r: S,
}

/// The first column or row a disc reaches.
pub open spec fn disc_lo<S: Scalar>(c: S, r: S) -> int {
    let n = (c - r).floored().greater(int_of::<S>(0)).whole();
    if n < 0 {
        0
    } else {
        n as int
    }
}

/// The last column or row a disc reaches.
pub open spec fn disc_hi<S: Scalar>(c: S, r: S) -> int {
    let n = (c + r).ceiled().lesser(int_of::<S>(SIM_CELLS - 1)).whole();
    if n > SIM_CELLS - 1 {
        SIM_CELLS - 1
    } else {
        n as int
    }
}

impl<S: Scalar> Disc<S> {
    /// The disc of a world radius about a world position, in a window's cells.
    pub open spec fn of(at: Vec2<S>, radius: S, corner: Vec2<S>) -> Self {
        Disc { c: (at - corner) / sim_cell::<S>(), r: radius / sim_cell::<S>() }
    }

    /// The squared distance, in cells, from the middle of a cell to the middle of the disc.
    pub open spec fn offset(self, k: int) -> S {
        let mid = Vec2 {
            x: int_of::<S>(col(k)) + S::frac(1, 2),
            y: int_of::<S>(row(k)) + S::frac(1, 2),
        };
        (mid - self.c).square()
    }

    /// Whether a cell is under the disc.
    pub open spec fn covers(self, k: int) -> bool {
        &&& disc_lo(self.c.x, self.r) <= col(k) <= disc_hi(self.c.x, self.r)
        &&& disc_lo(self.c.y, self.r) <= row(k) <= disc_hi(self.c.y, self.r)
        &&& !(self.r * self.r < self.offset(k))
    }

    /// The angle whose cosine shapes the push at a cell: nothing at the middle, half a turn at
    /// the edge.
    pub open spec fn phase(self, k: int) -> S {
        pi::<S>() * (self.offset(k) / (self.r * self.r)).root()
    }
}

/// A cell pushed down by `amount`, shaped by the raised cosine of an angle whose cosine is `cos`.
pub open spec fn pushed<S: Scalar>(v: S, amount: S, cos: S) -> S {
    v - amount * (S::frac(1, 2) * (int_of::<S>(1) + cos))
}

/// Whether a cell's height `before` a push and `after` it agree with the disc: pushed down by the
/// raised cosine where the disc covers the cell, untouched elsewhere.
pub open spec fn push_at<S: Scalar, F: Fn(S) -> S>(
    disc: Disc<S>,
    amount: S,
    cosine: F,
    before: S,
    after: S,
    k: int,
) -> bool {
    if disc.covers(k) {
        exists|cos: S| #[trigger]
            call_ensures(cosine, (disc.phase(k),), cos) && after == pushed(before, amount, cos)
    } else {
        after == before
    }
}

/// The tallest cell off the rim among the first `n`, by magnitude.
pub open spec fn peak_height<S: Scalar>(h: Seq<S>, n: int) -> S
    decreases n,
{
    if n <= 0 {
        int_of::<S>(0)
    } else if on_rim(n - 1) {
        peak_height(h, n - 1)
    } else {
        peak_height(h, n - 1).greater(h[n - 1].magnitude())
    }
}

/// The sharpest bend off the rim among the first `n` cells, by magnitude.
pub open spec fn peak_curvature<S: Scalar>(h: Seq<S>, n: int) -> S
    decreases n,
{
    if n <= 0 {
        int_of::<S>(0)
    } else if on_rim(n - 1) {
        peak_curvature(h, n - 1)
    } else {
        peak_curvature(h, n - 1).greater(laplacian(h, n - 1).magnitude())
    }
}

/// The cell one to the left, or the cell itself at the end of its row.
pub open spec fn left_of(k: int) -> int {
    if col(k) == 0 {
        k
    } else {
        k - 1
    }
}

/// The cell one to the right, or the cell itself at the end of its row.
pub open spec fn right_of(k: int) -> int {
    if col(k) == SIM_CELLS - 1 {
        k
    } else {
        k + 1
    }
}

/// The cell one row down, or the cell itself in the first row.
pub open spec fn below(k: int) -> int {
    if row(k) == 0 {
        k
    } else {
        k - SIM_CELLS
    }
}

/// The cell one row up, or the cell itself in the last row.
pub open spec fn above(k: int) -> int {
    if row(k) == SIM_CELLS - 1 {
        k
    } else {
        k + SIM_CELLS
    }
}

/// A difference of heights two cells apart as an encoded slope.
pub open spec fn slope_byte<S: Scalar>(d: S) -> u8 {
    signed_byte(d * (S::frac(1, 2) / sim_cell::<S>()) * wake_slope::<S>())
}

/// One byte of a field's texture: the slope across and along in the first two channels, the
/// height in the third, and the fourth full.
pub open spec fn texel<S: Scalar>(h: Seq<S>, i: int) -> u8 {
    let k = i / 4;
    if i % 4 == 0 {
        slope_byte(h[right_of(k)] - h[left_of(k)])
    } else if i % 4 == 1 {
        slope_byte(h[above(k)] - h[below(k)])
    } else if i % 4 == 2 {
        signed_byte(h[k] * wake_height::<S>())
    } else {
        255
    }
}

/// A field's texture.
pub open spec fn encoded<S: Scalar>(h: Seq<S>) -> Seq<u8> {
    Seq::new(4 * SIM_AREA as nat, |i: int| texel(h, i))
}

/// How many whole steps a stretch of time owes, given that at most `budget` may run.
pub open spec fn steps_owed<S: Scalar>(accum: S, budget: nat) -> nat
    decreases budget,
{
    if budget == 0 || !(sim_dt::<S>() <= accum) {
        0
    } else {
        1 + steps_owed(accum - sim_dt::<S>(), (budget - 1) as nat)
    }
}

/// What is left of a stretch of time once `n` steps have been taken out of it.
pub open spec fn time_after<S: Scalar>(accum: S, n: nat) -> S
    decreases n,
{
    if n == 0 {
        accum
    } else {
        time_after(accum, (n - 1) as nat) - sim_dt::<S>()
    }
}

/// What is left of a stretch of time once the steps it owes have run. One that used the whole budget
/// forgets the time it could not spend.
pub open spec fn time_left<S: Scalar>(time: S) -> S {
    let n = steps_owed(time, SIM_MAX_STEPS as nat);
    if n == SIM_MAX_STEPS {
        int_of::<S>(0)
    } else {
        time_after(time, n)
    }
}

/// A field and the field before it, `n` steps on.
pub open spec fn stepped_times<S: Scalar>(h: Seq<S>, prev: Seq<S>, n: nat) -> (Seq<S>, Seq<S>)
    decreases n,
{
    if n == 0 {
        (h, prev)
    } else {
        let (a, b) = stepped_times(h, prev, (n - 1) as nat);
        (stepped(a, b), a)
    }
}

/// The live height field and its window on the world.
pub struct RippleSim<S> {
    /// Height now.
    pub h: Vec<S>,
    /// Height one step ago.
    pub prev: Vec<S>,
    /// Scratch for the step, kept allocated across frames.
    pub next: Vec<S>,
    /// The encoded texture, staged for the renderer.
    pub pixels: Vec<u8>,
    /// The column, in whole cells of the world, of the window's lower corner.
    pub origin_x: i32,
    /// The row, in whole cells of the world, of the window's lower corner.
    pub origin_y: i32,
    /// Unconsumed real time, in seconds, waiting to become whole steps.
    pub accum: S,
    /// Whether the window has ever been placed.
    pub placed: bool,
}

impl<S: Scalar> RippleSim<S> {
    /// The three fields and the staged texture have the lattice's size.
    pub open spec fn wf(&self) -> bool {
        &&& self.h@.len() == SIM_AREA
        &&& self.prev@.len() == SIM_AREA
        &&& self.next@.len() == SIM_AREA
        &&& self.pixels@.len() == 4 * SIM_AREA
    }

    /// Flat water, not yet placed in the world.
    pub fn new() -> (r: Self)
        ensures
            r.wf(),
            r.h@ == calm::<S>(),
            r.prev@ == calm::<S>(),
            r.next@ == calm::<S>(),
            r.pixels@ == Seq::new(4 * SIM_AREA as nat, |k: int| 0u8),
            r.origin_x == 0,
            r.origin_y == 0,
            r.accum == int_of::<S>(0),
            !r.placed,
    {
        let zero: S = whole_number(0);
        RippleSim {
            h: level(zero),
            prev: level(zero),
            next: level(zero),
            pixels: blank_pixels(),
            origin_x: 0,
            origin_y: 0,
            accum: zero,
            placed: false,
        }
    }

    /// One step of the wave equation over the whole lattice.
    pub fn step(&mut self)
        requires
            old(self).wf(),
        ensures
            final(self).wf(),
            final(self).h@ == stepped(old(self).h@, old(self).prev@),
            final(self).prev@ == old(self).h@,
            final(self).next@ == old(self).prev@,
            final(self).pixels@ == old(self).pixels@,
            final(self).origin_x == old(self).origin_x,
            final(self).origin_y == old(self).origin_y,
            final(self).accum == old(self).accum,
            final(self).placed == old(self).placed,
    {
        let zero: S = whole_number(0);
        let two: S = whole_number(2);
        let c2: S = wave_speed_squared();
        let damp: S = S::ratio(9955, 10000);
        let mut k: usize = 0;
        while k < SIM_AREA
            invariant
                k <= SIM_AREA,
                self.wf(),
                self.h@ == old(self).h@,
                self.prev@ == old(self).prev@,
                self.pixels@ == old(self).pixels@,
                self.origin_x == old(self).origin_x,
                self.origin_y == old(self).origin_y,
                self.accum == old(self).accum,
                self.placed == old(self).placed,
                zero == int_of::<S>(0),
                two == int_of::<S>(2),
                c2 == sim_c2::<S>(),
                damp == sim_damp::<S>(),
                forall|j: int|
                    0 <= j < k ==> #[trigger] self.next@[j] == stepped_cell(
                        self.h@,
                        self.prev@,
                        j,
                    ),
            decreases SIM_AREA - k,
        {
            let edge: usize = rim_distance(k);
            let v: S = if edge == 0 {
                zero
            } else {
                let lap: S = curvature(&self.h, k);
                let moved: S = two.times(self.h[k]).minus(self.prev[k]).plus(c2.times(lap));
                moved.times(damp).times(retention(edge))
            };
            self.next.set(k, v);
            k = k + 1;
        }
        assert(self.next@ =~= stepped(self.h@, self.prev@));
        std::mem::swap(&mut self.prev, &mut self.h);
        std::mem::swap(&mut self.h, &mut self.next);
    }

    /// The window's lower corner in world yards.
    pub fn corner(&self) -> (r: Vec2<S>)
        ensures
            r == corner_of::<S>(self.origin_x as int, self.origin_y as int),
    {
        let pitch: S = cell_pitch();
        let x: S = whole_number(self.origin_x as i64);
        let y: S = whole_number(self.origin_y as i64);
        Vec2 { x: x.times(pitch), y: y.times(pitch) }
    }

    /// Whether the window can be carried to a centre without leaving the world's cells.
    pub open spec fn reachable(&self, centre: Vec2<S>) -> bool {
        &&& i32::MIN <= corner_for(centre.x)
        &&& i32::MIN <= corner_for(centre.y)
        &&& self.placed ==> i32::MIN <= corner_for(centre.x) - self.origin_x <= i32::MAX
        &&& self.placed ==> i32::MIN <= corner_for(centre.y) - self.origin_y <= i32::MAX
    }

    /// Whether the window can be carried to a centre.
    pub fn can_reach(&self, centre: Vec2<S>) -> (r: bool)
        ensures
            r == self.reachable(centre),
    {
        let pitch: S = cell_pitch();
        let low: i64 = i32::MIN as i64;
        let high: i64 = i32::MAX as i64;
        let half: i64 = (SIM_CELLS / 2) as i64;
        let wx: i64 = centre.x.over(pitch).round().to_i32() as i64 - half;
        let wy: i64 = centre.y.over(pitch).round().to_i32() as i64 - half;
        if wx < low || wy < low {
            return false;
        }
        if !self.placed {
            return true;
        }
        let dx: i64 = wx - self.origin_x as i64;
        let dy: i64 = wy - self.origin_y as i64;
        low <= dx && dx <= high && low <= dy && dy <= high
    }

    /// Carry the window to a new centre, shifting the field by whole cells and clearing whatever
    /// scrolls in. The first placement only sets the window down.
    pub fn recentre(&mut self, centre: Vec2<S>)
        requires
            old(self).wf(),
            old(self).reachable(centre),
        ensures
            final(self).wf(),
            final(self).placed,
            final(self).origin_x == corner_for(centre.x),
            final(self).origin_y == corner_for(centre.y),
            !old(self).placed ==> final(self).h@ == old(self).h@ && final(self).prev@ == old(
                self,
            ).prev@,
            old(self).placed ==> {
                let dx = corner_for(centre.x) - old(self).origin_x;
                let dy = corner_for(centre.y) - old(self).origin_y;
                &&& final(self).h@ == scrolled(old(self).h@, dx, dy)
                &&& final(self).prev@ == scrolled(old(self).prev@, dx, dy)
            },
            final(self).next@ == old(self).next@,
            final(self).pixels@ == old(self).pixels@,
            final(self).accum == old(self).accum,
    {
        let pitch: S = cell_pitch();
        let half: i32 = (SIM_CELLS / 2) as i32;
        let wx: i32 = centre.x.over(pitch).round().to_i32() - half;
        let wy: i32 = centre.y.over(pitch).round().to_i32() - half;
        if !self.placed {
            self.origin_x = wx;
            self.origin_y = wy;
            self.placed = true;
            return;
        }
        let dx: i32 = wx - self.origin_x;
        let dy: i32 = wy - self.origin_y;
        if dx == 0 && dy == 0 {
            assert(scrolled(self.h@, 0, 0) =~= self.h@);
            assert(scrolled(self.prev@, 0, 0) =~= self.prev@);
            return;
        }
        self.origin_x = wx;
        self.origin_y = wy;
        let span: i32 = SIM_CELLS as i32;
        if dx >= span || dx <= -span || dy >= span || dy <= -span {
            let zero: S = whole_number(0);
            self.h = level(zero);
            self.prev = level(zero);
            assert(self.h@ =~= scrolled(old(self).h@, dx as int, dy as int));
            assert(self.prev@ =~= scrolled(old(self).prev@, dx as int, dy as int));
            return;
        }
        scroll(&mut self.h, dx, dy);
        scroll(&mut self.prev, dx, dy);
    }

    /// Push the surface down over a disc, shaped as a raised cosine so that the source has no
    /// corner in it. `cosine` answers the cosine of an angle.
    pub fn push<F: Fn(S) -> S>(&mut self, at: Vec2<S>, radius: S, amount: S, cosine: &F)
        requires
            old(self).wf(),
            forall|a: S| #[trigger] call_requires(*cosine, (a,)),
        ensures
            final(self).wf(),
            ({
                let corner = corner_of::<S>(old(self).origin_x as int, old(self).origin_y as int);
                let disc = Disc::of(at, radius, corner);
                forall|k: int|
                    #![trigger final(self).h@[k]]
                    0 <= k < SIM_AREA ==> push_at(
                        disc,
                        amount,
                        *cosine,
                        old(self).h@[k],
                        final(self).h@[k],
                        k,
                    )
            }),
            final(self).prev@ == old(self).prev@,
            final(self).next@ == old(self).next@,
            final(self).pixels@ == old(self).pixels@,
            final(self).origin_x == old(self).origin_x,
            final(self).origin_y == old(self).origin_y,
            final(self).accum == old(self).accum,
            final(self).placed == old(self).placed,
    {
        let pitch: S = cell_pitch();
        let corner: Vec2<S> = self.corner();
        let disc: Disc<S> = Disc { c: at.minus(corner).shrink(pitch), r: radius.over(pitch) };
        let lo_x: i32 = first_reached(disc.c.x, disc.r);
        let hi_x: i32 = last_reached(disc.c.x, disc.r);
        let lo_y: i32 = first_reached(disc.c.y, disc.r);
        let hi_y: i32 = last_reached(disc.c.y, disc.r);
        if lo_x > hi_x || lo_y > hi_y {
            return;
        }
        let half: S = S::ratio(1, 2);
        let one: S = whole_number(1);
        let circle: S = S::ratio(314159265358979, 100000000000000);
        let r2: S = disc.r.times(disc.r);
        let ghost was = self.h@;
        let mut y: i32 = lo_y;
        while y <= hi_y
            invariant
                0 <= lo_x <= hi_x < SIM_CELLS,
                0 <= lo_y <= y <= hi_y + 1 <= SIM_CELLS,
                lo_x == disc_lo(disc.c.x, disc.r),
                hi_x == disc_hi(disc.c.x, disc.r),
                lo_y == disc_lo(disc.c.y, disc.r),
                hi_y == disc_hi(disc.c.y, disc.r),
                half == S::frac(1, 2),
                one == int_of::<S>(1),
                circle == pi::<S>(),
                r2 == disc.r * disc.r,
                self.wf(),
                forall|a: S| #[trigger] call_requires(*cosine, (a,)),
                forall|k: int|
                    #![trigger self.h@[k]]
                    0 <= k < SIM_AREA && row(k) < y ==> push_at(
                        disc,
                        amount,
                        *cosine,
                        was[k],
                        self.h@[k],
                        k,
                    ),
                forall|k: int|
                    #![trigger self.h@[k]]
                    0 <= k < SIM_AREA && row(k) >= y ==> self.h@[k] == was[k],
                was == old(self).h@,
                self.prev@ == old(self).prev@,
                self.next@ == old(self).next@,
                self.pixels@ == old(self).pixels@,
                self.origin_x == old(self).origin_x,
                self.origin_y == old(self).origin_y,
                self.accum == old(self).accum,
                self.placed == old(self).placed,
            decreases hi_y + 1 - y,
        {
            let mut x: i32 = lo_x;
            while x <= hi_x
                invariant
                    0 <= lo_x <= x <= hi_x + 1 <= SIM_CELLS,
                    0 <= lo_y <= y <= hi_y < SIM_CELLS,
                    lo_x == disc_lo(disc.c.x, disc.r),
                    hi_x == disc_hi(disc.c.x, disc.r),
                    lo_y == disc_lo(disc.c.y, disc.r),
                    hi_y == disc_hi(disc.c.y, disc.r),
                    half == S::frac(1, 2),
                    one == int_of::<S>(1),
                    circle == pi::<S>(),
                    r2 == disc.r * disc.r,
                    self.wf(),
                    forall|a: S| #[trigger] call_requires(*cosine, (a,)),
                    forall|k: int|
                        #![trigger self.h@[k]]
                        0 <= k < SIM_AREA && (row(k) < y || row(k) == y && col(k) < x) ==> push_at(
                            disc,
                            amount,
                            *cosine,
                            was[k],
                            self.h@[k],
                            k,
                        ),
                    forall|k: int|
                        #![trigger self.h@[k]]
                        0 <= k < SIM_AREA && !(row(k) < y || row(k) == y && col(k) < x)
                            ==> self.h@[k] == was[k],
                    was == old(self).h@,
                    self.prev@ == old(self).prev@,
                    self.next@ == old(self).next@,
                    self.pixels@ == old(self).pixels@,
                    self.origin_x == old(self).origin_x,
                    self.origin_y == old(self).origin_y,
                    self.accum == old(self).accum,
                    self.placed == old(self).placed,
                decreases hi_x + 1 - x,
            {
                let k: usize = y as usize * SIM_CELLS + x as usize;
                assert(col(k as int) == x && row(k as int) == y);
                let cx: S = whole_number(x as i64);
                let cy: S = whole_number(y as i64);
                let mid: Vec2<S> = Vec2 { x: cx.plus(half), y: cy.plus(half) };
                let d2: S = mid.minus(disc.c).length_squared();
                assert forall|j: int|
                    0 <= j < SIM_AREA && #[trigger] row(j) == y && #[trigger] col(j)
                        == x implies j == k by {}
                if !r2.less(d2) {
                    assert(disc.covers(k as int));
                    let cos: S = cosine(circle.times(d2.over(r2).sqrt()));
                    let f: S = half.times(one.plus(cos));
                    let v: S = self.h[k].minus(amount.times(f));
                    self.h.set(k, v);
                    assert(call_ensures(*cosine, (disc.phase(k as int),), cos));
                }
                x = x + 1;
            }
            y = y + 1;
        }
    }

    /// Peak height and peak curvature over the field.
    pub fn peaks(&self) -> (r: (S, S))
        requires
            self.wf(),
        ensures
            r.0 == peak_height(self.h@, SIM_AREA as int),
            r.1 == peak_curvature(self.h@, SIM_AREA as int),
    {
        let mut tall: S = whole_number(0);
        let mut bent: S = whole_number(0);
        let mut k: usize = 0;
        while k < SIM_AREA
            invariant
                k <= SIM_AREA,
                self.wf(),
                tall == peak_height(self.h@, k as int),
                bent == peak_curvature(self.h@, k as int),
            decreases SIM_AREA - k,
        {
            if rim_distance(k) > 0 {
                tall = tall.greatest(self.h[k].absolute());
                bent = bent.greatest(curvature(&self.h, k).absolute());
            }
            k = k + 1;
        }
        (tall, bent)
    }

    /// Take in `dt` seconds and run the whole steps they complete, at most [`SIM_MAX_STEPS`] of
    /// them. A frame that uses the whole budget forgets the time it could not spend.
    pub fn advance(&mut self, dt: S) -> (steps: u32)
        requires
            old(self).wf(),
        ensures
            final(self).wf(),
            steps == steps_owed(old(self).accum + dt, SIM_MAX_STEPS as nat),
            final(self).accum == time_left(old(self).accum + dt),
            (final(self).h@, final(self).prev@) == stepped_times(
                old(self).h@,
                old(self).prev@,
                steps as nat,
            ),
            final(self).pixels@ == old(self).pixels@,
            final(self).origin_x == old(self).origin_x,
            final(self).origin_y == old(self).origin_y,
            final(self).placed == old(self).placed,
    {
        let tick: S = timestep();
        self.accum = self.accum.plus(dt);
        let ghost total = self.accum;
        let mut steps: u32 = 0;
        while steps < SIM_MAX_STEPS && tick.at_most(self.accum)
            invariant
                steps <= SIM_MAX_STEPS,
                tick == sim_dt::<S>(),
                total == old(self).accum + dt,
                self.wf(),
                self.accum == time_after(total, steps as nat),
                steps_owed(total, SIM_MAX_STEPS as nat) == steps + steps_owed(
                    self.accum,
                    (SIM_MAX_STEPS - steps) as nat,
                ),
                (self.h@, self.prev@) == stepped_times(old(self).h@, old(self).prev@, steps as nat),
                self.pixels@ == old(self).pixels@,
                self.origin_x == old(self).origin_x,
                self.origin_y == old(self).origin_y,
                self.placed == old(self).placed,
            decreases SIM_MAX_STEPS - steps,
        {
            self.accum = self.accum.minus(tick);
            self.step();
            steps = steps + 1;
        }
        if steps == SIM_MAX_STEPS {
            self.accum = whole_number(0);
        }
        steps
    }
}

/// Shift a field, in place, to the view from a window moved by `(dx, dy)` cells.
///
/// The cell that was at `(x + dx, y + dy)` is now at `(x, y)`. Copying in the direction of travel
/// would overwrite sources before reading them, so each axis walks the way that cannot.
fn scroll<S: Scalar>(buf: &mut Vec<S>, dx: i32, dy: i32)
    requires
        old(buf)@.len() == SIM_AREA,
        -SIM_CELLS < dx < SIM_CELLS,
        -SIM_CELLS < dy < SIM_CELLS,
    ensures
        final(buf)@ == scrolled(old(buf)@, dx as int, dy as int),
{
    let zero: S = whole_number(0);
    let span: i32 = SIM_CELLS as i32;
    let ghost from = buf@;
    let ghost to = scrolled(from, dx as int, dy as int);
    let mut j: i32 = 0;
    while j < span
        invariant
            span == SIM_CELLS,
            0 <= j <= span,
            -span < dx < span,
            -span < dy < span,
            zero == int_of::<S>(0),
            from.len() == SIM_AREA,
            buf@.len() == SIM_AREA,
            to == scrolled(from, dx as int, dy as int),
            forall|k: int|
                #![trigger buf@[k]]
                0 <= k < SIM_AREA ==> buf@[k] == if walk_rank(row(k), dy as int) < j {
                    to[k]
                } else {
                    from[k]
                },
        decreases span - j,
    {
        let y: i32 = if dy > 0 {
            j
        } else {
            span - 1 - j
        };
        let mut i: i32 = 0;
        while i < span
            invariant
                span == SIM_CELLS,
                0 <= i <= span,
                0 <= j < span,
                y == if dy > 0 {
                    j as int
                } else {
                    span - 1 - j
                },
                -span < dx < span,
                -span < dy < span,
                zero == int_of::<S>(0),
                from.len() == SIM_AREA,
                buf@.len() == SIM_AREA,
                to == scrolled(from, dx as int, dy as int),
                forall|k: int|
                    #![trigger buf@[k]]
                    0 <= k < SIM_AREA ==> buf@[k] == if walk_rank(row(k), dy as int) < j
                        || walk_rank(row(k), dy as int) == j && walk_rank(col(k), dx as int) < i {
                        to[k]
                    } else {
                        from[k]
                    },
            decreases span - i,
        {
            let x: i32 = if dx > 0 {
                i
            } else {
                span - 1 - i
            };
            let sx: i32 = x + dx;
            let sy: i32 = y + dy;
            let k: usize = y as usize * SIM_CELLS + x as usize;
            assert(col(k as int) == x && row(k as int) == y);
            let v: S = if 0 <= sx && sx < span && 0 <= sy && sy < span {
                let src: usize = sy as usize * SIM_CELLS + sx as usize;
                assert(col(src as int) == sx && row(src as int) == sy);
                if dx == 0 && dy == 0 {
                    assert(src == k);
                }
                buf[src]
            } else {
                zero
            };
            assert(v == to[k as int]);
            buf.set(k, v);
            assert forall|n: int| 0 <= n < SIM_AREA && row(n) == y && col(n) == x implies n
                == k by {}
            i = i + 1;
        }
        j = j + 1;
    }
    assert(buf@ =~= to);
}

/// When a row or a column is visited by a walk that scrolls by `d`.
spec fn walk_rank(n: int, d: int) -> int {
    if d > 0 {
        n
    } else {
        SIM_CELLS - 1 - n
    }
}

/// The first column or row a disc reaches.
fn first_reached<S: Scalar>(c: S, r: S) -> (n: i32)
    ensures
        n == disc_lo(c, r),
        0 <= n,
{
    let zero: S = whole_number(0);
    let n: i32 = c.minus(r).floor().greatest(zero).to_i32();
    if n < 0 {
        0
    } else {
        n
    }
}

/// The last column or row a disc reaches.
fn last_reached<S: Scalar>(c: S, r: S) -> (n: i32)
    ensures
        n == disc_hi(c, r),
        n < SIM_CELLS,
{
    let end: i32 = (SIM_CELLS - 1) as i32;
    let n: i32 = c.plus(r).ceil().least(whole_number(end as i64)).to_i32();
    if n > end {
        end
    } else {
        n
    }
}

/// Encode a height field into a texture's bytes: central difference slope in the first two
/// channels and the height itself in the third, all signed around the byte's middle.
pub fn encode<S: Scalar>(h: &Vec<S>, data: &mut Vec<u8>)
    requires
        h@.len() == SIM_AREA,
        old(data)@.len() == 4 * SIM_AREA,
    ensures
        final(data)@ == encoded(h@),
{
    let half: S = S::ratio(1, 2);
    let pitch: S = cell_pitch();
    let per: S = half.over(pitch);
    let slope: S = S::ratio(17, 10);
    let tall: S = whole_number(2);
    let mut k: usize = 0;
    while k < SIM_AREA
        invariant
            k <= SIM_AREA,
            h@.len() == SIM_AREA,
            data@.len() == 4 * SIM_AREA,
            per == S::frac(1, 2) / sim_cell::<S>(),
            slope == wake_slope::<S>(),
            tall == wake_height::<S>(),
            forall|i: int| 0 <= i < 4 * k ==> #[trigger] data@[i] == texel(h@, i),
        decreases SIM_AREA - k,
    {
        let x: usize = k % SIM_CELLS;
        let y: usize = k / SIM_CELLS;
        let xm: usize = if x == 0 {
            k
        } else {
            k - 1
        };
        let xp: usize = if x == SIM_CELLS - 1 {
            k
        } else {
            k + 1
        };
        let ym: usize = if y == 0 {
            k
        } else {
            k - SIM_CELLS
        };
        let yp: usize = if y == SIM_CELLS - 1 {
            k
        } else {
            k + SIM_CELLS
        };
        let dx: S = h[xp].minus(h[xm]).times(per).times(slope);
        let dy: S = h[yp].minus(h[ym]).times(per).times(slope);
        data.set(4 * k, encode_signed(dx));
        data.set(4 * k + 1, encode_signed(dy));
        data.set(4 * k + 2, encode_signed(h[k].times(tall)));
        data.set(4 * k + 3, 255);
        k = k + 1;
    }
    assert(data@ =~= encoded(h@));
}

/// The texture of flat water: every signed channel at its middle, and the last one full.
pub fn flat_pixels() -> (r: Vec<u8>)
    ensures
        r@ == Seq::new(
            4 * SIM_AREA as nat,
            |i: int|
                if i % 4 == 3 {
                    255u8
                } else {
                    128u8
                },
        ),
{
    let mut r: Vec<u8> = Vec::new();
    let mut i: usize = 0;
    while i < 4 * SIM_AREA
        invariant
            i <= 4 * SIM_AREA,
            r@ == Seq::new(
                i as nat,
                |j: int|
                    if j % 4 == 3 {
                        255u8
                    } else {
                        128u8
                    },
            ),
        decreases 4 * SIM_AREA - i,
    {
        r.push(
            if i % 4 == 3 {
                255
            } else {
                128
            },
        );
        i = i + 1;
    }
    r
}

/// A field with every cell at `v`.
fn level<S: Scalar>(v: S) -> (r: Vec<S>)
    ensures
        r@ == Seq::new(SIM_AREA as nat, |k: int| v),
{
    let mut r: Vec<S> = Vec::new();
    let mut k: usize = 0;
    while k < SIM_AREA
        invariant
            k <= SIM_AREA,
            r@ == Seq::new(k as nat, |j: int| v),
        decreases SIM_AREA - k,
    {
        r.push(v);
        k = k + 1;
    }
    r
}

/// A texture's worth of zero bytes.
pub fn blank_pixels() -> (r: Vec<u8>)
    ensures
        r@ == Seq::new(4 * SIM_AREA as nat, |k: int| 0u8),
{
    let mut r: Vec<u8> = Vec::new();
    let mut k: usize = 0;
    while k < 4 * SIM_AREA
        invariant
            k <= 4 * SIM_AREA,
            r@ == Seq::new(k as nat, |j: int| 0u8),
        decreases 4 * SIM_AREA - k,
    {
        r.push(0);
        k = k + 1;
    }
    r
}

/// How many cells lie between a cell and the nearest edge of the lattice.
fn rim_distance(k: usize) -> (r: usize)
    requires
        k < SIM_AREA,
    ensures
        r == depth_in(k as int),
        r > 0 ==> SIM_CELLS < k && k + SIM_CELLS < SIM_AREA,
{
    let x: usize = k % SIM_CELLS;
    let y: usize = k / SIM_CELLS;
    let ix: usize = if x <= SIM_CELLS - 1 - x {
        x
    } else {
        SIM_CELLS - 1 - x
    };
    let iy: usize = if y <= SIM_CELLS - 1 - y {
        y
    } else {
        SIM_CELLS - 1 - y
    };
    if ix <= iy {
        ix
    } else {
        iy
    }
}

/// The discrete Laplacian of a field at an inner cell.
fn curvature<S: Scalar>(h: &Vec<S>, k: usize) -> (r: S)
    requires
        h@.len() == SIM_AREA,
        SIM_CELLS < k,
        k + SIM_CELLS < SIM_AREA,
    ensures
        r == laplacian(h@, k as int),
{
    let four: S = whole_number(4);
    h[k - 1].plus(h[k + 1]).plus(h[k - SIM_CELLS]).plus(h[k + SIM_CELLS]).minus(four.times(h[k]))
}

/// How much of a wave's amplitude a cell at depth `d`, which is off the rim, keeps.
fn retention<S: Scalar>(d: usize) -> (r: S)
    requires
        1 <= d < SIM_CELLS,
    ensures
        r == absorption::<S>(d as int),
{
    if d < EDGE_ABSORB {
        let at: S = whole_number(d as i64 - 1);
        let width: S = whole_number(EDGE_ABSORB as i64 - 1);
        let least: S = S::ratio(72, 100);
        let rise: S = S::ratio(28, 100);
        least.plus(rise.times(at.over(width)))
    } else {
        whole_number(1)
    }
}

/// Scrolling carries the field with the world: a whole cell of the world that lies in the window
/// both before and after it moves by `(dx, dy)` has the height it had.
pub proof fn law_scroll_keeps_world_position<S: Scalar>(
    f: Seq<S>,
    ox: int,
    oy: int,
    dx: int,
    dy: int,
    wx: int,
    wy: int,
)
    requires
        on_lattice(wx - ox, wy - oy),
        on_lattice(wx - (ox + dx), wy - (oy + dy)),
    ensures
        scrolled(f, dx, dy)[cell_at(wx - (ox + dx), wy - (oy + dy))] == f[cell_at(
            wx - ox,
            wy - oy,
        )],
{
    let k = cell_at(wx - (ox + dx), wy - (oy + dy));
    assert(col(k) == wx - (ox + dx) && row(k) == wy - (oy + dy));
}

/// Scrolling is exact: a window moved away and back shows every cell that never left it as it was.
pub proof fn law_scroll_back<S: Scalar>(f: Seq<S>, dx: int, dy: int, k: int)
    requires
        0 <= k < SIM_AREA,
        on_lattice(col(k) - dx, row(k) - dy),
    ensures
        scrolled(scrolled(f, dx, dy), -dx, -dy)[k] == f[k],
{
    let j = cell_at(col(k) - dx, row(k) - dy);
    assert(col(j) == col(k) - dx && row(j) == row(k) - dy);
    assert(cell_at(col(k), row(k)) == k);
}

/// A jump past the window leaves nothing of the old water behind.
pub proof fn law_jump_clears<S: Scalar>(f: Seq<S>, dx: int, dy: int)
    requires
        dx >= SIM_CELLS || dx <= -SIM_CELLS || dy >= SIM_CELLS || dy <= -SIM_CELLS,
    ensures
        scrolled(f, dx, dy) == calm::<S>(),
{
    assert(scrolled(f, dx, dy) =~= calm::<S>());
}

/// The rim never carries anything: whatever the field was, one step leaves its outermost ring at
/// rest.
pub proof fn law_rim_at_rest<S: Scalar>(h: Seq<S>, prev: Seq<S>, n: nat, k: int)
    requires
        0 <= k < SIM_AREA,
        on_rim(k),
        n > 0,
    ensures
        stepped_times(h, prev, n).0[k] == int_of::<S>(0),
{
}

/// How many cells apart two cells are, counted along rows and columns.
pub open spec fn cells_apart(a: int, b: int) -> int {
    let dx = if col(a) <= col(b) {
        col(b) - col(a)
    } else {
        col(a) - col(b)
    };
    let dy = if row(a) <= row(b) {
        row(b) - row(a)
    } else {
        row(a) - row(b)
    };
    dx + dy
}

/// Whether two pairs of fields agree on every cell within `n` of a cell.
pub open spec fn agree_near<S: Scalar>(
    h: Seq<S>,
    prev: Seq<S>,
    other: Seq<S>,
    before: Seq<S>,
    k: int,
    n: int,
) -> bool {
    forall|j: int|
        #![trigger h[j]]
        #![trigger prev[j]]
        0 <= j < SIM_AREA && cells_apart(k, j) <= n ==> h[j] == other[j] && prev[j] == before[j]
}

/// Waves have a speed: in `n` steps a disturbance crosses at most `n` cells, so a cell sees nothing
/// of what lies further off.
pub proof fn law_a_step_reaches_one_cell<S: Scalar>(
    h: Seq<S>,
    prev: Seq<S>,
    other: Seq<S>,
    before: Seq<S>,
    n: nat,
    k: int,
)
    requires
        0 <= k < SIM_AREA,
        agree_near(h, prev, other, before, k, n as int),
    ensures
        stepped_times(h, prev, n).0[k] == stepped_times(other, before, n).0[k],
        stepped_times(h, prev, n).1[k] == stepped_times(other, before, n).1[k],
    decreases n,
{
    assert(cells_apart(k, k) == 0);
    if n == 0 {
        assert(h[k] == other[k]);
    } else {
        let m = (n - 1) as nat;
        lemma_agree_nearer(h, prev, other, before, k, k, m as int);
        law_a_step_reaches_one_cell(h, prev, other, before, m, k);
        if !on_rim(k) {
            let (l, r, d, u) = (k - 1, k + 1, k - SIM_CELLS, k + SIM_CELLS);
            assert(col(l) == col(k) - 1 && row(l) == row(k));
            assert(col(r) == col(k) + 1 && row(r) == row(k));
            assert(col(d) == col(k) && row(d) == row(k) - 1);
            assert(col(u) == col(k) && row(u) == row(k) + 1);
            lemma_agree_nearer(h, prev, other, before, k, l, m as int);
            lemma_agree_nearer(h, prev, other, before, k, r, m as int);
            lemma_agree_nearer(h, prev, other, before, k, d, m as int);
            lemma_agree_nearer(h, prev, other, before, k, u, m as int);
            law_a_step_reaches_one_cell(h, prev, other, before, m, l);
            law_a_step_reaches_one_cell(h, prev, other, before, m, r);
            law_a_step_reaches_one_cell(h, prev, other, before, m, d);
            law_a_step_reaches_one_cell(h, prev, other, before, m, u);
        }
    }
}

proof fn lemma_agree_nearer<S: Scalar>(
    h: Seq<S>,
    prev: Seq<S>,
    other: Seq<S>,
    before: Seq<S>,
    k: int,
    j: int,
    m: int,
)
    requires
        agree_near(h, prev, other, before, k, m + 1),
        cells_apart(k, j) <= 1,
    ensures
        agree_near(h, prev, other, before, j, m),
{
    assert forall|i: int|
        #![trigger h[i]]
        #![trigger prev[i]]
        0 <= i < SIM_AREA && cells_apart(j, i) <= m implies h[i] == other[i] && prev[i]
        == before[i] by {
        assert(cells_apart(k, i) <= cells_apart(k, j) + cells_apart(j, i));
    }
}

/// Whether a number's arithmetic leaves nothing where there was nothing: the steps the integrator
/// takes from zero heights all give zero.
pub open spec fn rest_is_kept<S: Scalar>() -> bool {
    let zero = int_of::<S>(0);
    &&& zero + zero == zero
    &&& zero - zero == zero
    &&& int_of::<S>(2) * zero == zero
    &&& int_of::<S>(4) * zero == zero
    &&& sim_c2::<S>() * zero == zero
    &&& zero * sim_damp::<S>() == zero
    &&& forall|d: int| 1 <= d < SIM_CELLS ==> zero * #[trigger] absorption::<S>(d) == zero
}

/// Water at rest stays at rest.
pub proof fn law_calm_stays_calm<S: Scalar>(n: nat)
    requires
        rest_is_kept::<S>(),
    ensures
        stepped_times(calm::<S>(), calm::<S>(), n) == (calm::<S>(), calm::<S>()),
    decreases n,
{
    if n > 0 {
        law_calm_stays_calm::<S>((n - 1) as nat);
        let flat = calm::<S>();
        assert forall|k: int| 0 <= k < SIM_AREA implies #[trigger] stepped(flat, flat)[k]
            == flat[k] by {
            assert(0 <= depth_in(k) < SIM_CELLS);
        }
        assert(stepped(flat, flat) =~= flat);
    }
}

/// The crate's own numbers keep water at rest.
pub proof fn law_fixed_keeps_rest()
    ensures
        rest_is_kept::<Fixed>(),
{
    let zero = int_of::<Fixed>(0);
    assert(0 * ONE == 0);
    assert(zero.raw == 0);
    assert forall|x: Fixed| #[trigger] (zero * x) == zero by {
        assert(0 * x.raw == 0);
    }
    assert forall|x: Fixed| #[trigger] (x * zero) == zero by {
        assert(x.raw * 0 == 0);
    }
}

/// A frame runs at most its budget of steps, and one that runs fewer has less than a step's time
/// left over: no frame's length can change the length of a step, only how many are taken.
pub proof fn law_steps_within_budget<S: Scalar>(accum: S, budget: nat)
    ensures
        steps_owed(accum, budget) <= budget,
        steps_owed(accum, budget) < budget ==> !(sim_dt::<S>() <= time_after(
            accum,
            steps_owed(accum, budget),
        )),
    decreases budget,
{
    if budget > 0 && sim_dt::<S>() <= accum {
        let rest = accum - sim_dt::<S>();
        let fewer = (budget - 1) as nat;
        law_steps_within_budget(rest, fewer);
        lemma_time_after_first(accum, steps_owed(rest, fewer));
    }
}

/// Taking one step out of a stretch of time and then `n` more takes out one more than `n`.
pub proof fn lemma_time_after_first<S: Scalar>(accum: S, n: nat)
    ensures
        time_after(accum - sim_dt::<S>(), n) == time_after(accum, n + 1),
    decreases n,
{
    if n > 0 {
        lemma_time_after_first(accum, (n - 1) as nat);
    } else {
        assert(time_after(accum, 0) == accum);
    }
}

/// Two fields, one on top of the other.
pub open spec fn summed<S: Scalar>(a: Seq<S>, b: Seq<S>) -> Seq<S> {
    Seq::new(a.len(), |k: int| a[k] + b[k])
}

/// Whether a number's arithmetic adds without rounding: sums may be regrouped, and a product with a
/// sum is the sum of the products.
pub open spec fn adds_exactly<S: Scalar>() -> bool {
    &&& int_of::<S>(0) + int_of::<S>(0) == int_of::<S>(0)
    &&& forall|a: S, b: S, c: S, d: S| #[trigger] ((a + b) + (c + d)) == (a + c) + (b + d)
    &&& forall|a: S, b: S, c: S, d: S| #[trigger] ((a + b) - (c + d)) == (a - c) + (b - d)
    &&& forall|a: S, b: S, k: S| #[trigger] (k * (a + b)) == k * a + k * b
    &&& forall|a: S, b: S, k: S| #[trigger] ((a + b) * k) == a * k + b * k
}

/// Wakes add where they cross, and cancel where they meet out of phase: two disturbances on one
/// field run on exactly as the sum of the two run alone. It holds in every arithmetic that adds
/// without rounding.
pub proof fn law_wakes_superpose<S: Scalar>(
    h: Seq<S>,
    prev: Seq<S>,
    other: Seq<S>,
    before: Seq<S>,
    n: nat,
)
    requires
        adds_exactly::<S>(),
        h.len() == SIM_AREA,
        prev.len() == SIM_AREA,
        other.len() == SIM_AREA,
        before.len() == SIM_AREA,
    ensures
        ({
            let (a, b) = (stepped_times(h, prev, n), stepped_times(other, before, n));
            stepped_times(summed(h, other), summed(prev, before), n) == (
                summed(a.0, b.0),
                summed(a.1, b.1),
            )
        }),
        stepped_times(h, prev, n).0.len() == SIM_AREA,
        stepped_times(h, prev, n).1.len() == SIM_AREA,
    decreases n,
{
    if n > 0 {
        let m = (n - 1) as nat;
        law_wakes_superpose(h, prev, other, before, m);
        law_wakes_superpose(other, before, h, prev, m);
        let (a, b) = stepped_times(h, prev, m);
        let (c, d) = stepped_times(other, before, m);
        let whole = stepped(summed(a, c), summed(b, d));
        let parts = summed(stepped(a, b), stepped(c, d));
        assert forall|k: int| 0 <= k < SIM_AREA implies #[trigger] whole[k] == parts[k] by {
            if !on_rim(k) {
                lemma_cell_superposes(a, b, c, d, k);
            }
        }
        assert(whole =~= parts);
    }
}

proof fn lemma_cell_superposes<S: Scalar>(a: Seq<S>, b: Seq<S>, c: Seq<S>, d: Seq<S>, k: int)
    requires
        adds_exactly::<S>(),
        a.len() == SIM_AREA,
        b.len() == SIM_AREA,
        c.len() == SIM_AREA,
        d.len() == SIM_AREA,
        0 <= k < SIM_AREA,
        !on_rim(k),
    ensures
        stepped_cell(summed(a, c), summed(b, d), k) == stepped_cell(a, b, k) + stepped_cell(
            c,
            d,
            k,
        ),
{
    let s = summed(a, c);
    assert(SIM_CELLS < k && k + SIM_CELLS < SIM_AREA);
    let (l, r, u, w) = (k - 1, k + 1, k - SIM_CELLS, k + SIM_CELLS);
    let four = int_of::<S>(4);
    assert(s[l] + s[r] == (a[l] + a[r]) + (c[l] + c[r]));
    assert(s[l] + s[r] + s[u] == (a[l] + a[r] + a[u]) + (c[l] + c[r] + c[u]));
    assert(s[l] + s[r] + s[u] + s[w] == (a[l] + a[r] + a[u] + a[w]) + (c[l] + c[r] + c[u] + c[w]));
    assert(four * s[k] == four * a[k] + four * c[k]);
    assert(laplacian(s, k) == laplacian(a, k) + laplacian(c, k));
    let two = int_of::<S>(2);
    let c2 = sim_c2::<S>();
    let damp = sim_damp::<S>();
    let keep = absorption::<S>(depth_in(k));
    assert(two * s[k] == two * a[k] + two * c[k]);
    let p = two * a[k] - b[k];
    let q = two * c[k] - d[k];
    assert(two * s[k] - summed(b, d)[k] == p + q);
    assert(c2 * laplacian(s, k) == c2 * laplacian(a, k) + c2 * laplacian(c, k));
    let x = p + c2 * laplacian(a, k);
    let y = q + c2 * laplacian(c, k);
    assert((p + q) + (c2 * laplacian(a, k) + c2 * laplacian(c, k)) == x + y);
    assert((x + y) * damp == x * damp + y * damp);
    assert((x * damp + y * damp) * keep == (x * damp) * keep + (y * damp) * keep);
}

/// How far into the absorbing band a cell is, in exact numbers.
proof fn lemma_share_of_band(d: int)
    requires
        1 <= d < EDGE_ABSORB,
    ensures
        (int_of::<Fixed>(d - 1) / int_of::<Fixed>(EDGE_ABSORB - 1)).raw == ((d - 1)
            * 0x1_0000_0000) / 13,
        absorption::<Fixed>(d).raw == Fixed::frac(72, 100).raw + (Fixed::frac(28, 100).raw * (((d
            - 1) * 0x1_0000_0000) / 13)) / 0x1_0000_0000,
{
    let e = d - 1;
    let top = e * 0x1_0000_0000 * 0x1_0000_0000;
    assert(int_of::<Fixed>(e).raw == e * 0x1_0000_0000);
    assert(int_of::<Fixed>(13).raw == 0xD_0000_0000);
    assert(int_of::<Fixed>(e).raw * ONE == top);
    assert(top / 0xD_0000_0000 == (e * 0x1_0000_0000) / 13);
    let share = int_of::<Fixed>(e) / int_of::<Fixed>(13);
    assert(share == saturated(top / 0xD_0000_0000));
    let rise = Fixed::frac(28, 100);
    assert(0 <= rise.raw <= 0x1_0000_0000);
    assert(0 <= Fixed::frac(72, 100).raw <= 0x1_0000_0000);
    assert(0 <= rise.raw * share.raw <= 0x1_0000_0000 * 0x1_0000_0000) by (nonlinear_arith)
        requires
            0 <= rise.raw <= 0x1_0000_0000,
            0 <= share.raw <= 0x1_0000_0000,
    ;
}

/// The rim only ever absorbs, and gradually: the outermost cell that moves keeps the least, a cell
/// further in keeps at least as much as one further out, and from the inner edge of the band on a
/// cell keeps all of a wave.
pub proof fn law_the_rim_absorbs_gradually(a: int, b: int)
    requires
        1 <= a <= b,
    ensures
        absorption::<Fixed>(1) == Fixed::frac(72, 100),
        Fixed::frac(72, 100) <= absorption::<Fixed>(a),
        absorption::<Fixed>(a) <= absorption::<Fixed>(b),
        absorption::<Fixed>(b) <= int_of::<Fixed>(1),
        EDGE_ABSORB <= b ==> absorption::<Fixed>(b) == int_of::<Fixed>(1),
{
    assert(int_of::<Fixed>(1).raw == 0x1_0000_0000);
    let rise = Fixed::frac(28, 100).raw as int;
    let least = Fixed::frac(72, 100).raw as int;
    assert(rise == (28 * 0x1_0000_0000) / 100 && least == (72 * 0x1_0000_0000) / 100);
    lemma_share_of_band(1);
    assert(rise * 0 == 0);
    if a < EDGE_ABSORB {
        lemma_share_of_band(a);
        let x = ((a - 1) * 0x1_0000_0000) / 13;
        assert(0 <= rise * x <= rise * 0x1_0000_0000) by (nonlinear_arith)
            requires
                0 <= x <= 0x1_0000_0000,
                0 <= rise,
        ;
    }
    if b < EDGE_ABSORB {
        lemma_share_of_band(b);
        let x = ((a - 1) * 0x1_0000_0000) / 13;
        let y = ((b - 1) * 0x1_0000_0000) / 13;
        assert(0 <= rise * x <= rise * y && rise * y <= rise * 0x1_0000_0000) by (nonlinear_arith)
            requires
                0 <= x <= y <= 0x1_0000_0000,
                0 <= rise,
        ;
        vstd::arithmetic::div_mod::lemma_div_is_ordered(rise * x, rise * y, 0x1_0000_0000);
    }
}

} // verus!
