//! How much screen each distinct water height covers.
//!
//! Which plane a mirror should serve is a question about screen area: the height of the water the
//! player is mostly looking at. A body of water is many surfaces at one height, so heights are
//! gathered into buckets and their shares of the screen added up.

use vstd::prelude::*;

use crate::scalar::{int_of, ordered, whole_number, Scalar};

verus! {

/// How many distinct water heights can be ranked at once.
pub const PROMINENCE_SLOTS: usize = 12;

/// How far apart two surface heights must be to be ranked separately, in yards.
pub open spec fn bucket_yards<S: Scalar>() -> S {
    S::frac(1, 2)
}

/// How much better a challenger must score than the plane already in use before it is handed over.
pub open spec fn hysteresis<S: Scalar>() -> S {
    S::frac(15, 10)
}

/// Whether two heights are near enough to be ranked together.
pub open spec fn same_bucket<S: Scalar>(a: S, b: S) -> bool {
    (a - b).magnitude() <= bucket_yards::<S>()
}

/// A height, and how much screen the water at it covers.
#[derive(Debug, PartialEq)]
pub struct Slot<S> {
    pub z: S,
    pub score: S,
}

impl<S: Copy> Clone for Slot<S> {
    fn clone(&self) -> (r: Self)
        ensures
            r == *self,
    {
        *self
    }
}

impl<S: Copy> Copy for Slot<S> {

}

/// The slot nearest a height so far, and how near it is.
pub struct Closest<S> {
    pub at: Option<usize>,
    pub gap: S,
}

/// The slot among the first `n` nearest a height; the first of those equally near.
pub open spec fn closest<S: Scalar>(slots: Seq<Slot<S>>, z: S, n: int) -> Closest<S>
    decreases n,
{
    if n <= 0 {
        Closest { at: None, gap: S::top() }
    } else {
        let before = closest(slots, z, n - 1);
        let gap = (slots[n - 1].z - z).magnitude();
        if gap < before.gap {
            Closest { at: Some((n - 1) as usize), gap }
        } else {
            before
        }
    }
}

/// Whether a score counts at all.
pub open spec fn counts<S: Scalar>(score: S) -> bool {
    score.finite() && !(score <= int_of::<S>(0))
}

/// Whether a height has somewhere to go: a slot near it, or a free one.
pub open spec fn has_room<S: Scalar>(slots: Seq<Slot<S>>, z: S) -> bool {
    ||| closest(slots, z, slots.len() as int).at is Some
    ||| slots.len() < PROMINENCE_SLOTS && !(S::top() <= bucket_yards::<S>())
}

/// The slots once a surface at a height has been ranked: its score is added to the height in the
/// same bucket; a new height takes a free slot; and where there is none it is folded into the
/// nearest height rather than lost.
pub open spec fn ranked<S: Scalar>(slots: Seq<Slot<S>>, z: S, score: S) -> Seq<Slot<S>> {
    let near = closest(slots, z, slots.len() as int);
    if !counts(score) {
        slots
    } else if !(near.gap <= bucket_yards::<S>()) && slots.len() < PROMINENCE_SLOTS {
        slots.push(Slot { z, score })
    } else {
        let i = near.at->0 as int;
        slots.update(i, Slot { z: slots[i].z, score: slots[i].score + score })
    }
}

/// The slot among the first `n` with the best score; the first of those equally good.
pub open spec fn best_slot<S: Scalar>(slots: Seq<Slot<S>>, n: int) -> Option<Slot<S>>
    decreases n,
{
    if n <= 0 {
        None
    } else {
        match best_slot(slots, n - 1) {
            Some(b) if slots[n - 1].score <= b.score => Some(b),
            _ => Some(slots[n - 1]),
        }
    }
}

/// The height covering the most screen.
pub open spec fn best_of<S: Scalar>(slots: Seq<Slot<S>>) -> Option<S> {
    match best_slot(slots, slots.len() as int) {
        Some(b) => Some(b.z),
        None => None,
    }
}

/// The greatest score among the first `n` slots, and at least nothing.
pub open spec fn top_score<S: Scalar>(slots: Seq<Slot<S>>, n: int) -> S
    decreases n,
{
    if n <= 0 {
        int_of::<S>(0)
    } else {
        top_score(slots, n - 1).greater(slots[n - 1].score)
    }
}

/// The first slot, from `n` on, in the bucket of a height.
pub open spec fn standing<S: Scalar>(slots: Seq<Slot<S>>, held: S, n: int) -> Option<Slot<S>>
    decreases slots.len() - n,
{
    if n >= slots.len() {
        None
    } else if same_bucket(slots[n].z, held) {
        Some(slots[n])
    } else {
        standing(slots, held, n + 1)
    }
}

/// The height covering the most screen, with the plane already in use given right of first refusal:
/// while it is in frame it is given up only to one that is clearly better.
pub open spec fn sticky_of<S: Scalar>(slots: Seq<Slot<S>>, incumbent: Option<S>) -> Option<S> {
    match (best_of(slots), incumbent) {
        (None, _) => None,
        (Some(challenger), None) => Some(challenger),
        (Some(challenger), Some(held)) => match standing(slots, held, 0) {
            None => Some(challenger),
            Some(s) => if s.score * hysteresis::<S>() < top_score(slots, slots.len() as int) {
                Some(challenger)
            } else {
                Some(s.z)
            },
        },
    }
}

/// The water heights in frame, each with its share of the screen.
pub struct Prominence<S> {
    slots: Vec<Slot<S>>,
}

impl<S: Scalar> Prominence<S> {
    /// No more heights than there are slots.
    pub closed spec fn wf(&self) -> bool {
        self.slots@.len() <= PROMINENCE_SLOTS
    }

    /// The heights and their scores, in the order they were first met.
    pub closed spec fn view(&self) -> Seq<Slot<S>> {
        self.slots@
    }

    /// Nothing in frame.
    pub fn new() -> (r: Self)
        ensures
            r.wf(),
            r@ == Seq::<Slot<S>>::empty(),
    {
        Prominence { slots: Vec::new() }
    }

    /// How many distinct heights are in frame.
    pub fn used(&self) -> (r: usize)
        requires
            self.wf(),
        ensures
            r == self@.len(),
            r <= PROMINENCE_SLOTS,
    {
        self.slots.len()
    }

    /// The slot nearest a height.
    fn nearest_slot(&self, z: S) -> (r: Closest<S>)
        requires
            self.wf(),
        ensures
            r == closest(self@, z, self@.len() as int),
            r.at matches Some(i) ==> i < self@.len(),
    {
        let mut near: Closest<S> = Closest { at: None, gap: S::largest() };
        let mut i: usize = 0;
        while i < self.slots.len()
            invariant
                i <= self.slots@.len(),
                near == closest(self.slots@, z, i as int),
                near.at matches Some(k) ==> k < i,
            decreases self.slots@.len() - i,
        {
            let gap: S = self.slots[i].z.minus(z).absolute();
            if gap.less(near.gap) {
                near = Closest { at: Some(i), gap };
            }
            i = i + 1;
        }
        near
    }

    /// Whether a height has somewhere to go.
    pub fn fits(&self, z: S) -> (r: bool)
        requires
            self.wf(),
        ensures
            r == has_room(self@, z),
    {
        let near: Closest<S> = self.nearest_slot(z);
        let bucket: S = S::ratio(1, 2);
        near.at.is_some() || (self.slots.len() < PROMINENCE_SLOTS && !S::largest().at_most(bucket))
    }

    /// Rank a surface: `score` is its share of the screen.
    pub fn add(&mut self, z: S, score: S)
        requires
            old(self).wf(),
            counts(score) ==> has_room(old(self)@, z),
        ensures
            final(self).wf(),
            final(self)@ == ranked(old(self)@, z, score),
    {
        let zero: S = whole_number(0);
        let bucket: S = S::ratio(1, 2);
        if !score.is_finite() || score.at_most(zero) {
            return ;
        }
        let near: Closest<S> = self.nearest_slot(z);
        if !near.gap.at_most(bucket) && self.slots.len() < PROMINENCE_SLOTS {
            self.slots.push(Slot { z, score });
        } else {
            proof {
                lemma_closest(self@, z, self@.len() as int);
            }
            match near.at {
                Some(i) => {
                    let was: Slot<S> = self.slots[i];
                    self.slots.set(i, Slot { z: was.z, score: was.score.plus(score) });
                },
                None => {
                    assert(false);
                },
            }
        }
    }

    /// The greatest score in frame, and at least nothing.
    pub fn top(&self) -> (r: S)
        ensures
            r == top_score(self@, self@.len() as int),
    {
        let mut top: S = whole_number(0);
        let mut i: usize = 0;
        while i < self.slots.len()
            invariant
                i <= self.slots@.len(),
                top == top_score(self.slots@, i as int),
            decreases self.slots@.len() - i,
        {
            top = top.greatest(self.slots[i].score);
            i = i + 1;
        }
        top
    }

    /// The height covering the most screen, or nothing when nothing was in frame.
    pub fn best(&self) -> (r: Option<S>)
        ensures
            r == best_of(self@),
    {
        let mut best: Option<Slot<S>> = None;
        let mut i: usize = 0;
        while i < self.slots.len()
            invariant
                i <= self.slots@.len(),
                best == best_slot(self.slots@, i as int),
            decreases self.slots@.len() - i,
        {
            let slot: Slot<S> = self.slots[i];
            let keep: bool = match &best {
                Some(b) => slot.score.at_most(b.score),
                None => false,
            };
            if !keep {
                best = Some(slot);
            }
            i = i + 1;
        }
        match best {
            Some(b) => Some(b.z),
            None => None,
        }
    }

    /// The height covering the most screen, with the plane already in use given right of first
    /// refusal. A plane that has left the frame has nothing to defend.
    pub fn best_sticky(&self, incumbent: Option<S>) -> (r: Option<S>)
        ensures
            r == sticky_of(self@, incumbent),
    {
        let challenger: S = match self.best() {
            Some(c) => c,
            None => {
                return None;
            },
        };
        let held: S = match incumbent {
            Some(h) => h,
            None => {
                return Some(challenger);
            },
        };
        let bucket: S = S::ratio(1, 2);
        let bar: S = S::ratio(15, 10);
        let mut i: usize = 0;
        while i < self.slots.len()
            invariant
                i <= self.slots@.len(),
                bucket == bucket_yards::<S>(),
                bar == hysteresis::<S>(),
                best_of(self@) == Some(challenger),
                incumbent == Some(held),
                standing(self.slots@, held, 0) == standing(self.slots@, held, i as int),
            decreases self.slots@.len() - i,
        {
            let slot: Slot<S> = self.slots[i];
            if slot.z.minus(held).absolute().at_most(bucket) {
                let top: S = self.top();
                if slot.score.times(bar).less(top) {
                    return Some(challenger);
                }
                return Some(slot.z);
            }
            i = i + 1;
        }
        Some(challenger)
    }

    /// One of the heights in frame.
    pub fn slot(&self, i: usize) -> (r: Slot<S>)
        requires
            i < self@.len(),
        ensures
            r == self@[i as int],
    {
        self.slots[i]
    }
}

/// The slot nearest a height is one of those looked at; where none is, the gap is the widest there
/// is.
proof fn lemma_closest<S: Scalar>(slots: Seq<Slot<S>>, z: S, n: int)
    requires
        n <= PROMINENCE_SLOTS,
    ensures
        closest(slots, z, n).at matches Some(i) ==> i < n,
        closest(slots, z, n).at is None ==> closest(slots, z, n).gap == S::top(),
    decreases n,
{
    if n > 0 {
        lemma_closest(slots, z, n - 1);
    }
}

/// Ranking never takes more heights than there are slots, never loses one, and never moves one: a
/// surface adds to a height or takes the next slot.
pub proof fn law_ranking_keeps_the_heights<S: Scalar>(slots: Seq<Slot<S>>, z: S, score: S)
    requires
        slots.len() <= PROMINENCE_SLOTS,
        counts(score) ==> has_room(slots, z),
    ensures
        slots.len() <= ranked(slots, z, score).len() <= PROMINENCE_SLOTS,
        ranked(slots, z, score).len() == slots.len() || ranked(slots, z, score) == slots.push(
            Slot { z, score },
        ),
        forall|i: int|
            0 <= i < slots.len() ==> (#[trigger] ranked(slots, z, score)[i]).z == slots[i].z,
{
    lemma_closest(slots, z, slots.len() as int);
}

/// One body of water accumulates: a surface whose height is within a bucket of one already in frame
/// adds its score there and takes no slot of its own.
pub proof fn law_one_body_accumulates<S: Scalar>(slots: Seq<Slot<S>>, z: S, score: S)
    requires
        slots.len() <= PROMINENCE_SLOTS,
        counts(score),
        closest(slots, z, slots.len() as int).gap <= bucket_yards::<S>(),
        closest(slots, z, slots.len() as int).at is Some,
    ensures
        ({
            let i = closest(slots, z, slots.len() as int).at->0 as int;
            &&& ranked(slots, z, score).len() == slots.len()
            &&& 0 <= i < slots.len()
            &&& ranked(slots, z, score)[i].score == slots[i].score + score
            &&& forall|k: int|
                0 <= k < slots.len() && k != i ==> #[trigger] ranked(slots, z, score)[k] == slots[k]
        }),
{
    lemma_closest(slots, z, slots.len() as int);
}

/// There is an answer whenever anything is in frame, and it is a height in frame.
pub proof fn law_a_view_with_water_has_a_plane<S: Scalar>(slots: Seq<Slot<S>>, held: Option<S>)
    ensures
        best_of(slots) is None <==> slots.len() == 0,
        sticky_of(slots, held) is None <==> slots.len() == 0,
        sticky_of(slots, held) matches Some(z) ==> exists|i: int|
            0 <= i < slots.len() && (#[trigger] slots[i]).z == z,
{
    lemma_best_slot_is_one(slots, slots.len() as int);
    if let Some(h) = held {
        lemma_standing_is_one(slots, h, 0);
    }
}

proof fn lemma_best_slot_is_one<S: Scalar>(slots: Seq<Slot<S>>, n: int)
    requires
        0 <= n <= slots.len(),
    ensures
        best_slot(slots, n) is None <==> n == 0,
        best_slot(slots, n) matches Some(b) ==> exists|i: int|
            0 <= i < n && #[trigger] slots[i] == b,
    decreases n,
{
    if n > 0 {
        lemma_best_slot_is_one(slots, n - 1);
        assert(slots[n - 1] == slots[n - 1]);
    }
}

pub proof fn lemma_standing_is_one<S: Scalar>(slots: Seq<Slot<S>>, held: S, n: int)
    requires
        0 <= n,
    ensures
        standing(slots, held, n) matches Some(s) ==> {
            &&& same_bucket(s.z, held)
            &&& exists|i: int| n <= i < slots.len() && #[trigger] slots[i] == s
        },
    decreases slots.len() - n,
{
    if n < slots.len() {
        lemma_standing_is_one(slots, held, n + 1);
        assert(slots[n] == slots[n]);
    }
}

/// A plane in use is given up only to one that is clearly better: while it is in frame and nothing
/// outscores it by the bar, it is the answer.
pub proof fn law_the_incumbent_holds<S: Scalar>(slots: Seq<Slot<S>>, held: S)
    requires
        standing(slots, held, 0) matches Some(s) && !(s.score * hysteresis::<S>() < top_score(
            slots,
            slots.len() as int,
        )),
    ensures
        sticky_of(slots, Some(held)) == Some(standing(slots, held, 0)->0.z),
{
    lemma_standing_is_one(slots, held, 0);
    lemma_best_slot_is_one(slots, slots.len() as int);
}

/// A plane that has left the frame gives way at once.
pub proof fn law_an_absent_incumbent_gives_way<S: Scalar>(slots: Seq<Slot<S>>, held: S)
    requires
        standing(slots, held, 0) is None,
    ensures
        sticky_of(slots, Some(held)) == best_of(slots),
{
}

/// Of the heights in frame the best covers the most screen, and it is the first of those that cover
/// as much. It is asked only that the scores compare.
pub proof fn law_the_best_covers_the_most<S: Scalar>(slots: Seq<Slot<S>>) -> (k: int)
    requires
        ordered::<S>(),
        slots.len() > 0,
        forall|i: int| 0 <= i < slots.len() ==> (#[trigger] slots[i]).score <= slots[i].score,
    ensures
        0 <= k < slots.len(),
        best_slot(slots, slots.len() as int) == Some(slots[k]),
        best_of(slots) == Some(slots[k].z),
        forall|i: int| 0 <= i < slots.len() ==> (#[trigger] slots[i]).score <= slots[k].score,
        forall|i: int| 0 <= i < k ==> !(slots[k].score <= (#[trigger] slots[i]).score),
{
    lemma_best_so_far(slots, slots.len() as int)
}

proof fn lemma_best_so_far<S: Scalar>(slots: Seq<Slot<S>>, n: int) -> (k: int)
    requires
        ordered::<S>(),
        0 < n <= slots.len(),
        forall|i: int| 0 <= i < slots.len() ==> (#[trigger] slots[i]).score <= slots[i].score,
    ensures
        0 <= k < n,
        best_slot(slots, n) == Some(slots[k]),
        forall|i: int| 0 <= i < n ==> (#[trigger] slots[i]).score <= slots[k].score,
        forall|i: int| 0 <= i < k ==> !(slots[k].score <= (#[trigger] slots[i]).score),
    decreases n,
{
    if n == 1 {
        reveal_with_fuel(best_slot, 2);
        0
    } else {
        let k = lemma_best_so_far(slots, n - 1);
        let last = slots[n - 1].score;
        let best = slots[k].score;
        if last <= best {
            k
        } else {
            assert(!last.spec_lt(best));
            assert(best <= last);
            assert forall|i: int| 0 <= i < n implies (#[trigger] slots[i]).score <= last by {
                if i < n - 1 {
                    assert(slots[i].score.spec_le(best) && best.spec_le(last));
                }
            }
            assert forall|i: int| 0 <= i < n - 1 implies !(last <= (#[trigger] slots[i]).score) by {
                if last <= slots[i].score {
                    assert(last.spec_le(slots[i].score) && slots[i].score.spec_le(best));
                }
            }
            n - 1
        }
    }
}

/// The slot found nearest a height is one, and no slot looked at is nearer; and as soon as one is in
/// the height's bucket the gap is that of a bucket at most.
proof fn lemma_closest_is_least<S: Scalar>(slots: Seq<Slot<S>>, z: S, n: int)
    requires
        ordered::<S>(),
        0 <= n <= slots.len() <= PROMINENCE_SLOTS,
    ensures
        ({
            let near = closest(slots, z, n);
            &&& near.gap <= near.gap
            &&& near.at matches Some(k) ==> k < n && near.gap == (slots[k as int].z - z).magnitude()
            &&& near.at is None ==> near.gap == S::top()
            &&& forall|i: int|
                0 <= i < n ==> !(((#[trigger] slots[i]).z - z).magnitude() < near.gap)
            &&& forall|i: int|
                0 <= i < n && same_bucket((#[trigger] slots[i]).z, z) ==> near.gap
                    <= bucket_yards::<S>()
        }),
    decreases n,
{
    if n > 0 {
        lemma_closest_is_least(slots, z, n - 1);
        let before = closest(slots, z, n - 1);
        let gap = (slots[n - 1].z - z).magnitude();
        let near = closest(slots, z, n);
        let wide = bucket_yards::<S>();
        assert forall|i: int| 0 <= i < n implies !(((#[trigger] slots[i]).z - z).magnitude()
            < near.gap) by {
            let other = (slots[i].z - z).magnitude();
            if other < near.gap && gap < before.gap {
                if i < n - 1 {
                    assert(other.spec_le(gap) && gap.spec_le(before.gap));
                    assert(!other.spec_lt(before.gap));
                    assert(before.gap.spec_le(other));
                    assert(before.gap.spec_le(gap));
                } else {
                    assert(other.spec_lt(other));
                }
            }
        }
        assert forall|i: int| 0 <= i < n && same_bucket((#[trigger] slots[i]).z, z) implies near.gap
            <= wide by {
            let other = (slots[i].z - z).magnitude();
            if gap < before.gap {
                if i < n - 1 {
                    assert(gap.spec_le(before.gap) && before.gap.spec_le(wide));
                }
            } else if i == n - 1 {
                assert(!gap.spec_lt(before.gap));
                assert(before.gap.spec_le(gap) && gap.spec_le(wide));
            }
        }
    }
}

/// A surface whose score counts changes exactly one thing: where no height is in its bucket and a
/// slot is free it takes the next slot, and else its score is added to a height than which none is
/// nearer. So no score is dropped.
pub proof fn law_a_surface_adds_to_the_nearest<S: Scalar>(slots: Seq<Slot<S>>, z: S, score: S)
    requires
        ordered::<S>(),
        slots.len() <= PROMINENCE_SLOTS,
        counts(score),
        has_room(slots, z),
    ensures
        ({
            let new = slots.len() < PROMINENCE_SLOTS && forall|i: int|
                0 <= i < slots.len() ==> !same_bucket((#[trigger] slots[i]).z, z);
            if new {
                ranked(slots, z, score) == slots.push(Slot { z, score })
            } else {
                exists|k: int|
                    {
                        &&& 0 <= k < slots.len()
                        &&& ranked(slots, z, score) == slots.update(
                            k,
                            Slot { z: slots[k].z, score: #[trigger] slots[k].score + score },
                        )
                        &&& forall|i: int|
                            0 <= i < slots.len() ==> !(((#[trigger] slots[i]).z - z).magnitude() < (
                            slots[k].z - z).magnitude())
                    }
            }
        }),
{
    let n = slots.len() as int;
    let near = closest(slots, z, n);
    lemma_closest_is_least(slots, z, n);
    let wide = bucket_yards::<S>();
    if near.gap <= wide || slots.len() == PROMINENCE_SLOTS {
        let k = near.at->0 as int;
        assert(near.at is Some);
        if near.gap <= wide {
            assert(same_bucket(slots[k].z, z));
        }
        assert(ranked(slots, z, score) == slots.update(
            k,
            Slot { z: slots[k].z, score: slots[k].score + score },
        ));
    }
}

/// Whether every height is in another bucket than each before it.
pub open spec fn apart<S: Scalar>(slots: Seq<Slot<S>>) -> bool {
    forall|i: int, j: int|
        #![trigger slots[i], slots[j]]
        0 <= i < j < slots.len() ==> !same_bucket(slots[i].z, slots[j].z)
}

/// The slots once a run of surfaces has been ranked, each given by its height and its score.
pub open spec fn run_ranked<S: Scalar>(seen: Seq<Slot<S>>) -> Seq<Slot<S>>
    decreases seen.len(),
{
    if seen.len() == 0 {
        Seq::empty()
    } else {
        ranked(run_ranked(seen.drop_last()), seen.last().z, seen.last().score)
    }
}

/// Whether every surface of a run has somewhere to go when it is ranked.
pub open spec fn run_fits<S: Scalar>(seen: Seq<Slot<S>>) -> bool
    decreases seen.len(),
{
    seen.len() > 0 ==> {
        &&& run_fits(seen.drop_last())
        &&& counts(seen.last().score) ==> has_room(run_ranked(seen.drop_last()), seen.last().z)
    }
}

/// Ranking a surface keeps the heights in different buckets.
pub proof fn law_ranking_keeps_heights_apart<S: Scalar>(slots: Seq<Slot<S>>, z: S, score: S)
    requires
        ordered::<S>(),
        slots.len() <= PROMINENCE_SLOTS,
        counts(score) ==> has_room(slots, z),
        apart(slots),
    ensures
        apart(ranked(slots, z, score)),
{
    law_ranking_keeps_the_heights(slots, z, score);
    let after = ranked(slots, z, score);
    if counts(score) {
        lemma_closest_is_least(slots, z, slots.len() as int);
    }
    assert forall|i: int, j: int|
        #![trigger after[i], after[j]]
        0 <= i < j < after.len() implies !same_bucket(after[i].z, after[j].z) by {
        assert(after[i].z == slots[i].z);
        if j < slots.len() {
            assert(after[j].z == slots[j].z);
            assert(!same_bucket(slots[i].z, slots[j].z));
        } else {
            assert(after == slots.push(Slot { z, score }));
        }
    }
}

/// However many surfaces have been ranked, there are no more heights than slots, they are in
/// different buckets, and each is the height of a surface of the run.
pub proof fn law_ranked_heights_are_apart<S: Scalar>(seen: Seq<Slot<S>>)
    requires
        ordered::<S>(),
        run_fits(seen),
    ensures
        run_ranked(seen).len() <= PROMINENCE_SLOTS,
        apart(run_ranked(seen)),
        forall|i: int|
            0 <= i < run_ranked(seen).len() ==> exists|k: int|
                0 <= k < seen.len() && (#[trigger] run_ranked(seen)[i]).z == (#[trigger] seen[k]).z,
    decreases seen.len(),
{
    if seen.len() > 0 {
        let rest = seen.drop_last();
        let (z, score) = (seen.last().z, seen.last().score);
        law_ranked_heights_are_apart(rest);
        law_ranking_keeps_the_heights(run_ranked(rest), z, score);
        law_ranking_keeps_heights_apart(run_ranked(rest), z, score);
        let before = run_ranked(rest);
        let after = run_ranked(seen);
        assert forall|i: int| 0 <= i < after.len() implies exists|k: int|
            0 <= k < seen.len() && (#[trigger] after[i]).z == (#[trigger] seen[k]).z by {
            if i < before.len() {
                assert(after[i].z == before[i].z);
                let k = choose|k: int|
                    0 <= k < rest.len() && before[i].z == (#[trigger] rest[k]).z;
                assert(seen[k] == rest[k]);
            } else {
                assert(after == before.push(Slot { z, score }));
                assert(seen[seen.len() - 1].z == z);
            }
        }
    }
}

/// The first slot in the bucket of a slot's own height is that slot.
proof fn lemma_stands_for_itself<S: Scalar>(slots: Seq<Slot<S>>, k: int, n: int)
    requires
        apart(slots),
        0 <= n <= k < slots.len(),
        same_bucket(slots[k].z, slots[k].z),
    ensures
        standing(slots, slots[k].z, n) == Some(slots[k]),
    decreases k - n,
{
    if n < k {
        assert(!same_bucket(slots[n].z, slots[k].z));
        lemma_stands_for_itself(slots, k, n + 1);
    }
}

/// A choice stands: while the scores are as they are, choosing again with the chosen plane in use
/// gives that plane.
pub proof fn law_a_choice_stands<S: Scalar>(slots: Seq<Slot<S>>, incumbent: Option<S>)
    requires
        apart(slots),
        forall|i: int| 0 <= i < slots.len() ==> same_bucket((#[trigger] slots[i]).z, slots[i].z),
    ensures
        sticky_of(slots, sticky_of(slots, incumbent)) == sticky_of(slots, incumbent),
{
    if let Some(z) = sticky_of(slots, incumbent) {
        let best = best_of(slots)->0;
        lemma_best_slot_is_one(slots, slots.len() as int);
        if z != best {
            let held = incumbent->0;
            lemma_standing_is_one(slots, held, 0);
            let s = standing(slots, held, 0)->0;
            let k = choose|k: int| 0 <= k < slots.len() && #[trigger] slots[k] == s;
            lemma_stands_for_itself(slots, k, 0);
        } else {
            let b = best_slot(slots, slots.len() as int)->0;
            let k = choose|k: int| 0 <= k < slots.len() && #[trigger] slots[k] == b;
            lemma_stands_for_itself(slots, k, 0);
        }
    }
}

/// A choice among the heights of a run of surfaces stands, whatever plane was in use before.
pub proof fn law_a_choice_in_view_stands<S: Scalar>(seen: Seq<Slot<S>>, incumbent: Option<S>)
    requires
        ordered::<S>(),
        run_fits(seen),
        forall|i: int| 0 <= i < seen.len() ==> same_bucket((#[trigger] seen[i]).z, seen[i].z),
    ensures
        sticky_of(run_ranked(seen), sticky_of(run_ranked(seen), incumbent)) == sticky_of(
            run_ranked(seen),
            incumbent,
        ),
{
    law_ranked_heights_are_apart(seen);
    law_a_choice_stands(run_ranked(seen), incumbent);
}

} // verus!
