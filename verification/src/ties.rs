//! Which of several that are equally near is taken: always the first.

use vstd::prelude::*;

use crate::contour::Segment;
use crate::fixed::Fixed;
use crate::frame::Frame;
use crate::geometry::{Vec2, Vec3};
use crate::plane::{falls_back, nearest_probe, ranking, wet_at, Bounds, Sounding};
use crate::prominence::{closest, ranked, Slot};
use crate::scalar::Scalar;
use crate::shoreline::{nearest_of, nearest_on};

verus! {

/// How far apart two heights are, in whole steps.
pub open spec fn gap(a: Fixed, b: Fixed) -> int {
    if a.raw < b.raw {
        b.raw - a.raw
    } else {
        a.raw - b.raw
    }
}

/// Whether a height is no further than two hundred and fifty million yards from nothing.
pub open spec fn plain(v: Fixed) -> bool {
    -0x1000_0000_0000_0000 <= v.raw <= 0x1000_0000_0000_0000
}

/// The slot nearest a height is the first of those that are nearest.
pub proof fn law_the_first_of_the_nearest_heights(slots: Seq<Slot<Fixed>>, z: Fixed, n: int)
    requires
        0 <= n <= slots.len() <= 12,
        plain(z),
        forall|i: int| 0 <= i < slots.len() ==> plain((#[trigger] slots[i]).z),
    ensures
        n == 0 <==> closest(slots, z, n).at is None,
        closest(slots, z, n).at matches Some(k) ==> {
            &&& k < n
            &&& closest(slots, z, n).gap.raw == gap(slots[k as int].z, z)
            &&& forall|i: int| 0 <= i < n ==> gap(slots[k as int].z, z) <= gap((#[trigger] slots[i]).z, z)
            &&& forall|i: int| 0 <= i < k ==> gap(slots[k as int].z, z) < gap((#[trigger] slots[i]).z, z)
        },
    decreases n,
{
    if n > 0 {
        law_the_first_of_the_nearest_heights(slots, z, n - 1);
        let here = (slots[n - 1].z - z).magnitude();
        assert(here.raw == gap(slots[n - 1].z, z));
    }
}

/// A view is ranked by at most twelve heights: a height that none is within half a yard of takes a slot
/// of its own while fewer are taken, and once twelve are it is added to the first of the nearest.
pub proof fn law_a_view_is_ranked_by_twelve_heights(slots: Seq<Slot<Fixed>>, z: Fixed, score: Fixed)
    requires
        slots.len() <= 12,
        plain(z),
        forall|i: int| 0 <= i < slots.len() ==> plain((#[trigger] slots[i]).z),
        0 < score.raw,
    ensures
        ({
            let new = forall|i: int|
                0 <= i < slots.len() ==> gap((#[trigger] slots[i]).z, z) > 0x8000_0000;
            &&& new && slots.len() < 12 ==> ranked(slots, z, score) == slots.push(Slot { z, score })
            &&& !new || slots.len() == 12 ==> exists|k: int|
                {
                    &&& 0 <= k < slots.len()
                    &&& ranked(slots, z, score) == slots.update(
                        k,
                        Slot { z: slots[k].z, score: #[trigger] slots[k].score + score },
                    )
                    &&& forall|i: int|
                        0 <= i < slots.len() ==> gap(slots[k].z, z) <= gap((#[trigger] slots[i]).z, z)
                    &&& forall|i: int|
                        0 <= i < k ==> gap(slots[k].z, z) < gap((#[trigger] slots[i]).z, z)
                }
        }),
{
    let n = slots.len() as int;
    law_the_first_of_the_nearest_heights(slots, z, n);
    assert(Fixed::frac(1, 2).raw == 0x8000_0000);
    assert(crate::scalar::int_of::<Fixed>(0).raw == 0);
    let near = closest(slots, z, n);
    if near.at is Some {
        let k = near.at->0 as int;
        assert(0 <= k < n);
        let after = slots.update(k, Slot { z: slots[k].z, score: slots[k].score + score });
        if near.gap.raw <= 0x8000_0000 || n == 12 {
            assert(ranked(slots, z, score) == after);
        } else {
            assert(gap(slots[k].z, z) > 0x8000_0000);
        }
    }
}

/// The square of how far a probe is from a point, in steps of the numbers.
#[verifier::opaque]
pub open spec fn off(b: Bounds<Fixed>, p: Vec2<Fixed>, k: int) -> int {
    (b.lattice_point(k) - p).square().raw as int
}

/// Whether the `k`th probe is the nearest of the first `n` that are wet, and the first of those.
pub open spec fn first_probe(
    b: Bounds<Fixed>,
    p: Vec2<Fixed>,
    probes: Seq<Option<Fixed>>,
    n: int,
    k: int,
) -> bool {
    &&& 0 <= k < n
    &&& probes[k] is Some
    &&& forall|i: int|
        0 <= i < n && (#[trigger] probes[i]) is Some ==> off(b, p, k) <= off(b, p, i)
    &&& forall|i: int| 0 <= i < k && (#[trigger] probes[i]) is Some ==> off(b, p, k) < off(b, p, i)
}

/// What one more probe does to the nearest.
proof fn lemma_one_more_probe(
    b: Bounds<Fixed>,
    p: Vec2<Fixed>,
    probes: Seq<Option<Fixed>>,
    n: int,
)
    requires
        n > 0,
    ensures
        ({
            let (before, now) = (nearest_probe(b, p, probes, n - 1), nearest_probe(b, p, probes, n));
            let here = wet_at(probes[n - 1]->Some_0, b.lattice_point(n - 1), p);
            &&& here.d2.raw == off(b, p, n - 1)
            &&& probes[n - 1] is None ==> now == before
            &&& probes[n - 1] is Some ==> now == if before is Some && before->Some_0.d2.raw <= off(
                b,
                p,
                n - 1,
            ) {
                before
            } else {
                Some(here)
            }
        }),
{
    reveal(off);
}

/// The wet probe nearest a point is the first of those that are nearest.
pub proof fn law_the_first_of_the_nearest_probes(
    b: Bounds<Fixed>,
    p: Vec2<Fixed>,
    probes: Seq<Option<Fixed>>,
    n: int,
)
    requires
        0 <= n <= probes.len(),
    ensures
        nearest_probe(b, p, probes, n) is None <==> forall|i: int|
            0 <= i < n ==> (#[trigger] probes[i]) is None,
        nearest_probe(b, p, probes, n) matches Some(w) ==> exists|k: int| #[trigger]
            first_probe(b, p, probes, n, k) && w.d2.raw == off(b, p, k) && w.at == b.lattice_point(k)
                && Some(w.z) == probes[k],
    decreases n,
{
    if n > 0 {
        law_the_first_of_the_nearest_probes(b, p, probes, n - 1);
        lemma_one_more_probe(b, p, probes, n);
        let (before, now) = (nearest_probe(b, p, probes, n - 1), nearest_probe(b, p, probes, n));
        if before is Some {
            let w = before->Some_0;
            let k = choose|k: int| #[trigger]
                first_probe(b, p, probes, n - 1, k) && w.d2.raw == off(b, p, k) && w.at
                    == b.lattice_point(k) && Some(w.z) == probes[k];
            if now == before {
                assert(first_probe(b, p, probes, n, k)) by {
                    if probes[n - 1] is Some && !(off(b, p, k) <= off(b, p, n - 1)) {
                        assert(now == Some(
                            wet_at(probes[n - 1]->Some_0, b.lattice_point(n - 1), p),
                        ));
                    }
                }
            } else {
                assert(first_probe(b, p, probes, n, n - 1));
            }
        } else if now is Some {
            assert(first_probe(b, p, probes, n, n - 1));
        }
    }
}

/// How far off a piece of line is from a point, in steps of the numbers.
#[verifier::opaque]
pub open spec fn off_piece(s: Segment<Fixed>, p: Vec2<Fixed>) -> int {
    nearest_on(s, p).d.raw as int
}

/// Whether the `k`th piece of a run is the nearest of the first `n`, and the first of those.
pub open spec fn first_piece(segs: Seq<Segment<Fixed>>, p: Vec2<Fixed>, n: int, k: int) -> bool {
    &&& 0 <= k < n
    &&& forall|i: int|
        0 <= i < n ==> off_piece(segs[k], p) <= off_piece(#[trigger] segs[i], p)
    &&& forall|i: int| 0 <= i < k ==> off_piece(segs[k], p) < off_piece(#[trigger] segs[i], p)
}

/// What one more piece does to the nearest.
proof fn lemma_one_more_piece(segs: Seq<Segment<Fixed>>, p: Vec2<Fixed>, k: int)
    requires
        segs.len() > 1,
        0 <= k < segs.len() - 1,
        nearest_of(segs.drop_last(), p) == Some(nearest_on(segs[k], p)),
    ensures
        nearest_of(segs, p) == if off_piece(segs.last(), p) < off_piece(segs[k], p) {
            Some(nearest_on(segs.last(), p))
        } else {
            Some(nearest_on(segs[k], p))
        },
{
    reveal(off_piece);
}

/// The piece of a line nearest a point is the first of those that are nearest.
pub proof fn law_the_first_of_the_nearest_pieces(segs: Seq<Segment<Fixed>>, p: Vec2<Fixed>) -> (k: int)
    requires
        segs.len() > 0,
    ensures
        first_piece(segs, p, segs.len() as int, k),
        nearest_of(segs, p) == Some(nearest_on(segs[k], p)),
    decreases segs.len(),
{
    let rest = segs.drop_last();
    let last = segs.len() - 1;
    assert(segs[last] == segs.last());
    assert(forall|i: int| 0 <= i < last ==> segs[i] == #[trigger] rest[i]);
    if last == 0 {
        assert(nearest_of(rest, p) is None);
        0
    } else {
        let k = law_the_first_of_the_nearest_pieces(rest, p);
        assert(segs[k] == rest[k]);
        lemma_one_more_piece(segs, p, k);
        assert forall|i: int| 0 <= i < last implies off_piece(segs[k], p) <= off_piece(
            #[trigger] segs[i],
            p,
        ) && (i < k ==> off_piece(segs[k], p) < off_piece(segs[i], p)) by {
            assert(segs[i] == rest[i]);
        }
        if off_piece(segs[last], p) < off_piece(segs[k], p) {
            last
        } else {
            k
        }
    }
}

/// Whether the `k`th surface sounded is the nearest of the first `n` that are near and ahead, and the
/// first of those.
pub open spec fn first_nearest(soundings: Seq<Option<Sounding<Fixed>>>, n: int, k: int) -> bool {
    let w = soundings[k]->Some_0.wet.d2.raw;
    &&& 0 <= k < n
    &&& falls_back(soundings[k])
    &&& forall|i: int|
        0 <= i < n && falls_back(#[trigger] soundings[i]) ==> w <= soundings[i]->Some_0.wet.d2.raw
    &&& forall|i: int|
        0 <= i < k && falls_back(#[trigger] soundings[i]) ==> w < soundings[i]->Some_0.wet.d2.raw
}

/// The water fallen back on is the first of the nearest that are near and ahead.
pub proof fn law_the_first_of_the_nearest_water(
    soundings: Seq<Option<Sounding<Fixed>>>,
    eye: Vec3<Fixed>,
    frame: Frame<Fixed>,
    reach: Fixed,
    n: int,
)
    requires
        0 <= n <= soundings.len(),
    ensures
        ranking(soundings, eye, frame, reach, n).nearest is None <==> forall|i: int|
            0 <= i < n ==> !falls_back(#[trigger] soundings[i]),
        ranking(soundings, eye, frame, reach, n).nearest matches Some(w) ==> exists|k: int| #[trigger]
            first_nearest(soundings, n, k) && soundings[k]->Some_0.wet == w,
    decreases n,
{
    if n > 0 {
        law_the_first_of_the_nearest_water(soundings, eye, frame, reach, n - 1);
        let before = ranking(soundings, eye, frame, reach, n - 1).nearest;
        let now = ranking(soundings, eye, frame, reach, n).nearest;
        if before is Some {
            let k = choose|k: int| #[trigger]
                first_nearest(soundings, n - 1, k) && soundings[k]->Some_0.wet == before->Some_0;
            if now == before {
                assert(first_nearest(soundings, n, k));
            } else {
                assert(first_nearest(soundings, n, n - 1));
            }
        } else if now is Some {
            assert(first_nearest(soundings, n, n - 1));
        }
    }
}

} // verus!
