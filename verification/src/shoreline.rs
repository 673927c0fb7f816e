//! The waterline as a traced line, filed so that the piece nearest a point can be found.

use std::collections::HashMap;
use vstd::prelude::*;

use crate::contour::Segment;
use crate::fixed::{law_fixed_is_strictly_ordered, lemma_root_bounds, saturated, Fixed, ONE};
use crate::geometry::Vec2;
use crate::pair_key::{half_key, key_of, lemma_keys_differ, pair_key};
use crate::scalar::{clamp, clamped, int_of, strictly_ordered, whole_number, Scalar};

verus! {

broadcast use vstd::std_specs::hash::group_hash_axioms;

/// Stands in for no waterline anywhere near a point. Only a few cells' worth: the value is
/// interpolated across the triangles that touch the shore, and sets how steeply it climbs there.
pub open spec fn far_from_shore<S: Scalar>() -> S {
    int_of::<S>(24)
}

/// The index pitch, in yards.
pub open spec fn bucket_pitch<S: Scalar>() -> S {
    int_of::<S>(4)
}

/// The bucket a coordinate falls in.
pub open spec fn bucket_of<S: Scalar>(v: S) -> int {
    (v / bucket_pitch::<S>()).floored().whole() as int
}

/// Whether the extent of a piece of line touches a bucket.
pub open spec fn touches<S: Scalar>(s: Segment<S>, bx: int, by: int) -> bool {
    &&& bucket_of(s.a.x.lesser(s.b.x)) <= bx <= bucket_of(s.a.x.greater(s.b.x))
    &&& bucket_of(s.a.y.lesser(s.b.y)) <= by <= bucket_of(s.a.y.greater(s.b.y))
}

/// The pieces among the first `n` that touch a bucket, in order.
pub open spec fn touching<S: Scalar>(raw: Seq<Segment<S>>, n: int, bx: int, by: int) -> Seq<
    Segment<S>,
>
    decreases n,
{
    if n <= 0 {
        Seq::empty()
    } else if touches(raw[n - 1], bx, by) {
        touching(raw, n - 1, bx, by).push(raw[n - 1])
    } else {
        touching(raw, n - 1, bx, by)
    }
}

/// A point of the waterline, and how far off it is.
#[derive(Debug, PartialEq)]
pub struct Near<S> {
    pub at: Vec2<S>,
    pub d: S,
}

impl<S: Copy> Clone for Near<S> {
    fn clone(&self) -> (r: Self)
        ensures
            r == *self,
    {
        *self
    }
}

impl<S: Copy> Copy for Near<S> {

}

/// How far along a piece of line, from 0 to 1, the point nearest `p` lies. A piece too short to
/// have a direction is its first end.
pub open spec fn share_along<S: Scalar>(s: Segment<S>, p: Vec2<S>) -> S {
    let v = s.b - s.a;
    let len2 = v.square();
    if S::frac(1, 1000000000000) < len2 {
        clamped(
            ((p.x - s.a.x) * v.x + (p.y - s.a.y) * v.y) / len2,
            int_of::<S>(0),
            int_of::<S>(1),
        )
    } else {
        int_of::<S>(0)
    }
}

/// The point of a piece of line nearest `p`.
pub open spec fn nearest_on<S: Scalar>(s: Segment<S>, p: Vec2<S>) -> Near<S> {
    let at = s.a + (s.b - s.a) * share_along(s, p);
    Near { at, d: (p - at).measure() }
}

/// The nearer of the best so far and another; the best so far when they are equally near.
pub open spec fn nearer<S: Scalar>(best: Option<Near<S>>, n: Near<S>) -> Option<Near<S>> {
    match best {
        None => Some(n),
        Some(b) => if n.d < b.d {
            Some(n)
        } else {
            best
        },
    }
}

/// The point nearest `p` on any of a run of pieces.
pub open spec fn nearest_of<S: Scalar>(segs: Seq<Segment<S>>, p: Vec2<S>) -> Option<Near<S>>
    decreases segs.len(),
{
    if segs.len() == 0 {
        None
    } else {
        nearer(nearest_of(segs.drop_last(), p), nearest_on(segs.last(), p))
    }
}

/// The `n`th bucket of the nine around one, row by row.
pub open spec fn ring_bucket(b: int, n: int) -> int {
    b + n - 1
}

/// The waterline, traced as pieces of line, filed under every bucket their extent touches.
pub struct Shoreline<S> {
    index: HashMap<u64, usize>,
    lists: Vec<Vec<Segment<S>>>,
}

impl<S: Scalar> Shoreline<S> {
    /// Every list filed exists, and no two buckets share one.
    pub closed spec fn wf(&self) -> bool {
        &&& forall|k: u64| #[trigger]
            self.index@.contains_key(k) ==> self.index@[k] < self.lists@.len()
        &&& forall|a: u64, b: u64|
            #![trigger self.index@[a], self.index@[b]]
            self.index@.contains_key(a) && self.index@.contains_key(b) && a != b ==> self.index@[a]
                != self.index@[b]
    }

    /// The pieces filed under a bucket.
    pub closed spec fn at(&self, bx: int, by: int) -> Seq<Segment<S>> {
        if half_key(bx) && half_key(by) && self.index@.contains_key(key_of(bx, by)) {
            self.lists@[self.index@[key_of(bx, by)] as int]@
        } else {
            Seq::empty()
        }
    }

    /// Whether exactly these pieces are filed, each under every bucket it touches.
    pub open spec fn files(&self, raw: Seq<Segment<S>>) -> bool {
        forall|bx: int, by: int| #[trigger]
            self.at(bx, by) == touching(raw, raw.len() as int, bx, by)
    }

    /// The pieces filed under the first `n` of the nine buckets around one.
    pub open spec fn searched(&self, bx: int, by: int, n: int) -> Seq<Segment<S>>
        decreases n,
    {
        if n <= 0 {
            Seq::empty()
        } else {
            self.searched(bx, by, n - 1) + self.at(
                ring_bucket(bx, (n - 1) % 3),
                ring_bucket(by, (n - 1) / 3),
            )
        }
    }

    /// The pieces filed near a point: under its own bucket and the eight around it.
    pub open spec fn ring(&self, p: Vec2<S>) -> Seq<Segment<S>> {
        self.searched(bucket_of(p.x), bucket_of(p.y), 9)
    }

    /// How far the waterline is, as far as it is looked for.
    pub open spec fn reach(&self, p: Vec2<S>) -> S {
        match nearest_of(self.ring(p), p) {
            Some(n) => n.d,
            None => far_from_shore::<S>(),
        }
    }

    /// Nothing filed.
    fn empty() -> (r: Self)
        ensures
            r.wf(),
            forall|bx: int, by: int| #[trigger] r.at(bx, by) == Seq::<Segment<S>>::empty(),
    {
        Shoreline { index: HashMap::new(), lists: Vec::new() }
    }

    /// File a piece under one bucket.
    fn file(&mut self, bx: i32, by: i32, s: Segment<S>)
        requires
            old(self).wf(),
        ensures
            final(self).wf(),
            forall|cx: int, cy: int| #[trigger]
                final(self).at(cx, cy) == if cx == bx && cy == by {
                    old(self).at(cx, cy).push(s)
                } else {
                    old(self).at(cx, cy)
                },
    {
        let key: u64 = pair_key(bx, by);
        let ghost was = *self;
        proof {
            lemma_keys_differ(bx as int, by as int);
        }
        match self.index.get(&key) {
            Some(n) => {
                let n: usize = *n;
                self.lists[n].push(s);
                assert forall|cx: int, cy: int| #[trigger]
                    self.at(cx, cy) == if cx == bx && cy == by {
                        was.at(cx, cy).push(s)
                    } else {
                        was.at(cx, cy)
                    } by {
                    if half_key(cx) && half_key(cy) && was.index@.contains_key(
                        key_of(cx, cy),
                    ) && !(cx == bx && cy == by) {
                        assert(was.index@[key_of(cx, cy)] != was.index@[key]);
                    }
                }
            },
            None => {
                let n: usize = self.lists.len();
                let mut list: Vec<Segment<S>> = Vec::new();
                list.push(s);
                self.lists.push(list);
                self.index.insert(key, n);
                assert(list@ =~= Seq::<Segment<S>>::empty().push(s));
            },
        }
    }

    /// File a set of traced pieces. Nothing to file is no waterline at all.
    pub fn from_segments(raw: &Vec<Segment<S>>) -> (r: Option<Self>)
        ensures
            r is None <==> raw@.len() == 0,
            r matches Some(s) ==> s.wf() && s.files(raw@),
    {
        if raw.len() == 0 {
            return None;
        }
        let mut r: Shoreline<S> = Shoreline::empty();
        let mut k: usize = 0;
        while k < raw.len()
            invariant
                k <= raw@.len(),
                r.wf(),
                forall|bx: int, by: int| #[trigger]
                    r.at(bx, by) == touching(raw@, k as int, bx, by),
            decreases raw@.len() - k,
        {
            let s: Segment<S> = raw[k];
            let x0: i64 = bucket(s.a.x.least(s.b.x)) as i64;
            let x1: i64 = bucket(s.a.x.greatest(s.b.x)) as i64;
            let y0: i64 = bucket(s.a.y.least(s.b.y)) as i64;
            let y1: i64 = bucket(s.a.y.greatest(s.b.y)) as i64;
            let mut by: i64 = y0;
            while by <= y1
                invariant
                    k < raw@.len(),
                    s == raw@[k as int],
                    i32::MIN <= x0 <= i32::MAX,
                    i32::MIN <= x1 <= i32::MAX,
                    i32::MIN <= y0 <= by,
                    by <= y1 + 1 || by == y0,
                    y0 <= i32::MAX,
                    y1 <= i32::MAX,
                    x0 == bucket_of(s.a.x.lesser(s.b.x)),
                    x1 == bucket_of(s.a.x.greater(s.b.x)),
                    y0 == bucket_of(s.a.y.lesser(s.b.y)),
                    y1 == bucket_of(s.a.y.greater(s.b.y)),
                    r.wf(),
                    forall|cx: int, cy: int| #[trigger]
                        r.at(cx, cy) == if touches(s, cx, cy) && cy < by {
                            touching(raw@, k as int, cx, cy).push(s)
                        } else {
                            touching(raw@, k as int, cx, cy)
                        },
                decreases y1 + 1 - by,
            {
                let mut bx: i64 = x0;
                while bx <= x1
                    invariant
                        k < raw@.len(),
                        s == raw@[k as int],
                        i32::MIN <= x0 <= bx,
                        bx <= x1 + 1 || bx == x0,
                        x0 <= i32::MAX,
                        x1 <= i32::MAX,
                        i32::MIN <= y0 <= by <= y1 <= i32::MAX,
                        x0 == bucket_of(s.a.x.lesser(s.b.x)),
                        x1 == bucket_of(s.a.x.greater(s.b.x)),
                        y0 == bucket_of(s.a.y.lesser(s.b.y)),
                        y1 == bucket_of(s.a.y.greater(s.b.y)),
                        r.wf(),
                        forall|cx: int, cy: int| #[trigger]
                            r.at(cx, cy) == if touches(s, cx, cy) && (cy < by || cy == by && cx
                                < bx) {
                                touching(raw@, k as int, cx, cy).push(s)
                            } else {
                                touching(raw@, k as int, cx, cy)
                            },
                    decreases x1 + 1 - bx,
                {
                    r.file(bx as i32, by as i32, s);
                    bx = bx + 1;
                }
                by = by + 1;
            }
            k = k + 1;
        }
        Some(r)
    }

    /// The pieces filed under a bucket.
    fn list(&self, bx: i64, by: i64) -> (r: Option<&Vec<Segment<S>>>)
        requires
            self.wf(),
        ensures
            match r {
                Some(l) => l@ == self.at(bx as int, by as int),
                None => self.at(bx as int, by as int) == Seq::<Segment<S>>::empty(),
            },
    {
        if bx < i32::MIN as i64 || bx > i32::MAX as i64 || by < i32::MIN as i64 || by
            > i32::MAX as i64 {
            return None;
        }
        let key: u64 = pair_key(bx as i32, by as i32);
        match self.index.get(&key) {
            Some(n) => Some(&self.lists[*n]),
            None => None,
        }
    }

    /// The nearest point on the waterline, and how far it is; nothing when no piece of waterline is
    /// filed under the buckets around the point, which is far further out than any foam reaches.
    pub fn nearest(&self, p: Vec2<S>) -> (r: Option<Near<S>>)
        requires
            self.wf(),
        ensures
            r == nearest_of(self.ring(p), p),
    {
        let bx: i64 = bucket(p.x) as i64;
        let by: i64 = bucket(p.y) as i64;
        let mut best: Option<Near<S>> = None;
        let ghost mut seen: Seq<Segment<S>> = Seq::empty();
        let mut n: i64 = 0;
        while n < 9
            invariant
                0 <= n <= 9,
                self.wf(),
                bx == bucket_of(p.x),
                by == bucket_of(p.y),
                i32::MIN <= bx <= i32::MAX,
                i32::MIN <= by <= i32::MAX,
                seen == self.searched(bx as int, by as int, n as int),
                best == nearest_of(seen, p),
            decreases 9 - n,
        {
            let cx: i64 = bx + n % 3 - 1;
            let cy: i64 = by + n / 3 - 1;
            let ghost before = seen;
            match self.list(cx, cy) {
                Some(list) => {
                    let mut k: usize = 0;
                    while k < list.len()
                        invariant
                            k <= list@.len(),
                            seen == before + list@.take(k as int),
                            best == nearest_of(seen, p),
                        decreases list@.len() - k,
                    {
                        let found: Near<S> = nearest_on_segment(list[k], p);
                        proof {
                            let more = seen.push(list@[k as int]);
                            assert(more.drop_last() =~= seen);
                            assert(more =~= before + list@.take(k as int + 1));
                            seen = more;
                        }
                        let closer: bool = match &best {
                            None => true,
                            Some(b) => found.d.less(b.d),
                        };
                        if closer {
                            best = Some(found);
                        }
                        k = k + 1;
                    }
                    assert(list@.take(list@.len() as int) =~= list@);
                },
                None => {
                    assert(before + Seq::<Segment<S>>::empty() =~= before);
                },
            }
            n = n + 1;
        }
        best
    }

    /// How far the waterline is.
    pub fn distance(&self, p: Vec2<S>) -> (r: S)
        requires
            self.wf(),
        ensures
            r == self.reach(p),
    {
        match self.nearest(p) {
            Some(n) => n.d,
            None => whole_number(24),
        }
    }
}

/// The bucket a coordinate falls in.
fn bucket<S: Scalar>(v: S) -> (r: i32)
    ensures
        r == bucket_of(v),
{
    let pitch: S = whole_number(4);
    v.over(pitch).floor().to_i32()
}

/// The point of a piece of line nearest `p`.
fn nearest_on_segment<S: Scalar>(s: Segment<S>, p: Vec2<S>) -> (r: Near<S>)
    ensures
        r == nearest_on(s, p),
{
    let zero: S = whole_number(0);
    let one: S = whole_number(1);
    let short: S = S::ratio(1, 1000000000000);
    let v: Vec2<S> = s.b.minus(s.a);
    let len2: S = v.length_squared();
    let t: S = if short.less(len2) {
        let dot: S = p.x.minus(s.a.x).times(v.x).plus(p.y.minus(s.a.y).times(v.y));
        clamp(dot.over(len2), zero, one)
    } else {
        zero
    };
    let at: Vec2<S> = s.a.plus(v.scale(t));
    Near { at, d: p.minus(at).length() }
}

/// An answer is a point of some piece that was looked at, and there is one as soon as there is a
/// piece.
pub proof fn law_nearest_is_on_the_line<S: Scalar>(segs: Seq<Segment<S>>, p: Vec2<S>)
    ensures
        nearest_of(segs, p) is None <==> segs.len() == 0,
        nearest_of(segs, p) matches Some(n) ==> exists|i: int|
            0 <= i < segs.len() && n == nearest_on(#[trigger] segs[i], p),
    decreases segs.len(),
{
    if segs.len() > 0 {
        let rest = segs.drop_last();
        law_nearest_is_on_the_line(rest, p);
        assert(segs[segs.len() - 1] == segs.last());
        if nearest_of(segs, p) == nearest_of(rest, p) && rest.len() > 0 {
            let i = choose|i: int|
                0 <= i < rest.len() && nearest_of(rest, p)->0 == nearest_on(#[trigger] rest[i], p);
            assert(segs[i] == rest[i]);
        }
    }
}

/// No piece that was looked at comes nearer than the answer.
pub proof fn law_no_piece_is_nearer<S: Scalar>(segs: Seq<Segment<S>>, p: Vec2<S>, i: int)
    requires
        strictly_ordered::<S>(),
        0 <= i < segs.len(),
    ensures
        nearest_of(segs, p) matches Some(n) && !(nearest_on(segs[i], p).d < n.d),
    decreases segs.len(),
{
    let rest = segs.drop_last();
    law_nearest_is_on_the_line(rest, p);
    if i < rest.len() {
        law_no_piece_is_nearer(rest, p, i);
        assert(segs[i] == rest[i]);
    }
}

/// Of all the pieces that were filed, none whose extent touches the buckets around a point comes
/// nearer to it than the answer there.
pub proof fn law_the_index_misses_nothing_near<S: Scalar>(
    shore: Shoreline<S>,
    raw: Seq<Segment<S>>,
    p: Vec2<S>,
    i: int,
    n: int,
)
    requires
        strictly_ordered::<S>(),
        shore.files(raw),
        0 <= i < raw.len(),
        0 <= n < 9,
        touches(raw[i], ring_bucket(bucket_of(p.x), n % 3), ring_bucket(bucket_of(p.y), n / 3)),
    ensures
        !(nearest_on(raw[i], p).d < shore.reach(p)),
{
    let j = lemma_is_looked_at(shore, raw, p, i, n);
    law_no_piece_is_nearer(shore.ring(p), p, j);
}

/// A piece that touches one of the buckets around a point is looked at there.
proof fn lemma_is_looked_at<S: Scalar>(
    shore: Shoreline<S>,
    raw: Seq<Segment<S>>,
    p: Vec2<S>,
    i: int,
    n: int,
) -> (j: int)
    requires
        shore.files(raw),
        0 <= i < raw.len(),
        0 <= n < 9,
        touches(raw[i], ring_bucket(bucket_of(p.x), n % 3), ring_bucket(bucket_of(p.y), n / 3)),
    ensures
        0 <= j < shore.ring(p).len(),
        shore.ring(p)[j] == raw[i],
{
    let (bx, by) = (bucket_of(p.x), bucket_of(p.y));
    let (cx, cy) = (ring_bucket(bx, n % 3), ring_bucket(by, n / 3));
    let k = lemma_touching_holds(raw, raw.len() as int, cx, cy, i);
    assert(shore.at(cx, cy)[k] == raw[i]);
    lemma_searched_holds(shore, bx, by, 9, n, k)
}

/// A piece that touches a bucket is among those filed under it.
proof fn lemma_touching_holds<S: Scalar>(
    raw: Seq<Segment<S>>,
    n: int,
    bx: int,
    by: int,
    i: int,
) -> (k: int)
    requires
        0 <= i < n <= raw.len(),
        touches(raw[i], bx, by),
    ensures
        0 <= k < touching(raw, n, bx, by).len(),
        touching(raw, n, bx, by)[k] == raw[i],
    decreases n,
{
    if i == n - 1 {
        touching(raw, n - 1, bx, by).len() as int
    } else {
        lemma_touching_holds(raw, n - 1, bx, by, i)
    }
}

/// A piece filed under one of the buckets searched is among those looked at.
proof fn lemma_searched_holds<S: Scalar>(
    shore: Shoreline<S>,
    bx: int,
    by: int,
    n: int,
    b: int,
    k: int,
) -> (j: int)
    requires
        0 <= b < n,
        0 <= k < shore.at(ring_bucket(bx, b % 3), ring_bucket(by, b / 3)).len(),
    ensures
        0 <= j < shore.searched(bx, by, n).len(),
        shore.searched(bx, by, n)[j] == shore.at(ring_bucket(bx, b % 3), ring_bucket(by, b / 3))[k],
    decreases n,
{
    if b == n - 1 {
        shore.searched(bx, by, n - 1).len() + k
    } else {
        lemma_searched_holds(shore, bx, by, n - 1, b, k)
    }
}

/// A piece filed under a bucket is one of those that were filed.
proof fn lemma_touching_is_of<S: Scalar>(raw: Seq<Segment<S>>, n: int, bx: int, by: int, k: int)
    requires
        0 <= n <= raw.len(),
        0 <= k < touching(raw, n, bx, by).len(),
    ensures
        exists|i: int| 0 <= i < raw.len() && #[trigger] raw[i] == touching(raw, n, bx, by)[k],
    decreases n,
{
    if n > 0 {
        if k < touching(raw, n - 1, bx, by).len() {
            lemma_touching_is_of(raw, n - 1, bx, by, k);
        } else {
            assert(raw[n - 1] == touching(raw, n, bx, by)[k]);
        }
    }
}

/// A piece looked at is one of those that were filed.
proof fn lemma_searched_is_of<S: Scalar>(
    shore: Shoreline<S>,
    raw: Seq<Segment<S>>,
    bx: int,
    by: int,
    n: int,
    j: int,
)
    requires
        shore.files(raw),
        0 <= j < shore.searched(bx, by, n).len(),
    ensures
        exists|i: int| 0 <= i < raw.len() && #[trigger] raw[i] == shore.searched(bx, by, n)[j],
    decreases n,
{
    if n > 0 {
        let before = shore.searched(bx, by, n - 1);
        if j < before.len() {
            lemma_searched_is_of(shore, raw, bx, by, n - 1, j);
        } else {
            let (cx, cy) = (ring_bucket(bx, (n - 1) % 3), ring_bucket(by, (n - 1) / 3));
            assert(shore.at(cx, cy) == touching(raw, raw.len() as int, cx, cy));
            lemma_touching_is_of(raw, raw.len() as int, cx, cy, j - before.len());
        }
    }
}

/// The bucket a coordinate falls in, in exact numbers.
proof fn lemma_bucket(v: Fixed)
    ensures
        bucket_of(v) == v.raw as int / 0x4_0000_0000,
{
    assert(int_of::<Fixed>(4).raw == 0x4_0000_0000);
    let q = v / int_of::<Fixed>(4);
    assert(q == saturated((v.raw * 0x1_0000_0000) / 0x4_0000_0000));
    assert((v.raw * 0x1_0000_0000) / 0x4_0000_0000 == v.raw as int / 4);
    let w = v.raw as int / 0x4_0000_0000;
    assert((v.raw as int / 4) / 0x1_0000_0000 == w);
    assert(q.floored().raw == w * 0x1_0000_0000);
    assert(-0x2000_0000 <= w < 0x2000_0000);
    if w < 0 {
        assert((-(w * 0x1_0000_0000)) / 0x1_0000_0000 == -w);
    } else {
        assert((w * 0x1_0000_0000) / 0x1_0000_0000 == w);
    }
}

/// A point a share of the way along a side lies between its ends.
proof fn lemma_along_side(a: Fixed, b: Fixed, t: Fixed)
    requires
        0 <= t.raw <= ONE,
    ensures
        a.lesser(b) <= a + (b - a) * t,
        a + (b - a) * t <= a.greater(b),
{
    let v = b - a;
    let m = v.raw * t.raw;
    if v.raw >= 0 {
        assert(0 <= m <= v.raw * 0x1_0000_0000) by (nonlinear_arith)
            requires
                m == v.raw * t.raw,
                0 <= t.raw <= 0x1_0000_0000,
                0 <= v.raw,
        ;
    } else {
        assert(v.raw * 0x1_0000_0000 <= m <= 0) by (nonlinear_arith)
            requires
                m == v.raw * t.raw,
                0 <= t.raw <= 0x1_0000_0000,
                v.raw < 0,
        ;
    }
}

/// How far a piece is from a point bounds how far it is in either coordinate.
proof fn lemma_side_at_most(dx: Fixed, other: Fixed)
    requires
        (dx * dx + other * other).root() < int_of::<Fixed>(4),
    ensures
        -0x4_0000_0000 < dx.raw < 0x4_0000_0000,
{
    let x2 = dx * dx;
    let y2 = other * other;
    let sum = x2 + y2;
    assert(dx.raw * dx.raw >= 0) by (nonlinear_arith);
    assert(other.raw * other.raw >= 0) by (nonlinear_arith);
    assert(int_of::<Fixed>(4).raw == 0x4_0000_0000);
    let n = sum.raw * 0x1_0000_0000;
    if sum.raw > 0 {
        lemma_root_bounds(sum);
        let r = sum.root().raw as int;
        assert((r + 1) * (r + 1) <= 0x4_0000_0000 * 0x4_0000_0000) by (nonlinear_arith)
            requires
                0 <= r < 0x4_0000_0000,
        ;
        assert(n < 0x4_0000_0000 * 0x4_0000_0000);
    }
    assert(sum.raw < 0x10_0000_0000);
    assert(x2.raw < 0x10_0000_0000);
    let m = dx.raw * dx.raw;
    assert(m / 0x1_0000_0000 < 0x10_0000_0000);
    assert(m < 0x10_0000_0000 * 0x1_0000_0000);
    assert(-0x4_0000_0000 < dx.raw < 0x4_0000_0000) by (nonlinear_arith)
        requires
            m == dx.raw * dx.raw,
            m < 0x10_0000_0000 * 0x1_0000_0000,
    ;
}

/// A piece that comes within a bucket's pitch of a point touches one of the nine buckets around it.
pub proof fn law_a_near_piece_is_filed_near(s: Segment<Fixed>, p: Vec2<Fixed>) -> (n: int)
    requires
        nearest_on(s, p).d < bucket_pitch::<Fixed>(),
    ensures
        0 <= n < 9,
        touches(s, ring_bucket(bucket_of(p.x), n % 3), ring_bucket(bucket_of(p.y), n / 3)),
{
    let t = share_along(s, p);
    let at = nearest_on(s, p).at;
    assert(int_of::<Fixed>(0).raw == 0 && int_of::<Fixed>(1).raw == ONE);
    assert(0 <= t.raw <= ONE);
    lemma_along_side(s.a.x, s.b.x, t);
    lemma_along_side(s.a.y, s.b.y, t);
    let (dx, dy) = (p.x - at.x, p.y - at.y);
    lemma_side_at_most(dx, dy);
    assert(dx * dx + dy * dy == dy * dy + dx * dx);
    lemma_side_at_most(dy, dx);
    lemma_bucket(p.x);
    lemma_bucket(p.y);
    lemma_bucket(at.x);
    lemma_bucket(at.y);
    lemma_bucket(s.a.x);
    lemma_bucket(s.b.x);
    lemma_bucket(s.a.y);
    lemma_bucket(s.b.y);
    let i = bucket_of(at.x) - bucket_of(p.x) + 1;
    let j = bucket_of(at.y) - bucket_of(p.y) + 1;
    assert(0 <= i <= 2 && 0 <= j <= 2);
    let n = 3 * j + i;
    assert(n % 3 == i && n / 3 == j);
    n
}

/// The index finds the nearest of all the pieces that were filed, as far as it is meant to: as soon
/// as any comes within a bucket's pitch of a point there is an answer, and no piece at all is
/// nearer; where there is none every piece is further off; and an answer is always a point of some
/// piece.
pub proof fn law_the_nearest_is_the_least_of_all(
    shore: Shoreline<Fixed>,
    raw: Seq<Segment<Fixed>>,
    p: Vec2<Fixed>,
)
    requires
        shore.files(raw),
    ensures
        match nearest_of(shore.ring(p), p) {
            Some(m) => {
                &&& exists|i: int| 0 <= i < raw.len() && m == nearest_on(#[trigger] raw[i], p)
                &&& m.d < bucket_pitch::<Fixed>() || (exists|i: int|
                    0 <= i < raw.len() && nearest_on(#[trigger] raw[i], p).d
                        < bucket_pitch::<Fixed>()) ==> forall|i: int|
                    0 <= i < raw.len() ==> m.d <= nearest_on(#[trigger] raw[i], p).d
            },
            None => forall|i: int|
                0 <= i < raw.len() ==> bucket_pitch::<Fixed>() <= nearest_on(
                    #[trigger] raw[i],
                    p,
                ).d,
        },
{
    law_fixed_is_strictly_ordered();
    let ring = shore.ring(p);
    law_nearest_is_on_the_line(ring, p);
    assert forall|i: int|
        0 <= i < raw.len() && nearest_on(#[trigger] raw[i], p).d < bucket_pitch::<
            Fixed,
        >() implies nearest_of(ring, p) matches Some(m) && m.d <= nearest_on(raw[i], p).d by {
        let n = law_a_near_piece_is_filed_near(raw[i], p);
        let j = lemma_is_looked_at(shore, raw, p, i, n);
        law_no_piece_is_nearer(ring, p, j);
    }
    if let Some(m) = nearest_of(ring, p) {
        let j = choose|j: int| 0 <= j < ring.len() && m == nearest_on(#[trigger] ring[j], p);
        lemma_searched_is_of(shore, raw, bucket_of(p.x), bucket_of(p.y), 9, j);
    }
}

} // verus!
