//! Following the zero line of a sampled field: marching squares, one square at a time.

use vstd::prelude::*;

use crate::geometry::Vec2;
use crate::scalar::{int_of, mix, mixed, whole_number, Scalar};

verus! {

/// A field's value at a point.
#[derive(Debug, PartialEq)]
pub struct Sample<S> {
    pub at: Vec2<S>,
    pub value: S,
}

/// A piece of a traced line.
#[derive(Debug, PartialEq)]
pub struct Segment<S> {
    pub a: Vec2<S>,
    pub b: Vec2<S>,
}

impl<S: Copy> Clone for Sample<S> {
    fn clone(&self) -> (r: Self)
        ensures
            r == *self,
    {
        *self
    }
}

impl<S: Copy> Copy for Sample<S> {

}

impl<S: Copy> Clone for Segment<S> {
    fn clone(&self) -> (r: Self)
        ensures
            r == *self,
    {
        *self
    }
}

impl<S: Copy> Copy for Segment<S> {

}

impl<S: Scalar> Sample<S> {
    /// Whether the field is above the line here.
    pub open spec fn positive(self) -> bool {
        int_of::<S>(0) < self.value
    }

    /// Whether the field is above the line here.
    pub fn is_positive(self) -> (r: bool)
        ensures
            r == self.positive(),
    {
        let zero: S = whole_number(0);
        zero.less(self.value)
    }
}

/// Where the line passes between two samples on either side of it.
pub open spec fn crossing<S: Scalar>(a: Sample<S>, b: Sample<S>) -> Vec2<S> {
    let t = a.value / (a.value - b.value);
    Vec2 { x: mixed(a.at.x, b.at.x, t), y: mixed(a.at.y, b.at.y, t) }
}

/// The line's crossing of one edge of a square, if it crosses there.
pub open spec fn edge_crossing<S: Scalar>(a: Sample<S>, b: Sample<S>) -> Seq<Vec2<S>> {
    if a.positive() != b.positive() {
        seq![crossing(a, b)]
    } else {
        Seq::empty()
    }
}

/// The line's crossings of a square's edges, walked round from the first corner.
pub open spec fn crossings<S: Scalar>(
    a: Sample<S>,
    b: Sample<S>,
    c: Sample<S>,
    d: Sample<S>,
) -> Seq<Vec2<S>> {
    edge_crossing(a, b) + edge_crossing(b, c) + edge_crossing(c, d) + edge_crossing(d, a)
}

/// The pieces of line that join a square's crossings: one between two; between four, a saddle, one
/// between the first two and one between the last two.
pub open spec fn joined<S: Scalar>(x: Seq<Vec2<S>>) -> Seq<Segment<S>> {
    if x.len() == 2 {
        seq![Segment { a: x[0], b: x[1] }]
    } else if x.len() == 4 {
        seq![Segment { a: x[0], b: x[1] }, Segment { a: x[2], b: x[3] }]
    } else {
        Seq::empty()
    }
}

/// The pieces of line inside a square, given the field at its corners in order round it.
pub open spec fn contour<S: Scalar>(
    a: Sample<S>,
    b: Sample<S>,
    c: Sample<S>,
    d: Sample<S>,
) -> Seq<Segment<S>> {
    joined(crossings(a, b, c, d))
}

/// Note the line's crossing of one edge of a square, if it crosses there.
fn cross_edge<S: Scalar>(a: Sample<S>, b: Sample<S>, out: &mut Vec<Vec2<S>>)
    ensures
        final(out)@ == old(out)@ + edge_crossing(a, b),
{
    if a.is_positive() != b.is_positive() {
        let t: S = a.value.over(a.value.minus(b.value));
        out.push(Vec2 { x: mix(a.at.x, b.at.x, t), y: mix(a.at.y, b.at.y, t) });
    }
    assert(out@ =~= old(out)@ + edge_crossing(a, b));
}

/// Trace the line through one square, given the field at its corners in order round it, and add its
/// pieces to `raw`.
pub fn march<S: Scalar>(
    a: Sample<S>,
    b: Sample<S>,
    c: Sample<S>,
    d: Sample<S>,
    raw: &mut Vec<Segment<S>>,
)
    ensures
        final(raw)@ == old(raw)@ + contour(a, b, c, d),
{
    let mut x: Vec<Vec2<S>> = Vec::new();
    cross_edge(a, b, &mut x);
    cross_edge(b, c, &mut x);
    cross_edge(c, d, &mut x);
    cross_edge(d, a, &mut x);
    assert(x@ =~= crossings(a, b, c, d));
    if x.len() == 2 {
        raw.push(Segment { a: x[0], b: x[1] });
    } else if x.len() == 4 {
        raw.push(Segment { a: x[0], b: x[1] });
        raw.push(Segment { a: x[2], b: x[3] });
    }
    assert(raw@ =~= old(raw)@ + contour(a, b, c, d));
}

/// A line enters a square as often as it leaves it: it crosses the edges twice or four times, or
/// not at all.
pub proof fn law_a_line_that_enters_leaves<S: Scalar>(
    a: Sample<S>,
    b: Sample<S>,
    c: Sample<S>,
    d: Sample<S>,
)
    ensures
        ({
            let n = crossings(a, b, c, d).len();
            n == 0 || n == 2 || n == 4
        }),
        crossings(a, b, c, d).len() == 2 * contour(a, b, c, d).len(),
{
}

/// No line runs through a square that lies wholly on one side of it, and one runs through every
/// other.
pub proof fn law_a_line_parts_the_signs<S: Scalar>(
    a: Sample<S>,
    b: Sample<S>,
    c: Sample<S>,
    d: Sample<S>,
)
    ensures
        contour(a, b, c, d).len() == 0 <==> (a.positive() == b.positive() && b.positive()
            == c.positive() && c.positive() == d.positive()),
{
}

} // verus!
