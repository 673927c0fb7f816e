//! The numbers the water is computed in.
//!
//! Nothing in this crate fixes a number format. Heights, distances, slopes and screen weights are
//! all of some type that implements [`Scalar`], and every contract is a formula over that type's
//! own operations: what a function returns is which operations were applied to which arguments, in
//! which order. The renderer runs the crate on its single precision numbers; [`crate::fixed`] is
//! the crate's own exact instance.

use vstd::prelude::*;

verus! {

/// A number with the arithmetic the water needs.
///
/// Each operation comes in two halves: the ghost one, written with the ordinary operator or named
/// after what it yields, and the executable one, which computes it. The only thing asked of an
/// instance is that every operation is a function of its arguments. No algebraic law is assumed
/// anywhere, so an instance may round, saturate or carry values that compare to nothing. The ghost
/// halves have a default, so that an instance outside the verified crate writes only the other.
pub trait Scalar: Copy {
    /// `self + other`.
    open spec fn spec_add(self, other: Self) -> Self {
        arbitrary()
    }

    /// `self - other`.
    open spec fn spec_sub(self, other: Self) -> Self {
        arbitrary()
    }

    /// `self * other`.
    open spec fn spec_mul(self, other: Self) -> Self {
        arbitrary()
    }

    /// `self / other`.
    open spec fn spec_euclidean_or_real_div(self, other: Self) -> Self {
        arbitrary()
    }

    /// `-self`.
    open spec fn spec_neg(self) -> Self {
        arbitrary()
    }

    /// `self < other`.
    open spec fn spec_lt(self, other: Self) -> bool {
        arbitrary()
    }

    /// `self <= other`.
    open spec fn spec_le(self, other: Self) -> bool {
        arbitrary()
    }

    /// The number standing for the fraction `num / den`.
    open spec fn frac(num: int, den: int) -> Self {
        arbitrary()
    }

    /// The largest number there is.
    open spec fn top() -> Self {
        arbitrary()
    }

    /// The magnitude of a number.
    open spec fn magnitude(self) -> Self {
        arbitrary()
    }

    /// The whole number at or below.
    open spec fn floored(self) -> Self {
        arbitrary()
    }

    /// The whole number at or above.
    open spec fn ceiled(self) -> Self {
        arbitrary()
    }

    /// The nearest whole number, halves away from zero.
    open spec fn rounded(self) -> Self {
        arbitrary()
    }

    /// The square root.
    open spec fn root(self) -> Self {
        arbitrary()
    }

    /// The lesser of two numbers.
    open spec fn lesser(self, other: Self) -> Self {
        arbitrary()
    }

    /// The greater of two numbers.
    open spec fn greater(self, other: Self) -> Self {
        arbitrary()
    }

    /// Whether the number is an ordinary one rather than an overflow or an undefined result.
    open spec fn finite(self) -> bool {
        arbitrary()
    }

    /// The number cut towards zero to a 32 bit integer, saturating.
    open spec fn whole(self) -> i32 {
        arbitrary()
    }

    /// The number cut towards zero to an index, saturating.
    open spec fn index(self) -> usize {
        arbitrary()
    }

    /// The number cut towards zero to a byte, saturating.
    open spec fn byte(self) -> u8 {
        arbitrary()
    }

    fn plus(self, other: Self) -> (r: Self)
        ensures
            r == self + other,
    ;

    fn minus(self, other: Self) -> (r: Self)
        ensures
            r == self - other,
    ;

    fn times(self, other: Self) -> (r: Self)
        ensures
            r == self * other,
    ;

    fn over(self, other: Self) -> (r: Self)
        ensures
            r == self / other,
    ;

    fn negated(self) -> (r: Self)
        ensures
            r == -self,
    ;

    fn less(self, other: Self) -> (r: bool)
        ensures
            r == (self < other),
    ;

    fn at_most(self, other: Self) -> (r: bool)
        ensures
            r == (self <= other),
    ;

    fn ratio(num: i64, den: u64) -> (r: Self)
        requires
            den > 0,
        ensures
            r == Self::frac(num as int, den as int),
    ;

    fn largest() -> (r: Self)
        ensures
            r == Self::top(),
    ;

    fn absolute(self) -> (r: Self)
        ensures
            r == self.magnitude(),
    ;

    fn floor(self) -> (r: Self)
        ensures
            r == self.floored(),
    ;

    fn ceil(self) -> (r: Self)
        ensures
            r == self.ceiled(),
    ;

    fn round(self) -> (r: Self)
        ensures
            r == self.rounded(),
    ;

    fn sqrt(self) -> (r: Self)
        ensures
            r == self.root(),
    ;

    fn least(self, other: Self) -> (r: Self)
        ensures
            r == self.lesser(other),
    ;

    fn greatest(self, other: Self) -> (r: Self)
        ensures
            r == self.greater(other),
    ;

    fn is_finite(self) -> (r: bool)
        ensures
            r == self.finite(),
    ;

    fn to_i32(self) -> (r: i32)
        ensures
            r == self.whole(),
    ;

    fn to_index(self) -> (r: usize)
        ensures
            r == self.index(),
    ;

    fn to_byte(self) -> (r: u8)
        ensures
            r == self.byte(),
    ;
}

/// Whether a number's comparison is a strict order: nothing is below itself, and what is below
/// something below a third is below the third. Numbers that compare to nothing are allowed.
pub open spec fn strictly_ordered<S: Scalar>() -> bool {
    &&& forall|a: S| !(#[trigger] a.spec_lt(a))
    &&& forall|a: S, b: S, c: S|
        #![trigger a.spec_lt(b), b.spec_lt(c)]
        a < b && b < c ==> a < c
}

/// Whether a number's two comparisons are those of one order: among the numbers that compare to
/// themselves any two compare, and one that is at most another that is at most a third is at most
/// the third; and the largest number is one of them. Numbers that compare to nothing, themselves
/// included, are allowed, so that the single precision numbers with their undefined results are
/// ordered too.
pub open spec fn ordered<S: Scalar>() -> bool {
    &&& S::top() <= S::top()
    &&& forall|a: S, b: S| #[trigger] a.spec_le(b) ==> a <= a && b <= b
    &&& forall|a: S, b: S| #[trigger] a.spec_lt(b) ==> a <= b && !(b <= a)
    &&& forall|a: S, b: S| a <= a && b <= b && !(#[trigger] a.spec_lt(b)) ==> b <= a
    &&& forall|a: S, b: S, c: S|
        #![trigger a.spec_le(b), b.spec_le(c)]
        a <= b && b <= c ==> a <= c
}

/// The whole number `n`.
pub open spec fn int_of<S: Scalar>(n: int) -> S {
    S::frac(n, 1)
}

/// The whole number `n`.
pub fn whole_number<S: Scalar>(n: i64) -> (r: S)
    ensures
        r == int_of::<S>(n as int),
{
    S::ratio(n, 1)
}

/// One for true, none for false.
pub open spec fn flag<S: Scalar>(b: bool) -> S {
    if b {
        int_of::<S>(1)
    } else {
        int_of::<S>(0)
    }
}

/// One for true, none for false.
pub fn raise<S: Scalar>(b: bool) -> (r: S)
    ensures
        r == flag::<S>(b),
{
    if b {
        whole_number(1)
    } else {
        whole_number(0)
    }
}

/// `x` held between `lo` and `hi`.
pub open spec fn clamped<S: Scalar>(x: S, lo: S, hi: S) -> S {
    let r = if x < lo {
        lo
    } else {
        x
    };
    if hi < r {
        hi
    } else {
        r
    }
}

/// Hold `x` between `lo` and `hi`. A number that compares to neither bound passes through.
pub fn clamp<S: Scalar>(x: S, lo: S, hi: S) -> (r: S)
    ensures
        r == clamped(x, lo, hi),
{
    let r: S = if x.less(lo) {
        lo
    } else {
        x
    };
    if hi.less(r) {
        hi
    } else {
        r
    }
}

/// The number a fraction `t` of the way from `a` to `b`.
pub open spec fn mixed<S: Scalar>(a: S, b: S, t: S) -> S {
    a + (b - a) * t
}

/// Go a fraction `t` of the way from `a` to `b`.
pub fn mix<S: Scalar>(a: S, b: S, t: S) -> (r: S)
    ensures
        r == mixed(a, b, t),
{
    a.plus(b.minus(a).times(t))
}

/// The four corner values `c` of a unit cell, blended at `(u, v)`. The corners are in row order:
/// two at the lower `v`, then two at the upper.
pub open spec fn blended<S: Scalar>(c0: S, c1: S, c2: S, c3: S, u: S, v: S) -> S {
    mixed(mixed(c0, c1, u), mixed(c2, c3, u), v)
}

/// Blend four corner values across a unit cell.
pub fn blend<S: Scalar>(c0: S, c1: S, c2: S, c3: S, u: S, v: S) -> (r: S)
    ensures
        r == blended(c0, c1, c2, c3, u, v),
{
    mix(mix(c0, c1, u), mix(c2, c3, u), v)
}

/// A signed quantity as a texture byte: `-1` is 0, `1` is 255, and what lies beyond is cut.
pub open spec fn signed_byte<S: Scalar>(x: S) -> u8 {
    unit_byte(x * S::frac(1, 2) + S::frac(1, 2))
}

/// A quantity between 0 and 1 as a texture byte.
pub open spec fn unit_byte<S: Scalar>(x: S) -> u8 {
    (clamped(x, int_of::<S>(0), int_of::<S>(1)) * int_of::<S>(255)).byte()
}

/// Write a signed quantity as a texture byte.
pub fn encode_signed<S: Scalar>(x: S) -> (r: u8)
    ensures
        r == signed_byte(x),
{
    let half: S = S::ratio(1, 2);
    encode_unit(x.times(half).plus(half))
}

/// Write a quantity between 0 and 1 as a texture byte.
pub fn encode_unit<S: Scalar>(x: S) -> (r: u8)
    ensures
        r == unit_byte(x),
{
    let zero: S = whole_number(0);
    let one: S = whole_number(1);
    let full: S = whole_number(255);
    clamp(x, zero, one).times(full).to_byte()
}

} // verus!
