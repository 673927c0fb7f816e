//! Fixed point numbers: the crate's own instance of [`Scalar`].
//!
//! A [`Fixed`] counts in steps of two to the minus thirty second, so it holds every height and
//! distance of the world to well under a hair's breadth, reaches two thousand million yards either
//! way, and saturates there. Its operations are exact up to the one rounding each states.

use vstd::prelude::*;

use crate::scalar::{ordered, strictly_ordered, Scalar};

verus! {

/// How many steps make one whole.
pub const ONE: i64 = 0x1_0000_0000;

/// A signed fixed point number with thirty two fractional bits.
#[derive(Clone, Copy, Debug, PartialEq, Eq, Structural)]
pub struct Fixed {
    /// The number, in steps of `1 / ONE`.
    pub raw: i64,
}

/// `n` steps, saturating at the ends of the range.
pub open spec fn saturated(n: int) -> Fixed {
    Fixed {
        raw: if n > i64::MAX {
            i64::MAX
        } else if n < i64::MIN {
            i64::MIN
        } else {
            n as i64
        },
    }
}

/// Whether `r` is the largest number whose square is at most `n`.
pub open spec fn is_integer_root(n: int, r: int) -> bool {
    0 <= r && r * r <= n && n < (r + 1) * (r + 1)
}

/// The largest number whose square is at most `n`.
pub open spec fn integer_root(n: int) -> int {
    choose|r: int| is_integer_root(n, r)
}

/// `n` steps, saturating at the ends of the range.
fn saturate(n: i128) -> (r: Fixed)
    ensures
        r == saturated(n as int),
{
    if n > i64::MAX as i128 {
        Fixed { raw: i64::MAX }
    } else if n < i64::MIN as i128 {
        Fixed { raw: i64::MIN }
    } else {
        Fixed { raw: n as i64 }
    }
}

/// `n` wholes, in steps.
fn wholes(n: i64) -> (r: i128)
    ensures
        r == n * ONE,
        -0x8000_0000_0000_0000_0000_0000 <= r < 0x8000_0000_0000_0000_0000_0000,
{
    n as i128 * 0x1_0000_0000
}

/// The quotient rounded down.
fn floor_div(a: i128, b: i128) -> (r: i128)
    requires
        b > 0,
        a > i128::MIN,
    ensures
        r == a as int / b as int,
{
    if a >= 0 {
        a / b
    } else {
        let n: i128 = -a;
        let q: i128 = n / b;
        let m: i128 = n % b;
        proof {
            vstd::arithmetic::div_mod::lemma_fundamental_div_mod(n as int, b as int);
            let (ai, bi, qi, mi) = (a as int, b as int, q as int, m as int);
            assert(ai == -(bi * qi) - mi);
            if mi == 0 {
                assert(ai == bi * (-qi) + 0) by (nonlinear_arith)
                    requires
                        ai == -(bi * qi) - mi,
                        mi == 0,
                ;
                vstd::arithmetic::div_mod::lemma_fundamental_div_mod_converse(ai, bi, -qi, 0);
            } else {
                assert(ai == bi * (-qi - 1) + (bi - mi)) by (nonlinear_arith)
                    requires
                        ai == -(bi * qi) - mi,
                ;
                vstd::arithmetic::div_mod::lemma_fundamental_div_mod_converse(
                    ai,
                    bi,
                    -qi - 1,
                    bi - mi,
                );
            }
        }
        if m == 0 {
            -q
        } else {
            -q - 1
        }
    }
}

proof fn lemma_integer_root_unique(n: int, r: int)
    requires
        is_integer_root(n, r),
    ensures
        integer_root(n) == r,
{
    let c = integer_root(n);
    assert(is_integer_root(n, c));
    if c < r {
        assert((c + 1) * (c + 1) <= r * r) by (nonlinear_arith)
            requires
                0 <= c < r,
        ;
    } else if c > r {
        assert((r + 1) * (r + 1) <= c * c) by (nonlinear_arith)
            requires
                0 <= r < c,
        ;
    }
}

/// There is a largest number whose square is at most `n`.
proof fn lemma_root_exists(n: int, r: int)
    requires
        0 <= r,
        0 <= n < (r + 1) * (r + 1),
    ensures
        is_integer_root(n, integer_root(n)),
    decreases r,
{
    if r * r <= n {
        lemma_integer_root_unique(n, r);
    } else {
        assert(0 * 0 == 0int);
        assert(r != 0);
        lemma_root_exists(n, r - 1);
    }
}

/// The root of a number that is not negative, squared, is at most the number, and one step more,
/// squared, is more than it.
pub proof fn lemma_root_bounds(v: Fixed)
    requires
        v.raw > 0,
    ensures
        is_integer_root(v.raw * ONE, v.root().raw as int),
{
    let n = v.raw * ONE;
    assert(n < 0x1_0000_0000_0000 * 0x1_0000_0000_0000) by (nonlinear_arith)
        requires
            n == v.raw * 0x1_0000_0000,
            v.raw <= 0x7fff_ffff_ffff_ffff,
    ;
    lemma_root_exists(n, 0xffff_ffff_ffff);
    let r = integer_root(n);
    assert(r < 0x1_0000_0000_0000) by (nonlinear_arith)
        requires
            r * r <= n,
            0 <= r,
            n < 0x1_0000_0000_0000 * 0x1_0000_0000_0000,
    ;
}

/// The integer square root of a number below two to the ninety sixth.
fn root_of(n: i128) -> (r: i128)
    requires
        0 <= n < 0x1_0000_0000_0000_0000_0000_0000,
    ensures
        r == integer_root(n as int),
        0 <= r < 0x1_0000_0000_0000,
{
    let mut lo: i128 = 0;
    let mut hi: i128 = 0x1_0000_0000_0000;
    assert(0x1_0000_0000_0000int * 0x1_0000_0000_0000int
        == 0x1_0000_0000_0000_0000_0000_0000int) by (nonlinear_arith);
    while hi - lo > 1
        invariant
            0 <= lo < hi <= 0x1_0000_0000_0000,
            lo * lo <= n < hi * hi,
        decreases hi - lo,
    {
        let mid: i128 = lo + (hi - lo) / 2;
        assert(0 <= mid * mid <= 0x1_0000_0000_0000_0000_0000_0000) by (nonlinear_arith)
            requires
                0 <= mid <= 0x1_0000_0000_0000,
        ;
        if mid * mid <= n {
            lo = mid;
        } else {
            hi = mid;
        }
    }
    proof {
        lemma_integer_root_unique(n as int, lo as int);
    }
    lo
}

proof fn lemma_product_fits(a: i64, b: i64)
    ensures
        -0x4000_0000_0000_0000_0000_0000_0000_0000 <= a * b
            <= 0x4000_0000_0000_0000_0000_0000_0000_0000,
{
    assert(-0x4000_0000_0000_0000_0000_0000_0000_0000 <= a * b
        <= 0x4000_0000_0000_0000_0000_0000_0000_0000) by (nonlinear_arith)
        requires
            -0x8000_0000_0000_0000 <= a <= 0x8000_0000_0000_0000,
            -0x8000_0000_0000_0000 <= b <= 0x8000_0000_0000_0000,
    ;
}

impl Scalar for Fixed {
    open spec fn spec_add(self, other: Self) -> Self {
        saturated(self.raw + other.raw)
    }

    open spec fn spec_sub(self, other: Self) -> Self {
        saturated(self.raw - other.raw)
    }

    /// The product, rounded down.
    open spec fn spec_mul(self, other: Self) -> Self {
        saturated((self.raw * other.raw) / ONE as int)
    }

    /// The quotient, rounded down. A quotient by zero is the end of the range on the dividend's
    /// side, and zero over zero is zero.
    open spec fn spec_euclidean_or_real_div(self, other: Self) -> Self {
        if other.raw > 0 {
            saturated((self.raw * ONE) / other.raw as int)
        } else if other.raw < 0 {
            saturated((-self.raw * ONE) / -other.raw)
        } else if self.raw > 0 {
            Fixed { raw: i64::MAX }
        } else if self.raw < 0 {
            Fixed { raw: i64::MIN }
        } else {
            Fixed { raw: 0 }
        }
    }

    open spec fn spec_neg(self) -> Self {
        saturated(-self.raw)
    }

    open spec fn spec_lt(self, other: Self) -> bool {
        self.raw < other.raw
    }

    open spec fn spec_le(self, other: Self) -> bool {
        self.raw <= other.raw
    }

    /// The fraction, rounded down.
    open spec fn frac(num: int, den: int) -> Self {
        saturated((num * ONE) / den)
    }

    open spec fn top() -> Self {
        Fixed { raw: i64::MAX }
    }

    open spec fn magnitude(self) -> Self {
        if self.raw < 0 {
            saturated(-self.raw)
        } else {
            self
        }
    }

    open spec fn floored(self) -> Self {
        saturated((self.raw as int / ONE as int) * ONE)
    }

    open spec fn ceiled(self) -> Self {
        saturated(-((-self.raw) / ONE as int) * ONE)
    }

    open spec fn rounded(self) -> Self {
        if self.raw < 0 {
            saturated(-((-self.raw + ONE / 2) / ONE as int) * ONE)
        } else {
            saturated(((self.raw + ONE / 2) / ONE as int) * ONE)
        }
    }

    /// The square root, rounded down; zero for a negative number.
    open spec fn root(self) -> Self {
        if self.raw <= 0 {
            Fixed { raw: 0 }
        } else {
            saturated(integer_root(self.raw * ONE))
        }
    }

    open spec fn lesser(self, other: Self) -> Self {
        if other.raw < self.raw {
            other
        } else {
            self
        }
    }

    open spec fn greater(self, other: Self) -> Self {
        if self.raw < other.raw {
            other
        } else {
            self
        }
    }

    open spec fn finite(self) -> bool {
        true
    }

    open spec fn whole(self) -> i32 {
        if self.raw < 0 {
            (-((-self.raw) / ONE as int)) as i32
        } else {
            (self.raw as int / ONE as int) as i32
        }
    }

    open spec fn index(self) -> usize {
        if self.raw < 0 {
            0
        } else {
            (self.raw as int / ONE as int) as usize
        }
    }

    open spec fn byte(self) -> u8 {
        if self.raw < 0 {
            0
        } else if self.raw as int / ONE as int > 255 {
            255
        } else {
            (self.raw as int / ONE as int) as u8
        }
    }

    fn plus(self, other: Self) -> (r: Self) {
        saturate(self.raw as i128 + other.raw as i128)
    }

    fn minus(self, other: Self) -> (r: Self) {
        saturate(self.raw as i128 - other.raw as i128)
    }

    fn times(self, other: Self) -> (r: Self) {
        proof {
            lemma_product_fits(self.raw, other.raw);
        }
        saturate(floor_div(self.raw as i128 * other.raw as i128, ONE as i128))
    }

    fn over(self, other: Self) -> (r: Self) {
        if other.raw > 0 {
            saturate(floor_div(wholes(self.raw), other.raw as i128))
        } else if other.raw < 0 {
            saturate(floor_div(-wholes(self.raw), -(other.raw as i128)))
        } else if self.raw > 0 {
            Fixed { raw: i64::MAX }
        } else if self.raw < 0 {
            Fixed { raw: i64::MIN }
        } else {
            Fixed { raw: 0 }
        }
    }

    fn negated(self) -> (r: Self) {
        saturate(-(self.raw as i128))
    }

    fn less(self, other: Self) -> (r: bool) {
        self.raw < other.raw
    }

    fn at_most(self, other: Self) -> (r: bool) {
        self.raw <= other.raw
    }

    fn ratio(num: i64, den: u64) -> (r: Self) {
        saturate(floor_div(wholes(num), den as i128))
    }

    fn largest() -> (r: Self) {
        Fixed { raw: i64::MAX }
    }

    fn absolute(self) -> (r: Self) {
        if self.raw < 0 {
            saturate(-(self.raw as i128))
        } else {
            self
        }
    }

    fn floor(self) -> (r: Self) {
        saturate(floor_div(self.raw as i128, ONE as i128) * ONE as i128)
    }

    fn ceil(self) -> (r: Self) {
        saturate(-floor_div(-(self.raw as i128), ONE as i128) * ONE as i128)
    }

    fn round(self) -> (r: Self) {
        if self.raw < 0 {
            saturate(
                -floor_div(-(self.raw as i128) + (ONE / 2) as i128, ONE as i128) * ONE as i128,
            )
        } else {
            saturate(floor_div(self.raw as i128 + (ONE / 2) as i128, ONE as i128) * ONE as i128)
        }
    }

    fn sqrt(self) -> (r: Self) {
        if self.raw <= 0 {
            Fixed { raw: 0 }
        } else {
            saturate(root_of(wholes(self.raw)))
        }
    }

    fn least(self, other: Self) -> (r: Self) {
        if other.raw < self.raw {
            other
        } else {
            self
        }
    }

    fn greatest(self, other: Self) -> (r: Self) {
        if self.raw < other.raw {
            other
        } else {
            self
        }
    }

    fn is_finite(self) -> (r: bool) {
        true
    }

    fn to_i32(self) -> (r: i32) {
        if self.raw < 0 {
            (-((-(self.raw as i128)) / ONE as i128)) as i32
        } else {
            (self.raw / ONE) as i32
        }
    }

    fn to_index(self) -> (r: usize) {
        if self.raw < 0 {
            0
        } else {
            (self.raw / ONE) as usize
        }
    }

    fn to_byte(self) -> (r: u8) {
        if self.raw < 0 {
            0
        } else if self.raw / ONE > 255 {
            255
        } else {
            (self.raw / ONE) as u8
        }
    }
}

/// Fixed point numbers are ordered, and all of them compare.
pub proof fn law_fixed_is_strictly_ordered()
    ensures
        strictly_ordered::<Fixed>(),
        ordered::<Fixed>(),
        forall|a: Fixed, b: Fixed| a <= b || #[trigger] b.spec_lt(a),
{
}

} // verus!
