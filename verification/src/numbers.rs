//! What the exact numbers' own operations come to, in their whole steps.

use vstd::prelude::*;

use crate::fixed::{lemma_root_bounds, Fixed};
use crate::scalar::{clamped, int_of, Scalar};

verus! {

/// Whether a number is no further than five hundred million from nothing.
pub open spec fn fair(v: Fixed) -> bool {
    -0x2000_0000_0000_0000 <= v.raw <= 0x2000_0000_0000_0000
}

/// Sums and differences are exact, and a number's opposite takes it away.
pub proof fn law_sums_are_exact(a: Fixed, b: Fixed)
    requires
        fair(a),
        fair(b),
    ensures
        (a + b).raw == a.raw + b.raw,
        (a - b).raw == a.raw - b.raw,
        (a + b) - b == a,
        (a + (-b)) == a - b,
        (-a).raw == -a.raw,
        a.magnitude().raw >= 0,
        a.magnitude() == a || a.magnitude() == -a,
        a.lesser(b).raw <= a.raw && a.lesser(b).raw <= b.raw,
        a.lesser(b) == a || a.lesser(b) == b,
        a.greater(b).raw >= a.raw && a.greater(b).raw >= b.raw,
        a.greater(b) == a || a.greater(b) == b,
        a < b <==> a.raw < b.raw,
        a <= b <==> a.raw <= b.raw,
{
}

/// A quotient, so many times over, is what was divided, but for what is less than one more time.
pub proof fn law_a_quotient_times_its_divisor_is_what_was_divided(a: Fixed, b: Fixed)
    requires
        fair(a),
        b.raw >= 0x1_0000_0000 || b.raw <= -0x1_0000_0000,
        fair(b),
    ensures
        b.raw > 0 ==> (a / b).raw * b.raw <= a.raw * 0x1_0000_0000 < ((a / b).raw + 1) * b.raw,
        b.raw < 0 ==> ((a / b).raw + 1) * b.raw < a.raw * 0x1_0000_0000 <= (a / b).raw * b.raw,
{
    let (n, d) = if b.raw > 0 {
        (a.raw * 0x1_0000_0000, b.raw as int)
    } else {
        (-a.raw * 0x1_0000_0000, -b.raw)
    };
    let q = n / d;
    vstd::arithmetic::div_mod::lemma_fundamental_div_mod(n, d);
    vstd::arithmetic::div_mod::lemma_mod_bound(n, d);
    let qd = q * d;
    assert(qd <= n < qd + d) by (nonlinear_arith)
        requires
            n == d * q + n % d,
            0 <= n % d < d,
            qd == q * d,
    ;
    assert(-0x2000_0000_0000_0000 <= q <= 0x2000_0000_0000_0000) by (nonlinear_arith)
        requires
            q * d <= n < q * d + d,
            d >= 0x1_0000_0000,
            -0x2000_0000_0000_0000 * 0x1_0000_0000 <= n <= 0x2000_0000_0000_0000 * 0x1_0000_0000,
    ;
    assert((a / b).raw == q);
    assert((q + 1) * d == qd + d) by (nonlinear_arith)
        requires
            qd == q * d,
    ;
    if b.raw < 0 {
        assert(q * b.raw == -qd) by (nonlinear_arith)
            requires
                qd == q * d,
                d == -b.raw,
        ;
        assert((q + 1) * b.raw == -(qd + d)) by (nonlinear_arith)
            requires
                qd == q * d,
                d == -b.raw,
        ;
    }
}

/// A number over nothing is as far as numbers go on its own side, and nothing over nothing is nothing.
pub proof fn law_nothing_divides_to_the_ends(a: Fixed)
    ensures
        ({
            let q = a / (Fixed { raw: 0 });
            &&& a.raw > 0 ==> q.raw == i64::MAX
            &&& a.raw < 0 ==> q.raw == i64::MIN
            &&& a.raw == 0 ==> q.raw == 0
        }),
{
}

/// Numbers are brought to wholes as their names say: down, up, or to the nearer, where a number half way
/// goes away from nothing; and a whole is read off towards nothing.
pub proof fn law_numbers_are_rounded_as_named(a: Fixed)
    requires
        -0x1000_0000_0000_0000 <= a.raw <= 0x1000_0000_0000_0000,
    ensures
        a.floored().raw % 0x1_0000_0000 == 0,
        a.floored().raw <= a.raw < a.floored().raw + 0x1_0000_0000,
        a.ceiled().raw % 0x1_0000_0000 == 0,
        a.ceiled().raw - 0x1_0000_0000 < a.raw <= a.ceiled().raw,
        a.rounded().raw % 0x1_0000_0000 == 0,
        a.raw >= 0 ==> a.rounded().raw - 0x8000_0000 <= a.raw < a.rounded().raw + 0x8000_0000,
        a.raw < 0 ==> a.rounded().raw - 0x8000_0000 < a.raw <= a.rounded().raw + 0x8000_0000,
        a.raw >= 0 ==> a.whole() * 0x1_0000_0000 <= a.raw < (a.whole() + 1) * 0x1_0000_0000,
        a.raw < 0 ==> (a.whole() - 1) * 0x1_0000_0000 < a.raw <= a.whole() * 0x1_0000_0000,
{
}

/// A root, squared, is what it is the root of, but for what is less than one step more.
pub proof fn law_a_root_squared_is_its_number(a: Fixed)
    ensures
        a.raw <= 0 ==> a.root().raw == 0,
        a.raw > 0 ==> {
            let r = a.root().raw as int;
            &&& 0 <= r
            &&& r * r <= a.raw * 0x1_0000_0000
            &&& a.raw * 0x1_0000_0000 < (r + 1) * (r + 1)
        },
{
    if a.raw > 0 {
        lemma_root_bounds(a);
    }
}

/// A number held between two others is the number where it is between them, and the one it is beyond
/// where it is not.
pub proof fn law_a_held_number_is_between(x: Fixed, lo: Fixed, hi: Fixed)
    requires
        lo.raw <= hi.raw,
    ensures
        lo.raw <= x.raw <= hi.raw ==> clamped(x, lo, hi) == x,
        x.raw <= lo.raw ==> clamped(x, lo, hi) == lo,
        x.raw >= hi.raw ==> clamped(x, lo, hi) == hi,
{
}

/// A fraction, so many times over, is its numerator, but for what is less than one step more; and a
/// whole number is so many times two to the thirty-second steps.
pub proof fn law_a_fraction_times_its_denominator_is_its_numerator(num: int, den: int)
    requires
        -0x1000_0000 <= num <= 0x1000_0000,
        0 < den,
    ensures
        Fixed::frac(num, den).raw * den <= num * 0x1_0000_0000,
        num * 0x1_0000_0000 < (Fixed::frac(num, den).raw + 1) * den,
        int_of::<Fixed>(num).raw == num * 0x1_0000_0000,
{
    let n = num * 0x1_0000_0000;
    let q = n / den;
    vstd::arithmetic::div_mod::lemma_fundamental_div_mod(n, den);
    vstd::arithmetic::div_mod::lemma_mod_bound(n, den);
    let qd = q * den;
    assert(qd <= n < qd + den) by (nonlinear_arith)
        requires
            n == den * q + n % den,
            0 <= n % den < den,
            qd == q * den,
    ;
    assert(-0x1000_0000_0000_0000 <= q <= 0x1000_0000_0000_0000) by (nonlinear_arith)
        requires
            q * den <= n < q * den + den,
            0 < den,
            -0x1000_0000_0000_0000 <= n <= 0x1000_0000_0000_0000,
    ;
    assert((q + 1) * den == qd + den) by (nonlinear_arith)
        requires
            qd == q * den,
    ;
}

} // verus!
