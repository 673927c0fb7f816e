//! What pushing on the water adds to its energy.
//!
//! A push moves a field's cells at once and leaves alone where they stood a step before. The energy
//! is a square that is never negative, so its root grows by no more than the root of what the push
//! adds of its own.

use vstd::prelude::*;

use crate::energy::{
    bend, drag, energy, energy_of, heights, lemma_drag, lemma_energy_is_not_negative, lemma_nothing,
    lemma_square_at_most, moored, pull,
};
use crate::fixed::Fixed;
use crate::ripple_sim::{on_rim, SIM_AREA};

verus! {

/// A field pushed by another.
spec fn sum_of(a: Seq<real>, p: Seq<real>) -> Seq<real> {
    Seq::new(SIM_AREA as nat, |k: int| a[k] + p[k])
}

/// How far one field is from another.
spec fn gap_of(a: Seq<real>, b: Seq<real>) -> Seq<real> {
    Seq::new(SIM_AREA as nat, |k: int| a[k] - b[k])
}

/// What a push `p` of a field shares with the motion it is in, over the first `n` cells.
spec fn shared(a: Seq<real>, b: Seq<real>, p: Seq<real>, n: int) -> real
    decreases n,
{
    if n <= 0 {
        0 as real
    } else {
        shared(a, b, p, n - 1) + shared_by(
            a[n - 1],
            b[n - 1],
            p[n - 1],
            bend(b, n - 1),
            drag(n - 1),
            pull(),
        )
    }
}

/// What a push of one cell shares with the motion it is in.
spec fn shared_by(a: real, b: real, p: real, l: real, d: real, u: real) -> real {
    (2 as real) * (p * (a - b)) - u * (p * l) + d * (a * p)
}

/// What a push adds of its own, over the first `n` cells.
spec fn own(p: Seq<real>, n: int) -> real
    decreases n,
{
    if n <= 0 {
        0 as real
    } else {
        own(p, n - 1) + p[n - 1] * p[n - 1] + drag(n - 1) * (p[n - 1] * p[n - 1]) / (2 as real)
    }
}

/// A field `q` times over.
spec fn scaled(p: Seq<real>, q: real) -> Seq<real> {
    Seq::new(SIM_AREA as nat, |k: int| q * p[k])
}

/// How one cell's energy changes when it is pushed.
proof fn lemma_cell_under_push(a: real, b: real, p: real, l: real, d: real, u: real)
    ensures
        (a + p - b) * (a + p - b) - u * ((a + p) * l) + d * ((a + p) * (a + p) + b * b) / (2 as real)
            == ((a - b) * (a - b) - u * (a * l) + d * (a * a + b * b) / (2 as real)) + shared_by(
            a,
            b,
            p,
            l,
            d,
            u,
        ) + (p * p + d * (p * p) / (2 as real)),
{
    assert((a + p - b) * (a + p - b) == (a - b) * (a - b) + (2 as real) * (p * (a - b)) + p * p)
        by (nonlinear_arith);
    assert(u * ((a + p) * l) == u * (a * l) + u * (p * l)) by (nonlinear_arith);
    assert((a + p) * (a + p) == a * a + (2 as real) * (a * p) + p * p) by (nonlinear_arith);
    let (x, y, z) = (a * a + b * b, a * p, p * p);
    assert(d * (x + (2 as real) * y + z) == d * x + (2 as real) * (d * y) + d * z)
        by (nonlinear_arith);
    assert((a + p) * (a + p) + b * b == x + (2 as real) * y + z);
}

/// How the energy changes when a field is pushed.
proof fn lemma_energy_under_push(a: Seq<real>, b: Seq<real>, p: Seq<real>, n: int)
    requires
        0 <= n <= SIM_AREA,
    ensures
        energy(sum_of(a, p), b, n) == energy(a, b, n) + shared(a, b, p, n) + own(p, n),
    decreases n,
{
    if n > 0 {
        lemma_energy_under_push(a, b, p, n - 1);
        let k = n - 1;
        assert(sum_of(a, p)[k] == a[k] + p[k]);
        lemma_cell_under_push(a[k], b[k], p[k], bend(b, k), drag(k), pull());
    }
}

proof fn lemma_shared_by_scales(a: real, b: real, p: real, l: real, d: real, u: real, q: real)
    ensures
        shared_by(a, b, q * p, l, d, u) == q * shared_by(a, b, p, l, d, u),
{
    let t = a - b;
    let (x, y, z) = (p * t, u * (p * l), d * (a * p));
    assert((q * p) * t == q * (p * t)) by (nonlinear_arith);
    assert(u * ((q * p) * l) == q * (u * (p * l))) by (nonlinear_arith);
    assert(d * (a * (q * p)) == q * (d * (a * p))) by (nonlinear_arith);
    assert(q * ((2 as real) * x - y + z) == (2 as real) * (q * x) - q * y + q * z)
        by (nonlinear_arith);
}

proof fn lemma_own_scales(p: real, d: real, q: real)
    ensures
        (q * p) * (q * p) + d * ((q * p) * (q * p)) / (2 as real) == (q * q) * (p * p) + (q * q) * (d
            * (p * p)) / (2 as real),
{
    assert((q * p) * (q * p) == (q * q) * (p * p)) by (nonlinear_arith);
    assert(d * ((q * p) * (q * p)) == (q * q) * (d * (p * p))) by (nonlinear_arith);
}

/// What a scaled push shares and adds.
proof fn lemma_scaled_push(a: Seq<real>, b: Seq<real>, p: Seq<real>, q: real, n: int)
    requires
        0 <= n <= SIM_AREA,
    ensures
        shared(a, b, scaled(p, q), n) == q * shared(a, b, p, n),
        own(scaled(p, q), n) == (q * q) * own(p, n),
    decreases n,
{
    let qq = q * q;
    if n <= 0 {
        lemma_nothing(q);
        lemma_nothing(qq);
    } else {
        lemma_scaled_push(a, b, p, q, n - 1);
        let k = n - 1;
        assert(scaled(p, q)[k] == q * p[k]);
        lemma_shared_by_scales(a[k], b[k], p[k], bend(b, k), drag(k), pull(), q);
        lemma_own_scales(p[k], drag(k), q);
        let (x, y) = (
            shared(a, b, p, n - 1),
            shared_by(a[k], b[k], p[k], bend(b, k), drag(k), pull()),
        );
        assert(q * (x + y) == q * x + q * y) by (nonlinear_arith);
        let (v, z, w) = (own(p, n - 1), p[k] * p[k], drag(k) * (p[k] * p[k]));
        let half = w / (2 as real);
        assert(qq * ((2 as real) * half) == (2 as real) * (qq * half)) by (nonlinear_arith);
        assert(qq * (v + z + half) == qq * v + qq * z + qq * half) by (nonlinear_arith);
    }
}

proof fn lemma_product_order(x: real, y: real, z: real)
    requires
        (0 as real) <= x,
        y <= z,
    ensures
        x * y <= x * z,
{
    assert(x * y <= x * z) by (nonlinear_arith)
        requires
            (0 as real) <= x,
            y <= z,
    ;
}

proof fn lemma_factor_order(x: real, y: real, z: real)
    requires
        (0 as real) < x,
        x * y <= x * z,
    ensures
        y <= z,
{
    if z < y {
        let gap = y - z;
        assert(x * gap > 0 as real) by (nonlinear_arith)
            requires
                (0 as real) < x,
                (0 as real) < gap,
        ;
        assert(x * (y - z) == x * y - x * z) by (nonlinear_arith);
    }
}

/// What a push shares with an energy that it cannot make negative is at most twice the product of
/// their roots.
proof fn lemma_share_at_most(e: real, m: real, o: real, w: real, r: real, s: real)
    requires
        e <= r * r,
        o <= s * s,
        (0 as real) < w,
        w * s == r,
        e - w * m + (w * w) * o >= 0 as real,
    ensures
        e + m + o <= (r + s) * (r + s),
{
    let (ww, ss, rr) = (w * w, s * s, r * r);
    assert(ww >= 0 as real) by (nonlinear_arith)
        requires
            ww == w * w,
    ;
    lemma_product_order(ww, o, ss);
    assert((w * w) * (s * s) == (w * s) * (w * s)) by (nonlinear_arith);
    assert(rr == w * (s * r)) by (nonlinear_arith)
        requires
            rr == r * r,
            w * s == r,
    ;
    let sr = s * r;
    assert(w * ((2 as real) * sr) == (2 as real) * (w * sr)) by (nonlinear_arith);
    assert((w * s) * (w * s) == r * r);
    assert(w * m <= w * ((2 as real) * sr));
    lemma_factor_order(w, m, (2 as real) * sr);
    assert((r + s) * (r + s) == r * r + (2 as real) * (s * r) + s * s) by (nonlinear_arith);
}

/// How many times one number goes into another.
proof fn lemma_ratio(r: real, s: real) -> (w: real)
    requires
        (0 as real) < r,
        (0 as real) < s,
    ensures
        (0 as real) < w,
        w * s == r,
{
    let i = (1 as real) / s;
    assert(s * ((1 as real) / s) == 1 as real) by (nonlinear_arith)
        requires
            (0 as real) < s,
    ;
    assert(i > 0 as real) by (nonlinear_arith)
        requires
            s * i == 1 as real,
            (0 as real) < s,
    ;
    assert(r * i > 0 as real) by (nonlinear_arith)
        requires
            (0 as real) < r,
            (0 as real) < i,
    ;
    assert((r * i) * s == r * (s * i)) by (nonlinear_arith);
    assert(r * (s * i) == r) by (nonlinear_arith)
        requires
            s * i == 1 as real,
    ;
    r * i
}

/// The root of the energy grows by no more than the root of what a push adds of its own.
proof fn lemma_push_adds(a: Seq<real>, b: Seq<real>, p: Seq<real>, r: real, s: real)
    requires
        moored(a),
        moored(b),
        moored(p),
        energy(a, b, SIM_AREA as int) <= r * r,
        own(p, SIM_AREA as int) <= s * s,
        (0 as real) < r,
        (0 as real) < s,
    ensures
        energy(sum_of(a, p), b, SIM_AREA as int) <= (r + s) * (r + s),
{
    let n = SIM_AREA as int;
    let w = lemma_ratio(r, s);
    let q = -w;
    let back = scaled(p, q);
    assert(moored(back)) by {
        assert forall|k: int| 0 <= k < SIM_AREA && on_rim(k) implies #[trigger] back[k]
            == 0 as real by {
            assert(p[k] == 0 as real);
            lemma_nothing(q);
        }
    }
    assert(moored(sum_of(a, back)));
    lemma_energy_is_not_negative(sum_of(a, back), b);
    lemma_energy_under_push(a, b, back, n);
    lemma_scaled_push(a, b, p, q, n);
    lemma_energy_under_push(a, b, p, n);
    let (e, m, o) = (energy(a, b, n), shared(a, b, p, n), own(p, n));
    assert((-w) * m == -(w * m)) by (nonlinear_arith);
    assert((-w) * (-w) == w * w) by (nonlinear_arith);
    lemma_share_at_most(e, m, o, w, r, s);
}

/// What a bounded push adds of its own.
proof fn lemma_own_at_most(p: Seq<real>, m: real, n: int)
    requires
        moored(p),
        forall|k: int| 0 <= k < SIM_AREA ==> -m <= #[trigger] p[k] <= m,
        0 <= n <= SIM_AREA,
    ensures
        (5 as real) * own(p, n) <= ((6 as real) * (m * m)) * (n as real),
    decreases n,
{
    let q = m * m;
    let each = (6 as real) * q;
    assert(q >= 0 as real) by (nonlinear_arith)
        requires
            q == m * m,
    ;
    if n <= 0 {
        lemma_nothing(each);
    } else {
        lemma_own_at_most(p, m, n - 1);
        let k = n - 1;
        assert(each * (n as real) == each * ((n - 1) as real) + each) by (nonlinear_arith)
            requires
                n as real == (n - 1) as real + (1 as real),
        ;
        if on_rim(k) {
            assert(p[k] == 0 as real);
            lemma_nothing(p[k]);
            lemma_nothing(drag(k));
        } else {
            lemma_drag(k);
            assert(-m <= p[k] <= m);
            lemma_square_at_most(p[k], m);
            let (x, d) = (p[k] * p[k], drag(k));
            assert(x >= 0 as real) by (nonlinear_arith)
                requires
                    x == p[k] * p[k],
            ;
            lemma_product_order(x, (5 as real) * d, 2 as real);
            assert(x * ((5 as real) * d) == (5 as real) * (d * x)) by (nonlinear_arith);
        }
    }
}

/// A push adds to the root of the energy two hundred and eleven times what it moves any cell by, at
/// most.
pub proof fn law_a_push_adds_little(
    h: Seq<Fixed>,
    to: Seq<Fixed>,
    prev: Seq<Fixed>,
    m: int,
    r: int,
)
    requires
        forall|k: int|
            0 <= k < SIM_AREA && !on_rim(k) ==> h[k].raw - m <= (#[trigger] to[k]).raw <= h[k].raw + m,
        energy_of(h, prev) <= (r * r) as real,
        0 <= m,
        0 < r,
    ensures
        energy_of(to, prev) <= ((r + 211 * m) * (r + 211 * m)) as real,
{
    let (a, b) = (heights(h), heights(prev));
    let p = gap_of(heights(to), a);
    let n = SIM_AREA as int;
    assert forall|k: int| 0 <= k < SIM_AREA implies -(m as real) <= #[trigger] p[k] <= m as real by {
        if !on_rim(k) {
            assert(h[k].raw - m <= to[k].raw <= h[k].raw + m);
        }
    }
    assert(sum_of(a, p) =~= heights(to));
    if m == 0 {
        assert(heights(to) =~= a);
    } else {
        let (x, rr) = (m as real, r as real);
        let s = (211 as real) * x;
        lemma_own_at_most(p, x, n);
        let q = x * x;
        assert(s * s == (44521 as real) * (x * x)) by (nonlinear_arith)
            requires
                s == (211 as real) * x,
        ;
        assert(q >= 0 as real) by (nonlinear_arith)
            requires
                q == x * x,
        ;
        let (each, cells) = ((6 as real) * q, n as real);
        assert(each * cells == each * (36864 as real)) by (nonlinear_arith)
            requires
                cells == 36864 as real,
        ;
        assert((r * r) as real == (r as real) * (r as real)) by (nonlinear_arith);
        lemma_push_adds(a, b, p, rr, s);
        let t = r + 211 * m;
        assert((t * t) as real == (t as real) * (t as real)) by (nonlinear_arith);
        assert(t as real == rr + s);
    }
}

} // verus!
