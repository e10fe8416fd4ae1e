//! What doubling the terms and factors of a calculation does to its rounded results.

use vstd::prelude::*;
use vstd::arithmetic::div_mod::*;
use vstd::arithmetic::power2::*;

use crate::float::arith;
use crate::float::arith::Format;
use crate::float::double::F64;
use crate::float::laws;
use crate::float::rounding;

verus! {

/// The first number is twice the second; a zero has the sign of the other.
pub open spec fn is_twice(y: F64, x: F64) -> bool {
    &&& y.finite() && x.finite()
    &&& y.signed().neg == x.signed().neg
    &&& y.value() == 2 * x.value()
}

/// The exact product is zero, or at least the smallest number with all of its digits.
pub open spec fn keeps_digits(x: F64, y: F64) -> bool {
    let fmt = arith::double_format();
    let n = fmt.units(x.signed().mag) * fmt.units(y.signed().mag);
    n == 0 || n >= pow2(1074) * pow2(52)
}

/// Doubling both numbers of a division keeps the nearest whole quotient.
proof fn lemma_twice_nearest(n: nat, e: nat)
    requires
        e > 0,
    ensures
        rounding::nearest(2 * n, 2 * e) == rounding::nearest(n, e),
{
    let (q, r) = (n / e, n % e);
    lemma_fundamental_div_mod(n as int, e as int);
    assert(2 * n == q * (2 * e) + 2 * r) by (nonlinear_arith)
        requires
            n == e * q + r,
    ;
    lemma_fundamental_div_mod_converse((2 * n) as int, (2 * e) as int, q as int, (2 * r) as int);
}

/// Twice a number that has all of its digits rounds to twice what the number rounds to.
proof fn lemma_twice_rounded(fmt: Format, n: nat, d: nat)
    requires
        fmt.valid(),
        d > 0,
        n >= d * pow2((fmt.p - 1) as nat),
        fmt.round(2 * n, d) < fmt.inf,
    ensures
        fmt.round(n, d) < fmt.inf,
        fmt.units(fmt.round(2 * n, d)) == 2 * fmt.units(fmt.round(n, d)),
{
    let (p, inf) = (fmt.p as nat, fmt.inf as nat);
    let k = rounding::quantum(p, n, d);
    laws::lemma_quantum_bounds(p, n, d);
    laws::rounding_is_monotone(fmt, n, 2 * n, d);
    let (b, c) = (pow2((p + k - 1) as nat), pow2(p + k));
    assert(c == 2 * b) by {
        lemma_pow2_unfold(p + k);
    }
    assert(pow2(p + k + 1) == 2 * c) by {
        lemma_pow2_unfold(p + k + 1);
    }
    assert(2 * n < d * (2 * c) && 2 * n >= d * c) by (nonlinear_arith)
        requires
            n < d * c,
            n >= d * b,
            c == 2 * b,
    ;
    rounding::lemma_quantum_unique(p, 2 * n, d, k + 1);
    let (w, w2) = (pow2(k), pow2(k + 1));
    assert(w2 == 2 * w) by {
        lemma_pow2_unfold(k + 1);
    }
    lemma_pow2_pos(k);
    let e = d * w;
    assert(d * w2 == 2 * e && e > 0) by (nonlinear_arith)
        requires
            w2 == 2 * w,
            e == d * w,
            d > 0,
            w > 0,
    ;
    lemma_twice_nearest(n, e);
    arith::lemma_round_bounded(fmt, n, d);
    arith::lemma_round_bounded(fmt, 2 * n, d);
    laws::lemma_rounded_units(p, inf, n, d);
    laws::lemma_rounded_units(p, inf, 2 * n, d);
    let q = rounding::nearest(n, e);
    assert(q * w2 == 2 * (q * w)) by (nonlinear_arith)
        requires
            w2 == 2 * w,
    ;
}

/// Twice a whole number of units rounds to twice what the number rounds to.
proof fn lemma_twice_whole(fmt: Format, n: nat)
    requires
        fmt.valid(),
        fmt.round(2 * n, 1) < fmt.inf,
    ensures
        fmt.round(n, 1) < fmt.inf,
        fmt.units(fmt.round(2 * n, 1)) == 2 * fmt.units(fmt.round(n, 1)),
{
    let (p, inf) = (fmt.p as nat, fmt.inf as nat);
    let h = pow2((p - 1) as nat);
    if n >= h {
        assert(n >= 1 * h);
        lemma_twice_rounded(fmt, n, 1);
    } else {
        assert(pow2(p) == 2 * h) by {
            lemma_pow2_unfold(p);
        }
        assert(pow2(0) == 1) by {
            lemma2_to64();
        }
        laws::rounding_is_monotone(fmt, n, 2 * n, 1);
        arith::lemma_round_bounded(fmt, n, 1);
        arith::lemma_round_bounded(fmt, 2 * n, 1);
        rounding::lemma_quantum_unique(p, n, 1, 0);
        rounding::lemma_quantum_unique(p, 2 * n, 1, 0);
        laws::lemma_rounded_units(p, inf, n, 1);
        laws::lemma_rounded_units(p, inf, 2 * n, 1);
        assert(rounding::nearest(n, 1) == n && rounding::nearest(2 * n, 1) == 2 * n);
    }
}

/// Doubling both terms doubles their rounded sum, where it stays finite.
pub proof fn doubled_terms_double_the_sum(x2: F64, x: F64, y2: F64, y: F64)
    requires
        is_twice(x2, x),
        is_twice(y2, y),
        x2.plus(y2).finite(),
    ensures
        is_twice(x2.plus(y2), x.plus(y)),
{
    reveal(F64::spec_plus);
    let fmt = arith::double_format();
    let v = x.value() + y.value();
    assert(x2.value() + y2.value() == 2 * v);
    let (s, s2) = (fmt.sum(x.signed(), y.signed()), fmt.sum(x2.signed(), y2.signed()));
    let n = vstd::math::abs(v);
    arith::lemma_round_bounded(fmt, n, 1);
    arith::lemma_round_bounded(fmt, 2 * n, 1);
    assert(vstd::math::abs(2 * v) == 2 * n);
    assert(x2.plus(y2).signed() == s2);
    assert(x.plus(y).signed() == s);
    if v != 0 {
        lemma_twice_whole(fmt, n);
    } else {
        assert(fmt.units(0) == 0) by {
            lemma_pow2_pos((fmt.p - 1) as nat);
            assert(0nat / pow2((fmt.p - 1) as nat) == 0) by {
                lemma_div_basics(pow2((fmt.p - 1) as nat) as int);
            }
        }
    }
}

/// Doubling one factor doubles the rounded product, where it stays finite and keeps its digits.
pub proof fn a_doubled_factor_doubles_the_product(x2: F64, x: F64, y: F64)
    requires
        is_twice(x2, x),
        y.finite(),
        keeps_digits(x, y),
        x2.times(y).finite(),
    ensures
        is_twice(x2.times(y), x.times(y)),
{
    reveal(F64::spec_times);
    let fmt = arith::double_format();
    let (u, u2, w) = (
        fmt.units(x.signed().mag),
        fmt.units(x2.signed().mag),
        fmt.units(y.signed().mag),
    );
    assert(u2 == 2 * u);
    let n = u * w;
    assert(u2 * w == 2 * n) by (nonlinear_arith)
        requires
            u2 == 2 * u,
            n == u * w,
    ;
    let d = pow2(1074);
    lemma_pow2_pos(1074);
    arith::lemma_round_bounded(fmt, n, d);
    arith::lemma_round_bounded(fmt, 2 * n, d);
    let (s, s2) = (fmt.product(x.signed(), y.signed()), fmt.product(x2.signed(), y.signed()));
    assert(x2.times(y).signed() == s2);
    assert(x.times(y).signed() == s);
    if n != 0 {
        lemma_twice_rounded(fmt, n, d);
    } else {
        assert(2 * n == n);
        laws::exact_values_are_kept(fmt, 0, d);
        assert(fmt.units(0) == 0) by {
            lemma_pow2_pos((fmt.p - 1) as nat);
            lemma_div_basics(pow2((fmt.p - 1) as nat) as int);
        }
    }
}

/// Doubling both numbers doubles their rounded difference, where it stays finite.
pub proof fn doubled_terms_double_the_difference(x2: F64, x: F64, y2: F64, y: F64)
    requires
        is_twice(x2, x),
        is_twice(y2, y),
        x2.minus(y2).finite(),
    ensures
        is_twice(x2.minus(y2), x.minus(y)),
{
    assert(y2.negated().signed().mag == y2.signed().mag && y2.negated().signed().neg
        == !y2.signed().neg);
    assert(y.negated().signed().mag == y.signed().mag && y.negated().signed().neg
        == !y.signed().neg);
    doubled_terms_double_the_sum(x2, x, y2.negated(), y.negated());
}

/// A product does not depend on the order of its two factors.
pub proof fn products_commute(x: F64, y: F64)
    ensures
        x.times(y) == y.times(x),
{
    reveal(F64::spec_times);
    let fmt = arith::double_format();
    let (u, w) = (fmt.units(x.signed().mag), fmt.units(y.signed().mag));
    assert(u * w == w * u) by (nonlinear_arith);
}

/// The terms of a finite sum and the factors of a finite product are finite.
pub proof fn finite_results_have_finite_parts(x: F64, y: F64)
    ensures
        x.plus(y).finite() ==> x.finite() && y.finite(),
        x.minus(y).finite() ==> x.finite() && y.finite(),
        x.times(y).finite() ==> x.finite() && y.finite(),
{
    reveal(F64::spec_plus);
    reveal(F64::spec_times);
    let fmt = arith::double_format();
    let z = y.negated();
    assert(z.signed().mag == y.signed().mag && z.signed().neg == !y.signed().neg);
    if !x.finite() || !y.finite() {
        assert(x.plus(y).signed() == fmt.sum(x.signed(), y.signed()));
        assert(x.plus(z).signed() == fmt.sum(x.signed(), z.signed()));
        assert(x.times(y).signed() == fmt.product(x.signed(), y.signed()));
    }
}

/// Zero is twice itself.
pub proof fn lemma_zero_is_twice_itself()
    ensures
        is_twice(F64 { bits: 0 }, F64 { bits: 0 }),
{
    let h = pow2(52);
    lemma_pow2_pos(52);
    lemma_div_basics(h as int);
    lemma_fundamental_div_mod(0, h as int);
}

} // verus!
