//! Every operation yields the number that is nearest to the exact result.

use vstd::prelude::*;
use vstd::arithmetic::div_mod::*;
use vstd::arithmetic::mul::*;
use vstd::arithmetic::power2::*;
use vstd::math::abs;

use crate::float::accuracy;
use crate::float::arith;
use crate::float::arith::{Format, Signed};
use crate::float::double::F64;
use crate::float::laws;
use crate::float::rounding;
use crate::float::single::F32;

verus! {

/// The significand of the root of a large number.
proof fn lemma_root_significand(p: nat, n: nat)
    requires
        p >= 2,
        n >= pow2(2 * p),
    ensures
        ({
            let (h, k) = (pow2((p - 1) as nat), rounding::root_quantum(p, n));
            let (w, s) = (pow2(k), rounding::root_floor(n, pow2(k)));
            &&& w > 0
            &&& k >= 1
            &&& h <= s < 2 * h
            &&& (h * w) * (h * w) <= n
            &&& (s * w) * (s * w) <= n < ((s + 1) * w) * ((s + 1) * w)
            &&& n >= pow2((2 * p + 2 * k - 2) as nat)
        }),
{
    let big = rounding::quantum(2 * p, n, 1);
    laws::lemma_quantum_bounds(2 * p, n, 1);
    assert(big > 0);
    let (h, k) = (pow2((p - 1) as nat), rounding::root_quantum(p, n));
    let w = pow2(k);
    assert(2 * k == big || 2 * k == big + 1);
    lemma_pow2_pos(k);
    lemma_pow2_unfold(p);
    assert((0 * w) * (0 * w) == 0) by (nonlinear_arith);
    accuracy::lemma_root_exists(n, w, 0);
    let s = rounding::root_floor(n, w);
    let (a, b) = ((p - 1 + k) as nat, p + k);
    lemma_pow2_adds((p - 1) as nat, k);
    lemma_pow2_adds(p, k);
    lemma_pow2_adds(a, a);
    lemma_pow2_adds(b, b);
    assert(a + a == 2 * p + 2 * k - 2 && b + b == 2 * p + 2 * k);
    if a + a < 2 * p + big - 1 {
        lemma_pow2_strictly_increases(a + a, (2 * p + big - 1) as nat);
    }
    if 2 * p + big < b + b {
        lemma_pow2_strictly_increases(2 * p + big, b + b);
    }
    if s + 1 <= h {
        assert(((s + 1) * w) * ((s + 1) * w) <= (h * w) * (h * w)) by (nonlinear_arith)
            requires
                0 <= s + 1 <= h,
                w >= 0,
        ;
    }
    if s >= 2 * h {
        assert((s * w) * (s * w) >= ((2 * h) * w) * ((2 * h) * w)) by (nonlinear_arith)
            requires
                s >= 2 * h,
                h >= 0,
                w >= 0,
        ;
    }
}

/// No pattern stands for a magnitude nearer to the root of `n` than the rounded one: the root is on
/// this side of the middle between the two, and where it is that middle, the rounded one is even.
proof fn lemma_nearest_root_pattern(p: nat, inf: nat, n: nat, mag: nat)
    requires
        p >= 2,
        n >= pow2(2 * p),
        rounding::round_root(p, inf, n) < inf,
    ensures
        ({
            let r = rounding::round_root(p, inf, n);
            let (t, v) = (rounding::units(p, r), rounding::units(p, mag));
            &&& v > t ==> 4 * n <= (t + v) * (t + v)
            &&& v < t ==> 4 * n >= (t + v) * (t + v)
            &&& v != t && 4 * n == (t + v) * (t + v) ==> r % 2 == 0
        }),
{
    lemma_root_significand(p, n);
    let (h, k) = (pow2((p - 1) as nat), rounding::root_quantum(p, n));
    let (w, s) = (pow2(k), rounding::root_floor(n, pow2(k)));
    let q = rounding::nearest_root(n, w);
    let r = rounding::round_root(p, inf, n);
    let v = rounding::units(p, mag);
    let t = q * w;
    lemma_pow2_unfold(p);
    lemma_pow2_pos((p - 1) as nat);
    laws::lemma_pattern_units(p, k, q);
    assert(r % 2 == q % 2) by {
        let g = pow2((p - 2) as nat);
        lemma_pow2_unfold((p - 1) as nat);
        assert(k * h == 2 * (k * g)) by (nonlinear_arith)
            requires
                h == 2 * g,
        ;
    }
    let mid = (2 * s + 1) * w;
    let em = mag / h;
    let f = mag % h;
    lemma_fundamental_div_mod(mag as int, h as int);
    if em >= k + 1 {
        let j = (em - 1 - k) as nat;
        let c = (h + f) * pow2(j);
        lemma_pow2_adds(j, k);
        assert(v == c * w) by (nonlinear_arith)
            requires
                v == (h + f) * (pow2(j) * w),
                c == (h + f) * pow2(j),
        ;
        lemma_root_and_multiple(n, w, s, q, c);
    } else {
        assert(v <= h * w) by {
            if em == 0 {
                assert(h <= h * w) by (nonlinear_arith)
                    requires
                        w >= 1,
                        h >= 0,
                ;
            } else {
                let z = pow2((em - 1) as nat);
                lemma_pow2_unfold(k);
                if em < k {
                    lemma_pow2_strictly_increases((em - 1) as nat, (k - 1) as nat);
                }
                assert((h + f) * z <= h * w) by (nonlinear_arith)
                    requires
                        f < h,
                        0 <= 2 * z <= w,
                ;
            }
        }
        assert(v <= t) by (nonlinear_arith)
            requires
                v <= h * w,
                q >= h,
                w > 0,
                t == q * w,
        ;
        if v < t {
            lemma_root_and_less(n, w, s, q, h, v);
        }
    }
}

/// The root and a multiple of the spacing.
proof fn lemma_root_and_multiple(n: nat, w: nat, s: nat, q: nat, c: nat)
    requires
        w > 0,
        (s * w) * (s * w) <= n < ((s + 1) * w) * ((s + 1) * w),
        ({
            let mid = (2 * s + 1) * w;
            q == if 4 * n < mid * mid || (4 * n == mid * mid && s % 2 == 0) {
                s
            } else {
                s + 1
            }
        }),
    ensures
        ({
            let (t, v) = (q * w, c * w);
            &&& v > t ==> 4 * n <= (t + v) * (t + v)
            &&& v < t ==> 4 * n >= (t + v) * (t + v)
            &&& v != t && 4 * n == (t + v) * (t + v) ==> q % 2 == 0
        }),
{
    let (t, v) = (q * w, c * w);
    let both = q + c;
    assert(t + v == both * w) by (nonlinear_arith)
        requires
            t == q * w,
            v == c * w,
            both == q + c,
    ;
    let mid = (2 * s + 1) * w;
    assert(4 * ((s * w) * (s * w)) == ((2 * s) * w) * ((2 * s) * w)) by (nonlinear_arith);
    assert(4 * (((s + 1) * w) * ((s + 1) * w)) == ((2 * s + 2) * w) * ((2 * s + 2) * w))
        by (nonlinear_arith);
    if c > q {
        if q == s {
            lemma_squares_ordered(2 * s + 1, both, w);
        } else {
            lemma_squares_ordered(2 * s + 2, both, w);
        }
        assert(v > t) by (nonlinear_arith)
            requires
                c > q,
                w > 0,
                t == q * w,
                v == c * w,
        ;
        if both != 2 * s + 1 {
            lemma_squares_ordered(2 * s + 2, both, w);
        }
    } else if c < q {
        if q == s {
            lemma_squares_ordered(both, (2 * s) as nat, w);
        } else {
            lemma_squares_ordered(both, 2 * s + 1, w);
        }
        assert(v < t) by (nonlinear_arith)
            requires
                c < q,
                w > 0,
                t == q * w,
                v == c * w,
        ;
        if q == s + 1 && both != 2 * s + 1 {
            lemma_squares_ordered(both, (2 * s) as nat, w);
            lemma_squares_apart((2 * s) as nat, 2 * s + 1, w);
        }
        if q == s && both != 2 * s {
            lemma_squares_apart(both, (2 * s) as nat, w);
        }
    }
}

/// The root and a magnitude below the spacing.
proof fn lemma_root_and_less(n: nat, w: nat, s: nat, q: nat, h: nat, v: nat)
    requires
        w > 0,
        v <= h * w,
        h <= s,
        v < q * w,
        (h * w) * (h * w) <= n,
        (s * w) * (s * w) <= n,
        q == s || (q == s + 1 && 4 * n >= ((2 * s + 1) * w) * ((2 * s + 1) * w)),
        q == s + 1 && 4 * n == ((2 * s + 1) * w) * ((2 * s + 1) * w) ==> s % 2 == 1,
    ensures
        4 * n >= (q * w + v) * (q * w + v),
        4 * n == (q * w + v) * (q * w + v) ==> q % 2 == 0,
{
    let t = q * w;
    assert(4 * ((s * w) * (s * w)) == ((2 * s) * w) * ((2 * s) * w)) by (nonlinear_arith);
    if q == s {
        assert(t + v < (2 * s) * w) by (nonlinear_arith)
            requires
                t == q * w,
                q == s,
                v < q * w,
        ;
        let a = (2 * s) * w;
        let b = t + v;
        assert(b * b < a * a) by (nonlinear_arith)
            requires
                0 <= b < a,
        ;
    } else {
        assert(t + v <= (2 * s + 1) * w) by (nonlinear_arith)
            requires
                t == q * w,
                q == s + 1,
                v <= h * w,
                h <= s,
                w > 0,
        ;
        let a = (2 * s + 1) * w;
        let b = t + v;
        assert(b * b <= a * a) by (nonlinear_arith)
            requires
                0 <= b <= a,
        ;
    }
}

/// Squares of multiples are in the order of the factors.
proof fn lemma_squares_ordered(a: nat, b: nat, w: nat)
    requires
        a <= b,
    ensures
        (a * w) * (a * w) <= (b * w) * (b * w),
{
    assert((a * w) * (a * w) <= (b * w) * (b * w)) by (nonlinear_arith)
        requires
            0 <= a <= b,
            w >= 0,
    ;
}

/// Squares of different multiples differ.
proof fn lemma_squares_apart(a: nat, b: nat, w: nat)
    requires
        a < b,
        w > 0,
    ensures
        (a * w) * (a * w) < (b * w) * (b * w),
{
    assert(a * w < b * w) by (nonlinear_arith)
        requires
            a < b,
            w > 0,
    ;
    let (x, y) = (a * w, b * w);
    assert(x * x < y * y) by (nonlinear_arith)
        requires
            0 <= x < y,
    ;
}

/// A rounded magnitude with a sign is the number nearest to the exact one.
proof fn lemma_rounded(fmt: Format, neg: bool, n: nat, d: nat, z: Signed)
    requires
        fmt.valid(),
        d > 0,
        z.mag < fmt.inf,
        fmt.round(n, d) < fmt.inf,
    ensures
        ({
            let r = fmt.value(Signed { neg, mag: fmt.round(n, d) });
            let v = if neg {
                -(n as int)
            } else {
                n as int
            };
            &&& abs(r * d - v) <= abs(fmt.value(z) * d - v)
            &&& abs(r * d - v) == abs(fmt.value(z) * d - v) && r != fmt.value(z) ==> fmt.round(n, d)
                % 2 == 0
        }),
{
    let m = fmt.round(n, d);
    laws::rounding_is_nearest(fmt, n, d, z.mag);
    laws::rounding_is_nearest(fmt, n, d, 0);
    arith::lemma_units_zero(fmt.p as nat);
    let (u, w) = (fmt.units(m), fmt.units(z.mag));
    assert((-u) * d == -(u * d) && (-w) * d == -(w * d) && w * d >= 0 && fmt.units(0) * d == 0)
        by (nonlinear_arith)
        requires
            d > 0,
            w >= 0,
            fmt.units(0) == 0,
    ;
    if m != z.mag && m != 0 {
        arith::lemma_units_ordered(fmt.p as nat, 0, m as nat);
    }
    if z.mag != 0 {
        arith::lemma_units_ordered(fmt.p as nat, 0, z.mag as nat);
        assert(w * d > 0) by (nonlinear_arith)
            requires
                w > 0,
                d > 0,
        ;
    }
}

/// The units of infinity, the power of two past the largest finite magnitude.
proof fn lemma_infinity()
    ensures
        arith::double_format().units(0x7ff0_0000_0000_0000) == pow2(2098),
        arith::single_format().units(0x7f80_0000) == pow2(277),
{
    lemma2_to64();
    lemma2_to64_rest();
    lemma_fundamental_div_mod_converse(0x7ff0_0000_0000_0000, 0x10_0000_0000_0000, 2047, 0);
    lemma_pow2_adds(52, 2046);
    lemma_fundamental_div_mod_converse(0x7f80_0000, 0x80_0000, 255, 0);
    lemma_pow2_adds(23, 254);
}

/// The sign of a product.
proof fn lemma_signs(a: int, b: int, neg_a: bool, neg_b: bool)
    ensures
        ({
            let x = if neg_a {
                -a
            } else {
                a
            };
            let y = if neg_b {
                -b
            } else {
                b
            };
            x * y == if neg_a != neg_b {
                -(a * b)
            } else {
                a * b
            }
        }),
{
    assert((-a) * b == -(a * b) && a * (-b) == -(a * b) && (-a) * (-b) == a * b)
        by (nonlinear_arith);
}

/// The root of a positive number stays finite, and is rounded from a large enough number of units.
proof fn lemma_root_finite(fmt: Format, m: u64)
    requires
        fmt.valid(),
        0 < m < fmt.inf,
    ensures
        ({
            let (p, inf) = (fmt.p as nat, fmt.inf as nat);
            let n = fmt.units(m) * pow2(fmt.unit as nat);
            &&& n >= pow2(2 * p)
            &&& rounding::round_root(p, inf, n) < inf
        }),
{
    let (p, inf) = (fmt.p as nat, fmt.inf as nat);
    let (u, one) = (fmt.units(m), pow2(fmt.unit as nat));
    let n = u * one;
    arith::lemma_units_zero(p);
    arith::lemma_units_ordered(p, 0, m as nat);
    arith::lemma_units_ordered(p, m as nat, inf);
    lemma_infinity();
    lemma2_to64();
    lemma2_to64_rest();
    lemma_pow2_pos(fmt.unit as nat);
    let top: nat = if p == 53 {
        2098
    } else {
        277
    };
    lemma_pow2_adds(top, fmt.unit as nat);
    lemma_pow2_strictly_increases(2 * p, fmt.unit as nat);
    let all = pow2(top);
    assert(one <= n < all * one) by (nonlinear_arith)
        requires
            n == u * one,
            1 <= u < all,
            one > 0,
    ;
    lemma_root_significand(p, n);
    let k = rounding::root_quantum(p, n);
    if 2 * p + 2 * k - 2 >= top + fmt.unit {
        if 2 * p + 2 * k - 2 > top + fmt.unit {
            lemma_pow2_strictly_increases(top + fmt.unit as nat, (2 * p + 2 * k - 2) as nat);
        }
        assert(false);
    }
    let h = pow2((p - 1) as nat);
    let q = rounding::nearest_root(n, pow2(k));
    if p == 53 {
        assert(k * h + q < inf) by (nonlinear_arith)
            requires
                k <= 1540,
                q <= 2 * h,
                h == 0x10_0000_0000_0000,
                inf == 0x7ff0_0000_0000_0000,
        ;
    } else {
        assert(k * h + q < inf) by (nonlinear_arith)
            requires
                k <= 195,
                q <= 2 * h,
                h == 0x80_0000,
                inf == 0x7f80_0000,
        ;
    }
}

/// The 64-bit number with a sign and a magnitude pattern has them.
proof fn lemma_joined64(s: Signed)
    requires
        s.mag < 0x8000_0000_0000_0000,
    ensures
        F64::of_signed(s).signed() == s,
        F64::of_signed(s).bits % 2 == s.mag % 2,
        F64::of_signed(s).bits >= 0x8000_0000_0000_0000 <==> s.neg,
{
}

/// A sum of two finite 64-bit numbers is the finite number nearest to the exact sum, the one with an
/// even pattern where two are equally near, and infinite only where the exact sum reaches the middle
/// between the largest number and the next power of two. It has the sign of the exact sum, and is a
/// negative zero only where both terms are negative.
pub proof fn sums_are_nearest64(x: F64, y: F64, z: F64)
    requires
        x.finite(),
        y.finite(),
        z.finite(),
    ensures
        ({
            let (r, v) = (x.plus(y), x.value() + y.value());
            let bound = (F64 { bits: 0x7fef_ffff_ffff_ffff }).value() + pow2(2098);
            &&& r.finite() <==> 2 * abs(v) < bound
            &&& r.finite() ==> abs(r.value() - v) <= abs(z.value() - v)
            &&& r.finite() && abs(r.value() - v) == abs(z.value() - v) && r.value() != z.value()
                ==> r.bits % 2 == 0
            &&& !r.finite() ==> r.bits == if v < 0 {
                0xfff0_0000_0000_0000u64
            } else {
                0x7ff0_0000_0000_0000u64
            }
            &&& v != 0 ==> (r.bits >= 0x8000_0000_0000_0000 <==> v < 0)
            &&& v == 0 ==> r.bits == if x.bits >= 0x8000_0000_0000_0000 && y.bits >= 0x8000_0000_0000_0000 {
                0x8000_0000_0000_0000u64
            } else {
                0u64
            }
        }),
{
    reveal(F64::spec_plus);
    let fmt = arith::double_format();
    let v = x.value() + y.value();
    let n = abs(v) as nat;
    lemma_infinity();
    arith::lemma_round_bounded(fmt, n, 1);
    laws::rounding_overflows_late(fmt, n, 1);
    let r = x.plus(y);
    let s = fmt.sum(x.signed(), y.signed());
    lemma_joined64(s);
    arith::lemma_units_zero(53);
    arith::lemma_units_ordered(53, 0, 0x7fef_ffff_ffff_ffff);
    lemma_pow2_pos(2098);
    assert(r.signed() == s);
    if v != 0 && r.finite() {
        lemma_rounded(fmt, v < 0, n, 1, z.signed());
        assert(r.value() * 1 == r.value() && z.value() * 1 == z.value());
    }
}

/// A product of two finite 64-bit numbers is the finite number nearest to the exact product, the one
/// with an even pattern where two are equally near, and infinite only where the exact product reaches
/// the middle between the largest number and the next power of two. Its sign is that of the product.
pub proof fn products_are_nearest64(x: F64, y: F64, z: F64)
    requires
        x.finite(),
        y.finite(),
        z.finite(),
    ensures
        ({
            let (r, v, one) = (x.times(y), x.value() * y.value(), pow2(1074) as int);
            let bound = (F64 { bits: 0x7fef_ffff_ffff_ffff }).value() + pow2(2098);
            &&& r.finite() <==> 2 * abs(v) < bound * one
            &&& r.finite() ==> abs(r.value() * one - v) <= abs(z.value() * one - v)
            &&& r.finite() && abs(r.value() * one - v) == abs(z.value() * one - v) && r.value()
                != z.value() ==> r.bits % 2 == 0
            &&& !r.finite() ==> r.signed().mag == 0x7ff0_0000_0000_0000
            &&& r.bits >= 0x8000_0000_0000_0000 <==> (x.bits >= 0x8000_0000_0000_0000) != (y.bits >= 0x8000_0000_0000_0000)
        }),
{
    reveal(F64::spec_times);
    let fmt = arith::double_format();
    let (a, b) = (fmt.units(x.signed().mag), fmt.units(y.signed().mag));
    let (n, one) = (a * b, pow2(1074));
    lemma_pow2_pos(1074);
    lemma_infinity();
    arith::lemma_round_bounded(fmt, n, one);
    laws::rounding_overflows_late(fmt, n, one);
    let r = x.times(y);
    let s = fmt.product(x.signed(), y.signed());
    lemma_joined64(s);
    assert(r.signed() == s);
    let v = x.value() * y.value();
    assert(v == (if s.neg { -(n as int) } else { n as int }) || n == 0) by {
        lemma_signs(a as int, b as int, x.signed().neg, y.signed().neg);
    }
    lemma_signs(a as int, b as int, x.signed().neg, y.signed().neg);
    assert(n >= 0) by (nonlinear_arith)
        requires
            n == a * b,
            a >= 0,
            b >= 0,
    ;
    if r.finite() {
        lemma_rounded(fmt, s.neg, n, one, z.signed());
    }
}

/// A quotient of two finite 64-bit numbers is the finite number nearest to the exact quotient, the one
/// with an even pattern where two are equally near, and infinite only where the exact quotient reaches
/// the middle between the largest number and the next power of two. Its sign is that of the quotient.
pub proof fn quotients_are_nearest64(x: F64, y: F64, z: F64)
    requires
        x.finite(),
        y.finite(),
        z.finite(),
        y.value() != 0,
    ensures
        ({
            let (r, d, one) = (x.over(y), abs(y.value()) as int, pow2(1074) as int);
            let v = if y.value() < 0 {
                -(x.value() * one)
            } else {
                x.value() * one
            };
            let bound = (F64 { bits: 0x7fef_ffff_ffff_ffff }).value() + pow2(2098);
            &&& r.finite() <==> 2 * abs(v) < bound * d
            &&& r.finite() ==> abs(r.value() * d - v) <= abs(z.value() * d - v)
            &&& r.finite() && abs(r.value() * d - v) == abs(z.value() * d - v) && r.value()
                != z.value() ==> r.bits % 2 == 0
            &&& !r.finite() ==> r.signed().mag == 0x7ff0_0000_0000_0000
            &&& r.bits >= 0x8000_0000_0000_0000 <==> (x.bits >= 0x8000_0000_0000_0000) != (y.bits >= 0x8000_0000_0000_0000)
        }),
{
    reveal(F64::spec_over);
    let fmt = arith::double_format();
    let (a, d) = (fmt.units(x.signed().mag), fmt.units(y.signed().mag));
    let one = pow2(1074);
    let n = a * one;
    lemma_pow2_pos(1074);
    lemma_infinity();
    arith::lemma_units_zero(53);
    assert(y.signed().mag != 0 && d > 0);
    arith::lemma_round_bounded(fmt, n, d);
    laws::rounding_overflows_late(fmt, n, d);
    let r = x.over(y);
    let s = fmt.quotient(x.signed(), y.signed());
    lemma_joined64(s);
    assert(r.signed() == s);
    assert((-(a as int)) * one == -(a * one) && n >= 0) by (nonlinear_arith)
        requires
            n == a * one,
            a >= 0,
            one >= 0,
    ;
    assert(y.value() < 0 <==> y.signed().neg);
    if r.finite() {
        lemma_rounded(fmt, s.neg, n, d, z.signed());
    }
}

/// The root of a positive 64-bit number is the number nearest to the exact root: it lies on the same
/// side of the middle between the two as any other number does not, and where the exact root is that
/// middle, the pattern is even. The root of zero is that zero, and a negative number has none.
pub proof fn roots_are_nearest64(x: F64, z: F64)
    requires
        x.finite(),
        z.finite(),
        z.value() >= 0,
    ensures
        ({
            let (r, one) = (x.sqrt(), pow2(1074) as int);
            let (t, u) = (r.value(), z.value());
            &&& x.value() > 0 ==> {
                &&& r.finite() && r.bits < 0x8000_0000_0000_0000
                &&& u > t ==> 4 * (x.value() * one) <= (t + u) * (t + u)
                &&& u < t ==> 4 * (x.value() * one) >= (t + u) * (t + u)
                &&& u != t && 4 * (x.value() * one) == (t + u) * (t + u) ==> r.bits % 2 == 0
            }
            &&& x.value() == 0 ==> r == x
            &&& x.value() < 0 ==> r.is_nan()
        }),
{
    reveal(F64::spec_sqrt);
    reveal(F64::spec_is_nan);
    let fmt = arith::double_format();
    let m = x.signed().mag;
    arith::lemma_units_zero(53);
    if m > 0 {
        arith::lemma_units_ordered(53, 0, m as nat);
    }
    let s = fmt.root(x.signed());
    if x.value() > 0 {
        lemma_root_finite(fmt, m);
        let one = pow2(1074);
        let n = fmt.units(m) * one;
        lemma_nearest_root_pattern(53, 0x7ff0_0000_0000_0000, n, z.signed().mag as nat);
        let zm = z.signed().mag;
        assert(z.value() == fmt.units(zm)) by {
            if zm > 0 {
                arith::lemma_units_ordered(53, 0, zm as nat);
            }
        }
    }
    lemma_joined64(s);
}

/// A count as a 64-bit number is the number nearest to it, the one with an even pattern where two are
/// equally near.
pub proof fn counts_are_nearest64(i: u64, z: F64)
    requires
        z.finite(),
    ensures
        ({
            let (r, v) = (F64::from_count(i), i * pow2(1074));
            &&& r.finite() && r.bits < 0x8000_0000_0000_0000
            &&& abs(r.value() - v) <= abs(z.value() - v)
            &&& abs(r.value() - v) == abs(z.value() - v) && r.value() != z.value() ==> r.bits % 2
                == 0
        }),
{
    reveal(F64::spec_from_count);
    let fmt = arith::double_format();
    let n = i as nat * pow2(1074);
    lemma_infinity();
    arith::lemma_round_bounded(fmt, n, 1);
    laws::rounding_overflows_late(fmt, n, 1);
    assert(2 * n < pow2(2098)) by {
        lemma2_to64();
        lemma_pow2_pos(1074);
        lemma_pow2_adds(65, 1074);
        lemma_pow2_unfold(65);
        assert(pow2(64) == 0x1_0000_0000_0000_0000) by {
            lemma2_to64_rest();
        }
        lemma_pow2_strictly_increases(65 + 1074, 2098);
        let one = pow2(1074);
        assert(2 * n < pow2(65) * one) by (nonlinear_arith)
            requires
                n == i as nat * one,
                i < 0x1_0000_0000_0000_0000,
                pow2(65) == 2 * 0x1_0000_0000_0000_0000,
                one > 0,
        ;
    }
    lemma_rounded(fmt, false, n, 1, z.signed());
    let s = Signed { neg: false, mag: fmt.round(n, 1) };
    lemma_joined64(s);
    assert(F64::from_count(i).signed() == s);
    assert(fmt.value(s) * 1 == fmt.value(s) && z.value() * 1 == z.value());
}

/// The numbers that are not finite: a result is no number where an operand is none, where infinities
/// cancel, and where zeros or infinities have no product or quotient. Else an infinite operand gives an
/// infinite sum and product, and the quotient that its place asks for.
pub proof fn infinities_are_kept64(x: F64, y: F64)
    ensures
        x.is_nan() <==> x.signed().mag > 0x7ff0_0000_0000_0000,
        x.is_nan() || y.is_nan() ==> x.plus(y).is_nan() && x.times(y).is_nan() && x.over(y).is_nan()
            && !x.lt(y) && !x.le(y),
        x.is_nan() ==> x.sqrt().is_nan(),
        x.bits == 0x7ff0_0000_0000_0000 ==> x.sqrt() == x,
        x.bits == 0xfff0_0000_0000_0000 ==> x.sqrt().is_nan(),
        !x.is_nan() && !y.is_nan() && !x.finite() ==> {
            let same = (x.bits >= 0x8000_0000_0000_0000) == (y.bits >= 0x8000_0000_0000_0000);
            let infinite = F64 {
                bits: if same {
                    0x7ff0_0000_0000_0000
                } else {
                    0xfff0_0000_0000_0000
                },
            };
            &&& if !y.finite() && !same {
                x.plus(y).is_nan()
            } else {
                x.plus(y) == x && (y.finite() ==> y.plus(x) == x)
            }
            &&& if y.signed().mag == 0 {
                x.times(y).is_nan() && y.times(x).is_nan()
            } else {
                x.times(y) == infinite && y.times(x) == infinite
            }
            &&& if !y.finite() {
                x.over(y).is_nan()
            } else {
                x.over(y) == infinite && y.over(x) == (F64 {
                    bits: if same {
                        0
                    } else {
                        0x8000_0000_0000_0000
                    },
                })
            }
        },
        x.finite() && y.signed().mag == 0 ==> if x.signed().mag == 0 {
            x.over(y).is_nan()
        } else {
            x.over(y).signed().mag == 0x7ff0_0000_0000_0000 && (x.over(y).bits >= 0x8000_0000_0000_0000 <==> (x.bits >= 0x8000_0000_0000_0000)
                != (y.bits >= 0x8000_0000_0000_0000))
        },
{
    reveal(F64::spec_plus);
    reveal(F64::spec_times);
    reveal(F64::spec_over);
    reveal(F64::spec_sqrt);
    reveal(F64::spec_is_nan);
    reveal(F64::spec_lt);
}

/// The order of 64-bit numbers is that of their values, the infinities at the ends; and the number with
/// the other sign and that without a sign have the values that their names say.
pub proof fn order_follows_the_values64(x: F64, y: F64)
    requires
        !x.is_nan(),
        !y.is_nan(),
    ensures
        x.lt(y) <==> x.value() < y.value(),
        x.le(y) <==> x.value() <= y.value(),
        x.negated().value() == -x.value(),
        x.magnitude().value() == abs(x.value()),
        x.minus(y) == x.plus(y.negated()),
{
    reveal(F64::spec_is_nan);
    reveal(F64::spec_lt);
}

/// A 64-bit pattern is read as a sign, an exponent and a fraction: without an exponent it stands for as
/// many units as the fraction says, and with one for the fraction after a leading one, doubled for each
/// step of the exponent past the first.
pub proof fn patterns_have_their_values64(negative: bool, exponent: nat, fraction: nat)
    requires
        exponent < 2047,
        fraction < 0x10_0000_0000_0000,
    ensures
        ({
            let sign: int = if negative {
                0x8000_0000_0000_0000
            } else {
                0
            };
            let x = F64 { bits: (sign + exponent * 0x10_0000_0000_0000 + fraction) as u64 };
            let size: int = if exponent == 0 {
                fraction as int
            } else {
                ((0x10_0000_0000_0000 + fraction) * pow2((exponent - 1) as nat)) as int
            };
            &&& x.finite()
            &&& x.value() == if negative {
                -size
            } else {
                size
            }
        }),
{
    let m = exponent * 0x10_0000_0000_0000 + fraction;
    assert(m < 0x7ff0_0000_0000_0000) by (nonlinear_arith)
        requires
            m == exponent * 0x10_0000_0000_0000 + fraction,
            exponent <= 2047 - 1,
            fraction < 0x10_0000_0000_0000,
    ;
    assert(pow2(52) == 0x10_0000_0000_0000) by {
        lemma2_to64();
        lemma2_to64_rest();
    }
    lemma_fundamental_div_mod_converse(m as int, 0x10_0000_0000_0000, exponent as int, fraction as int);
    let fmt = arith::double_format();
    let bits: nat = if negative {
        0x8000_0000_0000_0000 + m
    } else {
        m
    };
    let x = F64 { bits: bits as u64 };
    assert(x.bits == bits);
    assert(x.signed() == (Signed { neg: negative, mag: m as u64 }));
    let size = if exponent == 0 {
        fraction
    } else {
        (0x10_0000_0000_0000 + fraction) * pow2((exponent - 1) as nat)
    };
    assert(rounding::units(53, m) == size);
    assert(fmt.units(m as u64) == size);
}

/// The 32-bit number with a sign and a magnitude pattern has them.
proof fn lemma_joined32(s: Signed)
    requires
        s.mag < 0x8000_0000,
    ensures
        F32::of_signed(s).signed() == s,
        F32::of_signed(s).bits % 2 == s.mag % 2,
        F32::of_signed(s).bits >= 0x8000_0000 <==> s.neg,
{
}

/// A sum of two finite 32-bit numbers is the finite number nearest to the exact sum, the one with an
/// even pattern where two are equally near, and infinite only where the exact sum reaches the middle
/// between the largest number and the next power of two. It has the sign of the exact sum, and is a
/// negative zero only where both terms are negative.
pub proof fn sums_are_nearest32(x: F32, y: F32, z: F32)
    requires
        x.finite(),
        y.finite(),
        z.finite(),
    ensures
        ({
            let (r, v) = (x.plus(y), x.value() + y.value());
            let bound = (F32 { bits: 0x7f7f_ffff }).value() + pow2(277);
            &&& r.finite() <==> 2 * abs(v) < bound
            &&& r.finite() ==> abs(r.value() - v) <= abs(z.value() - v)
            &&& r.finite() && abs(r.value() - v) == abs(z.value() - v) && r.value() != z.value()
                ==> r.bits % 2 == 0
            &&& !r.finite() ==> r.bits == if v < 0 {
                0xff80_0000u32
            } else {
                0x7f80_0000u32
            }
            &&& v != 0 ==> (r.bits >= 0x8000_0000 <==> v < 0)
            &&& v == 0 ==> r.bits == if x.bits >= 0x8000_0000 && y.bits >= 0x8000_0000 {
                0x8000_0000u32
            } else {
                0u32
            }
        }),
{
    reveal(F32::spec_plus);
    let fmt = arith::single_format();
    let v = x.value() + y.value();
    let n = abs(v) as nat;
    lemma_infinity();
    arith::lemma_round_bounded(fmt, n, 1);
    laws::rounding_overflows_late(fmt, n, 1);
    let r = x.plus(y);
    let s = fmt.sum(x.signed(), y.signed());
    lemma_joined32(s);
    arith::lemma_units_zero(24);
    arith::lemma_units_ordered(24, 0, 0x7f7f_ffff);
    lemma_pow2_pos(277);
    assert(r.signed() == s);
    if v != 0 && r.finite() {
        lemma_rounded(fmt, v < 0, n, 1, z.signed());
        assert(r.value() * 1 == r.value() && z.value() * 1 == z.value());
    }
}

/// A product of two finite 32-bit numbers is the finite number nearest to the exact product, the one
/// with an even pattern where two are equally near, and infinite only where the exact product reaches
/// the middle between the largest number and the next power of two. Its sign is that of the product.
pub proof fn products_are_nearest32(x: F32, y: F32, z: F32)
    requires
        x.finite(),
        y.finite(),
        z.finite(),
    ensures
        ({
            let (r, v, one) = (x.times(y), x.value() * y.value(), pow2(149) as int);
            let bound = (F32 { bits: 0x7f7f_ffff }).value() + pow2(277);
            &&& r.finite() <==> 2 * abs(v) < bound * one
            &&& r.finite() ==> abs(r.value() * one - v) <= abs(z.value() * one - v)
            &&& r.finite() && abs(r.value() * one - v) == abs(z.value() * one - v) && r.value()
                != z.value() ==> r.bits % 2 == 0
            &&& !r.finite() ==> r.signed().mag == 0x7f80_0000
            &&& r.bits >= 0x8000_0000 <==> (x.bits >= 0x8000_0000) != (y.bits >= 0x8000_0000)
        }),
{
    reveal(F32::spec_times);
    let fmt = arith::single_format();
    let (a, b) = (fmt.units(x.signed().mag), fmt.units(y.signed().mag));
    let (n, one) = (a * b, pow2(149));
    lemma_pow2_pos(149);
    lemma_infinity();
    arith::lemma_round_bounded(fmt, n, one);
    laws::rounding_overflows_late(fmt, n, one);
    let r = x.times(y);
    let s = fmt.product(x.signed(), y.signed());
    lemma_joined32(s);
    assert(r.signed() == s);
    let v = x.value() * y.value();
    assert(v == (if s.neg { -(n as int) } else { n as int }) || n == 0) by {
        lemma_signs(a as int, b as int, x.signed().neg, y.signed().neg);
    }
    lemma_signs(a as int, b as int, x.signed().neg, y.signed().neg);
    assert(n >= 0) by (nonlinear_arith)
        requires
            n == a * b,
            a >= 0,
            b >= 0,
    ;
    if r.finite() {
        lemma_rounded(fmt, s.neg, n, one, z.signed());
    }
}

/// A quotient of two finite 32-bit numbers is the finite number nearest to the exact quotient, the one
/// with an even pattern where two are equally near, and infinite only where the exact quotient reaches
/// the middle between the largest number and the next power of two. Its sign is that of the quotient.
pub proof fn quotients_are_nearest32(x: F32, y: F32, z: F32)
    requires
        x.finite(),
        y.finite(),
        z.finite(),
        y.value() != 0,
    ensures
        ({
            let (r, d, one) = (x.over(y), abs(y.value()) as int, pow2(149) as int);
            let v = if y.value() < 0 {
                -(x.value() * one)
            } else {
                x.value() * one
            };
            let bound = (F32 { bits: 0x7f7f_ffff }).value() + pow2(277);
            &&& r.finite() <==> 2 * abs(v) < bound * d
            &&& r.finite() ==> abs(r.value() * d - v) <= abs(z.value() * d - v)
            &&& r.finite() && abs(r.value() * d - v) == abs(z.value() * d - v) && r.value()
                != z.value() ==> r.bits % 2 == 0
            &&& !r.finite() ==> r.signed().mag == 0x7f80_0000
            &&& r.bits >= 0x8000_0000 <==> (x.bits >= 0x8000_0000) != (y.bits >= 0x8000_0000)
        }),
{
    reveal(F32::spec_over);
    let fmt = arith::single_format();
    let (a, d) = (fmt.units(x.signed().mag), fmt.units(y.signed().mag));
    let one = pow2(149);
    let n = a * one;
    lemma_pow2_pos(149);
    lemma_infinity();
    arith::lemma_units_zero(24);
    assert(y.signed().mag != 0 && d > 0);
    arith::lemma_round_bounded(fmt, n, d);
    laws::rounding_overflows_late(fmt, n, d);
    let r = x.over(y);
    let s = fmt.quotient(x.signed(), y.signed());
    lemma_joined32(s);
    assert(r.signed() == s);
    assert((-(a as int)) * one == -(a * one) && n >= 0) by (nonlinear_arith)
        requires
            n == a * one,
            a >= 0,
            one >= 0,
    ;
    assert(y.value() < 0 <==> y.signed().neg);
    if r.finite() {
        lemma_rounded(fmt, s.neg, n, d, z.signed());
    }
}

/// The root of a positive 32-bit number is the number nearest to the exact root: it lies on the same
/// side of the middle between the two as any other number does not, and where the exact root is that
/// middle, the pattern is even. The root of zero is that zero, and a negative number has none.
pub proof fn roots_are_nearest32(x: F32, z: F32)
    requires
        x.finite(),
        z.finite(),
        z.value() >= 0,
    ensures
        ({
            let (r, one) = (x.sqrt(), pow2(149) as int);
            let (t, u) = (r.value(), z.value());
            &&& x.value() > 0 ==> {
                &&& r.finite() && r.bits < 0x8000_0000
                &&& u > t ==> 4 * (x.value() * one) <= (t + u) * (t + u)
                &&& u < t ==> 4 * (x.value() * one) >= (t + u) * (t + u)
                &&& u != t && 4 * (x.value() * one) == (t + u) * (t + u) ==> r.bits % 2 == 0
            }
            &&& x.value() == 0 ==> r == x
            &&& x.value() < 0 ==> r.is_nan()
        }),
{
    reveal(F32::spec_sqrt);
    reveal(F32::spec_is_nan);
    let fmt = arith::single_format();
    let m = x.signed().mag;
    arith::lemma_units_zero(24);
    if m > 0 {
        arith::lemma_units_ordered(24, 0, m as nat);
    }
    let s = fmt.root(x.signed());
    if x.value() > 0 {
        lemma_root_finite(fmt, m);
        let one = pow2(149);
        let n = fmt.units(m) * one;
        lemma_nearest_root_pattern(24, 0x7f80_0000, n, z.signed().mag as nat);
        let zm = z.signed().mag;
        assert(z.value() == fmt.units(zm)) by {
            if zm > 0 {
                arith::lemma_units_ordered(24, 0, zm as nat);
            }
        }
    }
    lemma_joined32(s);
}

/// A count as a 32-bit number is the number nearest to it, the one with an even pattern where two are
/// equally near.
pub proof fn counts_are_nearest32(i: u64, z: F32)
    requires
        z.finite(),
    ensures
        ({
            let (r, v) = (F32::from_count(i), i * pow2(149));
            &&& r.finite() && r.bits < 0x8000_0000
            &&& abs(r.value() - v) <= abs(z.value() - v)
            &&& abs(r.value() - v) == abs(z.value() - v) && r.value() != z.value() ==> r.bits % 2
                == 0
        }),
{
    reveal(F32::spec_from_count);
    let fmt = arith::single_format();
    let n = i as nat * pow2(149);
    lemma_infinity();
    arith::lemma_round_bounded(fmt, n, 1);
    laws::rounding_overflows_late(fmt, n, 1);
    assert(2 * n < pow2(277)) by {
        lemma2_to64();
        lemma_pow2_pos(149);
        lemma_pow2_adds(65, 149);
        lemma_pow2_unfold(65);
        assert(pow2(64) == 0x1_0000_0000_0000_0000) by {
            lemma2_to64_rest();
        }
        lemma_pow2_strictly_increases(65 + 149, 277);
        let one = pow2(149);
        assert(2 * n < pow2(65) * one) by (nonlinear_arith)
            requires
                n == i as nat * one,
                i < 0x1_0000_0000_0000_0000,
                pow2(65) == 2 * 0x1_0000_0000_0000_0000,
                one > 0,
        ;
    }
    lemma_rounded(fmt, false, n, 1, z.signed());
    let s = Signed { neg: false, mag: fmt.round(n, 1) };
    lemma_joined32(s);
    assert(F32::from_count(i).signed() == s);
    assert(fmt.value(s) * 1 == fmt.value(s) && z.value() * 1 == z.value());
}

/// The numbers that are not finite: a result is no number where an operand is none, where infinities
/// cancel, and where zeros or infinities have no product or quotient. Else an infinite operand gives an
/// infinite sum and product, and the quotient that its place asks for.
pub proof fn infinities_are_kept32(x: F32, y: F32)
    ensures
        x.is_nan() <==> x.signed().mag > 0x7f80_0000,
        x.is_nan() || y.is_nan() ==> x.plus(y).is_nan() && x.times(y).is_nan() && x.over(y).is_nan()
            && !x.lt(y) && !x.le(y),
        x.is_nan() ==> x.sqrt().is_nan(),
        x.bits == 0x7f80_0000 ==> x.sqrt() == x,
        x.bits == 0xff80_0000 ==> x.sqrt().is_nan(),
        !x.is_nan() && !y.is_nan() && !x.finite() ==> {
            let same = (x.bits >= 0x8000_0000) == (y.bits >= 0x8000_0000);
            let infinite = F32 {
                bits: if same {
                    0x7f80_0000
                } else {
                    0xff80_0000
                },
            };
            &&& if !y.finite() && !same {
                x.plus(y).is_nan()
            } else {
                x.plus(y) == x && (y.finite() ==> y.plus(x) == x)
            }
            &&& if y.signed().mag == 0 {
                x.times(y).is_nan() && y.times(x).is_nan()
            } else {
                x.times(y) == infinite && y.times(x) == infinite
            }
            &&& if !y.finite() {
                x.over(y).is_nan()
            } else {
                x.over(y) == infinite && y.over(x) == (F32 {
                    bits: if same {
                        0
                    } else {
                        0x8000_0000
                    },
                })
            }
        },
        x.finite() && y.signed().mag == 0 ==> if x.signed().mag == 0 {
            x.over(y).is_nan()
        } else {
            x.over(y).signed().mag == 0x7f80_0000 && (x.over(y).bits >= 0x8000_0000 <==> (x.bits >= 0x8000_0000)
                != (y.bits >= 0x8000_0000))
        },
{
    reveal(F32::spec_plus);
    reveal(F32::spec_times);
    reveal(F32::spec_over);
    reveal(F32::spec_sqrt);
    reveal(F32::spec_is_nan);
    reveal(F32::spec_lt);
}

/// The order of 32-bit numbers is that of their values, the infinities at the ends; and the number with
/// the other sign and that without a sign have the values that their names say.
pub proof fn order_follows_the_values32(x: F32, y: F32)
    requires
        !x.is_nan(),
        !y.is_nan(),
    ensures
        x.lt(y) <==> x.value() < y.value(),
        x.le(y) <==> x.value() <= y.value(),
        x.negated().value() == -x.value(),
        x.magnitude().value() == abs(x.value()),
        x.minus(y) == x.plus(y.negated()),
{
    reveal(F32::spec_is_nan);
    reveal(F32::spec_lt);
}

/// A 32-bit pattern is read as a sign, an exponent and a fraction: without an exponent it stands for as
/// many units as the fraction says, and with one for the fraction after a leading one, doubled for each
/// step of the exponent past the first.
pub proof fn patterns_have_their_values32(negative: bool, exponent: nat, fraction: nat)
    requires
        exponent < 255,
        fraction < 0x80_0000,
    ensures
        ({
            let sign: int = if negative {
                0x8000_0000
            } else {
                0
            };
            let x = F32 { bits: (sign + exponent * 0x80_0000 + fraction) as u32 };
            let size: int = if exponent == 0 {
                fraction as int
            } else {
                ((0x80_0000 + fraction) * pow2((exponent - 1) as nat)) as int
            };
            &&& x.finite()
            &&& x.value() == if negative {
                -size
            } else {
                size
            }
        }),
{
    let m = exponent * 0x80_0000 + fraction;
    assert(m < 0x7f80_0000) by (nonlinear_arith)
        requires
            m == exponent * 0x80_0000 + fraction,
            exponent <= 255 - 1,
            fraction < 0x80_0000,
    ;
    assert(pow2(23) == 0x80_0000) by {
        lemma2_to64();
        lemma2_to64_rest();
    }
    lemma_fundamental_div_mod_converse(m as int, 0x80_0000, exponent as int, fraction as int);
    let fmt = arith::single_format();
    let bits: nat = if negative {
        0x8000_0000 + m
    } else {
        m
    };
    let x = F32 { bits: bits as u32 };
    assert(x.bits == bits);
    assert(x.signed() == (Signed { neg: negative, mag: m as u64 }));
    let size = if exponent == 0 {
        fraction
    } else {
        (0x80_0000 + fraction) * pow2((exponent - 1) as nat)
    };
    assert(rounding::units(24, m) == size);
    assert(fmt.units(m as u64) == size);
}

/// Narrowing a finite number yields the 32-bit number nearest to it, the one with an even pattern where
/// two are equally near, and an infinity only where the number reaches the middle between the largest
/// 32-bit number and the next power of two. The sign stays. Infinities are kept, and a not-a-number
/// gives one.
pub proof fn narrowing_is_nearest(x: F64, z: F32)
    requires
        z.finite(),
    ensures
        ({
            let (r, v, d) = (x.narrowed(), x.value(), pow2(925) as int);
            let bound = (F32 { bits: 0x7f7f_ffff }).value() + pow2(277);
            &&& x.is_nan() <==> r.is_nan()
            &&& !x.is_nan() ==> (r.bits >= 0x8000_0000 <==> x.bits >= 0x8000_0000_0000_0000)
            &&& !x.is_nan() && !x.finite() ==> r.signed().mag == 0x7f80_0000
            &&& x.finite() ==> {
                &&& r.finite() <==> 2 * abs(v) < bound * d
                &&& r.finite() ==> abs(r.value() * d - v) <= abs(z.value() * d - v)
                &&& r.finite() && abs(r.value() * d - v) == abs(z.value() * d - v) && r.value()
                    != z.value() ==> r.bits % 2 == 0
            }
        }),
{
    reveal(F64::spec_converted);
    reveal(F64::spec_is_nan);
    reveal(F32::spec_is_nan);
    let (from, to) = (arith::double_format(), arith::single_format());
    let s = from.converted(to, x.signed());
    let (n, d) = (from.units(x.signed().mag), pow2(925));
    lemma_pow2_pos(925);
    lemma_infinity();
    arith::lemma_round_bounded(to, n, d);
    laws::rounding_overflows_late(to, n, d);
    lemma_joined32(s);
    assert(x.narrowed().signed() == s);
    if x.finite() && x.narrowed().finite() {
        lemma_rounded(to, x.signed().neg, n, d, z.signed());
    }
}

/// Widening keeps the sign, the infinities and what is no number.
pub proof fn widening_keeps_infinities(x: F32)
    ensures
        x.is_nan() <==> x.widened().is_nan(),
        x.finite() <==> x.widened().finite(),
        !x.is_nan() ==> (x.widened().bits >= 0x8000_0000_0000_0000 <==> x.bits >= 0x8000_0000),
        x.finite() ==> x.widened().value() == x.value() * pow2(925),
{
    reveal(F32::spec_converted);
    reveal(F32::spec_is_nan);
    reveal(F64::spec_is_nan);
    let (from, to) = (arith::single_format(), arith::double_format());
    let s = from.converted(to, x.signed());
    arith::lemma_round_bounded(to, from.units(x.signed().mag) * pow2(925), 1);
    lemma_joined64(s);
    if x.finite() {
        laws::widening_is_exact(x);
    }
}

/// The floor of a number is the last whole number that is not past it, where that fits in 32 bits;
/// else it is the end of the range on its side, and zero for what is no number.
pub proof fn floors_are_below(x: F32)
    ensures
        ({
            let (v, one, f) = (x.value(), pow2(149) as int, x.floor_i32() as int);
            &&& x.is_nan() ==> f == 0
            &&& x.finite() && i32::MIN * one <= v < (i32::MAX + 1) * one ==> f * one <= v < (f + 1)
                * one
            &&& !x.is_nan() && v < i32::MIN * one ==> f == i32::MIN
            &&& !x.is_nan() && v >= (i32::MAX + 1) * one ==> f == i32::MAX
        }),
{
    reveal(F32::spec_floor_i32);
    reveal(F32::spec_is_nan);
    let (v, one) = (x.value(), pow2(149) as int);
    lemma_pow2_pos(149);
    lemma_infinity();
    if x.finite() {
        let q = v / one;
        lemma_fundamental_div_mod(v, one);
        lemma_mul_is_commutative(one, q);
        assert((q + 1) * one == q * one + one) by (nonlinear_arith);
        if v < i32::MIN * one {
            assert(q < i32::MIN) by (nonlinear_arith)
                requires
                    q * one <= v < i32::MIN * one,
                    one > 0,
            ;
        } else if v >= (i32::MAX + 1) * one {
            assert(q + 1 > i32::MAX + 1) by (nonlinear_arith)
                requires
                    (q + 1) * one > v >= (i32::MAX + 1) * one,
                    one > 0,
            ;
        } else {
            assert(i32::MIN <= q <= i32::MAX) by (nonlinear_arith)
                requires
                    q * one <= v < (q + 1) * one,
                    i32::MIN * one <= v < (i32::MAX + 1) * one,
                    one > 0,
            ;
        }
    } else if !x.is_nan() {
        lemma_pow2_adds(149, 128);
        lemma_pow2_strictly_increases(64, 128);
        lemma2_to64_rest();
        let top = pow2(128);
        assert(one * top >= (i32::MAX + 1) * one && -(one * top) < i32::MIN * one) by (nonlinear_arith)
            requires
                one > 0,
                top > 0x1_0000_0000_0000_0000,
        ;
    }
}

/// The whole part of a number as an index is the last whole number that is not past it, where that is
/// an index; else it is the largest index, and zero for what is no number and for what is negative.
pub proof fn whole_parts_are_below(x: F32)
    ensures
        ({
            let (v, one, f) = (x.value(), pow2(149) as int, x.trunc_usize() as int);
            &&& x.is_nan() || x.bits >= 0x8000_0000 ==> f == 0
            &&& x.finite() && 0 <= v < (usize::MAX + 1) * one && x.bits < 0x8000_0000 ==> f * one
                <= v < (f + 1) * one
            &&& !x.is_nan() && v >= (usize::MAX + 1) * one ==> f == usize::MAX
        }),
{
    reveal(F32::spec_trunc_usize);
    reveal(F32::spec_is_nan);
    let (v, one) = (x.value(), pow2(149) as int);
    lemma_pow2_pos(149);
    if x.finite() && x.bits < 0x8000_0000 {
        let q = v / one;
        lemma_fundamental_div_mod(v, one);
        lemma_mul_is_commutative(one, q);
        assert((q + 1) * one == q * one + one) by (nonlinear_arith);
        if v >= (usize::MAX + 1) * one {
            assert(q + 1 > usize::MAX + 1) by (nonlinear_arith)
                requires
                    (q + 1) * one > v >= (usize::MAX + 1) * one,
                    one > 0,
            ;
        } else {
            assert(0 <= q <= usize::MAX) by (nonlinear_arith)
                requires
                    q * one <= v < (q + 1) * one,
                    0 <= v < (usize::MAX + 1) * one,
                    one > 0,
            ;
        }
    }
    if x.bits >= 0x8000_0000 {
        assert((usize::MAX + 1) * one > 0) by (nonlinear_arith)
            requires
                one > 0,
        ;
    }
}

} // verus!
