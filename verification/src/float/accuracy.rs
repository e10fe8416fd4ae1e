//! How far a rounded result is from the exact one, in real numbers.

use vstd::prelude::*;
use vstd::arithmetic::div_mod::lemma_fundamental_div_mod_converse;
use vstd::arithmetic::power2::*;
use vstd::math::abs;

use crate::float::arith;
use crate::float::arith::{Format, Signed};
use crate::float::double::F64;
use crate::float::laws;
use crate::float::rounding;
use crate::float::scaling;
use crate::float::single::F32;

verus! {

/// The distance of two numbers.
pub open spec fn distance(x: real, y: real) -> real {
    if x >= y {
        x - y
    } else {
        y - x
    }
}

/// The size of a number.
pub open spec fn size(x: real) -> real {
    if x >= 0 as real {
        x
    } else {
        -x
    }
}

/// A fraction of whole numbers.
pub open spec fn ratio(n: int, d: int) -> real {
    (n as real) / (d as real)
}

/// The number of a format that is one.
pub open spec fn one_of(fmt: Format) -> real {
    pow2(fmt.unit as nat) as real
}

/// The value of a finite number of a format.
pub open spec fn real_of(fmt: Format, x: Signed) -> real {
    (fmt.value(x) as real) / one_of(fmt)
}

/// The value of a 64-bit number.
pub open spec fn real64(x: F64) -> real {
    real_of(arith::double_format(), x.signed())
}

/// The value of a 32-bit number.
pub open spec fn real32(x: F32) -> real {
    real_of(arith::single_format(), x.signed())
}

/// The relative error of a rounding.
pub open spec fn eps_of(fmt: Format) -> real {
    (1 as real) / (pow2(fmt.p as nat) as real)
}

/// A rounding errs by at most one part in `2^p`, or by half a unit; a whole number of units only
/// by the former.
proof fn lemma_round_error(fmt: Format, n: nat, d: nat)
    requires
        fmt.valid(),
        d > 0,
        fmt.round(n, d) < fmt.inf,
    ensures
        ({
            let e = abs(fmt.units(fmt.round(n, d)) * d - n);
            &&& e * pow2(fmt.p as nat) <= n || 2 * e <= d
            &&& d == 1 ==> e * pow2(fmt.p as nat) <= n
        }),
{
    let p = fmt.p as nat;
    let h = pow2((p - 1) as nat);
    let k = rounding::quantum(p, n, d);
    let s = pow2(k);
    let e = d * s;
    let q = rounding::nearest(n, e);
    arith::lemma_round_bounded(fmt, n, d);
    laws::lemma_rounded_units(p, fmt.inf as nat, n, d);
    laws::lemma_quotient_bounds(p, n, d);
    laws::lemma_nearest(n, e, 0);
    lemma_pow2_unfold(p);
    assert((q * s) * d == q * e) by (nonlinear_arith)
        requires
            e == d * s,
    ;
    let err = abs(fmt.units(fmt.round(n, d)) * d - n);
    assert(2 * err <= e);
    if k > 0 {
        assert(err * pow2(p) <= n) by (nonlinear_arith)
            requires
                2 * err <= e,
                n >= e * h,
                pow2(p) == 2 * h,
                h >= 0,
        ;
    } else {
        assert(s == 1) by {
            lemma2_to64();
        }
        assert(e == d) by (nonlinear_arith)
            requires
                e == d * s,
                s == 1,
        ;
        if d == 1 {
            assert(err * pow2(p) == 0) by (nonlinear_arith)
                requires
                    err == 0,
            ;
        }
    }
}

/// What is well below the largest number of the format rounds to a finite one.
proof fn lemma_round_finite(fmt: Format, n: nat, d: nat)
    requires
        fmt.valid(),
        d > 0,
        n < d * pow2((fmt.unit + 64) as nat),
    ensures
        fmt.round(n, d) < fmt.inf,
{
    let p = fmt.p as nat;
    let b = (fmt.unit + 64) as nat;
    let h = pow2((p - 1) as nat);
    let k = rounding::quantum(p, n, d);
    laws::lemma_quantum_bounds(p, n, d);
    laws::lemma_quotient_bounds(p, n, d);
    arith::lemma_round_bounded(fmt, n, d);
    assert(pow2(23) == 0x80_0000 && pow2(24) == 0x100_0000 && pow2(52) == 0x10_0000_0000_0000
        && pow2(53) == 0x20_0000_0000_0000) by {
        lemma2_to64();
        lemma2_to64_rest();
    }
    if k > 0 && p + k - 1 >= b {
        if p + k - 1 > b {
            lemma_pow2_strictly_increases(b, (p + k - 1) as nat);
        }
        assert(d * pow2(b) <= d * pow2((p + k - 1) as nat)) by (nonlinear_arith)
            requires
                pow2(b) <= pow2((p + k - 1) as nat),
        ;
    }
    assert(p + k - 1 < b || k == 0);
    assert(k * h + 2 * h <= (k + 2) * h) by (nonlinear_arith);
    assert((k + 2) * h < fmt.inf) by (nonlinear_arith)
        requires
            (h == 0x80_0000 && k <= 189 && fmt.inf == 0x7f80_0000) || (h == 0x10_0000_0000_0000
                && k <= 1085 && fmt.inf == 0x7ff0_0000_0000_0000),
    ;
}

/// An error in units, as a real number.
proof fn lemma_unit_error(u: int, n: int, d: int, one: int, pp: int)
    requires
        d > 0,
        one > 0,
        pp > 0,
        n >= 0,
        abs(u * d - n) * pp <= n || 2 * abs(u * d - n) <= d,
    ensures
        ({
            let (x, y) = (ratio(u, one), ratio(n, d) / (one as real));
            distance(x, y) <= y / (pp as real) + (1 as real) / (one as real)
        }),
        abs(u * d - n) * pp <= n ==> ({
            let (x, y) = (ratio(u, one), ratio(n, d) / (one as real));
            distance(x, y) <= y / (pp as real)
        }),
{
    let e = abs(u * d - n);
    let (ur, nr, dr, or, pr, er) = (
        u as real,
        n as real,
        d as real,
        one as real,
        pp as real,
        e as real,
    );
    let x = ur / or;
    let y = (nr / dr) / or;
    let z = er / (dr * or);
    assert((u * d) as real == ur * dr) by (nonlinear_arith)
        requires
            ur == u as real,
            dr == d as real,
    ;
    assert(distance(x, y) == z) by (nonlinear_arith)
        requires
            dr > 0 as real,
            or > 0 as real,
            x == ur / or,
            y == (nr / dr) / or,
            z == er / (dr * or),
            er == distance(ur * dr, nr),
    ;
    assert(y >= 0 as real && y / pr >= 0 as real && (1 as real) / or >= 0 as real)
        by (nonlinear_arith)
        requires
            dr > 0 as real,
            or > 0 as real,
            pr > 0 as real,
            nr >= 0 as real,
            y == (nr / dr) / or,
    ;
    if e * pp <= n {
        assert((e * pp) as real == er * pr) by (nonlinear_arith)
            requires
                er == e as real,
                pr == pp as real,
        ;
        assert(z <= y / pr) by (nonlinear_arith)
            requires
                dr > 0 as real,
                or > 0 as real,
                pr > 0 as real,
                er * pr <= nr,
                y == (nr / dr) / or,
                z == er / (dr * or),
        ;
    } else {
        assert(z <= (1 as real) / or) by (nonlinear_arith)
            requires
                dr > 0 as real,
                or > 0 as real,
                2 as real * er <= dr,
                er >= 0 as real,
                z == er / (dr * or),
        ;
    }
}

/// The largest number for which the errors are stated.
pub open spec fn limit() -> real {
    1_000_000_000_000_000_000int as real
}

/// The value of a number, from its sign and its units.
proof fn lemma_real_of(fmt: Format, x: Signed)
    ensures
        ({
            let m = ratio(fmt.units(x.mag) as int, pow2(fmt.unit as nat) as int);
            &&& m >= 0 as real
            &&& real_of(fmt, x) == if x.neg {
                -m
            } else {
                m
            }
            &&& size(real_of(fmt, x)) == m
        }),
{
    let or = one_of(fmt);
    let ur = fmt.units(x.mag) as int as real;
    lemma_pow2_pos(fmt.unit as nat);
    assert(ur / or >= 0 as real && (-ur) / or == -(ur / or)) by (nonlinear_arith)
        requires
            or > 0 as real,
            ur >= 0 as real,
    ;
    assert((-(fmt.units(x.mag) as int)) as real == -ur);
}

/// A number of units below the limit rounds to a finite number.
proof fn lemma_below_limit(fmt: Format, n: nat, d: nat)
    requires
        fmt.valid(),
        d > 0,
        ratio(n as int, d as int) / one_of(fmt) <= limit(),
    ensures
        fmt.round(n, d) < fmt.inf,
{
    let one = pow2(fmt.unit as nat) as int;
    lemma_pow2_pos(fmt.unit as nat);
    let (nr, dr, or) = (n as real, d as real, one as real);
    assert(nr <= limit() * (dr * or)) by (nonlinear_arith)
        requires
            dr > 0 as real,
            or > 0 as real,
            (nr / dr) / or <= limit(),
    ;
    let big = 1_000_000_000_000_000_000int * (d * one);
    assert(big as real == limit() * (dr * or)) by (nonlinear_arith)
        requires
            big == 1_000_000_000_000_000_000int * (d * one),
            dr == d as real,
            or == one as real,
            limit() == 1_000_000_000_000_000_000int as real,
    ;
    assert(n <= big);
    lemma_pow2_adds(64, fmt.unit as nat);
    lemma2_to64();
    assert(n < d * pow2((fmt.unit + 64) as nat)) by (nonlinear_arith)
        requires
            n <= 1_000_000_000_000_000_000int * (d * one),
            d > 0,
            one > 0,
            pow2((fmt.unit + 64) as nat) == 0x1_0000_0000_0000_0000 * one,
    ;
    lemma_round_finite(fmt, n, d);
}

/// The error of a rounding, in real numbers, where it stays finite: one part in `2^p` and a unit, or
/// only the former for a whole number of units.
proof fn lemma_real_error(fmt: Format, n: nat, d: nat, neg: bool)
    requires
        fmt.valid(),
        d > 0,
    ensures
        ({
            let r = Signed { neg, mag: fmt.round(n, d) };
            let m = ratio(n as int, d as int) / one_of(fmt);
            let exact = if neg {
                -m
            } else {
                m
            };
            &&& m >= 0 as real
            &&& m <= limit() ==> fmt.round(n, d) < fmt.inf
            &&& fmt.round(n, d) < fmt.inf ==> distance(real_of(fmt, r), exact) <= m * eps_of(fmt)
                + (1 as real) / one_of(fmt)
            &&& fmt.round(n, d) < fmt.inf && d == 1 ==> distance(real_of(fmt, r), exact) <= m
                * eps_of(fmt)
        }),
{
    let r = Signed { neg, mag: fmt.round(n, d) };
    let one = pow2(fmt.unit as nat) as int;
    let pp = pow2(fmt.p as nat) as int;
    lemma_pow2_pos(fmt.unit as nat);
    lemma_pow2_pos(fmt.p as nat);
    if ratio(n as int, d as int) / one_of(fmt) <= limit() {
        lemma_below_limit(fmt, n, d);
    }
    if fmt.round(n, d) < fmt.inf {
        lemma_round_error(fmt, n, d);
        lemma_unit_error(fmt.units(r.mag) as int, n as int, d as int, one, pp);
    }
    lemma_real_of(fmt, r);
    let m = ratio(n as int, d as int) / one_of(fmt);
    let (nr, dr, or, pr) = (n as real, d as real, one as real, pp as real);
    assert(m >= 0 as real && m / pr == m * ((1 as real) / pr)) by (nonlinear_arith)
        requires
            nr >= 0 as real,
            dr > 0 as real,
            or > 0 as real,
            pr > 0 as real,
            m == (nr / dr) / or,
    ;
}

/// The sum of two finite numbers is finite where it is not too large, and where it is finite it errs
/// by one part in `2^p`.
proof fn lemma_sum_error(fmt: Format, a: Signed, b: Signed)
    requires
        fmt.valid(),
        a.mag < fmt.inf,
        b.mag < fmt.inf,
    ensures
        ({
            let exact = real_of(fmt, a) + real_of(fmt, b);
            let r = fmt.sum(a, b);
            &&& size(exact) <= limit() ==> r.mag < fmt.inf
            &&& r.mag < fmt.inf ==> distance(real_of(fmt, r), exact) <= size(exact) * eps_of(fmt)
        }),
{
    let or = one_of(fmt);
    lemma_pow2_pos(fmt.unit as nat);
    let v = fmt.value(a) + fmt.value(b);
    let n = abs(v);
    let exact = real_of(fmt, a) + real_of(fmt, b);
    let (vr, nr) = (v as real, n as real);
    assert(exact == vr / or) by (nonlinear_arith)
        requires
            or > 0 as real,
            exact == (fmt.value(a) as real) / or + (fmt.value(b) as real) / or,
            vr == (fmt.value(a) as real) + (fmt.value(b) as real),
    ;
    assert(size(exact) == (nr / (1int as real)) / or && (exact >= 0 as real <==> vr >= 0 as real))
        by (nonlinear_arith)
        requires
            or > 0 as real,
            exact == vr / or,
            nr == size(vr),
    ;
    if v != 0 {
        lemma_real_error(fmt, n, 1, v < 0);
    } else {
        let r = fmt.sum(a, b);
        arith::lemma_units_zero(fmt.p as nat);
        lemma_real_of(fmt, r);
        assert((0int as real) / or == 0 as real) by (nonlinear_arith)
            requires
                or > 0 as real,
        ;
        assert((nr / (1int as real)) / or == 0 as real) by (nonlinear_arith)
            requires
                or > 0 as real,
                nr == 0 as real,
        ;
        assert(0 as real * eps_of(fmt) == 0 as real) by (nonlinear_arith);
    }
}

/// The product of two finite numbers is finite where it is not too large, and where it is finite it
/// errs by one part in `2^p` and a unit.
proof fn lemma_product_error(fmt: Format, a: Signed, b: Signed)
    requires
        fmt.valid(),
        a.mag < fmt.inf,
        b.mag < fmt.inf,
    ensures
        ({
            let exact = real_of(fmt, a) * real_of(fmt, b);
            let r = fmt.product(a, b);
            &&& size(exact) <= limit() ==> r.mag < fmt.inf
            &&& r.mag < fmt.inf ==> distance(real_of(fmt, r), exact) <= size(exact) * eps_of(fmt) + (
            1 as real) / one_of(fmt)
        }),
{
    let one = pow2(fmt.unit as nat);
    let or = one_of(fmt);
    lemma_pow2_pos(fmt.unit as nat);
    let (ua, ub) = (fmt.units(a.mag), fmt.units(b.mag));
    let n = ua * ub;
    let exact = real_of(fmt, a) * real_of(fmt, b);
    let (ar, br, nr) = (ua as int as real, ub as int as real, n as int as real);
    lemma_real_of(fmt, a);
    lemma_real_of(fmt, b);
    assert(nr == ar * br) by (nonlinear_arith)
        requires
            n == ua * ub,
            ar == ua as int as real,
            br == ub as int as real,
            nr == n as int as real,
    ;
    let m = (nr / or) / or;
    let (x, y) = (ar / or, br / or);
    assert(m == x * y && m >= 0 as real) by (nonlinear_arith)
        requires
            or > 0 as real,
            ar >= 0 as real,
            br >= 0 as real,
            nr == ar * br,
            m == (nr / or) / or,
            x == ar / or,
            y == br / or,
    ;
    assert((-x) * y == -(x * y) && x * (-y) == -(x * y) && (-x) * (-y) == x * y)
        by (nonlinear_arith);
    lemma_real_error(fmt, n, one, a.neg != b.neg);
}

/// The quotient of two finite numbers is finite where it is not too large, and where it is finite it
/// errs by one part in `2^p` and a unit.
proof fn lemma_quotient_error(fmt: Format, a: Signed, b: Signed)
    requires
        fmt.valid(),
        a.mag < fmt.inf,
        0 < b.mag < fmt.inf,
    ensures
        ({
            let exact = real_of(fmt, a) / real_of(fmt, b);
            let r = fmt.quotient(a, b);
            &&& size(exact) <= limit() ==> r.mag < fmt.inf
            &&& r.mag < fmt.inf ==> distance(real_of(fmt, r), exact) <= size(exact) * eps_of(fmt) + (
            1 as real) / one_of(fmt)
        }),
{
    let one = pow2(fmt.unit as nat);
    let or = one_of(fmt);
    lemma_pow2_pos(fmt.unit as nat);
    arith::lemma_units_zero(fmt.p as nat);
    arith::lemma_units_ordered(fmt.p as nat, 0, b.mag as nat);
    let (ua, ub) = (fmt.units(a.mag), fmt.units(b.mag));
    let n = ua * one;
    let exact = real_of(fmt, a) / real_of(fmt, b);
    let (ar, br, nr) = (ua as int as real, ub as int as real, n as int as real);
    lemma_real_of(fmt, a);
    lemma_real_of(fmt, b);
    assert(nr == ar * or) by (nonlinear_arith)
        requires
            n == ua * one,
            ar == ua as int as real,
            or == one as int as real,
            nr == n as int as real,
    ;
    let m = (nr / br) / or;
    let (x, y) = (ar / or, br / or);
    assert(m == x / y && m >= 0 as real && y > 0 as real) by (nonlinear_arith)
        requires
            or > 0 as real,
            ar >= 0 as real,
            br > 0 as real,
            nr == ar * or,
            m == (nr / br) / or,
            x == ar / or,
            y == br / or,
    ;
    assert((-x) / y == -(x / y) && x / (-y) == -(x / y) && (-x) / (-y) == x / y)
        by (nonlinear_arith)
        requires
            y > 0 as real,
    ;
    lemma_real_error(fmt, n, ub, a.neg != b.neg);
}

/// The relative error of a 64-bit operation, generously.
pub open spec fn eps64() -> real {
    ratio(1, 1_000_000_000_000_000)
}

/// The relative error of a 32-bit operation, generously.
pub open spec fn eps32() -> real {
    ratio(6, 100_000_000)
}

/// A bound on the smallest positive 32-bit number.
pub open spec fn tiny32() -> real {
    ratio(1, 1_000_000_000)
}

/// A fraction with a larger denominator is smaller.
proof fn lemma_smaller_part(a: int, b: int)
    requires
        0 < a <= b,
    ensures
        0 as real <= ratio(1, b) <= ratio(1, a),
{
    let (ar, br) = (a as real, b as real);
    assert(0 as real <= (1int as real) / br <= (1int as real) / ar) by (nonlinear_arith)
        requires
            (0 as real) < ar && ar <= br,
    ;
}

/// The errors of the formats are within the generous ones.
proof fn lemma_eps()
    ensures
        0 as real <= eps_of(arith::double_format()) <= eps64(),
        (1 as real) / one_of(arith::double_format()) <= eps64(),
        0 as real <= eps_of(arith::single_format()) <= eps32(),
        (1 as real) / one_of(arith::single_format()) <= tiny32(),
        0 as real <= eps64() <= tiny32() <= eps32(),
{
    lemma2_to64();
    lemma2_to64_rest();
    lemma_pow2_strictly_increases(53, 1074);
    lemma_pow2_strictly_increases(32, 149);
    lemma_smaller_part(1_000_000_000_000_000, pow2(53) as int);
    lemma_smaller_part(1_000_000_000_000_000, pow2(1074) as int);
    lemma_smaller_part(1_000_000_000, pow2(149) as int);
    lemma_smaller_part(1_000_000_000, 1_000_000_000_000_000);
    let single = pow2(24) as real;
    assert(0 as real <= (1 as real) / single <= (6int as real) / (100_000_000int as real)
        && (1int as real) / (1_000_000_000int as real) <= (6int as real) / (
    100_000_000int as real)) by (nonlinear_arith)
        requires
            single == 0x100_0000int as real,
    ;
}

/// A finite 64-bit number within `tol` of a real number.
pub open spec fn near64(x: F64, exact: real, tol: real) -> bool {
    x.finite() && distance(real64(x), exact) <= tol
}

/// A finite 32-bit number within `tol` of a real number.
pub open spec fn near32(x: F32, exact: real, tol: real) -> bool {
    x.finite() && distance(real32(x), exact) <= tol
}

/// The negated number stands for the negated value.
pub proof fn lemma_negated64(x: F64, exact: real, tol: real)
    requires
        near64(x, exact, tol),
    ensures
        near64(x.negated(), -exact, tol),
{
    let fmt = arith::double_format();
    assert(x.negated().signed().mag == x.signed().mag && x.negated().signed().neg
        != x.signed().neg);
    lemma_real_of(fmt, x.signed());
    lemma_real_of(fmt, x.negated().signed());
}

/// The sizes up to which the errors of composed operations are stated.
pub open spec fn scale() -> real {
    100_000_000int as real
}

/// The sum of two numbers near real ones is near their sum.
pub proof fn near_plus(x: F64, xe: real, dx: real, a: real, y: F64, ye: real, dy: real, b: real)
    requires
        near64(x, xe, dx),
        near64(y, ye, dy),
        size(xe) <= a <= scale(),
        size(ye) <= b <= scale(),
        dx <= a,
        dy <= b,
    ensures
        near64(x.plus(y), xe + ye, dx + dy + eps64() * (2 as real * a + 2 as real * b)),
{
    reveal(F64::spec_plus);
    let fmt = arith::double_format();
    lemma_eps();
    let exact = real64(x) + real64(y);
    lemma_sum_error(fmt, x.signed(), y.signed());
    let s = fmt.sum(x.signed(), y.signed());
    assert(x.plus(y).signed() == s);
    let e = eps_of(fmt);
    assert(size(exact) * e <= eps64() * (2 as real * a + 2 as real * b)) by (nonlinear_arith)
        requires
            0 as real <= e <= eps64(),
            size(exact) <= 2 as real * a + 2 as real * b,
            size(exact) >= 0 as real,
    ;
}

/// The difference of two numbers near real ones is near their difference.
pub proof fn near_minus(x: F64, xe: real, dx: real, a: real, y: F64, ye: real, dy: real, b: real)
    requires
        near64(x, xe, dx),
        near64(y, ye, dy),
        size(xe) <= a <= scale(),
        size(ye) <= b <= scale(),
        dx <= a,
        dy <= b,
    ensures
        near64(x.minus(y), xe - ye, dx + dy + eps64() * (2 as real * a + 2 as real * b)),
{
    lemma_negated64(y, ye, dy);
    near_plus(x, xe, dx, a, y.negated(), -ye, dy, b);
}

/// A bound on a product from bounds on its factors.
pub proof fn lemma_product_bound(x: real, y: real, a: real, b: real)
    requires
        size(x) <= a,
        size(y) <= b,
    ensures
        size(x * y) <= a * b,
        size(x * y) == size(x) * size(y),
{
    assert(size(x) * size(y) <= a * b) by (nonlinear_arith)
        requires
            0 as real <= size(x) <= a,
            0 as real <= size(y) <= b,
    ;
    assert(x * y == size(x) * size(y) || x * y == -(size(x) * size(y))) by (nonlinear_arith)
        requires
            size(x) == x || size(x) == -x,
            size(y) == y || size(y) == -y,
    ;
    assert(size(x) * size(y) >= 0 as real) by (nonlinear_arith)
        requires
            size(x) >= 0 as real,
            size(y) >= 0 as real,
    ;
}

/// The product of two numbers near real ones is near their product.
pub proof fn near_times(x: F64, xe: real, dx: real, a: real, y: F64, ye: real, dy: real, b: real)
    requires
        near64(x, xe, dx),
        near64(y, ye, dy),
        size(xe) <= a <= scale(),
        size(ye) <= b <= scale(),
        dx <= a,
        dy <= b,
    ensures
        near64(
            x.times(y),
            xe * ye,
            a * dy + 2 as real * b * dx + eps64() * (4 as real * a * b + 1 as real),
        ),
{
    reveal(F64::spec_times);
    let fmt = arith::double_format();
    lemma_eps();
    let (xr, yr) = (real64(x), real64(y));
    let exact = xr * yr;
    lemma_product_bound(xr, yr, 2 as real * a, 2 as real * b);
    assert((2 as real * a) * (2 as real * b) == 4 as real * a * b) by (nonlinear_arith);
    assert(4 as real * a * b <= limit()) by (nonlinear_arith)
        requires
            0 as real <= a <= 100_000_000int as real,
            0 as real <= b <= 100_000_000int as real,
            limit() == 1_000_000_000_000_000_000int as real,
    ;
    lemma_product_error(fmt, x.signed(), y.signed());
    assert(x.times(y).signed() == fmt.product(x.signed(), y.signed()));
    let e = eps_of(fmt);
    assert(size(exact) * e <= eps64() * (4 as real * a * b)) by (nonlinear_arith)
        requires
            0 as real <= e <= eps64(),
            0 as real <= size(exact) <= 4 as real * a * b,
    ;
    assert(eps64() * (4 as real * a * b + 1 as real) == eps64() * (4 as real * a * b) + eps64())
        by (nonlinear_arith);
    lemma_product_bound(xe, yr - ye, a, dy);
    lemma_product_bound(xr - xe, yr, dx, 2 as real * b);
    assert(exact - xe * ye == xe * (yr - ye) + (xr - xe) * yr) by (nonlinear_arith)
        requires
            exact == xr * yr,
    ;
    assert(dx * (2 as real * b) == 2 as real * b * dx) by (nonlinear_arith);
}

/// The quotient of two numbers of ordinary size errs by a rounding.
pub proof fn near_over(x: F64, y: F64)
    requires
        x.finite(),
        y.finite(),
        real64(y) != 0 as real,
        size(real64(x) / real64(y)) <= limit(),
    ensures
        ({
            let exact = real64(x) / real64(y);
            near64(x.over(y), exact, eps64() * (size(exact) + 1 as real))
        }),
{
    reveal(F64::spec_over);
    let fmt = arith::double_format();
    lemma_eps();
    lemma_real_of(fmt, y.signed());
    arith::lemma_units_zero(53);
    lemma_pow2_pos(1074);
    assert((0int as real) / one_of(fmt) == 0 as real) by (nonlinear_arith)
        requires
            one_of(fmt) > 0 as real,
    ;
    assert(y.signed().mag > 0);
    lemma_quotient_error(fmt, x.signed(), y.signed());
    assert(x.over(y).signed() == fmt.quotient(x.signed(), y.signed()));
    let s = size(real64(x) / real64(y));
    let e = eps_of(fmt);
    assert(s * e + eps64() <= eps64() * (s + 1 as real)) by (nonlinear_arith)
        requires
            0 as real <= e <= eps64(),
            s >= 0 as real,
    ;
}

/// Narrowing a number that is not too large errs by a 32-bit rounding.
pub proof fn near_narrowed(x: F64, xe: real, dx: real, a: real)
    requires
        near64(x, xe, dx),
        size(xe) <= a <= scale(),
        dx <= a,
    ensures
        near32(x.narrowed(), xe, dx + eps32() * (a + dx) + tiny32()),
{
    reveal(F64::spec_converted);
    let (from, to) = (arith::double_format(), arith::single_format());
    lemma_eps();
    let n = from.units(x.signed().mag);
    let d = pow2(925);
    lemma_pow2_pos(925);
    lemma_pow2_pos(149);
    lemma_pow2_adds(149, 925);
    assert((from.unit - to.unit) as nat == 925nat);
    let (nr, dr, or, big) = (
        n as int as real,
        d as int as real,
        one_of(to),
        one_of(from),
    );
    assert(big == or * dr) by (nonlinear_arith)
        requires
            pow2(1074) == pow2(149) * pow2(925),
            big == pow2(1074) as real,
            or == pow2(149) as real,
            dr == pow2(925) as int as real,
    ;
    lemma_real_of(from, x.signed());
    assert((nr / dr) / or == nr / big) by (nonlinear_arith)
        requires
            dr > 0 as real,
            or > 0 as real,
            big == or * dr,
    ;
    lemma_real_error(to, n, d, x.signed().neg);
    let m = nr / big;
    let e = eps_of(to);
    assert(m * e <= eps32() * (a + dx)) by (nonlinear_arith)
        requires
            0 as real <= e <= eps32(),
            0 as real <= m <= a + dx,
    ;
}

/// There is a whole number whose square is the last at most `n`, in multiples of `w`.
pub proof fn lemma_root_exists(n: nat, w: nat, s: nat)
    requires
        w > 0,
        (s * w) * (s * w) <= n,
    ensures
        ({
            let r = rounding::root_floor(n, w);
            (r * w) * (r * w) <= n < ((r + 1) * w) * ((r + 1) * w)
        }),
    decreases n + 1 - s,
{
    if n < ((s + 1) * w) * ((s + 1) * w) {
        rounding::lemma_root_floor_unique(n, w, s);
    } else {
        assert(s <= n) by (nonlinear_arith)
            requires
                (s * w) * (s * w) <= n,
                w >= 1,
                s >= 0,
        ;
        lemma_root_exists(n, w, s + 1);
    }
}

/// The units of a finite number.
proof fn lemma_finite_units(x: F64)
    requires
        x.finite(),
    ensures
        arith::double_format().units(x.signed().mag) <= pow2(2098),
{
    let inf = 0x7ff0_0000_0000_0000nat;
    lemma2_to64();
    lemma2_to64_rest();
    lemma_fundamental_div_mod_converse(inf as int, 0x10_0000_0000_0000, 2047, 0);
    lemma_pow2_adds(52, 2046);
    arith::lemma_units_ordered(53, x.signed().mag as nat, inf);
}

/// The root of a positive number is finite and positive, and its square errs by a few roundings.
pub proof fn near_sqrt(x: F64)
    requires
        x.finite(),
        real64(x) > 0 as real,
    ensures
        x.sqrt().finite(),
        real64(x.sqrt()) > 0 as real,
        distance(real64(x.sqrt()) * real64(x.sqrt()), real64(x)) <= real64(x) * eps64(),
{
    reveal(F64::spec_sqrt);
    let fmt = arith::double_format();
    let one = pow2(1074);
    let or = one_of(fmt);
    let u = fmt.units(x.signed().mag);
    let ur = u as int as real;
    lemma_real_of(fmt, x.signed());
    lemma_pow2_pos(1074);
    arith::lemma_units_zero(53);
    assert(ur / or == real64(x));
    assert(ur > 0 as real) by (nonlinear_arith)
        requires
            or > 0 as real,
            (0 as real) < ur / or,
    ;
    let n = u * one;
    let big = rounding::quantum(106, n, 1);
    laws::lemma_quantum_bounds(106, n, 1);
    lemma_finite_units(x);
    lemma_pow2_adds(2098, 1074);
    assert(n >= one && n <= pow2(3172)) by (nonlinear_arith)
        requires
            1 <= u <= pow2(2098),
            n == u * one,
            pow2(3172) == pow2(2098) * one,
            one > 0,
    ;
    lemma2_to64();
    lemma2_to64_rest();
    lemma_pow2_strictly_increases(106, 1074);
    if big == 0 {
        assert(n < 1 * pow2(106));
    }
    if 106 + big - 1 > 3172 {
        lemma_pow2_strictly_increases(3172, (106 + big - 1) as nat);
    }
    assert(0 < big <= 3067);
    let k = rounding::root_quantum(53, n);
    let w = pow2(k);
    lemma_pow2_pos(k);
    assert((0 * w) * (0 * w) == 0) by (nonlinear_arith);
    lemma_root_exists(n, w, 0);
    let r = rounding::root_floor(n, w);
    let h = pow2(52);
    lemma_pow2_adds(k, k);
    // The floor of the root has all significant bits.
    assert(r >= h && r < 2 * h) by {
        lemma_pow2_adds(52, k);
        lemma_pow2_adds(52 + k, 52 + k);
        lemma_pow2_adds(53, k);
        lemma_pow2_adds(53 + k, 53 + k);
        lemma_pow2_unfold(53);
        if 104 + 2 * k < 106 + big - 1 {
            lemma_pow2_strictly_increases((104 + 2 * k) as nat, (106 + big - 1) as nat);
        }
        if 106 + big < 106 + 2 * k {
            lemma_pow2_strictly_increases(106 + big, (106 + 2 * k) as nat);
        }
        assert((52 + k) + (52 + k) == 104 + 2 * k && (53 + k) + (53 + k) == 106 + 2 * k);
        assert((h * w) * (h * w) <= n);
        assert(n < ((2 * h) * w) * ((2 * h) * w));
        if r + 1 <= h {
            assert(((r + 1) * w) * ((r + 1) * w) <= (h * w) * (h * w)) by (nonlinear_arith)
                requires
                    0 <= r + 1 <= h,
                    w >= 0,
            ;
        }
        if r >= 2 * h {
            assert((r * w) * (r * w) >= ((2 * h) * w) * ((2 * h) * w)) by (nonlinear_arith)
                requires
                    r >= 2 * h,
                    h >= 0,
                    w >= 0,
            ;
        }
    }
    let q = rounding::nearest_root(n, w);
    lemma_pow2_unfold(53);
    lemma2_to64_rest();
    laws::lemma_pattern_units(53, k, q);
    let mag = k * h + q;
    assert(mag < fmt.inf) by (nonlinear_arith)
        requires
            mag == k * h + q,
            k <= 1534,
            q <= 2 * h,
            h == 0x10_0000_0000_0000,
            fmt.inf == 0x7ff0_0000_0000_0000,
    ;
    let root = x.sqrt();
    assert(root.signed().mag == mag && !root.signed().neg);
    assert(fmt.units(root.signed().mag) == q * w);
    lemma_real_of(fmt, root.signed());
    let t = (q * w) as int;
    let err = abs(t * t - n);
    assert(err <= 3 * (r * (w * w))) by (nonlinear_arith)
        requires
            (r * w) * (r * w) <= n,
            n < ((r + 1) * w) * ((r + 1) * w),
            q == r || q == r + 1,
            t == q * w,
            err == abs(t * t - n),
            r >= 1,
            w >= 0,
    ;
    assert(err * h <= 3 * n) by (nonlinear_arith)
        requires
            err <= 3 * (r * (w * w)),
            (r * w) * (r * w) <= n,
            0 <= h <= r,
            w >= 0,
    ;
    let (tr, er, hr) = (t as real, err as real, h as int as real);
    assert((t * t) as real == tr * tr) by (nonlinear_arith)
        requires
            tr == t as real,
    ;
    assert((u * one) as int as real == ur * or) by (nonlinear_arith)
        requires
            ur == u as int as real,
            or == one as real,
    ;
    assert((err * h) as real == er * hr) by (nonlinear_arith)
        requires
            er == err as real,
            hr == h as int as real,
    ;
    let (s, v) = (tr / or, ur / or);
    assert(s > 0 as real && distance(s * s, v) <= v * ((3 as real) / hr)) by (nonlinear_arith)
        requires
            or > 0 as real,
            hr > 0 as real,
            tr > 0 as real,
            s == tr / or,
            v == ur / or,
            er == distance(tr * tr, ur * or),
            er * hr <= 3 as real * (ur * or),
    ;
    assert((3 as real) / hr <= eps64()) by (nonlinear_arith)
        requires
            hr == 0x10_0000_0000_0000int as real,
            eps64() == (1int as real) / (1_000_000_000_000_000int as real),
    ;
    assert(v * ((3 as real) / hr) <= v * eps64()) by (nonlinear_arith)
        requires
            v >= 0 as real,
            (3 as real) / hr <= eps64(),
    ;
}

/// The values of zero and of one in 32 bits.
pub proof fn lemma_zero32()
    ensures
        near32(F32 { bits: 0 }, 0 as real, 0 as real),
        near32(F32 { bits: 0x3f80_0000 }, 1 as real, 0 as real),
{
    laws::units_of_one();
    lemma_real_of(arith::single_format(), (F32 { bits: 0x3f80_0000 }).signed());
    let one = one_of(arith::single_format());
    lemma_pow2_pos(149);
    assert(one / one == 1 as real) by (nonlinear_arith)
        requires
            one > 0 as real,
    ;
    let fmt = arith::single_format();
    arith::lemma_units_zero(24);
    lemma_pow2_pos(149);
    lemma_real_of(fmt, (F32 { bits: 0 }).signed());
    assert((0int as real) / one_of(fmt) == 0 as real) by (nonlinear_arith)
        requires
            one_of(fmt) > 0 as real,
    ;
}

/// Widening a number keeps its value.
pub proof fn lemma_widened(x: F32)
    requires
        x.finite(),
    ensures
        x.widened().finite(),
        real64(x.widened()) == real32(x),
{
    laws::widening_is_exact(x);
    let (v, d, o) = (x.value(), pow2(925) as int, pow2(149) as int);
    lemma_pow2_pos(925);
    lemma_pow2_pos(149);
    lemma_pow2_adds(149, 925);
    let (vr, dr, or) = (v as real, d as real, o as real);
    assert((v * d) as real == vr * dr) by (nonlinear_arith)
        requires
            vr == v as real,
            dr == d as real,
    ;
    assert((o * d) as real == or * dr) by (nonlinear_arith)
        requires
            or == o as real,
            dr == d as real,
    ;
    assert((vr * dr) / (or * dr) == vr / or) by (nonlinear_arith)
        requires
            dr > 0 as real,
            or > 0 as real,
    ;
}

/// The value of one.
pub proof fn lemma_one64()
    ensures
        (F64 { bits: 0x3ff0_0000_0000_0000 }).finite(),
        real64(F64 { bits: 0x3ff0_0000_0000_0000 }) == 1 as real,
{
    let fmt = arith::double_format();
    let x = F64 { bits: 0x3ff0_0000_0000_0000 };
    laws::units_of_one();
    lemma_pow2_pos(1074);
    assert(x.value() == pow2(1074));
    let o = one_of(fmt);
    assert(o / o == 1 as real) by (nonlinear_arith)
        requires
            o > 0 as real,
    ;
}

/// A number without a sign and with a magnitude is positive.
pub proof fn lemma_positive(x: F64)
    requires
        x.finite(),
        !x.signed().neg,
        x.signed().mag > 0,
    ensures
        real64(x) > 0 as real,
{
    let fmt = arith::double_format();
    arith::lemma_units_zero(53);
    arith::lemma_units_ordered(53, 0, x.signed().mag as nat);
    lemma_pow2_pos(1074);
    lemma_real_of(fmt, x.signed());
    let (v, o) = (x.value() as real, one_of(fmt));
    assert(v / o > 0 as real) by (nonlinear_arith)
        requires
            v > 0 as real,
            o > 0 as real,
    ;
}

/// The order of numbers is that of their values.
pub proof fn lemma_order(x: F64, y: F64)
    requires
        x.finite(),
        y.finite(),
    ensures
        x.lt(y) ==> real64(x) <= real64(y),
        !x.lt(y) ==> real64(y) <= real64(x),
{
    reveal(F64::spec_lt);
    let fmt = arith::double_format();
    lemma_pow2_pos(1074);
    let (v, w, o) = (x.value() as real, y.value() as real, one_of(fmt));
    if v <= w {
        assert(v / o <= w / o) by (nonlinear_arith)
            requires
                v <= w,
                o > 0 as real,
        ;
    }
    if w <= v {
        assert(w / o <= v / o) by (nonlinear_arith)
            requires
                w <= v,
                o > 0 as real,
        ;
    }
}

/// The smallest number.
pub open spec fn smallest() -> real {
    (1 as real) / one_of(arith::double_format())
}

/// How small it is.
pub proof fn lemma_smallest()
    ensures
        (0 as real) < smallest(),
        smallest() * 1_000_000_000_000_000_000_000_000_000_000_000_000int as real <= 1 as real,
{
    let o = one_of(arith::double_format());
    lemma2_to64();
    lemma_pow2_adds(64, 64);
    lemma_pow2_strictly_increases(128, 1074);
    assert(pow2(128) == 0x1_0000_0000_0000_0000 * 0x1_0000_0000_0000_0000);
    let u = smallest();
    let big = 1_000_000_000_000_000_000_000_000_000_000_000_000int as real;
    assert(o >= big);
    assert((0 as real) < u && u * big <= 1 as real) by (nonlinear_arith)
        requires
            u == (1 as real) / o,
            o >= big,
            big > 0 as real,
    ;
}

/// A relative error of a number that is bounded.
proof fn lemma_scaled_error(x: real, b: real, e: real)
    requires
        0 as real <= x <= b,
        0 as real <= e <= eps64(),
    ensures
        x * e <= eps64() * b,
{
    let f = eps64();
    assert(x * e <= f * b) by (nonlinear_arith)
        requires
            0 as real <= x <= b,
            0 as real <= e <= f,
    ;
}

/// The terms of a finite sum are finite, and the sum errs by a rounding.
pub proof fn plus_errs(x: F64, y: F64)
    requires
        x.plus(y).finite(),
    ensures
        x.finite(),
        y.finite(),
        near64(
            x.plus(y),
            real64(x) + real64(y),
            eps64() * size(real64(x) + real64(y)),
        ),
{
    scaling::finite_results_have_finite_parts(x, y);
    reveal(F64::spec_plus);
    let fmt = arith::double_format();
    lemma_eps();
    lemma_sum_error(fmt, x.signed(), y.signed());
    assert(x.plus(y).signed() == fmt.sum(x.signed(), y.signed()));
    let m = size(real64(x) + real64(y));
    lemma_scaled_error(m, m, eps_of(fmt));
}

/// The factors of a finite product are finite, and the product errs by a rounding and the smallest
/// number.
pub proof fn times_errs(x: F64, y: F64)
    requires
        x.times(y).finite(),
    ensures
        x.finite(),
        y.finite(),
        near64(
            x.times(y),
            real64(x) * real64(y),
            eps64() * size(real64(x) * real64(y)) + smallest(),
        ),
{
    scaling::finite_results_have_finite_parts(x, y);
    reveal(F64::spec_times);
    let fmt = arith::double_format();
    lemma_eps();
    lemma_product_error(fmt, x.signed(), y.signed());
    assert(x.times(y).signed() == fmt.product(x.signed(), y.signed()));
    let m = size(real64(x) * real64(y));
    lemma_scaled_error(m, m, eps_of(fmt));
}

/// The smallest 32-bit number.
pub open spec fn smallest32() -> real {
    (1 as real) / one_of(arith::single_format())
}

/// How small it is.
pub proof fn lemma_smallest32()
    ensures
        (0 as real) < smallest32(),
        smallest32() <= tiny32(),
{
    lemma_eps();
    lemma_pow2_pos(149);
    let o = one_of(arith::single_format());
    assert((1 as real) / o > 0 as real) by (nonlinear_arith)
        requires
            o > 0 as real,
    ;
}

/// The relative error of 32-bit numbers that is bounded.
proof fn lemma_scaled_error32(x: real, e: real)
    requires
        0 as real <= x,
        0 as real <= e <= eps32(),
    ensures
        x * e <= eps32() * x,
{
    let f = eps32();
    assert(x * e <= f * x) by (nonlinear_arith)
        requires
            0 as real <= x,
            0 as real <= e <= f,
    ;
}

/// The terms of a finite 32-bit sum are finite, and the sum errs by a rounding.
pub proof fn plus_errs32(x: F32, y: F32)
    requires
        x.plus(y).finite(),
    ensures
        x.finite(),
        y.finite(),
        near32(
            x.plus(y),
            real32(x) + real32(y),
            eps32() * size(real32(x) + real32(y)),
        ),
{
    reveal(F32::spec_plus);
    let fmt = arith::single_format();
    lemma_eps();
    let s = fmt.sum(x.signed(), y.signed());
    if !x.finite() || !y.finite() {
        assert(x.plus(y).signed() == s);
    }
    lemma_sum_error(fmt, x.signed(), y.signed());
    arith::lemma_round_bounded(fmt, abs(x.value() + y.value()), 1);
    assert(x.plus(y).signed() == s);
    lemma_scaled_error32(size(real32(x) + real32(y)), eps_of(fmt));
}

/// The factors of a finite 32-bit product are finite, and the product errs by a rounding and the
/// smallest number.
pub proof fn times_errs32(x: F32, y: F32)
    requires
        x.times(y).finite(),
    ensures
        x.finite(),
        y.finite(),
        near32(
            x.times(y),
            real32(x) * real32(y),
            eps32() * size(real32(x) * real32(y)) + smallest32(),
        ),
{
    reveal(F32::spec_times);
    let fmt = arith::single_format();
    lemma_eps();
    let s = fmt.product(x.signed(), y.signed());
    if !x.finite() || !y.finite() {
        assert(x.times(y).signed() == s);
    }
    lemma_product_error(fmt, x.signed(), y.signed());
    lemma_pow2_pos(149);
    arith::lemma_round_bounded(
        fmt,
        fmt.units(x.signed().mag) * fmt.units(y.signed().mag),
        pow2(149),
    );
    assert(x.times(y).signed() == s);
    lemma_scaled_error32(size(real32(x) * real32(y)), eps_of(fmt));
}

/// The relative error of 64-bit operations is small.
pub proof fn lemma_eps64()
    ensures
        0 as real <= eps64(),
        eps64() * 1_000_000_000_000_000int as real == 1 as real,
{
    let e = eps64();
    assert(e * 1_000_000_000_000_000int as real == 1 as real) by (nonlinear_arith)
        requires
            e == (1int as real) / (1_000_000_000_000_000int as real),
    ;
}

/// So are that of 32-bit operations and the bound on the smallest number.
pub proof fn lemma_eps32()
    ensures
        eps32() * 100_000_000int as real == 6 as real,
        tiny32() * 1_000_000_000int as real == 1 as real,
{
    let (e, tiny) = (eps32(), tiny32());
    assert(e * 100_000_000int as real == 6 as real) by (nonlinear_arith)
        requires
            e == (6int as real) / (100_000_000int as real),
    ;
    assert(tiny * 1_000_000_000int as real == 1 as real) by (nonlinear_arith)
        requires
            tiny == (1int as real) / (1_000_000_000int as real),
    ;
}

/// A rounding of a number is a small part of it.
pub proof fn lemma_small_part(x: real)
    requires
        0 as real <= x,
    ensures
        0 as real <= eps64() * x <= x,
        1_000_000_000int as real * (eps64() * x) <= x,
{
    let e = eps64();
    lemma_eps64();
    assert(0 as real <= e * x && 1_000_000_000int as real * (e * x) <= x) by (nonlinear_arith)
        requires
            e * 1_000_000_000_000_000int as real == 1 as real,
            x >= 0 as real,
    ;
}

/// A rounding of a number is at most one of a bound.
pub proof fn lemma_part_bound(x: real, b: real)
    requires
        x <= b,
    ensures
        eps64() * x <= eps64() * b,
{
    let eps = eps64();
    assert(eps * x <= eps * b) by (nonlinear_arith)
        requires
            eps == (1int as real) / (1_000_000_000_000_000int as real),
            x <= b,
    ;
}

/// A small part of a sum.
proof fn lemma_part(x: real, y: real, a: real, b: real)
    ensures
        eps64() * (a * x + b * y) == a * (eps64() * x) + b * (eps64() * y),
{
    let e = eps64();
    assert(e * (a * x + b * y) == e * (a * x) + e * (b * y)) by (nonlinear_arith);
    assert(e * (a * x) == a * (e * x)) by (nonlinear_arith);
    assert(e * (b * y) == b * (e * y)) by (nonlinear_arith);
}

/// A rounded sum of three products, where it stays finite, errs by roundings of the sizes of the
/// products and by a few of the smallest numbers.
pub proof fn dot_errs(x: F64, a: F64, y: F64, b: F64, z: F64, c: F64)
    requires
        x.times(a).plus(y.times(b)).plus(z.times(c)).finite(),
    ensures
        x.finite() && y.finite() && z.finite(),
        a.finite() && b.finite() && c.finite(),
        ({
            let (p, q, r) = (
                real64(x) * real64(a),
                real64(y) * real64(b),
                real64(z) * real64(c),
            );
            near64(
                x.times(a).plus(y.times(b)).plus(z.times(c)),
                p + q + r,
                10 as real * (eps64() * (size(p) + size(q) + size(r))) + 10 as real * smallest(),
            )
        }),
{
    let (f, g, h) = (x.times(a), y.times(b), z.times(c));
    plus_errs(f.plus(g), h);
    plus_errs(f, g);
    times_errs(x, a);
    times_errs(y, b);
    times_errs(z, c);
    near_three(
        f,
        real64(x) * real64(a),
        g,
        real64(y) * real64(b),
        h,
        real64(z) * real64(c),
    );
}

/// The rounded sum of three numbers, each near another.
proof fn near_three(p: F64, xx: real, q: F64, yy: real, r: F64, zz: real)
    requires
        near64(p, xx, eps64() * size(xx) + smallest()),
        near64(q, yy, eps64() * size(yy) + smallest()),
        near64(r, zz, eps64() * size(zz) + smallest()),
        p.plus(q).plus(r).finite(),
    ensures
        near64(
            p.plus(q).plus(r),
            xx + yy + zz,
            10 as real * (eps64() * (size(xx) + size(yy) + size(zz))) + 10 as real * smallest(),
        ),
{
    lemma_smallest();
    let (u, eps) = (smallest(), eps64());
    let (a, b, c) = (size(xx), size(yy), size(zz));
    plus_errs(p.plus(q), r);
    plus_errs(p, q);
    lemma_small_part(a);
    lemma_small_part(b);
    lemma_small_part(c);
    let w = a + b;
    let n = w + c;
    let bound1 = 2 as real * w + 2 as real * u;
    lemma_part_bound(size(real64(p) + real64(q)), bound1);
    lemma_part(w, u, 2 as real, 2 as real);
    let bound2 = 4 as real * n + 5 as real * u;
    lemma_small_part(w);
    lemma_small_part(u);
    lemma_part_bound(size(real64(p.plus(q)) + real64(r)), bound2);
    lemma_part(n, u, 4 as real, 5 as real);
    assert(eps * w + eps * c == eps * n && eps * w == eps * a + eps * b) by (nonlinear_arith)
        requires
            n == w + c,
            w == a + b,
    ;
}

/// The numerator of a finite 32-bit quotient by a positive number is finite, and the quotient errs
/// by a rounding and the smallest number.
pub proof fn over_errs32(x: F32, y: F32)
    requires
        x.over(y).finite(),
        y.finite(),
        real32(y) > 0 as real,
    ensures
        x.finite(),
        near32(
            x.over(y),
            real32(x) / real32(y),
            eps32() * size(real32(x) / real32(y)) + smallest32(),
        ),
{
    reveal(F32::spec_over);
    let fmt = arith::single_format();
    lemma_eps();
    lemma_real_of(fmt, y.signed());
    arith::lemma_units_zero(24);
    lemma_pow2_pos(149);
    assert((0int as real) / one_of(fmt) == 0 as real) by (nonlinear_arith)
        requires
            one_of(fmt) > 0 as real,
    ;
    assert(y.signed().mag > 0);
    arith::lemma_units_ordered(24, 0, y.signed().mag as nat);
    let s = fmt.quotient(x.signed(), y.signed());
    if !x.finite() {
        assert(x.over(y).signed() == s);
    }
    lemma_quotient_error(fmt, x.signed(), y.signed());
    arith::lemma_round_bounded(
        fmt,
        fmt.units(x.signed().mag) * pow2(149),
        fmt.units(y.signed().mag),
    );
    assert(x.over(y).signed() == s);
    lemma_scaled_error32(size(real32(x) / real32(y)), eps_of(fmt));
}

/// The value of zero.
pub proof fn lemma_zero64()
    ensures
        near64(F64 { bits: 0 }, 0 as real, 0 as real),
{
    let fmt = arith::double_format();
    arith::lemma_units_zero(53);
    lemma_pow2_pos(1074);
    lemma_real_of(fmt, (F64 { bits: 0 }).signed());
    assert((0int as real) / one_of(fmt) == 0 as real) by (nonlinear_arith)
        requires
            one_of(fmt) > 0 as real,
    ;
}

} // verus!
