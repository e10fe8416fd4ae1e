//! Predicted poses are rigid motions, up to rounding.

use vstd::prelude::*;
use vstd::arithmetic::div_mod::*;
use vstd::arithmetic::power2::*;

use crate::algebra;
use crate::float::accuracy;
use crate::float::arith;
use crate::float::double::F64;
use crate::geometry::{Quat, TWO, V3};
use crate::pose::Mat4;
use crate::predict_pose_imu;
use crate::predict_pose_imu::{Motion, Step};

verus! {

/// The squared length of a quaternion.
pub open spec fn length2(q: Quat) -> real {
    algebra::norm2(
        accuracy::real64(q.w),
        accuracy::real64(q.i),
        accuracy::real64(q.j),
        accuracy::real64(q.k),
    )
}

/// All parts of the quaternion are finite.
pub open spec fn is_finite(q: Quat) -> bool {
    q.w.finite() && q.i.finite() && q.j.finite() && q.k.finite()
}

/// The quaternion has a squared length of one, within one part in a million.
pub open spec fn is_unit(q: Quat) -> bool {
    is_finite(q) && accuracy::distance(length2(q), 1 as real) <= accuracy::ratio(1, 1_000_000)
}

/// The parts of a quaternion are at most two in size.
spec fn is_small(q: Quat) -> bool {
    &&& is_finite(q)
    &&& accuracy::size(accuracy::real64(q.w)) <= 2 as real
    &&& accuracy::size(accuracy::real64(q.i)) <= 2 as real
    &&& accuracy::size(accuracy::real64(q.j)) <= 2 as real
    &&& accuracy::size(accuracy::real64(q.k)) <= 2 as real
}

/// A square bounds the size of its root.
proof fn lemma_size_from_square(x: real, b: real)
    requires
        b >= 0 as real,
        x * x <= b * b,
    ensures
        accuracy::size(x) <= b,
{
    assert(accuracy::size(x) <= b) by (nonlinear_arith)
        requires
            b >= 0 as real,
            x * x <= b * b,
            accuracy::size(x) == x || accuracy::size(x) == -x,
    ;
}

/// The parts of a quaternion are no longer than the quaternion.
proof fn lemma_small(q: Quat)
    requires
        is_finite(q),
        length2(q) <= 4 as real,
    ensures
        is_small(q),
{
    let (w, i, j, k) = (
        accuracy::real64(q.w),
        accuracy::real64(q.i),
        accuracy::real64(q.j),
        accuracy::real64(q.k),
    );
    assert(w * w >= 0 as real && i * i >= 0 as real && j * j >= 0 as real && k * k >= 0 as real)
        by (nonlinear_arith);
    lemma_size_from_square(w, 2 as real);
    lemma_size_from_square(i, 2 as real);
    lemma_size_from_square(j, 2 as real);
    lemma_size_from_square(k, 2 as real);
}

/// The rounded sum or difference.
spec fn combined(add: bool, x: F64, y: F64) -> F64 {
    if add {
        x.plus(y)
    } else {
        x.minus(y)
    }
}

/// The exact sum or difference.
spec fn exactly(add: bool, x: real, y: real) -> real {
    if add {
        x + y
    } else {
        x - y
    }
}

proof fn near_combined(
    add: bool,
    x: F64,
    xe: real,
    dx: real,
    a: real,
    y: F64,
    ye: real,
    dy: real,
    b: real,
)
    requires
        accuracy::near64(x, xe, dx),
        accuracy::near64(y, ye, dy),
        accuracy::size(xe) <= a <= accuracy::scale(),
        accuracy::size(ye) <= b <= accuracy::scale(),
        dx <= a,
        dy <= b,
    ensures
        accuracy::near64(
            combined(add, x, y),
            exactly(add, xe, ye),
            dx + dy + accuracy::eps64() * (2 as real * a + 2 as real * b),
        ),
{
    if add {
        accuracy::near_plus(x, xe, dx, a, y, ye, dy, b);
    } else {
        accuracy::near_minus(x, xe, dx, a, y, ye, dy, b);
    }
}

/// The product of two small numbers.
proof fn near_product(x: F64, y: F64)
    requires
        x.finite(),
        y.finite(),
        accuracy::size(accuracy::real64(x)) <= 2 as real,
        accuracy::size(accuracy::real64(y)) <= 2 as real,
    ensures
        accuracy::near64(
            x.times(y),
            accuracy::real64(x) * accuracy::real64(y),
            17 as real * accuracy::eps64(),
        ),
        accuracy::size(accuracy::real64(x) * accuracy::real64(y)) <= 4 as real,
{
    let (xr, yr) = (accuracy::real64(x), accuracy::real64(y));
    accuracy::near_times(
        x,
        xr,
        0 as real,
        2 as real,
        y,
        yr,
        0 as real,
        2 as real,
    );
    accuracy::lemma_product_bound(xr, yr, 2 as real, 2 as real);
    let e = accuracy::eps64();
    assert(2 as real * 0 as real + 2 as real * 2 as real * 0 as real + e * (4 as real * 2 as real
        * 2 as real + 1 as real) == 17 as real * e) by (nonlinear_arith);
}

/// A sum of four products of small numbers, with given signs.
proof fn near_four(
    x1: F64,
    y1: F64,
    s2: bool,
    x2: F64,
    y2: F64,
    s3: bool,
    x3: F64,
    y3: F64,
    s4: bool,
    x4: F64,
    y4: F64,
)
    requires
        x1.finite() && y1.finite() && x2.finite() && y2.finite(),
        x3.finite() && y3.finite() && x4.finite() && y4.finite(),
        accuracy::size(accuracy::real64(x1)) <= 2 as real,
        accuracy::size(accuracy::real64(y1)) <= 2 as real,
        accuracy::size(accuracy::real64(x2)) <= 2 as real,
        accuracy::size(accuracy::real64(y2)) <= 2 as real,
        accuracy::size(accuracy::real64(x3)) <= 2 as real,
        accuracy::size(accuracy::real64(y3)) <= 2 as real,
        accuracy::size(accuracy::real64(x4)) <= 2 as real,
        accuracy::size(accuracy::real64(y4)) <= 2 as real,
    ensures
        accuracy::near64(
            combined(
                s4,
                combined(s3, combined(s2, x1.times(y1), x2.times(y2)), x3.times(y3)),
                x4.times(y4),
            ),
            exactly(
                s4,
                exactly(
                    s3,
                    exactly(
                        s2,
                        accuracy::real64(x1) * accuracy::real64(y1),
                        accuracy::real64(x2) * accuracy::real64(y2),
                    ),
                    accuracy::real64(x3) * accuracy::real64(y3),
                ),
                accuracy::real64(x4) * accuracy::real64(y4),
            ),
            140 as real * accuracy::eps64(),
        ),
{
    let e = accuracy::eps64();
    accuracy::lemma_eps64();
    near_product(x1, y1);
    near_product(x2, y2);
    near_product(x3, y3);
    near_product(x4, y4);
    let (e1, e2, e3, e4) = (
        accuracy::real64(x1) * accuracy::real64(y1),
        accuracy::real64(x2) * accuracy::real64(y2),
        accuracy::real64(x3) * accuracy::real64(y3),
        accuracy::real64(x4) * accuracy::real64(y4),
    );
    let (p1, p2, p3, p4) = (x1.times(y1), x2.times(y2), x3.times(y3), x4.times(y4));
    assert(e * (2 as real * 4 as real + 2 as real * 4 as real) == 16 as real * e && e * (2 as real
        * 8 as real + 2 as real * 4 as real) == 24 as real * e && e * (2 as real * 12 as real
        + 2 as real * 4 as real) == 32 as real * e) by (nonlinear_arith);
    near_combined(s2, p1, e1, 17 as real * e, 4 as real, p2, e2, 17 as real * e, 4 as real);
    let (f2, g2) = (combined(s2, p1, p2), exactly(s2, e1, e2));
    let t2 = 50 as real * e;
    near_combined(s3, f2, g2, t2, 8 as real, p3, e3, 17 as real * e, 4 as real);
    let (f3, g3) = (combined(s3, f2, p3), exactly(s3, g2, e3));
    let t3 = 91 as real * e;
    near_combined(s4, f3, g3, t3, 12 as real, p4, e4, 17 as real * e, 4 as real);
}

/// The numbers differ by at most `t`.
pub open spec fn is_within(x: real, y: real, t: real) -> bool {
    -t <= x - y <= t
}

/// One part in a million, and a quarter.
proof fn lemma_millionth()
    ensures
        0 as real <= accuracy::ratio(1, 1_000_000),
        accuracy::ratio(1, 1_000_000) * 1_000_000int as real == 1 as real,
        accuracy::ratio(1, 4) * 4 as real == 1 as real,
        accuracy::ratio(1, 16) * 16 as real == 1 as real,
{
    assert((1int as real) / (1_000_000int as real) * 1_000_000int as real == 1 as real && 0 as real
        <= (1int as real) / (1_000_000int as real)) by (nonlinear_arith);
    assert((1int as real) / (4int as real) * 4 as real == 1 as real) by (nonlinear_arith);
    assert((1int as real) / (16int as real) * 16 as real == 1 as real) by (nonlinear_arith);
}

/// A square moves little with its root.
proof fn lemma_square_perturbed(x: real, y: real, t: real)
    requires
        accuracy::size(x) <= 2 as real,
        accuracy::distance(y, x) <= t,
        t <= 1 as real,
    ensures
        is_within(y * y, x * x, 5 as real * t),
{
    accuracy::lemma_product_bound(y - x, y + x, t, 5 as real);
    assert(y * y - x * x == (y - x) * (y + x)) by (nonlinear_arith);
    assert(t * 5 as real == 5 as real * t) by (nonlinear_arith);
}

/// A length moves little with the parts.
proof fn lemma_norm_perturbed(
    a: real,
    b: real,
    c: real,
    d: real,
    w: real,
    i: real,
    j: real,
    k: real,
    t: real,
)
    requires
        algebra::norm2(a, b, c, d) <= 4 as real,
        accuracy::distance(w, a) <= t,
        accuracy::distance(i, b) <= t,
        accuracy::distance(j, c) <= t,
        accuracy::distance(k, d) <= t,
        t <= 1 as real,
    ensures
        is_within(algebra::norm2(w, i, j, k), algebra::norm2(a, b, c, d), 20 as real * t),
{
    lemma_square_positive(a);
    lemma_square_positive(b);
    lemma_square_positive(c);
    lemma_square_positive(d);
    lemma_size_from_square(a, 2 as real);
    lemma_size_from_square(b, 2 as real);
    lemma_size_from_square(c, 2 as real);
    lemma_size_from_square(d, 2 as real);
    lemma_square_perturbed(a, w, t);
    lemma_square_perturbed(b, i, t);
    lemma_square_perturbed(c, j, t);
    lemma_square_perturbed(d, k, t);
}

/// A square is not negative.
proof fn lemma_square_positive(x: real)
    ensures
        x * x >= 0 as real,
{
    assert(x * x >= 0 as real) by (nonlinear_arith);
}

/// A part of a quaternion over its length.
proof fn lemma_part(x: F64, n: F64, xr: real, nr: real)
    requires
        x.finite(),
        n.finite(),
        xr == accuracy::real64(x),
        nr == accuracy::real64(n),
        accuracy::size(xr) <= 2 as real,
        nr > 0 as real,
        5 as real * (nr * nr) >= 1 as real,
    ensures
        x.over(n).finite(),
        accuracy::distance(accuracy::real64(x.over(n)), xr / nr) <= 6 as real * accuracy::eps64(),
{
    accuracy::lemma_eps64();
    let y = xr / nr;
    let s = accuracy::size(y);
    assert(y * nr == xr) by (nonlinear_arith)
        requires
            nr > 0 as real,
            y == xr / nr,
    ;
    assert(5 as real * nr >= 2 as real) by (nonlinear_arith)
        requires
            nr > 0 as real,
            5 as real * (nr * nr) >= 1 as real,
    ;
    accuracy::lemma_product_bound(y, nr, s, nr);
    assert(s <= 5 as real) by (nonlinear_arith)
        requires
            s * nr <= 2 as real,
            5 as real * nr >= 2 as real,
            s >= 0 as real,
    ;
    accuracy::near_over(x, n);
    let e = accuracy::eps64();
    assert(e * (s + 1 as real) <= 6 as real * e) by (nonlinear_arith)
        requires
            s <= 5 as real,
            e >= 0 as real,
    ;
}

/// A bound on what is left of a quotient.
proof fn lemma_ratio_near_one(m: real, g: real, n: real, t: real)
    requires
        m * g == n,
        is_within(g, n, t),
        8 as real * g >= 1 as real,
        t >= 0 as real,
    ensures
        is_within(m, 1 as real, 8 as real * t),
{
    let z = m - 1 as real;
    let s = accuracy::size(z);
    assert(z * g == n - g) by (nonlinear_arith)
        requires
            m * g == n,
            z == m - 1 as real,
    ;
    accuracy::lemma_product_bound(z, g, s, g);
    assert(s * g <= t);
    let x = 8 as real * g;
    assert(s * x >= s) by (nonlinear_arith)
        requires
            x >= 1 as real,
            s >= 0 as real,
    ;
    assert(s * (8 as real * g) == 8 as real * (s * g)) by (nonlinear_arith);
}

/// A quotient's square times the square of the divisor.
proof fn lemma_square_of_part(x: real, n: real, g: real)
    requires
        n > 0 as real,
        g == n * n,
    ensures
        ({
            let y = x / n;
            (y * y) * g == x * x
        }),
{
    let y = x / n;
    assert(y * n == x) by (nonlinear_arith)
        requires
            n > 0 as real,
            y == x / n,
    ;
    assert((y * y) * (n * n) == (y * n) * (y * n)) by (nonlinear_arith);
}

/// A quaternion of ordinary length, divided by its length, has length one.
pub proof fn normalized_is_unit(q: Quat)
    requires
        is_finite(q),
        accuracy::ratio(1, 4) <= length2(q) <= 4 as real,
    ensures
        is_unit(q.normalized()),
{
    let e = accuracy::eps64();
    accuracy::lemma_eps64();
    lemma_millionth();
    lemma_small(q);
    let (w, i, j, k) = (
        accuracy::real64(q.w),
        accuracy::real64(q.i),
        accuracy::real64(q.j),
        accuracy::real64(q.k),
    );
    near_product(q.w, q.w);
    near_product(q.i, q.i);
    near_product(q.j, q.j);
    near_product(q.k, q.k);
    assert(e * (2 as real * 4 as real + 2 as real * 4 as real) == 16 as real * e && e * (2 as real
        * 8 as real + 2 as real * 8 as real) == 32 as real * e) by (nonlinear_arith);
    let t17 = 17 as real * e;
    let (ii, jj, kk, ww) = (
        q.i.times(q.i),
        q.j.times(q.j),
        q.k.times(q.k),
        q.w.times(q.w),
    );
    accuracy::near_plus(ii, i * i, t17, 4 as real, kk, k * k, t17, 4 as real);
    accuracy::near_plus(jj, j * j, t17, 4 as real, ww, w * w, t17, 4 as real);
    let (ik, jw) = (ii.plus(kk), jj.plus(ww));
    let t50 = 50 as real * e;
    accuracy::near_plus(ik, i * i + k * k, t50, 8 as real, jw, j * j + w * w, t50, 8 as real);
    let sum = ik.plus(jw);
    let n2 = length2(q);
    assert(accuracy::near64(sum, n2, 132 as real * e));
    accuracy::near_sqrt(sum);
    let n = q.norm();
    let nr = accuracy::real64(n);
    let s = accuracy::real64(sum);
    assert(s * e <= 5 as real * e) by (nonlinear_arith)
        requires
            s <= 5 as real,
            e >= 0 as real,
    ;
    let g = nr * nr;
    assert(is_within(g, n2, 137 as real * e));
    lemma_part(q.w, n, w, nr);
    lemma_part(q.i, n, i, nr);
    lemma_part(q.j, n, j, nr);
    lemma_part(q.k, n, k, nr);
    let (a, b, c, d) = (w / nr, i / nr, j / nr, k / nr);
    let m = algebra::norm2(a, b, c, d);
    lemma_square_of_part(w, nr, g);
    lemma_square_of_part(i, nr, g);
    lemma_square_of_part(j, nr, g);
    lemma_square_of_part(k, nr, g);
    let (aa, bb, cc, dd) = (a * a, b * b, c * c, d * d);
    algebra::lemma_distribute_four(aa, bb, cc, dd, g);
    lemma_ratio_near_one(m, g, n2, 137 as real * e);
    let r = q.normalized();
    lemma_norm_perturbed(
        a,
        b,
        c,
        d,
        accuracy::real64(r.w),
        accuracy::real64(r.i),
        accuracy::real64(r.j),
        accuracy::real64(r.k),
        6 as real * e,
    );
}

/// The product of two quaternions of length one is the exact one, part by part, up to rounding.
pub proof fn quaternion_products_are_nearly_exact(p: Quat, q: Quat)
    requires
        is_unit(p),
        is_unit(q),
    ensures
        ({
            let (a, b, c, d) = (
                accuracy::real64(p.w),
                accuracy::real64(p.i),
                accuracy::real64(p.j),
                accuracy::real64(p.k),
            );
            let (w, i, j, k) = (
                accuracy::real64(q.w),
                accuracy::real64(q.i),
                accuracy::real64(q.j),
                accuracy::real64(q.k),
            );
            let (r, t) = (p.times(q), 140 as real * accuracy::eps64());
            &&& accuracy::near64(r.w, a * w - b * i - c * j - d * k, t)
            &&& accuracy::near64(r.i, a * i + b * w + c * k - d * j, t)
            &&& accuracy::near64(r.j, a * j - b * k + c * w + d * i, t)
            &&& accuracy::near64(r.k, a * k + b * j - c * i + d * w, t)
        }),
{
    lemma_millionth();
    lemma_small(p);
    lemma_small(q);
    near_four(p.w, q.w, false, p.i, q.i, false, p.j, q.j, false, p.k, q.k);
    near_four(p.w, q.i, true, p.i, q.w, true, p.j, q.k, false, p.k, q.j);
    near_four(p.w, q.j, false, p.i, q.k, true, p.j, q.w, true, p.k, q.i);
    near_four(p.w, q.k, true, p.i, q.j, false, p.j, q.i, true, p.k, q.w);
}

/// The product of two quaternions of length one is of ordinary length.
proof fn lemma_product(p: Quat, q: Quat)
    requires
        is_unit(p),
        is_unit(q),
    ensures
        is_finite(p.times(q)),
        accuracy::ratio(1, 4) <= length2(p.times(q)) <= 4 as real,
{
    let e = accuracy::eps64();
    accuracy::lemma_eps64();
    lemma_millionth();
    lemma_small(p);
    lemma_small(q);
    near_four(p.w, q.w, false, p.i, q.i, false, p.j, q.j, false, p.k, q.k);
    near_four(p.w, q.i, true, p.i, q.w, true, p.j, q.k, false, p.k, q.j);
    near_four(p.w, q.j, false, p.i, q.k, true, p.j, q.w, true, p.k, q.i);
    near_four(p.w, q.k, true, p.i, q.j, false, p.j, q.i, true, p.k, q.w);
    let (a, b, c, d) = (
        accuracy::real64(p.w),
        accuracy::real64(p.i),
        accuracy::real64(p.j),
        accuracy::real64(p.k),
    );
    let (w, i, j, k) = (
        accuracy::real64(q.w),
        accuracy::real64(q.i),
        accuracy::real64(q.j),
        accuracy::real64(q.k),
    );
    algebra::lemma_euler(a, b, c, d, w, i, j, k);
    let (m, n) = (algebra::norm2(a, b, c, d), algebra::norm2(w, i, j, k));
    let (x, y) = (m - 1 as real, n - 1 as real);
    let t = accuracy::ratio(1, 1_000_000);
    accuracy::lemma_product_bound(x, y, t, t);
    assert(t * t <= t) by (nonlinear_arith)
        requires
            0 as real <= t <= 1 as real,
    ;
    assert(m * n == x * y + x + y + 1 as real) by (nonlinear_arith)
        requires
            x == m - 1 as real,
            y == n - 1 as real,
    ;
    let r = p.times(q);
    lemma_norm_perturbed(
        a * w - b * i - c * j - d * k,
        a * i + b * w + c * k - d * j,
        a * j - b * k + c * w + d * i,
        a * k + b * j - c * i + d * w,
        accuracy::real64(r.w),
        accuracy::real64(r.i),
        accuracy::real64(r.j),
        accuracy::real64(r.k),
        140 as real * e,
    );
}

/// The value of two.
pub proof fn lemma_two()
    ensures
        (F64 { bits: TWO }).finite(),
        accuracy::real64(F64 { bits: TWO }) == 2 as real,
{
    let fmt = arith::double_format();
    assert(pow2(52) == 0x10_0000_0000_0000) by {
        lemma2_to64_rest();
    }
    lemma_fundamental_div_mod_converse(TWO as int, 0x10_0000_0000_0000, 1024, 0);
    lemma_pow2_adds(52, 1023);
    lemma_pow2_unfold(1075);
    lemma_pow2_pos(1074);
    let or = accuracy::one_of(fmt);
    let x = fmt.value((F64 { bits: TWO }).signed()) as real;
    assert(x == 2 as real * or);
    assert(x / or == 2 as real) by (nonlinear_arith)
        requires
            or > 0 as real,
            x == 2 as real * or,
    ;
}

/// Twice the product of two small numbers.
proof fn near_doubled(x: F64, y: F64)
    requires
        x.finite(),
        y.finite(),
        accuracy::size(accuracy::real64(x)) <= 2 as real,
        accuracy::size(accuracy::real64(y)) <= 2 as real,
    ensures
        accuracy::near64(
            x.times(y).times(F64 { bits: TWO }),
            2 as real * (accuracy::real64(x) * accuracy::real64(y)),
            101 as real * accuracy::eps64(),
        ),
        accuracy::size(2 as real * (accuracy::real64(x) * accuracy::real64(y))) <= 8 as real,
{
    let e = accuracy::eps64();
    accuracy::lemma_eps64();
    lemma_two();
    near_product(x, y);
    let p = accuracy::real64(x) * accuracy::real64(y);
    accuracy::near_times(
        x.times(y),
        p,
        17 as real * e,
        4 as real,
        F64 { bits: TWO },
        2 as real,
        0 as real,
        2 as real,
    );
    assert(4 as real * 0 as real + 2 as real * 2 as real * (17 as real * e) + e * (4 as real
        * 4 as real * 2 as real + 1 as real) == 101 as real * e) by (nonlinear_arith);
    algebra::lemma_commute(p, 2 as real);
}

/// The sum or difference of two doubled products.
proof fn near_entry(add: bool, x1: F64, y1: F64, x2: F64, y2: F64)
    requires
        x1.finite() && y1.finite() && x2.finite() && y2.finite(),
        accuracy::size(accuracy::real64(x1)) <= 2 as real,
        accuracy::size(accuracy::real64(y1)) <= 2 as real,
        accuracy::size(accuracy::real64(x2)) <= 2 as real,
        accuracy::size(accuracy::real64(y2)) <= 2 as real,
    ensures
        accuracy::near64(
            combined(
                add,
                x1.times(y1).times(F64 { bits: TWO }),
                x2.times(y2).times(F64 { bits: TWO }),
            ),
            exactly(
                add,
                2 as real * (accuracy::real64(x1) * accuracy::real64(y1)),
                2 as real * (accuracy::real64(x2) * accuracy::real64(y2)),
            ),
            240 as real * accuracy::eps64(),
        ),
{
    let e = accuracy::eps64();
    accuracy::lemma_eps64();
    near_doubled(x1, y1);
    near_doubled(x2, y2);
    near_combined(
        add,
        x1.times(y1).times(F64 { bits: TWO }),
        2 as real * (accuracy::real64(x1) * accuracy::real64(y1)),
        101 as real * e,
        8 as real,
        x2.times(y2).times(F64 { bits: TWO }),
        2 as real * (accuracy::real64(x2) * accuracy::real64(y2)),
        101 as real * e,
        8 as real,
    );
    assert(e * (2 as real * 8 as real + 2 as real * 8 as real) == 32 as real * e)
        by (nonlinear_arith);
}

/// The exact matrix of a quaternion.
pub open spec fn exact_matrix(q: Quat) -> algebra::Matrix {
    algebra::turn_of(
        accuracy::real64(q.w),
        accuracy::real64(q.i),
        accuracy::real64(q.j),
        accuracy::real64(q.k),
    )
}

/// The rounded matrix of a quaternion of length one is near the exact one.
proof fn near_matrix(q: Quat)
    requires
        is_unit(q),
    ensures
        ({
            let (m, x, t) = (q.to_matrix(), exact_matrix(q), 240 as real * accuracy::eps64());
            &&& accuracy::near64(m.r0.x, x.a, t)
            &&& accuracy::near64(m.r0.y, x.b, t)
            &&& accuracy::near64(m.r0.z, x.c, t)
            &&& accuracy::near64(m.r1.x, x.d, t)
            &&& accuracy::near64(m.r1.y, x.e, t)
            &&& accuracy::near64(m.r1.z, x.f, t)
            &&& accuracy::near64(m.r2.x, x.g, t)
            &&& accuracy::near64(m.r2.y, x.h, t)
            &&& accuracy::near64(m.r2.z, x.i, t)
        }),
{
    accuracy::lemma_eps64();
    lemma_millionth();
    lemma_small(q);
    near_four(q.w, q.w, true, q.i, q.i, false, q.j, q.j, false, q.k, q.k);
    near_four(q.w, q.w, false, q.i, q.i, true, q.j, q.j, false, q.k, q.k);
    near_four(q.w, q.w, false, q.i, q.i, false, q.j, q.j, true, q.k, q.k);
    near_entry(false, q.i, q.j, q.w, q.k);
    near_entry(true, q.w, q.j, q.i, q.k);
    near_entry(true, q.w, q.k, q.i, q.j);
    near_entry(false, q.j, q.k, q.w, q.i);
    near_entry(false, q.i, q.k, q.w, q.j);
    near_entry(true, q.w, q.i, q.j, q.k);
}

/// The matrix of a quaternion of length one has the exact entries up to rounding.
pub proof fn quaternion_matrices_are_nearly_exact(q: Quat)
    requires
        is_unit(q),
    ensures
        ({
            let (w, i, j, k) = (
                accuracy::real64(q.w),
                accuracy::real64(q.i),
                accuracy::real64(q.j),
                accuracy::real64(q.k),
            );
            let (m, t) = (q.to_matrix(), 240 as real * accuracy::eps64());
            let two = 2 as real;
            &&& accuracy::near64(m.r0.x, w * w + i * i - j * j - k * k, t)
            &&& accuracy::near64(m.r1.y, w * w - i * i + j * j - k * k, t)
            &&& accuracy::near64(m.r2.z, w * w - i * i - j * j + k * k, t)
            &&& accuracy::near64(m.r0.y, two * (i * j) - two * (w * k), t)
            &&& accuracy::near64(m.r1.x, two * (i * j) + two * (w * k), t)
            &&& accuracy::near64(m.r0.z, two * (i * k) + two * (w * j), t)
            &&& accuracy::near64(m.r2.x, two * (i * k) - two * (w * j), t)
            &&& accuracy::near64(m.r1.z, two * (j * k) - two * (w * i), t)
            &&& accuracy::near64(m.r2.y, two * (j * k) + two * (w * i), t)
        }),
{
    near_matrix(q);
}

/// The entries of the exact matrix are at most as large as the squared length.
proof fn lemma_entries(m: algebra::Matrix, n: real)
    requires
        n >= 0 as real,
        m.a * m.a + m.d * m.d + m.g * m.g == n * n,
        m.b * m.b + m.e * m.e + m.h * m.h == n * n,
        m.c * m.c + m.f * m.f + m.i * m.i == n * n,
    ensures
        accuracy::size(m.a) <= n && accuracy::size(m.b) <= n && accuracy::size(m.c) <= n,
        accuracy::size(m.d) <= n && accuracy::size(m.e) <= n && accuracy::size(m.f) <= n,
        accuracy::size(m.g) <= n && accuracy::size(m.h) <= n && accuracy::size(m.i) <= n,
{
    lemma_square_positive(m.a);
    lemma_square_positive(m.b);
    lemma_square_positive(m.c);
    lemma_square_positive(m.d);
    lemma_square_positive(m.e);
    lemma_square_positive(m.f);
    lemma_square_positive(m.g);
    lemma_square_positive(m.h);
    lemma_square_positive(m.i);
    lemma_size_from_square(m.a, n);
    lemma_size_from_square(m.b, n);
    lemma_size_from_square(m.c, n);
    lemma_size_from_square(m.d, n);
    lemma_size_from_square(m.e, n);
    lemma_size_from_square(m.f, n);
    lemma_size_from_square(m.g, n);
    lemma_size_from_square(m.h, n);
    lemma_size_from_square(m.i, n);
}

/// The entries of the rotation of a pose.
pub open spec fn entries_of(m: Mat4) -> algebra::Matrix {
    algebra::Matrix {
        a: accuracy::real32(m.r0.x),
        b: accuracy::real32(m.r0.y),
        c: accuracy::real32(m.r0.z),
        d: accuracy::real32(m.r1.x),
        e: accuracy::real32(m.r1.y),
        f: accuracy::real32(m.r1.z),
        g: accuracy::real32(m.r2.x),
        h: accuracy::real32(m.r2.y),
        i: accuracy::real32(m.r2.z),
    }
}

/// The entries of two matrices differ by at most `t`.
pub open spec fn are_close(m: algebra::Matrix, x: algebra::Matrix, t: real) -> bool {
    &&& accuracy::distance(m.a, x.a) <= t
    &&& accuracy::distance(m.b, x.b) <= t
    &&& accuracy::distance(m.c, x.c) <= t
    &&& accuracy::distance(m.d, x.d) <= t
    &&& accuracy::distance(m.e, x.e) <= t
    &&& accuracy::distance(m.f, x.f) <= t
    &&& accuracy::distance(m.g, x.g) <= t
    &&& accuracy::distance(m.h, x.h) <= t
    &&& accuracy::distance(m.i, x.i) <= t
}

/// A rigid rotation, within `t`: columns of length one at right angles, and a determinant of one.
pub open spec fn is_rotation(m: algebra::Matrix, t: real) -> bool {
    let (zero, one) = (0 as real, 1 as real);
    &&& accuracy::distance(m.a * m.a + m.d * m.d + m.g * m.g, one) <= t
    &&& accuracy::distance(m.b * m.b + m.e * m.e + m.h * m.h, one) <= t
    &&& accuracy::distance(m.c * m.c + m.f * m.f + m.i * m.i, one) <= t
    &&& accuracy::distance(m.a * m.b + m.d * m.e + m.g * m.h, zero) <= t
    &&& accuracy::distance(m.a * m.c + m.d * m.f + m.g * m.i, zero) <= t
    &&& accuracy::distance(m.b * m.c + m.e * m.f + m.h * m.i, zero) <= t
    &&& accuracy::distance(algebra::determinant(m), one) <= t
}

/// The entries of the rotation are finite.
pub open spec fn is_ordinary(m: Mat4) -> bool {
    &&& m.r0.x.finite() && m.r0.y.finite() && m.r0.z.finite()
    &&& m.r1.x.finite() && m.r1.y.finite() && m.r1.z.finite()
    &&& m.r2.x.finite() && m.r2.y.finite() && m.r2.z.finite()
}

/// A pose whose rotation is finite and rigid within one part in a hundred thousand, and whose last
/// row is that of a pose.
pub open spec fn is_rigid(m: Mat4) -> bool {
    is_ordinary(m) && is_rotation(entries_of(m), accuracy::ratio(1, 100_000)) && m.r3 == Mat4::pose_row()
}

/// A product moves little with its factors: `a` bounds the first, `b` the second.
proof fn lemma_product_perturbed(
    x: real,
    p: real,
    dx: real,
    a: real,
    y: real,
    q: real,
    dy: real,
    b: real,
)
    requires
        accuracy::distance(x, p) <= dx,
        accuracy::distance(y, q) <= dy,
        accuracy::size(p) <= a,
        accuracy::size(q) <= b,
    ensures
        is_within(x * y, p * q, dx * (b + dy) + a * dy),
{
    accuracy::lemma_product_bound(x - p, y, dx, b + dy);
    accuracy::lemma_product_bound(p, y - q, a, dy);
    algebra::lemma_difference(x, p, y);
    algebra::lemma_difference(y, q, p);
}

/// A product of entries near ones of ordinary size.
pub proof fn lemma_entries_perturbed(x: real, p: real, y: real, q: real, t: real)
    requires
        accuracy::distance(x, p) <= t,
        accuracy::distance(y, q) <= t,
        5 as real * accuracy::size(p) <= 6 as real,
        5 as real * accuracy::size(q) <= 6 as real,
        5 as real * t <= 1 as real,
    ensures
        is_within(x * y, p * q, 3 as real * t),
        accuracy::size(p * q) <= 2 as real,
{
    let b = accuracy::ratio(6, 5);
    assert(5 as real * b == 6 as real) by (nonlinear_arith)
        requires
            b == (6int as real) / (5int as real),
    ;
    lemma_product_perturbed(x, p, t, b, y, q, t, b);
    accuracy::lemma_product_bound(p, q, b, b);
    let c = b + t;
    assert(t * c + b * t <= 3 as real * t) by (nonlinear_arith)
        requires
            0 as real <= t,
            5 as real * c <= 7 as real,
            5 as real * b == 6 as real,
    ;
    assert(b * b <= 2 as real) by (nonlinear_arith)
        requires
            5 as real * b == 6 as real,
    ;
}

/// A vector product's entry times the entry it belongs to.
proof fn lemma_minor_perturbed(
    b: real,
    f: real,
    c: real,
    e: real,
    g: real,
    pb: real,
    pf: real,
    pc: real,
    pe: real,
    pg: real,
    t: real,
)
    requires
        accuracy::distance(b, pb) <= t,
        accuracy::distance(f, pf) <= t,
        accuracy::distance(c, pc) <= t,
        accuracy::distance(e, pe) <= t,
        accuracy::distance(g, pg) <= t,
        5 as real * accuracy::size(pb) <= 6 as real,
        5 as real * accuracy::size(pf) <= 6 as real,
        5 as real * accuracy::size(pc) <= 6 as real,
        5 as real * accuracy::size(pe) <= 6 as real,
        5 as real * accuracy::size(pg) <= 6 as real,
        5 as real * t <= 1 as real,
    ensures
        is_within((b * f - c * e) * g, (pb * pf - pc * pe) * pg, 16 as real * t),
{
    lemma_entries_perturbed(b, pb, f, pf, t);
    lemma_entries_perturbed(c, pc, e, pe, t);
    let (x, p) = (b * f - c * e, pb * pf - pc * pe);
    let two = 2 as real;
    lemma_product_perturbed(x, p, 6 as real * t, 4 as real, g, pg, t, two - t);
    assert((6 as real * t) * (two - t + t) + 4 as real * t <= 16 as real * t) by (nonlinear_arith)
        requires
            two == 2 as real,
    ;
}

/// A matrix near that of a quaternion of length one is a rotation.
proof fn lemma_rotation(m: algebra::Matrix, q: Quat)
    requires
        is_unit(q),
        are_close(m, exact_matrix(q), accuracy::ratio(1, 10_000_000)),
    ensures
        is_rotation(m, accuracy::ratio(1, 100_000)),
{
    let x = exact_matrix(q);
    let n = length2(q);
    let t = accuracy::ratio(1, 10_000_000);
    let u = accuracy::ratio(1, 1_000_000);
    lemma_millionth();
    assert(t * 10_000_000int as real == 1 as real) by (nonlinear_arith)
        requires
            t == (1int as real) / (10_000_000int as real),
    ;
    let big = accuracy::ratio(1, 100_000);
    assert(big * 100_000int as real == 1 as real) by (nonlinear_arith)
        requires
            big == (1int as real) / (100_000int as real),
    ;
    algebra::lemma_turn(
        accuracy::real64(q.w),
        accuracy::real64(q.i),
        accuracy::real64(q.j),
        accuracy::real64(q.k),
    );
    lemma_entries(x, n);
    let y = n - 1 as real;
    accuracy::lemma_product_bound(y, y, u, u);
    assert(u * u <= u) by (nonlinear_arith)
        requires
            0 as real <= u <= 1 as real,
    ;
    assert(n * n == y * y + 2 as real * y + 1 as real) by (nonlinear_arith)
        requires
            y == n - 1 as real,
    ;
    let z = n * n - 1 as real;
    accuracy::lemma_product_bound(n, z, 2 as real, 3 as real * u);
    accuracy::lemma_product_bound(y, z, u, 3 as real * u);
    assert(n * (n * n) == y * z + z + n) by (nonlinear_arith)
        requires
            y == n - 1 as real,
            z == n * n - 1 as real,
    ;
    assert(u * (3 as real * u) == 3 as real * (u * u)) by (nonlinear_arith);
    assert(u * u * 1_000_000int as real == u) by (nonlinear_arith)
        requires
            u * 1_000_000int as real == 1 as real,
    ;
    lemma_entries_perturbed(m.a, x.a, m.a, x.a, t);
    lemma_entries_perturbed(m.d, x.d, m.d, x.d, t);
    lemma_entries_perturbed(m.g, x.g, m.g, x.g, t);
    lemma_entries_perturbed(m.a, x.a, m.b, x.b, t);
    lemma_entries_perturbed(m.d, x.d, m.e, x.e, t);
    lemma_entries_perturbed(m.g, x.g, m.h, x.h, t);
    lemma_entries_perturbed(m.a, x.a, m.c, x.c, t);
    lemma_entries_perturbed(m.d, x.d, m.f, x.f, t);
    lemma_entries_perturbed(m.g, x.g, m.i, x.i, t);
    lemma_entries_perturbed(m.b, x.b, m.b, x.b, t);
    lemma_entries_perturbed(m.e, x.e, m.e, x.e, t);
    lemma_entries_perturbed(m.h, x.h, m.h, x.h, t);
    lemma_entries_perturbed(m.b, x.b, m.c, x.c, t);
    lemma_entries_perturbed(m.e, x.e, m.f, x.f, t);
    lemma_entries_perturbed(m.h, x.h, m.i, x.i, t);
    lemma_entries_perturbed(m.c, x.c, m.c, x.c, t);
    lemma_entries_perturbed(m.f, x.f, m.f, x.f, t);
    lemma_entries_perturbed(m.i, x.i, m.i, x.i, t);
    lemma_minor_perturbed(m.b, m.f, m.c, m.e, m.g, x.b, x.f, x.c, x.e, x.g, t);
    lemma_minor_perturbed(m.c, m.d, m.a, m.f, m.h, x.c, x.d, x.a, x.f, x.h, t);
    lemma_minor_perturbed(m.a, m.e, m.b, m.d, m.i, x.a, x.e, x.b, x.d, x.i, t);
}

/// The pose with the rotation of a quaternion of length one is rigid.
pub proof fn unit_quaternions_make_rigid_poses(q: Quat, position: V3)
    requires
        is_unit(q),
    ensures
        is_rigid(Mat4::assembled(q.to_matrix(), position)),
{
    let r = q.to_matrix();
    let x = exact_matrix(q);
    let t = 240 as real * accuracy::eps64();
    let b = accuracy::ratio(6, 5);
    accuracy::lemma_eps64();
    lemma_millionth();
    near_matrix(q);
    algebra::lemma_turn(
        accuracy::real64(q.w),
        accuracy::real64(q.i),
        accuracy::real64(q.j),
        accuracy::real64(q.k),
    );
    lemma_entries(x, length2(q));
    assert(5 as real * b == 6 as real) by (nonlinear_arith)
        requires
            b == (6int as real) / (5int as real),
    ;
    let e = accuracy::eps32();
    let s = accuracy::ratio(1, 10_000_000);
    accuracy::lemma_eps32();
    assert(s * 10_000_000int as real == 1 as real) by (nonlinear_arith)
        requires
            s == (1int as real) / (10_000_000int as real),
    ;
    let c = b + t;
    assert(5 as real * (e * c) <= 7 as real * e) by (nonlinear_arith)
        requires
            5 as real * c <= 7 as real,
            e >= 0 as real,
    ;
    accuracy::near_narrowed(r.r0.x, x.a, t, b);
    accuracy::near_narrowed(r.r0.y, x.b, t, b);
    accuracy::near_narrowed(r.r0.z, x.c, t, b);
    accuracy::near_narrowed(r.r1.x, x.d, t, b);
    accuracy::near_narrowed(r.r1.y, x.e, t, b);
    accuracy::near_narrowed(r.r1.z, x.f, t, b);
    accuracy::near_narrowed(r.r2.x, x.g, t, b);
    accuracy::near_narrowed(r.r2.y, x.h, t, b);
    accuracy::near_narrowed(r.r2.z, x.i, t, b);
    lemma_rotation(entries_of(Mat4::assembled(r, position)), q);
}

/// The rotation of a motion keeps its length through all steps.
proof fn lemma_stays_unit(m: Motion, steps: Seq<Step>, deltas: Seq<Quat>)
    requires
        is_unit(m.rotation),
        forall|i: int| 0 <= i < steps.len() ==> is_unit(#[trigger] deltas[i]),
    ensures
        is_unit(predict_pose_imu::advanced_through(m, steps, deltas).rotation),
    decreases steps.len(),
{
    if steps.len() > 0 {
        let before = predict_pose_imu::advanced_through(m, steps.drop_last(), deltas);
        lemma_stays_unit(m, steps.drop_last(), deltas);
        let delta = deltas[steps.len() - 1];
        lemma_product(before.rotation, delta);
        normalized_is_unit(before.rotation.times(delta));
    }
}

/// A predicted pose is rigid: from a rotation of length one, and with small rotations of length
/// one, whatever the velocity and the accelerations are.
pub proof fn predicted_poses_are_rigid(m: Motion, steps: Seq<Step>, deltas: Seq<Quat>)
    requires
        is_unit(m.rotation),
        forall|i: int| 0 <= i < steps.len() ==> is_unit(#[trigger] deltas[i]),
    ensures
        ({
            let p = predict_pose_imu::advanced_through(m, steps, deltas);
            is_rigid(Mat4::assembled(p.rotation.to_matrix(), p.position))
        }),
{
    lemma_stays_unit(m, steps, deltas);
    let p = predict_pose_imu::advanced_through(m, steps, deltas);
    unit_quaternions_make_rigid_poses(p.rotation, p.position);
}

} // verus!
