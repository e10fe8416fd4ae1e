//! Turning covariances, up to rounding.

use vstd::prelude::*;

use crate::algebra;
use crate::algebra::{identity, lemma_identity, product, sum, trace, transpose, Matrix};
use crate::float::accuracy;
use crate::float::accuracy::{distance, eps64, near64, real64, size, smallest};
use crate::geometry::{M3, V3};
use crate::pose::{turned, Mat4};
use crate::rigidity;

verus! {

/// The entries of a matrix, as real numbers.
pub open spec fn entries(m: M3) -> Matrix {
    Matrix {
        a: real64(m.r0.x),
        b: real64(m.r0.y),
        c: real64(m.r0.z),
        d: real64(m.r1.x),
        e: real64(m.r1.y),
        f: real64(m.r1.z),
        g: real64(m.r2.x),
        h: real64(m.r2.y),
        i: real64(m.r2.z),
    }
}

/// The entries are finite.
pub open spec fn is_finite(m: M3) -> bool {
    &&& m.r0.x.finite() && m.r0.y.finite() && m.r0.z.finite()
    &&& m.r1.x.finite() && m.r1.y.finite() && m.r1.z.finite()
    &&& m.r2.x.finite() && m.r2.y.finite() && m.r2.z.finite()
}

/// The entries are at most `b` in size.
pub open spec fn is_limited(m: Matrix, b: real) -> bool {
    &&& size(m.a) <= b && size(m.b) <= b && size(m.c) <= b
    &&& size(m.d) <= b && size(m.e) <= b && size(m.f) <= b
    &&& size(m.g) <= b && size(m.h) <= b && size(m.i) <= b
}

/// The rounded matrix is within `err` of the exact one, entry by entry.
pub open spec fn is_near(m: M3, exact: Matrix, err: real) -> bool {
    &&& near64(m.r0.x, exact.a, err)
    &&& near64(m.r0.y, exact.b, err)
    &&& near64(m.r0.z, exact.c, err)
    &&& near64(m.r1.x, exact.d, err)
    &&& near64(m.r1.y, exact.e, err)
    &&& near64(m.r1.z, exact.f, err)
    &&& near64(m.r2.x, exact.g, err)
    &&& near64(m.r2.y, exact.h, err)
    &&& near64(m.r2.z, exact.i, err)
}

/// The exact covariance, turned.
pub open spec fn turned_exactly(r: Matrix, c: Matrix) -> Matrix {
    product(product(r, c), transpose(r))
}

/// What rounding does at most to a turned covariance with entries up to `b`.
pub open spec fn turning_error(b: real) -> real {
    800 as real * (eps64() * b) + 100 as real * smallest()
}

/// The rounded product of a column with a row that is near an exact one.
proof fn near_dot(c: V3, b: real, r: V3, e1: real, e2: real, e3: real, dx: real, a: real)
    requires
        c.dot(r).finite(),
        size(real64(c.x)) <= b && size(real64(c.y)) <= b && size(real64(c.z)) <= b,
        near64(r.x, e1, dx) && near64(r.y, e2, dx) && near64(r.z, e3, dx),
        size(e1) <= a && size(e2) <= a && size(e3) <= a,
    ensures
        c.x.finite() && c.y.finite() && c.z.finite(),
        near64(
            c.dot(r),
            e1 * real64(c.x) + e2 * real64(c.y) + e3 * real64(c.z),
            3 as real * (b * dx) + 30 as real * (eps64() * (b * (a + dx))) + 10 as real * smallest(),
        ),
{
    accuracy::dot_errs(c.x, r.x, c.y, r.y, c.z, r.z);
    lemma_factor(real64(c.x), b, real64(r.x), e1, dx, a);
    lemma_factor(real64(c.y), b, real64(r.y), e2, dx, a);
    lemma_factor(real64(c.z), b, real64(r.z), e3, dx, a);
    let (p, q, s) = (
        real64(c.x) * real64(r.x),
        real64(c.y) * real64(r.y),
        real64(c.z) * real64(r.z),
    );
    let most = b * (a + dx);
    accuracy::lemma_part_bound(size(p) + size(q) + size(s), 3 as real * most);
    algebra::lemma_scaled_factor(3 as real, eps64(), most);
}

/// A product with a factor near an exact one.
proof fn lemma_factor(c: real, b: real, r: real, e: real, dx: real, a: real)
    requires
        size(c) <= b,
        distance(r, e) <= dx,
        size(e) <= a,
    ensures
        distance(c * r, e * c) <= b * dx,
        size(c * r) <= b * (a + dx),
{
    accuracy::lemma_product_bound(c, r - e, b, dx);
    algebra::lemma_difference(r, e, c);
    algebra::lemma_commute(c, e);
    accuracy::lemma_product_bound(c, r, b, a + dx);
}

/// The rounded product of two matrices, the first of them near an exact one.
proof fn near_product(x: M3, xe: Matrix, dx: real, a: real, y: M3, b: real)
    requires
        is_finite(x.times(y)),
        is_near(x, xe, dx),
        is_limited(xe, a),
        is_limited(entries(y), b),
    ensures
        is_near(
            x.times(y),
            product(xe, entries(y)),
            3 as real * (b * dx) + 30 as real * (eps64() * (b * (a + dx))) + 10 as real * smallest(),
        ),
{
    reveal(product);
    let t = y.transposed();
    near_dot(t.r0, b, x.r0, xe.a, xe.b, xe.c, dx, a);
    near_dot(t.r1, b, x.r0, xe.a, xe.b, xe.c, dx, a);
    near_dot(t.r2, b, x.r0, xe.a, xe.b, xe.c, dx, a);
    near_dot(t.r0, b, x.r1, xe.d, xe.e, xe.f, dx, a);
    near_dot(t.r1, b, x.r1, xe.d, xe.e, xe.f, dx, a);
    near_dot(t.r2, b, x.r1, xe.d, xe.e, xe.f, dx, a);
    near_dot(t.r0, b, x.r2, xe.g, xe.h, xe.i, dx, a);
    near_dot(t.r1, b, x.r2, xe.g, xe.h, xe.i, dx, a);
    near_dot(t.r2, b, x.r2, xe.g, xe.h, xe.i, dx, a);
}

/// The entries of a product of limited matrices are limited.
proof fn lemma_product_limited(x: Matrix, y: Matrix, a: real, b: real)
    requires
        is_limited(x, a),
        is_limited(y, b),
    ensures
        is_limited(product(x, y), 3 as real * (a * b)),
{
    reveal(product);
    accuracy::lemma_product_bound(x.a, y.a, a, b);
    accuracy::lemma_product_bound(x.b, y.d, a, b);
    accuracy::lemma_product_bound(x.c, y.g, a, b);
    accuracy::lemma_product_bound(x.a, y.b, a, b);
    accuracy::lemma_product_bound(x.b, y.e, a, b);
    accuracy::lemma_product_bound(x.c, y.h, a, b);
    accuracy::lemma_product_bound(x.a, y.c, a, b);
    accuracy::lemma_product_bound(x.b, y.f, a, b);
    accuracy::lemma_product_bound(x.c, y.i, a, b);
    accuracy::lemma_product_bound(x.d, y.a, a, b);
    accuracy::lemma_product_bound(x.e, y.d, a, b);
    accuracy::lemma_product_bound(x.f, y.g, a, b);
    accuracy::lemma_product_bound(x.d, y.b, a, b);
    accuracy::lemma_product_bound(x.e, y.e, a, b);
    accuracy::lemma_product_bound(x.f, y.h, a, b);
    accuracy::lemma_product_bound(x.d, y.c, a, b);
    accuracy::lemma_product_bound(x.e, y.f, a, b);
    accuracy::lemma_product_bound(x.f, y.i, a, b);
    accuracy::lemma_product_bound(x.g, y.a, a, b);
    accuracy::lemma_product_bound(x.h, y.d, a, b);
    accuracy::lemma_product_bound(x.i, y.g, a, b);
    accuracy::lemma_product_bound(x.g, y.b, a, b);
    accuracy::lemma_product_bound(x.h, y.e, a, b);
    accuracy::lemma_product_bound(x.i, y.h, a, b);
    accuracy::lemma_product_bound(x.g, y.c, a, b);
    accuracy::lemma_product_bound(x.h, y.f, a, b);
    accuracy::lemma_product_bound(x.i, y.i, a, b);
}

/// The factors of a finite product of matrices are finite.
proof fn lemma_finite_factors(x: M3, y: M3)
    requires
        is_finite(x.times(y)),
    ensures
        is_finite(x),
        is_finite(y),
{
    let t = y.transposed();
    accuracy::dot_errs(t.r0.x, x.r0.x, t.r0.y, x.r0.y, t.r0.z, x.r0.z);
    accuracy::dot_errs(t.r1.x, x.r1.x, t.r1.y, x.r1.y, t.r1.z, x.r1.z);
    accuracy::dot_errs(t.r2.x, x.r2.x, t.r2.y, x.r2.y, t.r2.z, x.r2.z);
}

/// A turned covariance that is finite is near the exact one, which is no larger than thirty-six
/// times the covariance.
pub proof fn turning_is_nearly_exact(r: M3, c: M3, b: real)
    requires
        is_finite(turned(r, c)),
        is_limited(entries(r), 2 as real),
        is_limited(entries(c), b),
    ensures
        is_finite(r),
        is_finite(c),
        is_near(turned(r, c), turned_exactly(entries(r), entries(c)), turning_error(b)),
        is_limited(turned_exactly(entries(r), entries(c)), 36 as real * b),
{
    let rt = r.transposed();
    let rc = r.times(c);
    lemma_finite_factors(rc, rt);
    lemma_finite_factors(r, c);
    let (re, ce) = (entries(r), entries(c));
    let (u, eb) = (smallest(), eps64() * b);
    accuracy::lemma_smallest();
    let (zero, two) = (0 as real, 2 as real);
    near_product(r, re, zero, two, c, b);
    lemma_product_limited(re, ce, two, b);
    accuracy::lemma_small_part(b);
    let d = 60 as real * eb + 10 as real * u;
    assert(3 as real * (b * zero) + 30 as real * (eps64() * (b * (two + zero))) == 60 as real * eb)
        by {
        algebra::lemma_factors(b);
        algebra::lemma_commute(b, two);
        algebra::lemma_scaled_factor(two, eps64(), b);
    }
    assert(is_near(rc, product(re, ce), d));
    assert(entries(rt) == transpose(re));
    let m = 6 as real * b;
    assert(two * b == 2 as real * b);
    near_product(rc, product(re, ce), d, m, rt, two);
    accuracy::lemma_small_part(d);
    assert(eps64() * (two * (m + d)) == 12 as real * eb + 2 as real * (eps64() * d)) by {
        algebra::lemma_scaled_factor(two, eps64(), m + d);
        algebra::lemma_distribute(m, d, eps64());
        algebra::lemma_scaled_factor(6 as real, eps64(), b);
    }
    lemma_product_limited(product(re, ce), transpose(re), m, two);
    algebra::lemma_commute(m, two);
}

/// A symmetric covariance stays symmetric when it is turned, up to rounding, wherever nothing
/// overflows.
pub proof fn turned_covariances_stay_symmetric(r: M3, c: M3, b: real)
    requires
        is_finite(turned(r, c)),
        is_limited(entries(r), 2 as real),
        is_limited(entries(c), b),
        entries(c) == transpose(entries(c)),
    ensures
        ({
            let m = entries(turned(r, c));
            let err = 2 as real * turning_error(b);
            &&& distance(m.b, m.d) <= err
            &&& distance(m.c, m.g) <= err
            &&& distance(m.f, m.h) <= err
        }),
{
    turning_is_nearly_exact(r, c, b);
    let (re, ce) = (entries(r), entries(c));
    let x = turned_exactly(re, ce);
    algebra::lemma_transpose(product(re, ce), transpose(re));
    algebra::lemma_transpose(re, ce);
    algebra::lemma_regroup(re, ce, transpose(re));
    assert(transpose(transpose(re)) == re);
    assert(transpose(x) == x);
    assert(x.b == transpose(x).b && x.c == transpose(x).c && x.f == transpose(x).f);
}

/// How far a matrix is from the identity.
spec fn excess(m: Matrix) -> Matrix {
    let one = 1 as real;
    Matrix { a: m.a - one, e: m.e - one, i: m.i - one, ..m }
}

/// The transpose of a rotation times the rotation is the identity within `t`.
proof fn lemma_rotation(m: Matrix, t: real)
    requires
        rigidity::is_rotation(m, t),
        t <= 1 as real,
    ensures
        product(transpose(m), m) == sum(identity(), excess(product(transpose(m), m))),
        is_limited(excess(product(transpose(m), m)), t),
        is_limited(m, 2 as real),
{
    reveal(product);
    algebra::lemma_commute(m.a, m.b);
    algebra::lemma_commute(m.d, m.e);
    algebra::lemma_commute(m.g, m.h);
    algebra::lemma_commute(m.a, m.c);
    algebra::lemma_commute(m.d, m.f);
    algebra::lemma_commute(m.g, m.i);
    algebra::lemma_commute(m.b, m.c);
    algebra::lemma_commute(m.e, m.f);
    algebra::lemma_commute(m.h, m.i);
    lemma_column(m.a, m.d, m.g);
    lemma_column(m.b, m.e, m.h);
    lemma_column(m.c, m.f, m.i);
}

/// The entries of a column that is about one in length.
proof fn lemma_column(x: real, y: real, z: real)
    requires
        x * x + y * y + z * z <= 2 as real,
    ensures
        size(x) <= 2 as real,
        size(y) <= 2 as real,
        size(z) <= 2 as real,
{
    lemma_square(x);
    lemma_square(y);
    lemma_square(z);
}

/// A number is at most two in size where its square is at most two.
proof fn lemma_square(x: real)
    ensures
        x * x >= 0 as real,
        x * x <= 2 as real ==> size(x) <= 2 as real,
{
    assert(x * x >= 0 as real) by (nonlinear_arith);
    if x > 2 as real {
        assert(x * x > 2 as real) by (nonlinear_arith)
            requires
                x > 2 as real,
        ;
    }
    if x < -(2 as real) {
        assert(x * x > 2 as real) by (nonlinear_arith)
            requires
                x < -(2 as real),
        ;
    }
}

/// Turning by a rotation that is rigid within `t` keeps the trace of a covariance, within `t` and
/// up to rounding.
pub proof fn rotations_keep_the_trace(r: M3, c: M3, b: real, t: real)
    requires
        is_finite(turned(r, c)),
        rigidity::is_rotation(entries(r), t),
        0 as real <= t <= 1 as real,
        is_limited(entries(c), b),
    ensures
        distance(trace(entries(turned(r, c))), trace(entries(c))) <= 9 as real * (t * b)
            + 3 as real * turning_error(b),
{
    let (re, ce) = (entries(r), entries(c));
    lemma_rotation(re, t);
    turning_is_nearly_exact(r, c, b);
    let rt = transpose(re);
    let g = product(rt, re);
    let x = turned_exactly(re, ce);
    algebra::lemma_transpose(product(re, ce), rt);
    algebra::lemma_regroup(rt, re, ce);
    assert(trace(x) == trace(product(g, ce)));
    algebra::lemma_product_of_sum(identity(), excess(g), ce);
    lemma_identity(ce);
    lemma_product_limited(excess(g), ce, t, b);
    assert(product(g, ce) == sum(ce, product(excess(g), ce)));
}

/// Turning by a rotation that is rigid within `t`, and then by its transpose, gives a covariance
/// back, within `t` and up to rounding.
pub proof fn transposed_rotations_turn_back(r: M3, c: M3, b: real, t: real)
    requires
        is_finite(turned(r.transposed(), turned(r, c))),
        rigidity::is_rotation(entries(r), t),
        0 as real <= t <= 1 as real,
        is_limited(entries(c), b),
    ensures
        is_near(
            turned(r.transposed(), turned(r, c)),
            entries(c),
            15 as real * (t * b) + 75 as real * turning_error(b),
        ),
{
    let (u, eb) = (smallest(), eps64() * b);
    accuracy::lemma_smallest();
    let m = turned(r, c);
    let me = entries(m);
    lemma_finite_factors(r.transposed().times(m), r.transposed().transposed());
    lemma_finite_factors(r.transposed(), m);
    let (re, ce) = (entries(r), entries(c));
    let rt = transpose(re);
    lemma_rotation(re, t);
    turning_is_nearly_exact(r, c, b);
    let x = turned_exactly(re, ce);
    accuracy::lemma_small_part(b);
    accuracy::lemma_small_part(u);
    let bb = 37 as real * b + 100 as real * u;
    assert(is_limited(me, bb));
    assert(eps64() * bb == 37 as real * eb + 100 as real * (eps64() * u)) by {
        algebra::lemma_distribute(37 as real * b, 100 as real * u, eps64());
        algebra::lemma_scaled_factor(37 as real, eps64(), b);
        algebra::lemma_scaled_factor(100 as real, eps64(), u);
    }
    assert(entries(r.transposed()) == rt);
    turning_is_nearly_exact(r.transposed(), m, bb);
    assert(transpose(rt) == re);
    let err = turning_error(b);
    lemma_difference(m, x, err);
    lemma_turned_back(re, ce, me, t, b, err);
    lemma_near_difference(
        turned(r.transposed(), m),
        turned_exactly(rt, me),
        turning_error(bb),
        ce,
        15 as real * (t * b) + 36 as real * err,
    );
}

/// A matrix near an exact one differs little from it.
proof fn lemma_difference(m: M3, x: Matrix, err: real)
    requires
        is_near(m, x, err),
    ensures
        is_limited(difference(entries(m), x), err),
{
}

/// A matrix near one that differs little from another is near that other.
proof fn lemma_near_difference(m: M3, x: Matrix, err: real, y: Matrix, more: real)
    requires
        is_near(m, x, err),
        is_limited(difference(x, y), more),
    ensures
        is_near(m, y, err + more),
{
}

/// What is within `err` of a turned covariance gives the covariance back, within `t`.
proof fn lemma_turned_back(r: Matrix, c: Matrix, m: Matrix, t: real, b: real, err: real)
    requires
        rigidity::is_rotation(r, t),
        0 as real <= t <= 1 as real,
        is_limited(c, b),
        is_limited(difference(m, turned_exactly(r, c)), err),
    ensures
        is_limited(
            difference(product(product(transpose(r), m), r), c),
            15 as real * (t * b) + 36 as real * err,
        ),
{
    let rt = transpose(r);
    let x = turned_exactly(r, c);
    let d = difference(m, x);
    lemma_rotation(r, t);
    assert(m == sum(x, d));
    algebra::lemma_product_of_sum(x, d, rt);
    algebra::lemma_product_of_sum(product(rt, x), product(rt, d), r);
    let six = 3 as real * (2 as real * err);
    lemma_product_limited(rt, d, 2 as real, err);
    lemma_product_limited(product(rt, d), r, six, 2 as real);
    let z = product(product(rt, d), r);
    assert(3 as real * (six * 2 as real) == 36 as real * err) by (nonlinear_arith)
        requires
            six == 3 as real * (2 as real * err),
    ;
    lemma_there_and_back(r, c);
    let g = product(rt, r);
    let y = product(product(g, c), g);
    assert(product(product(rt, m), r) == sum(y, z));
    lemma_nearly_unchanged(excess(g), c, t, b);
    assert(g == sum(identity(), excess(g)));
}

/// The difference of two matrices.
spec fn difference(x: Matrix, y: Matrix) -> Matrix {
    Matrix {
        a: x.a - y.a,
        b: x.b - y.b,
        c: x.c - y.c,
        d: x.d - y.d,
        e: x.e - y.e,
        f: x.f - y.f,
        g: x.g - y.g,
        h: x.h - y.h,
        i: x.i - y.i,
    }
}

/// A covariance that is turned exactly, and turned back by the transpose.
proof fn lemma_there_and_back(r: Matrix, c: Matrix)
    ensures
        ({
            let rt = transpose(r);
            product(product(rt, turned_exactly(r, c)), r) == product(
                product(product(rt, r), c),
                product(rt, r),
            )
        }),
{
    let rt = transpose(r);
    algebra::lemma_regroup(rt, product(r, c), rt);
    algebra::lemma_regroup(rt, r, c);
    algebra::lemma_regroup(product(product(rt, r), c), rt, r);
}

/// A matrix between two that are the identity within `t` is nearly unchanged.
proof fn lemma_nearly_unchanged(x: Matrix, c: Matrix, t: real, b: real)
    requires
        is_limited(x, t),
        is_limited(c, b),
        0 as real <= t <= 1 as real,
    ensures
        ({
            let g = sum(identity(), x);
            is_limited(difference(product(product(g, c), g), c), 15 as real * (t * b))
        }),
{
    let g = sum(identity(), x);
    lemma_identity(c);
    algebra::lemma_product_of_sum(identity(), x, c);
    let xc = product(x, c);
    assert(product(g, c) == sum(c, xc));
    algebra::lemma_product_of_sum(identity(), x, sum(c, xc));
    lemma_identity(sum(c, xc));
    algebra::lemma_product_of_sum(c, xc, x);
    let tb = t * b;
    accuracy::lemma_product_bound(t, b, t, b);
    lemma_product_limited(x, c, t, b);
    lemma_product_limited(c, x, b, t);
    lemma_product_limited(xc, x, 3 as real * tb, t);
    algebra::lemma_commute(b, t);
    assert((3 as real * tb) * t <= 3 as real * tb) by (nonlinear_arith)
        requires
            0 as real <= tb,
            0 as real <= t <= 1 as real,
    ;
    assert(product(product(g, c), g) == sum(sum(c, xc), sum(product(c, x), product(xc, x))));
}

/// A product of two numbers that are moved a little.
proof fn lemma_product_moved(x: real, y: real, p: real, q: real, err: real, b: real)
    requires
        distance(x, p) <= err,
        distance(y, q) <= err,
        size(y) <= b,
        size(p) <= b,
    ensures
        distance(x * y, p * q) <= 2 as real * (b * err),
{
    accuracy::lemma_product_bound(y, x - p, b, err);
    accuracy::lemma_product_bound(p, y - q, b, err);
    algebra::lemma_difference(x, p, y);
    algebra::lemma_difference(y, q, p);
    algebra::lemma_commute(y, x - p);
}

/// A term of a determinant whose entries are moved a little.
proof fn lemma_minor_moved(
    x: real,
    y: real,
    z: real,
    w: real,
    g: real,
    p: real,
    q: real,
    r: real,
    s: real,
    h: real,
    err: real,
    b: real,
)
    requires
        distance(x, p) <= err,
        distance(y, q) <= err,
        distance(z, r) <= err,
        distance(w, s) <= err,
        distance(g, h) <= err,
        size(y) <= b && size(w) <= b && size(g) <= b,
        size(p) <= b && size(q) <= b && size(r) <= b && size(s) <= b,
    ensures
        distance((x * y - z * w) * g, (p * q - r * s) * h) <= 6 as real * ((b * b) * err),
{
    lemma_product_moved(x, y, p, q, err, b);
    lemma_product_moved(z, w, r, s, err, b);
    accuracy::lemma_product_bound(p, q, b, b);
    accuracy::lemma_product_bound(r, s, b, b);
    let (m, n) = (x * y - z * w, p * q - r * s);
    let (be, bb) = (4 as real * (b * err), 2 as real * (b * b));
    accuracy::lemma_product_bound(m - n, g, be, b);
    accuracy::lemma_product_bound(n, g - h, bb, err);
    algebra::lemma_difference(m, n, g);
    algebra::lemma_difference(g, h, n);
    algebra::lemma_associate(4 as real, b * err, b);
    algebra::lemma_associate(b, err, b);
    algebra::lemma_commute(err, b);
    algebra::lemma_associate(b, b, err);
    algebra::lemma_associate(2 as real, b * b, err);
}

/// A determinant whose entries are moved a little.
proof fn lemma_determinant_moved(x: Matrix, y: Matrix, err: real, b: real)
    requires
        is_limited(difference(x, y), err),
        is_limited(x, b),
        is_limited(y, b),
    ensures
        distance(algebra::determinant(x), algebra::determinant(y)) <= 18 as real * ((b * b) * err),
{
    lemma_minor_moved(
        x.b, x.f, x.c, x.e, x.g, y.b, y.f, y.c, y.e, y.g, err, b,
    );
    lemma_minor_moved(
        x.c, x.d, x.a, x.f, x.h, y.c, y.d, y.a, y.f, y.h, err, b,
    );
    lemma_minor_moved(
        x.a, x.e, x.b, x.d, x.i, y.a, y.e, y.b, y.d, y.i, err, b,
    );
}

/// The size of a term of a determinant.
proof fn lemma_minor_size(x: real, y: real, z: real, w: real, g: real, b: real)
    requires
        size(x) <= b && size(y) <= b && size(z) <= b && size(w) <= b && size(g) <= b,
    ensures
        size((x * y - z * w) * g) <= 2 as real * ((b * b) * b),
{
    accuracy::lemma_product_bound(x, y, b, b);
    accuracy::lemma_product_bound(z, w, b, b);
    accuracy::lemma_product_bound(x * y - z * w, g, 2 as real * (b * b), b);
    algebra::lemma_associate(2 as real, b * b, b);
}

/// The determinant of a covariance that is turned exactly by a rotation that is rigid within `t`.
proof fn lemma_determinant_turned(r: Matrix, c: Matrix, b: real, t: real)
    requires
        rigidity::is_rotation(r, t),
        0 as real <= t <= 1 as real,
        is_limited(c, b),
    ensures
        distance(
            algebra::determinant(turned_exactly(r, c)),
            algebra::determinant(c),
        ) <= 18 as real * (t * ((b * b) * b)),
{
    let (d, e) = (algebra::determinant(r), algebra::determinant(c));
    algebra::lemma_determinant_of_product(product(r, c), transpose(r));
    algebra::lemma_determinant_of_product(r, c);
    algebra::lemma_determinant_of_transpose(r);
    lemma_minor_size(c.b, c.f, c.c, c.e, c.g, b);
    lemma_minor_size(c.c, c.d, c.a, c.f, c.h, b);
    lemma_minor_size(c.a, c.e, c.b, c.d, c.i, b);
    let bbb = (b * b) * b;
    // The product of the three determinants is that of the covariance times a square near one.
    let (one, three) = (1 as real, 3 as real);
    algebra::lemma_scaled_factor(d, e, d);
    algebra::lemma_commute(d, e);
    algebra::lemma_two_by_two(d, one, d, one);
    algebra::lemma_factors(d);
    accuracy::lemma_product_bound(d - one, d + one, t, three);
    let f = d * d - one;
    algebra::lemma_difference(d * d, one, e);
    algebra::lemma_factors(e);
    algebra::lemma_associate(e, d, d);
    accuracy::lemma_product_bound(e, f, 6 as real * bbb, t * three);
    algebra::lemma_associate(6 as real, bbb, t * three);
    algebra::lemma_associate(bbb, t, three);
    algebra::lemma_commute(bbb, t);
    algebra::lemma_commute(t * bbb, three);
}

/// Turning by a rotation that is rigid within `t` keeps the determinant of a covariance, within `t`
/// and up to rounding, wherever nothing overflows.
pub proof fn rotations_keep_the_determinant(r: M3, c: M3, b: real, t: real)
    requires
        is_finite(turned(r, c)),
        rigidity::is_rotation(entries(r), t),
        0 as real <= t <= 1 as real,
        is_limited(entries(c), b),
    ensures
        ({
            let far = 36 as real * b + turning_error(b);
            distance(
                algebra::determinant(entries(turned(r, c))),
                algebra::determinant(entries(c)),
            ) <= 18 as real * (t * ((b * b) * b)) + 18 as real * ((far * far) * turning_error(b))
        }),
{
    let (re, ce) = (entries(r), entries(c));
    lemma_rotation(re, t);
    turning_is_nearly_exact(r, c, b);
    let x = turned_exactly(re, ce);
    let m = turned(r, c);
    let err = turning_error(b);
    lemma_difference(m, x, err);
    lemma_determinant_moved(entries(m), x, err, 36 as real * b + err);
    lemma_determinant_turned(re, ce, b, t);
}

/// The rotation of a rigid pose is as rigid as the pose.
pub proof fn rigid_poses_have_rotations(m: Mat4)
    requires
        rigidity::is_rigid(m),
    ensures
        is_finite(m.rotation()),
        rigidity::is_rotation(entries(m.rotation()), accuracy::ratio(1, 100_000)),
{
    accuracy::lemma_widened(m.r0.x);
    accuracy::lemma_widened(m.r0.y);
    accuracy::lemma_widened(m.r0.z);
    accuracy::lemma_widened(m.r1.x);
    accuracy::lemma_widened(m.r1.y);
    accuracy::lemma_widened(m.r1.z);
    accuracy::lemma_widened(m.r2.x);
    accuracy::lemma_widened(m.r2.y);
    accuracy::lemma_widened(m.r2.z);
    assert(entries(m.rotation()) == rigidity::entries_of(m));
}

/// A symmetric covariance and what became of it: symmetric, and with the same trace and
/// determinant, within `t` and up to rounding.
pub open spec fn is_kept(c: M3, out: M3, b: real, t: real) -> bool {
    let (x, m) = (entries(c), entries(out));
    let err = turning_error(b);
    let far = 36 as real * b + err;
    &&& distance(m.b, m.d) <= 2 as real * err
    &&& distance(m.c, m.g) <= 2 as real * err
    &&& distance(m.f, m.h) <= 2 as real * err
    &&& distance(trace(m), trace(x)) <= 9 as real * (t * b) + 3 as real * err
    &&& distance(algebra::determinant(m), algebra::determinant(x)) <= 18 as real * (t * ((b * b) * b))
        + 18 as real * ((far * far) * err)
}

/// A rigid pose keeps every symmetric covariance, and the transposed pose brings each of them back:
/// one covariance for each, in the same order, wherever nothing overflows.
pub proof fn rigid_poses_keep_covariances(covs: Seq<M3>, m: Mat4, b: real)
    requires
        rigidity::is_rigid(m),
        forall|i: int|
            0 <= i < covs.len() ==> {
                &&& entries(#[trigger] covs[i]) == transpose(entries(covs[i]))
                &&& is_limited(entries(covs[i]), b)
                &&& is_finite(
                    turned(m.transposed().rotation(), turned(m.rotation(), covs[i])),
                )
            },
    ensures
        ({
            let t = accuracy::ratio(1, 100_000);
            let out = covs.map_values(|c: M3| turned(m.rotation(), c));
            let back = out.map_values(|c: M3| turned(m.transposed().rotation(), c));
            &&& back.len() == out.len() == covs.len()
            &&& forall|i: int|
                0 <= i < covs.len() ==> is_kept(covs[i], #[trigger] out[i], b, t) && is_near(
                    back[i],
                    entries(covs[i]),
                    15 as real * (t * b) + 75 as real * turning_error(b),
                )
        }),
{
    let t = accuracy::ratio(1, 100_000);
    let r = m.rotation();
    rigid_poses_have_rotations(m);
    assert(m.transposed().rotation() == r.transposed());
    assert(0 as real <= t <= 1 as real) by (nonlinear_arith)
        requires
            t == (1int as real) / (100_000int as real),
    ;
    lemma_rotation(entries(r), t);
    let out = covs.map_values(|c: M3| turned(m.rotation(), c));
    let back = out.map_values(|c: M3| turned(m.transposed().rotation(), c));
    assert forall|i: int| 0 <= i < covs.len() implies is_kept(covs[i], #[trigger] out[i], b, t)
        && is_near(
        back[i],
        entries(covs[i]),
        15 as real * (t * b) + 75 as real * turning_error(b),
    ) by {
        let c = covs[i];
        lemma_finite_factors(r.transposed().times(turned(r, c)), r.transposed().transposed());
        lemma_finite_factors(r.transposed(), turned(r, c));
        turned_covariances_stay_symmetric(r, c, b);
        rotations_keep_the_trace(r, c, b, t);
        rotations_keep_the_determinant(r, c, b, t);
        transposed_rotations_turn_back(r, c, b, t);
    }
}

} // verus!
