//! Twists turn rigidly, up to rounding.

use vstd::prelude::*;
use vstd::arithmetic::div_mod::lemma_fundamental_div_mod_converse;
use vstd::arithmetic::power2::*;

use crate::algebra;
use crate::algebra::{identity, product, scaled, sum, transpose, Matrix};
use crate::float::accuracy;
use crate::float::accuracy::{distance, eps64, near64, real64, size};
use crate::float::double::F64;
use crate::geometry::{M3, ONE, V3};
use crate::pose;
use crate::pose::{opposite, twist_angle, twist_rotation, Mat4, Twist, TINY};
use crate::rigidity;
use crate::turning::is_near;

verus! {

/// The squared length of a vector.
pub open spec fn squared(x: real, y: real, z: real) -> real {
    x * x + y * y + z * z
}

/// The matrix whose product with a vector is its vector product with the axis.
spec fn skew(x: real, y: real, z: real) -> Matrix {
    let zero = 0 as real;
    Matrix { a: zero, b: -z, c: y, d: z, e: zero, f: -x, g: -y, h: x, i: zero }
}

/// The products of the coordinates of the axis.
spec fn outer(x: real, y: real, z: real) -> Matrix {
    Matrix {
        a: x * x,
        b: x * y,
        c: x * z,
        d: x * y,
        e: y * y,
        f: y * z,
        g: x * z,
        h: y * z,
        i: z * z,
    }
}

/// The matrix without entries.
spec fn nothing() -> Matrix {
    scaled(0 as real, identity())
}

/// A product of two products that share a factor.
proof fn lemma_shared(u: real, w: real, v: real)
    ensures
        (u * w) * (w * v) == (w * w) * (u * v),
        (u * w) * (v * w) == (w * w) * (u * v),
        (w * u) * (w * v) == (w * w) * (u * v),
        (w * u) * (v * w) == (w * w) * (u * v),
{
    algebra::lemma_commute(u, w);
    algebra::lemma_commute(w, v);
    algebra::lemma_scaled_factor(w, u, w * v);
    algebra::lemma_scaled_factor(w, u, v);
    algebra::lemma_associate(w, w, u * v);
}

/// The products of the two matrices of an axis.
proof fn lemma_axis(x: real, y: real, z: real)
    ensures
        product(outer(x, y, z), outer(x, y, z)) == scaled(squared(x, y, z), outer(x, y, z)),
{
    reveal(product);
    algebra::lemma_distribute_three(x * x, y * y, z * z, x * x);
    algebra::lemma_distribute_three(x * x, y * y, z * z, x * y);
    algebra::lemma_distribute_three(x * x, y * y, z * z, x * z);
    algebra::lemma_distribute_three(x * x, y * y, z * z, y * y);
    algebra::lemma_distribute_three(x * x, y * y, z * z, y * z);
    algebra::lemma_distribute_three(x * x, y * y, z * z, z * z);
    lemma_shared(x, x, x);
    lemma_shared(x, x, y);
    lemma_shared(x, x, z);
    lemma_shared(y, x, x);
    lemma_shared(y, x, y);
    lemma_shared(y, x, z);
    lemma_shared(z, x, x);
    lemma_shared(z, x, y);
    lemma_shared(z, x, z);
    lemma_shared(x, y, x);
    lemma_shared(x, y, y);
    lemma_shared(x, y, z);
    lemma_shared(y, y, x);
    lemma_shared(y, y, y);
    lemma_shared(y, y, z);
    lemma_shared(z, y, x);
    lemma_shared(z, y, y);
    lemma_shared(z, y, z);
    lemma_shared(x, z, x);
    lemma_shared(x, z, y);
    lemma_shared(x, z, z);
    lemma_shared(y, z, x);
    lemma_shared(y, z, y);
    lemma_shared(y, z, z);
    lemma_shared(z, z, x);
    lemma_shared(z, z, y);
    lemma_shared(z, z, z);
    algebra::lemma_commute(x, y);
    algebra::lemma_commute(x, z);
    algebra::lemma_commute(y, z);
}

/// The square of the skew matrix, and its products with the other one.
proof fn lemma_skew(x: real, y: real, z: real)
    ensures
        ({
            let (k, p) = (skew(x, y, z), outer(x, y, z));
            &&& product(k, k) == sum(p, scaled(-squared(x, y, z), identity()))
            &&& product(k, p) == nothing()
            &&& product(p, k) == nothing()
        }),
{
    reveal(product);
    let zero = 0 as real;
    algebra::lemma_factors(-squared(x, y, z));
    algebra::lemma_factors(zero);
    algebra::lemma_factors(1 as real);
    algebra::lemma_factors(x);
    algebra::lemma_factors(y);
    algebra::lemma_factors(z);
    algebra::lemma_factors(-x);
    algebra::lemma_factors(-y);
    algebra::lemma_factors(-z);
    algebra::lemma_factors(x * x);
    algebra::lemma_factors(y * y);
    algebra::lemma_factors(z * z);
    algebra::lemma_factors(x * y);
    algebra::lemma_factors(x * z);
    algebra::lemma_factors(y * z);
    lemma_signed(x, y);
    lemma_signed(x, z);
    lemma_signed(y, z);
    lemma_signed(x, x);
    lemma_signed(y, y);
    lemma_signed(z, z);
    lemma_rotated(x, y, z);
    lemma_rotated(y, z, x);
    lemma_rotated(z, x, y);
    lemma_rotated(x, z, y);
    lemma_rotated(z, y, x);
    lemma_rotated(y, x, z);
}

/// Products with changed signs.
proof fn lemma_signed(u: real, v: real)
    ensures
        u * (-v) == -(u * v),
        (-u) * v == -(u * v),
        v * (-u) == -(u * v),
        (-v) * u == -(u * v),
        (-u) * (-v) == u * v,
        (-v) * (-u) == u * v,
        u * v == v * u,
{
    algebra::lemma_signs(u, v);
    algebra::lemma_signs(v, u);
    algebra::lemma_commute(u, v);
}

/// Products of a coordinate, with either sign, and a product of two.
proof fn lemma_rotated(u: real, v: real, w: real)
    ensures
        u * (v * w) == v * (u * w),
        u * (w * v) == v * (u * w),
        u * (u * v) == v * (u * u),
        u * (v * u) == v * (u * u),
        (-u) * (v * w) == -(v * (u * w)),
        (-u) * (w * v) == -(v * (u * w)),
        (-u) * (u * v) == -(v * (u * u)),
        (-u) * (v * u) == -(v * (u * u)),
        (v * w) * u == v * (u * w),
        (w * v) * u == v * (u * w),
        (u * v) * u == v * (u * u),
        (v * u) * u == v * (u * u),
        (v * w) * (-u) == -(v * (u * w)),
        (w * v) * (-u) == -(v * (u * w)),
        (u * v) * (-u) == -(v * (u * u)),
        (v * u) * (-u) == -(v * (u * u)),
        v * (u * w) == v * (w * u),
        (-v) * (u * w) == -(v * (u * w)),
        (-v) * (w * u) == -(v * (u * w)),
        (-v) * (u * u) == -(v * (u * u)),
        (u * w) * v == v * (u * w),
        (w * u) * v == v * (u * w),
        (u * w) * (-v) == -(v * (u * w)),
        (w * u) * (-v) == -(v * (u * w)),
        (u * u) * v == v * (u * u),
        (u * u) * (-v) == -(v * (u * u)),
{
    algebra::lemma_scaled_factor(v, u, w);
    algebra::lemma_scaled_factor(v, u, u);
    algebra::lemma_commute(v, w);
    algebra::lemma_commute(u, v);
    algebra::lemma_commute(u, w);
    lemma_signed(u, v * w);
    lemma_signed(u, u * v);
    lemma_signed(v, u * w);
    lemma_signed(v, u * u);
}

/// The exact rotation about an axis, given the cosine and the sine of the angle.
pub open spec fn rotation(x: real, y: real, z: real, c: real, s: real) -> Matrix {
    turned_by(x, y, z, c, s, 1 as real - c)
}

/// A multiple of the identity, of the skew matrix and of the products of an axis.
pub closed spec fn turned_by(x: real, y: real, z: real, c: real, s: real, v: real) -> Matrix {
    sum(
        scaled(c, identity()),
        sum(scaled(s, skew(x, y, z)), scaled(v, outer(x, y, z))),
    )
}

/// The transpose of such a matrix.
proof fn lemma_transposed(x: real, y: real, z: real, c: real, s: real, v: real)
    ensures
        transpose(turned_by(x, y, z, c, s, v)) == turned_by(x, y, z, c, -s, v),
{
    lemma_signed(s, x);
    lemma_signed(s, y);
    lemma_signed(s, z);
    algebra::lemma_factors(s);
    algebra::lemma_factors(-s);
}

/// The transpose of such a matrix times the matrix.
proof fn lemma_expanded(x: real, y: real, z: real, c: real, s: real, v: real)
    ensures
        ({
            let r = turned_by(x, y, z, c, s, v);
            let (k, p, l) = (skew(x, y, z), outer(x, y, z), squared(x, y, z));
            let kk = sum(p, scaled(-l, identity()));
            let kr = sum(scaled(c, k), sum(scaled(s, kk), scaled(v, nothing())));
            let pr = sum(scaled(c, p), sum(scaled(s, nothing()), scaled(v, scaled(l, p))));
            product(transpose(r), r) == sum(scaled(c, r), sum(scaled(-s, kr), scaled(v, pr)))
        }),
{
    let r = turned_by(x, y, z, c, s, v);
    let (k, p, l) = (skew(x, y, z), outer(x, y, z), squared(x, y, z));
    let (one, sk, vp) = (scaled(c, identity()), scaled(s, k), scaled(v, p));
    lemma_transposed(x, y, z, c, s, v);
    lemma_axis(x, y, z);
    lemma_skew(x, y, z);
    let mk = scaled(-s, k);
    algebra::lemma_product_of_sum(one, sum(mk, vp), r);
    algebra::lemma_product_of_sum(mk, vp, r);
    algebra::lemma_product_scaled(c, identity(), r);
    algebra::lemma_identity(r);
    algebra::lemma_product_scaled(-s, k, r);
    algebra::lemma_product_scaled(v, p, r);
    algebra::lemma_product_of_sum(one, sum(sk, vp), k);
    algebra::lemma_product_of_sum(sk, vp, k);
    algebra::lemma_product_scaled(c, k, identity());
    algebra::lemma_identity(k);
    algebra::lemma_product_scaled(s, k, k);
    algebra::lemma_product_scaled(v, k, p);
    algebra::lemma_product_of_sum(one, sum(sk, vp), p);
    algebra::lemma_product_of_sum(sk, vp, p);
    algebra::lemma_product_scaled(c, p, identity());
    algebra::lemma_identity(p);
    algebra::lemma_product_scaled(s, p, k);
    algebra::lemma_product_scaled(v, p, p);
}

/// An entry of the product of the transpose of a rotation and the rotation: `i` is the entry of
/// the identity, `k` of the skew matrix and `p` of the products of the axis.
proof fn lemma_entry(
    c: real,
    s: real,
    l: real,
    i: real,
    k: real,
    p: real,
    o: real,
    err: real,
    off: real,
)
    requires
        distance(c * c + s * s, 1 as real) <= err,
        distance(l, 1 as real) <= off,
        err <= 1 as real,
        i == 0 as real || i == 1 as real,
        size(p) <= 2 as real,
        o == 0 as real * i,
    ensures
        ({
            let v = 1 as real - c;
            let r = c * i + (s * k + v * p);
            let kr = c * k + (s * (p + (-l) * i) + v * o);
            let pr = c * p + (s * o + v * (l * p));
            distance(c * r + ((-s) * kr + v * pr), i) <= 3 as real * err + 20 as real * off
        }),
{
    let v = 1 as real - c;
    let (cc, ss, cv, vv) = (c * c, s * s, c * v, v * v);
    let (d, f) = (l - 1 as real, cc + ss - 1 as real);
    algebra::lemma_factors(i);
    algebra::lemma_factors(v);
    algebra::lemma_factors(s);
    algebra::lemma_factors(c);
    // The first row of terms.
    algebra::lemma_distribute(c * i, s * k + v * p, c);
    algebra::lemma_distribute(s * k, v * p, c);
    algebra::lemma_associate(c, c, i);
    algebra::lemma_associate(c, v, p);
    // The second.
    let w = p + (-l) * i;
    algebra::lemma_signs(s, c * k + s * w);
    algebra::lemma_distribute(c * k, s * w, s);
    algebra::lemma_scaled_factor(s, c, k);
    algebra::lemma_associate(s, s, w);
    algebra::lemma_distribute(p, (-l) * i, ss);
    algebra::lemma_signs(l, i);
    algebra::lemma_signs(ss, l * i);
    // The third.
    let m = l * p;
    algebra::lemma_distribute(c * p, v * m, v);
    algebra::lemma_scaled_factor(c, v, p);
    algebra::lemma_associate(v, v, m);
    // The factors near one.
    algebra::lemma_difference(l, 1 as real, i);
    algebra::lemma_difference(l, 1 as real, p);
    algebra::lemma_factors(p);
    algebra::lemma_distribute(i, d * i, ss);
    algebra::lemma_distribute(p, d * p, vv);
    algebra::lemma_distribute(cc, ss, i);
    algebra::lemma_difference(cc + ss, 1 as real, i);
    // The coefficients of the products of the axis.
    algebra::lemma_difference(1 as real, c, c);
    algebra::lemma_difference(1 as real, c, v);
    assert(cv == c - cc && vv == 1 as real - 2 as real * c + cc);
    algebra::lemma_distribute_three(2 as real * cv, -ss, vv, p);
    algebra::lemma_signs(ss, p);
    assert((2 as real * cv) * p == 2 as real * (cv * p)) by {
        algebra::lemma_associate(2 as real, cv, p);
    }
    assert(2 as real * cv + (-ss) + vv == -f);
    algebra::lemma_signs(f, p);
    // Their sizes.
    lemma_unit_pair(c, s, err);
    accuracy::lemma_product_bound(f, i, err, 1 as real);
    accuracy::lemma_product_bound(f, p, err, 2 as real);
    accuracy::lemma_product_bound(d, i, off, 1 as real);
    accuracy::lemma_product_bound(d, p, off, 2 as real);
    algebra::lemma_factors(err);
    algebra::lemma_factors(off);
    lemma_twice(err);
    lemma_twice(off);
    accuracy::lemma_product_bound(ss, d * i, 2 as real, off);
    accuracy::lemma_product_bound(vv, d * p, 9 as real, 2 as real * off);
    assert(2 as real * off == off * 2 as real);
}

/// Twice a number.
proof fn lemma_twice(x: real)
    ensures
        x * 2 as real == 2 as real * x,
{
    algebra::lemma_commute(x, 2 as real);
}

/// The sizes of a cosine and a sine.
proof fn lemma_unit_pair(c: real, s: real, err: real)
    requires
        distance(c * c + s * s, 1 as real) <= err,
        err <= 1 as real,
    ensures
        size(c) <= 2 as real,
        size(s) <= 2 as real,
        0 as real <= s * s <= 2 as real,
        0 as real <= (1 as real - c) * (1 as real - c) <= 9 as real,
{
    assert(c * c >= 0 as real) by (nonlinear_arith);
    assert(s * s >= 0 as real) by (nonlinear_arith);
    lemma_root_bound(c, 2 as real);
    lemma_root_bound(s, 2 as real);
    let v = 1 as real - c;
    assert(v * v >= 0 as real) by (nonlinear_arith);
    accuracy::lemma_product_bound(v, v, 3 as real, 3 as real);
}

/// A number whose square is less than that of another is smaller than it.
proof fn lemma_root_bound(x: real, b: real)
    requires
        x * x <= b * b,
        0 as real <= b,
    ensures
        size(x) <= b,
{
    if x > b {
        assert(x * x > b * b) by (nonlinear_arith)
            requires
                x > b,
                b >= 0 as real,
        ;
    }
    if -x > b {
        assert(x * x > b * b) by (nonlinear_arith)
            requires
                -x > b,
                b >= 0 as real,
        ;
    }
}

/// The entries are within `t` of those of the identity.
pub open spec fn is_identity(m: Matrix, t: real) -> bool {
    let one = 1 as real;
    &&& distance(m.a, one) <= t && size(m.b) <= t && size(m.c) <= t
    &&& size(m.d) <= t && distance(m.e, one) <= t && size(m.f) <= t
    &&& size(m.g) <= t && size(m.h) <= t && distance(m.i, one) <= t
}

/// The transpose of a rotation undoes it, up to how far the axis is from length one and the
/// cosine and the sine are from the circle.
proof fn lemma_undone(x: real, y: real, z: real, c: real, s: real, err: real, off: real)
    requires
        distance(c * c + s * s, 1 as real) <= err,
        distance(squared(x, y, z), 1 as real) <= off,
        err <= 1 as real,
        off <= 1 as real,
    ensures
        ({
            let r = rotation(x, y, z, c, s);
            is_identity(product(transpose(r), r), 3 as real * err + 20 as real * off)
        }),
{
    let l = squared(x, y, z);
    let (i, k, p, o) = (identity(), skew(x, y, z), outer(x, y, z), nothing());
    lemma_expanded(x, y, z, c, s, 1 as real - c);
    lemma_outer_bounds(x, y, z);
    lemma_entry(c, s, l, i.a, k.a, p.a, o.a, err, off);
    lemma_entry(c, s, l, i.b, k.b, p.b, o.b, err, off);
    lemma_entry(c, s, l, i.c, k.c, p.c, o.c, err, off);
    lemma_entry(c, s, l, i.d, k.d, p.d, o.d, err, off);
    lemma_entry(c, s, l, i.e, k.e, p.e, o.e, err, off);
    lemma_entry(c, s, l, i.f, k.f, p.f, o.f, err, off);
    lemma_entry(c, s, l, i.g, k.g, p.g, o.g, err, off);
    lemma_entry(c, s, l, i.h, k.h, p.h, o.h, err, off);
    lemma_entry(c, s, l, i.i, k.i, p.i, o.i, err, off);
}

/// The products of the coordinates of an axis of about length one.
proof fn lemma_outer_bounds(x: real, y: real, z: real)
    requires
        squared(x, y, z) <= 2 as real,
    ensures
        size(outer(x, y, z).a) <= 2 as real,
        size(outer(x, y, z).b) <= 2 as real,
        size(outer(x, y, z).c) <= 2 as real,
        size(outer(x, y, z).e) <= 2 as real,
        size(outer(x, y, z).f) <= 2 as real,
        size(outer(x, y, z).i) <= 2 as real,
        size(x) <= 2 as real,
        size(y) <= 2 as real,
        size(z) <= 2 as real,
{
    lemma_between(x, y);
    lemma_between(x, z);
    lemma_between(y, z);
    lemma_root_bound(x, 2 as real);
    lemma_root_bound(y, 2 as real);
    lemma_root_bound(z, 2 as real);
}

/// A product lies between the squares.
proof fn lemma_between(u: real, v: real)
    ensures
        2 as real * size(u * v) <= u * u + v * v,
        0 as real <= u * u,
        0 as real <= v * v,
{
    assert(0 as real <= (u - v) * (u - v)) by (nonlinear_arith);
    assert(0 as real <= (u + v) * (u + v)) by (nonlinear_arith);
    assert(0 as real <= u * u) by (nonlinear_arith);
    assert(0 as real <= v * v) by (nonlinear_arith);
    algebra::lemma_two_by_two(u, v, u, v);
    algebra::lemma_commute(u, v);
}

/// A rounded product of two coordinates of the axis and a third number.
proof fn near_term(a: F64, b: F64, v: F64, w: real)
    requires
        a.finite(),
        b.finite(),
        size(real64(a)) <= 2 as real,
        size(real64(b)) <= 2 as real,
        near64(v, w, 6 as real * eps64()),
        size(w) <= 3 as real,
    ensures
        near64(a.times(b).times(v), w * (real64(a) * real64(b)), 175 as real * eps64()),
        size(w * (real64(a) * real64(b))) <= 12 as real,
{
    let e = eps64();
    accuracy::lemma_eps64();
    let (zero, two) = (0 as real, 2 as real);
    let (x, y) = (real64(a), real64(b));
    accuracy::near_times(a, x, zero, two, b, y, zero, two);
    assert(two * zero + 2 as real * two * zero + e * (4 as real * two * two + 1 as real) == 17 as real
        * e) by (nonlinear_arith)
        requires
            zero == 0 as real,
            two == 2 as real,
    ;
    accuracy::lemma_product_bound(x, y, two, two);
    let (four, three) = (4 as real, 3 as real);
    let (d1, d2) = (17 as real * e, 6 as real * e);
    accuracy::near_times(a.times(b), x * y, d1, four, v, w, d2, three);
    assert(four * d2 + 2 as real * three * d1 + e * (4 as real * four * three + 1 as real) == 175
        as real * e) by (nonlinear_arith)
        requires
            four == 4 as real,
            three == 3 as real,
            d1 == 17 as real * e,
            d2 == 6 as real * e,
    ;
    accuracy::lemma_product_bound(x * y, w, four, three);
    algebra::lemma_commute(x * y, w);
}

/// The rounded entries of a rotation about the axis, as the twist computes them.
spec fn rounded(kx: F64, ky: F64, kz: F64, c: F64, s: F64) -> M3 {
    let v = (F64 { bits: ONE }).minus(c);
    M3 {
        r0: V3::new(
            kx.times(kx).times(v).plus(c),
            kx.times(ky).times(v).minus(kz.times(s)),
            kx.times(kz).times(v).plus(ky.times(s)),
        ),
        r1: V3::new(
            kx.times(ky).times(v).plus(kz.times(s)),
            ky.times(ky).times(v).plus(c),
            ky.times(kz).times(v).minus(kx.times(s)),
        ),
        r2: V3::new(
            kx.times(kz).times(v).minus(ky.times(s)),
            ky.times(kz).times(v).plus(kx.times(s)),
            kz.times(kz).times(v).plus(c),
        ),
    }
}

/// A rounded sum or difference of a term with two coordinates and one with the sine.
proof fn near_entry(a: F64, b: F64, v: F64, w: real, k: F64, s: F64)
    requires
        a.finite() && b.finite() && k.finite() && s.finite(),
        size(real64(a)) <= 2 as real,
        size(real64(b)) <= 2 as real,
        size(real64(k)) <= 2 as real,
        size(real64(s)) <= 2 as real,
        near64(v, w, 6 as real * eps64()),
        size(w) <= 3 as real,
    ensures
        ({
            let (p, q) = (a.times(b).times(v), k.times(s));
            let (x, y) = (w * (real64(a) * real64(b)), real64(s) * real64(k));
            &&& near64(p.plus(q), y + x, 300 as real * eps64())
            &&& near64(p.minus(q), -y + x, 300 as real * eps64())
            &&& near64(p.plus(s), real64(s) + x, 300 as real * eps64())
        }),
{
    let e = eps64();
    accuracy::lemma_eps64();
    near_term(a, b, v, w);
    let (zero, two) = (0 as real, 2 as real);
    let (p, q) = (a.times(b).times(v), k.times(s));
    accuracy::near_times(k, real64(k), zero, two, s, real64(s), zero, two);
    assert(two * zero + 2 as real * two * zero + e * (4 as real * two * two + 1 as real) == 17 as real
        * e) by (nonlinear_arith)
        requires
            zero == 0 as real,
            two == 2 as real,
    ;
    accuracy::lemma_product_bound(real64(k), real64(s), two, two);
    algebra::lemma_commute(real64(k), real64(s));
    let (x, y) = (w * (real64(a) * real64(b)), real64(s) * real64(k));
    let (t1, t2) = (175 as real * e, 17 as real * e);
    let (twelve, four) = (12 as real, 4 as real);
    accuracy::near_plus(p, x, t1, twelve, q, y, t2, four);
    accuracy::near_minus(p, x, t1, twelve, q, y, t2, four);
    accuracy::near_plus(p, x, t1, twelve, s, real64(s), zero, two);
    assert(e * (2 as real * twelve + 2 as real * four) == 32 as real * e && e * (2 as real * twelve + 2
        as real * two) == 28 as real * e) by (nonlinear_arith)
        requires
            twelve == 12 as real,
            four == 4 as real,
            two == 2 as real,
    ;
}

/// The rounded entries are near the exact ones.
proof fn near_rotation(kx: F64, ky: F64, kz: F64, c: F64, s: F64)
    requires
        kx.finite() && ky.finite() && kz.finite() && c.finite() && s.finite(),
        size(real64(kx)) <= 2 as real,
        size(real64(ky)) <= 2 as real,
        size(real64(kz)) <= 2 as real,
        size(real64(c)) <= 2 as real,
        size(real64(s)) <= 2 as real,
    ensures
        is_near(
            rounded(kx, ky, kz, c, s),
            rotation(real64(kx), real64(ky), real64(kz), real64(c), real64(s)),
            300 as real * eps64(),
        ),
{
    let e = eps64();
    accuracy::lemma_eps64();
    let one = F64 { bits: ONE };
    accuracy::lemma_one64();
    let (zero, unit, two) = (0 as real, 1 as real, 2 as real);
    let (x, y, z, cr, sr) = (real64(kx), real64(ky), real64(kz), real64(c), real64(s));
    let v = one.minus(c);
    let w = unit - cr;
    accuracy::near_minus(one, unit, zero, unit, c, cr, zero, two);
    assert(e * (2 as real * unit + 2 as real * two) == 6 as real * e) by (nonlinear_arith)
        requires
            unit == 1 as real,
            two == 2 as real,
    ;
    near_entry(kx, kx, v, w, kx, c);
    near_entry(ky, ky, v, w, kx, c);
    near_entry(kz, kz, v, w, kx, c);
    near_entry(kx, ky, v, w, kz, s);
    near_entry(kx, kz, v, w, ky, s);
    near_entry(ky, kz, v, w, kx, s);
    algebra::lemma_factors(cr);
    algebra::lemma_factors(sr);
    lemma_signed(sr, x);
    lemma_signed(sr, y);
    lemma_signed(sr, z);
}

/// The entries of a matrix whose transpose undoes it.
proof fn lemma_limits(r: Matrix, t: real)
    requires
        is_identity(product(transpose(r), r), t),
        1000 as real * t <= 1 as real,
    ensures
        5 as real * size(r.a) <= 6 as real,
        5 as real * size(r.b) <= 6 as real,
        5 as real * size(r.c) <= 6 as real,
        5 as real * size(r.d) <= 6 as real,
        5 as real * size(r.e) <= 6 as real,
        5 as real * size(r.f) <= 6 as real,
        5 as real * size(r.g) <= 6 as real,
        5 as real * size(r.h) <= 6 as real,
        5 as real * size(r.i) <= 6 as real,
{
    reveal(product);
    let b = accuracy::ratio(6, 5);
    assert(5 as real * b == 6 as real && b * b >= 1 as real + t) by (nonlinear_arith)
        requires
            b == (6int as real) / (5int as real),
            1000 as real * t <= 1 as real,
    ;
    lemma_column(r.a, r.d, r.g, b);
    lemma_column(r.b, r.e, r.h, b);
    lemma_column(r.c, r.f, r.i, b);
}

/// The entries of a column are no larger than the column is long.
proof fn lemma_column(x: real, y: real, z: real, b: real)
    requires
        x * x + y * y + z * z <= b * b,
        0 as real <= b,
    ensures
        size(x) <= b,
        size(y) <= b,
        size(z) <= b,
{
    lemma_between(x, y);
    lemma_between(y, z);
    lemma_root_bound(x, b);
    lemma_root_bound(y, b);
    lemma_root_bound(z, b);
}

/// What the narrowed entries of a near matrix are.
proof fn lemma_narrowed(m: M3, r: Matrix, t: real, position: V3)
    requires
        is_near(m, r, 300 as real * eps64()),
        is_identity(product(transpose(r), r), t),
        1000 as real * t <= 1 as real,
    ensures
        ({
            let n = rigidity::entries_of(Mat4::assembled(m, position));
            is_identity(
                product(transpose(n), n),
                t + 9 as real * accuracy::ratio(1, 10_000_000),
            )
        }),
{
    let n = rigidity::entries_of(Mat4::assembled(m, position));
    let b = accuracy::ratio(6, 5);
    let d = 300 as real * eps64();
    let u = accuracy::ratio(1, 10_000_000);
    accuracy::lemma_eps64();
    lemma_limits(r, t);
    assert(5 as real * b == 6 as real) by (nonlinear_arith)
        requires
            b == (6int as real) / (5int as real),
    ;
    let e = accuracy::eps32();
    accuracy::lemma_eps32();
    assert(u * 10_000_000int as real == 1 as real) by (nonlinear_arith)
        requires
            u == (1int as real) / (10_000_000int as real),
    ;
    let c = b + d;
    assert(5 as real * (e * c) <= 7 as real * e) by (nonlinear_arith)
        requires
            5 as real * c <= 7 as real,
            e >= 0 as real,
    ;
    accuracy::near_narrowed(m.r0.x, r.a, d, b);
    accuracy::near_narrowed(m.r0.y, r.b, d, b);
    accuracy::near_narrowed(m.r0.z, r.c, d, b);
    accuracy::near_narrowed(m.r1.x, r.d, d, b);
    accuracy::near_narrowed(m.r1.y, r.e, d, b);
    accuracy::near_narrowed(m.r1.z, r.f, d, b);
    accuracy::near_narrowed(m.r2.x, r.g, d, b);
    accuracy::near_narrowed(m.r2.y, r.h, d, b);
    accuracy::near_narrowed(m.r2.z, r.i, d, b);
    lemma_perturbed(n, r, u);
    lemma_identity_near(product(transpose(n), n), product(transpose(r), r), t, 9 as real * u);
}

/// What is near a matrix near the identity is near the identity.
proof fn lemma_identity_near(x: Matrix, y: Matrix, t: real, u: real)
    requires
        rigidity::are_close(x, y, u),
        is_identity(y, t),
    ensures
        is_identity(x, t + u),
{
}

/// The transpose times the matrix, with entries that are moved a little.
proof fn lemma_perturbed(n: Matrix, r: Matrix, u: real)
    requires
        rigidity::are_close(n, r, u),
        5 as real * u <= 1 as real,
        5 as real * size(r.a) <= 6 as real,
        5 as real * size(r.b) <= 6 as real,
        5 as real * size(r.c) <= 6 as real,
        5 as real * size(r.d) <= 6 as real,
        5 as real * size(r.e) <= 6 as real,
        5 as real * size(r.f) <= 6 as real,
        5 as real * size(r.g) <= 6 as real,
        5 as real * size(r.h) <= 6 as real,
        5 as real * size(r.i) <= 6 as real,
    ensures
        rigidity::are_close(
            product(transpose(n), n),
            product(transpose(r), r),
            9 as real * u,
        ),
{
    reveal(product);
    rigidity::lemma_entries_perturbed(n.a, r.a, n.a, r.a, u);
    rigidity::lemma_entries_perturbed(n.d, r.d, n.d, r.d, u);
    rigidity::lemma_entries_perturbed(n.g, r.g, n.g, r.g, u);
    rigidity::lemma_entries_perturbed(n.a, r.a, n.b, r.b, u);
    rigidity::lemma_entries_perturbed(n.d, r.d, n.e, r.e, u);
    rigidity::lemma_entries_perturbed(n.g, r.g, n.h, r.h, u);
    rigidity::lemma_entries_perturbed(n.a, r.a, n.c, r.c, u);
    rigidity::lemma_entries_perturbed(n.d, r.d, n.f, r.f, u);
    rigidity::lemma_entries_perturbed(n.g, r.g, n.i, r.i, u);
    rigidity::lemma_entries_perturbed(n.b, r.b, n.a, r.a, u);
    rigidity::lemma_entries_perturbed(n.e, r.e, n.d, r.d, u);
    rigidity::lemma_entries_perturbed(n.h, r.h, n.g, r.g, u);
    rigidity::lemma_entries_perturbed(n.b, r.b, n.b, r.b, u);
    rigidity::lemma_entries_perturbed(n.e, r.e, n.e, r.e, u);
    rigidity::lemma_entries_perturbed(n.h, r.h, n.h, r.h, u);
    rigidity::lemma_entries_perturbed(n.b, r.b, n.c, r.c, u);
    rigidity::lemma_entries_perturbed(n.e, r.e, n.f, r.f, u);
    rigidity::lemma_entries_perturbed(n.h, r.h, n.i, r.i, u);
    rigidity::lemma_entries_perturbed(n.c, r.c, n.a, r.a, u);
    rigidity::lemma_entries_perturbed(n.f, r.f, n.d, r.d, u);
    rigidity::lemma_entries_perturbed(n.i, r.i, n.g, r.g, u);
    rigidity::lemma_entries_perturbed(n.c, r.c, n.b, r.b, u);
    rigidity::lemma_entries_perturbed(n.f, r.f, n.e, r.e, u);
    rigidity::lemma_entries_perturbed(n.i, r.i, n.h, r.h, u);
    rigidity::lemma_entries_perturbed(n.c, r.c, n.c, r.c, u);
    rigidity::lemma_entries_perturbed(n.f, r.f, n.f, r.f, u);
    rigidity::lemma_entries_perturbed(n.i, r.i, n.i, r.i, u);
}

/// The angle below which a rotation is taken to first order, between two powers of two.
proof fn lemma_tiny()
    ensures
        (F64 { bits: TINY }).finite(),
        real64(F64 { bits: TINY }) * 0x4000_0000int as real >= 1 as real,
        real64(F64 { bits: TINY }) * 0x2000_0000int as real <= 1 as real,
{
    let x = F64 { bits: TINY };
    let f = 0x1_2e0b_e826_d695int;
    lemma2_to64();
    lemma2_to64_rest();
    lemma_fundamental_div_mod_converse(TINY as int, 0x10_0000_0000_0000, 993, f);
    let (w, o) = (pow2(992), pow2(1074));
    lemma_pow2_adds(52, 992);
    lemma_pow2_adds(1044, 30);
    lemma_pow2_pos(992);
    let m = 0x10_0000_0000_0000 + f;
    assert(x.value() == m * w);
    assert(o == (0x10_0000_0000_0000 * w) * 0x4000_0000);
    let (vr, or) = (x.value() as real, o as int as real);
    assert((m * w) * 0x4000_0000 >= o && (m * w) * 0x2000_0000 <= o);
    let r = vr / or;
    assert(r * 0x4000_0000int as real >= 1 as real && r * 0x2000_0000int as real <= 1 as real)
        by (nonlinear_arith)
        requires
            r == vr / or,
            or > 0 as real,
            vr * 0x4000_0000int as real >= or,
            vr * 0x2000_0000int as real <= or,
    ;
}

/// The angle of a twist that is not tiny: its square is near the squared length of the rotation
/// vector.
proof fn lemma_angle_squared(x: Twist)
    requires
        is_moderate(x),
        !twist_angle(x).lt(F64 { bits: TINY }),
    ensures
        ({
            let t = real64(twist_angle(x));
            let n = vector_squared(x);
            &&& twist_angle(x).finite()
            &&& t * 0x4000_0000int as real >= 1 as real
            &&& 100_000_000 as real * distance(t * t, n) <= t * t
        }),
{
    let v = V3::new(x.alpha, x.beta, x.gamma);
    let d = v.dot(v);
    let theta = twist_angle(x);
    let n = vector_squared(x);
    lemma_vector(x);
    pose::lemma_angle(x);
    assert(d.signed().mag > 0 && !d.signed().neg) by {
        reveal(F64::spec_sqrt);
        reveal(F64::spec_is_nan);
    }
    lemma_sums(n, real64(d));
    accuracy::lemma_positive(d);
    accuracy::near_sqrt(d);
    lemma_tiny();
    accuracy::lemma_order(theta, F64 { bits: TINY });
    let t = real64(theta);
    assert(t * 0x4000_0000int as real >= 1 as real);
    assert(t * t * 0x1000_0000_0000_0000int as real >= 1 as real) by (nonlinear_arith)
        requires
            t * 0x4000_0000int as real >= 1 as real,
    ;
    lemma_ratio_of_squares(n, real64(d), t * t);
}

/// The squared length of the rotation vector stays finite.
pub open spec fn is_moderate(x: Twist) -> bool {
    let v = V3::new(x.alpha, x.beta, x.gamma);
    v.dot(v).finite()
}

/// The squared length of a rotation vector.
spec fn vector_squared(x: Twist) -> real {
    squared(real64(x.alpha), real64(x.beta), real64(x.gamma))
}

/// The rotation vector is finite, and the rounded squared length is near the exact one.
proof fn lemma_vector(x: Twist)
    requires
        is_moderate(x),
    ensures
        x.alpha.finite() && x.beta.finite() && x.gamma.finite(),
        0 as real <= vector_squared(x),
        ({
            let v = V3::new(x.alpha, x.beta, x.gamma);
            near64(
                v.dot(v),
                vector_squared(x),
                10 as real * (eps64() * vector_squared(x)) + 10 as real * accuracy::smallest(),
            )
        }),
{
    let (a, b, c) = (real64(x.alpha), real64(x.beta), real64(x.gamma));
    accuracy::dot_errs(x.alpha, x.alpha, x.beta, x.beta, x.gamma, x.gamma);
    lemma_between(a, b);
    lemma_between(b, c);
}

/// The rounded squared length, in the exact one.
proof fn lemma_sums(n: real, d: real)
    requires
        distance(d, n) <= 10 as real * (eps64() * n) + 10 as real * accuracy::smallest(),
        0 as real <= n,
    ensures
        1_000_000_000_000 as real * distance(d, n) <= n + 1_000_000_000_000 as real * (10 as real
            * accuracy::smallest()),
{
    accuracy::lemma_eps64();
    accuracy::lemma_smallest();
    let e = eps64();
    assert((e * n) * 1_000_000_000_000_000int as real == n) by (nonlinear_arith)
        requires
            e * 1_000_000_000_000_000int as real == 1 as real,
    ;
}

/// The square of the rounded angle, in the exact squared length.
proof fn lemma_ratio_of_squares(n: real, d: real, tt: real)
    requires
        1_000_000_000_000 as real * distance(d, n) <= n + 1_000_000_000_000 as real * (10 as real
            * accuracy::smallest()),
        distance(tt, d) <= d * eps64(),
        tt * 0x1000_0000_0000_0000int as real >= 1 as real,
        0 as real <= n,
    ensures
        100_000_000 as real * distance(tt, n) <= tt,
{
    accuracy::lemma_eps64();
    accuracy::lemma_smallest();
    let e = eps64();
    assert((d * e) * 1_000_000_000_000_000int as real == d) by (nonlinear_arith)
        requires
            e * 1_000_000_000_000_000int as real == 1 as real,
    ;
}

/// A coordinate of the exact axis, and its part in the squared length.
proof fn lemma_coordinate(x: real, t: real)
    requires
        t * 0x4000_0000int as real >= 1 as real,
    ensures
        ({
            let r = x / t;
            (r * r) * (t * t) == x * x
        }),
{
    let r = x / t;
    assert(r * t == x) by (nonlinear_arith)
        requires
            r == x / t,
            t * 0x4000_0000int as real >= 1 as real,
    ;
    algebra::lemma_commute(r, t);
    lemma_shared(r, t, r);
    algebra::lemma_commute(r * r, t * t);
}

/// The square of a number near another.
proof fn lemma_square_near(k: real, r: real)
    requires
        distance(k, r) <= eps64() * (size(r) + 1 as real),
        size(r) <= 2 as real,
    ensures
        distance(k * k, r * r) <= 15 as real * eps64(),
        size(k) <= 3 as real,
{
    let e = eps64();
    accuracy::lemma_eps64();
    let b = size(r) + 1 as real;
    assert(e * b <= 3 as real * e) by (nonlinear_arith)
        requires
            b <= 3 as real,
            e >= 0 as real,
    ;
    let (three, five) = (3 as real * e, 5 as real);
    accuracy::lemma_product_bound(k - r, k + r, three, five);
    assert(three * five == 15 as real * e) by (nonlinear_arith)
        requires
            three == 3 as real * e,
            five == 5 as real,
    ;
    algebra::lemma_two_by_two(k, r, k, r);
    algebra::lemma_commute(k, r);
}

/// The axis of a twist that is not tiny is about one in length.
proof fn lemma_axis_length(x: Twist)
    requires
        is_moderate(x),
        !twist_angle(x).lt(F64 { bits: TINY }),
    ensures
        ({
            let t = twist_angle(x);
            let (kx, ky, kz) = (x.alpha.over(t), x.beta.over(t), x.gamma.over(t));
            &&& kx.finite() && ky.finite() && kz.finite()
            &&& 10_000_000 as real * distance(
                squared(real64(kx), real64(ky), real64(kz)),
                1 as real,
            ) <= 1 as real
        }),
{
    let theta = twist_angle(x);
    let t = real64(theta);
    lemma_angle_squared(x);
    lemma_vector(x);
    lemma_coordinate(real64(x.alpha), t);
    lemma_coordinate(real64(x.beta), t);
    lemma_coordinate(real64(x.gamma), t);
    let (a, b, c) = (real64(x.alpha) / t, real64(x.beta) / t, real64(x.gamma) / t);
    let (l, tt, n) = (squared(a, b, c), t * t, vector_squared(x));
    algebra::lemma_distribute_three(a * a, b * b, c * c, tt);
    assert(l * tt == n);
    assert(tt > 0 as real) by (nonlinear_arith)
        requires
            tt == t * t,
            t * 0x4000_0000int as real >= 1 as real,
    ;
    let up = 100_000_000 as real * (l - 1 as real);
    assert(up * tt == 100_000_000 as real * (l * tt) - 100_000_000 as real * tt) by (nonlinear_arith)
        requires
            up == 100_000_000 as real * (l - 1 as real),
    ;
    assert(up <= 1 as real && -up <= 1 as real) by (nonlinear_arith)
        requires
            up * tt <= tt,
            -(up * tt) <= tt,
            tt > 0 as real,
    ;
    lemma_outer_bounds(a, b, c);
    accuracy::lemma_eps64();
    accuracy::near_over(x.alpha, theta);
    accuracy::near_over(x.beta, theta);
    accuracy::near_over(x.gamma, theta);
    lemma_square_near(real64(x.alpha.over(theta)), a);
    lemma_square_near(real64(x.beta.over(theta)), b);
    lemma_square_near(real64(x.gamma.over(theta)), c);
}

/// A tiny angle belongs to a short rotation vector.
proof fn lemma_short(x: Twist)
    requires
        is_moderate(x),
        twist_angle(x).lt(F64 { bits: TINY }),
    ensures
        10_000_000 as real * vector_squared(x) <= 1 as real,
{
    let n = vector_squared(x);
    if 10_000_000 as real * n > 1 as real {
        let v = V3::new(x.alpha, x.beta, x.gamma);
        let d = v.dot(v);
        let theta = twist_angle(x);
        lemma_vector(x);
        accuracy::lemma_smallest();
        lemma_sums(n, real64(d));
        assert(100_000_000 as real * real64(d) >= 1 as real);
        accuracy::near_sqrt(d);
        lemma_tiny();
        accuracy::lemma_order(theta, F64 { bits: TINY });
        let t = real64(theta);
        accuracy::lemma_eps64();
        let (e, dr) = (eps64(), real64(d));
        assert((dr * e) * 1_000_000_000_000_000int as real == dr) by (nonlinear_arith)
            requires
                e * 1_000_000_000_000_000int as real == 1 as real,
        ;
        assert(t * t * 0x2000_0000int as real <= 1 as real) by (nonlinear_arith)
            requires
                0 as real <= t,
                t * 0x2000_0000int as real <= 1 as real,
        ;
    }
}

/// To first order, the transpose of a small rotation undoes it.
proof fn lemma_undone_to_first_order(x: real, y: real, z: real, off: real)
    requires
        squared(x, y, z) <= off,
        off <= 1 as real,
    ensures
        ({
            let r = turned_by(x, y, z, 1 as real, 1 as real, 0 as real);
            is_identity(product(transpose(r), r), 2 as real * off)
        }),
{
    let (zero, one) = (0 as real, 1 as real);
    let l = squared(x, y, z);
    let (i, k, p, o) = (identity(), skew(x, y, z), outer(x, y, z), nothing());
    lemma_expanded(x, y, z, one, one, zero);
    lemma_between(x, y);
    lemma_between(x, z);
    lemma_between(y, z);
    lemma_small_entry(l, i.a, k.a, p.a, o.a, off);
    lemma_small_entry(l, i.b, k.b, p.b, o.b, off);
    lemma_small_entry(l, i.c, k.c, p.c, o.c, off);
    lemma_small_entry(l, i.d, k.d, p.d, o.d, off);
    lemma_small_entry(l, i.e, k.e, p.e, o.e, off);
    lemma_small_entry(l, i.f, k.f, p.f, o.f, off);
    lemma_small_entry(l, i.g, k.g, p.g, o.g, off);
    lemma_small_entry(l, i.h, k.h, p.h, o.h, off);
    lemma_small_entry(l, i.i, k.i, p.i, o.i, off);
}

/// An entry of such a product.
proof fn lemma_small_entry(l: real, i: real, k: real, p: real, o: real, off: real)
    requires
        0 as real <= l <= off,
        i == 0 as real || i == 1 as real,
        size(p) <= off,
        o == 0 as real * i,
    ensures
        ({
            let (zero, one) = (0 as real, 1 as real);
            let r = one * i + (one * k + zero * p);
            let kr = one * k + (one * (p + (-l) * i) + zero * o);
            let pr = one * p + (one * o + zero * (l * p));
            distance(one * r + ((-one) * kr + zero * pr), i) <= 2 as real * off
        }),
{
    let (zero, one) = (0 as real, 1 as real);
    algebra::lemma_factors(i);
    algebra::lemma_factors(k);
    algebra::lemma_factors(p);
    algebra::lemma_factors(o);
    algebra::lemma_factors(l * p);
    algebra::lemma_factors(p + (-l) * i);
    algebra::lemma_factors(-l);
    let r = one * i + (one * k + zero * p);
    let kr = one * k + (one * (p + (-l) * i) + zero * o);
    let pr = one * p + (one * o + zero * (l * p));
    algebra::lemma_factors(r);
    algebra::lemma_factors(kr);
    algebra::lemma_factors(pr);
    algebra::lemma_signs(one, kr);
}

/// The rotation of a tiny twist is exact to first order.
proof fn near_small_rotation(x: Twist)
    requires
        is_moderate(x),
        twist_angle(x).lt(F64 { bits: TINY }),
    ensures
        is_near(
            twist_rotation(x, twist_angle(x), F64 { bits: ONE }, F64 { bits: ONE }),
            turned_by(
                real64(x.alpha),
                real64(x.beta),
                real64(x.gamma),
                1 as real,
                1 as real,
                0 as real,
            ),
            300 as real * eps64(),
        ),
{
    accuracy::lemma_eps64();
    lemma_vector(x);
    accuracy::lemma_one64();
    let zero = 0 as real;
    let (a, b, c) = (real64(x.alpha), real64(x.beta), real64(x.gamma));
    accuracy::lemma_negated64(x.alpha, a, zero);
    accuracy::lemma_negated64(x.beta, b, zero);
    accuracy::lemma_negated64(x.gamma, c, zero);
    algebra::lemma_factors(a);
    algebra::lemma_factors(b);
    algebra::lemma_factors(c);
    algebra::lemma_factors(-a);
    algebra::lemma_factors(-b);
    algebra::lemma_factors(-c);
    algebra::lemma_factors(zero);
    algebra::lemma_factors(1 as real);
    let p = outer(a, b, c);
    algebra::lemma_factors(p.a);
    algebra::lemma_factors(p.b);
    algebra::lemma_factors(p.c);
    algebra::lemma_factors(p.e);
    algebra::lemma_factors(p.f);
    algebra::lemma_factors(p.i);
}

/// A twist turns about its own axis: each entry of its rotation is, up to rounding, what the axis, the
/// cosine and the sine give, the products of the axis times one less the cosine, the cosine added
/// in the diagonal and the axis times the sine beside it, with its sign.
pub proof fn twists_turn_about_their_axis(x: Twist, cosine: F64, sine: F64)
    requires
        is_moderate(x),
        !twist_angle(x).lt(F64 { bits: TINY }),
        cosine.finite(),
        sine.finite(),
        size(real64(cosine)) <= 2 as real,
        size(real64(sine)) <= 2 as real,
    ensures
        ({
            let r = twist_rotation(x, twist_angle(x), cosine, sine);
            let (a, b, c) = (
                real64(x.alpha.over(twist_angle(x))),
                real64(x.beta.over(twist_angle(x))),
                real64(x.gamma.over(twist_angle(x))),
            );
            let (u, v) = (real64(cosine), real64(sine));
            let (w, t) = (1 as real - u, 300 as real * eps64());
            &&& near64(r.r0.x, u + w * (a * a), t)
            &&& near64(r.r1.y, u + w * (b * b), t)
            &&& near64(r.r2.z, u + w * (c * c), t)
            &&& near64(r.r1.x, v * c + w * (a * b), t)
            &&& near64(r.r0.y, -(v * c) + w * (a * b), t)
            &&& near64(r.r0.z, v * b + w * (a * c), t)
            &&& near64(r.r2.x, -(v * b) + w * (a * c), t)
            &&& near64(r.r2.y, v * a + w * (b * c), t)
            &&& near64(r.r1.z, -(v * a) + w * (b * c), t)
            &&& 10_000_000 as real * distance(a * a + b * b + c * c, 1 as real) <= 1 as real
        }),
{
    let theta = twist_angle(x);
    let (kx, ky, kz) = (x.alpha.over(theta), x.beta.over(theta), x.gamma.over(theta));
    lemma_axis_length(x);
    lemma_outer_bounds(real64(kx), real64(ky), real64(kz));
    let (one, e) = (F64 { bits: ONE }, eps64());
    accuracy::lemma_eps64();
    accuracy::lemma_one64();
    let (zero, unit, two) = (0 as real, 1 as real, 2 as real);
    let (v, w) = (one.minus(cosine), unit - real64(cosine));
    accuracy::near_minus(one, unit, zero, unit, cosine, real64(cosine), zero, two);
    assert(e * (2 as real * unit + 2 as real * two) == 6 as real * e) by (nonlinear_arith)
        requires
            unit == 1 as real,
            two == 2 as real,
    ;
    near_entry(kx, kx, v, w, kx, cosine);
    near_entry(ky, ky, v, w, kx, cosine);
    near_entry(kz, kz, v, w, kx, cosine);
    near_entry(kx, ky, v, w, kz, sine);
    near_entry(kx, kz, v, w, ky, sine);
    near_entry(ky, kz, v, w, kx, sine);
}

/// Opposite twists undo each other: their rotations are transposes, and the exact product of the
/// two is the identity within one part in a hundred thousand, wherever the squared length of the
/// rotation vector is finite and the given cosine and sine lie on the circle within one part in ten
/// million.
pub proof fn opposite_twists_undo_each_other(x: Twist, cosine: F64, sine: F64)
    requires
        is_moderate(x),
        cosine.finite(),
        sine.finite(),
        distance(
            real64(cosine) * real64(cosine) + real64(sine) * real64(sine),
            1 as real,
        ) <= accuracy::ratio(1, 10_000_000),
    ensures
        ({
            let y = opposite(x);
            let m = Mat4::assembled(twist_rotation(x, twist_angle(x), cosine, sine), x.t);
            let n = Mat4::assembled(twist_rotation(y, twist_angle(y), cosine, sine), y.t);
            let (a, b) = (rigidity::entries_of(m), rigidity::entries_of(n));
            &&& b == transpose(a)
            &&& is_identity(product(b, a), accuracy::ratio(1, 100_000))
        }),
{
    lemma_vector(x);
    pose::opposite_twists_are_transposed(x, cosine, sine);
    let theta = twist_angle(x);
    let r = twist_rotation(x, theta, cosine, sine);
    let u = accuracy::ratio(1, 10_000_000);
    let big = accuracy::ratio(1, 100_000);
    assert(u * 10_000_000int as real == 1 as real) by (nonlinear_arith)
        requires
            u == (1int as real) / (10_000_000int as real),
    ;
    assert(big * 100_000int as real == 1 as real) by (nonlinear_arith)
        requires
            big == (1int as real) / (100_000int as real),
    ;
    let n = rigidity::entries_of(Mat4::assembled(r, x.t));
    if theta.lt(F64 { bits: TINY }) {
        lemma_short(x);
        near_small_rotation(x);
        lemma_undone_to_first_order(real64(x.alpha), real64(x.beta), real64(x.gamma), u);
        let exact = turned_by(
            real64(x.alpha),
            real64(x.beta),
            real64(x.gamma),
            1 as real,
            1 as real,
            0 as real,
        );
        lemma_narrowed(r, exact, 2 as real * u, x.t);
    } else {
        lemma_axis_length(x);
        let (kx, ky, kz) = (x.alpha.over(theta), x.beta.over(theta), x.gamma.over(theta));
        let (a, b, c) = (real64(kx), real64(ky), real64(kz));
        lemma_unit_pair(real64(cosine), real64(sine), u);
        lemma_outer_bounds(a, b, c);
        near_rotation(kx, ky, kz, cosine, sine);
        lemma_undone(a, b, c, real64(cosine), real64(sine), u, u);
        assert(r == rounded(kx, ky, kz, cosine, sine));
        let exact = rotation(a, b, c, real64(cosine), real64(sine));
        lemma_narrowed(r, exact, 3 as real * u + 20 as real * u, x.t);
    }
}

} // verus!
