//! Rotating a vector by a quaternion is turning it about the axis.

use vstd::prelude::*;

use crate::algebra;
use crate::float::accuracy;
use crate::float::accuracy::{eps64, near64, real64, size};
use crate::float::double::F64;
use crate::geometry::{Quat, TWO, V3};
use crate::rigidity;

verus! {

/// The product of a small number and one near another.
proof fn near_scaled(x: F64, s: F64, se: real, d: real, b: real)
    requires
        x.finite(),
        size(real64(x)) <= 2 as real,
        near64(s, se, d),
        size(se) <= b,
        1 as real <= b <= 10_000_000 as real,
        10 as real * d <= b,
    ensures
        near64(x.times(s), real64(x) * se, 2 as real * d + 9 as real * (eps64() * b)),
        near64(s.times(x), se * real64(x), 4 as real * d + 9 as real * (eps64() * b)),
        size(real64(x) * se) <= 2 as real * b,
        se * real64(x) == real64(x) * se,
{
    let (e, zero, two) = (eps64(), 0 as real, 2 as real);
    accuracy::lemma_eps64();
    accuracy::near_times(x, real64(x), zero, two, s, se, d, b);
    accuracy::near_times(s, se, d, b, x, real64(x), zero, two);
    accuracy::lemma_product_bound(real64(x), se, two, b);
    algebra::lemma_commute(se, real64(x));
    assert(e * (4 as real * two * b + 1 as real) <= 9 as real * (e * b) && e * (4 as real * b * two
        + 1 as real) <= 9 as real * (e * b) && two * d + 2 as real * b * zero == 2 as real * d && b
        * zero + 2 as real * two * d == 4 as real * d) by (nonlinear_arith)
        requires
            two == 2 as real,
            zero == 0 as real,
            e >= 0 as real,
            b >= 1 as real,
    ;
}

/// A coordinate of a vector product with a vector of small coordinates.
proof fn near_cross_part(x: F64, t: F64, te: real, y: F64, s: F64, se: real, d: real, b: real)
    requires
        x.finite() && y.finite(),
        size(real64(x)) <= 2 as real,
        size(real64(y)) <= 2 as real,
        near64(s, se, d),
        near64(t, te, d),
        size(se) <= b,
        size(te) <= b,
        1 as real <= b <= 10_000_000 as real,
        10 as real * d <= b,
    ensures
        near64(
            x.times(t).minus(y.times(s)),
            real64(x) * te - real64(y) * se,
            4 as real * d + 26 as real * (eps64() * b),
        ),
        size(real64(x) * te - real64(y) * se) <= 4 as real * b,
{
    let e = eps64();
    accuracy::lemma_eps64();
    near_scaled(x, t, te, d, b);
    near_scaled(y, s, se, d, b);
    let (m, c) = (2 as real * d + 9 as real * (e * b), 2 as real * b);
    assert(e * b * 1_000_000_000_000_000int as real == b) by (nonlinear_arith)
        requires
            e * 1_000_000_000_000_000int as real == 1 as real,
    ;
    accuracy::near_minus(x.times(t), real64(x) * te, m, c, y.times(s), real64(y) * se, m, c);
    assert(e * (2 as real * c + 2 as real * c) == 8 as real * (e * b)) by (nonlinear_arith)
        requires
            c == 2 as real * b,
    ;
}

/// Rotating by a quaternion with parts of at most two yields, up to rounding, the vector plus twice the
/// scalar part times the vector product of the quaternion's vector with it, plus twice that vector's
/// product with the vector product.
pub proof fn rotating_is_nearly_exact(q: Quat, v: V3, b: real)
    requires
        q.w.finite() && q.i.finite() && q.j.finite() && q.k.finite(),
        v.x.finite() && v.y.finite() && v.z.finite(),
        size(real64(q.w)) <= 2 as real,
        size(real64(q.i)) <= 2 as real,
        size(real64(q.j)) <= 2 as real,
        size(real64(q.k)) <= 2 as real,
        size(real64(v.x)) <= b,
        size(real64(v.y)) <= b,
        size(real64(v.z)) <= b,
        1 as real <= b <= 1_000_000 as real,
    ensures
        ({
            let (w, i, j, k) = (real64(q.w), real64(q.i), real64(q.j), real64(q.k));
            let (x, y, z) = (real64(v.x), real64(v.y), real64(v.z));
            let (cx, cy, cz) = (j * z - k * y, k * x - i * z, i * y - j * x);
            let (r, two, tol) = (q.rotate(v), 2 as real, 2000 as real * (eps64() * b));
            &&& near64(r.x, x + w * (two * cx) + (j * (two * cz) - k * (two * cy)), tol)
            &&& near64(r.y, y + w * (two * cy) + (k * (two * cx) - i * (two * cz)), tol)
            &&& near64(r.z, z + w * (two * cz) + (i * (two * cy) - j * (two * cx)), tol)
        }),
{
    let e = eps64();
    accuracy::lemma_eps64();
    let zero = 0 as real;
    let (w, i, j, k) = (real64(q.w), real64(q.i), real64(q.j), real64(q.k));
    let (x, y, z) = (real64(v.x), real64(v.y), real64(v.z));
    let (cx, cy, cz) = (j * z - k * y, k * x - i * z, i * y - j * x);
    near_cross_part(q.j, v.z, z, q.k, v.y, y, zero, b);
    near_cross_part(q.k, v.x, x, q.i, v.z, z, zero, b);
    near_cross_part(q.i, v.y, y, q.j, v.x, x, zero, b);
    let c = q.vector().cross(v);
    near_twisted(c.x, cx, b);
    near_twisted(c.y, cy, b);
    near_twisted(c.z, cz, b);
    let t = q.twist(v);
    let (tx, ty, tz) = (2 as real * cx, 2 as real * cy, 2 as real * cz);
    let (d, big) = (140 as real * (e * b), 8 as real * b);
    assert(e * b * 1_000_000_000_000_000int as real == b && e * big == 8 as real * (e * b))
        by (nonlinear_arith)
        requires
            e * 1_000_000_000_000_000int as real == 1 as real,
            big == 8 as real * b,
    ;
    near_cross_part(q.j, t.z, tz, q.k, t.y, ty, d, big);
    near_cross_part(q.k, t.x, tx, q.i, t.z, tz, d, big);
    near_cross_part(q.i, t.y, ty, q.j, t.x, tx, d, big);
    let u = q.vector().cross(t);
    near_moved(t.x, tx, q.w, u.x, j * tz - k * ty, v.x, b);
    near_moved(t.y, ty, q.w, u.y, k * tx - i * tz, v.y, b);
    near_moved(t.z, tz, q.w, u.z, i * ty - j * tx, v.z, b);
}

/// Twice a coordinate of a vector product.
proof fn near_twisted(c: F64, ce: real, b: real)
    requires
        near64(c, ce, 26 as real * (eps64() * b)),
        size(ce) <= 4 as real * b,
        1 as real <= b <= 1_000_000 as real,
    ensures
        near64(c.times(F64 { bits: TWO }), 2 as real * ce, 140 as real * (eps64() * b)),
        size(2 as real * ce) <= 8 as real * b,
{
    let e = eps64();
    accuracy::lemma_eps64();
    rigidity::lemma_two();
    let (d, big) = (26 as real * (e * b), 4 as real * b);
    assert(e * b * 1_000_000_000_000_000int as real == b && e * big == 4 as real * (e * b))
        by (nonlinear_arith)
        requires
            e * 1_000_000_000_000_000int as real == 1 as real,
            big == 4 as real * b,
    ;
    near_scaled(F64 { bits: TWO }, c, ce, d, big);
}

/// The sum of a scaled coordinate, one of a vector product and one of the vector.
proof fn near_moved(t: F64, te: real, w: F64, u: F64, ue: real, v: F64, b: real)
    requires
        w.finite() && v.finite(),
        size(real64(w)) <= 2 as real,
        size(real64(v)) <= b,
        near64(t, te, 140 as real * (eps64() * b)),
        size(te) <= 8 as real * b,
        near64(u, ue, 768 as real * (eps64() * b)),
        size(ue) <= 32 as real * b,
        1 as real <= b <= 1_000_000 as real,
    ensures
        near64(
            t.times(w).plus(u).plus(v),
            real64(v) + real64(w) * te + ue,
            2000 as real * (eps64() * b),
        ),
{
    let (e, zero) = (eps64(), 0 as real);
    accuracy::lemma_eps64();
    let (d, big) = (140 as real * (e * b), 8 as real * b);
    let f = e * b;
    assert(f * 1_000_000_000_000_000int as real == b && e * big == 8 as real * f) by (nonlinear_arith)
        requires
            e * 1_000_000_000_000_000int as real == 1 as real,
            big == 8 as real * b,
            f == e * b,
    ;
    near_scaled(w, t, te, d, big);
    let s = te * real64(w);
    let (m1, m2) = (632 as real * f, 768 as real * f);
    let (b1, b2, b3) = (16 as real * b, 32 as real * b, 48 as real * b);
    accuracy::near_plus(t.times(w), s, m1, b1, u, ue, m2, b2);
    assert(e * (2 as real * b1 + 2 as real * b2) == 96 as real * f && e * (2 as real * b3 + 2 as real
        * b) == 98 as real * f) by (nonlinear_arith)
        requires
            b1 == 16 as real * b,
            b2 == 32 as real * b,
            b3 == 48 as real * b,
            f == e * b,
    ;
    let m3 = 1496 as real * f;
    accuracy::near_plus(t.times(w).plus(u), s + ue, m3, b3, v, real64(v), zero, b);
}

} // verus!
