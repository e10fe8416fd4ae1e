//! Moving clouds, up to rounding.

use vstd::prelude::*;

use crate::algebra;
use crate::cloud::P3;
use crate::float::accuracy;
use crate::float::accuracy::{distance, eps32, near32, real32, size, smallest32};
use crate::float::arith;
use crate::float::single::F32;
use crate::pose;
use crate::pose::{mat4_mul, translated, Mat4, Row4};

verus! {

/// The exact product of a row of a rotation with a point.
pub open spec fn turned_exactly(row: Row4, p: P3) -> real {
    real32(row.x) * real32(p.x) + real32(row.y) * real32(p.y) + real32(row.z) * real32(p.z)
}

/// The row is the point turned by the rotation of the pose, within `err`.
pub open spec fn is_turned(row: P3, p: P3, m: Mat4, err: real) -> bool {
    &&& near32(row.x, turned_exactly(m.r0, p), err)
    &&& near32(row.y, turned_exactly(m.r1, p), err)
    &&& near32(row.z, turned_exactly(m.r2, p), err)
}

/// The coordinates are finite.
pub open spec fn is_finite(p: P3) -> bool {
    p.x.finite() && p.y.finite() && p.z.finite()
}

/// The numbers of the row are finite.
pub open spec fn is_finite_row(r: Row4) -> bool {
    r.x.finite() && r.y.finite() && r.z.finite() && r.w.finite()
}

/// How far a row of a pose can carry what is at most `x`, `y` and `z` in size.
pub open spec fn reach(r: Row4, x: real, y: real, z: real) -> real {
    size(real32(r.x)) * x + size(real32(r.y)) * y + size(real32(r.z)) * z + size(real32(r.w))
}

/// How far a row of a pose can carry a point.
pub open spec fn point_reach(r: Row4, p: P3) -> real {
    reach(r, size(real32(p.x)), size(real32(p.y)), size(real32(p.z)))
}

/// How far a row of a pose can carry a point that was moved by another pose.
pub open spec fn double_reach(r: Row4, b: Mat4, p: P3) -> real {
    reach(r, point_reach(b.r0, p), point_reach(b.r1, p), point_reach(b.r2, p))
}

/// The sum of the sizes of the first three numbers of a row.
pub open spec fn row_size(r: Row4) -> real {
    size(real32(r.x)) + size(real32(r.y)) + size(real32(r.z))
}

/// The sum of the sizes of the coordinates.
pub open spec fn point_size(p: P3) -> real {
    size(real32(p.x)) + size(real32(p.y)) + size(real32(p.z))
}

/// How far a coordinate that was moved twice can be from the one moved once by the product: a few
/// times the error of the turned rows, a few roundings of what the poses can make of the point, and
/// a few of the smallest numbers.
pub open spec fn tolerance(r: Row4, b: Mat4, p: P3, err: real) -> real {
    4 as real * err + 4 as real * (err * row_size(r)) + 50 as real * (eps32() * double_reach(r, b, p))
        + 50 as real * (smallest32() + smallest32() * point_size(p))
}

/// The exact product of two rows.
spec fn dot_exactly(r: Row4, c: Row4) -> real {
    real32(r.x) * real32(c.x) + real32(r.y) * real32(c.y) + real32(r.z) * real32(c.z) + real32(r.w)
        * real32(c.w)
}

/// The sum of the sizes of the products of two rows.
spec fn dot_size(r: Row4, c: Row4) -> real {
    size(real32(r.x)) * size(real32(c.x)) + size(real32(r.y)) * size(real32(c.y)) + size(
        real32(r.z),
    ) * size(real32(c.z)) + size(real32(r.w)) * size(real32(c.w))
}

/// The relative error of 32-bit operations.
proof fn lemma_constants()
    ensures
        eps32() * 100_000_000int as real == 6 as real,
        (0 as real) < smallest32(),
{
    accuracy::lemma_eps32();
    accuracy::lemma_smallest32();
}

/// A rounding of a number is a small part of it.
proof fn lemma_part(x: real)
    requires
        0 as real <= x,
    ensures
        0 as real <= eps32() * x,
        1_000_000int as real * (eps32() * x) <= x,
{
    let e = eps32();
    lemma_constants();
    assert(0 as real <= e * x && 1_000_000int as real * (e * x) <= x) by (nonlinear_arith)
        requires
            e * 100_000_000int as real == 6 as real,
            x >= 0 as real,
    ;
}

/// A rounding of a number is at most one of a bound.
proof fn lemma_part_bound(x: real, b: real)
    requires
        x <= b,
    ensures
        eps32() * x <= eps32() * b,
{
    let e = eps32();
    lemma_constants();
    assert(e * x <= e * b) by (nonlinear_arith)
        requires
            e * 100_000_000int as real == 6 as real,
            x <= b,
    ;
}

/// A rounding of a sum.
proof fn lemma_part_sum(x: real, y: real)
    ensures
        eps32() * (x + y) == eps32() * x + eps32() * y,
        eps32() * (3 as real * x + y) == 3 as real * (eps32() * x) + eps32() * y,
{
    algebra::lemma_distribute(x, y, eps32());
    algebra::lemma_distribute(3 as real * x, y, eps32());
    algebra::lemma_scaled_factor(3 as real, eps32(), x);
}

/// One more term of a rounded sum.
proof fn lemma_term(s: F32, se: real, ds: real, p: F32, pe: real, dp: real, total: real)
    requires
        s.plus(p).finite(),
        near32(s, se, ds),
        near32(p, pe, dp),
        size(se) <= total,
        size(pe) <= total,
        ds <= total / 2 as real + 20 as real * smallest32(),
        dp <= total / 2 as real + 20 as real * smallest32(),
    ensures
        near32(
            s.plus(p),
            se + pe,
            ds + dp + 3 as real * (eps32() * total) + smallest32(),
        ),
{
    let u = smallest32();
    lemma_constants();
    accuracy::plus_errs32(s, p);
    lemma_part_bound(size(real32(s) + real32(p)), 3 as real * total + 40 as real * u);
    lemma_part_sum(total, 40 as real * u);
    lemma_part(40 as real * u);
}

/// The rounded product of two rows, where it stays finite.
proof fn dot_errs(r: Row4, c: Row4)
    requires
        r.dot(c).finite(),
    ensures
        is_finite_row(r),
        is_finite_row(c),
        near32(
            r.dot(c),
            dot_exactly(r, c),
            20 as real * (eps32() * dot_size(r, c)) + 20 as real * smallest32(),
        ),
{
    let zero = F32 { bits: 0 };
    let u = smallest32();
    lemma_constants();
    accuracy::lemma_zero32();
    let (p1, p2, p3, p4) = (r.x.times(c.x), r.y.times(c.y), r.z.times(c.z), r.w.times(c.w));
    let s1 = zero.plus(p1);
    let s2 = s1.plus(p2);
    let s3 = s2.plus(p3);
    accuracy::plus_errs32(s3, p4);
    accuracy::plus_errs32(s2, p3);
    accuracy::plus_errs32(s1, p2);
    accuracy::plus_errs32(zero, p1);
    accuracy::times_errs32(r.x, c.x);
    accuracy::times_errs32(r.y, c.y);
    accuracy::times_errs32(r.z, c.z);
    accuracy::times_errs32(r.w, c.w);
    let (e1, e2, e3, e4) = (
        real32(r.x) * real32(c.x),
        real32(r.y) * real32(c.y),
        real32(r.z) * real32(c.z),
        real32(r.w) * real32(c.w),
    );
    lemma_size(real32(r.x), real32(c.x));
    lemma_size(real32(r.y), real32(c.y));
    lemma_size(real32(r.z), real32(c.z));
    lemma_size(real32(r.w), real32(c.w));
    let total = dot_size(r, c);
    lemma_four_parts(size(e1), size(e2), size(e3), size(e4));
    lemma_part(total);
    let et = eps32() * total;
    let (f1, f2, f3) = (eps32() * size(e1), eps32() * size(e2), eps32() * size(e3));
    lemma_term(zero, 0 as real, 0 as real, p1, e1, f1 + u, total);
    let d1 = f1 + 3 as real * et + 2 as real * u;
    lemma_term(s1, e1, d1, p2, e2, f2 + u, total);
    let d2 = f1 + f2 + 6 as real * et + 4 as real * u;
    lemma_term(s2, e1 + e2, d2, p3, e3, f3 + u, total);
    let d3 = f1 + f2 + f3 + 9 as real * et + 6 as real * u;
    lemma_term(s3, e1 + e2 + e3, d3, p4, e4, eps32() * size(e4) + u, total);
}

/// The size of a product.
proof fn lemma_size(x: real, y: real)
    ensures
        size(x * y) == size(x) * size(y),
        0 as real <= size(x) * size(y),
{
    accuracy::lemma_product_bound(x, y, size(x), size(y));
}

/// Roundings of the parts of a sum.
proof fn lemma_four_parts(a: real, b: real, c: real, d: real)
    requires
        0 as real <= a && 0 as real <= b && 0 as real <= c && 0 as real <= d,
    ensures
        eps32() * (a + b + c + d) == eps32() * a + eps32() * b + eps32() * c + eps32() * d,
        0 as real <= eps32() * a,
        0 as real <= eps32() * b,
        0 as real <= eps32() * c,
        0 as real <= eps32() * d,
{
    algebra::lemma_distribute_four(a, b, c, d, eps32());
    lemma_part(a);
    lemma_part(b);
    lemma_part(c);
    lemma_part(d);
}

/// A coordinate of a point moved by a pose.
proof fn lemma_moved(rot: F32, row: Row4, p: P3, err: real)
    requires
        0 as real <= err,
        rot.plus(row.w).finite(),
        near32(rot, turned_exactly(row, p), err),
    ensures
        row.w.finite(),
        near32(
            rot.plus(row.w),
            turned_exactly(row, p) + real32(row.w),
            2 as real * err + eps32() * point_reach(row, p),
        ),
        size(turned_exactly(row, p) + real32(row.w)) <= point_reach(row, p),
{
    accuracy::plus_errs32(rot, row.w);
    lemma_size(real32(row.x), real32(p.x));
    lemma_size(real32(row.y), real32(p.y));
    lemma_size(real32(row.z), real32(p.z));
    let j = point_reach(row, p);
    lemma_part_bound(size(real32(rot) + real32(row.w)), j + err);
    lemma_part_sum(j, err);
    lemma_part(err);
}

/// A product moves with its second factor.
proof fn lemma_factor_moved(a: real, x: real, y: real, err: real, j: real)
    requires
        distance(x, y) <= 2 as real * err + eps32() * j,
        size(y) <= j,
    ensures
        distance(a * x, a * y) <= 2 as real * (err * size(a)) + eps32() * (size(a) * j),
        size(a * y) <= size(a) * j,
{
    let t = 2 as real * err + eps32() * j;
    accuracy::lemma_product_bound(a, x - y, size(a), t);
    algebra::lemma_difference(x, y, a);
    algebra::lemma_distribute(2 as real * err, eps32() * j, size(a));
    algebra::lemma_scaled_factor(eps32(), size(a), j);
    algebra::lemma_scaled_factor(2 as real, size(a), err);
    algebra::lemma_commute(size(a), err);
    accuracy::lemma_product_bound(a, y, size(a), j);
}

/// A coordinate of a moved point, moved once more.
proof fn lemma_second(a: Row4, b: Mat4, p: P3, q: P3, ra: F32, err: real)
    requires
        0 as real <= err,
        ra.plus(a.w).finite(),
        near32(ra, turned_exactly(a, q), err),
        near32(
            q.x,
            turned_exactly(b.r0, p) + real32(b.r0.w),
            2 as real * err + eps32() * point_reach(b.r0, p),
        ),
        near32(
            q.y,
            turned_exactly(b.r1, p) + real32(b.r1.w),
            2 as real * err + eps32() * point_reach(b.r1, p),
        ),
        near32(
            q.z,
            turned_exactly(b.r2, p) + real32(b.r2.w),
            2 as real * err + eps32() * point_reach(b.r2, p),
        ),
        size(turned_exactly(b.r0, p) + real32(b.r0.w)) <= point_reach(b.r0, p),
        size(turned_exactly(b.r1, p) + real32(b.r1.w)) <= point_reach(b.r1, p),
        size(turned_exactly(b.r2, p) + real32(b.r2.w)) <= point_reach(b.r2, p),
    ensures
        near32(
            ra.plus(a.w),
            moved_exactly(a, b, p),
            2 as real * err + 4 as real * (err * row_size(a)) + 3 as real * (eps32() * double_reach(
                a,
                b,
                p,
            )),
        ),
        0 as real <= double_reach(a, b, p),
{
    accuracy::plus_errs32(ra, a.w);
    let (e1, e2, e3) = (
        turned_exactly(b.r0, p) + real32(b.r0.w),
        turned_exactly(b.r1, p) + real32(b.r1.w),
        turned_exactly(b.r2, p) + real32(b.r2.w),
    );
    let (j1, j2, j3) = (point_reach(b.r0, p), point_reach(b.r1, p), point_reach(b.r2, p));
    let (a1, a2, a3) = (real32(a.x), real32(a.y), real32(a.z));
    lemma_factor_moved(a1, real32(q.x), e1, err, j1);
    lemma_factor_moved(a2, real32(q.y), e2, err, j2);
    lemma_factor_moved(a3, real32(q.z), e3, err, j3);
    let m = double_reach(a, b, p);
    let (m1, m2, m3, m4) = (size(a1) * j1, size(a2) * j2, size(a3) * j3, size(real32(a.w)));
    lemma_four_parts(m1, m2, m3, m4);
    algebra::lemma_distribute_three(size(a1), size(a2), size(a3), err);
    let ea = err * row_size(a);
    lemma_nonnegative(err, row_size(a));
    lemma_part(m);
    let far = 2 as real * m + (err + 2 as real * ea);
    lemma_part_bound(size(real32(ra) + real32(a.w)), far);
    lemma_part_sum(m, m + (err + 2 as real * ea));
    lemma_part_sum(m, err + 2 as real * ea);
    lemma_part(err + 2 as real * ea);
    algebra::lemma_distribute(2 as real * m, err + 2 as real * ea, eps32());
    algebra::lemma_scaled_factor(2 as real, eps32(), m);
}

/// A product of numbers that are not negative.
proof fn lemma_nonnegative(x: real, y: real)
    requires
        0 as real <= x,
        0 as real <= y,
    ensures
        0 as real <= x * y,
{
    assert(0 as real <= x * y) by (nonlinear_arith)
        requires
            0 as real <= x,
            0 as real <= y,
    ;
}

/// A column of a pose, as the exact product sees it.
proof fn lemma_column(a: Row4, c: Row4)
    requires
        a.dot(c).finite(),
        c.w == (F32 { bits: 0 }) || c.w == (F32 { bits: 0x3f80_0000 }),
    ensures
        is_finite_row(a),
        is_finite_row(c),
        ({
            let w = if c.w == (F32 { bits: 0 }) {
                0 as real
            } else {
                real32(a.w)
            };
            let exact = real32(a.x) * real32(c.x) + real32(a.y) * real32(c.y) + real32(a.z)
                * real32(c.z);
            let s = size(real32(a.x)) * size(real32(c.x)) + size(real32(a.y)) * size(real32(c.y))
                + size(real32(a.z)) * size(real32(c.z)) + size(w);
            &&& near32(
                a.dot(c),
                exact + w,
                20 as real * (eps32() * s) + 20 as real * smallest32(),
            )
            &&& 0 as real <= s
            &&& size(exact + w) <= s
        }),
{
    dot_errs(a, c);
    accuracy::lemma_zero32();
    algebra::lemma_factors(real32(a.w));
    algebra::lemma_factors(size(real32(a.w)));
    lemma_size(real32(a.x), real32(c.x));
    lemma_size(real32(a.y), real32(c.y));
    lemma_size(real32(a.z), real32(c.z));
}

/// A product of a rounded entry and a coordinate.
proof fn lemma_entry_moved(c: real, exact: real, s: real, p: real)
    requires
        distance(c, exact) <= 20 as real * (eps32() * s) + 20 as real * smallest32(),
        size(exact) <= s,
    ensures
        distance(c * p, exact * p) <= 20 as real * (eps32() * (s * size(p))) + 20 as real * (
        smallest32() * size(p)),
        size(exact * p) <= s * size(p),
{
    let u = smallest32();
    let t = 20 as real * (eps32() * s) + 20 as real * u;
    accuracy::lemma_product_bound(c - exact, p, t, size(p));
    accuracy::lemma_product_bound(exact, p, s, size(p));
    algebra::lemma_difference(c, exact, p);
    algebra::lemma_distribute(20 as real * (eps32() * s), 20 as real * u, size(p));
    algebra::lemma_associate(20 as real, eps32() * s, size(p));
    algebra::lemma_associate(20 as real, u, size(p));
    algebra::lemma_associate(eps32(), s, size(p));
}

/// A coordinate moved once by the product, in terms of the rounded entries of the product.
proof fn lemma_once(
    r: Row4,
    p: P3,
    rab: F32,
    c1: real,
    c2: real,
    c3: real,
    w: real,
    s1: real,
    s2: real,
    s3: real,
    sw: real,
    err: real,
)
    requires
        0 as real <= err,
        rab.plus(r.w).finite(),
        near32(rab, turned_exactly(r, p), err),
        near32(r.x, c1, 20 as real * (eps32() * s1) + 20 as real * smallest32()),
        near32(r.y, c2, 20 as real * (eps32() * s2) + 20 as real * smallest32()),
        near32(r.z, c3, 20 as real * (eps32() * s3) + 20 as real * smallest32()),
        near32(r.w, w, 20 as real * (eps32() * sw) + 20 as real * smallest32()),
        size(c1) <= s1,
        size(c2) <= s2,
        size(c3) <= s3,
        size(w) <= sw,
    ensures
        ({
            let m = s1 * size(real32(p.x)) + s2 * size(real32(p.y)) + s3 * size(real32(p.z)) + sw;
            near32(
                rab.plus(r.w),
                c1 * real32(p.x) + c2 * real32(p.y) + c3 * real32(p.z) + w,
                2 as real * err + 45 as real * (eps32() * m) + 45 as real * (smallest32()
                    + smallest32() * point_size(p)),
            )
        }),
{
    let (p1, p2, p3) = (real32(p.x), real32(p.y), real32(p.z));
    lemma_entry_moved(real32(r.x), c1, s1, p1);
    lemma_entry_moved(real32(r.y), c2, s2, p2);
    lemma_entry_moved(real32(r.z), c3, s3, p3);
    let (m1, m2, m3) = (s1 * size(p1), s2 * size(p2), s3 * size(p3));
    let u = smallest32();
    lemma_constants();
    algebra::lemma_distribute_three(size(p1), size(p2), size(p3), u);
    lemma_nonnegative(u, point_size(p));
    lemma_rounded_sum(
        rab,
        r.w,
        turned_exactly(r, p),
        c1 * p1 + c2 * p2 + c3 * p3,
        w,
        m1,
        m2,
        m3,
        sw,
        u * point_size(p),
        err,
    );
}

/// The rounded sum of a turned coordinate and a position, each near an exact one.
proof fn lemma_rounded_sum(
    rab: F32,
    rw: F32,
    turned: real,
    exact: real,
    w: real,
    m1: real,
    m2: real,
    m3: real,
    sw: real,
    up: real,
    err: real,
)
    requires
        0 as real <= err,
        0 as real <= up,
        0 as real <= m1 && 0 as real <= m2 && 0 as real <= m3 && 0 as real <= sw,
        rab.plus(rw).finite(),
        near32(rab, turned, err),
        near32(rw, w, 20 as real * (eps32() * sw) + 20 as real * smallest32()),
        distance(turned, exact) <= 20 as real * (eps32() * m1 + eps32() * m2 + eps32() * m3) + 20
            as real * up,
        size(exact) <= m1 + m2 + m3,
        size(w) <= sw,
    ensures
        near32(
            rab.plus(rw),
            exact + w,
            2 as real * err + 45 as real * (eps32() * (m1 + m2 + m3 + sw)) + 45 as real * (
            smallest32() + up),
        ),
{
    let u = smallest32();
    lemma_constants();
    accuracy::plus_errs32(rab, rw);
    let m = m1 + m2 + m3 + sw;
    lemma_four_parts(m1, m2, m3, sw);
    lemma_part(m);
    let more = err + 20 as real * (u + up);
    lemma_part_bound(size(real32(rab) + real32(rw)), m + (m + more));
    lemma_part_sum(m, m + more);
    lemma_part_sum(m, more);
    lemma_part(more);
}

/// The exact coordinate of a point moved by one pose and a row of another.
spec fn moved_exactly(a: Row4, b: Mat4, p: P3) -> real {
    real32(a.x) * (turned_exactly(b.r0, p) + real32(b.r0.w)) + real32(a.y) * (turned_exactly(b.r1, p)
        + real32(b.r1.w)) + real32(a.z) * (turned_exactly(b.r2, p) + real32(b.r2.w)) + real32(a.w)
}

/// The exact coordinate and how far it can be carried, by the entries of the product.
proof fn lemma_composed(a: Row4, b: Mat4, p: P3)
    ensures
        ({
            let (a1, a2, a3) = (real32(a.x), real32(a.y), real32(a.z));
            let c1 = a1 * real32(b.r0.x) + a2 * real32(b.r1.x) + a3 * real32(b.r2.x);
            let c2 = a1 * real32(b.r0.y) + a2 * real32(b.r1.y) + a3 * real32(b.r2.y);
            let c3 = a1 * real32(b.r0.z) + a2 * real32(b.r1.z) + a3 * real32(b.r2.z);
            let w = a1 * real32(b.r0.w) + a2 * real32(b.r1.w) + a3 * real32(b.r2.w) + real32(a.w);
            c1 * real32(p.x) + c2 * real32(p.y) + c3 * real32(p.z) + w == moved_exactly(a, b, p)
        }),
        ({
            let (a1, a2, a3) = (size(real32(a.x)), size(real32(a.y)), size(real32(a.z)));
            let s1 = a1 * size(real32(b.r0.x)) + a2 * size(real32(b.r1.x)) + a3 * size(
                real32(b.r2.x),
            );
            let s2 = a1 * size(real32(b.r0.y)) + a2 * size(real32(b.r1.y)) + a3 * size(
                real32(b.r2.y),
            );
            let s3 = a1 * size(real32(b.r0.z)) + a2 * size(real32(b.r1.z)) + a3 * size(
                real32(b.r2.z),
            );
            let sw = a1 * size(real32(b.r0.w)) + a2 * size(real32(b.r1.w)) + a3 * size(
                real32(b.r2.w),
            ) + size(real32(a.w));
            s1 * size(real32(p.x)) + s2 * size(real32(p.y)) + s3 * size(real32(p.z)) + sw
                == double_reach(a, b, p)
        }),
{
    let (b0, b1, b2) = (b.r0, b.r1, b.r2);
    algebra::lemma_compose(
        real32(a.x), real32(a.y), real32(a.z), real32(b0.x), real32(b0.y), real32(b0.z),
        real32(b1.x), real32(b1.y), real32(b1.z), real32(b2.x), real32(b2.y), real32(b2.z),
        real32(b0.w), real32(b1.w), real32(b2.w), real32(p.x), real32(p.y), real32(p.z),
    );
    algebra::lemma_compose(
        size(real32(a.x)), size(real32(a.y)), size(real32(a.z)), size(real32(b0.x)),
        size(real32(b0.y)), size(real32(b0.z)), size(real32(b1.x)), size(real32(b1.y)),
        size(real32(b1.z)), size(real32(b2.x)), size(real32(b2.y)), size(real32(b2.z)),
        size(real32(b0.w)), size(real32(b1.w)), size(real32(b2.w)), size(real32(p.x)),
        size(real32(p.y)), size(real32(p.z)),
    );
}

/// A coordinate moved once by the product.
proof fn lemma_by_the_product(a: Row4, b: Mat4, p: P3, rab: F32, err: real)
    requires
        0 as real <= err,
        b.r3 == Mat4::pose_row(),
        near32(rab, turned_exactly(b.left_apply(a), p), err),
        is_finite_row(b.left_apply(a)),
        rab.plus(b.left_apply(a).w).finite(),
    ensures
        near32(
            rab.plus(b.left_apply(a).w),
            moved_exactly(a, b, p),
            2 as real * err + 45 as real * (eps32() * double_reach(a, b, p)) + 45 as real * (
            smallest32() + smallest32() * point_size(p)),
        ),
{
    let c = b.transposed();
    lemma_column(a, c.r0);
    lemma_column(a, c.r1);
    lemma_column(a, c.r2);
    lemma_column(a, c.r3);
    lemma_composed(a, b, p);
    let (a1, a2, a3, at) = (real32(a.x), real32(a.y), real32(a.z), real32(a.w));
    let (b0, b1, b2) = (b.r0, b.r1, b.r2);
    lemma_once(
        b.left_apply(a),
        p,
        rab,
        a1 * real32(b0.x) + a2 * real32(b1.x) + a3 * real32(b2.x),
        a1 * real32(b0.y) + a2 * real32(b1.y) + a3 * real32(b2.y),
        a1 * real32(b0.z) + a2 * real32(b1.z) + a3 * real32(b2.z),
        a1 * real32(b0.w) + a2 * real32(b1.w) + a3 * real32(b2.w) + at,
        size(a1) * size(real32(b0.x)) + size(a2) * size(real32(b1.x)) + size(a3) * size(
            real32(b2.x),
        ),
        size(a1) * size(real32(b0.y)) + size(a2) * size(real32(b1.y)) + size(a3) * size(
            real32(b2.y),
        ),
        size(a1) * size(real32(b0.z)) + size(a2) * size(real32(b1.z)) + size(a3) * size(
            real32(b2.z),
        ),
        size(a1) * size(real32(b0.w)) + size(a2) * size(real32(b1.w)) + size(a3) * size(
            real32(b2.w),
        ) + size(at),
        err,
    );
}

/// A coordinate moved twice, and moved once by the product.
proof fn lemma_moved_twice(
    a: Row4,
    b: Mat4,
    p: P3,
    q: P3,
    rot: P3,
    ra: F32,
    rab: F32,
    err: real,
)
    requires
        0 as real <= err,
        b.r3 == Mat4::pose_row(),
        is_turned(rot, p, b, err),
        q == translated(rot, b),
        is_finite(q),
        near32(ra, turned_exactly(a, q), err),
        near32(rab, turned_exactly(b.left_apply(a), p), err),
        is_finite_row(b.left_apply(a)),
        ra.plus(a.w).finite(),
        rab.plus(b.left_apply(a).w).finite(),
    ensures
        distance(
            real32(ra.plus(a.w)),
            real32(rab.plus(b.left_apply(a).w)),
        ) <= tolerance(a, b, p, err),
{
    lemma_moved(rot.x, b.r0, p, err);
    lemma_moved(rot.y, b.r1, p, err);
    lemma_moved(rot.z, b.r2, p, err);
    lemma_second(a, b, p, q, ra, err);
    lemma_by_the_product(a, b, p, rab, err);
    lemma_part(double_reach(a, b, p));
    lemma_constants();
    lemma_nonnegative(smallest32(), point_size(p));
}

/// Moving by a product is moving twice, up to rounding, wherever nothing overflows: with rows that
/// were turned within `err`, each coordinate of the two results differs by at most `tolerance`,
/// which is relative to the sizes of the matrices and the point.
pub proof fn moving_by_a_product_is_moving_twice(
    a: Mat4,
    b: Mat4,
    p: P3,
    by_b: P3,
    by_a: P3,
    by_ab: P3,
    err: real,
)
    requires
        0 as real <= err,
        b.r3 == Mat4::pose_row(),
        is_turned(by_b, p, b, err),
        is_turned(by_a, translated(by_b, b), a, err),
        is_turned(by_ab, p, mat4_mul(a, b), err),
        is_finite(translated(by_b, b)),
        is_finite(translated(by_a, a)),
        is_finite(translated(by_ab, mat4_mul(a, b))),
        is_finite_row(mat4_mul(a, b).r0),
        is_finite_row(mat4_mul(a, b).r1),
        is_finite_row(mat4_mul(a, b).r2),
    ensures
        ({
            let twice = translated(by_a, a);
            let once = translated(by_ab, mat4_mul(a, b));
            &&& distance(real32(twice.x), real32(once.x)) <= tolerance(a.r0, b, p, err)
            &&& distance(real32(twice.y), real32(once.y)) <= tolerance(a.r1, b, p, err)
            &&& distance(real32(twice.z), real32(once.z)) <= tolerance(a.r2, b, p, err)
        }),
{
    let q = translated(by_b, b);
    lemma_moved_twice(a.r0, b, p, q, by_b, by_a.x, by_ab.x, err);
    lemma_moved_twice(a.r1, b, p, q, by_b, by_a.y, by_ab.y, err);
    lemma_moved_twice(a.r2, b, p, q, by_b, by_a.z, by_ab.z, err);
}

/// The identity turns a point into itself, and moves the turned row nowhere: a row with finite
/// coordinates is given back with the same values, and bit for bit where no coordinate is a negative
/// zero, which becomes a positive one.
pub proof fn identity_moves_nothing(p: P3)
    requires
        is_finite(p),
    ensures
        is_turned(p, p, Mat4::identity(), 0 as real),
        ({
            let q = translated(p, Mat4::identity());
            &&& is_finite(q)
            &&& real32(q.x) == real32(p.x)
            &&& real32(q.y) == real32(p.y)
            &&& real32(q.z) == real32(p.z)
            &&& p.x.bits != 0x8000_0000 && p.y.bits != 0x8000_0000 && p.z.bits != 0x8000_0000
                ==> q == p
        }),
{
    lemma_plus_nothing(p.x);
    lemma_plus_nothing(p.y);
    lemma_plus_nothing(p.z);
    accuracy::lemma_zero32();
    algebra::lemma_factors(real32(p.x));
    algebra::lemma_factors(real32(p.y));
    algebra::lemma_factors(real32(p.z));
}

/// Adding zero changes no value.
proof fn lemma_plus_nothing(x: F32)
    requires
        x.finite(),
    ensures
        x.plus(F32 { bits: 0 }).finite(),
        real32(x.plus(F32 { bits: 0 })) == real32(x),
        x.bits != 0x8000_0000 ==> x.plus(F32 { bits: 0 }) == x,
{
    if x.bits == 0x8000_0000 {
        reveal(F32::spec_plus);
        arith::lemma_units_zero(24);
        assert(x.plus(F32 { bits: 0 }) == (F32 { bits: 0 }));
        assert(x.value() == 0 && (F32 { bits: 0 }).value() == 0);
    } else {
        pose::lemma_plus_zero(x, F32 { bits: 0 });
    }
}

} // verus!
