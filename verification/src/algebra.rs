//! Identities of real numbers.

use vstd::prelude::*;

verus! {

/// The squared length of a quaternion of real numbers.
pub open spec fn norm2(w: real, i: real, j: real, k: real) -> real {
    w * w + i * i + j * j + k * k
}

/// A product with a sum, and with a negated number.
pub proof fn lemma_distribute(x: real, y: real, z: real)
    ensures
        (x + y) * z == x * z + y * z,
        z * (x + y) == z * x + z * y,
        x * (-z) == -(x * z),
        (-x) * z == -(x * z),
{
    assert((x + y) * z == x * z + y * z) by (nonlinear_arith);
    assert(z * (x + y) == z * x + z * y) by (nonlinear_arith);
    assert(x * (-z) == -(x * z)) by (nonlinear_arith);
    assert((-x) * z == -(x * z)) by (nonlinear_arith);
}

/// A product with a sum of four.
pub proof fn lemma_distribute_four(a: real, b: real, c: real, d: real, n: real)
    ensures
        (a + b + c + d) * n == a * n + b * n + c * n + d * n,
        n * (a + b + c + d) == n * a + n * b + n * c + n * d,
{
    lemma_distribute(a + b + c, d, n);
    lemma_distribute(a + b, c, n);
    lemma_distribute(a, b, n);
}

/// The square of a sum of four.
pub proof fn lemma_square_of_four(p: real, q: real, r: real, s: real)
    ensures
        (p + q + r + s) * (p + q + r + s) == p * p + q * q + r * r + s * s + 2 as real * (p * q) + 2
            as real * (p * r) + 2 as real * (p * s) + 2 as real * (q * r) + 2 as real * (q * s) + 2
            as real * (r * s),
{
    let t = p + q + r + s;
    lemma_distribute_four(p, q, r, s, t);
    lemma_distribute_four(p, q, r, s, p);
    lemma_distribute_four(p, q, r, s, q);
    lemma_distribute_four(p, q, r, s, r);
    lemma_distribute_four(p, q, r, s, s);
    lemma_commute(p, q);
    lemma_commute(p, r);
    lemma_commute(p, s);
    lemma_commute(q, r);
    lemma_commute(q, s);
    lemma_commute(r, s);
}

pub proof fn lemma_commute(x: real, y: real)
    ensures
        x * y == y * x,
{
    assert(x * y == y * x) by (nonlinear_arith);
}

/// The signs of products.
pub proof fn lemma_signs(x: real, y: real)
    ensures
        x * (-y) == -(x * y),
        (-x) * y == -(x * y),
        (-x) * (-y) == x * y,
{
    assert(x * (-y) == -(x * y)) by (nonlinear_arith);
    assert((-x) * y == -(x * y)) by (nonlinear_arith);
    assert((-x) * (-y) == x * y) by (nonlinear_arith);
}

/// Two ways to pair four factors.
pub proof fn lemma_swap(a: real, w: real, b: real, i: real)
    ensures
        (a * w) * (b * i) == (a * i) * (b * w),
{
    assert((a * w) * (b * i) == (a * i) * (b * w)) by (nonlinear_arith);
}

/// The products of a number with four, squared.
pub proof fn lemma_squares(a: real, w: real, i: real, j: real, k: real)
    ensures
        (a * a) * norm2(w, i, j, k) == (a * w) * (a * w) + (a * i) * (a * i) + (a * j) * (a * j) + (
        a * k) * (a * k),
{
    let (aa, ww, ii, jj, kk) = (a * a, w * w, i * i, j * j, k * k);
    lemma_distribute_four(ww, ii, jj, kk, aa);
    assert((a * a) * (w * w) == (a * w) * (a * w)) by (nonlinear_arith);
    assert((a * a) * (i * i) == (a * i) * (a * i)) by (nonlinear_arith);
    assert((a * a) * (j * j) == (a * j) * (a * j)) by (nonlinear_arith);
    assert((a * a) * (k * k) == (a * k) * (a * k)) by (nonlinear_arith);
}

/// The squared length of a product of quaternions is the product of the squared lengths.
pub proof fn lemma_euler(
    a: real,
    b: real,
    c: real,
    d: real,
    w: real,
    i: real,
    j: real,
    k: real,
)
    ensures
        norm2(
            a * w - b * i - c * j - d * k,
            a * i + b * w + c * k - d * j,
            a * j - b * k + c * w + d * i,
            a * k + b * j - c * i + d * w,
        ) == norm2(a, b, c, d) * norm2(w, i, j, k),
{
    let (aw, bi, cj, dk) = (a * w, b * i, c * j, d * k);
    let (ai, bw, ck, dj) = (a * i, b * w, c * k, d * j);
    let (aj, bk, cw, di) = (a * j, b * k, c * w, d * i);
    let (ak, bj, ci, dw) = (a * k, b * j, c * i, d * w);
    lemma_square_of_four(aw, -bi, -cj, -dk);
    lemma_square_of_four(ai, bw, ck, -dj);
    lemma_square_of_four(aj, -bk, cw, di);
    lemma_square_of_four(ak, bj, -ci, dw);
    lemma_signs(aw, bi);
    lemma_signs(aw, cj);
    lemma_signs(aw, dk);
    lemma_signs(bi, cj);
    lemma_signs(bi, dk);
    lemma_signs(cj, dk);
    lemma_signs(ai, dj);
    lemma_signs(bw, dj);
    lemma_signs(ck, dj);
    lemma_signs(aj, bk);
    lemma_signs(bk, cw);
    lemma_signs(bk, di);
    lemma_signs(ak, ci);
    lemma_signs(bj, ci);
    lemma_signs(ci, dw);
    lemma_signs(bi, bi);
    lemma_signs(cj, cj);
    lemma_signs(dk, dk);
    lemma_signs(dj, dj);
    lemma_signs(bk, bk);
    lemma_signs(ci, ci);
    lemma_swap(a, w, b, i);
    lemma_swap(a, w, c, j);
    lemma_swap(a, w, d, k);
    lemma_swap(b, i, c, j);
    lemma_swap(b, i, d, k);
    lemma_swap(c, j, d, k);
    lemma_swap(a, i, c, k);
    lemma_swap(a, i, d, j);
    lemma_swap(b, w, c, k);
    lemma_swap(b, w, d, j);
    lemma_swap(a, j, b, k);
    lemma_swap(c, w, d, i);
    lemma_squares(a, w, i, j, k);
    lemma_squares(b, w, i, j, k);
    lemma_squares(c, w, i, j, k);
    lemma_squares(d, w, i, j, k);
    let (aa, bb, cc, dd, n) = (a * a, b * b, c * c, d * d, norm2(w, i, j, k));
    lemma_distribute_four(aa, bb, cc, dd, n);
}

/// A product with a difference.
pub proof fn lemma_difference(x: real, y: real, z: real)
    ensures
        (x - y) * z == x * z - y * z,
        z * (x - y) == z * x - z * y,
{
    assert((x - y) * z == x * z - y * z) by (nonlinear_arith);
    assert(z * (x - y) == z * x - z * y) by (nonlinear_arith);
}

/// The products of two sums or differences.
pub proof fn lemma_two_by_two(a: real, b: real, x: real, y: real)
    ensures
        (a + b) * (x + y) == a * x + a * y + b * x + b * y,
        (a + b) * (x - y) == a * x - a * y + b * x - b * y,
        (a - b) * (x + y) == a * x + a * y - b * x - b * y,
        (a - b) * (x - y) == a * x - a * y - b * x + b * y,
{
    lemma_distribute(a, b, x + y);
    lemma_distribute(a, b, x - y);
    lemma_difference(a, b, x + y);
    lemma_difference(a, b, x - y);
    lemma_distribute(x, y, a);
    lemma_distribute(x, y, b);
    lemma_difference(x, y, a);
    lemma_difference(x, y, b);
}

/// A balanced sum of four times a number.
pub proof fn lemma_balanced(a: real, b: real, c: real, d: real, z: real)
    ensures
        (a + b - c - d) * z == a * z + b * z - c * z - d * z,
        z * (a + b - c - d) == a * z + b * z - c * z - d * z,
{
    lemma_difference(a + b - c, d, z);
    lemma_difference(a + b, c, z);
    lemma_distribute(a, b, z);
    lemma_commute(z, a + b - c - d);
}

/// A balanced sum of four times a sum or a difference.
pub proof fn lemma_balanced_by_two(a: real, b: real, c: real, d: real, x: real, y: real)
    ensures
        (a + b - c - d) * (x + y) == a * x + b * x - c * x - d * x + a * y + b * y - c * y - d * y,
        (a + b - c - d) * (x - y) == a * x + b * x - c * x - d * x - a * y - b * y + c * y + d * y,
{
    lemma_distribute(x, y, a + b - c - d);
    lemma_difference(x, y, a + b - c - d);
    lemma_balanced(a, b, c, d, x);
    lemma_balanced(a, b, c, d, y);
}

/// The square of a balanced sum of four falls short of that of the sum.
pub proof fn lemma_balanced_square(a: real, b: real, c: real, d: real)
    ensures
        (a + b - c - d) * (a + b - c - d) == (a + b + c + d) * (a + b + c + d) - 4 as real * (a * c)
            - 4 as real * (a * d) - 4 as real * (b * c) - 4 as real * (b * d),
{
    let (p, q) = (a + b, c + d);
    lemma_two_by_two(p, q, p, q);
    lemma_two_by_two(a, b, c, d);
    lemma_commute(p, q);
}

/// A 3 by 3 matrix of real numbers, by its rows.
pub struct Matrix {
    pub a: real,
    pub b: real,
    pub c: real,
    pub d: real,
    pub e: real,
    pub f: real,
    pub g: real,
    pub h: real,
    pub i: real,
}

/// The matrix of the rotation of a quaternion of real numbers.
pub open spec fn turn_of(w: real, i: real, j: real, k: real) -> Matrix {
    let two = 2 as real;
    Matrix {
        a: w * w + i * i - j * j - k * k,
        b: two * (i * j) - two * (w * k),
        c: two * (w * j) + two * (i * k),
        d: two * (w * k) + two * (i * j),
        e: w * w + j * j - i * i - k * k,
        f: two * (j * k) - two * (w * i),
        g: two * (i * k) - two * (w * j),
        h: two * (w * i) + two * (j * k),
        i: w * w + k * k - i * i - j * j,
    }
}

/// Twice a product times twice another that shares a factor.
pub proof fn lemma_shared(x: real, y: real, z: real)
    ensures
        (2 as real * (x * y)) * (2 as real * (x * z)) == 2 as real * ((x * x) * (2 as real * (y
            * z))),
{
    assert((2 as real * (x * y)) * (2 as real * (x * z)) == 2 as real * ((x * x) * (2 as real * (y
        * z)))) by (nonlinear_arith);
}

/// The square of twice a product, and the product of two without a shared factor.
pub proof fn lemma_unshared(w: real, i: real, j: real, k: real)
    ensures
        (2 as real * (i * j)) * (2 as real * (i * j)) == 4 as real * ((i * i) * (j * j)),
        (2 as real * (w * k)) * (2 as real * (i * j)) == (2 as real * (w * j)) * (2 as real * (i
            * k)),
{
    assert((2 as real * (i * j)) * (2 as real * (i * j)) == 4 as real * ((i * i) * (j * j)))
        by (nonlinear_arith);
    assert((2 as real * (w * k)) * (2 as real * (i * j)) == (2 as real * (w * j)) * (2 as real * (i
        * k))) by (nonlinear_arith);
}

/// What the squares and the doubled products of four numbers satisfy.
pub open spec fn are_products(
    ww: real,
    ii: real,
    jj: real,
    kk: real,
    ij: real,
    wk: real,
    ik: real,
    wj: real,
    wi: real,
    jk: real,
) -> bool {
    let (two, four) = (2 as real, 4 as real);
    &&& ij * ij == four * (ii * jj)
    &&& wk * wk == four * (ww * kk)
    &&& ik * ik == four * (ii * kk)
    &&& wj * wj == four * (ww * jj)
    &&& wi * wi == four * (ww * ii)
    &&& jk * jk == four * (jj * kk)
    &&& wk * ij == wj * ik
    &&& wk * ij == wi * jk
    &&& ik * wi == two * (ii * wk)
    &&& ik * jk == two * (kk * ij)
    &&& wj * wi == two * (ww * ij)
    &&& wj * jk == two * (jj * wk)
    &&& ij * ik == two * (ii * jk)
    &&& ij * wj == two * (jj * wi)
    &&& wk * ik == two * (kk * wi)
    &&& wk * wj == two * (ww * jk)
    &&& ij * wi == two * (ii * wj)
    &&& ij * jk == two * (jj * ik)
    &&& wk * wi == two * (ww * ik)
    &&& wk * jk == two * (kk * wj)
}

/// The lengths of the columns, and of the last row.
proof fn lemma_lengths(
    ww: real,
    ii: real,
    jj: real,
    kk: real,
    ij: real,
    wk: real,
    ik: real,
    wj: real,
    wi: real,
    jk: real,
)
    requires
        are_products(ww, ii, jj, kk, ij, wk, ik, wj, wi, jk),
    ensures
        ({
            let n = ww + ii + jj + kk;
            let (a, e, i) = (ww + ii - jj - kk, ww + jj - ii - kk, ww + kk - ii - jj);
            &&& a * a + (wk + ij) * (wk + ij) + (ik - wj) * (ik - wj) == n * n
            &&& (ij - wk) * (ij - wk) + e * e + (wi + jk) * (wi + jk) == n * n
            &&& (wj + ik) * (wj + ik) + (jk - wi) * (jk - wi) + i * i == n * n
            &&& (ik - wj) * (ik - wj) + (wi + jk) * (wi + jk) + i * i == n * n
        }),
{
    lemma_balanced_square(ww, ii, jj, kk);
    lemma_balanced_square(ww, jj, ii, kk);
    lemma_balanced_square(ww, kk, ii, jj);
    lemma_two_by_two(wk, ij, wk, ij);
    lemma_two_by_two(ik, wj, ik, wj);
    lemma_two_by_two(ij, wk, ij, wk);
    lemma_two_by_two(wi, jk, wi, jk);
    lemma_two_by_two(wj, ik, wj, ik);
    lemma_two_by_two(jk, wi, jk, wi);
    lemma_commute(ij, wk);
    lemma_commute(ik, wj);
    lemma_commute(jk, wi);
    lemma_commute(jj, ii);
    lemma_commute(kk, ii);
    lemma_commute(kk, jj);
    let n = ww + ii + jj + kk;
    assert((ww + jj + ii + kk) == n && (ww + kk + ii + jj) == n);
}

/// The columns stand at right angles.
proof fn lemma_angles(
    ww: real,
    ii: real,
    jj: real,
    kk: real,
    ij: real,
    wk: real,
    ik: real,
    wj: real,
    wi: real,
    jk: real,
)
    requires
        are_products(ww, ii, jj, kk, ij, wk, ik, wj, wi, jk),
    ensures
        ({
            let (a, e, i) = (ww + ii - jj - kk, ww + jj - ii - kk, ww + kk - ii - jj);
            let zero = 0 as real;
            &&& a * (ij - wk) + (wk + ij) * e + (ik - wj) * (wi + jk) == zero
            &&& a * (wj + ik) + (wk + ij) * (jk - wi) + (ik - wj) * i == zero
            &&& (ij - wk) * (wj + ik) + e * (jk - wi) + (wi + jk) * i == zero
        }),
{
    let (a, e, i) = (ww + ii - jj - kk, ww + jj - ii - kk, ww + kk - ii - jj);
    lemma_balanced_by_two(ww, ii, jj, kk, ij, wk);
    lemma_balanced_by_two(ww, jj, ii, kk, wk, ij);
    lemma_commute(wk + ij, e);
    lemma_two_by_two(ik, wj, wi, jk);
    lemma_balanced_by_two(ww, ii, jj, kk, wj, ik);
    lemma_two_by_two(wk, ij, jk, wi);
    lemma_balanced_by_two(ww, kk, ii, jj, ik, wj);
    lemma_commute(ik - wj, i);
    lemma_two_by_two(ij, wk, wj, ik);
    lemma_balanced_by_two(ww, jj, ii, kk, jk, wi);
    lemma_balanced_by_two(ww, kk, ii, jj, wi, jk);
    lemma_commute(wi + jk, i);
}

/// The vector product of the first two rows is the third, times the squared length.
proof fn lemma_orientation(
    ww: real,
    ii: real,
    jj: real,
    kk: real,
    ij: real,
    wk: real,
    ik: real,
    wj: real,
    wi: real,
    jk: real,
)
    requires
        are_products(ww, ii, jj, kk, ij, wk, ik, wj, wi, jk),
    ensures
        ({
            let n = ww + ii + jj + kk;
            let (a, e, i) = (ww + ii - jj - kk, ww + jj - ii - kk, ww + kk - ii - jj);
            &&& (ij - wk) * (jk - wi) - (wj + ik) * e == n * (ik - wj)
            &&& (wj + ik) * (wk + ij) - a * (jk - wi) == n * (wi + jk)
            &&& a * e - (ij - wk) * (wk + ij) == n * i
        }),
{
    let n = ww + ii + jj + kk;
    let (a, e, i) = (ww + ii - jj - kk, ww + jj - ii - kk, ww + kk - ii - jj);
    lemma_two_by_two(ij, wk, jk, wi);
    lemma_balanced_by_two(ww, jj, ii, kk, wj, ik);
    lemma_commute(wj + ik, e);
    lemma_difference(ik, wj, n);
    lemma_distribute_four(ww, ii, jj, kk, ik);
    lemma_distribute_four(ww, ii, jj, kk, wj);
    lemma_two_by_two(wj, ik, wk, ij);
    lemma_balanced_by_two(ww, ii, jj, kk, jk, wi);
    lemma_distribute(wi, jk, n);
    lemma_distribute_four(ww, ii, jj, kk, wi);
    lemma_distribute_four(ww, ii, jj, kk, jk);
    lemma_commute(jk, wk);
    lemma_commute(jk, ij);
    lemma_commute(wi, wk);
    lemma_commute(wi, ij);
    lemma_commute(wj, wk);
    lemma_commute(wj, ij);
    lemma_commute(ik, wk);
    lemma_commute(ik, ij);
    lemma_two_by_two(ij, wk, ij, wk);
    lemma_two_by_two(ij, wk, wk, ij);
    lemma_commute(ij, wk);
    lemma_balanced(ww, jj, ii, kk, ww);
    lemma_balanced(ww, jj, ii, kk, ii);
    lemma_balanced(ww, jj, ii, kk, jj);
    lemma_balanced(ww, jj, ii, kk, kk);
    lemma_balanced(ww, ii, jj, kk, e);
    lemma_balanced(ww, kk, ii, jj, ww);
    lemma_balanced(ww, kk, ii, jj, ii);
    lemma_balanced(ww, kk, ii, jj, jj);
    lemma_balanced(ww, kk, ii, jj, kk);
    lemma_distribute_four(ww, ii, jj, kk, i);
    lemma_commute(ww, ii);
    lemma_commute(ww, jj);
    lemma_commute(ww, kk);
    lemma_commute(ii, jj);
    lemma_commute(ii, kk);
    lemma_commute(jj, kk);
}

/// The matrix of a rotation: with `n` the squared length of the quaternion, the columns have the
/// length `n` and stand at right angles, and the determinant is the cube of `n`.
pub proof fn lemma_turn(w: real, i: real, j: real, k: real)
    ensures
        ({
            let (m, n) = (turn_of(w, i, j, k), norm2(w, i, j, k));
            &&& m.a * m.a + m.d * m.d + m.g * m.g == n * n
            &&& m.b * m.b + m.e * m.e + m.h * m.h == n * n
            &&& m.c * m.c + m.f * m.f + m.i * m.i == n * n
            &&& m.a * m.b + m.d * m.e + m.g * m.h == 0 as real
            &&& m.a * m.c + m.d * m.f + m.g * m.i == 0 as real
            &&& m.b * m.c + m.e * m.f + m.h * m.i == 0 as real
            &&& determinant(m) == n * (n * n)
        }),
{
    let two = 2 as real;
    let (ww, ii, jj, kk) = (w * w, i * i, j * j, k * k);
    let (ij, wk, ik) = (two * (i * j), two * (w * k), two * (i * k));
    let (wj, wi, jk) = (two * (w * j), two * (w * i), two * (j * k));
    lemma_products(w, i, j, k);
    lemma_lengths(ww, ii, jj, kk, ij, wk, ik, wj, wi, jk);
    lemma_angles(ww, ii, jj, kk, ij, wk, ik, wj, wi, jk);
    lemma_orientation(ww, ii, jj, kk, ij, wk, ik, wj, wi, jk);
    let (m, n) = (turn_of(w, i, j, k), norm2(w, i, j, k));
    lemma_scaled_dot(n, m.g, m.h, m.i);
}

/// The determinant: the last row times the vector product of the first two.
pub open spec fn determinant(m: Matrix) -> real {
    (m.b * m.f - m.c * m.e) * m.g + (m.c * m.d - m.a * m.f) * m.h + (m.a * m.e - m.b * m.d) * m.i
}

proof fn lemma_scaled_dot(n: real, x: real, y: real, z: real)
    ensures
        (n * x) * x + (n * y) * y + (n * z) * z == n * (x * x + y * y + z * z),
{
    let (xx, yy, zz) = (x * x, y * y, z * z);
    lemma_distribute(xx + yy, zz, n);
    lemma_distribute(xx, yy, n);
    assert((n * x) * x == n * (x * x)) by (nonlinear_arith);
    assert((n * y) * y == n * (y * y)) by (nonlinear_arith);
    assert((n * z) * z == n * (z * z)) by (nonlinear_arith);
}

proof fn lemma_products(w: real, i: real, j: real, k: real)
    ensures
        ({
            let two = 2 as real;
            are_products(
                w * w,
                i * i,
                j * j,
                k * k,
                two * (i * j),
                two * (w * k),
                two * (i * k),
                two * (w * j),
                two * (w * i),
                two * (j * k),
            )
        }),
{
    lemma_unshared(w, i, j, k);
    lemma_unshared(i, w, k, j);
    lemma_unshared(w, i, k, j);
    lemma_unshared(i, w, j, k);
    lemma_unshared(j, w, i, k);
    lemma_unshared(w, j, k, i);
    lemma_unshared(w, j, i, k);
    lemma_shared(i, k, w);
    lemma_shared(k, i, j);
    lemma_shared(w, j, i);
    lemma_shared(j, w, k);
    lemma_shared(i, j, k);
    lemma_shared(j, i, w);
    lemma_shared(k, w, i);
    lemma_shared(w, k, j);
    lemma_shared(i, j, w);
    lemma_shared(j, i, k);
    lemma_shared(w, k, i);
    lemma_shared(k, w, j);
    lemma_commute(i, j);
    lemma_commute(w, k);
    lemma_commute(i, k);
    lemma_commute(w, j);
    lemma_commute(w, i);
    lemma_commute(j, k);
}

/// A product of three.
pub proof fn lemma_associate(x: real, y: real, z: real)
    ensures
        (x * y) * z == x * (y * z),
{
    assert((x * y) * z == x * (y * z)) by (nonlinear_arith);
}

/// A product with a sum of three.
pub proof fn lemma_distribute_three(a: real, b: real, c: real, n: real)
    ensures
        (a + b + c) * n == a * n + b * n + c * n,
        n * (a + b + c) == n * a + n * b + n * c,
{
    lemma_distribute(a + b, c, n);
    lemma_distribute(a, b, n);
}

/// A row applied to what three rows make of a point, and the product of the row with them applied
/// to the point.
pub proof fn lemma_compose(
    a1: real,
    a2: real,
    a3: real,
    b11: real,
    b12: real,
    b13: real,
    b21: real,
    b22: real,
    b23: real,
    b31: real,
    b32: real,
    b33: real,
    t1: real,
    t2: real,
    t3: real,
    p1: real,
    p2: real,
    p3: real,
)
    ensures
        a1 * (b11 * p1 + b12 * p2 + b13 * p3 + t1) + a2 * (b21 * p1 + b22 * p2 + b23 * p3 + t2) + a3
            * (b31 * p1 + b32 * p2 + b33 * p3 + t3) == (a1 * b11 + a2 * b21 + a3 * b31) * p1 + (a1
            * b12 + a2 * b22 + a3 * b32) * p2 + (a1 * b13 + a2 * b23 + a3 * b33) * p3 + (a1 * t1
            + a2 * t2 + a3 * t3),
{
    lemma_distribute_four(b11 * p1, b12 * p2, b13 * p3, t1, a1);
    lemma_distribute_four(b21 * p1, b22 * p2, b23 * p3, t2, a2);
    lemma_distribute_four(b31 * p1, b32 * p2, b33 * p3, t3, a3);
    lemma_distribute_three(a1 * b11, a2 * b21, a3 * b31, p1);
    lemma_distribute_three(a1 * b12, a2 * b22, a3 * b32, p2);
    lemma_distribute_three(a1 * b13, a2 * b23, a3 * b33, p3);
    lemma_associate(a1, b11, p1);
    lemma_associate(a1, b12, p2);
    lemma_associate(a1, b13, p3);
    lemma_associate(a2, b21, p1);
    lemma_associate(a2, b22, p2);
    lemma_associate(a2, b23, p3);
    lemma_associate(a3, b31, p1);
    lemma_associate(a3, b32, p2);
    lemma_associate(a3, b33, p3);
}

/// The product of two matrices.
#[verifier::opaque]
pub open spec fn product(x: Matrix, y: Matrix) -> Matrix {
    Matrix {
        a: x.a * y.a + x.b * y.d + x.c * y.g,
        b: x.a * y.b + x.b * y.e + x.c * y.h,
        c: x.a * y.c + x.b * y.f + x.c * y.i,
        d: x.d * y.a + x.e * y.d + x.f * y.g,
        e: x.d * y.b + x.e * y.e + x.f * y.h,
        f: x.d * y.c + x.e * y.f + x.f * y.i,
        g: x.g * y.a + x.h * y.d + x.i * y.g,
        h: x.g * y.b + x.h * y.e + x.i * y.h,
        i: x.g * y.c + x.h * y.f + x.i * y.i,
    }
}

/// The transpose of a matrix.
pub open spec fn transpose(x: Matrix) -> Matrix {
    Matrix { a: x.a, b: x.d, c: x.g, d: x.b, e: x.e, f: x.h, g: x.c, h: x.f, i: x.i }
}

/// The sum of the diagonal of a matrix.
pub open spec fn trace(x: Matrix) -> real {
    x.a + x.e + x.i
}

/// The sum of two matrices.
pub open spec fn sum(x: Matrix, y: Matrix) -> Matrix {
    Matrix {
        a: x.a + y.a,
        b: x.b + y.b,
        c: x.c + y.c,
        d: x.d + y.d,
        e: x.e + y.e,
        f: x.f + y.f,
        g: x.g + y.g,
        h: x.h + y.h,
        i: x.i + y.i,
    }
}

/// A row times a matrix times a column.
proof fn lemma_row_column(a1: real, a2: real, a3: real, y: Matrix, p1: real, p2: real, p3: real)
    ensures
        (a1 * y.a + a2 * y.d + a3 * y.g) * p1 + (a1 * y.b + a2 * y.e + a3 * y.h) * p2 + (a1 * y.c
            + a2 * y.f + a3 * y.i) * p3 == a1 * (y.a * p1 + y.b * p2 + y.c * p3) + a2 * (y.d * p1
            + y.e * p2 + y.f * p3) + a3 * (y.g * p1 + y.h * p2 + y.i * p3),
{
    let o = 0 as real;
    lemma_compose(
        a1, a2, a3, y.a, y.b, y.c, y.d, y.e, y.f, y.g, y.h, y.i, o, o, o, p1, p2, p3,
    );
    assert(a1 * o == o && a2 * o == o && a3 * o == o) by (nonlinear_arith)
        requires
            o == 0 as real,
    ;
}

/// Products of matrices can be grouped either way.
pub proof fn lemma_regroup(x: Matrix, y: Matrix, z: Matrix)
    ensures
        product(product(x, y), z) == product(x, product(y, z)),
{
    reveal(product);
    lemma_row_column(x.a, x.b, x.c, y, z.a, z.d, z.g);
    lemma_row_column(x.a, x.b, x.c, y, z.b, z.e, z.h);
    lemma_row_column(x.a, x.b, x.c, y, z.c, z.f, z.i);
    lemma_row_column(x.d, x.e, x.f, y, z.a, z.d, z.g);
    lemma_row_column(x.d, x.e, x.f, y, z.b, z.e, z.h);
    lemma_row_column(x.d, x.e, x.f, y, z.c, z.f, z.i);
    lemma_row_column(x.g, x.h, x.i, y, z.a, z.d, z.g);
    lemma_row_column(x.g, x.h, x.i, y, z.b, z.e, z.h);
    lemma_row_column(x.g, x.h, x.i, y, z.c, z.f, z.i);
}

/// The transpose of a product, and the trace of a product the other way round.
pub proof fn lemma_transpose(x: Matrix, y: Matrix)
    ensures
        transpose(product(x, y)) == product(transpose(y), transpose(x)),
        trace(product(x, y)) == trace(product(y, x)),
{
    reveal(product);
    lemma_commute(x.a, y.a);
    lemma_commute(x.b, y.d);
    lemma_commute(x.c, y.g);
    lemma_commute(x.a, y.b);
    lemma_commute(x.b, y.e);
    lemma_commute(x.c, y.h);
    lemma_commute(x.a, y.c);
    lemma_commute(x.b, y.f);
    lemma_commute(x.c, y.i);
    lemma_commute(x.d, y.a);
    lemma_commute(x.e, y.d);
    lemma_commute(x.f, y.g);
    lemma_commute(x.d, y.b);
    lemma_commute(x.e, y.e);
    lemma_commute(x.f, y.h);
    lemma_commute(x.d, y.c);
    lemma_commute(x.e, y.f);
    lemma_commute(x.f, y.i);
    lemma_commute(x.g, y.a);
    lemma_commute(x.h, y.d);
    lemma_commute(x.i, y.g);
    lemma_commute(x.g, y.b);
    lemma_commute(x.h, y.e);
    lemma_commute(x.i, y.h);
    lemma_commute(x.g, y.c);
    lemma_commute(x.h, y.f);
    lemma_commute(x.i, y.i);
}

/// A product with a sum of matrices.
pub proof fn lemma_product_of_sum(x: Matrix, y: Matrix, z: Matrix)
    ensures
        product(sum(x, y), z) == sum(product(x, z), product(y, z)),
        product(z, sum(x, y)) == sum(product(z, x), product(z, y)),
{
    reveal(product);
    lemma_distribute(x.a, y.a, z.a);
    lemma_distribute(x.a, y.a, z.a);
    lemma_distribute(x.b, y.b, z.d);
    lemma_distribute(x.d, y.d, z.b);
    lemma_distribute(x.c, y.c, z.g);
    lemma_distribute(x.g, y.g, z.c);
    lemma_distribute(x.a, y.a, z.b);
    lemma_distribute(x.b, y.b, z.a);
    lemma_distribute(x.b, y.b, z.e);
    lemma_distribute(x.e, y.e, z.b);
    lemma_distribute(x.c, y.c, z.h);
    lemma_distribute(x.h, y.h, z.c);
    lemma_distribute(x.a, y.a, z.c);
    lemma_distribute(x.c, y.c, z.a);
    lemma_distribute(x.b, y.b, z.f);
    lemma_distribute(x.f, y.f, z.b);
    lemma_distribute(x.c, y.c, z.i);
    lemma_distribute(x.i, y.i, z.c);
    lemma_distribute(x.d, y.d, z.a);
    lemma_distribute(x.a, y.a, z.d);
    lemma_distribute(x.e, y.e, z.d);
    lemma_distribute(x.d, y.d, z.e);
    lemma_distribute(x.f, y.f, z.g);
    lemma_distribute(x.g, y.g, z.f);
    lemma_distribute(x.d, y.d, z.b);
    lemma_distribute(x.b, y.b, z.d);
    lemma_distribute(x.e, y.e, z.e);
    lemma_distribute(x.e, y.e, z.e);
    lemma_distribute(x.f, y.f, z.h);
    lemma_distribute(x.h, y.h, z.f);
    lemma_distribute(x.d, y.d, z.c);
    lemma_distribute(x.c, y.c, z.d);
    lemma_distribute(x.e, y.e, z.f);
    lemma_distribute(x.f, y.f, z.e);
    lemma_distribute(x.f, y.f, z.i);
    lemma_distribute(x.i, y.i, z.f);
    lemma_distribute(x.g, y.g, z.a);
    lemma_distribute(x.a, y.a, z.g);
    lemma_distribute(x.h, y.h, z.d);
    lemma_distribute(x.d, y.d, z.h);
    lemma_distribute(x.i, y.i, z.g);
    lemma_distribute(x.g, y.g, z.i);
    lemma_distribute(x.g, y.g, z.b);
    lemma_distribute(x.b, y.b, z.g);
    lemma_distribute(x.h, y.h, z.e);
    lemma_distribute(x.e, y.e, z.h);
    lemma_distribute(x.i, y.i, z.h);
    lemma_distribute(x.h, y.h, z.i);
    lemma_distribute(x.g, y.g, z.c);
    lemma_distribute(x.c, y.c, z.g);
    lemma_distribute(x.h, y.h, z.f);
    lemma_distribute(x.f, y.f, z.h);
    lemma_distribute(x.i, y.i, z.i);
    lemma_distribute(x.i, y.i, z.i);
}

/// A number times a matrix.
pub open spec fn scaled(n: real, x: Matrix) -> Matrix {
    Matrix {
        a: n * x.a,
        b: n * x.b,
        c: n * x.c,
        d: n * x.d,
        e: n * x.e,
        f: n * x.f,
        g: n * x.g,
        h: n * x.h,
        i: n * x.i,
    }
}

/// The identity matrix.
pub open spec fn identity() -> Matrix {
    let (zero, one) = (0 as real, 1 as real);
    Matrix { a: one, b: zero, c: zero, d: zero, e: one, f: zero, g: zero, h: zero, i: one }
}

/// One and zero as factors.
pub proof fn lemma_factors(x: real)
    ensures
        x * 1 as real == x,
        1 as real * x == x,
        x * 0 as real == 0 as real,
        0 as real * x == 0 as real,
{
    let (zero, one) = (0 as real, 1 as real);
    assert(x * one == x && one * x == x && x * zero == zero && zero * x == zero)
        by (nonlinear_arith)
        requires
            zero == 0 as real,
            one == 1 as real,
    ;
}

/// The identity changes nothing.
pub proof fn lemma_identity(x: Matrix)
    ensures
        product(identity(), x) == x,
        product(x, identity()) == x,
{
    reveal(product);
    lemma_factors(x.a);
    lemma_factors(x.b);
    lemma_factors(x.c);
    lemma_factors(x.d);
    lemma_factors(x.e);
    lemma_factors(x.f);
    lemma_factors(x.g);
    lemma_factors(x.h);
    lemma_factors(x.i);
}

/// A scaled row times a column, and a row times a scaled column.
proof fn lemma_scaled_row(n: real, x1: real, x2: real, x3: real, y1: real, y2: real, y3: real)
    ensures
        (n * x1) * y1 + (n * x2) * y2 + (n * x3) * y3 == n * (x1 * y1 + x2 * y2 + x3 * y3),
        x1 * (n * y1) + x2 * (n * y2) + x3 * (n * y3) == n * (x1 * y1 + x2 * y2 + x3 * y3),
{
    lemma_distribute_three(x1 * y1, x2 * y2, x3 * y3, n);
    lemma_scaled_factor(n, x1, y1);
    lemma_scaled_factor(n, x2, y2);
    lemma_scaled_factor(n, x3, y3);
}

/// A factor may stand anywhere in a product.
pub proof fn lemma_scaled_factor(n: real, x: real, y: real)
    ensures
        (n * x) * y == n * (x * y),
        x * (n * y) == n * (x * y),
{
    lemma_associate(n, x, y);
    lemma_associate(x, n, y);
    lemma_commute(x, n);
    lemma_associate(n, x, y);
}

/// Scaling a factor scales a product.
pub proof fn lemma_product_scaled(n: real, x: Matrix, y: Matrix)
    ensures
        product(scaled(n, x), y) == scaled(n, product(x, y)),
        product(x, scaled(n, y)) == scaled(n, product(x, y)),
{
    reveal(product);
    lemma_scaled_row(n, x.a, x.b, x.c, y.a, y.d, y.g);
    lemma_scaled_row(n, x.a, x.b, x.c, y.b, y.e, y.h);
    lemma_scaled_row(n, x.a, x.b, x.c, y.c, y.f, y.i);
    lemma_scaled_row(n, x.d, x.e, x.f, y.a, y.d, y.g);
    lemma_scaled_row(n, x.d, x.e, x.f, y.b, y.e, y.h);
    lemma_scaled_row(n, x.d, x.e, x.f, y.c, y.f, y.i);
    lemma_scaled_row(n, x.g, x.h, x.i, y.a, y.d, y.g);
    lemma_scaled_row(n, x.g, x.h, x.i, y.b, y.e, y.h);
    lemma_scaled_row(n, x.g, x.h, x.i, y.c, y.f, y.i);
}

/// The middle factors of a product of two products may change places.
proof fn lemma_interchange(p: real, q: real, r: real, t: real)
    ensures
        (p * q) * (r * t) == (p * r) * (q * t),
{
    lemma_associate(p, q, r * t);
    lemma_scaled_factor(r, q, t);
    lemma_associate(p, r, q * t);
}

/// The factors of a product of three may stand in any order.
proof fn lemma_any_order(x: real, y: real, z: real)
    ensures
        (x * y) * z == (y * z) * x,
        (x * y) * z == (z * x) * y,
        (x * y) * z == (y * x) * z,
        (x * y) * z == (z * y) * x,
        (x * y) * z == (x * z) * y,
        (x * y) * z == x * (y * z),
        (x * y) * z == y * (z * x),
        (x * y) * z == z * (x * y),
{
    lemma_associate(x, y, z);
    lemma_associate(y, z, x);
    lemma_associate(z, x, y);
    lemma_commute(x, y);
    lemma_commute(y, z);
    lemma_commute(x, z);
    lemma_commute(x, y * z);
    lemma_commute(z, x * y);
    lemma_commute(y, z * x);
}

/// The vector product of two combinations of three vectors, in two of their coordinates.
proof fn lemma_cross(
    b1: real,
    b2: real,
    b3: real,
    c1: real,
    c2: real,
    c3: real,
    u1: real,
    u2: real,
    u3: real,
    v1: real,
    v2: real,
    v3: real,
)
    ensures
        (b1 * u1 + b2 * u2 + b3 * u3) * (c1 * v1 + c2 * v2 + c3 * v3) - (b1 * v1 + b2 * v2 + b3 * v3)
            * (c1 * u1 + c2 * u2 + c3 * u3) == (b2 * c3 - b3 * c2) * (u2 * v3 - u3 * v2) + (b3 * c1
            - b1 * c3) * (u3 * v1 - u1 * v3) + (b1 * c2 - b2 * c1) * (u1 * v2 - u2 * v1),
{
    lemma_three_by_three(b1, b2, b3, u1, u2, u3, c1, c2, c3, v1, v2, v3);
    lemma_three_by_three(b1, b2, b3, v1, v2, v3, c1, c2, c3, u1, u2, u3);
    lemma_commute(v1, u1);
    lemma_commute(v1, u2);
    lemma_commute(v1, u3);
    lemma_commute(v2, u1);
    lemma_commute(v2, u2);
    lemma_commute(v2, u3);
    lemma_commute(v3, u1);
    lemma_commute(v3, u2);
    lemma_commute(v3, u3);
    lemma_two_by_two(b2 * c3, b3 * c2, u2 * v3, u3 * v2);
    lemma_two_by_two(b3 * c1, b1 * c3, u3 * v1, u1 * v3);
    lemma_two_by_two(b1 * c2, b2 * c1, u1 * v2, u2 * v1);
}

/// The product of two sums of three products.
proof fn lemma_three_by_three(
    b1: real,
    b2: real,
    b3: real,
    u1: real,
    u2: real,
    u3: real,
    c1: real,
    c2: real,
    c3: real,
    v1: real,
    v2: real,
    v3: real,
)
    ensures
        (b1 * u1 + b2 * u2 + b3 * u3) * (c1 * v1 + c2 * v2 + c3 * v3) == (b1 * c1) * (u1 * v1) + (b1 * c2) * (u1 * v2) + (b1 * c3) * (u1 * v3) + (b2 * c1) * (u2 * v1) + (b2 * c2) * (u2 * v2) + (b2 * c3) * (u2 * v3) + (b3 * c1) * (u3 * v1) + (b3 * c2) * (u3 * v2) + (b3 * c3) * (u3 * v3),
{
    let s = c1 * v1 + c2 * v2 + c3 * v3;
    lemma_distribute_three(b1 * u1, b2 * u2, b3 * u3, s);
    lemma_distribute_three(c1 * v1, c2 * v2, c3 * v3, b1 * u1);
    lemma_distribute_three(c1 * v1, c2 * v2, c3 * v3, b2 * u2);
    lemma_distribute_three(c1 * v1, c2 * v2, c3 * v3, b3 * u3);
    lemma_interchange(b1, u1, c1, v1);
    lemma_interchange(b1, u1, c2, v2);
    lemma_interchange(b1, u1, c3, v3);
    lemma_interchange(b2, u2, c1, v1);
    lemma_interchange(b2, u2, c2, v2);
    lemma_interchange(b2, u2, c3, v3);
    lemma_interchange(b3, u3, c1, v1);
    lemma_interchange(b3, u3, c2, v2);
    lemma_interchange(b3, u3, c3, v3);
}

/// A vector times the vector product of two others.
spec fn triple(
    p1: real,
    p2: real,
    p3: real,
    q1: real,
    q2: real,
    q3: real,
    r1: real,
    r2: real,
    r3: real,
) -> real {
    p1 * (q2 * r3 - q3 * r2) + p2 * (q3 * r1 - q1 * r3) + p3 * (q1 * r2 - q2 * r1)
}

/// The three vectors of a triple product may be turned, and it is zero where one of them stands
/// twice.
proof fn lemma_triple(
    p1: real,
    p2: real,
    p3: real,
    q1: real,
    q2: real,
    q3: real,
    r1: real,
    r2: real,
    r3: real,
)
    ensures
        triple(p1, p2, p3, q1, q2, q3, r1, r2, r3) == triple(q1, q2, q3, r1, r2, r3, p1, p2, p3),
        triple(p1, p2, p3, p1, p2, p3, r1, r2, r3) == 0 as real,
        triple(p1, p2, p3, r1, r2, r3, p1, p2, p3) == 0 as real,
{
    lemma_difference(q2 * r3, q3 * r2, p1);
    lemma_difference(q3 * r1, q1 * r3, p2);
    lemma_difference(q1 * r2, q2 * r1, p3);
    lemma_difference(r2 * p3, r3 * p2, q1);
    lemma_difference(r3 * p1, r1 * p3, q2);
    lemma_difference(r1 * p2, r2 * p1, q3);
    lemma_difference(p2 * r3, p3 * r2, p1);
    lemma_difference(p3 * r1, p1 * r3, p2);
    lemma_difference(p1 * r2, p2 * r1, p3);
    lemma_difference(r2 * p3, r3 * p2, p1);
    lemma_difference(r3 * p1, r1 * p3, p2);
    lemma_difference(r1 * p2, r2 * p1, p3);
    lemma_any_order(p1, q2, r3);
    lemma_any_order(p1, q3, r2);
    lemma_any_order(p2, q1, r3);
    lemma_any_order(p2, q3, r1);
    lemma_any_order(p3, q1, r2);
    lemma_any_order(p3, q2, r1);
    lemma_any_order(p1, p2, r3);
    lemma_any_order(p1, p3, r2);
    lemma_any_order(p2, p1, r3);
    lemma_any_order(p2, p3, r1);
    lemma_any_order(p3, p1, r2);
    lemma_any_order(p3, p2, r1);
}

/// The determinant of a product is the product of the determinants.
pub proof fn lemma_determinant_of_product(x: Matrix, y: Matrix)
    ensures
        determinant(product(x, y)) == determinant(x) * determinant(y),
{
    reveal(product);
    let n1 = x.b * x.f - x.c * x.e;
    let n2 = x.c * x.d - x.a * x.f;
    let n3 = x.a * x.e - x.b * x.d;
    lemma_cross(x.a, x.b, x.c, x.d, x.e, x.f, y.b, y.e, y.h, y.c, y.f, y.i);
    lemma_cross(x.a, x.b, x.c, x.d, x.e, x.f, y.c, y.f, y.i, y.a, y.d, y.g);
    lemma_cross(x.a, x.b, x.c, x.d, x.e, x.f, y.a, y.d, y.g, y.b, y.e, y.h);
    let w = Matrix {
        a: y.e * y.i - y.h * y.f,
        b: y.f * y.g - y.i * y.d,
        c: y.d * y.h - y.g * y.e,
        d: y.h * y.c - y.b * y.i,
        e: y.i * y.a - y.c * y.g,
        f: y.g * y.b - y.a * y.h,
        g: y.b * y.f - y.e * y.c,
        h: y.c * y.d - y.f * y.a,
        i: y.a * y.e - y.d * y.b,
    };
    let m = product(x, y);
    lemma_row_column(n1, n2, n3, w, m.g, m.h, m.i);
    lemma_row_column(x.g, x.h, x.i, y, w.a, w.b, w.c);
    lemma_row_column(x.g, x.h, x.i, y, w.d, w.e, w.f);
    lemma_row_column(x.g, x.h, x.i, y, w.g, w.h, w.i);
    lemma_commute(w.a, m.g);
    lemma_commute(w.b, m.h);
    lemma_commute(w.c, m.i);
    lemma_commute(w.d, m.g);
    lemma_commute(w.e, m.h);
    lemma_commute(w.f, m.i);
    lemma_commute(w.g, m.g);
    lemma_commute(w.h, m.h);
    lemma_commute(w.i, m.i);
    lemma_adjugate(y);
    let d = determinant(y);
    lemma_factors(x.g);
    lemma_factors(x.h);
    lemma_factors(x.i);
    lemma_scaled_factor(x.g, n1, d);
    lemma_scaled_factor(x.h, n2, d);
    lemma_scaled_factor(x.i, n3, d);
    lemma_commute(n1, x.g);
    lemma_commute(n2, x.h);
    lemma_commute(n3, x.i);
    lemma_associate(n1, x.g, d);
    lemma_associate(n2, x.h, d);
    lemma_associate(n3, x.i, d);
    lemma_distribute_three(n1 * x.g, n2 * x.h, n3 * x.i, d);
}

/// The rows of a matrix times the vector products of its rows.
proof fn lemma_adjugate(y: Matrix)
    ensures
        ({
            let (w1, w2, w3) = (
                y.e * y.i - y.h * y.f,
                y.f * y.g - y.i * y.d,
                y.d * y.h - y.g * y.e,
            );
            &&& y.a * w1 + y.b * w2 + y.c * w3 == determinant(y)
            &&& y.d * w1 + y.e * w2 + y.f * w3 == 0 as real
            &&& y.g * w1 + y.h * w2 + y.i * w3 == 0 as real
        }),
        ({
            let (w1, w2, w3) = (
                y.h * y.c - y.b * y.i,
                y.i * y.a - y.c * y.g,
                y.g * y.b - y.a * y.h,
            );
            &&& y.a * w1 + y.b * w2 + y.c * w3 == 0 as real
            &&& y.d * w1 + y.e * w2 + y.f * w3 == determinant(y)
            &&& y.g * w1 + y.h * w2 + y.i * w3 == 0 as real
        }),
        ({
            let (w1, w2, w3) = (
                y.b * y.f - y.e * y.c,
                y.c * y.d - y.f * y.a,
                y.a * y.e - y.d * y.b,
            );
            &&& y.a * w1 + y.b * w2 + y.c * w3 == 0 as real
            &&& y.d * w1 + y.e * w2 + y.f * w3 == 0 as real
            &&& y.g * w1 + y.h * w2 + y.i * w3 == determinant(y)
        }),
{
    lemma_triple(y.a, y.b, y.c, y.d, y.e, y.f, y.g, y.h, y.i);
    lemma_triple(y.d, y.e, y.f, y.g, y.h, y.i, y.a, y.b, y.c);
    lemma_triple(y.g, y.h, y.i, y.a, y.b, y.c, y.d, y.e, y.f);
    lemma_triple(y.d, y.e, y.f, y.a, y.b, y.c, y.g, y.h, y.i);
    lemma_triple(y.a, y.b, y.c, y.g, y.h, y.i, y.d, y.e, y.f);
    lemma_triple(y.g, y.h, y.i, y.d, y.e, y.f, y.a, y.b, y.c);
    lemma_commute(y.h, y.f);
    lemma_commute(y.i, y.d);
    lemma_commute(y.g, y.e);
    lemma_commute(y.b, y.i);
    lemma_commute(y.c, y.g);
    lemma_commute(y.a, y.h);
    lemma_commute(y.e, y.c);
    lemma_commute(y.f, y.a);
    lemma_commute(y.d, y.b);
    lemma_commute(y.g, y.b * y.f - y.c * y.e);
    lemma_commute(y.h, y.c * y.d - y.a * y.f);
    lemma_commute(y.i, y.a * y.e - y.b * y.d);
}

/// A matrix and its transpose have the same determinant.
pub proof fn lemma_determinant_of_transpose(x: Matrix)
    ensures
        determinant(transpose(x)) == determinant(x),
{
    lemma_difference(x.b * x.f, x.c * x.e, x.g);
    lemma_difference(x.c * x.d, x.a * x.f, x.h);
    lemma_difference(x.a * x.e, x.b * x.d, x.i);
    lemma_difference(x.d * x.h, x.g * x.e, x.c);
    lemma_difference(x.g * x.b, x.a * x.h, x.f);
    lemma_difference(x.a * x.e, x.d * x.b, x.i);
    lemma_any_order(x.b, x.f, x.g);
    lemma_any_order(x.c, x.e, x.g);
    lemma_any_order(x.c, x.d, x.h);
    lemma_any_order(x.a, x.f, x.h);
    lemma_any_order(x.b, x.d, x.i);
}

} // verus!
