//! Poses as 4 by 4 matrices of 32-bit numbers.

use vstd::prelude::*;
use vstd::arithmetic::power2::*;

use crate::cloud::P3;
use crate::float::arith;
use crate::float::double::F64;
use crate::float::laws;
use crate::float::single::F32;
use crate::geometry::{Quat, M3, V3};

verus! {

/// The bit pattern of 1 in 32 bits.
pub const ONE_SINGLE: u32 = 0x3f80_0000;

/// The bit pattern of 1e-9.
pub const TINY: u64 = 0x3e11_2e0b_e826_d695;

/// A row of four numbers.
#[derive(Clone, Copy, PartialEq, Eq, Structural, Debug)]
pub struct Row4 {
    pub x: F32,
    pub y: F32,
    pub z: F32,
    pub w: F32,
}

/// A 4 by 4 matrix, by its rows. A pose has a rotation in the first three columns and a position
/// in the last.
#[derive(Clone, Copy, PartialEq, Eq, Structural, Debug)]
pub struct Mat4 {
    pub r0: Row4,
    pub r1: Row4,
    pub r2: Row4,
    pub r3: Row4,
}

/// A position and an orientation at a time.
#[derive(Clone, Copy, PartialEq, Eq, Structural, Debug)]
pub struct PoseData {
    pub timestamp: F64,
    pub position: P3,
    pub rotation_quat: Row4,
}

/// A small motion: rotation angles about the axes and a translation.
#[derive(Clone, Copy, PartialEq, Eq, Structural, Debug)]
pub struct Twist {
    pub alpha: F64,
    pub beta: F64,
    pub gamma: F64,
    pub t: V3,
}

impl Row4 {
    /// The sum of the products, added to zero one by one from the first on.
    #[verifier::allow_in_spec]
    pub fn dot(self, o: Row4) -> F32
        returns
            (F32 { bits: 0 }).plus(self.x.times(o.x)).plus(self.y.times(o.y)).plus(
                self.z.times(o.z),
            ).plus(self.w.times(o.w)),
    {
        (F32 { bits: 0 }).plus(self.x.times(o.x)).plus(self.y.times(o.y)).plus(
            self.z.times(o.z),
        ).plus(self.w.times(o.w))
    }

    /// The first three numbers in 64 bits.
    #[verifier::allow_in_spec]
    pub fn head(self) -> V3
        returns
            V3::new(self.x.widened(), self.y.widened(), self.z.widened()),
    {
        V3::new(self.x.widened(), self.y.widened(), self.z.widened())
    }
}

impl Mat4 {
    /// The transpose.
    #[verifier::allow_in_spec]
    pub fn transposed(self) -> Mat4
        returns
            (Mat4 {
                r0: Row4 { x: self.r0.x, y: self.r1.x, z: self.r2.x, w: self.r3.x },
                r1: Row4 { x: self.r0.y, y: self.r1.y, z: self.r2.y, w: self.r3.y },
                r2: Row4 { x: self.r0.z, y: self.r1.z, z: self.r2.z, w: self.r3.z },
                r3: Row4 { x: self.r0.w, y: self.r1.w, z: self.r2.w, w: self.r3.w },
            }),
    {
        Mat4 {
            r0: Row4 { x: self.r0.x, y: self.r1.x, z: self.r2.x, w: self.r3.x },
            r1: Row4 { x: self.r0.y, y: self.r1.y, z: self.r2.y, w: self.r3.y },
            r2: Row4 { x: self.r0.z, y: self.r1.z, z: self.r2.z, w: self.r3.z },
            r3: Row4 { x: self.r0.w, y: self.r1.w, z: self.r2.w, w: self.r3.w },
        }
    }

    /// A row times this matrix.
    #[verifier::allow_in_spec]
    pub fn left_apply(self, row: Row4) -> Row4
        returns
            (Row4 {
                x: row.dot(self.transposed().r0),
                y: row.dot(self.transposed().r1),
                z: row.dot(self.transposed().r2),
                w: row.dot(self.transposed().r3),
            }),
    {
        let t: Mat4 = self.transposed();
        Row4 { x: row.dot(t.r0), y: row.dot(t.r1), z: row.dot(t.r2), w: row.dot(t.r3) }
    }

    /// The last row of a pose.
    #[verifier::allow_in_spec]
    pub fn pose_row() -> Row4
        returns
            (Row4 {
                x: F32 { bits: 0 },
                y: F32 { bits: 0 },
                z: F32 { bits: 0 },
                w: F32 { bits: ONE_SINGLE },
            }),
    {
        Row4 {
            x: F32 { bits: 0 },
            y: F32 { bits: 0 },
            z: F32 { bits: 0 },
            w: F32 { bits: ONE_SINGLE },
        }
    }

    /// The pose at the origin.
    #[verifier::allow_in_spec]
    pub fn identity() -> Mat4
        returns
            ({
                let (zero, one) = (F32 { bits: 0 }, F32 { bits: ONE_SINGLE });
                Mat4 {
                    r0: Row4 { x: one, y: zero, z: zero, w: zero },
                    r1: Row4 { x: zero, y: one, z: zero, w: zero },
                    r2: Row4 { x: zero, y: zero, z: one, w: zero },
                    r3: Mat4::pose_row(),
                }
            }),
    {
        let (zero, one): (F32, F32) = (F32 { bits: 0 }, F32 { bits: ONE_SINGLE });
        Mat4 {
            r0: Row4 { x: one, y: zero, z: zero, w: zero },
            r1: Row4 { x: zero, y: one, z: zero, w: zero },
            r2: Row4 { x: zero, y: zero, z: one, w: zero },
            r3: Mat4::pose_row(),
        }
    }

    /// The pose with the given rotation and position.
    #[verifier::allow_in_spec]
    pub fn assembled(r: M3, t: V3) -> Mat4
        returns
            (Mat4 {
                r0: Row4 {
                    x: r.r0.x.narrowed(),
                    y: r.r0.y.narrowed(),
                    z: r.r0.z.narrowed(),
                    w: t.x.narrowed(),
                },
                r1: Row4 {
                    x: r.r1.x.narrowed(),
                    y: r.r1.y.narrowed(),
                    z: r.r1.z.narrowed(),
                    w: t.y.narrowed(),
                },
                r2: Row4 {
                    x: r.r2.x.narrowed(),
                    y: r.r2.y.narrowed(),
                    z: r.r2.z.narrowed(),
                    w: t.z.narrowed(),
                },
                r3: Mat4::pose_row(),
            }),
    {
        Mat4 {
            r0: Row4 {
                x: r.r0.x.narrowed(),
                y: r.r0.y.narrowed(),
                z: r.r0.z.narrowed(),
                w: t.x.narrowed(),
            },
            r1: Row4 {
                x: r.r1.x.narrowed(),
                y: r.r1.y.narrowed(),
                z: r.r1.z.narrowed(),
                w: t.y.narrowed(),
            },
            r2: Row4 {
                x: r.r2.x.narrowed(),
                y: r.r2.y.narrowed(),
                z: r.r2.z.narrowed(),
                w: t.z.narrowed(),
            },
            r3: Mat4::pose_row(),
        }
    }

    /// The rotation in 64 bits.
    #[verifier::allow_in_spec]
    pub fn rotation(self) -> M3
        returns
            (M3 { r0: self.r0.head(), r1: self.r1.head(), r2: self.r2.head() }),
    {
        M3 { r0: self.r0.head(), r1: self.r1.head(), r2: self.r2.head() }
    }

    /// The position.
    #[verifier::allow_in_spec]
    pub fn position(self) -> P3
        returns
            (P3 { x: self.r0.w, y: self.r1.w, z: self.r2.w }),
    {
        P3 { x: self.r0.w, y: self.r1.w, z: self.r2.w }
    }
}

/// The matrix product.
#[verifier::allow_in_spec]
pub fn mat4_mul(a: Mat4, b: Mat4) -> Mat4
    returns
        (Mat4 {
            r0: b.left_apply(a.r0),
            r1: b.left_apply(a.r1),
            r2: b.left_apply(a.r2),
            r3: b.left_apply(a.r3),
        }),
{
    Mat4 {
        r0: b.left_apply(a.r0),
        r1: b.left_apply(a.r1),
        r2: b.left_apply(a.r2),
        r3: b.left_apply(a.r3),
    }
}

/// Adding a zero of either sign to a number other than a negative zero changes nothing.
pub proof fn lemma_plus_zero(x: F32, zero: F32)
    requires
        x.finite(),
        zero.signed().mag == 0,
        x.signed().mag > 0 || !x.signed().neg,
    ensures
        x.plus(zero) == x,
{
    reveal(F32::spec_plus);
    let fmt = arith::single_format();
    let mag = x.signed().mag;
    arith::lemma_units_zero(24);
    if mag > 0 {
        arith::lemma_units_ordered(24, 0, mag as nat);
        laws::exact_values_are_kept(fmt, mag, 1);
        assert(fmt.units(mag) * 1 == fmt.units(mag));
    }
}

/// The product of zero and a finite number is a zero.
proof fn lemma_times_zero(x: F32)
    requires
        x.finite(),
    ensures
        (F32 { bits: 0 }).times(x).signed().mag == 0,
{
    reveal(F32::spec_times);
    let fmt = arith::single_format();
    let one = pow2(149);
    arith::lemma_units_zero(24);
    lemma_pow2_pos(149);
    laws::exact_values_are_kept(fmt, 0, one);
    let u = fmt.units(x.signed().mag);
    assert(fmt.units(0) * u == fmt.units(0) * one) by (nonlinear_arith)
        requires
            fmt.units(0) == 0,
    ;
}

/// The product of one and a finite number is that number, and one is not changed by being added
/// to zero.
proof fn lemma_times_one(x: F32)
    requires
        x.finite(),
    ensures
        (F32 { bits: ONE_SINGLE }).times(x) == x,
        (F32 { bits: 0 }).plus(F32 { bits: ONE_SINGLE }) == (F32 { bits: ONE_SINGLE }),
{
    reveal(F32::spec_times);
    reveal(F32::spec_plus);
    let fmt = arith::single_format();
    let mag = x.signed().mag;
    let one = pow2(149);
    let unit = fmt.units(ONE_SINGLE as u64);
    laws::units_of_one();
    lemma_pow2_pos(149);
    laws::exact_values_are_kept(fmt, mag, one);
    assert(unit * fmt.units(mag) == fmt.units(mag) * one) by (nonlinear_arith)
        requires
            unit == one,
    ;
    arith::lemma_units_zero(24);
    laws::exact_values_are_kept(fmt, ONE_SINGLE as u64, 1);
    assert(unit * 1 == unit);
}

/// The product of two poses is a pose: with finite numbers in the second, its last row is that of
/// a pose.
pub proof fn product_of_poses_is_a_pose(a: Mat4, b: Mat4)
    requires
        a.r3 == Mat4::pose_row(),
        b.r3 == Mat4::pose_row(),
        b.r0.x.finite() && b.r0.y.finite() && b.r0.z.finite() && b.r0.w.finite(),
        b.r1.x.finite() && b.r1.y.finite() && b.r1.z.finite() && b.r1.w.finite(),
        b.r2.x.finite() && b.r2.y.finite() && b.r2.z.finite() && b.r2.w.finite(),
    ensures
        mat4_mul(a, b).r3 == Mat4::pose_row(),
{
    let t = b.transposed();
    lemma_pose_column(t.r0, F32 { bits: 0 });
    lemma_pose_column(t.r1, F32 { bits: 0 });
    lemma_pose_column(t.r2, F32 { bits: 0 });
    lemma_pose_column(t.r3, F32 { bits: ONE_SINGLE });
}

/// The last row of a pose picks the last number of a column that ends in zero or one.
proof fn lemma_pose_column(column: Row4, last: F32)
    requires
        column.x.finite() && column.y.finite() && column.z.finite(),
        column.w == last,
        last == (F32 { bits: 0 }) || last == (F32 { bits: ONE_SINGLE }),
    ensures
        Mat4::pose_row().dot(column) == last,
{
    let zero = F32 { bits: 0 };
    lemma_times_zero(column.x);
    lemma_times_zero(column.y);
    lemma_times_zero(column.z);
    lemma_plus_zero(zero, zero.times(column.x));
    lemma_plus_zero(zero, zero.times(column.y));
    lemma_plus_zero(zero, zero.times(column.z));
    lemma_times_one(last);
    lemma_plus_zero(zero, zero);
}

/// The angle by which a twist rotates.
#[verifier::allow_in_spec]
pub fn twist_angle(x: Twist) -> F64
    returns
        V3::new(x.alpha, x.beta, x.gamma).norm(),
{
    V3::new(x.alpha, x.beta, x.gamma).norm()
}

/// The rotation of a twist whose angle `theta` has the given cosine and sine. Where the angle is
/// tiny, the rotation is taken to first order.
pub open spec fn twist_rotation(x: Twist, theta: F64, c: F64, s: F64) -> M3 {
    let one = F64 { bits: crate::geometry::ONE };
    if theta.lt(F64 { bits: TINY }) {
        M3 {
            r0: V3::new(one, x.gamma.negated(), x.beta),
            r1: V3::new(x.gamma, one, x.alpha.negated()),
            r2: V3::new(x.beta.negated(), x.alpha, one),
        }
    } else {
        let (kx, ky, kz) = (x.alpha.over(theta), x.beta.over(theta), x.gamma.over(theta));
        let v = one.minus(c);
        M3 {
            r0: V3::new(
                kx.times(kx).times(v).plus(c),
                kx.times(ky).times(v).minus(kz.times(s)),
                kx.times(kz).times(v).plus(ky.times(s)),
            ),
            r1: V3::new(
                kx.times(ky).times(v).plus(kz.times(s)),
                ky.times(ky).times(v).plus(c),
                ky.times(kz).times(v).minus(kx.times(s)),
            ),
            r2: V3::new(
                kx.times(kz).times(v).minus(ky.times(s)),
                ky.times(kz).times(v).plus(kx.times(s)),
                kz.times(kz).times(v).plus(c),
            ),
        }
    }
}

/// The twist that turns the other way, with the same translation.
pub open spec fn opposite(x: Twist) -> Twist {
    Twist {
        alpha: x.alpha.negated(),
        beta: x.beta.negated(),
        gamma: x.gamma.negated(),
        t: x.t,
    }
}

/// Negating the rotation vector turns the other way: the angle stays, the rotation becomes its
/// transpose, and without a translation so does the whole pose.
pub proof fn opposite_twists_are_transposed(x: Twist, cosine: F64, sine: F64)
    requires
        x.alpha.finite(),
        x.beta.finite(),
        x.gamma.finite(),
    ensures
        twist_angle(opposite(x)) == twist_angle(x),
        ({
            let theta = twist_angle(x);
            twist_rotation(opposite(x), theta, cosine, sine) == twist_rotation(
                x,
                theta,
                cosine,
                sine,
            ).transposed()
        }),
        x.t == V3::new(F64 { bits: 0 }, F64 { bits: 0 }, F64 { bits: 0 }) ==> ({
            let theta = twist_angle(x);
            Mat4::assembled(twist_rotation(opposite(x), theta, cosine, sine), x.t)
                == Mat4::assembled(twist_rotation(x, theta, cosine, sine), x.t).transposed()
        }),
{
    laws::lemma_signs_cancel(x.alpha, x.alpha);
    laws::lemma_signs_cancel(x.beta, x.beta);
    laws::lemma_signs_cancel(x.gamma, x.gamma);
    let theta = twist_angle(x);
    if !theta.lt(F64 { bits: TINY }) {
        lemma_angle(x);
        lemma_opposite_rotation(x, theta, cosine, sine);
    }
    lemma_assembled_transposed(twist_rotation(x, theta, cosine, sine));
}

/// The rotation of the opposite twist by an angle that is not tiny.
proof fn lemma_opposite_rotation(x: Twist, theta: F64, cosine: F64, sine: F64)
    requires
        x.alpha.finite(),
        x.beta.finite(),
        x.gamma.finite(),
        !theta.is_nan(),
        theta.signed().mag != 0,
        !theta.lt(F64 { bits: TINY }),
    ensures
        twist_rotation(opposite(x), theta, cosine, sine) == twist_rotation(
            x,
            theta,
            cosine,
            sine,
        ).transposed(),
{
    let v = (F64 { bits: crate::geometry::ONE }).minus(cosine);
    let (kx, ky, kz) = (x.alpha.over(theta), x.beta.over(theta), x.gamma.over(theta));
    laws::lemma_sign_of_quotient(x.alpha, theta);
    laws::lemma_sign_of_quotient(x.beta, theta);
    laws::lemma_sign_of_quotient(x.gamma, theta);
    laws::lemma_signs_cancel(kx, kx);
    laws::lemma_signs_cancel(ky, ky);
    laws::lemma_signs_cancel(kz, kz);
    laws::lemma_signs_cancel(kx, ky);
    laws::lemma_signs_cancel(kx, kz);
    laws::lemma_signs_cancel(ky, kz);
    laws::lemma_sign_of_term(kx.times(ky).times(v), kz, sine);
    laws::lemma_sign_of_term(kx.times(kz).times(v), ky, sine);
    laws::lemma_sign_of_term(ky.times(kz).times(v), kx, sine);
}

/// Narrowing keeps zero.
proof fn lemma_narrowed_zero()
    ensures
        (F64 { bits: 0 }).narrowed() == (F32 { bits: 0 }),
{
    reveal(F64::spec_converted);
    let fmt = arith::single_format();
    let d = pow2((1074 - 149) as nat);
    arith::lemma_units_zero(53);
    arith::lemma_units_zero(24);
    lemma_pow2_pos((1074 - 149) as nat);
    laws::exact_values_are_kept(fmt, 0, d);
    assert(fmt.units(0) * d == 0) by (nonlinear_arith)
        requires
            fmt.units(0) == 0,
    ;
}

/// A pose at the origin is transposed with its rotation.
proof fn lemma_assembled_transposed(r: M3)
    ensures
        ({
            let zero = V3::new(F64 { bits: 0 }, F64 { bits: 0 }, F64 { bits: 0 });
            Mat4::assembled(r.transposed(), zero) == Mat4::assembled(r, zero).transposed()
        }),
{
    lemma_narrowed_zero();
}

/// A sum of squares of finite numbers, and its root, are numbers.
pub proof fn lemma_angle(x: Twist)
    requires
        x.alpha.finite(),
        x.beta.finite(),
        x.gamma.finite(),
        !twist_angle(x).lt(F64 { bits: TINY }),
    ensures
        !twist_angle(x).is_nan(),
        twist_angle(x).signed().mag != 0,
{
    let (a, b, c) = (x.alpha, x.beta, x.gamma);
    lemma_square(a);
    lemma_square(b);
    lemma_square(c);
    lemma_sum_of_positive(a.times(a), b.times(b));
    lemma_sum_of_positive(a.times(a).plus(b.times(b)), c.times(c));
    let sum = a.times(a).plus(b.times(b)).plus(c.times(c));
    assert(!sum.sqrt().is_nan()) by {
        reveal(F64::spec_sqrt);
        reveal(F64::spec_is_nan);
    }
    assert(sum.sqrt().signed().mag != 0) by {
        reveal(F64::spec_lt);
        reveal(F64::spec_is_nan);
        arith::lemma_units_zero(53);
        arith::lemma_units_ordered(53, 0, TINY as nat);
    }
}

/// A square of a finite number is a number without a sign.
proof fn lemma_square(x: F64)
    requires
        x.finite(),
    ensures
        !x.times(x).is_nan(),
        !x.times(x).signed().neg,
{
    reveal(F64::spec_times);
    reveal(F64::spec_is_nan);
    let fmt = arith::double_format();
    let u = fmt.units(x.signed().mag);
    arith::lemma_round_bounded(fmt, u * u, pow2(fmt.unit as nat));
}

/// A sum of numbers without a sign is one.
proof fn lemma_sum_of_positive(x: F64, y: F64)
    requires
        !x.is_nan(),
        !y.is_nan(),
        !x.signed().neg,
        !y.signed().neg,
    ensures
        !x.plus(y).is_nan(),
        !x.plus(y).signed().neg,
{
    reveal(F64::spec_plus);
    reveal(F64::spec_is_nan);
    let fmt = arith::double_format();
    arith::lemma_round_bounded(fmt, fmt.units(x.signed().mag) + fmt.units(y.signed().mag), 1);
}

/// The pose that a twist stands for, given the cosine and the sine of its angle.
pub fn convert_se3_to_matrix4(x: Twist, cosine: F64, sine: F64) -> (m: Mat4)
    ensures
        m == Mat4::assembled(twist_rotation(x, twist_angle(x), cosine, sine), x.t),
        m.r0.w == x.t.x.narrowed() && m.r1.w == x.t.y.narrowed() && m.r2.w == x.t.z.narrowed(),
        m.r3 == Mat4::pose_row(),
        twist_angle(x).lt(F64 { bits: TINY }) ==> {
            &&& m.r0.x == (F64 { bits: crate::geometry::ONE }).narrowed()
            &&& m.r1.y == m.r0.x && m.r2.z == m.r0.x
            &&& m.r1.x == x.gamma.narrowed() && m.r0.y == x.gamma.negated().narrowed()
            &&& m.r0.z == x.beta.narrowed() && m.r2.x == x.beta.negated().narrowed()
            &&& m.r2.y == x.alpha.narrowed() && m.r1.z == x.alpha.negated().narrowed()
        },
        !twist_angle(x).lt(F64 { bits: TINY }) ==> {
            let kx = x.alpha.over(twist_angle(x));
            let ky = x.beta.over(twist_angle(x));
            let kz = x.gamma.over(twist_angle(x));
            let v = (F64 { bits: crate::geometry::ONE }).minus(cosine);
            &&& m.r0.x == kx.times(kx).times(v).plus(cosine).narrowed()
            &&& m.r1.y == ky.times(ky).times(v).plus(cosine).narrowed()
            &&& m.r2.z == kz.times(kz).times(v).plus(cosine).narrowed()
            &&& m.r1.x == kx.times(ky).times(v).plus(kz.times(sine)).narrowed()
            &&& m.r0.y == kx.times(ky).times(v).minus(kz.times(sine)).narrowed()
            &&& m.r0.z == kx.times(kz).times(v).plus(ky.times(sine)).narrowed()
            &&& m.r2.x == kx.times(kz).times(v).minus(ky.times(sine)).narrowed()
            &&& m.r2.y == ky.times(kz).times(v).plus(kx.times(sine)).narrowed()
            &&& m.r1.z == ky.times(kz).times(v).minus(kx.times(sine)).narrowed()
        },
{
    let theta: F64 = twist_angle(x);
    let one: F64 = F64 { bits: crate::geometry::ONE };
    let r: M3 = if theta.lt(F64 { bits: TINY }) {
        M3 {
            r0: V3::new(one, x.gamma.negated(), x.beta),
            r1: V3::new(x.gamma, one, x.alpha.negated()),
            r2: V3::new(x.beta.negated(), x.alpha, one),
        }
    } else {
        let kx: F64 = x.alpha.over(theta);
        let ky: F64 = x.beta.over(theta);
        let kz: F64 = x.gamma.over(theta);
        let v: F64 = one.minus(cosine);
        M3 {
            r0: V3::new(
                kx.times(kx).times(v).plus(cosine),
                kx.times(ky).times(v).minus(kz.times(sine)),
                kx.times(kz).times(v).plus(ky.times(sine)),
            ),
            r1: V3::new(
                kx.times(ky).times(v).plus(kz.times(sine)),
                ky.times(ky).times(v).plus(cosine),
                ky.times(kz).times(v).minus(kx.times(sine)),
            ),
            r2: V3::new(
                kx.times(kz).times(v).minus(ky.times(sine)),
                ky.times(kz).times(v).plus(kx.times(sine)),
                kz.times(kz).times(v).plus(cosine),
            ),
        }
    };
    Mat4::assembled(r, x.t)
}

/// The log entry for a pose whose rotation is the quaternion `q`.
#[verifier::allow_in_spec]
pub fn extract_pose_from_matrix(timestamp: F64, transform: Mat4, q: Quat) -> PoseData
    returns
        (PoseData {
            timestamp,
            position: transform.position(),
            rotation_quat: Row4 {
                x: q.w.narrowed(),
                y: q.i.narrowed(),
                z: q.j.narrowed(),
                w: q.k.narrowed(),
            },
        }),
{
    PoseData {
        timestamp,
        position: transform.position(),
        rotation_quat: Row4 {
            x: q.w.narrowed(),
            y: q.i.narrowed(),
            z: q.j.narrowed(),
            w: q.k.narrowed(),
        },
    }
}

/// A row with the position of a pose added.
#[verifier::allow_in_spec]
pub fn translated(row: P3, transform: Mat4) -> P3
    returns
        (P3 {
            x: row.x.plus(transform.r0.w),
            y: row.y.plus(transform.r1.w),
            z: row.z.plus(transform.r2.w),
        }),
{
    P3 {
        x: row.x.plus(transform.r0.w),
        y: row.y.plus(transform.r1.w),
        z: row.z.plus(transform.r2.w),
    }
}

/// Turned rows, moved by the position of a pose.
pub open spec fn translated_rows(rotated: Seq<P3>, transform: Mat4) -> Seq<P3> {
    rotated.map_values(|p: P3| translated(p, transform))
}

/// Every turned row is moved by the position of the pose, and none is left out.
pub proof fn every_row_is_moved(rotated: Seq<P3>, transform: Mat4)
    ensures
        translated_rows(rotated, transform).len() == rotated.len(),
        forall|k: int|
            0 <= k < rotated.len() ==> #[trigger] translated_rows(rotated, transform)[k] == (P3 {
                x: rotated[k].x.plus(transform.r0.w),
                y: rotated[k].y.plus(transform.r1.w),
                z: rotated[k].z.plus(transform.r2.w),
            }),
{
}

/// The rows of a cloud moved by a pose, given the rows that its rotation yields.
pub fn transform_points(rotated: &Vec<P3>, transform: Mat4) -> (moved: Vec<P3>)
    ensures
        moved@ == translated_rows(rotated@, transform),
        moved.len() == rotated.len(),
        forall|k: int|
            0 <= k < rotated.len() ==> #[trigger] moved[k] == (P3 {
                x: rotated[k].x.plus(transform.r0.w),
                y: rotated[k].y.plus(transform.r1.w),
                z: rotated[k].z.plus(transform.r2.w),
            }),
{
    let mut moved: Vec<P3> = Vec::new();
    let mut i: usize = 0;
    while i < rotated.len()
        invariant
            i <= rotated.len(),
            moved.len() == i,
            forall|k: int| 0 <= k < i ==> #[trigger] moved[k] == translated(rotated[k], transform),
        decreases rotated.len() - i,
    {
        moved.push(translated(rotated[i], transform));
        i = i + 1;
    }
    assert(moved@ =~= translated_rows(rotated@, transform));
    moved
}

/// A covariance turned by a rotation.
#[verifier::allow_in_spec]
pub fn turned(r: M3, cov: M3) -> M3
    returns
        r.times(cov).times(r.transposed()),
{
    r.times(cov).times(r.transposed())
}

/// The covariances turned by the rotation of a pose.
pub fn transform_covariances(covs: &Vec<M3>, transform: Mat4) -> (out: Vec<M3>)
    ensures
        out@ == covs@.map_values(|c: M3| turned(transform.rotation(), c)),
        out.len() == covs.len(),
        forall|k: int|
            0 <= k < covs.len() ==> #[trigger] out[k] == transform.rotation().times(covs[k]).times(
                transform.rotation().transposed(),
            ),
{
    let r: M3 = transform.rotation();
    let mut out: Vec<M3> = Vec::new();
    let mut i: usize = 0;
    while i < covs.len()
        invariant
            i <= covs.len(),
            out.len() == i,
            r == transform.rotation(),
            forall|k: int| 0 <= k < i ==> #[trigger] out[k] == turned(r, covs[k]),
        decreases covs.len() - i,
    {
        out.push(turned(r, covs[i]));
        i = i + 1;
    }
    assert(out@ =~= covs@.map_values(|c: M3| turned(transform.rotation(), c)));
    out
}

} // verus!
