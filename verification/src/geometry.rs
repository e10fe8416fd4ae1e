//! Vectors, matrices and quaternions over 64-bit numbers.
//!
//! Every operation states the order in which its roundings happen.

use vstd::prelude::*;

use crate::float::double::F64;

verus! {

/// The bit pattern of 2.
pub const TWO: u64 = 0x4000_0000_0000_0000;

/// The bit pattern of 1.
pub const ONE: u64 = 0x3ff0_0000_0000_0000;

/// A vector with three components.
#[derive(Clone, Copy, PartialEq, Eq, Structural, Debug)]
pub struct V3 {
    pub x: F64,
    pub y: F64,
    pub z: F64,
}

/// A 3 by 3 matrix, by its rows.
#[derive(Clone, Copy, PartialEq, Eq, Structural, Debug)]
pub struct M3 {
    pub r0: V3,
    pub r1: V3,
    pub r2: V3,
}

/// A quaternion with the scalar part `w`.
#[derive(Clone, Copy, PartialEq, Eq, Structural, Debug)]
pub struct Quat {
    pub w: F64,
    pub i: F64,
    pub j: F64,
    pub k: F64,
}

impl V3 {
    #[verifier::allow_in_spec]
    pub fn new(x: F64, y: F64, z: F64) -> V3
        returns
            (V3 { x, y, z }),
    {
        V3 { x, y, z }
    }

    /// The sum, component by component.
    #[verifier::allow_in_spec]
    pub fn plus(self, o: V3) -> V3
        returns
            (V3 { x: self.x.plus(o.x), y: self.y.plus(o.y), z: self.z.plus(o.z) }),
    {
        V3 { x: self.x.plus(o.x), y: self.y.plus(o.y), z: self.z.plus(o.z) }
    }

    /// The difference, component by component.
    #[verifier::allow_in_spec]
    pub fn minus(self, o: V3) -> V3
        returns
            (V3 { x: self.x.minus(o.x), y: self.y.minus(o.y), z: self.z.minus(o.z) }),
    {
        V3 { x: self.x.minus(o.x), y: self.y.minus(o.y), z: self.z.minus(o.z) }
    }

    /// Each component times `s`.
    #[verifier::allow_in_spec]
    pub fn scaled(self, s: F64) -> V3
        returns
            (V3 { x: self.x.times(s), y: self.y.times(s), z: self.z.times(s) }),
    {
        V3 { x: self.x.times(s), y: self.y.times(s), z: self.z.times(s) }
    }

    /// Each component divided by `s`.
    #[verifier::allow_in_spec]
    pub fn divided(self, s: F64) -> V3
        returns
            (V3 { x: self.x.over(s), y: self.y.over(s), z: self.z.over(s) }),
    {
        V3 { x: self.x.over(s), y: self.y.over(s), z: self.z.over(s) }
    }

    /// The inner product, summed from the first component on.
    #[verifier::allow_in_spec]
    pub fn dot(self, o: V3) -> F64
        returns
            self.x.times(o.x).plus(self.y.times(o.y)).plus(self.z.times(o.z)),
    {
        self.x.times(o.x).plus(self.y.times(o.y)).plus(self.z.times(o.z))
    }

    /// The Euclidean length.
    #[verifier::allow_in_spec]
    pub fn norm(self) -> F64
        returns
            self.dot(self).sqrt(),
    {
        self.dot(self).sqrt()
    }

    /// The vector product.
    #[verifier::allow_in_spec]
    pub fn cross(self, o: V3) -> V3
        returns
            (V3 {
                x: self.y.times(o.z).minus(self.z.times(o.y)),
                y: self.z.times(o.x).minus(self.x.times(o.z)),
                z: self.x.times(o.y).minus(self.y.times(o.x)),
            }),
    {
        V3 {
            x: self.y.times(o.z).minus(self.z.times(o.y)),
            y: self.z.times(o.x).minus(self.x.times(o.z)),
            z: self.x.times(o.y).minus(self.y.times(o.x)),
        }
    }

    /// The vector, shortened to the length `max` where it is longer.
    #[verifier::allow_in_spec]
    pub fn capped(self, max: F64) -> V3
        returns
            (if max.lt(self.norm()) {
                self.scaled(max.over(self.norm()))
            } else {
                self
            }),
    {
        let n: F64 = self.norm();
        if max.lt(n) {
            self.scaled(max.over(n))
        } else {
            self
        }
    }
}

impl M3 {
    /// The matrix applied to a vector.
    #[verifier::allow_in_spec]
    pub fn apply(self, v: V3) -> V3
        returns
            (V3 { x: self.r0.dot(v), y: self.r1.dot(v), z: self.r2.dot(v) }),
    {
        V3 { x: self.r0.dot(v), y: self.r1.dot(v), z: self.r2.dot(v) }
    }

    /// The sum, entry by entry.
    #[verifier::allow_in_spec]
    pub fn plus(self, o: M3) -> M3
        returns
            (M3 { r0: self.r0.plus(o.r0), r1: self.r1.plus(o.r1), r2: self.r2.plus(o.r2) }),
    {
        M3 { r0: self.r0.plus(o.r0), r1: self.r1.plus(o.r1), r2: self.r2.plus(o.r2) }
    }

    /// The transpose.
    #[verifier::allow_in_spec]
    pub fn transposed(self) -> M3
        returns
            (M3 {
                r0: V3::new(self.r0.x, self.r1.x, self.r2.x),
                r1: V3::new(self.r0.y, self.r1.y, self.r2.y),
                r2: V3::new(self.r0.z, self.r1.z, self.r2.z),
            }),
    {
        M3 {
            r0: V3::new(self.r0.x, self.r1.x, self.r2.x),
            r1: V3::new(self.r0.y, self.r1.y, self.r2.y),
            r2: V3::new(self.r0.z, self.r1.z, self.r2.z),
        }
    }

    /// The matrix product: each entry is the inner product of a row and a column.
    #[verifier::allow_in_spec]
    pub fn times(self, o: M3) -> M3
        returns
            (M3 {
                r0: o.transposed().apply(self.r0),
                r1: o.transposed().apply(self.r1),
                r2: o.transposed().apply(self.r2),
            }),
    {
        let t: M3 = o.transposed();
        M3 { r0: t.apply(self.r0), r1: t.apply(self.r1), r2: t.apply(self.r2) }
    }
}

impl Quat {
    /// The rotation that changes nothing.
    #[verifier::allow_in_spec]
    pub fn identity() -> Quat
        returns
            (Quat {
                w: F64 { bits: ONE },
                i: F64 { bits: 0 },
                j: F64 { bits: 0 },
                k: F64 { bits: 0 },
            }),
    {
        Quat { w: F64 { bits: ONE }, i: F64 { bits: 0 }, j: F64 { bits: 0 }, k: F64 { bits: 0 } }
    }

    /// The vector part.
    #[verifier::allow_in_spec]
    pub fn vector(self) -> V3
        returns
            (V3 { x: self.i, y: self.j, z: self.k }),
    {
        V3 { x: self.i, y: self.j, z: self.k }
    }

    /// The quaternion product.
    #[verifier::allow_in_spec]
    pub fn times(self, o: Quat) -> Quat
        returns
            (Quat {
                w: self.w.times(o.w).minus(self.i.times(o.i)).minus(self.j.times(o.j)).minus(
                    self.k.times(o.k),
                ),
                i: self.w.times(o.i).plus(self.i.times(o.w)).plus(self.j.times(o.k)).minus(
                    self.k.times(o.j),
                ),
                j: self.w.times(o.j).minus(self.i.times(o.k)).plus(self.j.times(o.w)).plus(
                    self.k.times(o.i),
                ),
                k: self.w.times(o.k).plus(self.i.times(o.j)).minus(self.j.times(o.i)).plus(
                    self.k.times(o.w),
                ),
            }),
    {
        Quat {
            w: self.w.times(o.w).minus(self.i.times(o.i)).minus(self.j.times(o.j)).minus(
                self.k.times(o.k),
            ),
            i: self.w.times(o.i).plus(self.i.times(o.w)).plus(self.j.times(o.k)).minus(
                self.k.times(o.j),
            ),
            j: self.w.times(o.j).minus(self.i.times(o.k)).plus(self.j.times(o.w)).plus(
                self.k.times(o.i),
            ),
            k: self.w.times(o.k).plus(self.i.times(o.j)).minus(self.j.times(o.i)).plus(
                self.k.times(o.w),
            ),
        }
    }

    /// The inverse of a rotation.
    #[verifier::allow_in_spec]
    pub fn conjugate(self) -> Quat
        returns
            (Quat { w: self.w, i: self.i.negated(), j: self.j.negated(), k: self.k.negated() }),
    {
        Quat { w: self.w, i: self.i.negated(), j: self.j.negated(), k: self.k.negated() }
    }

    /// The length in four dimensions.
    #[verifier::allow_in_spec]
    pub fn norm(self) -> F64
        returns
            self.i.times(self.i).plus(self.k.times(self.k)).plus(
                self.j.times(self.j).plus(self.w.times(self.w)),
            ).sqrt(),
    {
        self.i.times(self.i).plus(self.k.times(self.k)).plus(
            self.j.times(self.j).plus(self.w.times(self.w)),
        ).sqrt()
    }

    /// The quaternion, divided by its length.
    #[verifier::allow_in_spec]
    pub fn normalized(self) -> Quat
        returns
            (Quat {
                w: self.w.over(self.norm()),
                i: self.i.over(self.norm()),
                j: self.j.over(self.norm()),
                k: self.k.over(self.norm()),
            }),
    {
        let n: F64 = self.norm();
        Quat { w: self.w.over(n), i: self.i.over(n), j: self.j.over(n), k: self.k.over(n) }
    }

    /// Twice the vector product of the vector part with `v`.
    #[verifier::allow_in_spec]
    pub fn twist(self, v: V3) -> V3
        returns
            self.vector().cross(v).scaled(F64 { bits: TWO }),
    {
        self.vector().cross(v).scaled(F64 { bits: TWO })
    }

    /// The rotation applied to a vector.
    #[verifier::allow_in_spec]
    pub fn rotate(self, v: V3) -> V3
        returns
            self.twist(v).scaled(self.w).plus(self.vector().cross(self.twist(v))).plus(v),
    {
        let t: V3 = self.twist(v);
        t.scaled(self.w).plus(self.vector().cross(t)).plus(v)
    }

    /// The matrix of the rotation.
    #[verifier::allow_in_spec]
    pub fn to_matrix(self) -> M3
        returns
            ({
                let two = F64 { bits: TWO };
                let (ww, ii) = (self.w.times(self.w), self.i.times(self.i));
                let (jj, kk) = (self.j.times(self.j), self.k.times(self.k));
                let (ij, wk) = (self.i.times(self.j).times(two), self.w.times(self.k).times(two));
                let (wj, ik) = (self.w.times(self.j).times(two), self.i.times(self.k).times(two));
                let (jk, wi) = (self.j.times(self.k).times(two), self.w.times(self.i).times(two));
                M3 {
                    r0: V3::new(ww.plus(ii).minus(jj).minus(kk), ij.minus(wk), wj.plus(ik)),
                    r1: V3::new(wk.plus(ij), ww.minus(ii).plus(jj).minus(kk), jk.minus(wi)),
                    r2: V3::new(ik.minus(wj), wi.plus(jk), ww.minus(ii).minus(jj).plus(kk)),
                }
            }),
    {
        let two: F64 = F64 { bits: TWO };
        let (ww, ii): (F64, F64) = (self.w.times(self.w), self.i.times(self.i));
        let (jj, kk): (F64, F64) = (self.j.times(self.j), self.k.times(self.k));
        let (ij, wk): (F64, F64) = (
            self.i.times(self.j).times(two),
            self.w.times(self.k).times(two),
        );
        let (wj, ik): (F64, F64) = (
            self.w.times(self.j).times(two),
            self.i.times(self.k).times(two),
        );
        let (jk, wi): (F64, F64) = (
            self.j.times(self.k).times(two),
            self.w.times(self.i).times(two),
        );
        M3 {
            r0: V3::new(ww.plus(ii).minus(jj).minus(kk), ij.minus(wk), wj.plus(ik)),
            r1: V3::new(wk.plus(ij), ww.minus(ii).plus(jj).minus(kk), jk.minus(wi)),
            r2: V3::new(ik.minus(wj), wi.plus(jk), ww.minus(ii).minus(jj).plus(kk)),
        }
    }
}

} // verus!
