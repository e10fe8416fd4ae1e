//! The 32-bit floating-point type.

use vstd::prelude::*;
use vstd::arithmetic::power2::pow2;

use crate::float::arith;
use crate::float::arith::{
    add_signed, convert_signed, div_signed, floor_signed, less_signed, mul_signed, sqrt_signed, whole_mag,
    whole_part, Signed,
};
use crate::float::double::F64;

verus! {

/// A 32-bit binary floating-point number, held by its bit pattern.
#[derive(Clone, Copy, PartialEq, Eq, Structural, Debug)]
pub struct F32 {
    pub bits: u32,
}

impl F32 {
    /// The sign and the magnitude pattern.
    pub open spec fn signed(self) -> Signed {
        Signed { neg: self.bits >= 0x8000_0000, mag: (self.bits % 0x8000_0000) as u64 }
    }

    /// The number with the given sign and magnitude pattern.
    pub open spec fn of_signed(s: Signed) -> F32 {
        F32 {
            bits: (if s.neg {
                s.mag + 0x8000_0000
            } else {
                s.mag as int
            }) as u32,
        }
    }

    /// The value as a whole number of units; see `arith::Format::value`.
    pub open spec fn value(self) -> int {
        arith::single_format().value(self.signed())
    }

    /// Neither infinite nor a not-a-number.
    pub open spec fn finite(self) -> bool {
        self.signed().mag < arith::single_format().inf
    }

    #[verifier::opaque]
    pub open spec fn spec_plus(self, other: F32) -> F32 {
        F32::of_signed(arith::single_format().sum(self.signed(), other.signed()))
    }

    #[verifier::opaque]
    pub open spec fn spec_times(self, other: F32) -> F32 {
        F32::of_signed(arith::single_format().product(self.signed(), other.signed()))
    }

    #[verifier::opaque]
    pub open spec fn spec_over(self, other: F32) -> F32 {
        F32::of_signed(arith::single_format().quotient(self.signed(), other.signed()))
    }

    #[verifier::opaque]
    pub open spec fn spec_sqrt(self) -> F32 {
        F32::of_signed(arith::single_format().root(self.signed()))
    }

    #[verifier::opaque]
    pub open spec fn spec_lt(self, other: F32) -> bool {
        arith::single_format().less(self.signed(), other.signed())
    }

    #[verifier::opaque]
    pub open spec fn spec_is_nan(self) -> bool {
        arith::single_format().is_nan(self.signed())
    }

    #[verifier::opaque]
    pub open spec fn spec_converted(self) -> F64 {
        F64::of_signed(
            arith::single_format().converted(arith::double_format(), self.signed()),
        )
    }

    #[verifier::opaque]
    pub open spec fn spec_from_count(i: u64) -> F32 {
        F32 { bits: arith::single_format().whole(i as nat) as u32 }
    }

    pub open spec fn spec_negated(self) -> F32 {
        F32 {
            bits: (if self.bits >= 0x8000_0000 {
                self.bits - 0x8000_0000
            } else {
                self.bits + 0x8000_0000
            }) as u32,
        }
    }

    pub open spec fn spec_minus(self, other: F32) -> F32 {
        self.spec_plus(other.spec_negated())
    }

    pub open spec fn spec_magnitude(self) -> F32 {
        F32 { bits: (self.bits % 0x8000_0000) as u32 }
    }

    /// At most: neither is a not-a-number and the other is not less.
    pub open spec fn spec_le(self, other: F32) -> bool {
        !self.spec_is_nan() && !other.spec_is_nan() && !other.spec_lt(self)
    }

    fn split(self) -> (s: Signed)
        ensures
            s == self.signed(),
            s.mag < 0x8000_0000,
    {
        Signed { neg: self.bits >= 0x8000_0000, mag: (self.bits % 0x8000_0000) as u64 }
    }

    pub(crate) fn join(s: Signed) -> (r: F32)
        requires
            s.mag < 0x8000_0000,
        ensures
            r == F32::of_signed(s),
    {
        if s.neg {
            F32 { bits: s.mag as u32 + 0x8000_0000 }
        } else {
            F32 { bits: s.mag as u32 }
        }
    }

    /// The number with the given bit pattern.
    pub fn from_bits(bits: u32) -> (r: F32)
        ensures
            r.bits == bits,
    {
        F32 { bits }
    }

    /// The sum, rounded to the nearest number, ties to even.
    #[verifier::when_used_as_spec(spec_plus)]
    pub fn plus(self, other: F32) -> (r: F32)
        ensures
            r == self.spec_plus(other),
    {
        proof {
            reveal(F32::spec_plus);
        }
        let s: Signed = add_signed(arith::single(), self.split(), other.split());
        F32::join(s)
    }

    /// The difference, rounded to the nearest number, ties to even.
    #[verifier::when_used_as_spec(spec_minus)]
    pub fn minus(self, other: F32) -> (r: F32)
        ensures
            r == self.spec_minus(other),
    {
        self.plus(other.negated())
    }

    /// The product, rounded to the nearest number, ties to even.
    #[verifier::when_used_as_spec(spec_times)]
    pub fn times(self, other: F32) -> (r: F32)
        ensures
            r == self.spec_times(other),
    {
        proof {
            reveal(F32::spec_times);
        }
        let s: Signed = mul_signed(arith::single(), self.split(), other.split());
        F32::join(s)
    }

    /// The quotient, rounded to the nearest number, ties to even.
    #[verifier::when_used_as_spec(spec_over)]
    pub fn over(self, other: F32) -> (r: F32)
        ensures
            r == self.spec_over(other),
    {
        proof {
            reveal(F32::spec_over);
        }
        let s: Signed = div_signed(arith::single(), self.split(), other.split());
        F32::join(s)
    }

    /// The square root, rounded to the nearest number.
    #[verifier::when_used_as_spec(spec_sqrt)]
    pub fn sqrt(self) -> (r: F32)
        ensures
            r == self.spec_sqrt(),
    {
        proof {
            reveal(F32::spec_sqrt);
        }
        let s: Signed = sqrt_signed(arith::single(), self.split());
        F32::join(s)
    }

    /// Whether this number is less than the other.
    #[verifier::when_used_as_spec(spec_lt)]
    pub fn lt(self, other: F32) -> (r: bool)
        ensures
            r == self.spec_lt(other),
    {
        proof {
            reveal(F32::spec_lt);
        }
        less_signed(arith::single(), self.split(), other.split())
    }

    /// Whether this number is at most the other.
    #[verifier::when_used_as_spec(spec_le)]
    pub fn le(self, other: F32) -> (r: bool)
        ensures
            r == self.spec_le(other),
    {
        !self.is_nan() && !other.is_nan() && !other.lt(self)
    }

    /// Whether this is a not-a-number.
    #[verifier::when_used_as_spec(spec_is_nan)]
    pub fn is_nan(self) -> (r: bool)
        ensures
            r == self.spec_is_nan(),
    {
        proof {
            reveal(F32::spec_is_nan);
        }
        self.split().mag > arith::single().inf
    }

    /// The number with the other sign.
    #[verifier::when_used_as_spec(spec_negated)]
    pub fn negated(self) -> (r: F32)
        ensures
            r == self.spec_negated(),
    {
        if self.bits >= 0x8000_0000 {
            F32 { bits: self.bits - 0x8000_0000 }
        } else {
            F32 { bits: self.bits + 0x8000_0000 }
        }
    }

    /// The number without its sign.
    #[verifier::when_used_as_spec(spec_magnitude)]
    pub fn magnitude(self) -> (r: F32)
        ensures
            r == self.spec_magnitude(),
    {
        F32 { bits: self.bits % 0x8000_0000 }
    }

    /// The number nearest to a count.
    #[verifier::when_used_as_spec(spec_from_count)]
    pub fn from_count(i: u64) -> (r: F32)
        ensures
            r == F32::spec_from_count(i),
    {
        proof {
            reveal(F32::spec_from_count);
        }
        F32 { bits: whole_mag(arith::single(), i) as u32 }
    }

    /// The same number in 64 bits.
    #[verifier::when_used_as_spec(spec_converted)]
    pub fn widened(self) -> (r: F64)
        ensures
            r == self.spec_converted(),
    {
        proof {
            reveal(F32::spec_converted);
        }
        let s: Signed = convert_signed(arith::single(), arith::double(), self.split());
        F64::join(s)
    }

    /// The floor as a 32-bit integer: zero for a not-a-number, and the nearest end of the range
    /// for what lies outside it.
    #[verifier::opaque]
    pub open spec fn spec_floor_i32(self) -> i32 {
        let x = self.signed();
        let fmt = arith::single_format();
        if fmt.is_nan(x) {
            0
        } else if x.mag == fmt.inf {
            if x.neg {
                i32::MIN
            } else {
                i32::MAX
            }
        } else {
            arith::within_i32(fmt.floored(x)) as i32
        }
    }

    /// The floor as a 32-bit integer; see `spec_floor_i32`.
    #[verifier::when_used_as_spec(spec_floor_i32)]
    pub fn floor_i32(self) -> (r: i32)
        ensures
            r == self.spec_floor_i32(),
    {
        proof {
            reveal(F32::spec_floor_i32);
        }
        let x: Signed = self.split();
        if x.mag > arith::single().inf {
            0
        } else if x.mag == arith::single().inf {
            if x.neg {
                i32::MIN
            } else {
                i32::MAX
            }
        } else {
            floor_signed(arith::single(), x)
        }
    }

    /// The whole part as an index: zero for a not-a-number and below zero, and the largest index
    /// for what lies above it.
    #[verifier::opaque]
    pub open spec fn spec_trunc_usize(self) -> usize {
        let x = self.signed();
        let fmt = arith::single_format();
        let whole = fmt.units(x.mag) / pow2(fmt.unit as nat);
        if fmt.is_nan(x) || x.neg {
            0
        } else if x.mag == fmt.inf || whole > usize::MAX {
            usize::MAX
        } else {
            whole as usize
        }
    }

    /// The whole part as an index; see `spec_trunc_usize`.
    #[verifier::when_used_as_spec(spec_trunc_usize)]
    pub fn trunc_usize(self) -> (r: usize)
        ensures
            r == self.spec_trunc_usize(),
    {
        proof {
            reveal(F32::spec_trunc_usize);
        }
        let x: Signed = self.split();
        if x.mag > arith::single().inf || x.neg {
            0
        } else if x.mag == arith::single().inf {
            usize::MAX
        } else {
            let (w, _) = whole_part(arith::single(), x.mag);
            if w > usize::MAX as u128 {
                usize::MAX
            } else {
                w as usize
            }
        }
    }
}

} // verus!
