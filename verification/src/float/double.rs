//! The 64-bit floating-point type.

use vstd::prelude::*;

use crate::float::arith;
use crate::float::arith::{
    add_signed, convert_signed, div_signed, less_signed, mul_signed, sqrt_signed, whole_mag, Signed,
};
use crate::float::single::F32;

verus! {

/// A 64-bit binary floating-point number, held by its bit pattern.
#[derive(Clone, Copy, PartialEq, Eq, Structural, Debug)]
pub struct F64 {
    pub bits: u64,
}

impl F64 {
    /// The sign and the magnitude pattern.
    pub open spec fn signed(self) -> Signed {
        Signed { neg: self.bits >= 0x8000_0000_0000_0000, mag: (self.bits % 0x8000_0000_0000_0000) as u64 }
    }

    /// The number with the given sign and magnitude pattern.
    pub open spec fn of_signed(s: Signed) -> F64 {
        F64 {
            bits: (if s.neg {
                s.mag + 0x8000_0000_0000_0000
            } else {
                s.mag as int
            }) as u64,
        }
    }

    /// The value as a whole number of units; see `arith::Format::value`.
    pub open spec fn value(self) -> int {
        arith::double_format().value(self.signed())
    }

    /// Neither infinite nor a not-a-number.
    pub open spec fn finite(self) -> bool {
        self.signed().mag < arith::double_format().inf
    }

    #[verifier::opaque]
    pub open spec fn spec_plus(self, other: F64) -> F64 {
        F64::of_signed(arith::double_format().sum(self.signed(), other.signed()))
    }

    #[verifier::opaque]
    pub open spec fn spec_times(self, other: F64) -> F64 {
        F64::of_signed(arith::double_format().product(self.signed(), other.signed()))
    }

    #[verifier::opaque]
    pub open spec fn spec_over(self, other: F64) -> F64 {
        F64::of_signed(arith::double_format().quotient(self.signed(), other.signed()))
    }

    #[verifier::opaque]
    pub open spec fn spec_sqrt(self) -> F64 {
        F64::of_signed(arith::double_format().root(self.signed()))
    }

    #[verifier::opaque]
    pub open spec fn spec_lt(self, other: F64) -> bool {
        arith::double_format().less(self.signed(), other.signed())
    }

    #[verifier::opaque]
    pub open spec fn spec_is_nan(self) -> bool {
        arith::double_format().is_nan(self.signed())
    }

    #[verifier::opaque]
    pub open spec fn spec_converted(self) -> F32 {
        F32::of_signed(
            arith::double_format().converted(arith::single_format(), self.signed()),
        )
    }

    #[verifier::opaque]
    pub open spec fn spec_from_count(i: u64) -> F64 {
        F64 { bits: arith::double_format().whole(i as nat) as u64 }
    }

    pub open spec fn spec_negated(self) -> F64 {
        F64 {
            bits: (if self.bits >= 0x8000_0000_0000_0000 {
                self.bits - 0x8000_0000_0000_0000
            } else {
                self.bits + 0x8000_0000_0000_0000
            }) as u64,
        }
    }

    pub open spec fn spec_minus(self, other: F64) -> F64 {
        self.spec_plus(other.spec_negated())
    }

    pub open spec fn spec_magnitude(self) -> F64 {
        F64 { bits: (self.bits % 0x8000_0000_0000_0000) as u64 }
    }

    /// At most: neither is a not-a-number and the other is not less.
    pub open spec fn spec_le(self, other: F64) -> bool {
        !self.spec_is_nan() && !other.spec_is_nan() && !other.spec_lt(self)
    }

    fn split(self) -> (s: Signed)
        ensures
            s == self.signed(),
            s.mag < 0x8000_0000_0000_0000,
    {
        Signed { neg: self.bits >= 0x8000_0000_0000_0000, mag: (self.bits % 0x8000_0000_0000_0000) as u64 }
    }

    pub(crate) fn join(s: Signed) -> (r: F64)
        requires
            s.mag < 0x8000_0000_0000_0000,
        ensures
            r == F64::of_signed(s),
    {
        if s.neg {
            F64 { bits: s.mag as u64 + 0x8000_0000_0000_0000 }
        } else {
            F64 { bits: s.mag as u64 }
        }
    }

    /// The number with the given bit pattern.
    pub fn from_bits(bits: u64) -> (r: F64)
        ensures
            r.bits == bits,
    {
        F64 { bits }
    }

    /// The sum, rounded to the nearest number, ties to even.
    #[verifier::when_used_as_spec(spec_plus)]
    pub fn plus(self, other: F64) -> (r: F64)
        ensures
            r == self.spec_plus(other),
    {
        proof {
            reveal(F64::spec_plus);
        }
        let s: Signed = add_signed(arith::double(), self.split(), other.split());
        F64::join(s)
    }

    /// The difference, rounded to the nearest number, ties to even.
    #[verifier::when_used_as_spec(spec_minus)]
    pub fn minus(self, other: F64) -> (r: F64)
        ensures
            r == self.spec_minus(other),
    {
        self.plus(other.negated())
    }

    /// The product, rounded to the nearest number, ties to even.
    #[verifier::when_used_as_spec(spec_times)]
    pub fn times(self, other: F64) -> (r: F64)
        ensures
            r == self.spec_times(other),
    {
        proof {
            reveal(F64::spec_times);
        }
        let s: Signed = mul_signed(arith::double(), self.split(), other.split());
        F64::join(s)
    }

    /// The quotient, rounded to the nearest number, ties to even.
    #[verifier::when_used_as_spec(spec_over)]
    pub fn over(self, other: F64) -> (r: F64)
        ensures
            r == self.spec_over(other),
    {
        proof {
            reveal(F64::spec_over);
        }
        let s: Signed = div_signed(arith::double(), self.split(), other.split());
        F64::join(s)
    }

    /// The square root, rounded to the nearest number.
    #[verifier::when_used_as_spec(spec_sqrt)]
    pub fn sqrt(self) -> (r: F64)
        ensures
            r == self.spec_sqrt(),
    {
        proof {
            reveal(F64::spec_sqrt);
        }
        let s: Signed = sqrt_signed(arith::double(), self.split());
        F64::join(s)
    }

    /// Whether this number is less than the other.
    #[verifier::when_used_as_spec(spec_lt)]
    pub fn lt(self, other: F64) -> (r: bool)
        ensures
            r == self.spec_lt(other),
    {
        proof {
            reveal(F64::spec_lt);
        }
        less_signed(arith::double(), self.split(), other.split())
    }

    /// Whether this number is at most the other.
    #[verifier::when_used_as_spec(spec_le)]
    pub fn le(self, other: F64) -> (r: bool)
        ensures
            r == self.spec_le(other),
    {
        !self.is_nan() && !other.is_nan() && !other.lt(self)
    }

    /// Whether this is a not-a-number.
    #[verifier::when_used_as_spec(spec_is_nan)]
    pub fn is_nan(self) -> (r: bool)
        ensures
            r == self.spec_is_nan(),
    {
        proof {
            reveal(F64::spec_is_nan);
        }
        self.split().mag > arith::double().inf
    }

    /// The number with the other sign.
    #[verifier::when_used_as_spec(spec_negated)]
    pub fn negated(self) -> (r: F64)
        ensures
            r == self.spec_negated(),
    {
        if self.bits >= 0x8000_0000_0000_0000 {
            F64 { bits: self.bits - 0x8000_0000_0000_0000 }
        } else {
            F64 { bits: self.bits + 0x8000_0000_0000_0000 }
        }
    }

    /// The number without its sign.
    #[verifier::when_used_as_spec(spec_magnitude)]
    pub fn magnitude(self) -> (r: F64)
        ensures
            r == self.spec_magnitude(),
    {
        F64 { bits: self.bits % 0x8000_0000_0000_0000 }
    }

    /// The number nearest to a count.
    #[verifier::when_used_as_spec(spec_from_count)]
    pub fn from_count(i: u64) -> (r: F64)
        ensures
            r == F64::spec_from_count(i),
    {
        proof {
            reveal(F64::spec_from_count);
        }
        F64 { bits: whole_mag(arith::double(), i) as u64 }
    }

    /// The nearest number in 32 bits.
    #[verifier::when_used_as_spec(spec_converted)]
    pub fn narrowed(self) -> (r: F32)
        ensures
            r == self.spec_converted(),
    {
        proof {
            reveal(F64::spec_converted);
        }
        let s: Signed = convert_signed(arith::double(), arith::single(), self.split());
        F32::join(s)
    }
}

} // verus!
