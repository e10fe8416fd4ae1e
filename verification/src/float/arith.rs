//! Arithmetic on signed magnitudes of a binary floating-point format.

use vstd::prelude::*;
use vstd::arithmetic::div_mod::*;
use vstd::arithmetic::mul::*;
use vstd::arithmetic::power2::*;

use crate::float::rounding;

verus! {

/// A binary interchange format: `p` significant bits, the patterns of infinity and of the
/// quiet not-a-number, and a smallest positive value of `2^-unit`.
#[derive(Clone, Copy, PartialEq, Eq, Structural, Debug)]
pub struct Format {
    pub p: u32,
    pub inf: u64,
    pub nan: u64,
    pub unit: u32,
}

/// The 32-bit format.
pub open spec fn single_format() -> Format {
    Format { p: 24, inf: 0x7f80_0000, nan: 0x7fc0_0000, unit: 149 }
}

/// The 64-bit format.
pub open spec fn double_format() -> Format {
    Format { p: 53, inf: 0x7ff0_0000_0000_0000, nan: 0x7ff8_0000_0000_0000, unit: 1074 }
}

/// The 32-bit format.
#[verifier::when_used_as_spec(single_format)]
pub fn single() -> (fmt: Format)
    ensures
        fmt == single_format(),
{
    Format { p: 24, inf: 0x7f80_0000, nan: 0x7fc0_0000, unit: 149 }
}

/// The 64-bit format.
#[verifier::when_used_as_spec(double_format)]
pub fn double() -> (fmt: Format)
    ensures
        fmt == double_format(),
{
    Format { p: 53, inf: 0x7ff0_0000_0000_0000, nan: 0x7ff8_0000_0000_0000, unit: 1074 }
}

/// A value of a format: its sign and the pattern of its magnitude.
#[derive(Clone, Copy, PartialEq, Eq, Structural, Debug)]
pub struct Signed {
    pub neg: bool,
    pub mag: u64,
}

impl Format {
    /// One of the two interchange formats.
    pub open spec fn valid(self) -> bool {
        self == single_format() || self == double_format()
    }

    /// The number of units of a magnitude; infinity counts as the power of two past the
    /// largest finite value.
    pub open spec fn units(self, mag: u64) -> nat {
        rounding::units(self.p as nat, mag as nat)
    }

    /// The magnitude nearest to `n / d` units.
    pub open spec fn round(self, n: nat, d: nat) -> u64 {
        rounding::round_mag(self.p as nat, self.inf as nat, n, d) as u64
    }

    pub open spec fn is_nan(self, x: Signed) -> bool {
        x.mag > self.inf
    }

    pub open spec fn quiet_nan(self) -> Signed {
        Signed { neg: false, mag: self.nan }
    }

    /// The value of `x` as a whole number of units.
    pub open spec fn value(self, x: Signed) -> int {
        if x.neg {
            -(self.units(x.mag) as int)
        } else {
            self.units(x.mag) as int
        }
    }

    /// The rounded sum.
    pub open spec fn sum(self, a: Signed, b: Signed) -> Signed {
        if self.is_nan(a) || self.is_nan(b) {
            self.quiet_nan()
        } else if a.mag == self.inf {
            if b.mag == self.inf && a.neg != b.neg {
                self.quiet_nan()
            } else {
                a
            }
        } else if b.mag == self.inf {
            b
        } else {
            let v = self.value(a) + self.value(b);
            if v == 0 {
                Signed { neg: a.neg && b.neg, mag: 0 }
            } else {
                Signed { neg: v < 0, mag: self.round(vstd::math::abs(v), 1) }
            }
        }
    }

    /// The rounded product.
    pub open spec fn product(self, a: Signed, b: Signed) -> Signed {
        let neg = a.neg != b.neg;
        if self.is_nan(a) || self.is_nan(b) {
            self.quiet_nan()
        } else if a.mag == self.inf || b.mag == self.inf {
            if a.mag == 0 || b.mag == 0 {
                self.quiet_nan()
            } else {
                Signed { neg, mag: self.inf }
            }
        } else {
            Signed {
                neg,
                mag: self.round(self.units(a.mag) * self.units(b.mag), pow2(self.unit as nat)),
            }
        }
    }

    /// The rounded quotient.
    pub open spec fn quotient(self, a: Signed, b: Signed) -> Signed {
        let neg = a.neg != b.neg;
        if self.is_nan(a) || self.is_nan(b) {
            self.quiet_nan()
        } else if a.mag == self.inf {
            if b.mag == self.inf {
                self.quiet_nan()
            } else {
                Signed { neg, mag: self.inf }
            }
        } else if b.mag == self.inf {
            Signed { neg, mag: 0 }
        } else if b.mag == 0 {
            if a.mag == 0 {
                self.quiet_nan()
            } else {
                Signed { neg, mag: self.inf }
            }
        } else {
            Signed {
                neg,
                mag: self.round(self.units(a.mag) * pow2(self.unit as nat), self.units(b.mag)),
            }
        }
    }

    /// The rounded square root.
    pub open spec fn root(self, x: Signed) -> Signed {
        if self.is_nan(x) {
            self.quiet_nan()
        } else if x.mag == 0 {
            x
        } else if x.neg {
            self.quiet_nan()
        } else if x.mag == self.inf {
            x
        } else {
            Signed {
                neg: false,
                mag: rounding::round_root(
                    self.p as nat,
                    self.inf as nat,
                    self.units(x.mag) * pow2(self.unit as nat),
                ) as u64,
            }
        }
    }

    /// `a` is less than `b`; no order holds with a not-a-number.
    pub open spec fn less(self, a: Signed, b: Signed) -> bool {
        !self.is_nan(a) && !self.is_nan(b) && self.value(a) < self.value(b)
    }

    /// The value of the format `to` nearest to the value `x` of this format.
    pub open spec fn converted(self, to: Format, x: Signed) -> Signed {
        if self.is_nan(x) {
            to.quiet_nan()
        } else if x.mag == self.inf {
            Signed { neg: x.neg, mag: to.inf }
        } else if to.unit >= self.unit {
            Signed {
                neg: x.neg,
                mag: to.round(self.units(x.mag) * pow2((to.unit - self.unit) as nat), 1),
            }
        } else {
            Signed {
                neg: x.neg,
                mag: to.round(self.units(x.mag), pow2((self.unit - to.unit) as nat)),
            }
        }
    }

    /// The magnitude nearest to the whole number `i`.
    pub open spec fn whole(self, i: nat) -> u64 {
        self.round(i * pow2(self.unit as nat), 1)
    }

    /// The largest whole number at most the finite value `x`.
    pub open spec fn floored(self, x: Signed) -> int {
        self.value(x) / (pow2(self.unit as nat) as int)
    }
}

/// The 32-bit integer nearest to `v`.
pub open spec fn within_i32(v: int) -> int {
    if v < i32::MIN {
        i32::MIN as int
    } else if v > i32::MAX {
        i32::MAX as int
    } else {
        v
    }
}

/// What the decoded parts of a magnitude satisfy.
pub open spec fn decoded(fmt: Format, mag: u64, sig: u64, exp: u32) -> bool {
    &&& fmt.units(mag) == sig * pow2(exp as nat)
    &&& sig < pow2(fmt.p as nat)
    &&& exp <= 2045
    &&& exp > 0 ==> sig >= pow2((fmt.p - 1) as nat)
    &&& (sig == 0 <==> mag == 0)
}

/// The significand and the exponent, counted from the unit, of a finite magnitude.
pub fn decode(fmt: Format, mag: u64) -> (r: (u64, u32))
    requires
        fmt.valid(),
        mag < fmt.inf,
    ensures
        decoded(fmt, mag, r.0, r.1),
{
    proof {
        lemma2_to64();
        lemma2_to64_rest();
    }
    let h: u64 = if fmt.p == 24 {
        0x80_0000
    } else {
        0x10_0000_0000_0000
    };
    assert(h == pow2((fmt.p - 1) as nat));
    assert(pow2(fmt.p as nat) == 2 * h);
    let e: u64 = mag / h;
    let f: u64 = mag % h;
    if e == 0 {
        proof {
            assert(f * pow2(0) == f);
        }
        (f, 0)
    } else {
        (h + f, (e - 1) as u32)
    }
}

/// Patterns order as the values they stand for.
pub proof fn lemma_units_ordered(p: nat, a: nat, b: nat)
    requires
        p >= 1,
        a < b,
    ensures
        rounding::units(p, a) < rounding::units(p, b),
{
    let h = pow2((p - 1) as nat);
    lemma_pow2_pos((p - 1) as nat);
    let (ea, fa) = (a / h, a % h);
    let (eb, fb) = (b / h, b % h);
    lemma_fundamental_div_mod(a as int, h as int);
    lemma_fundamental_div_mod(b as int, h as int);
    lemma_div_is_ordered(a as int, b as int, h as int);
    if ea == eb {
        if ea > 0 {
            let s = pow2((ea - 1) as nat);
            lemma_pow2_pos((ea - 1) as nat);
            assert((h + fa) * s < (h + fb) * s) by (nonlinear_arith)
                requires
                    fa < fb,
                    s > 0,
            ;
        }
    } else {
        let s = pow2((eb - 1) as nat);
        lemma_pow2_pos((eb - 1) as nat);
        assert((h + fb) * s >= h * s) by (nonlinear_arith)
            requires
                fb >= 0,
                s > 0,
        ;
        if ea == 0 {
            assert(h * s >= h) by (nonlinear_arith)
                requires
                    s >= 1,
                    h > 0,
            ;
        } else {
            let r = pow2((ea - 1) as nat);
            lemma_pow2_pos((ea - 1) as nat);
            lemma_pow2_unfold(ea);
            if ea < eb - 1 {
                lemma_pow2_strictly_increases(ea, (eb - 1) as nat);
            }
            assert((h + fa) * r < h * s) by (nonlinear_arith)
                requires
                    fa < h,
                    r > 0,
                    2 * r <= s,
                    h > 0,
            ;
        }
    }
}

/// The pattern of zero stands for no units.
pub proof fn lemma_units_zero(p: nat)
    requires
        p >= 1,
    ensures
        rounding::units(p, 0) == 0,
{
    let h = pow2((p - 1) as nat);
    lemma_pow2_pos((p - 1) as nat);
    lemma_fundamental_div_mod_converse(0, h as int, 0, 0);
}

/// Rounding yields at most the pattern of infinity.
pub proof fn lemma_round_bounded(fmt: Format, n: nat, d: nat)
    requires
        fmt.valid(),
    ensures
        fmt.round(n, d) <= fmt.inf,
        fmt.round(n, d) as nat == rounding::round_mag(fmt.p as nat, fmt.inf as nat, n, d),
{
}

/// The rounded sum of two values.
pub fn add_signed(fmt: Format, a: Signed, b: Signed) -> (r: Signed)
    requires
        fmt.valid(),
    ensures
        r == fmt.sum(a, b),
{
    if a.mag > fmt.inf || b.mag > fmt.inf {
        return Signed { neg: false, mag: fmt.nan };
    }
    if a.mag == fmt.inf {
        if b.mag == fmt.inf && a.neg != b.neg {
            return Signed { neg: false, mag: fmt.nan };
        }
        return a;
    }
    if b.mag == fmt.inf {
        return b;
    }
    let (sa, ea) = decode(fmt, a.mag);
    let (sb, eb) = decode(fmt, b.mag);
    if ea >= eb {
        add_aligned(fmt, a, sa, ea, b, sb, eb)
    } else {
        add_aligned(fmt, b, sb, eb, a, sa, ea)
    }
}

/// The rounded sum of two finite values, the first with the larger exponent.
fn add_aligned(fmt: Format, a: Signed, sa: u64, ea: u32, b: Signed, sb: u64, eb: u32) -> (r:
    Signed)
    requires
        fmt.valid(),
        a.mag < fmt.inf,
        b.mag < fmt.inf,
        decoded(fmt, a.mag, sa, ea),
        decoded(fmt, b.mag, sb, eb),
        ea >= eb,
    ensures
        r == fmt.sum(a, b),
{
    let ghost v = fmt.value(a) + fmt.value(b);
    let ghost n = vstd::math::abs(v) as nat;
    proof {
        lemma2_to64();
        lemma2_to64_rest();
        lemma_pow2_strictly_increases(126, 127);
    }
    let diff: u32 = ea - eb;
    if diff <= 64 {
        let f: u128 = rounding::power_of_two(diff);
        proof {
            lemma_pow2_adds(diff as nat, eb as nat);
            lemma_pow2_adds(64, 62);
            if diff < 64 {
                lemma_pow2_strictly_increases(diff as nat, 64);
            }
            assert(sa * f <= 0x20_0000_0000_0000 * 0x1_0000_0000_0000_0000) by (nonlinear_arith)
                requires
                    sa <= 0x20_0000_0000_0000,
                    f <= 0x1_0000_0000_0000_0000,
            ;
        }
        let big: u128 = sa as u128 * f;
        let small: u128 = sb as u128;
        let same: bool = a.neg == b.neg;
        let (neg, sig): (bool, u128) = if same {
            (a.neg, big + small)
        } else if big >= small {
            (a.neg, big - small)
        } else {
            (b.neg, small - big)
        };
        proof {
            let s = pow2(eb as nat);
            lemma_pow2_pos(eb as nat);
            assert(sa * pow2(ea as nat) == big * s) by (nonlinear_arith)
                requires
                    big == sa * pow2(diff as nat),
                    pow2(ea as nat) == pow2(diff as nat) * s,
            ;
            assert(big * s + small * s == (big + small) * s) by (nonlinear_arith);
            assert(big * s - small * s == (big - small) * s) by (nonlinear_arith);
            assert(n == sig * s) by {
                assert((small - big) * s == -((big - small) * s)) by (nonlinear_arith);
                if sig > 0 {
                    assert(sig * s > 0) by (nonlinear_arith)
                        requires
                            sig > 0,
                            s > 0,
                    ;
                }
                if same {
                } else if big >= small {
                    assert((big - small) * s >= 0) by (nonlinear_arith)
                        requires
                            big >= small,
                            s > 0,
                    ;
                } else {
                    assert((small - big) * s >= 0) by (nonlinear_arith)
                        requires
                            big < small,
                            s > 0,
                    ;
                }
            }
            assert(sig == 0 <==> v == 0) by {
                if sig > 0 {
                    assert(sig * s > 0) by (nonlinear_arith)
                        requires
                            sig > 0,
                            s > 0,
                    ;
                }
                assert(0 * s == 0);
            }
            rounding::lemma_brackets_whole(n, sig as nat, eb as nat, false);
            assert(sig > 0 ==> neg == (v < 0)) by {
                if sig > 0 {
                    assert(sig * s > 0) by (nonlinear_arith)
                        requires
                            sig > 0,
                            s > 0,
                    ;
                    assert(v == if neg {
                        -(sig * s)
                    } else {
                        sig * s
                    }) by {
                        assert((small - big) * s == small * s - big * s) by (nonlinear_arith);
                    }
                }
            }
        }
        if sig == 0 {
            return Signed { neg: a.neg && b.neg, mag: 0 };
        }
        let mag: u64 = rounding::round_pack(
            fmt.p,
            fmt.inf,
            sig,
            eb as i32,
            false,
            Ghost(n),
            Ghost(1),
        );
        proof {
            lemma_round_bounded(fmt, n, 1);
        }
        Signed { neg, mag }
    } else {
        let same: bool = a.neg == b.neg;
        let wide: u128 = sa as u128 * 0x1000;
        let sticky: bool = sb != 0;
        let sig: u128 = if same || !sticky {
            wide
        } else {
            wide - 1
        };
        let exp: i32 = ea as i32 - 12;
        proof {
            let s = pow2(exp as nat);
            let small = fmt.units(b.mag);
            lemma_pow2_adds(12, exp as nat);
            lemma_pow2_pos(exp as nat);
            lemma_pow2_pos(eb as nat);
            assert(sa * pow2(ea as nat) == wide * s) by (nonlinear_arith)
                requires
                    wide == sa * 0x1000,
                    pow2(ea as nat) == 0x1000 * s,
            ;
            assert(small < s) by {
                lemma_pow2_adds(53, eb as nat);
                if 53 + eb < exp {
                    lemma_pow2_strictly_increases((53 + eb) as nat, exp as nat);
                }
                assert(sb * pow2(eb as nat) < pow2(53) * pow2(eb as nat)) by (nonlinear_arith)
                    requires
                        sb < pow2(53),
                        pow2(eb as nat) > 0,
                ;
            }
            assert(sticky ==> small > 0) by {
                if sticky {
                    assert(sb * pow2(eb as nat) > 0) by (nonlinear_arith)
                        requires
                            sb > 0,
                            pow2(eb as nat) > 0,
                    ;
                }
            }
            assert(!sticky ==> small == 0) by {
                assert(0 * pow2(eb as nat) == 0);
            }
            assert(wide * s >= s) by (nonlinear_arith)
                requires
                    wide >= 1,
            ;
            assert((sig + 1) * s == sig * s + s) by (nonlinear_arith);
            assert((wide - 1) * s == wide * s - s) by (nonlinear_arith);
            let x = wide * s;
            assert(v == if a.neg {
                if same {
                    -x - small
                } else {
                    small - x
                }
            } else {
                if same {
                    x + small
                } else {
                    x - small
                }
            });
            assert(n == if same {
                x + small
            } else {
                x - small
            });
            rounding::lemma_brackets_whole(n, sig as nat, exp as nat, sticky);
            lemma_pow2_adds(64, 62);
        }
        let mag: u64 = rounding::round_pack(
            fmt.p,
            fmt.inf,
            sig,
            exp,
            sticky,
            Ghost(n),
            Ghost(1),
        );
        proof {
            lemma_round_bounded(fmt, n, 1);
        }
        Signed { neg: a.neg, mag }
    }
}

/// The rounded product of two values.
pub fn mul_signed(fmt: Format, a: Signed, b: Signed) -> (r: Signed)
    requires
        fmt.valid(),
    ensures
        r == fmt.product(a, b),
{
    let neg: bool = a.neg != b.neg;
    if a.mag > fmt.inf || b.mag > fmt.inf {
        return Signed { neg: false, mag: fmt.nan };
    }
    if a.mag == fmt.inf || b.mag == fmt.inf {
        if a.mag == 0 || b.mag == 0 {
            return Signed { neg: false, mag: fmt.nan };
        }
        return Signed { neg, mag: fmt.inf };
    }
    let (sa, ea) = decode(fmt, a.mag);
    let (sb, eb) = decode(fmt, b.mag);
    proof {
        lemma2_to64();
        lemma2_to64_rest();
        assert(sa * sb <= 0x20_0000_0000_0000 * 0x20_0000_0000_0000) by (nonlinear_arith)
            requires
                0 <= sa <= 0x20_0000_0000_0000,
                0 <= sb <= 0x20_0000_0000_0000,
        ;
        lemma_pow2_adds(64, 62);
    }
    let sig: u128 = sa as u128 * sb as u128;
    let exp: i32 = ea as i32 + eb as i32 - fmt.unit as i32;
    let ghost n = fmt.units(a.mag) * fmt.units(b.mag);
    let ghost d = pow2(fmt.unit as nat);
    proof {
        let s = pow2((ea + eb) as nat);
        lemma_pow2_pos(fmt.unit as nat);
        lemma_pow2_adds(ea as nat, eb as nat);
        assert(n == sig * s) by (nonlinear_arith)
            requires
                n == (sa * pow2(ea as nat)) * (sb * pow2(eb as nat)),
                sig == sa * sb,
                s == pow2(ea as nat) * pow2(eb as nat),
        ;
        if exp >= 0 {
            lemma_pow2_adds(fmt.unit as nat, exp as nat);
            assert(n * 1 == sig * (d * pow2(exp as nat)));
        } else {
            lemma_pow2_adds((ea + eb) as nat, (-exp) as nat);
            assert(n * pow2((-exp) as nat) == sig * (d * 1)) by (nonlinear_arith)
                requires
                    n == sig * s,
                    d == s * pow2((-exp) as nat),
            ;
        }
        assert(rounding::brackets(n, d, sig as nat, exp as int, false));
    }
    let mag: u64 = rounding::round_pack(fmt.p, fmt.inf, sig, exp, false, Ghost(n), Ghost(d));
    proof {
        lemma_round_bounded(fmt, n, d);
    }
    Signed { neg, mag }
}

/// The rounded quotient of two values.
pub fn div_signed(fmt: Format, a: Signed, b: Signed) -> (r: Signed)
    requires
        fmt.valid(),
    ensures
        r == fmt.quotient(a, b),
{
    let neg: bool = a.neg != b.neg;
    if a.mag > fmt.inf || b.mag > fmt.inf {
        return Signed { neg: false, mag: fmt.nan };
    }
    if a.mag == fmt.inf {
        if b.mag == fmt.inf {
            return Signed { neg: false, mag: fmt.nan };
        }
        return Signed { neg, mag: fmt.inf };
    }
    if b.mag == fmt.inf {
        return Signed { neg, mag: 0 };
    }
    if b.mag == 0 {
        if a.mag == 0 {
            return Signed { neg: false, mag: fmt.nan };
        }
        return Signed { neg, mag: fmt.inf };
    }
    let (sa, ea) = decode(fmt, a.mag);
    let (sb, eb) = decode(fmt, b.mag);
    let len: u32 = rounding::bit_len(sa as u128);
    proof {
        lemma2_to64();
        lemma2_to64_rest();
        if len > 53 {
            if len - 1 > 53 {
                lemma_pow2_strictly_increases(53, (len - 1) as nat);
            }
        }
        assert(len <= 53);
    }
    let shift: u32 = 120 - len;
    let f: u128 = rounding::power_of_two(shift);
    proof {
        lemma_pow2_adds(len as nat, shift as nat);
        lemma_pow2_pos(shift as nat);
        assert(sa * f < pow2(120)) by (nonlinear_arith)
            requires
                sa < pow2(len as nat),
                f == pow2(shift as nat),
                f > 0,
                pow2(120) == pow2(len as nat) * pow2(shift as nat),
        ;
        lemma_pow2_strictly_increases(120, 126);
        lemma_pow2_adds(64, 62);
        lemma_pow2_adds(64, 55);
    }
    let wide: u128 = sa as u128 * f;
    let sig: u128 = wide / sb as u128;
    let rest: u128 = wide % sb as u128;
    let sticky: bool = rest != 0;
    let exp: i32 = ea as i32 + fmt.unit as i32 - eb as i32 - shift as i32;
    let ghost n = fmt.units(a.mag) * pow2(fmt.unit as nat);
    let ghost d = fmt.units(b.mag);
    proof {
        lemma_pow2_pos(eb as nat);
        lemma_pow2_pos(fmt.unit as nat);
        assert(d > 0) by (nonlinear_arith)
            requires
                d == sb * pow2(eb as nat),
                sb > 0,
                pow2(eb as nat) > 0,
        ;
        let up = rounding::scale_up(exp as int);
        let down = rounding::scale_down(exp as int);
        let top = pow2((ea + fmt.unit) as nat);
        let g = pow2(eb as nat) * up;
        lemma_pow2_adds(ea as nat, fmt.unit as nat);
        lemma_pow2_adds(shift as nat, eb as nat);
        assert(up > 0) by {
            lemma_pow2_pos(0);
            if exp > 0 {
                lemma_pow2_pos(exp as nat);
            }
        }
        assert(g > 0) by (nonlinear_arith)
            requires
                g == pow2(eb as nat) * up,
                pow2(eb as nat) > 0,
                up > 0,
        ;
        assert(top * down == f * g) by {
            if exp >= 0 {
                lemma_pow2_adds((shift + eb) as nat, exp as nat);
                assert(top * 1 == f * g) by (nonlinear_arith)
                    requires
                        top == (f * pow2(eb as nat)) * up,
                        g == pow2(eb as nat) * up,
                ;
            } else {
                lemma_pow2_adds((ea + fmt.unit) as nat, (-exp) as nat);
                assert(f * g == pow2((shift + eb) as nat)) by (nonlinear_arith)
                    requires
                        pow2((shift + eb) as nat) == f * pow2(eb as nat),
                        g == pow2(eb as nat) * up,
                        up == 1,
                ;
            }
        }
        assert(n * down == wide * g) by (nonlinear_arith)
            requires
                n == (sa * pow2(ea as nat)) * pow2(fmt.unit as nat),
                top == pow2(ea as nat) * pow2(fmt.unit as nat),
                top * down == f * g,
                wide == sa * f,
        ;
        assert(d * up == sb * g) by (nonlinear_arith)
            requires
                d == sb * pow2(eb as nat),
                g == pow2(eb as nat) * up,
        ;
        lemma_fundamental_div_mod(wide as int, sb as int);
        assert(sig * (sb * g) == (sb * sig) * g) by (nonlinear_arith);
        assert((sig + 1) * (sb * g) == (sb * sig + sb) * g) by (nonlinear_arith);
        if sticky {
            assert((sb * sig) * g < wide * g < (sb * sig + sb) * g) by (nonlinear_arith)
                requires
                    sb * sig < wide < sb * sig + sb,
                    g > 0,
            ;
        }
        assert(rounding::brackets(n, d, sig as nat, exp as int, sticky));
        assert(sticky ==> sig >= pow2(fmt.p as nat)) by {
            if sticky {
                assert(len > 0) by {
                    if len == 0 {
                        assert(sa == 0);
                        assert(0 * f == 0);
                        lemma_fundamental_div_mod_converse(0, sb as int, 0, 0);
                    }
                }
                lemma_pow2_adds((len - 1) as nat, shift as nat);
                assert(wide >= pow2(119)) by (nonlinear_arith)
                    requires
                        sa >= pow2((len - 1) as nat),
                        f == pow2(shift as nat),
                        wide == sa * f,
                        pow2(119) == pow2((len - 1) as nat) * pow2(shift as nat),
                ;
                assert(sig >= 0x20_0000_0000_0000) by (nonlinear_arith)
                    requires
                        wide < sb * sig + sb,
                        sb <= 0x20_0000_0000_0000,
                        wide >= 0x1_0000_0000_0000_0000 * 0x80_0000_0000_0000,
                ;
            }
        }
        lemma_div_is_ordered_by_denominator(wide as int, 1, sb as int);
        lemma_div_basics(wide as int);
    }
    let mag: u64 = rounding::round_pack(fmt.p, fmt.inf, sig, exp, sticky, Ghost(n), Ghost(d));
    proof {
        lemma_round_bounded(fmt, n, d);
    }
    Signed { neg, mag }
}

/// The rounded square root of a value.
pub fn sqrt_signed(fmt: Format, x: Signed) -> (r: Signed)
    requires
        fmt.valid(),
    ensures
        r == fmt.root(x),
{
    if x.mag > fmt.inf {
        return Signed { neg: false, mag: fmt.nan };
    }
    if x.mag == 0 {
        return x;
    }
    if x.neg {
        return Signed { neg: false, mag: fmt.nan };
    }
    if x.mag == fmt.inf {
        return x;
    }
    let (sig, exp) = decode(fmt, x.mag);
    let ghost n = fmt.units(x.mag) * pow2(fmt.unit as nat);
    proof {
        lemma_pow2_adds(exp as nat, fmt.unit as nat);
        assert(n == sig * pow2((exp + fmt.unit) as nat)) by (nonlinear_arith)
            requires
                n == (sig * pow2(exp as nat)) * pow2(fmt.unit as nat),
                pow2((exp + fmt.unit) as nat) == pow2(exp as nat) * pow2(fmt.unit as nat),
        ;
    }
    let mag: u64 = rounding::round_root_pack(fmt.p, fmt.inf, sig, exp + fmt.unit, Ghost(n));
    Signed { neg: false, mag }
}

/// Whether `a` is less than `b`.
pub fn less_signed(fmt: Format, a: Signed, b: Signed) -> (r: bool)
    requires
        fmt.valid(),
    ensures
        r == fmt.less(a, b),
{
    if a.mag > fmt.inf || b.mag > fmt.inf {
        return false;
    }
    proof {
        let p = fmt.p as nat;
        lemma_units_zero(p);
        if a.mag < b.mag {
            lemma_units_ordered(p, a.mag as nat, b.mag as nat);
        }
        if b.mag < a.mag {
            lemma_units_ordered(p, b.mag as nat, a.mag as nat);
        }
        if a.mag > 0 {
            lemma_units_ordered(p, 0, a.mag as nat);
        }
        if b.mag > 0 {
            lemma_units_ordered(p, 0, b.mag as nat);
        }
    }
    if a.neg {
        if b.neg {
            b.mag < a.mag
        } else {
            a.mag != 0 || b.mag != 0
        }
    } else if b.neg {
        false
    } else {
        a.mag < b.mag
    }
}

/// Converts a value of the format `from` to the format `to`.
pub fn convert_signed(from: Format, to: Format, x: Signed) -> (r: Signed)
    requires
        from.valid(),
        to.valid(),
    ensures
        r == from.converted(to, x),
{
    if x.mag > from.inf {
        return Signed { neg: false, mag: to.nan };
    }
    if x.mag == from.inf {
        return Signed { neg: x.neg, mag: to.inf };
    }
    let (sig, exp) = decode(from, x.mag);
    let e: i32 = exp as i32 + to.unit as i32 - from.unit as i32;
    let ghost u = from.units(x.mag);
    let ghost n = if to.unit >= from.unit {
        u * pow2((to.unit - from.unit) as nat)
    } else {
        u
    };
    let ghost d = if to.unit >= from.unit {
        1
    } else {
        pow2((from.unit - to.unit) as nat)
    };
    proof {
        lemma2_to64();
        lemma2_to64_rest();
        lemma_pow2_adds(64, 62);
        if to.unit >= from.unit {
            let z = (to.unit - from.unit) as nat;
            lemma_pow2_adds(exp as nat, z);
            assert(n == sig * pow2(e as nat)) by (nonlinear_arith)
                requires
                    n == (sig * pow2(exp as nat)) * pow2(z),
                    pow2(e as nat) == pow2(exp as nat) * pow2(z),
            ;
            rounding::lemma_brackets_whole(n, sig as nat, e as nat, false);
        } else {
            let z = (from.unit - to.unit) as nat;
            lemma_pow2_pos(z);
            if e >= 0 {
                lemma_pow2_adds(z, e as nat);
                assert(n * 1 == sig * (d * pow2(e as nat)));
            } else {
                lemma_pow2_adds(exp as nat, (-e) as nat);
                assert(n * pow2((-e) as nat) == sig * (d * 1)) by (nonlinear_arith)
                    requires
                        n == sig * pow2(exp as nat),
                        d == pow2(exp as nat) * pow2((-e) as nat),
                ;
            }
        }
        assert(rounding::brackets(n, d, sig as nat, e as int, false));
    }
    let mag: u64 = rounding::round_pack(
        to.p,
        to.inf,
        sig as u128,
        e,
        false,
        Ghost(n),
        Ghost(d),
    );
    proof {
        lemma_round_bounded(to, n, d);
    }
    Signed { neg: x.neg, mag }
}

/// The magnitude nearest to a whole number.
pub fn whole_mag(fmt: Format, i: u64) -> (mag: u64)
    requires
        fmt.valid(),
    ensures
        mag == fmt.whole(i as nat),
{
    let ghost n = i as nat * pow2(fmt.unit as nat);
    proof {
        lemma2_to64();
        lemma2_to64_rest();
        lemma_pow2_adds(64, 62);
        rounding::lemma_brackets_whole(n, i as nat, fmt.unit as nat, false);
    }
    let mag: u64 = rounding::round_pack(
        fmt.p,
        fmt.inf,
        i as u128,
        fmt.unit as i32,
        false,
        Ghost(n),
        Ghost(1),
    );
    proof {
        lemma_round_bounded(fmt, n, 1);
    }
    mag
}

/// The whole part of a finite magnitude, and whether anything is left of it. A whole part that
/// does not fit in 64 bits is only told to be that large.
pub fn whole_part(fmt: Format, mag: u64) -> (r: (u128, bool))
    requires
        fmt.valid(),
        mag < fmt.inf,
    ensures
        ({
            let w = fmt.units(mag) / pow2(fmt.unit as nat);
            r.0 == w || (r.0 > u64::MAX && w > u64::MAX)
        }),
        r.1 == (fmt.units(mag) % pow2(fmt.unit as nat) != 0),
{
    let (sig, exp) = decode(fmt, mag);
    let ghost one = pow2(fmt.unit as nat);
    let ghost u = fmt.units(mag);
    proof {
        lemma2_to64();
        lemma2_to64_rest();
        lemma_pow2_pos(fmt.unit as nat);
    }
    if exp >= fmt.unit {
        let shift: u32 = exp - fmt.unit;
        let ghost q = (sig * pow2(shift as nat)) as nat;
        proof {
            lemma_pow2_adds(shift as nat, fmt.unit as nat);
            assert(u == q * one) by (nonlinear_arith)
                requires
                    u == sig * pow2(exp as nat),
                    pow2(exp as nat) == pow2(shift as nat) * one,
                    q == sig * pow2(shift as nat),
            ;
            lemma_fundamental_div_mod_converse(u as int, one as int, q as int, 0);
        }
        if shift >= 64 {
            proof {
                if shift > 64 {
                    lemma_pow2_strictly_increases(64, shift as nat);
                }
                assert(q >= pow2(64)) by (nonlinear_arith)
                    requires
                        sig >= 1,
                        pow2(shift as nat) >= pow2(64),
                        q == sig * pow2(shift as nat),
                ;
            }
            (0x1_0000_0000_0000_0000, false)
        } else {
            let f: u128 = rounding::power_of_two(shift);
            proof {
                lemma_pow2_strictly_increases(shift as nat, 64);
                assert(sig * f <= 0x20_0000_0000_0000 * 0x1_0000_0000_0000_0000)
                    by (nonlinear_arith)
                    requires
                        0 <= sig <= 0x20_0000_0000_0000,
                        0 <= f <= 0x1_0000_0000_0000_0000,
                ;
            }
            (sig as u128 * f, false)
        }
    } else {
        let shift: u32 = fmt.unit - exp;
        let ghost s = pow2(exp as nat);
        proof {
            lemma_pow2_adds(exp as nat, shift as nat);
            lemma_pow2_pos(exp as nat);
        }
        if shift >= 64 {
            proof {
                if shift > 64 {
                    lemma_pow2_strictly_increases(64, shift as nat);
                }
                assert(0 <= u < one) by (nonlinear_arith)
                    requires
                        u == sig * s,
                        one == s * pow2(shift as nat),
                        0 <= sig < pow2(shift as nat),
                        s > 0,
                ;
                lemma_fundamental_div_mod_converse(u as int, one as int, 0, u as int);
                assert(u == 0 <==> sig == 0) by (nonlinear_arith)
                    requires
                        u == sig * s,
                        s > 0,
                ;
            }
            (0, sig != 0)
        } else {
            let f: u128 = rounding::power_of_two(shift);
            let wide: u128 = sig as u128;
            let q: u128 = wide / f;
            let rest: u128 = wide % f;
            proof {
                lemma_pow2_pos(shift as nat);
                lemma_fundamental_div_mod(wide as int, f as int);
                assert(u == q * one + rest * s) by (nonlinear_arith)
                    requires
                        u == wide * s,
                        one == s * f,
                        wide == f * q + rest,
                ;
                assert(0 <= rest * s < one) by (nonlinear_arith)
                    requires
                        0 <= rest < f,
                        s > 0,
                        one == s * f,
                ;
                lemma_fundamental_div_mod_converse(
                    u as int,
                    one as int,
                    q as int,
                    (rest * s) as int,
                );
                assert(rest * s == 0 <==> rest == 0) by (nonlinear_arith)
                    requires
                        s > 0,
                ;
            }
            (q, rest != 0)
        }
    }
}

/// The floor of a finite value, brought into the range of 32-bit integers.
pub fn floor_signed(fmt: Format, x: Signed) -> (r: i32)
    requires
        fmt.valid(),
        x.mag < fmt.inf,
    ensures
        r == within_i32(fmt.floored(x)),
{
    let (w, inexact) = whole_part(fmt, x.mag);
    proof {
        let one = pow2(fmt.unit as nat) as int;
        let u = fmt.units(x.mag) as int;
        lemma_pow2_pos(fmt.unit as nat);
        lemma_fundamental_div_mod(u, one);
        let q = u / one;
        let rest = u % one;
        if x.neg {
            if rest == 0 {
                assert(-u == (-q) * one) by (nonlinear_arith)
                    requires
                        u == one * q,
                ;
                lemma_fundamental_div_mod_converse(-u, one, -q, 0);
            } else {
                assert(-u == (-q - 1) * one + (one - rest)) by (nonlinear_arith)
                    requires
                        u == one * q + rest,
                ;
                lemma_fundamental_div_mod_converse(-u, one, -q - 1, one - rest);
            }
        }
    }
    if x.neg {
        let down: u128 = if inexact && w <= 0x8000_0000 {
            w + 1
        } else {
            w
        };
        if down >= 0x8000_0000 {
            i32::MIN
        } else {
            -(down as i32)
        }
    } else if w >= 0x7fff_ffff {
        i32::MAX
    } else {
        w as i32
    }
}

} // verus!
