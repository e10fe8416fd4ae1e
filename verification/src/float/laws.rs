//! What rounding promises.

use vstd::prelude::*;
use vstd::arithmetic::div_mod::*;
use vstd::arithmetic::mul::*;
use vstd::arithmetic::power2::*;
use vstd::math::abs;

use crate::float::arith;
use crate::float::arith::Format;
use crate::float::double::F64;
use crate::float::rounding;
use crate::float::single::F32;

verus! {

/// The two bounds that the spacing exponent meets.
pub proof fn lemma_quantum_bounds(p: nat, n: nat, d: nat)
    requires
        d > 0,
    ensures
        ({
            let k = rounding::quantum(p, n, d);
            &&& n < d * pow2(p + k)
            &&& k > 0 ==> p + k >= 1 && n >= d * pow2((p + k - 1) as nat)
        }),
    decreases 2 * n - d,
{
    if n >= d * pow2(p) {
        lemma_pow2_pos(p);
        assert(d <= d * pow2(p)) by (nonlinear_arith)
            requires
                pow2(p) >= 1,
        ;
        lemma_quantum_bounds(p, n, 2 * d);
        let j = rounding::quantum(p, n, 2 * d);
        let k = rounding::quantum(p, n, d);
        assert(k == j + 1);
        lemma_pow2_unfold(p + k);
        assert((2 * d) * pow2(p + j) == d * pow2(p + k)) by (nonlinear_arith)
            requires
                pow2(p + k) == 2 * pow2(p + j),
        ;
        if j > 0 {
            lemma_pow2_unfold(p + j);
            assert((2 * d) * pow2((p + j - 1) as nat) == d * pow2(p + j)) by (nonlinear_arith)
                requires
                    pow2(p + j) == 2 * pow2((p + j - 1) as nat),
            ;
        }
    }
}

/// No multiple of `e` is nearer to `n` than the one that `nearest` picks, and that one is at most
/// half of `e` away.
pub proof fn lemma_nearest(n: nat, e: nat, c: int)
    requires
        e > 0,
    ensures
        abs(rounding::nearest(n, e) * e - n) <= abs(c * e - n),
        2 * abs(rounding::nearest(n, e) * e - n) <= e,
{
    let q = (n / e) as int;
    let r = (n % e) as int;
    lemma_fundamental_div_mod(n as int, e as int);
    lemma_mul_is_commutative(q, e as int);
    assert((q + 1) * e == q * e + e) by (nonlinear_arith);
    if c <= q {
        assert(c * e <= q * e) by (nonlinear_arith)
            requires
                c <= q,
                e > 0,
        ;
    } else {
        assert(c * e >= (q + 1) * e) by (nonlinear_arith)
            requires
                c >= q + 1,
                e > 0,
        ;
    }
}

/// The units of the pattern with the significand `q` at the spacing `2^k`.
pub proof fn lemma_pattern_units(p: nat, k: nat, q: nat)
    requires
        p >= 1,
        q <= pow2(p),
        k > 0 ==> q >= pow2((p - 1) as nat),
    ensures
        rounding::units(p, k * pow2((p - 1) as nat) + q) == q * pow2(k),
{
    let h = pow2((p - 1) as nat);
    lemma_pow2_pos((p - 1) as nat);
    lemma_pow2_unfold(p);
    let mag = k * h + q;
    lemma_pow2_unfold(k + 1);
    assert(pow2(0) == 1) by {
        lemma2_to64();
    }
    if q < h {
        assert(k == 0);
        assert(mag == q) by (nonlinear_arith)
            requires
                mag == k * h + q,
                k == 0,
        ;
        lemma_fundamental_div_mod_converse(mag as int, h as int, 0, q as int);
        assert(q * pow2(k) == q) by (nonlinear_arith)
            requires
                pow2(k) == 1,
        ;
    } else if q < 2 * h {
        assert(mag == (k + 1) * h + (q - h)) by (nonlinear_arith)
            requires
                mag == k * h + q,
        ;
        lemma_fundamental_div_mod_converse(mag as int, h as int, (k + 1) as int, q - h);
    } else {
        assert(mag == (k + 2) * h + 0) by (nonlinear_arith)
            requires
                mag == k * h + q,
                q == 2 * h,
        ;
        lemma_fundamental_div_mod_converse(mag as int, h as int, (k + 2) as int, 0);
        assert((h + 0) * pow2(k + 1) == q * pow2(k)) by (nonlinear_arith)
            requires
                pow2(k + 1) == 2 * pow2(k),
                q == 2 * h,
        ;
    }
}

/// The units of a magnitude that rounding yields, where it stays finite.
pub proof fn lemma_rounded_units(p: nat, inf: nat, n: nat, d: nat)
    requires
        d > 0,
        p >= 1,
        rounding::round_mag(p, inf, n, d) < inf,
    ensures
        ({
            let k = rounding::quantum(p, n, d);
            let q = rounding::nearest(n, d * pow2(k));
            &&& rounding::units(p, rounding::round_mag(p, inf, n, d)) == q * pow2(k)
            &&& q <= pow2(p)
            &&& k > 0 ==> q >= pow2((p - 1) as nat)
        }),
{
    let k = rounding::quantum(p, n, d);
    lemma_quotient_bounds(p, n, d);
    lemma_pattern_units(p, k, rounding::nearest(n, d * pow2(k)));
}

/// The significand that rounding picks fits the format.
pub proof fn lemma_quotient_bounds(p: nat, n: nat, d: nat)
    requires
        d > 0,
        p >= 1,
    ensures
        ({
            let k = rounding::quantum(p, n, d);
            let e = d * pow2(k);
            let q = rounding::nearest(n, e);
            &&& e > 0
            &&& q <= pow2(p)
            &&& k > 0 ==> q >= pow2((p - 1) as nat) && n >= e * pow2((p - 1) as nat)
        }),
{
    lemma_quantum_bounds(p, n, d);
    let h = pow2((p - 1) as nat);
    let k = rounding::quantum(p, n, d);
    let e = d * pow2(k);
    lemma_pow2_pos(k);
    lemma_pow2_adds(p, k);
    lemma_pow2_adds((p - 1) as nat, k);
    assert(e > 0) by (nonlinear_arith)
        requires
            d > 0,
            pow2(k) > 0,
            e == d * pow2(k),
    ;
    assert(n < e * pow2(p)) by (nonlinear_arith)
        requires
            n < d * (pow2(p) * pow2(k)),
            e == d * pow2(k),
    ;
    lemma_multiply_divide_lt(n as int, e as int, pow2(p) as int);
    if k > 0 {
        assert((p - 1) + k == p + k - 1);
        assert(n >= h * e) by (nonlinear_arith)
            requires
                n >= d * (h * pow2(k)),
                e == d * pow2(k),
        ;
        lemma_mul_is_commutative(h as int, e as int);
        lemma_div_is_ordered((h * e) as int, n as int, e as int);
        lemma_div_multiples_vanish(h as int, e as int);
    }
}

/// Of two multiples of `e` that are equally near to `n`, `nearest` picks the even one.
proof fn lemma_even_of_two(n: nat, e: nat, c: int)
    requires
        e > 0,
        c != rounding::nearest(n, e),
        abs(rounding::nearest(n, e) * e - n) == abs(c * e - n),
    ensures
        rounding::nearest(n, e) % 2 == 0,
        2 * abs(c * e - n) == e,
{
    let q = (n / e) as int;
    let m = rounding::nearest(n, e) as int;
    lemma_fundamental_div_mod(n as int, e as int);
    lemma_mul_is_commutative(q, e as int);
    assert((q + 1) * e == q * e + e) by (nonlinear_arith);
    lemma_nearest(n, e, c);
    let gap = (c - m) * e;
    assert(gap == c * e - m * e) by (nonlinear_arith)
        requires
            gap == (c - m) * e,
    ;
    assert(abs(gap) >= e) by (nonlinear_arith)
        requires
            gap == (c - m) * e,
            c != m,
            e > 0,
    ;
}

/// No pattern stands for a magnitude nearer to the exact `n / d` units than the rounded one, and of
/// two that are equally near the rounded one is even.
pub proof fn lemma_nearest_pattern(p: nat, inf: nat, n: nat, d: nat, mag: nat)
    requires
        p >= 2,
        d > 0,
        rounding::round_mag(p, inf, n, d) < inf,
    ensures
        ({
            let r = rounding::round_mag(p, inf, n, d);
            let (u, v) = (rounding::units(p, r), rounding::units(p, mag));
            &&& abs(u * d - n) <= abs(v * d - n)
            &&& abs(u * d - n) == abs(v * d - n) && r != mag ==> r % 2 == 0
        }),
{
    let h = pow2((p - 1) as nat);
    let k = rounding::quantum(p, n, d);
    let s = pow2(k);
    let e = d * s;
    let q = rounding::nearest(n, e);
    let r = rounding::round_mag(p, inf, n, d);
    let u = rounding::units(p, mag);
    lemma_rounded_units(p, inf, n, d);
    lemma_quotient_bounds(p, n, d);
    lemma_pow2_pos((p - 1) as nat);
    lemma_pow2_pos(k);
    assert((q * s) * d == q * e) by (nonlinear_arith)
        requires
            e == d * s,
    ;
    // The pattern is as even as the significand, and two patterns have two magnitudes.
    assert(r % 2 == q % 2) by {
        let g = pow2((p - 2) as nat);
        lemma_pow2_unfold((p - 1) as nat);
        assert(k * h == 2 * (k * g)) by (nonlinear_arith)
            requires
                h == 2 * g,
        ;
    }
    assert(r != mag ==> u * d != q * e) by {
        if r < mag {
            arith::lemma_units_ordered(p, r, mag);
        } else if mag < r {
            arith::lemma_units_ordered(p, mag, r);
        }
        let ur = rounding::units(p, r);
        assert(u != ur ==> u * d != ur * d) by (nonlinear_arith)
            requires
                d > 0,
        ;
    }
    let em = mag / h;
    let f = mag % h;
    lemma_fundamental_div_mod(mag as int, h as int);
    lemma_nearest(n, e, q as int);
    if k == 0 || em >= k + 1 {
        let c = lemma_multiple_of_spacing(p, mag, d, k);
        lemma_nearest(n, e, c as int);
        if abs(q * e - n) == abs(c * e - n) && r != mag {
            lemma_even_of_two(n, e, c as int);
        }
    } else {
        assert(u <= h * s) by {
            if em == 0 {
                assert(h <= h * s) by (nonlinear_arith)
                    requires
                        s >= 1,
                        h >= 0,
                ;
            } else {
                let t = pow2((em - 1) as nat);
                lemma_pow2_unfold(k);
                if em < k {
                    lemma_pow2_strictly_increases((em - 1) as nat, (k - 1) as nat);
                }
                assert((h + f) * t <= h * s) by (nonlinear_arith)
                    requires
                        f < h,
                        0 <= 2 * t <= s,
                ;
            }
        }
        assert(u * d <= h * e) by (nonlinear_arith)
            requires
                u <= h * s,
                d > 0,
                e == d * s,
        ;
        lemma_mul_is_commutative(h as int, e as int);
        lemma_nearest(n, e, h as int);
        if abs(q * e - n) == abs(u * d - n) && r != mag {
            if q != h {
                assert(q * e >= h * e + e) by (nonlinear_arith)
                    requires
                        q >= h + 1,
                        e > 0,
                ;
            }
            if u * d == h * e {
                lemma_even_of_two(n, e, h as int);
            }
        }
    }
}

/// A magnitude with at least the spacing `2^k` is a multiple of it.
proof fn lemma_multiple_of_spacing(p: nat, mag: nat, d: nat, k: nat) -> (c: nat)
    requires
        p >= 2,
        k == 0 || mag / pow2((p - 1) as nat) >= k + 1,
    ensures
        rounding::units(p, mag) * d == c * (d * pow2(k)),
{
    let h = pow2((p - 1) as nat);
    let s = pow2(k);
    let u = rounding::units(p, mag);
    let em = mag / h;
    let f = mag % h;
    if k == 0 {
        assert(s == 1) by {
            lemma2_to64();
        }
        assert(u * d == u * (d * s)) by (nonlinear_arith)
            requires
                s == 1,
        ;
        u
    } else {
        let j = (em - 1 - k) as nat;
        let c = (h + f) * pow2(j);
        lemma_pow2_adds(j, k);
        assert(u * d == c * (d * s)) by (nonlinear_arith)
            requires
                u == (h + f) * (pow2(j) * s),
                c == (h + f) * pow2(j),
        ;
        c
    }
}

/// Rounding is to nearest: where the result is finite, no magnitude of the format lies nearer to
/// the exact `n / d` units, and of two that are equally near the even one is taken.
pub proof fn rounding_is_nearest(fmt: Format, n: nat, d: nat, mag: u64)
    requires
        fmt.valid(),
        d > 0,
        fmt.round(n, d) < fmt.inf,
    ensures
        abs(fmt.units(fmt.round(n, d)) * d - n) <= abs(fmt.units(mag) * d - n),
        abs(fmt.units(fmt.round(n, d)) * d - n) == abs(fmt.units(mag) * d - n) && fmt.round(n, d)
            != mag ==> fmt.round(n, d) % 2 == 0,
{
    arith::lemma_round_bounded(fmt, n, d);
    lemma_nearest_pattern(fmt.p as nat, fmt.inf as nat, n, d, mag as nat);
}

/// Rounding overflows from the middle between the largest finite magnitude and the next power of two
/// on, and not before.
pub proof fn rounding_overflows_late(fmt: Format, n: nat, d: nat)
    requires
        fmt.valid(),
        d > 0,
    ensures
        fmt.round(n, d) == fmt.inf <==> 2 * n >= (fmt.units((fmt.inf - 1) as u64) + fmt.units(
            fmt.inf,
        )) * d,
{
    let (p, inf) = (fmt.p as nat, fmt.inf as nat);
    let max = (inf - 1) as nat;
    let (um, ui) = (rounding::units(p, max), rounding::units(p, inf));
    arith::lemma_round_bounded(fmt, n, d);
    arith::lemma_units_ordered(p, max, inf);
    assert((um + ui) * d == um * d + ui * d) by (nonlinear_arith);
    assert(um * d < ui * d) by (nonlinear_arith)
        requires
            um < ui,
            d > 0,
    ;
    let r = rounding::round_mag(p, inf, n, d);
    if r < inf {
        if r < max {
            arith::lemma_units_ordered(p, r, max);
        }
        let ur = rounding::units(p, r);
        assert(ur * d <= um * d) by (nonlinear_arith)
            requires
                ur <= um,
                d > 0,
        ;
        lemma_nearest_pattern(p, inf, n, d, inf);
        if ur < um {
            assert(ur * d < um * d) by (nonlinear_arith)
                requires
                    ur < um,
                    d > 0,
            ;
            lemma_nearest_pattern(p, inf, n, d, max);
        } else if r < max {
            arith::lemma_units_ordered(p, r, max);
        }
    } else if n < ui * d {
        // Without a bound the pattern would be that of infinity.
        let k = rounding::quantum(p, n, d);
        let m = k * pow2((p - 1) as nat) + rounding::nearest(n, d * pow2(k));
        assert(rounding::round_mag(p, m + 1, n, d) == m);
        lemma_nearest_pattern(p, m + 1, n, d, inf);
        if m > inf {
            arith::lemma_units_ordered(p, inf, m);
            let u = rounding::units(p, m);
            assert(u * d > ui * d) by (nonlinear_arith)
                requires
                    u > ui,
                    d > 0,
            ;
        }
        lemma_nearest_pattern(p, m + 1, n, d, max);
    }
}

/// Rounding keeps order: a larger exact magnitude never rounds to a smaller one.
pub proof fn rounding_is_monotone(fmt: Format, n1: nat, n2: nat, d: nat)
    requires
        fmt.valid(),
        d > 0,
        n1 <= n2,
    ensures
        fmt.round(n1, d) <= fmt.round(n2, d),
{
    let p = fmt.p as nat;
    let h = pow2((p - 1) as nat);
    let k1 = rounding::quantum(p, n1, d);
    let k2 = rounding::quantum(p, n2, d);
    lemma_quantum_bounds(p, n1, d);
    lemma_quantum_bounds(p, n2, d);
    lemma_quotient_bounds(p, n1, d);
    lemma_quotient_bounds(p, n2, d);
    arith::lemma_round_bounded(fmt, n1, d);
    arith::lemma_round_bounded(fmt, n2, d);
    lemma_pow2_unfold(p);
    if k1 > k2 {
        if p + k2 < p + k1 - 1 {
            lemma_pow2_strictly_increases(p + k2, (p + k1 - 1) as nat);
        }
        assert(d * pow2(p + k2) <= d * pow2((p + k1 - 1) as nat)) by (nonlinear_arith)
            requires
                pow2(p + k2) <= pow2((p + k1 - 1) as nat),
        ;
    }
    if k1 == k2 {
        let e = d * pow2(k1);
        lemma_div_is_ordered(n1 as int, n2 as int, e as int);
        lemma_fundamental_div_mod(n1 as int, e as int);
        lemma_fundamental_div_mod(n2 as int, e as int);
    } else {
        assert(k1 * h + 2 * h <= k2 * h + h) by (nonlinear_arith)
            requires
                k1 + 1 <= k2,
                h >= 0,
        ;
    }
}

/// Rounding keeps what the format holds: a finite magnitude rounds to itself.
pub proof fn exact_values_are_kept(fmt: Format, mag: u64, d: nat)
    requires
        fmt.valid(),
        mag < fmt.inf,
        d > 0,
    ensures
        fmt.round(fmt.units(mag) * d, d) == mag,
{
    let p = fmt.p as nat;
    let h = pow2((p - 1) as nat);
    let e = (mag as nat) / h;
    let f = (mag as nat) % h;
    lemma_pow2_pos((p - 1) as nat);
    lemma_pow2_unfold(p);
    lemma_fundamental_div_mod(mag as int, h as int);
    assert(pow2(0) == 1) by {
        lemma2_to64();
    }
    if e == 0 {
        assert(f * pow2(0) == f);
        rounding::lemma_exact(p, fmt.units(mag) * d, d, f, 0);
        assert(0 * h + f == mag);
        assert(h * e == 0) by (nonlinear_arith)
            requires
                e == 0,
        ;
    } else {
        let k = (e - 1) as nat;
        rounding::lemma_exact(p, fmt.units(mag) * d, d, h + f, k);
        assert(k * h + (h + f) == mag) by (nonlinear_arith)
            requires
                mag == h * e + f,
                k == e - 1,
        ;
    }
}

/// The spacing exponent at a multiple of `2^t` that has at most `p` significant bits.
proof fn lemma_multiple_quantum(p: nat, s: nat, t: nat)
    requires
        p >= 1,
        s < pow2(p),
    ensures
        rounding::quantum(p, s * pow2(t), 1) <= t,
{
    let n = s * pow2(t);
    let k = rounding::quantum(p, n, 1);
    lemma_quantum_bounds(p, n, 1);
    lemma_pow2_adds(p, t);
    lemma_pow2_pos(t);
    assert(n < pow2(p) * pow2(t)) by (nonlinear_arith)
        requires
            s < pow2(p),
            pow2(t) > 0,
            n == s * pow2(t),
    ;
    if k > t {
        if p + t < p + k - 1 {
            lemma_pow2_strictly_increases(p + t, (p + k - 1) as nat);
        }
    }
}

/// A multiple of `2^t` with at most `p` significant bits stays finite where its exponent does.
pub proof fn lemma_multiple_finite(p: nat, inf: nat, s: nat, t: nat)
    requires
        p >= 1,
        s < pow2(p),
        (t + 2) * pow2((p - 1) as nat) < inf,
    ensures
        rounding::round_mag(p, inf, s * pow2(t), 1) < inf,
{
    let n = s * pow2(t);
    let k = rounding::quantum(p, n, 1);
    let h = pow2((p - 1) as nat);
    lemma_multiple_quantum(p, s, t);
    lemma_quotient_bounds(p, n, 1);
    lemma_pow2_unfold(p);
    assert(k * h + 2 * h <= (t + 2) * h) by (nonlinear_arith)
        requires
            k <= t,
            h >= 0,
    ;
}

/// A multiple of `2^t` with at most `p` significant bits is kept where it stays finite.
pub proof fn lemma_multiple_kept(p: nat, inf: nat, s: nat, t: nat)
    requires
        p >= 1,
        s < pow2(p),
        rounding::round_mag(p, inf, s * pow2(t), 1) < inf,
    ensures
        rounding::units(p, rounding::round_mag(p, inf, s * pow2(t), 1)) == s * pow2(t),
{
    let n = s * pow2(t);
    let k = rounding::quantum(p, n, 1);
    lemma_multiple_quantum(p, s, t);
    lemma_rounded_units(p, inf, n, 1);
    lemma_pow2_pos(k);
    lemma_pow2_adds((t - k) as nat, k);
    let q = s * pow2((t - k) as nat);
    assert(n == q * pow2(k)) by (nonlinear_arith)
        requires
            n == s * (pow2((t - k) as nat) * pow2(k)),
            q == s * pow2((t - k) as nat),
    ;
    lemma_fundamental_div_mod_converse(n as int, pow2(k) as int, q as int, 0);
    assert(1 * pow2(k) == pow2(k));
}

/// Widening a finite number keeps its value; the unit of the wider format is `2^925` times
/// smaller.
pub proof fn widening_is_exact(x: F32)
    requires
        x.finite(),
    ensures
        x.widened().finite(),
        x.widened().value() == x.value() * pow2(925),
{
    reveal(F32::spec_converted);
    let single = arith::single_format();
    let double = arith::double_format();
    let mag = x.signed().mag;
    let h = pow2(23);
    lemma2_to64();
    lemma2_to64_rest();
    let e = (mag as nat) / h;
    let f = (mag as nat) % h;
    lemma_fundamental_div_mod(mag as int, h as int);
    let (s, t) = if e == 0 {
        (f, 925nat)
    } else {
        (h + f, (e - 1 + 925) as nat)
    };
    let u = single.units(mag);
    let n = u * pow2(925);
    assert(n == s * pow2(t)) by {
        if e > 0 {
            lemma_pow2_adds((e - 1) as nat, 925);
            assert(((h + f) * pow2((e - 1) as nat)) * pow2(925) == (h + f) * (pow2((e - 1) as nat)
                * pow2(925))) by (nonlinear_arith);
        }
    }
    assert(e < 255) by (nonlinear_arith)
        requires
            mag < 0x7f80_0000,
            mag == h * e + f,
            h == 0x80_0000,
            f >= 0,
    ;
    assert((1074 - 149) as nat == 925nat);
    assert((t + 2) * 0x10_0000_0000_0000 < double.inf) by (nonlinear_arith)
        requires
            t <= 1178,
            double.inf == 0x7ff0_0000_0000_0000,
    ;
    assert((53 - 1) as nat == 52nat);
    lemma_multiple_finite(53, double.inf as nat, s, t);
    lemma_multiple_kept(53, double.inf as nat, s, t);
    arith::lemma_round_bounded(double, n, 1);
    lemma_mul_is_associative(-1, u as int, pow2(925) as int);
}

/// Narrowing undoes widening, on every number.
pub proof fn narrowing_undoes_widening(x: F32)
    requires
        !x.is_nan(),
    ensures
        x.widened().narrowed() == x,
{
    reveal(F32::spec_converted);
    reveal(F64::spec_converted);
    reveal(F32::spec_is_nan);
    let single = arith::single_format();
    let mag = x.signed().mag;
    if x.finite() {
        widening_is_exact(x);
        lemma_pow2_pos(925);
        exact_values_are_kept(single, mag, pow2(925));
        assert(single.units(mag) * pow2(925) >= 0) by (nonlinear_arith)
            requires
                pow2(925) > 0,
        ;
        lemma_mul_is_associative(-1, single.units(mag) as int, pow2(925) as int);
    }
}

/// Widening keeps the order of numbers.
pub proof fn widening_keeps_order(x: F32, y: F32)
    requires
        x.finite(),
        y.finite(),
    ensures
        x.widened().lt(y.widened()) == x.lt(y),
{
    reveal(F32::spec_lt);
    reveal(F64::spec_lt);
    widening_is_exact(x);
    widening_is_exact(y);
    lemma_pow2_pos(925);
    let w = pow2(925) as int;
    assert(x.value() * w < y.value() * w <==> x.value() < y.value()) by (nonlinear_arith)
        requires
            w > 0,
    ;
}

/// The order of 64-bit numbers is transitive, and of two numbers one is at most the other.
pub proof fn numbers_are_ordered(x: F64, y: F64, z: F64)
    requires
        !x.is_nan(),
        !y.is_nan(),
        !z.is_nan(),
    ensures
        x.le(y) || y.le(x),
        x.le(y) && y.le(z) ==> x.le(z),
        x.lt(y) <==> !y.le(x),
{
    reveal(F64::spec_lt);
    reveal(F64::spec_is_nan);
}

/// A sum does not depend on the order of its two terms.
pub proof fn sums_commute(x: F64, y: F64)
    ensures
        x.plus(y) == y.plus(x),
{
    reveal(F64::spec_plus);
}

/// Changing the signs of both factors changes nothing.
pub proof fn lemma_signs_cancel(x: F64, y: F64)
    ensures
        x.negated().times(y.negated()) == x.times(y),
{
    reveal(F64::spec_times);
    assert(x.negated().signed().mag == x.signed().mag && x.negated().signed().neg
        != x.signed().neg);
    assert(y.negated().signed().mag == y.signed().mag && y.negated().signed().neg
        != y.signed().neg);
}

/// Changing the sign of a finite dividend changes that of the quotient by a number other than
/// zero.
pub proof fn lemma_sign_of_quotient(x: F64, y: F64)
    requires
        x.finite(),
        !y.is_nan(),
        y.signed().mag != 0,
    ensures
        x.negated().over(y) == x.over(y).negated(),
{
    reveal(F64::spec_over);
    reveal(F64::spec_is_nan);
    let fmt = arith::double_format();
    assert(x.negated().signed().mag == x.signed().mag && x.negated().signed().neg
        != x.signed().neg);
    if y.finite() {
        arith::lemma_round_bounded(
            fmt,
            fmt.units(x.signed().mag) * pow2(fmt.unit as nat),
            fmt.units(y.signed().mag),
        );
    }
}

/// Changing the sign of a factor turns the addition of a product into a subtraction, and a
/// subtraction into an addition.
pub proof fn lemma_sign_of_term(p: F64, k: F64, s: F64)
    ensures
        p.minus(k.negated().times(s)) == p.plus(k.times(s)),
        p.plus(k.negated().times(s)) == p.minus(k.times(s)),
{
    reveal(F64::spec_plus);
    reveal(F64::spec_times);
    let fmt = arith::double_format();
    assert(k.negated().signed().mag == k.signed().mag && k.negated().signed().neg
        != k.signed().neg);
    let n = fmt.units(k.signed().mag) * fmt.units(s.signed().mag);
    arith::lemma_round_bounded(fmt, n, pow2(fmt.unit as nat));
    let (a, b) = (k.negated().times(s), k.times(s));
    if !fmt.is_nan(b.signed()) {
        assert(a == b.negated());
        assert(a.negated() == b);
    }
}

/// The units of one, in both formats.
pub proof fn units_of_one()
    ensures
        arith::single_format().units(0x3f80_0000) == pow2(149),
        arith::double_format().units(0x3ff0_0000_0000_0000) == pow2(1074),
{
    lemma2_to64();
    lemma2_to64_rest();
    lemma_fundamental_div_mod_converse(0x3f80_0000, 0x80_0000, 127, 0);
    lemma_pow2_adds(23, 126);
    lemma_fundamental_div_mod_converse(0x3ff0_0000_0000_0000, 0x10_0000_0000_0000, 1023, 0);
    lemma_pow2_adds(52, 1022);
}

} // verus!
