//! Rounding of exact magnitudes to a binary floating-point format.
//!
//! A format has `p` significant bits. Its smallest positive value is the unit: every finite
//! value of the format is a whole number of units, and an exact magnitude that arises from an
//! operation is a fraction `n / d` of units. A magnitude is encoded as the bit pattern of the
//! value without its sign bit.

use vstd::prelude::*;
use vstd::arithmetic::div_mod::*;
use vstd::arithmetic::mul::*;
use vstd::arithmetic::power2::*;

verus! {

/// The number of units that the magnitude pattern `mag` stands for.
pub open spec fn units(p: nat, mag: nat) -> nat {
    let h = pow2((p - 1) as nat);
    let e = mag / h;
    let f = mag % h;
    if e == 0 {
        f
    } else {
        (h + f) * pow2((e - 1) as nat)
    }
}

/// The whole number nearest to `n / d`, the even one of two that are equally near.
pub open spec fn nearest(n: nat, d: nat) -> nat {
    let q = n / d;
    let r = n % d;
    if 2 * r < d || (2 * r == d && q % 2 == 0) {
        q
    } else {
        q + 1
    }
}

/// The exponent of the spacing of the format's values around `n / d`: the least `k` for which
/// `n / d` is below `2^(p + k)`.
pub open spec fn quantum(p: nat, n: nat, d: nat) -> nat
    decreases 2 * n - d,
{
    if d == 0 || n < d * pow2(p) {
        0
    } else {
        proof {
            lemma_pow2_pos(p);
            assert(d <= d * pow2(p)) by (nonlinear_arith)
                requires
                    pow2(p) >= 1,
            ;
        }
        1 + quantum(p, n, 2 * d)
    }
}

/// The pattern of the value nearest to `n / d` units, ties going to the even pattern; `inf`
/// where that value is past the largest finite one.
pub open spec fn round_mag(p: nat, inf: nat, n: nat, d: nat) -> nat {
    let k = quantum(p, n, d);
    let mag = k * pow2((p - 1) as nat) + nearest(n, d * pow2(k));
    if mag < inf {
        mag
    } else {
        inf
    }
}

/// The largest whole number whose product with `w` has a square of at most `n`.
pub open spec fn root_floor(n: nat, w: nat) -> nat {
    choose|s: nat| (s * w) * (s * w) <= n < ((s + 1) * w) * #[trigger] ((s + 1) * w)
}

/// The whole number whose product with `w` is nearest to the square root of `n`, the even one
/// of two that are equally near.
pub open spec fn nearest_root(n: nat, w: nat) -> nat {
    let s = root_floor(n, w);
    let mid = (2 * s + 1) * w;
    if 4 * n < mid * mid || (4 * n == mid * mid && s % 2 == 0) {
        s
    } else {
        s + 1
    }
}

/// The exponent of the spacing of the format's values around the square root of `n`.
pub open spec fn root_quantum(p: nat, n: nat) -> nat {
    quantum(2 * p, n, 1) / 2 + quantum(2 * p, n, 1) % 2
}

/// The pattern of the value nearest to the square root of `n`, a number of squared units.
pub open spec fn round_root(p: nat, inf: nat, n: nat) -> nat {
    let k = root_quantum(p, n);
    let mag = k * pow2((p - 1) as nat) + nearest_root(n, pow2(k));
    if mag < inf {
        mag
    } else {
        inf
    }
}

/// The power of two by which `n` is scaled up where the exponent `exp` is negative.
pub open spec fn scale_down(exp: int) -> nat {
    pow2(
        if exp < 0 {
            -exp as nat
        } else {
            0
        },
    )
}

/// The power of two that the exponent `exp` stands for where it is positive.
pub open spec fn scale_up(exp: int) -> nat {
    pow2(
        if exp > 0 {
            exp as nat
        } else {
            0
        },
    )
}

/// `n / d` is `sig * 2^exp`, or, where `sticky` is set, strictly between that and
/// `(sig + 1) * 2^exp`.
pub open spec fn brackets(n: nat, d: nat, sig: nat, exp: int, sticky: bool) -> bool {
    let x = n * scale_down(exp);
    let w = d * scale_up(exp);
    if sticky {
        sig * w < x < (sig + 1) * w
    } else {
        x == sig * w
    }
}

/// What bracketing a whole number of units by a multiple of a power of two comes to.
pub proof fn lemma_brackets_whole(n: nat, sig: nat, exp: nat, sticky: bool)
    ensures
        brackets(n, 1, sig, exp as int, sticky) <==> if sticky {
            sig * pow2(exp) < n < (sig + 1) * pow2(exp)
        } else {
            n == sig * pow2(exp)
        },
{
    lemma2_to64();
    assert(n * scale_down(exp as int) == n) by (nonlinear_arith)
        requires
            scale_down(exp as int) == 1,
    ;
    assert(1 * scale_up(exp as int) == pow2(exp));
}

/// The spacing exponent is the only one that meets its two bounds.
pub proof fn lemma_quantum_unique(p: nat, n: nat, d: nat, k: nat)
    requires
        d > 0,
        n < d * pow2(p + k),
        k == 0 || n >= d * pow2((p + k - 1) as nat),
    ensures
        quantum(p, n, d) == k,
    decreases k,
{
    if k > 0 {
        let j = (k - 1) as nat;
        assert(pow2(p + k) == 2 * pow2(p + j)) by {
            lemma_pow2_unfold(p + k);
        }
        assert(d * pow2(p + k) == (2 * d) * pow2(p + j)) by (nonlinear_arith)
            requires
                pow2(p + k) == 2 * pow2(p + j),
        ;
        if j > 0 {
            assert(pow2(p + j) == 2 * pow2((p + j - 1) as nat)) by {
                lemma_pow2_unfold(p + j);
            }
            assert(d * pow2(p + j) == (2 * d) * pow2((p + j - 1) as nat)) by (nonlinear_arith)
                requires
                    pow2(p + j) == 2 * pow2((p + j - 1) as nat),
            ;
        }
        lemma_quantum_unique(p, n, 2 * d, j);
        assert(n >= d * pow2(p)) by {
            if p < p + j {
                lemma_pow2_strictly_increases(p, p + j);
                lemma_mul_inequality(pow2(p) as int, pow2(p + j) as int, d as int);
            }
            lemma_mul_is_commutative(d as int, pow2(p) as int);
            lemma_mul_is_commutative(d as int, pow2(p + j) as int);
        }
    }
}

/// Dropping the low `t` bits of a bracketed magnitude leaves the quotient and tells on which
/// side of the midpoint the rest lies.
pub proof fn lemma_drop_bits(
    n: nat,
    d: nat,
    sig: nat,
    exp: int,
    sticky: bool,
    t: nat,
)
    requires
        d > 0,
        t >= 1,
        exp + t >= 0,
        brackets(n, d, sig, exp, sticky),
    ensures
        ({
            let e = d * pow2((exp + t) as nat);
            let rem = sig % pow2(t);
            let half = pow2((t - 1) as nat);
            &&& e > 0
            &&& n / e == sig / pow2(t)
            &&& (2 * (n % e) < e <==> rem < half)
            &&& (2 * (n % e) == e <==> rem == half && !sticky)
        }),
{
    let k = (exp + t) as nat;
    let a = scale_down(exp);
    let b = scale_up(exp);
    let big = pow2(t);
    let half = pow2((t - 1) as nat);
    let w = d * b;
    let e = d * pow2(k);
    let x = n * a;
    let q = sig / big;
    let rem = sig % big;
    lemma_pow2_pos(t);
    lemma_pow2_pos(k);
    lemma_pow2_pos((t - 1) as nat);
    lemma_pow2_unfold(t);
    assert(pow2(0) == 1) by {
        lemma2_to64();
    }
    assert(a > 0 && b > 0 && a * pow2(k) == b * big) by {
        if exp >= 0 {
            lemma_pow2_pos(exp as nat);
            lemma_pow2_adds(exp as nat, t);
        } else {
            lemma_pow2_pos((-exp) as nat);
            lemma_pow2_adds((-exp) as nat, k);
        }
    }
    assert(w > 0 && e > 0 && a * e == w * big) by (nonlinear_arith)
        requires
            d > 0,
            b > 0,
            pow2(k) > 0,
            w == d * b,
            e == d * pow2(k),
            a * pow2(k) == b * big,
    ;
    lemma_fundamental_div_mod(sig as int, big as int);
    assert(sig == q * big + rem) by (nonlinear_arith)
        requires
            sig == big * q + rem,
    ;
    let r = n - q * e;
    assert(a * r == x - q * (w * big)) by (nonlinear_arith)
        requires
            r == n - q * e,
            x == n * a,
            a * e == w * big,
    ;
    assert(sig * w == q * (w * big) + rem * w) by (nonlinear_arith)
        requires
            sig == q * big + rem,
    ;
    assert((sig + 1) * w == sig * w + w) by (nonlinear_arith);
    assert((rem + 1) * w == rem * w + w) by (nonlinear_arith);
    let y = a * r;
    assert(rem * w <= y < (rem + 1) * w);
    assert((rem + 1) * w <= big * w) by (nonlinear_arith)
        requires
            rem + 1 <= big,
            w > 0,
    ;
    assert(0 <= rem * w) by (nonlinear_arith)
        requires
            rem >= 0,
            w > 0,
    ;
    assert(0 <= r < e) by (nonlinear_arith)
        requires
            a > 0,
            0 <= a * r,
            a * r < w * big,
            a * e == w * big,
    ;
    assert(n == q * e + r);
    lemma_fundamental_div_mod_converse(n as int, e as int, q as int, r);
    assert(2 * y == a * (2 * r)) by (nonlinear_arith)
        requires
            y == a * r,
    ;
    assert(a * e == 2 * (half * w)) by (nonlinear_arith)
        requires
            a * e == w * big,
            big == 2 * half,
    ;
    if rem < half {
        assert((rem + 1) * w <= half * w) by (nonlinear_arith)
            requires
                rem + 1 <= half,
                w > 0,
        ;
        assert(2 * r < e) by (nonlinear_arith)
            requires
                a > 0,
                a * (2 * r) < a * e,
        ;
    } else if rem > half {
        assert((half + 1) * w <= rem * w) by (nonlinear_arith)
            requires
                half + 1 <= rem,
                w > 0,
        ;
        assert((half + 1) * w == half * w + w) by (nonlinear_arith);
        assert(2 * r > e) by (nonlinear_arith)
            requires
                a > 0,
                a * (2 * r) > a * e,
        ;
    } else if sticky {
        assert(2 * r > e) by (nonlinear_arith)
            requires
                a > 0,
                a * (2 * r) > a * e,
        ;
    } else {
        assert(2 * r == e) by (nonlinear_arith)
            requires
                a > 0,
                a * (2 * r) == a * e,
        ;
    }
}

/// Dividing by `2^s` what is left of `x` after dividing by `2^m`.
proof fn lemma_div_chain(x: nat, m: nat, s: nat)
    ensures
        x / pow2(m + s) == (x / pow2(m)) / pow2(s),
{
    lemma_pow2_pos(m);
    lemma_pow2_pos(s);
    lemma_pow2_adds(m, s);
    lemma_div_denominator(x as int, pow2(m) as int, pow2(s) as int);
}

/// A left shift of one is a power of two.
proof fn lemma_one_shl(e: u32)
    requires
        e < 128,
    ensures
        1u128 << e == pow2(e as nat),
    decreases e,
{
    if e == 0 {
        assert(1u128 << 0u32 == 1) by (bit_vector);
        lemma2_to64();
    } else {
        let f = (e - 1) as u32;
        lemma_one_shl(f);
        assert(1u128 << e == 2 * (1u128 << f)) by (bit_vector)
            requires
                0 < e < 128,
                f == e - 1,
        ;
        lemma_pow2_unfold(e as nat);
    }
}

/// `2^e`.
pub fn power_of_two(e: u32) -> (r: u128)
    requires
        e < 128,
    ensures
        r == pow2(e as nat),
{
    proof {
        lemma_one_shl(e);
    }
    1u128 << e
}

/// Divides `y` by `2^s` where it does not fit in `s` bits.
fn narrow(Ghost(x): Ghost<nat>, y: u128, m: u32, s: u32) -> (r: (u128, u32))
    requires
        y == x / pow2(m as nat),
        y < pow2((2 * s) as nat),
        0 < s <= 64,
        m <= 128,
    ensures
        r.0 == x / pow2(r.1 as nat),
        r.0 < pow2(s as nat),
        y > 0 ==> r.0 > 0,
        m <= r.1 <= m + s,
{
    let h: u128 = power_of_two(s);
    if y >= h {
        proof {
            lemma_div_chain(x, m as nat, s as nat);
            lemma_pow2_pos(s as nat);
            lemma_pow2_adds(s as nat, s as nat);
            lemma_multiply_divide_lt(y as int, h as int, h as int);
            lemma_div_non_zero(y as int, h as int);
        }
        (y / h, m + s)
    } else {
        (y, m)
    }
}

/// The number of significant bits of `x`.
pub fn bit_len(x: u128) -> (len: u32)
    ensures
        len <= 128,
        x < pow2(len as nat),
        len > 0 ==> x >= pow2((len - 1) as nat),
{
    let ghost n = x as nat;
    proof {
        lemma2_to64();
        lemma_div_basics(n as int);
        lemma_pow2_adds(64, 64);
        assert(0x1_0000_0000_0000_0000 * 0x1_0000_0000_0000_0000 == u128::MAX + 1);
    }
    let (y, m) = narrow(Ghost(n), x, 0, 64);
    let (y, m) = narrow(Ghost(n), y, m, 32);
    let (y, m) = narrow(Ghost(n), y, m, 16);
    let (y, m) = narrow(Ghost(n), y, m, 8);
    let (y, m) = narrow(Ghost(n), y, m, 4);
    let (y, m) = narrow(Ghost(n), y, m, 2);
    let (y, m) = narrow(Ghost(n), y, m, 1);
    proof {
        lemma_pow2_pos(m as nat);
        lemma_fundamental_div_mod(n as int, pow2(m as nat) as int);
        lemma_pow2_unfold((m + 1) as nat);
    }
    if y == 1 {
        m + 1
    } else {
        0
    }
}

/// The spacing at a bracketed magnitude of `len` bits is reached by dropping the low `t` bits.
proof fn lemma_spacing(
    p: nat,
    n: nat,
    d: nat,
    sig: nat,
    exp: int,
    sticky: bool,
    len: nat,
    t: nat,
)
    requires
        d > 0,
        p >= 1,
        t >= 1,
        brackets(n, d, sig, exp, sticky),
        sig < pow2(len),
        len > 0 ==> sig >= pow2((len - 1) as nat),
        t >= len - p,
        t >= -exp,
        t == len - p || t == -exp,
    ensures
        quantum(p, n, d) == exp + t,
{
    let k = (exp + t) as nat;
    let a = scale_down(exp);
    let b = scale_up(exp);
    let big = pow2(t);
    let w = d * b;
    let e = d * pow2(k);
    let x = n * a;
    lemma_pow2_pos(t);
    lemma_pow2_pos(k);
    lemma_pow2_pos(p);
    assert(pow2(0) == 1) by {
        lemma2_to64();
    }
    assert(a > 0 && b > 0 && a * pow2(k) == b * big) by {
        if exp >= 0 {
            lemma_pow2_pos(exp as nat);
            lemma_pow2_adds(exp as nat, t);
        } else {
            lemma_pow2_pos((-exp) as nat);
            lemma_pow2_adds((-exp) as nat, k);
        }
    }
    assert(w > 0 && e > 0 && a * e == w * big) by (nonlinear_arith)
        requires
            d > 0,
            b > 0,
            pow2(k) > 0,
            w == d * b,
            e == d * pow2(k),
            a * pow2(k) == b * big,
    ;
    assert(sig + 1 <= big * pow2(p)) by {
        lemma_pow2_adds(t, p);
        if len < t + p {
            lemma_pow2_strictly_increases(len, t + p);
        }
    }
    assert((sig + 1) * w == sig * w + w) by (nonlinear_arith);
    assert((sig + 1) * w <= (big * pow2(p)) * w) by (nonlinear_arith)
        requires
            sig + 1 <= big * pow2(p),
            w > 0,
    ;
    assert(n < e * pow2(p)) by (nonlinear_arith)
        requires
            a > 0,
            n * a < (big * pow2(p)) * w,
            a * e == w * big,
    ;
    assert(e * pow2(p) == d * pow2(p + k)) by {
        lemma_pow2_adds(p, k);
        assert((d * pow2(k)) * pow2(p) == d * (pow2(p) * pow2(k))) by (nonlinear_arith);
    }
    if k > 0 {
        let g = pow2((p - 1) as nat);
        assert(t == len - p);
        lemma_pow2_adds(t, (p - 1) as nat);
        assert(sig >= big * g);
        assert(sig * w >= (big * g) * w) by (nonlinear_arith)
            requires
                sig >= big * g,
                w > 0,
        ;
        assert(n >= e * g) by (nonlinear_arith)
            requires
                a > 0,
                n * a >= (big * g) * w,
                a * e == w * big,
        ;
        assert(e * g == d * pow2((p + k - 1) as nat)) by {
            lemma_pow2_adds((p - 1) as nat, k);
            assert((d * pow2(k)) * g == d * (g * pow2(k))) by (nonlinear_arith);
        }
    }
    lemma_quantum_unique(p, n, d, k);
}

/// A magnitude that the format holds exactly rounds to itself.
pub proof fn lemma_exact(p: nat, n: nat, d: nat, q: nat, k: nat)
    requires
        d > 0,
        p >= 1,
        n == (q * pow2(k)) * d,
        q < pow2(p),
        k == 0 || q >= pow2((p - 1) as nat),
    ensures
        quantum(p, n, d) == k,
        nearest(n, d * pow2(k)) == q,
{
    let e = d * pow2(k);
    lemma_pow2_pos(k);
    assert(e > 0) by (nonlinear_arith)
        requires
            d > 0,
            pow2(k) > 0,
            e == d * pow2(k),
    ;
    assert(n == q * e) by (nonlinear_arith)
        requires
            n == (q * pow2(k)) * d,
            e == d * pow2(k),
    ;
    lemma_fundamental_div_mod_converse(n as int, e as int, q as int, 0);
    assert(n < d * pow2(p + k)) by {
        lemma_pow2_adds(p, k);
        assert(q * e < pow2(p) * e) by (nonlinear_arith)
            requires
                q < pow2(p),
                e > 0,
        ;
        assert(pow2(p) * (d * pow2(k)) == d * (pow2(p) * pow2(k))) by (nonlinear_arith);
    }
    if k > 0 {
        let g = pow2((p - 1) as nat);
        lemma_pow2_adds((p - 1) as nat, k);
        assert(q * e >= g * e) by (nonlinear_arith)
            requires
                q >= g,
                e > 0,
        ;
        assert(g * (d * pow2(k)) == d * (g * pow2(k))) by (nonlinear_arith);
        assert(p + k - 1 == (p - 1) + k);
    }
    lemma_quantum_unique(p, n, d, k);
}

/// Rounds the bracketed magnitude `n / d` to the format with `p` significant bits.
pub fn round_pack(
    p: u32,
    inf: u64,
    sig: u128,
    exp: i32,
    sticky: bool,
    Ghost(n): Ghost<nat>,
    Ghost(d): Ghost<nat>,
) -> (mag: u64)
    requires
        2 <= p <= 53,
        d > 0,
        sig < pow2(126),
        -5000 <= exp <= 5000,
        brackets(n, d, sig as nat, exp as int, sticky),
        sticky ==> exp < 0 || sig >= pow2(p as nat),
    ensures
        mag == round_mag(p as nat, inf as nat, n, d),
{
    let len: u32 = bit_len(sig);
    proof {
        lemma2_to64();
        if len > 126 {
            if len > 127 {
                lemma_pow2_strictly_increases(126, (len - 1) as nat);
            }
        }
        assert(len <= 126);
        if sticky && exp >= 0 && len <= p {
            if len < p {
                lemma_pow2_strictly_increases(len as nat, p as nat);
            }
        }
    }
    let over: i32 = len as i32 - p as i32;
    let drop: i32 = if over > -exp {
        over
    } else {
        -exp
    };
    let q: u128;
    let k: u128;
    if drop <= 0 {
        let room: i32 = p as i32 - len as i32;
        let s: i32 = if sig == 0 || exp < room {
            exp
        } else {
            room
        };
        if sig == 0 {
            proof {
                lemma_pow2_pos(0);
                lemma_pow2_pos(p as nat);
                assert(n == (0 * pow2(0)) * d) by (nonlinear_arith)
                    requires
                        n * scale_down(exp as int) == 0 * (d * scale_up(exp as int)),
                        scale_down(exp as int) == 1,
                ;
                lemma_exact(p as nat, n, d, 0, 0);
            }
            q = 0;
            k = 0;
        } else {
            let f: u128 = power_of_two(s as u32);
            let ghost z = (exp - s) as nat;
            proof {
                lemma_pow2_adds(len as nat, s as nat);
                lemma_pow2_pos(s as nat);
                assert(sig * f < pow2((len + s) as nat)) by (nonlinear_arith)
                    requires
                        sig < pow2(len as nat),
                        f == pow2(s as nat),
                        f > 0,
                        pow2((len + s) as nat) == pow2(len as nat) * pow2(s as nat),
                ;
                if len + s < p {
                    lemma_pow2_strictly_increases((len + s) as nat, p as nat);
                }
                lemma_pow2_strictly_increases(p as nat, 64);
                if z > 0 {
                    lemma_pow2_adds((len - 1) as nat, s as nat);
                    assert(sig * f >= pow2((p - 1) as nat)) by (nonlinear_arith)
                        requires
                            sig >= pow2((len - 1) as nat),
                            f == pow2(s as nat),
                            pow2((p - 1) as nat) == pow2((len - 1) as nat) * pow2(s as nat),
                    ;
                }
                lemma_pow2_adds(s as nat, z);
                assert(n == ((sig * f) * pow2(z)) * d) by (nonlinear_arith)
                    requires
                        n * scale_down(exp as int) == sig * (d * scale_up(exp as int)),
                        scale_down(exp as int) == 1,
                        scale_up(exp as int) == pow2(s as nat) * pow2(z),
                        f == pow2(s as nat),
                ;
                lemma_exact(p as nat, n, d, (sig * f) as nat, z);
            }
            q = sig * f;
            k = (exp - s) as u128;
        }
    } else {
        proof {
            lemma_spacing(
                p as nat,
                n,
                d,
                sig as nat,
                exp as int,
                sticky,
                len as nat,
                drop as nat,
            );
            lemma_drop_bits(n, d, sig as nat, exp as int, sticky, drop as nat);
        }
        k = (exp + drop) as u128;
        if drop >= 128 {
            proof {
                lemma_pow2_strictly_increases(126, (drop - 1) as nat);
                lemma_pow2_strictly_increases(126, drop as nat);
                lemma_basic_div(sig as int, pow2(drop as nat) as int);
                lemma_small_mod(sig as nat, pow2(drop as nat));
            }
            q = 0;
        } else {
            let step: u128 = power_of_two(drop as u32);
            let half: u128 = power_of_two((drop - 1) as u32);
            proof {
                lemma_pow2_pos(drop as nat);
                lemma_div_is_ordered_by_denominator(sig as int, 1, step as int);
                lemma_div_basics(sig as int);
                lemma_pow2_strictly_increases(126, 127);
                lemma_one_shl(127);
            }
            let floor: u128 = sig / step;
            let rest: u128 = sig % step;
            if rest < half || (rest == half && !sticky && floor % 2 == 0) {
                q = floor;
            } else {
                q = floor + 1;
            }
        }
    }
    let h: u128 = power_of_two(p - 1);
    proof {
        lemma_pow2_strictly_increases((p - 1) as nat, 64);
        assert(k * h <= 5200 * 0x1_0000_0000_0000_0000) by (nonlinear_arith)
            requires
                k <= 5200,
                h <= 0x1_0000_0000_0000_0000,
        ;
        lemma_one_shl(126);
        assert((1u128 << 126u32) + 5200 * 0x1_0000_0000_0000_0000 + 1 < u128::MAX)
            by (bit_vector);
    }
    let mag: u128 = k * h + q;
    if mag < inf as u128 {
        mag as u64
    } else {
        inf
    }
}

/// The floored root is the only number between its two bounds.
pub proof fn lemma_root_floor_unique(n: nat, w: nat, s: nat)
    requires
        w > 0,
        (s * w) * (s * w) <= n < ((s + 1) * w) * ((s + 1) * w),
    ensures
        root_floor(n, w) == s,
{
    let t = root_floor(n, w);
    assert((t * w) * (t * w) <= n < ((t + 1) * w) * ((t + 1) * w));
    if t < s {
        assert((t + 1) * w <= s * w) by (nonlinear_arith)
            requires
                t + 1 <= s,
                w > 0,
        ;
        assert(((t + 1) * w) * ((t + 1) * w) <= (s * w) * (s * w)) by (nonlinear_arith)
            requires
                0 <= (t + 1) * w <= s * w,
        ;
    } else if t > s {
        assert((s + 1) * w <= t * w) by (nonlinear_arith)
            requires
                s + 1 <= t,
                w > 0,
        ;
        assert(((s + 1) * w) * ((s + 1) * w) <= (t * w) * (t * w)) by (nonlinear_arith)
            requires
                0 <= (s + 1) * w <= t * w,
        ;
    }
}

/// The floored square root of `m`, which has at most `2 * bits` bits.
pub fn integer_root(m: u128, bits: u32) -> (r: u128)
    requires
        0 < bits <= 60,
        m < pow2((2 * bits) as nat),
    ensures
        r * r <= m < (r + 1) * (r + 1),
        r < pow2(bits as nat),
{
    let mut r: u128 = 0;
    let mut i: u32 = bits;
    proof {
        lemma_pow2_adds(bits as nat, bits as nat);
        lemma2_to64();
    }
    while i > 0
        invariant
            i <= bits,
            0 < bits <= 60,
            r * r <= m,
            m < (r + pow2(i as nat)) * (r + pow2(i as nat)),
            r + pow2(i as nat) <= pow2(bits as nat),
        decreases i,
    {
        i = i - 1;
        let b: u128 = power_of_two(i);
        proof {
            lemma_pow2_unfold((i + 1) as nat);
            lemma_pow2_strictly_increases(bits as nat, 64);
            lemma2_to64();
            assert((r + b) * (r + b) < 0x1_0000_0000_0000_0000 * 0x1_0000_0000_0000_0000)
                by (nonlinear_arith)
                requires
                    r + b < 0x1_0000_0000_0000_0000,
                    0 <= r,
                    0 <= b,
            ;
        }
        let c: u128 = r + b;
        if c * c <= m {
            r = c;
        }
    }
    proof {
        lemma2_to64();
    }
    r
}

/// A fourfold power of two as a square.
proof fn lemma_square_of_power(k: nat)
    ensures
        pow2(2 * k) == pow2(k) * pow2(k),
{
    lemma_pow2_adds(k, k);
}

/// Rounds the square root of `sig * 2^exp` to the format with `p` significant bits.
pub fn round_root_pack(p: u32, inf: u64, sig: u64, exp: u32, Ghost(n): Ghost<nat>) -> (mag: u64)
    requires
        2 <= p <= 53,
        0 < sig < pow2(p as nat),
        2 * p + 2 <= exp <= 5000,
        n == sig * pow2(exp as nat),
    ensures
        mag == round_root(p as nat, inf as nat, n),
{
    let len: u32 = bit_len(sig as u128);
    proof {
        lemma2_to64();
        if len > p {
            if len - 1 > p {
                lemma_pow2_strictly_increases(p as nat, (len - 1) as nat);
            }
        }
        assert(len <= p);
        if len == 0 {
            assert(sig < 1);
        }
    }
    let base: u32 = 2 * p + 1 - len;
    let j: u32 = if (exp - base) % 2 == 0 {
        base
    } else {
        base + 1
    };
    let m: u32 = (exp - j) / 2;
    let f: u128 = power_of_two(j);
    proof {
        lemma_pow2_adds(len as nat, j as nat);
        lemma_pow2_adds((len - 1) as nat, j as nat);
        lemma_pow2_pos(j as nat);
        assert(sig * f < pow2((len + j) as nat)) by (nonlinear_arith)
            requires
                sig < pow2(len as nat),
                f == pow2(j as nat),
                f > 0,
                pow2((len + j) as nat) == pow2(len as nat) * pow2(j as nat),
        ;
        assert(sig * f >= pow2((len - 1 + j) as nat)) by (nonlinear_arith)
            requires
                sig >= pow2((len - 1) as nat),
                f == pow2(j as nat),
                pow2((len - 1 + j) as nat) == pow2((len - 1) as nat) * pow2(j as nat),
        ;
        if len + j < 2 * p + 2 {
            lemma_pow2_strictly_increases((len + j) as nat, (2 * p + 2) as nat);
        }
        if 2 * p < len - 1 + j {
            lemma_pow2_strictly_increases((2 * p) as nat, (len - 1 + j) as nat);
        }
        lemma_pow2_strictly_increases((2 * p + 2) as nat, 126);
        lemma_one_shl(126);
    }
    let wide: u128 = sig as u128 * f;
    assert(pow2((2 * p) as nat) <= wide < pow2((2 * p + 2) as nat));
    let s: u128 = integer_root(wide, p + 1);
    let half: u128 = s / 2;
    let q: u128 = if s % 2 == 0 || (s * s == wide && half % 2 == 0) {
        half
    } else {
        half + 1
    };
    let k: u128 = m as u128 + 1;
    proof {
        let g = pow2(m as nat);
        let w = pow2((m + 1) as nat);
        lemma_pow2_pos(m as nat);
        lemma_pow2_unfold((m + 1) as nat);
        lemma_square_of_power(m as nat);
        lemma_pow2_adds(j as nat, (2 * m) as nat);
        assert(n == wide * (g * g)) by (nonlinear_arith)
            requires
                n == sig * pow2(exp as nat),
                pow2(exp as nat) == pow2(j as nat) * (g * g),
                wide == sig * pow2(j as nat),
        ;
        let gg = g * g;
        assert(gg > 0) by (nonlinear_arith)
            requires
                g > 0,
                gg == g * g,
        ;
        // The spacing.
        let a = (2 * p) as nat;
        let two_m = (2 * m) as nat;
        lemma_pow2_adds(a, two_m);
        lemma_pow2_adds(a + 2, two_m);
        assert(pow2(a) * gg <= n < pow2(a + 2) * gg) by (nonlinear_arith)
            requires
                n == wide * gg,
                pow2(a) <= wide < pow2(a + 2),
                gg > 0,
        ;
        if n < pow2(a + (two_m + 1)) {
            assert(n >= 1 * pow2((a + (two_m + 1) - 1) as nat));
            lemma_quantum_unique(a, n, 1, two_m + 1);
        } else {
            assert(a + 2 + two_m == a + (two_m + 2));
            assert(a + (two_m + 2) - 1 == a + (two_m + 1));
            lemma_quantum_unique(a, n, 1, two_m + 2);
        }
        assert(root_quantum(p as nat, n) == m + 1);
        // The floor.
        let h = half as nat;
        assert(h * w == (2 * h) * g) by (nonlinear_arith)
            requires
                w == 2 * g,
        ;
        assert((h + 1) * w == (2 * h + 2) * g) by (nonlinear_arith)
            requires
                w == 2 * g,
        ;
        assert((2 * h) * (2 * h) <= wide) by (nonlinear_arith)
            requires
                2 * h <= s,
                s * s <= wide,
        ;
        assert(wide < (2 * h + 2) * (2 * h + 2)) by (nonlinear_arith)
            requires
                s + 1 <= 2 * h + 2,
                wide < (s + 1) * (s + 1),
                0 <= s,
        ;
        assert(((2 * h) * g) * ((2 * h) * g) <= n) by (nonlinear_arith)
            requires
                (2 * h) * (2 * h) <= wide,
                n == wide * (g * g),
                g > 0,
        ;
        assert(n < ((2 * h + 2) * g) * ((2 * h + 2) * g)) by (nonlinear_arith)
            requires
                wide < (2 * h + 2) * (2 * h + 2),
                n == wide * (g * g),
                g > 0,
        ;
        lemma_root_floor_unique(n, w, h);
        // The midpoint.
        let mid = (2 * h + 1) * w;
        let odd = (2 * h + 1) * (2 * h + 1);
        assert(mid * mid == 4 * (odd * gg)) by (nonlinear_arith)
            requires
                mid == (2 * h + 1) * w,
                w == 2 * g,
                odd == (2 * h + 1) * (2 * h + 1),
                gg == g * g,
        ;
        if s % 2 == 0 {
            assert(wide < odd);
            assert(wide * gg < odd * gg) by (nonlinear_arith)
                requires
                    wide < odd,
                    gg > 0,
            ;
        } else {
            assert(odd == s * s);
            if wide > odd {
                assert(wide * gg > odd * gg) by (nonlinear_arith)
                    requires
                        wide > odd,
                        gg > 0,
                ;
            }
        }
        assert(nearest_root(n, w) == q);
    }
    let h: u128 = power_of_two(p - 1);
    proof {
        lemma_pow2_strictly_increases((p - 1) as nat, 64);
        lemma_pow2_strictly_increases((p + 1) as nat, 64);
        assert(k * h <= 5200 * 0x1_0000_0000_0000_0000) by (nonlinear_arith)
            requires
                k <= 5200,
                h <= 0x1_0000_0000_0000_0000,
        ;
    }
    let mag: u128 = k * h + q;
    if mag < inf as u128 {
        mag as u64
    } else {
        inf
    }
}

} // verus!
