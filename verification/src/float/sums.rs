//! How far a long rounded sum is from the exact one.

use vstd::prelude::*;

use crate::float::accuracy;
use crate::float::accuracy::{distance, eps32, eps64, near32, near64, real32, real64, size};
use crate::float::double::F64;
use crate::float::single::F32;

verus! {

/// The exact sum of the values.
pub open spec fn total64(xs: Seq<F64>) -> real {
    xs.fold_left(0 as real, |t: real, x: F64| t + real64(x))
}

/// The exact sum of the sizes.
pub open spec fn size64(xs: Seq<F64>) -> real {
    xs.fold_left(0 as real, |t: real, x: F64| t + size(real64(x)))
}

/// The exact sum of the values.
pub open spec fn total32(xs: Seq<F32>) -> real {
    xs.fold_left(0 as real, |t: real, x: F32| t + real32(x))
}

/// The exact sum of the sizes.
pub open spec fn size32(xs: Seq<F32>) -> real {
    xs.fold_left(0 as real, |t: real, x: F32| t + size(real32(x)))
}

/// The rounded sum, from a start and one number after the other.
pub open spec fn running64(start: F64, xs: Seq<F64>) -> F64 {
    xs.fold_left(start, |s: F64, x: F64| s.plus(x))
}

/// The rounded sum, from a start and one number after the other.
pub open spec fn running32(start: F32, xs: Seq<F32>) -> F32 {
    xs.fold_left(start, |s: F32, x: F32| s.plus(x))
}

/// The sizes add up to no less than the sum does.
pub proof fn lemma_sizes64(xs: Seq<F64>)
    ensures
        size(total64(xs)) <= size64(xs),
    decreases xs.len(),
{
    if xs.len() > 0 {
        lemma_sizes64(xs.drop_last());
    }
}

/// The sizes add up to no less than the sum does.
pub proof fn lemma_sizes32(xs: Seq<F32>)
    ensures
        size(total32(xs)) <= size32(xs),
    decreases xs.len(),
{
    if xs.len() > 0 {
        lemma_sizes32(xs.drop_last());
    }
}

/// One more rounding: an error of `2 k e a` becomes one of at most `2 (k + 1) e b`.
proof fn lemma_one_more(err: real, k: real, e: real, a: real, b: real, last: real)
    requires
        0 as real <= k,
        0 as real <= e,
        2 as real * ((k + 1 as real) * e) <= 1 as real,
        0 as real <= a <= b,
        err <= 2 as real * (k * e) * a,
        last <= e * (b + err),
    ensures
        err + last <= 2 as real * ((k + 1 as real) * e) * b,
{
    let (ke, f) = (k * e, 2 as real * (k * e));
    assert((k + 1 as real) * e == ke + e) by (nonlinear_arith)
        requires
            ke == k * e,
    ;
    assert(0 as real <= ke) by (nonlinear_arith)
        requires
            ke == k * e,
            0 as real <= k,
            0 as real <= e,
    ;
    assert(f * a <= f * b) by (nonlinear_arith)
        requires
            0 as real <= f,
            a <= b,
    ;
    assert(f * b <= b) by (nonlinear_arith)
        requires
            f <= 1 as real,
            0 as real <= b,
    ;
    assert(e * (b + err) <= e * (b + b)) by (nonlinear_arith)
        requires
            0 as real <= e,
            err <= b,
    ;
    assert((2 as real * (ke + e)) * b == f * b + e * (b + b)) by (nonlinear_arith)
        requires
            f == 2 as real * ke,
    ;
}

/// A long rounded sum that stays finite is near the exact one: it errs by at most two roundings of
/// the sizes for each number.
pub proof fn running_sums_are_near64(start: F64, xs: Seq<F64>)
    requires
        running64(start, xs).finite(),
        2 as real * ((xs.len() as int as real) * eps64()) <= 1 as real,
    ensures
        near64(
            running64(start, xs),
            real64(start) + total64(xs),
            2 as real * ((xs.len() as int as real) * eps64()) * (size(real64(start)) + size64(xs)),
        ),
    decreases xs.len(),
{
    let e = eps64();
    accuracy::lemma_eps64();
    let n = xs.len() as int;
    if n > 0 {
        let front = xs.drop_last();
        let m = front.len() as int;
        let (s, x) = (running64(start, front), xs.last());
        assert((n as real) == (m as real) + 1 as real);
        assert((m as real) * e <= (n as real) * e) by (nonlinear_arith)
            requires
                (n as real) == (m as real) + 1 as real,
                0 as real <= e,
        ;
        accuracy::plus_errs(s, x);
        running_sums_are_near64(start, front);
        lemma_sizes64(front);
        let (a, b) = (size(real64(start)) + size64(front), size(real64(start)) + size64(xs));
        let exact = real64(start) + total64(front);
        let err = distance(real64(s), exact);
        accuracy::lemma_part_bound(size(real64(s) + real64(x)), b + err);
        lemma_one_more(
            err,
            m as real,
            e,
            a,
            b,
            distance(real64(s.plus(x)), real64(s) + real64(x)),
        );
    } else {
        let z = 0int as real;
        assert(2 as real * (z * e) * (size(real64(start)) + size64(xs)) == 0 as real)
            by (nonlinear_arith)
            requires
                z == 0 as real,
        ;
    }
}

/// The same of 32-bit numbers.
pub proof fn running_sums_are_near32(start: F32, xs: Seq<F32>)
    requires
        running32(start, xs).finite(),
        2 as real * ((xs.len() as int as real) * eps32()) <= 1 as real,
    ensures
        near32(
            running32(start, xs),
            real32(start) + total32(xs),
            2 as real * ((xs.len() as int as real) * eps32()) * (size(real32(start)) + size32(xs)),
        ),
    decreases xs.len(),
{
    let e = eps32();
    accuracy::lemma_eps32();
    let n = xs.len() as int;
    if n > 0 {
        let front = xs.drop_last();
        let m = front.len() as int;
        let (s, x) = (running32(start, front), xs.last());
        assert((n as real) == (m as real) + 1 as real);
        assert((m as real) * e <= (n as real) * e) by (nonlinear_arith)
            requires
                (n as real) == (m as real) + 1 as real,
                0 as real <= e,
        ;
        accuracy::plus_errs32(s, x);
        running_sums_are_near32(start, front);
        lemma_sizes32(front);
        let (a, b) = (size(real32(start)) + size32(front), size(real32(start)) + size32(xs));
        let exact = real32(start) + total32(front);
        let err = distance(real32(s), exact);
        let (w, far) = (size(real32(s) + real32(x)), b + err);
        assert(e * w <= e * far) by (nonlinear_arith)
            requires
                0 as real <= e,
                w <= far,
        ;
        lemma_one_more(
            err,
            m as real,
            e,
            a,
            b,
            distance(real32(s.plus(x)), real32(s) + real32(x)),
        );
    } else {
        let z = 0int as real;
        assert(2 as real * (z * e) * (size(real32(start)) + size32(xs)) == 0 as real)
            by (nonlinear_arith)
            requires
                z == 0 as real,
        ;
    }
}

} // verus!
