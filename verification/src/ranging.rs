//! Which points are kept follows their exact distances.

use vstd::prelude::*;
use vstd::arithmetic::power2::*;

use crate::cloud::PointXYZT;
use crate::float::accuracy;
use crate::float::accuracy::{eps32, near32, real32, size, smallest32};
use crate::float::arith;
use crate::float::exactness;
use crate::float::single::F32;
use crate::pre_process_pcd::{in_range, squared_distance};

verus! {

/// A 32-bit rounding of a number is a small part of it, and roundings add up.
proof fn lemma_part(x: real, y: real)
    requires
        0 as real <= x,
        0 as real <= y,
    ensures
        0 as real <= eps32() * x,
        1_000_000int as real * (eps32() * x) <= x,
        eps32() * (x + y) == eps32() * x + eps32() * y,
{
    let e = eps32();
    accuracy::lemma_eps32();
    assert(0 as real <= e * x && 1_000_000int as real * (e * x) <= x && e * (x + y) == e * x + e * y)
        by (nonlinear_arith)
        requires
            e * 100_000_000int as real == 6 as real,
            x >= 0 as real,
    ;
}

/// A rounding of a number is at most one of a bound.
proof fn lemma_part_bound(x: real, b: real)
    requires
        x <= b,
    ensures
        eps32() * x <= eps32() * b,
{
    let e = eps32();
    accuracy::lemma_eps32();
    assert(e * x <= e * b) by (nonlinear_arith)
        requires
            e * 100_000_000int as real == 6 as real,
            x <= b,
    ;
}

/// The rounded square of a number.
proof fn lemma_square(x: F32)
    requires
        x.times(x).finite(),
    ensures
        x.finite(),
        real32(x) * real32(x) >= 0 as real,
        near32(
            x.times(x),
            real32(x) * real32(x),
            eps32() * (real32(x) * real32(x)) + smallest32(),
        ),
{
    accuracy::times_errs32(x, x);
    let r = real32(x);
    assert(r * r >= 0 as real) by (nonlinear_arith);
}

/// The rounded squared distance of a point is near the exact one.
pub proof fn squared_distances_are_nearly_exact(p: PointXYZT)
    requires
        squared_distance(p).finite(),
    ensures
        ({
            let (x, y, z) = (real32(p.x), real32(p.y), real32(p.z));
            let exact = x * x + y * y + z * z;
            &&& p.x.finite() && p.y.finite() && p.z.finite()
            &&& exact >= 0 as real
            &&& near32(
                squared_distance(p),
                exact,
                10 as real * (eps32() * exact) + 10 as real * smallest32(),
            )
        }),
{
    let (a, b, c) = (p.x.times(p.x), p.y.times(p.y), p.z.times(p.z));
    accuracy::plus_errs32(a.plus(b), c);
    accuracy::plus_errs32(a, b);
    lemma_square(p.x);
    lemma_square(p.y);
    lemma_square(p.z);
    accuracy::lemma_smallest32();
    let (e, u) = (eps32(), smallest32());
    let (xx, yy, zz) = (
        real32(p.x) * real32(p.x),
        real32(p.y) * real32(p.y),
        real32(p.z) * real32(p.z),
    );
    let two = xx + yy;
    let exact = two + zz;
    lemma_part(xx, yy);
    lemma_part(yy, xx);
    lemma_part(zz, two);
    lemma_part(two, zz);
    lemma_part(exact, u);
    lemma_part(u, exact);
    let bound1 = 2 as real * two + 2 as real * u;
    lemma_part_bound(size(real32(a) + real32(b)), bound1);
    assert(e * bound1 == 2 as real * (e * two) + 2 as real * (e * u)) by (nonlinear_arith)
        requires
            bound1 == 2 as real * two + 2 as real * u,
    ;
    let bound2 = 4 as real * exact + 5 as real * u;
    lemma_part_bound(size(real32(a.plus(b)) + real32(c)), bound2);
    assert(e * bound2 == 4 as real * (e * exact) + 5 as real * (e * u)) by (nonlinear_arith)
        requires
            bound2 == 4 as real * exact + 5 as real * u,
    ;
}

/// The order of finite 32-bit numbers is that of the real numbers they stand for.
proof fn lemma_order(x: F32, y: F32)
    requires
        x.finite(),
        y.finite(),
    ensures
        x.lt(y) <==> real32(x) < real32(y),
{
    reveal(F32::spec_is_nan);
    exactness::order_follows_the_values32(x, y);
    lemma_pow2_pos(149);
    let o = accuracy::one_of(arith::single_format());
    let (a, b) = (x.value(), y.value());
    let (ar, br) = (a as real, b as real);
    assert(ar / o < br / o <==> ar < br) by (nonlinear_arith)
        requires
            o > 0 as real,
    ;
}

/// Points are kept by their exact distance, but for a rounding at the two bounds: one that is clearly
/// nearer than the least distance or farther than the largest is dropped, and one that is clearly
/// between the two is kept, wherever nothing overflows.
pub proof fn ranges_follow_the_distance(p: PointXYZT, min_dist: F32, max_dist: F32)
    requires
        squared_distance(p).finite(),
        min_dist.times(min_dist).finite(),
        max_dist.times(max_dist).finite(),
    ensures
        ({
            let (x, y, z) = (real32(p.x), real32(p.y), real32(p.z));
            let exact = x * x + y * y + z * z;
            let least = real32(min_dist) * real32(min_dist);
            let most = real32(max_dist) * real32(max_dist);
            let slack = 10 as real * (eps32() * (exact + least + most)) + 20 as real * smallest32();
            &&& exact + slack < least ==> !in_range(p, min_dist, max_dist)
            &&& exact > most + slack ==> !in_range(p, min_dist, max_dist)
            &&& least + slack <= exact && exact + slack <= most ==> in_range(p, min_dist, max_dist)
        }),
{
    squared_distances_are_nearly_exact(p);
    lemma_square(min_dist);
    lemma_square(max_dist);
    accuracy::lemma_smallest32();
    let (x, y, z) = (real32(p.x), real32(p.y), real32(p.z));
    let exact = x * x + y * y + z * z;
    let least = real32(min_dist) * real32(min_dist);
    let most = real32(max_dist) * real32(max_dist);
    lemma_part(exact, least);
    lemma_part(least, exact);
    lemma_part(most, least);
    lemma_part(exact + least, most);
    let d = squared_distance(p);
    lemma_order(d, min_dist.times(min_dist));
    lemma_order(max_dist.times(max_dist), d);
}

} // verus!
