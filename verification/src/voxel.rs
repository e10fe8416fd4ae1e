//! Downsampling a cloud to one point per voxel.

use std::collections::HashMap;

use vstd::prelude::*;
use vstd::arithmetic::div_mod::*;
use vstd::arithmetic::mul::*;
use vstd::arithmetic::power2::*;

use crate::algebra;
use crate::cloud::P3;
use crate::float::accuracy;
use crate::float::accuracy::{distance, eps32, real32, size, smallest32};
use crate::float::arith;
use crate::float::laws;
use crate::float::rounding;
use crate::float::single::F32;
use crate::float::sums;
use crate::pose::ONE_SINGLE;

verus! {

broadcast use vstd::std_specs::hash::group_hash_axioms;

/// A cube of the grid, by the whole coordinates of its lowest corner.
#[derive(Clone, Copy, PartialEq, Eq, Structural, Debug)]
pub struct VoxelKey {
    pub ix: i32,
    pub iy: i32,
    pub iz: i32,
}

/// The voxel of a point.
#[verifier::allow_in_spec]
pub fn voxel_of(p: P3, voxel_size: F32) -> VoxelKey
    returns
        (VoxelKey {
            ix: p.x.over(voxel_size).floor_i32(),
            iy: p.y.over(voxel_size).floor_i32(),
            iz: p.z.over(voxel_size).floor_i32(),
        }),
{
    VoxelKey {
        ix: p.x.over(voxel_size).floor_i32(),
        iy: p.y.over(voxel_size).floor_i32(),
        iz: p.z.over(voxel_size).floor_i32(),
    }
}

/// The sum, coordinate by coordinate.
#[verifier::allow_in_spec]
pub fn row_plus(a: P3, b: P3) -> P3
    returns
        (P3 { x: a.x.plus(b.x), y: a.y.plus(b.y), z: a.z.plus(b.z) }),
{
    P3 { x: a.x.plus(b.x), y: a.y.plus(b.y), z: a.z.plus(b.z) }
}

/// The quotient, coordinate by coordinate.
#[verifier::allow_in_spec]
pub fn row_over(a: P3, d: F32) -> P3
    returns
        (P3 { x: a.x.over(d), y: a.y.over(d), z: a.z.over(d) }),
{
    P3 { x: a.x.over(d), y: a.y.over(d), z: a.z.over(d) }
}

/// The voxels that hold a point, in the order in which the cloud reaches them.
pub open spec fn voxels(pts: Seq<P3>, voxel_size: F32) -> Seq<VoxelKey>
    decreases pts.len(),
{
    if pts.len() == 0 {
        Seq::empty()
    } else {
        let before = voxels(pts.drop_last(), voxel_size);
        let key = voxel_of(pts.last(), voxel_size);
        if before.contains(key) {
            before
        } else {
            before.push(key)
        }
    }
}

/// The points in a voxel, in the order of the cloud.
pub open spec fn points_in(pts: Seq<P3>, voxel_size: F32, key: VoxelKey) -> Seq<P3> {
    pts.filter(|p: P3| voxel_of(p, voxel_size) == key)
}

/// The sum of points, added up from the first to the last.
pub open spec fn summed(pts: Seq<P3>) -> P3
    decreases pts.len(),
{
    if pts.len() <= 1 {
        pts[0]
    } else {
        row_plus(summed(pts.drop_last()), pts.last())
    }
}

/// The sum of points over their number.
pub open spec fn centroid(pts: Seq<P3>) -> P3 {
    row_over(summed(pts), F32::from_count(pts.len() as u64))
}

/// A number for a voxel, which no other voxel has.
pub open spec fn packed(key: VoxelKey) -> int {
    ((key.ix + 0x8000_0000) * 0x1_0000_0000 + (key.iy + 0x8000_0000)) * 0x1_0000_0000 + (key.iz
        + 0x8000_0000)
}

fn pack(key: VoxelKey) -> (code: u128)
    ensures
        code == packed(key),
{
    let a: u128 = (key.ix as i64 + 0x8000_0000) as u128;
    let b: u128 = (key.iy as i64 + 0x8000_0000) as u128;
    let c: u128 = (key.iz as i64 + 0x8000_0000) as u128;
    (a * 0x1_0000_0000 + b) * 0x1_0000_0000 + c
}

/// What one more point changes in the points of a voxel.
proof fn lemma_points_in_next(pts: Seq<P3>, n: int, voxel_size: F32, key: VoxelKey)
    requires
        0 <= n < pts.len(),
    ensures
        points_in(pts.take(n + 1), voxel_size, key) == if voxel_of(pts[n], voxel_size) == key {
            points_in(pts.take(n), voxel_size, key).push(pts[n])
        } else {
            points_in(pts.take(n), voxel_size, key)
        },
{
    reveal(Seq::filter);
    assert(pts.take(n + 1).drop_last() =~= pts.take(n));
}

/// A voxel that the cloud has not reached holds no point.
proof fn lemma_unreached_is_empty(pts: Seq<P3>, voxel_size: F32, key: VoxelKey)
    requires
        !voxels(pts, voxel_size).contains(key),
    ensures
        points_in(pts, voxel_size, key) == Seq::<P3>::empty(),
    decreases pts.len(),
{
    reveal(Seq::filter);
    if pts.len() > 0 {
        let n = pts.len() - 1;
        let before = voxels(pts.drop_last(), voxel_size);
        let last = voxel_of(pts.last(), voxel_size);
        assert(pts.take(n + 1) =~= pts);
        assert(pts.take(n) =~= pts.drop_last());
        assert(last != key) by {
            if !before.contains(last) {
                assert(before.push(last)[before.len() as int] == last);
            }
        }
        assert(!before.contains(key)) by {
            if before.contains(key) && !before.contains(last) {
                let i = choose|i: int| 0 <= i < before.len() && before[i] == key;
                assert(before.push(last)[i] == key);
            }
        }
        lemma_unreached_is_empty(pts.drop_last(), voxel_size, key);
        lemma_points_in_next(pts, n, voxel_size, key);
    }
}

/// The cloud that downsampling yields: the centroid of each voxel that holds a point.
pub open spec fn downsampled(pts: Seq<P3>, voxel_size: F32) -> Seq<P3> {
    voxels(pts, voxel_size).map_values(
        |key: VoxelKey| centroid(points_in(pts, voxel_size, key)),
    )
}

/// The centroids of the voxels that hold a point, in the order in which the cloud reaches them.
pub fn voxel_downsample(pts: &Vec<P3>, voxel_size: F32) -> (out: Vec<P3>)
    ensures
        out@ == downsampled(pts@, voxel_size),
        out.len() == voxels(pts@, voxel_size).len(),
        forall|i: int|
            0 <= i < out.len() ==> #[trigger] out[i] == row_over(
                summed(pts@.filter(|p: P3| voxel_of(p, voxel_size) == voxels(pts@, voxel_size)[i])),
                F32::from_count(
                    pts@.filter(
                        |p: P3| voxel_of(p, voxel_size) == voxels(pts@, voxel_size)[i],
                    ).len() as u64,
                ),
            ),
{
    let mut slots: HashMap<u128, usize> = HashMap::new();
    let mut sums: Vec<P3> = Vec::new();
    let mut counts: Vec<u64> = Vec::new();
    let ghost mut keys: Seq<VoxelKey> = Seq::empty();
    let mut i: usize = 0;
    while i < pts.len()
        invariant
            i <= pts.len(),
            keys == voxels(pts@.take(i as int), voxel_size),
            keys.len() <= i,
            sums.len() == keys.len(),
            counts.len() == keys.len(),
            forall|j: int|
                0 <= j < keys.len() ==> {
                    let inside = points_in(
                        pts@.take(i as int),
                        voxel_size,
                        #[trigger] keys[j],
                    );
                    &&& 0 < inside.len() <= i
                    &&& sums[j] == summed(inside)
                    &&& counts[j] == inside.len()
                },
            forall|j: int|
                0 <= j < keys.len() ==> slots@.contains_key(packed(#[trigger] keys[j]) as u128)
                    && slots@[packed(keys[j]) as u128] == j,
            forall|code: u128| #[trigger]
                slots@.contains_key(code) ==> slots@[code] < keys.len() && packed(
                    keys[slots@[code] as int],
                ) == code,
        decreases pts.len() - i,
    {
        let p: P3 = pts[i];
        let key: VoxelKey = voxel_of(p, voxel_size);
        let code: u128 = pack(key);
        let ghost old_keys = keys;
        let ghost before = pts@.take(i as int);
        let ghost after = pts@.take(i + 1);
        proof {
            assert(after.drop_last() =~= before);
            assert forall|k: VoxelKey| #[trigger]
                points_in(after, voxel_size, k) == if key == k {
                    points_in(before, voxel_size, k).push(p)
                } else {
                    points_in(before, voxel_size, k)
                } by {
                lemma_points_in_next(pts@, i as int, voxel_size, k);
            }
        }
        match slots.get(&code) {
            Some(slot) => {
                let j: usize = *slot;
                proof {
                    assert(packed(keys[j as int]) == packed(key));
                    assert(keys[j as int] == key);
                    assert(keys.contains(key));
                    let inside = points_in(before, voxel_size, key);
                    assert(inside.push(p).drop_last() =~= inside);
                }
                let sum: P3 = sums[j];
                let count: u64 = counts[j];
                sums.set(j, row_plus(sum, p));
                counts.set(j, count + 1);
            },
            None => {
                proof {
                    assert(!keys.contains(key));
                    lemma_unreached_is_empty(before, voxel_size, key);
                    keys = keys.push(key);
                }
                slots.insert(code, sums.len());
                sums.push(p);
                counts.push(1);
            },
        }
        i = i + 1;
    }
    assert(pts@.take(i as int) =~= pts@);
    let mut out: Vec<P3> = Vec::new();
    let mut j: usize = 0;
    while j < sums.len()
        invariant
            j <= sums.len(),
            out.len() == j,
            sums.len() == keys.len(),
            counts.len() == keys.len(),
            forall|k: int|
                0 <= k < keys.len() ==> {
                    let inside = points_in(pts@, voxel_size, #[trigger] keys[k]);
                    sums[k] == summed(inside) && counts[k] == inside.len()
                },
            forall|k: int|
                0 <= k < j ==> #[trigger] out[k] == centroid(
                    points_in(pts@, voxel_size, keys[k]),
                ),
        decreases sums.len() - j,
    {
        assert(sums[j as int] == summed(points_in(pts@, voxel_size, keys[j as int])));
        out.push(row_over(sums[j], F32::from_count(counts[j])));
        j = j + 1;
    }
    assert(out@ =~= downsampled(pts@, voxel_size));
    out
}

/// No voxel is listed twice, the voxel of every point is listed, and there are at most as many as
/// points: downsampling yields one point for each voxel that holds one.
pub proof fn voxels_are_distinct(pts: Seq<P3>, voxel_size: F32)
    ensures
        voxels(pts, voxel_size).no_duplicates(),
        voxels(pts, voxel_size).len() <= pts.len(),
        forall|i: int|
            0 <= i < pts.len() ==> voxels(pts, voxel_size).contains(
                voxel_of(#[trigger] pts[i], voxel_size),
            ),
    decreases pts.len(),
{
    if pts.len() > 0 {
        let before = voxels(pts.drop_last(), voxel_size);
        let key = voxel_of(pts.last(), voxel_size);
        voxels_are_distinct(pts.drop_last(), voxel_size);
        assert forall|i: int| 0 <= i < pts.len() implies voxels(pts, voxel_size).contains(
            voxel_of(#[trigger] pts[i], voxel_size),
        ) by {
            if i < pts.len() - 1 {
                assert(pts.drop_last()[i] == pts[i]);
                let k = choose|k: int|
                    0 <= k < before.len() && before[k] == voxel_of(pts[i], voxel_size);
                if !before.contains(key) {
                    assert(before.push(key)[k] == voxel_of(pts[i], voxel_size));
                }
            } else if !before.contains(key) {
                assert(before.push(key)[before.len() as int] == key);
            }
        }
    }
}

/// The number of points in the given voxels.
pub open spec fn points_held(pts: Seq<P3>, voxel_size: F32, keys: Seq<VoxelKey>) -> nat
    decreases keys.len(),
{
    if keys.len() == 0 {
        0
    } else {
        points_held(pts, voxel_size, keys.drop_last()) + points_in(
            pts,
            voxel_size,
            keys.last(),
        ).len()
    }
}

/// What one more point adds to the number of points in different voxels.
proof fn lemma_held_next(pts: Seq<P3>, n: int, voxel_size: F32, keys: Seq<VoxelKey>)
    requires
        0 <= n < pts.len(),
        keys.no_duplicates(),
    ensures
        points_held(pts.take(n + 1), voxel_size, keys) == points_held(
            pts.take(n),
            voxel_size,
            keys,
        ) + (if keys.contains(voxel_of(pts[n], voxel_size)) {
            1int
        } else {
            0int
        }),
    decreases keys.len(),
{
    if keys.len() > 0 {
        let key = voxel_of(pts[n], voxel_size);
        let front = keys.drop_last();
        lemma_held_next(pts, n, voxel_size, front);
        lemma_points_in_next(pts, n, voxel_size, keys.last());
        if front.contains(key) {
            let i = choose|i: int| 0 <= i < front.len() && front[i] == key;
            assert(keys[i] == key);
        } else if keys.contains(key) {
            let i = choose|i: int| 0 <= i < keys.len() && keys[i] == key;
            if i < keys.len() - 1 {
                assert(front[i] == key);
            }
        }
    }
}

/// Every point is counted in exactly one voxel: the voxels together hold as many points as the
/// cloud.
pub proof fn every_point_is_counted(pts: Seq<P3>, voxel_size: F32)
    ensures
        points_held(pts, voxel_size, voxels(pts, voxel_size)) == pts.len(),
    decreases pts.len(),
{
    if pts.len() > 0 {
        let n = pts.len() - 1;
        let before = voxels(pts.drop_last(), voxel_size);
        let key = voxel_of(pts.last(), voxel_size);
        every_point_is_counted(pts.drop_last(), voxel_size);
        voxels_are_distinct(pts.drop_last(), voxel_size);
        assert(pts.take(n) =~= pts.drop_last());
        assert(pts.take(n + 1) =~= pts);
        lemma_held_next(pts, n, voxel_size, before);
        if !before.contains(key) {
            let keys = before.push(key);
            assert(keys.drop_last() =~= before);
            lemma_unreached_is_empty(pts.drop_last(), voxel_size, key);
            lemma_points_in_next(pts, n, voxel_size, key);
        }
    }
}

/// A pattern as a number that orders as the values do, infinities included.
spec fn rank(x: F32) -> int {
    if x.signed().neg {
        -(x.signed().mag as int)
    } else {
        x.signed().mag as int
    }
}

/// Finite numbers rank as their values order.
proof fn lemma_rank(x: F32, y: F32)
    requires
        x.finite(),
        y.finite(),
    ensures
        x.value() <= y.value() <==> rank(x) <= rank(y),
{
    let (a, b) = (x.signed().mag as nat, y.signed().mag as nat);
    arith::lemma_units_zero(24);
    if a > 0 {
        arith::lemma_units_ordered(24, 0, a);
    }
    if b > 0 {
        arith::lemma_units_ordered(24, 0, b);
    }
    if a < b {
        arith::lemma_units_ordered(24, a, b);
    } else if b < a {
        arith::lemma_units_ordered(24, b, a);
    }
}

/// A larger number has a larger floor.
proof fn lemma_floor_ordered(x: F32, y: F32)
    requires
        !x.is_nan(),
        !y.is_nan(),
        rank(x) <= rank(y),
    ensures
        x.floor_i32() <= y.floor_i32(),
{
    reveal(F32::spec_floor_i32);
    reveal(F32::spec_is_nan);
    if x.finite() && y.finite() {
        lemma_rank(x, y);
        lemma_pow2_pos(149);
        lemma_div_is_ordered(x.value(), y.value(), pow2(149) as int);
    }
}

/// The quotients of ordered numbers by a positive one are ordered.
proof fn lemma_quotients_ordered(x: F32, y: F32, v: F32)
    requires
        x.finite(),
        y.finite(),
        v.finite(),
        v.value() > 0,
        x.value() <= y.value(),
    ensures
        !x.over(v).is_nan(),
        !y.over(v).is_nan(),
        rank(x.over(v)) <= rank(y.over(v)),
{
    reveal(F32::spec_over);
    reveal(F32::spec_is_nan);
    let fmt = arith::single_format();
    let one = pow2(149);
    let (ux, uy, uv) = (
        fmt.units(x.signed().mag),
        fmt.units(y.signed().mag),
        fmt.units(v.signed().mag),
    );
    arith::lemma_units_zero(24);
    arith::lemma_round_bounded(fmt, ux * one, uv);
    arith::lemma_round_bounded(fmt, uy * one, uv);
    if ux <= uy {
        lemma_mul_inequality(ux as int, uy as int, one as int);
        laws::rounding_is_monotone(fmt, ux * one, uy * one, uv);
    }
    if uy <= ux {
        lemma_mul_inequality(uy as int, ux as int, one as int);
        laws::rounding_is_monotone(fmt, uy * one, ux * one, uv);
    }
    if ux == 0 || uy == 0 {
        laws::exact_values_are_kept(fmt, 0, uv);
        assert(0 * one == 0 && fmt.units(0) * uv == 0) by (nonlinear_arith)
            requires
                fmt.units(0) == 0,
        ;
    }
}

/// A coordinate between those of two points of a voxel lies in the voxel.
proof fn lemma_between(x: F32, c: F32, y: F32, v: F32)
    requires
        x.finite(),
        c.finite(),
        y.finite(),
        v.finite(),
        v.value() > 0,
        x.value() <= c.value() <= y.value(),
        x.over(v).floor_i32() == y.over(v).floor_i32(),
    ensures
        c.over(v).floor_i32() == x.over(v).floor_i32(),
{
    lemma_quotients_ordered(x, c, v);
    lemma_quotients_ordered(c, y, v);
    lemma_floor_ordered(x.over(v), c.over(v));
    lemma_floor_ordered(c.over(v), y.over(v));
}

/// The exact sum of numbers, in units.
pub open spec fn exact_sum(xs: Seq<F32>) -> int
    decreases xs.len(),
{
    if xs.len() == 0 {
        0
    } else {
        exact_sum(xs.drop_last()) + xs.last().value()
    }
}

/// `mean` is the exact mean of finite numbers.
pub open spec fn is_exact_mean(mean: F32, xs: Seq<F32>) -> bool {
    &&& mean.finite()
    &&& forall|i: int| 0 <= i < xs.len() ==> (#[trigger] xs[i]).finite()
    &&& mean.value() * xs.len() == exact_sum(xs)
}

/// The centroid of the points is their exact mean.
pub open spec fn has_exact_centroid(pts: Seq<P3>) -> bool {
    &&& is_exact_mean(centroid(pts).x, pts.map_values(|p: P3| p.x))
    &&& is_exact_mean(centroid(pts).y, pts.map_values(|p: P3| p.y))
    &&& is_exact_mean(centroid(pts).z, pts.map_values(|p: P3| p.z))
}

/// Bounds of all numbers bound their sum.
proof fn lemma_sum_bounds(xs: Seq<F32>, b: int)
    ensures
        (forall|i: int| 0 <= i < xs.len() ==> (#[trigger] xs[i]).value() >= b) ==> exact_sum(xs)
            >= b * xs.len(),
        (forall|i: int| 0 <= i < xs.len() ==> (#[trigger] xs[i]).value() <= b) ==> exact_sum(xs)
            <= b * xs.len(),
    decreases xs.len(),
{
    if xs.len() > 0 {
        let front = xs.drop_last();
        lemma_sum_bounds(front, b);
        assert(b * xs.len() == b * front.len() + b) by (nonlinear_arith)
            requires
                xs.len() == front.len() + 1,
        ;
        if forall|i: int| 0 <= i < xs.len() ==> (#[trigger] xs[i]).value() >= b {
            assert forall|i: int| 0 <= i < front.len() implies (#[trigger] front[i]).value() >= b by {
                assert(front[i] == xs[i]);
            }
            assert(xs[xs.len() - 1].value() >= b);
        }
        if forall|i: int| 0 <= i < xs.len() ==> (#[trigger] xs[i]).value() <= b {
            assert forall|i: int| 0 <= i < front.len() implies (#[trigger] front[i]).value() <= b by {
                assert(front[i] == xs[i]);
            }
            assert(xs[xs.len() - 1].value() <= b);
        }
    } else {
        assert(b * 0 == 0);
    }
}

/// An exact mean of numbers with one floor over `v` has that floor too.
proof fn lemma_mean_stays(mean: F32, xs: Seq<F32>, v: F32, k: i32)
    requires
        xs.len() > 0,
        is_exact_mean(mean, xs),
        v.finite(),
        v.value() > 0,
        forall|i: int| 0 <= i < xs.len() ==> (#[trigger] xs[i]).over(v).floor_i32() == k,
    ensures
        mean.over(v).floor_i32() == k,
{
    let m = mean.value();
    let n = xs.len() as int;
    lemma_sum_bounds(xs, m + 1);
    lemma_sum_bounds(xs, m - 1);
    assert((m + 1) * n > m * n && (m - 1) * n < m * n) by (nonlinear_arith)
        requires
            n > 0,
    ;
    let i = choose|i: int| 0 <= i < xs.len() && (#[trigger] xs[i]).value() <= m;
    let j = choose|j: int| 0 <= j < xs.len() && (#[trigger] xs[j]).value() >= m;
    assert(exists|i: int| 0 <= i < xs.len() && (#[trigger] xs[i]).value() <= m);
    assert(exists|j: int| 0 <= j < xs.len() && (#[trigger] xs[j]).value() >= m);
    lemma_between(xs[i], mean, xs[j], v);
}

/// A point of a voxel lies in the voxel.
proof fn lemma_inside(pts: Seq<P3>, voxel_size: F32, key: VoxelKey, i: int)
    requires
        0 <= i < points_in(pts, voxel_size, key).len(),
    ensures
        voxel_of(points_in(pts, voxel_size, key)[i], voxel_size) == key,
{
    pts.lemma_filter_pred(|p: P3| voxel_of(p, voxel_size) == key, i);
}

/// A voxel that the cloud reaches holds a point.
proof fn lemma_reached(pts: Seq<P3>, voxel_size: F32, key: VoxelKey) -> (i: int)
    requires
        voxels(pts, voxel_size).contains(key),
    ensures
        0 <= i < pts.len(),
        voxel_of(pts[i], voxel_size) == key,
    decreases pts.len(),
{
    let before = voxels(pts.drop_last(), voxel_size);
    if pts.len() > 0 && before.contains(key) {
        lemma_reached(pts.drop_last(), voxel_size, key)
    } else {
        let keys = voxels(pts, voxel_size);
        let j = choose|j: int| 0 <= j < keys.len() && keys[j] == key;
        if j < before.len() {
            assert(before[j] == key);
        }
        pts.len() - 1
    }
}

/// An exact centroid lies in its own voxel.
pub proof fn centroids_stay_in_their_voxels(pts: Seq<P3>, voxel_size: F32, key: VoxelKey)
    requires
        voxel_size.finite(),
        voxel_size.value() > 0,
        voxels(pts, voxel_size).contains(key),
        has_exact_centroid(points_in(pts, voxel_size, key)),
    ensures
        voxel_of(centroid(points_in(pts, voxel_size, key)), voxel_size) == key,
{
    let inside = points_in(pts, voxel_size, key);
    let c = centroid(inside);
    let k = lemma_reached(pts, voxel_size, key);
    pts.lemma_filter_contains(|p: P3| voxel_of(p, voxel_size) == key, k);
    assert(inside.len() > 0);
    assert forall|i: int| 0 <= i < inside.len() implies voxel_of(
        #[trigger] inside[i],
        voxel_size,
    ) == key by {
        lemma_inside(pts, voxel_size, key, i);
    }
    let (xs, ys, zs) = (
        inside.map_values(|p: P3| p.x),
        inside.map_values(|p: P3| p.y),
        inside.map_values(|p: P3| p.z),
    );
    assert forall|i: int| 0 <= i < inside.len() implies (#[trigger] xs[i]).over(
        voxel_size,
    ).floor_i32() == key.ix by {
        assert(voxel_of(inside[i], voxel_size) == key);
    }
    assert forall|i: int| 0 <= i < inside.len() implies (#[trigger] ys[i]).over(
        voxel_size,
    ).floor_i32() == key.iy by {
        assert(voxel_of(inside[i], voxel_size) == key);
    }
    assert forall|i: int| 0 <= i < inside.len() implies (#[trigger] zs[i]).over(
        voxel_size,
    ).floor_i32() == key.iz by {
        assert(voxel_of(inside[i], voxel_size) == key);
    }
    lemma_mean_stays(c.x, xs, voxel_size, key.ix);
    lemma_mean_stays(c.y, ys, voxel_size, key.iy);
    lemma_mean_stays(c.z, zs, voxel_size, key.iz);
}

/// A number over a count of one is that number.
proof fn lemma_over_one(x: F32)
    requires
        x.finite(),
    ensures
        x.over(F32::from_count(1)) == x,
{
    reveal(F32::spec_from_count);
    reveal(F32::spec_over);
    let fmt = arith::single_format();
    let one = pow2(149);
    laws::units_of_one();
    laws::exact_values_are_kept(fmt, ONE_SINGLE as u64, 1);
    assert(1 * one == one && fmt.units(ONE_SINGLE as u64) * 1 == one);
    assert(F32::from_count(1) == (F32 { bits: ONE_SINGLE }));
    lemma_pow2_pos(149);
    laws::exact_values_are_kept(fmt, x.signed().mag, one);
}

/// Points of different voxels: the voxels they reach, and the points in each.
proof fn lemma_one_each(rows: Seq<P3>, voxel_size: F32, keys: Seq<VoxelKey>, n: int)
    requires
        rows.len() == keys.len(),
        keys.no_duplicates(),
        forall|i: int|
            0 <= i < rows.len() ==> voxel_of(#[trigger] rows[i], voxel_size) == keys[i],
        0 <= n <= rows.len(),
    ensures
        voxels(rows.take(n), voxel_size) == keys.take(n),
        forall|i: int|
            0 <= i < n ==> points_in(rows.take(n), voxel_size, #[trigger] keys[i]) == seq![rows[i]],
        forall|i: int|
            n <= i < keys.len() ==> points_in(rows.take(n), voxel_size, #[trigger] keys[i])
                == Seq::<P3>::empty(),
    decreases n,
{
    if n == 0 {
        reveal(Seq::filter);
        assert(rows.take(0) =~= Seq::<P3>::empty());
        assert(keys.take(0) =~= Seq::<VoxelKey>::empty());
    } else {
        let m = n - 1;
        lemma_one_each(rows, voxel_size, keys, m);
        assert(rows.take(n).drop_last() =~= rows.take(m));
        let before = keys.take(m);
        assert(voxel_of(rows[m], voxel_size) == keys[m]);
        assert(!before.contains(keys[m])) by {
            if before.contains(keys[m]) {
                let i = choose|i: int| 0 <= i < before.len() && before[i] == keys[m];
                assert(keys[i] == keys[m]);
            }
        }
        assert(before.push(keys[m]) =~= keys.take(n));
        assert forall|i: int| 0 <= i < keys.len() implies points_in(
            rows.take(n),
            voxel_size,
            #[trigger] keys[i],
        ) == if i < n {
            seq![rows[i]]
        } else {
            Seq::<P3>::empty()
        } by {
            lemma_points_in_next(rows, m, voxel_size, keys[i]);
            if i == m {
                assert(Seq::<P3>::empty().push(rows[m]) =~= seq![rows[m]]);
            } else {
                assert(keys[i] != keys[m]);
            }
        }
    }
}

/// Where the centroids are exact means, downsampling a downsampled cloud changes nothing.
pub proof fn downsampling_again_changes_nothing(pts: Seq<P3>, voxel_size: F32)
    requires
        voxel_size.finite(),
        voxel_size.value() > 0,
        forall|key: VoxelKey| #[trigger]
            voxels(pts, voxel_size).contains(key) ==> has_exact_centroid(
                points_in(pts, voxel_size, key),
            ),
    ensures
        downsampled(downsampled(pts, voxel_size), voxel_size) == downsampled(pts, voxel_size),
{
    let keys = voxels(pts, voxel_size);
    let rows = downsampled(pts, voxel_size);
    voxels_are_distinct(pts, voxel_size);
    assert forall|i: int| 0 <= i < rows.len() implies voxel_of(#[trigger] rows[i], voxel_size)
        == keys[i] by {
        assert(keys.contains(keys[i]));
        centroids_stay_in_their_voxels(pts, voxel_size, keys[i]);
    }
    lemma_one_each(rows, voxel_size, keys, rows.len() as int);
    assert(rows.take(rows.len() as int) =~= rows);
    assert(keys.take(keys.len() as int) =~= keys);
    let again = downsampled(rows, voxel_size);
    assert forall|i: int| 0 <= i < rows.len() implies again[i] == rows[i] by {
        assert(keys.contains(keys[i]));
        assert(points_in(rows, voxel_size, keys[i]) == seq![rows[i]]);
        assert(summed(seq![rows[i]]) == rows[i]);
        lemma_over_one(rows[i].x);
        lemma_over_one(rows[i].y);
        lemma_over_one(rows[i].z);
    }
    assert(again =~= rows);
}

/// The bit pattern of 2 in 32 bits.
pub const TWO: u32 = 0x4000_0000;

/// The coordinate is zero, or over the edge of a voxel neither smaller than `2^-100` nor as large
/// as `2^31`.
pub open spec fn is_on_the_grid(c: F32, voxel_size: F32) -> bool {
    c.finite() && (c.signed().mag == 0 || 0x0d80_0000 <= c.over(voxel_size).signed().mag
        < 0x4f00_0000)
}

/// Every coordinate of the point is on the grid.
pub open spec fn point_is_on_the_grid(p: P3, voxel_size: F32) -> bool {
    is_on_the_grid(p.x, voxel_size) && is_on_the_grid(p.y, voxel_size) && is_on_the_grid(
        p.z,
        voxel_size,
    )
}

/// Doubling a positive number below `2^127` doubles its units.
proof fn lemma_doubled(v: F32)
    requires
        v.finite(),
        v.value() > 0,
        v.signed().mag < 0x7f00_0000,
    ensures
        v.times(F32 { bits: TWO }).finite(),
        v.times(F32 { bits: TWO }).value() == 2 * v.value(),
        !v.times(F32 { bits: TWO }).signed().neg,
{
    reveal(F32::spec_times);
    let fmt = arith::single_format();
    let one = pow2(149);
    let h = 0x80_0000nat;
    assert(pow2(23) == h) by {
        lemma2_to64();
    }
    arith::lemma_units_zero(24);
    let mag = v.signed().mag;
    let u = fmt.units(mag);
    let d: u64 = if mag >= h {
        (mag + h) as u64
    } else {
        (2 * mag) as u64
    };
    lemma_fundamental_div_mod(mag as int, h as int);
    let (e, f) = ((mag as nat) / h, (mag as nat) % h);
    assert(fmt.units(d) == 2 * u) by {
        if mag >= h {
            lemma_fundamental_div_mod_converse(d as int, h as int, (e + 1) as int, f as int);
            lemma_pow2_unfold(e);
            assert((h + f) * pow2(e) == 2 * ((h + f) * pow2((e - 1) as nat))) by (nonlinear_arith)
                requires
                    pow2(e) == 2 * pow2((e - 1) as nat),
            ;
        } else {
            assert(e == 0 && f == mag);
            if d < h {
                lemma_fundamental_div_mod_converse(d as int, h as int, 0, d as int);
            } else {
                lemma_fundamental_div_mod_converse(d as int, h as int, 1, d - h);
                assert((h + (d - h)) as nat * pow2(0) == d) by {
                    lemma2_to64();
                }
            }
        }
    }
    let two = fmt.units(TWO as u64);
    assert(two == 2 * one) by {
        lemma_fundamental_div_mod_converse(TWO as int, h as int, 128, 0);
        lemma_pow2_adds(23, 127);
        lemma_pow2_unfold(150);
    }
    lemma_pow2_pos(149);
    laws::exact_values_are_kept(fmt, d, one);
    assert(u * two == fmt.units(d) * one) by (nonlinear_arith)
        requires
            two == 2 * one,
            fmt.units(d) == 2 * u,
    ;
}

/// The quotient by twice a number, in the middle of the format, is half the quotient.
proof fn lemma_half_rounded(n: nat, d: nat)
    requires
        d > 0,
        0x100_0000 < rounding::round_mag(24, 0x7f80_0000, n, d) < 0x7f80_0000,
    ensures
        rounding::round_mag(24, 0x7f80_0000, n, 2 * d) == rounding::round_mag(
            24,
            0x7f80_0000,
            n,
            d,
        ) - 0x80_0000,
{
    let k = rounding::quantum(24, n, d);
    laws::lemma_quotient_bounds(24, n, d);
    assert(pow2(23) == 0x80_0000 && pow2(24) == 0x100_0000) by {
        lemma2_to64();
    }
    let q = rounding::nearest(n, d * pow2(k));
    assert((24 - 1) as nat == 23nat);
    assert(rounding::round_mag(24, 0x7f80_0000, n, d) == k * 0x80_0000 + q);
    assert(k >= 1);
    let j = (k - 1) as nat;
    assert(rounding::quantum(24, n, 2 * d) == j);
    lemma_pow2_unfold(k);
    assert((2 * d) * pow2(j) == d * pow2(k)) by (nonlinear_arith)
        requires
            pow2(k) == 2 * pow2(j),
    ;
    assert(j * 0x80_0000 + q == k * 0x80_0000 + q - 0x80_0000);
}

/// A coordinate's floor over the doubled edge is half its floor over the edge, rounded down.
proof fn lemma_half_floor(c: F32, v: F32)
    requires
        is_on_the_grid(c, v),
        v.finite(),
        v.value() > 0,
        v.signed().mag < 0x7f00_0000,
    ensures
        c.over(v.times(F32 { bits: TWO })).floor_i32() == c.over(v).floor_i32() as int / 2,
{
    let w = v.times(F32 { bits: TWO });
    lemma_doubled(v);
    let fmt = arith::single_format();
    let one = pow2(149);
    let (q, r) = (c.over(v), c.over(w));
    let n = fmt.units(c.signed().mag) * one;
    let d = fmt.units(v.signed().mag);
    arith::lemma_units_zero(24);
    assert(w.signed().mag != 0 && v.signed().mag != 0);
    assert(fmt.units(w.signed().mag) == 2 * d);
    assert(q.signed() == (arith::Signed { neg: c.signed().neg, mag: fmt.round(n, d) })
        && r.signed() == (arith::Signed { neg: c.signed().neg, mag: fmt.round(n, 2 * d) })) by {
        reveal(F32::spec_over);
        arith::lemma_round_bounded(fmt, n, d);
        arith::lemma_round_bounded(fmt, n, 2 * d);
    }
    lemma_pow2_pos(149);
    assert(2 * r.value() == q.value() && r.finite() && q.finite() && q.signed().mag < 0x4f00_0000)
        by {
        if c.signed().mag == 0 {
            laws::exact_values_are_kept(fmt, 0, d);
            laws::exact_values_are_kept(fmt, 0, 2 * d);
            assert(n == 0 && fmt.units(0) * d == 0 && fmt.units(0) * (2 * d) == 0)
                by (nonlinear_arith)
                requires
                    fmt.units(0) == 0,
                    n == fmt.units(0) * one,
            ;
        } else {
            arith::lemma_round_bounded(fmt, n, d);
            arith::lemma_round_bounded(fmt, n, 2 * d);
            lemma_half_rounded(n, d);
            lemma_half_units(q.signed().mag);
        }
    }
    lemma_small_floor(q);
    lemma_rank_half(q, r);
    lemma_small_floor(r);
    let (x, y) = (r.value(), q.value());
    let b = x / (one as int);
    let rest = x % (one as int);
    lemma_fundamental_div_mod(x, one as int);
    if 2 * rest < one {
        assert(y == (2 * b) * one + 2 * rest) by (nonlinear_arith)
            requires
                y == 2 * x,
                x == one * b + rest,
        ;
        lemma_fundamental_div_mod_converse(y, one as int, 2 * b, 2 * rest);
    } else {
        assert(y == (2 * b + 1) * one + (2 * rest - one)) by (nonlinear_arith)
            requires
                y == 2 * x,
                x == one * b + rest,
        ;
        lemma_fundamental_div_mod_converse(y, one as int, 2 * b + 1, 2 * rest - one);
    }
}

/// Half of a number below `2^31` is below `2^31`.
proof fn lemma_rank_half(q: F32, r: F32)
    requires
        q.finite(),
        r.finite(),
        2 * r.value() == q.value(),
        q.signed().mag < 0x4f00_0000,
    ensures
        r.signed().mag < 0x4f00_0000,
{
    if r.signed().mag >= 0x4f00_0000 {
        arith::lemma_units_ordered(24, q.signed().mag as nat, r.signed().mag as nat);
    }
}

/// A pattern one exponent lower stands for half the units.
proof fn lemma_half_units(mag: u64)
    requires
        0x100_0000 < mag < 0x7f80_0000,
    ensures
        2 * arith::single_format().units((mag - 0x80_0000) as u64) == arith::single_format().units(
            mag,
        ),
{
    let h = 0x80_0000nat;
    assert(pow2(23) == h) by {
        lemma2_to64();
    }
    lemma_fundamental_div_mod(mag as int, h as int);
    let (e, f) = ((mag as nat) / h, (mag as nat) % h);
    assert(e >= 2) by (nonlinear_arith)
        requires
            mag == h * e + f,
            f < h,
            h == 0x80_0000,
            mag > 0x100_0000,
    ;
    lemma_fundamental_div_mod_converse(mag - h, h as int, e - 1, f as int);
    lemma_pow2_unfold((e - 1) as nat);
    let s = pow2((e - 2) as nat);
    assert((h + f) * (2 * s) == 2 * ((h + f) * s)) by (nonlinear_arith);
}

/// The floor of a number below `2^31` is within range.
proof fn lemma_small_floor(x: F32)
    requires
        x.finite(),
        x.signed().mag < 0x4f00_0000,
    ensures
        x.floor_i32() == x.value() / (pow2(149) as int),
{
    reveal(F32::spec_floor_i32);
    let fmt = arith::single_format();
    let one = pow2(149) as int;
    let u = fmt.units(0x4f00_0000);
    assert(u == 0x8000_0000 * one) by {
        assert(pow2(23) == 0x80_0000 && pow2(31) == 0x8000_0000) by {
            lemma2_to64();
        }
        lemma_fundamental_div_mod_converse(0x4f00_0000, 0x80_0000, 158, 0);
        lemma_pow2_adds(23, 157);
        lemma_pow2_adds(31, 149);
    }
    arith::lemma_units_ordered(24, x.signed().mag as nat, 0x4f00_0000);
    lemma_pow2_pos(149);
    let v = x.value();
    lemma_fundamental_div_mod(v, one);
    let q = v / one;
    assert(-0x8000_0000 <= q < 0x8000_0000) by (nonlinear_arith)
        requires
            v == one * q + v % one,
            0 <= v % one < one,
            -(0x8000_0000 * one) < v < 0x8000_0000 * one,
    ;
}

/// Doubling the edge merges voxels and never splits one, where the coordinates are on the grid.
pub proof fn doubling_merges_voxels(pts: Seq<P3>, voxel_size: F32)
    requires
        voxel_size.finite(),
        voxel_size.value() > 0,
        voxel_size.signed().mag < 0x7f00_0000,
        forall|i: int| 0 <= i < pts.len() ==> point_is_on_the_grid(#[trigger] pts[i], voxel_size),
    ensures
        voxels(pts, voxel_size.times(F32 { bits: TWO })).len() <= voxels(pts, voxel_size).len(),
        voxels(pts, voxel_size).len() <= pts.len(),
    decreases pts.len(),
{
    if pts.len() > 0 {
        let front = pts.drop_last();
        let twice = voxel_size.times(F32 { bits: TWO });
        assert forall|i: int| 0 <= i < front.len() implies point_is_on_the_grid(
            #[trigger] front[i],
            voxel_size,
        ) by {
            assert(front[i] == pts[i]);
        }
        doubling_merges_voxels(front, voxel_size);
        let p = pts.last();
        let key = voxel_of(p, voxel_size);
        if voxels(front, voxel_size).contains(key) {
            let i = lemma_reached(front, voxel_size, key);
            let o = front[i];
            lemma_half_voxel(o, voxel_size);
            assert(point_is_on_the_grid(pts[pts.len() - 1], voxel_size));
            lemma_half_voxel(p, voxel_size);
            assert(voxel_of(o, twice) == voxel_of(p, twice));
            voxels_are_distinct(front, twice);
        }
    }
}

/// The voxel of a point on the doubled grid.
proof fn lemma_half_voxel(p: P3, voxel_size: F32)
    requires
        point_is_on_the_grid(p, voxel_size),
        voxel_size.finite(),
        voxel_size.value() > 0,
        voxel_size.signed().mag < 0x7f00_0000,
    ensures
        ({
            let (a, b) = (
                voxel_of(p, voxel_size),
                voxel_of(p, voxel_size.times(F32 { bits: TWO })),
            );
            b.ix == a.ix as int / 2 && b.iy == a.iy as int / 2 && b.iz == a.iz as int / 2
        }),
{
    lemma_half_floor(p.x, voxel_size);
    lemma_half_floor(p.y, voxel_size);
    lemma_half_floor(p.z, voxel_size);
}

/// The sum of one point is that point, and one more point is added to the sum of those before it,
/// whichever point it is and however many there are.
pub proof fn every_point_is_added(pts: Seq<P3>, p: P3)
    ensures
        summed(seq![p]) == p,
        pts.len() > 0 ==> ({
            let (sum, more) = (summed(pts), summed(pts.push(p)));
            &&& more.x == sum.x.plus(p.x)
            &&& more.y == sum.y.plus(p.y)
            &&& more.z == sum.z.plus(p.z)
        }),
{
    assert(pts.push(p).drop_last() =~= pts);
}

/// The sum of points, coordinate by coordinate, is the running sum of the coordinates.
proof fn lemma_summed(pts: Seq<P3>)
    requires
        pts.len() > 0,
    ensures
        ({
            let rest = pts.drop_first();
            &&& summed(pts).x == sums::running32(pts[0].x, rest.map_values(|p: P3| p.x))
            &&& summed(pts).y == sums::running32(pts[0].y, rest.map_values(|p: P3| p.y))
            &&& summed(pts).z == sums::running32(pts[0].z, rest.map_values(|p: P3| p.z))
        }),
    decreases pts.len(),
{
    let rest = pts.drop_first();
    if pts.len() > 1 {
        let front = pts.drop_last();
        lemma_summed(front);
        let less = front.drop_first();
        assert(rest.map_values(|p: P3| p.x).drop_last() =~= less.map_values(|p: P3| p.x));
        assert(rest.map_values(|p: P3| p.y).drop_last() =~= less.map_values(|p: P3| p.y));
        assert(rest.map_values(|p: P3| p.z).drop_last() =~= less.map_values(|p: P3| p.z));
    }
}

/// The sums of a first number and the rest are those of all.
proof fn lemma_all(xs: Seq<F32>)
    requires
        xs.len() > 0,
    ensures
        real32(xs[0]) + sums::total32(xs.drop_first()) == sums::total32(xs),
        size(real32(xs[0])) + sums::size32(xs.drop_first()) == sums::size32(xs),
    decreases xs.len(),
{
    if xs.len() > 1 {
        lemma_all(xs.drop_last());
        assert(xs.drop_last().drop_first() =~= xs.drop_first().drop_last());
        assert(xs.drop_first().last() == xs.last());
    } else {
        reveal_with_fuel(Seq::fold_left, 2);
        assert(xs.drop_first() =~= Seq::<F32>::empty());
        assert(xs.drop_last() =~= Seq::<F32>::empty());
    }
}

/// A count below `2^24` as a number.
proof fn lemma_count(n: u64)
    requires
        0 < n < 0x100_0000,
    ensures
        F32::from_count(n).finite(),
        real32(F32::from_count(n)) == n as int as real,
{
    reveal(F32::spec_from_count);
    let fmt = arith::single_format();
    lemma2_to64();
    lemma_pow2_pos(149);
    let f = F32::from_count(n);
    assert(n < pow2(24));
    lemma2_to64_rest();
    laws::lemma_multiple_finite(24, fmt.inf as nat, n as nat, 149);
    laws::lemma_multiple_kept(24, fmt.inf as nat, n as nat, 149);
    let one = pow2(149) as int;
    assert(f.value() == n * one);
    let (nr, or) = (n as int as real, one as real);
    assert((n * one) as real == nr * or) by (nonlinear_arith)
        requires
            nr == n as int as real,
            or == one as real,
    ;
    assert((nr * or) / or == nr) by (nonlinear_arith)
        requires
            or > 0 as real,
    ;
}

/// A coordinate of a centroid times the number of points is near the sum of the coordinates.
proof fn lemma_mean(sum: F32, xs: Seq<F32>)
    requires
        0 < xs.len() <= 8_000_000,
        sum == sums::running32(xs[0], xs.drop_first()),
        sum.over(F32::from_count(xs.len() as u64)).finite(),
    ensures
        ({
            let c = real32(sum.over(F32::from_count(xs.len() as u64)));
            let n = xs.len() as int as real;
            distance(c * n, sums::total32(xs)) <= 4 as real * (n * eps32()) * sums::size32(xs) + n
                * smallest32()
        }),
{
    let rest = xs.drop_first();
    let count = xs.len() as int;
    let (n, e, u) = (count as real, eps32(), smallest32());
    accuracy::lemma_eps32();
    accuracy::lemma_smallest32();
    lemma_count(xs.len() as u64);
    let d = F32::from_count(xs.len() as u64);
    accuracy::over_errs32(sum, d);
    let m = rest.len() as int as real;
    assert(m + 1 as real == n);
    assert(2 as real * (m * e) <= 1 as real) by (nonlinear_arith)
        requires
            e * 100_000_000int as real == 6 as real,
            m <= 8_000_000int as real,
    ;
    sums::running_sums_are_near32(xs[0], rest);
    lemma_all(xs);
    sums::lemma_sizes32(xs);
    let (t, a) = (sums::total32(xs), sums::size32(xs));
    let s = real32(sum);
    let c = real32(sum.over(d));
    let q = s / n;
    assert(q * n == s) by (nonlinear_arith)
        requires
            q == s / n,
            n > 0 as real,
    ;
    let em = m * e;
    assert(distance(c * n, q * n) <= (e * size(q) + u) * n) by {
        accuracy::lemma_product_bound(c - q, n, e * size(q) + u, n);
        algebra::lemma_difference(c, q, n);
    }
    accuracy::lemma_product_bound(q, n, size(q), n);
    assert((e * size(q) + u) * n == e * size(s) + n * u) by {
        algebra::lemma_distribute(e * size(q), u, n);
        algebra::lemma_associate(e, size(q), n);
        algebra::lemma_commute(u, n);
    }
    let near = 2 as real * em * a;
    assert(0 as real <= em && near <= a) by (nonlinear_arith)
        requires
            0 as real <= m,
            0 as real <= e,
            em == m * e,
            2 as real * em <= 1 as real,
            near == 2 as real * em * a,
            0 as real <= a,
    ;
    assert(size(s) <= a + near);
    assert(e * size(s) <= e * (2 as real * a)) by (nonlinear_arith)
        requires
            0 as real <= e,
            size(s) <= 2 as real * a,
    ;
    assert(n * e == em + e) by (nonlinear_arith)
        requires
            n == m + 1 as real,
            em == m * e,
    ;
    assert(4 as real * (em + e) * a >= near + e * (2 as real * a)) by (nonlinear_arith)
        requires
            near == 2 as real * em * a,
            0 as real <= em,
            0 as real <= e,
            0 as real <= a,
    ;
}

/// A centroid is the mean of all the points of its voxel, up to rounding: each of its coordinates,
/// times the number of points, differs from the exact sum of that coordinate over every point by at
/// most four roundings of their sizes for each, and by the smallest number for each. Nothing
/// overflows, and there are at most eight million points.
pub proof fn centroids_are_means(pts: Seq<P3>)
    requires
        0 < pts.len() <= 8_000_000,
        centroid(pts).x.finite() && centroid(pts).y.finite() && centroid(pts).z.finite(),
    ensures
        ({
            let n = pts.len() as int as real;
            let (c, roundings) = (centroid(pts), 4 as real * (n * eps32()));
            let (zero, least) = (0 as real, n * smallest32());
            &&& distance(
                real32(c.x) * n,
                pts.fold_left(zero, |t: real, p: P3| t + real32(p.x)),
            ) <= roundings * pts.fold_left(zero, |t: real, p: P3| t + size(real32(p.x))) + least
            &&& distance(
                real32(c.y) * n,
                pts.fold_left(zero, |t: real, p: P3| t + real32(p.y)),
            ) <= roundings * pts.fold_left(zero, |t: real, p: P3| t + size(real32(p.y))) + least
            &&& distance(
                real32(c.z) * n,
                pts.fold_left(zero, |t: real, p: P3| t + real32(p.z)),
            ) <= roundings * pts.fold_left(zero, |t: real, p: P3| t + size(real32(p.z))) + least
        }),
{
    lemma_summed(pts);
    let xs = pts.map_values(|p: P3| p.x);
    let ys = pts.map_values(|p: P3| p.y);
    let zs = pts.map_values(|p: P3| p.z);
    assert(xs.drop_first() =~= pts.drop_first().map_values(|p: P3| p.x));
    assert(ys.drop_first() =~= pts.drop_first().map_values(|p: P3| p.y));
    assert(zs.drop_first() =~= pts.drop_first().map_values(|p: P3| p.z));
    lemma_mean(summed(pts).x, xs);
    lemma_mean(summed(pts).y, ys);
    lemma_mean(summed(pts).z, zs);
    lemma_folds(pts);
}

/// The sums over the points are those over their coordinates.
proof fn lemma_folds(pts: Seq<P3>)
    ensures
        ({
            let zero = 0 as real;
            let xs = pts.map_values(|p: P3| p.x);
            let ys = pts.map_values(|p: P3| p.y);
            let zs = pts.map_values(|p: P3| p.z);
            &&& pts.fold_left(zero, |t: real, p: P3| t + real32(p.x)) == sums::total32(xs)
            &&& pts.fold_left(zero, |t: real, p: P3| t + real32(p.y)) == sums::total32(ys)
            &&& pts.fold_left(zero, |t: real, p: P3| t + real32(p.z)) == sums::total32(zs)
            &&& pts.fold_left(zero, |t: real, p: P3| t + size(real32(p.x))) == sums::size32(xs)
            &&& pts.fold_left(zero, |t: real, p: P3| t + size(real32(p.y))) == sums::size32(ys)
            &&& pts.fold_left(zero, |t: real, p: P3| t + size(real32(p.z))) == sums::size32(zs)
        }),
    decreases pts.len(),
{
    if pts.len() > 0 {
        let front = pts.drop_last();
        lemma_folds(front);
        assert(pts.map_values(|p: P3| p.x).drop_last() =~= front.map_values(|p: P3| p.x));
        assert(pts.map_values(|p: P3| p.y).drop_last() =~= front.map_values(|p: P3| p.y));
        assert(pts.map_values(|p: P3| p.z).drop_last() =~= front.map_values(|p: P3| p.z));
    }
}

/// The voxels are listed in the order in which the cloud reaches them: those of a first part of the
/// cloud come first, and the next point adds its own voxel right after them where it is new. Each
/// voxel listed is that of a point.
pub proof fn voxels_come_in_order(pts: Seq<P3>, voxel_size: F32, n: int)
    requires
        0 <= n <= pts.len(),
    ensures
        ({
            let (first, all) = (voxels(pts.take(n), voxel_size), voxels(pts, voxel_size));
            &&& first.len() <= all.len()
            &&& all.take(first.len() as int) == first
            &&& n < pts.len() && !first.contains(voxel_of(pts[n], voxel_size)) ==> first.len()
                < all.len() && all[first.len() as int] == voxel_of(pts[n], voxel_size)
            &&& forall|i: int|
                0 <= i < all.len() ==> exists|k: int|
                    0 <= k < pts.len() && voxel_of(#[trigger] pts[k], voxel_size)
                        == #[trigger] all[i]
        }),
    decreases pts.len() - n,
{
    let (first, all) = (voxels(pts.take(n), voxel_size), voxels(pts, voxel_size));
    lemma_voxels_hold_points(pts, voxel_size);
    if n < pts.len() {
        voxels_come_in_order(pts, voxel_size, n + 1);
        let next = voxels(pts.take(n + 1), voxel_size);
        assert(pts.take(n + 1).drop_last() =~= pts.take(n));
        assert(pts.take(n + 1).last() == pts[n]);
        assert(all.take(first.len() as int) =~= first) by {
            assert forall|i: int| 0 <= i < first.len() implies all[i] == first[i] by {
                assert(all.take(next.len() as int)[i] == next[i]);
            }
        }
        if !first.contains(voxel_of(pts[n], voxel_size)) {
            assert(all.take(next.len() as int)[first.len() as int] == next[first.len() as int]);
        }
    } else {
        assert(pts.take(n) =~= pts);
        assert(all.take(first.len() as int) =~= first);
    }
}

/// Each voxel listed is that of a point.
proof fn lemma_voxels_hold_points(pts: Seq<P3>, voxel_size: F32)
    ensures
        forall|i: int|
            0 <= i < voxels(pts, voxel_size).len() ==> exists|k: int|
                0 <= k < pts.len() && voxel_of(#[trigger] pts[k], voxel_size) == #[trigger] voxels(
                    pts,
                    voxel_size,
                )[i],
    decreases pts.len(),
{
    if pts.len() > 0 {
        let front = pts.drop_last();
        let before = voxels(front, voxel_size);
        let all = voxels(pts, voxel_size);
        lemma_voxels_hold_points(front, voxel_size);
        assert forall|i: int| 0 <= i < all.len() implies exists|k: int|
            0 <= k < pts.len() && voxel_of(#[trigger] pts[k], voxel_size) == #[trigger] all[i] by {
            if i < before.len() {
                assert(all[i] == before[i]);
                let k = choose|k: int|
                    0 <= k < front.len() && voxel_of(#[trigger] front[k], voxel_size) == before[i];
                assert(pts[k] == front[k]);
                assert(voxel_of(pts[k], voxel_size) == all[i]);
            } else {
                assert(voxel_of(pts[pts.len() - 1], voxel_size) == all[i]);
            }
        }
    }
}

/// A downsampled cloud has one row for each voxel that holds a point, and that row is the mean of
/// exactly the points of the cloud in that voxel, up to rounding, coordinate by coordinate: no point
/// of the voxel is left out of the mean, and none of another voxel enters it.
pub proof fn rows_are_means_of_their_voxels(pts: Seq<P3>, voxel_size: F32, i: int)
    requires
        0 <= i < downsampled(pts, voxel_size).len(),
        pts.len() <= 8_000_000,
        ({
            let row = downsampled(pts, voxel_size)[i];
            row.x.finite() && row.y.finite() && row.z.finite()
        }),
    ensures
        downsampled(pts, voxel_size).len() == voxels(pts, voxel_size).len(),
        ({
            let (row, key) = (downsampled(pts, voxel_size)[i], voxels(pts, voxel_size)[i]);
            let inside = pts.filter(|p: P3| voxel_of(p, voxel_size) == key);
            let n = inside.len() as int as real;
            let (zero, least) = (0 as real, n * smallest32());
            let roundings = 4 as real * (n * eps32());
            &&& 0 < inside.len()
            &&& distance(
                real32(row.x) * n,
                inside.fold_left(zero, |t: real, p: P3| t + real32(p.x)),
            ) <= roundings * inside.fold_left(zero, |t: real, p: P3| t + size(real32(p.x))) + least
            &&& distance(
                real32(row.y) * n,
                inside.fold_left(zero, |t: real, p: P3| t + real32(p.y)),
            ) <= roundings * inside.fold_left(zero, |t: real, p: P3| t + size(real32(p.y))) + least
            &&& distance(
                real32(row.z) * n,
                inside.fold_left(zero, |t: real, p: P3| t + real32(p.z)),
            ) <= roundings * inside.fold_left(zero, |t: real, p: P3| t + size(real32(p.z))) + least
        }),
{
    let key = voxels(pts, voxel_size)[i];
    let pred = |p: P3| voxel_of(p, voxel_size) == key;
    let inside = points_in(pts, voxel_size, key);
    assert(inside == pts.filter(pred));
    lemma_voxels_hold_points(pts, voxel_size);
    let k = choose|k: int|
        0 <= k < pts.len() && voxel_of(#[trigger] pts[k], voxel_size) == voxels(pts, voxel_size)[i];
    pts.lemma_filter_contains(pred, k);
    pts.lemma_filter_len(pred);
    assert(inside.contains(pts[k]));
    centroids_are_means(inside);
}

} // verus!
