//! Removing the motion of the sensor from the points of a frame.
//!
//! The interpolated rotations come from outside: `plan_rotations` says where on the trajectory
//! they are wanted, and `preprocess_point_cloud` takes them back.

use vstd::prelude::*;
use vstd::arithmetic::mul::*;
use vstd::arithmetic::power2::*;

use crate::cloud::{PointXYZT, P3};
use crate::float::arith;
use crate::float::double::F64;
use crate::float::laws;
use crate::float::single::F32;
use crate::geometry::{Quat, ONE, V3};
use crate::load_files::NANOS_PER_SECOND;
use crate::pose::TINY;
use crate::predict_pose_imu::TrajectoryPoint;

verus! {

/// Where on a trajectory the rotation at a time is found.
#[derive(Clone, Copy, PartialEq, Eq, Structural, Debug)]
pub enum Lookup {
    /// There is no trajectory: no rotation.
    Identity,
    /// The rotation of a point of the trajectory.
    At(usize),
    /// The rotation between a point and the next, at this part of the way.
    Between(usize, F64),
}

/// The time `t` lies between the trajectory point `i` and the next.
pub open spec fn brackets(traj: Seq<TrajectoryPoint>, t: F64, i: int) -> bool {
    traj[i].time.le(t) && t.le(traj[i + 1].time)
}

/// The lookup between the trajectory point `i` and the next.
pub open spec fn lookup_between(traj: Seq<TrajectoryPoint>, t: F64, i: int) -> Lookup {
    let denom = traj[i + 1].time.minus(traj[i].time);
    if denom.magnitude().lt(F64 { bits: TINY }) {
        Lookup::At(i as usize)
    } else {
        Lookup::Between(i as usize, t.minus(traj[i].time).over(denom))
    }
}

/// The lookup in the first pair of neighbours from `i` on that bracket the time; the last point
/// where none do.
pub open spec fn lookup_from(traj: Seq<TrajectoryPoint>, t: F64, i: int) -> Lookup
    decreases traj.len() - i,
{
    if i < 0 || i >= traj.len() - 1 {
        Lookup::At((traj.len() - 1) as usize)
    } else if brackets(traj, t, i) {
        lookup_between(traj, t, i)
    } else {
        lookup_from(traj, t, i + 1)
    }
}

/// Where the rotation at the time `t` is found: at an end of the trajectory where the time is
/// not past it, else in the first pair of neighbours that bracket the time.
pub open spec fn rotation_lookup(traj: Seq<TrajectoryPoint>, t: F64) -> Lookup {
    if traj.len() == 0 {
        Lookup::Identity
    } else if t.le(traj[0].time) {
        Lookup::At(0)
    } else if traj.last().time.le(t) {
        Lookup::At((traj.len() - 1) as usize)
    } else {
        lookup_from(traj, t, 0)
    }
}

/// A lookup names points of the trajectory.
pub proof fn lookups_are_in_range(traj: Seq<TrajectoryPoint>, t: F64)
    requires
        traj.len() <= usize::MAX,
    ensures
        match rotation_lookup(traj, t) {
            Lookup::Identity => traj.len() == 0,
            Lookup::At(i) => i < traj.len(),
            Lookup::Between(i, _) => i + 1 < traj.len() && brackets(traj, t, i as int),
        },
{
    if traj.len() > 0 {
        lemma_lookup_from(traj, t, 0);
    }
}

/// What a search from `i` on finds.
proof fn lemma_lookup_from(traj: Seq<TrajectoryPoint>, t: F64, i: int)
    requires
        0 <= i < traj.len() <= usize::MAX,
    ensures
        match lookup_from(traj, t, i) {
            Lookup::Identity => false,
            Lookup::At(k) => k < traj.len(),
            Lookup::Between(k, ratio) => {
                &&& k + 1 < traj.len()
                &&& brackets(traj, t, k as int)
                &&& lookup_between(traj, t, k as int) == Lookup::Between(k, ratio)
            },
        },
    decreases traj.len() - i,
{
    if i < traj.len() - 1 && !brackets(traj, t, i) {
        lemma_lookup_from(traj, t, i + 1);
    }
}

/// A rotation is looked up between two points of the trajectory at a part of the way from none to
/// all of it, where the times and their differences are finite.
pub proof fn interpolation_stays_between(traj: Seq<TrajectoryPoint>, t: F64)
    requires
        traj.len() <= usize::MAX,
        t.finite(),
        forall|i: int| 0 <= i < traj.len() ==> (#[trigger] traj[i]).time.finite(),
        forall|i: int, j: int|
            0 <= i < j < traj.len() ==> (#[trigger] traj[j]).time.minus(
                (#[trigger] traj[i]).time,
            ).finite(),
    ensures
        rotation_lookup(traj, t) matches Lookup::Between(i, ratio) ==> (F64 { bits: 0 }).le(ratio)
            && ratio.le(F64 { bits: ONE }),
{
    lookups_are_in_range(traj, t);
    if let Lookup::Between(i, ratio) = rotation_lookup(traj, t) {
        lemma_lookup_from(traj, t, 0);
        lemma_ratio(traj[i as int].time, t, traj[i + 1].time);
    }
}

/// The rounded difference of two finite numbers, the second not larger.
proof fn lemma_difference(x: F64, y: F64)
    requires
        x.finite(),
        y.finite(),
        y.value() <= x.value(),
    ensures
        ({
            let d = x.minus(y).signed();
            let v = (x.value() - y.value()) as nat;
            &&& v > 0 ==> !d.neg
            &&& d.mag == if v > 0 {
                arith::double_format().round(v, 1)
            } else {
                0
            }
        }),
{
    reveal(F64::spec_plus);
    let fmt = arith::double_format();
    let v = (x.value() - y.value()) as nat;
    assert(y.negated().value() == -y.value());
    arith::lemma_round_bounded(fmt, v, 1);
}

/// The rounded quotient of a number from zero to another, and that other, lies from zero to one.
proof fn lemma_quotient(a: F64, b: F64)
    requires
        b.finite(),
        !b.signed().neg,
        0 < b.signed().mag,
        a.signed().mag <= b.signed().mag,
        a.signed().mag > 0 ==> !a.signed().neg,
    ensures
        (F64 { bits: 0 }).le(a.over(b)),
        a.over(b).le(F64 { bits: ONE }),
{
    reveal(F64::spec_over);
    reveal(F64::spec_lt);
    reveal(F64::spec_is_nan);
    let fmt = arith::double_format();
    let (ma, mb) = (a.signed().mag, b.signed().mag);
    let (ua, ub) = (fmt.units(ma), fmt.units(mb));
    let one = pow2(1074);
    arith::lemma_units_zero(53);
    arith::lemma_units_ordered(53, 0, mb as nat);
    if ma < mb {
        arith::lemma_units_ordered(53, ma as nat, mb as nat);
    }
    laws::units_of_one();
    assert(ua * one <= one * ub) by (nonlinear_arith)
        requires
            ua <= ub,
            one >= 0,
    ;
    laws::rounding_is_monotone(fmt, ua * one, one * ub, ub);
    laws::exact_values_are_kept(fmt, ONE, ub);
    arith::lemma_round_bounded(fmt, ua * one, ub);
    let q = a.over(b).signed();
    assert(q.mag == fmt.round(ua * one, ub) && q.mag <= ONE);
    if q.mag < ONE {
        arith::lemma_units_ordered(53, q.mag as nat, ONE as nat);
    }
    if ma == 0 {
        assert(ua * one == fmt.units(0) * ub) by (nonlinear_arith)
            requires
                ua == 0,
                fmt.units(0) == 0,
        ;
        laws::exact_values_are_kept(fmt, 0, ub);
        assert(q.mag == 0);
    } else {
        assert(!q.neg);
    }
}

/// The part of the way from `t0` to `t1` at which a time between them lies.
proof fn lemma_ratio(t0: F64, t: F64, t1: F64)
    requires
        t0.finite(),
        t.finite(),
        t1.finite(),
        t0.le(t),
        t.le(t1),
        t1.minus(t0).finite(),
        !t1.minus(t0).magnitude().lt(F64 { bits: TINY }),
    ensures
        (F64 { bits: 0 }).le(t.minus(t0).over(t1.minus(t0))),
        t.minus(t0).over(t1.minus(t0)).le(F64 { bits: ONE }),
{
    let fmt = arith::double_format();
    let b = t1.minus(t0);
    assert(t0.value() <= t.value() <= t1.value()) by {
        reveal(F64::spec_lt);
        reveal(F64::spec_is_nan);
    }
    let va = (t.value() - t0.value()) as nat;
    let vb = (t1.value() - t0.value()) as nat;
    lemma_difference(t, t0);
    lemma_difference(t1, t0);
    laws::rounding_is_monotone(fmt, va, vb, 1);
    assert(b.signed().mag > 0) by {
        reveal(F64::spec_lt);
        reveal(F64::spec_is_nan);
        arith::lemma_units_zero(53);
        arith::lemma_units_ordered(53, 0, TINY as nat);
    }
    lemma_quotient(t.minus(t0), b);
}

/// The lookup passes through every point of the trajectory: at the time of a point it names that
/// point, or all of the way to it from the one before, where the times are at least the smallest
/// interval apart.
pub proof fn lookups_pass_through_the_points(traj: Seq<TrajectoryPoint>, k: int)
    requires
        traj.len() <= usize::MAX,
        0 <= k < traj.len(),
        forall|i: int| 0 <= i < traj.len() ==> (#[trigger] traj[i]).time.finite(),
        forall|i: int, j: int|
            0 <= i < j < traj.len() ==> {
                let gap = (#[trigger] traj[j]).time.minus((#[trigger] traj[i]).time);
                gap.finite() && (F64 { bits: TINY }).le(gap)
            },
    ensures
        rotation_lookup(traj, traj[k].time) == if k == 0 || k == traj.len() - 1 {
            Lookup::At(k as usize)
        } else {
            Lookup::Between((k - 1) as usize, F64 { bits: ONE })
        },
{
    let t = traj[k].time;
    assert forall|i: int, j: int| 0 <= i < j < traj.len() implies (#[trigger] traj[i]).time.lt(
        (#[trigger] traj[j]).time,
    ) by {
        lemma_gap(traj[i].time, traj[j].time);
    }
    assert(t.le(t)) by {
        reveal(F64::spec_lt);
        reveal(F64::spec_is_nan);
    }
    if 0 < k < traj.len() - 1 {
        lemma_not_before(traj[0].time, t);
        lemma_not_before(t, traj[traj.len() - 1].time);
        lemma_gap(traj[k - 1].time, t);
        lemma_reaches(traj, k, 0);
        assert(traj[k - 1].time.le(t)) by {
            reveal(F64::spec_lt);
            reveal(F64::spec_is_nan);
        }
    } else if k > 0 {
        lemma_not_before(traj[0].time, t);
    }
}

/// What is less is not at least as large.
proof fn lemma_not_before(x: F64, y: F64)
    requires
        x.lt(y),
    ensures
        !y.le(x),
{
}

/// Times that are apart are in order, their difference is its own magnitude, and its quotient by
/// itself is one.
proof fn lemma_gap(x: F64, y: F64)
    requires
        x.finite(),
        y.finite(),
        y.minus(x).finite(),
        (F64 { bits: TINY }).le(y.minus(x)),
    ensures
        x.lt(y),
        !y.minus(x).magnitude().lt(F64 { bits: TINY }),
        y.minus(x).over(y.minus(x)) == (F64 { bits: ONE }),
{
    let d = y.minus(x);
    let fmt = arith::double_format();
    arith::lemma_units_zero(53);
    arith::lemma_units_ordered(53, 0, TINY as nat);
    assert(d.value() > 0 && !d.signed().neg) by {
        reveal(F64::spec_lt);
        reveal(F64::spec_is_nan);
    }
    assert(x.value() < y.value()) by {
        reveal(F64::spec_plus);
        let v = y.value() - x.value();
        assert(x.negated().value() == -x.value());
        arith::lemma_round_bounded(fmt, vstd::math::abs(v), 1);
    }
    assert(x.lt(y) && d.magnitude() == d) by {
        reveal(F64::spec_lt);
        reveal(F64::spec_is_nan);
    }
    assert(d.over(d) == (F64 { bits: ONE })) by {
        reveal(F64::spec_over);
        let u = fmt.units(d.signed().mag);
        laws::units_of_one();
        laws::exact_values_are_kept(fmt, ONE, u);
        lemma_mul_is_commutative(u as int, pow2(1074) as int);
    }
}

/// The search for the time of a point reaches the one before it.
proof fn lemma_reaches(traj: Seq<TrajectoryPoint>, k: int, i: int)
    requires
        0 <= i < k < traj.len() - 1,
        forall|a: int, b: int|
            0 <= a < b < traj.len() ==> (#[trigger] traj[a]).time.lt((#[trigger] traj[b]).time),
    ensures
        lookup_from(traj, traj[k].time, i) == lookup_from(traj, traj[k].time, k - 1),
    decreases k - i,
{
    if i < k - 1 {
        lemma_not_before(traj[i + 1].time, traj[k].time);
        lemma_reaches(traj, k, i + 1);
    }
}

/// A time that is inside the trajectory is looked up between the first two neighbours that it lies
/// between, at its part of the way from the one to the other; where these are less than the smallest
/// interval apart, at the first of them.
pub proof fn first_bracket_is_taken(traj: Seq<TrajectoryPoint>, t: F64, i: int)
    requires
        traj.len() <= usize::MAX,
        0 <= i < traj.len() - 1,
        !t.le(traj[0].time),
        !traj.last().time.le(t),
        forall|k: int|
            0 <= k < i ==> !((#[trigger] traj[k]).time.le(t) && t.le(traj[k + 1].time)),
        traj[i].time.le(t),
        t.le(traj[i + 1].time),
    ensures
        ({
            let gap = traj[i + 1].time.minus(traj[i].time);
            rotation_lookup(traj, t) == if gap.magnitude().lt(F64 { bits: TINY }) {
                Lookup::At(i as usize)
            } else {
                Lookup::Between(i as usize, t.minus(traj[i].time).over(gap))
            }
        }),
{
    lemma_search_passes(traj, t, 0, i);
}

/// A time that is not inside the trajectory is looked up at an end of it: at the first point where
/// it is not past that, at the last where it is not before that, and at the last too where it lies
/// between no two neighbours. An empty trajectory gives no rotation.
pub proof fn times_outside_are_looked_up_at_the_ends(traj: Seq<TrajectoryPoint>, t: F64)
    requires
        traj.len() <= usize::MAX,
    ensures
        traj.len() == 0 ==> rotation_lookup(traj, t) == Lookup::Identity,
        traj.len() > 0 && t.le(traj[0].time) ==> rotation_lookup(traj, t) == Lookup::At(0),
        traj.len() > 0 && !t.le(traj[0].time) && traj.last().time.le(t) ==> rotation_lookup(traj, t)
            == Lookup::At((traj.len() - 1) as usize),
        traj.len() > 0 && !t.le(traj[0].time) && (forall|k: int|
            0 <= k < traj.len() - 1 ==> !((#[trigger] traj[k]).time.le(t) && t.le(
                traj[k + 1].time,
            ))) ==> rotation_lookup(traj, t) == Lookup::At((traj.len() - 1) as usize),
{
    if traj.len() > 0 && (forall|k: int|
        0 <= k < traj.len() - 1 ==> !((#[trigger] traj[k]).time.le(t) && t.le(traj[k + 1].time))) {
        lemma_search_passes(traj, t, 0, traj.len() - 1);
    }
}

/// The search passes the neighbours that do not bracket the time.
proof fn lemma_search_passes(traj: Seq<TrajectoryPoint>, t: F64, from: int, to: int)
    requires
        0 <= from <= to <= traj.len() - 1,
        forall|k: int|
            from <= k < to ==> !((#[trigger] traj[k]).time.le(t) && t.le(traj[k + 1].time)),
    ensures
        lookup_from(traj, t, from) == lookup_from(traj, t, to),
    decreases to - from,
{
    if from < to {
        assert(!(traj[from].time.le(t) && t.le(traj[from + 1].time)));
        lemma_search_passes(traj, t, from + 1, to);
    }
}

/// Where the rotation at the time `t` is found.
pub fn get_rotation_at_time(traj: &Vec<TrajectoryPoint>, t: F64) -> (r: Lookup)
    ensures
        r == rotation_lookup(traj@, t),
        traj.len() == 0 ==> r == Lookup::Identity,
        traj.len() > 0 && t.le(traj[0].time) ==> r == Lookup::At(0),
        traj.len() > 0 && !t.le(traj[0].time) && traj@.last().time.le(t) ==> r == Lookup::At(
            (traj.len() - 1) as usize,
        ),
{
    let n: usize = traj.len();
    if n == 0 {
        return Lookup::Identity;
    }
    if t.le(traj[0].time) {
        return Lookup::At(0);
    }
    if traj[n - 1].time.le(t) {
        return Lookup::At(n - 1);
    }
    let mut i: usize = 0;
    while i < n - 1
        invariant
            n == traj.len(),
            i <= n - 1,
            n > 0,
            !t.le(traj@[0].time),
            !traj@.last().time.le(t),
            lookup_from(traj@, t, 0) == lookup_from(traj@, t, i as int),
        decreases n - i,
    {
        let t0: F64 = traj[i].time;
        let t1: F64 = traj[i + 1].time;
        if t0.le(t) && t.le(t1) {
            let denom: F64 = t1.minus(t0);
            if denom.magnitude().lt(F64 { bits: TINY }) {
                return Lookup::At(i);
            }
            return Lookup::Between(i, t.minus(t0).over(denom));
        }
        i = i + 1;
    }
    Lookup::At(n - 1)
}

/// The rotation that a lookup names, where none has to be interpolated.
pub fn known_rotation(traj: &Vec<TrajectoryPoint>, lookup: Lookup) -> (r: Option<Quat>)
    requires
        lookup matches Lookup::At(i) ==> i < traj.len(),
    ensures
        r == (match lookup {
            Lookup::Identity => Some(Quat::identity()),
            Lookup::At(i) => Some(traj[i as int].rotation),
            Lookup::Between(_, _) => None,
        }),
{
    match lookup {
        Lookup::Identity => Some(Quat::identity()),
        Lookup::At(i) => Some(traj[i].rotation),
        Lookup::Between(_, _) => None,
    }
}

/// The squared distance of a point from the sensor.
#[verifier::allow_in_spec]
pub fn squared_distance(p: PointXYZT) -> F32
    returns
        p.x.times(p.x).plus(p.y.times(p.y)).plus(p.z.times(p.z)),
{
    p.x.times(p.x).plus(p.y.times(p.y)).plus(p.z.times(p.z))
}

/// Whether a point is neither nearer than `min_dist` nor farther than `max_dist`.
#[verifier::allow_in_spec]
pub fn in_range(p: PointXYZT, min_dist: F32, max_dist: F32) -> bool
    returns
        (!squared_distance(p).lt(min_dist.times(min_dist)) && !max_dist.times(max_dist).lt(
            squared_distance(p),
        )),
{
    let d: F32 = squared_distance(p);
    !d.lt(min_dist.times(min_dist)) && !max_dist.times(max_dist).lt(d)
}

/// The points in range, in the order they came in.
pub open spec fn points_in_range(points: Seq<PointXYZT>, min_dist: F32, max_dist: F32) -> Seq<
    PointXYZT,
> {
    points.filter(|p: PointXYZT| in_range(p, min_dist, max_dist))
}

/// The points in range.
pub fn select_in_range(points: &Vec<PointXYZT>, min_dist: F32, max_dist: F32) -> (kept: Vec<
    PointXYZT,
>)
    ensures
        kept@ == points_in_range(points@, min_dist, max_dist),
        kept@ == points@.filter(|p: PointXYZT| in_range(p, min_dist, max_dist)),
{
    let ghost pred = |p: PointXYZT| in_range(p, min_dist, max_dist);
    let mut kept: Vec<PointXYZT> = Vec::new();
    let mut i: usize = 0;
    proof {
        reveal(Seq::filter);
        assert(points@.take(0).filter(pred) =~= Seq::<PointXYZT>::empty());
    }
    while i < points.len()
        invariant
            i <= points.len(),
            pred == (|p: PointXYZT| in_range(p, min_dist, max_dist)),
            kept@ == points@.take(i as int).filter(pred),
        decreases points.len() - i,
    {
        let p: PointXYZT = points[i];
        proof {
            reveal(Seq::filter);
            assert(points@.take(i + 1).drop_last() =~= points@.take(i as int));
        }
        if in_range(p, min_dist, max_dist) {
            kept.push(p);
        }
        i = i + 1;
    }
    assert(points@.take(i as int) =~= points@);
    kept
}

/// The points in range are all those that are neither too near nor too far, each as often as it came
/// in and in the order they came in.
pub proof fn every_point_in_range_is_kept(points: Seq<PointXYZT>, min_dist: F32, max_dist: F32)
    ensures
        points_in_range(points, min_dist, max_dist) == points.filter(
            |p: PointXYZT| in_range(p, min_dist, max_dist),
        ),
        forall|p: PointXYZT|
            points_in_range(points, min_dist, max_dist).contains(p) <==> points.contains(p)
                && in_range(p, min_dist, max_dist),
        (forall|i: int|
            0 <= i < points.len() ==> in_range(#[trigger] points[i], min_dist, max_dist))
            ==> points_in_range(points, min_dist, max_dist) == points,
{
    let pred = |p: PointXYZT| in_range(p, min_dist, max_dist);
    broadcast use vstd::seq_lib::group_filter_ensures;

    assert forall|p: PointXYZT| points.filter(pred).contains(p) implies points.contains(p) by {
        points.lemma_filter_contains_rev(pred, p);
    }
    if forall|i: int| 0 <= i < points.len() ==> pred(#[trigger] points[i]) {
        lemma_filter_all(points, pred);
    }
}

/// A filter that all meet keeps the sequence.
proof fn lemma_filter_all<A>(s: Seq<A>, pred: spec_fn(A) -> bool)
    requires
        forall|i: int| 0 <= i < s.len() ==> pred(#[trigger] s[i]),
    ensures
        s.filter(pred) == s,
    decreases s.len(),
{
    reveal(Seq::filter);
    if s.len() > 0 {
        lemma_filter_all(s.drop_last(), pred);
    }
    assert(s.filter(pred) =~= s);
}

/// The time of a point in seconds; a frame starts at the time of its first point.
#[verifier::allow_in_spec]
pub fn point_time(p: PointXYZT) -> F64
    returns
        p.timestamp.over(F64 { bits: NANOS_PER_SECOND }),
{
    p.timestamp.over(F64 { bits: NANOS_PER_SECOND })
}

/// Where on the trajectory the rotations of a frame are found: the one at its start, and one for
/// each point in range.
pub fn plan_rotations(
    points: &Vec<PointXYZT>,
    trajectory: &Vec<TrajectoryPoint>,
    min_dist: F32,
    max_dist: F32,
) -> (r: (Lookup, Vec<Lookup>))
    requires
        points.len() > 0,
    ensures
        r.0 == rotation_lookup(trajectory@, point_time(points[0])),
        r.1@ == points_in_range(points@, min_dist, max_dist).map_values(
            |p: PointXYZT| rotation_lookup(trajectory@, point_time(p)),
        ),
{
    let start: Lookup = get_rotation_at_time(trajectory, point_time(points[0]));
    let kept: Vec<PointXYZT> = select_in_range(points, min_dist, max_dist);
    let mut lookups: Vec<Lookup> = Vec::new();
    let mut i: usize = 0;
    while i < kept.len()
        invariant
            i <= kept.len(),
            lookups.len() == i,
            forall|k: int|
                0 <= k < i ==> #[trigger] lookups[k] == rotation_lookup(
                    trajectory@,
                    point_time(kept[k]),
                ),
        decreases kept.len() - i,
    {
        lookups.push(get_rotation_at_time(trajectory, point_time(kept[i])));
        i = i + 1;
    }
    assert(lookups@ =~= kept@.map_values(
        |p: PointXYZT| rotation_lookup(trajectory@, point_time(p)),
    ));
    (start, lookups)
}

/// The frame starts at its first point: where that point is in range, it is the first of those
/// kept, and its rotation is looked up where that of the frame start is.
pub proof fn first_point_is_the_frame_start(
    points: Seq<PointXYZT>,
    trajectory: Seq<TrajectoryPoint>,
    min_dist: F32,
    max_dist: F32,
)
    requires
        points.len() > 0,
        in_range(points[0], min_dist, max_dist),
    ensures
        ({
            let kept = points_in_range(points, min_dist, max_dist);
            let lookups = kept.map_values(
                |p: PointXYZT| rotation_lookup(trajectory, point_time(p)),
            );
            &&& kept.len() > 0
            &&& kept[0] == points[0]
            &&& lookups[0] == rotation_lookup(trajectory, point_time(points[0]))
        }),
{
    let pred = |p: PointXYZT| in_range(p, min_dist, max_dist);
    lemma_filter_first(points, pred);
}

/// A filter keeps the first element first where it keeps it.
proof fn lemma_filter_first<A>(s: Seq<A>, pred: spec_fn(A) -> bool)
    requires
        s.len() > 0,
        pred(s[0]),
    ensures
        s.filter(pred).len() > 0,
        s.filter(pred)[0] == s[0],
    decreases s.len(),
{
    reveal(Seq::filter);
    if s.len() > 1 {
        lemma_filter_first(s.drop_last(), pred);
    } else {
        assert(s.drop_last().filter(pred) =~= Seq::<A>::empty());
    }
}

/// A point turned by the rotation since the start of the frame.
#[verifier::allow_in_spec]
pub fn deskewed(p: PointXYZT, start_rotation: Quat, rotation: Quat) -> V3
    returns
        start_rotation.conjugate().times(rotation).rotate(
            V3::new(p.x.widened(), p.y.widened(), p.z.widened()),
        ),
{
    start_rotation.conjugate().times(rotation).rotate(
        V3::new(p.x.widened(), p.y.widened(), p.z.widened()),
    )
}

/// Whether no coordinate is a not-a-number.
#[verifier::allow_in_spec]
pub fn is_valid(v: V3) -> bool
    returns
        (!v.x.is_nan() && !v.y.is_nan() && !v.z.is_nan()),
{
    !v.x.is_nan() && !v.y.is_nan() && !v.z.is_nan()
}

/// The coordinates as a row of a cloud.
#[verifier::allow_in_spec]
pub fn row_of(v: V3) -> P3
    returns
        (P3 { x: v.x.narrowed(), y: v.y.narrowed(), z: v.z.narrowed() }),
{
    P3 { x: v.x.narrowed(), y: v.y.narrowed(), z: v.z.narrowed() }
}

/// The rows of a cloud have a place: what is valid in 64 bits is no not-a-number in 32.
pub proof fn rows_have_a_place(v: V3)
    requires
        is_valid(v),
    ensures
        !row_of(v).x.is_nan(),
        !row_of(v).y.is_nan(),
        !row_of(v).z.is_nan(),
{
    lemma_narrowed_number(v.x);
    lemma_narrowed_number(v.y);
    lemma_narrowed_number(v.z);
}

/// Narrowing yields a not-a-number for none other.
proof fn lemma_narrowed_number(x: F64)
    requires
        !x.is_nan(),
    ensures
        !x.narrowed().is_nan(),
{
    reveal(F64::spec_converted);
    reveal(F64::spec_is_nan);
    reveal(F32::spec_is_nan);
    let (double, single) = (arith::double_format(), arith::single_format());
    let n = double.units(x.signed().mag);
    arith::lemma_round_bounded(single, n, pow2((double.unit - single.unit) as nat));
}

/// The points turned by their rotations.
pub open spec fn all_deskewed(
    points: Seq<PointXYZT>,
    start_rotation: Quat,
    rotations: Seq<Quat>,
) -> Seq<V3> {
    Seq::new(points.len(), |i: int| deskewed(points[i], start_rotation, rotations[i]))
}

/// No point of a frame is lost: the cloud has a row for each point in range, in their order, which is
/// that point turned by its own rotation since the start of the frame, where every point has a valid
/// place.
pub proof fn every_point_gets_its_row(
    points: Seq<PointXYZT>,
    min_dist: F32,
    max_dist: F32,
    start_rotation: Quat,
    rotations: Seq<Quat>,
)
    requires
        ({
            let kept = points.filter(|p: PointXYZT| in_range(p, min_dist, max_dist));
            forall|i: int|
                0 <= i < kept.len() ==> is_valid(
                    #[trigger] deskewed(kept[i], start_rotation, rotations[i]),
                )
        }),
    ensures
        ({
            let kept = points.filter(|p: PointXYZT| in_range(p, min_dist, max_dist));
            let cloud = all_deskewed(
                points_in_range(points, min_dist, max_dist),
                start_rotation,
                rotations,
            ).filter(|v: V3| is_valid(v)).map_values(|v: V3| row_of(v));
            &&& cloud.len() == kept.len()
            &&& forall|i: int|
                0 <= i < kept.len() ==> #[trigger] cloud[i] == row_of(
                    start_rotation.conjugate().times(rotations[i]).rotate(
                        V3::new(kept[i].x.widened(), kept[i].y.widened(), kept[i].z.widened()),
                    ),
                )
        }),
{
    let kept = points_in_range(points, min_dist, max_dist);
    let all = all_deskewed(kept, start_rotation, rotations);
    let pred = |v: V3| is_valid(v);
    assert forall|i: int| 0 <= i < all.len() implies pred(#[trigger] all[i]) by {
        assert(is_valid(deskewed(kept[i], start_rotation, rotations[i])));
    }
    lemma_filter_all(all, pred);
}

/// Each point is turned by its own rotation, and one more point adds one more row, or none where it
/// has no valid place; the rows of the points before it stay as they are.
pub proof fn every_point_is_turned(
    points: Seq<PointXYZT>,
    p: PointXYZT,
    start_rotation: Quat,
    rotations: Seq<Quat>,
)
    ensures
        ({
            let rows = all_deskewed(points, start_rotation, rotations).filter(
                |v: V3| is_valid(v),
            ).map_values(|v: V3| row_of(v));
            let more = all_deskewed(points.push(p), start_rotation, rotations).filter(
                |v: V3| is_valid(v),
            ).map_values(|v: V3| row_of(v));
            let v = deskewed(p, start_rotation, rotations[points.len() as int]);
            more == if is_valid(v) {
                rows.push(row_of(v))
            } else {
                rows
            }
        }),
        all_deskewed(Seq::empty(), start_rotation, rotations).len() == 0,
{
    reveal(Seq::filter);
    let (all, pred) = (all_deskewed(points, start_rotation, rotations), |v: V3| is_valid(v));
    let more = all_deskewed(points.push(p), start_rotation, rotations);
    assert(more.drop_last() =~= all);
    assert(more.filter(pred).map_values(|v: V3| row_of(v)) =~= if is_valid(more.last()) {
        all.filter(pred).map_values(|v: V3| row_of(v)).push(row_of(more.last()))
    } else {
        all.filter(pred).map_values(|v: V3| row_of(v))
    });
}

/// The cloud of a frame: the points in range, each turned by the rotation since the start of
/// the frame, without those that have no valid place. The rotations are those that
/// `plan_rotations` asks for.
pub fn preprocess_point_cloud(
    points: &Vec<PointXYZT>,
    min_dist: F32,
    max_dist: F32,
    start_rotation: Quat,
    rotations: &Vec<Quat>,
) -> (cloud: Vec<P3>)
    requires
        points.len() > 0,
        rotations.len() == points_in_range(points@, min_dist, max_dist).len(),
    ensures
        cloud@ == all_deskewed(
            points_in_range(points@, min_dist, max_dist),
            start_rotation,
            rotations@,
        ).filter(|v: V3| is_valid(v)).map_values(|v: V3| row_of(v)),
        ({
            let kept = points@.filter(|p: PointXYZT| in_range(p, min_dist, max_dist));
            cloud@ == Seq::new(
                kept.len(),
                |i: int| deskewed(kept[i], start_rotation, rotations@[i]),
            ).filter(|v: V3| is_valid(v)).map_values(|v: V3| row_of(v))
        }),
{
    let kept: Vec<PointXYZT> = select_in_range(points, min_dist, max_dist);
    let ghost all = all_deskewed(kept@, start_rotation, rotations@);
    let ghost pred = |v: V3| is_valid(v);
    let mut cloud: Vec<P3> = Vec::new();
    let mut i: usize = 0;
    proof {
        reveal(Seq::filter);
        assert(all.take(0).filter(pred) =~= Seq::<V3>::empty());
    }
    while i < kept.len()
        invariant
            i <= kept.len(),
            kept.len() == rotations.len(),
            all == all_deskewed(kept@, start_rotation, rotations@),
            pred == (|v: V3| is_valid(v)),
            cloud@ == all.take(i as int).filter(pred).map_values(|v: V3| row_of(v)),
        decreases kept.len() - i,
    {
        let v: V3 = deskewed(kept[i], start_rotation, rotations[i]);
        proof {
            reveal(Seq::filter);
            assert(all.take(i + 1).drop_last() =~= all.take(i as int));
            assert(all[i as int] == v);
        }
        if is_valid(v) {
            cloud.push(row_of(v));
        }
        i = i + 1;
        assert(cloud@ =~= all.take(i as int).filter(pred).map_values(|v: V3| row_of(v)));
    }
    assert(all.take(i as int) =~= all);
    cloud
}

} // verus!
