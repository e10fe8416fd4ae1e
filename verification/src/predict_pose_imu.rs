//! Dead reckoning with the inertial unit.
//!
//! The small rotations themselves come from outside: the functions here say which rotations are
//! wanted, and take them back, one for each step.

use vstd::prelude::*;

use crate::float::arith;
use crate::float::double::F64;
use crate::geometry::{Quat, ONE, V3};
use crate::load_files::ImuSample;
use crate::pose::{Mat4, TINY};
use crate::reckoning;

verus! {

/// The bit pattern of 0.01, the seconds by which a trajectory reaches past its frame.
pub const BUFFER_TIME: u64 = 0x3f84_7ae1_47ae_147b;

/// The bit pattern of 9.80665, the pull of gravity.
pub const GRAVITY: u64 = 0x4023_9d01_3a92_a305;

/// The bit pattern of one half.
pub const HALF: u64 = 0x3fe0_0000_0000_0000;

/// A sample that moves time forward, and by how much.
#[derive(Clone, Copy, Debug)]
pub struct Step {
    pub sample: ImuSample,
    pub dt: F64,
}

/// A rotation by an angle about an axis of length one.
#[derive(Clone, Copy, PartialEq, Eq, Structural, Debug)]
pub struct Turn {
    pub axis: V3,
    pub angle: F64,
}

/// Position, orientation and velocity.
#[derive(Clone, Copy, PartialEq, Eq, Structural, Debug)]
pub struct Motion {
    pub position: V3,
    pub rotation: Quat,
    pub velocity: V3,
}

/// An orientation at a time.
#[derive(Clone, Copy, PartialEq, Eq, Structural, Debug)]
pub struct TrajectoryPoint {
    pub time: F64,
    pub rotation: Quat,
}

/// Whether a time lies from `lo` to `hi`; `lo` itself only where `closed`.
#[verifier::allow_in_spec]
pub fn in_window(t: F64, lo: F64, hi: F64, closed: bool) -> bool
    returns
        ((if closed {
            lo.le(t)
        } else {
            lo.lt(t)
        }) && t.le(hi)),
{
    let past: bool = if closed {
        lo.le(t)
    } else {
        lo.lt(t)
    };
    past && t.le(hi)
}

/// The samples whose times lie in the window.
pub open spec fn window(samples: Seq<ImuSample>, lo: F64, hi: F64, closed: bool) -> Seq<
    ImuSample,
> {
    samples.filter(|s: ImuSample| in_window(s.timestamp_sec, lo, hi, closed))
}

/// The time up to which the steps lead.
pub open spec fn last_time(steps: Seq<Step>, start: F64) -> F64 {
    if steps.len() == 0 {
        start
    } else {
        steps.last().sample.timestamp_sec
    }
}

/// The steps from `start` through the samples. A sample that does not lead more than the
/// smallest interval past the step before is passed over.
pub open spec fn steps_through(samples: Seq<ImuSample>, start: F64) -> Seq<Step>
    decreases samples.len(),
{
    if samples.len() == 0 {
        Seq::empty()
    } else {
        let before = steps_through(samples.drop_last(), start);
        let sample = samples.last();
        let dt = sample.timestamp_sec.minus(last_time(before, start));
        if dt.le(F64 { bits: TINY }) {
            before
        } else {
            before.push(Step { sample, dt })
        }
    }
}

/// Where the rounded difference of two times is more than the smallest interval, the first time is
/// later.
proof fn lemma_later(a: F64, b: F64)
    requires
        a.finite(),
        b.finite(),
        !a.minus(b).le(F64 { bits: TINY }),
    ensures
        b.lt(a),
{
    reveal(F64::spec_plus);
    reveal(F64::spec_lt);
    reveal(F64::spec_is_nan);
    let fmt = arith::double_format();
    let v = a.value() - b.value();
    assert(b.negated().value() == -b.value());
    let n = vstd::math::abs(v);
    arith::lemma_round_bounded(fmt, n, 1);
    arith::lemma_units_zero(53);
    arith::lemma_units_ordered(53, 0, TINY as nat);
}

/// Each step leads to a later time: where the times are finite, those of the steps ascend, all of
/// them after the start.
pub proof fn steps_move_forward(samples: Seq<ImuSample>, start: F64)
    requires
        start.finite(),
        forall|i: int| 0 <= i < samples.len() ==> (#[trigger] samples[i]).timestamp_sec.finite(),
    ensures
        ({
            let steps = steps_through(samples, start);
            &&& forall|i: int|
                0 <= i < steps.len() ==> {
                    let t = (#[trigger] steps[i]).sample.timestamp_sec;
                    t.finite() && start.lt(t)
                }
            &&& forall|i: int, j: int|
                0 <= i < j < steps.len() ==> (#[trigger] steps[i]).sample.timestamp_sec.lt(
                    (#[trigger] steps[j]).sample.timestamp_sec,
                )
        }),
    decreases samples.len(),
{
    if samples.len() > 0 {
        let front = samples.drop_last();
        assert forall|i: int| 0 <= i < front.len() implies (#[trigger] front[i]).timestamp_sec.finite() by {
            assert(front[i] == samples[i]);
        }
        steps_move_forward(front, start);
        let before = steps_through(front, start);
        let t = samples.last().timestamp_sec;
        if !t.minus(last_time(before, start)).le(F64 { bits: TINY }) {
            lemma_later(t, last_time(before, start));
            reveal(F64::spec_lt);
            if before.len() > 0 {
                let _ = before[before.len() - 1];
            }
        }
    }
}

/// The steps through the samples of a window.
fn collect_steps(samples: &Vec<ImuSample>, lo: F64, hi: F64, closed: bool) -> (steps: Vec<Step>)
    ensures
        steps@ == steps_through(window(samples@, lo, hi, closed), lo),
{
    let ghost pred = |s: ImuSample| in_window(s.timestamp_sec, lo, hi, closed);
    let mut steps: Vec<Step> = Vec::new();
    let mut last: F64 = lo;
    let mut i: usize = 0;
    proof {
        reveal(Seq::filter);
        assert(samples@.take(0).filter(pred) =~= Seq::<ImuSample>::empty());
    }
    while i < samples.len()
        invariant
            i <= samples.len(),
            pred == (|s: ImuSample| in_window(s.timestamp_sec, lo, hi, closed)),
            steps@ == steps_through(samples@.take(i as int).filter(pred), lo),
            last == last_time(steps@, lo),
        decreases samples.len() - i,
    {
        let sample: ImuSample = samples[i];
        proof {
            reveal(Seq::filter);
            let now = samples@.take(i + 1);
            assert(now.drop_last() =~= samples@.take(i as int));
            assert(now.last() == sample);
            if pred(sample) {
                let kept = samples@.take(i as int).filter(pred);
                assert(now.filter(pred) == kept.push(sample));
                assert(kept.push(sample).drop_last() =~= kept);
            }
        }
        if in_window(sample.timestamp_sec, lo, hi, closed) {
            let dt: F64 = sample.timestamp_sec.minus(last);
            if !dt.le(F64 { bits: TINY }) {
                steps.push(Step { sample, dt });
                last = sample.timestamp_sec;
            }
        }
        i = i + 1;
    }
    assert(samples@.take(i as int) =~= samples@);
    steps
}

/// The rate of turn of a sample.
#[verifier::allow_in_spec]
pub fn rate_of(sample: ImuSample) -> V3
    returns
        V3::new(
            sample.gyro[0].widened(),
            sample.gyro[1].widened(),
            sample.gyro[2].widened(),
        ),
{
    V3::new(sample.gyro[0].widened(), sample.gyro[1].widened(), sample.gyro[2].widened())
}

/// The acceleration of a sample, in the frame of the sensor.
#[verifier::allow_in_spec]
pub fn acceleration_of(sample: ImuSample) -> V3
    returns
        V3::new(
            sample.linear_acceleration[0].widened(),
            sample.linear_acceleration[1].widened(),
            sample.linear_acceleration[2].widened(),
        ),
{
    V3::new(
        sample.linear_acceleration[0].widened(),
        sample.linear_acceleration[1].widened(),
        sample.linear_acceleration[2].widened(),
    )
}

/// The rotation during a step. A tiny angle is taken about the first axis.
#[verifier::allow_in_spec]
pub fn turn_of(step: Step) -> Turn
    returns
        ({
            let omega = rate_of(step.sample);
            let angle = omega.norm().times(step.dt);
            Turn {
                axis: if angle.lt(F64 { bits: TINY }) {
                    V3::new(F64 { bits: ONE }, F64 { bits: 0 }, F64 { bits: 0 })
                } else {
                    omega.divided(omega.norm())
                },
                angle,
            }
        }),
{
    let omega: V3 = rate_of(step.sample);
    let n: F64 = omega.norm();
    let angle: F64 = n.times(step.dt);
    if angle.lt(F64 { bits: TINY }) {
        Turn { axis: V3::new(F64 { bits: ONE }, F64 { bits: 0 }, F64 { bits: 0 }), angle }
    } else {
        Turn { axis: omega.divided(n), angle }
    }
}

/// The steps of a prediction: through the samples after `start_time` and up to `end_time`.
pub open spec fn prediction_steps(
    samples: Seq<ImuSample>,
    start_time: F64,
    end_time: F64,
) -> Seq<Step> {
    steps_through(window(samples, start_time, end_time, false), start_time)
}

/// The rotations that a prediction needs, one for each step.
pub fn prediction_turns(samples: &Vec<ImuSample>, start_time: F64, end_time: F64) -> (turns: Vec<
    Turn,
>)
    ensures
        turns@ == prediction_steps(samples@, start_time, end_time).map_values(
            |s: Step| turn_of(s),
        ),
{
    let steps: Vec<Step> = collect_steps(samples, start_time, end_time, false);
    let mut turns: Vec<Turn> = Vec::new();
    let mut i: usize = 0;
    while i < steps.len()
        invariant
            i <= steps.len(),
            turns.len() == i,
            forall|k: int| 0 <= k < i ==> #[trigger] turns[k] == turn_of(steps[k]),
        decreases steps.len() - i,
    {
        turns.push(turn_of(steps[i]));
        i = i + 1;
    }
    assert(turns@ =~= steps@.map_values(|s: Step| turn_of(s)));
    turns
}

/// The motion after a step during which the orientation changes by `delta`: the acceleration,
/// turned by the new orientation and freed of gravity, is taken as constant.
#[verifier::allow_in_spec]
pub fn advanced(m: Motion, step: Step, delta: Quat) -> Motion
    returns
        ({
            let rotation = m.rotation.times(delta).normalized();
            let net = rotation.rotate(acceleration_of(step.sample)).minus(
                V3::new(F64 { bits: 0 }, F64 { bits: 0 }, F64 { bits: GRAVITY }),
            );
            Motion {
                position: m.position.plus(
                    m.velocity.scaled(step.dt).plus(
                        net.scaled(F64 { bits: HALF }).scaled(step.dt).scaled(step.dt),
                    ),
                ),
                rotation,
                velocity: m.velocity.plus(net.scaled(step.dt)),
            }
        }),
{
    let rotation: Quat = m.rotation.times(delta).normalized();
    let net: V3 = rotation.rotate(acceleration_of(step.sample)).minus(
        V3::new(F64 { bits: 0 }, F64 { bits: 0 }, F64 { bits: GRAVITY }),
    );
    Motion {
        position: m.position.plus(
            m.velocity.scaled(step.dt).plus(
                net.scaled(F64 { bits: HALF }).scaled(step.dt).scaled(step.dt),
            ),
        ),
        rotation,
        velocity: m.velocity.plus(net.scaled(step.dt)),
    }
}

/// The motion after all steps.
pub open spec fn advanced_through(m: Motion, steps: Seq<Step>, deltas: Seq<Quat>) -> Motion
    decreases steps.len(),
{
    if steps.len() == 0 {
        m
    } else {
        advanced(
            advanced_through(m, steps.drop_last(), deltas),
            steps.last(),
            deltas[steps.len() - 1],
        )
    }
}

/// The motion from which a prediction starts.
#[verifier::allow_in_spec]
pub fn start_motion(pose: Mat4, rotation: Quat, velocity: V3) -> Motion
    returns
        (Motion {
            position: V3::new(pose.r0.w.widened(), pose.r1.w.widened(), pose.r2.w.widened()),
            rotation,
            velocity,
        }),
{
    Motion {
        position: V3::new(pose.r0.w.widened(), pose.r1.w.widened(), pose.r2.w.widened()),
        rotation,
        velocity,
    }
}

/// The pose and the velocity predicted for `end_time`. `start_rotation` is the orientation of
/// the start pose, and `deltas` are the rotations that `prediction_turns` asks for.
pub fn predict_pose_by_imu(
    start_pose: Mat4,
    start_rotation: Quat,
    start_vel: V3,
    start_time: F64,
    end_time: F64,
    imu_samples: &Vec<ImuSample>,
    deltas: &Vec<Quat>,
) -> (r: (Mat4, V3))
    requires
        deltas.len() == prediction_steps(imu_samples@, start_time, end_time).len(),
    ensures
        ({
            let m = advanced_through(
                start_motion(start_pose, start_rotation, start_vel),
                prediction_steps(imu_samples@, start_time, end_time),
                deltas@,
            );
            r == (Mat4::assembled(m.rotation.to_matrix(), m.position), m.velocity)
        }),
        ({
            let steps = prediction_steps(imu_samples@, start_time, end_time);
            let m = Seq::new(steps.len(), |i: int| i).fold_left(
                start_motion(start_pose, start_rotation, start_vel),
                |m: Motion, i: int| advanced(m, steps[i], deltas@[i]),
            );
            r == (Mat4::assembled(m.rotation.to_matrix(), m.position), m.velocity)
        }),
{
    let steps: Vec<Step> = collect_steps(imu_samples, start_time, end_time, false);
    let start: Motion = start_motion(start_pose, start_rotation, start_vel);
    let mut m: Motion = start;
    let mut i: usize = 0;
    while i < steps.len()
        invariant
            i <= steps.len(),
            deltas.len() == steps.len(),
            m == advanced_through(start, steps@.take(i as int), deltas@),
        decreases steps.len() - i,
    {
        m = advanced(m, steps[i], deltas[i]);
        i = i + 1;
        assert(steps@.take(i as int).drop_last() =~= steps@.take(i - 1));
    }
    assert(steps@.take(i as int) =~= steps@);
    proof {
        reckoning::every_step_is_taken(start, steps@, deltas@);
    }
    (Mat4::assembled(m.rotation.to_matrix(), m.position), m.velocity)
}

/// The samples in a row lead on in time, each more than the smallest interval past all before it.
pub open spec fn are_separate(samples: Seq<ImuSample>) -> bool {
    &&& forall|i: int| 0 <= i < samples.len() ==> (#[trigger] samples[i]).timestamp_sec.finite()
    &&& forall|i: int, j: int|
        0 <= i < j < samples.len() ==> !(#[trigger] samples[j]).timestamp_sec.minus(
            (#[trigger] samples[i]).timestamp_sec,
        ).le(F64 { bits: TINY })
}

/// A prediction can be made in two parts: where a sample falls on the time `mid`, the steps up to
/// the end are those up to `mid` and those after it, none twice and none lost, and so is the
/// motion.
pub proof fn predictions_compose(
    samples: Seq<ImuSample>,
    start: F64,
    mid: F64,
    end: F64,
    k: int,
    m: Motion,
    deltas1: Seq<Quat>,
    deltas2: Seq<Quat>,
)
    requires
        are_separate(samples),
        start.finite(),
        mid.finite(),
        end.finite(),
        !mid.minus(start).le(F64 { bits: TINY }),
        mid.le(end),
        0 <= k < samples.len(),
        samples[k].timestamp_sec == mid,
        deltas1.len() == prediction_steps(samples, start, mid).len(),
        deltas2.len() == prediction_steps(samples, mid, end).len(),
    ensures
        ({
            let steps1 = prediction_steps(samples, start, mid);
            let steps2 = prediction_steps(samples, mid, end);
            &&& prediction_steps(samples, start, end) == steps1 + steps2
            &&& advanced_through(m, steps1 + steps2, deltas1 + deltas2) == advanced_through(
                advanced_through(m, steps1, deltas1),
                steps2,
                deltas2,
            )
        }),
{
    let head = samples.take(k + 1);
    let tail = samples.skip(k + 1);
    assert(samples =~= head + tail);
    assert forall|i: int, j: int| 0 <= i < j < samples.len() implies (#[trigger] samples[i]).timestamp_sec.lt(
        (#[trigger] samples[j]).timestamp_sec,
    ) by {
        lemma_later(samples[j].timestamp_sec, samples[i].timestamp_sec);
    }
    lemma_later(mid, start);
    let first = |s: ImuSample| in_window(s.timestamp_sec, start, mid, false);
    let second = |s: ImuSample| in_window(s.timestamp_sec, mid, end, false);
    let whole = |s: ImuSample| in_window(s.timestamp_sec, start, end, false);
    let none = |s: ImuSample| false;
    assert forall|i: int| 0 <= i < head.len() implies whole(#[trigger] head[i]) == first(head[i])
        && second(head[i]) == none(head[i]) by {
        assert(head[i] == samples[i]);
        lemma_window_below(samples[i].timestamp_sec, mid, end, i == k);
    }
    assert forall|i: int| 0 <= i < tail.len() implies whole(#[trigger] tail[i]) == second(tail[i])
        && first(tail[i]) == none(tail[i]) by {
        assert(tail[i] == samples[k + 1 + i]);
        let _ = samples[k];
        lemma_window_above(samples[k + 1 + i].timestamp_sec, start, mid);
    }
    lemma_filter_agree(head, whole, first);
    lemma_filter_agree(head, second, none);
    lemma_filter_agree(tail, whole, second);
    lemma_filter_agree(tail, first, none);
    lemma_filter_none(head);
    lemma_filter_none(tail);
    Seq::filter_distributes_over_add(head, tail, whole);
    Seq::filter_distributes_over_add(head, tail, first);
    Seq::filter_distributes_over_add(head, tail, second);
    let (a, b) = (head.filter(first), tail.filter(second));
    assert(window(samples, start, mid, false) =~= a);
    assert(window(samples, mid, end, false) =~= b);
    assert(window(samples, start, end, false) =~= a + b);
    // The sample at `mid` is the last of the first part and makes a step.
    assert(a.len() > 0 && a.last() == samples[k] && a.drop_last() == head.drop_last().filter(
        first,
    )) by {
        reveal(Seq::filter);
        assert(head.last() == samples[k]);
        reveal(F64::spec_lt);
        reveal(F64::spec_is_nan);
        assert(first(samples[k]));
        let front = head.drop_last().filter(first);
        assert(front.push(samples[k]).drop_last() =~= front);
    }
    let before = steps_through(a.drop_last(), start);
    assert(!mid.minus(last_time(before, start)).le(F64 { bits: TINY })) by {
        if before.len() > 0 {
            lemma_step_samples(a.drop_last(), start, before.len() - 1);
            let j = choose|j: int|
                0 <= j < a.drop_last().len() && a.drop_last()[j] == before.last().sample;
            head.drop_last().lemma_filter_contains_rev(first, a.drop_last()[j]);
            let i = choose|i: int|
                0 <= i < head.drop_last().len() && head.drop_last()[i] == a.drop_last()[j];
            assert(samples[i] == before.last().sample);
            let _ = samples[k];
        }
    }
    assert(last_time(steps_through(a, start), start) == mid);
    lemma_steps_append(a, b, start);
    lemma_advanced_append(
        m,
        prediction_steps(samples, start, mid),
        prediction_steps(samples, mid, end),
        deltas1,
        deltas2,
    );
}

/// A time up to `mid` is in the window up to `end` as it is in that up to `mid`, and not past
/// `mid`.
proof fn lemma_window_below(t: F64, mid: F64, end: F64, same: bool)
    requires
        t.finite(),
        mid.finite(),
        mid.le(end),
        same ==> t == mid,
        !same ==> t.lt(mid),
    ensures
        t.le(mid),
        t.le(end),
        !mid.lt(t),
{
    reveal(F64::spec_lt);
    reveal(F64::spec_is_nan);
}

/// A time past `mid` is past what comes before `mid`, and not up to `mid`.
proof fn lemma_window_above(t: F64, start: F64, mid: F64)
    requires
        mid.lt(t),
        start.lt(mid),
    ensures
        start.lt(t),
        !t.le(mid),
{
    reveal(F64::spec_lt);
    reveal(F64::spec_is_nan);
}

/// Filters that agree on all elements keep the same.
proof fn lemma_filter_agree<A>(s: Seq<A>, p: spec_fn(A) -> bool, q: spec_fn(A) -> bool)
    requires
        forall|i: int| 0 <= i < s.len() ==> p(#[trigger] s[i]) == q(s[i]),
    ensures
        s.filter(p) == s.filter(q),
    decreases s.len(),
{
    reveal(Seq::filter);
    if s.len() > 0 {
        assert forall|i: int| 0 <= i < s.drop_last().len() implies p(#[trigger] s.drop_last()[i])
            == q(s.drop_last()[i]) by {
            assert(s.drop_last()[i] == s[i]);
        }
        lemma_filter_agree(s.drop_last(), p, q);
        assert(p(s[s.len() - 1]) == q(s[s.len() - 1]));
    }
}

/// A filter that keeps nothing.
proof fn lemma_filter_none<A>(s: Seq<A>)
    ensures
        s.filter(|a: A| false) == Seq::<A>::empty(),
    decreases s.len(),
{
    reveal(Seq::filter);
    if s.len() > 0 {
        lemma_filter_none(s.drop_last());
    }
}

/// The sample of a step is one of the samples.
proof fn lemma_step_samples(samples: Seq<ImuSample>, start: F64, i: int)
    requires
        0 <= i < steps_through(samples, start).len(),
    ensures
        samples.contains(steps_through(samples, start)[i].sample),
    decreases samples.len(),
{
    if samples.len() > 0 {
        let front = samples.drop_last();
        let before = steps_through(front, start);
        if i < before.len() {
            lemma_step_samples(front, start, i);
            let j = choose|j: int| 0 <= j < front.len() && front[j] == before[i].sample;
            assert(samples[j] == before[i].sample);
        } else {
            assert(samples[samples.len() - 1] == steps_through(samples, start)[i].sample);
        }
    }
}

/// Steps through samples in two parts.
proof fn lemma_steps_append(a: Seq<ImuSample>, b: Seq<ImuSample>, start: F64)
    ensures
        ({
            let steps = steps_through(a, start);
            steps_through(a + b, start) == steps + steps_through(b, last_time(steps, start))
        }),
    decreases b.len(),
{
    let steps = steps_through(a, start);
    let mid = last_time(steps, start);
    if b.len() == 0 {
        assert(a + b =~= a);
        assert(steps + steps_through(b, mid) =~= steps);
    } else {
        lemma_steps_append(a, b.drop_last(), start);
        assert((a + b).drop_last() =~= a + b.drop_last());
        let rest = steps_through(b.drop_last(), mid);
        assert(last_time(steps + rest, start) == last_time(rest, mid)) by {
            if rest.len() > 0 {
                assert((steps + rest).last() == rest.last());
            } else {
                assert(steps + rest =~= steps);
            }
        }
        assert(steps_through(a + b, start) =~= steps + steps_through(b, mid));
    }
}

/// The motion through the first steps does not depend on the rotations of later ones.
proof fn lemma_advanced_prefix(m: Motion, steps: Seq<Step>, d: Seq<Quat>, e: Seq<Quat>)
    requires
        d.len() == steps.len(),
    ensures
        advanced_through(m, steps, d + e) == advanced_through(m, steps, d),
    decreases steps.len(),
{
    if steps.len() > 0 {
        let front = d.drop_last();
        lemma_advanced_prefix(m, steps.drop_last(), front, seq![d.last()] + e);
        assert(front + (seq![d.last()] + e) =~= d + e);
        lemma_advanced_prefix(m, steps.drop_last(), front, seq![d.last()]);
        assert(front + seq![d.last()] =~= d);
        assert((d + e)[steps.len() - 1] == d[steps.len() - 1]);
    }
}

/// The motion through steps in two parts.
proof fn lemma_advanced_append(
    m: Motion,
    s: Seq<Step>,
    t: Seq<Step>,
    d: Seq<Quat>,
    e: Seq<Quat>,
)
    requires
        d.len() == s.len(),
        e.len() == t.len(),
    ensures
        advanced_through(m, s + t, d + e) == advanced_through(advanced_through(m, s, d), t, e),
    decreases t.len(),
{
    if t.len() == 0 {
        assert(s + t =~= s);
        assert(d + e =~= d);
    } else {
        let front = e.drop_last();
        lemma_advanced_append(m, s, t.drop_last(), d, front);
        assert((s + t).drop_last() =~= s + t.drop_last());
        assert((s + t).last() == t.last());
        assert((d + e)[(s + t).len() - 1] == e[t.len() - 1]);
        let mid = advanced_through(m, s, d);
        lemma_advanced_prefix(m, s + t.drop_last(), d + front, seq![e.last()]);
        assert((d + front) + seq![e.last()] =~= d + e);
        lemma_advanced_prefix(mid, t.drop_last(), front, seq![e.last()]);
        assert(front + seq![e.last()] =~= e);
    }
}

/// The samples have the same times and the same rates of turn.
pub open spec fn turn_alike(a: Seq<ImuSample>, b: Seq<ImuSample>) -> bool {
    a.len() == b.len() && forall|i: int|
        0 <= i < a.len() ==> (#[trigger] a[i]).timestamp_sec == b[i].timestamp_sec && rate_of(a[i])
            == rate_of(b[i])
}

/// The predicted rotation depends on the times, the rates of turn and the rotation at the start
/// only: samples that differ in their accelerations ask for the same rotations, and lead to the
/// same one from any position and velocity. The last row of the predicted pose is that of a pose.
pub proof fn rotation_follows_the_rates(
    a: Seq<ImuSample>,
    b: Seq<ImuSample>,
    start: F64,
    end: F64,
    m: Motion,
    n: Motion,
    deltas: Seq<Quat>,
)
    requires
        turn_alike(a, b),
        m.rotation == n.rotation,
    ensures
        ({
            let (s, t) = (prediction_steps(a, start, end), prediction_steps(b, start, end));
            let (p, q) = (advanced_through(m, s, deltas), advanced_through(n, t, deltas));
            &&& s.map_values(|x: Step| turn_of(x)) == t.map_values(|x: Step| turn_of(x))
            &&& p.rotation == q.rotation
            &&& Mat4::assembled(p.rotation.to_matrix(), p.position).r3 == Mat4::pose_row()
        }),
{
    lemma_window_alike(a, b, start, end);
    let (wa, wb) = (window(a, start, end, false), window(b, start, end, false));
    lemma_steps_alike(wa, wb, start);
    let (s, t) = (steps_through(wa, start), steps_through(wb, start));
    assert(s.map_values(|x: Step| turn_of(x)) =~= t.map_values(|x: Step| turn_of(x)));
    lemma_rotation_alike(m, n, s, t, deltas);
}

proof fn lemma_window_alike(a: Seq<ImuSample>, b: Seq<ImuSample>, lo: F64, hi: F64)
    requires
        turn_alike(a, b),
    ensures
        turn_alike(window(a, lo, hi, false), window(b, lo, hi, false)),
    decreases a.len(),
{
    reveal(Seq::filter);
    if a.len() > 0 {
        let (fa, fb) = (a.drop_last(), b.drop_last());
        assert forall|i: int| 0 <= i < fa.len() implies (#[trigger] fa[i]).timestamp_sec
            == fb[i].timestamp_sec && rate_of(fa[i]) == rate_of(fb[i]) by {
            assert(fa[i] == a[i] && fb[i] == b[i]);
        }
        lemma_window_alike(fa, fb, lo, hi);
        assert(a[a.len() - 1].timestamp_sec == b[b.len() - 1].timestamp_sec);
    }
}

proof fn lemma_steps_alike(a: Seq<ImuSample>, b: Seq<ImuSample>, start: F64)
    requires
        turn_alike(a, b),
    ensures
        ({
            let (s, t) = (steps_through(a, start), steps_through(b, start));
            &&& s.len() == t.len()
            &&& last_time(s, start) == last_time(t, start)
            &&& forall|i: int|
                0 <= i < s.len() ==> (#[trigger] s[i]).dt == t[i].dt && rate_of(s[i].sample)
                    == rate_of(t[i].sample)
        }),
    decreases a.len(),
{
    if a.len() > 0 {
        let (fa, fb) = (a.drop_last(), b.drop_last());
        assert forall|i: int| 0 <= i < fa.len() implies (#[trigger] fa[i]).timestamp_sec
            == fb[i].timestamp_sec && rate_of(fa[i]) == rate_of(fb[i]) by {
            assert(fa[i] == a[i] && fb[i] == b[i]);
        }
        lemma_steps_alike(fa, fb, start);
        assert(a[a.len() - 1].timestamp_sec == b[b.len() - 1].timestamp_sec);
    }
}

proof fn lemma_rotation_alike(
    m: Motion,
    n: Motion,
    s: Seq<Step>,
    t: Seq<Step>,
    deltas: Seq<Quat>,
)
    requires
        m.rotation == n.rotation,
        s.len() == t.len(),
    ensures
        advanced_through(m, s, deltas).rotation == advanced_through(n, t, deltas).rotation,
    decreases s.len(),
{
    if s.len() > 0 {
        lemma_rotation_alike(m, n, s.drop_last(), t.drop_last(), deltas);
    }
}

/// The steps of a trajectory: through the samples from a little before `start_time` to a little
/// after `end_time`.
pub open spec fn trajectory_steps(
    samples: Seq<ImuSample>,
    start_time: F64,
    end_time: F64,
) -> Seq<Step> {
    let lo = start_time.minus(F64 { bits: BUFFER_TIME });
    let hi = end_time.plus(F64 { bits: BUFFER_TIME });
    steps_through(window(samples, lo, hi, true), lo)
}

/// The rotations that a trajectory needs, one for each step, as axes scaled by angles.
pub fn trajectory_turns(samples: &Vec<ImuSample>, start_time: F64, end_time: F64) -> (turns: Vec<
    V3,
>)
    ensures
        turns@ == trajectory_steps(samples@, start_time, end_time).map_values(
            |s: Step| rate_of(s.sample).scaled(s.dt),
        ),
{
    let lo: F64 = start_time.minus(F64 { bits: BUFFER_TIME });
    let hi: F64 = end_time.plus(F64 { bits: BUFFER_TIME });
    let steps: Vec<Step> = collect_steps(samples, lo, hi, true);
    let mut turns: Vec<V3> = Vec::new();
    let mut i: usize = 0;
    while i < steps.len()
        invariant
            i <= steps.len(),
            turns.len() == i,
            forall|k: int|
                0 <= k < i ==> #[trigger] turns[k] == rate_of(steps[k].sample).scaled(steps[k].dt),
        decreases steps.len() - i,
    {
        let step: Step = steps[i];
        turns.push(rate_of(step.sample).scaled(step.dt));
        i = i + 1;
    }
    assert(turns@ =~= steps@.map_values(|s: Step| rate_of(s.sample).scaled(s.dt)));
    turns
}

/// The orientations at the start and after each step, the first being none.
pub open spec fn trajectory_through(start: F64, steps: Seq<Step>, deltas: Seq<Quat>) -> Seq<
    TrajectoryPoint,
>
    decreases steps.len(),
{
    if steps.len() == 0 {
        seq![TrajectoryPoint { time: start, rotation: Quat::identity() }]
    } else {
        let before = trajectory_through(start, steps.drop_last(), deltas);
        before.push(
            TrajectoryPoint {
                time: steps.last().sample.timestamp_sec,
                rotation: before.last().rotation.times(deltas[steps.len() - 1]).normalized(),
            },
        )
    }
}

/// A trajectory has one point more than it has steps.
pub proof fn trajectory_length(start: F64, steps: Seq<Step>, deltas: Seq<Quat>)
    ensures
        trajectory_through(start, steps, deltas).len() == steps.len() + 1,
    decreases steps.len(),
{
    if steps.len() > 0 {
        trajectory_length(start, steps.drop_last(), deltas);
    }
}

/// The times of a trajectory ascend where those of its steps do and come after the start.
pub proof fn trajectory_times_ascend(
    samples: Seq<ImuSample>,
    start: F64,
    deltas: Seq<Quat>,
    i: int,
    j: int,
)
    requires
        start.finite(),
        forall|k: int| 0 <= k < samples.len() ==> (#[trigger] samples[k]).timestamp_sec.finite(),
        0 <= i < j <= steps_through(samples, start).len(),
    ensures
        ({
            let trajectory = trajectory_through(start, steps_through(samples, start), deltas);
            trajectory[i].time.lt(trajectory[j].time)
        }),
{
    let steps = steps_through(samples, start);
    steps_move_forward(samples, start);
    lemma_trajectory_times(start, steps, deltas, i);
    lemma_trajectory_times(start, steps, deltas, j);
    let _ = steps[j - 1];
    if i > 0 {
        let _ = steps[i - 1];
    }
}

/// The time of a point of a trajectory.
proof fn lemma_trajectory_times(start: F64, steps: Seq<Step>, deltas: Seq<Quat>, i: int)
    requires
        0 <= i <= steps.len(),
    ensures
        trajectory_through(start, steps, deltas)[i].time == if i == 0 {
            start
        } else {
            steps[i - 1].sample.timestamp_sec
        },
    decreases steps.len(),
{
    trajectory_length(start, steps, deltas);
    if steps.len() > 0 {
        trajectory_length(start, steps.drop_last(), deltas);
        if i < steps.len() {
            lemma_trajectory_times(start, steps.drop_last(), deltas, i);
        }
    }
}

/// The orientations during a frame, relative to its start. `deltas` are the rotations that
/// `trajectory_turns` asks for.
pub fn build_rotation_trajectory(
    imu_samples: &Vec<ImuSample>,
    start_time: F64,
    end_time: F64,
    deltas: &Vec<Quat>,
) -> (trajectory: Vec<TrajectoryPoint>)
    requires
        deltas.len() == trajectory_steps(imu_samples@, start_time, end_time).len(),
    ensures
        trajectory@ == trajectory_through(
            start_time.minus(F64 { bits: BUFFER_TIME }),
            trajectory_steps(imu_samples@, start_time, end_time),
            deltas@,
        ),
        trajectory.len() == deltas.len() + 1,
        trajectory[0] == (TrajectoryPoint {
            time: start_time.minus(F64 { bits: BUFFER_TIME }),
            rotation: Quat::identity(),
        }),
        forall|i: int|
            #![trigger deltas[i]]
            0 <= i < deltas.len() ==> trajectory[i + 1] == (TrajectoryPoint {
                time: trajectory_steps(
                    imu_samples@,
                    start_time,
                    end_time,
                )[i].sample.timestamp_sec,
                rotation: trajectory[i].rotation.times(deltas[i]).normalized(),
            }),
{
    let lo: F64 = start_time.minus(F64 { bits: BUFFER_TIME });
    let hi: F64 = end_time.plus(F64 { bits: BUFFER_TIME });
    let steps: Vec<Step> = collect_steps(imu_samples, lo, hi, true);
    let mut trajectory: Vec<TrajectoryPoint> = Vec::new();
    let mut current: Quat = Quat::identity();
    trajectory.push(TrajectoryPoint { time: lo, rotation: current });
    let mut i: usize = 0;
    assert(trajectory@ =~= trajectory_through(lo, steps@.take(0), deltas@));
    while i < steps.len()
        invariant
            i <= steps.len(),
            deltas.len() == steps.len(),
            trajectory@ == trajectory_through(lo, steps@.take(i as int), deltas@),
            trajectory.len() == i + 1,
            current == trajectory@.last().rotation,
        decreases steps.len() - i,
    {
        current = current.times(deltas[i]).normalized();
        trajectory.push(
            TrajectoryPoint { time: steps[i].sample.timestamp_sec, rotation: current },
        );
        i = i + 1;
        assert(steps@.take(i as int).drop_last() =~= steps@.take(i - 1));
    }
    assert(steps@.take(i as int) =~= steps@);
    proof {
        assert forall|k: int|
            #![trigger deltas@[k]]
            0 <= k < deltas.len() implies trajectory@[k + 1] == (TrajectoryPoint {
            time: steps@[k].sample.timestamp_sec,
            rotation: trajectory@[k].rotation.times(deltas@[k]).normalized(),
        }) by {
            reckoning::trajectories_follow_the_rotations(lo, steps@, deltas@, k);
        }
        if deltas.len() > 0 {
            reckoning::trajectories_follow_the_rotations(lo, steps@, deltas@, 0);
        }
    }
    trajectory
}

} // verus!
