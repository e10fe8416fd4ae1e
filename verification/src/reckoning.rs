//! Dead reckoning adds up every sample.

use vstd::prelude::*;

use crate::float::accuracy;
use crate::float::accuracy::{eps64, near64, real64, size};
use crate::float::double::F64;
use crate::float::sums;
use crate::geometry::{Quat, V3};
use crate::load_files::ImuSample;
use crate::pose::TINY;
use crate::predict_pose_imu::{
    acceleration_of, advanced, advanced_through, in_window, prediction_steps, steps_through,
    trajectory_length, trajectory_steps, trajectory_through, Motion, Step, TrajectoryPoint,
    BUFFER_TIME, GRAVITY, HALF,
};

verus! {

/// One more sample makes one more step, by the time since the step before or the start, where that
/// is more than the smallest interval, and none where it is not. The steps before it stay as they are.
pub proof fn samples_that_lead_on_make_steps(samples: Seq<ImuSample>, sample: ImuSample, start: F64)
    ensures
        steps_through(Seq::empty(), start) == Seq::<Step>::empty(),
        ({
            let steps = steps_through(samples, start);
            let last = if steps.len() == 0 {
                start
            } else {
                steps.last().sample.timestamp_sec
            };
            let dt = sample.timestamp_sec.minus(last);
            steps_through(samples.push(sample), start) == if dt.le(F64 { bits: TINY }) {
                steps
            } else {
                steps.push(Step { sample, dt })
            }
        }),
{
    assert(samples.push(sample).drop_last() =~= samples);
}

/// No sample is passed over that leads on: where each is more than the smallest interval past the
/// one before it, and the first past the start, there is a step for every sample, in their order,
/// each by the time since the one before.
pub proof fn every_separate_sample_makes_a_step(samples: Seq<ImuSample>, start: F64)
    requires
        forall|i: int|
            0 <= i < samples.len() ==> !(#[trigger] samples[i]).timestamp_sec.minus(
                if i == 0 {
                    start
                } else {
                    samples[i - 1].timestamp_sec
                },
            ).le(F64 { bits: TINY }),
    ensures
        steps_through(samples, start).len() == samples.len(),
        forall|i: int|
            0 <= i < samples.len() ==> #[trigger] steps_through(samples, start)[i] == (Step {
                sample: samples[i],
                dt: samples[i].timestamp_sec.minus(
                    if i == 0 {
                        start
                    } else {
                        samples[i - 1].timestamp_sec
                    },
                ),
            }),
    decreases samples.len(),
{
    if samples.len() > 0 {
        let front = samples.drop_last();
        assert forall|i: int| 0 <= i < front.len() implies !(#[trigger] front[i]).timestamp_sec.minus(
            if i == 0 {
                start
            } else {
                front[i - 1].timestamp_sec
            },
        ).le(F64 { bits: TINY }) by {
            assert(front[i] == samples[i]);
        }
        every_separate_sample_makes_a_step(front, start);
        let _ = samples[samples.len() - 1];
        if front.len() > 0 {
            assert(steps_through(front, start)[front.len() - 1].sample == front[front.len() - 1]);
        }
    }
}

/// A prediction goes through every sample after its start and up to its end, and a trajectory
/// through every one from a little before its start to a little after its end.
pub proof fn windows_hold_every_sample(samples: Seq<ImuSample>, start: F64, end: F64)
    ensures
        prediction_steps(samples, start, end) == steps_through(
            samples.filter(
                |s: ImuSample| start.lt(s.timestamp_sec) && s.timestamp_sec.le(end),
            ),
            start,
        ),
        ({
            let lo = start.minus(F64 { bits: BUFFER_TIME });
            let hi = end.plus(F64 { bits: BUFFER_TIME });
            trajectory_steps(samples, start, end) == steps_through(
                samples.filter(|s: ImuSample| lo.le(s.timestamp_sec) && s.timestamp_sec.le(hi)),
                lo,
            )
        }),
{
    let lo = start.minus(F64 { bits: BUFFER_TIME });
    let hi = end.plus(F64 { bits: BUFFER_TIME });
    let after = |s: ImuSample| start.lt(s.timestamp_sec) && s.timestamp_sec.le(end);
    let around = |s: ImuSample| lo.le(s.timestamp_sec) && s.timestamp_sec.le(hi);
    assert(after =~= |s: ImuSample| in_window(s.timestamp_sec, start, end, false));
    assert(around =~= |s: ImuSample| in_window(s.timestamp_sec, lo, hi, true));
}

/// A trajectory starts with no rotation, and has after each step the orientation before it followed
/// by the rotation of that step, at the time of its sample.
pub proof fn trajectories_follow_the_rotations(
    start: F64,
    steps: Seq<Step>,
    deltas: Seq<Quat>,
    i: int,
)
    requires
        0 <= i < steps.len(),
    ensures
        ({
            let trajectory = trajectory_through(start, steps, deltas);
            &&& trajectory.len() == steps.len() + 1
            &&& trajectory[0] == (TrajectoryPoint { time: start, rotation: Quat::identity() })
            &&& trajectory[i + 1] == (TrajectoryPoint {
                time: steps[i].sample.timestamp_sec,
                rotation: trajectory[i].rotation.times(deltas[i]).normalized(),
            })
        }),
    decreases steps.len(),
{
    let front = steps.drop_last();
    trajectory_length(start, front, deltas);
    if i < front.len() {
        trajectories_follow_the_rotations(start, front, deltas, i);
    } else if front.len() > 0 {
        trajectories_follow_the_rotations(start, front, deltas, 0);
    }
}

/// The motion through all steps is that of one step after the other, from the first to the last: no
/// step is left out, whatever its sample holds and however many there are.
pub proof fn every_step_is_taken(m: Motion, steps: Seq<Step>, deltas: Seq<Quat>)
    ensures
        advanced_through(m, steps, deltas) == Seq::new(steps.len(), |i: int| i).fold_left(
            m,
            |m: Motion, i: int| advanced(m, steps[i], deltas[i]),
        ),
{
    lemma_taken(m, steps, deltas, steps.len() as int);
    assert(steps.take(steps.len() as int) =~= steps);
}

/// The motion through the first steps.
proof fn lemma_taken(m: Motion, steps: Seq<Step>, deltas: Seq<Quat>, n: int)
    requires
        0 <= n <= steps.len(),
    ensures
        advanced_through(m, steps.take(n), deltas) == Seq::new(n as nat, |i: int| i).fold_left(
            m,
            |m: Motion, i: int| advanced(m, steps[i], deltas[i]),
        ),
    decreases n,
{
    if n > 0 {
        lemma_taken(m, steps, deltas, n - 1);
        assert(steps.take(n).drop_last() =~= steps.take(n - 1));
        assert(Seq::new(n as nat, |i: int| i).drop_last() =~= Seq::new((n - 1) as nat, |i: int| i));
    }
}

/// After each step the velocity is the one before it plus the acceleration, turned by the new
/// orientation and freed of gravity, over the time of the step, and the position is the one before it
/// plus what the two make in that time, whatever the acceleration is.
pub proof fn steps_integrate_the_acceleration(
    m: Motion,
    steps: Seq<Step>,
    deltas: Seq<Quat>,
    i: int,
)
    requires
        0 <= i < steps.len(),
    ensures
        ({
            let (before, after) = (
                advanced_through(m, steps.take(i), deltas),
                advanced_through(m, steps.take(i + 1), deltas),
            );
            let (a, dt) = (acceleration_of(steps[i].sample), steps[i].dt);
            let turned = after.rotation.rotate(a);
            let net = V3::new(
                turned.x.minus(F64 { bits: 0 }),
                turned.y.minus(F64 { bits: 0 }),
                turned.z.minus(F64 { bits: GRAVITY }),
            );
            let half = F64 { bits: HALF };
            &&& after.rotation == before.rotation.times(deltas[i]).normalized()
            &&& after.velocity.x == before.velocity.x.plus(net.x.times(dt))
            &&& after.velocity.y == before.velocity.y.plus(net.y.times(dt))
            &&& after.velocity.z == before.velocity.z.plus(net.z.times(dt))
            &&& after.position.x == before.position.x.plus(
                before.velocity.x.times(dt).plus(net.x.times(half).times(dt).times(dt)),
            )
            &&& after.position.y == before.position.y.plus(
                before.velocity.y.times(dt).plus(net.y.times(half).times(dt).times(dt)),
            )
            &&& after.position.z == before.position.z.plus(
                before.velocity.z.times(dt).plus(net.z.times(half).times(dt).times(dt)),
            )
        }),
{
    assert(steps.take(i + 1).drop_last() =~= steps.take(i));
    assert(steps.take(i + 1).last() == steps[i]);
}

/// What a step adds to a coordinate of the velocity: the acceleration freed of gravity, in the
/// orientation after the step, over the time of the step.
spec fn gains(m: Motion, steps: Seq<Step>, deltas: Seq<Quat>) -> Seq<V3> {
    Seq::new(
        steps.len(),
        |i: int|
            advanced_through(m, steps.take(i + 1), deltas).rotation.rotate(
                acceleration_of(steps[i].sample),
            ).minus(V3::new(F64 { bits: 0 }, F64 { bits: 0 }, F64 { bits: GRAVITY })).scaled(
                steps[i].dt,
            ),
    )
}

/// The velocity is a running sum of the gains.
proof fn lemma_velocity_runs(m: Motion, steps: Seq<Step>, deltas: Seq<Quat>, n: int)
    requires
        0 <= n <= steps.len(),
    ensures
        ({
            let v = advanced_through(m, steps.take(n), deltas).velocity;
            let g = gains(m, steps, deltas).take(n);
            &&& v.x == sums::running64(m.velocity.x, g.map_values(|v: V3| v.x))
            &&& v.y == sums::running64(m.velocity.y, g.map_values(|v: V3| v.y))
            &&& v.z == sums::running64(m.velocity.z, g.map_values(|v: V3| v.z))
        }),
    decreases n,
{
    let all = gains(m, steps, deltas);
    let g = all.take(n);
    if n > 0 {
        lemma_velocity_runs(m, steps, deltas, n - 1);
        let less = all.take(n - 1);
        assert(steps.take(n).drop_last() =~= steps.take(n - 1));
        assert(steps.take(n).last() == steps[n - 1]);
        assert(g.map_values(|v: V3| v.x).drop_last() =~= less.map_values(|v: V3| v.x));
        assert(g.map_values(|v: V3| v.y).drop_last() =~= less.map_values(|v: V3| v.y));
        assert(g.map_values(|v: V3| v.z).drop_last() =~= less.map_values(|v: V3| v.z));
        assert(all[n - 1] == advanced_through(m, steps.take(n - 1 + 1), deltas).rotation.rotate(
            acceleration_of(steps[n - 1].sample),
        ).minus(V3::new(F64 { bits: 0 }, F64 { bits: 0 }, F64 { bits: GRAVITY })).scaled(
            steps[n - 1].dt,
        ));
    } else {
        assert(g.map_values(|v: V3| v.x) =~= Seq::<F64>::empty());
        assert(g.map_values(|v: V3| v.y) =~= Seq::<F64>::empty());
        assert(g.map_values(|v: V3| v.z) =~= Seq::<F64>::empty());
    }
}

/// The sums over the steps are those of the gains.
proof fn lemma_gain_folds(m: Motion, steps: Seq<Step>, deltas: Seq<Quat>, n: int)
    requires
        0 <= n <= steps.len(),
    ensures
        ({
            let g = gains(m, steps, deltas).take(n);
            let (zero, all) = (0 as real, Seq::new(n as nat, |i: int| i));
            &&& sums::total64(g.map_values(|v: V3| v.x)) == all.fold_left(
                zero,
                |t: real, i: int|
                    t + real64(
                        advanced_through(m, steps.take(i + 1), deltas).rotation.rotate(
                            acceleration_of(steps[i].sample),
                        ).x.minus(F64 { bits: 0 }).times(steps[i].dt),
                    ),
            )
            &&& sums::size64(g.map_values(|v: V3| v.x)) == all.fold_left(
                zero,
                |t: real, i: int|
                    t + size(
                        real64(
                            advanced_through(m, steps.take(i + 1), deltas).rotation.rotate(
                                acceleration_of(steps[i].sample),
                            ).x.minus(F64 { bits: 0 }).times(steps[i].dt),
                        ),
                    ),
            )
            &&& sums::total64(g.map_values(|v: V3| v.y)) == all.fold_left(
                zero,
                |t: real, i: int|
                    t + real64(
                        advanced_through(m, steps.take(i + 1), deltas).rotation.rotate(
                            acceleration_of(steps[i].sample),
                        ).y.minus(F64 { bits: 0 }).times(steps[i].dt),
                    ),
            )
            &&& sums::size64(g.map_values(|v: V3| v.y)) == all.fold_left(
                zero,
                |t: real, i: int|
                    t + size(
                        real64(
                            advanced_through(m, steps.take(i + 1), deltas).rotation.rotate(
                                acceleration_of(steps[i].sample),
                            ).y.minus(F64 { bits: 0 }).times(steps[i].dt),
                        ),
                    ),
            )
            &&& sums::total64(g.map_values(|v: V3| v.z)) == all.fold_left(
                zero,
                |t: real, i: int|
                    t + real64(
                        advanced_through(m, steps.take(i + 1), deltas).rotation.rotate(
                            acceleration_of(steps[i].sample),
                        ).z.minus(F64 { bits: GRAVITY }).times(steps[i].dt),
                    ),
            )
            &&& sums::size64(g.map_values(|v: V3| v.z)) == all.fold_left(
                zero,
                |t: real, i: int|
                    t + size(
                        real64(
                            advanced_through(m, steps.take(i + 1), deltas).rotation.rotate(
                                acceleration_of(steps[i].sample),
                            ).z.minus(F64 { bits: GRAVITY }).times(steps[i].dt),
                        ),
                    ),
            )
        }),
    decreases n,
{
    let all = gains(m, steps, deltas);
    let g = all.take(n);
    if n > 0 {
        lemma_gain_folds(m, steps, deltas, n - 1);
        let less = all.take(n - 1);
        assert(Seq::new(n as nat, |i: int| i).drop_last() =~= Seq::new((n - 1) as nat, |i: int| i));
        assert(g.map_values(|v: V3| v.x).drop_last() =~= less.map_values(|v: V3| v.x));
        assert(g.map_values(|v: V3| v.y).drop_last() =~= less.map_values(|v: V3| v.y));
        assert(g.map_values(|v: V3| v.z).drop_last() =~= less.map_values(|v: V3| v.z));
    } else {
        assert(g.map_values(|v: V3| v.x) =~= Seq::<F64>::empty());
        assert(g.map_values(|v: V3| v.y) =~= Seq::<F64>::empty());
        assert(g.map_values(|v: V3| v.z) =~= Seq::<F64>::empty());
    }
}

/// The velocity after all steps is the one at the start plus the accelerations of every step, turned,
/// freed of gravity and each over the time of its step, up to rounding: it differs from the exact sum
/// by at most two roundings of the sizes for each step, where nothing overflows.
pub proof fn velocity_adds_up_all_accelerations(m: Motion, steps: Seq<Step>, deltas: Seq<Quat>)
    requires
        steps.len() <= 100_000_000_000_000,
        ({
            let end = advanced_through(m, steps, deltas).velocity;
            end.x.finite() && end.y.finite() && end.z.finite()
        }),
    ensures
        ({
            let end = advanced_through(m, steps, deltas).velocity;
            let (zero, all) = (0 as real, Seq::new(steps.len(), |i: int| i));
            let roundings = 2 as real * ((steps.len() as int as real) * eps64());
            &&& near64(
                end.x,
                real64(m.velocity.x) + all.fold_left(
                    zero,
                    |t: real, i: int|
                        t + real64(
                            advanced_through(m, steps.take(i + 1), deltas).rotation.rotate(
                                acceleration_of(steps[i].sample),
                            ).x.minus(F64 { bits: 0 }).times(steps[i].dt),
                        ),
                ),
                roundings * (size(real64(m.velocity.x)) + all.fold_left(
                    zero,
                    |t: real, i: int|
                        t + size(
                            real64(
                                advanced_through(m, steps.take(i + 1), deltas).rotation.rotate(
                                    acceleration_of(steps[i].sample),
                                ).x.minus(F64 { bits: 0 }).times(steps[i].dt),
                            ),
                        ),
                )),
            )
            &&& near64(
                end.y,
                real64(m.velocity.y) + all.fold_left(
                    zero,
                    |t: real, i: int|
                        t + real64(
                            advanced_through(m, steps.take(i + 1), deltas).rotation.rotate(
                                acceleration_of(steps[i].sample),
                            ).y.minus(F64 { bits: 0 }).times(steps[i].dt),
                        ),
                ),
                roundings * (size(real64(m.velocity.y)) + all.fold_left(
                    zero,
                    |t: real, i: int|
                        t + size(
                            real64(
                                advanced_through(m, steps.take(i + 1), deltas).rotation.rotate(
                                    acceleration_of(steps[i].sample),
                                ).y.minus(F64 { bits: 0 }).times(steps[i].dt),
                            ),
                        ),
                )),
            )
            &&& near64(
                end.z,
                real64(m.velocity.z) + all.fold_left(
                    zero,
                    |t: real, i: int|
                        t + real64(
                            advanced_through(m, steps.take(i + 1), deltas).rotation.rotate(
                                acceleration_of(steps[i].sample),
                            ).z.minus(F64 { bits: GRAVITY }).times(steps[i].dt),
                        ),
                ),
                roundings * (size(real64(m.velocity.z)) + all.fold_left(
                    zero,
                    |t: real, i: int|
                        t + size(
                            real64(
                                advanced_through(m, steps.take(i + 1), deltas).rotation.rotate(
                                    acceleration_of(steps[i].sample),
                                ).z.minus(F64 { bits: GRAVITY }).times(steps[i].dt),
                            ),
                        ),
                )),
            )
        }),
{
    let n = steps.len() as int;
    assert(steps.take(n) =~= steps);
    lemma_velocity_runs(m, steps, deltas, n);
    lemma_gain_folds(m, steps, deltas, n);
    let (k, e) = (n as real, eps64());
    accuracy::lemma_eps64();
    assert(2 as real * (k * e) <= 1 as real) by (nonlinear_arith)
        requires
            e * 1_000_000_000_000_000int as real == 1 as real,
            k <= 100_000_000_000_000int as real,
    ;
    let g = gains(m, steps, deltas).take(n);
    sums::running_sums_are_near64(m.velocity.x, g.map_values(|v: V3| v.x));
    sums::running_sums_are_near64(m.velocity.y, g.map_values(|v: V3| v.y));
    sums::running_sums_are_near64(m.velocity.z, g.map_values(|v: V3| v.z));
}

} // verus!
