//! The state that is carried from frame to frame: the pose, the maps and the logs.

use std::collections::VecDeque;

use vstd::prelude::*;

use crate::cloud;
use crate::cloud::{append_rows, copy_rows, PointXYZT, P3};
use crate::float::double::F64;
use crate::float::single::F32;
use crate::geometry::{Quat, V3};
use crate::load_files::NANOS_PER_SECOND;
use crate::pose;
use crate::pose::{extract_pose_from_matrix, transform_points, Mat4, PoseData, ONE_SINGLE};
use crate::registration::RmseStats;

verus! {

/// The bit pattern of 0.7, the distance below which a point is dropped.
pub const MIN_DIST: u32 = 0x3f33_3333;

/// The bit pattern of 35, the distance above which a point is dropped.
pub const MAX_DIST: u32 = 0x420c_0000;

/// The bit pattern of 0.5, the edge of a voxel in an alignment.
pub const VOXEL_SIZE: u32 = 0x3f00_0000;

/// The bit pattern of 0.1, the edge of a voxel of the saved map.
pub const MAP_VOXEL_SIZE: u32 = 0x3dcc_cccd;

/// The number of clouds that the local map keeps.
pub const LOCAL_MAP_SIZE: usize = 30;

/// Every how many frames the local map gets a cloud.
pub const LOCAL_MAP_STRIDE: usize = 3;

/// Every how many frames the global map gets a cloud.
pub const GLOBAL_MAP_STRIDE: usize = 6;

/// The bit pattern of 1e-6, the seconds below which no velocity is computed.
pub const MIN_INTERVAL: u64 = 0x3eb0_c6f7_a0b5_ed8d;

/// The bit pattern of 2, the largest speed in meters per second.
pub const MAX_SPEED: u64 = 0x4000_0000_0000_0000;

/// The largest time that can be summed up, in nanoseconds.
pub const MAX_NANOS: u128 = 18_446_744_073_709_551_615_999_999_999;

/// Why the local map cannot be flattened.
#[derive(Clone, Copy, PartialEq, Eq, Structural, Debug)]
pub enum MapError {
    /// There is no cloud in the map.
    Empty,
}

/// A cloud of the local map, in global coordinates.
#[derive(Debug)]
pub struct FrameData {
    pub points: Vec<P3>,
}

/// The coordinates of the clouds of a map.
pub open spec fn clouds(frames: Seq<FrameData>) -> Seq<Seq<P3>> {
    frames.map_values(|f: FrameData| f.points@)
}

/// The map after one more cloud: the oldest one makes room where the map is full.
pub open spec fn with_latest<A>(map: Seq<A>, cloud: A) -> Seq<A> {
    if map.len() >= LOCAL_MAP_SIZE {
        map.drop_first().push(cloud)
    } else {
        map.push(cloud)
    }
}

/// The map after all the clouds have come in, from an empty one.
pub open spec fn map_after<A>(history: Seq<A>) -> Seq<A>
    decreases history.len(),
{
    if history.len() == 0 {
        Seq::empty()
    } else {
        with_latest(map_after(history.drop_last()), history.last())
    }
}

/// The local map holds the latest clouds, oldest first, and never more than its size.
pub proof fn map_holds_the_latest<A>(history: Seq<A>)
    ensures
        map_after(history).len() <= LOCAL_MAP_SIZE,
        map_after(history) == if history.len() <= LOCAL_MAP_SIZE {
            history
        } else {
            history.skip(history.len() - LOCAL_MAP_SIZE)
        },
    decreases history.len(),
{
    if history.len() > 0 {
        map_holds_the_latest(history.drop_last());
        if history.len() <= LOCAL_MAP_SIZE {
            assert(map_after(history) =~= history);
        } else {
            assert(map_after(history) =~= history.skip(history.len() - LOCAL_MAP_SIZE));
        }
    } else {
        assert(map_after(history) =~= history);
    }
}

/// A cloud that comes in is the last of the map, and the others stay in their order: all of them where
/// there is room, else all but the oldest.
pub proof fn clouds_come_in_last<A>(map: Seq<A>, cloud: A)
    requires
        map.len() <= LOCAL_MAP_SIZE,
    ensures
        ({
            let after = with_latest(map, cloud);
            let gone = map.len() + 1 - after.len();
            &&& after.len() <= LOCAL_MAP_SIZE
            &&& after.last() == cloud
            &&& gone == 0 || (gone == 1 && map.len() == LOCAL_MAP_SIZE)
            &&& forall|k: int| 0 <= k < after.len() - 1 ==> #[trigger] after[k] == map[k + gone]
        }),
{
}

/// The rows of all clouds of the map, oldest cloud first.
pub fn flatten_local_map(queue: &VecDeque<FrameData>) -> (r: Result<Vec<P3>, MapError>)
    ensures
        queue@.len() == 0 ==> r == Err::<Vec<P3>, MapError>(MapError::Empty),
        queue@.len() > 0 ==> (r matches Ok(rows) && rows@ == cloud::stacked(clouds(queue@)) && rows@
            == queue@.map_values(|f: FrameData| f.points@).flatten()),
{
    if queue.len() == 0 {
        return Err(MapError::Empty);
    }
    let ghost all = clouds(queue@);
    let mut rows: Vec<P3> = Vec::new();
    let mut i: usize = 0;
    while i < queue.len()
        invariant
            i <= queue@.len(),
            all == clouds(queue@),
            rows@ == cloud::stacked(all.take(i as int)),
        decreases queue@.len() - i,
    {
        append_rows(&mut rows, &queue[i].points);
        i = i + 1;
        assert(all.take(i as int).drop_last() =~= all.take(i - 1));
    }
    proof {
        assert(all.take(i as int) =~= all);
        assert(all =~= queue@.map_values(|f: FrameData| f.points@));
        cloud::stacking_leaves_nothing_out(all);
    }
    Ok(rows)
}

/// The smaller of two times; a time beats a not-a-number.
#[verifier::allow_in_spec]
pub fn earlier(a: F64, b: F64) -> F64
    returns
        (if a.is_nan() || b.lt(a) {
            b
        } else {
            a
        }),
{
    if a.is_nan() || b.lt(a) {
        b
    } else {
        a
    }
}

/// The larger of two times; a time beats a not-a-number.
#[verifier::allow_in_spec]
pub fn later(a: F64, b: F64) -> F64
    returns
        (if a.is_nan() || a.lt(b) {
            b
        } else {
            a
        }),
{
    if a.is_nan() || a.lt(b) {
        b
    } else {
        a
    }
}

/// The bit pattern of infinity.
pub const INFINITY: u64 = 0x7ff0_0000_0000_0000;

/// The bit pattern of minus infinity.
pub const NEG_INFINITY: u64 = 0xfff0_0000_0000_0000;

/// The earliest time among the points; infinity where there is none.
pub open spec fn earliest(points: Seq<PointXYZT>) -> F64
    decreases points.len(),
{
    if points.len() == 0 {
        F64 { bits: INFINITY }
    } else {
        earlier(earliest(points.drop_last()), points.last().timestamp)
    }
}

/// The latest time among the points; minus infinity where there is none.
pub open spec fn latest(points: Seq<PointXYZT>) -> F64
    decreases points.len(),
{
    if points.len() == 0 {
        F64 { bits: NEG_INFINITY }
    } else {
        later(latest(points.drop_last()), points.last().timestamp)
    }
}

/// The earliest and the latest time among the points of a frame.
pub fn frame_span(points: &Vec<PointXYZT>) -> (span: (F64, F64))
    ensures
        span == (earliest(points@), latest(points@)),
        forall|i: int|
            0 <= i < points.len() && !(#[trigger] points[i]).timestamp.is_nan() ==> span.0.le(
                points[i].timestamp,
            ) && points[i].timestamp.le(span.1),
        span.0 == (F64 { bits: INFINITY }) || exists|i: int|
            0 <= i < points.len() && (#[trigger] points[i]).timestamp == span.0,
        span.1 == (F64 { bits: NEG_INFINITY }) || exists|i: int|
            0 <= i < points.len() && (#[trigger] points[i]).timestamp == span.1,
{
    let mut lo: F64 = F64 { bits: INFINITY };
    let mut hi: F64 = F64 { bits: NEG_INFINITY };
    let mut i: usize = 0;
    while i < points.len()
        invariant
            i <= points.len(),
            lo == earliest(points@.take(i as int)),
            hi == latest(points@.take(i as int)),
        decreases points.len() - i,
    {
        lo = earlier(lo, points[i].timestamp);
        hi = later(hi, points[i].timestamp);
        i = i + 1;
        assert(points@.take(i as int).drop_last() =~= points@.take(i - 1));
    }
    assert(points@.take(i as int) =~= points@);
    proof {
        span_is_attained(points@);
        assert forall|k: int|
            0 <= k < points.len() && !(#[trigger] points@[k]).timestamp.is_nan() implies lo.le(
            points@[k].timestamp,
        ) && points@[k].timestamp.le(hi) by {
            span_holds_every_time(points@, k);
        }
    }
    (lo, hi)
}

/// Every time of a frame lies from the earliest to the latest, but for those that are no numbers.
pub proof fn span_holds_every_time(points: Seq<PointXYZT>, i: int)
    requires
        0 <= i < points.len(),
        !points[i].timestamp.is_nan(),
    ensures
        earliest(points).le(points[i].timestamp),
        points[i].timestamp.le(latest(points)),
    decreases points.len(),
{
    lemma_span_is_ordered(points.drop_last());
    lemma_span_is_ordered(points);
    if i < points.len() - 1 {
        assert(points.drop_last()[i] == points[i]);
        span_holds_every_time(points.drop_last(), i);
    }
    reveal(F64::spec_lt);
    reveal(F64::spec_is_nan);
}

/// The ends of a span are times of the frame, but for the infinities that stand for none.
pub proof fn span_is_attained(points: Seq<PointXYZT>)
    ensures
        earliest(points) == (F64 { bits: INFINITY }) || exists|i: int|
            0 <= i < points.len() && (#[trigger] points[i]).timestamp == earliest(points),
        latest(points) == (F64 { bits: NEG_INFINITY }) || exists|i: int|
            0 <= i < points.len() && (#[trigger] points[i]).timestamp == latest(points),
    decreases points.len(),
{
    if points.len() > 0 {
        let less = points.drop_last();
        span_is_attained(less);
        let n = points.len() - 1;
        let last = points[n].timestamp;
        if earliest(points) != last && earliest(points) != (F64 { bits: INFINITY }) {
            let i = choose|i: int|
                0 <= i < less.len() && (#[trigger] less[i]).timestamp == earliest(less);
            assert(points[i] == less[i]);
        }
        if latest(points) != last && latest(points) != (F64 { bits: NEG_INFINITY }) {
            let i = choose|i: int|
                0 <= i < less.len() && (#[trigger] less[i]).timestamp == latest(less);
            assert(points[i] == less[i]);
        }
    }
}

/// The ends of a span are numbers.
proof fn lemma_span_is_ordered(points: Seq<PointXYZT>)
    ensures
        !earliest(points).is_nan(),
        !latest(points).is_nan(),
    decreases points.len(),
{
    reveal(F64::spec_lt);
    reveal(F64::spec_is_nan);
    if points.len() > 0 {
        lemma_span_is_ordered(points.drop_last());
    }
}

/// The time of a frame in seconds, from its earliest time in nanoseconds.
#[verifier::allow_in_spec]
pub fn frame_time(min_timestamp: F64) -> F64
    returns
        min_timestamp.over(F64 { bits: NANOS_PER_SECOND }),
{
    min_timestamp.over(F64 { bits: NANOS_PER_SECOND })
}

/// The smallest and the largest distance and angle between two frames of the local map.
#[derive(Clone, Copy, PartialEq, Eq, Structural, Debug)]
pub struct TrajectoryRecord {
    pub min_dist: F32,
    pub min_degree: F32,
    pub max_dist: F32,
    pub max_degree: F32,
}

/// The bit pattern of infinity in 32 bits.
pub const INFINITY_SINGLE: u32 = 0x7f80_0000;

/// The bit pattern of minus infinity in 32 bits.
pub const NEG_INFINITY_SINGLE: u32 = 0xff80_0000;

impl TrajectoryRecord {
    /// No bound is a not-a-number.
    pub open spec fn wf(self) -> bool {
        !self.min_dist.is_nan() && !self.min_degree.is_nan() && !self.max_dist.is_nan()
            && !self.max_degree.is_nan()
    }

    /// A record of nothing.
    pub fn new() -> (r: TrajectoryRecord)
        ensures
            r == (TrajectoryRecord {
                min_dist: F32 { bits: INFINITY_SINGLE },
                min_degree: F32 { bits: INFINITY_SINGLE },
                max_dist: F32 { bits: NEG_INFINITY_SINGLE },
                max_degree: F32 { bits: NEG_INFINITY_SINGLE },
            }),
            r.wf(),
    {
        proof {
            reveal(F32::spec_is_nan);
        }
        TrajectoryRecord {
            min_dist: F32 { bits: INFINITY_SINGLE },
            min_degree: F32 { bits: INFINITY_SINGLE },
            max_dist: F32 { bits: NEG_INFINITY_SINGLE },
            max_degree: F32 { bits: NEG_INFINITY_SINGLE },
        }
    }

    /// The record with one more distance and angle.
    pub open spec fn with(self, dist: F32, angle: F32) -> TrajectoryRecord {
        TrajectoryRecord {
            min_dist: if dist.lt(self.min_dist) {
                dist
            } else {
                self.min_dist
            },
            max_dist: if self.max_dist.lt(dist) {
                dist
            } else {
                self.max_dist
            },
            min_degree: if angle.lt(self.min_degree) {
                angle
            } else {
                self.min_degree
            },
            max_degree: if self.max_degree.lt(angle) {
                angle
            } else {
                self.max_degree
            },
        }
    }

    /// Takes a distance and an angle into the record, which then spans them.
    pub fn update(&mut self, dist: F32, angle: F32)
        requires
            old(self).wf(),
        ensures
            *final(self) == old(self).with(dist, angle),
            final(self).wf(),
            final(self).min_dist == if dist.lt(old(self).min_dist) {
                dist
            } else {
                old(self).min_dist
            },
            final(self).max_dist == if old(self).max_dist.lt(dist) {
                dist
            } else {
                old(self).max_dist
            },
            final(self).min_degree == if angle.lt(old(self).min_degree) {
                angle
            } else {
                old(self).min_degree
            },
            final(self).max_degree == if old(self).max_degree.lt(angle) {
                angle
            } else {
                old(self).max_degree
            },
            !dist.is_nan() ==> final(self).min_dist.le(dist) && dist.le(final(self).max_dist),
            !angle.is_nan() ==> final(self).min_degree.le(angle) && angle.le(
                final(self).max_degree,
            ),
    {
        proof {
            reveal(F32::spec_lt);
            reveal(F32::spec_is_nan);
        }
        if dist.lt(self.min_dist) {
            self.min_dist = dist;
        }
        if self.max_dist.lt(dist) {
            self.max_dist = dist;
        }
        if angle.lt(self.min_degree) {
            self.min_degree = angle;
        }
        if self.max_degree.lt(angle) {
            self.max_degree = angle;
        }
    }
}

/// A record spans all distances and angles that it took in, and takes each of its bounds from what it
/// held and what came in: a bound changes only to the number that came in, and only where that lies
/// outside.
pub proof fn records_span_what_came_in(record: TrajectoryRecord, dist: F32, angle: F32)
    requires
        record.wf(),
    ensures
        ({
            let after = record.with(dist, angle);
            &&& !dist.is_nan() ==> after.min_dist.le(dist) && dist.le(after.max_dist)
            &&& !angle.is_nan() ==> after.min_degree.le(angle) && angle.le(after.max_degree)
            &&& after.min_dist != record.min_dist ==> after.min_dist == dist && dist.lt(
                record.min_dist,
            )
            &&& after.max_dist != record.max_dist ==> after.max_dist == dist && record.max_dist.lt(
                dist,
            )
            &&& after.min_degree != record.min_degree ==> after.min_degree == angle && angle.lt(
                record.min_degree,
            )
            &&& after.max_degree != record.max_degree ==> after.max_degree == angle
                && record.max_degree.lt(angle)
        }),
{
    reveal(F32::spec_lt);
    reveal(F32::spec_is_nan);
}

/// The time spent, in nanoseconds, and the number of frames it was spent on.
#[derive(Clone, Copy, PartialEq, Eq, Structural, Debug)]
pub struct ProcessTimeStats {
    pub total_time: u128,
    pub total_gicp_time: u128,
    pub count: usize,
}

impl ProcessTimeStats {
    /// No time spent.
    pub fn new() -> (r: ProcessTimeStats)
        ensures
            r == (ProcessTimeStats { total_time: 0, total_gicp_time: 0, count: 0 }),
    {
        ProcessTimeStats { total_time: 0, total_gicp_time: 0, count: 0 }
    }

    /// Adds the time spent on a frame.
    pub fn record(&mut self, total: u128, gicp: u128)
        requires
            old(self).total_time + total <= MAX_NANOS,
            old(self).total_gicp_time + gicp <= MAX_NANOS,
            old(self).count < usize::MAX,
        ensures
            *final(self) == (ProcessTimeStats {
                total_time: (old(self).total_time + total) as u128,
                total_gicp_time: (old(self).total_gicp_time + gicp) as u128,
                count: (old(self).count + 1) as usize,
            }),
    {
        self.total_time = self.total_time + total;
        self.total_gicp_time = self.total_gicp_time + gicp;
        self.count = self.count + 1;
    }

    /// The average times per frame, rounded down.
    pub fn averages(&self) -> (r: (u128, u128))
        requires
            self.count as u32 != 0,
        ensures
            r.0 == self.total_time / (self.count as u32) as u128,
            r.1 == self.total_gicp_time / (self.count as u32) as u128,
    {
        let n: u128 = (self.count as u32) as u128;
        (self.total_time / n, self.total_gicp_time / n)
    }
}

/// Whether the local map gets the cloud of this frame.
#[verifier::allow_in_spec]
pub fn is_map_frame(i: usize) -> bool
    returns
        i % LOCAL_MAP_STRIDE == 0,
{
    i % LOCAL_MAP_STRIDE == 0
}

/// Whether the global map gets the cloud of this frame.
#[verifier::allow_in_spec]
pub fn is_global_frame(i: usize) -> bool
    returns
        i % GLOBAL_MAP_STRIDE == 0,
{
    i % GLOBAL_MAP_STRIDE == 0
}

/// The frames of the global map are frames of the local map.
pub proof fn global_frames_are_map_frames(i: usize)
    requires
        is_global_frame(i),
    ensures
        is_map_frame(i),
{
}

/// The distance between two positions.
#[verifier::allow_in_spec]
pub fn distance(a: P3, b: P3) -> F32
    returns
        ({
            let (dx, dy, dz) = (a.x.minus(b.x), a.y.minus(b.y), a.z.minus(b.z));
            dx.times(dx).plus(dy.times(dy)).plus(dz.times(dz)).sqrt()
        }),
{
    let dx: F32 = a.x.minus(b.x);
    let dy: F32 = a.y.minus(b.y);
    let dz: F32 = a.z.minus(b.z);
    dx.times(dx).plus(dy.times(dy)).plus(dz.times(dz)).sqrt()
}

/// The sum of three products.
#[verifier::allow_in_spec]
pub fn dot3(a: P3, b: P3) -> F32
    returns
        a.x.times(b.x).plus(a.y.times(b.y)).plus(a.z.times(b.z)),
{
    a.x.times(b.x).plus(a.y.times(b.y)).plus(a.z.times(b.z))
}

/// The trace of the rotation from one pose to another: the products of their columns, summed.
#[verifier::allow_in_spec]
pub fn relative_trace(last: Mat4, curr: Mat4) -> F32
    returns
        ({
            let (a, b) = (last, curr);
            let c0 = dot3(
                P3 { x: a.r0.x, y: a.r1.x, z: a.r2.x },
                P3 { x: b.r0.x, y: b.r1.x, z: b.r2.x },
            );
            let c1 = dot3(
                P3 { x: a.r0.y, y: a.r1.y, z: a.r2.y },
                P3 { x: b.r0.y, y: b.r1.y, z: b.r2.y },
            );
            let c2 = dot3(
                P3 { x: a.r0.z, y: a.r1.z, z: a.r2.z },
                P3 { x: b.r0.z, y: b.r1.z, z: b.r2.z },
            );
            c0.plus(c1).plus(c2)
        }),
{
    let (a, b): (Mat4, Mat4) = (last, curr);
    let c0: F32 = dot3(
        P3 { x: a.r0.x, y: a.r1.x, z: a.r2.x },
        P3 { x: b.r0.x, y: b.r1.x, z: b.r2.x },
    );
    let c1: F32 = dot3(
        P3 { x: a.r0.y, y: a.r1.y, z: a.r2.y },
        P3 { x: b.r0.y, y: b.r1.y, z: b.r2.y },
    );
    let c2: F32 = dot3(
        P3 { x: a.r0.z, y: a.r1.z, z: a.r2.z },
        P3 { x: b.r0.z, y: b.r1.z, z: b.r2.z },
    );
    c0.plus(c1).plus(c2)
}

/// The bit pattern of 2 in 32 bits.
pub const TWO_SINGLE: u32 = 0x4000_0000;

/// The bit pattern of -1 in 32 bits.
pub const NEG_ONE_SINGLE: u32 = 0xbf80_0000;

/// The number, or the nearer of -1 and 1 where it lies outside.
#[verifier::allow_in_spec]
pub fn clamped(x: F32) -> F32
    returns
        (if x.lt(F32 { bits: NEG_ONE_SINGLE }) {
            F32 { bits: NEG_ONE_SINGLE }
        } else if (F32 { bits: ONE_SINGLE }).lt(x) {
            F32 { bits: ONE_SINGLE }
        } else {
            x
        }),
{
    if x.lt(F32 { bits: NEG_ONE_SINGLE }) {
        F32 { bits: NEG_ONE_SINGLE }
    } else if (F32 { bits: ONE_SINGLE }).lt(x) {
        F32 { bits: ONE_SINGLE }
    } else {
        x
    }
}

/// The cosine of the angle between two poses.
#[verifier::allow_in_spec]
pub fn relative_cosine(last: Mat4, curr: Mat4) -> F32
    returns
        clamped(
            relative_trace(last, curr).minus(F32 { bits: ONE_SINGLE }).over(
                F32 { bits: TWO_SINGLE },
            ),
        ),
{
    clamped(
        relative_trace(last, curr).minus(F32 { bits: ONE_SINGLE }).over(F32 { bits: TWO_SINGLE }),
    )
}

/// The cosine of an angle between two poses is a number from -1 to 1, or none at all.
pub proof fn cosine_is_bounded(last: Mat4, curr: Mat4)
    ensures
        ({
            let c = relative_cosine(last, curr);
            c.is_nan() || ((F32 { bits: NEG_ONE_SINGLE }).le(c) && c.le(F32 { bits: ONE_SINGLE }))
        }),
{
    reveal(F32::spec_lt);
    reveal(F32::spec_is_nan);
    crate::float::arith::lemma_units_ordered(24, 0, 0x3f80_0000);
}

/// The velocity that takes a pose to another in the time `dt`, brought down to the largest speed.
#[verifier::allow_in_spec]
pub fn velocity_between(prev: Mat4, curr: Mat4, dt: F64) -> V3
    returns
        V3::new(
            curr.r0.w.minus(prev.r0.w).over(dt.narrowed()).widened(),
            curr.r1.w.minus(prev.r1.w).over(dt.narrowed()).widened(),
            curr.r2.w.minus(prev.r2.w).over(dt.narrowed()).widened(),
        ).capped(F64 { bits: MAX_SPEED }),
{
    V3::new(
        curr.r0.w.minus(prev.r0.w).over(dt.narrowed()).widened(),
        curr.r1.w.minus(prev.r1.w).over(dt.narrowed()).widened(),
        curr.r2.w.minus(prev.r2.w).over(dt.narrowed()).widened(),
    ).capped(F64 { bits: MAX_SPEED })
}

/// The state of the odometry.
#[derive(Debug)]
pub struct GicpOdometry {
    pub current_g_pose: Mat4,
    pub velocity: V3,
    pub last_timestamp: F64,
    pub local_map: VecDeque<FrameData>,
    pub global_map: Vec<Vec<P3>>,
    pub gicp_traj_log: Vec<PoseData>,
    pub rmse_log: Vec<RmseStats>,
    pub last_keyframe_pose: Mat4,
    pub traj_record: TrajectoryRecord,
}

impl GicpOdometry {
    /// The local map stays within its size, and the record within numbers.
    pub open spec fn wf(self) -> bool {
        self.local_map@.len() <= LOCAL_MAP_SIZE && self.traj_record.wf()
    }

    /// The state before the first frame: at the origin and at rest, with the first cloud in the
    /// global map. `q` is the orientation of the origin.
    pub fn new(first_cloud: Vec<P3>, base_timestamp: F64, q: Quat) -> (s: GicpOdometry)
        ensures
            s.wf(),
            s.current_g_pose == Mat4::identity(),
            s.velocity == V3::new(F64 { bits: 0 }, F64 { bits: 0 }, F64 { bits: 0 }),
            s.last_timestamp == (F64 { bits: 0 }),
            s.local_map@ == Seq::<FrameData>::empty(),
            s.global_map@ == seq![first_cloud],
            s.gicp_traj_log@ == seq![
                extract_pose_from_matrix(base_timestamp, Mat4::identity(), q),
            ],
            s.rmse_log@ == Seq::<RmseStats>::empty(),
            s.last_keyframe_pose == Mat4::identity(),
            s.traj_record.min_dist == (F32 { bits: INFINITY_SINGLE }),
            s.traj_record.min_degree == (F32 { bits: INFINITY_SINGLE }),
            s.traj_record.max_dist == (F32 { bits: NEG_INFINITY_SINGLE }),
            s.traj_record.max_degree == (F32 { bits: NEG_INFINITY_SINGLE }),
    {
        let zero: F64 = F64 { bits: 0 };
        let origin: Mat4 = Mat4::identity();
        let mut global_map: Vec<Vec<P3>> = Vec::new();
        global_map.push(first_cloud);
        let mut gicp_traj_log: Vec<PoseData> = Vec::new();
        gicp_traj_log.push(extract_pose_from_matrix(base_timestamp, origin, q));
        GicpOdometry {
            current_g_pose: origin,
            velocity: V3::new(zero, zero, zero),
            last_timestamp: zero,
            local_map: VecDeque::new(),
            global_map,
            gicp_traj_log,
            rmse_log: Vec::new(),
            last_keyframe_pose: origin,
            traj_record: TrajectoryRecord::new(),
        }
    }

    /// Starts the frame `i`: the time before the first frame is taken to be its own.
    pub fn begin_frame(&mut self, i: usize, timestamp: F64)
        ensures
            *final(self) == (GicpOdometry {
                last_timestamp: if i == 1 {
                    timestamp
                } else {
                    old(self).last_timestamp
                },
                ..*old(self)
            }),
    {
        if i == 1 {
            self.last_timestamp = timestamp;
        }
    }

    /// The cloud that a frame is aligned with: the local map, or the frame's own cloud where the
    /// map is empty.
    pub fn target_points(&self, current: &Vec<P3>) -> (target: Vec<P3>)
        ensures
            target@ == if self.local_map@.len() == 0 {
                current@
            } else {
                cloud::stacked(clouds(self.local_map@))
            },
            self.local_map@.len() > 0 ==> target@ == self.local_map@.map_values(
                |f: FrameData| f.points@,
            ).flatten(),
    {
        match flatten_local_map(&self.local_map) {
            Ok(rows) => rows,
            Err(_) => copy_rows(current),
        }
    }

    /// Logs the error after a step of an alignment.
    pub fn log_rmse(&mut self, stats: RmseStats)
        ensures
            final(self).rmse_log@ == old(self).rmse_log@.push(stats),
            *final(self) == (GicpOdometry { rmse_log: final(self).rmse_log, ..*old(self) }),
    {
        self.rmse_log.push(stats);
    }

    /// Moves to the pose that the alignment of a frame found. The velocity is taken anew where
    /// enough time has passed.
    pub fn advance(&mut self, transform: Mat4, timestamp: F64)
        ensures
            *final(self) == (GicpOdometry {
                current_g_pose: transform,
                velocity: {
                    let dt = timestamp.minus(old(self).last_timestamp);
                    if (F64 { bits: MIN_INTERVAL }).lt(dt) {
                        velocity_between(old(self).current_g_pose, transform, dt)
                    } else {
                        old(self).velocity
                    }
                },
                last_timestamp: timestamp,
                ..*old(self)
            }),
    {
        let prev: Mat4 = self.current_g_pose;
        self.current_g_pose = transform;
        let dt: F64 = timestamp.minus(self.last_timestamp);
        if (F64 { bits: MIN_INTERVAL }).lt(dt) {
            self.velocity = velocity_between(prev, transform, dt);
        }
        self.last_timestamp = timestamp;
    }

    /// The distance and the cosine of the angle from the last frame of the local map.
    pub fn keyframe_offset(&self) -> (r: (F32, F32))
        ensures
            r.0 == distance(self.current_g_pose.position(), self.last_keyframe_pose.position()),
            r.1 == relative_cosine(self.last_keyframe_pose, self.current_g_pose),
    {
        (
            distance(self.current_g_pose.position(), self.last_keyframe_pose.position()),
            relative_cosine(self.last_keyframe_pose, self.current_g_pose),
        )
    }

    /// Ends the frame `i`: every third frame goes into the local map and every sixth into the
    /// global map, and the pose is logged. `angle` is the angle whose cosine `keyframe_offset`
    /// gives, `rotated` the cloud of the frame turned by the rotation of the pose, and `q` the
    /// orientation of the pose.
    pub fn end_frame(&mut self, i: usize, angle: F32, rotated: &Vec<P3>, timestamp: F64, q: Quat)
        requires
            old(self).wf(),
        ensures
            final(self).wf(),
            final(self).current_g_pose == old(self).current_g_pose,
            final(self).velocity == old(self).velocity,
            final(self).last_timestamp == old(self).last_timestamp,
            final(self).rmse_log == old(self).rmse_log,
            final(self).gicp_traj_log@ == old(self).gicp_traj_log@.push(
                extract_pose_from_matrix(timestamp, old(self).current_g_pose, q),
            ),
            ({
                let aligned = pose::translated_rows(rotated@, old(self).current_g_pose);
                &&& clouds(final(self).local_map@) == if is_map_frame(i) {
                    with_latest(clouds(old(self).local_map@), aligned)
                } else {
                    clouds(old(self).local_map@)
                }
                &&& cloud::rows_of_each(final(self).global_map@) == if is_global_frame(i) {
                    cloud::rows_of_each(old(self).global_map@).push(aligned)
                } else {
                    cloud::rows_of_each(old(self).global_map@)
                }
            }),
            !is_map_frame(i) ==> final(self).local_map == old(self).local_map,
            final(self).local_map@.len() <= LOCAL_MAP_SIZE,
            is_map_frame(i) ==> {
                let (before, after) = (old(self).local_map@, final(self).local_map@);
                let gone = before.len() + 1 - after.len();
                let pose = old(self).current_g_pose;
                &&& gone == if before.len() < LOCAL_MAP_SIZE {
                    0int
                } else {
                    1int
                }
                &&& after.last().points@ == rotated@.map_values(|p: P3| pose::translated(p, pose))
                &&& forall|k: int|
                    0 <= k < after.len() - 1 ==> (#[trigger] after[k]).points@ == before[k
                        + gone].points@
            },
            !is_global_frame(i) ==> final(self).global_map@.len() == old(self).global_map@.len(),
            is_global_frame(i) ==> {
                let pose = old(self).current_g_pose;
                &&& final(self).global_map@.len() == old(self).global_map@.len() + 1
                &&& final(self).global_map@.last()@ == rotated@.map_values(
                    |p: P3| pose::translated(p, pose),
                )
            },
            forall|k: int|
                0 <= k < old(self).global_map@.len() ==> (#[trigger] final(self).global_map@[k])@
                    == old(self).global_map@[k]@,
            final(self).last_keyframe_pose == if is_map_frame(i) {
                old(self).current_g_pose
            } else {
                old(self).last_keyframe_pose
            },
            final(self).traj_record == if is_map_frame(i) {
                old(self).traj_record.with(
                    distance(
                        old(self).current_g_pose.position(),
                        old(self).last_keyframe_pose.position(),
                    ),
                    angle,
                )
            } else {
                old(self).traj_record
            },
    {
        if is_map_frame(i) {
            let (dist, _) = self.keyframe_offset();
            self.traj_record.update(dist, angle);
            self.last_keyframe_pose = self.current_g_pose;
            let aligned: Vec<P3> = transform_points(rotated, self.current_g_pose);
            let ghost before = clouds(self.local_map@);
            if self.local_map.len() >= LOCAL_MAP_SIZE {
                let _ = self.local_map.pop_front();
                assert(clouds(self.local_map@) =~= before.drop_first());
            }
            let ghost room = clouds(self.local_map@);
            self.local_map.push_back(FrameData { points: copy_rows(&aligned) });
            assert(clouds(self.local_map@) =~= room.push(aligned@));
            if is_global_frame(i) {
                self.global_map.push(aligned);
                assert(cloud::rows_of_each(self.global_map@) =~= cloud::rows_of_each(
                    old(self).global_map@,
                ).push(aligned@));
            }
        }
        self.gicp_traj_log.push(extract_pose_from_matrix(timestamp, self.current_g_pose, q));
    }
}

} // verus!
