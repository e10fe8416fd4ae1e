use std::time::Duration;

use gicp_slam_cuda::cloud::{PointXYZT, P3};
use gicp_slam_cuda::float::double::F64;
use gicp_slam_cuda::float::single::F32;
use gicp_slam_cuda::geometry::{Quat, V3};
use gicp_slam_cuda::odometry::{
    clamped, flatten_local_map, frame_span, frame_time, is_global_frame, is_map_frame,
    relative_cosine, GicpOdometry, MapError, ProcessTimeStats, TrajectoryRecord,
};
use gicp_slam_cuda::odometry::{MAP_VOXEL_SIZE, MAX_DIST, MIN_DIST, VOXEL_SIZE};
use gicp_slam_cuda::pose::{Mat4, Row4};
use gicp_slam_cuda::registration::{RmseStats, MAX_PAIR_DISTANCE, RMSE_THRESHOLD};
use nalgebra::Vector3;

fn s(x: f32) -> F32 {
    F32::from_bits(x.to_bits())
}

fn d(x: f64) -> F64 {
    F64::from_bits(x.to_bits())
}

fn at(x: f32, y: f32, z: f32) -> Mat4 {
    let m = Mat4::identity();
    Mat4 {
        r0: Row4 { w: s(x), ..m.r0 },
        r1: Row4 { w: s(y), ..m.r1 },
        r2: Row4 { w: s(z), ..m.r2 },
        r3: m.r3,
    }
}

fn row(x: f32) -> P3 {
    P3 { x: s(x), y: s(0.0), z: s(0.0) }
}

fn start() -> GicpOdometry {
    GicpOdometry::new(vec![row(7.0)], d(50.0), Quat::identity())
}

#[test]
fn the_settings_have_their_values() {
    assert_eq!(f32::from_bits(MIN_DIST), 0.7);
    assert_eq!(f32::from_bits(MAX_DIST), 35.0);
    assert_eq!(f32::from_bits(VOXEL_SIZE), 0.5);
    assert_eq!(f32::from_bits(MAP_VOXEL_SIZE), 0.1);
    assert_eq!(f32::from_bits(RMSE_THRESHOLD), 0.5 / 4.0);
    assert_eq!(f32::from_bits(MAX_PAIR_DISTANCE), 0.5);
}

#[test]
fn the_state_starts_at_the_origin() {
    let o = start();
    assert_eq!(o.current_g_pose, Mat4::identity());
    assert_eq!(o.velocity, V3::new(d(0.0), d(0.0), d(0.0)));
    assert_eq!(o.last_timestamp, d(0.0));
    assert_eq!(o.global_map, vec![vec![row(7.0)]]);
    assert_eq!(o.gicp_traj_log.len(), 1);
    assert_eq!(o.gicp_traj_log[0].timestamp, d(50.0));
    assert_eq!(o.gicp_traj_log[0].rotation_quat.x, s(1.0));
    assert!(o.local_map.is_empty() && o.rmse_log.is_empty());
    assert_eq!(o.traj_record.min_dist, s(f32::INFINITY));
    assert_eq!(o.traj_record.max_degree, s(f32::NEG_INFINITY));
}

#[test]
fn only_the_first_frame_sets_the_time() {
    let mut o = start();
    o.begin_frame(1, d(60.0));
    assert_eq!(o.last_timestamp, d(60.0));
    o.begin_frame(2, d(70.0));
    assert_eq!(o.last_timestamp, d(60.0));
}

#[test]
fn the_velocity_agrees_with_nalgebra() {
    let mut o = start();
    o.begin_frame(1, d(10.0));
    o.advance(at(0.1, -0.05, 0.02), d(10.1));
    let dt = 10.1f64 - 10.0;
    let v = Vector3::new(
        (0.1f32 / dt as f32) as f64,
        (-0.05f32 / dt as f32) as f64,
        (0.02f32 / dt as f32) as f64,
    )
    .cap_magnitude(2.0);
    assert_eq!(o.velocity, V3::new(d(v.x), d(v.y), d(v.z)));
    assert_eq!(o.last_timestamp, d(10.1));
    assert_eq!(o.current_g_pose, at(0.1, -0.05, 0.02));
    // A fast motion is brought down to two meters per second.
    o.advance(at(10.1, -0.05, 0.02), d(11.1));
    let v = Vector3::new(((10.1f32 - 0.1) / (11.1f64 - 10.1) as f32) as f64, 0.0, 0.0)
        .cap_magnitude(2.0);
    assert_eq!(o.velocity, V3::new(d(v.x), d(v.y), d(v.z)));
    assert!((f64::from_bits(o.velocity.x.bits) - 2.0).abs() < 1e-12);
    // No time has passed: the velocity stays.
    let before = o.velocity;
    o.advance(at(20.0, 0.0, 0.0), d(11.1));
    assert_eq!(o.velocity, before);
    assert_eq!(o.current_g_pose, at(20.0, 0.0, 0.0));
}

#[test]
fn the_target_is_the_map_once_there_is_one() {
    let mut o = start();
    let current = vec![row(1.0), row(2.0)];
    assert_eq!(o.target_points(&current), current);
    o.end_frame(3, s(0.0), &vec![row(5.0)], d(1.0), Quat::identity());
    o.end_frame(6, s(0.0), &vec![row(6.0), row(6.5)], d(2.0), Quat::identity());
    assert_eq!(o.target_points(&current), vec![row(5.0), row(6.0), row(6.5)]);
}

#[test]
fn an_empty_map_cannot_be_flattened() {
    let o = start();
    assert_eq!(flatten_local_map(&o.local_map), Err(MapError::Empty));
}

#[test]
fn every_third_frame_goes_into_the_map() {
    let mut o = start();
    o.advance(at(100.0, 0.0, 0.0), d(1.0));
    for i in 1..=12 {
        o.end_frame(i, s(0.1), &vec![row(i as f32)], d(i as f64), Quat::identity());
    }
    let xs: Vec<f32> =
        o.local_map.iter().map(|f| f32::from_bits(f.points[0].x.bits)).collect();
    assert_eq!(xs, vec![103.0, 106.0, 109.0, 112.0]);
    let xs: Vec<f32> = o.global_map.iter().map(|f| f32::from_bits(f[0].x.bits)).collect();
    assert_eq!(xs, vec![7.0, 106.0, 112.0]);
    assert_eq!(o.gicp_traj_log.len(), 13);
    assert_eq!(o.gicp_traj_log[12].position, row(100.0));
    assert_eq!(o.last_keyframe_pose, at(100.0, 0.0, 0.0));
}

#[test]
fn the_map_holds_the_latest_thirty_clouds() {
    let mut o = start();
    for k in 1..=40 {
        o.end_frame(3 * k, s(0.0), &vec![row(k as f32)], d(0.0), Quat::identity());
        assert!(o.local_map.len() <= 30);
    }
    let xs: Vec<f32> =
        o.local_map.iter().map(|f| f32::from_bits(f.points[0].x.bits)).collect();
    let expected: Vec<f32> = (11..=40).map(|k| k as f32).collect();
    assert_eq!(xs, expected);
}

#[test]
fn strides_of_the_maps() {
    assert!(is_map_frame(0) && is_map_frame(3) && !is_map_frame(4));
    assert!(is_global_frame(6) && !is_global_frame(3));
}

#[test]
fn the_record_spans_what_it_was_given() {
    let mut r = TrajectoryRecord::new();
    r.update(s(0.5), s(0.02));
    r.update(s(0.25), s(0.03));
    r.update(s(f32::NAN), s(0.01));
    assert_eq!(r.min_dist, s(0.25));
    assert_eq!(r.max_dist, s(0.5));
    assert_eq!(r.min_degree, s(0.01));
    assert_eq!(r.max_degree, s(0.03));
}

#[test]
fn the_distance_and_the_cosine_from_the_last_frame() {
    let mut o = start();
    o.advance(at(3.0, 4.0, 12.0), d(1.0));
    let (dist, cosine) = o.keyframe_offset();
    assert_eq!(dist, s(13.0));
    assert_eq!(cosine, s(1.0));
    let quarter = Mat4 {
        r0: Row4 { x: s(0.0), y: s(-1.0), z: s(0.0), w: s(0.0) },
        r1: Row4 { x: s(1.0), y: s(0.0), z: s(0.0), w: s(0.0) },
        ..Mat4::identity()
    };
    assert_eq!(relative_cosine(Mat4::identity(), quarter), s(0.0));
    assert_eq!(clamped(s(1.0000001)), s(1.0));
    assert_eq!(clamped(s(-1.5)), s(-1.0));
    assert_eq!(clamped(s(0.3)), s(0.3));
    assert!(clamped(s(f32::NAN)).is_nan());
}

#[test]
fn keyframes_update_the_record() {
    let mut o = start();
    o.advance(at(3.0, 4.0, 0.0), d(1.0));
    o.end_frame(1, s(0.5), &Vec::new(), d(1.0), Quat::identity());
    assert_eq!(o.traj_record, TrajectoryRecord::new());
    o.end_frame(3, s(0.5), &vec![row(0.0)], d(1.0), Quat::identity());
    assert_eq!(o.traj_record.min_dist, s(5.0));
    assert_eq!(o.traj_record.max_degree, s(0.5));
    let (dist, _) = o.keyframe_offset();
    assert_eq!(dist, s(0.0));
}

#[test]
fn errors_are_logged() {
    let mut o = start();
    o.log_rmse(RmseStats { frame_index: 2, rmse: s(0.2) });
    assert_eq!(o.rmse_log, vec![RmseStats { frame_index: 2, rmse: s(0.2) }]);
}

#[test]
fn spans_agree_with_the_machine() {
    let times = [3e9, f64::NAN, 1e9, 2e9, 5e9];
    let points: Vec<PointXYZT> = times
        .iter()
        .map(|t| PointXYZT { x: s(0.0), y: s(0.0), z: s(0.0), timestamp: d(*t) })
        .collect();
    let lo = times.iter().copied().fold(f64::INFINITY, f64::min);
    let hi = times.iter().copied().fold(f64::NEG_INFINITY, f64::max);
    assert_eq!(frame_span(&points), (d(lo), d(hi)));
    assert_eq!(frame_span(&Vec::new()), (d(f64::INFINITY), d(f64::NEG_INFINITY)));
    assert_eq!(frame_time(d(1.7e18)), d(1.7e18 / 1_000_000_000.0));
}

#[test]
fn averages_agree_with_durations() {
    let mut p = ProcessTimeStats::new();
    let mut total = Duration::new(0, 0);
    let mut gicp = Duration::new(0, 0);
    for k in 0..7u32 {
        let a = Duration::new(3 + k as u64, 123_456_789);
        let b = Duration::from_nanos(987_654_321 * (k as u64 + 1));
        p.record(a.as_nanos(), b.as_nanos());
        total += a;
        gicp += b;
    }
    assert_eq!(p.averages(), ((total / 7).as_nanos(), (gicp / 7).as_nanos()));
    assert_eq!(Duration::MAX.as_nanos(), gicp_slam_cuda::odometry::MAX_NANOS);
}
