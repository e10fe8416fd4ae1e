use gicp_slam_cuda::cloud::{PointXYZT, P3};
use gicp_slam_cuda::float::double::F64;
use gicp_slam_cuda::float::single::F32;
use gicp_slam_cuda::geometry::{Quat, V3};
use gicp_slam_cuda::load_files::ImuSample;
use gicp_slam_cuda::pose::{Mat4, Row4};
use gicp_slam_cuda::pre_process_pcd::{
    get_rotation_at_time, known_rotation, plan_rotations, preprocess_point_cloud, Lookup,
};
use gicp_slam_cuda::predict_pose_imu::{
    build_rotation_trajectory, predict_pose_by_imu, prediction_turns, trajectory_turns,
    TrajectoryPoint,
};
use nalgebra::{Matrix3, Quaternion, Unit, UnitQuaternion, Vector3};

fn s(x: f32) -> F32 {
    F32::from_bits(x.to_bits())
}

fn d(x: f64) -> F64 {
    F64::from_bits(x.to_bits())
}

fn back(x: F64) -> f64 {
    f64::from_bits(x.bits)
}

fn vector(v: V3) -> Vector3<f64> {
    Vector3::new(back(v.x), back(v.y), back(v.z))
}

fn quat(q: &UnitQuaternion<f64>) -> Quat {
    Quat { w: d(q.w), i: d(q.i), j: d(q.j), k: d(q.k) }
}

#[derive(Clone)]
struct Sample {
    t: f64,
    gyro: [f32; 3],
    acc: [f32; 3],
}

fn samples() -> Vec<Sample> {
    let mut state = 31u64;
    let mut next = || {
        state = state.wrapping_mul(6364136223846793005).wrapping_add(1442695040888963407);
        ((state >> 40) as f32 / (1u32 << 24) as f32 - 0.5) * 2.0
    };
    let mut out: Vec<Sample> = (0..60)
        .map(|i| Sample {
            t: 100.0 + 0.005 * i as f64,
            gyro: [next(), next(), next()],
            acc: [next(), next(), 9.8 + next()],
        })
        .collect();
    // Samples that do not move time forward, and one that does not turn.
    out[20].t = out[19].t;
    out[21].t = out[19].t + 5e-10;
    out[30].gyro = [0.0; 3];
    out
}

fn library_samples(all: &[Sample]) -> Vec<ImuSample> {
    all.iter()
        .map(|x| ImuSample {
            timestamp_sec: d(x.t),
            gyro: [s(x.gyro[0]), s(x.gyro[1]), s(x.gyro[2])],
            linear_acceleration: [s(x.acc[0]), s(x.acc[1]), s(x.acc[2])],
        })
        .collect()
}

fn machine_prediction(
    pose: &[[f32; 4]; 4],
    start_vel: Vector3<f64>,
    start: f64,
    end: f64,
    all: &[Sample],
) -> ([[f32; 4]; 4], Vector3<f64>) {
    let mut position = Vector3::new(pose[0][3] as f64, pose[1][3] as f64, pose[2][3] as f64);
    let mut rotation = UnitQuaternion::from_matrix(&Matrix3::from_fn(|r, c| pose[r][c] as f64));
    let mut velocity = start_vel;
    let gravity = Vector3::new(0.0, 0.0, 9.80665);
    let mut last = start;
    for x in all.iter().filter(|x| x.t > start && x.t <= end) {
        let dt = x.t - last;
        if dt <= 1e-9 {
            continue;
        }
        let omega = Vector3::new(x.gyro[0] as f64, x.gyro[1] as f64, x.gyro[2] as f64);
        let angle = omega.norm() * dt;
        let axis = if angle < 1e-9 { Vector3::x_axis() } else { Unit::new_normalize(omega) };
        rotation = rotation * UnitQuaternion::from_axis_angle(&axis, angle);
        rotation.renormalize();
        let acc = Vector3::new(x.acc[0] as f64, x.acc[1] as f64, x.acc[2] as f64);
        let net = rotation * acc - gravity;
        position += velocity * dt + 0.5 * net * dt * dt;
        velocity += net * dt;
        last = x.t;
    }
    let r = rotation.to_rotation_matrix();
    let m = r.matrix();
    let mut out = [[0.0f32; 4]; 4];
    for i in 0..3 {
        for j in 0..3 {
            out[i][j] = m[(i, j)] as f32;
        }
        out[i][3] = position[i] as f32;
    }
    out[3][3] = 1.0;
    (out, velocity)
}

fn library_pose(p: &[[f32; 4]; 4]) -> Mat4 {
    let row = |r: &[f32; 4]| Row4 { x: s(r[0]), y: s(r[1]), z: s(r[2]), w: s(r[3]) };
    Mat4 { r0: row(&p[0]), r1: row(&p[1]), r2: row(&p[2]), r3: row(&p[3]) }
}

fn library_prediction(
    pose: &[[f32; 4]; 4],
    vel: Vector3<f64>,
    start: f64,
    end: f64,
    all: &[Sample],
) -> (Mat4, V3) {
    let samples = library_samples(all);
    let deltas: Vec<Quat> = prediction_turns(&samples, d(start), d(end))
        .iter()
        .map(|t| {
            let axis = Unit::new_unchecked(vector(t.axis));
            quat(&UnitQuaternion::from_axis_angle(&axis, back(t.angle)))
        })
        .collect();
    let q = UnitQuaternion::from_matrix(&Matrix3::from_fn(|r, c| pose[r][c] as f64));
    predict_pose_by_imu(
        library_pose(pose),
        quat(&q),
        V3::new(d(vel.x), d(vel.y), d(vel.z)),
        d(start),
        d(end),
        &samples,
        &deltas,
    )
}

const POSE: [[f32; 4]; 4] = [
    [0.8, -0.6, 0.0, 1.5],
    [0.6, 0.8, 0.0, -2.5],
    [0.0, 0.0, 1.0, 0.25],
    [0.0, 0.0, 0.0, 1.0],
];

#[test]
fn predictions_agree_with_nalgebra() {
    let all = samples();
    let vel = Vector3::new(0.3, -0.1, 0.05);
    for (start, end) in [(100.0, 100.1), (99.0, 101.0), (100.0951, 100.2), (100.2, 100.1)] {
        let (pose, v) = machine_prediction(&POSE, vel, start, end, &all);
        let (lib_pose, lib_v) = library_prediction(&POSE, vel, start, end, &all);
        assert_eq!(lib_pose, library_pose(&pose));
        assert_eq!(lib_v, V3::new(d(v.x), d(v.y), d(v.z)));
    }
}

#[test]
fn without_samples_the_pose_stays() {
    let (pose, v) = library_prediction(&POSE, Vector3::new(1.0, 2.0, 3.0), 5.0, 6.0, &[]);
    assert_eq!(pose.position(), P3 { x: s(1.5), y: s(-2.5), z: s(0.25) });
    assert_eq!(v, V3::new(d(1.0), d(2.0), d(3.0)));
    assert!((f32::from_bits(pose.r0.x.bits) - 0.8).abs() < 1e-6);
}

#[test]
fn samples_that_do_not_move_time_are_passed_over() {
    let all = samples();
    let library = library_samples(&all);
    let turns = prediction_turns(&library, d(99.9), d(101.0));
    assert_eq!(turns.len(), 58);
    // The window is open below and closed above.
    assert_eq!(prediction_turns(&library, d(all[0].t), d(all[3].t)).len(), 3);
    assert_eq!(prediction_turns(&library, d(all[3].t), d(all[3].t)).len(), 0);
}

fn library_trajectory(all: &[Sample], start: f64, end: f64) -> Vec<TrajectoryPoint> {
    let samples = library_samples(all);
    let deltas: Vec<Quat> = trajectory_turns(&samples, d(start), d(end))
        .iter()
        .map(|t| quat(&UnitQuaternion::new(vector(*t))))
        .collect();
    build_rotation_trajectory(&samples, d(start), d(end), &deltas)
}

fn machine_trajectory(all: &[Sample], start: f64, end: f64) -> Vec<(f64, UnitQuaternion<f64>)> {
    let (lo, hi) = (start - 0.01, end + 0.01);
    let mut current = UnitQuaternion::identity();
    let mut out = vec![(lo, current)];
    let mut last = lo;
    for x in all.iter().filter(|x| x.t >= lo && x.t <= hi) {
        let dt = x.t - last;
        if dt <= 1e-9 {
            continue;
        }
        let omega = Vector3::new(x.gyro[0] as f64, x.gyro[1] as f64, x.gyro[2] as f64);
        current = current * UnitQuaternion::new(omega * dt);
        current.renormalize();
        out.push((x.t, current));
        last = x.t;
    }
    out
}

#[test]
fn trajectories_agree_with_nalgebra() {
    let all = samples();
    for (start, end) in [(100.05, 100.15), (100.0, 100.3), (200.0, 300.0)] {
        let machine = machine_trajectory(&all, start, end);
        let library = library_trajectory(&all, start, end);
        assert_eq!(library.len(), machine.len());
        for (l, m) in library.iter().zip(machine.iter()) {
            assert_eq!(l.time, d(m.0));
            assert_eq!(l.rotation, quat(&m.1));
        }
    }
}

#[test]
fn trajectory_times_ascend() {
    let library = library_trajectory(&samples(), 100.0, 100.3);
    assert!(library.len() > 50);
    for pair in library.windows(2) {
        assert!(pair[0].time.lt(pair[1].time));
    }
}

fn at(time: f64) -> TrajectoryPoint {
    TrajectoryPoint { time: d(time), rotation: Quat::identity() }
}

#[test]
fn lookups_find_the_place_on_a_trajectory() {
    let traj = vec![at(1.0), at(2.0), at(2.0 + 1e-10), at(4.0)];
    assert_eq!(get_rotation_at_time(&Vec::new(), d(1.0)), Lookup::Identity);
    assert_eq!(get_rotation_at_time(&traj, d(0.5)), Lookup::At(0));
    assert_eq!(get_rotation_at_time(&traj, d(1.0)), Lookup::At(0));
    assert_eq!(get_rotation_at_time(&traj, d(4.0)), Lookup::At(3));
    assert_eq!(get_rotation_at_time(&traj, d(9.0)), Lookup::At(3));
    assert_eq!(get_rotation_at_time(&traj, d(1.25)), Lookup::Between(0, d(0.25)));
    assert_eq!(get_rotation_at_time(&traj, d(2.0)), Lookup::Between(0, d(1.0)));
    assert_eq!(get_rotation_at_time(&traj, d(2.0 + 5e-11)), Lookup::At(1));
    assert_eq!(get_rotation_at_time(&traj, d(3.0)), Lookup::Between(2, d((3.0 - (2.0 + 1e-10)) / (4.0 - (2.0 + 1e-10)))));
    assert_eq!(get_rotation_at_time(&traj, d(f64::NAN)), Lookup::At(3));
}

#[test]
fn interpolation_never_leaves_its_interval() {
    let traj: Vec<TrajectoryPoint> = (0..40).map(|i| at(1.0 + 0.1 * i as f64)).collect();
    for k in 0..1000 {
        let t = 1.0 + 0.0039 * k as f64;
        if let Lookup::Between(i, ratio) = get_rotation_at_time(&traj, d(t)) {
            assert!(i + 1 < traj.len());
            assert!((0.0..=1.0).contains(&back(ratio)));
        }
    }
}

fn machine_rotation(traj: &[(f64, UnitQuaternion<f64>)], t: f64) -> UnitQuaternion<f64> {
    if t <= traj[0].0 {
        return traj[0].1;
    }
    if t >= traj[traj.len() - 1].0 {
        return traj[traj.len() - 1].1;
    }
    for i in 0..traj.len() - 1 {
        let ((t0, q0), (t1, q1)) = (traj[i], traj[i + 1]);
        if t >= t0 && t <= t1 {
            let denom = t1 - t0;
            if denom.abs() < 1e-9 {
                return q0;
            }
            return q0.slerp(&q1, (t - t0) / denom);
        }
    }
    traj[traj.len() - 1].1
}

fn looked_up(traj: &Vec<TrajectoryPoint>, lookup: Lookup) -> Quat {
    let unit = |q: Quat| {
        UnitQuaternion::new_unchecked(Quaternion::new(back(q.w), back(q.i), back(q.j), back(q.k)))
    };
    match lookup {
        Lookup::Between(i, ratio) => {
            quat(&unit(traj[i].rotation).slerp(&unit(traj[i + 1].rotation), back(ratio)))
        }
        known => known_rotation(traj, known).unwrap(),
    }
}

fn deskew(cloud: &Vec<PointXYZT>, traj: &Vec<TrajectoryPoint>, min: f32, max: f32) -> Vec<P3> {
    let (start, lookups) = plan_rotations(cloud, traj, s(min), s(max));
    let rotations: Vec<Quat> = lookups.iter().map(|l| looked_up(traj, *l)).collect();
    preprocess_point_cloud(cloud, s(min), s(max), looked_up(traj, start), &rotations)
}

#[test]
fn points_are_turned_by_the_rotation_since_the_frame_start() {
    let turn = UnitQuaternion::from_axis_angle(&Vector3::z_axis(), std::f64::consts::FRAC_PI_2);
    let traj = vec![at(1.0), TrajectoryPoint { time: d(2.0), rotation: quat(&turn) }];
    let p = |t: f64| PointXYZT { x: s(1.0), y: s(0.0), z: s(0.0), timestamp: d(t) };
    let rows = deskew(&vec![p(1e9), p(2e9), p(1.5e9)], &traj, 0.5, 2.0);
    let h = 0.5f32.sqrt();
    for (row, expected) in rows.iter().zip([[1.0, 0.0, 0.0], [0.0, 1.0, 0.0], [h, h, 0.0]]) {
        for (c, e) in [row.x, row.y, row.z].iter().zip(expected) {
            assert!((f32::from_bits(c.bits) - e).abs() < 1e-6);
        }
    }
    assert_eq!(rows.len(), 3);
}

#[test]
fn rotations_that_need_no_interpolation_are_known() {
    let turn = Quat { w: d(0.0), i: d(1.0), j: d(0.0), k: d(0.0) };
    let traj = vec![at(1.0), TrajectoryPoint { time: d(2.0), rotation: turn }];
    assert_eq!(known_rotation(&traj, Lookup::At(1)), Some(turn));
    assert_eq!(known_rotation(&traj, Lookup::Identity), Some(Quat::identity()));
    assert_eq!(known_rotation(&traj, Lookup::Between(0, d(0.5))), None);
}

#[test]
fn clouds_agree_with_nalgebra() {
    let all = samples();
    let machine = machine_trajectory(&all, 100.0, 100.2);
    let library = library_trajectory(&all, 100.0, 100.2);
    let points: Vec<[f64; 4]> = (0..200)
        .map(|i| {
            let a = i as f64;
            [a * 0.2 - 20.0, (a * 0.7).sin() * 3.0, (a * 0.3).cos(), 1e11 + a * 1e6]
        })
        .collect();
    let cloud: Vec<PointXYZT> = points
        .iter()
        .map(|p| PointXYZT {
            x: s(p[0] as f32),
            y: s(p[1] as f32),
            z: s(p[2] as f32),
            timestamp: d(p[3]),
        })
        .collect();
    let (min_dist, max_dist) = (0.7f32, 15.0f32);
    let start_inv = machine_rotation(&machine, points[0][3] / 1_000_000_000.0).inverse();
    let mut expected = Vec::new();
    for p in &points {
        let (x, y, z) = (p[0] as f32, p[1] as f32, p[2] as f32);
        let dist = x * x + y * y + z * z;
        if dist < min_dist * min_dist || dist > max_dist * max_dist {
            continue;
        }
        let turn = start_inv * machine_rotation(&machine, p[3] / 1_000_000_000.0);
        let c = turn * Vector3::new(x as f64, y as f64, z as f64);
        if c.x.is_nan() || c.y.is_nan() || c.z.is_nan() {
            continue;
        }
        expected.push(P3 { x: s(c.x as f32), y: s(c.y as f32), z: s(c.z as f32) });
    }
    let (start, lookups) = plan_rotations(&cloud, &library, s(min_dist), s(max_dist));
    assert!(matches!(start, Lookup::Between(_, _)));
    assert!(lookups.iter().filter(|l| matches!(l, Lookup::Between(_, _))).count() > 100);
    let out = deskew(&cloud, &library, min_dist, max_dist);
    assert!(out.len() > 100 && out.len() < 200);
    assert_eq!(out, expected);
}

#[test]
fn points_out_of_range_or_without_a_place_are_dropped() {
    let p = |x: f32| PointXYZT { x: s(x), y: s(0.0), z: s(0.0), timestamp: d(0.0) };
    let cloud = vec![p(0.5), p(0.75), p(34.0), p(36.0), p(f32::NAN), p(-1.0)];
    let (start, lookups) = plan_rotations(&cloud, &Vec::new(), s(0.7), s(35.0));
    assert_eq!(start, Lookup::Identity);
    assert_eq!(lookups.len(), 4);
    let rotations = vec![Quat::identity(); 4];
    let out = preprocess_point_cloud(&cloud, s(0.7), s(35.0), Quat::identity(), &rotations);
    let xs: Vec<f32> = out.iter().map(|r| f32::from_bits(r.x.bits)).collect();
    assert_eq!(xs, vec![0.75, 34.0, -1.0]);
}

#[test]
fn lookups_at_the_points_name_the_points() {
    let traj: Vec<TrajectoryPoint> = (0..5).map(|i| at(1.0 + 0.5 * i as f64)).collect();
    for k in 0..5 {
        let lookup = get_rotation_at_time(&traj, traj[k].time);
        if k == 0 || k == 4 {
            assert_eq!(lookup, Lookup::At(k));
        } else {
            assert_eq!(lookup, Lookup::Between(k - 1, d(1.0)));
        }
    }
}

#[test]
fn the_first_point_sets_the_frame_start() {
    let traj = vec![at(1.0), at(2.0), at(4.0)];
    let p = |x: f32, t: f64| PointXYZT { x: s(x), y: s(0.0), z: s(0.0), timestamp: d(t) };
    let cloud = vec![p(1.0, 3e9), p(1.0, 1.5e9)];
    let (start, lookups) = plan_rotations(&cloud, &traj, s(0.5), s(2.0));
    assert_eq!(start, Lookup::Between(1, d(0.5)));
    assert_eq!(lookups, vec![start, Lookup::Between(0, d(0.5))]);
    // The first point counts even where it is out of range.
    let far = vec![p(9.0, 3e9), p(1.0, 1.5e9)];
    let (start, lookups) = plan_rotations(&far, &traj, s(0.5), s(2.0));
    assert_eq!(start, Lookup::Between(1, d(0.5)));
    assert_eq!(lookups, vec![Lookup::Between(0, d(0.5))]);
}

#[test]
fn predictions_can_be_made_in_parts() {
    let mut all = samples();
    all.truncate(19);
    let library = library_samples(&all);
    let (start, mid, end) = (99.999, all[9].t, 100.2);
    let mut parts = prediction_turns(&library, d(start), d(mid));
    assert_eq!(parts.len(), 10);
    parts.extend(prediction_turns(&library, d(mid), d(end)));
    assert_eq!(prediction_turns(&library, d(start), d(end)), parts);
}

#[test]
fn accelerations_do_not_turn() {
    let all = samples();
    let mut other = all.clone();
    for x in other.iter_mut() {
        x.acc = [x.acc[1] + 3.0, -x.acc[0], 1.0];
    }
    let (p, _) = library_prediction(&POSE, Vector3::new(0.3, -0.1, 0.05), 100.0, 100.2, &all);
    let (q, _) = library_prediction(&POSE, Vector3::new(9.0, 9.0, 9.0), 100.0, 100.2, &other);
    assert_eq!(p.rotation(), q.rotation());
    assert_ne!(p.position(), q.position());
    assert_eq!(p.r3, Mat4::pose_row());
}

#[test]
fn predicted_poses_are_rigid() {
    let (pose, _) =
        library_prediction(&POSE, Vector3::new(0.3, -0.1, 0.05), 99.0, 101.0, &samples());
    let r = pose.rotation();
    let m = Matrix3::from_rows(&[
        vector(r.r0).transpose(),
        vector(r.r1).transpose(),
        vector(r.r2).transpose(),
    ]);
    assert!((m.transpose() * m - Matrix3::identity()).abs().max() < 1e-5);
    assert!((m.determinant() - 1.0).abs() < 1e-5);
}
