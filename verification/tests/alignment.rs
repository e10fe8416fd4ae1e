use gicp_slam_cuda::cloud::P3;
use gicp_slam_cuda::float::double::F64;
use gicp_slam_cuda::float::single::F32;
use gicp_slam_cuda::geometry::{M3, V3};
use gicp_slam_cuda::pose::{mat4_mul, twist_angle, Mat4, Row4, Twist};
use gicp_slam_cuda::registration::{
    enough_pairs, gather_source, gather_target, is_near, pair_covariances, pair_rmse, select_pairs,
    solve_gicp_step, solve_linear_system_6x6, GicpError, Pair, Registration, RmseStats,
};
use nalgebra::{Matrix3, Matrix6, Vector3, Vector6};

fn s(x: f32) -> F32 {
    F32::from_bits(x.to_bits())
}

fn d(x: f64) -> F64 {
    F64::from_bits(x.to_bits())
}

fn back(m: M3) -> Matrix3<f64> {
    let f = |x: F64| f64::from_bits(x.bits);
    Matrix3::new(
        f(m.r0.x), f(m.r0.y), f(m.r0.z),
        f(m.r1.x), f(m.r1.y), f(m.r1.z),
        f(m.r2.x), f(m.r2.y), f(m.r2.z),
    )
}

fn m3(a: Matrix3<f64>) -> M3 {
    M3 {
        r0: V3::new(d(a[(0, 0)]), d(a[(0, 1)]), d(a[(0, 2)])),
        r1: V3::new(d(a[(1, 0)]), d(a[(1, 1)]), d(a[(1, 2)])),
        r2: V3::new(d(a[(2, 0)]), d(a[(2, 1)]), d(a[(2, 2)])),
    }
}

struct Numbers {
    state: u64,
}

impl Numbers {
    fn next(&mut self) -> f64 {
        self.state = self.state.wrapping_mul(6364136223846793005).wrapping_add(1442695040888963407);
        ((self.state >> 11) as f64 / (1u64 << 53) as f64 - 0.5) * 10.0
    }

    fn covariance(&mut self) -> Matrix3<f64> {
        let a = Matrix3::from_fn(|_, _| self.next());
        a * a.transpose()
    }
}

fn machine_equations(
    source: &[[f32; 3]],
    source_covs: &[Matrix3<f64>],
    target: &[[f32; 3]],
    target_covs: &[Matrix3<f64>],
) -> (Matrix6<f64>, Vector6<f64>) {
    let mut h = Matrix6::<f64>::zeros();
    let mut b = Vector6::<f64>::zeros();
    for i in 0..source.len() {
        let ps = Vector3::new(source[i][0] as f64, source[i][1] as f64, source[i][2] as f64);
        let pt = Vector3::new(target[i][0] as f64, target[i][1] as f64, target[i][2] as f64);
        let omega = match (target_covs[i] + source_covs[i]).try_inverse() {
            Some(inv) => inv,
            None => continue,
        };
        let we = omega * (pt - ps);
        let cross = ps.cross(&we);
        for k in 0..3 {
            b[k] += cross[k];
            b[k + 3] += we[k];
        }
        let w = [
            omega * Vector3::new(0.0, -ps.z, ps.y),
            omega * Vector3::new(ps.z, 0.0, -ps.x),
            omega * Vector3::new(-ps.y, ps.x, 0.0),
        ];
        for c in 0..3 {
            let col = ps.cross(&w[c]);
            for r in 0..3 {
                h[(r, c)] += col[r];
                h[(3 + r, 3 + c)] += omega[(r, c)];
                h[(r, 3 + c)] += w[r][c];
                h[(3 + r, c)] += w[c][r];
            }
        }
    }
    (h, b)
}

#[test]
fn equations_agree_with_nalgebra() {
    let mut g = Numbers { state: 41 };
    let n = 60;
    let rows = |g: &mut Numbers| -> Vec<[f32; 3]> {
        (0..n).map(|_| [g.next() as f32, g.next() as f32, g.next() as f32]).collect()
    };
    let (source, target) = (rows(&mut g), rows(&mut g));
    let source_covs: Vec<Matrix3<f64>> = (0..n).map(|_| g.covariance()).collect();
    let mut target_covs: Vec<Matrix3<f64>> = (0..n).map(|_| g.covariance()).collect();
    // A pair whose covariances cancel has no weight.
    target_covs[7] = -source_covs[7];
    let (h, b) = machine_equations(&source, &source_covs, &target, &target_covs);

    let p3 = |v: &Vec<[f32; 3]>| -> Vec<P3> {
        v.iter().map(|r| P3 { x: s(r[0]), y: s(r[1]), z: s(r[2]) }).collect()
    };
    let pairs: Vec<Pair> = (0..n).map(|i| Pair { source: i, target: i }).collect();
    let sums = pair_covariances(
        &pairs,
        &source_covs.iter().map(|c| m3(*c)).collect(),
        &target_covs.iter().map(|c| m3(*c)).collect(),
    );
    let weights: Vec<Option<M3>> =
        sums.iter().map(|c| back(*c).try_inverse().map(m3)).collect();
    assert!(weights[7].is_none());
    let eqs = solve_gicp_step(
        &gather_source(&pairs, &p3(&source)),
        &gather_target(&pairs, &p3(&target)),
        &weights,
    );
    let entries = eqs.matrix_entries();
    assert_eq!(entries.len(), 36);
    for r in 0..6 {
        for c in 0..6 {
            assert_eq!(entries[6 * r + c], d(h[(r, c)]), "entry {r} {c}");
        }
    }
    let side = eqs.right_side();
    for k in 0..6 {
        assert_eq!(side[k], d(b[k]));
    }
    assert_eq!(eqs.h_mix_t, eqs.h_mix.transposed());
}

#[test]
fn no_pairs_give_zero_equations() {
    let eqs = solve_gicp_step(&Vec::new(), &Vec::new(), &Vec::new());
    assert!(eqs.matrix_entries().iter().all(|x| x.bits == 0));
    assert!(eqs.right_side().iter().all(|x| x.bits == 0));
}

#[test]
fn a_missing_solution_is_an_error() {
    assert_eq!(
        solve_linear_system_6x6(None, d(1.0), d(0.0)),
        Err(GicpError::LinearSolveFailed)
    );
    let x = Twist {
        alpha: d(0.0),
        beta: d(0.0),
        gamma: d(0.25),
        t: V3::new(d(1.0), d(2.0), d(3.0)),
    };
    let theta = f64::from_bits(twist_angle(x).bits);
    let m = solve_linear_system_6x6(Some(x), d(theta.cos()), d(theta.sin())).unwrap();
    assert_eq!(m.position(), P3 { x: s(1.0), y: s(2.0), z: s(3.0) });
    assert_eq!(m.r1.x, s(0.25f64.sin() as f32));
}

#[test]
fn pairs_are_near_and_in_range() {
    let indices = vec![2, -1, 0, 5, 1, 4];
    let dists: Vec<F32> =
        [0.1f32, 0.1, 0.5, 0.2, 0.500001, f32::NAN].iter().map(|x| s(*x)).collect();
    let pairs = select_pairs(6, 5, &indices, &dists);
    assert_eq!(
        pairs,
        vec![
            Pair { source: 0, target: 2 },
            Pair { source: 2, target: 0 },
            Pair { source: 5, target: 4 }
        ]
    );
    assert!(is_near(0, s(0.5)));
    assert!(!is_near(0, s(0.6)));
    assert!(!is_near(-1, s(0.0)));
    assert!(select_pairs(0, 5, &indices, &dists).is_empty());
}

#[test]
fn points_are_gathered_by_pairs() {
    let row = |x: f32| P3 { x: s(x), y: s(0.0), z: s(0.0) };
    let pairs = vec![Pair { source: 1, target: 0 }, Pair { source: 0, target: 2 }];
    let rows = vec![row(10.0), row(11.0), row(12.0)];
    assert_eq!(gather_source(&pairs, &rows), vec![row(11.0), row(10.0)]);
    assert_eq!(gather_target(&pairs, &rows), vec![row(10.0), row(12.0)]);
}

#[test]
fn the_error_is_a_root_mean_square() {
    let indices = vec![0, 9, -1, 1];
    let dists: Vec<F32> = [0.25f32, 0.5, 0.1, 0.7].iter().map(|x| s(*x)).collect();
    // An index past the target counts here, but makes no pair.
    assert_eq!(pair_rmse(4, &indices, &dists), s(((0.25f32 + 0.5) / 2.0).sqrt()));
    assert_eq!(select_pairs(4, 5, &indices, &dists).len(), 1);
    assert!(pair_rmse(0, &indices, &dists).is_nan());
}

#[test]
fn twenty_pairs_are_enough() {
    assert!(!enough_pairs(19));
    assert!(enough_pairs(20));
}

fn shift(x: f32) -> Mat4 {
    let o = s(0.0);
    Mat4 { r0: Row4 { x: s(1.0), y: o, z: o, w: s(x) }, ..Mat4::identity() }
}

#[test]
fn an_alignment_ends_when_the_error_is_small() {
    let mut r = Registration::new(shift(1.0));
    assert!(!r.done);
    r.found_pairs(20);
    assert!(!r.done);
    let stats = r.step(shift(0.5), s(0.3));
    assert_eq!(stats, RmseStats { frame_index: 0, rmse: s(0.3) });
    assert_eq!(r.transform, mat4_mul(shift(0.5), shift(1.0)));
    assert_eq!(r.transform.position().x, s(1.5));
    assert!(!r.done);
    assert_eq!(r.step(shift(0.0), s(0.125)).frame_index, 1);
    assert!(!r.done);
    r.step(shift(0.0), s(0.1249));
    assert!(r.done);
    assert_eq!(r.iteration, 3);
}

#[test]
fn an_alignment_takes_at_most_four_steps() {
    let mut r = Registration::new(Mat4::identity());
    let mut steps = 0;
    while !r.done {
        r.found_pairs(100);
        r.step(shift(0.1), s(9.0));
        steps += 1;
    }
    assert_eq!(steps, 4);
}

#[test]
fn too_few_pairs_end_an_alignment() {
    let mut r = Registration::new(shift(2.0));
    r.found_pairs(19);
    assert!(r.done);
    assert_eq!(r.transform, shift(2.0));
    assert_eq!(r.iteration, 0);
}

#[test]
fn exchanged_covariances_have_the_same_sums() {
    let mut g = Numbers { state: 42 };
    let source: Vec<M3> = (0..10).map(|_| m3(g.covariance())).collect();
    let target: Vec<M3> = (0..10).map(|_| m3(g.covariance())).collect();
    let pairs: Vec<Pair> = (0..10).map(|i| Pair { source: i, target: (3 * i) % 10 }).collect();
    let swapped: Vec<Pair> =
        pairs.iter().map(|p| Pair { source: p.target, target: p.source }).collect();
    assert_eq!(
        pair_covariances(&pairs, &source, &target),
        pair_covariances(&swapped, &target, &source)
    );
    assert_eq!(back(pair_covariances(&pairs, &source, &target)[1]), back(source[1]) + back(target[3]));
}

#[test]
fn doubled_covariances_have_doubled_sums() {
    let mut g = Numbers { state: 43 };
    let source: Vec<Matrix3<f64>> = (0..10).map(|_| g.covariance()).collect();
    let target: Vec<Matrix3<f64>> = (0..10).map(|_| g.covariance()).collect();
    let pairs: Vec<Pair> = (0..10).map(|i| Pair { source: i, target: 9 - i }).collect();
    let sums = |k: f64| {
        pair_covariances(
            &pairs,
            &source.iter().map(|c| m3(c * k)).collect(),
            &target.iter().map(|c| m3(c * k)).collect(),
        )
    };
    for (twice, once) in sums(2.0).iter().zip(sums(1.0).iter()) {
        assert_eq!(back(*twice), back(*once) * 2.0);
    }
}

#[test]
fn doubled_weights_give_doubled_equations() {
    let mut g = Numbers { state: 44 };
    let mut rows = || -> Vec<P3> {
        (0..30)
            .map(|_| P3 { x: s(g.next() as f32), y: s(g.next() as f32), z: s(g.next() as f32) })
            .collect()
    };
    let (source, target) = (rows(), rows());
    let weights: Vec<Option<Matrix3<f64>>> =
        (0..30).map(|i| if i == 4 { None } else { Some(g.covariance()) }).collect();
    let equations = |k: f64| {
        let scaled: Vec<Option<M3>> = weights.iter().map(|w| w.map(|w| m3(w * k))).collect();
        solve_gicp_step(&source, &target, &scaled)
    };
    let (twice, once) = (equations(2.0), equations(1.0));
    let f = |x: F64| f64::from_bits(x.bits);
    for (a, b) in twice.matrix_entries().iter().zip(once.matrix_entries().iter()) {
        assert_eq!(f(*a), 2.0 * f(*b));
    }
    for (a, b) in twice.right_side().iter().zip(once.right_side().iter()) {
        assert_eq!(f(*a), 2.0 * f(*b));
    }
}
