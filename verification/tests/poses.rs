use gicp_slam_cuda::cloud::P3;
use gicp_slam_cuda::float::double::F64;
use gicp_slam_cuda::float::single::F32;
use gicp_slam_cuda::geometry::{Quat, M3, V3};
use gicp_slam_cuda::pose::{
    convert_se3_to_matrix4, extract_pose_from_matrix, mat4_mul, transform_covariances,
    transform_points, twist_angle, Mat4, Row4, Twist,
};
use nalgebra::{Matrix3, UnitQuaternion};
use ndarray::Array2;

struct Numbers {
    state: u64,
}

impl Numbers {
    fn next(&mut self) -> f64 {
        self.state = self.state.wrapping_mul(6364136223846793005).wrapping_add(1442695040888963407);
        ((self.state >> 11) as f64 / (1u64 << 53) as f64 - 0.5) * 4.0
    }

    fn square(&mut self) -> Array2<f32> {
        Array2::from_shape_fn((4, 4), |_| self.next() as f32)
    }
}

fn s(x: f32) -> F32 {
    F32::from_bits(x.to_bits())
}

fn d(x: f64) -> F64 {
    F64::from_bits(x.to_bits())
}

fn row(a: &Array2<f32>, i: usize) -> Row4 {
    Row4 { x: s(a[[i, 0]]), y: s(a[[i, 1]]), z: s(a[[i, 2]]), w: s(a[[i, 3]]) }
}

fn mat(a: &Array2<f32>) -> Mat4 {
    Mat4 { r0: row(a, 0), r1: row(a, 1), r2: row(a, 2), r3: row(a, 3) }
}

fn m3(a: Matrix3<f64>) -> M3 {
    M3 {
        r0: V3::new(d(a[(0, 0)]), d(a[(0, 1)]), d(a[(0, 2)])),
        r1: V3::new(d(a[(1, 0)]), d(a[(1, 1)]), d(a[(1, 2)])),
        r2: V3::new(d(a[(2, 0)]), d(a[(2, 1)]), d(a[(2, 2)])),
    }
}

fn rotation_of(a: &Array2<f32>) -> Matrix3<f64> {
    Matrix3::from_fn(|r, c| a[[r, c]] as f64)
}

#[test]
fn products_agree_with_the_machine() {
    let mut g = Numbers { state: 21 };
    for _ in 0..2_000 {
        let (a, b) = (g.square(), g.square());
        let mut out = Array2::<f32>::zeros((4, 4));
        for i in 0..4 {
            for j in 0..4 {
                let mut sum = 0.0f32;
                for k in 0..4 {
                    sum += a[[i, k]] * b[[k, j]];
                }
                out[[i, j]] = sum;
            }
        }
        assert_eq!(mat4_mul(mat(&a), mat(&b)), mat(&out));
    }
}

#[test]
fn the_identity_is_neutral() {
    let eye = Array2::<f32>::eye(4);
    assert_eq!(mat(&eye), Mat4::identity());
    let mut g = Numbers { state: 22 };
    let a = g.square();
    assert_eq!(mat4_mul(Mat4::identity(), mat(&a)), mat(&a));
    assert_eq!(mat4_mul(mat(&a), Mat4::identity()), mat(&a));
}

fn machine_twist(x: [f64; 6]) -> Array2<f32> {
    let [alpha, beta, gamma, tx, ty, tz] = x;
    let theta = (alpha * alpha + beta * beta + gamma * gamma).sqrt();
    let r: [[f64; 3]; 3] = if theta < 1e-9 {
        [[1.0, -gamma, beta], [gamma, 1.0, -alpha], [-beta, alpha, 1.0]]
    } else {
        let (kx, ky, kz) = (alpha / theta, beta / theta, gamma / theta);
        let (c, n) = (theta.cos(), theta.sin());
        let v = 1.0 - c;
        [
            [kx * kx * v + c, kx * ky * v - kz * n, kx * kz * v + ky * n],
            [kx * ky * v + kz * n, ky * ky * v + c, ky * kz * v - kx * n],
            [kx * kz * v - ky * n, ky * kz * v + kx * n, kz * kz * v + c],
        ]
    };
    let t = [tx, ty, tz];
    Array2::from_shape_fn((4, 4), |(i, j)| {
        if i == 3 {
            if j == 3 { 1.0 } else { 0.0 }
        } else if j == 3 {
            t[i] as f32
        } else {
            r[i][j] as f32
        }
    })
}

fn library_twist(x: [f64; 6]) -> Mat4 {
    let twist =
        Twist { alpha: d(x[0]), beta: d(x[1]), gamma: d(x[2]), t: V3::new(d(x[3]), d(x[4]), d(x[5])) };
    let theta = f64::from_bits(twist_angle(twist).bits);
    convert_se3_to_matrix4(twist, d(theta.cos()), d(theta.sin()))
}

#[test]
fn twists_agree_with_the_machine() {
    let mut g = Numbers { state: 23 };
    for _ in 0..2_000 {
        let x = [g.next(), g.next(), g.next(), g.next(), g.next(), g.next()];
        assert_eq!(library_twist(x), mat(&machine_twist(x)));
    }
}

#[test]
fn tiny_twists_are_taken_to_first_order() {
    let x = [3e-10, -4e-10, 1e-10, 1.0, 2.0, 3.0];
    assert_eq!(library_twist(x), mat(&machine_twist(x)));
    assert_eq!(library_twist(x).r0.y, s(-1e-10));
    assert_eq!(library_twist([0.0; 6]).r1.y, s(1.0));
}

#[test]
fn a_quarter_twist_about_the_third_axis() {
    let m = library_twist([0.0, 0.0, std::f64::consts::FRAC_PI_2, 0.5, 0.0, 0.0]);
    assert_eq!(m.r0.y, s(-1.0));
    assert_eq!(m.r1.x, s(1.0));
    assert_eq!(m.r0.w, s(0.5));
    assert_eq!(m.r3, Mat4::pose_row());
}

#[test]
fn the_log_entry_holds_position_and_quaternion() {
    let x = [0.3, -0.2, 0.9, 4.0, 5.0, 6.0];
    let a = machine_twist(x);
    let q = UnitQuaternion::from_matrix(&rotation_of(&a));
    let pose = extract_pose_from_matrix(
        d(12.5),
        mat(&a),
        Quat { w: d(q.w), i: d(q.i), j: d(q.j), k: d(q.k) },
    );
    assert_eq!(pose.timestamp, d(12.5));
    assert_eq!(pose.position, P3 { x: s(4.0), y: s(5.0), z: s(6.0) });
    assert_eq!(
        pose.rotation_quat,
        Row4 { x: s(q.w as f32), y: s(q.i as f32), z: s(q.j as f32), w: s(q.k as f32) }
    );
}

#[test]
fn points_are_moved_by_the_position() {
    let a = machine_twist([0.0, 0.0, 0.0, 1.0, -2.0, 0.5]);
    let rows = vec![P3 { x: s(1.0), y: s(1.0), z: s(1.0) }, P3 { x: s(0.1), y: s(0.2), z: s(0.3) }];
    let moved = transform_points(&rows, mat(&a));
    assert_eq!(moved.len(), 2);
    assert_eq!(moved[0], P3 { x: s(2.0), y: s(-1.0), z: s(1.5) });
    assert_eq!(moved[1], P3 { x: s(0.1 + 1.0), y: s(0.2 - 2.0), z: s(0.3 + 0.5) });
}

#[test]
fn covariances_agree_with_nalgebra() {
    let mut g = Numbers { state: 24 };
    let a = machine_twist([0.4, 0.1, -0.7, 0.0, 0.0, 0.0]);
    let r = rotation_of(&a);
    let covs: Vec<Matrix3<f64>> = (0..50).map(|_| Matrix3::from_fn(|_, _| g.next())).collect();
    let out = transform_covariances(&covs.iter().map(|c| m3(*c)).collect(), mat(&a));
    for (c, o) in covs.iter().zip(out.iter()) {
        assert_eq!(*o, m3(r * c * r.transpose()));
    }
}

#[test]
fn products_of_poses_are_poses() {
    let a = library_twist([0.3, -0.2, 0.9, 4.0, 5.0, 6.0]);
    let b = library_twist([-1.0, 0.5, 0.1, -7.0, 0.0, 1e30]);
    assert_eq!(mat4_mul(a, b).r3, Mat4::pose_row());
    assert_eq!(mat4_mul(mat4_mul(a, b), a).r3, Mat4::pose_row());
}

fn f(x: F32) -> f32 {
    f32::from_bits(x.bits)
}

fn turned_row(m: Mat4, p: P3) -> P3 {
    let dot = |r: Row4| s(f(r.x) * f(p.x) + f(r.y) * f(p.y) + f(r.z) * f(p.z));
    P3 { x: dot(m.r0), y: dot(m.r1), z: dot(m.r2) }
}

fn moved(m: Mat4, p: P3) -> P3 {
    transform_points(&vec![turned_row(m, p)], m)[0]
}

#[test]
fn moving_by_a_product_moves_twice() {
    let a = library_twist([0.3, -0.2, 0.9, 4.0, 5.0, 6.0]);
    let b = library_twist([-1.0, 0.5, 0.1, -7.0, 0.5, 2.0]);
    let p = P3 { x: s(10.0), y: s(-20.0), z: s(3.5) };
    let (once, twice) = (moved(mat4_mul(a, b), p), moved(a, moved(b, p)));
    for (x, y) in [(once.x, twice.x), (once.y, twice.y), (once.z, twice.z)] {
        assert!((f(x) - f(y)).abs() < 1e-4);
    }
    assert_eq!(moved(Mat4::identity(), p), p);
    let zero = P3 { x: s(-0.0), y: s(1.0), z: s(0.0) };
    assert_eq!(transform_points(&vec![zero], Mat4::identity())[0].x, s(0.0));
}

#[test]
fn opposite_twists_are_transposed() {
    for x in [[0.3, -0.2, 0.9], [1e-10, 2e-10, -3e-10], [0.0, 2.5, 0.0], [1e100, -2e100, 3e99]] {
        let m = library_twist([x[0], x[1], x[2], 0.0, 0.0, 0.0]);
        let n = library_twist([-x[0], -x[1], -x[2], 0.0, 0.0, 0.0]);
        assert_eq!(n.rotation(), m.rotation().transposed());
        let product = mat4_mul(m, n);
        for (row, i) in [product.r0, product.r1, product.r2].iter().zip(0..3) {
            for (entry, j) in [row.x, row.y, row.z].iter().zip(0..3) {
                let expected = if i == j { 1.0 } else { 0.0 };
                assert!((f(*entry) - expected).abs() < 1e-5);
            }
        }
    }
}

#[test]
fn turned_covariances_keep_their_trace() {
    let mut g = Numbers { state: 25 };
    let m = library_twist([0.4, 0.1, -0.7, 1.0, 2.0, 3.0]);
    let back = Mat4 {
        r0: Row4 { x: m.r0.x, y: m.r1.x, z: m.r2.x, w: s(0.0) },
        r1: Row4 { x: m.r0.y, y: m.r1.y, z: m.r2.y, w: s(0.0) },
        r2: Row4 { x: m.r0.z, y: m.r1.z, z: m.r2.z, w: s(0.0) },
        r3: Mat4::pose_row(),
    };
    let covs: Vec<Matrix3<f64>> = (0..20)
        .map(|_| {
            let a = Matrix3::from_fn(|_, _| g.next());
            a * a.transpose()
        })
        .collect();
    let library: Vec<M3> = covs.iter().map(|c| m3(*c)).collect();
    let out = transform_covariances(&library, m);
    let again = transform_covariances(&out, back);
    let e = |x: F64| f64::from_bits(x.bits);
    for i in 0..20 {
        let t = out[i];
        assert!((e(t.r0.y) - e(t.r1.x)).abs() < 1e-12);
        assert!((e(t.r0.z) - e(t.r2.x)).abs() < 1e-12);
        assert!((e(t.r1.z) - e(t.r2.y)).abs() < 1e-12);
        assert!((e(t.r0.x) + e(t.r1.y) + e(t.r2.z) - covs[i].trace()).abs() < 1e-4);
        assert!((e(again[i].r0.y) - covs[i][(0, 1)]).abs() < 1e-4);
        assert!((e(again[i].r2.z) - covs[i][(2, 2)]).abs() < 1e-4);
    }
}

#[test]
fn large_points_are_moved_twice() {
    let row = |x: f32, y: f32, z: f32, w: f32| Row4 { x: s(x), y: s(y), z: s(z), w: s(w) };
    let a = Mat4 {
        r0: row(3e7, -2e6, 5.0, 1e12),
        r1: row(0.5, 4e5, -7e3, 3e10),
        r2: row(1e3, 0.0, 2e4, -1.0),
        r3: row(9.0, 8.0, 7.0, 6.0),
    };
    let b = Mat4 {
        r0: row(1e6, 2.0, -3e5, 7e8),
        r1: row(-4e4, 5e3, 0.25, 1e9),
        r2: row(6e6, -1e2, 8e3, 2e7),
        r3: Mat4::pose_row(),
    };
    let p = P3 { x: s(1e5), y: s(-3e6), z: s(0.125) };
    let (once, twice) = (moved(mat4_mul(a, b), p), moved(a, moved(b, p)));
    for (x, y) in [(once.x, twice.x), (once.y, twice.y), (once.z, twice.z)] {
        assert!((f(x) - f(y)).abs() < 1e-5 * f(x).abs());
    }
}

#[test]
fn turned_covariances_keep_their_determinant() {
    let mut g = Numbers { state: 26 };
    let m = library_twist([0.4, 0.1, -0.7, 1.0, 2.0, 3.0]);
    let e = |x: F64| f64::from_bits(x.bits);
    for size in [1.0, 1e-30, 1e60] {
        let a = Matrix3::from_fn(|_, _| g.next());
        let cov = a * a.transpose() * size;
        let out = transform_covariances(&vec![m3(cov)], m);
        assert_eq!(out.len(), 1);
        let t = out[0];
        let turned = Matrix3::new(
            e(t.r0.x), e(t.r0.y), e(t.r0.z),
            e(t.r1.x), e(t.r1.y), e(t.r1.z),
            e(t.r2.x), e(t.r2.y), e(t.r2.z),
        );
        let scale = (cov.trace() / 3.0).powi(3);
        assert!((turned.determinant() - cov.determinant()).abs() < 1e-5 * scale);
        assert!((turned.trace() - cov.trace()).abs() < 1e-5 * cov.trace());
        assert!((turned - turned.transpose()).abs().max() < 1e-12 * cov.trace());
    }
}
