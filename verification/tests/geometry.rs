use gicp_slam_cuda::float::double::F64;
use gicp_slam_cuda::geometry::{Quat, M3, V3};
use nalgebra::{Matrix3, Quaternion, Unit, UnitQuaternion, Vector3};

/// A small generator of ordinary numbers.
struct Numbers {
    state: u64,
}

impl Numbers {
    fn next(&mut self) -> f64 {
        self.state = self.state.wrapping_mul(6364136223846793005).wrapping_add(1442695040888963407);
        let m = (self.state >> 11) as f64 / (1u64 << 53) as f64;
        let scale = [1e-6, 1e-2, 1.0, 30.0, 1e5][(self.state % 5) as usize];
        (m - 0.5) * scale
    }

    fn vector(&mut self) -> Vector3<f64> {
        Vector3::new(self.next(), self.next(), self.next())
    }

    fn matrix(&mut self) -> Matrix3<f64> {
        let (a, b, c) = (self.vector(), self.vector(), self.vector());
        Matrix3::new(a.x, a.y, a.z, b.x, b.y, b.z, c.x, c.y, c.z)
    }

    fn quaternion(&mut self) -> Quaternion<f64> {
        Quaternion::new(self.next(), self.next(), self.next(), self.next())
    }
}

fn f(x: f64) -> F64 {
    F64::from_bits(x.to_bits())
}

fn v(a: Vector3<f64>) -> V3 {
    V3::new(f(a.x), f(a.y), f(a.z))
}

fn m(a: Matrix3<f64>) -> M3 {
    M3 {
        r0: V3::new(f(a[(0, 0)]), f(a[(0, 1)]), f(a[(0, 2)])),
        r1: V3::new(f(a[(1, 0)]), f(a[(1, 1)]), f(a[(1, 2)])),
        r2: V3::new(f(a[(2, 0)]), f(a[(2, 1)]), f(a[(2, 2)])),
    }
}

fn q(a: Quaternion<f64>) -> Quat {
    Quat { w: f(a.w), i: f(a.i), j: f(a.j), k: f(a.k) }
}

#[test]
fn vectors_agree_with_nalgebra() {
    let mut g = Numbers { state: 11 };
    for _ in 0..20_000 {
        let (a, b, s) = (g.vector(), g.vector(), g.next());
        assert_eq!(v(a).plus(v(b)), v(a + b));
        assert_eq!(v(a).minus(v(b)), v(a - b));
        assert_eq!(v(a).scaled(f(s)), v(a * s));
        assert_eq!(v(a).divided(f(s)), v(a / s));
        assert_eq!(v(a).dot(v(b)), f(a.dot(&b)));
        assert_eq!(v(a).norm(), f(a.norm()));
        assert_eq!(v(a).cross(v(b)), v(a.cross(&b)));
        assert_eq!(v(a).divided(v(a).norm()), v(Unit::new_normalize(a).into_inner()));
    }
}

#[test]
fn capping_agrees_with_nalgebra() {
    let mut g = Numbers { state: 12 };
    for _ in 0..20_000 {
        let a = g.vector();
        assert_eq!(v(a).capped(f(2.0)), v(a.cap_magnitude(2.0)));
    }
    let slow = Vector3::new(1.0, -1.0, 1.0);
    assert_eq!(v(slow).capped(f(2.0)), v(slow));
    let fast = Vector3::new(3.0, 0.0, 4.0);
    assert_eq!(v(fast).capped(f(2.0)), V3::new(f(1.2000000000000002), f(0.0), f(1.6)));
}

#[test]
fn matrices_agree_with_nalgebra() {
    let mut g = Numbers { state: 13 };
    for _ in 0..5_000 {
        let (a, b, x) = (g.matrix(), g.matrix(), g.vector());
        assert_eq!(m(a).apply(v(x)), v(a * x));
        assert_eq!(m(a).plus(m(b)), m(a + b));
        assert_eq!(m(a).times(m(b)), m(a * b));
        assert_eq!(m(a).transposed(), m(a.transpose()));
    }
}

#[test]
fn quaternions_agree_with_nalgebra() {
    let mut g = Numbers { state: 14 };
    for _ in 0..5_000 {
        let (a, b, x) = (g.quaternion(), g.quaternion(), g.vector());
        assert_eq!(q(a).times(q(b)), q(a * b));
        assert_eq!(q(a).norm(), f(a.norm()));
        assert_eq!(q(a).conjugate(), q(a.conjugate()));
        let u = UnitQuaternion::new_normalize(a);
        assert_eq!(q(a).normalized(), q(*u.quaternion()));
        assert_eq!(q(*u.quaternion()).rotate(v(x)), v(u * x));
        assert_eq!(
            q(*u.quaternion()).to_matrix(),
            m(*u.to_rotation_matrix().matrix())
        );
        assert_eq!(q(*u.quaternion()).conjugate(), q(*u.inverse().quaternion()));
        let mut w = u * UnitQuaternion::new_normalize(b);
        let before = *w.quaternion();
        w.renormalize();
        assert_eq!(q(before).normalized(), q(*w.quaternion()));
    }
}

#[test]
fn the_identity_turns_nothing() {
    let x = V3::new(f(1.5), f(-2.0), f(0.25));
    assert_eq!(Quat::identity().rotate(x), x);
    assert_eq!(Quat::identity().to_matrix(), m(Matrix3::identity()));
}

#[test]
fn a_quarter_turn_moves_the_first_axis_to_the_second() {
    let h = 0.5f64.sqrt();
    let turn = Quat { w: f(h), i: f(0.0), j: f(0.0), k: f(h) };
    let moved = turn.rotate(V3::new(f(1.0), f(0.0), f(0.0)));
    assert_eq!(moved.y, f(1.0000000000000002));
    assert!(f64::from_bits(moved.x.bits).abs() < 1e-15);
    assert_eq!(moved.z, f(0.0));
}
