use gicp_slam_cuda::float::double::F64;
use gicp_slam_cuda::float::single::F32;

#[test]
fn narrowing_undoes_widening() {
    for bits in (0..=u32::MAX).step_by(65_537) {
        let x = F32::from_bits(bits);
        if !x.is_nan() {
            assert_eq!(x.widened().narrowed(), x);
        }
    }
}

#[test]
fn widening_keeps_the_order() {
    let xs = [f32::MIN, -1.0, -1e-45, 0.0, 1e-45, 0.1, 1.0, 3.5e10, f32::MAX];
    for a in xs {
        for b in xs {
            let (x, y) = (F32::from_bits(a.to_bits()), F32::from_bits(b.to_bits()));
            assert_eq!(x.lt(y), a < b);
            assert_eq!(x.widened().lt(y.widened()), a < b);
        }
    }
}

#[test]
fn ties_go_to_even() {
    // The 32-bit numbers around 2^24 lie two apart.
    assert_eq!(F32::from_count(16_777_217), F32::from_count(16_777_216));
    assert_eq!(F32::from_count(16_777_219), F32::from_count(16_777_220));
    let x = F64::from_bits(1.0000000596046448f64.to_bits());
    assert_eq!(x.narrowed(), F32::from_bits(0x3f80_0000));
    let y = F64::from_bits(1.0000001788139343f64.to_bits());
    assert_eq!(y.narrowed(), F32::from_bits(0x3f80_0002));
}

#[test]
fn a_sum_is_the_nearest_number() {
    let x = F64::from_bits(0.1f64.to_bits()).plus(F64::from_bits(0.2f64.to_bits()));
    assert_eq!(x, F64::from_bits(0.30000000000000004f64.to_bits()));
    let y = F64::from_bits(1e16f64.to_bits()).plus(F64::from_bits(1.0f64.to_bits()));
    assert_eq!(y, F64::from_bits(1e16f64.to_bits()));
}

#[test]
fn whole_parts_are_cut_off() {
    for x in [0.0f32, 0.9, 1.0, 1.2, 1e9, 1.8446744e19, 3e19, f32::INFINITY, f32::NAN, -0.5, -7.0] {
        assert_eq!(F32::from_bits(x.to_bits()).trunc_usize(), x as usize, "{x}");
    }
}

#[test]
fn floors_agree_with_the_machine() {
    for x in [0.0f32, -0.0, 0.9, -0.1, -1.0, -1.5, 2.5, 2147483500.0, 3e9, -3e9, f32::NAN] {
        assert_eq!(F32::from_bits(x.to_bits()).floor_i32(), x.floor() as i32, "{x}");
    }
}
