use gicp_slam_cuda::float::double::F64;
use gicp_slam_cuda::float::single::F32;

/// A small generator of bit patterns.
struct Patterns {
    state: u64,
}

impl Patterns {
    fn next(&mut self) -> u64 {
        self.state = self.state.wrapping_mul(6364136223846793005).wrapping_add(1442695040888963407);
        let x = self.state;
        let y = (x >> 33) ^ x;
        y.wrapping_mul(0xff51_afd7_ed55_8ccd) ^ (y >> 29)
    }
}

fn same32(a: f32, b: F32) -> bool {
    (a.is_nan() && b.is_nan()) || a.to_bits() == b.bits
}

fn same64(a: f64, b: F64) -> bool {
    (a.is_nan() && b.is_nan()) || a.to_bits() == b.bits
}

fn check32(a: f32, b: f32) {
    let (x, y) = (F32::from_bits(a.to_bits()), F32::from_bits(b.to_bits()));
    assert!(same32(a + b, x.plus(y)), "{a:e} + {b:e}");
    assert!(same32(a - b, x.minus(y)), "{a:e} - {b:e}");
    assert!(same32(a * b, x.times(y)), "{a:e} * {b:e}");
    assert!(same32(a / b, x.over(y)), "{a:e} / {b:e}");
    assert!(same32(a.sqrt(), x.sqrt()), "sqrt {a:e}");
    assert!(same32(-a, x.negated()), "- {a:e}");
    assert!(same32(a.abs(), x.magnitude()), "abs {a:e}");
    assert_eq!(a < b, x.lt(y));
    assert_eq!(a <= b, x.le(y));
    assert_eq!(a.is_nan(), x.is_nan());
    assert!(same64(a as f64, x.widened()), "{a:e} widened");
    assert_eq!(a.floor() as i32, x.floor_i32(), "floor {a:e}");
}

fn check64(a: f64, b: f64) {
    let (x, y) = (F64::from_bits(a.to_bits()), F64::from_bits(b.to_bits()));
    assert!(same64(a + b, x.plus(y)), "{a:e} + {b:e}");
    assert!(same64(a - b, x.minus(y)), "{a:e} - {b:e}");
    assert!(same64(a * b, x.times(y)), "{a:e} * {b:e}");
    assert!(same64(a / b, x.over(y)), "{a:e} / {b:e}");
    assert!(same64(a.sqrt(), x.sqrt()), "sqrt {a:e}");
    assert!(same64(-a, x.negated()), "- {a:e}");
    assert!(same64(a.abs(), x.magnitude()), "abs {a:e}");
    assert_eq!(a < b, x.lt(y));
    assert_eq!(a <= b, x.le(y));
    assert_eq!(a.is_nan(), x.is_nan());
    assert!(same32(a as f32, x.narrowed()), "{a:e} narrowed");
}

#[test]
fn single_operations_agree_with_the_machine_on_any_pattern() {
    let mut g = Patterns { state: 7 };
    for _ in 0..200_000 {
        check32(f32::from_bits(g.next() as u32), f32::from_bits(g.next() as u32));
    }
}

#[test]
fn double_operations_agree_with_the_machine_on_any_pattern() {
    let mut g = Patterns { state: 11 };
    for _ in 0..200_000 {
        check64(f64::from_bits(g.next()), f64::from_bits(g.next()));
    }
}

#[test]
fn operations_agree_with_the_machine_on_near_exponents() {
    let mut g = Patterns { state: 13 };
    for _ in 0..100_000 {
        let e = 100 + (g.next() % 56) as u32;
        let f = e + (g.next() % 30) as u32;
        let a = f32::from_bits((g.next() as u32 & 0x807f_ffff) | (e << 23));
        let b = f32::from_bits((g.next() as u32 & 0x807f_ffff) | (f << 23));
        check32(a, b);
        let e = 900 + g.next() % 200;
        let f = e + g.next() % 70;
        let a = f64::from_bits((g.next() & 0x800f_ffff_ffff_ffff) | (e << 52));
        let b = f64::from_bits((g.next() & 0x800f_ffff_ffff_ffff) | (f << 52));
        check64(a, b);
    }
}

#[test]
fn operations_agree_with_the_machine_on_special_values() {
    let singles = [
        0.0f32, -0.0, 1.0, -1.0, 0.5, 1.5, 2.5, -2.5, f32::INFINITY, f32::NEG_INFINITY, f32::NAN,
        f32::MAX, f32::MIN, f32::MIN_POSITIVE, 1e-45, -1e-45, 3e-39, 2147483647.0, 2147483648.0,
        -2147483648.0, -2147483904.0, 16777216.0, 16777218.0, 1.2, 0.7, 35.0,
    ];
    for a in singles {
        for b in singles {
            check32(a, b);
        }
    }
    let doubles = [
        0.0f64, -0.0, 1.0, -1.0, 0.5, 1e9, 1e-9, 0.01, f64::INFINITY, f64::NEG_INFINITY, f64::NAN,
        f64::MAX, f64::MIN, f64::MIN_POSITIVE, 5e-324, -5e-324, 1e-310, 3.4028235677973366e38,
        1.401298464324817e-45, 7.006492321624085e-46, 9.80665, 9007199254740993.0,
    ];
    for a in doubles {
        for b in doubles {
            check64(a, b);
        }
    }
}

#[test]
fn counts_round_as_casts_do() {
    let mut g = Patterns { state: 17 };
    for i in 0..10_000u64 {
        let n = g.next() >> (i % 64);
        assert!(same32(n as f32, F32::from_count(n)), "{n}");
        assert!(same64(n as f64, F64::from_count(n)), "{n}");
    }
    for n in [0, 1, 16777217, 16777219, 9007199254740993, 9007199254740995, u64::MAX] {
        assert!(same32(n as f32, F32::from_count(n)), "{n}");
        assert!(same64(n as f64, F64::from_count(n)), "{n}");
    }
}
