use gicp_slam_cuda::float::double::F64;
use gicp_slam_cuda::float::single::F32;
use gicp_slam_cuda::load_files::{
    frame_number_of, load_and_flatten_imu_json, load_pcd_files, seconds, DirEntry, LivoxImu,
};
use gicp_slam_cuda::sorting::stable_order;

fn file(path: &str, name: &str) -> DirEntry<String> {
    DirEntry { path: path.to_string(), is_file: true, file_name: Some(name.to_string()) }
}

#[test]
fn frame_numbers_are_read_from_names() {
    assert_eq!(frame_number_of("frame_12.pcd"), Ok(Some(12)));
    assert_eq!(frame_number_of("voxelized-005_frame_0007.pcd"), Ok(Some(7)));
    assert_eq!(frame_number_of("frame_frame_3.pcd"), Ok(Some(3)));
    assert_eq!(frame_number_of("frame_1_frame_2.pcd"), Ok(Some(2)));
    assert_eq!(frame_number_of("frame_4294967295.pcd"), Ok(Some(u32::MAX)));
}

#[test]
fn other_names_have_no_frame_number() {
    for name in [
        "",
        "frame_.pcd",
        "frame_12.pcd.bak",
        "frame_12.pcd\n",
        "frame_12pcd",
        "frame_-1.pcd",
        "frame_1a.pcd",
        "Frame_1.pcd",
        "frame12.pcd",
        "cloud.pcd",
    ] {
        assert_eq!(frame_number_of(name), Ok(None), "{name:?}");
    }
}

#[test]
fn numbers_past_32_bits_are_passed_over() {
    assert_eq!(frame_number_of("frame_4294967296.pcd"), Ok(None));
    assert_eq!(frame_number_of("frame_99999999999999999999999.pcd"), Ok(None));
    assert_eq!(frame_number_of("frame_00000000000000000000001.pcd"), Ok(Some(1)));
}

#[test]
fn digits_of_other_scripts_are_passed_over() {
    assert_eq!(frame_number_of("frame_\u{0663}.pcd"), Ok(None));
    assert_eq!(frame_number_of("frame_1\u{0663}.pcd"), Ok(None));
    assert_eq!(frame_number_of("\u{0663}frame_5.pcd"), Ok(Some(5)));
}

#[test]
fn frames_come_by_number() {
    let entries = vec![
        file("a", "frame_10.pcd"),
        file("b", "frame_9.pcd"),
        DirEntry { path: "c".to_string(), is_file: false, file_name: Some("frame_1.pcd".to_string()) },
        DirEntry { path: "d".to_string(), is_file: true, file_name: None },
        file("e", "notes.txt"),
        file("f", "frame_2.pcd"),
        file("g", "x_frame_09.pcd"),
    ];
    let paths = load_pcd_files(entries).unwrap();
    assert_eq!(paths, vec!["f", "b", "g", "a"]);
}

#[test]
fn no_entries_give_no_frames() {
    let paths = load_pcd_files(Vec::<DirEntry<String>>::new()).unwrap();
    assert!(paths.is_empty());
}

#[test]
fn the_order_is_stable() {
    assert_eq!(stable_order(&vec![3, 1, 2, 1, 3, 0]), vec![5, 1, 3, 2, 0, 4]);
    assert_eq!(stable_order(&Vec::new()), Vec::<usize>::new());
    let keys: Vec<u64> = (0..1000).map(|i: u64| i.wrapping_mul(7919) % 37).collect();
    let mut expected: Vec<usize> = (0..1000).collect();
    expected.sort_by_key(|i| keys[*i]);
    assert_eq!(stable_order(&keys), expected);
}

fn record(timestamp: u64, tag: f32) -> LivoxImu {
    LivoxImu {
        timestamp,
        angular_velocity: [
            F32::from_bits(tag.to_bits()),
            F32::from_bits(0.5f32.to_bits()),
            F32::from_bits(0),
        ],
        linear_acceleration: [
            F32::from_bits(0),
            F32::from_bits((-1.5f32).to_bits()),
            F32::from_bits(tag.to_bits()),
        ],
    }
}

#[test]
fn seconds_agree_with_the_machine() {
    for n in [0u64, 1, 999_999_999, 1_000_000_000, 1_700_000_000_123_456_789, u64::MAX] {
        assert_eq!(seconds(n), F64::from_bits((n as f64 / 1_000_000_000.0).to_bits()));
    }
    assert_eq!(seconds(1_500_000_000), F64::from_bits(1.5f64.to_bits()));
}

#[test]
fn samples_come_by_time() {
    let batches =
        vec![record(3_000_000_000, 1.0), record(1_000_000_000, 2.0), record(2_000_000_000, 3.0)];
    let samples = load_and_flatten_imu_json(&batches);
    let times: Vec<f64> = samples.iter().map(|x| f64::from_bits(x.timestamp_sec.bits)).collect();
    assert_eq!(times, vec![1.0, 2.0, 3.0]);
    assert_eq!(f32::from_bits(samples[0].gyro[0].bits), 2.0);
    assert_eq!(f32::from_bits(samples[0].gyro[1].bits), 0.5);
    assert_eq!(f32::from_bits(samples[1].linear_acceleration[2].bits), 3.0);
    assert_eq!(f32::from_bits(samples[2].linear_acceleration[1].bits), -1.5);
}

#[test]
fn equal_times_keep_their_order() {
    // These two times differ by a nanosecond and fall on one number of seconds.
    let base = 1_700_000_000_000_000_000u64;
    let batches = vec![record(base + 1, 1.0), record(base, 2.0), record(base - 1_000_000, 3.0)];
    let samples = load_and_flatten_imu_json(&batches);
    let tags: Vec<f32> = samples.iter().map(|x| f32::from_bits(x.gyro[0].bits)).collect();
    assert_eq!(tags, vec![3.0, 1.0, 2.0]);
    assert_eq!(samples[1].timestamp_sec, samples[2].timestamp_sec);
}
