use std::collections::HashMap;

use gicp_slam_cuda::cloud::{array2_to_pcd, concatenate, pcd_to_array2, PointXYZ, PointXYZT, P3};
use gicp_slam_cuda::float::double::F64;
use gicp_slam_cuda::float::single::F32;
use gicp_slam_cuda::voxel::{voxel_downsample, voxel_of, VoxelKey};
use nalgebra::Vector3;

fn s(x: f32) -> F32 {
    F32::from_bits(x.to_bits())
}

fn row(x: f32, y: f32, z: f32) -> P3 {
    P3 { x: s(x), y: s(y), z: s(z) }
}

fn machine(pts: &[[f32; 3]], size: f32) -> Vec<P3> {
    let mut grid = HashMap::new();
    for p in pts {
        let v = Vector3::new(p[0], p[1], p[2]);
        let key = (
            (p[0] / size).floor() as i32,
            (p[1] / size).floor() as i32,
            (p[2] / size).floor() as i32,
        );
        grid.entry(key)
            .and_modify(|(sum, count)| {
                *sum += v;
                *count += 1;
            })
            .or_insert((v, 1));
    }
    grid.values()
        .map(|(sum, count)| {
            let c = sum / (*count as f32);
            row(c.x, c.y, c.z)
        })
        .collect()
}

#[test]
fn downsampling_agrees_with_the_machine() {
    let mut state = 51u64;
    let mut next = || {
        state = state.wrapping_mul(6364136223846793005).wrapping_add(1442695040888963407);
        ((state >> 40) as f32 / (1u32 << 24) as f32 - 0.5) * 10.0
    };
    let pts: Vec<[f32; 3]> = (0..3000).map(|_| [next(), next(), next()]).collect();
    let cloud: Vec<P3> = pts.iter().map(|p| row(p[0], p[1], p[2])).collect();
    for size in [0.1f32, 0.5, 3.0, 100.0] {
        let bits = |v: Vec<P3>| -> Vec<(u32, u32, u32)> {
            let mut out: Vec<_> = v.iter().map(|p| (p.x.bits, p.y.bits, p.z.bits)).collect();
            out.sort();
            out
        };
        let mine = voxel_downsample(&cloud, s(size));
        assert!(mine.len() <= cloud.len());
        assert_eq!(bits(mine), bits(machine(&pts, size)));
    }
}

#[test]
fn centroids_come_in_the_order_of_the_cloud() {
    let cloud = vec![
        row(5.1, 0.0, 0.0),
        row(0.1, 0.1, 0.1),
        row(5.3, 0.0, 0.0),
        row(-0.1, 0.1, 0.1),
        row(0.3, 0.3, 0.2),
    ];
    let out = voxel_downsample(&cloud, s(0.5));
    assert_eq!(
        out,
        vec![
            row((5.1 + 5.3) / 2.0, 0.0, 0.0),
            row((0.1 + 0.3) / 2.0, (0.1 + 0.3) / 2.0, (0.1 + 0.2) / 2.0),
            row(-0.1, 0.1, 0.1),
        ]
    );
}

#[test]
fn an_empty_cloud_stays_empty() {
    assert!(voxel_downsample(&Vec::new(), s(0.5)).is_empty());
}

#[test]
fn voxels_saturate() {
    let key = |x: f32| voxel_of(row(x, -0.0, 0.0), s(0.5));
    assert_eq!(key(-0.25), VoxelKey { ix: -1, iy: 0, iz: 0 });
    assert_eq!(key(1e30), VoxelKey { ix: i32::MAX, iy: 0, iz: 0 });
    assert_eq!(key(-1e30), VoxelKey { ix: i32::MIN, iy: 0, iz: 0 });
    assert_eq!(key(f32::NAN), VoxelKey { ix: 0, iy: 0, iz: 0 });
    assert_eq!(key(f32::NEG_INFINITY), VoxelKey { ix: i32::MIN, iy: 0, iz: 0 });
    let far = vec![row(1e30, 0.0, 0.0), row(f32::INFINITY, 0.0, 0.0), row(-1e30, 0.0, 0.0)];
    assert_eq!(voxel_downsample(&far, s(0.5)).len(), 2);
}

#[test]
fn clouds_are_converted_row_by_row() {
    let frame = vec![
        PointXYZT { x: s(1.0), y: s(2.0), z: s(3.0), timestamp: F64::from_bits(7) },
        PointXYZT { x: s(4.0), y: s(5.0), z: s(6.0), timestamp: F64::from_bits(8) },
    ];
    let rows = pcd_to_array2(&frame);
    assert_eq!(rows, vec![row(1.0, 2.0, 3.0), row(4.0, 5.0, 6.0)]);
    assert_eq!(
        array2_to_pcd(&rows),
        vec![
            PointXYZ { x: s(1.0), y: s(2.0), z: s(3.0) },
            PointXYZ { x: s(4.0), y: s(5.0), z: s(6.0) }
        ]
    );
}

#[test]
fn frames_are_stacked() {
    let a = vec![row(1.0, 0.0, 0.0)];
    let b = vec![row(2.0, 0.0, 0.0), row(3.0, 0.0, 0.0)];
    let all = concatenate(&vec![a.clone(), Vec::new(), b.clone()]).unwrap();
    assert_eq!(all, vec![a[0], b[0], b[1]]);
    assert_eq!(concatenate(&Vec::new()), None);
    assert_eq!(concatenate(&vec![Vec::new()]), Some(Vec::new()));
}

#[test]
fn a_downsampled_cloud_stays_as_it_is() {
    // Coordinates in eighths: every sum and every mean is exact.
    let cloud: Vec<P3> = (0..64)
        .map(|i| {
            let k = (i / 2) as f32;
            let half = (i % 2) as f32 * 0.25;
            row(k - 16.0 + half, 0.5 * k + half, -k + half)
        })
        .collect();
    let once = voxel_downsample(&cloud, s(0.5));
    assert_eq!(once.len(), 32);
    assert_eq!(once[0], row(-15.875, 0.125, 0.125));
    assert_eq!(voxel_downsample(&once, s(0.5)), once);
}

#[test]
fn larger_voxels_are_not_more() {
    let cloud: Vec<P3> =
        (0..200).map(|i| row(i as f32 * 0.25 - 25.0, (i % 7) as f32 * 0.5, 1.0)).collect();
    let mut before = cloud.len();
    for size in [0.25f32, 0.5, 1.0, 2.0, 4.0, 64.0] {
        let n = voxel_downsample(&cloud, s(size)).len();
        assert!(n <= before);
        before = n;
    }
    assert_eq!(before, 2);
}
