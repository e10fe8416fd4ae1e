use cudarc::driver::LaunchConfig;
use gicp_slam_cuda::float::double::F64;
use gicp_slam_cuda::float::single::F32;
use gicp_slam_cuda::gpu_buffer::{
    after_growth, capacity_of, ensure_buffer, grown_len, GpuError, LaunchDims,
};
use gicp_slam_cuda::gpu_cov::CudaCovContext;
use gicp_slam_cuda::gpu_gicp::CudaGicpContext;
use gicp_slam_cuda::gpu_search::CudaKnnContext;
use gicp_slam_cuda::gpu_transform::{kernel_entries, CudaTransformContext};
use gicp_slam_cuda::gpu_voxel::{CudaVoxelContext, VoxelOutput};
use gicp_slam_cuda::pose::{Mat4, Row4};

fn s(x: f32) -> F32 {
    F32::from_bits(x.to_bits())
}

fn launch(n: u32) -> LaunchDims {
    let cfg = LaunchConfig::for_num_elems(n);
    LaunchDims { grid: cfg.grid_dim, block: cfg.block_dim, shared_mem: cfg.shared_mem_bytes }
}

#[test]
fn growth_agrees_with_the_machine() {
    let mut lens: Vec<usize> = (0..5000).collect();
    for b in 12..64 {
        for k in [0i64, 1, -1, 77, -77] {
            lens.push((1i128 << b).wrapping_add(k as i128) as usize);
        }
    }
    lens.push(usize::MAX);
    lens.push(16_777_217);
    lens.push(20_000_003);
    for len in lens {
        assert_eq!(grown_len(len), (len as f32 * 1.2) as usize, "{len}");
        assert!(grown_len(len) >= len, "{len}");
    }
    assert_eq!(grown_len(1000), 1200);
    assert_eq!(grown_len(1), 1);
    assert_eq!(grown_len(5), 6);
}

#[test]
fn buffers_grow_only_where_they_are_too_short() {
    assert_eq!(ensure_buffer(None, 10), Some(12));
    assert_eq!(ensure_buffer(None, 0), None);
    assert_eq!(ensure_buffer(Some(9), 10), Some(12));
    assert_eq!(ensure_buffer(Some(10), 10), None);
    assert_eq!(ensure_buffer(Some(11), 10), None);
    assert_eq!(capacity_of(None), 0);
    assert_eq!(capacity_of(Some(3)), 3);
}

#[test]
fn downsampling_is_planned() {
    let plan = CudaVoxelContext::new().voxel_downsample(1000).unwrap();
    assert_eq!(plan.grow.table_keys, Some(2400));
    assert_eq!(plan.grow.table_centroids, Some((6000f32 * 1.2) as usize));
    assert_eq!(plan.grow.table_counts, Some(2400));
    assert_eq!(plan.grow.input_points, Some((3000f32 * 1.2) as usize));
    assert_eq!(plan.grow.out_points, Some((3000f32 * 1.2) as usize));
    assert_eq!(plan.grow.valid_count, Some(1));
    assert_eq!((plan.table_end, plan.centroids_end, plan.points_end), (2000, 6000, 3000));
    assert_eq!(plan.counter_end, 1);
    assert_eq!((plan.table_arg, plan.points_arg), (2000, 1000));
    assert_eq!(plan.init, launch(2000));
    assert_eq!(plan.compact, launch(2000));
    assert_eq!(plan.insert, launch(1000));
    assert_eq!(plan.init.grid, (2, 1, 1));
    assert_eq!(plan.insert.grid, (1, 1, 1));
    assert_eq!(plan.insert.block, (1024, 1, 1));
}

#[test]
fn buffers_are_used_again() {
    let ctx = CudaVoxelContext {
        table_keys: Some(2400),
        table_centroids: Some(7200),
        table_counts: Some(2400),
        input_points: Some(3600),
        out_points: Some(3600),
        valid_count: Some(1),
    };
    let plan = ctx.voxel_downsample(1200).unwrap();
    assert_eq!(plan.grow, CudaVoxelContext::new());
    let more = ctx.voxel_downsample(1201).unwrap();
    assert_eq!(more.grow.table_keys, Some((2402f32 * 1.2) as usize));
    assert_eq!(more.grow.valid_count, None);
}

#[test]
fn only_a_target_is_copied_back() {
    let ctx = CudaVoxelContext { out_points: Some(3600), ..CudaVoxelContext::new() };
    assert_eq!(ctx.read_back(70, true), VoxelOutput { count: 70, end: 210, copied: 70 });
    assert_eq!(ctx.read_back(70, false), VoxelOutput { count: 70, end: 210, copied: 0 });
    assert_eq!(ctx.read_back(0, true), VoxelOutput { count: 0, end: 0, copied: 0 });
}

#[test]
fn empty_work_is_refused() {
    assert_eq!(CudaVoxelContext::new().voxel_downsample(0), Err(GpuError::NoInputPoints));
    assert_eq!(CudaCovContext::new().compute_covariances(0), Err(GpuError::NoPoints));
    assert_eq!(CudaKnnContext::new().find_nearest(0, 5), Err(GpuError::EmptyCloud));
    assert_eq!(CudaKnnContext::new().find_nearest(5, 0), Err(GpuError::EmptyCloud));
    assert_eq!(CudaGicpContext::new().compute_gicp(2, 30), Err(GpuError::EmptyCloud));
    assert_eq!(CudaGicpContext::new().compute_gicp(30, 2), Err(GpuError::EmptyCloud));
}

#[test]
fn refusals_have_messages() {
    assert_eq!(GpuError::NoInputPoints.message(), "No input points for voxel downsampling");
    assert_eq!(GpuError::NoPoints.message(), "No points provided for covariance computation");
    assert_eq!(GpuError::EmptyCloud.message(), "Empty point cloud");
    assert_eq!(GpuError::WrongShape.message(), "Failed to reshape H matrix");
}

#[test]
fn searches_are_planned() {
    let plan = CudaKnnContext::new().find_nearest(2049, 77).unwrap();
    assert_eq!(plan.grow.indices, Some((2049f32 * 1.2) as usize));
    assert_eq!(plan.grow.dists, Some((2049f32 * 1.2) as usize));
    assert_eq!((plan.source_arg, plan.target_arg), (2049, 77));
    assert_eq!(plan.launch, launch(2049));
    assert_eq!(plan.launch.grid.0, 3);
    let again =
        CudaKnnContext { indices: Some(3000), dists: Some(10) }.find_nearest(2049, 77).unwrap();
    assert_eq!(again.grow.indices, None);
    assert_eq!(again.grow.dists, Some((2049f32 * 1.2) as usize));
}

#[test]
fn covariances_are_planned() {
    let plan = CudaCovContext::new().compute_covariances(1024).unwrap();
    assert_eq!(plan.grow.covs, Some((9216f32 * 1.2) as usize));
    assert_eq!(plan.points_arg, 1024);
    assert_eq!(plan.launch, launch(1024));
    assert_eq!(plan.launch.grid.0, 1);
}

#[test]
fn motions_are_planned() {
    let plan = CudaTransformContext::new().apply(10);
    assert_eq!(plan.grow.out_points, Some(36));
    assert_eq!(plan.grow.out_covs, Some((90f32 * 1.2) as usize));
    assert_eq!((plan.points_end, plan.covs_end, plan.points_arg), (30, 90, 10));
    assert_eq!(plan.launch, launch(10));
    let idle = CudaTransformContext { out_points: Some(1), out_covs: Some(1) }.apply(0);
    assert_eq!(idle.grow, CudaTransformContext::new());
    assert_eq!(idle.launch.grid.0, 0);
}

#[test]
fn the_kernel_takes_the_first_three_rows() {
    let row = |k: f32| Row4 { x: s(k), y: s(k + 1.0), z: s(k + 2.0), w: s(k + 3.0) };
    let m = Mat4 { r0: row(0.0), r1: row(4.0), r2: row(8.0), r3: Mat4::pose_row() };
    let entries: Vec<f32> = kernel_entries(m).iter().map(|x| f32::from_bits(x.bits)).collect();
    let expected: Vec<f32> = (0..12).map(|i| i as f32).collect();
    assert_eq!(entries, expected);
}

#[test]
fn steps_on_the_device_are_planned() {
    let plan = CudaGicpContext::new().compute_gicp(3 * 1500 + 2, 3 * 40).unwrap();
    assert_eq!((plan.matrix_len, plan.vector_len), (36, 6));
    assert_eq!((plan.source_arg, plan.target_arg), (1500, 40));
    assert_eq!(plan.launch, launch(1500));
}

#[test]
fn equations_come_back_in_64_bits() {
    let h: Vec<F32> = (0..36).map(|i| s(i as f32 * 0.1)).collect();
    let b: Vec<F32> = (0..6).map(|i| s(-0.3 * i as f32)).collect();
    let ctx = CudaGicpContext::new();
    let (hh, bb) = ctx.read_back(&h, &b).unwrap();
    for i in 0..36 {
        assert_eq!(hh[i], F64::from_bits(((i as f32 * 0.1) as f64).to_bits()));
    }
    for i in 0..6 {
        assert_eq!(bb[i], F64::from_bits(((-0.3 * i as f32) as f64).to_bits()));
    }
    assert_eq!(ctx.read_back(&b, &h).err(), Some(GpuError::WrongShape));
}

#[test]
fn grown_buffers_are_long_enough() {
    for len in [1usize, 5, 1000, 123_457] {
        for buffer in [None, Some(0), Some(len - 1), Some(len), Some(2 * len)] {
            let after = ensure_buffer(buffer, len).or(buffer);
            assert!(capacity_of(after) >= len && capacity_of(after) >= capacity_of(buffer));
            assert_eq!(ensure_buffer(after, len), None);
        }
    }
}

#[test]
fn every_downsampling_starts_from_zero() {
    let plan = CudaVoxelContext::new().voxel_downsample(1000).unwrap();
    assert_eq!(plan.counter_start, 0);
    assert_eq!((plan.counts_clear, plan.centroids_clear), (2400, 7200));
    // A buffer that is long enough is cleared over its whole length.
    let used = CudaVoxelContext {
        table_counts: Some(5000),
        table_centroids: Some(9000),
        ..CudaVoxelContext::new()
    };
    let again = used.voxel_downsample(1000).unwrap();
    assert_eq!(again.counter_start, 0);
    assert_eq!((again.counts_clear, again.centroids_clear), (5000, 9000));
    assert!(again.counts_clear >= again.table_end && again.centroids_clear >= again.centroids_end);
}

#[test]
fn covariances_are_copied_out() {
    let first = CudaCovContext::new().compute_covariances(100).unwrap();
    assert_eq!(first.copy_end, (900f32 * 1.2) as usize);
    let ctx = CudaCovContext { covs: after_growth(None, first.grow.covs) };
    let second = ctx.compute_covariances(50).unwrap();
    assert_eq!(second.grow.covs, None);
    assert_eq!(second.copy_end, first.copy_end);
    assert_eq!(ctx.compute_covariances(0), Err(GpuError::NoPoints));
}

#[test]
fn whole_buffers_come_back_from_a_search() {
    let first = CudaKnnContext::new().find_nearest(1000, 7).unwrap();
    assert_eq!((first.indices_end, first.dists_end), (1200, 1200));
    let ctx = CudaKnnContext {
        indices: after_growth(None, first.grow.indices),
        dists: after_growth(None, first.grow.dists),
    };
    let second = ctx.find_nearest(10, 7).unwrap();
    assert_eq!(second.grow, CudaKnnContext::new());
    assert_eq!((second.indices_end, second.dists_end), (1200, 1200));
}

#[test]
fn whole_buffers_come_back_from_a_motion() {
    let first = CudaTransformContext::new().apply(100);
    assert_eq!((first.points_end, first.covs_end), (300, 900));
    assert_eq!(first.points_copy_end, (300f32 * 1.2) as usize);
    assert_eq!(first.covs_copy_end, (900f32 * 1.2) as usize);
    let ctx = CudaTransformContext {
        out_points: after_growth(None, first.grow.out_points),
        out_covs: after_growth(None, first.grow.out_covs),
    };
    let second = ctx.apply(20);
    assert_eq!((second.points_end, second.covs_end), (60, 180));
    assert_eq!(second.points_copy_end, first.points_copy_end);
    assert_eq!(second.covs_copy_end, first.covs_copy_end);
}
