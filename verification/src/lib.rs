//! Odometry and mapping for a lidar with an inertial unit: the decisions, the bookkeeping and
//! the arithmetic between the device kernels and the linear algebra.

use vstd::prelude::*;

pub mod algebra;
pub mod cloud;
pub mod doubling;
pub mod float;
pub mod geometry;
pub mod gpu_buffer;
pub mod gpu_cov;
pub mod gpu_gicp;
pub mod gpu_search;
pub mod gpu_transform;
pub mod gpu_voxel;
pub mod load_files;
pub mod moving;
pub mod odometry;
pub mod pose;
pub mod pre_process_pcd;
pub mod predict_pose_imu;
pub mod ranging;
pub mod reckoning;
pub mod registration;
pub mod rigidity;
pub mod rotating;
pub mod sorting;
pub mod turning;
pub mod twisting;
pub mod voxel;

verus! {

} // verus!
