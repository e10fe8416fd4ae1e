# gicp_slam_cuda

Lidar odometry by generalized ICP, with the heavy work on a CUDA device. The library in `src/`
holds, verified with Verus, what is decided and computed on the host, apart from sines and cosines,
rotations made from angles or matrices, matrix inverses, linear solves and the product that turns a
cloud. These are computed in `app/`, with the machine's floating point and the linear-algebra
crates; the program there also reads and writes files and runs the kernels.

Numbers are held by their bit patterns: `src/float` defines IEEE 754 arithmetic exactly (rounding to
nearest, ties to even) and proves the implementation, so that contracts can say what every formula
yields, bit for bit. A not-a-number result is always the quiet pattern.

| module | what it does |
| --- | --- |
| `float` | 32-bit and 64-bit numbers, rounding, its laws and its errors |
| `geometry`, `pose` | vectors, matrices, quaternions, poses |
| `cloud`, `voxel` | clouds of points, downsampling to one point per voxel |
| `load_files`, `sorting` | frame files by number, inertial samples by time |
| `predict_pose_imu` | dead reckoning and the rotations during a frame |
| `pre_process_pcd` | range filter and removal of the sensor's own motion |
| `registration` | pairs of points, the normal equations of a step, when to stop |
| `odometry` | the state from frame to frame: pose, velocity, maps, logs |
| `rigidity`, `twisting`, `moving`, `turning`, `doubling` | laws: rotations stay rigid and are undone by their opposites, poses compose, covariances turn and scale, each up to rounding or exactly |
| `algebra` | identities of real numbers and 3 by 3 matrices, for these laws |
| `gpu_buffer`, `gpu_voxel`, `gpu_search`, `gpu_cov`, `gpu_transform`, `gpu_gicp` | the plans for the device: buffers, ranges and launches |

What needs a sine, an iterative decomposition or a matrix product of another crate comes into the
library as an argument: a function says what is wanted (`prediction_turns`, `plan_rotations`,
`pair_covariances`), and another takes the results back (`predict_pose_by_imu`,
`preprocess_point_cloud`, `solve_gicp_step`).

Two outside functions are trusted: the match of the file-name pattern (`regex`) and the launch
configuration (`cudarc`). Their contracts stand in `load_files` and `gpu_buffer`.

The kernels are expected as `src/kernels/search.ptx`, `src/kernels/compute_covariance.ptx` and
`src/kernels/voxel.ptx`, relative to the directory in which the program runs.
