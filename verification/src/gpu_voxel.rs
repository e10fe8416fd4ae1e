//! Downsampling a cloud on the device: the buffers, the launches and what is read back.

use vstd::prelude::*;

use crate::float::single::F32;
use crate::gpu_buffer;
use crate::gpu_buffer::{
    after_growth, capacity_of, ensure_buffer, launch_dims, GpuError, LaunchDims,
};

verus! {

/// The lengths of the buffers on the device, where there is one.
#[derive(Clone, Copy, PartialEq, Eq, Structural, Debug)]
pub struct CudaVoxelContext {
    pub table_keys: Option<usize>,
    pub table_centroids: Option<usize>,
    pub table_counts: Option<usize>,
    pub input_points: Option<usize>,
    pub out_points: Option<usize>,
    pub valid_count: Option<usize>,
}

/// What a downsampling does on the device: the new buffers to allocate, the ends of the ranges
/// that are handed to the kernels, the launches and the sizes passed along. Before the launches the
/// counts and the coordinate sums are set to zero over the whole of their buffers, and the counter
/// to its start.
#[derive(Clone, Copy, PartialEq, Eq, Debug)]
pub struct VoxelPlan {
    pub grow: CudaVoxelContext,
    pub table_end: usize,
    pub centroids_end: usize,
    pub points_end: usize,
    pub counter_end: usize,
    pub counts_clear: usize,
    pub centroids_clear: usize,
    pub counter_start: i32,
    pub init: LaunchDims,
    pub insert: LaunchDims,
    pub compact: LaunchDims,
    pub table_arg: i32,
    pub points_arg: i32,
}

impl VoxelPlan {
    /// The plan for `num_points` points: a hash table with two slots per point, each with a key,
    /// a count and three coordinates.
    pub open spec fn of(ctx: CudaVoxelContext, num_points: usize) -> VoxelPlan {
        let table = (num_points * 2) as usize;
        let centroids = (num_points * 6) as usize;
        let points = (num_points * 3) as usize;
        VoxelPlan {
            grow: CudaVoxelContext {
                table_keys: gpu_buffer::growth_for(ctx.table_keys, table),
                table_centroids: gpu_buffer::growth_for(ctx.table_centroids, centroids),
                table_counts: gpu_buffer::growth_for(ctx.table_counts, table),
                input_points: gpu_buffer::growth_for(ctx.input_points, points),
                out_points: gpu_buffer::growth_for(ctx.out_points, points),
                valid_count: gpu_buffer::growth_for(ctx.valid_count, 1),
            },
            table_end: table,
            centroids_end: centroids,
            points_end: points,
            counter_end: 1,
            counts_clear: capacity_of(
                after_growth(ctx.table_counts, gpu_buffer::growth_for(ctx.table_counts, table)),
            ),
            centroids_clear: capacity_of(
                after_growth(
                    ctx.table_centroids,
                    gpu_buffer::growth_for(ctx.table_centroids, centroids),
                ),
            ),
            counter_start: 0,
            init: gpu_buffer::dims_for(table as u32),
            insert: gpu_buffer::dims_for(num_points as u32),
            compact: gpu_buffer::dims_for(table as u32),
            table_arg: table as i32,
            points_arg: num_points as i32,
        }
    }

    /// Every range that is handed to a kernel lies within its buffer.
    pub open spec fn fits(self, ctx: CudaVoxelContext) -> bool {
        &&& gpu_buffer::has_room(ctx.table_keys, self.grow.table_keys, self.table_end)
        &&& gpu_buffer::has_room(ctx.table_centroids, self.grow.table_centroids, self.centroids_end)
        &&& gpu_buffer::has_room(ctx.table_counts, self.grow.table_counts, self.table_end)
        &&& gpu_buffer::has_room(ctx.input_points, self.grow.input_points, self.points_end)
        &&& gpu_buffer::has_room(ctx.out_points, self.grow.out_points, self.points_end)
        &&& gpu_buffer::has_room(ctx.valid_count, self.grow.valid_count, self.counter_end)
    }
}

/// The first `end` elements of a buffer after the first `clear` have been set to `zero`.
pub open spec fn handed_over<A>(buffer: Seq<A>, clear: usize, zero: A, end: usize) -> Seq<A> {
    Seq::new(
        end as nat,
        |i: int|
            if i < clear {
                zero
            } else {
                buffer[i]
            },
    )
}

/// Every downsampling starts afresh: whatever buffers there were and whatever they held, the
/// kernels find counts and sums of zero and a counter of zero, and the plan is the same but for
/// the lengths of the buffers.
pub proof fn downsampling_starts_afresh(
    a: CudaVoxelContext,
    b: CudaVoxelContext,
    num_points: usize,
    counts: Seq<i32>,
    centroids: Seq<F32>,
)
    requires
        0 < num_points,
        num_points * 6 <= usize::MAX,
    ensures
        ({
            let (p, q) = (VoxelPlan::of(a, num_points), VoxelPlan::of(b, num_points));
            let zero = F32 { bits: 0 };
            &&& handed_over(counts, p.counts_clear, 0, p.table_end) == Seq::new(
                p.table_end as nat,
                |i: int| 0i32,
            )
            &&& handed_over(centroids, p.centroids_clear, zero, p.centroids_end) == Seq::new(
                p.centroids_end as nat,
                |i: int| zero,
            )
            &&& p.counter_start == 0
            &&& p == (VoxelPlan {
                grow: p.grow,
                counts_clear: p.counts_clear,
                centroids_clear: p.centroids_clear,
                ..q
            })
        }),
{
    let p = VoxelPlan::of(a, num_points);
    gpu_buffer::growth_is_enough(p.table_end);
    gpu_buffer::growth_is_enough(p.centroids_end);
    assert(handed_over(counts, p.counts_clear, 0, p.table_end) =~= Seq::new(
        p.table_end as nat,
        |i: int| 0i32,
    ));
    assert(handed_over(centroids, p.centroids_clear, F32 { bits: 0 }, p.centroids_end) =~= Seq::new(
        p.centroids_end as nat,
        |i: int| F32 { bits: 0 },
    ));
}

/// What comes back of a downsampling: the number of points, the end of their range on the device,
/// and the number of points that are copied to the host.
#[derive(Clone, Copy, PartialEq, Eq, Structural, Debug)]
pub struct VoxelOutput {
    pub count: usize,
    pub end: usize,
    pub copied: usize,
}

impl CudaVoxelContext {
    /// A context without any buffer.
    pub fn new() -> (ctx: CudaVoxelContext)
        ensures
            ctx == (CudaVoxelContext {
                table_keys: None,
                table_centroids: None,
                table_counts: None,
                input_points: None,
                out_points: None,
                valid_count: None,
            }),
    {
        CudaVoxelContext {
            table_keys: None,
            table_centroids: None,
            table_counts: None,
            input_points: None,
            out_points: None,
            valid_count: None,
        }
    }

    /// Plans the downsampling of `num_points` points.
    pub fn voxel_downsample(&self, num_points: usize) -> (r: Result<VoxelPlan, GpuError>)
        requires
            num_points * 6 <= usize::MAX,
        ensures
            num_points == 0 ==> r == Err::<VoxelPlan, GpuError>(GpuError::NoInputPoints),
            num_points > 0 ==> r == Ok::<VoxelPlan, GpuError>(VoxelPlan::of(*self, num_points)),
            r matches Ok(plan) ==> plan.fits(*self),
            r matches Ok(plan) ==> {
                &&& plan.grow.table_keys == if capacity_of(self.table_keys) < num_points * 2 {
                        Some(gpu_buffer::grown_len((num_points * 2) as usize))
                    } else {
                        None
                    }
                &&& plan.grow.table_centroids == if capacity_of(self.table_centroids) < num_points * 6 {
                        Some(gpu_buffer::grown_len((num_points * 6) as usize))
                    } else {
                        None
                    }
                &&& plan.grow.table_counts == if capacity_of(self.table_counts) < num_points * 2 {
                        Some(gpu_buffer::grown_len((num_points * 2) as usize))
                    } else {
                        None
                    }
                &&& plan.grow.input_points == if capacity_of(self.input_points) < num_points * 3 {
                        Some(gpu_buffer::grown_len((num_points * 3) as usize))
                    } else {
                        None
                    }
                &&& plan.grow.out_points == if capacity_of(self.out_points) < num_points * 3 {
                        Some(gpu_buffer::grown_len((num_points * 3) as usize))
                    } else {
                        None
                    }
                &&& plan.grow.valid_count == if capacity_of(self.valid_count) < 1 {
                        Some(gpu_buffer::grown_len(1))
                    } else {
                        None
                    }
                &&& plan.table_end == num_points * 2
                &&& plan.centroids_end == num_points * 6
                &&& plan.points_end == num_points * 3
                &&& plan.counter_end == 1 && plan.counter_start == 0
                &&& plan.counts_clear == capacity_of(
                    after_growth(self.table_counts, plan.grow.table_counts),
                )
                &&& plan.centroids_clear == capacity_of(
                    after_growth(self.table_centroids, plan.grow.table_centroids),
                )
                &&& plan.table_end <= plan.counts_clear
                &&& plan.centroids_end <= plan.centroids_clear
                &&& plan.init == gpu_buffer::dims_for((num_points * 2) as usize as u32)
                &&& plan.insert == gpu_buffer::dims_for(num_points as u32)
                &&& plan.compact == plan.init
                &&& plan.table_arg == (num_points * 2) as usize as i32
                &&& plan.points_arg == num_points as i32
            },
    {
        if num_points == 0 {
            return Err(GpuError::NoInputPoints);
        }
        let table: usize = num_points * 2;
        let centroids: usize = table * 3;
        let points: usize = num_points * 3;
        let grow: CudaVoxelContext = CudaVoxelContext {
            table_keys: ensure_buffer(self.table_keys, table),
            table_centroids: ensure_buffer(self.table_centroids, centroids),
            table_counts: ensure_buffer(self.table_counts, table),
            input_points: ensure_buffer(self.input_points, points),
            out_points: ensure_buffer(self.out_points, points),
            valid_count: ensure_buffer(self.valid_count, 1),
        };
        Ok(
            VoxelPlan {
                grow,
                table_end: table,
                centroids_end: centroids,
                points_end: points,
                counter_end: 1,
                counts_clear: capacity_of(after_growth(self.table_counts, grow.table_counts)),
                centroids_clear: capacity_of(
                    after_growth(self.table_centroids, grow.table_centroids),
                ),
                counter_start: 0,
                init: launch_dims(table as u32),
                insert: launch_dims(num_points as u32),
                compact: launch_dims(table as u32),
                table_arg: table as i32,
                points_arg: num_points as i32,
            },
        )
    }

    /// What is read back where the device has kept `valid_count` points: their coordinates are
    /// copied to the host for a target only.
    pub fn read_back(&self, valid_count: i32, is_target: bool) -> (out: VoxelOutput)
        requires
            valid_count >= 0,
            valid_count * 3 <= capacity_of(self.out_points),
        ensures
            out == (VoxelOutput {
                count: valid_count as usize,
                end: (valid_count * 3) as usize,
                copied: if is_target {
                    valid_count as usize
                } else {
                    0
                },
            }),
    {
        let count: usize = valid_count as usize;
        VoxelOutput {
            count,
            end: count * 3,
            copied: if is_target {
                count
            } else {
                0
            },
        }
    }
}

} // verus!
