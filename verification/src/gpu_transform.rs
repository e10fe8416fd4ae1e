//! Moving points and their covariances on the device.

use vstd::prelude::*;

use crate::float::single::F32;
use crate::gpu_buffer;
use crate::gpu_buffer::{after_growth, capacity_of, ensure_buffer, launch_dims, LaunchDims};
use crate::pose::Mat4;

verus! {

/// The lengths of the buffers on the device, where there is one.
#[derive(Clone, Copy, PartialEq, Eq, Structural, Debug)]
pub struct CudaTransformContext {
    pub out_points: Option<usize>,
    pub out_covs: Option<usize>,
}

/// What a motion does on the device. The kernel fills the front of the two buffers, up to
/// `points_end` and `covs_end`, and the results are copies of the buffers up to `points_copy_end`
/// and `covs_copy_end`.
#[derive(Clone, Copy, PartialEq, Eq, Debug)]
pub struct TransformPlan {
    pub grow: CudaTransformContext,
    pub points_end: usize,
    pub covs_end: usize,
    pub launch: LaunchDims,
    pub points_arg: i32,
    pub points_copy_end: usize,
    pub covs_copy_end: usize,
}

impl TransformPlan {
    /// The plan for `num_points` points: three coordinates and nine entries for each.
    pub open spec fn of(ctx: CudaTransformContext, num_points: usize) -> TransformPlan {
        let points = (num_points * 3) as usize;
        let covs = (num_points * 9) as usize;
        TransformPlan {
            grow: CudaTransformContext {
                out_points: gpu_buffer::growth_for(ctx.out_points, points),
                out_covs: gpu_buffer::growth_for(ctx.out_covs, covs),
            },
            points_end: points,
            covs_end: covs,
            launch: gpu_buffer::dims_for(num_points as u32),
            points_arg: num_points as i32,
            points_copy_end: capacity_of(
                after_growth(ctx.out_points, gpu_buffer::growth_for(ctx.out_points, points)),
            ),
            covs_copy_end: capacity_of(
                after_growth(ctx.out_covs, gpu_buffer::growth_for(ctx.out_covs, covs)),
            ),
        }
    }
}

/// The context once the buffers have grown as planned.
pub open spec fn context_after(
    ctx: CudaTransformContext,
    plan: TransformPlan,
) -> CudaTransformContext {
    CudaTransformContext {
        out_points: after_growth(ctx.out_points, plan.grow.out_points),
        out_covs: after_growth(ctx.out_covs, plan.grow.out_covs),
    }
}

/// What a buffer holds, of each of the two.
pub struct Moved {
    pub points: Seq<F32>,
    pub covs: Seq<F32>,
}

impl Moved {
    /// Three coordinates and nine entries for each of the points of the plan.
    pub open spec fn covers(self, plan: TransformPlan) -> bool {
        self.points.len() == plan.points_end && self.covs.len() == plan.covs_end
    }

    /// The buffers are as long as the plan makes them.
    pub open spec fn fills(self, plan: TransformPlan) -> bool {
        self.points.len() == plan.points_copy_end && self.covs.len() == plan.covs_copy_end
    }

    /// The part of each that the kernel of the plan writes.
    pub open spec fn front(self, plan: TransformPlan) -> Moved {
        Moved {
            points: self.points.take(plan.points_end as int),
            covs: self.covs.take(plan.covs_end as int),
        }
    }
}

/// The results handed out after one more motion, in which the kernel wrote `moved` to the front of
/// the buffers: the earlier ones, and copies of the two buffers.
pub open spec fn results_after(
    results: Seq<Moved>,
    plan: TransformPlan,
    buffers: Moved,
    moved: Moved,
) -> Seq<Moved> {
    results.push(
        Moved {
            points: gpu_buffer::copied(buffers.points, moved.points, plan.points_copy_end),
            covs: gpu_buffer::copied(buffers.covs, moved.covs, plan.covs_copy_end),
        },
    )
}

/// Of two motions on one context, the whole buffers come back from each, each result starts with
/// what its own kernel moved, and the second motion leaves the first result as it was.
pub proof fn results_are_copies(
    ctx: CudaTransformContext,
    n1: usize,
    n2: usize,
    buffers1: Moved,
    buffers2: Moved,
    moved1: Moved,
    moved2: Moved,
)
    requires
        n1 * 9 <= usize::MAX,
        n2 * 9 <= usize::MAX,
        ({
            let plan1 = TransformPlan::of(ctx, n1);
            let plan2 = TransformPlan::of(context_after(ctx, plan1), n2);
            &&& moved1.covers(plan1) && buffers1.fills(plan1)
            &&& moved2.covers(plan2) && buffers2.fills(plan2)
        }),
    ensures
        ({
            let plan1 = TransformPlan::of(ctx, n1);
            let plan2 = TransformPlan::of(context_after(ctx, plan1), n2);
            let first = results_after(Seq::empty(), plan1, buffers1, moved1);
            let both = results_after(first, plan2, buffers2, moved2);
            &&& first[0].fills(plan1)
            &&& first[0].front(plan1) == moved1
            &&& both[0] == first[0]
            &&& both[1].fills(plan2)
            &&& both[1].front(plan2) == moved2
        }),
{
    let ctx1 = context_after(ctx, TransformPlan::of(ctx, n1));
    let (p1, c1) = ((n1 * 3) as usize, (n1 * 9) as usize);
    let (p2, c2) = ((n2 * 3) as usize, (n2 * 9) as usize);
    gpu_buffer::copies_hold_the_entries(ctx.out_points, p1, buffers1.points, moved1.points);
    gpu_buffer::copies_hold_the_entries(ctx.out_covs, c1, buffers1.covs, moved1.covs);
    gpu_buffer::copies_hold_the_entries(ctx1.out_points, p2, buffers2.points, moved2.points);
    gpu_buffer::copies_hold_the_entries(ctx1.out_covs, c2, buffers2.covs, moved2.covs);
}

/// The entries of a motion in the order in which the kernel takes them: the first three rows.
pub fn kernel_entries(transform: Mat4) -> (entries: Vec<F32>)
    ensures
        entries@ == seq![
            transform.r0.x,
            transform.r0.y,
            transform.r0.z,
            transform.r0.w,
            transform.r1.x,
            transform.r1.y,
            transform.r1.z,
            transform.r1.w,
            transform.r2.x,
            transform.r2.y,
            transform.r2.z,
            transform.r2.w,
        ],
{
    let mut entries: Vec<F32> = Vec::new();
    entries.push(transform.r0.x);
    entries.push(transform.r0.y);
    entries.push(transform.r0.z);
    entries.push(transform.r0.w);
    entries.push(transform.r1.x);
    entries.push(transform.r1.y);
    entries.push(transform.r1.z);
    entries.push(transform.r1.w);
    entries.push(transform.r2.x);
    entries.push(transform.r2.y);
    entries.push(transform.r2.z);
    entries.push(transform.r2.w);
    entries
}

impl CudaTransformContext {
    /// A context without any buffer.
    pub fn new() -> (ctx: CudaTransformContext)
        ensures
            ctx == (CudaTransformContext { out_points: None, out_covs: None }),
    {
        CudaTransformContext { out_points: None, out_covs: None }
    }

    /// Plans the motion of `num_points` points and their covariances. No points can be moved
    /// before there are buffers.
    pub fn apply(&self, num_points: usize) -> (plan: TransformPlan)
        requires
            num_points * 9 <= usize::MAX,
            num_points > 0 || (self.out_points is Some && self.out_covs is Some),
        ensures
            plan == TransformPlan::of(*self, num_points),
            plan.grow.out_points == if capacity_of(self.out_points) < num_points * 3 {
                Some(gpu_buffer::grown_len((num_points * 3) as usize))
            } else {
                None
            },
            plan.grow.out_covs == if capacity_of(self.out_covs) < num_points * 9 {
                Some(gpu_buffer::grown_len((num_points * 9) as usize))
            } else {
                None
            },
            plan.points_end == num_points * 3,
            plan.covs_end == num_points * 9,
            plan.launch == gpu_buffer::dims_for(num_points as u32),
            plan.points_arg == num_points as i32,
            plan.points_copy_end == capacity_of(after_growth(self.out_points, plan.grow.out_points)),
            plan.covs_copy_end == capacity_of(after_growth(self.out_covs, plan.grow.out_covs)),
            plan.points_end <= plan.points_copy_end && plan.covs_end <= plan.covs_copy_end,
            gpu_buffer::has_room(self.out_points, plan.grow.out_points, plan.points_end),
            gpu_buffer::has_room(self.out_covs, plan.grow.out_covs, plan.covs_end),
    {
        let points: usize = num_points * 3;
        let covs: usize = num_points * 9;
        let grow: CudaTransformContext = CudaTransformContext {
            out_points: ensure_buffer(self.out_points, points),
            out_covs: ensure_buffer(self.out_covs, covs),
        };
        TransformPlan {
            grow,
            points_end: points,
            covs_end: covs,
            launch: launch_dims(num_points as u32),
            points_arg: num_points as i32,
            points_copy_end: capacity_of(after_growth(self.out_points, grow.out_points)),
            covs_copy_end: capacity_of(after_growth(self.out_covs, grow.out_covs)),
        }
    }
}

} // verus!
