//! The covariances of the points of a cloud, computed on the device.

use vstd::prelude::*;

use crate::float::single::F32;
use crate::gpu_buffer;
use crate::gpu_buffer::{
    after_growth, capacity_of, ensure_buffer, launch_dims, GpuError, LaunchDims,
};

verus! {

/// The length of the buffer on the device, where there is one.
#[derive(Clone, Copy, PartialEq, Eq, Structural, Debug)]
pub struct CudaCovContext {
    pub covs: Option<usize>,
}

/// What computing covariances does on the device. The kernel fills the front of the buffer, and the
/// result is a copy of the buffer up to `copy_end`.
#[derive(Clone, Copy, PartialEq, Eq, Debug)]
pub struct CovPlan {
    pub grow: CudaCovContext,
    pub launch: LaunchDims,
    pub points_arg: i32,
    pub copy_end: usize,
}

impl CovPlan {
    /// The plan for `num_points` points: nine entries for each.
    pub open spec fn of(ctx: CudaCovContext, num_points: usize) -> CovPlan {
        CovPlan {
            grow: CudaCovContext {
                covs: gpu_buffer::growth_for(ctx.covs, (num_points * 9) as usize),
            },
            launch: gpu_buffer::dims_for(num_points as u32),
            points_arg: num_points as i32,
            copy_end: capacity_of(
                after_growth(
                    ctx.covs,
                    gpu_buffer::growth_for(ctx.covs, (num_points * 9) as usize),
                ),
            ),
        }
    }
}

/// The context once the buffer has grown as planned.
pub open spec fn context_after(ctx: CudaCovContext, plan: CovPlan) -> CudaCovContext {
    CudaCovContext { covs: after_growth(ctx.covs, plan.grow.covs) }
}

/// The results handed out after one more call, in which the kernel wrote `entries` to the front of
/// the buffer: the earlier ones, and a copy of the buffer.
pub open spec fn results_after(
    results: Seq<Seq<F32>>,
    plan: CovPlan,
    buffer: Seq<F32>,
    entries: Seq<F32>,
) -> Seq<Seq<F32>> {
    results.push(gpu_buffer::copied(buffer, entries, plan.copy_end))
}

/// Of two calls on one context, each finds room for its own entries, each result starts with the
/// entries of its own call, and the second call leaves the first result as it was, though the
/// buffer is used again.
pub proof fn results_are_copies(
    ctx: CudaCovContext,
    n1: usize,
    n2: usize,
    buffer1: Seq<F32>,
    buffer2: Seq<F32>,
    entries1: Seq<F32>,
    entries2: Seq<F32>,
)
    requires
        n1 > 0,
        n2 > 0,
        n1 * 9 <= usize::MAX,
        n2 * 9 <= usize::MAX,
        entries1.len() == n1 * 9,
        entries2.len() == n2 * 9,
        ({
            let plan1 = CovPlan::of(ctx, n1);
            let plan2 = CovPlan::of(context_after(ctx, plan1), n2);
            buffer1.len() == plan1.copy_end && buffer2.len() == plan2.copy_end
        }),
    ensures
        ({
            let plan1 = CovPlan::of(ctx, n1);
            let ctx1 = context_after(ctx, plan1);
            let plan2 = CovPlan::of(ctx1, n2);
            let first = results_after(Seq::empty(), plan1, buffer1, entries1);
            let both = results_after(first, plan2, buffer2, entries2);
            &&& gpu_buffer::has_room(ctx.covs, plan1.grow.covs, (n1 * 9) as usize)
            &&& gpu_buffer::has_room(ctx1.covs, plan2.grow.covs, (n2 * 9) as usize)
            &&& first[0].take(n1 * 9) == entries1
            &&& both[0] == first[0]
            &&& both[1].len() >= n2 * 9
            &&& both[1].take(n2 * 9) == entries2
        }),
{
    let plan1 = CovPlan::of(ctx, n1);
    let ctx1 = context_after(ctx, plan1);
    gpu_buffer::growth_is_enough((n1 * 9) as usize);
    gpu_buffer::growth_is_enough((n2 * 9) as usize);
    gpu_buffer::copies_hold_the_entries(ctx.covs, (n1 * 9) as usize, buffer1, entries1);
    gpu_buffer::copies_hold_the_entries(ctx1.covs, (n2 * 9) as usize, buffer2, entries2);
}

impl CudaCovContext {
    /// A context without a buffer.
    pub fn new() -> (ctx: CudaCovContext)
        ensures
            ctx == (CudaCovContext { covs: None }),
    {
        CudaCovContext { covs: None }
    }

    /// Plans the covariances of `num_points` points.
    pub fn compute_covariances(&self, num_points: usize) -> (r: Result<CovPlan, GpuError>)
        requires
            num_points * 9 <= usize::MAX,
        ensures
            num_points == 0 ==> r == Err::<CovPlan, GpuError>(GpuError::NoPoints),
            num_points > 0 ==> r == Ok::<CovPlan, GpuError>(CovPlan::of(*self, num_points)),
            r matches Ok(plan) ==> {
                &&& plan.grow.covs == if capacity_of(self.covs) < num_points * 9 {
                        Some(gpu_buffer::grown_len((num_points * 9) as usize))
                    } else {
                        None
                    }
                &&& plan.launch == gpu_buffer::dims_for(num_points as u32)
                &&& plan.points_arg == num_points as i32
                &&& plan.copy_end == capacity_of(after_growth(self.covs, plan.grow.covs))
                &&& num_points * 9 <= plan.copy_end
            },
            r matches Ok(plan) ==> gpu_buffer::has_room(
                self.covs,
                plan.grow.covs,
                (num_points * 9) as usize,
            ),
    {
        if num_points == 0 {
            return Err(GpuError::NoPoints);
        }
        let growth: Option<usize> = ensure_buffer(self.covs, num_points * 9);
        Ok(
            CovPlan {
                grow: CudaCovContext { covs: growth },
                launch: launch_dims(num_points as u32),
                points_arg: num_points as i32,
                copy_end: capacity_of(after_growth(self.covs, growth)),
            },
        )
    }
}

} // verus!
