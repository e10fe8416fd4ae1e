//! The nearest-neighbour search on the device.

use vstd::prelude::*;

use crate::float::single::F32;
use crate::gpu_buffer;
use crate::gpu_buffer::{
    after_growth, capacity_of, ensure_buffer, launch_dims, GpuError, LaunchDims,
};

verus! {

/// The lengths of the buffers on the device, where there is one.
#[derive(Clone, Copy, PartialEq, Eq, Structural, Debug)]
pub struct CudaKnnContext {
    pub indices: Option<usize>,
    pub dists: Option<usize>,
}

/// What a search does on the device. The kernel fills the front of the two buffers, and the results
/// are copies of the buffers up to `indices_end` and `dists_end`.
#[derive(Clone, Copy, PartialEq, Eq, Debug)]
pub struct KnnPlan {
    pub grow: CudaKnnContext,
    pub launch: LaunchDims,
    pub source_arg: i32,
    pub target_arg: i32,
    pub indices_end: usize,
    pub dists_end: usize,
}

impl KnnPlan {
    /// The plan for a search: one index and one distance per source point.
    pub open spec fn of(ctx: CudaKnnContext, num_source: usize, num_target: usize) -> KnnPlan {
        KnnPlan {
            grow: CudaKnnContext {
                indices: gpu_buffer::growth_for(ctx.indices, num_source),
                dists: gpu_buffer::growth_for(ctx.dists, num_source),
            },
            launch: gpu_buffer::dims_for(num_source as u32),
            source_arg: num_source as i32,
            target_arg: num_target as i32,
            indices_end: capacity_of(
                after_growth(ctx.indices, gpu_buffer::growth_for(ctx.indices, num_source)),
            ),
            dists_end: capacity_of(
                after_growth(ctx.dists, gpu_buffer::growth_for(ctx.dists, num_source)),
            ),
        }
    }
}

/// The context once the buffers have grown as planned.
pub open spec fn context_after(ctx: CudaKnnContext, plan: KnnPlan) -> CudaKnnContext {
    CudaKnnContext {
        indices: after_growth(ctx.indices, plan.grow.indices),
        dists: after_growth(ctx.dists, plan.grow.dists),
    }
}

/// What a buffer holds, of each of the two.
pub struct Neighbours {
    pub indices: Seq<i32>,
    pub dists: Seq<F32>,
}

impl Neighbours {
    /// One index and one distance for each of `n` points.
    pub open spec fn has_len(self, n: nat) -> bool {
        self.indices.len() == n && self.dists.len() == n
    }

    /// The buffers are as long as the plan makes them.
    pub open spec fn fills(self, plan: KnnPlan) -> bool {
        self.indices.len() == plan.indices_end && self.dists.len() == plan.dists_end
    }

    /// The first `n` of each.
    pub open spec fn take(self, n: int) -> Neighbours {
        Neighbours { indices: self.indices.take(n), dists: self.dists.take(n) }
    }
}

/// The results handed out after one more search, in which the kernel wrote `found` to the front of
/// the buffers: the earlier ones, and copies of the two buffers.
pub open spec fn results_after(
    results: Seq<Neighbours>,
    plan: KnnPlan,
    buffers: Neighbours,
    found: Neighbours,
) -> Seq<Neighbours> {
    results.push(
        Neighbours {
            indices: gpu_buffer::copied(buffers.indices, found.indices, plan.indices_end),
            dists: gpu_buffer::copied(buffers.dists, found.dists, plan.dists_end),
        },
    )
}

/// Of two searches on one context, the whole buffers come back from each, each result starts with
/// what its own search found, and the second search leaves the first result as it was.
pub proof fn results_are_copies(
    ctx: CudaKnnContext,
    n1: usize,
    n2: usize,
    m1: usize,
    m2: usize,
    buffers1: Neighbours,
    buffers2: Neighbours,
    found1: Neighbours,
    found2: Neighbours,
)
    requires
        found1.has_len(n1 as nat),
        found2.has_len(n2 as nat),
        ({
            let plan1 = KnnPlan::of(ctx, n1, m1);
            let plan2 = KnnPlan::of(context_after(ctx, plan1), n2, m2);
            buffers1.fills(plan1) && buffers2.fills(plan2)
        }),
    ensures
        ({
            let plan1 = KnnPlan::of(ctx, n1, m1);
            let plan2 = KnnPlan::of(context_after(ctx, plan1), n2, m2);
            let first = results_after(Seq::empty(), plan1, buffers1, found1);
            let both = results_after(first, plan2, buffers2, found2);
            &&& first[0].fills(plan1)
            &&& first[0].take(n1 as int) == found1
            &&& both[0] == first[0]
            &&& both[1].fills(plan2)
            &&& both[1].take(n2 as int) == found2
        }),
{
    let ctx1 = context_after(ctx, KnnPlan::of(ctx, n1, m1));
    gpu_buffer::copies_hold_the_entries(ctx.indices, n1, buffers1.indices, found1.indices);
    gpu_buffer::copies_hold_the_entries(ctx.dists, n1, buffers1.dists, found1.dists);
    gpu_buffer::copies_hold_the_entries(ctx1.indices, n2, buffers2.indices, found2.indices);
    gpu_buffer::copies_hold_the_entries(ctx1.dists, n2, buffers2.dists, found2.dists);
}

impl CudaKnnContext {
    /// A context without any buffer.
    pub fn new() -> (ctx: CudaKnnContext)
        ensures
            ctx == (CudaKnnContext { indices: None, dists: None }),
    {
        CudaKnnContext { indices: None, dists: None }
    }

    /// Plans the search of the nearest of `num_target` points for each of `num_source` points.
    /// There is a result for every source point.
    pub fn find_nearest(&self, num_source: usize, num_target: usize) -> (r: Result<
        KnnPlan,
        GpuError,
    >)
        ensures
            num_source == 0 || num_target == 0 ==> r == Err::<KnnPlan, GpuError>(
                GpuError::EmptyCloud,
            ),
            num_source > 0 && num_target > 0 ==> r == Ok::<KnnPlan, GpuError>(
                KnnPlan::of(*self, num_source, num_target),
            ),
            r matches Ok(plan) ==> {
                &&& plan.grow.indices == if capacity_of(self.indices) < num_source {
                        Some(gpu_buffer::grown_len(num_source))
                    } else {
                        None
                    }
                &&& plan.grow.dists == if capacity_of(self.dists) < num_source {
                        Some(gpu_buffer::grown_len(num_source))
                    } else {
                        None
                    }
                &&& plan.launch == gpu_buffer::dims_for(num_source as u32)
                &&& plan.source_arg == num_source as i32
                &&& plan.target_arg == num_target as i32
                &&& plan.indices_end == capacity_of(after_growth(self.indices, plan.grow.indices))
                &&& plan.dists_end == capacity_of(after_growth(self.dists, plan.grow.dists))
                &&& num_source <= plan.indices_end && num_source <= plan.dists_end
            },
            r matches Ok(plan) ==> gpu_buffer::has_room(
                self.indices,
                plan.grow.indices,
                num_source,
            ) && gpu_buffer::has_room(self.dists, plan.grow.dists, num_source),
    {
        if num_source == 0 || num_target == 0 {
            return Err(GpuError::EmptyCloud);
        }
        let grow: CudaKnnContext = CudaKnnContext {
            indices: ensure_buffer(self.indices, num_source),
            dists: ensure_buffer(self.dists, num_source),
        };
        Ok(
            KnnPlan {
                grow,
                launch: launch_dims(num_source as u32),
                source_arg: num_source as i32,
                target_arg: num_target as i32,
                indices_end: capacity_of(after_growth(self.indices, grow.indices)),
                dists_end: capacity_of(after_growth(self.dists, grow.dists)),
            },
        )
    }
}

} // verus!
