//! The normal equations of a step, summed up on the device.

use vstd::prelude::*;

use crate::float::double::F64;
use crate::float::single::F32;
use crate::gpu_buffer;
use crate::gpu_buffer::{launch_dims, GpuError, LaunchDims};

verus! {

/// The number of entries of the matrix.
pub const MATRIX_LEN: usize = 36;

/// The number of entries of the right-hand side.
pub const VECTOR_LEN: usize = 6;

/// The work on the device, which keeps no buffers between steps.
#[derive(Clone, Copy, PartialEq, Eq, Structural, Debug)]
pub struct CudaGicpContext {}

/// What summing up the equations does on the device.
#[derive(Clone, Copy, PartialEq, Eq, Debug)]
pub struct GicpPlan {
    pub matrix_len: usize,
    pub vector_len: usize,
    pub launch: LaunchDims,
    pub source_arg: i32,
    pub target_arg: i32,
}

/// The same numbers in 64 bits.
pub open spec fn widened(values: Seq<F32>) -> Seq<F64> {
    values.map_values(|v: F32| v.widened())
}

fn widen(values: &Vec<F32>) -> (out: Vec<F64>)
    ensures
        out@ == widened(values@),
{
    let mut out: Vec<F64> = Vec::new();
    let mut i: usize = 0;
    while i < values.len()
        invariant
            i <= values.len(),
            out.len() == i,
            forall|k: int| 0 <= k < i ==> #[trigger] out[k] == values[k].widened(),
        decreases values.len() - i,
    {
        out.push(values[i].widened());
        i = i + 1;
    }
    assert(out@ =~= widened(values@));
    out
}

impl CudaGicpContext {
    /// A context.
    pub fn new() -> (ctx: CudaGicpContext)
        ensures
            ctx == (CudaGicpContext {  }),
    {
        CudaGicpContext {  }
    }

    /// Plans a step over clouds that take up `source_len` and `target_len` coordinates.
    pub fn compute_gicp(&self, source_len: usize, target_len: usize) -> (r: Result<
        GicpPlan,
        GpuError,
    >)
        ensures
            ({
                let num_source = source_len / 3;
                let num_target = target_len / 3;
                r == if num_source == 0 || num_target == 0 {
                    Err::<GicpPlan, GpuError>(GpuError::EmptyCloud)
                } else {
                    Ok::<GicpPlan, GpuError>(
                        GicpPlan {
                            matrix_len: MATRIX_LEN,
                            vector_len: VECTOR_LEN,
                            launch: gpu_buffer::dims_for(num_source as u32),
                            source_arg: num_source as i32,
                            target_arg: num_target as i32,
                        },
                    )
                }
            }),
    {
        let num_source: usize = source_len / 3;
        let num_target: usize = target_len / 3;
        if num_source == 0 || num_target == 0 {
            return Err(GpuError::EmptyCloud);
        }
        Ok(
            GicpPlan {
                matrix_len: MATRIX_LEN,
                vector_len: VECTOR_LEN,
                launch: launch_dims(num_source as u32),
                source_arg: num_source as i32,
                target_arg: num_target as i32,
            },
        )
    }

    /// The matrix, row by row, and the right-hand side that came back from the device.
    pub fn read_back(&self, h: &Vec<F32>, b: &Vec<F32>) -> (r: Result<
        (Vec<F64>, Vec<F64>),
        GpuError,
    >)
        ensures
            h.len() != MATRIX_LEN ==> r == Err::<(Vec<F64>, Vec<F64>), GpuError>(
                GpuError::WrongShape,
            ),
            h.len() == MATRIX_LEN ==> (r matches Ok(hb) && hb.0@ == widened(h@) && hb.1@ == widened(
                b@,
            )),
            r matches Ok(hb) ==> {
                &&& hb.0.len() == h.len() && hb.1.len() == b.len()
                &&& forall|k: int| 0 <= k < h.len() ==> #[trigger] hb.0[k] == h[k].widened()
                &&& forall|k: int| 0 <= k < b.len() ==> #[trigger] hb.1[k] == b[k].widened()
            },
    {
        if h.len() != MATRIX_LEN {
            return Err(GpuError::WrongShape);
        }
        Ok((widen(h), widen(b)))
    }
}

} // verus!
