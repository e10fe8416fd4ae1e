//! The device buffers: when one has to be replaced by a larger one, and how a kernel is launched
//! over them.

use vstd::prelude::*;
use vstd::arithmetic::div_mod::*;
use vstd::arithmetic::mul::*;
use vstd::arithmetic::power2::*;

use crate::float::arith;
use crate::float::laws;
use crate::float::rounding;
use crate::float::single::F32;

verus! {

/// The bit pattern of 1.2, by which a buffer is made larger than it has to be.
pub const GROWTH: u32 = 0x3f99_999a;

/// Why a piece of work for the device was refused.
#[derive(Clone, Copy, PartialEq, Eq, Structural, Debug)]
pub enum GpuError {
    /// There is nothing to downsample.
    NoInputPoints,
    /// There are no points to compute covariances of.
    NoPoints,
    /// One of the two clouds is empty.
    EmptyCloud,
    /// The matrix that came back does not have six rows of six entries.
    WrongShape,
}

impl GpuError {
    /// The message for the user.
    pub fn message(self) -> (m: &'static str)
        ensures
            m@ == (match self {
                GpuError::NoInputPoints => "No input points for voxel downsampling"@,
                GpuError::NoPoints => "No points provided for covariance computation"@,
                GpuError::EmptyCloud => "Empty point cloud"@,
                GpuError::WrongShape => "Failed to reshape H matrix"@,
            }),
    {
        match self {
            GpuError::NoInputPoints => "No input points for voxel downsampling",
            GpuError::NoPoints => "No points provided for covariance computation",
            GpuError::EmptyCloud => "Empty point cloud",
            GpuError::WrongShape => "Failed to reshape H matrix",
        }
    }
}

/// The length of the buffer that is made where `len` elements do not fit.
#[verifier::allow_in_spec]
pub fn grown_len(len: usize) -> usize
    returns
        F32::from_count(len as u64).times(F32 { bits: GROWTH }).trunc_usize(),
{
    F32::from_count(len as u64).times(F32 { bits: GROWTH }).trunc_usize()
}

/// The number of elements that fit in a buffer; none where there is no buffer.
#[verifier::allow_in_spec]
pub fn capacity_of(buffer: Option<usize>) -> usize
    returns
        (match buffer {
            Some(n) => n,
            None => 0,
        }),
{
    match buffer {
        Some(n) => n,
        None => 0,
    }
}

/// What a buffer is once the allocation that was asked for has been made.
#[verifier::allow_in_spec]
pub fn after_growth(buffer: Option<usize>, growth: Option<usize>) -> Option<usize>
    returns
        (match growth {
            Some(n) => Some(n),
            None => buffer,
        }),
{
    match growth {
        Some(n) => Some(n),
        None => buffer,
    }
}

/// The length of the new buffer that `len` elements call for, if the present one is too short.
pub open spec fn growth_for(buffer: Option<usize>, len: usize) -> Option<usize> {
    if capacity_of(buffer) < len {
        Some(grown_len(len))
    } else {
        None
    }
}

/// There is a buffer with room for `len` elements once the allocation has been made.
pub open spec fn has_room(buffer: Option<usize>, growth: Option<usize>, len: usize) -> bool {
    after_growth(buffer, growth) matches Some(n) && n >= len
}

/// The length of the new buffer that `len` elements call for, if the present one is too short.
pub fn ensure_buffer(buffer: Option<usize>, len: usize) -> (growth: Option<usize>)
    ensures
        growth == growth_for(buffer, len),
        growth == if capacity_of(buffer) < len {
            Some(grown_len(len))
        } else {
            None
        },
        capacity_of(after_growth(buffer, growth)) >= len,
        len > 0 || buffer is Some ==> has_room(buffer, growth, len),
{
    if capacity_of(buffer) < len {
        proof {
            growth_is_enough(len);
        }
        Some(grown_len(len))
    } else {
        None
    }
}

/// A copy of a buffer up to `end`, after a kernel wrote `entries` to its front.
pub open spec fn copied<T>(buffer: Seq<T>, entries: Seq<T>, end: usize) -> Seq<T> {
    (entries + buffer.skip(entries.len() as int)).take(end as int)
}

/// A copy of a whole buffer that has room for the entries starts with them, and goes on with what
/// the buffer held.
pub proof fn copies_hold_the_entries<T>(
    old_len: Option<usize>,
    len: usize,
    buffer: Seq<T>,
    entries: Seq<T>,
)
    requires
        entries.len() == len,
        buffer.len() == capacity_of(after_growth(old_len, growth_for(old_len, len))),
    ensures
        ({
            let end = capacity_of(after_growth(old_len, growth_for(old_len, len)));
            let copy = copied(buffer, entries, end);
            &&& end >= len
            &&& copy.len() == end
            &&& copy.take(len as int) == entries
            &&& copy.skip(len as int) == buffer.skip(len as int)
        }),
{
    growth_is_enough(len);
    let end = capacity_of(after_growth(old_len, growth_for(old_len, len)));
    let copy = copied(buffer, entries, end);
    assert(copy.take(len as int) =~= entries);
    assert(copy.skip(len as int) =~= buffer.skip(len as int));
}

/// Rounding loses at most one part in `2^p`.
proof fn lemma_rounded_below(p: nat, inf: nat, n: nat, d: nat)
    requires
        d > 0,
        p >= 1,
        n >= d * pow2(p),
        rounding::round_mag(p, inf, n, d) < inf,
    ensures
        (rounding::units(p, rounding::round_mag(p, inf, n, d)) * d) * pow2(p) >= n * (pow2(p) - 1),
{
    let h = pow2((p - 1) as nat);
    let k = rounding::quantum(p, n, d);
    let s = pow2(k);
    let e = d * s;
    let q = rounding::nearest(n, e);
    let u = rounding::units(p, rounding::round_mag(p, inf, n, d));
    laws::lemma_rounded_units(p, inf, n, d);
    laws::lemma_quotient_bounds(p, n, d);
    laws::lemma_nearest(n, e, 0);
    lemma_pow2_unfold(p);
    assert((q * s) * d == q * e) by (nonlinear_arith)
        requires
            e == d * s,
    ;
    assert((u * d) * pow2(p) >= n * (pow2(p) - 1)) by (nonlinear_arith)
        requires
            2 * (u * d) >= 2 * n - e,
            n >= e * h,
            pow2(p) == 2 * h,
    ;
}

/// A quotient below `2^b` units rounds to a finite value that is at most `2^(b + 1)`.
proof fn lemma_rounded_finite(n: nat, d: nat, b: nat)
    requires
        d > 0,
        n < d * pow2(b),
        24 <= b <= 270,
    ensures
        rounding::round_mag(24, 0x7f80_0000, n, d) < 0x7f80_0000,
        rounding::units(24, rounding::round_mag(24, 0x7f80_0000, n, d)) <= pow2(b + 1),
{
    let k = rounding::quantum(24, n, d);
    laws::lemma_quantum_bounds(24, n, d);
    laws::lemma_quotient_bounds(24, n, d);
    assert(pow2(23) == 0x80_0000 && pow2(24) == 0x100_0000) by {
        lemma2_to64();
    }
    if k > 0 && 24 + k - 1 >= b {
        if 24 + k - 1 > b {
            lemma_pow2_strictly_increases(b, (24 + k - 1) as nat);
        }
        assert(d * pow2(b) <= d * pow2((24 + k - 1) as nat)) by (nonlinear_arith)
            requires
                pow2(b) <= pow2((24 + k - 1) as nat),
        ;
    }
    assert(k + 23 < b || k == 0);
    laws::lemma_rounded_units(24, 0x7f80_0000, n, d);
    let q = rounding::nearest(n, d * pow2(k));
    lemma_pow2_adds(24, k);
    lemma_pow2_strictly_increases(24 + k, b + 1);
    assert(q * pow2(k) <= pow2(24) * pow2(k)) by (nonlinear_arith)
        requires
            q <= pow2(24),
    ;
}

/// A buffer that is made for `len` elements has room for them.
#[verifier::spinoff_prover]
pub proof fn growth_is_enough(len: usize)
    ensures
        grown_len(len) >= len,
{
    let fmt = arith::single_format();
    let one = pow2(149);
    let x = F32::from_count(len as u64);
    let c = F32 { bits: GROWTH };
    let y = x.times(c);
    if len > 0 {
        reveal(F32::spec_from_count);
        reveal(F32::spec_times);
        reveal(F32::spec_trunc_usize);
        lemma2_to64();
        lemma2_to64_rest();
        lemma_pow2_pos(149);
        let n = len as nat * one;
        lemma_pow2_adds(64, 149);
        assert(n < 1 * pow2(213)) by (nonlinear_arith)
            requires
                n == len as nat * one,
                len < pow2(64),
                one > 0,
                pow2(213) == pow2(64) * one,
        ;
        lemma_rounded_finite(n, 1, 213);
        lemma_pow2_strictly_increases(24, 149);
        assert(n >= 1 * pow2(24)) by (nonlinear_arith)
            requires
                n == len as nat * one,
                len >= 1,
                one >= pow2(24),
        ;
        lemma_rounded_below(24, 0x7f80_0000, n, 1);
        let ux = fmt.units(x.signed().mag);
        assert(x.signed().mag == fmt.whole(len as nat));
        assert(ux * 0x100_0000 >= n * 0xff_ffff);
        let w = pow2(126);
        lemma_pow2_pos(126);
        lemma_pow2_adds(23, 126);
        let uc = fmt.units(c.signed().mag);
        lemma_fundamental_div_mod_converse(0x3f99_999a, 0x80_0000, 127, 0x19_999a);
        assert(uc == 0x99_999a * w);
        let m = ux * uc;
        lemma_pow2_adds(24, 126);
        lemma_pow2_adds(214, 150);
        lemma_pow2_adds(149, 215);
        lemma_pow2_pos(214);
        assert(uc < pow2(150)) by (nonlinear_arith)
            requires
                uc == 0x99_999a * w,
                pow2(150) == 0x100_0000 * w,
                w > 0,
        ;
        assert(m < one * pow2(215)) by (nonlinear_arith)
            requires
                m == ux * uc,
                ux <= pow2(214),
                0 <= uc < pow2(150),
                pow2(214) > 0,
                one * pow2(215) == pow2(214) * pow2(150),
        ;
        lemma_rounded_finite(m, one, 215);
        lemma_pow2_strictly_increases(32, 149);
        assert(n >= one) by (nonlinear_arith)
            requires
                n == len as nat * one,
                len >= 1,
                one > 0,
        ;
        assert(m >= one * pow2(24)) by (nonlinear_arith)
            requires
                m == ux * (0x99_999a * w),
                2 * ux + 1 >= one,
                one == 0x80_0000 * w,
                one >= 0x800_0000,
                pow2(24) == 0x100_0000,
                w > 0,
        ;
        lemma_rounded_below(24, 0x7f80_0000, m, one);
        let uy = fmt.units(y.signed().mag);
        assert((uy * one) * 0x100_0000 >= m * 0xff_ffff);
        assert(uy >= n) by (nonlinear_arith)
            requires
                (uy * one) * 0x100_0000 >= m * 0xff_ffff,
                m == ux * (0x99_999a * w),
                ux * 0x100_0000 >= n * 0xff_ffff,
                one == 0x80_0000 * w,
                w > 0,
        ;
        lemma_div_is_ordered(n as int, uy as int, one as int);
        lemma_div_multiples_vanish(len as int, one as int);
        lemma_mul_is_commutative(len as int, one as int);
    }
}

/// Buffers never shrink, and one that has grown for a length need not grow for it again.
pub proof fn buffers_settle(buffer: Option<usize>, len: usize)
    ensures
        ({
            let after = after_growth(buffer, growth_for(buffer, len));
            &&& growth_for(buffer, len) is None <==> capacity_of(buffer) >= len
            &&& growth_for(buffer, len) is Some ==> capacity_of(after) == grown_len(len)
            &&& capacity_of(after) >= capacity_of(buffer)
            &&& capacity_of(after) >= len
            &&& growth_for(after, len) is None
        }),
{
    growth_is_enough(len);
}

/// How a kernel is launched: the blocks, the threads of a block and the shared memory.
#[derive(Clone, Copy, PartialEq, Eq, Debug)]
pub struct LaunchDims {
    pub grid: (u32, u32, u32),
    pub block: (u32, u32, u32),
    pub shared_mem: u32,
}

/// One thread per element, in blocks of 1024 threads.
pub open spec fn dims_for(num_elems: u32) -> LaunchDims {
    LaunchDims {
        grid: (((num_elems + 1023) / 1024) as u32, 1, 1),
        block: (1024, 1, 1),
        shared_mem: 0,
    }
}

/// Calls `cudarc::driver::LaunchConfig::for_num_elems`, which splits the elements into blocks of
/// 1024 threads along the first dimension, the last block being partly idle, and asks for no
/// shared memory.
#[verifier::external_body]
pub(crate) fn launch_dims(num_elems: u32) -> (dims: LaunchDims)
    ensures
        dims == dims_for(num_elems),
{
    let cfg = cudarc::driver::LaunchConfig::for_num_elems(num_elems);
    LaunchDims { grid: cfg.grid_dim, block: cfg.block_dim, shared_mem: cfg.shared_mem_bytes }
}

/// A launch has a thread for every element, in blocks of 1024 along the first dimension, and less than
/// a block of threads to spare.
pub proof fn launch_covers(num_elems: u32)
    ensures
        ({
            let dims = dims_for(num_elems);
            &&& num_elems <= dims.grid.0 * dims.block.0 < num_elems + 1024
            &&& dims.block == (1024u32, 1u32, 1u32)
            &&& dims.grid.1 == 1 && dims.grid.2 == 1
            &&& dims.shared_mem == 0
        }),
{
}

} // verus!
