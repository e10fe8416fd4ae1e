//! Aligning a cloud with the map: which pairs of points take part, the normal equations of a
//! step, and when to stop.

use vstd::prelude::*;

use crate::cloud::P3;
use crate::float::accuracy;
use crate::float::accuracy::{eps64, near64, real64, size};
use crate::float::double::F64;
use crate::float::laws;
use crate::float::single::F32;
use crate::float::sums;
use crate::geometry::{M3, V3};
use crate::pose;
use crate::pose::{convert_se3_to_matrix4, mat4_mul, Mat4, Twist};

verus! {

/// The bit pattern of 0.5, the largest squared distance of a pair.
pub const MAX_PAIR_DISTANCE: u32 = 0x3f00_0000;

/// The bit pattern of 0.125, the error below which an alignment is good enough.
pub const RMSE_THRESHOLD: u32 = 0x3e00_0000;

/// The number of steps after which an alignment ends.
pub const MAX_ITERATIONS: usize = 4;

/// The number of pairs below which a step is not attempted.
pub const MIN_PAIRS: usize = 20;

/// Why a step failed.
#[derive(Clone, Copy, PartialEq, Eq, Structural, Debug)]
pub enum GicpError {
    /// The normal equations have no solution.
    LinearSolveFailed,
}

/// A source point and its nearest target point.
#[derive(Clone, Copy, PartialEq, Eq, Structural, Debug)]
pub struct Pair {
    pub source: usize,
    pub target: usize,
}

/// Whether the search found a neighbour that is near enough.
#[verifier::allow_in_spec]
pub fn is_near(index: i32, dist_sq: F32) -> bool
    returns
        (index >= 0 && !(F32 { bits: MAX_PAIR_DISTANCE }).lt(dist_sq)),
{
    index >= 0 && !(F32 { bits: MAX_PAIR_DISTANCE }).lt(dist_sq)
}

/// The pairs among the first `n` source points: those with a neighbour that is near enough and
/// one of the `num_target` target points.
pub open spec fn pairs_of(indices: Seq<i32>, dists_sq: Seq<F32>, num_target: usize, n: nat) -> Seq<
    Pair,
>
    decreases n,
{
    if n == 0 {
        Seq::empty()
    } else {
        let before = pairs_of(indices, dists_sq, num_target, (n - 1) as nat);
        let (idx, d) = (indices[n - 1], dists_sq[n - 1]);
        if is_near(idx, d) && idx < num_target {
            before.push(Pair { source: (n - 1) as usize, target: idx as usize })
        } else {
            before
        }
    }
}

/// The pairs that take part in a step, given the index and the squared distance of the nearest
/// target point of each source point.
pub fn select_pairs(
    num_source: usize,
    num_target: usize,
    indices: &Vec<i32>,
    dists_sq: &Vec<F32>,
) -> (pairs: Vec<Pair>)
    requires
        indices.len() >= num_source,
        dists_sq.len() >= num_source,
    ensures
        pairs@ == pairs_of(indices@, dists_sq@, num_target, num_source as nat),
        forall|i: int|
            0 <= i < pairs.len() ==> (#[trigger] pairs[i]).source < num_source && pairs[i].target
                < num_target,
{
    let mut pairs: Vec<Pair> = Vec::new();
    let mut j: usize = 0;
    while j < num_source
        invariant
            j <= num_source,
            indices.len() >= num_source,
            dists_sq.len() >= num_source,
            pairs@ == pairs_of(indices@, dists_sq@, num_target, j as nat),
            forall|i: int|
                0 <= i < pairs.len() ==> (#[trigger] pairs[i]).source < num_source
                    && pairs[i].target < num_target,
        decreases num_source - j,
    {
        let idx: i32 = indices[j];
        if is_near(idx, dists_sq[j]) {
            let k: usize = idx as usize;
            if k < num_target {
                pairs.push(Pair { source: j, target: k });
            }
        }
        j = j + 1;
    }
    pairs
}

/// The pairs are those of the source points with a neighbour near enough among the target points,
/// each with that neighbour, in the order of the source points.
pub proof fn pairs_are_the_near_ones(
    indices: Seq<i32>,
    dists_sq: Seq<F32>,
    num_target: usize,
    n: nat,
)
    requires
        n <= usize::MAX,
    ensures
        ({
            let pairs = pairs_of(indices, dists_sq, num_target, n);
            &&& forall|i: int|
                0 <= i < pairs.len() ==> {
                    let p = #[trigger] pairs[i];
                    &&& p.source < n
                    &&& is_near(indices[p.source as int], dists_sq[p.source as int])
                    &&& indices[p.source as int] == p.target
                    &&& p.target < num_target
                }
            &&& forall|i: int, j: int|
                0 <= i < j < pairs.len() ==> (#[trigger] pairs[i]).source < (#[trigger] pairs[j]).source
            &&& forall|k: int|
                0 <= k < n && is_near(#[trigger] indices[k], dists_sq[k]) && indices[k] < num_target
                    ==> pairs.contains(Pair { source: k as usize, target: indices[k] as usize })
        }),
    decreases n,
{
    if n > 0 {
        let m = (n - 1) as nat;
        pairs_are_the_near_ones(indices, dists_sq, num_target, m);
        let before = pairs_of(indices, dists_sq, num_target, m);
        let pairs = pairs_of(indices, dists_sq, num_target, n);
        assert forall|k: int|
            0 <= k < n && is_near(#[trigger] indices[k], dists_sq[k]) && indices[k]
                < num_target implies pairs.contains(
            Pair { source: k as usize, target: indices[k] as usize },
        ) by {
            let p = Pair { source: k as usize, target: indices[k] as usize };
            if k < m {
                let i = choose|i: int| 0 <= i < before.len() && before[i] == p;
                assert(pairs[i] == p);
            } else {
                assert(pairs[before.len() as int] == p);
            }
        }
    }
}

/// Every pair is among the distances that the error averages: where there are enough pairs for a
/// step, the average is not one of nothing.
pub proof fn pairs_are_averaged(
    indices: Seq<i32>,
    dists_sq: Seq<F32>,
    num_target: usize,
    n: nat,
)
    ensures
        pairs_of(indices, dists_sq, num_target, n).len() <= distance_sum(indices, dists_sq, n).1,
        distance_sum(indices, dists_sq, n).1 <= n,
    decreases n,
{
    if n > 0 {
        pairs_are_averaged(indices, dists_sq, num_target, (n - 1) as nat);
    }
}

/// Whether there are enough pairs for a step.
#[verifier::allow_in_spec]
pub fn enough_pairs(n_valid: usize) -> bool
    returns
        n_valid >= MIN_PAIRS,
{
    n_valid >= MIN_PAIRS
}

/// The sum of the squared distances of the first `n` source points that have a neighbour near
/// enough, and their number.
pub open spec fn distance_sum(indices: Seq<i32>, dists_sq: Seq<F32>, n: nat) -> (F32, nat)
    decreases n,
{
    if n == 0 {
        (F32 { bits: 0 }, 0)
    } else {
        let (sum, count) = distance_sum(indices, dists_sq, (n - 1) as nat);
        if is_near(indices[n - 1], dists_sq[n - 1]) {
            (sum.plus(dists_sq[n - 1]), count + 1)
        } else {
            (sum, count)
        }
    }
}

/// The root of the mean squared distance of the source points that have a neighbour near enough.
pub fn pair_rmse(num_source: usize, indices: &Vec<i32>, dists_sq: &Vec<F32>) -> (rmse: F32)
    requires
        indices.len() >= num_source,
        dists_sq.len() >= num_source,
    ensures
        ({
            let (sum, count) = distance_sum(indices@, dists_sq@, num_source as nat);
            rmse == sum.over(F32::from_count(count as u64)).sqrt()
        }),
        ({
            let near = Seq::new(num_source as nat, |j: int| j).filter(
                |j: int| is_near(indices@[j], dists_sq@[j]),
            );
            rmse == near.fold_left(
                F32 { bits: 0 },
                |sum: F32, j: int| sum.plus(dists_sq@[j]),
            ).over(F32::from_count(near.len() as u64)).sqrt()
        }),
{
    let mut sum: F32 = F32 { bits: 0 };
    let mut count: u64 = 0;
    let mut j: usize = 0;
    while j < num_source
        invariant
            j <= num_source,
            count <= j,
            indices.len() >= num_source,
            dists_sq.len() >= num_source,
            (sum, count as nat) == distance_sum(indices@, dists_sq@, j as nat),
        decreases num_source - j,
    {
        if is_near(indices[j], dists_sq[j]) {
            sum = sum.plus(dists_sq[j]);
            count = count + 1;
        }
        j = j + 1;
    }
    proof {
        every_near_distance_is_averaged(indices@, dists_sq@, num_source as nat);
    }
    sum.over(F32::from_count(count)).sqrt()
}

/// The distances that are averaged are those of all source points with a neighbour near enough, each
/// of them once, whatever their number.
pub proof fn every_near_distance_is_averaged(indices: Seq<i32>, dists_sq: Seq<F32>, n: nat)
    ensures
        ({
            let near = Seq::new(n, |j: int| j).filter(
                |j: int| is_near(indices[j], dists_sq[j]),
            );
            let (sum, count) = distance_sum(indices, dists_sq, n);
            &&& count == near.len()
            &&& sum == near.fold_left(
                F32 { bits: 0 },
                |sum: F32, j: int| sum.plus(dists_sq[j]),
            )
        }),
    decreases n,
{
    reveal(Seq::filter);
    if n > 0 {
        let m = (n - 1) as nat;
        every_near_distance_is_averaged(indices, dists_sq, m);
        assert(Seq::new(n, |j: int| j).drop_last() =~= Seq::new(m, |j: int| j));
        let pred = |j: int| is_near(indices[j], dists_sq[j]);
        let before = Seq::new(m, |j: int| j).filter(pred);
        if is_near(indices[n - 1], dists_sq[n - 1]) {
            assert(Seq::new(n, |j: int| j).filter(pred) == before.push(n - 1));
            assert(before.push(n - 1).drop_last() =~= before);
        }
    }
}

/// The points at the source ends of the pairs.
pub fn gather_source(pairs: &Vec<Pair>, rows: &Vec<P3>) -> (out: Vec<P3>)
    requires
        forall|i: int| 0 <= i < pairs.len() ==> (#[trigger] pairs[i]).source < rows.len(),
    ensures
        out@ == pairs@.map_values(|p: Pair| rows[p.source as int]),
{
    let mut out: Vec<P3> = Vec::new();
    let mut i: usize = 0;
    while i < pairs.len()
        invariant
            i <= pairs.len(),
            out.len() == i,
            forall|k: int| 0 <= k < pairs.len() ==> (#[trigger] pairs[k]).source < rows.len(),
            forall|k: int| 0 <= k < i ==> #[trigger] out[k] == rows[pairs[k].source as int],
        decreases pairs.len() - i,
    {
        out.push(rows[pairs[i].source]);
        i = i + 1;
    }
    assert(out@ =~= pairs@.map_values(|p: Pair| rows[p.source as int]));
    out
}

/// The points at the target ends of the pairs.
pub fn gather_target(pairs: &Vec<Pair>, rows: &Vec<P3>) -> (out: Vec<P3>)
    requires
        forall|i: int| 0 <= i < pairs.len() ==> (#[trigger] pairs[i]).target < rows.len(),
    ensures
        out@ == pairs@.map_values(|p: Pair| rows[p.target as int]),
{
    let mut out: Vec<P3> = Vec::new();
    let mut i: usize = 0;
    while i < pairs.len()
        invariant
            i <= pairs.len(),
            out.len() == i,
            forall|k: int| 0 <= k < pairs.len() ==> (#[trigger] pairs[k]).target < rows.len(),
            forall|k: int| 0 <= k < i ==> #[trigger] out[k] == rows[pairs[k].target as int],
        decreases pairs.len() - i,
    {
        out.push(rows[pairs[i].target]);
        i = i + 1;
    }
    assert(out@ =~= pairs@.map_values(|p: Pair| rows[p.target as int]));
    out
}

/// The sums of the covariances at the two ends of the pairs.
pub open spec fn covariance_sums(
    pairs: Seq<Pair>,
    source_covs: Seq<M3>,
    target_covs: Seq<M3>,
) -> Seq<M3> {
    pairs.map_values(
        |p: Pair| target_covs[p.target as int].plus(source_covs[p.source as int]),
    )
}

/// Only the sums of covariances matter: exchanging source and target, in the pairs and in the
/// covariances, leaves them equal.
pub proof fn covariances_may_be_exchanged(
    pairs: Seq<Pair>,
    source_covs: Seq<M3>,
    target_covs: Seq<M3>,
)
    ensures
        ({
            let exchanged = pairs.map_values(
                |p: Pair| Pair { source: p.target, target: p.source },
            );
            covariance_sums(exchanged, target_covs, source_covs) == covariance_sums(
                pairs,
                source_covs,
                target_covs,
            )
        }),
{
    let exchanged = pairs.map_values(|p: Pair| Pair { source: p.target, target: p.source });
    assert forall|i: int| 0 <= i < pairs.len() implies #[trigger] covariance_sums(
        exchanged,
        target_covs,
        source_covs,
    )[i] == covariance_sums(pairs, source_covs, target_covs)[i] by {
        let a = source_covs[pairs[i].source as int];
        let b = target_covs[pairs[i].target as int];
        lemma_rows_commute(a.r0, b.r0);
        lemma_rows_commute(a.r1, b.r1);
        lemma_rows_commute(a.r2, b.r2);
    }
    assert(covariance_sums(exchanged, target_covs, source_covs) =~= covariance_sums(
        pairs,
        source_covs,
        target_covs,
    ));
}

/// A sum of vectors does not depend on their order.
proof fn lemma_rows_commute(a: V3, b: V3)
    ensures
        a.plus(b) == b.plus(a),
{
    laws::sums_commute(a.x, b.x);
    laws::sums_commute(a.y, b.y);
    laws::sums_commute(a.z, b.z);
}

/// The summed covariances of the pairs: the weight of a pair is the inverse of its sum.
pub fn pair_covariances(pairs: &Vec<Pair>, source_covs: &Vec<M3>, target_covs: &Vec<M3>) -> (sums:
    Vec<M3>)
    requires
        forall|i: int|
            0 <= i < pairs.len() ==> (#[trigger] pairs[i]).source < source_covs.len()
                && pairs[i].target < target_covs.len(),
    ensures
        sums@ == covariance_sums(pairs@, source_covs@, target_covs@),
        sums.len() == pairs.len(),
        forall|i: int|
            0 <= i < pairs.len() ==> #[trigger] sums[i] == target_covs[pairs[i].target as int].plus(
                source_covs[pairs[i].source as int],
            ),
{
    let mut sums: Vec<M3> = Vec::new();
    let mut i: usize = 0;
    while i < pairs.len()
        invariant
            i <= pairs.len(),
            sums.len() == i,
            forall|k: int|
                0 <= k < pairs.len() ==> (#[trigger] pairs[k]).source < source_covs.len()
                    && pairs[k].target < target_covs.len(),
            forall|k: int|
                0 <= k < i ==> #[trigger] sums[k] == target_covs[pairs[k].target as int].plus(
                    source_covs[pairs[k].source as int],
                ),
        decreases pairs.len() - i,
    {
        let p: Pair = pairs[i];
        sums.push(target_covs[p.target].plus(source_covs[p.source]));
        i = i + 1;
    }
    assert(sums@ =~= covariance_sums(pairs@, source_covs@, target_covs@));
    sums
}

/// The normal equations of a step: a 6 by 6 matrix in four blocks and the right-hand side in two.
/// The first three unknowns are rotations, the last three translations.
#[derive(Clone, Copy, PartialEq, Eq, Structural, Debug)]
pub struct NormalEquations {
    pub h_rot: M3,
    pub h_mix: M3,
    pub h_mix_t: M3,
    pub h_trans: M3,
    pub b_rot: V3,
    pub b_trans: V3,
}

/// A 64-bit vector of the coordinates of a row.
#[verifier::allow_in_spec]
pub fn vector_of(p: P3) -> V3
    returns
        V3::new(p.x.widened(), p.y.widened(), p.z.widened()),
{
    V3::new(p.x.widened(), p.y.widened(), p.z.widened())
}

impl NormalEquations {
    /// Equations that say nothing.
    #[verifier::allow_in_spec]
    pub fn zeros() -> NormalEquations
        returns
            ({
                let o = F64 { bits: 0 };
                let v = V3::new(o, o, o);
                let m = M3 { r0: v, r1: v, r2: v };
                NormalEquations { h_rot: m, h_mix: m, h_mix_t: m, h_trans: m, b_rot: v, b_trans: v }
            }),
    {
        let o: F64 = F64 { bits: 0 };
        let v: V3 = V3::new(o, o, o);
        let m: M3 = M3 { r0: v, r1: v, r2: v };
        NormalEquations { h_rot: m, h_mix: m, h_mix_t: m, h_trans: m, b_rot: v, b_trans: v }
    }

    /// What one pair with the weight `omega` contributes: with `S` the matrix whose product with
    /// a vector is its vector product with the source point, the blocks are `S^T omega S`,
    /// `(omega S)^T`, `omega S` and `omega`.
    #[verifier::allow_in_spec]
    pub fn of_pair(p_s: V3, p_t: V3, omega: M3) -> NormalEquations
        returns
            ({
                let o = F64 { bits: 0 };
                let w_e = omega.apply(p_t.minus(p_s));
                let mix = M3 {
                    r0: omega.apply(V3::new(o, p_s.z.negated(), p_s.y)),
                    r1: omega.apply(V3::new(p_s.z, o, p_s.x.negated())),
                    r2: omega.apply(V3::new(p_s.y.negated(), p_s.x, o)),
                };
                let columns = M3 {
                    r0: p_s.cross(mix.r0),
                    r1: p_s.cross(mix.r1),
                    r2: p_s.cross(mix.r2),
                };
                NormalEquations {
                    h_rot: columns.transposed(),
                    h_mix: mix,
                    h_mix_t: mix.transposed(),
                    h_trans: omega,
                    b_rot: p_s.cross(w_e),
                    b_trans: w_e,
                }
            }),
    {
        let o: F64 = F64 { bits: 0 };
        let w_e: V3 = omega.apply(p_t.minus(p_s));
        let mix: M3 = M3 {
            r0: omega.apply(V3::new(o, p_s.z.negated(), p_s.y)),
            r1: omega.apply(V3::new(p_s.z, o, p_s.x.negated())),
            r2: omega.apply(V3::new(p_s.y.negated(), p_s.x, o)),
        };
        let columns: M3 = M3 {
            r0: p_s.cross(mix.r0),
            r1: p_s.cross(mix.r1),
            r2: p_s.cross(mix.r2),
        };
        NormalEquations {
            h_rot: columns.transposed(),
            h_mix: mix,
            h_mix_t: mix.transposed(),
            h_trans: omega,
            b_rot: p_s.cross(w_e),
            b_trans: w_e,
        }
    }

    /// The sum, entry by entry.
    #[verifier::allow_in_spec]
    pub fn plus(self, o: NormalEquations) -> NormalEquations
        returns
            (NormalEquations {
                h_rot: self.h_rot.plus(o.h_rot),
                h_mix: self.h_mix.plus(o.h_mix),
                h_mix_t: self.h_mix_t.plus(o.h_mix_t),
                h_trans: self.h_trans.plus(o.h_trans),
                b_rot: self.b_rot.plus(o.b_rot),
                b_trans: self.b_trans.plus(o.b_trans),
            }),
    {
        NormalEquations {
            h_rot: self.h_rot.plus(o.h_rot),
            h_mix: self.h_mix.plus(o.h_mix),
            h_mix_t: self.h_mix_t.plus(o.h_mix_t),
            h_trans: self.h_trans.plus(o.h_trans),
            b_rot: self.b_rot.plus(o.b_rot),
            b_trans: self.b_trans.plus(o.b_trans),
        }
    }

    /// The six rows of the matrix, one after the other.
    pub fn matrix_entries(self) -> (entries: Vec<F64>)
        ensures
            entries@ == block_row(self.h_rot.r0, self.h_mix.r0) + block_row(
                self.h_rot.r1,
                self.h_mix.r1,
            ) + block_row(self.h_rot.r2, self.h_mix.r2) + block_row(
                self.h_mix_t.r0,
                self.h_trans.r0,
            ) + block_row(self.h_mix_t.r1, self.h_trans.r1) + block_row(
                self.h_mix_t.r2,
                self.h_trans.r2,
            ),
            entries@ == seq![
                self.h_rot.r0.x,
                self.h_rot.r0.y,
                self.h_rot.r0.z,
                self.h_mix.r0.x,
                self.h_mix.r0.y,
                self.h_mix.r0.z,
                self.h_rot.r1.x,
                self.h_rot.r1.y,
                self.h_rot.r1.z,
                self.h_mix.r1.x,
                self.h_mix.r1.y,
                self.h_mix.r1.z,
                self.h_rot.r2.x,
                self.h_rot.r2.y,
                self.h_rot.r2.z,
                self.h_mix.r2.x,
                self.h_mix.r2.y,
                self.h_mix.r2.z,
                self.h_mix_t.r0.x,
                self.h_mix_t.r0.y,
                self.h_mix_t.r0.z,
                self.h_trans.r0.x,
                self.h_trans.r0.y,
                self.h_trans.r0.z,
                self.h_mix_t.r1.x,
                self.h_mix_t.r1.y,
                self.h_mix_t.r1.z,
                self.h_trans.r1.x,
                self.h_trans.r1.y,
                self.h_trans.r1.z,
                self.h_mix_t.r2.x,
                self.h_mix_t.r2.y,
                self.h_mix_t.r2.z,
                self.h_trans.r2.x,
                self.h_trans.r2.y,
                self.h_trans.r2.z,
            ],
    {
        let mut entries: Vec<F64> = Vec::new();
        push_row(&mut entries, self.h_rot.r0, self.h_mix.r0);
        push_row(&mut entries, self.h_rot.r1, self.h_mix.r1);
        push_row(&mut entries, self.h_rot.r2, self.h_mix.r2);
        push_row(&mut entries, self.h_mix_t.r0, self.h_trans.r0);
        push_row(&mut entries, self.h_mix_t.r1, self.h_trans.r1);
        push_row(&mut entries, self.h_mix_t.r2, self.h_trans.r2);
        entries
    }

    /// The right-hand side.
    pub fn right_side(self) -> (entries: Vec<F64>)
        ensures
            entries@ == block_row(self.b_rot, self.b_trans),
            entries@ == seq![
                self.b_rot.x,
                self.b_rot.y,
                self.b_rot.z,
                self.b_trans.x,
                self.b_trans.y,
                self.b_trans.z,
            ],
    {
        let mut entries: Vec<F64> = Vec::new();
        push_row(&mut entries, self.b_rot, self.b_trans);
        entries
    }
}

/// The entries of two neighbouring block rows.
pub open spec fn block_row(a: V3, b: V3) -> Seq<F64> {
    seq![a.x, a.y, a.z, b.x, b.y, b.z]
}

fn push_row(entries: &mut Vec<F64>, a: V3, b: V3)
    ensures
        final(entries)@ == old(entries)@ + block_row(a, b),
{
    entries.push(a.x);
    entries.push(a.y);
    entries.push(a.z);
    entries.push(b.x);
    entries.push(b.y);
    entries.push(b.z);
    assert(entries@ =~= old(entries)@ + block_row(a, b));
}

/// The equations of the first `n` pairs. A pair without a weight contributes nothing.
pub open spec fn equations_of(
    source_pts: Seq<P3>,
    target_pts: Seq<P3>,
    weights: Seq<Option<M3>>,
    n: nat,
) -> NormalEquations
    decreases n,
{
    if n == 0 {
        NormalEquations::zeros()
    } else {
        let before = equations_of(source_pts, target_pts, weights, (n - 1) as nat);
        match weights[n - 1] {
            Some(omega) => before.plus(
                NormalEquations::of_pair(
                    vector_of(source_pts[n - 1]),
                    vector_of(target_pts[n - 1]),
                    omega,
                ),
            ),
            None => before,
        }
    }
}

/// The normal equations of a step, given the inverse of the summed covariance of each pair, where
/// there is one.
pub fn solve_gicp_step(
    source_pts: &Vec<P3>,
    target_pts: &Vec<P3>,
    weights: &Vec<Option<M3>>,
) -> (eqs: NormalEquations)
    requires
        target_pts.len() >= source_pts.len(),
        weights.len() >= source_pts.len(),
    ensures
        eqs == equations_of(source_pts@, target_pts@, weights@, source_pts.len() as nat),
        eqs == Seq::new(source_pts@.len(), |i: int| i).fold_left(
            NormalEquations::zeros(),
            |sum: NormalEquations, i: int|
                match weights@[i] {
                    Some(omega) => sum.plus(
                        NormalEquations::of_pair(
                            vector_of(source_pts@[i]),
                            vector_of(target_pts@[i]),
                            omega,
                        ),
                    ),
                    None => sum,
                },
        ),
{
    let mut eqs: NormalEquations = NormalEquations::zeros();
    let mut i: usize = 0;
    while i < source_pts.len()
        invariant
            i <= source_pts.len(),
            target_pts.len() >= source_pts.len(),
            weights.len() >= source_pts.len(),
            eqs == equations_of(source_pts@, target_pts@, weights@, i as nat),
        decreases source_pts.len() - i,
    {
        if let Some(omega) = weights[i] {
            let p_s: V3 = vector_of(source_pts[i]);
            let p_t: V3 = vector_of(target_pts[i]);
            eqs = eqs.plus(NormalEquations::of_pair(p_s, p_t, omega));
        }
        i = i + 1;
    }
    proof {
        every_pair_is_summed(source_pts@, target_pts@, weights@, source_pts.len() as nat);
    }
    eqs
}

/// The equations are the sum of the contributions of all pairs that have a weight, from the first
/// pair to the last, whatever their number.
pub proof fn every_pair_is_summed(
    source_pts: Seq<P3>,
    target_pts: Seq<P3>,
    weights: Seq<Option<M3>>,
    n: nat,
)
    ensures
        equations_of(source_pts, target_pts, weights, n) == Seq::new(n, |i: int| i).fold_left(
            NormalEquations::zeros(),
            |sum: NormalEquations, i: int|
                match weights[i] {
                    Some(omega) => sum.plus(
                        NormalEquations::of_pair(
                            vector_of(source_pts[i]),
                            vector_of(target_pts[i]),
                            omega,
                        ),
                    ),
                    None => sum,
                },
        ),
    decreases n,
{
    if n > 0 {
        let m = (n - 1) as nat;
        every_pair_is_summed(source_pts, target_pts, weights, m);
        assert(Seq::new(n, |i: int| i).drop_last() =~= Seq::new(m, |i: int| i));
    }
}

/// One more pair: with a weight its contribution is added, at any place in the list, and without one
/// the equations stay as they were.
pub proof fn every_pair_contributes(
    source_pts: Seq<P3>,
    target_pts: Seq<P3>,
    weights: Seq<Option<M3>>,
    n: nat,
)
    ensures
        ({
            let (before, after) = (
                equations_of(source_pts, target_pts, weights, n),
                equations_of(source_pts, target_pts, weights, n + 1),
            );
            match weights[n as int] {
                Some(omega) => {
                    let own = NormalEquations::of_pair(
                        vector_of(source_pts[n as int]),
                        vector_of(target_pts[n as int]),
                        omega,
                    );
                    &&& after.h_rot == before.h_rot.plus(own.h_rot)
                    &&& after.h_mix == before.h_mix.plus(own.h_mix)
                    &&& after.h_mix_t == before.h_mix_t.plus(own.h_mix_t)
                    &&& after.h_trans == before.h_trans.plus(own.h_trans)
                    &&& after.b_rot == before.b_rot.plus(own.b_rot)
                    &&& after.b_trans == before.b_trans.plus(own.b_trans)
                },
                None => after == before,
            }
        }),
{
}

/// What a pair contributes to an entry, where it has a weight.
spec fn entry_terms(
    source_pts: Seq<P3>,
    target_pts: Seq<P3>,
    weights: Seq<Option<M3>>,
    n: nat,
    pick: spec_fn(NormalEquations) -> F64,
) -> Seq<F64>
    decreases n,
{
    if n == 0 {
        Seq::empty()
    } else {
        let before = entry_terms(source_pts, target_pts, weights, (n - 1) as nat, pick);
        match weights[n - 1] {
            Some(omega) => before.push(
                pick(
                    NormalEquations::of_pair(
                        vector_of(source_pts[n - 1]),
                        vector_of(target_pts[n - 1]),
                        omega,
                    ),
                ),
            ),
            None => before,
        }
    }
}

/// The sums of the terms.
proof fn lemma_entry_terms(
    source_pts: Seq<P3>,
    target_pts: Seq<P3>,
    weights: Seq<Option<M3>>,
    n: nat,
    pick: spec_fn(NormalEquations) -> F64,
)
    requires
        pick(NormalEquations::zeros()) == (F64 { bits: 0 }),
        forall|a: NormalEquations, b: NormalEquations| #[trigger]
            pick(a.plus(b)) == pick(a).plus(pick(b)),
    ensures
        ({
            let terms = entry_terms(source_pts, target_pts, weights, n, pick);
            let pairs = Seq::new(n, |i: int| i);
            &&& terms.len() <= n
            &&& pick(equations_of(source_pts, target_pts, weights, n)) == sums::running64(
                F64 { bits: 0 },
                terms,
            )
            &&& sums::total64(terms) == pairs.fold_left(
                0 as real,
                |t: real, i: int|
                    match weights[i] {
                        Some(omega) => t + real64(
                            pick(
                                NormalEquations::of_pair(
                                    vector_of(source_pts[i]),
                                    vector_of(target_pts[i]),
                                    omega,
                                ),
                            ),
                        ),
                        None => t,
                    },
            )
            &&& sums::size64(terms) == pairs.fold_left(
                0 as real,
                |t: real, i: int|
                    match weights[i] {
                        Some(omega) => t + size(
                            real64(
                                pick(
                                    NormalEquations::of_pair(
                                        vector_of(source_pts[i]),
                                        vector_of(target_pts[i]),
                                        omega,
                                    ),
                                ),
                            ),
                        ),
                        None => t,
                    },
            )
        }),
    decreases n,
{
    if n > 0 {
        let m = (n - 1) as nat;
        lemma_entry_terms(source_pts, target_pts, weights, m, pick);
        assert(Seq::new(n, |i: int| i).drop_last() =~= Seq::new(m, |i: int| i));
        let before = entry_terms(source_pts, target_pts, weights, m, pick);
        if let Some(omega) = weights[n - 1] {
            let own = pick(
                NormalEquations::of_pair(
                    vector_of(source_pts[n - 1]),
                    vector_of(target_pts[n - 1]),
                    omega,
                ),
            );
            assert(before.push(own).drop_last() =~= before);
        }
    }
}

/// Every entry of the equations, that is every number that is added up on its own, is the sum of what
/// all pairs with a weight contribute to it, up to rounding: it differs from the exact sum over every pair by at most two roundings of their sizes
/// for each pair, where nothing overflows.
pub proof fn entries_are_sums_over_all_pairs(
    source_pts: Seq<P3>,
    target_pts: Seq<P3>,
    weights: Seq<Option<M3>>,
    n: nat,
    pick: spec_fn(NormalEquations) -> F64,
)
    requires
        pick(NormalEquations::zeros()) == (F64 { bits: 0 }),
        forall|a: NormalEquations, b: NormalEquations| #[trigger]
            pick(a.plus(b)) == pick(a).plus(pick(b)),
        pick(equations_of(source_pts, target_pts, weights, n)).finite(),
        n <= 100_000_000_000_000,
    ensures
        ({
            let pairs = Seq::new(n, |i: int| i);
            let exact = pairs.fold_left(
                0 as real,
                |t: real, i: int|
                    match weights[i] {
                        Some(omega) => t + real64(
                            pick(
                                NormalEquations::of_pair(
                                    vector_of(source_pts[i]),
                                    vector_of(target_pts[i]),
                                    omega,
                                ),
                            ),
                        ),
                        None => t,
                    },
            );
            let sizes = pairs.fold_left(
                0 as real,
                |t: real, i: int|
                    match weights[i] {
                        Some(omega) => t + size(
                            real64(
                                pick(
                                    NormalEquations::of_pair(
                                        vector_of(source_pts[i]),
                                        vector_of(target_pts[i]),
                                        omega,
                                    ),
                                ),
                            ),
                        ),
                        None => t,
                    },
            );
            near64(
                pick(equations_of(source_pts, target_pts, weights, n)),
                exact,
                2 as real * ((n as int as real) * eps64()) * sizes,
            )
        }),
{
    let terms = entry_terms(source_pts, target_pts, weights, n, pick);
    lemma_entry_terms(source_pts, target_pts, weights, n, pick);
    let (k, m, e) = (terms.len() as int as real, n as int as real, eps64());
    accuracy::lemma_eps64();
    assert(2 as real * (k * e) <= 2 as real * (m * e) <= 1 as real) by (nonlinear_arith)
        requires
            0 as real <= e,
            e * 1_000_000_000_000_000int as real == 1 as real,
            k <= m,
            m <= 100_000_000_000_000int as real,
    ;
    sums::running_sums_are_near64(F64 { bits: 0 }, terms);
    sums::lemma_sizes64(terms);
    accuracy::lemma_zero64();
    let (a, f, g) = (sums::size64(terms), 2 as real * (k * e), 2 as real * (m * e));
    assert(f * a <= g * a) by (nonlinear_arith)
        requires
            f <= g,
            0 as real <= a,
    ;
}

/// The lower left block of the equations is the transpose of the upper right one, whatever the
/// pairs are.
pub proof fn mixed_blocks_are_transposed(
    source_pts: Seq<P3>,
    target_pts: Seq<P3>,
    weights: Seq<Option<M3>>,
    n: nat,
)
    ensures
        ({
            let eqs = equations_of(source_pts, target_pts, weights, n);
            eqs.h_mix_t == eqs.h_mix.transposed()
        }),
    decreases n,
{
    if n > 0 {
        mixed_blocks_are_transposed(source_pts, target_pts, weights, (n - 1) as nat);
    }
}

/// The motion that a solution of the normal equations stands for, given the cosine and the sine
/// of its angle.
pub fn solve_linear_system_6x6(solution: Option<Twist>, cosine: F64, sine: F64) -> (r: Result<
    Mat4,
    GicpError,
>)
    ensures
        r == (match solution {
            Some(x) => Ok::<Mat4, GicpError>(
                Mat4::assembled(
                    pose::twist_rotation(x, pose::twist_angle(x), cosine, sine),
                    x.t,
                ),
            ),
            None => Err(GicpError::LinearSolveFailed),
        }),
{
    match solution {
        Some(x) => Ok(convert_se3_to_matrix4(x, cosine, sine)),
        None => Err(GicpError::LinearSolveFailed),
    }
}

/// The error after an iteration.
#[derive(Clone, Copy, PartialEq, Eq, Structural, Debug)]
pub struct RmseStats {
    pub frame_index: usize,
    pub rmse: F32,
}

/// An alignment under way: the pose so far, the number of steps taken, and whether it is over.
#[derive(Clone, Copy, PartialEq, Eq, Structural, Debug)]
pub struct Registration {
    pub transform: Mat4,
    pub iteration: usize,
    pub done: bool,
}

impl Registration {
    /// The number of steps stays within its limit, and the alignment is over once it is reached.
    pub open spec fn wf(self) -> bool {
        self.iteration <= MAX_ITERATIONS && (self.iteration == MAX_ITERATIONS ==> self.done)
    }

    /// An alignment that starts from a predicted pose.
    pub fn new(predicted: Mat4) -> (r: Registration)
        ensures
            r == (Registration { transform: predicted, iteration: 0, done: false }),
            r.wf(),
    {
        Registration { transform: predicted, iteration: 0, done: false }
    }

    /// Takes note of the number of pairs found; too few end the alignment where it is.
    pub fn found_pairs(&mut self, n_valid: usize)
        requires
            old(self).wf(),
        ensures
            *final(self) == (Registration {
                done: old(self).done || !enough_pairs(n_valid),
                ..*old(self)
            }),
            final(self).wf(),
    {
        if !enough_pairs(n_valid) {
            self.done = true;
        }
    }

    /// Takes a step: moves the pose by `delta`, and ends the alignment where the error is small
    /// enough or the steps are used up. Returns the entry for the log.
    pub fn step(&mut self, delta: Mat4, rmse: F32) -> (stats: RmseStats)
        requires
            old(self).wf(),
            !old(self).done,
        ensures
            stats == (RmseStats { frame_index: old(self).iteration, rmse }),
            *final(self) == (Registration {
                transform: mat4_mul(delta, old(self).transform),
                iteration: (old(self).iteration + 1) as usize,
                done: rmse.lt(F32 { bits: RMSE_THRESHOLD }) || old(self).iteration + 1
                    == MAX_ITERATIONS,
            }),
            final(self).wf(),
    {
        let stats: RmseStats = RmseStats { frame_index: self.iteration, rmse };
        self.transform = mat4_mul(delta, self.transform);
        self.iteration = self.iteration + 1;
        self.done = rmse.lt(F32 { bits: RMSE_THRESHOLD }) || self.iteration == MAX_ITERATIONS;
        stats
    }
}

} // verus!
