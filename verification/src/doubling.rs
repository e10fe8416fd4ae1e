//! Doubling covariances and weights.

use vstd::prelude::*;

use crate::cloud::P3;
use crate::float::double::F64;
use crate::float::scaling;
use crate::float::scaling::{is_twice, keeps_digits};
use crate::geometry::{M3, V3};
use crate::registration::{covariance_sums, equations_of, vector_of, NormalEquations, Pair};

verus! {

/// Twice a vector.
pub open spec fn is_twice_vector(b: V3, a: V3) -> bool {
    is_twice(b.x, a.x) && is_twice(b.y, a.y) && is_twice(b.z, a.z)
}

/// Twice a matrix.
#[verifier::opaque]
pub open spec fn is_twice_matrix(b: M3, a: M3) -> bool {
    is_twice_vector(b.r0, a.r0) && is_twice_vector(b.r1, a.r1) && is_twice_vector(b.r2, a.r2)
}

/// The components are finite.
pub open spec fn is_finite_vector(v: V3) -> bool {
    v.x.finite() && v.y.finite() && v.z.finite()
}

/// The entries are finite.
pub open spec fn is_finite_matrix(m: M3) -> bool {
    is_finite_vector(m.r0) && is_finite_vector(m.r1) && is_finite_vector(m.r2)
}

/// Each matrix is twice its counterpart.
pub open spec fn are_twice(b: Seq<M3>, a: Seq<M3>) -> bool {
    b.len() == a.len() && forall|i: int|
        0 <= i < a.len() ==> is_twice_matrix(#[trigger] b[i], a[i])
}

/// The sum of doubled vectors.
proof fn lemma_vector_sum(a2: V3, a: V3, b2: V3, b: V3)
    requires
        is_twice_vector(a2, a),
        is_twice_vector(b2, b),
        is_finite_vector(a2.plus(b2)),
    ensures
        is_twice_vector(a2.plus(b2), a.plus(b)),
{
    scaling::doubled_terms_double_the_sum(a2.x, a.x, b2.x, b.x);
    scaling::doubled_terms_double_the_sum(a2.y, a.y, b2.y, b.y);
    scaling::doubled_terms_double_the_sum(a2.z, a.z, b2.z, b.z);
}

/// The sum of doubled matrices.
proof fn lemma_matrix_sum(a2: M3, a: M3, b2: M3, b: M3)
    requires
        is_twice_matrix(a2, a),
        is_twice_matrix(b2, b),
        is_finite_matrix(a2.plus(b2)),
    ensures
        is_twice_matrix(a2.plus(b2), a.plus(b)),
{
    reveal(is_twice_matrix);
    lemma_vector_sum(a2.r0, a.r0, b2.r0, b.r0);
    lemma_vector_sum(a2.r1, a.r1, b2.r1, b.r1);
    lemma_vector_sum(a2.r2, a.r2, b2.r2, b.r2);
}

/// Doubling every covariance doubles every sum of covariances exactly, where the sums stay finite.
pub proof fn doubled_covariances_double_the_sums(
    pairs: Seq<Pair>,
    source2: Seq<M3>,
    source: Seq<M3>,
    target2: Seq<M3>,
    target: Seq<M3>,
)
    requires
        are_twice(source2, source),
        are_twice(target2, target),
        forall|i: int|
            0 <= i < pairs.len() ==> (#[trigger] pairs[i]).source < source.len()
                && pairs[i].target < target.len(),
        forall|i: int|
            0 <= i < pairs.len() ==> is_finite_matrix(
                #[trigger] covariance_sums(pairs, source2, target2)[i],
            ),
    ensures
        are_twice(
            covariance_sums(pairs, source2, target2),
            covariance_sums(pairs, source, target),
        ),
{
    let (sums2, sums) = (
        covariance_sums(pairs, source2, target2),
        covariance_sums(pairs, source, target),
    );
    assert forall|i: int| 0 <= i < sums.len() implies is_twice_matrix(
        #[trigger] sums2[i],
        sums[i],
    ) by {
        let p = pairs[i];
        assert(sums2[i] == target2[p.target as int].plus(source2[p.source as int]));
        assert(sums[i] == target[p.target as int].plus(source[p.source as int]));
        lemma_sum_of_two(target2, target, p.target as int, source2, source, p.source as int);
    }
}

/// The sum of two matrices of doubled sequences.
proof fn lemma_sum_of_two(a2: Seq<M3>, a: Seq<M3>, i: int, b2: Seq<M3>, b: Seq<M3>, j: int)
    requires
        are_twice(a2, a),
        are_twice(b2, b),
        0 <= i < a.len(),
        0 <= j < b.len(),
        is_finite_matrix(a2[i].plus(b2[j])),
    ensures
        is_twice_matrix(a2[i].plus(b2[j]), a[i].plus(b[j])),
{
    lemma_matrix_sum(a2[i], a[i], b2[j], b[j]);
}

/// No product of an inner product loses digits.
pub open spec fn dot_keeps_digits(a: V3, b: V3) -> bool {
    keeps_digits(a.x, b.x) && keeps_digits(a.y, b.y) && keeps_digits(a.z, b.z)
}

/// No product of a matrix applied to a vector loses digits.
pub open spec fn apply_keeps_digits(m: M3, v: V3) -> bool {
    dot_keeps_digits(m.r0, v) && dot_keeps_digits(m.r1, v) && dot_keeps_digits(m.r2, v)
}

/// No product of a vector product loses digits.
pub open spec fn cross_keeps_digits(a: V3, b: V3) -> bool {
    &&& keeps_digits(b.z, a.y) && keeps_digits(b.y, a.z)
    &&& keeps_digits(b.x, a.z) && keeps_digits(b.z, a.x)
    &&& keeps_digits(b.y, a.x) && keeps_digits(b.x, a.y)
}

/// No product in the contribution of a pair loses digits.
pub open spec fn pair_keeps_digits(p_s: V3, p_t: V3, omega: M3) -> bool {
    let o = F64 { bits: 0 };
    let eqs = NormalEquations::of_pair(p_s, p_t, omega);
    &&& apply_keeps_digits(omega, p_t.minus(p_s))
    &&& apply_keeps_digits(omega, V3::new(o, p_s.z.negated(), p_s.y))
    &&& apply_keeps_digits(omega, V3::new(p_s.z, o, p_s.x.negated()))
    &&& apply_keeps_digits(omega, V3::new(p_s.y.negated(), p_s.x, o))
    &&& cross_keeps_digits(p_s, eqs.h_mix.r0)
    &&& cross_keeps_digits(p_s, eqs.h_mix.r1)
    &&& cross_keeps_digits(p_s, eqs.h_mix.r2)
    &&& cross_keeps_digits(p_s, eqs.b_trans)
}

/// The inner product with a doubled vector.
proof fn lemma_dot(a2: V3, a: V3, b: V3)
    requires
        is_twice_vector(a2, a),
        dot_keeps_digits(a, b),
        a2.dot(b).finite(),
    ensures
        is_twice(a2.dot(b), a.dot(b)),
{
    let (p, q, r) = (a2.x.times(b.x), a2.y.times(b.y), a2.z.times(b.z));
    scaling::finite_results_have_finite_parts(p.plus(q), r);
    scaling::finite_results_have_finite_parts(p, q);
    scaling::finite_results_have_finite_parts(a2.x, b.x);
    scaling::finite_results_have_finite_parts(a2.y, b.y);
    scaling::finite_results_have_finite_parts(a2.z, b.z);
    scaling::a_doubled_factor_doubles_the_product(a2.x, a.x, b.x);
    scaling::a_doubled_factor_doubles_the_product(a2.y, a.y, b.y);
    scaling::a_doubled_factor_doubles_the_product(a2.z, a.z, b.z);
    let (p1, q1, r1) = (a.x.times(b.x), a.y.times(b.y), a.z.times(b.z));
    scaling::doubled_terms_double_the_sum(p, p1, q, q1);
    scaling::doubled_terms_double_the_sum(p.plus(q), p1.plus(q1), r, r1);
}

/// A doubled matrix applied to a vector.
proof fn lemma_apply(m2: M3, m: M3, v: V3)
    requires
        is_twice_matrix(m2, m),
        apply_keeps_digits(m, v),
        is_finite_vector(m2.apply(v)),
    ensures
        is_twice_vector(m2.apply(v), m.apply(v)),
{
    reveal(is_twice_matrix);
    lemma_dot(m2.r0, m.r0, v);
    lemma_dot(m2.r1, m.r1, v);
    lemma_dot(m2.r2, m.r2, v);
}

/// The difference of two products, each with a doubled second factor.
proof fn lemma_component(a: F64, b2: F64, b: F64, c: F64, d2: F64, d: F64)
    requires
        is_twice(b2, b),
        is_twice(d2, d),
        keeps_digits(b, a),
        keeps_digits(d, c),
        a.times(b2).minus(c.times(d2)).finite(),
    ensures
        is_twice(a.times(b2).minus(c.times(d2)), a.times(b).minus(c.times(d))),
{
    scaling::finite_results_have_finite_parts(a.times(b2), c.times(d2));
    scaling::finite_results_have_finite_parts(a, b2);
    scaling::finite_results_have_finite_parts(c, d2);
    scaling::products_commute(a, b2);
    scaling::products_commute(a, b);
    scaling::products_commute(c, d2);
    scaling::products_commute(c, d);
    scaling::a_doubled_factor_doubles_the_product(b2, b, a);
    scaling::a_doubled_factor_doubles_the_product(d2, d, c);
    scaling::doubled_terms_double_the_difference(
        a.times(b2),
        a.times(b),
        c.times(d2),
        c.times(d),
    );
}

/// The vector product with a doubled vector.
proof fn lemma_cross(a: V3, b2: V3, b: V3)
    requires
        is_twice_vector(b2, b),
        cross_keeps_digits(a, b),
        is_finite_vector(a.cross(b2)),
    ensures
        is_twice_vector(a.cross(b2), a.cross(b)),
{
    lemma_component(a.y, b2.z, b.z, a.z, b2.y, b.y);
    lemma_component(a.z, b2.x, b.x, a.x, b2.z, b.z);
    lemma_component(a.x, b2.y, b.y, a.y, b2.x, b.x);
}

/// Twice the equations.
pub open spec fn are_twice_equations(b: NormalEquations, a: NormalEquations) -> bool {
    &&& is_twice_matrix(b.h_rot, a.h_rot)
    &&& is_twice_matrix(b.h_mix, a.h_mix)
    &&& is_twice_matrix(b.h_mix_t, a.h_mix_t)
    &&& is_twice_matrix(b.h_trans, a.h_trans)
    &&& is_twice_vector(b.b_rot, a.b_rot)
    &&& is_twice_vector(b.b_trans, a.b_trans)
}

/// The entries of the equations are finite.
pub open spec fn are_finite_equations(e: NormalEquations) -> bool {
    &&& is_finite_matrix(e.h_rot)
    &&& is_finite_matrix(e.h_mix)
    &&& is_finite_matrix(e.h_mix_t)
    &&& is_finite_matrix(e.h_trans)
    &&& is_finite_vector(e.b_rot)
    &&& is_finite_vector(e.b_trans)
}

/// The contribution of a pair with a doubled weight.
proof fn lemma_pair(p_s: V3, p_t: V3, omega2: M3, omega: M3)
    requires
        is_twice_matrix(omega2, omega),
        pair_keeps_digits(p_s, p_t, omega),
        are_finite_equations(NormalEquations::of_pair(p_s, p_t, omega2)),
    ensures
        are_twice_equations(
            NormalEquations::of_pair(p_s, p_t, omega2),
            NormalEquations::of_pair(p_s, p_t, omega),
        ),
{
    reveal(is_twice_matrix);
    let o = F64 { bits: 0 };
    let (e2, e) = (
        NormalEquations::of_pair(p_s, p_t, omega2),
        NormalEquations::of_pair(p_s, p_t, omega),
    );
    lemma_apply(omega2, omega, p_t.minus(p_s));
    lemma_apply(omega2, omega, V3::new(o, p_s.z.negated(), p_s.y));
    lemma_apply(omega2, omega, V3::new(p_s.z, o, p_s.x.negated()));
    lemma_apply(omega2, omega, V3::new(p_s.y.negated(), p_s.x, o));
    lemma_cross(p_s, e2.h_mix.r0, e.h_mix.r0);
    lemma_cross(p_s, e2.h_mix.r1, e.h_mix.r1);
    lemma_cross(p_s, e2.h_mix.r2, e.h_mix.r2);
    lemma_cross(p_s, e2.b_trans, e.b_trans);
}

/// The terms of a finite sum of vectors.
proof fn lemma_finite_vectors(a: V3, b: V3)
    requires
        is_finite_vector(a.plus(b)),
    ensures
        is_finite_vector(a),
        is_finite_vector(b),
{
    scaling::finite_results_have_finite_parts(a.x, b.x);
    scaling::finite_results_have_finite_parts(a.y, b.y);
    scaling::finite_results_have_finite_parts(a.z, b.z);
}

/// The terms of a finite sum of matrices.
proof fn lemma_finite_matrices(a: M3, b: M3)
    requires
        is_finite_matrix(a.plus(b)),
    ensures
        is_finite_matrix(a),
        is_finite_matrix(b),
{
    lemma_finite_vectors(a.r0, b.r0);
    lemma_finite_vectors(a.r1, b.r1);
    lemma_finite_vectors(a.r2, b.r2);
}

/// The terms of a finite sum of equations.
proof fn lemma_finite_equations(a: NormalEquations, b: NormalEquations)
    requires
        are_finite_equations(a.plus(b)),
    ensures
        are_finite_equations(a),
        are_finite_equations(b),
{
    lemma_finite_matrices(a.h_rot, b.h_rot);
    lemma_finite_matrices(a.h_mix, b.h_mix);
    lemma_finite_matrices(a.h_mix_t, b.h_mix_t);
    lemma_finite_matrices(a.h_trans, b.h_trans);
    lemma_finite_vectors(a.b_rot, b.b_rot);
    lemma_finite_vectors(a.b_trans, b.b_trans);
}

/// The sum of doubled equations.
proof fn lemma_equation_sum(
    a2: NormalEquations,
    a: NormalEquations,
    b2: NormalEquations,
    b: NormalEquations,
)
    requires
        are_twice_equations(a2, a),
        are_twice_equations(b2, b),
        are_finite_equations(a2.plus(b2)),
    ensures
        are_twice_equations(a2.plus(b2), a.plus(b)),
{
    reveal(is_twice_matrix);
    lemma_matrix_sum(a2.h_rot, a.h_rot, b2.h_rot, b.h_rot);
    lemma_matrix_sum(a2.h_mix, a.h_mix, b2.h_mix, b.h_mix);
    lemma_matrix_sum(a2.h_mix_t, a.h_mix_t, b2.h_mix_t, b.h_mix_t);
    lemma_matrix_sum(a2.h_trans, a.h_trans, b2.h_trans, b.h_trans);
    lemma_vector_sum(a2.b_rot, a.b_rot, b2.b_rot, b.b_rot);
    lemma_vector_sum(a2.b_trans, a.b_trans, b2.b_trans, b.b_trans);
}

/// A weight and its double, or no weight in either place.
pub open spec fn is_twice_weight(b: Option<M3>, a: Option<M3>) -> bool {
    match (b, a) {
        (Some(x2), Some(x)) => is_twice_matrix(x2, x),
        (None, None) => true,
        _ => false,
    }
}

/// Doubling every weight doubles every entry of the equations exactly, both the matrix and the
/// right-hand side, so that their solution is the same. The equations stay finite, and no product
/// is so small that it loses digits.
pub proof fn doubled_weights_double_the_equations(
    source_pts: Seq<P3>,
    target_pts: Seq<P3>,
    weights2: Seq<Option<M3>>,
    weights: Seq<Option<M3>>,
    n: nat,
)
    requires
        forall|i: int| 0 <= i < n ==> is_twice_weight(#[trigger] weights2[i], weights[i]),
        forall|i: int|
            0 <= i < n && (#[trigger] weights[i]) is Some ==> pair_keeps_digits(
                vector_of(source_pts[i]),
                vector_of(target_pts[i]),
                weights[i].unwrap(),
            ),
        are_finite_equations(equations_of(source_pts, target_pts, weights2, n)),
    ensures
        are_twice_equations(
            equations_of(source_pts, target_pts, weights2, n),
            equations_of(source_pts, target_pts, weights, n),
        ),
    decreases n,
{
    if n == 0 {
        lemma_nothing();
    } else {
        let m = (n - 1) as nat;
        let (before2, before) = (
            equations_of(source_pts, target_pts, weights2, m),
            equations_of(source_pts, target_pts, weights, m),
        );
        assert(is_twice_weight(weights2[n - 1], weights[n - 1]));
        if weights[n - 1] is Some {
            let (p_s, p_t) = (vector_of(source_pts[n - 1]), vector_of(target_pts[n - 1]));
            let (w2, w) = (weights2[n - 1].unwrap(), weights[n - 1].unwrap());
            let (e2, e) = (
                NormalEquations::of_pair(p_s, p_t, w2),
                NormalEquations::of_pair(p_s, p_t, w),
            );
            assert(equations_of(source_pts, target_pts, weights2, n) == before2.plus(e2));
            assert(equations_of(source_pts, target_pts, weights, n) == before.plus(e));
            lemma_finite_equations(before2, e2);
            doubled_weights_double_the_equations(source_pts, target_pts, weights2, weights, m);
            lemma_pair(p_s, p_t, w2, w);
            lemma_equation_sum(before2, before, e2, e);
        } else {
            doubled_weights_double_the_equations(source_pts, target_pts, weights2, weights, m);
        }
    }
}

/// Twice nothing is nothing.
proof fn lemma_nothing()
    ensures
        are_twice_equations(NormalEquations::zeros(), NormalEquations::zeros()),
{
    reveal(is_twice_matrix);
    scaling::lemma_zero_is_twice_itself();
}

} // verus!
