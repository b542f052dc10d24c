//! What calls of the library promise, end to end: how the results of a call, or of
//! two calls, follow from its arguments.

use std::ops::Range;

use vstd::arithmetic::div_mod::lemma_fundamental_div_mod_converse;
use vstd::arithmetic::power2::pow2;
use vstd::prelude::*;

use crate::basis::convert::{
    inverse_interpolate_bytes, monomial_to_novel, monomial_to_novel_bytes, novel_to_monomial,
    novel_to_monomial_bytes, to_monomial,
};
use crate::basis::convert_laws::{
    formal_derivative, law_conversion_by_lanes, law_conversion_keeps_values,
    law_interpolation_passes_through, law_interpolation_passes_through_lanes,
};
use crate::basis::OrderedBasis;
use crate::error::{NttError, PlanError, TransformError};
use crate::field::{fadd, fmul, fone, fzero, BinaryField};
use crate::grid::entry;
use crate::kernel::{
    fused_forward, fused_inverse, law_butterflies_undo_each_other, law_butterfly_entries,
    law_sum_entries, xor_scaled_bytes, ButterflyKernels,
};
use crate::ntt::field::NttField;
use crate::ntt::fourstep::{FourStepPlan, FourStepScratch};
use crate::ntt::laws::law_rows_of_an_impulse;
use crate::ntt::plan::{lanes_in, lemma_geometry, lemma_index, NttPlan, NttScratch};
use crate::ntt::ring::rpow;
use crate::ntt::rows::{canonical, lemma_canonical_injective, lemma_code_bytes, values};
use crate::ntt::transpose::{
    law_transpose_moves_slots, law_transpose_undoes_transpose, transpose_slots,
};
use crate::pack::{elem_bytes, law_elements_determine_bytes, lemma_elem_bytes, unpack, whole};
use crate::poly::poly_value;
use crate::rs::generator::{
    generator_row, law_returned_coefficients, law_vanishing_polynomial_is_the_locator,
    lemma_difference, lemma_locator_zero, outside, points,
};
use crate::rs::solve::{invert_square_into, law_invertible_is_nonsingular, multiply_to_one};
use crate::shifted::ShiftedPlan;
use crate::span::{lemma_span_injective, lemma_span_monotone, span};
use crate::subspace::{combine, independent, law_normalized_polynomials};
use crate::transform::accept::{
    law_row_conversion_lengths, law_row_geometry, law_spans_are_powers_of_two,
    law_truncated_workspace,
};
use crate::transform::factors::{subspace_polynomials, NormalizedSubspacePolynomial};
use crate::transform::lanes::{
    lane_of, law_derivative_by_lanes, law_forward_by_lanes, law_inverse_by_lanes,
};
use crate::transform::laws::{agree_to, row_final, zero_from};
use crate::transform::model::forward_model;
use crate::transform::novel::novel_value;
use crate::transform::plan::TransformPlan;
use crate::transform::walk::{lanes_of, lemma_rows, rows_fit, scratch_rows};

verus! {

/// Whether a buffer holds one row of `lanes` elements, in `row_len` bytes, for each of
/// `rows` points.
pub open spec fn holds_rows<F: BinaryField>(
    bytes: Seq<u8>,
    row_len: usize,
    lanes: nat,
    rows: nat,
) -> bool {
    &&& lanes > 0
    &&& lanes * F::width() == 8 * row_len
    &&& bytes.len() == rows * row_len
}

/// What the geometry of packed rows gives.
proof fn lemma_held<F: BinaryField>(bytes: Seq<u8>, row_len: usize, lanes: nat, dim: nat)
    requires
        holds_rows::<F>(bytes, row_len, lanes, pow2(dim)),
    ensures
        span(dim) == pow2(dim),
        row_len > 0,
        (8 * row_len) % F::width() as int == 0,
        rows_fit::<F>(bytes.len(), row_len as nat, dim),
        lanes_of::<F>(row_len as nat) == lanes,
        unpack::<F>(bytes).len() == span(dim) * lanes,
        whole::<F>(bytes.len() as int),
{
    F::lemma_width();
    law_spans_are_powers_of_two(dim);
    let (w, n) = (F::width() as int, elem_bytes::<F>() as int);
    lemma_elem_bytes::<F>();
    assert(lanes * w > 0) by (nonlinear_arith)
        requires
            lanes > 0,
            w > 0,
    ;
    assert(w == 8 * n);
    assert(row_len == lanes * n) by (nonlinear_arith)
        requires
            lanes * w == 8 * row_len,
            w == 8 * n,
    ;
    lemma_fundamental_div_mod_converse(row_len as int, n, lanes as int, 0);
    lemma_fundamental_div_mod_converse(8 * row_len as int, w, lanes as int, 0);
    lemma_rows::<F>(bytes, row_len as nat, dim);
}

/// Evaluation: after a forward call, entry `i` is the value at point `i` of the
/// polynomial that the coefficients stand for.
pub proof fn law_forward_call<F: ButterflyKernels>(
    plan: &TransformPlan<F>,
    values: &mut [F::Elem],
    r: Result<(), TransformError>,
    i: int,
)
    requires
        plan.wf(),
        call_ensures(TransformPlan::<F>::forward, (plan, values), r),
        old(values)@.len() == pow2(plan.dim()),
        0 <= i < old(values)@.len(),
    ensures
        r is Ok,
        final(values)@.len() == old(values)@.len(),
        final(values)@[i] == poly_value::<F>(
            to_monomial::<F>(old(values)@, plan.domain_basis(), plan.dim(), 1),
            plan.point(i),
        ),
{
    law_spans_are_powers_of_two(plan.dim());
    plan.law_forward_gives_polynomial_values(old(values)@, i);
}

/// Interpolation: after an inverse call, the polynomial that the coefficients stand
/// for takes the value that entry `i` had at point `i`.
pub proof fn law_inverse_call<F: ButterflyKernels>(
    plan: &TransformPlan<F>,
    values: &mut [F::Elem],
    r: Result<(), TransformError>,
    i: int,
)
    requires
        plan.wf(),
        call_ensures(TransformPlan::<F>::inverse, (plan, values), r),
        old(values)@.len() == pow2(plan.dim()),
        0 <= i < old(values)@.len(),
    ensures
        r is Ok,
        final(values)@.len() == old(values)@.len(),
        poly_value::<F>(
            to_monomial::<F>(final(values)@, plan.domain_basis(), plan.dim(), 1),
            plan.point(i),
        ) == old(values)@[i],
{
    plan.lemma_wf();
    law_spans_are_powers_of_two(plan.dim());
    law_interpolation_passes_through::<F>(
        old(values)@,
        plan.heap(),
        plan.domain_basis(),
        plan.domain_shift(),
        plan.dim(),
        i,
    );
}

/// The value at a point of the polynomial of one lane of packed rows.
pub open spec fn lane_value<F: ButterflyKernels>(
    plan: &TransformPlan<F>,
    bytes: Seq<u8>,
    lanes: nat,
    lane: int,
    dim: nat,
    i: int,
) -> F::Elem {
    poly_value::<F>(
        to_monomial::<F>(
            lane_of(unpack::<F>(bytes), pow2(dim), lanes, lane),
            plan.domain_basis(),
            dim,
            1,
        ),
        plan.point(i),
    )
}

/// The forward transform of packed rows gives the values of every lane.
proof fn lemma_lane_values<F: ButterflyKernels>(
    plan: &TransformPlan<F>,
    bytes: Seq<u8>,
    row_len: usize,
    lanes: nat,
    lane: int,
    i: int,
)
    requires
        plan.wf(),
        holds_rows::<F>(bytes, row_len, lanes, pow2(plan.dim())),
        0 <= lane < lanes,
        0 <= i < pow2(plan.dim()),
    ensures
        forward_model::<F>(unpack::<F>(bytes), plan.heap(), 1, plan.dim())[i * lanes + lane]
            == lane_value::<F>(plan, bytes, lanes, lane, plan.dim(), i),
{
    let v = unpack::<F>(bytes);
    let dim = plan.dim();
    lemma_held::<F>(bytes, row_len, lanes, dim);
    let c = lane_of(v, span(dim), lanes, lane);
    plan.law_forward_gives_polynomial_values(c, i);
    law_forward_by_lanes::<F>(v, plan.heap(), 1, dim, lanes, lane);
    let out = forward_model::<F>(v, plan.heap(), 1, dim);
    assert(lane_of(out, span(dim), lanes, lane)[i] == out[i * lanes + lane]);
}

/// Evaluation of packed rows: a forward call takes every buffer of one row of whole
/// elements for each point, and entry `lane` of row `i` is then the value at point `i`
/// of the polynomial of the lane.
pub proof fn law_forward_bytes_call<F: ButterflyKernels>(
    plan: &TransformPlan<F>,
    rows: &mut [u8],
    row_len: usize,
    r: Result<(), TransformError>,
    lanes: nat,
    lane: int,
    i: int,
)
    requires
        plan.wf(),
        call_ensures(TransformPlan::<F>::forward_bytes, (plan, rows, row_len), r),
        holds_rows::<F>(old(rows)@, row_len, lanes, pow2(plan.dim())),
        0 <= lane < lanes,
        0 <= i < pow2(plan.dim()),
    ensures
        r is Ok,
        final(rows)@.len() == old(rows)@.len(),
        unpack::<F>(final(rows)@)[i * lanes + lane] == lane_value::<F>(
            plan,
            old(rows)@,
            lanes,
            lane,
            plan.dim(),
            i,
        ),
{
    plan.lemma_wf();
    lemma_held::<F>(old(rows)@, row_len, lanes, plan.dim());
    lemma_lane_values::<F>(plan, old(rows)@, row_len, lanes, lane, i);
    law_row_geometry::<F>(old(rows)@.len() as usize, row_len, span(plan.dim()) as usize);
}

/// Interpolation of packed rows: an inverse call takes every buffer of one row of
/// whole elements for each point, and the polynomial of a lane then takes the value
/// that row `i` had at point `i`.
pub proof fn law_inverse_bytes_call<F: ButterflyKernels>(
    plan: &TransformPlan<F>,
    rows: &mut [u8],
    row_len: usize,
    r: Result<(), TransformError>,
    lanes: nat,
    lane: int,
    i: int,
)
    requires
        plan.wf(),
        call_ensures(TransformPlan::<F>::inverse_bytes, (plan, rows, row_len), r),
        holds_rows::<F>(old(rows)@, row_len, lanes, pow2(plan.dim())),
        0 <= lane < lanes,
        0 <= i < pow2(plan.dim()),
    ensures
        r is Ok,
        final(rows)@.len() == old(rows)@.len(),
        lane_value::<F>(plan, final(rows)@, lanes, lane, plan.dim(), i) == unpack::<F>(old(rows)@)[i
            * lanes + lane],
{
    let dim = plan.dim();
    let v = unpack::<F>(old(rows)@);
    plan.lemma_wf();
    lemma_held::<F>(old(rows)@, row_len, lanes, dim);
    law_row_geometry::<F>(old(rows)@.len() as usize, row_len, span(dim) as usize);
    law_inverse_by_lanes::<F>(v, plan.heap(), 1, dim, lanes, lane);
    let c = lane_of(v, span(dim), lanes, lane);
    law_interpolation_passes_through::<F>(
        c,
        plan.heap(),
        plan.domain_basis(),
        plan.domain_shift(),
        dim,
        i,
    );
}

/// Interpolation to monomial coefficients: the polynomial whose coefficients a lane
/// then holds takes the value that row `i` had at point `i`.
pub proof fn law_interpolation_call<F: ButterflyKernels>(
    plan: &TransformPlan<F>,
    rows: &mut [u8],
    row_len: usize,
    scratch: &mut [u8],
    r: Result<(), TransformError>,
    lanes: nat,
    lane: int,
    i: int,
)
    requires
        plan.wf(),
        call_ensures(inverse_interpolate_bytes::<F>, (rows, row_len, plan, scratch), r),
        holds_rows::<F>(old(rows)@, row_len, lanes, pow2(plan.dim())),
        old(scratch)@.len() >= (pow2(plan.dim()) / 2) * row_len,
        0 <= lane < lanes,
        0 <= i < pow2(plan.dim()),
    ensures
        r is Ok,
        final(rows)@.len() == old(rows)@.len(),
        poly_value::<F>(
            lane_of(unpack::<F>(final(rows)@), pow2(plan.dim()), lanes, lane),
            plan.point(i),
        ) == unpack::<F>(old(rows)@)[i * lanes + lane],
{
    let dim = plan.dim();
    plan.lemma_wf();
    lemma_held::<F>(old(rows)@, row_len, lanes, dim);
    law_row_conversion_lengths::<F>(
        old(rows).len(),
        row_len,
        old(scratch).len(),
        span(dim) as usize,
    );
    law_interpolation_passes_through_lanes::<F>(
        unpack::<F>(old(rows)@),
        plan.heap(),
        plan.domain_basis(),
        plan.domain_shift(),
        dim,
        lanes,
        lane,
        i,
    );
}

/// A range of outputs: the rows of the range are those of the whole evaluation.
pub proof fn law_range_call<F: ButterflyKernels>(
    plan: &TransformPlan<F>,
    rows: &mut [u8],
    row_len: usize,
    range: Range<usize>,
    r: Result<(), TransformError>,
    lanes: nat,
    lane: int,
    i: int,
)
    requires
        plan.wf(),
        call_ensures(TransformPlan::<F>::forward_bytes_range, (plan, rows, row_len, range), r),
        holds_rows::<F>(old(rows)@, row_len, lanes, pow2(plan.dim())),
        0 <= lane < lanes,
        range.start <= i < range.end,
        range.end <= pow2(plan.dim()),
    ensures
        r is Ok,
        unpack::<F>(final(rows)@)[i * lanes + lane] == lane_value::<F>(
            plan,
            old(rows)@,
            lanes,
            lane,
            plan.dim(),
            i,
        ),
{
    plan.lemma_wf();
    lemma_held::<F>(old(rows)@, row_len, lanes, plan.dim());
    lemma_lane_values::<F>(plan, old(rows)@, row_len, lanes, lane, i);
    let out = unpack::<F>(final(rows)@);
    assert(row_final::<F>(
        unpack::<F>(old(rows)@),
        out,
        plan.heap(),
        1,
        plan.dim(),
        lanes,
        i,
    ));
    assert(entry(out, lanes, i, lane) == out[i * lanes + lane]);
}

/// Selected outputs: the selected rows are those of the whole evaluation.
pub proof fn law_selected_call<F: ButterflyKernels>(
    plan: &TransformPlan<F>,
    rows: &mut [u8],
    row_len: usize,
    selected: &[usize],
    r: Result<(), TransformError>,
    lanes: nat,
    lane: int,
    j: int,
)
    requires
        plan.wf(),
        call_ensures(
            TransformPlan::<F>::forward_bytes_selected,
            (plan, rows, row_len, selected),
            r,
        ),
        holds_rows::<F>(old(rows)@, row_len, lanes, pow2(plan.dim())),
        forall|i: int| 0 <= i < selected@.len() ==> #[trigger] selected@[i] < pow2(plan.dim()),
        forall|i: int, j: int| 0 <= i < j < selected@.len() ==> selected@[i] < selected@[j],
        0 <= lane < lanes,
        0 <= j < selected@.len(),
    ensures
        r is Ok,
        unpack::<F>(final(rows)@)[selected@[j] * lanes + lane] == lane_value::<F>(
            plan,
            old(rows)@,
            lanes,
            lane,
            plan.dim(),
            selected@[j] as int,
        ),
{
    plan.lemma_wf();
    lemma_held::<F>(old(rows)@, row_len, lanes, plan.dim());
    assert(old(rows).len() == old(rows)@.len());
    law_row_geometry::<F>(old(rows).len(), row_len, span(plan.dim()) as usize);
    let i = selected@[j] as int;
    lemma_lane_values::<F>(plan, old(rows)@, row_len, lanes, lane, i);
    let out = unpack::<F>(final(rows)@);
    assert(row_final::<F>(
        unpack::<F>(old(rows)@),
        out,
        plan.heap(),
        1,
        plan.dim(),
        lanes,
        selected@[j] as int,
    ));
    assert(entry(out, lanes, i, lane) == out[i * lanes + lane]);
}

/// A zero tail: where the rows from `active` on are zero, the truncated form gives the
/// rows of the range of the whole evaluation.
pub proof fn law_truncated_call<F: ButterflyKernels>(
    plan: &TransformPlan<F>,
    rows: &mut [u8],
    row_len: usize,
    active: usize,
    range: Range<usize>,
    r: Result<(), TransformError>,
    lanes: nat,
    lane: int,
    i: int,
)
    requires
        plan.wf(),
        call_ensures(
            TransformPlan::<F>::forward_bytes_truncated_range,
            (plan, rows, row_len, active, range),
            r,
        ),
        holds_rows::<F>(old(rows)@, row_len, lanes, pow2(plan.dim())),
        active <= pow2(plan.dim()),
        forall|t: int|
            active * lanes <= t < unpack::<F>(old(rows)@).len() ==> #[trigger] unpack::<F>(
                old(rows)@,
            )[t] == fzero::<F>(),
        0 <= lane < lanes,
        range.start <= i < range.end,
        range.end <= pow2(plan.dim()),
    ensures
        r is Ok,
        unpack::<F>(final(rows)@)[i * lanes + lane] == lane_value::<F>(
            plan,
            old(rows)@,
            lanes,
            lane,
            plan.dim(),
            i,
        ),
{
    plan.lemma_wf();
    lemma_held::<F>(old(rows)@, row_len, lanes, plan.dim());
    lemma_lane_values::<F>(plan, old(rows)@, row_len, lanes, lane, i);
    let out = unpack::<F>(final(rows)@);
    assert(zero_from::<F>(unpack::<F>(old(rows)@), active * lanes));
    assert(row_final::<F>(
        unpack::<F>(old(rows)@),
        out,
        plan.heap(),
        1,
        plan.dim(),
        lanes,
        i,
    ));
    assert(entry(out, lanes, i, lane) == out[i * lanes + lane]);
}

/// The high coset: half a domain of coefficients is evaluated at the points of the
/// high half.
pub proof fn law_high_coset_call<F: ButterflyKernels>(
    plan: &TransformPlan<F>,
    rows: &mut [u8],
    row_len: usize,
    range: Range<usize>,
    r: Result<(), TransformError>,
    half: nat,
    lanes: nat,
    lane: int,
    i: int,
)
    requires
        plan.wf(),
        plan.dim() >= 2,
        half + 1 == plan.dim(),
        call_ensures(
            TransformPlan::<F>::forward_bytes_high_coset_range,
            (plan, rows, row_len, range),
            r,
        ),
        holds_rows::<F>(old(rows)@, row_len, lanes, pow2(half)),
        0 <= lane < lanes,
        range.start <= i < range.end,
        range.end <= pow2(half),
    ensures
        r is Ok,
        unpack::<F>(final(rows)@)[i * lanes + lane] == lane_value::<F>(
            plan,
            old(rows)@,
            lanes,
            lane,
            half,
            i + pow2(half),
        ),
{
    plan.lemma_wf();
    let v = unpack::<F>(old(rows)@);
    lemma_held::<F>(old(rows)@, row_len, lanes, half);
    let out = unpack::<F>(final(rows)@);
    assert(row_final::<F>(v, out, plan.heap(), 3, half, lanes, i));
    assert(entry(out, lanes, i, lane) == out[i * lanes + lane]);
    law_forward_by_lanes::<F>(v, plan.heap(), 3, half, lanes, lane);
    let c = lane_of(v, span(half), lanes, lane);
    plan.law_high_coset_evaluates(c, i);
    law_conversion_keeps_values::<F>(c, plan.domain_basis(), half, plan.point(i + span(half)));
    let full = forward_model::<F>(v, plan.heap(), 3, half);
    assert(lane_of(full, span(half), lanes, lane)[i] == full[i * lanes + lane]);
}

/// Recovery of a prefix: evaluations of rows whose tail is zero, of which only the
/// first `active` rows are kept, give the first `active` rows back.
pub proof fn law_truncated_recovery_calls<F: ButterflyKernels>(
    plan: &TransformPlan<F>,
    first: &mut [u8],
    row_len: usize,
    forward: Result<(), TransformError>,
    second: &mut [u8],
    active: usize,
    scratch: &mut [u8],
    inverse: Result<(), TransformError>,
    lanes: nat,
    t: int,
)
    requires
        plan.wf(),
        call_ensures(TransformPlan::<F>::forward_bytes, (plan, first, row_len), forward),
        call_ensures(
            TransformPlan::<F>::inverse_bytes_truncated_scratch,
            (plan, second, row_len, active, scratch),
            inverse,
        ),
        holds_rows::<F>(old(first)@, row_len, lanes, pow2(plan.dim())),
        old(second)@.len() == old(first)@.len(),
        1 <= active <= pow2(plan.dim()),
        old(scratch)@.len() >= scratch_rows(plan.dim(), active as nat) * row_len,
        forall|t: int|
            active * lanes <= t < unpack::<F>(old(first)@).len() ==> #[trigger] unpack::<F>(
                old(first)@,
            )[t] == fzero::<F>(),
        forall|t: int|
            0 <= t < active * lanes ==> #[trigger] unpack::<F>(old(second)@)[t] == unpack::<F>(
                final(first)@,
            )[t],
        0 <= t < active * lanes,
    ensures
        forward is Ok,
        inverse is Ok,
        unpack::<F>(final(second)@)[t] == unpack::<F>(old(first)@)[t],
{
    plan.lemma_wf();
    let dim = plan.dim();
    lemma_held::<F>(old(first)@, row_len, lanes, dim);
    lemma_held::<F>(old(second)@, row_len, lanes, dim);
    let c = unpack::<F>(old(first)@);
    let all = (active as nat * lanes) as int;
    assert(all == active * lanes);
    assert(zero_from::<F>(c, all));
    let full = forward_model::<F>(c, plan.heap(), 1, dim);
    law_row_geometry::<F>(old(first)@.len() as usize, row_len, span(dim) as usize);
    assert(unpack::<F>(final(first)@) == full);
    assert(agree_to(unpack::<F>(old(second)@), full, all));
    assert(agree_to(unpack::<F>(final(second)@), c, all));
}

/// The derivative of coefficients: converted, it is the formal derivative of the
/// converted coefficients.
pub proof fn law_derivative_call<F: ButterflyKernels>(
    plan: &TransformPlan<F>,
    derivative: &mut [F::Elem],
    coefficients: &[F::Elem],
    r: Result<(), TransformError>,
)
    requires
        plan.wf(),
        call_ensures(TransformPlan::<F>::derivative_into, (plan, derivative, coefficients), r),
        old(derivative)@.len() == pow2(plan.dim()),
        coefficients@.len() == pow2(plan.dim()),
    ensures
        r is Ok,
        to_monomial::<F>(final(derivative)@, plan.domain_basis(), plan.dim(), 1)
            == formal_derivative::<F>(
            to_monomial::<F>(coefficients@, plan.domain_basis(), plan.dim(), 1),
        ),
{
    law_spans_are_powers_of_two(plan.dim());
    plan.law_derivatives_are_formal(coefficients@);
}

/// The derivative of packed rows: converted, every lane is the formal derivative of
/// the converted lane.
pub proof fn law_derivative_bytes_call<F: ButterflyKernels>(
    plan: &TransformPlan<F>,
    derivative: &mut [u8],
    row_len: usize,
    coefficients: &[u8],
    r: Result<(), TransformError>,
    lanes: nat,
    lane: int,
)
    requires
        plan.wf(),
        call_ensures(
            TransformPlan::<F>::derivative_into_bytes,
            (plan, derivative, row_len, coefficients),
            r,
        ),
        holds_rows::<F>(coefficients@, row_len, lanes, pow2(plan.dim())),
        old(derivative)@.len() == coefficients@.len(),
        0 <= lane < lanes,
    ensures
        r is Ok,
        to_monomial::<F>(
            lane_of(unpack::<F>(final(derivative)@), pow2(plan.dim()), lanes, lane),
            plan.domain_basis(),
            plan.dim(),
            1,
        ) == formal_derivative::<F>(
            to_monomial::<F>(
                lane_of(unpack::<F>(coefficients@), pow2(plan.dim()), lanes, lane),
                plan.domain_basis(),
                plan.dim(),
                1,
            ),
        ),
{
    plan.lemma_wf();
    let dim = plan.dim();
    lemma_held::<F>(coefficients@, row_len, lanes, dim);
    plan.law_byte_rows_are_taken(
        coefficients@.len() as usize,
        row_len,
        old(derivative)@.len() as usize,
    );
    let v = unpack::<F>(coefficients@);
    law_derivative_by_lanes::<F>(v, plan.slopes(), dim, lanes, lane);
    plan.law_derivatives_are_formal(lane_of(v, span(dim), lanes, lane));
}

/// Conversion from the novel basis: the polynomial keeps its values.
pub proof fn law_novel_to_monomial_call<F: ButterflyKernels>(
    coefficients: &mut [F::Elem],
    plan: &TransformPlan<F>,
    r: Result<(), TransformError>,
    x: F::Elem,
)
    requires
        plan.wf(),
        call_ensures(novel_to_monomial::<F>, (coefficients, plan), r),
        old(coefficients)@.len() == pow2(plan.dim()),
    ensures
        r is Ok,
        final(coefficients)@.len() == old(coefficients)@.len(),
        poly_value::<F>(final(coefficients)@, x) == novel_value::<F>(
            plan.domain_basis(),
            old(coefficients)@,
            plan.dim(),
            x,
        ),
{
    law_spans_are_powers_of_two(plan.dim());
    law_conversion_keeps_values::<F>(old(coefficients)@, plan.domain_basis(), plan.dim(), x);
}

/// Conversion to the novel basis: the polynomial keeps its values.
pub proof fn law_monomial_to_novel_call<F: ButterflyKernels>(
    coefficients: &mut [F::Elem],
    plan: &TransformPlan<F>,
    r: Result<(), TransformError>,
    x: F::Elem,
)
    requires
        plan.wf(),
        call_ensures(monomial_to_novel::<F>, (coefficients, plan), r),
        old(coefficients)@.len() == pow2(plan.dim()),
    ensures
        r is Ok,
        final(coefficients)@.len() == old(coefficients)@.len(),
        novel_value::<F>(plan.domain_basis(), final(coefficients)@, plan.dim(), x)
            == poly_value::<F>(old(coefficients)@, x),
{
    law_spans_are_powers_of_two(plan.dim());
    law_conversion_keeps_values::<F>(final(coefficients)@, plan.domain_basis(), plan.dim(), x);
}

/// Conversions of packed rows: the polynomial of every lane keeps its values, either
/// way.
pub proof fn law_row_conversion_calls<F: ButterflyKernels>(
    to: &mut [u8],
    back: &mut [u8],
    row_len: usize,
    plan: &TransformPlan<F>,
    scratch: &mut [u8],
    other: &mut [u8],
    r: Result<(), TransformError>,
    q: Result<(), TransformError>,
    lanes: nat,
    lane: int,
    x: F::Elem,
)
    requires
        plan.wf(),
        call_ensures(novel_to_monomial_bytes::<F>, (to, row_len, plan, scratch), r),
        call_ensures(monomial_to_novel_bytes::<F>, (back, row_len, plan, other), q),
        holds_rows::<F>(old(to)@, row_len, lanes, pow2(plan.dim())),
        holds_rows::<F>(old(back)@, row_len, lanes, pow2(plan.dim())),
        old(scratch)@.len() >= (pow2(plan.dim()) / 2) * row_len,
        old(other)@.len() >= (pow2(plan.dim()) / 2) * row_len,
        0 <= lane < lanes,
    ensures
        r is Ok,
        q is Ok,
        poly_value::<F>(lane_of(unpack::<F>(final(to)@), pow2(plan.dim()), lanes, lane), x)
            == novel_value::<F>(
            plan.domain_basis(),
            lane_of(unpack::<F>(old(to)@), pow2(plan.dim()), lanes, lane),
            plan.dim(),
            x,
        ),
        novel_value::<F>(
            plan.domain_basis(),
            lane_of(unpack::<F>(final(back)@), pow2(plan.dim()), lanes, lane),
            plan.dim(),
            x,
        ) == poly_value::<F>(lane_of(unpack::<F>(old(back)@), pow2(plan.dim()), lanes, lane), x),
{
    plan.lemma_wf();
    let dim = plan.dim();
    lemma_held::<F>(old(to)@, row_len, lanes, dim);
    lemma_held::<F>(old(back)@, row_len, lanes, dim);
    law_row_conversion_lengths::<F>(
        old(to).len(),
        row_len,
        old(scratch).len(),
        span(dim) as usize,
    );
    law_row_conversion_lengths::<F>(
        old(back).len(),
        row_len,
        old(other).len(),
        span(dim) as usize,
    );
    lemma_held::<F>(final(back)@, row_len, lanes, dim);
    let basis = plan.domain_basis();
    let (v, w) = (unpack::<F>(old(to)@), unpack::<F>(final(back)@));
    law_conversion_by_lanes::<F>(v, basis, dim, lanes, lane);
    law_conversion_by_lanes::<F>(w, basis, dim, lanes, lane);
    law_conversion_keeps_values::<F>(lane_of(v, span(dim), lanes, lane), basis, dim, x);
    law_conversion_keeps_values::<F>(lane_of(w, span(dim), lanes, lane), basis, dim, x);
}

/// The fused butterflies: forward, each low element gains `c` times the high one and
/// each high element the new low one; the inverse call takes both halves back.
pub proof fn law_butterfly_calls<F: ButterflyKernels>(
    low: &mut [u8],
    high: &mut [u8],
    c: F::Elem,
    low_back: &mut [u8],
    high_back: &mut [u8],
    i: int,
)
    requires
        call_ensures(fused_forward::<F>, (low, high, c), ()),
        call_ensures(fused_inverse::<F>, (low_back, high_back, c), ()),
        old(low)@.len() == old(high)@.len(),
        whole::<F>(old(low)@.len() as int),
        old(low_back)@ == final(low)@,
        old(high_back)@ == final(high)@,
        0 <= i < unpack::<F>(old(low)@).len(),
    ensures
        fadd::<F>(unpack::<F>(final(low)@)[i], unpack::<F>(old(low)@)[i]) == fmul::<F>(
            c,
            unpack::<F>(old(high)@)[i],
        ),
        fadd::<F>(unpack::<F>(final(high)@)[i], unpack::<F>(old(high)@)[i]) == unpack::<F>(
            final(low)@,
        )[i],
        final(low_back)@ == old(low)@,
        final(high_back)@ == old(high)@,
{
    lemma_elem_bytes::<F>();
    let (l, h) = (unpack::<F>(old(low)@), unpack::<F>(old(high)@));
    law_butterfly_entries::<F>(l, h, c, i);
    law_butterflies_undo_each_other::<F>(l, h, c);
    law_elements_determine_bytes::<F>(final(low_back)@, old(low)@);
    law_elements_determine_bytes::<F>(final(high_back)@, old(high)@);
}

/// Scaled sums of packed elements, entry by entry.
pub proof fn law_scaled_sum_call<F: BinaryField>(
    dst: &mut [u8],
    c: F::Elem,
    src: &[u8],
    i: int,
)
    requires
        call_ensures(xor_scaled_bytes::<F>, (dst, c, src), ()),
        old(dst)@.len() == src@.len(),
        whole::<F>(src@.len() as int),
        0 <= i < unpack::<F>(src@).len(),
    ensures
        final(dst)@.len() == old(dst)@.len(),
        fadd::<F>(unpack::<F>(final(dst)@)[i], unpack::<F>(old(dst)@)[i]) == fmul::<F>(
            c,
            unpack::<F>(src@)[i],
        ),
{
    lemma_elem_bytes::<F>();
    law_sum_entries::<F>(unpack::<F>(old(dst)@), c, unpack::<F>(src@), i);
}

/// Dense inverses: one is found exactly if there is one, and it undoes the matrix on
/// every vector.
pub proof fn law_inverse_matrix_call<F: BinaryField>(
    matrix: &[F::Elem],
    size: usize,
    augmented: &mut [F::Elem],
    inverse: &mut [F::Elem],
    found: bool,
    other: Seq<F::Elem>,
)
    requires
        call_ensures(invert_square_into::<F>, (matrix, size, augmented, inverse), found),
        size * size <= matrix@.len(),
        2 * (size * size) <= old(augmented)@.len(),
        old(inverse)@.len() == size * size,
    ensures
        multiply_to_one::<F>(other, matrix@, size as nat) ==> found,
        found ==> multiply_to_one::<F>(final(inverse)@, matrix@, size as nat),
        found ==> multiply_to_one::<F>(matrix@, final(inverse)@, size as nat),
        !found ==> final(inverse)@ == old(inverse)@,
{
    if multiply_to_one::<F>(other, matrix@, size as nat) {
        law_invertible_is_nonsingular::<F>(other, matrix@, size as nat);
    }
}

/// Transposition: slot `width r + c` goes to slot `height c + r`, the bytes behind the
/// slots stay, and the call with the sides exchanged takes the buffer back.
pub proof fn law_transpose_calls(
    rows: &mut [u8],
    row_len: usize,
    height: usize,
    width: usize,
    bits: &mut [u8],
    temp: &mut [u8],
    back: &mut [u8],
    bits_back: &mut [u8],
    temp_back: &mut [u8],
    r: int,
    c: int,
    l: int,
)
    requires
        height * width <= usize::MAX,
        height * width <= 8 * old(bits)@.len(),
        height * width <= 8 * old(bits_back)@.len(),
        (height * width) * row_len <= old(rows)@.len(),
        old(temp)@.len() == row_len,
        old(temp_back)@.len() == row_len,
        call_ensures(transpose_slots, (rows, row_len, height, width, bits, temp), ()),
        call_ensures(transpose_slots, (back, row_len, width, height, bits_back, temp_back), ()),
        old(back)@ == final(rows)@,
        0 <= r < height,
        0 <= c < width,
        0 <= l < row_len,
    ensures
        final(rows)@[(height * c + r) * row_len + l] == old(rows)@[(width * r + c) * row_len + l],
        forall|i: int|
            (height * width) * row_len <= i < old(rows)@.len() ==> #[trigger] final(rows)@[i]
                == old(rows)@[i],
        final(back)@ == old(rows)@,
{
    let (n, h, w) = (row_len as nat, height as int, width as int);
    assert(w * h == h * w) by (nonlinear_arith);
    law_transpose_moves_slots(old(rows)@, final(rows)@, n, h, w, r, c, l);
    assert(entry(final(rows)@, n, h * c + r, l) == entry(old(rows)@, n, w * r + c, l));
    law_transpose_undoes_transpose(old(rows)@, final(rows)@, final(back)@, n, h, w);
}

/// Multiplicative transforms: a forward call takes every buffer of one row of whole
/// elements for each point; where only row `j` is not zero, row `k` is then row `j`
/// times the power `j k` of the root, and an impulse in the first row is in every row.
pub proof fn law_ntt_forward_call<F: NttField>(
    plan: &NttPlan<F>,
    rows: &mut [u8],
    row_len: usize,
    scratch: &mut NttScratch,
    r: Result<(), NttError>,
    lanes: nat,
    j: int,
    k: int,
    l: int,
)
    requires
        plan.wf(),
        old(scratch).wf(),
        call_ensures(NttPlan::<F>::forward_bytes_scratch, (plan, rows, row_len, scratch), r),
        lanes > 0,
        lanes * F::code_bytes() == row_len,
        old(rows)@.len() == plan.points() * row_len,
        old(scratch).width() == F::code_bytes(),
        old(scratch).capacity() >= row_len,
        0 <= j < plan.points(),
        0 <= k < plan.points(),
        0 <= l < lanes,
        forall|i: int, m: int|
            0 <= i < plan.points() && i != j && 0 <= m < lanes ==> #[trigger] values::<F>(
                old(rows)@,
            )[i * lanes + m] == F::rzero(),
    ensures
        r is Ok,
        final(rows)@.len() == old(rows)@.len(),
        canonical::<F>(final(rows)@),
        values::<F>(final(rows)@)[k * lanes + l] == F::rmul(
            values::<F>(old(rows)@)[j * lanes + l],
            rpow::<F>(plan.omega(), (j * k) as nat),
        ),
        j == 0 ==> values::<F>(final(rows)@)[k * lanes + l] == values::<F>(old(rows)@)[l],
{
    plan.lemma_wf();
    lemma_packed_row::<F>(row_len, lanes);
    lemma_geometry::<F>(plan.points(), old(rows)@.len(), row_len);
    law_rows_of_an_impulse::<F>(
        old(rows)@,
        final(rows)@,
        lanes,
        plan.points() as nat,
        plan.omega(),
        j,
        k,
        l,
    );
}

proof fn lemma_packed_row<F: NttField>(row_len: usize, lanes: nat)
    requires
        lanes > 0,
        lanes * F::code_bytes() == row_len,
    ensures
        row_len > 0,
        row_len as nat % F::code_bytes() == 0,
        lanes_in::<F>(row_len) == lanes,
{
    lemma_code_bytes::<F>();
    let n = F::code_bytes() as int;
    lemma_fundamental_div_mod_converse(row_len as int, n, lanes as int, 0);
    assert(lanes * n > 0) by (nonlinear_arith)
        requires
            lanes > 0,
            n > 0,
    ;
}

/// Round trips: an inverse call on what a forward call left gives the values back, and
/// the bytes where they were canonical.
pub proof fn law_ntt_round_trip_calls<F: NttField>(
    plan: &NttPlan<F>,
    rows: &mut [u8],
    row_len: usize,
    scratch: &mut NttScratch,
    r: Result<(), NttError>,
    back: &mut [u8],
    other: &mut NttScratch,
    q: Result<(), NttError>,
    lanes: nat,
)
    requires
        plan.wf(),
        old(scratch).wf(),
        old(other).wf(),
        call_ensures(NttPlan::<F>::forward_bytes_scratch, (plan, rows, row_len, scratch), r),
        call_ensures(NttPlan::<F>::inverse_bytes_scratch, (plan, back, row_len, other), q),
        lanes > 0,
        lanes * F::code_bytes() == row_len,
        old(rows)@.len() == plan.points() * row_len,
        old(scratch).width() == F::code_bytes(),
        old(scratch).capacity() >= row_len,
        old(other).width() == F::code_bytes(),
        old(other).capacity() >= row_len,
        old(back)@ == final(rows)@,
    ensures
        r is Ok,
        q is Ok,
        values::<F>(final(back)@) == values::<F>(old(rows)@),
        canonical::<F>(old(rows)@) ==> final(back)@ == old(rows)@,
{
    plan.lemma_wf();
    lemma_packed_row::<F>(row_len, lanes);
    plan.law_inverse_undoes_forward(old(rows)@, final(rows)@, final(back)@, row_len);
}

/// The four-step transform gives the bytes of the plain one.
pub proof fn law_four_step_agrees<F: NttField>(
    plan: &NttPlan<F>,
    rows: &mut [u8],
    row_len: usize,
    scratch: &mut NttScratch,
    r: Result<(), NttError>,
    four: &FourStepPlan<F>,
    other: &mut [u8],
    workspace: &mut FourStepScratch,
    q: Result<(), NttError>,
    lanes: nat,
)
    requires
        plan.wf(),
        four.wf(),
        four.points() == plan.points(),
        four.omega() == plan.omega(),
        old(scratch).wf(),
        old(workspace).wf(),
        call_ensures(NttPlan::<F>::forward_bytes_scratch, (plan, rows, row_len, scratch), r),
        call_ensures(
            FourStepPlan::<F>::forward_bytes_scratch,
            (four, other, row_len, workspace),
            q,
        ),
        lanes > 0,
        lanes * F::code_bytes() == row_len,
        old(rows)@.len() == plan.points() * row_len,
        old(other)@ == old(rows)@,
        old(scratch).width() == F::code_bytes(),
        old(scratch).capacity() >= row_len,
        old(workspace).width() == F::code_bytes(),
        old(workspace).capacity() >= row_len,
        8 * old(workspace).flags() >= plan.points(),
    ensures
        r is Ok,
        q is Ok,
        final(other)@ == final(rows)@,
{
    plan.lemma_wf();
    lemma_packed_row::<F>(row_len, lanes);
    lemma_geometry::<F>(plan.points(), old(rows)@.len(), row_len);
    lemma_code_bytes::<F>();
    let (a, b) = (values::<F>(final(rows)@), values::<F>(final(other)@));
    let n = plan.points() as int;
    assert forall|t: int| 0 <= t < a.len() implies a[t] == b[t] by {
        let (k, l) = lemma_index::<F>(t, lanes, n as nat);
        assert(entry(a, lanes, k, l) == entry(b, lanes, k, l));
    }
    assert(a =~= b);
    lemma_canonical_injective::<F>(final(other)@, final(rows)@);
}

/// The vanishing polynomial: monic, of one degree for each point, and zero at the
/// points of the plan and nowhere else.
pub proof fn law_vanishing_call<F: ButterflyKernels>(
    plan: &TransformPlan<F>,
    r: Vec<F::Elem>,
    x: F::Elem,
)
    requires
        plan.wf(),
        call_ensures(TransformPlan::<F>::vanishing_polynomial, (plan,), r),
    ensures
        r@.len() == pow2(plan.dim()) + 1,
        r@.last() == fone::<F>(),
        poly_value::<F>(r@, x) == fzero::<F>() <==> exists|i: int|
            0 <= i < pow2(plan.dim()) && #[trigger] plan.point(i) == x,
{
    law_spans_are_powers_of_two(plan.dim());
    law_vanishing_polynomial_is_the_locator::<F>(plan, r@, x);
    let (p, n) = (points::<F>(plan), span(plan.dim()));
    lemma_locator_zero::<F>(p, n, x);
    if exists|i: int| 0 <= i < n && #[trigger] plan.point(i) == x {
        let i = choose|i: int| 0 <= i < n && #[trigger] plan.point(i) == x;
        assert(p[i] == x);
    }
    if !outside::<F>(p, n, x) {
        let i = choose|i: int| 0 <= i < n && #[trigger] p[i] == x;
        assert(plan.point(i) == x);
    }
}

/// Generator rows: a coefficient times the difference of the points and the derivative
/// is the value of the locator.
pub proof fn law_generator_row_call<F: ButterflyKernels>(
    plan: &TransformPlan<F>,
    values: &[F::Elem],
    derivatives: &[F::Elem],
    point: usize,
    row: &mut [F::Elem],
    d: int,
)
    requires
        plan.wf(),
        values@.len() == pow2(plan.dim()),
        point < pow2(plan.dim()),
        old(row)@.len() <= point,
        old(row)@.len() <= derivatives@.len(),
        call_ensures(generator_row::<F>, (plan, values, derivatives, point, row), ()),
        0 <= d < old(row)@.len(),
        derivatives@[d] != fzero::<F>(),
    ensures
        final(row)@.len() == old(row)@.len(),
        fmul::<F>(
            final(row)@[d],
            fmul::<F>(fadd::<F>(plan.point(point as int), plan.point(d)), derivatives@[d]),
        ) == values@[point as int],
{
    law_spans_are_powers_of_two(plan.dim());
    plan.law_points_are_distinct(d, point as int);
    let difference = fadd::<F>(plan.point(point as int), plan.point(d));
    lemma_difference::<F>(plan.point(point as int), plan.point(d));
    law_returned_coefficients::<F>(values@[point as int], difference, derivatives@[d]);
}

/// Subspace polynomials: they exist exactly over an independent basis; number `k`,
/// evaluated, is zero on the sums of the first `k` elements and one at element `k`,
/// and the value at a sum is the sum of the values.
pub proof fn law_subspace_polynomial_calls<F: BinaryField>(
    basis: &[F::Elem],
    r: Option<Vec<NormalizedSubspacePolynomial<F>>>,
    k: nat,
    x: F::Elem,
    y: F::Elem,
    at_x: F::Elem,
    at_y: F::Elem,
    at_sum: F::Elem,
    i: int,
)
    requires
        call_ensures(subspace_polynomials::<F>, (basis,), r),
    ensures
        r is Some <==> independent::<F>(basis@, basis@.len()),
        r matches Some(p) ==> {
            &&& p@.len() == basis@.len()
            &&& k < p@.len() && call_ensures(
                NormalizedSubspacePolynomial::<F>::evaluate,
                (&p@[k as int], x),
                at_x,
            ) ==> {
                &&& 0 <= i < pow2(k) && x == combine::<F>(basis@, k, i) ==> at_x == fzero::<F>()
                &&& x == basis@[k as int] ==> at_x == fone::<F>()
                &&& call_ensures(
                    NormalizedSubspacePolynomial::<F>::evaluate,
                    (&p@[k as int], y),
                    at_y,
                ) && call_ensures(
                    NormalizedSubspacePolynomial::<F>::evaluate,
                    (&p@[k as int], fadd::<F>(x, y)),
                    at_sum,
                ) ==> at_sum == fadd::<F>(at_x, at_y)
            }
        },
{
    if r is Some && k < basis@.len() {
        let p = r->Some_0;
        law_spans_are_powers_of_two(k);
        assert(independent::<F>(basis@, k + 1));
        assert(p@[k as int].describes(basis@, k as int as nat));
        lemma_span_monotone(0, k);
        if 0 <= i < span(k) {
            law_normalized_polynomials::<F>(basis@, k, x, y, i);
        } else {
            law_normalized_polynomials::<F>(basis@, k, x, y, 0);
        }
    }
}

/// The coset constructors take and refuse the same domains, and what they make differs
/// in nothing but the point from which points are reported.
pub proof fn law_constructor_calls<F: ButterflyKernels>(
    size: usize,
    basis: &[F::Elem],
    shift: F::Elem,
    r: Result<TransformPlan<F>, PlanError>,
    q: Result<TransformPlan<F>, PlanError>,
    s: Result<ShiftedPlan<F>, PlanError>,
    t: Result<TransformPlan<F>, PlanError>,
)
    requires
        call_ensures(TransformPlan::<F>::with_shift, (size, basis, shift), r),
        call_ensures(TransformPlan::<F>::with_basis_shift, (size, basis, shift), q),
        call_ensures(ShiftedPlan::<F>::from_elements, (size, basis, shift), s),
        call_ensures(TransformPlan::<F>::with_basis, (size, basis), t),
    ensures
        r is Err ==> q == r && s is Err && t == r && s->Err_0 == r->Err_0,
        r matches Ok(plan) ==> {
            &&& q matches Ok(other)
            &&& s matches Ok(shifted)
            &&& t matches Ok(linear)
            &&& same_domain::<F>(&plan, &other)
            &&& other.origin() == fzero::<F>()
            &&& same_domain::<F>(&plan, &shifted.inner())
            &&& shifted.wf()
            &&& linear.dim() == plan.dim()
            &&& linear.domain_basis() == plan.domain_basis()
            &&& linear.domain_shift() == fzero::<F>()
            &&& linear.origin() == fzero::<F>()
        },
{
    if r is Ok {
        lemma_span_injective(r->Ok_0.dim(), q->Ok_0.dim());
        lemma_span_injective(r->Ok_0.dim(), s->Ok_0.inner().dim());
        lemma_span_injective(r->Ok_0.dim(), t->Ok_0.dim());
    }
}

/// Whether two plans have one basis and one shift.
pub open spec fn same_domain<F: ButterflyKernels>(
    plan: &TransformPlan<F>,
    other: &TransformPlan<F>,
) -> bool {
    &&& other.wf()
    &&& other.dim() == plan.dim()
    &&& other.domain_basis() == plan.domain_basis()
    &&& other.domain_shift() == plan.domain_shift()
}

/// Shifted plans over an ordered basis, and over that of the bits, are those over its
/// elements.
pub proof fn law_shifted_constructor_calls<F: ButterflyKernels, B: OrderedBasis<F>>(
    size: usize,
    ordered: &B,
    basis: &[F::Elem],
    shift: F::Elem,
    r: Result<ShiftedPlan<F>, PlanError>,
    q: Result<ShiftedPlan<F>, PlanError>,
)
    requires
        call_ensures(ShiftedPlan::<F>::from_elements, (size, basis, shift), r),
        call_ensures(ShiftedPlan::<F>::with_basis::<B>, (size, ordered, shift), q),
        basis@ == ordered.members(),
    ensures
        r is Err ==> q is Err && q->Err_0 == r->Err_0,
        r matches Ok(plan) ==> {
            &&& q matches Ok(other)
            &&& other.wf()
            &&& same_domain::<F>(&plan.inner(), &other.inner())
        },
{
    if r is Ok {
        lemma_span_injective(r->Ok_0.inner().dim(), q->Ok_0.inner().dim());
    }
}

/// Shifted plans over the bits: one for every size that has a plan, with its basis and
/// the shift.
pub proof fn law_shifted_new_call<F: ButterflyKernels>(
    size: usize,
    shift: F::Elem,
    r: Result<ShiftedPlan<F>, PlanError>,
    q: Result<TransformPlan<F>, PlanError>,
)
    requires
        call_ensures(ShiftedPlan::<F>::new, (size, shift), r),
        call_ensures(TransformPlan::<F>::new, (size,), q),
    ensures
        q is Err ==> r is Err && r->Err_0 == q->Err_0,
        q matches Ok(plan) ==> {
            &&& r matches Ok(shifted)
            &&& shifted.wf()
            &&& shifted.inner().dim() == plan.dim()
            &&& shifted.inner().domain_basis() == plan.domain_basis()
            &&& shifted.inner().domain_shift() == shift
        },
{
    if q is Ok && r is Ok {
        lemma_span_injective(r->Ok_0.inner().dim(), q->Ok_0.dim());
    }
}

/// The workspace of a recovery: none for a prefix of a power of two, the power below it
/// for any other, and an error for a prefix that is empty or longer than the domain.
pub proof fn law_workspace_calls<F: ButterflyKernels>(
    plan: &TransformPlan<F>,
    shifted: &ShiftedPlan<F>,
    active: usize,
    r: Result<usize, TransformError>,
    q: Result<usize, TransformError>,
    k: nat,
)
    requires
        plan.wf(),
        *plan == shifted.inner(),
        call_ensures(TransformPlan::<F>::inverse_bytes_truncated_scratch_rows, (plan, active), r),
        call_ensures(ShiftedPlan::<F>::inverse_truncated_scratch_rows, (shifted, active), q),
        shifted.wf(),
    ensures
        r is Ok <==> 1 <= active <= pow2(plan.dim()),
        k <= plan.dim() && active == pow2(k) ==> r == Ok::<usize, TransformError>(0),
        k < plan.dim() && pow2(k) < active < pow2(k + 1) ==> r == Ok::<usize, TransformError>(
            pow2(k) as usize,
        ),
        q == r,
{
    plan.lemma_wf();
    law_spans_are_powers_of_two(plan.dim());
    if k <= plan.dim() {
        law_truncated_workspace(plan.dim(), active as nat, k);
        law_spans_are_powers_of_two(k);
        lemma_span_monotone(0, k);
        lemma_span_monotone(k, plan.dim());
        if k < plan.dim() {
            law_spans_are_powers_of_two(k + 1);
            lemma_span_monotone(k + 1, plan.dim());
        }
    }
}

} // verus!
