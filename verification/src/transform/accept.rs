//! When calls succeed, in terms of their arguments.

use std::sync::Arc;

use vstd::arithmetic::div_mod::{lemma_fundamental_div_mod, lemma_truncate_middle};
use vstd::arithmetic::power2::{lemma2_to64, lemma_pow2_unfold, pow2};
use vstd::prelude::*;

use crate::basis::convert::{conversion_error, length_error, rows_conversion_error, to_monomial};
use crate::basis::convert_laws::{
    formal_derivative, law_convert_then_forward_evaluates, law_derivative_is_formal,
};
use crate::error::{PlanError, TransformError};
use crate::field::{fadd, fone, fzero, lemma_add, BinaryField};
use crate::kernel::ButterflyKernels;
use crate::pack::elem_bytes;
use crate::poly::poly_value;
use crate::span::{is_span, lemma_span_injective, lemma_span_monotone, span};
use crate::shifted::ShiftedPlan;
use crate::subspace::{
    combine, independent, law_normalized_coefficients, law_normalized_polynomials, law_sums_by_bits,
    lemma_combine_narrow, linearized, normalized,
};
use crate::transform::cosets::lemma_same_independent;
use crate::transform::derivative::derivative_model;
use crate::transform::factors::FactorTable;
use crate::transform::model::forward_model;
use crate::transform::novel::law_twiddle_heap;
use crate::transform::plan::{
    geometry_error, lemma_width_span, log2, range_error, valid_selection, PlanCache, TransformPlan,
};
use crate::transform::walk::{lanes_of, scratch_rows};

verus! {

/// The spans are the powers of two.
pub proof fn law_spans_are_powers_of_two(k: nat)
    ensures
        span(k) == pow2(k),
    decreases k,
{
    if k == 0 {
        lemma2_to64();
    } else {
        law_spans_are_powers_of_two((k - 1) as nat);
        lemma_pow2_unfold(k);
    }
}

/// The size of a power of two: it is a span, and no other exponent has it.
proof fn lemma_size(size: usize, k: nat)
    requires
        size == pow2(k),
    ensures
        is_span(size as nat),
        log2(size as nat) == k,
        span(k) == size,
{
    law_spans_are_powers_of_two(k);
    assert(span(k) == size as nat);
    lemma_span_injective(log2(size as nat), k);
}

/// A plan over the bit basis exists for every power of two up to `2^20` points and
/// up to the size of the field, and for no other size. Its basis are the elements
/// with the bit patterns `1, 2, 4, ...`, and it is not shifted.
pub proof fn law_sizes_with_a_plan<F: ButterflyKernels>(
    size: usize,
    k: nat,
    r: Result<TransformPlan<F>, PlanError>,
)
    requires
        call_ensures(TransformPlan::<F>::new, (size,), r),
    ensures
        size == pow2(k) && k <= 20 && k <= F::width() ==> {
            &&& r matches Ok(plan)
            &&& plan.wf()
            &&& plan.dim() == k
            &&& plan.domain_basis().len() == k
            &&& plan.domain_shift() == fzero::<F>()
            &&& plan.origin() == fzero::<F>()
            &&& forall|i: int|
                0 <= i < k ==> F::raw(#[trigger] plan.domain_basis()[i]) == pow2(i as nat)
        },
        size == pow2(k) && (k > 20 || k > F::width()) ==> r == Err::<TransformPlan<F>, PlanError>(
            PlanError::DomainTooLarge {
                log_size: k as usize,
                cap: if F::width() < 20 {
                    F::width() as usize
                } else {
                    20
                },
            },
        ),
        (forall|j: nat| size != #[trigger] pow2(j)) ==> r == Err::<TransformPlan<F>, PlanError>(
            PlanError::InvalidSize { size },
        ),
{
    F::lemma_width();
    if size == pow2(k) {
        lemma_size(size, k);
        if k <= 20 && k <= F::width() {
            let plan = r->Ok_0;
            lemma_span_injective(plan.dim(), k);
            lemma_width_span::<F>();
            assert forall|i: int| 0 <= i < k implies F::raw(#[trigger] plan.domain_basis()[i])
                == pow2(i as nat) by {
                law_spans_are_powers_of_two(i as nat);
                lemma_span_monotone(i as nat, F::width() as nat);
                F::lemma_raw(plan.domain_basis()[i], span(i as nat) as u64);
            }
        }
    }
    if forall|j: nat| size != #[trigger] pow2(j) {
        if is_span(size as nat) {
            let j = choose|j: nat| #[trigger] span(j) == size;
            law_spans_are_powers_of_two(j);
            assert(size == pow2(j));
        }
    }
}

/// A plan over a coset exists for every supported size whose basis is long enough
/// and independent. Its basis is the prefix of the one given, and its points start
/// at the shift; each refusal has its own error.
pub proof fn law_cosets_with_a_plan<F: ButterflyKernels>(
    size: usize,
    k: nat,
    basis: &[F::Elem],
    shift: F::Elem,
    r: Result<TransformPlan<F>, PlanError>,
)
    requires
        call_ensures(TransformPlan::<F>::with_shift, (size, basis, shift), r),
        size == pow2(k),
        k <= 20,
        k <= F::width(),
    ensures
        k <= basis@.len() && independent::<F>(basis@, k) ==> {
            &&& r matches Ok(plan)
            &&& plan.wf()
            &&& plan.dim() == k
            &&& plan.domain_shift() == shift
            &&& plan.origin() == shift
            &&& plan.domain_basis().len() == k
            &&& forall|i: int| 0 <= i < k ==> #[trigger] plan.domain_basis()[i] == basis@[i]
        },
        k > basis@.len() ==> r == Err::<TransformPlan<F>, PlanError>(
            PlanError::BasisTooShort { needed: k as usize, got: basis@.len() as usize },
        ),
        k <= basis@.len() && !independent::<F>(basis@, k) ==> r == Err::<
            TransformPlan<F>,
            PlanError,
        >(PlanError::DependentBasis),
{
    lemma_size(size, k);
    if k <= basis@.len() {
        let prefix = basis@.subrange(0, k as int);
        if independent::<F>(prefix, k) {
            lemma_same_independent::<F>(prefix, basis@, k);
        }
        if independent::<F>(basis@, k) {
            lemma_same_independent::<F>(basis@, prefix, k);
            let plan = r->Ok_0;
            lemma_span_injective(plan.dim(), k);
        }
    }
}

/// Packed rows: a buffer is taken exactly if its rows are whole, not empty, and as
/// many as asked for. Only a product that no `usize` holds is an overflow.
pub proof fn law_row_geometry<F: BinaryField>(len: usize, row_len: usize, rows: usize)
    ensures
        8 * elem_bytes::<F>() == F::width(),
        geometry_error::<F>(len, row_len, rows) is None <==> row_len > 0 && (8 * row_len)
            % F::width() as int == 0 && len == rows * row_len,
        geometry_error::<F>(len, row_len, rows) == Some(
            TransformError::InvalidRowLength {
                row_len,
                element_bytes: (F::width() / 8) as usize,
            },
        ) <==> row_len == 0 || (8 * row_len) % F::width() as int != 0,
        geometry_error::<F>(len, row_len, rows) == Some(TransformError::GeometryOverflow)
            <==> row_len > 0 && (8 * row_len) % F::width() as int == 0 && rows * row_len
            > usize::MAX,
        row_len > 0 && (8 * row_len) % F::width() as int == 0 && rows * row_len <= usize::MAX && len
            != rows * row_len ==> geometry_error::<F>(len, row_len, rows) == Some(
            TransformError::BufferLength { expected: (rows * row_len) as usize, got: len },
        ),
{
    F::lemma_width();
    let n = elem_bytes::<F>() as int;
    lemma_truncate_middle(row_len as int, 8, n);
}

/// Output ranges: a range is taken exactly if it is not reversed and ends within
/// the rows.
pub proof fn law_output_ranges(start: usize, end: usize, size: usize)
    ensures
        range_error(start, end, size) is None <==> start <= end <= size,
        range_error(start, end, size) is Some ==> range_error(start, end, size) == Some(
            TransformError::InvalidRange { start, end, size },
        ),
{
}

/// Selections: taken exactly if each index is in range and below the next one.
pub proof fn law_selections(selected: Seq<usize>, size: nat)
    ensures
        valid_selection(selected, size) <==> {
            &&& selected.len() > 0 ==> selected.last() < size
            &&& forall|i: int|
                0 < i < selected.len() ==> selected[i - 1] < #[trigger] selected[i]
        },
{
    if forall|i: int| 0 < i < selected.len() ==> selected[i - 1] < #[trigger] selected[i] {
        assert forall|i: int, j: int| 0 <= i < j < selected.len() implies selected[i]
            < selected[j] by {
            lemma_ascending(selected, i, j);
        }
    }
}

proof fn lemma_ascending(s: Seq<usize>, i: int, j: int)
    requires
        forall|i: int| 0 < i < s.len() ==> s[i - 1] < #[trigger] s[i],
        0 <= i < j < s.len(),
    ensures
        s[i] < s[j],
    decreases j - i,
{
    assert(s[j - 1] < s[j]);
    if i < j - 1 {
        lemma_ascending(s, i, j - 1);
    }
}

/// Workspace of the truncated inverse: none for a power of two of active rows, and
/// else the largest power of two below the active rows.
pub proof fn law_truncated_workspace(dim: nat, active: nat, k: nat)
    requires
        k <= dim,
    ensures
        active == pow2(k) ==> scratch_rows(dim, active) == 0,
        k < dim && pow2(k) < active < pow2(k + 1) ==> scratch_rows(dim, active) == pow2(k),
    decreases dim,
{
    law_spans_are_powers_of_two(k);
    law_spans_are_powers_of_two(k + 1);
    if dim > 0 {
        let d = (dim - 1) as nat;
        lemma_span_monotone(0, k);
        if k <= d {
            lemma_span_monotone(k, d);
            if active == pow2(k) {
                law_truncated_workspace(d, active, k);
            }
        }
        if k < d {
            lemma_span_monotone(k + 1, d);
            if pow2(k) < active < pow2(k + 1) {
                law_truncated_workspace(d, active, k);
            }
        }
    }
}

/// Conversions: taken exactly if the buffer has the plan's size and the workspace
/// at least half of it.
pub proof fn law_conversion_lengths(got: usize, scratch: usize, size: usize)
    ensures
        length_error(got as nat, size as nat) is None <==> got == size,
        length_error(got as nat, size as nat) is Some ==> length_error(got as nat, size as nat)
            == Some(TransformError::BufferLength { expected: size, got }),
        conversion_error(got as nat, scratch as nat, size as nat) is None <==> got == size
            && scratch >= size / 2,
        got != size ==> conversion_error(got as nat, scratch as nat, size as nat) == Some(
            TransformError::BufferLength { expected: size, got },
        ),
        got == size && scratch < size / 2 ==> conversion_error(
            got as nat,
            scratch as nat,
            size as nat,
        ) == Some(
            TransformError::ScratchTooSmall { required: (size / 2) as usize, available: scratch },
        ),
{
}

/// Conversions of packed rows: taken exactly if the rows are whole, not empty and as
/// many as the plan has points, and the workspace holds half of them.
pub proof fn law_row_conversion_lengths<F: BinaryField>(
    got: usize,
    row_len: usize,
    scratch: usize,
    size: usize,
)
    ensures
        rows_conversion_error::<F>(got, row_len, scratch, size) is None <==> row_len > 0 && (8
            * row_len) % F::width() as int == 0 && got == size * row_len && scratch >= (size / 2)
            * row_len,
        row_len > 0 && (8 * row_len) % F::width() as int == 0 && got == size * row_len && scratch
            < (size / 2) * row_len ==> rows_conversion_error::<F>(got, row_len, scratch, size)
            == Some(
            TransformError::ScratchTooSmall {
                required: ((size / 2) * row_len) as usize,
                available: scratch,
            },
        ),
        geometry_error::<F>(got, row_len, size) is Some ==> rows_conversion_error::<F>(
            got,
            row_len,
            scratch,
            size,
        ) == geometry_error::<F>(got, row_len, size),
{
    law_row_geometry::<F>(got, row_len, size);
}

impl<F: ButterflyKernels> TransformPlan<F> {
    /// Byte-row calls take a buffer exactly if it holds as many whole, nonempty rows
    /// as the plan has points; derivatives ask it of both buffers.
    pub proof fn law_byte_rows_are_taken(&self, len: usize, row_len: usize, other: usize)
        requires
            self.wf(),
        ensures
            self.rows_error(len, row_len) is None <==> row_len > 0 && (8 * row_len) % F::width() as int
                == 0 && len == pow2(self.dim()) * row_len,
            self.derivative_error(other, row_len, len) is None <==> row_len > 0 && (8 * row_len)
                % F::width() as int == 0 && len == pow2(self.dim()) * row_len && other == len,
            self.rows_error(len, row_len) is Some ==> self.derivative_error(other, row_len, len)
                == self.rows_error(len, row_len),
            self.rows_error(len, row_len) is None ==> self.derivative_error(other, row_len, len)
                == self.rows_error(other, row_len),
            row_len > 0 && (8 * row_len) % F::width() as int == 0 && pow2(self.dim()) * row_len
                <= usize::MAX && len != pow2(self.dim()) * row_len ==> self.rows_error(len, row_len)
                == Some(
                TransformError::BufferLength {
                    expected: (pow2(self.dim()) * row_len) as usize,
                    got: len,
                },
            ),
    {
        self.lemma_wf();
        law_spans_are_powers_of_two(self.dim());
        law_row_geometry::<F>(len, row_len, span(self.dim()) as usize);
        law_row_geometry::<F>(other, row_len, span(self.dim()) as usize);
    }
}

impl<F: ButterflyKernels> TransformPlan<F> {
    /// The points of a plan: the first is the shift, and bit `k` of the index adds
    /// basis element `k`.
    pub proof fn law_points_by_bits(&self, k: nat, i: int)
        requires
            self.wf(),
            k < self.dim(),
            0 <= i < pow2(k),
        ensures
            self.point(0) == self.domain_shift(),
            self.point(i + pow2(k)) == fadd::<F>(self.point(i), self.domain_basis()[k as int]),
            self.label(0) == self.origin(),
            self.label(i + pow2(k)) == fadd::<F>(self.label(i), self.domain_basis()[k as int]),
    {
        law_spans_are_powers_of_two(k);
        let (basis, n) = (self.domain_basis(), self.dim());
        law_sums_by_bits::<F>(basis, n, k, i);
        let (s, o) = (self.domain_shift(), self.origin());
        let (c, b) = (combine::<F>(basis, n, i), basis[k as int]);
        lemma_add::<F>(s, c, b);
        lemma_add::<F>(o, c, b);
        lemma_add::<F>(s, s, s);
        lemma_add::<F>(o, o, o);
    }

    /// What a plan reports of its domain: the size is a power of two, the basis has
    /// one element for each factor of two, and the elements that are reported for the
    /// points add up by the bits of the index.
    pub proof fn law_reported_domain(
        &self,
        size: usize,
        log_size: usize,
        basis: &[F::Elem],
        i: usize,
        k: nat,
        first: F::Elem,
        low: F::Elem,
        high: F::Elem,
    )
        requires
            self.wf(),
            call_ensures(TransformPlan::<F>::size, (self,), size),
            call_ensures(TransformPlan::<F>::log_size, (self,), log_size),
            call_ensures(TransformPlan::<F>::basis, (self,), basis),
            k < log_size,
            i < pow2(k),
            call_ensures(TransformPlan::<F>::point_element, (self, 0usize), first),
            call_ensures(TransformPlan::<F>::point_element, (self, i), low),
            call_ensures(TransformPlan::<F>::point_element, (self, (i + pow2(k)) as usize), high),
        ensures
            size == pow2(log_size as nat),
            basis@.len() == log_size,
            high == fadd::<F>(low, basis@[k as int]),
            first == fzero::<F>() || first == self.domain_shift(),
    {
        self.lemma_wf();
        law_spans_are_powers_of_two(self.dim());
        law_spans_are_powers_of_two(k);
        assert(span(k + 1) == 2 * span(k));
        lemma_span_monotone(k + 1, self.dim());
        lemma_span_monotone(0, self.dim());
        self.law_points_by_bits(k, i as int);
    }
}

/// What a shifted plan reports: a point of the coset is the shift plus the point of
/// the subspace, which is what the underlying plan reports.
pub proof fn law_shifted_points<F: ButterflyKernels>(
    shifted: &ShiftedPlan<F>,
    plan: &TransformPlan<F>,
    shift: F::Elem,
    i: usize,
    point: F::Elem,
    unshifted: F::Elem,
)
    requires
        shifted.wf(),
        call_ensures(ShiftedPlan::<F>::plan, (shifted,), plan),
        call_ensures(ShiftedPlan::<F>::shift, (shifted,), shift),
        i < span(plan.dim()),
        call_ensures(ShiftedPlan::<F>::point_element, (shifted, i), point),
        call_ensures(TransformPlan::<F>::point_element, (plan, i), unshifted),
    ensures
        point == fadd::<F>(shift, unshifted),
        i == 0 ==> unshifted == fzero::<F>() && point == shift,
{
    let x = combine::<F>(plan.domain_basis(), plan.dim(), i as int);
    lemma_add::<F>(x, x, x);
    lemma_add::<F>(shift, shift, shift);
    assert(span(0) == 1);
    if i == 0 {
        lemma_span_monotone(0, plan.dim());
        lemma_combine_narrow::<F>(plan.domain_basis(), plan.dim(), 0, 0);
    }
}

/// The elements of a row: as many as fill it.
pub proof fn law_elements_of_a_row<F: BinaryField>(row_len: nat)
    requires
        (8 * row_len) % F::width() as nat == 0,
    ensures
        lanes_of::<F>(row_len) * F::width() == 8 * row_len,
{
    F::lemma_width();
    let n = elem_bytes::<F>() as int;
    lemma_truncate_middle(row_len as int, 8, n);
    lemma_fundamental_div_mod(row_len as int, n);
    let q = row_len as int / n;
    assert(q * (8 * n) == 8 * (n * q)) by (nonlinear_arith);
}

impl<F: ButterflyKernels> PlanCache<F> {
    /// What a cache hands out: for a supported size the plan over the bit basis, and
    /// the size's own error else; and a later request gets the same answer.
    pub proof fn law_served_plans(
        &self,
        size: usize,
        k: nat,
        r: Result<Arc<TransformPlan<F>>, PlanError>,
        after: Self,
        again: Result<Arc<TransformPlan<F>>, PlanError>,
        last: Self,
    )
        requires
            self.serves(size, r, after),
            after.serves(size, again, last),
        ensures
            again == r,
            size == pow2(k) && k <= 20 && k <= F::width() ==> {
                &&& r matches Ok(plan)
                &&& plan.wf()
                &&& plan.dim() == k
                &&& plan.domain_shift() == fzero::<F>()
                &&& plan.domain_basis().len() == k
                &&& forall|i: int|
                    0 <= i < k ==> F::raw(#[trigger] plan.domain_basis()[i]) == pow2(i as nat)
            },
            size == pow2(k) && (k > 20 || k > F::width()) ==> (r matches Err(e) && e
                is DomainTooLarge),
            (forall|j: nat| size != #[trigger] pow2(j)) ==> (r matches Err(e) && e is InvalidSize),
    {
        F::lemma_width();
        if size == pow2(k) {
            lemma_size(size, k);
            if k <= 20 && k <= F::width() {
                let plan = r->Ok_0;
                lemma_span_injective(plan.dim(), k);
                lemma_width_span::<F>();
                assert forall|i: int| 0 <= i < k implies F::raw(#[trigger] plan.domain_basis()[i])
                    == pow2(i as nat) by {
                    law_spans_are_powers_of_two(i as nat);
                    lemma_span_monotone(i as nat, F::width() as nat);
                    F::lemma_raw(plan.domain_basis()[i], span(i as nat) as u64);
                }
            }
        }
        if forall|j: nat| size != #[trigger] pow2(j) {
            if is_span(size as nat) {
                let j = choose|j: nat| #[trigger] span(j) == size;
                law_spans_are_powers_of_two(j);
                assert(size == pow2(j));
            }
        }
    }
}

impl<F: ButterflyKernels> TransformPlan<F> {
    /// The derivative of the plan is the formal derivative: differentiating novel
    /// coefficients and converting is converting and differentiating.
    pub proof fn law_derivatives_are_formal(&self, v: Seq<F::Elem>)
        requires
            self.wf(),
            v.len() == pow2(self.dim()),
        ensures
            to_monomial::<F>(
                derivative_model::<F>(v, self.slopes(), self.dim()),
                self.domain_basis(),
                self.dim(),
                1,
            ) == formal_derivative::<F>(
                to_monomial::<F>(v, self.domain_basis(), self.dim(), 1),
            ),
    {
        self.lemma_wf();
        law_spans_are_powers_of_two(self.dim());
        law_derivative_is_formal::<F>(v, self.slopes(), self.domain_basis(), self.dim());
    }

    /// Evaluation by the plan: entry `i` of the transform of novel coefficients is the
    /// value at point `i` of the polynomial with the converted coefficients.
    pub proof fn law_forward_gives_polynomial_values(&self, v: Seq<F::Elem>, i: int)
        requires
            self.wf(),
            v.len() == pow2(self.dim()),
            0 <= i < v.len(),
        ensures
            forward_model::<F>(v, self.heap(), 1, self.dim())[i] == poly_value::<F>(
                to_monomial::<F>(v, self.domain_basis(), self.dim(), 1),
                self.point(i),
            ),
    {
        self.lemma_wf();
        law_spans_are_powers_of_two(self.dim());
        law_convert_then_forward_evaluates::<F>(
            to_monomial::<F>(v, self.domain_basis(), self.dim(), 1),
            v,
            self.heap(),
            self.domain_basis(),
            self.domain_shift(),
            self.dim(),
            i,
        );
    }

    /// The normalized subspace polynomials that a plan hands out: their linearized
    /// value is additive, zero at the basis elements before `k` and one at basis
    /// element `k`.
    pub proof fn law_reported_polynomials(
        &self,
        k: usize,
        coefficients: &[F::Elem],
        x: F::Elem,
        y: F::Elem,
        j: int,
    )
        requires
            self.wf(),
            k < self.dim(),
            0 <= j < k,
            call_ensures(
                TransformPlan::<F>::normalized_subspace_polynomial,
                (self, k),
                coefficients,
            ),
        ensures
            coefficients@.len() == k + 1,
            linearized::<F>(coefficients@, fadd::<F>(x, y)) == fadd::<F>(
                linearized::<F>(coefficients@, x),
                linearized::<F>(coefficients@, y),
            ),
            linearized::<F>(coefficients@, self.domain_basis()[j]) == fzero::<F>(),
            linearized::<F>(coefficients@, self.domain_basis()[k as int]) == fone::<F>(),
    {
        self.lemma_wf();
        let b = self.domain_basis();
        law_normalized_coefficients::<F>(b, k as nat, x);
        law_normalized_coefficients::<F>(b, k as nat, y);
        law_normalized_coefficients::<F>(b, k as nat, fadd::<F>(x, y));
        law_normalized_coefficients::<F>(b, k as nat, b[j]);
        law_normalized_coefficients::<F>(b, k as nat, b[k as int]);
        assert(independent::<F>(b, (k + 1) as nat));
        assert(span(0) == 1);
        lemma_span_monotone(0, j as nat);
        law_sums_by_bits::<F>(b, k as nat, j as nat, 0);
        lemma_span_monotone((j + 1) as nat, k as nat);
        assert(span((j + 1) as nat) == 2 * span(j as nat));
        lemma_add::<F>(b[j], b[j], b[j]);
        law_normalized_polynomials::<F>(b, k as nat, x, y, span(j as nat) as int);
    }
}

impl<F: ButterflyKernels> TransformPlan<F> {
    /// The tables that a plan hands out: twiddle `2^l + p` is the normalized subspace
    /// polynomial of dimension `dim - 1 - l` at point `p 2^(dim - l)`, and derivative
    /// factor `j` is the coefficient of `x` in normalized polynomial `j`.
    pub proof fn law_reported_tables(
        &self,
        table: &FactorTable<F>,
        factors: &[F::Elem],
        derivatives: &[F::Elem],
        l: nat,
        p: nat,
        j: usize,
        coefficients: &[F::Elem],
    )
        requires
            self.wf(),
            call_ensures(TransformPlan::<F>::table, (self,), table),
            call_ensures(FactorTable::<F>::factors, (table,), factors),
            call_ensures(FactorTable::<F>::derivative_factors, (table,), derivatives),
            l < self.dim(),
            p < pow2(l),
            j < self.dim(),
            call_ensures(
                TransformPlan::<F>::normalized_subspace_polynomial,
                (self, j),
                coefficients,
            ),
        ensures
            factors@.len() == pow2(self.dim()),
            factors@[(pow2(l) + p) as int] == normalized::<F>(
                self.domain_basis(),
                (self.dim() - 1 - l) as nat,
                self.point((p * pow2((self.dim() - l) as nat)) as int),
            ),
            derivatives@.len() == self.dim(),
            derivatives@[j as int] == coefficients@[0],
    {
        self.lemma_wf();
        law_spans_are_powers_of_two(self.dim());
        law_spans_are_powers_of_two(l);
        law_spans_are_powers_of_two((self.dim() - l) as nat);
        law_twiddle_heap::<F>(
            self.heap(),
            self.domain_basis(),
            1,
            self.dim(),
            self.domain_shift(),
            l,
            p,
        );
        assert(1 * span(l) == span(l));
    }
}

} // verus!
