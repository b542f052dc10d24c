//! Additive-transform plans.

use vstd::prelude::*;

use core::ops::Range;
use std::sync::Arc;

use crate::error::{PlanError, TransformError};
use crate::field::tower::mask;
use crate::field::{fadd, fone, fzero, is_zero, lemma_add, lemma_raw_add, plus, zero, BinaryField};
use crate::kernel::{backend_for, lemma_cancel, vadd, Backend, ButterflyKernels};
use crate::pack::{elem_bytes, law_elements_determine_bytes, lemma_elem_bytes, unpack};
use crate::poly::{is_dense, lemma_dense_value, poly_value};
use crate::span::{
    is_span, lemma_span_add, lemma_span_injective, lemma_span_limits, lemma_span_monotone,
    lemma_xor_span, log_of, size_of_log, span,
};
use crate::subspace::{
    combine, independent, law_subspace_polynomial_vanishes_exactly, law_sums_are_distinct,
    lemma_subspace_additive, lemma_subspace_coefficients, lemma_subspace_zero,
    normalized_coefficients, spans, subspace, subspace_coefficients,
};
use crate::transform::accept::{law_row_geometry, law_selections, law_spans_are_powers_of_two};
use crate::transform::derivative::{
    derivative_into_bytes_gather_rows, derivative_into_bytes_overwrite_node,
    derivative_into_bytes_sweep_node, derivative_into_values, derivative_model,
    derivative_plus_identity_node,
};
use crate::transform::factors::{evaluate_linearized, monic_subspace_polynomial, FactorTable};
use crate::transform::lanes::{lane_of, law_forward_by_lanes};
use crate::transform::laws::{
    agree_to, law_forward_of_zero, law_truncated_inverse_recovers, lemma_pruned_row_final,
    lemma_truncated_row_final, recovers, row_final, zero_from,
};
use crate::transform::model::{
    forward_model, heap_holds, inverse_model, law_forward_undoes_inverse,
    law_inverse_undoes_forward, lemma_forward_len, lemma_halves_span, pruned_model,
    truncated_inverse_model, truncated_model,
};
use crate::transform::novel::{domain_point, law_forward_evaluates, novel_value, twiddles};
use crate::transform::walk::{
    forward_bytes_node, forward_bytes_range_node, forward_bytes_selected_node,
    forward_bytes_truncated_range_node, forward_node, inverse_bytes_node,
    inverse_bytes_truncated_node, inverse_node, lanes_of, lemma_rows, lemma_scratch_rows, rows_fit,
    scratch_rows,
};

verus! {

/// Largest supported transform dimension: `2^MAX_LOG_SIZE` points.
pub const MAX_LOG_SIZE: usize = 20;

/// The largest dimension of a domain of the field.
pub open spec fn domain_cap<F: BinaryField>() -> nat {
    if F::width() < MAX_LOG_SIZE {
        F::width() as nat
    } else {
        MAX_LOG_SIZE as nat
    }
}

/// The error for a requested transform size, if it is not supported.
pub open spec fn size_error<F: BinaryField>(size: usize) -> Option<PlanError> {
    if !is_span(size as nat) {
        Some(PlanError::InvalidSize { size })
    } else {
        let log_size = log2(size as nat);
        if log_size > domain_cap::<F>() {
            Some(
                PlanError::DomainTooLarge {
                    log_size: log_size as usize,
                    cap: domain_cap::<F>() as usize,
                },
            )
        } else {
            None
        }
    }
}

/// The base-two logarithm of a power of two.
pub open spec fn log2(size: nat) -> nat {
    choose|k: nat| #[trigger] span(k) == size
}

/// Validate a requested transform size, giving its base-two logarithm.
pub(crate) fn validate_size<F: BinaryField>(size: usize) -> (r: Result<usize, PlanError>)
    ensures
        match size_error::<F>(size) {
            Some(e) => r == Err::<usize, PlanError>(e),
            None => r matches Ok(k) && span(k as nat) == size && k <= MAX_LOG_SIZE && k
                <= F::width(),
        },
{
    match log_of(size) {
        None => Err(PlanError::InvalidSize { size }),
        Some(log_size) => {
            proof {
                lemma_span_injective(log_size as nat, log2(size as nat));
                F::lemma_width();
            }
            let width: usize = F::bytes() * 8;
            let cap: usize = if width < MAX_LOG_SIZE {
                width
            } else {
                MAX_LOG_SIZE
            };
            if log_size > cap {
                Err(PlanError::DomainTooLarge { log_size, cap })
            } else {
                Ok(log_size)
            }
        },
    }
}

/// The first `n` elements of the bit basis: element `i` has the bit pattern `2^i`.
pub open spec fn bit_basis<F: BinaryField>(n: nat) -> Seq<F::Elem> {
    Seq::new(n, |i: int| F::of_raw(span(i as nat) as u64))
}

pub proof fn lemma_width_span<F: BinaryField>()
    ensures
        span(F::width() as nat) == mask(F::width()) + 1,
        8 <= F::width() <= 64,
{
    F::lemma_width();
    reveal_with_fuel(span, 9);
    assert(span(8) == 0x100);
    lemma_span_add(8, 8);
    lemma_span_add(16, 16);
    assert(0x100int * 0x100 == 0x1_0000 && 0x1_0000int * 0x1_0000 == 0x1_0000_0000);
    lemma_span_limits();
}

/// The element of index `index` of the bit basis.
pub(crate) fn bit_basis_element<F: BinaryField>(index: usize) -> (e: F::Elem)
    requires
        index < F::width(),
    ensures
        e == F::of_raw(span(index as nat) as u64),
        F::raw(e) == span(index as nat),
{
    proof {
        lemma_width_span::<F>();
        lemma_span_monotone(index as nat, F::width() as nat);
    }
    let bits = size_of_log(index);
    let e = F::from_bits(bits);
    proof {
        F::lemma_raw(e, bits);
    }
    e
}

/// The first `count` elements of the bit basis.
pub(crate) fn bit_basis_elements<F: BinaryField>(count: usize) -> (r: Vec<F::Elem>)
    requires
        count <= F::width(),
    ensures
        r@ == bit_basis::<F>(count as nat),
{
    let mut r: Vec<F::Elem> = Vec::with_capacity(count);
    let mut i: usize = 0;
    while i < count
        invariant
            i <= count <= F::width(),
            r@.len() == i,
            forall|j: int| 0 <= j < i ==> #[trigger] r@[j] == bit_basis::<F>(count as nat)[j],
        decreases count - i,
    {
        r.push(bit_basis_element::<F>(i));
        i = i + 1;
    }
    assert(r@ =~= bit_basis::<F>(count as nat));
    r
}

/// Under the bit basis, the sum selected by `i` has the bit pattern `i`.
pub proof fn law_bit_basis_points<F: BinaryField>(n: nat, dim: nat, i: int)
    requires
        dim <= n <= F::width(),
        0 <= i < span(dim),
    ensures
        F::raw(combine::<F>(bit_basis::<F>(n), dim, i)) == i,
    decreases dim,
{
    let basis = bit_basis::<F>(n);
    if dim == 0 {
        lemma_raw_add::<F>(fzero::<F>(), fzero::<F>());
    } else {
        let d = (dim - 1) as nat;
        if i < span(d) {
            law_bit_basis_points::<F>(n, d, i);
        } else {
            let j = i - span(d);
            law_bit_basis_points::<F>(n, d, j);
            lemma_width_span::<F>();
            lemma_span_monotone(d, F::width() as nat);
            let c = combine::<F>(basis, d, j);
            let b = basis[d as int];
            F::lemma_raw(b, span(d) as u64);
            lemma_raw_add::<F>(c, b);
            lemma_xor_span(j as u64, d);
        }
    }
}

/// The bit basis is independent.
pub proof fn law_bit_basis_is_independent<F: BinaryField>(n: nat)
    requires
        n <= F::width(),
    ensures
        independent::<F>(bit_basis::<F>(n), n),
{
    let basis = bit_basis::<F>(n);
    assert forall|k: int| 0 <= k < n implies !spans::<F>(basis, k as nat, #[trigger] basis[k]) by {
        if spans::<F>(basis, k as nat, basis[k]) {
            let i = choose|i: int|
                0 <= i < span(k as nat) && #[trigger] combine::<F>(basis, k as nat, i) == basis[k];
            law_bit_basis_points::<F>(n, k as nat, i);
            lemma_width_span::<F>();
            lemma_span_monotone(k as nat, F::width() as nat);
            F::lemma_raw(basis[k], span(k as nat) as u64);
        }
    }
}

/// The error for a packed buffer of `len` bytes that should hold `rows` rows of
/// `row_len` bytes, if its geometry is not valid.
pub open spec fn geometry_error<F: BinaryField>(
    len: usize,
    row_len: usize,
    rows: usize,
) -> Option<TransformError> {
    if row_len == 0 || row_len as int % (elem_bytes::<F>() as int) != 0 {
        Some(
            TransformError::InvalidRowLength {
                row_len,
                element_bytes: elem_bytes::<F>() as usize,
            },
        )
    } else if rows * row_len > usize::MAX {
        Some(TransformError::GeometryOverflow)
    } else if len != rows * row_len {
        Some(TransformError::BufferLength { expected: (rows * row_len) as usize, got: len })
    } else {
        None
    }
}

/// Validate the geometry of a packed buffer.
pub(crate) fn check_geometry<F: BinaryField>(
    len: usize,
    row_len: usize,
    rows: usize,
) -> (r: Result<(), TransformError>)
    ensures
        match geometry_error::<F>(len, row_len, rows) {
            Some(e) => r == Err::<(), TransformError>(e),
            None => r is Ok,
        },
{
    let element_bytes = F::bytes();
    proof {
        lemma_elem_bytes::<F>();
    }
    if row_len == 0 || row_len % element_bytes != 0 {
        return Err(TransformError::InvalidRowLength { row_len, element_bytes });
    }
    match rows.checked_mul(row_len) {
        None => Err(TransformError::GeometryOverflow),
        Some(expected) => {
            if len != expected {
                Err(TransformError::BufferLength { expected, got: len })
            } else {
                Ok(())
            }
        },
    }
}

/// Whether `selected` is strictly increasing and below `size`.
pub open spec fn valid_selection(selected: Seq<usize>, size: nat) -> bool {
    &&& forall|i: int| 0 <= i < selected.len() ==> #[trigger] selected[i] < size
    &&& forall|i: int, j: int| 0 <= i < j < selected.len() ==> selected[i] < selected[j]
}

fn check_selection(selected: &[usize], size: usize) -> (valid: bool)
    ensures
        valid == valid_selection(selected@, size as nat),
{
    let len: usize = selected.len();
    let mut i: usize = 0;
    while i < len
        invariant
            i <= len,
            len == selected@.len(),
            forall|j: int| 0 <= j < i ==> #[trigger] selected@[j] < size,
            forall|j: int, k: int| 0 <= j < k < i ==> selected@[j] < selected@[k],
        decreases len - i,
    {
        if selected[i] >= size {
            return false;
        }
        if i > 0 {
            if selected[i - 1] >= selected[i] {
                assert(!(selected@[i - 1] < selected@[i as int]));
                return false;
            }
        }
        i = i + 1;
    }
    true
}

/// A reusable additive-transform plan for a power-of-two number of points.
///
/// The domain is `shift + span(basis)`; point `i` is the shift plus the sum of
/// the basis elements at the set bits of `i`.
#[derive(Clone, Debug)]
pub struct TransformPlan<F: ButterflyKernels> {
    size: usize,
    log_size: usize,
    table: FactorTable<F>,
    basis: Vec<F::Elem>,
    shift: F::Elem,
    origin: F::Elem,
    selected: Backend,
}

/// A common offset drops out of a sum.
proof fn lemma_same_offset<F: BinaryField>(o: F::Elem, x: F::Elem, y: F::Elem)
    ensures
        fadd::<F>(fadd::<F>(o, x), fadd::<F>(o, y)) == fadd::<F>(x, y),
{
    lemma_add::<F>(o, x, fadd::<F>(o, y));
    lemma_add::<F>(x, o, fadd::<F>(o, y));
    lemma_cancel::<F>(o, y);
    lemma_cancel::<F>(o, fadd::<F>(x, y));
    lemma_add::<F>(x, o, y);
    lemma_add::<F>(o, x, y);
}

impl<F: ButterflyKernels> TransformPlan<F> {
    /// The dimension of the domain.
    pub closed spec fn dim(&self) -> nat {
        self.log_size as nat
    }

    /// The ordered basis of the domain.
    pub closed spec fn domain_basis(&self) -> Seq<F::Elem> {
        self.basis@
    }

    /// The coset shift of the domain.
    pub closed spec fn domain_shift(&self) -> F::Elem {
        self.shift
    }

    /// The twiddle heap.
    pub closed spec fn heap(&self) -> Seq<F::Elem> {
        self.table.heap()
    }

    /// The derivative constants.
    pub closed spec fn slopes(&self) -> Seq<F::Elem> {
        self.table.slopes()
    }

    /// The element that the plan reports for point zero: the shift, or zero if the
    /// plan reports its points without the shift.
    pub closed spec fn origin(&self) -> F::Elem {
        self.origin
    }

    /// The element that the plan reports for point `i`.
    pub open spec fn label(&self, i: int) -> F::Elem {
        domain_point::<F>(self.domain_basis(), self.origin(), self.dim(), i)
    }

    /// Point `i` of the domain.
    pub open spec fn point(&self, i: int) -> F::Elem {
        domain_point::<F>(self.domain_basis(), self.domain_shift(), self.dim(), i)
    }

    /// The plan's invariant: the basis is independent, and the tables are those of
    /// the domain.
    pub closed spec fn wf(&self) -> bool {
        &&& self.size == span(self.log_size as nat)
        &&& self.log_size <= MAX_LOG_SIZE
        &&& self.log_size <= F::width()
        &&& self.basis@.len() == self.log_size
        &&& independent::<F>(self.basis@, self.log_size as nat)
        &&& self.table.describes(self.basis@, self.log_size as nat, self.shift)
        &&& self.origin == self.shift || self.origin == fzero::<F>()
    }

    /// What the invariant says, for readers outside this module.
    pub proof fn lemma_wf(&self)
        requires
            self.wf(),
        ensures
            self.dim() <= domain_cap::<F>(),
            self.origin() == self.domain_shift() || self.origin() == fzero::<F>(),
            span(self.dim()) <= 0x10_0000,
            self.domain_basis().len() == self.dim(),
            independent::<F>(self.domain_basis(), self.dim()),
            self.heap().len() == span(self.dim()),
            heap_holds(self.heap().len(), 1, self.dim()),
            twiddles::<F>(self.heap(), self.domain_basis(), 1, self.dim(), self.domain_shift()),
            self.slopes().len() == self.dim(),
            forall|j: int|
                0 <= j < self.dim() ==> #[trigger] self.slopes()[j] == normalized_coefficients::<F>(
                    self.domain_basis(),
                    j as nat,
                )[0],
    {
        self.table.lemma_describes(self.basis@, self.log_size as nat, self.shift);
        lemma_span_limits();
        lemma_span_monotone(self.dim(), 20);
    }

    /// The forward transform of the plan evaluates: on `2^dim` rows of `lanes`
    /// elements, row `i` of a lane is the value at point `i` of the polynomial
    /// whose novel-basis coefficients are the lane.
    pub proof fn law_forward_evaluates_lanes(
        &self,
        v: Seq<F::Elem>,
        lanes: nat,
        lane: int,
        i: int,
    )
        requires
            self.wf(),
            v.len() == span(self.dim()) * lanes,
            0 <= lane < lanes,
            0 <= i < span(self.dim()),
        ensures
            forward_model::<F>(v, self.heap(), 1, self.dim())[i * lanes + lane] == novel_value::<F>(
                self.domain_basis(),
                lane_of(v, span(self.dim()), lanes, lane),
                self.dim(),
                self.point(i),
            ),
    {
        self.lemma_wf();
        let c = lane_of(v, span(self.dim()), lanes, lane);
        law_forward_by_lanes::<F>(v, self.heap(), 1, self.dim(), lanes, lane);
        law_forward_evaluates::<F>(
            c,
            self.heap(),
            self.domain_basis(),
            self.domain_shift(),
            1,
            self.dim(),
            i,
        );
        let out = forward_model::<F>(v, self.heap(), 1, self.dim());
        assert(lane_of(out, span(self.dim()), lanes, lane)[i] == out[i * lanes + lane]);
    }

    /// Points differ by what the elements that are reported for them differ by.
    pub proof fn law_labels_keep_differences(&self, i: int, j: int)
        ensures
            fadd::<F>(self.label(i), self.label(j)) == fadd::<F>(self.point(i), self.point(j)),
    {
        let x = combine::<F>(self.domain_basis(), self.dim(), i);
        let y = combine::<F>(self.domain_basis(), self.dim(), j);
        lemma_same_offset::<F>(self.origin(), x, y);
        lemma_same_offset::<F>(self.domain_shift(), x, y);
    }

    /// The points of a plan are distinct.
    pub proof fn law_points_are_distinct(&self, i: int, j: int)
        requires
            self.wf(),
            0 <= i < j < span(self.dim()),
        ensures
            self.point(i) != self.point(j),
    {
        self.lemma_wf();
        law_sums_are_distinct::<F>(self.domain_basis(), self.dim(), i, j);
        let (s, x, y) = (
            self.domain_shift(),
            combine::<F>(self.domain_basis(), self.dim(), i),
            combine::<F>(self.domain_basis(), self.dim(), j),
        );
        lemma_add::<F>(s, s, x);
        lemma_add::<F>(s, s, y);
        lemma_add::<F>(x, x, x);
        lemma_add::<F>(y, y, y);
    }

    /// The derivative does not depend on the coset: plans over the same basis have
    /// the same derivative constants.
    pub proof fn law_derivative_ignores_the_shift(&self, other: &Self, v: Seq<F::Elem>)
        requires
            self.wf(),
            other.wf(),
            self.dim() == other.dim(),
            self.domain_basis() == other.domain_basis(),
        ensures
            derivative_model::<F>(v, self.slopes(), self.dim()) == derivative_model::<F>(
                v,
                other.slopes(),
                other.dim(),
            ),
    {
        self.lemma_wf();
        other.lemma_wf();
        assert(self.slopes() =~= other.slopes());
    }

    /// Byte rows come back: the inverse transform of the forward transform of a
    /// buffer is the buffer, and so is the forward transform of the inverse.
    pub proof fn law_byte_rows_round_trip(
        &self,
        before: Seq<u8>,
        middle: Seq<u8>,
        after: Seq<u8>,
        row_len: usize,
    )
        requires
            self.wf(),
            before.len() <= usize::MAX,
            self.rows_error(before.len() as usize, row_len) is None,
            middle.len() == before.len(),
            after.len() == before.len(),
            ({
                ||| unpack::<F>(middle) == forward_model::<F>(
                    unpack::<F>(before),
                    self.heap(),
                    1,
                    self.dim(),
                ) && unpack::<F>(after) == inverse_model::<F>(
                    unpack::<F>(middle),
                    self.heap(),
                    1,
                    self.dim(),
                )
                ||| unpack::<F>(middle) == inverse_model::<F>(
                    unpack::<F>(before),
                    self.heap(),
                    1,
                    self.dim(),
                ) && unpack::<F>(after) == forward_model::<F>(
                    unpack::<F>(middle),
                    self.heap(),
                    1,
                    self.dim(),
                )
            }),
        ensures
            after == before,
    {
        self.lemma_wf();
        lemma_rows::<F>(before, row_len as nat, self.dim());
        law_inverse_undoes_forward::<F>(unpack::<F>(before), self.heap(), 1, self.dim());
        law_forward_undoes_inverse::<F>(unpack::<F>(before), self.heap(), 1, self.dim());
        law_elements_determine_bytes::<F>(after, before);
    }

    /// Construct a plan over the bit basis.
    pub fn new(size: usize) -> (r: Result<Self, PlanError>)
        ensures
            match size_error::<F>(size) {
                Some(e) => r matches Err(x) && x == e,
                None => {
                    &&& r matches Ok(plan)
                    &&& plan.wf()
                    &&& span(plan.dim()) == size
                    &&& plan.domain_basis() == bit_basis::<F>(plan.dim())
                    &&& plan.domain_shift() == fzero::<F>()
                    &&& plan.origin() == fzero::<F>()
                },
            },
    {
        let log_size = match validate_size::<F>(size) {
            Ok(k) => k,
            Err(e) => {
                return Err(e);
            },
        };
        proof {
            law_bit_basis_is_independent::<F>(log_size as nat);
        }
        let basis = bit_basis_elements::<F>(log_size);
        Self::construct(size, log_size, basis, zero::<F>(), zero::<F>())
    }

    /// Construct a plan over a custom ordered basis: the first `log2(size)`
    /// elements of `basis` define the domain.
    pub fn with_basis(size: usize, basis: &[F::Elem]) -> (r: Result<Self, PlanError>)
        ensures
            match domain_error::<F>(size, basis@) {
                Some(e) => r matches Err(x) && x == e,
                None => {
                    &&& r matches Ok(plan)
                    &&& plan.wf()
                    &&& span(plan.dim()) == size
                    &&& plan.domain_basis() == basis@.subrange(0, plan.dim() as int)
                    &&& plan.domain_shift() == fzero::<F>()
                    &&& plan.origin() == fzero::<F>()
                },
            },
    {
        Self::with_shift(size, basis, zero::<F>())
    }

    /// Construct a plan whose domain is the affine coset `shift + span(basis)` of
    /// the first `log2(size)` basis elements.
    pub fn with_shift(size: usize, basis: &[F::Elem], shift: F::Elem) -> (r: Result<
        Self,
        PlanError,
    >)
        ensures
            match domain_error::<F>(size, basis@) {
                Some(e) => r matches Err(x) && x == e,
                None => {
                    &&& r matches Ok(plan)
                    &&& plan.wf()
                    &&& span(plan.dim()) == size
                    &&& plan.domain_basis() == basis@.subrange(0, plan.dim() as int)
                    &&& plan.domain_shift() == shift
                    &&& plan.origin() == shift
                },
            },
    {
        Self::over_coset(size, basis, shift, shift)
    }

    /// Construct a plan over the affine coset `shift + span(basis)` that reports its
    /// points without the shift.
    pub fn with_basis_shift(size: usize, basis: &[F::Elem], shift: F::Elem) -> (r: Result<
        Self,
        PlanError,
    >)
        ensures
            match domain_error::<F>(size, basis@) {
                Some(e) => r matches Err(x) && x == e,
                None => {
                    &&& r matches Ok(plan)
                    &&& plan.wf()
                    &&& span(plan.dim()) == size
                    &&& plan.domain_basis() == basis@.subrange(0, plan.dim() as int)
                    &&& plan.domain_shift() == shift
                    &&& plan.origin() == fzero::<F>()
                },
            },
    {
        Self::over_coset(size, basis, shift, zero::<F>())
    }

    /// Construct a plan over a coset whose points are reported from `origin` on.
    fn over_coset(size: usize, basis: &[F::Elem], shift: F::Elem, origin: F::Elem) -> (r: Result<
        Self,
        PlanError,
    >)
        requires
            origin == shift || origin == fzero::<F>(),
        ensures
            match domain_error::<F>(size, basis@) {
                Some(e) => r matches Err(x) && x == e,
                None => {
                    &&& r matches Ok(plan)
                    &&& plan.wf()
                    &&& span(plan.dim()) == size
                    &&& plan.domain_basis() == basis@.subrange(0, plan.dim() as int)
                    &&& plan.domain_shift() == shift
                    &&& plan.origin() == origin
                },
            },
    {
        let log_size = match validate_size::<F>(size) {
            Ok(k) => k,
            Err(e) => {
                return Err(e);
            },
        };
        proof {
            lemma_span_injective(log_size as nat, log2(size as nat));
        }
        if basis.len() < log_size {
            return Err(PlanError::BasisTooShort { needed: log_size, got: basis.len() });
        }
        let mut prefix: Vec<F::Elem> = Vec::with_capacity(log_size);
        let mut i: usize = 0;
        while i < log_size
            invariant
                i <= log_size <= basis@.len(),
                prefix@ == basis@.subrange(0, i as int),
            decreases log_size - i,
        {
            prefix.push(basis[i]);
            i = i + 1;
            assert(prefix@ =~= basis@.subrange(0, i as int));
        }
        Self::construct(size, log_size, prefix, shift, origin)
    }

    fn construct(
        size: usize,
        log_size: usize,
        basis: Vec<F::Elem>,
        shift: F::Elem,
        origin: F::Elem,
    ) -> (r: Result<Self, PlanError>)
        requires
            origin == shift || origin == fzero::<F>(),
            size == span(log_size as nat),
            log_size <= MAX_LOG_SIZE,
            log_size <= F::width(),
            basis@.len() == log_size,
        ensures
            r is Ok <==> independent::<F>(basis@, log_size as nat),
            r matches Ok(plan) ==> {
                &&& plan.wf()
                &&& plan.dim() == log_size
                &&& plan.domain_basis() == basis@
                &&& plan.domain_shift() == shift
                &&& plan.origin() == origin
            },
            r matches Err(e) ==> e == PlanError::DependentBasis,
    {
        match FactorTable::<F>::build(log_size, basis.as_slice(), shift) {
            None => Err(PlanError::DependentBasis),
            Some(table) => Ok(
                TransformPlan {
                    size,
                    log_size,
                    table,
                    basis,
                    shift,
                    origin,
                    selected: backend_for::<F>(),
                },
            ),
        }
    }

    /// Number of transform points.
    pub fn size(&self) -> (r: usize)
        requires
            self.wf(),
        ensures
            r == span(self.dim()),
    {
        self.size
    }

    /// Base-two logarithm of the number of transform points.
    pub fn log_size(&self) -> (r: usize)
        ensures
            r == self.dim(),
    {
        self.log_size
    }

    /// The ordered basis that defines the domain.
    pub fn basis(&self) -> (r: &[F::Elem])
        ensures
            r@ == self.domain_basis(),
    {
        self.basis.as_slice()
    }

    /// The coset shift of the domain.
    pub fn shift(&self) -> (r: F::Elem)
        ensures
            r == self.domain_shift(),
    {
        self.shift
    }

    /// The plan's twiddle and derivative tables.
    pub fn table(&self) -> (r: &FactorTable<F>)
        ensures
            r.heap() == self.heap(),
            r.slopes() == self.slopes(),
    {
        &self.table
    }

    /// Coefficients of the normalized subspace polynomial of dimension
    /// `dimension`, low exponent first.
    pub fn normalized_subspace_polynomial(&self, dimension: usize) -> (r: &[F::Elem])
        requires
            self.wf(),
            dimension < self.dim(),
        ensures
            r@ == normalized_coefficients::<F>(self.domain_basis(), dimension as nat),
    {
        proof {
            self.table.lemma_polynomials(self.basis@, self.log_size as nat, self.shift);
            assert(self.table.normal_form(dimension as int).describes(
                self.basis@,
                dimension as nat,
            ));
        }
        self.table.polynomial(dimension).normalized_coefficients.as_slice()
    }

    /// The field element that the plan reports for transform point `index`: its
    /// origin plus the sum of the basis elements at the set bits of `index`.
    pub fn point_element(&self, index: usize) -> (r: F::Elem)
        requires
            self.wf(),
            index < span(self.dim()),
        ensures
            r == self.label(index as int),
    {
        let sum = crate::basis::combine_elements::<F>(self.basis.as_slice(), self.log_size, index);
        plus::<F>(self.origin, sum)
    }

    /// The field element that the plan reports for every point, in transform order.
    pub fn points(&self) -> (r: Vec<F::Elem>)
        requires
            self.wf(),
        ensures
            r@ == Seq::new(span(self.dim()), |i: int| self.label(i)),
    {
        let mut r: Vec<F::Elem> = Vec::with_capacity(self.size);
        let mut i: usize = 0;
        while i < self.size
            invariant
                self.wf(),
                i <= self.size,
                self.size == span(self.dim()),
                r@.len() == i,
                forall|j: int| 0 <= j < i ==> #[trigger] r@[j] == self.label(j),
            decreases self.size - i,
        {
            r.push(self.point_element(i));
            i = i + 1;
        }
        assert(r@ =~= Seq::new(span(self.dim()), |i: int| self.label(i)));
        r
    }

    /// Evaluate novel-basis coefficients at the plan's points, in place.
    pub fn forward(&self, values: &mut [F::Elem]) -> (r: Result<(), TransformError>)
        requires
            self.wf(),
        ensures
            final(values)@.len() == old(values)@.len(),
            old(values)@.len() == span(self.dim()) ==> {
                &&& r is Ok
                &&& final(values)@ == forward_model::<F>(old(values)@, self.heap(), 1, self.dim())
                &&& forall|i: int|
                    0 <= i < span(self.dim()) ==> #[trigger] final(values)@[i] == novel_value::<F>(
                        self.domain_basis(),
                        old(values)@,
                        self.dim(),
                        self.point(i),
                    )
            },
            old(values)@.len() != span(self.dim()) ==> {
                &&& r == Err::<(), TransformError>(
                    TransformError::BufferLength {
                        expected: span(self.dim()) as usize,
                        got: old(values)@.len() as usize,
                    },
                )
                &&& final(values)@ == old(values)@
            },
    {
        let got: usize = values.len();
        if got != self.size {
            return Err(TransformError::BufferLength { expected: self.size, got });
        }
        let ghost v = values@;
        proof {
            self.lemma_wf();
            lemma_halves_span(self.dim(), 1);
            lemma_forward_len::<F>(v, self.heap(), 1, self.dim());
            assert forall|i: int| 0 <= i < span(self.dim()) implies #[trigger] forward_model::<F>(
                v,
                self.heap(),
                1,
                self.dim(),
            )[i] == novel_value::<F>(self.domain_basis(), v, self.dim(), self.point(i)) by {
                law_forward_evaluates::<F>(
                    v,
                    self.heap(),
                    self.domain_basis(),
                    self.domain_shift(),
                    1,
                    self.dim(),
                    i,
                );
            }
        }
        if self.log_size != 0 {
            forward_node::<F>(values, self.table.factors(), 1, self.log_size);
        }
        Ok(())
    }

    /// Convert evaluations at the plan's points back to novel-basis coefficients,
    /// in place.
    pub fn inverse(&self, values: &mut [F::Elem]) -> (r: Result<(), TransformError>)
        requires
            self.wf(),
        ensures
            final(values)@.len() == old(values)@.len(),
            old(values)@.len() == span(self.dim()) ==> {
                &&& r is Ok
                &&& final(values)@ == inverse_model::<F>(old(values)@, self.heap(), 1, self.dim())
                &&& forall|i: int|
                    0 <= i < span(self.dim()) ==> #[trigger] old(values)@[i] == novel_value::<F>(
                        self.domain_basis(),
                        final(values)@,
                        self.dim(),
                        self.point(i),
                    )
            },
            old(values)@.len() != span(self.dim()) ==> {
                &&& r == Err::<(), TransformError>(
                    TransformError::BufferLength {
                        expected: span(self.dim()) as usize,
                        got: old(values)@.len() as usize,
                    },
                )
                &&& final(values)@ == old(values)@
            },
    {
        let got: usize = values.len();
        if got != self.size {
            return Err(TransformError::BufferLength { expected: self.size, got });
        }
        let ghost v = values@;
        proof {
            self.lemma_wf();
            lemma_halves_span(self.dim(), 1);
            let u = inverse_model::<F>(v, self.heap(), 1, self.dim());
            crate::transform::model::lemma_inverse_len::<F>(v, self.heap(), 1, self.dim());
            crate::transform::model::law_forward_undoes_inverse::<F>(
                v,
                self.heap(),
                1,
                self.dim(),
            );
            assert forall|i: int| 0 <= i < span(self.dim()) implies #[trigger] v[i] == novel_value::<
                F,
            >(self.domain_basis(), u, self.dim(), self.point(i)) by {
                law_forward_evaluates::<F>(
                    u,
                    self.heap(),
                    self.domain_basis(),
                    self.domain_shift(),
                    1,
                    self.dim(),
                    i,
                );
            }
        }
        if self.log_size != 0 {
            inverse_node::<F>(values, self.table.factors(), 1, self.log_size);
        }
        Ok(())
    }
}

impl<F: ButterflyKernels> TransformPlan<F> {
    /// The error for `rows` of the plan's size, if their geometry is not valid.
    pub open spec fn rows_error(&self, len: usize, row_len: usize) -> Option<TransformError> {
        geometry_error::<F>(len, row_len, span(self.dim()) as usize)
    }

    fn check_len_bytes(&self, got: usize, row_len: usize) -> (r: Result<(), TransformError>)
        requires
            self.wf(),
        ensures
            match self.rows_error(got, row_len) {
                Some(e) => r == Err::<(), TransformError>(e),
                None => {
                    &&& r is Ok
                    &&& rows_fit::<F>(got as nat, row_len as nat, self.dim())
                },
            },
    {
        check_geometry::<F>(got, row_len, self.size)
    }

    /// Forward transform over packed byte rows: row `i` holds the payload of
    /// transform point `i`; every lane is transformed independently.
    pub fn forward_bytes(&self, rows: &mut [u8], row_len: usize) -> (r: Result<(), TransformError>)
        requires
            self.wf(),
        ensures
            final(rows)@.len() == old(rows)@.len(),
            match self.rows_error(old(rows)@.len() as usize, row_len) {
                Some(e) => r == Err::<(), TransformError>(e) && final(rows)@ == old(rows)@,
                None => r is Ok && unpack::<F>(final(rows)@) == forward_model::<F>(
                    unpack::<F>(old(rows)@),
                    self.heap(),
                    1,
                    self.dim(),
                ),
            },
            row_len > 0 && (8 * row_len) % F::width() as int == 0 && old(rows)@.len() == span(self.dim())
                * row_len ==> r is Ok,
    {
        proof {
            self.lemma_wf();
            law_row_geometry::<F>(rows.len(), row_len, span(self.dim()) as usize);
        }
        match self.check_len_bytes(rows.len(), row_len) {
            Ok(_) => {},
            Err(e) => {
                return Err(e);
            },
        }
        proof {
            self.lemma_wf();
            lemma_rows::<F>(rows@, row_len as nat, self.dim());
        }
        if self.log_size != 0 {
            forward_bytes_node::<F>(self.selected, rows, self.table.factors(), 1, self.log_size);
        }
        Ok(())
    }

    /// Inverse transform over packed byte rows.
    pub fn inverse_bytes(&self, rows: &mut [u8], row_len: usize) -> (r: Result<(), TransformError>)
        requires
            self.wf(),
        ensures
            final(rows)@.len() == old(rows)@.len(),
            match self.rows_error(old(rows)@.len() as usize, row_len) {
                Some(e) => r == Err::<(), TransformError>(e) && final(rows)@ == old(rows)@,
                None => r is Ok && unpack::<F>(final(rows)@) == inverse_model::<F>(
                    unpack::<F>(old(rows)@),
                    self.heap(),
                    1,
                    self.dim(),
                ),
            },
            row_len > 0 && (8 * row_len) % F::width() as int == 0 && old(rows)@.len() == span(self.dim())
                * row_len ==> r is Ok,
    {
        proof {
            self.lemma_wf();
            law_row_geometry::<F>(rows.len(), row_len, span(self.dim()) as usize);
        }
        match self.check_len_bytes(rows.len(), row_len) {
            Ok(_) => {},
            Err(e) => {
                return Err(e);
            },
        }
        proof {
            self.lemma_wf();
            lemma_rows::<F>(rows@, row_len as nat, self.dim());
        }
        if self.log_size != 0 {
            inverse_bytes_node::<F>(self.selected, rows, self.table.factors(), 1, self.log_size);
        }
        Ok(())
    }

    /// Formal derivative of the novel-basis coefficient vector, out of place.
    pub fn derivative_into(&self, derivative: &mut [F::Elem], coefficients: &[F::Elem]) -> (r:
        Result<(), TransformError>)
        requires
            self.wf(),
        ensures
            final(derivative)@.len() == old(derivative)@.len(),
            ({
                let n = span(self.dim());
                let d = old(derivative)@.len();
                let c = coefficients@.len();
                if d != n || c != n {
                    &&& r == Err::<(), TransformError>(
                        TransformError::BufferLength {
                            expected: n as usize,
                            got: (if d != n {
                                d
                            } else {
                                c
                            }) as usize,
                        },
                    )
                    &&& final(derivative)@ == old(derivative)@
                } else {
                    &&& r is Ok
                    &&& final(derivative)@ == derivative_model::<F>(
                        coefficients@,
                        self.slopes(),
                        self.dim(),
                    )
                }
            }),
    {
        let got: usize = derivative.len();
        if got != self.size {
            return Err(TransformError::BufferLength { expected: self.size, got });
        }
        let got: usize = coefficients.len();
        if got != self.size {
            return Err(TransformError::BufferLength { expected: self.size, got });
        }
        proof {
            self.lemma_wf();
        }
        derivative_into_values::<F>(
            derivative,
            coefficients,
            self.table.derivative_factors(),
            self.log_size,
        );
        Ok(())
    }

    /// The error for a derivative over packed rows, if the geometry of either
    /// buffer is not valid: the coefficients are checked first.
    pub open spec fn derivative_error(
        &self,
        derivative: usize,
        row_len: usize,
        coefficients: usize,
    ) -> Option<TransformError> {
        match self.rows_error(coefficients, row_len) {
            Some(e) => Some(e),
            None => self.rows_error(derivative, row_len),
        }
    }

    fn check_derivative(&self, derivative: usize, row_len: usize, coefficients: usize) -> (r: Result<
        (),
        TransformError,
    >)
        requires
            self.wf(),
        ensures
            match self.derivative_error(derivative, row_len, coefficients) {
                Some(e) => r == Err::<(), TransformError>(e),
                None => {
                    &&& r is Ok
                    &&& rows_fit::<F>(coefficients as nat, row_len as nat, self.dim())
                    &&& derivative == coefficients
                },
            },
    {
        match self.check_len_bytes(coefficients, row_len) {
            Ok(_) => self.check_len_bytes(derivative, row_len),
            Err(e) => Err(e),
        }
    }

    /// Formal derivative over packed byte rows, out of place, on the schedule
    /// that suits the row length.
    pub fn derivative_into_bytes(
        &self,
        derivative: &mut [u8],
        row_len: usize,
        coefficients: &[u8],
    ) -> (r: Result<(), TransformError>)
        requires
            self.wf(),
        ensures
            final(derivative)@.len() == old(derivative)@.len(),
            match self.derivative_error(
                old(derivative)@.len() as usize,
                row_len,
                coefficients@.len() as usize,
            ) {
                Some(e) => r == Err::<(), TransformError>(e) && final(derivative)@ == old(
                    derivative,
                )@,
                None => r is Ok && unpack::<F>(final(derivative)@) == derivative_model::<F>(
                    unpack::<F>(coefficients@),
                    self.slopes(),
                    self.dim(),
                ),
            },
            row_len > 0 && (8 * row_len) % F::width() as int == 0 && old(derivative)@.len() == span(self.dim())
                * row_len && coefficients@.len() == old(derivative)@.len() ==> r is Ok,
    {
        proof {
            self.law_byte_rows_are_taken(coefficients.len(), row_len, derivative.len());
            law_spans_are_powers_of_two(self.dim());
        }
        match derivative_schedule::<F>(self.selected, row_len) {
            DerivativeSchedule::Gather => self.derivative_into_bytes_gather(
                derivative,
                row_len,
                coefficients,
            ),
            DerivativeSchedule::Overwrite => self.derivative_into_bytes_overwrite(
                derivative,
                row_len,
                coefficients,
            ),
            DerivativeSchedule::Sweep => self.derivative_into_bytes_sweep(
                derivative,
                row_len,
                coefficients,
            ),
        }
    }

    /// Formal derivative over packed byte rows by an ascending sweep over the
    /// source blocks.
    pub fn derivative_into_bytes_sweep(
        &self,
        derivative: &mut [u8],
        row_len: usize,
        coefficients: &[u8],
    ) -> (r: Result<(), TransformError>)
        requires
            self.wf(),
        ensures
            final(derivative)@.len() == old(derivative)@.len(),
            match self.derivative_error(
                old(derivative)@.len() as usize,
                row_len,
                coefficients@.len() as usize,
            ) {
                Some(e) => r == Err::<(), TransformError>(e) && final(derivative)@ == old(
                    derivative,
                )@,
                None => r is Ok && unpack::<F>(final(derivative)@) == derivative_model::<F>(
                    unpack::<F>(coefficients@),
                    self.slopes(),
                    self.dim(),
                ),
            },
            row_len > 0 && (8 * row_len) % F::width() as int == 0 && old(derivative)@.len() == span(self.dim())
                * row_len && coefficients@.len() == old(derivative)@.len() ==> r is Ok,
    {
        proof {
            self.law_byte_rows_are_taken(coefficients.len(), row_len, derivative.len());
            law_spans_are_powers_of_two(self.dim());
        }
        match self.check_derivative(derivative.len(), row_len, coefficients.len()) {
            Ok(_) => {},
            Err(e) => {
                return Err(e);
            },
        }
        proof {
            self.lemma_wf();
            lemma_rows::<F>(coefficients@, row_len as nat, self.dim());
        }
        derivative_into_bytes_sweep_node::<F>(
            derivative,
            coefficients,
            self.table.derivative_factors(),
            self.log_size,
        );
        Ok(())
    }

    /// Formal derivative over packed byte rows by one multi-source gather per
    /// output.
    pub fn derivative_into_bytes_gather(
        &self,
        derivative: &mut [u8],
        row_len: usize,
        coefficients: &[u8],
    ) -> (r: Result<(), TransformError>)
        requires
            self.wf(),
        ensures
            final(derivative)@.len() == old(derivative)@.len(),
            match self.derivative_error(
                old(derivative)@.len() as usize,
                row_len,
                coefficients@.len() as usize,
            ) {
                Some(e) => r == Err::<(), TransformError>(e) && final(derivative)@ == old(
                    derivative,
                )@,
                None => r is Ok && unpack::<F>(final(derivative)@) == derivative_model::<F>(
                    unpack::<F>(coefficients@),
                    self.slopes(),
                    self.dim(),
                ),
            },
            row_len > 0 && (8 * row_len) % F::width() as int == 0 && old(derivative)@.len() == span(self.dim())
                * row_len && coefficients@.len() == old(derivative)@.len() ==> r is Ok,
    {
        proof {
            self.law_byte_rows_are_taken(coefficients.len(), row_len, derivative.len());
            law_spans_are_powers_of_two(self.dim());
        }
        match self.check_derivative(derivative.len(), row_len, coefficients.len()) {
            Ok(_) => {},
            Err(e) => {
                return Err(e);
            },
        }
        proof {
            self.lemma_wf();
        }
        derivative_into_bytes_gather_rows::<F>(
            derivative,
            row_len,
            coefficients,
            self.table.derivative_factors(),
            self.log_size,
        );
        Ok(())
    }

    /// Formal derivative over packed byte rows, initialized from the first
    /// contributions.
    pub fn derivative_into_bytes_overwrite(
        &self,
        derivative: &mut [u8],
        row_len: usize,
        coefficients: &[u8],
    ) -> (r: Result<(), TransformError>)
        requires
            self.wf(),
        ensures
            final(derivative)@.len() == old(derivative)@.len(),
            match self.derivative_error(
                old(derivative)@.len() as usize,
                row_len,
                coefficients@.len() as usize,
            ) {
                Some(e) => r == Err::<(), TransformError>(e) && final(derivative)@ == old(
                    derivative,
                )@,
                None => r is Ok && unpack::<F>(final(derivative)@) == derivative_model::<F>(
                    unpack::<F>(coefficients@),
                    self.slopes(),
                    self.dim(),
                ),
            },
            row_len > 0 && (8 * row_len) % F::width() as int == 0 && old(derivative)@.len() == span(self.dim())
                * row_len && coefficients@.len() == old(derivative)@.len() ==> r is Ok,
    {
        proof {
            self.law_byte_rows_are_taken(coefficients.len(), row_len, derivative.len());
            law_spans_are_powers_of_two(self.dim());
        }
        match self.check_derivative(derivative.len(), row_len, coefficients.len()) {
            Ok(_) => {},
            Err(e) => {
                return Err(e);
            },
        }
        proof {
            self.lemma_wf();
            lemma_rows::<F>(coefficients@, row_len as nat, self.dim());
        }
        derivative_into_bytes_overwrite_node::<F>(
            derivative,
            coefficients,
            self.table.derivative_factors(),
            self.log_size,
        );
        Ok(())
    }

    /// Add the formal derivative to its coefficients in place.
    ///
    /// At a root of the represented polynomial the result evaluates to the value
    /// of the derivative; it is not the derivative itself.
    pub fn derivative_plus_identity_bytes(&self, rows: &mut [u8], row_len: usize) -> (r: Result<
        (),
        TransformError,
    >)
        requires
            self.wf(),
        ensures
            final(rows)@.len() == old(rows)@.len(),
            match self.rows_error(old(rows)@.len() as usize, row_len) {
                Some(e) => r == Err::<(), TransformError>(e) && final(rows)@ == old(rows)@,
                None => r is Ok && unpack::<F>(final(rows)@) == vadd::<F>(
                    unpack::<F>(old(rows)@),
                    derivative_model::<F>(unpack::<F>(old(rows)@), self.slopes(), self.dim()),
                ),
            },
            row_len > 0 && (8 * row_len) % F::width() as int == 0 && old(rows)@.len() == span(self.dim())
                * row_len ==> r is Ok,
    {
        proof {
            self.lemma_wf();
            law_row_geometry::<F>(rows.len(), row_len, span(self.dim()) as usize);
        }
        match self.check_len_bytes(rows.len(), row_len) {
            Ok(_) => {},
            Err(e) => {
                return Err(e);
            },
        }
        proof {
            self.lemma_wf();
            lemma_rows::<F>(rows@, row_len as nat, self.dim());
        }
        derivative_plus_identity_node::<F>(rows, self.table.derivative_factors(), self.log_size);
        Ok(())
    }

    /// Forward transform that evaluates only the rows in `selected` (sorted,
    /// unique, in range).
    ///
    /// Only the selected rows are final outputs; the others hold intermediate
    /// values.
    pub fn forward_bytes_selected(
        &self,
        rows: &mut [u8],
        row_len: usize,
        selected: &[usize],
    ) -> (r: Result<(), TransformError>)
        requires
            self.wf(),
        ensures
            final(rows)@.len() == old(rows)@.len(),
            match self.rows_error(old(rows)@.len() as usize, row_len) {
                Some(e) => r == Err::<(), TransformError>(e) && final(rows)@ == old(rows)@,
                None => if !valid_selection(selected@, span(self.dim())) {
                    &&& r == Err::<(), TransformError>(TransformError::InvalidSelection)
                    &&& final(rows)@ == old(rows)@
                } else if selected@.len() == 0 {
                    r is Ok && final(rows)@ == old(rows)@
                } else {
                    r is Ok && unpack::<F>(final(rows)@) == pruned_model::<F>(
                        unpack::<F>(old(rows)@),
                        self.heap(),
                        1,
                        self.dim(),
                        0,
                        |row: int| selected@.contains(row as usize),
                    )
                },
            },
            r is Ok ==> forall|j: int|
                0 <= j < selected@.len() ==> row_final::<F>(
                unpack::<F>(old(rows)@),
                unpack::<F>(final(rows)@),
                self.heap(),
                1,
                self.dim(),
                lanes_of::<F>(row_len as nat),
                #[trigger] selected@[j] as int,
            ),
            row_len > 0 && (8 * row_len) % F::width() as int == 0 && old(rows)@.len() == span(self.dim())
                * row_len && (selected@.len() > 0 ==> selected@.last() < span(self.dim())) && (forall|i: int|
                0 < i < selected@.len() ==> selected@[i - 1] < #[trigger] selected@[i]) ==> r is Ok,
    {
        proof {
            self.lemma_wf();
            law_row_geometry::<F>(rows.len(), row_len, span(self.dim()) as usize);
            law_selections(selected@, span(self.dim()));
        }
        match self.check_len_bytes(rows.len(), row_len) {
            Ok(_) => {},
            Err(e) => {
                return Err(e);
            },
        }
        if !check_selection(selected, self.size) {
            return Err(TransformError::InvalidSelection);
        }
        let ghost before = rows@;
        proof {
            self.lemma_wf();
            lemma_rows::<F>(before, row_len as nat, self.dim());
        }
        if self.log_size != 0 && selected.len() != 0 {
            forward_bytes_selected_node::<F>(
                self.selected,
                rows,
                row_len,
                self.table.factors(),
                1,
                self.log_size,
                0,
                selected,
                0,
                selected.len(),
            );
        }
        proof {
            let v = unpack::<F>(before);
            let n = lanes_of::<F>(row_len as nat);
            let wanted = |row: int| selected@.contains(row as usize);
            assert forall|j: int| 0 <= j < selected@.len() implies row_final::<F>(
                v,
                unpack::<F>(rows@),
                self.heap(),
                1,
                self.dim(),
                n,
                #[trigger] selected@[j] as int,
            ) by {
                lemma_pruned_row_final::<F>(
                    v,
                    self.heap(),
                    1,
                    self.dim(),
                    n,
                    wanted,
                    selected@[j] as int,
                );
            }
        }
        Ok(())
    }

    /// Forward transform restricted to the contiguous output `range` of rows; the
    /// others hold intermediate values.
    pub fn forward_bytes_range(&self, rows: &mut [u8], row_len: usize, range: Range<usize>) -> (r:
        Result<(), TransformError>)
        requires
            self.wf(),
        ensures
            final(rows)@.len() == old(rows)@.len(),
            match self.rows_error(old(rows)@.len() as usize, row_len) {
                Some(e) => r == Err::<(), TransformError>(e) && final(rows)@ == old(rows)@,
                None => match range_error(range.start, range.end, span(self.dim()) as usize) {
                    Some(e) => r == Err::<(), TransformError>(e) && final(rows)@ == old(rows)@,
                    None => if range.start == range.end {
                        r is Ok && final(rows)@ == old(rows)@
                    } else {
                        r is Ok && unpack::<F>(final(rows)@) == pruned_model::<F>(
                            unpack::<F>(old(rows)@),
                            self.heap(),
                            1,
                            self.dim(),
                            0,
                            |row: int| range.start <= row < range.end,
                        )
                    },
                },
            },
            r is Ok ==> forall|k: int|
                range.start <= k < range.end ==> #[trigger] row_final::<F>(
                unpack::<F>(old(rows)@),
                unpack::<F>(final(rows)@),
                self.heap(),
                1,
                self.dim(),
                lanes_of::<F>(row_len as nat),
                k,
            ),
            row_len > 0 && (8 * row_len) % F::width() as int == 0 && old(rows)@.len() == span(self.dim())
                * row_len && range.start <= range.end <= span(self.dim()) ==> r is Ok,
    {
        proof {
            self.lemma_wf();
            law_row_geometry::<F>(rows.len(), row_len, span(self.dim()) as usize);
        }
        match self.check_len_bytes(rows.len(), row_len) {
            Ok(_) => {},
            Err(e) => {
                return Err(e);
            },
        }
        let (start, end): (usize, usize) = (range.start, range.end);
        if start > end || end > self.size {
            return Err(TransformError::InvalidRange { start, end, size: self.size });
        }
        let ghost before = rows@;
        proof {
            self.lemma_wf();
            lemma_rows::<F>(before, row_len as nat, self.dim());
        }
        if self.log_size != 0 && start < end {
            forward_bytes_range_node::<F>(
                self.selected,
                rows,
                row_len,
                self.table.factors(),
                1,
                self.log_size,
                0,
                start,
                end,
            );
        }
        proof {
            let v = unpack::<F>(before);
            let n = lanes_of::<F>(row_len as nat);
            let wanted = |row: int| range.start <= row < range.end;
            assert forall|k: int| range.start <= k < range.end implies #[trigger] row_final::<F>(
                v,
                unpack::<F>(rows@),
                self.heap(),
                1,
                self.dim(),
                n,
                k,
            ) by {
                lemma_pruned_row_final::<F>(v, self.heap(), 1, self.dim(), n, wanted, k);
            }
        }
        Ok(())
    }

    /// Truncated forward transform: the rows from `active` on must be zero on
    /// entry, and only the rows in `range` are final outputs.
    pub fn forward_bytes_truncated_range(
        &self,
        rows: &mut [u8],
        row_len: usize,
        active: usize,
        range: Range<usize>,
    ) -> (r: Result<(), TransformError>)
        requires
            self.wf(),
        ensures
            final(rows)@.len() == old(rows)@.len(),
            match self.rows_error(old(rows)@.len() as usize, row_len) {
                Some(e) => r == Err::<(), TransformError>(e) && final(rows)@ == old(rows)@,
                None => if active > span(self.dim()) {
                    &&& r == Err::<(), TransformError>(
                        TransformError::InvalidActivePrefix {
                            active,
                            size: span(self.dim()) as usize,
                        },
                    )
                    &&& final(rows)@ == old(rows)@
                } else {
                    match range_error(range.start, range.end, span(self.dim()) as usize) {
                        Some(e) => r == Err::<(), TransformError>(e) && final(rows)@ == old(rows)@,
                        None => if range.start == range.end || active == 0 {
                            r is Ok && final(rows)@ == old(rows)@
                        } else {
                            r is Ok && unpack::<F>(final(rows)@) == truncated_model::<F>(
                                unpack::<F>(old(rows)@),
                                self.heap(),
                                1,
                                self.dim(),
                                lanes_of::<F>(row_len as nat),
                                active as nat,
                                0,
                                |row: int| range.start <= row < range.end,
                            )
                        },
                    }
                },
            },
            r is Ok && zero_from::<F>(
                unpack::<F>(old(rows)@),
                active * lanes_of::<F>(row_len as nat),
            ) ==> forall|k: int|
                range.start <= k < range.end ==> #[trigger] row_final::<F>(
                unpack::<F>(old(rows)@),
                unpack::<F>(final(rows)@),
                self.heap(),
                1,
                self.dim(),
                lanes_of::<F>(row_len as nat),
                k,
            ),
            row_len > 0 && (8 * row_len) % F::width() as int == 0 && old(rows)@.len() == span(self.dim())
                * row_len && active <= span(self.dim()) && range.start <= range.end <= span(self.dim())
                ==> r is Ok,
    {
        proof {
            self.lemma_wf();
            law_row_geometry::<F>(rows.len(), row_len, span(self.dim()) as usize);
        }
        match self.check_len_bytes(rows.len(), row_len) {
            Ok(_) => {},
            Err(e) => {
                return Err(e);
            },
        }
        if active > self.size {
            return Err(TransformError::InvalidActivePrefix { active, size: self.size });
        }
        let (start, end): (usize, usize) = (range.start, range.end);
        if start > end || end > self.size {
            return Err(TransformError::InvalidRange { start, end, size: self.size });
        }
        let ghost before = rows@;
        proof {
            self.lemma_wf();
            lemma_rows::<F>(before, row_len as nat, self.dim());
        }
        if self.log_size != 0 && start < end && active != 0 {
            forward_bytes_truncated_range_node::<F>(
                self.selected,
                rows,
                row_len,
                self.table.factors(),
                1,
                self.log_size,
                active,
                0,
                start,
                end,
            );
        }
        proof {
            let v = unpack::<F>(before);
            let n = lanes_of::<F>(row_len as nat);
            let wanted = |row: int| range.start <= row < range.end;
            if zero_from::<F>(v, active * n) {
                if active == 0 {
                    assert(active * n == 0) by (nonlinear_arith)
                        requires
                            active == 0,
                    ;
                    law_forward_of_zero::<F>(v, self.heap(), 1, self.dim());
                }
                assert forall|k: int| range.start <= k < range.end implies #[trigger] row_final::<F>(
                    v,
                    unpack::<F>(rows@),
                    self.heap(),
                    1,
                    self.dim(),
                    n,
                    k,
                ) by {
                    if active != 0 {
                        lemma_truncated_row_final::<F>(
                            v,
                            self.heap(),
                            1,
                            self.dim(),
                            n,
                            active as nat,
                            wanted,
                            k,
                        );
                    }
                }
            }
        }
        Ok(())
    }

    /// Evaluate the `size / 2` novel-basis coefficients in `rows` at the high
    /// coset, the points `size / 2` to `size`, of which the first `range` are
    /// final outputs.
    pub fn forward_bytes_high_coset_range(
        &self,
        rows: &mut [u8],
        row_len: usize,
        range: Range<usize>,
    ) -> (r: Result<(), TransformError>)
        requires
            self.wf(),
        ensures
            final(rows)@.len() == old(rows)@.len(),
            if self.dim() < 2 {
                &&& r == Err::<(), TransformError>(
                    TransformError::UnsupportedPlanSize {
                        size: span(self.dim()) as usize,
                        minimum: 4,
                    },
                )
                &&& final(rows)@ == old(rows)@
            } else {
                let half = (span(self.dim()) / 2) as usize;
                match geometry_error::<F>(old(rows)@.len() as usize, row_len, half) {
                    Some(e) => r == Err::<(), TransformError>(e) && final(rows)@ == old(rows)@,
                    None => match range_error(range.start, range.end, half) {
                        Some(e) => r == Err::<(), TransformError>(e) && final(rows)@ == old(rows)@,
                        None => if range.start == range.end {
                            r is Ok && final(rows)@ == old(rows)@
                        } else {
                            r is Ok && unpack::<F>(final(rows)@) == pruned_model::<F>(
                                unpack::<F>(old(rows)@),
                                self.heap(),
                                3,
                                (self.dim() - 1) as nat,
                                0,
                                |row: int| range.start <= row < range.end,
                            )
                        },
                    },
                }
            },
            r is Ok ==> forall|k: int|
                range.start <= k < range.end ==> #[trigger] row_final::<F>(
                unpack::<F>(old(rows)@),
                unpack::<F>(final(rows)@),
                self.heap(),
                3,
                (self.dim() - 1) as nat,
                lanes_of::<F>(row_len as nat),
                k,
            ),
            self.dim() >= 2 && row_len > 0 && (8 * row_len) % F::width() as int == 0 && old(rows)@.len() == span((self.dim() - 1) as nat)
                * row_len && range.start <= range.end <= span((self.dim() - 1) as nat)
                ==> r is Ok,
    {
        proof {
            self.lemma_wf();
            law_row_geometry::<F>(rows.len(), row_len, (span(self.dim()) / 2) as usize);
        }
        if self.log_size < 2 {
            return Err(TransformError::UnsupportedPlanSize { size: self.size, minimum: 4 });
        }
        let half: usize = self.size / 2;
        match check_geometry::<F>(rows.len(), row_len, half) {
            Ok(_) => {},
            Err(e) => {
                return Err(e);
            },
        }
        let (start, end): (usize, usize) = (range.start, range.end);
        if start > end || end > half {
            return Err(TransformError::InvalidRange { start, end, size: half });
        }
        let ghost before = rows@;
        proof {
            self.lemma_wf();
            reveal_with_fuel(heap_holds, 2);
            lemma_rows::<F>(before, row_len as nat, (self.dim() - 1) as nat);
        }
        if start < end {
            forward_bytes_range_node::<F>(
                self.selected,
                rows,
                row_len,
                self.table.factors(),
                3,
                self.log_size - 1,
                0,
                start,
                end,
            );
        }
        proof {
            let v = unpack::<F>(before);
            let n = lanes_of::<F>(row_len as nat);
            let wanted = |row: int| range.start <= row < range.end;
            assert forall|k: int| range.start <= k < range.end implies #[trigger] row_final::<F>(
                v,
                unpack::<F>(rows@),
                self.heap(),
                3,
                (self.dim() - 1) as nat,
                n,
                k,
            ) by {
                lemma_pruned_row_final::<F>(v, self.heap(), 3, (self.dim() - 1) as nat, n, wanted, k);
            }
        }
        Ok(())
    }

    /// Temporary rows that [`TransformPlan::inverse_bytes_truncated_scratch`]
    /// needs for the given active prefix.
    pub fn inverse_bytes_truncated_scratch_rows(&self, active: usize) -> (r: Result<
        usize,
        TransformError,
    >)
        requires
            self.wf(),
        ensures
            if 1 <= active <= span(self.dim()) {
                r matches Ok(n) && n == scratch_rows(self.dim(), active as nat)
            } else {
                r == Err::<usize, TransformError>(
                    TransformError::InvalidActivePrefix {
                        active,
                        size: span(self.dim()) as usize,
                    },
                )
            },
    {
        if active == 0 || active > self.size {
            return Err(TransformError::InvalidActivePrefix { active, size: self.size });
        }
        let mut row_count: usize = self.size;
        let ghost mut d = self.dim();
        while active < row_count
            invariant
                1 <= active <= row_count,
                row_count == span(d),
                scratch_rows(d, active as nat) == scratch_rows(self.dim(), active as nat),
            decreases row_count,
        {
            assert(d > 0);
            let half_rows: usize = row_count / 2;
            if active > half_rows {
                return Ok(half_rows);
            }
            proof {
                d = (d - 1) as nat;
            }
            row_count = half_rows;
        }
        Ok(0)
    }

    /// Truncated inverse transform: recovers the lowest `active` novel-basis
    /// coefficients, using `scratch` as workspace.
    ///
    /// Rows from `active` on hold intermediate values on return. The evaluations
    /// in `rows` must be those of a polynomial whose coefficients from `active` on
    /// are zero.
    pub fn inverse_bytes_truncated_scratch(
        &self,
        rows: &mut [u8],
        row_len: usize,
        active: usize,
        scratch: &mut [u8],
    ) -> (r: Result<(), TransformError>)
        requires
            self.wf(),
        ensures
            final(rows)@.len() == old(rows)@.len(),
            final(scratch)@.len() == old(scratch)@.len(),
            match self.rows_error(old(rows)@.len() as usize, row_len) {
                Some(e) => {
                    &&& r == Err::<(), TransformError>(e)
                    &&& final(rows)@ == old(rows)@
                    &&& final(scratch)@ == old(scratch)@
                },
                None => if active == 0 || active > span(self.dim()) {
                    &&& r == Err::<(), TransformError>(
                        TransformError::InvalidActivePrefix {
                            active,
                            size: span(self.dim()) as usize,
                        },
                    )
                    &&& final(rows)@ == old(rows)@
                    &&& final(scratch)@ == old(scratch)@
                } else {
                    let need = scratch_rows(self.dim(), active as nat) * row_len;
                    if old(scratch)@.len() < need {
                        &&& r == Err::<(), TransformError>(
                            TransformError::ScratchTooSmall {
                                required: need as usize,
                                available: old(scratch)@.len() as usize,
                            },
                        )
                        &&& final(rows)@ == old(rows)@
                        &&& final(scratch)@ == old(scratch)@
                    } else {
                        &&& r is Ok
                        &&& unpack::<F>(final(rows)@) == truncated_inverse_model::<F>(
                            unpack::<F>(old(rows)@),
                            self.heap(),
                            1,
                            self.dim(),
                            lanes_of::<F>(row_len as nat),
                            active as nat,
                        )
                    }
                },
            },
            r is Ok ==> recovers::<F>(
                unpack::<F>(old(rows)@),
                unpack::<F>(final(rows)@),
                self.heap(),
                self.dim(),
                lanes_of::<F>(row_len as nat),
                active as nat,
            ),
            row_len > 0 && (8 * row_len) % F::width() as int == 0 && old(rows)@.len() == span(self.dim())
                * row_len && 1 <= active <= span(self.dim()) && old(scratch)@.len() >= scratch_rows(
                self.dim(),
                active as nat,
            ) * row_len ==> r is Ok,
    {
        proof {
            self.lemma_wf();
            law_row_geometry::<F>(rows.len(), row_len, span(self.dim()) as usize);
        }
        match self.check_len_bytes(rows.len(), row_len) {
            Ok(_) => {},
            Err(e) => {
                return Err(e);
            },
        }
        let needed = match self.inverse_bytes_truncated_scratch_rows(active) {
            Ok(n) => n,
            Err(e) => {
                return Err(e);
            },
        };
        proof {
            self.lemma_wf();
            lemma_scratch_rows(self.dim(), active as nat);
            assert(needed * row_len <= span(self.dim()) * row_len) by (nonlinear_arith)
                requires
                    needed <= span(self.dim()),
            ;
        }
        let required: usize = needed * row_len;
        if scratch.len() < required {
            return Err(TransformError::ScratchTooSmall { required, available: scratch.len() });
        }
        let ghost v = unpack::<F>(rows@);
        proof {
            lemma_rows::<F>(rows@, row_len as nat, self.dim());
        }
        inverse_bytes_truncated_node::<F>(
            self.selected,
            rows,
            row_len,
            self.table.factors(),
            1,
            self.log_size,
            active,
            scratch,
        );
        proof {
            let n = lanes_of::<F>(row_len as nat);
            let all = (active as nat * n) as int;
            assert forall|coefficients: Seq<F::Elem>|
                {
                    &&& coefficients.len() == v.len()
                    &&& zero_from::<F>(coefficients, all)
                    &&& agree_to(
                        v,
                        #[trigger] forward_model::<F>(coefficients, self.heap(), 1, self.dim()),
                        all,
                    )
                } implies agree_to(unpack::<F>(rows@), coefficients, all) by {
                law_truncated_inverse_recovers::<F>(
                    coefficients,
                    v,
                    self.heap(),
                    1,
                    self.dim(),
                    n,
                    active as nat,
                );
            }
        }
        Ok(())
    }
}

impl<F: ButterflyKernels> TransformPlan<F> {
    /// Dense monomial coefficients of the monic polynomial of degree `size` that
    /// vanishes on the domain, low degree first.
    ///
    /// For a subspace these are the coefficients of the subspace polynomial, whose
    /// only nonzero terms stand at powers of two; a shift adds a constant.
    pub fn vanishing_polynomial(&self) -> (r: Vec<F::Elem>)
        requires
            self.wf(),
        ensures
            is_dense::<F>(
                r@,
                subspace_coefficients::<F>(self.domain_basis(), self.dim()),
                subspace::<F>(self.domain_basis(), self.dim(), self.domain_shift()),
            ),
            r@.len() == span(self.dim()) + 1,
            r@[span(self.dim()) as int] == fone::<F>(),
    {
        let sparse = monic_subspace_polynomial::<F>(self.basis.as_slice());
        proof {
            self.lemma_wf();
            lemma_subspace_coefficients::<F>(self.basis@, self.dim(), self.shift);
            lemma_subspace_coefficients::<F>(self.basis@, self.dim(), fzero::<F>());
            lemma_subspace_zero::<F>(self.basis@, self.dim());
        }
        let constant = if is_zero::<F>(self.shift) {
            zero::<F>()
        } else {
            evaluate_linearized::<F>(sparse.as_slice(), self.shift)
        };
        let zero = zero::<F>();
        let mut dense: Vec<F::Elem> = Vec::with_capacity(self.size + 1);
        dense.push(constant);
        let mut next: usize = 1;
        let mut exponent: usize = 0;
        let mut i: usize = 1;
        proof {
            assert(sparse@.len() == self.dim() + 1);
        }
        while i <= self.size
            invariant
                self.wf(),
                1 <= i <= self.size + 1,
                self.size == span(self.dim()),
                self.size <= 0x10_0000,
                sparse@.len() == self.dim() + 1,
                dense@.len() == i,
                dense@[0] == constant,
                exponent <= self.dim() + 1,
                next == span(exponent as nat),
                exponent == 0 ==> i <= next,
                exponent > 0 ==> span((exponent - 1) as nat) < i <= next,
                forall|j: int|
                    0 <= j < exponent ==> dense@[span(j as nat) as int] == #[trigger] sparse@[j],
                forall|j: int| 0 <= j < exponent ==> #[trigger] span(j as nat) < i,
                forall|k: int|
                    0 < k < i && (forall|j: int|
                        0 <= j < sparse@.len() ==> k != #[trigger] span(j as nat))
                        ==> #[trigger] dense@[k] == fzero::<F>(),
                zero == fzero::<F>(),
            decreases self.size + 1 - i,
        {
            if i == next {
                proof {
                    if exponent > self.dim() {
                        lemma_span_monotone(self.dim(), exponent as nat);
                    }
                    lemma_span_monotone(exponent as nat, (exponent + 1) as nat);
                    assert forall|j: int| 0 <= j < exponent + 1 implies #[trigger] span(j as nat)
                        <= i by {
                        lemma_span_monotone(j as nat, exponent as nat);
                    }
                }
                let ghost before = dense@;
                dense.push(sparse[exponent]);
                proof {
                    assert forall|j: int| 0 <= j < exponent + 1 implies dense@[span(j as nat) as int]
                        == #[trigger] sparse@[j] by {
                        lemma_span_monotone(j as nat, exponent as nat);
                    }
                    assert forall|k: int|
                        0 < k < i + 1 && (forall|j: int|
                            0 <= j < sparse@.len() ==> k != #[trigger] span(
                                j as nat,
                            )) implies #[trigger] dense@[k] == fzero::<F>() by {
                        assert(k != span(exponent as int as nat));
                        assert(dense@[k] == before[k]);
                    }
                }
                exponent = exponent + 1;
                next = next * 2;
            } else {
                let ghost before = dense@;
                dense.push(zero);
                proof {
                    assert forall|j: int| 0 <= j < exponent implies dense@[span(j as nat) as int]
                        == #[trigger] sparse@[j] by {
                        assert(span(j as nat) < i);
                        assert(dense@[span(j as nat) as int] == before[span(j as nat) as int]);
                    }
                    assert forall|k: int|
                        0 < k < i + 1 && (forall|j: int|
                            0 <= j < sparse@.len() ==> k != #[trigger] span(
                                j as nat,
                            )) implies #[trigger] dense@[k] == fzero::<F>() by {
                        if k < i {
                            assert(dense@[k] == before[k]);
                        }
                    }
                }
            }
            i = i + 1;
        }
        proof {
            if exponent <= self.dim() {
                lemma_span_monotone(exponent as nat, self.dim());
            }
            assert(dense@[span(self.dim() as int as nat) as int] == sparse@[self.dim() as int]);
        }
        dense
    }

    /// The vanishing polynomial vanishes exactly on the points of the domain: its
    /// value at `x` is zero exactly if `x` is one of them.
    pub proof fn law_vanishing_polynomial_vanishes_exactly(
        &self,
        vanishing: Seq<F::Elem>,
        x: F::Elem,
    )
        requires
            self.wf(),
            is_dense::<F>(
                vanishing,
                subspace_coefficients::<F>(self.domain_basis(), self.dim()),
                subspace::<F>(self.domain_basis(), self.dim(), self.domain_shift()),
            ),
        ensures
            poly_value::<F>(vanishing, x) == fzero::<F>() <==> (exists|i: int|
                0 <= i < span(self.dim()) && #[trigger] self.point(i) == x),
    {
        let basis = self.domain_basis();
        let (dim, shift) = (self.dim(), self.domain_shift());
        lemma_dense_value::<F>(
            vanishing,
            subspace_coefficients::<F>(basis, dim),
            subspace::<F>(basis, dim, shift),
            x,
        );
        lemma_subspace_coefficients::<F>(basis, dim, x);
        lemma_subspace_additive::<F>(basis, dim, shift, x);
        let y = fadd::<F>(shift, x);
        law_subspace_polynomial_vanishes_exactly::<F>(basis, dim, y);
        lemma_cancel::<F>(shift, x);
        if spans::<F>(basis, dim, y) {
            let i = choose|i: int|
                0 <= i < span(dim) && #[trigger] combine::<F>(basis, dim, i) == y;
            assert(self.point(i) == x);
        }
        if exists|i: int| 0 <= i < span(dim) && #[trigger] self.point(i) == x {
            let i = choose|i: int| 0 <= i < span(dim) && #[trigger] self.point(i) == x;
            lemma_cancel::<F>(shift, combine::<F>(basis, dim, i));
            assert(combine::<F>(basis, dim, i) == y);
        }
    }

    /// The high-coset transform evaluates half a domain of coefficients at the
    /// high half of the points.
    pub proof fn law_high_coset_evaluates(&self, v: Seq<F::Elem>, i: int)
        requires
            self.wf(),
            self.dim() >= 1,
            v.len() == span((self.dim() - 1) as nat),
            0 <= i < v.len(),
        ensures
            forward_model::<F>(v, self.heap(), 3, (self.dim() - 1) as nat)[i] == novel_value::<F>(
                self.domain_basis(),
                v,
                (self.dim() - 1) as nat,
                self.point(i + v.len()),
            ),
    {
        self.lemma_wf();
        let d = (self.dim() - 1) as nat;
        let b = self.domain_basis()[d as int];
        let s = self.domain_shift();
        law_forward_evaluates::<F>(
            v,
            self.heap(),
            self.domain_basis(),
            fadd::<F>(s, b),
            3,
            d,
            i,
        );
        let u = combine::<F>(self.domain_basis(), d, i);
        lemma_add::<F>(s, b, u);
        lemma_add::<F>(u, b, b);
    }
}

/// An explicit, owned cache of plans over the bit basis, one per size.
#[derive(Clone, Debug)]
pub struct PlanCache<F: ButterflyKernels> {
    plans: Vec<Option<Arc<TransformPlan<F>>>>,
}

impl<F: ButterflyKernels> PlanCache<F> {
    /// The plan that the cache holds for `2^log_size` points.
    pub closed spec fn held(&self, log_size: nat) -> Option<Arc<TransformPlan<F>>> {
        if log_size < self.plans@.len() {
            self.plans@[log_size as int]
        } else {
            None
        }
    }

    /// Whether a slot is empty or holds the bit-basis plan for `2^log_size` points.
    pub open spec fn slot_wf(slot: Option<Arc<TransformPlan<F>>>, log_size: nat) -> bool {
        slot matches Some(plan) ==> {
            &&& plan.wf()
            &&& plan.dim() == log_size
            &&& plan.domain_basis() == bit_basis::<F>(log_size)
            &&& plan.domain_shift() == fzero::<F>()
            &&& plan.origin() == fzero::<F>()
        }
    }

    /// The cache's invariant: each plan is held under its own size.
    pub open spec fn wf(&self) -> bool {
        forall|k: nat| Self::slot_wf(#[trigger] self.held(k), k)
    }

    /// An empty cache.
    pub fn new() -> (r: Self)
        ensures
            r.wf(),
            forall|k: nat| #[trigger] r.held(k) is None,
    {
        PlanCache { plans: Vec::new() }
    }

    /// Whether a request for `size` is answered with `r` and leaves the cache as
    /// `after`: the error of the size, or the plan that is held, or else a new one
    /// that is held from then on.
    pub open spec fn serves(
        &self,
        size: usize,
        r: Result<Arc<TransformPlan<F>>, PlanError>,
        after: Self,
    ) -> bool {
        match size_error::<F>(size) {
            Some(e) => (r matches Err(x) && x == e) && after == *self,
            None => {
                let k = log2(size as nat);
                &&& r matches Ok(plan)
                &&& plan.wf()
                &&& span(plan.dim()) == size
                &&& plan.domain_basis() == bit_basis::<F>(plan.dim())
                &&& plan.domain_shift() == fzero::<F>()
                &&& plan.origin() == fzero::<F>()
                &&& after.held(k) == Some(plan)
                &&& self.held(k) is Some ==> self.held(k) == Some(plan)
                &&& forall|j: nat| j != k ==> #[trigger] after.held(j) == self.held(j)
            },
        }
    }

    /// Two requests for one size get the same plan, or the same error, whatever was
    /// asked for in between of another size.
    pub proof fn law_plans_are_shared(
        &self,
        size: usize,
        first: Result<Arc<TransformPlan<F>>, PlanError>,
        second: Self,
        other: usize,
        between: Result<Arc<TransformPlan<F>>, PlanError>,
        third: Self,
        last: Result<Arc<TransformPlan<F>>, PlanError>,
        after: Self,
    )
        requires
            self.serves(size, first, second),
            second.serves(other, between, third),
            third.serves(size, last, after),
        ensures
            last == first,
    {
        if size_error::<F>(size) is None {
            let k = log2(size as nat);
            assert(second.held(k) == Some(first->Ok_0));
            if size_error::<F>(other) is None && log2(other as nat) != k {
                assert(third.held(k) == second.held(k));
            }
            assert(third.held(k) == Some(first->Ok_0));
        }
    }

    /// The plan for `size`, built and cached on first use.
    pub fn shared(&mut self, size: usize) -> (r: Result<Arc<TransformPlan<F>>, PlanError>)
        requires
            old(self).wf(),
        ensures
            final(self).wf(),
            old(self).serves(size, r, *final(self)),
    {
        let log_size = match validate_size::<F>(size) {
            Ok(k) => k,
            Err(e) => {
                return Err(e);
            },
        };
        let ghost before = *self;
        proof {
            lemma_span_injective(log_size as nat, log2(size as nat));
        }
        while self.plans.len() <= log_size
            invariant
                self.plans@.len() >= before.plans@.len(),
                self.plans@.len() > before.plans@.len() ==> self.plans@.len() <= log_size + 1,
                log_size <= MAX_LOG_SIZE,
                forall|j: nat| #[trigger] self.held(j) == before.held(j),
            decreases log_size + 1 - self.plans@.len(),
        {
            let ghost previous = *self;
            self.plans.push(None);
            assert forall|j: nat| #[trigger] self.held(j) == before.held(j) by {
                assert(previous.held(j) == before.held(j));
            }
        }
        assert(self.held(log_size as nat) == before.held(log_size as nat));
        if let Some(plan) = &self.plans[log_size] {
            return Ok(plan.clone());
        }
        match TransformPlan::<F>::new(size) {
            Err(e) => Err(e),
            Ok(fresh) => {
                proof {
                    lemma_span_injective(log_size as nat, fresh.dim());
                }
                let plan = Arc::new(fresh);
                let ghost middle = *self;
                self.plans.set(log_size, Some(plan.clone()));
                assert forall|j: nat| j != log_size implies #[trigger] self.held(j)
                    == before.held(j) by {
                    assert(middle.held(j) == before.held(j));
                }
                assert forall|j: nat| Self::slot_wf(#[trigger] self.held(j), j) by {
                    if j != log_size {
                        assert(self.held(j) == before.held(j));
                    }
                }
                Ok(plan)
            },
        }
    }
}

impl<F: ButterflyKernels> Default for PlanCache<F> {
    fn default() -> (r: Self)
        ensures
            r.wf(),
            forall|k: nat| #[trigger] r.held(k) is None,
    {
        Self::new()
    }
}

/// The error for an output range over `size` rows, if it is not valid.
pub open spec fn range_error(start: usize, end: usize, size: usize) -> Option<TransformError> {
    if start > end || end > size {
        Some(TransformError::InvalidRange { start, end, size })
    } else {
        None
    }
}

/// The execution schedules of the derivative over packed rows.
#[derive(Clone, Copy, Debug, PartialEq, Eq)]
pub enum DerivativeSchedule {
    /// One multi-source gather per output.
    Gather,
    /// Initialized from the first contributions.
    Overwrite,
    /// An ascending sweep over the source blocks.
    Sweep,
}

/// Row length from which the overwrite schedule is the faster one.
pub const DERIVATIVE_OVERWRITE_ROW_MIN: usize = 1024;

/// Row length from which the gather schedule is the faster one.
pub const DERIVATIVE_GATHER_ROW_MIN: usize = 65536;

/// The schedule for a backend and a row length.
pub fn derivative_schedule<F: BinaryField>(selected: Backend, row_len: usize) -> (r:
    DerivativeSchedule)
    ensures
        r == if selected is V3GfniCrypto && (row_len >= DERIVATIVE_GATHER_ROW_MIN || (elem_bytes::<
            F,
        >() == 1 && row_len >= DERIVATIVE_OVERWRITE_ROW_MIN)) {
            DerivativeSchedule::Gather
        } else if (selected is Scalar || selected is V3GfniCrypto) && elem_bytes::<F>() <= 2
            && row_len >= DERIVATIVE_OVERWRITE_ROW_MIN {
            DerivativeSchedule::Overwrite
        } else {
            DerivativeSchedule::Sweep
        },
{
    proof {
        lemma_elem_bytes::<F>();
    }
    let bytes = F::bytes();
    let gfni = matches!(selected, Backend::V3GfniCrypto);
    let measured = gfni || matches!(selected, Backend::Scalar);
    if gfni && (row_len >= DERIVATIVE_GATHER_ROW_MIN || (bytes == 1 && row_len
        >= DERIVATIVE_OVERWRITE_ROW_MIN)) {
        DerivativeSchedule::Gather
    } else if measured && bytes <= 2 && row_len >= DERIVATIVE_OVERWRITE_ROW_MIN {
        DerivativeSchedule::Overwrite
    } else {
        DerivativeSchedule::Sweep
    }
}

/// The error for a requested domain, if it is not supported.
pub open spec fn domain_error<F: BinaryField>(size: usize, basis: Seq<F::Elem>) -> Option<
    PlanError,
> {
    match size_error::<F>(size) {
        Some(e) => Some(e),
        None => {
            let n = log2(size as nat);
            if basis.len() < n {
                Some(PlanError::BasisTooShort { needed: n as usize, got: basis.len() as usize })
            } else if !independent::<F>(basis.subrange(0, n as int), n) {
                Some(PlanError::DependentBasis)
            } else {
                None
            }
        },
    }
}

} // verus!
