//! Transforms over affine cosets `shift + V`.
//!
//! A coset only changes the root of the twiddle table, so a shifted plan runs the
//! same walks at the same cost as an unshifted one. Its transform point `i` is
//! the shift plus the sum of the basis elements at the set bits of `i`.

use std::ops::Range;

use vstd::prelude::*;

use crate::basis::{BitBasis, OrderedBasis};
use crate::error::{PlanError, TransformError};
use crate::field::{fadd, fzero, lemma_add, plus};
use crate::kernel::ButterflyKernels;
use crate::pack::unpack;
use crate::span::{lemma_span_injective, span};
use crate::subspace::combine;
use crate::transform::derivative::derivative_model;
use crate::transform::laws::{recovers, row_final, zero_from};
use crate::transform::model::{
    forward_model, inverse_model, pruned_model, truncated_inverse_model, truncated_model,
};
use crate::transform::novel::novel_value;
use crate::transform::plan::{
    bit_basis, domain_error, geometry_error, law_bit_basis_is_independent, log2, range_error,
    size_error, valid_selection, validate_size, TransformPlan,
};
use crate::transform::walk::{lanes_of, scratch_rows};

verus! {

/// The shift plus the point of the subspace is the point of the coset.
proof fn lemma_label<F: ButterflyKernels>(plan: &TransformPlan<F>, i: int)
    requires
        plan.origin() == fzero::<F>(),
    ensures
        fadd::<F>(plan.domain_shift(), plan.label(i)) == plan.point(i),
{
    let x = combine::<F>(plan.domain_basis(), plan.dim(), i);
    lemma_add::<F>(x, x, x);
}

/// An additive-transform plan over the affine coset `shift + span(basis)`.
#[derive(Clone, Debug)]
pub struct ShiftedPlan<F: ButterflyKernels> {
    base: TransformPlan<F>,
}

impl<F: ButterflyKernels> ShiftedPlan<F> {
    /// The plan over the coset, which reports its points without the shift.
    pub closed spec fn inner(&self) -> TransformPlan<F> {
        self.base
    }

    /// Whether the underlying plan is well formed and reports its points without
    /// the shift.
    pub open spec fn wf(&self) -> bool {
        self.inner().wf() && self.inner().origin() == fzero::<F>()
    }

    /// A shifted plan over the bit basis.
    pub fn new(size: usize, shift: F::Elem) -> (r: Result<Self, PlanError>)
        ensures
            match size_error::<F>(size) {
                Some(e) => r matches Err(x) && x == e,
                None => {
                    &&& r matches Ok(plan)
                    &&& plan.wf()
                    &&& span(plan.inner().dim()) == size
                    &&& plan.inner().domain_basis() == bit_basis::<F>(plan.inner().dim())
                    &&& plan.inner().domain_shift() == shift
                },
            },
    {
        let log_size = match validate_size::<F>(size) {
            Ok(k) => k,
            Err(e) => {
                return Err(e);
            },
        };
        let basis = <BitBasis as OrderedBasis<F>>::prefix(&BitBasis, log_size);
        proof {
            let n = log_size as nat;
            lemma_span_injective(n, log2(size as nat));
            law_bit_basis_is_independent::<F>(n);
            assert(basis@ =~= bit_basis::<F>(n));
            assert(basis@.subrange(0, n as int) =~= basis@);
        }
        let r = Self::from_elements(size, basis.as_slice(), shift);
        proof {
            if r is Ok {
                lemma_span_injective(r->Ok_0.inner().dim(), log_size as nat);
            }
        }
        r
    }

    /// A shifted plan over an arbitrary ordered basis.
    pub fn with_basis<B: OrderedBasis<F>>(size: usize, basis: &B, shift: F::Elem) -> (r: Result<
        Self,
        PlanError,
    >)
        ensures
            match domain_error::<F>(size, basis.members()) {
                Some(e) => r matches Err(x) && x == e,
                None => {
                    &&& r matches Ok(plan)
                    &&& plan.wf()
                    &&& span(plan.inner().dim()) == size
                    &&& plan.inner().domain_basis() == basis.members().subrange(
                        0,
                        plan.inner().dim() as int,
                    )
                    &&& plan.inner().domain_shift() == shift
                },
            },
    {
        let log_size = match validate_size::<F>(size) {
            Ok(k) => k,
            Err(e) => {
                return Err(e);
            },
        };
        proof {
            lemma_span_injective(log_size as nat, log2(size as nat));
        }
        if basis.bits() < log_size {
            return Err(PlanError::BasisTooShort { needed: log_size, got: basis.bits() });
        }
        let prefix = basis.prefix(log_size);
        proof {
            let n = log_size as int;
            assert(prefix@.subrange(0, n) =~= prefix@);
        }
        let r = Self::from_elements(size, prefix.as_slice(), shift);
        proof {
            if r is Ok {
                lemma_span_injective(r->Ok_0.inner().dim(), log_size as nat);
            }
        }
        r
    }

    /// A shifted plan over an explicit ordered-basis prefix.
    pub fn from_elements(size: usize, basis: &[F::Elem], shift: F::Elem) -> (r: Result<
        Self,
        PlanError,
    >)
        ensures
            match domain_error::<F>(size, basis@) {
                Some(e) => r matches Err(x) && x == e,
                None => {
                    &&& r matches Ok(plan)
                    &&& plan.wf()
                    &&& span(plan.inner().dim()) == size
                    &&& plan.inner().domain_basis() == basis@.subrange(
                        0,
                        plan.inner().dim() as int,
                    )
                    &&& plan.inner().domain_shift() == shift
                },
            },
    {
        match TransformPlan::<F>::with_basis_shift(size, basis, shift) {
            Ok(base) => Ok(ShiftedPlan { base }),
            Err(e) => Err(e),
        }
    }

    /// The coset shift.
    pub fn shift(&self) -> (r: F::Elem)
        ensures
            r == self.inner().domain_shift(),
    {
        self.base.shift()
    }

    /// The underlying plan, for the operations that are not offered here.
    ///
    /// Its own `point_element` reports the point of the subspace, without the
    /// shift; [`ShiftedPlan::point_element`] gives the evaluation points.
    pub fn plan(&self) -> (r: &TransformPlan<F>)
        ensures
            *r == self.inner(),
    {
        &self.base
    }

    /// Number of transform points.
    pub fn size(&self) -> (r: usize)
        requires
            self.wf(),
        ensures
            r == span(self.inner().dim()),
    {
        self.base.size()
    }

    /// Base-two logarithm of the number of points.
    pub fn log_size(&self) -> (r: usize)
        ensures
            r == self.inner().dim(),
    {
        self.base.log_size()
    }

    /// The basis that spans the direction space of the coset.
    pub fn basis(&self) -> (r: &[F::Elem])
        ensures
            r@ == self.inner().domain_basis(),
    {
        self.base.basis()
    }

    /// The field element of transform point `index`: the shift plus the sum of the
    /// basis elements at the set bits of `index`.
    pub fn point_element(&self, index: usize) -> (r: F::Elem)
        requires
            self.wf(),
            index < span(self.inner().dim()),
        ensures
            r == self.inner().point(index as int),
    {
        let element = self.base.point_element(index);
        proof {
            lemma_label::<F>(&self.base, index as int);
        }
        plus::<F>(self.base.shift(), element)
    }

    /// Every evaluation point of the coset, in transform order.
    pub fn points(&self) -> (r: Vec<F::Elem>)
        requires
            self.wf(),
        ensures
            r@ == Seq::new(span(self.inner().dim()), |i: int| self.inner().point(i)),
    {
        let size: usize = self.base.size();
        let mut r: Vec<F::Elem> = Vec::with_capacity(size);
        let mut i: usize = 0;
        while i < size
            invariant
                self.wf(),
                i <= size,
                size == span(self.inner().dim()),
                r@.len() == i,
                forall|j: int| 0 <= j < i ==> #[trigger] r@[j] == self.inner().point(j),
            decreases size - i,
        {
            r.push(self.point_element(i));
            i = i + 1;
        }
        assert(r@ =~= Seq::new(span(self.inner().dim()), |i: int| self.inner().point(i)));
        r
    }

    /// Evaluate novel-basis coefficients over the coset, in place.
    pub fn forward(&self, values: &mut [F::Elem]) -> (r: Result<(), TransformError>)
        requires
            self.wf(),
        ensures
            final(values)@.len() == old(values)@.len(),
            old(values)@.len() == span(self.inner().dim()) ==> {
                &&& r is Ok
                &&& final(values)@ == forward_model::<F>(old(values)@, self.inner().heap(), 1, self.inner().dim())
                &&& forall|i: int|
                    0 <= i < span(self.inner().dim()) ==> #[trigger] final(values)@[i] == novel_value::<F>(
                        self.inner().domain_basis(),
                        old(values)@,
                        self.inner().dim(),
                        self.inner().point(i),
                    )
            },
            old(values)@.len() != span(self.inner().dim()) ==> {
                &&& r == Err::<(), TransformError>(
                    TransformError::BufferLength {
                        expected: span(self.inner().dim()) as usize,
                        got: old(values)@.len() as usize,
                    },
                )
                &&& final(values)@ == old(values)@
            },
    {
        self.base.forward(values)
    }

    /// Interpolate coset evaluations back to novel-basis coefficients, in place.
    pub fn inverse(&self, values: &mut [F::Elem]) -> (r: Result<(), TransformError>)
        requires
            self.wf(),
        ensures
            final(values)@.len() == old(values)@.len(),
            old(values)@.len() == span(self.inner().dim()) ==> {
                &&& r is Ok
                &&& final(values)@ == inverse_model::<F>(old(values)@, self.inner().heap(), 1, self.inner().dim())
                &&& forall|i: int|
                    0 <= i < span(self.inner().dim()) ==> #[trigger] old(values)@[i] == novel_value::<F>(
                        self.inner().domain_basis(),
                        final(values)@,
                        self.inner().dim(),
                        self.inner().point(i),
                    )
            },
            old(values)@.len() != span(self.inner().dim()) ==> {
                &&& r == Err::<(), TransformError>(
                    TransformError::BufferLength {
                        expected: span(self.inner().dim()) as usize,
                        got: old(values)@.len() as usize,
                    },
                )
                &&& final(values)@ == old(values)@
            },
    {
        self.base.inverse(values)
    }

    /// Formal derivative of novel-basis coefficients, out of place; the shift plays
    /// no part in it.
    pub fn derivative(&self, coefficients: &[F::Elem], derivative: &mut [F::Elem]) -> (r: Result<
        (),
        TransformError,
    >)
        requires
            self.wf(),
        ensures
            final(derivative)@.len() == old(derivative)@.len(),
            ({
                let n = span(self.inner().dim());
                let d = old(derivative)@.len();
                let c = coefficients@.len();
                if d != n || c != n {
                    &&& r == Err::<(), TransformError>(
                        TransformError::BufferLength {
                            expected: n as usize,
                            got: (if d != n {
                                d
                            } else {
                                c
                            }) as usize,
                        },
                    )
                    &&& final(derivative)@ == old(derivative)@
                } else {
                    &&& r is Ok
                    &&& final(derivative)@ == derivative_model::<F>(
                        coefficients@,
                        self.inner().slopes(),
                        self.inner().dim(),
                    )
                }
            }),
    {
        self.base.derivative_into(derivative, coefficients)
    }

    /// Forward transform over the coset, on packed byte rows.
    pub fn forward_bytes(&self, rows: &mut [u8], row_len: usize) -> (r: Result<(), TransformError>)
        requires
            self.wf(),
        ensures
            final(rows)@.len() == old(rows)@.len(),
            match self.inner().rows_error(old(rows)@.len() as usize, row_len) {
                Some(e) => r == Err::<(), TransformError>(e) && final(rows)@ == old(rows)@,
                None => r is Ok && unpack::<F>(final(rows)@) == forward_model::<F>(
                    unpack::<F>(old(rows)@),
                    self.inner().heap(),
                    1,
                    self.inner().dim(),
                ),
            },
            row_len > 0 && (8 * row_len) % F::width() as int == 0 && old(rows)@.len() == span(self.inner().dim())
                * row_len ==> r is Ok,
    {
        self.base.forward_bytes(rows, row_len)
    }

    /// Inverse transform over the coset, on packed byte rows.
    pub fn inverse_bytes(&self, rows: &mut [u8], row_len: usize) -> (r: Result<(), TransformError>)
        requires
            self.wf(),
        ensures
            final(rows)@.len() == old(rows)@.len(),
            match self.inner().rows_error(old(rows)@.len() as usize, row_len) {
                Some(e) => r == Err::<(), TransformError>(e) && final(rows)@ == old(rows)@,
                None => r is Ok && unpack::<F>(final(rows)@) == inverse_model::<F>(
                    unpack::<F>(old(rows)@),
                    self.inner().heap(),
                    1,
                    self.inner().dim(),
                ),
            },
            row_len > 0 && (8 * row_len) % F::width() as int == 0 && old(rows)@.len() == span(self.inner().dim())
                * row_len ==> r is Ok,
    {
        self.base.inverse_bytes(rows, row_len)
    }

    /// Formal derivative over packed byte rows, out of place.
    pub fn derivative_bytes(
        &self,
        coefficients: &[u8],
        row_len: usize,
        derivative: &mut [u8],
    ) -> (r: Result<(), TransformError>)
        requires
            self.wf(),
        ensures
            final(derivative)@.len() == old(derivative)@.len(),
            match self.inner().derivative_error(
                old(derivative)@.len() as usize,
                row_len,
                coefficients@.len() as usize,
            ) {
                Some(e) => r == Err::<(), TransformError>(e) && final(derivative)@ == old(
                    derivative,
                )@,
                None => r is Ok && unpack::<F>(final(derivative)@) == derivative_model::<F>(
                    unpack::<F>(coefficients@),
                    self.inner().slopes(),
                    self.inner().dim(),
                ),
            },
    {
        self.base.derivative_into_bytes(derivative, row_len, coefficients)
    }

    /// Forward transform over the coset, restricted to the rows in `selected`.
    pub fn forward_bytes_selected(
        &self,
        rows: &mut [u8],
        row_len: usize,
        selected: &[usize],
    ) -> (r: Result<(), TransformError>)
        requires
            self.wf(),
        ensures
            final(rows)@.len() == old(rows)@.len(),
            match self.inner().rows_error(old(rows)@.len() as usize, row_len) {
                Some(e) => r == Err::<(), TransformError>(e) && final(rows)@ == old(rows)@,
                None => if !valid_selection(selected@, span(self.inner().dim())) {
                    &&& r == Err::<(), TransformError>(TransformError::InvalidSelection)
                    &&& final(rows)@ == old(rows)@
                } else if selected@.len() == 0 {
                    r is Ok && final(rows)@ == old(rows)@
                } else {
                    r is Ok && unpack::<F>(final(rows)@) == pruned_model::<F>(
                        unpack::<F>(old(rows)@),
                        self.inner().heap(),
                        1,
                        self.inner().dim(),
                        0,
                        |row: int| selected@.contains(row as usize),
                    )
                },
            },
            r is Ok ==> forall|j: int|
                0 <= j < selected@.len() ==> row_final::<F>(
                unpack::<F>(old(rows)@),
                unpack::<F>(final(rows)@),
                self.inner().heap(),
                1,
                self.inner().dim(),
                lanes_of::<F>(row_len as nat),
                #[trigger] selected@[j] as int,
            ),
            row_len > 0 && (8 * row_len) % F::width() as int == 0 && old(rows)@.len() == span(self.inner().dim())
                * row_len && (selected@.len() > 0 ==> selected@.last() < span(self.inner().dim())) && (forall|i: int|
                0 < i < selected@.len() ==> selected@[i - 1] < #[trigger] selected@[i]) ==> r is Ok,
    {
        self.base.forward_bytes_selected(rows, row_len, selected)
    }

    /// Forward transform over the coset, restricted to a range of rows.
    pub fn forward_bytes_range(&self, rows: &mut [u8], row_len: usize, range: Range<usize>) -> (r:
        Result<(), TransformError>)
        requires
            self.wf(),
        ensures
            final(rows)@.len() == old(rows)@.len(),
            match self.inner().rows_error(old(rows)@.len() as usize, row_len) {
                Some(e) => r == Err::<(), TransformError>(e) && final(rows)@ == old(rows)@,
                None => match range_error(range.start, range.end, span(self.inner().dim()) as usize) {
                    Some(e) => r == Err::<(), TransformError>(e) && final(rows)@ == old(rows)@,
                    None => if range.start == range.end {
                        r is Ok && final(rows)@ == old(rows)@
                    } else {
                        r is Ok && unpack::<F>(final(rows)@) == pruned_model::<F>(
                            unpack::<F>(old(rows)@),
                            self.inner().heap(),
                            1,
                            self.inner().dim(),
                            0,
                            |row: int| range.start <= row < range.end,
                        )
                    },
                },
            },
            r is Ok ==> forall|k: int|
                range.start <= k < range.end ==> #[trigger] row_final::<F>(
                unpack::<F>(old(rows)@),
                unpack::<F>(final(rows)@),
                self.inner().heap(),
                1,
                self.inner().dim(),
                lanes_of::<F>(row_len as nat),
                k,
            ),
            row_len > 0 && (8 * row_len) % F::width() as int == 0 && old(rows)@.len() == span(self.inner().dim())
                * row_len && range.start <= range.end <= span(self.inner().dim()) ==> r is Ok,
    {
        self.base.forward_bytes_range(rows, row_len, range)
    }

    /// Truncated forward transform over the coset: the rows from `active` on are zero
    /// on entry, and only the rows in `range` are final outputs.
    pub fn forward_bytes_trunc_range(
        &self,
        rows: &mut [u8],
        row_len: usize,
        active: usize,
        range: Range<usize>,
    ) -> (r: Result<(), TransformError>)
        requires
            self.wf(),
        ensures
            final(rows)@.len() == old(rows)@.len(),
            match self.inner().rows_error(old(rows)@.len() as usize, row_len) {
                Some(e) => r == Err::<(), TransformError>(e) && final(rows)@ == old(rows)@,
                None => if active > span(self.inner().dim()) {
                    &&& r == Err::<(), TransformError>(
                        TransformError::InvalidActivePrefix {
                            active,
                            size: span(self.inner().dim()) as usize,
                        },
                    )
                    &&& final(rows)@ == old(rows)@
                } else {
                    match range_error(range.start, range.end, span(self.inner().dim()) as usize) {
                        Some(e) => r == Err::<(), TransformError>(e) && final(rows)@ == old(rows)@,
                        None => if range.start == range.end || active == 0 {
                            r is Ok && final(rows)@ == old(rows)@
                        } else {
                            r is Ok && unpack::<F>(final(rows)@) == truncated_model::<F>(
                                unpack::<F>(old(rows)@),
                                self.inner().heap(),
                                1,
                                self.inner().dim(),
                                lanes_of::<F>(row_len as nat),
                                active as nat,
                                0,
                                |row: int| range.start <= row < range.end,
                            )
                        },
                    }
                },
            },
            r is Ok && zero_from::<F>(
                unpack::<F>(old(rows)@),
                active * lanes_of::<F>(row_len as nat),
            ) ==> forall|k: int|
                range.start <= k < range.end ==> #[trigger] row_final::<F>(
                unpack::<F>(old(rows)@),
                unpack::<F>(final(rows)@),
                self.inner().heap(),
                1,
                self.inner().dim(),
                lanes_of::<F>(row_len as nat),
                k,
            ),
            row_len > 0 && (8 * row_len) % F::width() as int == 0 && old(rows)@.len() == span(self.inner().dim())
                * row_len && active <= span(self.inner().dim()) && range.start <= range.end <= span(self.inner().dim())
                ==> r is Ok,
    {
        self.base.forward_bytes_truncated_range(rows, row_len, active, range)
    }

    /// Evaluate the low half of the coefficients over the high half of the coset,
    /// restricted to `range`.
    pub fn forward_bytes_high_coset_range(
        &self,
        rows: &mut [u8],
        row_len: usize,
        range: Range<usize>,
    ) -> (r: Result<(), TransformError>)
        requires
            self.wf(),
        ensures
            final(rows)@.len() == old(rows)@.len(),
            if self.inner().dim() < 2 {
                &&& r == Err::<(), TransformError>(
                    TransformError::UnsupportedPlanSize {
                        size: span(self.inner().dim()) as usize,
                        minimum: 4,
                    },
                )
                &&& final(rows)@ == old(rows)@
            } else {
                let half = (span(self.inner().dim()) / 2) as usize;
                match geometry_error::<F>(old(rows)@.len() as usize, row_len, half) {
                    Some(e) => r == Err::<(), TransformError>(e) && final(rows)@ == old(rows)@,
                    None => match range_error(range.start, range.end, half) {
                        Some(e) => r == Err::<(), TransformError>(e) && final(rows)@ == old(rows)@,
                        None => if range.start == range.end {
                            r is Ok && final(rows)@ == old(rows)@
                        } else {
                            r is Ok && unpack::<F>(final(rows)@) == pruned_model::<F>(
                                unpack::<F>(old(rows)@),
                                self.inner().heap(),
                                3,
                                (self.inner().dim() - 1) as nat,
                                0,
                                |row: int| range.start <= row < range.end,
                            )
                        },
                    },
                }
            },
            r is Ok ==> forall|k: int|
                range.start <= k < range.end ==> #[trigger] row_final::<F>(
                unpack::<F>(old(rows)@),
                unpack::<F>(final(rows)@),
                self.inner().heap(),
                3,
                (self.inner().dim() - 1) as nat,
                lanes_of::<F>(row_len as nat),
                k,
            ),
            self.inner().dim() >= 2 && row_len > 0 && (8 * row_len) % F::width() as int == 0 && old(rows)@.len() == span((self.inner().dim() - 1) as nat)
                * row_len && range.start <= range.end <= span((self.inner().dim() - 1) as nat)
                ==> r is Ok,
    {
        self.base.forward_bytes_high_coset_range(rows, row_len, range)
    }

    /// Temporary rows that [`ShiftedPlan::inverse_truncated_bytes`] needs.
    pub fn inverse_truncated_scratch_rows(&self, active: usize) -> (r: Result<
        usize,
        TransformError,
    >)
        requires
            self.wf(),
        ensures
            if 1 <= active <= span(self.inner().dim()) {
                r matches Ok(n) && n == scratch_rows(self.inner().dim(), active as nat)
            } else {
                r == Err::<usize, TransformError>(
                    TransformError::InvalidActivePrefix {
                        active,
                        size: span(self.inner().dim()) as usize,
                    },
                )
            },
    {
        self.base.inverse_bytes_truncated_scratch_rows(active)
    }

    /// Truncated inverse transform over the coset: recovers the lowest `active`
    /// novel-basis coefficients.
    pub fn inverse_truncated_bytes(
        &self,
        rows: &mut [u8],
        row_len: usize,
        active: usize,
        scratch: &mut [u8],
    ) -> (r: Result<(), TransformError>)
        requires
            self.wf(),
        ensures
            final(rows)@.len() == old(rows)@.len(),
            final(scratch)@.len() == old(scratch)@.len(),
            match self.inner().rows_error(old(rows)@.len() as usize, row_len) {
                Some(e) => {
                    &&& r == Err::<(), TransformError>(e)
                    &&& final(rows)@ == old(rows)@
                    &&& final(scratch)@ == old(scratch)@
                },
                None => if active == 0 || active > span(self.inner().dim()) {
                    &&& r == Err::<(), TransformError>(
                        TransformError::InvalidActivePrefix {
                            active,
                            size: span(self.inner().dim()) as usize,
                        },
                    )
                    &&& final(rows)@ == old(rows)@
                    &&& final(scratch)@ == old(scratch)@
                } else {
                    let need = scratch_rows(self.inner().dim(), active as nat) * row_len;
                    if old(scratch)@.len() < need {
                        &&& r == Err::<(), TransformError>(
                            TransformError::ScratchTooSmall {
                                required: need as usize,
                                available: old(scratch)@.len() as usize,
                            },
                        )
                        &&& final(rows)@ == old(rows)@
                        &&& final(scratch)@ == old(scratch)@
                    } else {
                        &&& r is Ok
                        &&& unpack::<F>(final(rows)@) == truncated_inverse_model::<F>(
                            unpack::<F>(old(rows)@),
                            self.inner().heap(),
                            1,
                            self.inner().dim(),
                            lanes_of::<F>(row_len as nat),
                            active as nat,
                        )
                    }
                },
            },
            r is Ok ==> recovers::<F>(
                unpack::<F>(old(rows)@),
                unpack::<F>(final(rows)@),
                self.inner().heap(),
                self.inner().dim(),
                lanes_of::<F>(row_len as nat),
                active as nat,
            ),
            row_len > 0 && (8 * row_len) % F::width() as int == 0 && old(rows)@.len() == span(self.inner().dim())
                * row_len && 1 <= active <= span(self.inner().dim()) && old(scratch)@.len() >= scratch_rows(
                self.inner().dim(),
                active as nat,
            ) * row_len ==> r is Ok,
    {
        self.base.inverse_bytes_truncated_scratch(rows, row_len, active, scratch)
    }
}

} // verus!
