//! Execution controls: each function drives one schedule directly, whatever the
//! plan would select.

use vstd::prelude::*;

use crate::error::{NttError, TransformError};
use crate::kernel::ButterflyKernels;
use crate::ntt::field::NttField;
use crate::ntt::plan::{lanes_in, rows_error, rows_transformed, NttPlan, NttScratch};
use crate::pack::unpack;
use crate::transform::derivative::derivative_model;
use crate::transform::factors::FactorTable;
use crate::transform::plan::TransformPlan;

verus! {

/// The twiddle and derivative tables of a plan.
pub fn plan_table<F: ButterflyKernels>(plan: &TransformPlan<F>) -> (r: &FactorTable<F>)
    ensures
        r.heap() == plan.heap(),
        r.slopes() == plan.slopes(),
{
    plan.table()
}

/// The formal derivative over packed byte rows, by an ascending sweep over the source blocks.
pub fn derivative_into_bytes_sweep<F: ButterflyKernels>(
    derivative: &mut [u8],
    row_len: usize,
    plan: &TransformPlan<F>,
    coefficients: &[u8],
) -> (r: Result<(), TransformError>)
    requires
        plan.wf(),
    ensures
        final(derivative)@.len() == old(derivative)@.len(),
        match plan.derivative_error(
            old(derivative)@.len() as usize,
            row_len,
            coefficients@.len() as usize,
        ) {
            Some(e) => r == Err::<(), TransformError>(e) && final(derivative)@ == old(
                derivative,
            )@,
            None => r is Ok && unpack::<F>(final(derivative)@) == derivative_model::<F>(
                unpack::<F>(coefficients@),
                plan.slopes(),
                plan.dim(),
            ),
        },
{
    plan.derivative_into_bytes_sweep(derivative, row_len, coefficients)
}

/// The formal derivative over packed byte rows, by one multi-source gather per output row.
pub fn derivative_into_bytes_gather<F: ButterflyKernels>(
    derivative: &mut [u8],
    row_len: usize,
    plan: &TransformPlan<F>,
    coefficients: &[u8],
) -> (r: Result<(), TransformError>)
    requires
        plan.wf(),
    ensures
        final(derivative)@.len() == old(derivative)@.len(),
        match plan.derivative_error(
            old(derivative)@.len() as usize,
            row_len,
            coefficients@.len() as usize,
        ) {
            Some(e) => r == Err::<(), TransformError>(e) && final(derivative)@ == old(
                derivative,
            )@,
            None => r is Ok && unpack::<F>(final(derivative)@) == derivative_model::<F>(
                unpack::<F>(coefficients@),
                plan.slopes(),
                plan.dim(),
            ),
        },
{
    plan.derivative_into_bytes_gather(derivative, row_len, coefficients)
}

/// The formal derivative over packed byte rows, initialized from the first contributions.
pub fn derivative_into_bytes_overwrite<F: ButterflyKernels>(
    derivative: &mut [u8],
    row_len: usize,
    plan: &TransformPlan<F>,
    coefficients: &[u8],
) -> (r: Result<(), TransformError>)
    requires
        plan.wf(),
    ensures
        final(derivative)@.len() == old(derivative)@.len(),
        match plan.derivative_error(
            old(derivative)@.len() as usize,
            row_len,
            coefficients@.len() as usize,
        ) {
            Some(e) => r == Err::<(), TransformError>(e) && final(derivative)@ == old(
                derivative,
            )@,
            None => r is Ok && unpack::<F>(final(derivative)@) == derivative_model::<F>(
                unpack::<F>(coefficients@),
                plan.slopes(),
                plan.dim(),
            ),
        },
{
    plan.derivative_into_bytes_overwrite(derivative, row_len, coefficients)
}

/// The forward multiplicative transform through the fused butterflies.
pub fn ntt_forward_fused<F: NttField>(
    rows: &mut [u8],
    row_len: usize,
    plan: &NttPlan<F>,
    scratch: &mut NttScratch,
) -> (r: Result<(), NttError>)
    requires
        plan.wf(),
        old(scratch).wf(),
    ensures
        ({
            let error = rows_error::<F>(
                plan.points(),
                old(rows)@.len(),
                row_len,
                old(scratch).width(),
                old(scratch).capacity(),
            );
            &&& r is Ok <==> error is None
            &&& r matches Err(e) ==> Some(e) == error && final(rows)@ == old(rows)@
                && *final(scratch) == *old(scratch)
        }),
        r is Ok ==> rows_transformed::<F>(
            old(rows)@,
            final(rows)@,
            lanes_in::<F>(row_len),
            plan.points() as nat,
            plan.omega(),
        ),
        final(scratch).wf(),
        final(scratch).width() == old(scratch).width(),
        final(scratch).capacity() == old(scratch).capacity(),
{
    plan.forward_fused(rows, row_len, scratch)
}

/// The forward multiplicative transform through the packed butterflies.
pub fn ntt_forward_packed<F: NttField>(
    rows: &mut [u8],
    row_len: usize,
    plan: &NttPlan<F>,
    scratch: &mut NttScratch,
) -> (r: Result<(), NttError>)
    requires
        plan.wf(),
        old(scratch).wf(),
    ensures
        ({
            let error = rows_error::<F>(
                plan.points(),
                old(rows)@.len(),
                row_len,
                old(scratch).width(),
                old(scratch).capacity(),
            );
            &&& r is Ok <==> error is None
            &&& r matches Err(e) ==> Some(e) == error && final(rows)@ == old(rows)@
                && *final(scratch) == *old(scratch)
        }),
        r is Ok ==> rows_transformed::<F>(
            old(rows)@,
            final(rows)@,
            lanes_in::<F>(row_len),
            plan.points() as nat,
            plan.omega(),
        ),
        final(scratch).wf(),
        final(scratch).width() == old(scratch).width(),
        final(scratch).capacity() == old(scratch).capacity(),
{
    plan.forward_packed(rows, row_len, scratch)
}

/// The forward multiplicative transform through the batched butterflies.
pub fn ntt_forward_batched<F: NttField>(
    rows: &mut [u8],
    row_len: usize,
    plan: &NttPlan<F>,
    scratch: &mut NttScratch,
) -> (r: Result<(), NttError>)
    requires
        plan.wf(),
        old(scratch).wf(),
    ensures
        ({
            let error = rows_error::<F>(
                plan.points(),
                old(rows)@.len(),
                row_len,
                old(scratch).width(),
                old(scratch).capacity(),
            );
            &&& r is Ok <==> error is None
            &&& r matches Err(e) ==> Some(e) == error && final(rows)@ == old(rows)@
                && *final(scratch) == *old(scratch)
        }),
        r is Ok ==> rows_transformed::<F>(
            old(rows)@,
            final(rows)@,
            lanes_in::<F>(row_len),
            plan.points() as nat,
            plan.omega(),
        ),
        final(scratch).wf(),
        final(scratch).width() == old(scratch).width(),
        final(scratch).capacity() == old(scratch).capacity(),
{
    plan.forward_batched(rows, row_len, scratch)
}

} // verus!
