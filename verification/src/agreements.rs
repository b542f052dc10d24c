//! Calls that agree with one another: the forms of one operation give one result.

use std::ops::Range;

use vstd::arithmetic::div_mod::lemma_fundamental_div_mod;
use vstd::prelude::*;

use crate::basis::convert::{
    conversion_scratch_elements, monomial_to_novel, monomial_to_novel_with_scratch,
    novel_to_monomial, novel_to_monomial_with_scratch,
};
use crate::basis::convert_laws::law_conversion_is_injective;
use crate::error::{NttError, TransformError};
use crate::field::{fadd, fmul, fzero, lemma_mul, BinaryField, Gf16, Gf8B};
use crate::grid::entry;
use crate::kernel::{
    row_add, row_clear, row_copy, row_mul_add, row_mul_into, xor_scaled_bytes_rows, Backend,
    ButterflyKernels,
};
use crate::ntt::field::NttField;
use crate::ntt::plan::{
    lanes_in, lemma_geometry, lemma_index, rows_transformed, schedule_for, NttPlan, NttScratch,
};
use crate::ntt::rows::{lemma_canonical_injective, lemma_code_bytes, values, Schedule};
use crate::pack::{lemma_elem_bytes, unpack, whole};
use crate::payload::{FastEccNttBuffer, LeopardBuffer, NanorsBuffer};
use crate::shifted::ShiftedPlan;
use crate::tables::{multiply_base, FactorTables, FactorWords, ScaleTable};
use crate::transform::plan::{derivative_schedule, DerivativeSchedule, TransformPlan};

verus! {

proof fn lemma_done<E>(r: Result<(), E>, q: Result<(), E>)
    ensures
        r is Ok && q is Ok ==> r == q,
{
    if r is Ok && q is Ok {
        assert(r->Ok_0 == q->Ok_0);
    }
}

/// Evaluation over a coset is that of the plan beneath.
pub proof fn law_shifted_forward<F: ButterflyKernels>(
    shifted: &ShiftedPlan<F>,
    plan: &TransformPlan<F>,
    a: &mut [F::Elem],
    b: &mut [F::Elem],
    r: Result<(), TransformError>,
    q: Result<(), TransformError>,
)
    requires
        shifted.wf(),
        *plan == shifted.inner(),
        call_ensures(ShiftedPlan::<F>::forward, (shifted, a), r),
        call_ensures(TransformPlan::<F>::forward, (plan, b), q),
        old(a)@ == old(b)@,
    ensures
        r == q,
        final(a)@ == final(b)@,
{
    lemma_done(r, q);
}

/// Interpolation over a coset is that of the plan beneath.
pub proof fn law_shifted_inverse<F: ButterflyKernels>(
    shifted: &ShiftedPlan<F>,
    plan: &TransformPlan<F>,
    a: &mut [F::Elem],
    b: &mut [F::Elem],
    r: Result<(), TransformError>,
    q: Result<(), TransformError>,
)
    requires
        shifted.wf(),
        *plan == shifted.inner(),
        call_ensures(ShiftedPlan::<F>::inverse, (shifted, a), r),
        call_ensures(TransformPlan::<F>::inverse, (plan, b), q),
        old(a)@ == old(b)@,
    ensures
        r == q,
        final(a)@ == final(b)@,
{
    lemma_done(r, q);
}

/// The derivative over a coset is that of the plan beneath.
pub proof fn law_shifted_derivative<F: ButterflyKernels>(
    shifted: &ShiftedPlan<F>,
    plan: &TransformPlan<F>,
    a: &mut [F::Elem],
    b: &mut [F::Elem],
    c: &[F::Elem],
    r: Result<(), TransformError>,
    q: Result<(), TransformError>,
)
    requires
        shifted.wf(),
        *plan == shifted.inner(),
        call_ensures(ShiftedPlan::<F>::derivative, (shifted, c, a), r),
        call_ensures(TransformPlan::<F>::derivative_into, (plan, b, c), q),
        old(a)@ == old(b)@,
    ensures
        r == q,
        final(a)@ == final(b)@,
{
    lemma_done(r, q);
}

/// Evaluation of packed rows over a coset is that of the plan beneath.
pub proof fn law_shifted_forward_bytes<F: ButterflyKernels>(
    shifted: &ShiftedPlan<F>,
    plan: &TransformPlan<F>,
    a: &mut [u8],
    b: &mut [u8],
    row_len: usize,
    r: Result<(), TransformError>,
    q: Result<(), TransformError>,
)
    requires
        shifted.wf(),
        *plan == shifted.inner(),
        call_ensures(ShiftedPlan::<F>::forward_bytes, (shifted, a, row_len), r),
        call_ensures(TransformPlan::<F>::forward_bytes, (plan, b, row_len), q),
        old(a)@ == old(b)@,
    ensures
        r == q,
        unpack::<F>(final(a)@) == unpack::<F>(final(b)@),
{
    lemma_done(r, q);
}

/// Interpolation of packed rows over a coset is that of the plan beneath.
pub proof fn law_shifted_inverse_bytes<F: ButterflyKernels>(
    shifted: &ShiftedPlan<F>,
    plan: &TransformPlan<F>,
    a: &mut [u8],
    b: &mut [u8],
    row_len: usize,
    r: Result<(), TransformError>,
    q: Result<(), TransformError>,
)
    requires
        shifted.wf(),
        *plan == shifted.inner(),
        call_ensures(ShiftedPlan::<F>::inverse_bytes, (shifted, a, row_len), r),
        call_ensures(TransformPlan::<F>::inverse_bytes, (plan, b, row_len), q),
        old(a)@ == old(b)@,
    ensures
        r == q,
        unpack::<F>(final(a)@) == unpack::<F>(final(b)@),
{
    lemma_done(r, q);
}

/// The derivative of packed rows over a coset is that of the plan beneath.
pub proof fn law_shifted_derivative_bytes<F: ButterflyKernels>(
    shifted: &ShiftedPlan<F>,
    plan: &TransformPlan<F>,
    a: &mut [u8],
    b: &mut [u8],
    row_len: usize,
    c: &[u8],
    r: Result<(), TransformError>,
    q: Result<(), TransformError>,
)
    requires
        shifted.wf(),
        *plan == shifted.inner(),
        call_ensures(ShiftedPlan::<F>::derivative_bytes, (shifted, c, row_len, a), r),
        call_ensures(TransformPlan::<F>::derivative_into_bytes, (plan, b, row_len, c), q),
        old(a)@ == old(b)@,
    ensures
        r == q,
        unpack::<F>(final(a)@) == unpack::<F>(final(b)@),
{
    lemma_done(r, q);
}

/// Selected outputs over a coset are those of the plan beneath.
pub proof fn law_shifted_selected<F: ButterflyKernels>(
    shifted: &ShiftedPlan<F>,
    plan: &TransformPlan<F>,
    a: &mut [u8],
    b: &mut [u8],
    row_len: usize,
    selected: &[usize],
    r: Result<(), TransformError>,
    q: Result<(), TransformError>,
)
    requires
        shifted.wf(),
        *plan == shifted.inner(),
        call_ensures(ShiftedPlan::<F>::forward_bytes_selected, (shifted, a, row_len, selected), r),
        call_ensures(TransformPlan::<F>::forward_bytes_selected, (plan, b, row_len, selected), q),
        old(a)@ == old(b)@,
    ensures
        r == q,
        unpack::<F>(final(a)@) == unpack::<F>(final(b)@),
{
    lemma_done(r, q);
}

/// A range of outputs over a coset is that of the plan beneath.
pub proof fn law_shifted_range<F: ButterflyKernels>(
    shifted: &ShiftedPlan<F>,
    plan: &TransformPlan<F>,
    a: &mut [u8],
    b: &mut [u8],
    row_len: usize,
    range: Range<usize>,
    r: Result<(), TransformError>,
    q: Result<(), TransformError>,
)
    requires
        shifted.wf(),
        *plan == shifted.inner(),
        call_ensures(ShiftedPlan::<F>::forward_bytes_range, (shifted, a, row_len, range), r),
        call_ensures(TransformPlan::<F>::forward_bytes_range, (plan, b, row_len, range), q),
        old(a)@ == old(b)@,
    ensures
        r == q,
        unpack::<F>(final(a)@) == unpack::<F>(final(b)@),
{
    lemma_done(r, q);
}

/// A range of outputs of a zero tail over a coset is that of the plan beneath.
pub proof fn law_shifted_truncated_range<F: ButterflyKernels>(
    shifted: &ShiftedPlan<F>,
    plan: &TransformPlan<F>,
    a: &mut [u8],
    b: &mut [u8],
    row_len: usize,
    active: usize,
    range: Range<usize>,
    r: Result<(), TransformError>,
    q: Result<(), TransformError>,
)
    requires
        shifted.wf(),
        *plan == shifted.inner(),
        call_ensures(
            ShiftedPlan::<F>::forward_bytes_trunc_range,
            (shifted, a, row_len, active, range),
            r,
        ),
        call_ensures(
            TransformPlan::<F>::forward_bytes_truncated_range,
            (plan, b, row_len, active, range),
            q,
        ),
        old(a)@ == old(b)@,
    ensures
        r == q,
        unpack::<F>(final(a)@) == unpack::<F>(final(b)@),
{
    lemma_done(r, q);
}

/// A range of the high half over a coset is that of the plan beneath.
pub proof fn law_shifted_high_coset_range<F: ButterflyKernels>(
    shifted: &ShiftedPlan<F>,
    plan: &TransformPlan<F>,
    a: &mut [u8],
    b: &mut [u8],
    row_len: usize,
    range: Range<usize>,
    r: Result<(), TransformError>,
    q: Result<(), TransformError>,
)
    requires
        shifted.wf(),
        *plan == shifted.inner(),
        call_ensures(
            ShiftedPlan::<F>::forward_bytes_high_coset_range,
            (shifted, a, row_len, range),
            r,
        ),
        call_ensures(
            TransformPlan::<F>::forward_bytes_high_coset_range,
            (plan, b, row_len, range),
            q,
        ),
        old(a)@ == old(b)@,
    ensures
        r == q,
        unpack::<F>(final(a)@) == unpack::<F>(final(b)@),
{
    lemma_done(r, q);
}

/// Recovery of a prefix over a coset is that of the plan beneath.
pub proof fn law_shifted_truncated_inverse<F: ButterflyKernels>(
    shifted: &ShiftedPlan<F>,
    plan: &TransformPlan<F>,
    a: &mut [u8],
    s: &mut [u8],
    b: &mut [u8],
    t: &mut [u8],
    row_len: usize,
    active: usize,
    r: Result<(), TransformError>,
    q: Result<(), TransformError>,
)
    requires
        shifted.wf(),
        *plan == shifted.inner(),
        call_ensures(
            ShiftedPlan::<F>::inverse_truncated_bytes,
            (shifted, a, row_len, active, s),
            r,
        ),
        call_ensures(
            TransformPlan::<F>::inverse_bytes_truncated_scratch,
            (plan, b, row_len, active, t),
            q,
        ),
        old(a)@ == old(b)@,
        old(s)@ == old(t)@,
    ensures
        r == q,
        unpack::<F>(final(a)@) == unpack::<F>(final(b)@),
{
    lemma_done(r, q);
}

/// The sweep schedule gives the derivative, as do its callers outside of the plan.
pub proof fn law_derivative_by_sweep<F: ButterflyKernels>(
    plan: &TransformPlan<F>,
    a: &mut [u8],
    b: &mut [u8],
    c: &mut [u8],
    row_len: usize,
    coefficients: &[u8],
    r: Result<(), TransformError>,
    q: Result<(), TransformError>,
    s: Result<(), TransformError>,
)
    requires
        plan.wf(),
        call_ensures(
            TransformPlan::<F>::derivative_into_bytes_sweep,
            (plan, a, row_len, coefficients),
            r,
        ),
        call_ensures(
            TransformPlan::<F>::derivative_into_bytes,
            (plan, b, row_len, coefficients),
            q,
        ),
        call_ensures(
            crate::tuning::derivative_into_bytes_sweep::<F>,
            (c, row_len, plan, coefficients),
            s,
        ),
        old(a)@ == old(b)@,
        old(c)@ == old(b)@,
    ensures
        r == q,
        s == q,
        unpack::<F>(final(a)@) == unpack::<F>(final(b)@),
        unpack::<F>(final(c)@) == unpack::<F>(final(b)@),
{
    lemma_done(r, q);
    lemma_done(s, q);
}

/// The gather schedule gives the derivative, as do its callers outside of the plan.
pub proof fn law_derivative_by_gather<F: ButterflyKernels>(
    plan: &TransformPlan<F>,
    a: &mut [u8],
    b: &mut [u8],
    c: &mut [u8],
    row_len: usize,
    coefficients: &[u8],
    r: Result<(), TransformError>,
    q: Result<(), TransformError>,
    s: Result<(), TransformError>,
)
    requires
        plan.wf(),
        call_ensures(
            TransformPlan::<F>::derivative_into_bytes_gather,
            (plan, a, row_len, coefficients),
            r,
        ),
        call_ensures(
            TransformPlan::<F>::derivative_into_bytes,
            (plan, b, row_len, coefficients),
            q,
        ),
        call_ensures(
            crate::tuning::derivative_into_bytes_gather::<F>,
            (c, row_len, plan, coefficients),
            s,
        ),
        old(a)@ == old(b)@,
        old(c)@ == old(b)@,
    ensures
        r == q,
        s == q,
        unpack::<F>(final(a)@) == unpack::<F>(final(b)@),
        unpack::<F>(final(c)@) == unpack::<F>(final(b)@),
{
    lemma_done(r, q);
    lemma_done(s, q);
}

/// The overwrite schedule gives the derivative, as do its callers outside of the plan.
pub proof fn law_derivative_by_overwrite<F: ButterflyKernels>(
    plan: &TransformPlan<F>,
    a: &mut [u8],
    b: &mut [u8],
    c: &mut [u8],
    row_len: usize,
    coefficients: &[u8],
    r: Result<(), TransformError>,
    q: Result<(), TransformError>,
    s: Result<(), TransformError>,
)
    requires
        plan.wf(),
        call_ensures(
            TransformPlan::<F>::derivative_into_bytes_overwrite,
            (plan, a, row_len, coefficients),
            r,
        ),
        call_ensures(
            TransformPlan::<F>::derivative_into_bytes,
            (plan, b, row_len, coefficients),
            q,
        ),
        call_ensures(
            crate::tuning::derivative_into_bytes_overwrite::<F>,
            (c, row_len, plan, coefficients),
            s,
        ),
        old(a)@ == old(b)@,
        old(c)@ == old(b)@,
    ensures
        r == q,
        s == q,
        unpack::<F>(final(a)@) == unpack::<F>(final(b)@),
        unpack::<F>(final(c)@) == unpack::<F>(final(b)@),
{
    lemma_done(r, q);
    lemma_done(s, q);
}

/// The derivative added in place: every entry of the result differs from the
/// coefficient by the entry of the derivative.
pub proof fn law_derivative_added<F: ButterflyKernels>(
    plan: &TransformPlan<F>,
    rows: &mut [u8],
    derivative: &mut [u8],
    row_len: usize,
    coefficients: &[u8],
    r: Result<(), TransformError>,
    q: Result<(), TransformError>,
    i: int,
)
    requires
        plan.wf(),
        call_ensures(TransformPlan::<F>::derivative_plus_identity_bytes, (plan, rows, row_len), r),
        call_ensures(
            TransformPlan::<F>::derivative_into_bytes,
            (plan, derivative, row_len, coefficients),
            q,
        ),
        old(rows)@ == coefficients@,
        q is Ok,
        0 <= i < unpack::<F>(coefficients@).len(),
    ensures
        r is Ok,
        unpack::<F>(final(rows)@)[i] == fadd::<F>(
            unpack::<F>(coefficients@)[i],
            unpack::<F>(final(derivative)@)[i],
        ),
{
    plan.law_byte_rows_are_taken(coefficients.len(), row_len, old(derivative).len());
}

/// The fused form gives the values of the plain one.
pub proof fn law_ntt_forward_fused<F: NttField>(
    plan: &NttPlan<F>,
    a: &mut [u8],
    b: &mut [u8],
    c: &mut [u8],
    row_len: usize,
    sa: &mut NttScratch,
    sb: &mut NttScratch,
    sc: &mut NttScratch,
    r: Result<(), NttError>,
    q: Result<(), NttError>,
    s: Result<(), NttError>,
)
    requires
        plan.wf(),
        old(sa).wf(),
        *old(sb) == *old(sa),
        *old(sc) == *old(sa),
        call_ensures(NttPlan::<F>::forward_fused, (plan, a, row_len, sa), r),
        call_ensures(NttPlan::<F>::forward_bytes_scratch, (plan, b, row_len, sb), q),
        call_ensures(crate::tuning::ntt_forward_fused::<F>, (c, row_len, plan, sc), s),
        old(a)@ == old(b)@,
        old(c)@ == old(b)@,
    ensures
        r == q,
        s == q,
        q is Ok ==> final(a)@ == final(b)@ && final(c)@ == final(b)@,
{
    lemma_done(r, q);
    lemma_done(s, q);
    if q is Ok {
        lemma_same_transform::<F>(plan, old(b)@, final(a)@, final(b)@, row_len);
        lemma_same_transform::<F>(plan, old(b)@, final(c)@, final(b)@, row_len);
    }
}

/// The packed form gives the values of the plain one.
pub proof fn law_ntt_forward_packed<F: NttField>(
    plan: &NttPlan<F>,
    a: &mut [u8],
    b: &mut [u8],
    c: &mut [u8],
    row_len: usize,
    sa: &mut NttScratch,
    sb: &mut NttScratch,
    sc: &mut NttScratch,
    r: Result<(), NttError>,
    q: Result<(), NttError>,
    s: Result<(), NttError>,
)
    requires
        plan.wf(),
        old(sa).wf(),
        *old(sb) == *old(sa),
        *old(sc) == *old(sa),
        call_ensures(NttPlan::<F>::forward_packed, (plan, a, row_len, sa), r),
        call_ensures(NttPlan::<F>::forward_bytes_scratch, (plan, b, row_len, sb), q),
        call_ensures(crate::tuning::ntt_forward_packed::<F>, (c, row_len, plan, sc), s),
        old(a)@ == old(b)@,
        old(c)@ == old(b)@,
    ensures
        r == q,
        s == q,
        q is Ok ==> final(a)@ == final(b)@ && final(c)@ == final(b)@,
{
    lemma_done(r, q);
    lemma_done(s, q);
    if q is Ok {
        lemma_same_transform::<F>(plan, old(b)@, final(a)@, final(b)@, row_len);
        lemma_same_transform::<F>(plan, old(b)@, final(c)@, final(b)@, row_len);
    }
}

/// The batched form gives the values of the plain one.
pub proof fn law_ntt_forward_batched<F: NttField>(
    plan: &NttPlan<F>,
    a: &mut [u8],
    b: &mut [u8],
    c: &mut [u8],
    row_len: usize,
    sa: &mut NttScratch,
    sb: &mut NttScratch,
    sc: &mut NttScratch,
    r: Result<(), NttError>,
    q: Result<(), NttError>,
    s: Result<(), NttError>,
)
    requires
        plan.wf(),
        old(sa).wf(),
        *old(sb) == *old(sa),
        *old(sc) == *old(sa),
        call_ensures(NttPlan::<F>::forward_batched, (plan, a, row_len, sa), r),
        call_ensures(NttPlan::<F>::forward_bytes_scratch, (plan, b, row_len, sb), q),
        call_ensures(crate::tuning::ntt_forward_batched::<F>, (c, row_len, plan, sc), s),
        old(a)@ == old(b)@,
        old(c)@ == old(b)@,
    ensures
        r == q,
        s == q,
        q is Ok ==> final(a)@ == final(b)@ && final(c)@ == final(b)@,
{
    lemma_done(r, q);
    lemma_done(s, q);
    if q is Ok {
        lemma_same_transform::<F>(plan, old(b)@, final(a)@, final(b)@, row_len);
        lemma_same_transform::<F>(plan, old(b)@, final(c)@, final(b)@, row_len);
    }
}

proof fn lemma_same_transform<F: NttField>(
    plan: &NttPlan<F>,
    before: Seq<u8>,
    a: Seq<u8>,
    b: Seq<u8>,
    row_len: usize,
)
    requires
        row_len > 0,
        row_len as nat % F::code_bytes() == 0,
        before.len() == plan.points() * row_len,
        rows_transformed::<F>(
            before,
            a,
            lanes_in::<F>(row_len),
            plan.points() as nat,
            plan.omega(),
        ),
        rows_transformed::<F>(
            before,
            b,
            lanes_in::<F>(row_len),
            plan.points() as nat,
            plan.omega(),
        ),
    ensures
        a == b,
{
    let (lanes, n) = (lanes_in::<F>(row_len), plan.points() as nat);
    lemma_geometry::<F>(plan.points(), before.len(), row_len);
    lemma_code_bytes::<F>();
    let (x, y) = (values::<F>(a), values::<F>(b));
    assert forall|t: int| 0 <= t < x.len() implies x[t] == y[t] by {
        let (k, l) = lemma_index::<F>(t, lanes, n);
        assert(entry(x, lanes, k, l) == entry(y, lanes, k, l));
    }
    assert(x =~= y);
    lemma_canonical_injective::<F>(a, b);
}

/// Row operations, entry by entry.
pub proof fn law_row_calls<F: BinaryField>(
    sum: &mut [u8],
    scaled_sum: &mut [u8],
    scaled: &mut [u8],
    copied: &mut [u8],
    cleared: &mut [u8],
    c: F::Elem,
    src: &[u8],
    i: int,
)
    requires
        whole::<F>(src@.len() as int),
        old(sum)@.len() == src@.len(),
        old(scaled_sum)@.len() == src@.len(),
        old(scaled)@.len() == src@.len(),
        old(copied)@.len() == src@.len(),
        old(cleared)@.len() == src@.len(),
        call_ensures(row_add::<F>, (sum, src), ()),
        call_ensures(row_mul_add::<F>, (scaled_sum, c, src), ()),
        call_ensures(row_mul_into::<F>, (scaled, c, src), ()),
        call_ensures(row_copy, (copied, src), ()),
        call_ensures(row_clear::<F>, (cleared,), ()),
        0 <= i < unpack::<F>(src@).len(),
    ensures
        unpack::<F>(final(sum)@)[i] == fadd::<F>(
            unpack::<F>(old(sum)@)[i],
            unpack::<F>(src@)[i],
        ),
        unpack::<F>(final(scaled_sum)@)[i] == fadd::<F>(
            unpack::<F>(old(scaled_sum)@)[i],
            fmul::<F>(c, unpack::<F>(src@)[i]),
        ),
        unpack::<F>(final(scaled)@)[i] == fmul::<F>(c, unpack::<F>(src@)[i]),
        final(copied)@ == src@,
        unpack::<F>(final(cleared)@)[i] == fzero::<F>(),
{
    lemma_elem_bytes::<F>();
}

/// Scaled sums into many rows: every row gains its coefficient times the source.
pub proof fn law_scaled_sum_rows<F: BinaryField>(
    destinations: &mut [u8],
    row_len: usize,
    coefficients: &[F::Elem],
    source: &[u8],
    lanes: nat,
    j: int,
    l: int,
)
    requires
        row_len > 0,
        whole::<F>(row_len as int),
        source@.len() == row_len,
        old(destinations)@.len() == coefficients@.len() * row_len,
        call_ensures(
            xor_scaled_bytes_rows::<F>,
            (destinations, row_len, coefficients, source),
            (),
        ),
        lanes == unpack::<F>(source@).len(),
        0 <= j < coefficients@.len(),
        0 <= l < lanes,
    ensures
        unpack::<F>(final(destinations)@)[j * lanes + l] == fadd::<F>(
            unpack::<F>(old(destinations)@)[j * lanes + l],
            fmul::<F>(coefficients@[j], unpack::<F>(source@)[l]),
        ),
{
    let (before, after) = (unpack::<F>(old(destinations)@), unpack::<F>(final(destinations)@));
    assert(entry(after, lanes, j, l) == after[j * lanes + l]);
    assert(entry(before, lanes, j, l) == before[j * lanes + l]);
}

/// Prepared products of bytes: the table of a coefficient, and the plain rounds, give
/// the product in the field.
pub proof fn law_prepared_byte_products(
    c: u8,
    x: u8,
    table: ScaleTable,
    y: u8,
    z: u8,
)
    requires
        call_ensures(ScaleTable::new, (c,), table),
        call_ensures(ScaleTable::multiply, (&table, x), y),
        call_ensures(multiply_base, (x, c), z),
    ensures
        table.wf(),
        y == fmul::<Gf8B>(c, x),
        z == fmul::<Gf8B>(c, x),
{
    reveal(fmul);
    lemma_mul::<Gf8B>(x, c, x);
}

/// Prepared products of two bytes: the tables of a coefficient and its words give the
/// product in the field.
pub proof fn law_prepared_products(
    c: u16,
    x: u16,
    tables: FactorTables,
    words: FactorWords,
    y: u16,
    z: u16,
)
    requires
        call_ensures(FactorTables::new, (c,), tables),
        call_ensures(FactorTables::multiply, (&tables, x), y),
        call_ensures(FactorWords::new, (c,), words),
        call_ensures(FactorWords::multiply, (&words, x), z),
    ensures
        tables.wf(),
        words.wf(),
        y == fmul::<Gf16>(c, x),
        z == fmul::<Gf16>(c, x),
{
    reveal(fmul);
    lemma_mul::<Gf16>(x, c, x);
}

/// A retained payload is handed back as it was given, with its points and the bytes of
/// a row, which fill it.
pub proof fn law_payloads(
    bytes: Vec<u8>,
    points: usize,
    buffer: LeopardBuffer,
    shown: &[u8],
    taken: Vec<u8>,
    count: usize,
    row_len: usize,
)
    requires
        points > 0,
        bytes@.len() % points as nat == 0,
        call_ensures(LeopardBuffer::new, (bytes, points), buffer),
        call_ensures(LeopardBuffer::as_bytes, (&buffer,), shown),
        call_ensures(LeopardBuffer::into_bytes, (buffer,), taken),
        call_ensures(LeopardBuffer::points, (&buffer,), count),
        call_ensures(LeopardBuffer::row_len, (&buffer,), row_len),
    ensures
        shown@ == bytes@,
        taken@ == bytes@,
        count == points,
        count * row_len == bytes@.len(),
{
    lemma_fundamental_div_mod(bytes@.len() as int, points as int);
}

/// A retained payload of another layout is handed back likewise.
pub proof fn law_other_payloads(
    bytes: Vec<u8>,
    points: usize,
    buffer: NanorsBuffer,
    shown: &[u8],
    taken: Vec<u8>,
    count: usize,
    row_len: usize,
)
    requires
        points > 0,
        bytes@.len() % points as nat == 0,
        call_ensures(NanorsBuffer::new, (bytes, points), buffer),
        call_ensures(NanorsBuffer::as_bytes, (&buffer,), shown),
        call_ensures(NanorsBuffer::into_bytes, (buffer,), taken),
        call_ensures(NanorsBuffer::points, (&buffer,), count),
        call_ensures(NanorsBuffer::row_len, (&buffer,), row_len),
    ensures
        shown@ == bytes@,
        taken@ == bytes@,
        count == points,
        count * row_len == bytes@.len(),
{
    lemma_fundamental_div_mod(bytes@.len() as int, points as int);
}

/// A shape reports the points and the lanes that it was made of.
pub proof fn law_shapes(
    points: usize,
    lanes: usize,
    buffer: FastEccNttBuffer,
    p: usize,
    l: usize,
)
    requires
        call_ensures(FastEccNttBuffer::shaped, (points, lanes), buffer),
        call_ensures(FastEccNttBuffer::points, (&buffer,), p),
        call_ensures(FastEccNttBuffer::lanes, (&buffer,), l),
    ensures
        p == points,
        l == lanes,
{
}

/// Butterflies are packed on the rows of more than eight bytes that the machine has a
/// vector kernel for, and on no others.
pub proof fn law_butterfly_schedules(vectorized: bool, row_len: usize, s: Schedule)
    requires
        call_ensures(schedule_for, (vectorized, row_len), s),
    ensures
        s is Packed || s is Fused,
        s is Packed <==> vectorized && row_len > 8,
{
}

/// The derivative gathers on the widest kernels, from rows of 64 KiB on and of 1 KiB on
/// for bytes; it overwrites on those and without kernels, for elements of at most two
/// bytes, from rows of 1 KiB on; and sweeps otherwise.
pub proof fn law_derivative_schedules<F: BinaryField>(
    selected: Backend,
    row_len: usize,
    s: DerivativeSchedule,
)
    requires
        call_ensures(derivative_schedule::<F>, (selected, row_len), s),
    ensures
        s is Gather <==> selected is V3GfniCrypto && (row_len >= 65536 || F::width() == 8
            && row_len >= 1024),
        s is Overwrite <==> 1024 <= row_len && F::width() <= 16 && (selected is Scalar
            || selected is V3GfniCrypto && F::width() != 8 && row_len < 65536),
        s is Sweep <==> !(s is Gather) && !(s is Overwrite),
{
    F::lemma_width();
    lemma_elem_bytes::<F>();
}

/// Conversions in given workspace are those that allocate theirs.
pub proof fn law_conversions_in_workspace<F: ButterflyKernels>(
    plan: &TransformPlan<F>,
    a: &mut [F::Elem],
    b: &mut [F::Elem],
    c: &mut [F::Elem],
    d: &mut [F::Elem],
    s: &mut [F::Elem],
    t: &mut [F::Elem],
    need: usize,
    ra: Result<(), TransformError>,
    rb: Result<(), TransformError>,
    rc: Result<(), TransformError>,
    rd: Result<(), TransformError>,
)
    requires
        plan.wf(),
        call_ensures(conversion_scratch_elements, (old(a).len(),), need),
        call_ensures(novel_to_monomial_with_scratch::<F>, (a, plan, s), ra),
        call_ensures(novel_to_monomial::<F>, (b, plan), rb),
        call_ensures(monomial_to_novel_with_scratch::<F>, (c, plan, t), rc),
        call_ensures(monomial_to_novel::<F>, (d, plan), rd),
        old(b)@ == old(a)@,
        old(d)@ == old(c)@,
        old(c)@.len() == old(a)@.len(),
        old(s)@.len() >= need,
        old(t)@.len() >= need,
    ensures
        ra == rb,
        rc == rd,
        final(a)@ == final(b)@,
        final(c)@ == final(d)@,
{
    lemma_done(ra, rb);
    lemma_done(rc, rd);
    if rc is Ok {
        plan.lemma_wf();
        law_conversion_is_injective::<F>(
            final(c)@,
            final(d)@,
            plan.domain_basis(),
            plan.dim(),
            1,
        );
    }
}

} // verus!
