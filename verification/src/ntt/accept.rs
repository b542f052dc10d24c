//! When calls of the transforms succeed, in terms of their arguments.

use std::collections::TryReserveError;

use vstd::arithmetic::power2::{lemma2_to64, pow2};
use vstd::prelude::*;

use crate::error::NttError;
use crate::field::BinaryField;
use crate::ntt::field::NttField;
use crate::ntt::fourstep::{fourstep_error, parts_refused, FourStepPlan, FourStepScratch};
use crate::ntt::plan::{
    lanes_in, root_of, rows_error, scratch_error, size_error, tables_refused, NttPlan, NttScratch,
};
use crate::ntt::prime::{Goldilocks, Mersenne31, QuadMersenne31};
use crate::ntt::reserve::refused;
use crate::ntt::rows::lemma_code_bytes;
use crate::span::{is_span, lemma_span_injective, lemma_span_limits, lemma_span_monotone, span};
use crate::transform::accept::law_spans_are_powers_of_two;

verus! {

/// Sizes: a size is supported exactly if it is a power of two, at most `2^20`, that
/// divides the order of the field less one.
pub proof fn law_supported_sizes<F: NttField>(size: usize, k: nat)
    ensures
        size == pow2(k) && k <= 20 && (F::order() - 1) % (size as int) == 0 ==> size_error::<F>(size)
            is None,
        size == pow2(k) && (k > 20 || (F::order() - 1) % (size as int) != 0) ==> size_error::<F>(
            size,
        ) == Some(NttError::UnsupportedSize { size, field_order: F::order() as u128 }),
        (forall|j: nat| size != #[trigger] pow2(j)) ==> size_error::<F>(size) == Some(
            NttError::InvalidSize { size },
        ),
{
    if size == pow2(k) {
        law_spans_are_powers_of_two(k);
        assert(span(k) == size as nat);
        if k <= 20 {
            lemma_span_monotone(k, 20);
        } else {
            lemma_span_monotone(20, k);
        }
    }
    if forall|j: nat| size != #[trigger] pow2(j) {
        if is_span(size as nat) {
            let j = choose|j: nat| #[trigger] span(j) == size;
            law_spans_are_powers_of_two(j);
            assert(size == pow2(j));
        }
    }
}

/// A plan of a supported size is refused only where the allocator refused room for
/// one of its tables, and an unsupported size always is, with its own error.
pub proof fn law_supported_sizes_have_plans<F: NttField>(
    size: usize,
    k: nat,
    plan: Result<NttPlan<F>, NttError>,
)
    requires
        call_ensures(NttPlan::<F>::new, (size,), plan),
    ensures
        size == pow2(k) && k <= 20 && (F::order() - 1) % (size as int) == 0 ==> {
            &&& (forall|room: &mut Vec<usize>, n: usize, e: TryReserveError|
                n == size || n == k ==> !call_ensures(
                    Vec::<usize>::try_reserve,
                    (room, n),
                    Err::<(), TryReserveError>(e),
                )) && (forall|room: &mut Vec<F::Elem>, n: usize, e: TryReserveError|
                n + 1 == size ==> !call_ensures(
                    Vec::<F::Elem>::try_reserve,
                    (room, n),
                    Err::<(), TryReserveError>(e),
                )) ==> plan is Ok
            &&& plan matches Ok(p) ==> p.wf() && p.points() == size && p.omega() == root_of::<F>(
                size,
            )
            &&& plan matches Err(e) ==> e == NttError::AllocationFailed
        },
        size == pow2(k) && (k > 20 || (F::order() - 1) % (size as int) != 0) ==> plan == Err::<
            NttPlan<F>,
            NttError,
        >(NttError::UnsupportedSize { size, field_order: F::order() as u128 }),
        (forall|j: nat| size != #[trigger] pow2(j)) ==> plan == Err::<NttPlan<F>, NttError>(
            NttError::InvalidSize { size },
        ),
{
    law_supported_sizes::<F>(size, k);
    law_spans_are_powers_of_two(k);
    lemma_span_monotone(0, k);
    assert forall|stages: usize| span(stages as nat) == size && size == pow2(k)
        && #[trigger] refused::<usize>(stages) implies stages == k by {
        lemma_span_injective(stages as nat, k);
    }
}

/// A four-step plan of a supported size is refused only where the allocator refused
/// room for a table of one of its two parts.
pub proof fn law_supported_sizes_have_four_step_plans<F: NttField>(
    size: usize,
    k: nat,
    plan: Result<FourStepPlan<F>, NttError>,
)
    requires
        call_ensures(FourStepPlan::<F>::new, (size,), plan),
    ensures
        size == pow2(k) && k <= 20 && (F::order() - 1) % (size as int) == 0 ==> {
            &&& (forall|room: &mut Vec<usize>, n: usize, e: TryReserveError|
                n <= 2 * size ==> !call_ensures(
                    Vec::<usize>::try_reserve,
                    (room, n),
                    Err::<(), TryReserveError>(e),
                )) && (forall|room: &mut Vec<F::Elem>, n: usize, e: TryReserveError|
                n < 2 * size ==> !call_ensures(
                    Vec::<F::Elem>::try_reserve,
                    (room, n),
                    Err::<(), TryReserveError>(e),
                )) ==> plan is Ok
            &&& plan matches Ok(p) ==> p.wf() && p.points() == size && p.omega() == root_of::<F>(
                size,
            )
            &&& plan matches Err(e) ==> e == NttError::AllocationFailed
        },
        size == pow2(k) && (k > 20 || (F::order() - 1) % (size as int) != 0) ==> plan == Err::<
            FourStepPlan<F>,
            NttError,
        >(NttError::UnsupportedSize { size, field_order: F::order() as u128 }),
        (forall|j: nat| size != #[trigger] pow2(j)) ==> plan == Err::<FourStepPlan<F>, NttError>(
            NttError::InvalidSize { size },
        ),
{
    law_supported_sizes::<F>(size, k);
    if plan is Err && parts_refused::<F>(size) {
        let part = choose|part: usize|
            (part * part == size || 2 * (part * part) == size || part * part == 2 * size)
                && #[trigger] tables_refused::<F>(part);
        assert(part <= 2 * size) by (nonlinear_arith)
            requires
                part * part == size || 2 * (part * part) == size || part * part == 2 * size,
                part >= 0,
        ;
        if exists|stages: usize|
            span(stages as nat) == part && #[trigger] refused::<usize>(stages) {
            let stages = choose|stages: usize|
                span(stages as nat) == part && #[trigger] refused::<usize>(stages);
            lemma_span_exceeds(stages as nat);
        }
        if size > 0 && part == 0 {
            assert(part * part == 0) by (nonlinear_arith)
                requires
                    part == 0,
            ;
        }
    }
    if size == pow2(k) {
        law_spans_are_powers_of_two(k);
        lemma_span_monotone(0, k);
    }
}

proof fn lemma_span_exceeds(k: nat)
    ensures
        k < span(k),
    decreases k,
{
    if k > 0 {
        lemma_span_exceeds((k - 1) as nat);
    }
}

/// A refusal is a call that the allocator answered with an error.
pub proof fn law_refusals_are_calls<T>(count: usize)
    ensures
        refused::<T>(count) <==> exists|room: &mut Vec<T>, e: TryReserveError|
            call_ensures(Vec::<T>::try_reserve, (room, count), Err::<(), TryReserveError>(e)),
{
}

/// The sizes that each field supports: Goldilocks and QuadMersenne31 every power of
/// two up to `2^20`, Mersenne31 one and two, and binary fields one alone.
pub proof fn law_sizes_of_the_fields<F: BinaryField>(size: usize, k: nat)
    requires
        size == pow2(k),
    ensures
        size_error::<Goldilocks>(size) is None <==> k <= 20,
        size_error::<QuadMersenne31>(size) is None <==> k <= 20,
        size_error::<Mersenne31>(size) is None <==> k <= 1,
        size_error::<F>(size) is None <==> k == 0,
{
    law_supported_sizes::<Goldilocks>(size, k);
    law_supported_sizes::<QuadMersenne31>(size, k);
    law_supported_sizes::<Mersenne31>(size, k);
    law_supported_sizes::<F>(size, k);
    lemma2_to64();
    law_spans_are_powers_of_two(k);
    lemma_span_limits();
    F::lemma_width();
    if k <= 20 {
        lemma_power_divides(k, 0xFFFF_FFFF);
        lemma_power_divides(k, 0x3FFF_FFFF);
    }
    if k >= 2 {
        lemma_odd_half(k, 0x3FFF_FFFF);
    }
    if k >= 1 {
        lemma_odd(k, <F as NttField>::order() - 1);
    }
    assert(0xFFFF_FFFFint * 0x1_0000_0000 == 0xFFFF_FFFF_0000_0000);
    assert(0x3FFF_FFFFint * 0x1_0000_0000 == 0x3FFF_FFFF_0000_0000);
}

/// Powers of two up to `2^20` divide the multiples of `2^32`.
proof fn lemma_power_divides(k: nat, q: int)
    requires
        k <= 20,
    ensures
        (q * 0x1_0000_0000) % (span(k) as int) == 0,
{
    lemma_span_monotone(0, k);
    let d = (32 - k) as nat;
    crate::span::lemma_span_add(k, d);
    law_spans_are_powers_of_two(32);
    lemma2_to64();
    let (a, b) = (span(k) as int, span(d) as int);
    assert(q * 0x1_0000_0000 == a * (q * b)) by (nonlinear_arith)
        requires
            a * b == 0x1_0000_0000,
    ;
    vstd::arithmetic::div_mod::lemma_mod_multiples_basic(q * b, a);
    assert((q * b) * a == a * (q * b)) by (nonlinear_arith);
}

/// A power of two above one does not divide an odd number.
proof fn lemma_odd(k: nat, n: int)
    requires
        k >= 1,
        n % 2 == 1,
    ensures
        n % (span(k) as int) != 0,
{
    let a = span(k) as int;
    lemma_span_monotone(0, k);
    if n % a == 0 {
        vstd::arithmetic::div_mod::lemma_fundamental_div_mod(n, a);
        let (h, q) = (span((k - 1) as nat) as int, n / a);
        assert(n == 2 * (h * q)) by (nonlinear_arith)
            requires
                n == a * q,
                a == 2 * h,
        ;
    }
}

/// A power of two above two does not divide twice an odd number.
proof fn lemma_odd_half(k: nat, m: int)
    requires
        k >= 2,
        m % 2 == 1,
    ensures
        (2 * m) % (span(k) as int) != 0,
{
    let a = span(k) as int;
    lemma_span_monotone(0, k);
    if (2 * m) % a == 0 {
        vstd::arithmetic::div_mod::lemma_fundamental_div_mod(2 * m, a);
        let h = span((k - 2) as nat) as int;
        let q = (2 * m) / a;
        assert(span((k - 1) as nat) == 2 * span((k - 2) as nat));
        assert(m == 2 * (h * q)) by (nonlinear_arith)
            requires
                2 * m == a * q,
                a == 4 * h,
        ;
    }
}

/// Packed rows: a call is taken exactly if the rows are whole, not empty and as many
/// as the plan has points, and the scratch is of the field's width and at least as
/// long as a row. Only a product that no `usize` holds is an overflow.
pub proof fn law_transform_rows_are_taken<F: NttField>(
    size: usize,
    buffer: usize,
    row_len: usize,
    width: usize,
    capacity: usize,
)
    ensures
        ({
            let e = rows_error::<F>(size, buffer as nat, row_len, width, capacity);
            let n = F::code_bytes();
            let whole = row_len > 0 && row_len as nat % n == 0;
            &&& e is None <==> whole && buffer == size * row_len && width == n && capacity >= row_len
            &&& !whole <==> e == Some(
                NttError::InvalidRowLength { row_len, element_bytes: n as usize },
            )
            &&& e == Some(NttError::GeometryOverflow) <==> whole && size * row_len > usize::MAX
            &&& whole && size * row_len <= usize::MAX && buffer != size * row_len ==> e == Some(
                NttError::BufferLength { expected: (size * row_len) as usize, actual: buffer },
            )
            &&& whole && buffer == size * row_len && width != n ==> e == Some(
                NttError::ScratchFieldMismatch {
                    scratch_element_bytes: width,
                    field_element_bytes: n as usize,
                },
            )
            &&& whole && buffer == size * row_len && width == n && capacity < row_len ==> e == Some(
                NttError::ScratchTooSmall { required: row_len, available: capacity },
            )
        }),
{
    lemma_code_bytes::<F>();
}

/// The elements of a row: as many as fill it.
pub proof fn law_elements_of_a_packed_row<F: NttField>(row_len: usize)
    requires
        row_len as nat % F::code_bytes() == 0,
    ensures
        lanes_in::<F>(row_len) * F::code_bytes() == row_len,
{
    lemma_code_bytes::<F>();
    let (n, m) = (row_len as int, F::code_bytes() as int);
    vstd::arithmetic::div_mod::lemma_fundamental_div_mod(n, m);
    assert(m * (n / m) == (n / m) * m) by (nonlinear_arith);
}

/// Scratch: a row length is refused exactly if it is not whole, not positive or more
/// than an allocation holds, or where the allocator refused room for it.
pub proof fn law_scratch_is_given<F: NttField>(
    plan: &NttPlan<F>,
    row_len: usize,
    r: Result<NttScratch, NttError>,
)
    requires
        call_ensures(NttPlan::<F>::scratch, (plan, row_len), r),
    ensures
        row_len > 0 && row_len as nat % F::code_bytes() == 0 && row_len <= isize::MAX && (forall|
            room: &mut Vec<u8>,
            e: TryReserveError,
        |
            !call_ensures(Vec::<u8>::try_reserve, (room, row_len), Err::<(), TryReserveError>(e)))
            ==> r is Ok,
        row_len > 0 && row_len as nat % F::code_bytes() == 0 ==> (r matches Err(e) ==> e
            == NttError::AllocationFailed),
        row_len == 0 || row_len as nat % F::code_bytes() != 0 ==> r == Err::<NttScratch, NttError>(
            NttError::InvalidRowLength { row_len, element_bytes: F::code_bytes() as usize },
        ),
        r matches Ok(s) ==> s.wf() && s.capacity() == row_len && s.width() == F::code_bytes(),
{
    assert(scratch_error::<F>(row_len) is None <==> row_len > 0 && row_len as nat
        % F::code_bytes() == 0 && row_len <= isize::MAX);
}

/// Four-step rows: a call is taken exactly if the plain transform would take it and
/// the scratch has a flag for each point.
pub proof fn law_four_step_rows_are_taken<F: NttField>(
    size: usize,
    buffer: usize,
    row_len: usize,
    scratch: FourStepScratch,
)
    ensures
        fourstep_error::<F>(size, buffer as nat, row_len, scratch) is None <==> {
            &&& row_len > 0
            &&& row_len as nat % F::code_bytes() == 0
            &&& buffer == size * row_len
            &&& scratch.width() == F::code_bytes()
            &&& scratch.capacity() >= row_len
            &&& 8 * scratch.flags() >= size
        },
        ({
            let plain = rows_error::<F>(
                size,
                buffer as nat,
                row_len,
                scratch.width(),
                scratch.capacity(),
            );
            &&& plain is Some ==> fourstep_error::<F>(size, buffer as nat, row_len, scratch) == plain
            &&& plain is None && 8 * scratch.flags() < size ==> (fourstep_error::<F>(
                size,
                buffer as nat,
                row_len,
                scratch,
            ) matches Some(NttError::ScratchTransposeTooSmall { required, available }) && available
                == scratch.flags() as usize && 8 * required >= size && 8 * required < size + 8)
        }),
{
    law_transform_rows_are_taken::<F>(
        size,
        buffer,
        row_len,
        scratch.width(),
        scratch.capacity(),
    );
}

} // verus!
