//! Transform plans: prepared radix-two multiplicative transforms.

use vstd::arithmetic::div_mod::{lemma_fundamental_div_mod, lemma_fundamental_div_mod_converse};
use vstd::prelude::*;

use crate::error::NttError;
use crate::grid::{entry, lemma_place};
use crate::ntt::dft::{
    is_root, law_transform_back, lemma_inverse_root, lemma_root, transform,
};
use crate::ntt::field::NttField;
use crate::ntt::reserve::{refused, reserve, zeroed};
use crate::ntt::ring::{
    all_valid, dft, dft_term, lemma_dft_term_valid, lemma_dft_valid, lemma_embed_sum,
    lemma_embed_valid, lemma_neg, lemma_pow_product, lemma_pow_sum, lemma_pow_valid,
    lemma_sum_scale, rembed, rpow, Ring,
};
use crate::ntt::rows::{
    canonical, canonicalize, full, lemma_canonical_injective, lemma_code_bytes, lemma_values_valid,
    read_value, values, write_value, Schedule,
};
use crate::ntt::stages::{
    bit_reversal, column, law_reversal_is_an_involution, lemma_reversed_bound, permute, reversed,
    scrambled, stage_start, table_holds, transform_node,
};
use crate::span::{is_span, lemma_span_add, lemma_span_limits, lemma_span_monotone, log_of, span};
use crate::transform::plan::MAX_LOG_SIZE;

verus! {

/// Longest row, in bytes, that always takes the fused form.
pub const FUSED_ROW_MAX: usize = 8;

/// The form that butterflies take: fused wherever the machine has no vector
/// kernel for the field, and on narrow rows.
pub fn schedule_for(vectorized: bool, row_len: usize) -> (schedule: Schedule)
    ensures
        schedule == if !vectorized || row_len <= FUSED_ROW_MAX {
            Schedule::Fused
        } else {
            Schedule::Packed
        },
{
    if !vectorized || row_len <= FUSED_ROW_MAX {
        Schedule::Fused
    } else {
        Schedule::Packed
    }
}

/// The error of a size without a plan, or `None` if there is one.
pub open spec fn size_error<F: NttField>(size: usize) -> Option<NttError> {
    if !is_span(size as nat) {
        Some(NttError::InvalidSize { size })
    } else if size > span(MAX_LOG_SIZE as nat) || (F::order() - 1) % (size as int) != 0 {
        Some(NttError::UnsupportedSize { size, field_order: F::order() as u128 })
    } else {
        None
    }
}

/// The root of unity that the transforms of a size use.
pub open spec fn root_of<F: NttField>(size: usize) -> F::Elem {
    rpow::<F>(F::generator(), ((F::order() - 1) / size as int) as nat)
}

/// The root of a supported size is a root of unity of that order.
pub proof fn law_root_is_primitive<F: NttField>(size: usize, log_size: nat)
    requires
        size == span(log_size),
        size_error::<F>(size) is None,
    ensures
        is_root::<F>(root_of::<F>(size), log_size),
        rpow::<F>(root_of::<F>(size), size as nat) == F::rone(),
        size > 1 ==> rpow::<F>(root_of::<F>(size), (size / 2) as nat) != F::rone(),
{
    F::lemma_generator();
    F::lemma_units();
    let g = F::generator();
    let group = (F::order() - 1) as nat;
    let e = group / size as nat;
    lemma_pow_valid::<F>(g, e);
    lemma_span_monotone(0, log_size);
    lemma_fundamental_div_mod(group as int, size as int);
    if log_size == 0 {
        assert(size == 1);
        assert(e == group) by (nonlinear_arith)
            requires
                group == size * e,
                size == 1,
        ;
        if F::order() % 2 == 1 {
            let half = group / 2;
            lemma_pow_sum::<F>(g, half, half);
            F::lemma_ring(F::rone(), F::rone(), F::rone());
            lemma_neg::<F>(F::rneg(F::rone()), F::rone());
            lemma_neg::<F>(F::rone(), F::rone());
            assert(half + half == group);
        }
    } else {
        let h = span((log_size - 1) as nat);
        assert(size == 2 * h);
        assert(group == 2 * (h * e)) by (nonlinear_arith)
            requires
                group == size * e,
                size == 2 * h,
        ;
        lemma_pow_product::<F>(g, e, h);
        assert(e * h == h * e) by (nonlinear_arith);
    }
    lemma_root::<F>(root_of::<F>(size), log_size);
}

/// The base-two logarithm of a supported size, and its root of unity.
pub(crate) fn domain<F: NttField>(size: usize) -> (r: Result<(usize, F::Elem), NttError>)
    ensures
        r is Ok <==> size_error::<F>(size) is None,
        r matches Err(e) ==> Some(e) == size_error::<F>(size),
        r matches Ok(d) ==> span(d.0 as nat) == size && d.0 <= MAX_LOG_SIZE && d.1 == root_of::<F>(
            size,
        ),
{
    proof {
        F::lemma_generator();
        lemma_span_limits();
    }
    let log_size: usize = match log_of(size) {
        Some(log) => log,
        None => {
            return Err(NttError::InvalidSize { size });
        },
    };
    let ghost dim = log_size as nat;
    let order: u128 = F::field_order();
    if log_size > MAX_LOG_SIZE {
        proof {
            lemma_span_monotone(MAX_LOG_SIZE as nat, dim);
        }
        return Err(NttError::UnsupportedSize { size, field_order: order });
    }
    proof {
        lemma_span_monotone(dim, MAX_LOG_SIZE as nat);
        lemma_span_monotone(0, dim);
    }
    let group: u128 = order - 1;
    if group % (size as u128) != 0 {
        return Err(NttError::UnsupportedSize { size, field_order: order });
    }
    proof {
        lemma_fundamental_div_mod(group as int, size as int);
        assert(group as int / size as int <= group) by (nonlinear_arith)
            requires
                group == size * (group as int / size as int),
                size >= 1,
                group >= 0,
        ;
    }
    let exponent: u64 = (group / (size as u128)) as u64;
    Ok((log_size, F::power(F::root_generator(), exponent)))
}

/// Embed an integer into the field by doubling and adding ones.
fn embed<F: NttField>(value: u64) -> (e: F::Elem)
    ensures
        e == rembed::<F>(value as nat),
        F::valid(e),
{
    let mut rest: u64 = value;
    let mut term = F::one();
    let mut total = F::zero();
    let ghost mut weight: nat = 1;
    let ghost mut done: nat = 0;
    proof {
        F::lemma_units();
        F::lemma_ring(F::rone(), F::rone(), F::rone());
        lemma_neg::<F>(F::rone(), F::rone());
        reveal_with_fuel(rembed, 2);
        assert(1 * rest == rest);
    }
    while rest != 0
        invariant
            term == rembed::<F>(weight),
            total == rembed::<F>(done),
            done + weight * rest == value,
        decreases rest,
    {
        proof {
            lemma_embed_valid::<F>(weight);
            lemma_embed_valid::<F>(done);
            let half = (rest / 2) as nat;
            assert(weight * rest == (2 * weight) * half + (if rest % 2 == 1 {
                weight
            } else {
                0
            })) by (nonlinear_arith)
                requires
                    rest == 2 * half + rest % 2,
                    rest % 2 == 0 || rest % 2 == 1,
            ;
        }
        if rest % 2 == 1 {
            total = F::plus(total, term);
            proof {
                lemma_embed_sum::<F>(done, weight);
                done = done + weight;
            }
        }
        term = F::plus(term, term);
        rest = rest / 2;
        proof {
            lemma_embed_sum::<F>(weight, weight);
            assert(weight + weight == 2 * weight);
            weight = 2 * weight;
        }
    }
    proof {
        assert(weight * 0 == 0);
        lemma_embed_valid::<F>(done);
    }
    total
}

/// The start of each stage's run in the table of powers.
///
/// Fails where a start does not fit, which is past the bits of a `usize`, or where
/// the table cannot be allocated.
pub fn stage_offsets(log_size: usize) -> (r: Result<Vec<usize>, NttError>)
    ensures
        log_size == 0 ==> r is Ok,
        log_size > usize::BITS ==> r is Err,
        r matches Ok(offsets) ==> {
            &&& offsets@.len() == log_size
            &&& forall|s: int| 0 <= s < log_size ==> #[trigger] offsets@[s] == stage_start(s as nat)
        },
        r matches Err(e) ==> e == NttError::AllocationFailed || log_size > usize::BITS && e
            == NttError::GeometryOverflow,
        r == Err::<Vec<usize>, NttError>(NttError::AllocationFailed) ==> refused::<usize>(log_size),
{
    let mut offsets: Vec<usize> = Vec::new();
    match reserve::<usize>(&mut offsets, log_size) {
        Ok(()) => fill_stage_offsets(offsets, log_size),
        Err(e) => Err(e),
    }
}

/// Fill an empty table with the start of each stage's run.
pub fn fill_stage_offsets(empty: Vec<usize>, log_size: usize) -> (r: Result<Vec<usize>, NttError>)
    requires
        empty@.len() == 0,
    ensures
        r is Ok <==> log_size <= usize::BITS,
        r matches Ok(offsets) ==> {
            &&& offsets@.len() == log_size
            &&& forall|s: int| 0 <= s < log_size ==> #[trigger] offsets@[s] == stage_start(s as nat)
        },
        r matches Err(e) ==> e == NttError::GeometryOverflow,
{
    let mut offsets: Vec<usize> = empty;
    let mut offset: usize = 0;
    let mut stage: usize = 0;
    proof {
        lemma_usize_span();
    }
    while stage < log_size
        invariant
            stage <= log_size,
            stage <= usize::BITS,
            span(usize::BITS as nat) == usize::MAX + 1,
            offsets@.len() == stage,
            offset == stage_start(stage as nat),
            forall|s: int| 0 <= s < stage ==> #[trigger] offsets@[s] == stage_start(s as nat),
        decreases log_size - stage,
    {
        proof {
            if stage < usize::BITS {
                lemma_span_monotone((stage + 1) as nat, usize::BITS as nat);
            }
        }
        offsets.push(offset);
        let count: usize = match offset.checked_add(1) {
            Some(count) => count,
            None => {
                return Err(NttError::GeometryOverflow);
            },
        };
        offset = match offset.checked_add(count) {
            Some(next) => next,
            None => {
                return Err(NttError::GeometryOverflow);
            },
        };
        stage = stage + 1;
    }
    Ok(offsets)
}

/// The largest `usize` is one less than the power of two of its bits.
proof fn lemma_usize_span()
    ensures
        span(usize::BITS as nat) == usize::MAX + 1,
{
    lemma_span_limits();
    lemma_span_add(16, 16);
    lemma_span_add(8, 8);
    reveal_with_fuel(span, 9);
    assert(span(8) == 0x100);
    assert(span(16) == 0x100 * 0x100);
    assert(span(32) == 0x1_0000 * 0x1_0000);
    assert(usize::BITS == 32 || usize::BITS == 64);
}

/// Whether the allocator refused room for one of the tables of a plan: one number for
/// each point, one for each stage, or one power for each point but one.
pub open spec fn tables_refused<F: NttField>(size: usize) -> bool {
    ||| refused::<usize>(size)
    ||| exists|stages: usize| span(stages as nat) == size && #[trigger] refused::<usize>(stages)
    ||| refused::<F::Elem>((size - 1) as usize)
}

/// The powers of a root, stage by stage: stage `s` holds the first `2^s` powers
/// of the root of order `2^(s + 1)`.
///
/// Fails only where the table cannot be allocated.
fn twiddle_table<F: NttField>(size: usize, log_size: usize, root: F::Elem) -> (r: Result<
    Vec<F::Elem>,
    NttError,
>)
    requires
        size == span(log_size as nat),
        log_size <= MAX_LOG_SIZE,
        F::valid(root),
    ensures
        r matches Ok(table) ==> {
            &&& table@.len() == size - 1
            &&& table_holds::<F>(table@, root, log_size as nat)
            &&& all_valid::<F>(table@)
        },
        r matches Err(e) ==> e == NttError::AllocationFailed,
        r is Err ==> refused::<F::Elem>((size - 1) as usize),
{
    proof {
        lemma_span_monotone(0, log_size as nat);
    }
    let mut table: Vec<F::Elem> = Vec::new();
    match reserve::<F::Elem>(&mut table, size - 1) {
        Ok(()) => Ok(fill_twiddles::<F>(table, size, log_size, root)),
        Err(e) => Err(e),
    }
}

/// Fill an empty table with the powers of a root, stage by stage.
fn fill_twiddles<F: NttField>(
    empty: Vec<F::Elem>,
    size: usize,
    log_size: usize,
    root: F::Elem,
) -> (table: Vec<F::Elem>)
    requires
        empty@.len() == 0,
        size == span(log_size as nat),
        log_size <= MAX_LOG_SIZE,
        F::valid(root),
    ensures
        table@.len() == size - 1,
        table_holds::<F>(table@, root, log_size as nat),
        all_valid::<F>(table@),
{
    let ghost dim = log_size as nat;
    let mut table: Vec<F::Elem> = empty;
    let mut stage: usize = 0;
    let mut half: usize = 1;
    proof {
        lemma_span_limits();
    }
    while stage < log_size
        invariant
            stage <= log_size,
            dim == log_size,
            log_size <= MAX_LOG_SIZE,
            size == span(dim),
            half == span(stage as nat),
            F::valid(root),
            table@.len() == half - 1,
            all_valid::<F>(table@),
            forall|s: nat, o: nat|
                #![trigger table@[stage_start(s) + o]]
                s < stage && o < span(s) ==> table@[stage_start(s) + o] == rpow::<F>(
                    rpow::<F>(root, span((dim - 1 - s) as nat)),
                    o,
                ),
        decreases log_size - stage,
    {
        let ghost now = stage as nat;
        let ghost q = span((dim - 1 - now) as nat);
        proof {
            lemma_span_limits();
            lemma_span_monotone(now, 20);
            lemma_span_monotone(dim, 20);
            lemma_span_add(now + 1, (dim - 1 - now) as nat);
            assert(now + 1 + (dim - 1 - now) as nat == dim);
            assert(span(now + 1) == 2 * span(now));
            let run = span(now + 1);
            assert(run * q == q * run) by (nonlinear_arith);
            lemma_fundamental_div_mod_converse(
                size as int,
                span(now + 1) as int,
                q as int,
                0,
            );
        }
        let step = F::power(root, (size / (half * 2)) as u64);
        let mut power = F::one();
        let mut o: usize = 0;
        proof {
            lemma_pow_valid::<F>(root, q);
        }
        while o < half
            invariant
                o <= half,
                half == span(now),
                now < dim,
                q == span((dim - 1 - now) as nat),
                step == rpow::<F>(root, q),
                F::valid(step),
                power == rpow::<F>(step, o as nat),
                table@.len() == half - 1 + o,
                all_valid::<F>(table@),
                forall|s: nat, i: nat|
                    #![trigger table@[stage_start(s) + i]]
                    (s < now && i < span(s)) || (s == now && i < o) ==> table@[stage_start(s) + i]
                        == rpow::<F>(rpow::<F>(root, span((dim - 1 - s) as nat)), i),
            decreases half - o,
        {
            let ghost before = table@;
            proof {
                lemma_pow_valid::<F>(step, o as nat);
            }
            table.push(power);
            power = F::times(power, step);
            proof {
                assert forall|s: nat, i: nat|
                    #![trigger table@[stage_start(s) + i]]
                    (s < now && i < span(s)) || (s == now && i < o + 1) implies table@[stage_start(
                    s,
                ) + i] == rpow::<F>(rpow::<F>(root, span((dim - 1 - s) as nat)), i) by {
                    if s < now {
                        lemma_span_monotone(s + 1, now);
                        assert(span(s + 1) == 2 * span(s));
                        lemma_span_monotone(0, s);
                    }
                    if !(s == now && i == o) {
                        assert(table@[stage_start(s) + i] == before[stage_start(s) + i]);
                    }
                }
            }
            o = o + 1;
        }
        half = half * 2;
        stage = stage + 1;
    }
    table
}

/// An inverse is unique.
proof fn lemma_unique_inverse<R: Ring>(a: R::Elem, b: R::Elem, c: R::Elem)
    requires
        R::valid(a),
        R::valid(b),
        R::valid(c),
        R::rmul(a, b) == R::rone(),
        R::rmul(a, c) == R::rone(),
    ensures
        b == c,
{
    R::lemma_units();
    R::lemma_ring(b, a, c);
    R::lemma_ring(a, b, c);
    R::lemma_ring(b, b, b);
    R::lemma_ring(c, R::rone(), c);
}

/// The reciprocal of a root of unity is its last power.
proof fn lemma_reciprocal<F: NttField>(root: F::Elem, inverse: F::Elem, size: usize, dim: nat)
    requires
        size == span(dim),
        is_root::<F>(root, dim),
        rpow::<F>(root, size as nat) == F::rone(),
        F::valid(inverse),
        root != F::rzero() ==> F::rmul(root, inverse) == F::rone(),
    ensures
        inverse == rpow::<F>(root, (size - 1) as nat),
{
    F::lemma_units();
    F::lemma_generator();
    lemma_span_monotone(0, dim);
    lemma_root::<F>(root, dim);
    let v = rpow::<F>(root, (size - 1) as nat);
    lemma_pow_valid::<F>(root, (size - 1) as nat);
    F::lemma_ring(v, root, root);
    lemma_neg::<F>(v, v);
    assert(F::rmul(root, v) == F::rone());
    assert(root != F::rzero());
    lemma_unique_inverse::<F>(root, inverse, v);
}

/// A row temporary for the execution of plans.
///
/// It records the element width and the row length that it was made for.
#[derive(Clone, Debug)]
pub struct NttScratch {
    row: Vec<u8>,
    element_bytes: usize,
    row_len: usize,
}

impl NttScratch {
    /// The element width, in bytes, that the temporary was made for.
    pub closed spec fn width(self) -> usize {
        self.element_bytes
    }

    /// The longest row, in bytes, that the temporary serves.
    pub closed spec fn capacity(self) -> usize {
        self.row_len
    }

    /// Whether the temporary holds a whole row of its capacity.
    pub closed spec fn wf(self) -> bool {
        self.row@.len() == self.row_len
    }

    /// A temporary of the given bytes, for elements of a width.
    pub(crate) fn of_row(row: Vec<u8>, element_bytes: usize) -> (scratch: Self)
        ensures
            scratch.wf(),
            scratch.capacity() == row@.len(),
            scratch.width() == element_bytes,
    {
        let row_len: usize = row.len();
        NttScratch { row, element_bytes, row_len }
    }

    /// The first `row_len` bytes of the temporary.
    pub(crate) fn head(&mut self, row_len: usize) -> (temp: &mut [u8])
        requires
            old(self).wf(),
            row_len <= old(self).capacity(),
        ensures
            temp@.len() == row_len,
            final(temp)@.len() == row_len ==> final(self).wf(),
            final(self).width() == old(self).width(),
            final(self).capacity() == old(self).capacity(),
    {
        let (temp, _) = self.row.as_mut_slice().split_at_mut(row_len);
        temp
    }
}

/// The error of the geometry of a call, or `None` if it can run.
pub open spec fn rows_error<F: NttField>(
    size: usize,
    buffer: nat,
    row_len: usize,
    width: usize,
    capacity: usize,
) -> Option<NttError> {
    if row_len == 0 || row_len as nat % F::code_bytes() != 0 {
        Some(NttError::InvalidRowLength { row_len, element_bytes: F::code_bytes() as usize })
    } else if size * row_len > usize::MAX {
        Some(NttError::GeometryOverflow)
    } else if buffer != size * row_len {
        Some(
            NttError::BufferLength {
                expected: (size * row_len) as usize,
                actual: buffer as usize,
            },
        )
    } else if width != F::code_bytes() {
        Some(
            NttError::ScratchFieldMismatch {
                scratch_element_bytes: width,
                field_element_bytes: F::code_bytes() as usize,
            },
        )
    } else if capacity < row_len {
        Some(NttError::ScratchTooSmall { required: row_len, available: capacity })
    } else {
        None
    }
}

/// The error of a row length for which there is never a temporary, or `None`.
pub open spec fn scratch_error<F: NttField>(row_len: usize) -> Option<NttError> {
    if row_len == 0 || row_len as nat % F::code_bytes() != 0 {
        Some(NttError::InvalidRowLength { row_len, element_bytes: F::code_bytes() as usize })
    } else if row_len > isize::MAX {
        Some(NttError::AllocationFailed)
    } else {
        None
    }
}

/// The number of elements of a row.
pub open spec fn lanes_in<F: NttField>(row_len: usize) -> nat {
    row_len as nat / F::code_bytes()
}

/// Check every dimension before anything changes.
pub(crate) fn validate_scratch<F: NttField>(
    size: usize,
    buffer_bytes: usize,
    row_len: usize,
    scratch: &NttScratch,
) -> (r: Result<(), NttError>)
    ensures
        r is Ok <==> rows_error::<F>(
            size,
            buffer_bytes as nat,
            row_len,
            scratch.width(),
            scratch.capacity(),
        ) is None,
        r matches Err(e) ==> Some(e) == rows_error::<F>(
            size,
            buffer_bytes as nat,
            row_len,
            scratch.width(),
            scratch.capacity(),
        ),
{
    let element_bytes: usize = F::element_bytes();
    proof {
        lemma_code_bytes::<F>();
    }
    if row_len == 0 || row_len % element_bytes != 0 {
        return Err(NttError::InvalidRowLength { row_len, element_bytes });
    }
    let expected: usize = match size.checked_mul(row_len) {
        Some(expected) => expected,
        None => {
            return Err(NttError::GeometryOverflow);
        },
    };
    if buffer_bytes != expected {
        return Err(NttError::BufferLength { expected, actual: buffer_bytes });
    }
    if scratch.element_bytes != element_bytes {
        return Err(
            NttError::ScratchFieldMismatch {
                scratch_element_bytes: scratch.element_bytes,
                field_element_bytes: element_bytes,
            },
        );
    }
    if scratch.row_len < row_len {
        return Err(
            NttError::ScratchTooSmall { required: row_len, available: scratch.row_len },
        );
    }
    Ok(())
}

/// Whether `after` holds, in canonical form, the discrete Fourier transform of
/// every lane of `before`.
pub open spec fn rows_transformed<F: NttField>(
    before: Seq<u8>,
    after: Seq<u8>,
    lanes: nat,
    n: nat,
    w: F::Elem,
) -> bool {
    &&& after.len() == before.len()
    &&& canonical::<F>(after)
    &&& forall|k: int, l: int|
        0 <= k < n && 0 <= l < lanes ==> #[trigger] entry(values::<F>(after), lanes, k, l) == dft::<
            F,
        >(column(values::<F>(before), lanes, l, n), w, k as nat)
}

/// Whether `after` holds, in canonical form, `scale` times the discrete Fourier
/// transform of every lane of `before`.
pub open spec fn rows_transformed_scaled<F: NttField>(
    before: Seq<u8>,
    after: Seq<u8>,
    lanes: nat,
    n: nat,
    w: F::Elem,
    scale: F::Elem,
) -> bool {
    &&& after.len() == before.len()
    &&& canonical::<F>(after)
    &&& forall|k: int, l: int|
        0 <= k < n && 0 <= l < lanes ==> #[trigger] entry(values::<F>(after), lanes, k, l)
            == F::rmul(dft::<F>(column(values::<F>(before), lanes, l, n), w, k as nat), scale)
}

/// A radix-two multiplicative transform over a power-of-two number of points.
///
/// For the root `w` of the plan, output `k` of the forward transform is the sum
/// of `x_j w^(j k)`; input and output are in natural order.
#[derive(Clone, Debug)]
pub struct NttPlan<F: NttField> {
    size: usize,
    log_size: usize,
    root: F::Elem,
    permutation: Vec<usize>,
    stage_offsets: Vec<usize>,
    forward_twiddles: Vec<F::Elem>,
    inverse_twiddles: Vec<F::Elem>,
    inverse_scale: F::Elem,
}

impl<F: NttField> NttPlan<F> {
    /// The number of points.
    pub closed spec fn points(self) -> usize {
        self.size
    }

    /// The base-two logarithm of the number of points.
    pub closed spec fn dim(self) -> nat {
        self.log_size as nat
    }

    /// The root of unity of the forward transform.
    pub closed spec fn omega(self) -> F::Elem {
        self.root
    }

    /// The inverse of the root.
    pub open spec fn omega_inverse(self) -> F::Elem {
        rpow::<F>(self.omega(), (self.points() - 1) as nat)
    }

    /// The inverse of the number of points.
    pub closed spec fn scale(self) -> F::Elem {
        self.inverse_scale
    }

    /// Whether the tables are those of the plan's size.
    pub closed spec fn wf(self) -> bool {
        &&& self.log_size <= MAX_LOG_SIZE
        &&& self.size == span(self.log_size as nat)
        &&& is_root::<F>(self.root, self.log_size as nat)
        &&& self.permutation@.len() == self.size
        &&& forall|i: int|
            0 <= i < self.size ==> #[trigger] self.permutation@[i] == reversed(
                i as nat,
                self.log_size as nat,
            )
        &&& self.stage_offsets@.len() == self.log_size
        &&& forall|s: int|
            0 <= s < self.log_size ==> #[trigger] self.stage_offsets@[s] == stage_start(s as nat)
        &&& table_holds::<F>(self.forward_twiddles@, self.root, self.log_size as nat)
        &&& all_valid::<F>(self.forward_twiddles@)
        &&& table_holds::<F>(
            self.inverse_twiddles@,
            rpow::<F>(self.root, (self.size - 1) as nat),
            self.log_size as nat,
        )
        &&& all_valid::<F>(self.inverse_twiddles@)
        &&& F::valid(self.inverse_scale)
        &&& F::rmul(rembed::<F>(self.size as nat), self.inverse_scale) == F::rone()
    }

    /// What a well-formed plan says of its root and its scale.
    pub proof fn lemma_wf(self)
        requires
            self.wf(),
        ensures
            self.points() == span(self.dim()),
            self.dim() <= MAX_LOG_SIZE,
            is_root::<F>(self.omega(), self.dim()),
            is_root::<F>(self.omega_inverse(), self.dim()),
            F::rmul(self.omega(), self.omega_inverse()) == F::rone(),
            F::valid(self.scale()),
            F::rmul(rembed::<F>(self.points() as nat), self.scale()) == F::rone(),
    {
        let n = self.size as nat;
        let w = self.root;
        lemma_span_monotone(0, self.log_size as nat);
        lemma_root::<F>(w, self.log_size as nat);
        let v = rpow::<F>(w, (n - 1) as nat);
        lemma_pow_valid::<F>(w, (n - 1) as nat);
        F::lemma_ring(v, w, w);
        lemma_inverse_root::<F>(w, v, self.log_size as nat);
    }

    /// A plan for a power-of-two number of points.
    ///
    /// The root is the power of the generator by the group order over `size`. For
    /// a supported size it rests on the machine whether there is room for the
    /// tables.
    pub fn new(size: usize) -> (plan: Result<Self, NttError>)
        ensures
            size_error::<F>(size) matches Some(e) ==> plan == Err::<Self, NttError>(e),
            size_error::<F>(size) is None ==> (plan matches Err(e) ==> e
                == NttError::AllocationFailed),
            size_error::<F>(size) is None && plan is Err ==> tables_refused::<F>(size),
            plan matches Ok(p) ==> p.wf() && p.points() == size && p.omega() == root_of::<F>(size),
    {
        let (log_size, root) = match domain::<F>(size) {
            Ok(found) => found,
            Err(e) => {
                return Err(e);
            },
        };
        let ghost dim = log_size as nat;
        proof {
            law_root_is_primitive::<F>(size, dim);
            lemma_span_limits();
            lemma_span_monotone(dim, MAX_LOG_SIZE as nat);
            lemma_span_monotone(0, dim);
        }
        let permutation = match bit_reversal(size, log_size) {
            Ok(permutation) => permutation,
            Err(e) => {
                return Err(e);
            },
        };
        let stage_offsets = match stage_offsets(log_size) {
            Ok(offsets) => offsets,
            Err(e) => {
                return Err(e);
            },
        };
        let forward_twiddles = match twiddle_table::<F>(size, log_size, root) {
            Ok(table) => table,
            Err(e) => {
                return Err(e);
            },
        };
        let inverse_root = F::reciprocal(root);
        proof {
            F::lemma_units();
            F::lemma_generator();
            lemma_root::<F>(root, dim);
            lemma_reciprocal::<F>(root, inverse_root, size, dim);
        }
        let inverse_twiddles = match twiddle_table::<F>(size, log_size, inverse_root) {
            Ok(table) => table,
            Err(e) => {
                return Err(e);
            },
        };
        Ok(
            Self::from_tables(
                size,
                log_size,
                root,
                permutation,
                stage_offsets,
                forward_twiddles,
                inverse_twiddles,
            ),
        )
    }

    /// The plan of a supported size and its tables.
    fn from_tables(
        size: usize,
        log_size: usize,
        root: F::Elem,
        permutation: Vec<usize>,
        stage_offsets: Vec<usize>,
        forward_twiddles: Vec<F::Elem>,
        inverse_twiddles: Vec<F::Elem>,
    ) -> (plan: Self)
        requires
            size == span(log_size as nat),
            log_size <= MAX_LOG_SIZE,
            size_error::<F>(size) is None,
            root == root_of::<F>(size),
            permutation@.len() == size,
            forall|i: int|
                0 <= i < size ==> #[trigger] permutation@[i] == reversed(i as nat, log_size as nat),
            stage_offsets@.len() == log_size,
            forall|s: int|
                0 <= s < log_size ==> #[trigger] stage_offsets@[s] == stage_start(s as nat),
            table_holds::<F>(forward_twiddles@, root, log_size as nat),
            all_valid::<F>(forward_twiddles@),
            table_holds::<F>(
                inverse_twiddles@,
                rpow::<F>(root, (size - 1) as nat),
                log_size as nat,
            ),
            all_valid::<F>(inverse_twiddles@),
        ensures
            plan.wf(),
            plan.points() == size,
            plan.omega() == root,
    {
        let ghost dim = log_size as nat;
        proof {
            law_root_is_primitive::<F>(size, dim);
            lemma_span_limits();
            lemma_span_monotone(dim, MAX_LOG_SIZE as nat);
            lemma_span_monotone(0, dim);
            F::lemma_units();
            F::lemma_generator();
            F::lemma_size(size as nat);
            lemma_root::<F>(root, dim);
        }
        let inverse_scale = F::reciprocal(embed::<F>(size as u64));
        NttPlan {
            size,
            log_size,
            root,
            permutation,
            stage_offsets,
            forward_twiddles,
            inverse_twiddles,
            inverse_scale,
        }
    }

    /// The number of points.
    pub fn size(&self) -> (n: usize)
        ensures
            n == self.points(),
    {
        self.size
    }

    /// The root of unity that the forward transform uses.
    pub fn root(&self) -> (w: F::Elem)
        ensures
            w == self.omega(),
    {
        self.root
    }

    /// The row temporary for rows of up to `row_len` bytes.
    ///
    /// Up to `isize::MAX` bytes it rests on the machine whether there is room.
    pub fn scratch(&self, row_len: usize) -> (scratch: Result<NttScratch, NttError>)
        ensures
            scratch_error::<F>(row_len) matches Some(e) ==> scratch == Err::<NttScratch, NttError>(e),
            scratch_error::<F>(row_len) is None ==> (scratch matches Err(e) ==> e
                == NttError::AllocationFailed),
            scratch_error::<F>(row_len) is None && scratch is Err ==> refused::<u8>(row_len),
            scratch matches Ok(s) ==> s.wf() && s.capacity() == row_len && s.width()
                == F::code_bytes(),
    {
        let element_bytes: usize = F::element_bytes();
        proof {
            lemma_code_bytes::<F>();
        }
        if row_len == 0 || row_len % element_bytes != 0 {
            return Err(NttError::InvalidRowLength { row_len, element_bytes });
        }
        match zeroed(row_len) {
            Ok(row) => Ok(NttScratch::of_row(row, element_bytes)),
            Err(e) => Err(e),
        }
    }

    /// The bit-reversal permutation followed by every butterfly stage.
    fn butterflies(
        &self,
        rows: &mut [u8],
        lanes: usize,
        twiddles: &[F::Elem],
        schedule: Schedule,
        temp: &mut [u8],
        Ghost(w): Ghost<F::Elem>,
    )
        requires
            self.wf(),
            lanes >= 1,
            full::<F>(old(rows)@.len() as int),
            values::<F>(old(rows)@).len() == self.points() * lanes,
            canonical::<F>(old(rows)@),
            is_root::<F>(w, self.dim()),
            table_holds::<F>(twiddles@, w, self.dim()),
            all_valid::<F>(twiddles@),
            full::<F>(old(temp)@.len() as int),
            lanes <= values::<F>(old(temp)@).len(),
        ensures
            rows_transformed::<F>(
                old(rows)@,
                final(rows)@,
                lanes as nat,
                self.points() as nat,
                w,
            ),
            final(temp)@.len() == old(temp)@.len(),
    {
        let ghost d = self.log_size as nat;
        let ghost n = lanes as nat;
        let ghost before = values::<F>(rows@);
        permute::<F>(rows, lanes, &self.permutation, Ghost(d));
        let ghost mixed = values::<F>(rows@);
        proof {
            lemma_code_bytes::<F>();
        }
        transform_node::<F>(
            rows,
            lanes,
            twiddles,
            &self.stage_offsets,
            self.log_size,
            schedule,
            temp,
            Ghost(w),
        );
        proof {
            let size = span(d);
            assert forall|k: int, l: int| 0 <= k < size && 0 <= l < n implies #[trigger] entry(
                values::<F>(rows@),
                n,
                k,
                l,
            ) == dft::<F>(column(before, n, l, size), w, k as nat) by {
                let x = scrambled(column(mixed, n, l, size), d);
                let y = column(before, n, l, size);
                assert forall|j: int| 0 <= j < size implies x[j] == y[j] by {
                    let r = reversed(j as nat, d) as int;
                    lemma_reversed_bound(j as nat, d);
                    law_reversal_is_an_involution(j as nat, d);
                    assert(entry(mixed, n, r, l) == entry(before, n, j, l));
                }
                assert(x =~= y);
            }
        }
    }

    /// The forward transform of canonical rows in one form.
    pub(crate) fn forward_rows(
        &self,
        rows: &mut [u8],
        lanes: usize,
        schedule: Schedule,
        temp: &mut [u8],
    )
        requires
            self.wf(),
            lanes >= 1,
            full::<F>(old(rows)@.len() as int),
            values::<F>(old(rows)@).len() == self.points() * lanes,
            canonical::<F>(old(rows)@),
            full::<F>(old(temp)@.len() as int),
            lanes <= values::<F>(old(temp)@).len(),
        ensures
            rows_transformed::<F>(
                old(rows)@,
                final(rows)@,
                lanes as nat,
                self.points() as nat,
                self.omega(),
            ),
            final(temp)@.len() == old(temp)@.len(),
    {
        self.butterflies(rows, lanes, &self.forward_twiddles, schedule, temp, Ghost(self.root));
    }

    /// Canonicalize, permute and run the stages in one form.
    fn execute(
        &self,
        rows: &mut [u8],
        row_len: usize,
        twiddles: &[F::Elem],
        schedule: Schedule,
        scratch: &mut NttScratch,
        Ghost(w): Ghost<F::Elem>,
    )
        requires
            self.wf(),
            old(scratch).wf(),
            rows_error::<F>(
                self.points(),
                old(rows)@.len(),
                row_len,
                old(scratch).width(),
                old(scratch).capacity(),
            ) is None,
            is_root::<F>(w, self.dim()),
            table_holds::<F>(twiddles@, w, self.dim()),
            all_valid::<F>(twiddles@),
        ensures
            rows_transformed::<F>(
                old(rows)@,
                final(rows)@,
                lanes_in::<F>(row_len),
                self.points() as nat,
                w,
            ),
            final(scratch).wf(),
            final(scratch).width() == old(scratch).width(),
            final(scratch).capacity() == old(scratch).capacity(),
    {
        proof {
            lemma_geometry::<F>(self.size, rows@.len(), row_len);
        }
        let lanes: usize = row_len / F::element_bytes();
        canonicalize::<F>(rows);
        let temp = scratch.head(row_len);
        self.butterflies(rows, lanes, twiddles, schedule, temp, Ghost(w));
    }

    /// The forward transform of `size` rows of `row_len` bytes, in place.
    ///
    /// Nothing is written unless every check passes.
    pub fn forward_bytes_scratch(
        &self,
        rows: &mut [u8],
        row_len: usize,
        scratch: &mut NttScratch,
    ) -> (r: Result<(), NttError>)
        requires
            self.wf(),
            old(scratch).wf(),
        ensures
            ({
                let error = rows_error::<F>(
                    self.points(),
                    old(rows)@.len(),
                    row_len,
                    old(scratch).width(),
                    old(scratch).capacity(),
                );
                &&& r is Ok <==> error is None
                &&& r matches Err(e) ==> Some(e) == error && final(rows)@ == old(rows)@
                    && *final(scratch) == *old(scratch)
            }),
            r is Ok ==> rows_transformed::<F>(
                old(rows)@,
                final(rows)@,
                lanes_in::<F>(row_len),
                self.points() as nat,
                self.omega(),
            ),
            final(scratch).wf(),
            final(scratch).width() == old(scratch).width(),
            final(scratch).capacity() == old(scratch).capacity(),
            row_len > 0 && row_len as nat % F::code_bytes() == 0 && old(rows)@.len() == self.points()
                * row_len && old(scratch).width() == F::code_bytes() && old(scratch).capacity()
                >= row_len ==> r is Ok,
    {
        match validate_scratch::<F>(self.size, rows.len(), row_len, scratch) {
            Err(e) => {
                return Err(e);
            },
            Ok(()) => {},
        }
        let schedule = schedule_for(F::vectorized(), row_len);
        self.execute(
            rows,
            row_len,
            &self.forward_twiddles,
            schedule,
            scratch,
            Ghost(self.root),
        );
        Ok(())
    }

    /// The forward transform in the fused form.
    pub fn forward_fused(
        &self,
        rows: &mut [u8],
        row_len: usize,
        scratch: &mut NttScratch,
    ) -> (r: Result<(), NttError>)
        requires
            self.wf(),
            old(scratch).wf(),
        ensures
            ({
                let error = rows_error::<F>(
                    self.points(),
                    old(rows)@.len(),
                    row_len,
                    old(scratch).width(),
                    old(scratch).capacity(),
                );
                &&& r is Ok <==> error is None
                &&& r matches Err(e) ==> Some(e) == error && final(rows)@ == old(rows)@
                    && *final(scratch) == *old(scratch)
            }),
            r is Ok ==> rows_transformed::<F>(
                old(rows)@,
                final(rows)@,
                lanes_in::<F>(row_len),
                self.points() as nat,
                self.omega(),
            ),
            final(scratch).wf(),
            final(scratch).width() == old(scratch).width(),
            final(scratch).capacity() == old(scratch).capacity(),
            row_len > 0 && row_len as nat % F::code_bytes() == 0 && old(rows)@.len() == self.points()
                * row_len && old(scratch).width() == F::code_bytes() && old(scratch).capacity()
                >= row_len ==> r is Ok,
    {
        match validate_scratch::<F>(self.size, rows.len(), row_len, scratch) {
            Err(e) => {
                return Err(e);
            },
            Ok(()) => {},
        }
        self.execute(
            rows,
            row_len,
            &self.forward_twiddles,
            Schedule::Fused,
            scratch,
            Ghost(self.root),
        );
        Ok(())
    }

    /// The forward transform in the packed form.
    pub fn forward_packed(
        &self,
        rows: &mut [u8],
        row_len: usize,
        scratch: &mut NttScratch,
    ) -> (r: Result<(), NttError>)
        requires
            self.wf(),
            old(scratch).wf(),
        ensures
            ({
                let error = rows_error::<F>(
                    self.points(),
                    old(rows)@.len(),
                    row_len,
                    old(scratch).width(),
                    old(scratch).capacity(),
                );
                &&& r is Ok <==> error is None
                &&& r matches Err(e) ==> Some(e) == error && final(rows)@ == old(rows)@
                    && *final(scratch) == *old(scratch)
            }),
            r is Ok ==> rows_transformed::<F>(
                old(rows)@,
                final(rows)@,
                lanes_in::<F>(row_len),
                self.points() as nat,
                self.omega(),
            ),
            final(scratch).wf(),
            final(scratch).width() == old(scratch).width(),
            final(scratch).capacity() == old(scratch).capacity(),
            row_len > 0 && row_len as nat % F::code_bytes() == 0 && old(rows)@.len() == self.points()
                * row_len && old(scratch).width() == F::code_bytes() && old(scratch).capacity()
                >= row_len ==> r is Ok,
    {
        match validate_scratch::<F>(self.size, rows.len(), row_len, scratch) {
            Err(e) => {
                return Err(e);
            },
            Ok(()) => {},
        }
        self.execute(
            rows,
            row_len,
            &self.forward_twiddles,
            Schedule::Packed,
            scratch,
            Ghost(self.root),
        );
        Ok(())
    }

    /// The forward transform in passes over whole halves.
    pub fn forward_batched(
        &self,
        rows: &mut [u8],
        row_len: usize,
        scratch: &mut NttScratch,
    ) -> (r: Result<(), NttError>)
        requires
            self.wf(),
            old(scratch).wf(),
        ensures
            ({
                let error = rows_error::<F>(
                    self.points(),
                    old(rows)@.len(),
                    row_len,
                    old(scratch).width(),
                    old(scratch).capacity(),
                );
                &&& r is Ok <==> error is None
                &&& r matches Err(e) ==> Some(e) == error && final(rows)@ == old(rows)@
                    && *final(scratch) == *old(scratch)
            }),
            r is Ok ==> rows_transformed::<F>(
                old(rows)@,
                final(rows)@,
                lanes_in::<F>(row_len),
                self.points() as nat,
                self.omega(),
            ),
            final(scratch).wf(),
            final(scratch).width() == old(scratch).width(),
            final(scratch).capacity() == old(scratch).capacity(),
            row_len > 0 && row_len as nat % F::code_bytes() == 0 && old(rows)@.len() == self.points()
                * row_len && old(scratch).width() == F::code_bytes() && old(scratch).capacity()
                >= row_len ==> r is Ok,
    {
        match validate_scratch::<F>(self.size, rows.len(), row_len, scratch) {
            Err(e) => {
                return Err(e);
            },
            Ok(()) => {},
        }
        self.execute(
            rows,
            row_len,
            &self.forward_twiddles,
            Schedule::Batched,
            scratch,
            Ghost(self.root),
        );
        Ok(())
    }

    /// The inverse transform of `size` rows of `row_len` bytes, in place: the
    /// transform with the inverse of the root, scaled by the inverse of `size`.
    pub fn inverse_bytes_scratch(
        &self,
        rows: &mut [u8],
        row_len: usize,
        scratch: &mut NttScratch,
    ) -> (r: Result<(), NttError>)
        requires
            self.wf(),
            old(scratch).wf(),
        ensures
            ({
                let error = rows_error::<F>(
                    self.points(),
                    old(rows)@.len(),
                    row_len,
                    old(scratch).width(),
                    old(scratch).capacity(),
                );
                &&& r is Ok <==> error is None
                &&& r matches Err(e) ==> Some(e) == error && final(rows)@ == old(rows)@
                    && *final(scratch) == *old(scratch)
            }),
            r is Ok ==> rows_transformed_scaled::<F>(
                old(rows)@,
                final(rows)@,
                lanes_in::<F>(row_len),
                self.points() as nat,
                self.omega_inverse(),
                self.scale(),
            ),
            final(scratch).wf(),
            final(scratch).width() == old(scratch).width(),
            final(scratch).capacity() == old(scratch).capacity(),
            row_len > 0 && row_len as nat % F::code_bytes() == 0 && old(rows)@.len() == self.points()
                * row_len && old(scratch).width() == F::code_bytes() && old(scratch).capacity()
                >= row_len ==> r is Ok,
    {
        match validate_scratch::<F>(self.size, rows.len(), row_len, scratch) {
            Err(e) => {
                return Err(e);
            },
            Ok(()) => {},
        }
        let ghost before = rows@;
        let ghost v = rpow::<F>(self.root, (self.size - 1) as nat);
        proof {
            self.lemma_wf();
            lemma_geometry::<F>(self.size, rows@.len(), row_len);
        }
        let schedule = schedule_for(F::vectorized(), row_len);
        self.execute(rows, row_len, &self.inverse_twiddles, schedule, scratch, Ghost(v));
        let ghost middle = values::<F>(rows@);
        scale_rows::<F>(rows, self.inverse_scale);
        proof {
            let n = lanes_in::<F>(row_len);
            let size = self.size as nat;
            assert forall|k: int, l: int| 0 <= k < size && 0 <= l < n implies #[trigger] entry(
                values::<F>(rows@),
                n,
                k,
                l,
            ) == F::rmul(
                dft::<F>(column(values::<F>(before), n, l, size), v, k as nat),
                self.inverse_scale,
            ) by {
                lemma_place(k, l, n as int, size as int);
                assert(entry(middle, n, k, l) == middle[k * n + l]);
            }
        }
        Ok(())
    }

    /// The inverse transform takes the forward transform of a buffer back to
    /// the values of that buffer, and to its bytes if they were canonical.
    pub proof fn law_inverse_undoes_forward(
        self,
        before: Seq<u8>,
        middle: Seq<u8>,
        after: Seq<u8>,
        row_len: usize,
    )
        requires
            self.wf(),
            row_len > 0,
            row_len as nat % F::code_bytes() == 0,
            before.len() == self.points() * row_len,
            rows_transformed::<F>(
                before,
                middle,
                lanes_in::<F>(row_len),
                self.points() as nat,
                self.omega(),
            ),
            rows_transformed_scaled::<F>(
                middle,
                after,
                lanes_in::<F>(row_len),
                self.points() as nat,
                self.omega_inverse(),
                self.scale(),
            ),
        ensures
            values::<F>(after) == values::<F>(before),
            canonical::<F>(before) ==> after == before,
    {
        self.lemma_wf();
        let n = lanes_in::<F>(row_len);
        let size = self.points() as nat;
        let (w, v) = (self.omega(), self.omega_inverse());
        lemma_geometry::<F>(self.points(), before.len(), row_len);
        lemma_values_valid::<F>(before);
        lemma_values_valid::<F>(middle);
        let x = values::<F>(before);
        let y = values::<F>(middle);
        let z = values::<F>(after);
        assert forall|i: int| 0 <= i < x.len() implies z[i] == x[i] by {
            let (k, l) = lemma_index::<F>(i, n, size);
            let c = column(x, n, l, size);
            lemma_lane_valid::<F>(x, n, l, size);
            assert(column(y, n, l, size) =~= transform::<F>(c, w)) by {
                assert forall|j: int| 0 <= j < size implies column(y, n, l, size)[j]
                    == transform::<F>(c, w)[j] by {
                    assert(entry(y, n, j, l) == dft::<F>(c, w, j as nat));
                }
            }
            law_transform_back::<F>(c, w, v, self.dim(), k as nat);
            assert(entry(z, n, k, l) == z[i]);
            assert(c[k] == x[i]);
            assert(F::valid(x[i]));
            lemma_scale_back::<F>(size, self.scale(), x[i]);
        }
        assert(z =~= x);
        if canonical::<F>(before) {
            lemma_canonical_injective::<F>(after, before);
        }
    }

    /// The forward transform takes the inverse transform of a buffer back to
    /// the values of that buffer, and to its bytes if they were canonical.
    pub proof fn law_forward_undoes_inverse(
        self,
        before: Seq<u8>,
        middle: Seq<u8>,
        after: Seq<u8>,
        row_len: usize,
    )
        requires
            self.wf(),
            row_len > 0,
            row_len as nat % F::code_bytes() == 0,
            before.len() == self.points() * row_len,
            rows_transformed_scaled::<F>(
                before,
                middle,
                lanes_in::<F>(row_len),
                self.points() as nat,
                self.omega_inverse(),
                self.scale(),
            ),
            rows_transformed::<F>(
                middle,
                after,
                lanes_in::<F>(row_len),
                self.points() as nat,
                self.omega(),
            ),
        ensures
            values::<F>(after) == values::<F>(before),
            canonical::<F>(before) ==> after == before,
    {
        self.lemma_wf();
        let n = lanes_in::<F>(row_len);
        let size = self.points() as nat;
        let (w, v, s) = (self.omega(), self.omega_inverse(), self.scale());
        lemma_geometry::<F>(self.points(), before.len(), row_len);
        lemma_values_valid::<F>(before);
        lemma_values_valid::<F>(middle);
        lemma_inverse_root::<F>(w, v, self.dim());
        let x = values::<F>(before);
        let y = values::<F>(middle);
        let z = values::<F>(after);
        assert forall|i: int| 0 <= i < x.len() implies z[i] == x[i] by {
            let (k, l) = lemma_index::<F>(i, n, size);
            let c = column(x, n, l, size);
            let t = transform::<F>(c, v);
            let d = column(y, n, l, size);
            lemma_lane_valid::<F>(x, n, l, size);
            crate::ntt::dft::lemma_transform_valid::<F>(c, v);
            assert forall|j: int| 0 <= j < size implies #[trigger] d[j] == F::rmul(t[j], s) by {
                assert(entry(y, n, j, l) == F::rmul(dft::<F>(c, v, j as nat), s));
            }
            law_transform_back::<F>(c, v, w, self.dim(), k as nat);
            lemma_dft_scaled::<F>(t, d, s, w, k as nat);
            assert(entry(z, n, k, l) == z[i]);
            assert(c[k] == x[i]);
            assert(F::valid(x[i]));
            lemma_scale_back::<F>(size, s, x[i]);
        }
        assert(z =~= x);
        if canonical::<F>(before) {
            lemma_canonical_injective::<F>(after, before);
        }
    }
}

/// Scaling the input of a transform scales its output.
proof fn lemma_dft_scaled<R: Ring>(
    t: Seq<R::Elem>,
    d: Seq<R::Elem>,
    s: R::Elem,
    w: R::Elem,
    k: nat,
)
    requires
        all_valid::<R>(t),
        R::valid(s),
        R::valid(w),
        d.len() == t.len(),
        forall|j: int| 0 <= j < t.len() ==> #[trigger] d[j] == R::rmul(t[j], s),
    ensures
        dft::<R>(d, w, k) == R::rmul(dft::<R>(t, w, k), s),
{
    let f = |j: int| dft_term::<R>(t, w, k, j);
    let g = |j: int| dft_term::<R>(d, w, k, j);
    assert forall|j: int| 0 <= j < t.len() implies R::valid(#[trigger] f(j)) by {
        lemma_dft_term_valid::<R>(t, w, k, j);
    }
    assert forall|j: int| 0 <= j < t.len() implies #[trigger] g(j) == R::rmul(s, f(j)) by {
        let p = rpow::<R>(w, (j * k) as nat);
        lemma_pow_valid::<R>(w, (j * k) as nat);
        assert(d[j] == R::rmul(t[j], s));
        R::lemma_ring(s, t[j], p);
        R::lemma_ring(t[j], s, p);
    }
    lemma_sum_scale::<R>(f, s, g, t.len());
    lemma_dft_valid::<R>(t, w, k);
    R::lemma_ring(s, dft::<R>(t, w, k), s);
}

/// `(n x) / n` is `x`.
proof fn lemma_scale_back<R: Ring>(n: nat, s: R::Elem, x: R::Elem)
    requires
        R::valid(s),
        R::valid(x),
        R::rmul(rembed::<R>(n), s) == R::rone(),
    ensures
        R::rmul(R::rmul(rembed::<R>(n), x), s) == x,
{
    R::lemma_units();
    let e = rembed::<R>(n);
    lemma_embed_valid::<R>(n);
    R::lemma_ring(e, x, s);
    R::lemma_ring(x, e, s);
    R::lemma_ring(x, R::rone(), s);
}

/// The row and the lane of an element.
pub(crate) proof fn lemma_index<F: NttField>(i: int, lanes: nat, rows: nat) -> (r: (int, int))
    requires
        lanes > 0,
        0 <= i < rows * lanes,
    ensures
        0 <= r.0 < rows,
        0 <= r.1 < lanes,
        i == r.0 * lanes + r.1,
{
    let (k, l) = (i / lanes as int, i % lanes as int);
    lemma_fundamental_div_mod(i, lanes as int);
    assert(lanes * k == k * lanes) by (nonlinear_arith);
    assert(0 <= k < rows) by (nonlinear_arith)
        requires
            i == k * lanes + l,
            0 <= l < lanes,
            0 <= i < rows * lanes,
    ;
    (k, l)
}

proof fn lemma_lane_valid<F: NttField>(v: Seq<F::Elem>, lanes: nat, l: int, rows: nat)
    requires
        all_valid::<F>(v),
        v.len() == rows * lanes,
        0 <= l < lanes,
    ensures
        all_valid::<F>(column(v, lanes, l, rows)),
{
    let c = column(v, lanes, l, rows);
    assert forall|j: int| 0 <= j < c.len() implies F::valid(#[trigger] c[j]) by {
        lemma_place(j, l, lanes as int, rows as int);
        assert(F::valid(v[j * lanes + l]));
    }
}

/// What a buffer of `size` rows of whole elements holds.
pub(crate) proof fn lemma_geometry<F: NttField>(size: usize, buffer: nat, row_len: usize)
    requires
        row_len > 0,
        row_len as nat % F::code_bytes() == 0,
        buffer == size * row_len,
    ensures
        1 <= F::code_bytes() <= 8,
        full::<F>(buffer as int),
        full::<F>(row_len as int),
        lanes_in::<F>(row_len) >= 1,
        buffer / F::code_bytes() == size * lanes_in::<F>(row_len),
        row_len == lanes_in::<F>(row_len) * F::code_bytes(),
{
    lemma_code_bytes::<F>();
    let w = F::code_bytes() as int;
    let n = lanes_in::<F>(row_len) as int;
    lemma_fundamental_div_mod(row_len as int, w);
    assert(w * n == n * w) by (nonlinear_arith);
    assert(n >= 1) by (nonlinear_arith)
        requires
            row_len == n * w,
            row_len > 0,
            w > 0,
    ;
    assert(size * row_len == (size * n) * w) by (nonlinear_arith)
        requires
            row_len == n * w,
    ;
    assert(size * n >= 0) by (nonlinear_arith)
        requires
            size >= 0,
            n >= 1,
    ;
    lemma_fundamental_div_mod_converse(buffer as int, w, size * n, 0);
}

/// Multiply every element of a buffer by `factor`.
fn scale_rows<F: NttField>(rows: &mut [u8], factor: F::Elem)
    requires
        full::<F>(old(rows)@.len() as int),
        canonical::<F>(old(rows)@),
        F::valid(factor),
    ensures
        final(rows)@.len() == old(rows)@.len(),
        canonical::<F>(final(rows)@),
        forall|i: int|
            0 <= i < values::<F>(old(rows)@).len() ==> #[trigger] values::<F>(final(rows)@)[i]
                == F::rmul(values::<F>(old(rows)@)[i], factor),
{
    let ghost len = rows@.len();
    let ghost v = values::<F>(rows@);
    proof {
        lemma_code_bytes::<F>();
    }
    let count: usize = rows.len() / F::element_bytes();
    let mut i: usize = 0;
    while i < count
        invariant
            i <= count,
            v.len() == count,
            full::<F>(len as int),
            rows@.len() == len,
            values::<F>(rows@).len() == count,
            canonical::<F>(rows@),
            F::valid(factor),
            forall|j: int|
                0 <= j < count ==> #[trigger] values::<F>(rows@)[j] == if j < i {
                    F::rmul(v[j], factor)
                } else {
                    v[j]
                },
        decreases count - i,
    {
        proof {
            lemma_code_bytes::<F>();
        }
        let e = read_value::<F>(rows, i);
        proof {
            F::lemma_ring(e, factor, e);
        }
        write_value::<F>(rows, i, F::times(e, factor));
        i = i + 1;
    }
}

} // verus!
