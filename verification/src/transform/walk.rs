//! Recursive walkers behind the transforms.

use vstd::prelude::*;

use crate::field::{plus, times, BinaryField};
use crate::kernel::{
    forward_high, forward_low, fused_forward_backend, fused_inverse_backend, inverse_high,
    inverse_low, row_add, row_clear, row_copy, vadd, vzero, Backend, ButterflyKernels,
};
use crate::pack::{
    elem_bytes, lemma_elem_bytes, lemma_unpack_concat, lemma_unpack_split,
    unpack, whole,
};
use crate::words::lemma_whole_parts;
use crate::span::span;
use crate::transform::model::{
    any_row, forward_model, halves, heap_holds, high_half, inverse_model, lemma_halves_concat,
    lemma_halves_span, lemma_inverse_len, lemma_pruned_same, low_half, pruned_model, splice,
    truncated_inverse_model, truncated_model,
};

verus! {

/// The forward transform of the subtree rooted at `node`, on elements.
pub(crate) fn forward_node<F: BinaryField>(
    values: &mut [F::Elem],
    factors: &[F::Elem],
    node: usize,
    dimension: usize,
)
    requires
        dimension >= 1,
        halves(old(values)@.len(), dimension as nat),
        heap_holds(factors@.len(), node as nat, dimension as nat),
    ensures
        final(values)@ == forward_model::<F>(
            old(values)@,
            factors@,
            node as nat,
            dimension as nat,
        ),
    decreases dimension,
{
    let half: usize = values.len() / 2;
    let nodes: usize = factors.len();
    let factor = factors[node];
    let ghost v = values@;
    let ghost low = forward_low::<F>(low_half(v), high_half(v), factor);
    let ghost high = forward_high::<F>(low_half(v), high_half(v), factor);
    let mut position: usize = 0;
    while position < half
        invariant
            position <= half,
            v.len() == 2 * half,
            values@.len() == v.len(),
            low == forward_low::<F>(low_half(v), high_half(v), factor),
            high == forward_high::<F>(low_half(v), high_half(v), factor),
            forall|j: int|
                0 <= j < half ==> #[trigger] values@[j] == if j < position {
                    low[j]
                } else {
                    v[j]
                },
            forall|j: int|
                half <= j < 2 * half ==> #[trigger] values@[j] == if j - half < position {
                    high[j - half]
                } else {
                    v[j]
                },
        decreases half - position,
    {
        let l = values[position];
        let h = values[half + position];
        let left = plus::<F>(l, times::<F>(factor, h));
        values[position] = left;
        values[half + position] = plus::<F>(left, h);
        position = position + 1;
    }
    proof {
        assert(values@.subrange(0, half as int) =~= low);
        assert(values@.subrange(half as int, values@.len() as int) =~= high);
        assert(values@ =~= low + high);
    }
    if dimension > 1 {
        assert(2 * node + 1 < nodes) by {
            reveal_with_fuel(heap_holds, 3);
        }
        let (left, right) = values.split_at_mut(half);
        forward_node::<F>(left, factors, node * 2, dimension - 1);
        forward_node::<F>(right, factors, node * 2 + 1, dimension - 1);
    } else {
        assert(forward_model::<F>(low, factors@, 2 * node as nat, 0) == low);
        assert(forward_model::<F>(high, factors@, 2 * node as nat + 1, 0) == high);
    }
}

/// The inverse transform of the subtree rooted at `node`, on elements.
pub(crate) fn inverse_node<F: BinaryField>(
    values: &mut [F::Elem],
    factors: &[F::Elem],
    node: usize,
    dimension: usize,
)
    requires
        dimension >= 1,
        halves(old(values)@.len(), dimension as nat),
        heap_holds(factors@.len(), node as nat, dimension as nat),
    ensures
        final(values)@ == inverse_model::<F>(
            old(values)@,
            factors@,
            node as nat,
            dimension as nat,
        ),
    decreases dimension,
{
    let half: usize = values.len() / 2;
    let nodes: usize = factors.len();
    let ghost v = values@;
    let ghost d = (dimension - 1) as nat;
    let ghost low = inverse_model::<F>(low_half(v), factors@, 2 * node as nat, d);
    let ghost high = inverse_model::<F>(high_half(v), factors@, 2 * node as nat + 1, d);
    proof {
        lemma_halves_concat(v);
        lemma_inverse_len::<F>(low_half(v), factors@, 2 * node as nat, d);
        lemma_inverse_len::<F>(high_half(v), factors@, 2 * node as nat + 1, d);
    }
    if dimension > 1 {
        assert(2 * node + 1 < nodes) by {
            reveal_with_fuel(heap_holds, 3);
        }
        let (left, right) = values.split_at_mut(half);
        inverse_node::<F>(left, factors, node * 2, dimension - 1);
        inverse_node::<F>(right, factors, node * 2 + 1, dimension - 1);
    } else {
        assert(values@ =~= low + high);
    }
    let ghost w = values@;
    assert(w == low + high);
    let factor = factors[node];
    let ghost out_low = inverse_low::<F>(low, high, factor);
    let ghost out_high = inverse_high::<F>(low, high);
    let mut position: usize = 0;
    while position < half
        invariant
            position <= half,
            low.len() == half,
            high.len() == half,
            w == low + high,
            values@.len() == 2 * half,
            out_low == inverse_low::<F>(low, high, factor),
            out_high == inverse_high::<F>(low, high),
            forall|j: int|
                0 <= j < half ==> #[trigger] values@[j] == if j < position {
                    out_low[j]
                } else {
                    w[j]
                },
            forall|j: int|
                half <= j < 2 * half ==> #[trigger] values@[j] == if j - half < position {
                    out_high[j - half]
                } else {
                    w[j]
                },
        decreases half - position,
    {
        let left = values[position];
        let right = values[half + position];
        let top = plus::<F>(left, right);
        values[position] = plus::<F>(left, times::<F>(factor, top));
        values[half + position] = top;
        position = position + 1;
    }
    assert(values@ =~= out_low + out_high);
}

/// A whole buffer with evenly many elements splits on an element boundary.
pub(crate) proof fn lemma_half_bytes<F: BinaryField>(b: Seq<u8>)
    requires
        whole::<F>(b.len() as int),
        unpack::<F>(b).len() % 2 == 0,
    ensures
        b.len() % 2 == 0,
        whole::<F>(b.len() as int / 2),
        unpack::<F>(low_half(b)) == low_half(unpack::<F>(b)),
        unpack::<F>(high_half(b)) == high_half(unpack::<F>(b)),
        low_half(b).len() == high_half(b).len(),
{
    lemma_elem_bytes::<F>();
    let n = elem_bytes::<F>() as int;
    lemma_whole_parts(b.len() as int, 0, n);
    let q = unpack::<F>(b).len() as int;
    let h = q / 2;
    assert(b.len() == 2 * (h * n)) by (nonlinear_arith)
        requires
            q * n == b.len(),
            q == 2 * h,
    ;
    vstd::arithmetic::div_mod::lemma_mod_multiples_basic(h, n);
    vstd::arithmetic::div_mod::lemma_div_multiples_vanish(h, n);
    assert(n * h == h * n) by (nonlinear_arith);
    lemma_unpack_split::<F>(b, b.len() as int / 2);
}

/// The bytes of a transform over two halves, from the transforms of the halves.
proof fn lemma_join_bytes<F: BinaryField>(low: Seq<u8>, high: Seq<u8>)
    requires
        low.len() == high.len(),
        whole::<F>(low.len() as int),
    ensures
        unpack::<F>(low + high) == unpack::<F>(low) + unpack::<F>(high),
        whole::<F>((low + high).len() as int),
{
    lemma_unpack_concat::<F>(low, high);
}

/// The largest dimension that the unrolled base cases cover.
const BASE_DIMENSION: usize = 3;

/// The forward transform of a subtree of dimension at most [`BASE_DIMENSION`].
#[verifier::rlimit(40)]
fn forward_bytes_base<F: ButterflyKernels>(
    tier: Backend,
    rows: &mut [u8],
    factors: &[F::Elem],
    node: usize,
    dimension: usize,
)
    requires
        1 <= dimension <= BASE_DIMENSION,
        whole::<F>(old(rows)@.len() as int),
        halves(unpack::<F>(old(rows)@).len(), dimension as nat),
        heap_holds(factors@.len(), node as nat, dimension as nat),
    ensures
        final(rows)@.len() == old(rows)@.len(),
        unpack::<F>(final(rows)@) == forward_model::<F>(
            unpack::<F>(old(rows)@),
            factors@,
            node as nat,
            dimension as nat,
        ),
{
    let nodes: usize = factors.len();
    let ghost n = node as nat;
    proof {
        reveal_with_fuel(heap_holds, 4);
        reveal_with_fuel(forward_model, 4);
        reveal_with_fuel(halves, 4);
        lemma_half_bytes::<F>(rows@);
    }
    let half: usize = rows.len() / 2;
    let (low, high) = rows.split_at_mut(half);
    fused_forward_backend::<F>(tier, low, high, factors[node]);
    if dimension == 1 {
        proof {
            lemma_join_bytes::<F>(low@, high@);
        }
    } else {
        proof {
            lemma_half_bytes::<F>(low@);
            lemma_half_bytes::<F>(high@);
        }
        let quarter: usize = half / 2;
        let (low_low, low_high) = low.split_at_mut(quarter);
        let (high_low, high_high) = high.split_at_mut(quarter);
        fused_forward_backend::<F>(tier, low_low, low_high, factors[node * 2]);
        fused_forward_backend::<F>(tier, high_low, high_high, factors[node * 2 + 1]);
        if dimension == 2 {
            proof {
                lemma_join_bytes::<F>(low_low@, low_high@);
                lemma_join_bytes::<F>(high_low@, high_high@);
                lemma_join_bytes::<F>(low_low@ + low_high@, high_low@ + high_high@);
            }
        } else {
            proof {
                lemma_half_bytes::<F>(low_low@);
                lemma_half_bytes::<F>(low_high@);
                lemma_half_bytes::<F>(high_low@);
                lemma_half_bytes::<F>(high_high@);
            }
            let eighth: usize = quarter / 2;
            let (r0, r1) = low_low.split_at_mut(eighth);
            let (r2, r3) = low_high.split_at_mut(eighth);
            let (r4, r5) = high_low.split_at_mut(eighth);
            let (r6, r7) = high_high.split_at_mut(eighth);
            fused_forward_backend::<F>(tier, r0, r1, factors[node * 4]);
            fused_forward_backend::<F>(tier, r2, r3, factors[node * 4 + 1]);
            fused_forward_backend::<F>(tier, r4, r5, factors[node * 4 + 2]);
            fused_forward_backend::<F>(tier, r6, r7, factors[node * 4 + 3]);
            proof {
                lemma_join_bytes::<F>(r0@, r1@);
                lemma_join_bytes::<F>(r2@, r3@);
                lemma_join_bytes::<F>(r4@, r5@);
                lemma_join_bytes::<F>(r6@, r7@);
                lemma_join_bytes::<F>(r0@ + r1@, r2@ + r3@);
                lemma_join_bytes::<F>(r4@ + r5@, r6@ + r7@);
                lemma_join_bytes::<F>((r0@ + r1@) + (r2@ + r3@), (r4@ + r5@) + (r6@ + r7@));
            }
        }
    }
}

/// The forward transform of the subtree rooted at `node`, on packed rows.
pub(crate) fn forward_bytes_node<F: ButterflyKernels>(
    tier: Backend,
    rows: &mut [u8],
    factors: &[F::Elem],
    node: usize,
    dimension: usize,
)
    requires
        dimension >= 1,
        whole::<F>(old(rows)@.len() as int),
        halves(unpack::<F>(old(rows)@).len(), dimension as nat),
        heap_holds(factors@.len(), node as nat, dimension as nat),
    ensures
        final(rows)@.len() == old(rows)@.len(),
        unpack::<F>(final(rows)@) == forward_model::<F>(
            unpack::<F>(old(rows)@),
            factors@,
            node as nat,
            dimension as nat,
        ),
    decreases dimension,
{
    if dimension <= BASE_DIMENSION {
        forward_bytes_base::<F>(tier, rows, factors, node, dimension);
        return ;
    }
    let nodes: usize = factors.len();
    let half: usize = rows.len() / 2;
    let factor = factors[node];
    proof {
        reveal_with_fuel(heap_holds, 3);
        lemma_half_bytes::<F>(rows@);
    }
    let (low, high) = rows.split_at_mut(half);
    fused_forward_backend::<F>(tier, low, high, factor);
    forward_bytes_node::<F>(tier, low, factors, node * 2, dimension - 1);
    forward_bytes_node::<F>(tier, high, factors, node * 2 + 1, dimension - 1);
    proof {
        lemma_join_bytes::<F>(low@, high@);
    }
}

/// The inverse transform of a subtree of dimension at most [`BASE_DIMENSION`].
fn inverse_bytes_base<F: ButterflyKernels>(
    tier: Backend,
    rows: &mut [u8],
    factors: &[F::Elem],
    node: usize,
    dimension: usize,
)
    requires
        1 <= dimension <= BASE_DIMENSION,
        whole::<F>(old(rows)@.len() as int),
        halves(unpack::<F>(old(rows)@).len(), dimension as nat),
        heap_holds(factors@.len(), node as nat, dimension as nat),
    ensures
        final(rows)@.len() == old(rows)@.len(),
        unpack::<F>(final(rows)@) == inverse_model::<F>(
            unpack::<F>(old(rows)@),
            factors@,
            node as nat,
            dimension as nat,
        ),
{
    let nodes: usize = factors.len();
    proof {
        reveal_with_fuel(heap_holds, 4);
        reveal_with_fuel(inverse_model, 4);
        reveal_with_fuel(halves, 4);
        lemma_half_bytes::<F>(rows@);
    }
    let half: usize = rows.len() / 2;
    let (low, high) = rows.split_at_mut(half);
    if dimension >= 2 {
        proof {
            lemma_half_bytes::<F>(low@);
            lemma_half_bytes::<F>(high@);
        }
        let quarter: usize = half / 2;
        let (low_low, low_high) = low.split_at_mut(quarter);
        let (high_low, high_high) = high.split_at_mut(quarter);
        if dimension == 3 {
            proof {
                lemma_half_bytes::<F>(low_low@);
                lemma_half_bytes::<F>(low_high@);
                lemma_half_bytes::<F>(high_low@);
                lemma_half_bytes::<F>(high_high@);
            }
            let eighth: usize = quarter / 2;
            let (r0, r1) = low_low.split_at_mut(eighth);
            let (r2, r3) = low_high.split_at_mut(eighth);
            let (r4, r5) = high_low.split_at_mut(eighth);
            let (r6, r7) = high_high.split_at_mut(eighth);
            fused_inverse_backend::<F>(tier, r0, r1, factors[node * 4]);
            fused_inverse_backend::<F>(tier, r2, r3, factors[node * 4 + 1]);
            fused_inverse_backend::<F>(tier, r4, r5, factors[node * 4 + 2]);
            fused_inverse_backend::<F>(tier, r6, r7, factors[node * 4 + 3]);
            proof {
                lemma_join_bytes::<F>(r0@, r1@);
                lemma_join_bytes::<F>(r2@, r3@);
                lemma_join_bytes::<F>(r4@, r5@);
                lemma_join_bytes::<F>(r6@, r7@);
            }
        }
        fused_inverse_backend::<F>(tier, low_low, low_high, factors[node * 2]);
        fused_inverse_backend::<F>(tier, high_low, high_high, factors[node * 2 + 1]);
        proof {
            lemma_join_bytes::<F>(low_low@, low_high@);
            lemma_join_bytes::<F>(high_low@, high_high@);
        }
    }
    fused_inverse_backend::<F>(tier, low, high, factors[node]);
    proof {
        lemma_join_bytes::<F>(low@, high@);
    }
}

/// The inverse transform of the subtree rooted at `node`, on packed rows.
pub(crate) fn inverse_bytes_node<F: ButterflyKernels>(
    tier: Backend,
    rows: &mut [u8],
    factors: &[F::Elem],
    node: usize,
    dimension: usize,
)
    requires
        dimension >= 1,
        whole::<F>(old(rows)@.len() as int),
        halves(unpack::<F>(old(rows)@).len(), dimension as nat),
        heap_holds(factors@.len(), node as nat, dimension as nat),
    ensures
        final(rows)@.len() == old(rows)@.len(),
        unpack::<F>(final(rows)@) == inverse_model::<F>(
            unpack::<F>(old(rows)@),
            factors@,
            node as nat,
            dimension as nat,
        ),
    decreases dimension,
{
    if dimension <= BASE_DIMENSION {
        inverse_bytes_base::<F>(tier, rows, factors, node, dimension);
        return ;
    }
    let nodes: usize = factors.len();
    let half: usize = rows.len() / 2;
    proof {
        reveal_with_fuel(heap_holds, 3);
        lemma_half_bytes::<F>(rows@);
    }
    let (low, high) = rows.split_at_mut(half);
    inverse_bytes_node::<F>(tier, low, factors, node * 2, dimension - 1);
    inverse_bytes_node::<F>(tier, high, factors, node * 2 + 1, dimension - 1);
    let factor = factors[node];
    fused_inverse_backend::<F>(tier, low, high, factor);
    proof {
        lemma_join_bytes::<F>(low@, high@);
    }
}

/// The geometry of `2^dim` packed rows of `row_len` bytes.
pub(crate) open spec fn rows_fit<F: BinaryField>(len: nat, row_len: nat, dim: nat) -> bool {
    row_len > 0 && whole::<F>(row_len as int) && len == span(dim) * row_len
}

/// The number of elements of a row.
pub open spec fn lanes_of<F: BinaryField>(row_len: nat) -> nat {
    row_len / elem_bytes::<F>()
}

/// The element view of `2^dim` packed rows.
pub(crate) proof fn lemma_rows<F: BinaryField>(b: Seq<u8>, row_len: nat, dim: nat)
    requires
        rows_fit::<F>(b.len(), row_len, dim),
    ensures
        whole::<F>(b.len() as int),
        unpack::<F>(b).len() == span(dim) * lanes_of::<F>(row_len),
        halves(unpack::<F>(b).len(), dim),
        lanes_of::<F>(row_len) * elem_bytes::<F>() == row_len,
        lanes_of::<F>(row_len) > 0,
{
    lemma_elem_bytes::<F>();
    let n = elem_bytes::<F>();
    let lanes = lanes_of::<F>(row_len);
    lemma_whole_parts(row_len as int, 0, n as int);
    let q = span(dim) * lanes;
    assert(b.len() == q * n) by (nonlinear_arith)
        requires
            b.len() == span(dim) * row_len,
            row_len == lanes * n,
            q == span(dim) * lanes,
    ;
    assert(lanes > 0) by (nonlinear_arith)
        requires
            lanes * n == row_len,
            row_len > 0,
    ;
    vstd::arithmetic::div_mod::lemma_mod_multiples_basic(q as int, n as int);
    vstd::arithmetic::div_mod::lemma_div_multiples_vanish(q as int, n as int);
    assert(n * q == q * n) by (nonlinear_arith);
    lemma_halves_span(dim, lanes);
}

/// The two halves of `2^dim` packed rows.
pub(crate) proof fn lemma_row_halves<F: BinaryField>(b: Seq<u8>, row_len: nat, dim: nat)
    requires
        rows_fit::<F>(b.len(), row_len, dim),
        dim >= 1,
    ensures
        rows_fit::<F>(b.len() / 2, row_len, (dim - 1) as nat),
        whole::<F>(b.len() as int / 2),
        b.len() / 2 / row_len == span((dim - 1) as nat),
        b.len() % 2 == 0,
        unpack::<F>(low_half(b)) == low_half(unpack::<F>(b)),
        unpack::<F>(high_half(b)) == high_half(unpack::<F>(b)),
        low_half(b).len() == b.len() / 2,
        high_half(b).len() == b.len() / 2,
{
    lemma_rows::<F>(b, row_len, dim);
    lemma_half_bytes::<F>(b);
    let h = span((dim - 1) as nat);
    assert(b.len() == 2 * (h * row_len)) by (nonlinear_arith)
        requires
            b.len() == (2 * h) * row_len,
    ;
    vstd::arithmetic::div_mod::lemma_div_multiples_vanish(h as int, row_len as int);
    assert(row_len * h == h * row_len) by (nonlinear_arith);
}

/// The forward transform of the subtree rooted at `node`, which covers the rows
/// from `row_offset` on, left out where no row of `selected` is covered.
pub(crate) fn forward_bytes_selected_node<F: ButterflyKernels>(
    tier: Backend,
    rows: &mut [u8],
    row_len: usize,
    factors: &[F::Elem],
    node: usize,
    dimension: usize,
    row_offset: usize,
    selected: &[usize],
    from: usize,
    to: usize,
)
    requires
        dimension >= 1,
        rows_fit::<F>(old(rows)@.len(), row_len as nat, dimension as nat),
        heap_holds(factors@.len(), node as nat, dimension as nat),
        row_offset + span(dimension as nat) <= usize::MAX,
        from < to <= selected@.len(),
        forall|i: int, j: int| 0 <= i < j < selected@.len() ==> selected@[i] < selected@[j],
        forall|i: int|
            0 <= i < selected@.len() ==> (from <= i < to <==> row_offset <= #[trigger] selected@[i]
                < row_offset + span(dimension as nat)),
    ensures
        final(rows)@.len() == old(rows)@.len(),
        unpack::<F>(final(rows)@) == pruned_model::<F>(
            unpack::<F>(old(rows)@),
            factors@,
            node as nat,
            dimension as nat,
            row_offset as int,
            |r: int| selected@.contains(r as usize),
        ),
    decreases dimension,
{
    let ghost wanted = |r: int| selected@.contains(r as usize);
    let nodes: usize = factors.len();
    let half: usize = rows.len() / 2;
    let half_rows: usize = half / row_len;
    proof {
        reveal_with_fuel(heap_holds, 3);
        lemma_rows::<F>(rows@, row_len as nat, dimension as nat);
        lemma_row_halves::<F>(rows@, row_len as nat, dimension as nat);
    }
    let middle: usize = row_offset + half_rows;
    let factor = factors[node];
    let ghost d = (dimension - 1) as nat;
    let (low, high) = rows.split_at_mut(half);
    fused_forward_backend::<F>(tier, low, high, factor);
    let ghost low1 = unpack::<F>(low@);
    let ghost high1 = unpack::<F>(high@);
    if dimension <= 1 {
        proof {
            reveal_with_fuel(pruned_model, 2);
            lemma_join_bytes::<F>(low@, high@);
        }
        return ;
    }
    let mut split: usize = from;
    while split < to && selected[split] < middle
        invariant
            from <= split <= to <= selected@.len(),
            forall|i: int| from <= i < split ==> #[trigger] selected@[i] < middle,
        decreases to - split,
    {
        split = split + 1;
    }
    assert(forall|i: int| split <= i < to ==> #[trigger] selected@[i] >= middle);
    if split != from {
        assert(wanted(selected@[from as int] as int));
        forward_bytes_selected_node::<F>(
            tier,
            low,
            row_len,
            factors,
            node * 2,
            dimension - 1,
            row_offset,
            selected,
            from,
            split,
        );
    } else {
        assert(!any_row(wanted, row_offset as int, middle as int));
    }
    if split != to {
        assert(wanted(selected@[split as int] as int));
        forward_bytes_selected_node::<F>(
            tier,
            high,
            row_len,
            factors,
            node * 2 + 1,
            dimension - 1,
            middle,
            selected,
            split,
            to,
        );
    } else {
        assert(!any_row(wanted, middle as int, middle + span(d)));
    }
    proof {
        lemma_join_bytes::<F>(low@, high@);
    }
}

/// Whether the rows `start..end` meet the rows `from..to`.
proof fn lemma_range_meets(start: int, end: int, from: int, to: int)
    requires
        start < end,
        from < to,
    ensures
        any_row(|r: int| start <= r < end, from, to) <==> (start < to && end > from),
{
    let wanted = |r: int| start <= r < end;
    if start < to && end > from {
        let r = if start > from {
            start
        } else {
            from
        };
        assert(wanted(r));
    }
}

/// The forward transform of the subtree rooted at `node`, which covers the rows
/// from `row_offset` on, left out where no row of `start..end` is covered.
pub(crate) fn forward_bytes_range_node<F: ButterflyKernels>(
    tier: Backend,
    rows: &mut [u8],
    row_len: usize,
    factors: &[F::Elem],
    node: usize,
    dimension: usize,
    row_offset: usize,
    start: usize,
    end: usize,
)
    requires
        dimension >= 1,
        rows_fit::<F>(old(rows)@.len(), row_len as nat, dimension as nat),
        heap_holds(factors@.len(), node as nat, dimension as nat),
        row_offset + span(dimension as nat) <= usize::MAX,
        start < end,
    ensures
        final(rows)@.len() == old(rows)@.len(),
        unpack::<F>(final(rows)@) == pruned_model::<F>(
            unpack::<F>(old(rows)@),
            factors@,
            node as nat,
            dimension as nat,
            row_offset as int,
            |r: int| start <= r < end,
        ),
    decreases dimension,
{
    let nodes: usize = factors.len();
    let half: usize = rows.len() / 2;
    let half_rows: usize = half / row_len;
    let ghost d = (dimension - 1) as nat;
    proof {
        reveal_with_fuel(heap_holds, 3);
        lemma_rows::<F>(rows@, row_len as nat, dimension as nat);
        lemma_row_halves::<F>(rows@, row_len as nat, dimension as nat);
        lemma_halves_span(d, 1);
    }
    let middle: usize = row_offset + half_rows;
    proof {
        lemma_range_meets(start as int, end as int, row_offset as int, middle as int);
        lemma_range_meets(start as int, end as int, middle as int, middle + span(d));
    }
    let limit: usize = middle + half_rows;
    let factor = factors[node];
    let (low, high) = rows.split_at_mut(half);
    fused_forward_backend::<F>(tier, low, high, factor);
    if dimension <= 1 {
        proof {
            reveal_with_fuel(pruned_model, 2);
            lemma_join_bytes::<F>(low@, high@);
        }
        return ;
    }
    if start < middle && end > row_offset {
        forward_bytes_range_node::<F>(
            tier,
            low,
            row_len,
            factors,
            node * 2,
            dimension - 1,
            row_offset,
            start,
            end,
        );
    }
    if start < limit && end > middle {
        forward_bytes_range_node::<F>(
            tier,
            high,
            row_len,
            factors,
            node * 2 + 1,
            dimension - 1,
            middle,
            start,
            end,
        );
    }
    proof {
        lemma_join_bytes::<F>(low@, high@);
    }
}

/// The first `count` of `2^dim` packed rows, and the rest.
pub(crate) proof fn lemma_row_cut<F: BinaryField>(b: Seq<u8>, row_len: nat, dim: nat, count: nat)
    requires
        rows_fit::<F>(b.len(), row_len, dim),
        count <= span(dim),
    ensures
        ({
            let at = count * row_len;
            let k = count * lanes_of::<F>(row_len);
            let v = unpack::<F>(b);
            &&& at <= b.len()
            &&& k <= v.len()
            &&& whole::<F>(at as int)
            &&& unpack::<F>(b.subrange(0, at as int)) == v.subrange(0, k as int)
            &&& unpack::<F>(b.subrange(at as int, b.len() as int)) == v.subrange(
                k as int,
                v.len() as int,
            )
        }),
{
    lemma_rows::<F>(b, row_len, dim);
    lemma_elem_bytes::<F>();
    let n = elem_bytes::<F>();
    let lanes = lanes_of::<F>(row_len);
    let at = count * row_len;
    let k = count * lanes;
    assert(at <= span(dim) * row_len && k <= span(dim) * lanes && at == k * n) by (nonlinear_arith)
        requires
            count <= span(dim),
            row_len == lanes * n,
            at == count * row_len,
            k == count * lanes,
    ;
    vstd::arithmetic::div_mod::lemma_mod_multiples_basic(k as int, n as int);
    vstd::arithmetic::div_mod::lemma_div_multiples_vanish(k as int, n as int);
    assert(n * k == k * n) by (nonlinear_arith);
    lemma_unpack_split::<F>(b, at as int);
}

/// Copy the first `count` rows of `low` over those of `high`.
fn copy_rows<F: BinaryField>(
    high: &mut [u8],
    low: &[u8],
    row_len: usize,
    count: usize,
    Ghost(dim): Ghost<nat>,
)
    requires
        rows_fit::<F>(low@.len(), row_len as nat, dim),
        old(high)@.len() == low@.len(),
        count <= span(dim),
    ensures
        final(high)@.len() == old(high)@.len(),
        unpack::<F>(final(high)@) == splice(
            unpack::<F>(low@),
            unpack::<F>(old(high)@),
            (count * lanes_of::<F>(row_len as nat)) as int,
        ),
{
    let len: usize = low.len();
    proof {
        lemma_row_cut::<F>(low@, row_len as nat, dim, count as nat);
        lemma_row_cut::<F>(high@, row_len as nat, dim, count as nat);
        lemma_rows::<F>(low@, row_len as nat, dim);
    }
    let at: usize = count * row_len;
    let (source, _) = low.split_at(at);
    let (target, rest) = high.split_at_mut(at);
    row_copy(target, source);
    proof {
        lemma_whole_parts(low@.len() as int, at as int, elem_bytes::<F>() as int);
        lemma_elem_bytes::<F>();
        lemma_unpack_concat::<F>(target@, rest@);
    }
}

/// The truncated forward transform of the subtree rooted at `node`, which covers
/// the rows from `row_offset` on.
pub(crate) fn forward_bytes_truncated_range_node<F: ButterflyKernels>(
    tier: Backend,
    rows: &mut [u8],
    row_len: usize,
    factors: &[F::Elem],
    node: usize,
    dimension: usize,
    active: usize,
    row_offset: usize,
    start: usize,
    end: usize,
)
    requires
        dimension >= 1,
        rows_fit::<F>(old(rows)@.len(), row_len as nat, dimension as nat),
        heap_holds(factors@.len(), node as nat, dimension as nat),
        row_offset + span(dimension as nat) <= usize::MAX,
        active <= span(dimension as nat),
        start < end,
    ensures
        final(rows)@.len() == old(rows)@.len(),
        unpack::<F>(final(rows)@) == truncated_model::<F>(
            unpack::<F>(old(rows)@),
            factors@,
            node as nat,
            dimension as nat,
            lanes_of::<F>(row_len as nat),
            active as nat,
            row_offset as int,
            |r: int| start <= r < end,
        ),
    decreases dimension,
{
    let nodes: usize = factors.len();
    let half: usize = rows.len() / 2;
    let half_rows: usize = half / row_len;
    let ghost d = (dimension - 1) as nat;
    proof {
        reveal_with_fuel(heap_holds, 3);
        lemma_rows::<F>(rows@, row_len as nat, dimension as nat);
        lemma_row_halves::<F>(rows@, row_len as nat, dimension as nat);
        lemma_halves_span(d, 1);
    }
    let middle: usize = row_offset + half_rows;
    proof {
        lemma_range_meets(start as int, end as int, row_offset as int, middle as int);
        lemma_range_meets(start as int, end as int, middle as int, middle + span(d));
    }
    let limit: usize = middle + half_rows;
    let need_low = start < middle && end > row_offset;
    let need_high = start < limit && end > middle;
    let (low, high) = rows.split_at_mut(half);
    let rest: usize;
    if active <= half_rows {
        // The high half is zero: the butterfly is a copy of the active rows.
        rest = active;
        if need_high {
            copy_rows::<F>(high, low, row_len, active, Ghost(d));
        }
    } else {
        rest = half_rows;
        fused_forward_backend::<F>(tier, low, high, factors[node]);
    }
    proof {
        reveal_with_fuel(truncated_model, 2);
    }
    if dimension > 1 {
        if need_low {
            forward_bytes_truncated_range_node::<F>(
                tier,
                low,
                row_len,
                factors,
                node * 2,
                dimension - 1,
                rest,
                row_offset,
                start,
                end,
            );
        }
        if need_high {
            forward_bytes_truncated_range_node::<F>(
                tier,
                high,
                row_len,
                factors,
                node * 2 + 1,
                dimension - 1,
                rest,
                middle,
                start,
                end,
            );
        }
    }
    proof {
        lemma_join_bytes::<F>(low@, high@);
    }
}

/// The rows of workspace that [`inverse_bytes_truncated_node`] needs.
pub open spec fn scratch_rows(dim: nat, active: nat) -> nat
    decreases dim,
{
    if dim == 0 || active >= span(dim) {
        0
    } else if active > span((dim - 1) as nat) {
        span((dim - 1) as nat)
    } else {
        scratch_rows((dim - 1) as nat, active)
    }
}

pub(crate) proof fn lemma_scratch_rows(dim: nat, active: nat)
    ensures
        scratch_rows(dim, active) <= span(dim),
    decreases dim,
{
    if dim > 0 {
        lemma_scratch_rows((dim - 1) as nat, active);
    }
}

/// The truncated inverse transform of the subtree rooted at `node`.
pub(crate) fn inverse_bytes_truncated_node<F: ButterflyKernels>(
    tier: Backend,
    rows: &mut [u8],
    row_len: usize,
    factors: &[F::Elem],
    node: usize,
    dimension: usize,
    active: usize,
    scratch: &mut [u8],
)
    requires
        rows_fit::<F>(old(rows)@.len(), row_len as nat, dimension as nat),
        heap_holds(factors@.len(), node as nat, dimension as nat),
        1 <= active <= span(dimension as nat),
        scratch_rows(dimension as nat, active as nat) * row_len <= old(scratch)@.len(),
    ensures
        final(rows)@.len() == old(rows)@.len(),
        final(scratch)@.len() == old(scratch)@.len(),
        unpack::<F>(final(rows)@) == truncated_inverse_model::<F>(
            unpack::<F>(old(rows)@),
            factors@,
            node as nat,
            dimension as nat,
            lanes_of::<F>(row_len as nat),
            active as nat,
        ),
    decreases dimension,
{
    let nodes: usize = factors.len();
    proof {
        lemma_rows::<F>(rows@, row_len as nat, dimension as nat);
        vstd::arithmetic::div_mod::lemma_div_multiples_vanish(
            span(dimension as nat) as int,
            row_len as int,
        );
        assert(row_len * span(dimension as nat) == span(dimension as nat) * row_len)
            by (nonlinear_arith);
        lemma_halves_span(dimension as nat, 1);
        reveal_with_fuel(heap_holds, 3);
    }
    let row_count: usize = rows.len() / row_len;
    if dimension == 0 {
        return ;
    }
    if active == row_count {
        inverse_bytes_node::<F>(tier, rows, factors, node, dimension);
        return ;
    }
    let ghost d = (dimension - 1) as nat;
    let ghost lanes = lanes_of::<F>(row_len as nat);
    proof {
        lemma_row_halves::<F>(rows@, row_len as nat, dimension as nat);
    }
    let half: usize = rows.len() / 2;
    let half_rows: usize = half / row_len;
    let ghost v = unpack::<F>(rows@);
    let (low, high) = rows.split_at_mut(half);
    if active <= half_rows {
        if dimension > 1 {
            inverse_bytes_truncated_node::<F>(
                tier,
                low,
                row_len,
                factors,
                node * 2,
                dimension - 1,
                active,
                scratch,
            );
        }
        proof {
            reveal_with_fuel(truncated_inverse_model, 2);
            lemma_join_bytes::<F>(low@, high@);
        }
        return ;
    }
    let rest: usize = active - half_rows;
    proof {
        lemma_halves_span(d, 1);
        lemma_rows::<F>(low@, row_len as nat, d);
        if d == 0 {
            assert(false);
        }
    }
    inverse_bytes_node::<F>(tier, low, factors, node * 2, dimension - 1);
    let ghost low1 = unpack::<F>(low@);
    let ghost high0 = unpack::<F>(high@);
    let ghost cut = (rest * lanes) as int;
    proof {
        lemma_row_cut::<F>(low@, row_len as nat, d, rest as nat);
        lemma_row_cut::<F>(high@, row_len as nat, d, rest as nat);
        lemma_scratch_rows(d, rest as nat);
        let need = scratch_rows(d, rest as nat);
        assert(need * row_len <= span(d) * row_len) by (nonlinear_arith)
            requires
                need <= span(d),
        ;
    }
    let at: usize = rest * row_len;
    let ghost tail = splice(vzero::<F>(low1.len()), low1, cut);
    {
        // The low rows from `rest` on are known: take their contribution out of
        // the high evaluations.
        let (known, _) = scratch.split_at_mut(half);
        row_clear::<F>(known);
        proof {
            lemma_row_cut::<F>(known@, row_len as nat, d, rest as nat);
        }
        {
            let (head, known_tail) = known.split_at_mut(at);
            let (_, low_tail) = low.split_at(at);
            row_copy(known_tail, low_tail);
            proof {
                lemma_whole_parts(half as int, at as int, elem_bytes::<F>() as int);
                lemma_elem_bytes::<F>();
                lemma_unpack_concat::<F>(head@, known_tail@);
            }
        }
        assert(unpack::<F>(known@) =~= tail);
        forward_bytes_range_node::<F>(
            tier,
            known,
            row_len,
            factors,
            node * 2 + 1,
            dimension - 1,
            0,
            0,
            rest,
        );
        proof {
            lemma_row_cut::<F>(known@, row_len as nat, d, rest as nat);
            lemma_rows::<F>(known@, row_len as nat, d);
            lemma_rows::<F>(high@, row_len as nat, d);
        }
        let ghost contribution = unpack::<F>(known@);
        {
            let (known_head, _) = known.split_at(at);
            let (high_head, high_tail) = high.split_at_mut(at);
            row_add::<F>(high_head, known_head);
            proof {
                lemma_whole_parts(half as int, at as int, elem_bytes::<F>() as int);
                lemma_elem_bytes::<F>();
                lemma_unpack_concat::<F>(high_head@, high_tail@);
            }
        }
        assert(unpack::<F>(high@) =~= splice(vadd::<F>(high0, contribution), high0, cut));
    }
    proof {
        let a = |r: int| r < rest;
        let b = |r: int| 0 <= r < rest;
        lemma_pruned_same::<F>(tail, factors@, 2 * node as nat + 1, d, 0, a, b);
    }
    inverse_bytes_truncated_node::<F>(
        tier,
        high,
        row_len,
        factors,
        node * 2 + 1,
        dimension - 1,
        rest,
        scratch,
    );
    let factor = factors[node];
    let ghost top = unpack::<F>(high@);
    proof {
        lemma_row_cut::<F>(high@, row_len as nat, d, rest as nat);
        lemma_rows::<F>(high@, row_len as nat, d);
        lemma_rows::<F>(low@, row_len as nat, d);
    }
    {
        let (low_head, low_tail) = low.split_at_mut(at);
        let (high_head, high_tail) = high.split_at_mut(at);
        fused_inverse_backend::<F>(tier, low_head, high_head, factor);
        proof {
            lemma_whole_parts(half as int, at as int, elem_bytes::<F>() as int);
            lemma_elem_bytes::<F>();
            lemma_unpack_concat::<F>(low_head@, low_tail@);
            lemma_unpack_concat::<F>(high_head@, high_tail@);
        }
    }
    proof {
        assert(unpack::<F>(low@) =~= splice(inverse_low::<F>(low1, top, factor), low1, cut));
        assert(unpack::<F>(high@) =~= splice(inverse_high::<F>(low1, top), top, cut));
        lemma_join_bytes::<F>(low@, high@);
    }
}

} // verus!
