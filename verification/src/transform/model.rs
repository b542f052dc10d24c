//! What the transforms compute: recursive models on element vectors.
//!
//! A transform of dimension `dim` acts on a vector whose length is a multiple of
//! `2^dim`: `2^dim` rows of equally many lanes, row after row. The butterfly at
//! heap node `node` couples the two halves of the vector with the coefficient
//! `factors[node]`; the halves go on to the nodes `2 * node` and `2 * node + 1`.

use vstd::prelude::*;

use crate::field::BinaryField;
use crate::kernel::{
    forward_high, forward_low, inverse_high, inverse_low, law_butterflies_undo_each_other, vadd,
    vzero,
};
use crate::span::span;

verus! {

/// Whether a vector of length `len` can be halved `dim` times.
pub open spec fn halves(len: nat, dim: nat) -> bool
    decreases dim,
{
    dim == 0 || (len % 2 == 0 && halves(len / 2, (dim - 1) as nat))
}

/// Whether a heap of `len` entries holds every node of the subtree of dimension
/// `dim` rooted at `node`.
pub open spec fn heap_holds(len: nat, node: nat, dim: nat) -> bool
    decreases dim,
{
    dim == 0 || (node < len && heap_holds(len, 2 * node, (dim - 1) as nat) && heap_holds(
        len,
        2 * node + 1,
        (dim - 1) as nat,
    ))
}

/// The low half of a vector.
pub open spec fn low_half<T>(v: Seq<T>) -> Seq<T> {
    v.subrange(0, v.len() as int / 2)
}

/// The high half of a vector.
pub open spec fn high_half<T>(v: Seq<T>) -> Seq<T> {
    v.subrange(v.len() as int / 2, v.len() as int)
}

/// The forward transform: the butterfly of the node, then both subtrees.
pub open spec fn forward_model<F: BinaryField>(
    v: Seq<F::Elem>,
    factors: Seq<F::Elem>,
    node: nat,
    dim: nat,
) -> Seq<F::Elem>
    decreases dim,
{
    if dim == 0 {
        v
    } else {
        let low = forward_low::<F>(low_half(v), high_half(v), factors[node as int]);
        let high = forward_high::<F>(low_half(v), high_half(v), factors[node as int]);
        forward_model::<F>(low, factors, 2 * node, (dim - 1) as nat) + forward_model::<F>(
            high,
            factors,
            2 * node + 1,
            (dim - 1) as nat,
        )
    }
}

/// The inverse transform: both subtrees, then the inverse butterfly of the node.
pub open spec fn inverse_model<F: BinaryField>(
    v: Seq<F::Elem>,
    factors: Seq<F::Elem>,
    node: nat,
    dim: nat,
) -> Seq<F::Elem>
    decreases dim,
{
    if dim == 0 {
        v
    } else {
        let low = inverse_model::<F>(low_half(v), factors, 2 * node, (dim - 1) as nat);
        let high = inverse_model::<F>(high_half(v), factors, 2 * node + 1, (dim - 1) as nat);
        inverse_low::<F>(low, high, factors[node as int]) + inverse_high::<F>(low, high)
    }
}

pub proof fn lemma_forward_len<F: BinaryField>(
    v: Seq<F::Elem>,
    factors: Seq<F::Elem>,
    node: nat,
    dim: nat,
)
    requires
        halves(v.len(), dim),
    ensures
        forward_model::<F>(v, factors, node, dim).len() == v.len(),
    decreases dim,
{
    if dim > 0 {
        let low = forward_low::<F>(low_half(v), high_half(v), factors[node as int]);
        let high = forward_high::<F>(low_half(v), high_half(v), factors[node as int]);
        lemma_forward_len::<F>(low, factors, 2 * node, (dim - 1) as nat);
        lemma_forward_len::<F>(high, factors, 2 * node + 1, (dim - 1) as nat);
    }
}

pub proof fn lemma_inverse_len<F: BinaryField>(
    v: Seq<F::Elem>,
    factors: Seq<F::Elem>,
    node: nat,
    dim: nat,
)
    requires
        halves(v.len(), dim),
    ensures
        inverse_model::<F>(v, factors, node, dim).len() == v.len(),
    decreases dim,
{
    if dim > 0 {
        lemma_inverse_len::<F>(low_half(v), factors, 2 * node, (dim - 1) as nat);
        lemma_inverse_len::<F>(high_half(v), factors, 2 * node + 1, (dim - 1) as nat);
    }
}

/// The halves of a concatenation of two equally long vectors.
pub proof fn lemma_concat_halves<T>(a: Seq<T>, b: Seq<T>)
    requires
        a.len() == b.len(),
    ensures
        low_half(a + b) == a,
        high_half(a + b) == b,
{
    assert(low_half(a + b) =~= a);
    assert(high_half(a + b) =~= b);
}

/// A vector of even length is the concatenation of its halves.
pub proof fn lemma_halves_concat<T>(v: Seq<T>)
    requires
        v.len() % 2 == 0,
    ensures
        low_half(v) + high_half(v) == v,
        low_half(v).len() == high_half(v).len(),
        low_half(v).len() == v.len() / 2,
{
    assert(low_half(v) + high_half(v) =~= v);
}

/// The inverse transform undoes the forward transform.
pub proof fn law_inverse_undoes_forward<F: BinaryField>(
    v: Seq<F::Elem>,
    factors: Seq<F::Elem>,
    node: nat,
    dim: nat,
)
    requires
        halves(v.len(), dim),
    ensures
        inverse_model::<F>(forward_model::<F>(v, factors, node, dim), factors, node, dim) == v,
    decreases dim,
{
    if dim > 0 {
        let c = factors[node as int];
        let d = (dim - 1) as nat;
        let low = forward_low::<F>(low_half(v), high_half(v), c);
        let high = forward_high::<F>(low_half(v), high_half(v), c);
        lemma_halves_concat(v);
        lemma_forward_len::<F>(low, factors, 2 * node, d);
        lemma_forward_len::<F>(high, factors, 2 * node + 1, d);
        lemma_concat_halves(
            forward_model::<F>(low, factors, 2 * node, d),
            forward_model::<F>(high, factors, 2 * node + 1, d),
        );
        law_inverse_undoes_forward::<F>(low, factors, 2 * node, d);
        law_inverse_undoes_forward::<F>(high, factors, 2 * node + 1, d);
        law_butterflies_undo_each_other::<F>(low_half(v), high_half(v), c);
    }
}

/// The forward transform undoes the inverse transform.
pub proof fn law_forward_undoes_inverse<F: BinaryField>(
    v: Seq<F::Elem>,
    factors: Seq<F::Elem>,
    node: nat,
    dim: nat,
)
    requires
        halves(v.len(), dim),
    ensures
        forward_model::<F>(inverse_model::<F>(v, factors, node, dim), factors, node, dim) == v,
    decreases dim,
{
    if dim > 0 {
        let c = factors[node as int];
        let d = (dim - 1) as nat;
        lemma_halves_concat(v);
        let low = inverse_model::<F>(low_half(v), factors, 2 * node, d);
        let high = inverse_model::<F>(high_half(v), factors, 2 * node + 1, d);
        lemma_inverse_len::<F>(low_half(v), factors, 2 * node, d);
        lemma_inverse_len::<F>(high_half(v), factors, 2 * node + 1, d);
        lemma_concat_halves(inverse_low::<F>(low, high, c), inverse_high::<F>(low, high));
        law_butterflies_undo_each_other::<F>(low, high, c);
        law_forward_undoes_inverse::<F>(low_half(v), factors, 2 * node, d);
        law_forward_undoes_inverse::<F>(high_half(v), factors, 2 * node + 1, d);
    }
}

/// `2^dim` rows can be halved `dim` times.
pub proof fn lemma_halves_span(dim: nat, lanes: nat)
    ensures
        halves(span(dim) * lanes, dim),
        span(dim) >= 1,
    decreases dim,
{
    if dim > 0 {
        let d = (dim - 1) as nat;
        lemma_halves_span(d, lanes);
        assert(span(dim) * lanes == 2 * (span(d) * lanes)) by (nonlinear_arith)
            requires
                span(dim) == 2 * span(d),
        ;
    }
}

/// Whether a set of rows meets the rows `from..to`.
pub open spec fn any_row(rows: spec_fn(int) -> bool, from: int, to: int) -> bool {
    exists|r: int| from <= r < to && #[trigger] rows(r)
}

/// The first `count` entries of `a`, then the entries of `b` from there on.
pub open spec fn splice<T>(a: Seq<T>, b: Seq<T>, count: int) -> Seq<T> {
    a.subrange(0, count) + b.subrange(count, b.len() as int)
}

/// The forward transform that leaves out every subtree without a wanted row.
/// The subtree covers the rows `offset..offset + 2^dim`.
pub open spec fn pruned_model<F: BinaryField>(
    v: Seq<F::Elem>,
    factors: Seq<F::Elem>,
    node: nat,
    dim: nat,
    offset: int,
    wanted: spec_fn(int) -> bool,
) -> Seq<F::Elem>
    decreases dim,
{
    if dim == 0 {
        v
    } else {
        let d = (dim - 1) as nat;
        let middle = offset + span(d);
        let low = forward_low::<F>(low_half(v), high_half(v), factors[node as int]);
        let high = forward_high::<F>(low_half(v), high_half(v), factors[node as int]);
        (if any_row(wanted, offset, middle) {
            pruned_model::<F>(low, factors, 2 * node, d, offset, wanted)
        } else {
            low
        }) + (if any_row(wanted, middle, middle + span(d)) {
            pruned_model::<F>(high, factors, 2 * node + 1, d, middle, wanted)
        } else {
            high
        })
    }
}

/// The pruned forward transform of a vector whose rows from `active` on are
/// zero: a butterfly whose high half is zero is a copy of the active rows.
pub open spec fn truncated_model<F: BinaryField>(
    v: Seq<F::Elem>,
    factors: Seq<F::Elem>,
    node: nat,
    dim: nat,
    lanes: nat,
    active: nat,
    offset: int,
    wanted: spec_fn(int) -> bool,
) -> Seq<F::Elem>
    decreases dim,
{
    if dim == 0 {
        v
    } else {
        let d = (dim - 1) as nat;
        let middle = offset + span(d);
        let copied = active <= span(d);
        let rest = if copied {
            active
        } else {
            span(d)
        };
        let low = if copied {
            low_half(v)
        } else {
            forward_low::<F>(low_half(v), high_half(v), factors[node as int])
        };
        let high = if copied {
            splice(low_half(v), high_half(v), (active * lanes) as int)
        } else {
            forward_high::<F>(low_half(v), high_half(v), factors[node as int])
        };
        (if any_row(wanted, offset, middle) {
            truncated_model::<F>(low, factors, 2 * node, d, lanes, rest, offset, wanted)
        } else {
            low
        }) + (if any_row(wanted, middle, middle + span(d)) {
            truncated_model::<F>(high, factors, 2 * node + 1, d, lanes, rest, middle, wanted)
        } else if copied {
            high_half(v)
        } else {
            high
        })
    }
}

/// The inverse transform that recovers the first `active` rows, for the
/// evaluations of a vector whose rows from `active` on are zero.
pub open spec fn truncated_inverse_model<F: BinaryField>(
    v: Seq<F::Elem>,
    factors: Seq<F::Elem>,
    node: nat,
    dim: nat,
    lanes: nat,
    active: nat,
) -> Seq<F::Elem>
    decreases dim,
{
    if dim == 0 {
        v
    } else if active >= span(dim) {
        inverse_model::<F>(v, factors, node, dim)
    } else if active <= span((dim - 1) as nat) {
        truncated_inverse_model::<F>(low_half(v), factors, 2 * node, (dim - 1) as nat, lanes, active)
            + high_half(v)
    } else {
        let d = (dim - 1) as nat;
        let rest = (active - span(d)) as nat;
        let cut = (rest * lanes) as int;
        let low = inverse_model::<F>(low_half(v), factors, 2 * node, d);
        let tail = splice(vzero::<F>(low.len()), low, cut);
        let known = pruned_model::<F>(tail, factors, 2 * node + 1, d, 0, |r: int| r < rest);
        let high = splice(vadd::<F>(high_half(v), known), high_half(v), cut);
        let top = truncated_inverse_model::<F>(high, factors, 2 * node + 1, d, lanes, rest);
        let c = factors[node as int];
        splice(inverse_low::<F>(low, top, c), low, cut) + splice(
            inverse_high::<F>(low, top),
            top,
            cut,
        )
    }
}

/// The pruned transform depends on the wanted rows that it covers, and on
/// nothing else of the predicate.
pub proof fn lemma_pruned_same<F: BinaryField>(
    v: Seq<F::Elem>,
    factors: Seq<F::Elem>,
    node: nat,
    dim: nat,
    offset: int,
    a: spec_fn(int) -> bool,
    b: spec_fn(int) -> bool,
)
    requires
        forall|r: int|
            #![trigger a(r)]
            #![trigger b(r)]
            offset <= r < offset + span(dim) ==> a(r) == b(r),
    ensures
        pruned_model::<F>(v, factors, node, dim, offset, a) == pruned_model::<F>(
            v,
            factors,
            node,
            dim,
            offset,
            b,
        ),
    decreases dim,
{
    if dim > 0 {
        let d = (dim - 1) as nat;
        let middle = offset + span(d);
        let low = forward_low::<F>(low_half(v), high_half(v), factors[node as int]);
        let high = forward_high::<F>(low_half(v), high_half(v), factors[node as int]);
        lemma_pruned_same::<F>(low, factors, 2 * node, d, offset, a, b);
        lemma_pruned_same::<F>(high, factors, 2 * node + 1, d, middle, a, b);
        assert(any_row(a, offset, middle) == any_row(b, offset, middle)) by {
            if any_row(a, offset, middle) {
                let r = choose|r: int| offset <= r < middle && #[trigger] a(r);
                assert(b(r));
            }
            if any_row(b, offset, middle) {
                let r = choose|r: int| offset <= r < middle && #[trigger] b(r);
                assert(a(r));
            }
        }
        assert(any_row(a, middle, middle + span(d)) == any_row(b, middle, middle + span(d))) by {
            if any_row(a, middle, middle + span(d)) {
                let r = choose|r: int| middle <= r < middle + span(d) && #[trigger] a(r);
                assert(b(r));
            }
            if any_row(b, middle, middle + span(d)) {
                let r = choose|r: int| middle <= r < middle + span(d) && #[trigger] b(r);
                assert(a(r));
            }
        }
    }
}

} // verus!
