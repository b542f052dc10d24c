//! Laws of the transforms.
//!
//! A vector of `2^dim` rows of `lanes` elements holds its row `r` at the indices
//! `r * lanes` to `(r + 1) * lanes`: the element at index `i` belongs to row
//! `i / lanes`.

use vstd::arithmetic::div_mod::{lemma_fundamental_div_mod, lemma_fundamental_div_mod_converse};
use vstd::prelude::*;

use crate::field::{fadd, fmul, fzero, lemma_add, lemma_mul, BinaryField};
use crate::grid::{entry, lemma_place};
use crate::kernel::{
    forward_high, forward_low, inverse_high, inverse_low, lemma_cancel, lemma_cancel_right, vadd,
    vzero,
};
use crate::span::span;
use crate::transform::model::{
    any_row, forward_model, halves, high_half, inverse_model, law_inverse_undoes_forward,
    lemma_forward_len, lemma_halves_concat, lemma_halves_span, lemma_inverse_len, low_half,
    pruned_model, splice, truncated_inverse_model, truncated_model,
};

verus! {

/// Whether every entry from index `k` on is zero.
pub open spec fn zero_from<F: BinaryField>(v: Seq<F::Elem>, k: int) -> bool {
    forall|i: int| k <= i < v.len() ==> #[trigger] v[i] == fzero::<F>()
}

/// Whether two vectors agree on the first `k` entries.
pub open spec fn agree_to<T>(a: Seq<T>, b: Seq<T>, k: int) -> bool {
    forall|i: int| 0 <= i < k ==> #[trigger] a[i] == b[i]
}

/// The row of an entry, before and after the split of a vector into halves.
proof fn lemma_row_of(i: int, h: int, lanes: int)
    requires
        lanes > 0,
        0 <= i,
        h >= 0,
    ensures
        i < h * lanes <==> i / lanes < h,
        (i - h * lanes) / lanes == i / lanes - h,
        0 <= i / lanes,
{
    lemma_fundamental_div_mod(i, lanes);
    let q = i / lanes;
    let r = i % lanes;
    assert(i == q * lanes + r) by (nonlinear_arith)
        requires
            i == lanes * q + r,
    ;
    assert(i - h * lanes == (q - h) * lanes + r) by (nonlinear_arith)
        requires
            i == q * lanes + r,
    ;
    lemma_fundamental_div_mod_converse(i - h * lanes, lanes, q - h, r);
    if q < h {
        assert(i < h * lanes) by (nonlinear_arith)
            requires
                i == q * lanes + r,
                0 <= r < lanes,
                q + 1 <= h,
        ;
    } else {
        assert(i >= h * lanes) by (nonlinear_arith)
            requires
                i == q * lanes + r,
                0 <= r,
                q >= h,
                lanes > 0,
        ;
    }
    assert(q >= 0) by (nonlinear_arith)
        requires
            i == q * lanes + r,
            r < lanes,
            lanes > 0,
            i >= 0,
    ;
}

pub proof fn lemma_pruned_len<F: BinaryField>(
    v: Seq<F::Elem>,
    factors: Seq<F::Elem>,
    node: nat,
    dim: nat,
    offset: int,
    wanted: spec_fn(int) -> bool,
)
    requires
        halves(v.len(), dim),
    ensures
        pruned_model::<F>(v, factors, node, dim, offset, wanted).len() == v.len(),
    decreases dim,
{
    if dim > 0 {
        let d = (dim - 1) as nat;
        let middle = offset + span(d);
        let low = forward_low::<F>(low_half(v), high_half(v), factors[node as int]);
        let high = forward_high::<F>(low_half(v), high_half(v), factors[node as int]);
        lemma_pruned_len::<F>(low, factors, 2 * node, d, offset, wanted);
        lemma_pruned_len::<F>(high, factors, 2 * node + 1, d, middle, wanted);
    }
}

/// Whether row `k` of `out` is that of the forward transform of `v`, in rows of
/// `lanes` elements.
pub open spec fn row_final<F: BinaryField>(
    v: Seq<F::Elem>,
    out: Seq<F::Elem>,
    factors: Seq<F::Elem>,
    node: nat,
    dim: nat,
    lanes: nat,
    k: int,
) -> bool {
    forall|l: int|
        0 <= l < lanes ==> #[trigger] entry(out, lanes, k, l) == entry(
            forward_model::<F>(v, factors, node, dim),
            lanes,
            k,
            l,
        )
}

/// A wanted row of the pruned forward transform is final.
pub proof fn lemma_pruned_row_final<F: BinaryField>(
    v: Seq<F::Elem>,
    factors: Seq<F::Elem>,
    node: nat,
    dim: nat,
    lanes: nat,
    wanted: spec_fn(int) -> bool,
    k: int,
)
    requires
        lanes > 0,
        v.len() == span(dim) * lanes,
        0 <= k < span(dim),
        wanted(k),
    ensures
        row_final::<F>(
            v,
            pruned_model::<F>(v, factors, node, dim, 0, wanted),
            factors,
            node,
            dim,
            lanes,
            k,
        ),
{
    let out = pruned_model::<F>(v, factors, node, dim, 0, wanted);
    assert forall|l: int| 0 <= l < lanes implies #[trigger] entry(out, lanes, k, l) == entry(
        forward_model::<F>(v, factors, node, dim),
        lanes,
        k,
        l,
    ) by {
        lemma_place(k, l, lanes as int, span(dim) as int);
        lemma_fundamental_div_mod_converse(k * lanes + l, lanes as int, k, l);
        law_pruned_rows_are_final::<F>(v, factors, node, dim, lanes, 0, wanted, k * lanes + l);
    }
}

/// A wanted row of the truncated forward transform of a vector whose rows from
/// `active` on are zero is final.
pub proof fn lemma_truncated_row_final<F: BinaryField>(
    v: Seq<F::Elem>,
    factors: Seq<F::Elem>,
    node: nat,
    dim: nat,
    lanes: nat,
    active: nat,
    wanted: spec_fn(int) -> bool,
    k: int,
)
    requires
        lanes > 0,
        v.len() == span(dim) * lanes,
        zero_from::<F>(v, (active * lanes) as int),
        0 <= k < span(dim),
        wanted(k),
    ensures
        row_final::<F>(
            v,
            truncated_model::<F>(v, factors, node, dim, lanes, active, 0, wanted),
            factors,
            node,
            dim,
            lanes,
            k,
        ),
{
    let out = truncated_model::<F>(v, factors, node, dim, lanes, active, 0, wanted);
    assert forall|l: int| 0 <= l < lanes implies #[trigger] entry(out, lanes, k, l) == entry(
        forward_model::<F>(v, factors, node, dim),
        lanes,
        k,
        l,
    ) by {
        lemma_place(k, l, lanes as int, span(dim) as int);
        lemma_fundamental_div_mod_converse(k * lanes + l, lanes as int, k, l);
        law_truncated_rows_are_final::<F>(
            v,
            factors,
            node,
            dim,
            lanes,
            active,
            0,
            wanted,
            k * lanes + l,
        );
    }
}

/// The forward transform of zero is zero.
pub proof fn law_forward_of_zero<F: BinaryField>(
    v: Seq<F::Elem>,
    factors: Seq<F::Elem>,
    node: nat,
    dim: nat,
)
    requires
        halves(v.len(), dim),
        zero_from::<F>(v, 0),
    ensures
        forward_model::<F>(v, factors, node, dim) == v,
    decreases dim,
{
    if dim > 0 {
        let d = (dim - 1) as nat;
        let c = factors[node as int];
        let low = forward_low::<F>(low_half(v), high_half(v), c);
        let high = forward_high::<F>(low_half(v), high_half(v), c);
        let z = fzero::<F>();
        lemma_mul::<F>(c, z, z);
        lemma_add::<F>(z, z, z);
        assert forall|i: int| 0 <= i < low.len() implies low[i] == z && high[i] == z by {
            assert(low_half(v)[i] == z && high_half(v)[i] == z);
        }
        law_forward_of_zero::<F>(low, factors, 2 * node, d);
        law_forward_of_zero::<F>(high, factors, 2 * node + 1, d);
        lemma_halves_concat(v);
        assert(low =~= low_half(v));
        assert(high =~= high_half(v));
    }
}

/// On the wanted rows, the pruned forward transform is the forward transform.
pub proof fn law_pruned_rows_are_final<F: BinaryField>(
    v: Seq<F::Elem>,
    factors: Seq<F::Elem>,
    node: nat,
    dim: nat,
    lanes: nat,
    offset: int,
    wanted: spec_fn(int) -> bool,
    i: int,
)
    requires
        lanes > 0,
        v.len() == span(dim) * lanes,
        0 <= i < v.len(),
        wanted(offset + i / (lanes as int)),
    ensures
        pruned_model::<F>(v, factors, node, dim, offset, wanted)[i] == forward_model::<F>(
            v,
            factors,
            node,
            dim,
        )[i],
    decreases dim,
{
    lemma_halves_span(dim, lanes);
    if dim > 0 {
        let d = (dim - 1) as nat;
        let middle = offset + span(d);
        let h = span(d) * lanes;
        assert(v.len() == 2 * h) by (nonlinear_arith)
            requires
                v.len() == (2 * span(d)) * lanes,
                h == span(d) * lanes,
        ;
        let low = forward_low::<F>(low_half(v), high_half(v), factors[node as int]);
        let high = forward_high::<F>(low_half(v), high_half(v), factors[node as int]);
        lemma_halves_span(d, lanes);
        lemma_pruned_len::<F>(low, factors, 2 * node, d, offset, wanted);
        lemma_pruned_len::<F>(high, factors, 2 * node + 1, d, middle, wanted);
        lemma_forward_len::<F>(low, factors, 2 * node, d);
        lemma_forward_len::<F>(high, factors, 2 * node + 1, d);
        lemma_row_of(i, span(d) as int, lanes as int);
        lemma_row_of(i, span(dim) as int, lanes as int);
        let r = offset + i / (lanes as int);
        assert(wanted(r));
        if i < h {
            assert(any_row(wanted, offset, middle));
            law_pruned_rows_are_final::<F>(
                low,
                factors,
                2 * node,
                d,
                lanes,
                offset,
                wanted,
                i,
            );
        } else {
            assert(any_row(wanted, middle, middle + span(d)));
            law_pruned_rows_are_final::<F>(
                high,
                factors,
                2 * node + 1,
                d,
                lanes,
                middle,
                wanted,
                i - h,
            );
        }
    }
}

proof fn lemma_truncated_len<F: BinaryField>(
    v: Seq<F::Elem>,
    factors: Seq<F::Elem>,
    node: nat,
    dim: nat,
    lanes: nat,
    active: nat,
    offset: int,
    wanted: spec_fn(int) -> bool,
)
    requires
        v.len() == span(dim) * lanes,
    ensures
        truncated_model::<F>(v, factors, node, dim, lanes, active, offset, wanted).len()
            == v.len(),
    decreases dim,
{
    if dim > 0 {
        let d = (dim - 1) as nat;
        let middle = offset + span(d);
        let h = span(d) * lanes;
        assert(v.len() == 2 * h) by (nonlinear_arith)
            requires
                v.len() == (2 * span(d)) * lanes,
                h == span(d) * lanes,
        ;
        let copied = active <= span(d);
        let rest = if copied {
            active
        } else {
            span(d)
        };
        if copied {
            assert(active * lanes <= span(d) * lanes) by (nonlinear_arith)
                requires
                    active <= span(d),
            ;
        }
        let low = if copied {
            low_half(v)
        } else {
            forward_low::<F>(low_half(v), high_half(v), factors[node as int])
        };
        let high = if copied {
            splice(low_half(v), high_half(v), (active * lanes) as int)
        } else {
            forward_high::<F>(low_half(v), high_half(v), factors[node as int])
        };
        lemma_truncated_len::<F>(low, factors, 2 * node, d, lanes, rest, offset, wanted);
        lemma_truncated_len::<F>(high, factors, 2 * node + 1, d, lanes, rest, middle, wanted);
    }
}

/// The butterfly of a vector whose high half is zero copies its low half.
proof fn lemma_zero_high<F: BinaryField>(low: Seq<F::Elem>, high: Seq<F::Elem>, c: F::Elem)
    requires
        low.len() == high.len(),
        zero_from::<F>(high, 0),
    ensures
        forward_low::<F>(low, high, c) == low,
        forward_high::<F>(low, high, c) == low,
{
    assert forall|i: int| 0 <= i < low.len() implies forward_low::<F>(low, high, c)[i] == low[i]
        && forward_high::<F>(low, high, c)[i] == low[i] by {
        assert(high[i] == fzero::<F>());
        lemma_mul::<F>(c, c, c);
        lemma_add::<F>(low[i], low[i], low[i]);
    }
    assert(forward_low::<F>(low, high, c) =~= low);
    assert(forward_high::<F>(low, high, c) =~= low);
}

/// On the wanted rows, the truncated forward transform of a vector whose rows
/// from `active` on are zero is the forward transform.
pub proof fn law_truncated_rows_are_final<F: BinaryField>(
    v: Seq<F::Elem>,
    factors: Seq<F::Elem>,
    node: nat,
    dim: nat,
    lanes: nat,
    active: nat,
    offset: int,
    wanted: spec_fn(int) -> bool,
    i: int,
)
    requires
        lanes > 0,
        v.len() == span(dim) * lanes,
        zero_from::<F>(v, (active * lanes) as int),
        0 <= i < v.len(),
        wanted(offset + i / (lanes as int)),
    ensures
        truncated_model::<F>(v, factors, node, dim, lanes, active, offset, wanted)[i]
            == forward_model::<F>(v, factors, node, dim)[i],
    decreases dim,
{
    lemma_halves_span(dim, lanes);
    if dim > 0 {
        let d = (dim - 1) as nat;
        let middle = offset + span(d);
        let h = span(d) * lanes;
        assert(v.len() == 2 * h) by (nonlinear_arith)
            requires
                v.len() == (2 * span(d)) * lanes,
                h == span(d) * lanes,
        ;
        let c = factors[node as int];
        let copied = active <= span(d);
        let rest = if copied {
            active
        } else {
            span(d)
        };
        let low = forward_low::<F>(low_half(v), high_half(v), c);
        let high = forward_high::<F>(low_half(v), high_half(v), c);
        let cut = (active * lanes) as int;
        if copied {
            assert(active * lanes <= span(d) * lanes) by (nonlinear_arith)
                requires
                    active <= span(d),
            ;
            assert(zero_from::<F>(high_half(v), 0)) by {
                assert forall|k: int| 0 <= k < high_half(v).len() implies #[trigger] high_half(
                    v,
                )[k] == fzero::<F>() by {
                    assert(v[k + h] == fzero::<F>());
                }
            }
            lemma_zero_high::<F>(low_half(v), high_half(v), c);
            let copy = splice(low_half(v), high_half(v), cut);
            assert forall|k: int| 0 <= k < copy.len() implies copy[k] == low_half(v)[k] by {
                if k >= cut {
                    assert(v[k] == fzero::<F>());
                    assert(high_half(v)[k] == fzero::<F>());
                }
            }
            assert(copy =~= low_half(v));
            assert(zero_from::<F>(low, cut)) by {
                assert forall|k: int| cut <= k < low.len() implies #[trigger] low[k] == fzero::<
                    F,
                >() by {
                    assert(v[k] == fzero::<F>());
                }
            }
        }
        lemma_halves_span(d, lanes);
        lemma_truncated_len::<F>(low, factors, 2 * node, d, lanes, rest, offset, wanted);
        lemma_forward_len::<F>(low, factors, 2 * node, d);
        lemma_forward_len::<F>(high, factors, 2 * node + 1, d);
        lemma_row_of(i, span(d) as int, lanes as int);
        lemma_row_of(i, span(dim) as int, lanes as int);
        let r = offset + i / (lanes as int);
        assert(wanted(r));
        let left = if any_row(wanted, offset, middle) {
            truncated_model::<F>(low, factors, 2 * node, d, lanes, rest, offset, wanted)
        } else {
            low
        };
        let right = truncated_model::<F>(
            high,
            factors,
            2 * node + 1,
            d,
            lanes,
            rest,
            middle,
            wanted,
        );
        lemma_truncated_len::<F>(high, factors, 2 * node + 1, d, lanes, rest, middle, wanted);
        let rest_of = if any_row(wanted, middle, middle + span(d)) {
            right
        } else if copied {
            high_half(v)
        } else {
            high
        };
        assert(truncated_model::<F>(v, factors, node, dim, lanes, active, offset, wanted) == left
            + rest_of);
        assert(forward_model::<F>(v, factors, node, dim) == forward_model::<F>(
            low,
            factors,
            2 * node,
            d,
        ) + forward_model::<F>(high, factors, 2 * node + 1, d));
        if i < h {
            assert(any_row(wanted, offset, middle));
            law_truncated_rows_are_final::<F>(
                low,
                factors,
                2 * node,
                d,
                lanes,
                rest,
                offset,
                wanted,
                i,
            );
        } else {
            assert(any_row(wanted, middle, middle + span(d)));
            law_truncated_rows_are_final::<F>(
                high,
                factors,
                2 * node + 1,
                d,
                lanes,
                rest,
                middle,
                wanted,
                i - h,
            );
        }
    }
}

/// `(a + c*b) + (x + c*y) == (a + x) + c*(b + y)`.
proof fn lemma_axpy_sum<F: BinaryField>(
    a: F::Elem,
    b: F::Elem,
    x: F::Elem,
    y: F::Elem,
    c: F::Elem,
)
    ensures
        fadd::<F>(fadd::<F>(a, fmul::<F>(c, b)), fadd::<F>(x, fmul::<F>(c, y))) == fadd::<F>(
            fadd::<F>(a, x),
            fmul::<F>(c, fadd::<F>(b, y)),
        ),
{
    lemma_mul::<F>(c, b, y);
    lemma_swap_sum::<F>(a, fmul::<F>(c, b), x, fmul::<F>(c, y));
}

/// `(a + b) + (c + d) == (a + c) + (b + d)`.
pub proof fn lemma_swap_sum<F: BinaryField>(a: F::Elem, b: F::Elem, c: F::Elem, d: F::Elem)
    ensures
        fadd::<F>(fadd::<F>(a, b), fadd::<F>(c, d)) == fadd::<F>(
            fadd::<F>(a, c),
            fadd::<F>(b, d),
        ),
{
    lemma_add::<F>(a, b, fadd::<F>(c, d));
    lemma_add::<F>(b, c, d);
    lemma_add::<F>(c, b, d);
    lemma_add::<F>(a, c, fadd::<F>(b, d));
}

/// The forward transform of a sum is the sum of the forward transforms.
pub proof fn law_forward_is_additive<F: BinaryField>(
    v: Seq<F::Elem>,
    w: Seq<F::Elem>,
    factors: Seq<F::Elem>,
    node: nat,
    dim: nat,
)
    requires
        v.len() == w.len(),
        halves(v.len(), dim),
    ensures
        forward_model::<F>(vadd::<F>(v, w), factors, node, dim) == vadd::<F>(
            forward_model::<F>(v, factors, node, dim),
            forward_model::<F>(w, factors, node, dim),
        ),
    decreases dim,
{
    lemma_forward_len::<F>(v, factors, node, dim);
    lemma_forward_len::<F>(w, factors, node, dim);
    if dim > 0 {
        let d = (dim - 1) as nat;
        let c = factors[node as int];
        let s = vadd::<F>(v, w);
        let vl = forward_low::<F>(low_half(v), high_half(v), c);
        let vh = forward_high::<F>(low_half(v), high_half(v), c);
        let wl = forward_low::<F>(low_half(w), high_half(w), c);
        let wh = forward_high::<F>(low_half(w), high_half(w), c);
        let sl = forward_low::<F>(low_half(s), high_half(s), c);
        let sh = forward_high::<F>(low_half(s), high_half(s), c);
        let n = v.len() as int / 2;
        assert forall|k: int| 0 <= k < n implies sl[k] == vadd::<F>(vl, wl)[k] && sh[k] == vadd::<
            F,
        >(vh, wh)[k] by {
            lemma_axpy_sum::<F>(v[k], v[k + n], w[k], w[k + n], c);
            lemma_swap_sum::<F>(vl[k], v[k + n], wl[k], w[k + n]);
        }
        assert(sl =~= vadd::<F>(vl, wl));
        assert(sh =~= vadd::<F>(vh, wh));
        law_forward_is_additive::<F>(vl, wl, factors, 2 * node, d);
        law_forward_is_additive::<F>(vh, wh, factors, 2 * node + 1, d);
        lemma_forward_len::<F>(vl, factors, 2 * node, d);
        lemma_forward_len::<F>(wl, factors, 2 * node, d);
        lemma_forward_len::<F>(vh, factors, 2 * node + 1, d);
        lemma_forward_len::<F>(wh, factors, 2 * node + 1, d);
        assert(forward_model::<F>(s, factors, node, dim) =~= vadd::<F>(
            forward_model::<F>(v, factors, node, dim),
            forward_model::<F>(w, factors, node, dim),
        ));
    }
}

proof fn lemma_truncated_inverse_len<F: BinaryField>(
    v: Seq<F::Elem>,
    factors: Seq<F::Elem>,
    node: nat,
    dim: nat,
    lanes: nat,
    active: nat,
)
    requires
        v.len() == span(dim) * lanes,
    ensures
        truncated_inverse_model::<F>(v, factors, node, dim, lanes, active).len() == v.len(),
    decreases dim,
{
    lemma_halves_span(dim, lanes);
    lemma_inverse_len::<F>(v, factors, node, dim);
    if dim > 0 && active < span(dim) {
        let d = (dim - 1) as nat;
        let h = span(d) * lanes;
        assert(v.len() == 2 * h) by (nonlinear_arith)
            requires
                v.len() == (2 * span(d)) * lanes,
                h == span(d) * lanes,
        ;
        if active <= span(d) {
            lemma_truncated_inverse_len::<F>(low_half(v), factors, 2 * node, d, lanes, active);
        } else {
            let rest = (active - span(d)) as nat;
            let cut = (rest * lanes) as int;
            assert(0 <= cut <= h) by (nonlinear_arith)
                requires
                    rest <= span(d),
                    cut == rest * lanes,
                    h == span(d) * lanes,
            ;
            lemma_halves_span(d, lanes);
            let low = inverse_model::<F>(low_half(v), factors, 2 * node, d);
            lemma_inverse_len::<F>(low_half(v), factors, 2 * node, d);
            let tail = splice(vzero::<F>(low.len()), low, cut);
            let known = pruned_model::<F>(tail, factors, 2 * node + 1, d, 0, |r: int| r < rest);
            let high = splice(vadd::<F>(high_half(v), known), high_half(v), cut);
            lemma_truncated_inverse_len::<F>(high, factors, 2 * node + 1, d, lanes, rest);
        }
    }
}

/// Whether `after` recovers what `before` evaluates: where the first `active` rows
/// of `before` are those of the forward transform of coefficients that are zero
/// from row `active` on, the first `active` rows of `after` are the coefficients.
pub open spec fn recovers<F: BinaryField>(
    before: Seq<F::Elem>,
    after: Seq<F::Elem>,
    factors: Seq<F::Elem>,
    dim: nat,
    lanes: nat,
    active: nat,
) -> bool {
    forall|coefficients: Seq<F::Elem>|
        {
            &&& coefficients.len() == before.len()
            &&& zero_from::<F>(coefficients, (active * lanes) as int)
            &&& agree_to(
                before,
                #[trigger] forward_model::<F>(coefficients, factors, 1, dim),
                (active * lanes) as int,
            )
        } ==> agree_to(after, coefficients, (active * lanes) as int)
}

/// The truncated inverse transform recovers the first `active` rows of a vector
/// whose other rows are zero, from the first `active` rows of its evaluations.
pub proof fn law_truncated_inverse_recovers<F: BinaryField>(
    coefficients: Seq<F::Elem>,
    v: Seq<F::Elem>,
    factors: Seq<F::Elem>,
    node: nat,
    dim: nat,
    lanes: nat,
    active: nat,
)
    requires
        lanes > 0,
        1 <= active <= span(dim),
        coefficients.len() == span(dim) * lanes,
        v.len() == coefficients.len(),
        zero_from::<F>(coefficients, (active * lanes) as int),
        agree_to(v, forward_model::<F>(coefficients, factors, node, dim), (active * lanes) as int),
    ensures
        agree_to(
            truncated_inverse_model::<F>(v, factors, node, dim, lanes, active),
            coefficients,
            (active * lanes) as int,
        ),
    decreases dim,
{
    let full = forward_model::<F>(coefficients, factors, node, dim);
    lemma_halves_span(dim, lanes);
    lemma_forward_len::<F>(coefficients, factors, node, dim);
    if active == span(dim) {
        assert(v =~= full);
        law_inverse_undoes_forward::<F>(coefficients, factors, node, dim);
    } else {
        let d = (dim - 1) as nat;
        let c = factors[node as int];
        let h = span(d) * lanes;
        assert(v.len() == 2 * h) by (nonlinear_arith)
            requires
                v.len() == (2 * span(d)) * lanes,
                h == span(d) * lanes,
        ;
        lemma_halves_span(d, lanes);
        let a = low_half(coefficients);
        let b = high_half(coefficients);
        let l = forward_low::<F>(a, b, c);
        let u = forward_high::<F>(a, b, c);
        let full_l = forward_model::<F>(l, factors, 2 * node, d);
        let full_u = forward_model::<F>(u, factors, 2 * node + 1, d);
        lemma_forward_len::<F>(l, factors, 2 * node, d);
        lemma_forward_len::<F>(u, factors, 2 * node + 1, d);
        assert(full == full_l + full_u);
        let all = (active * lanes) as int;
        if active <= span(d) {
            assert(active * lanes <= span(d) * lanes) by (nonlinear_arith)
                requires
                    active <= span(d),
            ;
            assert(zero_from::<F>(b, 0)) by {
                assert forall|k: int| 0 <= k < b.len() implies #[trigger] b[k] == fzero::<F>() by {
                    assert(coefficients[k + h] == fzero::<F>());
                }
            }
            lemma_zero_high::<F>(a, b, c);
            assert(zero_from::<F>(a, all)) by {
                assert forall|k: int| all <= k < a.len() implies #[trigger] a[k] == fzero::<F>() by {
                    assert(coefficients[k] == fzero::<F>());
                }
            }
            assert(agree_to(low_half(v), full_l, all)) by {
                assert forall|k: int| 0 <= k < all implies #[trigger] low_half(v)[k]
                    == full_l[k] by {
                    assert(v[k] == full[k]);
                }
            }
            law_truncated_inverse_recovers::<F>(
                a,
                low_half(v),
                factors,
                2 * node,
                d,
                lanes,
                active,
            );
            lemma_truncated_inverse_len::<F>(low_half(v), factors, 2 * node, d, lanes, active);
            let t = truncated_inverse_model::<F>(low_half(v), factors, 2 * node, d, lanes, active);
            let out = truncated_inverse_model::<F>(v, factors, node, dim, lanes, active);
            assert(out == t + high_half(v));
            assert forall|k: int| 0 <= k < all implies #[trigger] out[k] == coefficients[k] by {
                assert(t[k] == a[k]);
            }
        } else {
            let rest = (active - span(d)) as nat;
            let cut = (rest * lanes) as int;
            assert(0 <= cut <= h && all == h + cut) by (nonlinear_arith)
                requires
                    rest == active - span(d),
                    active < 2 * span(d),
                    cut == rest * lanes,
                    h == span(d) * lanes,
                    all == active * lanes,
            ;
            // The low half is complete: its inverse is `l`.
            assert forall|k: int| 0 <= k < h implies low_half(v)[k] == full_l[k] by {
                assert(v[k] == full[k]);
            }
            assert(low_half(v) =~= full_l);
            law_inverse_undoes_forward::<F>(l, factors, 2 * node, d);
            let wanted = |r: int| r < rest;
            let tail = splice(vzero::<F>(l.len()), l, cut);
            let known = pruned_model::<F>(tail, factors, 2 * node + 1, d, 0, wanted);
            let high = splice(vadd::<F>(high_half(v), known), high_half(v), cut);
            lemma_pruned_len::<F>(tail, factors, 2 * node + 1, d, 0, wanted);
            // What is left to recover: `u` without its tail.
            let head = vadd::<F>(u, tail);
            law_forward_is_additive::<F>(u, tail, factors, 2 * node + 1, d);
            lemma_forward_len::<F>(tail, factors, 2 * node + 1, d);
            lemma_forward_len::<F>(head, factors, 2 * node + 1, d);
            assert(zero_from::<F>(head, cut)) by {
                assert forall|k: int| cut <= k < head.len() implies #[trigger] head[k]
                    == fzero::<F>() by {
                    assert(coefficients[k + h] == fzero::<F>());
                    assert(b[k] == fzero::<F>());
                    lemma_mul::<F>(c, c, c);
                    lemma_add::<F>(a[k], a[k], a[k]);
                    lemma_add::<F>(l[k], l[k], l[k]);
                }
            }
            assert(agree_to(high, forward_model::<F>(head, factors, 2 * node + 1, d), cut)) by {
                assert forall|k: int| 0 <= k < cut implies #[trigger] high[k] == forward_model::<F>(
                    head,
                    factors,
                    2 * node + 1,
                    d,
                )[k] by {
                    assert(v[k + h] == full[k + h]);
                    lemma_row_of(k, rest as int, lanes as int);
                    law_pruned_rows_are_final::<F>(
                        tail,
                        factors,
                        2 * node + 1,
                        d,
                        lanes,
                        0,
                        wanted,
                        k,
                    );
                }
            }
            law_truncated_inverse_recovers::<F>(
                head,
                high,
                factors,
                2 * node + 1,
                d,
                lanes,
                rest,
            );
            let top = truncated_inverse_model::<F>(high, factors, 2 * node + 1, d, lanes, rest);
            lemma_truncated_inverse_len::<F>(high, factors, 2 * node + 1, d, lanes, rest);
            let out_low = splice(inverse_low::<F>(l, top, c), l, cut);
            let out_high = splice(inverse_high::<F>(l, top), top, cut);
            let out = truncated_inverse_model::<F>(v, factors, node, dim, lanes, active);
            assert(out == out_low + out_high);
            assert forall|k: int| 0 <= k < all implies #[trigger] out[k] == coefficients[k] by {
                if k < cut {
                    assert(top[k] == head[k]);
                    lemma_add::<F>(u[k], u[k], u[k]);
                    lemma_cancel::<F>(l[k], b[k]);
                    lemma_cancel_right::<F>(a[k], fmul::<F>(c, b[k]));
                } else if k < h {
                    assert(coefficients[k + h] == fzero::<F>());
                    assert(b[k] == fzero::<F>());
                    lemma_mul::<F>(c, c, c);
                    lemma_add::<F>(a[k], a[k], a[k]);
                } else {
                    let j = k - h;
                    assert(top[j] == head[j]);
                    lemma_add::<F>(u[j], u[j], u[j]);
                    lemma_cancel::<F>(l[j], b[j]);
                }
            }
        }
    }
}

/// What the two predicates on vectors say, entry by entry.
pub proof fn law_vector_predicates<F: BinaryField>(a: Seq<F::Elem>, b: Seq<F::Elem>, k: int)
    ensures
        zero_from::<F>(a, k) <==> (forall|i: int|
            k <= i < a.len() ==> fadd::<F>(#[trigger] a[i], a[i]) == a[i]),
        agree_to(a, b, k) <==> (forall|i: int|
            0 <= i < k ==> fadd::<F>(#[trigger] a[i], b[i]) == fzero::<F>()),
{
    assert forall|i: int| fadd::<F>(#[trigger] a[i], a[i]) == fzero::<F>() by {
        lemma_add::<F>(a[i], a[i], a[i]);
    }
    assert forall|i: int| (fadd::<F>(#[trigger] a[i], b[i]) == fzero::<F>()) == (a[i] == b[i]) by {
        lemma_add::<F>(a[i], b[i], b[i]);
        lemma_add::<F>(b[i], b[i], b[i]);
    }
}

} // verus!
