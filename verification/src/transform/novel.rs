//! The novel polynomial basis and what the transforms mean in it.
//!
//! The novel basis polynomial `X_i` is the product of the normalized subspace
//! polynomials at the set bits of `i`. A coefficient vector `v` of length
//! `2^dim` stands for the polynomial `v_0 X_0 + v_1 X_1 + ...`. The forward
//! transform evaluates it at the points of the domain, in order.

use vstd::prelude::*;

use crate::field::{fadd, fmul, fone, fzero, lemma_add, lemma_mul, BinaryField};
use crate::kernel::{axpy, forward_high, forward_low};
use crate::subspace::{
    combine, independent, law_independent_iff_normalizers, law_normalized_on_cosets,
    lemma_combine_narrow, normalized, normalizer,
};
use crate::transform::laws::lemma_swap_sum;
use crate::span::{lemma_span_add, lemma_span_monotone, span};
use crate::transform::model::{
    forward_model, high_half, lemma_forward_len, lemma_halves_span, low_half,
};

verus! {

/// The value at `x` of the novel basis polynomial `X_i`, for `i < 2^dim`.
pub open spec fn novel_basis<F: BinaryField>(
    basis: Seq<F::Elem>,
    dim: nat,
    i: int,
    x: F::Elem,
) -> F::Elem
    decreases dim,
{
    if dim == 0 {
        fone::<F>()
    } else {
        let d = (dim - 1) as nat;
        if i < span(d) {
            novel_basis::<F>(basis, d, i, x)
        } else {
            fmul::<F>(
                novel_basis::<F>(basis, d, i - span(d), x),
                normalized::<F>(basis, d, x),
            )
        }
    }
}

/// The sum of `v_i * X_i(x)` over the first `n` coefficients.
pub open spec fn novel_sum<F: BinaryField>(
    basis: Seq<F::Elem>,
    v: Seq<F::Elem>,
    dim: nat,
    n: nat,
    x: F::Elem,
) -> F::Elem
    decreases n,
{
    if n == 0 {
        fzero::<F>()
    } else {
        fadd::<F>(
            novel_sum::<F>(basis, v, dim, (n - 1) as nat, x),
            fmul::<F>(v[n - 1], novel_basis::<F>(basis, dim, n - 1, x)),
        )
    }
}

/// The value at `x` of the polynomial with novel-basis coefficients `v`.
pub open spec fn novel_value<F: BinaryField>(
    basis: Seq<F::Elem>,
    v: Seq<F::Elem>,
    dim: nat,
    x: F::Elem,
) -> F::Elem {
    novel_sum::<F>(basis, v, dim, v.len(), x)
}

/// The point of index `i` of the domain `shift + V_dim`.
pub open spec fn domain_point<F: BinaryField>(
    basis: Seq<F::Elem>,
    shift: F::Elem,
    dim: nat,
    i: int,
) -> F::Elem {
    fadd::<F>(shift, combine::<F>(basis, dim, i))
}

/// Whether the heap holds, at every node of the subtree rooted at `node`, the
/// value of the node's normalized subspace polynomial at the node's shift.
pub open spec fn twiddles<F: BinaryField>(
    factors: Seq<F::Elem>,
    basis: Seq<F::Elem>,
    node: nat,
    dim: nat,
    shift: F::Elem,
) -> bool
    decreases dim,
{
    dim == 0 || {
        let d = (dim - 1) as nat;
        &&& factors[node as int] == normalized::<F>(basis, d, shift)
        &&& twiddles::<F>(factors, basis, 2 * node, d, shift)
        &&& twiddles::<F>(factors, basis, 2 * node + 1, d, fadd::<F>(shift, basis[d as int]))
    }
}

proof fn lemma_novel_sum_low<F: BinaryField>(
    basis: Seq<F::Elem>,
    v: Seq<F::Elem>,
    dim: nat,
    n: nat,
    x: F::Elem,
)
    requires
        dim > 0,
        v.len() == span(dim),
        n <= span((dim - 1) as nat),
    ensures
        novel_sum::<F>(basis, v, dim, n, x) == novel_sum::<F>(
            basis,
            low_half(v),
            (dim - 1) as nat,
            n,
            x,
        ),
    decreases n,
{
    if n > 0 {
        lemma_novel_sum_low::<F>(basis, v, dim, (n - 1) as nat, x);
    }
}

proof fn lemma_novel_sum_high<F: BinaryField>(
    basis: Seq<F::Elem>,
    v: Seq<F::Elem>,
    dim: nat,
    n: nat,
    x: F::Elem,
)
    requires
        dim > 0,
        v.len() == span(dim),
        n <= span((dim - 1) as nat),
    ensures
        ({
            let d = (dim - 1) as nat;
            novel_sum::<F>(basis, v, dim, span(d) + n, x) == fadd::<F>(
                novel_sum::<F>(basis, low_half(v), d, span(d), x),
                fmul::<F>(
                    normalized::<F>(basis, d, x),
                    novel_sum::<F>(basis, high_half(v), d, n, x),
                ),
            )
        }),
    decreases n,
{
    let d = (dim - 1) as nat;
    let w = normalized::<F>(basis, d, x);
    let low = novel_sum::<F>(basis, low_half(v), d, span(d), x);
    if n == 0 {
        lemma_novel_sum_low::<F>(basis, v, dim, span(d), x);
        lemma_mul::<F>(w, w, w);
        lemma_add::<F>(low, low, low);
    } else {
        lemma_novel_sum_high::<F>(basis, v, dim, (n - 1) as nat, x);
        let s = novel_sum::<F>(basis, high_half(v), d, (n - 1) as nat, x);
        let c = high_half(v)[n - 1];
        let b = novel_basis::<F>(basis, d, n - 1, x);
        assert(c == v[span(d) + n - 1]);
        assert((span(d) + n - 1) as nat == span(d) + (n - 1) as nat);
        // (low + w s) + c (b w) == low + w (s + c b)
        lemma_mul::<F>(w, s, fmul::<F>(c, b));
        lemma_mul::<F>(c, b, w);
        lemma_mul::<F>(fmul::<F>(c, b), w, w);
        lemma_add::<F>(low, fmul::<F>(w, s), fmul::<F>(c, fmul::<F>(b, w)));
    }
}

/// A polynomial splits as `f = f_low + W * f_high`, with `W` the normalized
/// subspace polynomial of the highest dimension.
pub proof fn law_novel_split<F: BinaryField>(
    basis: Seq<F::Elem>,
    v: Seq<F::Elem>,
    dim: nat,
    x: F::Elem,
)
    requires
        dim > 0,
        v.len() == span(dim),
    ensures
        novel_value::<F>(basis, v, dim, x) == fadd::<F>(
            novel_value::<F>(basis, low_half(v), (dim - 1) as nat, x),
            fmul::<F>(
                normalized::<F>(basis, (dim - 1) as nat, x),
                novel_value::<F>(basis, high_half(v), (dim - 1) as nat, x),
            ),
        ),
{
    let d = (dim - 1) as nat;
    assert(low_half(v).len() == span(d) && high_half(v).len() == span(d));
    lemma_novel_sum_high::<F>(basis, v, dim, span(d), x);
}

/// The value is linear in the coefficients: `f + c * g`.
proof fn lemma_novel_axpy<F: BinaryField>(
    basis: Seq<F::Elem>,
    a: Seq<F::Elem>,
    c: F::Elem,
    b: Seq<F::Elem>,
    dim: nat,
    n: nat,
    x: F::Elem,
)
    requires
        a.len() == b.len(),
        n <= a.len(),
    ensures
        novel_sum::<F>(basis, axpy::<F>(a, c, b), dim, n, x) == fadd::<F>(
            novel_sum::<F>(basis, a, dim, n, x),
            fmul::<F>(c, novel_sum::<F>(basis, b, dim, n, x)),
        ),
    decreases n,
{
    if n == 0 {
        lemma_mul::<F>(c, c, c);
        lemma_add::<F>(fzero::<F>(), fzero::<F>(), fzero::<F>());
    } else {
        let m = (n - 1) as nat;
        lemma_novel_axpy::<F>(basis, a, c, b, dim, m, x);
        let e = novel_basis::<F>(basis, dim, n - 1, x);
        let (p, q) = (a[n - 1], b[n - 1]);
        let sa = novel_sum::<F>(basis, a, dim, m, x);
        let sb = novel_sum::<F>(basis, b, dim, m, x);
        // (sa + c sb) + (p + c q) e == (sa + p e) + c (sb + q e)
        lemma_mul::<F>(e, p, fmul::<F>(c, q));
        lemma_mul::<F>(c, q, e);
        lemma_mul::<F>(c, sb, fmul::<F>(q, e));
        lemma_swap_sum::<F>(
            sa,
            fmul::<F>(c, sb),
            fmul::<F>(p, e),
            fmul::<F>(c, fmul::<F>(q, e)),
        );
    }
}

/// The forward transform evaluates the polynomial with novel-basis coefficients
/// `v` at the points of the domain: its entry `i` is the value at point `i`.
pub proof fn law_forward_evaluates<F: BinaryField>(
    v: Seq<F::Elem>,
    factors: Seq<F::Elem>,
    basis: Seq<F::Elem>,
    shift: F::Elem,
    node: nat,
    dim: nat,
    i: int,
)
    requires
        v.len() == span(dim),
        dim <= basis.len(),
        independent::<F>(basis, dim),
        twiddles::<F>(factors, basis, node, dim, shift),
        0 <= i < span(dim),
    ensures
        forward_model::<F>(v, factors, node, dim)[i] == novel_value::<F>(
            basis,
            v,
            dim,
            domain_point::<F>(basis, shift, dim, i),
        ),
    decreases dim,
{
    if dim == 0 {
        reveal_with_fuel(novel_sum, 2);
        lemma_mul::<F>(v[0], v[0], v[0]);
        lemma_add::<F>(v[0], v[0], v[0]);
    } else {
        let d = (dim - 1) as nat;
        let c = factors[node as int];
        let b = basis[d as int];
        let low = forward_low::<F>(low_half(v), high_half(v), c);
        let high = forward_high::<F>(low_half(v), high_half(v), c);
        lemma_halves_span(dim, 1);
        lemma_halves_span(d, 1);
        lemma_forward_len::<F>(low, factors, 2 * node, d);
        lemma_forward_len::<F>(high, factors, 2 * node + 1, d);
        law_independent_iff_normalizers::<F>(basis, dim);
        assert(normalizer::<F>(basis, d as int as nat) != fzero::<F>());
        let x = domain_point::<F>(basis, shift, dim, i);
        law_novel_split::<F>(basis, v, dim, x);
        let fl = novel_value::<F>(basis, low_half(v), d, x);
        let fh = novel_value::<F>(basis, high_half(v), d, x);
        if i < span(d) {
            law_forward_evaluates::<F>(low, factors, basis, shift, 2 * node, d, i);
            law_normalized_on_cosets::<F>(basis, d, shift, i);
            lemma_novel_axpy::<F>(basis, low_half(v), c, high_half(v), d, span(d), x);
        } else {
            let j = i - span(d);
            let s = fadd::<F>(shift, b);
            law_forward_evaluates::<F>(high, factors, basis, s, 2 * node + 1, d, j);
            law_normalized_on_cosets::<F>(basis, d, shift, j);
            let u = combine::<F>(basis, d, j);
            // shift + (u + b) == (shift + b) + u
            lemma_add::<F>(u, b, b);
            lemma_add::<F>(shift, b, u);
            let one = fone::<F>();
            let c1 = fadd::<F>(c, one);
            assert forall|k: int| 0 <= k < span(d) implies high[k] == axpy::<F>(
                low_half(v),
                c1,
                high_half(v),
            )[k] by {
                let h = high_half(v)[k];
                lemma_mul::<F>(h, c, one);
                lemma_add::<F>(low_half(v)[k], fmul::<F>(c, h), h);
            }
            assert(high =~= axpy::<F>(low_half(v), c1, high_half(v)));
            lemma_novel_axpy::<F>(basis, low_half(v), c1, high_half(v), d, span(d), x);
        }
    }
}

/// Novel basis polynomials below a power of two need no further subspaces.
proof fn lemma_novel_narrow<F: BinaryField>(
    basis: Seq<F::Elem>,
    dim: nat,
    k: nat,
    i: int,
    x: F::Elem,
)
    requires
        k <= dim,
        0 <= i < span(k),
    ensures
        novel_basis::<F>(basis, dim, i, x) == novel_basis::<F>(basis, k, i, x),
    decreases dim,
{
    if k < dim {
        lemma_span_monotone(k, (dim - 1) as nat);
        lemma_novel_narrow::<F>(basis, (dim - 1) as nat, k, i, x);
    }
}

/// The novel basis: the first polynomial is one, and bit `k` of the index is a factor
/// of the normalized subspace polynomial `k`.
pub proof fn law_novel_basis<F: BinaryField>(
    basis: Seq<F::Elem>,
    dim: nat,
    k: nat,
    i: int,
    x: F::Elem,
)
    requires
        k < dim,
        0 <= i < span(k),
    ensures
        novel_basis::<F>(basis, dim, 0, x) == fone::<F>(),
        novel_basis::<F>(basis, dim, i + span(k), x) == fmul::<F>(
            novel_basis::<F>(basis, dim, i, x),
            normalized::<F>(basis, k, x),
        ),
{
    lemma_span_monotone(0, k);
    assert(span(0) == 1);
    assert(span(k + 1) == 2 * span(k));
    lemma_novel_narrow::<F>(basis, dim, 0, 0, x);
    lemma_novel_narrow::<F>(basis, dim, k, i, x);
    lemma_novel_narrow::<F>(basis, dim, k + 1, i + span(k), x);
}

/// The value of a single coefficient: it times its basis polynomial.
pub proof fn law_novel_value_of_one_term<F: BinaryField>(
    basis: Seq<F::Elem>,
    v: Seq<F::Elem>,
    dim: nat,
    i: int,
    x: F::Elem,
)
    requires
        0 <= i < v.len(),
        forall|j: int| 0 <= j < v.len() && j != i ==> #[trigger] v[j] == fzero::<F>(),
    ensures
        novel_value::<F>(basis, v, dim, x) == fmul::<F>(
            v[i],
            novel_basis::<F>(basis, dim, i, x),
        ),
{
    lemma_novel_one_term::<F>(basis, v, dim, i, v.len(), x);
}

proof fn lemma_novel_one_term<F: BinaryField>(
    basis: Seq<F::Elem>,
    v: Seq<F::Elem>,
    dim: nat,
    i: int,
    n: nat,
    x: F::Elem,
)
    requires
        0 <= i < v.len(),
        n <= v.len(),
        forall|j: int| 0 <= j < v.len() && j != i ==> #[trigger] v[j] == fzero::<F>(),
    ensures
        novel_sum::<F>(basis, v, dim, n, x) == if i < n {
            fmul::<F>(v[i], novel_basis::<F>(basis, dim, i, x))
        } else {
            fzero::<F>()
        },
    decreases n,
{
    if n > 0 {
        let m = (n - 1) as nat;
        lemma_novel_one_term::<F>(basis, v, dim, i, m, x);
        let b = novel_basis::<F>(basis, dim, n - 1, x);
        let t = fmul::<F>(v[n - 1], b);
        let s = novel_sum::<F>(basis, v, dim, m, x);
        lemma_mul::<F>(b, b, b);
        lemma_add::<F>(t, t, t);
        lemma_add::<F>(s, s, s);
        if n - 1 != i {
            assert(v[n - 1] == fzero::<F>());
        }
    }
}

/// Values add up as coefficients do.
pub proof fn law_novel_values_are_additive<F: BinaryField>(
    basis: Seq<F::Elem>,
    v: Seq<F::Elem>,
    w: Seq<F::Elem>,
    s: Seq<F::Elem>,
    dim: nat,
    x: F::Elem,
)
    requires
        v.len() == w.len(),
        s.len() == v.len(),
        forall|i: int| 0 <= i < s.len() ==> #[trigger] s[i] == fadd::<F>(v[i], w[i]),
    ensures
        novel_value::<F>(basis, s, dim, x) == fadd::<F>(
            novel_value::<F>(basis, v, dim, x),
            novel_value::<F>(basis, w, dim, x),
        ),
{
    lemma_novel_sum_add::<F>(basis, v, w, s, dim, v.len(), x);
}

proof fn lemma_novel_sum_add<F: BinaryField>(
    basis: Seq<F::Elem>,
    v: Seq<F::Elem>,
    w: Seq<F::Elem>,
    s: Seq<F::Elem>,
    dim: nat,
    n: nat,
    x: F::Elem,
)
    requires
        v.len() == w.len(),
        s.len() == v.len(),
        n <= v.len(),
        forall|i: int| 0 <= i < s.len() ==> #[trigger] s[i] == fadd::<F>(v[i], w[i]),
    ensures
        novel_sum::<F>(basis, s, dim, n, x) == fadd::<F>(
            novel_sum::<F>(basis, v, dim, n, x),
            novel_sum::<F>(basis, w, dim, n, x),
        ),
    decreases n,
{
    if n == 0 {
        lemma_add::<F>(fzero::<F>(), fzero::<F>(), fzero::<F>());
    } else {
        let m = (n - 1) as nat;
        lemma_novel_sum_add::<F>(basis, v, w, s, dim, m, x);
        let b = novel_basis::<F>(basis, dim, n - 1, x);
        assert(s[n - 1] == fadd::<F>(v[n - 1], w[n - 1]));
        lemma_mul::<F>(b, v[n - 1], w[n - 1]);
        lemma_mul::<F>(v[n - 1], b, b);
        lemma_mul::<F>(w[n - 1], b, b);
        lemma_mul::<F>(s[n - 1], b, b);
        let (p, q) = (novel_sum::<F>(basis, v, dim, m, x), novel_sum::<F>(basis, w, dim, m, x));
        lemma_swap_sum::<F>(p, q, fmul::<F>(v[n - 1], b), fmul::<F>(w[n - 1], b));
    }
}

/// The twiddle heap: entry `node 2^l + p` is the normalized subspace polynomial of
/// the level at the point where part `p` of the level starts.
pub proof fn law_twiddle_heap<F: BinaryField>(
    factors: Seq<F::Elem>,
    basis: Seq<F::Elem>,
    node: nat,
    dim: nat,
    shift: F::Elem,
    l: nat,
    p: nat,
)
    requires
        twiddles::<F>(factors, basis, node, dim, shift),
        l < dim,
        p < span(l),
    ensures
        factors[(node * span(l) + p) as int] == normalized::<F>(
            basis,
            (dim - 1 - l) as nat,
            domain_point::<F>(basis, shift, dim, (p * span((dim - l) as nat)) as int),
        ),
    decreases dim,
{
    let d = (dim - 1) as nat;
    let b = basis[d as int];
    let s = span((dim - l) as nat) as int;
    if l == 0 {
        assert(span(0) == 1);
        assert(node * 1 == node);
        assert(p * s == 0) by (nonlinear_arith)
            requires
                p == 0,
        ;
        lemma_span_monotone(0, d);
        lemma_combine_narrow::<F>(basis, dim, 0, 0);
        lemma_add::<F>(shift, shift, shift);
    } else {
        let k = (l - 1) as nat;
        let h = span(k) as int;
        assert(span(l) == 2 * h);
        lemma_span_add(k, (dim - l) as nat);
        lemma_span_monotone(0, (dim - l) as nat);
        assert(h * s == span(d));
        if p < h {
            law_twiddle_heap::<F>(factors, basis, 2 * node, d, shift, k, p);
            assert((2 * node) * h == node * (2 * h)) by (nonlinear_arith);
            assert(0 <= p * s < h * s) by (nonlinear_arith)
                requires
                    0 <= p < h,
                    s > 0,
            ;
            lemma_combine_narrow::<F>(basis, dim, d, p * s);
        } else {
            let q = (p - h) as nat;
            let next = fadd::<F>(shift, b);
            law_twiddle_heap::<F>(factors, basis, 2 * node + 1, d, next, k, q);
            assert((2 * node + 1) * h + q == node * (2 * h) + p) by (nonlinear_arith)
                requires
                    q == p - h,
            ;
            assert(0 <= q * s < h * s && p * s == q * s + h * s) by (nonlinear_arith)
                requires
                    0 <= q < h,
                    q == p - h,
                    s > 0,
            ;
            let u = combine::<F>(basis, d, q * s);
            assert(combine::<F>(basis, dim, p * s) == fadd::<F>(u, b));
            lemma_add::<F>(shift, b, u);
            lemma_add::<F>(u, b, b);
        }
    }
}

} // verus!
