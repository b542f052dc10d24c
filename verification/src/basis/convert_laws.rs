//! Laws of the coefficient conversions.

use vstd::prelude::*;

use crate::basis::convert::{
    add_product, lemma_add_term, lemma_to_monomial_len, sparse_product, to_monomial,
};
use crate::field::{
    fadd, finv, fmul, fone, fzero, lemma_add, lemma_finv, lemma_mul, lemma_nonzero, BinaryField,
};
use crate::kernel::{axpy, vzero};
use crate::poly::{
    fpow, lemma_linearized_sum, lemma_poly_gap, lemma_poly_same, lemma_pow_add, linearized_sum,
    poly_sum, poly_value,
};
use crate::span::{lemma_span_monotone, span};
use crate::subspace::{
    independent, law_independent_iff_normalizers, lemma_linearized_scale,
    lemma_subspace_coefficients, normalized_coefficients, normalizer, subspace_coefficients,
};
use crate::transform::derivative::{derivative_model, lemma_derivative_len};
use crate::transform::lanes::{
    lane_of, law_inverse_by_lanes, lemma_lane_concat, lemma_lane_halves, lemma_lane_index,
};
use crate::transform::laws::{lemma_swap_sum, zero_from};
use crate::transform::model::{
    forward_model, halves, high_half, inverse_model, law_forward_undoes_inverse,
    lemma_concat_halves, lemma_halves_concat, lemma_halves_span, lemma_inverse_len, low_half,
};
use crate::transform::novel::{
    domain_point, law_forward_evaluates, law_novel_split, novel_sum, novel_value, twiddles,
};

verus! {

/// The value of a sum of coefficient vectors, one of them scaled and shifted.
proof fn lemma_poly_block<F: BinaryField>(
    a: Seq<F::Elem>,
    b: Seq<F::Elem>,
    c: F::Elem,
    q: Seq<F::Elem>,
    s: nat,
    n: nat,
    x: F::Elem,
)
    requires
        a.len() == b.len(),
        n <= a.len(),
        forall|t: int|
            0 <= t < a.len() ==> #[trigger] b[t] == if 0 <= t - s < q.len() {
                fadd::<F>(a[t], fmul::<F>(c, q[t - s]))
            } else {
                a[t]
            },
    ensures
        ({
            let m = if n <= s {
                0nat
            } else if n - s <= q.len() {
                (n - s) as nat
            } else {
                q.len()
            };
            poly_sum::<F>(b, n, x) == fadd::<F>(
                poly_sum::<F>(a, n, x),
                fmul::<F>(fmul::<F>(c, fpow::<F>(x, s)), poly_sum::<F>(q, m, x)),
            )
        }),
    decreases n,
{
    let cs = fmul::<F>(c, fpow::<F>(x, s));
    lemma_mul::<F>(cs, cs, cs);
    if n == 0 {
        lemma_add::<F>(fzero::<F>(), fzero::<F>(), fzero::<F>());
    } else {
        let k = (n - 1) as nat;
        lemma_poly_block::<F>(a, b, c, q, s, k, x);
        let t = k as int;
        let p = fpow::<F>(x, k);
        let sa = poly_sum::<F>(a, k, x);
        assert(b[t] == if 0 <= t - s < q.len() {
            fadd::<F>(a[t], fmul::<F>(c, q[t - s]))
        } else {
            a[t]
        });
        if 0 <= t - s < q.len() {
            let j = (t - s) as nat;
            let sq = poly_sum::<F>(q, j, x);
            let u = q[j as int];
            lemma_pow_add::<F>(x, s, j);
            let (ps, pj) = (fpow::<F>(x, s), fpow::<F>(x, j));
            assert(p == fmul::<F>(ps, pj));
            // (a + c u) p == a p + (c ps) (u pj)
            lemma_mul::<F>(p, a[t], fmul::<F>(c, u));
            lemma_product4::<F>(c, u, ps, pj);
            lemma_mul::<F>(cs, sq, fmul::<F>(u, pj));
            lemma_swap_sum::<F>(
                sa,
                fmul::<F>(cs, sq),
                fmul::<F>(a[t], p),
                fmul::<F>(cs, fmul::<F>(u, pj)),
            );
            assert(poly_sum::<F>(q, j + 1, x) == fadd::<F>(sq, fmul::<F>(u, pj)));
        } else {
            let m = if k <= s {
                0nat
            } else {
                q.len()
            };
            let y = fmul::<F>(cs, poly_sum::<F>(q, m, x));
            let z = fmul::<F>(a[t], p);
            lemma_add::<F>(sa, y, z);
            lemma_add::<F>(y, z, z);
            lemma_add::<F>(sa, z, y);
        }
    }
}

/// `(a * b) * (c * d) == (a * c) * (b * d)`.
proof fn lemma_product4<F: BinaryField>(a: F::Elem, b: F::Elem, c: F::Elem, d: F::Elem)
    ensures
        fmul::<F>(fmul::<F>(a, b), fmul::<F>(c, d)) == fmul::<F>(
            fmul::<F>(a, c),
            fmul::<F>(b, d),
        ),
{
    lemma_mul::<F>(a, b, fmul::<F>(c, d));
    lemma_mul::<F>(b, c, d);
    lemma_mul::<F>(c, b, d);
    lemma_mul::<F>(a, c, fmul::<F>(b, d));
}

/// The value of a vector plus a sparse product.
proof fn lemma_value_of_product<F: BinaryField>(
    base: Seq<F::Elem>,
    terms: Seq<F::Elem>,
    q: Seq<F::Elem>,
    n: nat,
    x: F::Elem,
)
    requires
        n <= terms.len(),
        forall|e: nat| e < n ==> #[trigger] span(e) + q.len() <= base.len(),
    ensures
        poly_value::<F>(add_product::<F>(base, terms, q, 1, n), x) == fadd::<F>(
            poly_value::<F>(base, x),
            fmul::<F>(linearized_sum::<F>(terms, n, x), poly_value::<F>(q, x)),
        ),
    decreases n,
{
    let out = add_product::<F>(base, terms, q, 1, n);
    let vq = poly_value::<F>(q, x);
    let vb = poly_value::<F>(base, x);
    if n == 0 {
        assert forall|t: int| 0 <= t < base.len() implies out[t] == base[t] by {
            lemma_add::<F>(base[t], base[t], base[t]);
        }
        assert(out =~= base);
        lemma_mul::<F>(vq, vq, vq);
        lemma_add::<F>(vb, vb, vb);
    } else {
        let e = (n - 1) as nat;
        let before = add_product::<F>(base, terms, q, 1, e);
        lemma_value_of_product::<F>(base, terms, q, e, x);
        assert forall|t: int| 0 <= t < base.len() implies #[trigger] out[t] == if 0 <= t - span(e)
            < q.len() {
            fadd::<F>(before[t], fmul::<F>(terms[e as int], q[t - span(e)]))
        } else {
            before[t]
        } by {
            lemma_add_term::<F>(base, terms, q, 1, e, t);
        }
        assert(span(e) + q.len() <= base.len());
        lemma_poly_block::<F>(before, out, terms[e as int], q, span(e), base.len(), x);
        let s = linearized_sum::<F>(terms, e, x);
        let w = fmul::<F>(terms[e as int], fpow::<F>(x, span(e)));
        lemma_add::<F>(vb, fmul::<F>(s, vq), fmul::<F>(w, vq));
        lemma_mul::<F>(vq, s, w);
    }
}

/// Novel to monomial keeps the polynomial: the values are the same everywhere.
pub proof fn law_conversion_keeps_values<F: BinaryField>(
    v: Seq<F::Elem>,
    basis: Seq<F::Elem>,
    dim: nat,
    x: F::Elem,
)
    requires
        v.len() == span(dim),
    ensures
        poly_value::<F>(to_monomial::<F>(v, basis, dim, 1), x) == novel_value::<F>(
            basis,
            v,
            dim,
            x,
        ),
    decreases dim,
{
    if dim == 0 {
        reveal_with_fuel(poly_sum, 2);
        reveal_with_fuel(novel_sum, 2);
        reveal_with_fuel(fpow, 1);
    } else {
        let d = (dim - 1) as nat;
        lemma_halves_span(d, 1);
        let low = to_monomial::<F>(low_half(v), basis, d, 1);
        let high = to_monomial::<F>(high_half(v), basis, d, 1);
        lemma_to_monomial_len::<F>(low_half(v), basis, d, 1);
        lemma_to_monomial_len::<F>(high_half(v), basis, d, 1);
        law_conversion_keeps_values::<F>(low_half(v), basis, d, x);
        law_conversion_keeps_values::<F>(high_half(v), basis, d, x);
        law_novel_split::<F>(basis, v, dim, x);
        let terms = normalized_coefficients::<F>(basis, d);
        let base = low + vzero::<F>(high.len());
        lemma_subspace_coefficients::<F>(basis, d, x);
        assert forall|e: nat| e < dim implies #[trigger] span(e) + high.len() <= base.len() by {
            lemma_span_monotone(e, d);
        }
        lemma_value_of_product::<F>(base, terms, high, dim, x);
        lemma_linearized_scale::<F>(
            finv::<F>(normalizer::<F>(basis, d)),
            subspace_coefficients::<F>(basis, d),
            x,
        );
        lemma_linearized_sum::<F>(terms, x);
        assert forall|i: int| low.len() <= i < base.len() implies #[trigger] base[i] == fzero::<
            F,
        >() by {
        }
        lemma_poly_gap::<F>(base, low.len(), base.len(), x);
        lemma_poly_same::<F>(low, base, low.len(), x);
    }
}

/// Where `q` is zero above index `m`, the product at the leading place of `m` is
/// the leading term times `q[m]`.
proof fn lemma_leading_product<F: BinaryField>(
    terms: Seq<F::Elem>,
    q: Seq<F::Elem>,
    lanes: nat,
    d: nat,
    n: nat,
    m: int,
)
    requires
        lanes > 0,
        0 <= m < q.len(),
        n <= d + 1,
        forall|k: int| m < k < q.len() ==> #[trigger] q[k] == fzero::<F>(),
    ensures
        sparse_product::<F>(terms, q, lanes, n, m + span(d) * lanes) == if n == d + 1 {
            fmul::<F>(terms[d as int], q[m])
        } else {
            fzero::<F>()
        },
    decreases n,
{
    let t = m + span(d) * lanes;
    lemma_add::<F>(fzero::<F>(), fzero::<F>(), fzero::<F>());
    if n > 0 {
        let e = (n - 1) as nat;
        lemma_leading_product::<F>(terms, q, lanes, d, e, m);
        let k = t - span(e) * lanes;
        lemma_mul::<F>(terms[e as int], fzero::<F>(), fzero::<F>());
        if e < d {
            lemma_span_monotone(e, d);
            assert(k > m) by (nonlinear_arith)
                requires
                    t == m + span(d) * lanes,
                    k == t - span(e) * lanes,
                    span(e) < span(d),
                    lanes > 0,
            ;
            if k < q.len() {
                assert(q[k] == fzero::<F>());
            }
        } else {
            let u = fmul::<F>(terms[d as int], q[m]);
            lemma_add::<F>(u, u, u);
        }
    }
}

/// A quotient whose product has no leading part is zero.
proof fn lemma_quotient_zero<F: BinaryField>(
    low: Seq<F::Elem>,
    terms: Seq<F::Elem>,
    q: Seq<F::Elem>,
    lanes: nat,
    d: nat,
    m: int,
)
    requires
        lanes > 0,
        terms[d as int] != fzero::<F>(),
        low.len() == span(d) * lanes,
        q.len() == span(d) * lanes,
        add_product::<F>(low + vzero::<F>(q.len()), terms, q, lanes, d + 1) == vzero::<F>(
            2 * q.len(),
        ),
        0 <= m <= q.len(),
    ensures
        forall|k: int| m <= k < q.len() ==> #[trigger] q[k] == fzero::<F>(),
    decreases q.len() - m,
{
    if m < q.len() {
        lemma_quotient_zero::<F>(low, terms, q, lanes, d, m + 1);
        lemma_leading_product::<F>(terms, q, lanes, d, d + 1, m);
        let t = m + span(d) * lanes;
        let out = add_product::<F>(low + vzero::<F>(q.len()), terms, q, lanes, d + 1);
        assert(out[t] == vzero::<F>(2 * q.len())[t]);
        let u = fmul::<F>(terms[d as int], q[m]);
        lemma_add::<F>(u, u, u);
        lemma_nonzero::<F>(terms[d as int], q[m]);
    }
}

proof fn lemma_product_axpy<F: BinaryField>(
    terms: Seq<F::Elem>,
    q: Seq<F::Elem>,
    c: F::Elem,
    r: Seq<F::Elem>,
    lanes: nat,
    n: nat,
    t: int,
)
    requires
        q.len() == r.len(),
    ensures
        sparse_product::<F>(terms, axpy::<F>(q, c, r), lanes, n, t) == fadd::<F>(
            sparse_product::<F>(terms, q, lanes, n, t),
            fmul::<F>(c, sparse_product::<F>(terms, r, lanes, n, t)),
        ),
    decreases n,
{
    lemma_add::<F>(fzero::<F>(), fzero::<F>(), fzero::<F>());
    lemma_mul::<F>(c, fzero::<F>(), fzero::<F>());
    if n > 0 {
        let e = (n - 1) as nat;
        lemma_product_axpy::<F>(terms, q, c, r, lanes, e, t);
        let k = t - span(e) * lanes;
        let a = sparse_product::<F>(terms, q, lanes, e, t);
        let b = sparse_product::<F>(terms, r, lanes, e, t);
        let w = terms[e as int];
        if 0 <= k < q.len() {
            // w (q + c r) == w q + c (w r)
            lemma_mul::<F>(w, q[k], fmul::<F>(c, r[k]));
            lemma_mul::<F>(w, c, r[k]);
            lemma_mul::<F>(c, w, r[k]);
            lemma_mul::<F>(c, b, fmul::<F>(w, r[k]));
            lemma_swap_sum::<F>(
                a,
                fmul::<F>(c, b),
                fmul::<F>(w, q[k]),
                fmul::<F>(c, fmul::<F>(w, r[k])),
            );
        } else {
            lemma_add::<F>(a, a, a);
            lemma_add::<F>(b, b, b);
            let cb = fmul::<F>(c, b);
            lemma_add::<F>(fadd::<F>(a, cb), a, a);
        }
    }
}

/// Novel to monomial is linear.
pub proof fn law_conversion_is_linear<F: BinaryField>(
    v: Seq<F::Elem>,
    c: F::Elem,
    w: Seq<F::Elem>,
    basis: Seq<F::Elem>,
    dim: nat,
    lanes: nat,
)
    requires
        v.len() == w.len(),
        halves(v.len(), dim),
    ensures
        to_monomial::<F>(axpy::<F>(v, c, w), basis, dim, lanes) == axpy::<F>(
            to_monomial::<F>(v, basis, dim, lanes),
            c,
            to_monomial::<F>(w, basis, dim, lanes),
        ),
    decreases dim,
{
    lemma_to_monomial_len::<F>(v, basis, dim, lanes);
    lemma_to_monomial_len::<F>(w, basis, dim, lanes);
    if dim > 0 {
        let d = (dim - 1) as nat;
        let s = axpy::<F>(v, c, w);
        assert(low_half(s) =~= axpy::<F>(low_half(v), c, low_half(w)));
        assert(high_half(s) =~= axpy::<F>(high_half(v), c, high_half(w)));
        law_conversion_is_linear::<F>(low_half(v), c, low_half(w), basis, d, lanes);
        law_conversion_is_linear::<F>(high_half(v), c, high_half(w), basis, d, lanes);
        let (lv, hv) = (
            to_monomial::<F>(low_half(v), basis, d, lanes),
            to_monomial::<F>(high_half(v), basis, d, lanes),
        );
        let (lw, hw) = (
            to_monomial::<F>(low_half(w), basis, d, lanes),
            to_monomial::<F>(high_half(w), basis, d, lanes),
        );
        lemma_to_monomial_len::<F>(low_half(v), basis, d, lanes);
        lemma_to_monomial_len::<F>(high_half(v), basis, d, lanes);
        lemma_to_monomial_len::<F>(low_half(w), basis, d, lanes);
        lemma_to_monomial_len::<F>(high_half(w), basis, d, lanes);
        let terms = normalized_coefficients::<F>(basis, d);
        let bv = lv + vzero::<F>(hv.len());
        let bw = lw + vzero::<F>(hw.len());
        let bs = axpy::<F>(lv, c, lw) + vzero::<F>(hv.len());
        let out = to_monomial::<F>(s, basis, dim, lanes);
        let want = axpy::<F>(
            to_monomial::<F>(v, basis, dim, lanes),
            c,
            to_monomial::<F>(w, basis, dim, lanes),
        );
        assert forall|t: int| 0 <= t < out.len() implies out[t] == want[t] by {
            lemma_product_axpy::<F>(terms, hv, c, hw, lanes, dim, t);
            let a = sparse_product::<F>(terms, hv, lanes, dim, t);
            let b = sparse_product::<F>(terms, hw, lanes, dim, t);
            lemma_mul::<F>(c, bw[t], b);
            lemma_mul::<F>(c, fzero::<F>(), fzero::<F>());
            lemma_add::<F>(fzero::<F>(), fzero::<F>(), fzero::<F>());
            assert(bs[t] == fadd::<F>(bv[t], fmul::<F>(c, bw[t])));
            lemma_swap_sum::<F>(bv[t], fmul::<F>(c, bw[t]), a, fmul::<F>(c, b));
        }
        assert(out =~= want);
    }
}

/// Only the zero vector converts to zero.
proof fn lemma_kernel<F: BinaryField>(
    v: Seq<F::Elem>,
    basis: Seq<F::Elem>,
    dim: nat,
    lanes: nat,
)
    requires
        lanes > 0,
        dim <= basis.len(),
        independent::<F>(basis, dim),
        v.len() == span(dim) * lanes,
        to_monomial::<F>(v, basis, dim, lanes) == vzero::<F>(v.len()),
    ensures
        v == vzero::<F>(v.len()),
    decreases dim,
{
    if dim > 0 {
        let d = (dim - 1) as nat;
        lemma_halves_span(d, lanes);
        assert(v.len() == 2 * (span(d) * lanes)) by (nonlinear_arith)
            requires
                v.len() == (2 * span(d)) * lanes,
        ;
        let low = to_monomial::<F>(low_half(v), basis, d, lanes);
        let high = to_monomial::<F>(high_half(v), basis, d, lanes);
        lemma_to_monomial_len::<F>(low_half(v), basis, d, lanes);
        lemma_to_monomial_len::<F>(high_half(v), basis, d, lanes);
        let terms = normalized_coefficients::<F>(basis, d);
        lemma_subspace_coefficients::<F>(basis, d, fzero::<F>());
        law_independent_iff_normalizers::<F>(basis, dim);
        let n = normalizer::<F>(basis, d as int as nat);
        lemma_finv::<F>(n, n);
        lemma_mul::<F>(finv::<F>(n), n, n);
        lemma_quotient_zero::<F>(low, terms, high, lanes, d, 0);
        assert(high =~= vzero::<F>(high.len()));
        let out = to_monomial::<F>(v, basis, dim, lanes);
        assert forall|t: int| 0 <= t < low.len() implies low[t] == fzero::<F>() by {
            lemma_zero_product::<F>(terms, high, lanes, dim, t);
            assert(out[t] == vzero::<F>(v.len())[t]);
            lemma_add::<F>(low[t], low[t], low[t]);
        }
        assert(low =~= vzero::<F>(low.len()));
        assert(independent::<F>(basis, d));
        lemma_kernel::<F>(low_half(v), basis, d, lanes);
        lemma_kernel::<F>(high_half(v), basis, d, lanes);
        lemma_halves_concat(v);
        assert(v =~= vzero::<F>(v.len()));
    } else {
        assert(v =~= vzero::<F>(v.len()));
    }
}

proof fn lemma_zero_product<F: BinaryField>(
    terms: Seq<F::Elem>,
    q: Seq<F::Elem>,
    lanes: nat,
    n: nat,
    t: int,
)
    requires
        forall|k: int| 0 <= k < q.len() ==> #[trigger] q[k] == fzero::<F>(),
    ensures
        sparse_product::<F>(terms, q, lanes, n, t) == fzero::<F>(),
    decreases n,
{
    lemma_add::<F>(fzero::<F>(), fzero::<F>(), fzero::<F>());
    if n > 0 {
        let e = (n - 1) as nat;
        lemma_zero_product::<F>(terms, q, lanes, e, t);
        lemma_mul::<F>(terms[e as int], fzero::<F>(), fzero::<F>());
    }
}

/// Two novel-basis vectors with the same monomial coefficients are equal: the
/// conversions are inverses of each other.
pub proof fn law_conversion_is_injective<F: BinaryField>(
    v: Seq<F::Elem>,
    w: Seq<F::Elem>,
    basis: Seq<F::Elem>,
    dim: nat,
    lanes: nat,
)
    requires
        lanes > 0,
        dim <= basis.len(),
        independent::<F>(basis, dim),
        v.len() == span(dim) * lanes,
        w.len() == v.len(),
        to_monomial::<F>(v, basis, dim, lanes) == to_monomial::<F>(w, basis, dim, lanes),
    ensures
        v == w,
{
    let one = fone::<F>();
    let s = axpy::<F>(v, one, w);
    lemma_halves_span(dim, lanes);
    law_conversion_is_linear::<F>(v, one, w, basis, dim, lanes);
    let m = to_monomial::<F>(v, basis, dim, lanes);
    lemma_to_monomial_len::<F>(v, basis, dim, lanes);
    let ms = axpy::<F>(m, one, m);
    assert forall|t: int| 0 <= t < m.len() implies ms[t] == fzero::<F>() by {
        lemma_mul::<F>(m[t], m[t], m[t]);
        lemma_add::<F>(m[t], m[t], m[t]);
    }
    assert(ms =~= vzero::<F>(v.len()));
    lemma_kernel::<F>(s, basis, dim, lanes);
    assert forall|t: int| 0 <= t < v.len() implies v[t] == w[t] by {
        assert(s[t] == vzero::<F>(s.len())[t]);
        lemma_mul::<F>(w[t], w[t], w[t]);
        lemma_add::<F>(v[t], w[t], w[t]);
    }
    assert(v =~= w);
}

/// Above the leading place, a product is zero exactly as far down as its
/// quotient.
proof fn lemma_quotient_from<F: BinaryField>(
    low: Seq<F::Elem>,
    terms: Seq<F::Elem>,
    q: Seq<F::Elem>,
    lanes: nat,
    d: nat,
    m: int,
)
    requires
        lanes > 0,
        terms[d as int] != fzero::<F>(),
        low.len() == span(d) * lanes,
        q.len() == span(d) * lanes,
        0 <= m <= q.len(),
    ensures
        zero_from::<F>(
            add_product::<F>(low + vzero::<F>(q.len()), terms, q, lanes, d + 1),
            q.len() + m,
        ) <==> zero_from::<F>(q, m),
    decreases q.len() - m,
{
    let out = add_product::<F>(low + vzero::<F>(q.len()), terms, q, lanes, d + 1);
    if m < q.len() {
        lemma_quotient_from::<F>(low, terms, q, lanes, d, m + 1);
        let t = q.len() + m;
        let u = fmul::<F>(terms[d as int], q[m]);
        lemma_add::<F>(u, u, u);
        if zero_from::<F>(q, m + 1) {
            assert forall|k: int| m < k < q.len() implies #[trigger] q[k] == fzero::<F>() by {}
            lemma_leading_product::<F>(terms, q, lanes, d, d + 1, m);
            assert(out[t] == u);
            lemma_nonzero::<F>(terms[d as int], q[m]);
            lemma_mul::<F>(terms[d as int], q[m], q[m]);
        }
        if zero_from::<F>(out, t) {
            assert(zero_from::<F>(out, t + 1));
            assert(out[t] == fzero::<F>());
            assert(zero_from::<F>(q, m));
        }
        if zero_from::<F>(q, m) {
            assert(zero_from::<F>(q, m + 1));
            assert(q[m] == fzero::<F>());
            assert forall|k: int| t <= k < out.len() implies #[trigger] out[k] == fzero::<F>() by {
                if k > t {
                    assert(zero_from::<F>(out, t + 1));
                }
            }
        }
    }
}

/// The novel basis is degree triangular: novel-basis coefficients are zero from
/// some row on exactly if the monomial coefficients are.
pub proof fn law_conversion_keeps_degrees<F: BinaryField>(
    v: Seq<F::Elem>,
    basis: Seq<F::Elem>,
    dim: nat,
    lanes: nat,
    k: int,
)
    requires
        lanes > 0,
        dim <= basis.len(),
        independent::<F>(basis, dim),
        v.len() == span(dim) * lanes,
        0 <= k <= v.len(),
    ensures
        zero_from::<F>(v, k) <==> zero_from::<F>(to_monomial::<F>(v, basis, dim, lanes), k),
    decreases dim,
{
    if dim > 0 {
        let d = (dim - 1) as nat;
        let h = (span(d) * lanes) as int;
        let (low, high) = (low_half(v), high_half(v));
        assert(v.len() == 2 * h) by (nonlinear_arith)
            requires
                v.len() == span(dim) * lanes,
                span(dim) == 2 * span(d),
                h == span(d) * lanes,
        ;
        let ml = to_monomial::<F>(low, basis, d, lanes);
        let mh = to_monomial::<F>(high, basis, d, lanes);
        lemma_halves_span(d, lanes);
        lemma_to_monomial_len::<F>(low, basis, d, lanes);
        lemma_to_monomial_len::<F>(high, basis, d, lanes);
        law_independent_iff_normalizers::<F>(basis, dim);
        lemma_subspace_coefficients::<F>(basis, d, fzero::<F>());
        let terms = normalized_coefficients::<F>(basis, d);
        let n = normalizer::<F>(basis, d);
        assert(n != fzero::<F>());
        lemma_finv::<F>(n, n);
        lemma_mul::<F>(finv::<F>(n), n, n);
        assert(terms[d as int] == finv::<F>(n));
        assert(independent::<F>(basis, d));
        let m = to_monomial::<F>(v, basis, dim, lanes);
        let j = if k >= h {
            k - h
        } else {
            0
        };
        lemma_quotient_from::<F>(ml, terms, mh, lanes, d, j);
        law_conversion_keeps_degrees::<F>(high, basis, d, lanes, j);
        assert forall|i: int| 0 <= i < h implies low[i] == v[i] && high[i] == v[h + i] by {}
        if k >= h {
            assert(zero_from::<F>(v, k) <==> zero_from::<F>(high, j)) by {
                if zero_from::<F>(v, k) {
                    assert forall|i: int| j <= i < high.len() implies #[trigger] high[i] == fzero::<
                        F,
                    >() by {
                        assert(high[i] == v[h + i]);
                    }
                }
                if zero_from::<F>(high, j) {
                    assert forall|i: int| k <= i < v.len() implies #[trigger] v[i] == fzero::<
                        F,
                    >() by {
                        assert(high[i - h] == v[i]);
                    }
                }
            }
        } else {
            law_conversion_keeps_degrees::<F>(low, basis, d, lanes, k);
            if zero_from::<F>(mh, 0) {
                assert forall|t: int| 0 <= t < h implies #[trigger] m[t] == ml[t] by {
                    lemma_zero_product::<F>(terms, mh, lanes, dim, t);
                    lemma_add::<F>(ml[t], ml[t], ml[t]);
                }
            }
            if zero_from::<F>(v, k) {
                assert forall|i: int| 0 <= i < high.len() implies #[trigger] high[i] == fzero::<
                    F,
                >() by {
                    assert(high[i] == v[h + i]);
                }
                assert forall|i: int| k <= i < low.len() implies #[trigger] low[i] == fzero::<
                    F,
                >() by {
                    assert(low[i] == v[i]);
                }
                assert(zero_from::<F>(high, 0));
                assert(zero_from::<F>(low, k));
                assert forall|t: int| k <= t < m.len() implies #[trigger] m[t] == fzero::<F>() by {
                    if t < h {
                        assert(m[t] == ml[t]);
                    } else {
                        assert(zero_from::<F>(m, h));
                    }
                }
            }
            if zero_from::<F>(m, k) {
                assert(zero_from::<F>(m, h + 0));
                assert(zero_from::<F>(mh, 0));
                assert(zero_from::<F>(high, 0));
                assert forall|t: int| k <= t < ml.len() implies #[trigger] ml[t] == fzero::<
                    F,
                >() by {
                    assert(m[t] == ml[t]);
                }
                assert(zero_from::<F>(low, k));
                assert forall|i: int| k <= i < v.len() implies #[trigger] v[i] == fzero::<F>() by {
                    if i < h {
                        assert(low[i] == v[i]);
                    } else {
                        assert(high[i - h] == v[i]);
                    }
                }
            }
        }
    }
}

/// Monomial coefficients `c`, converted to the novel basis and transformed, are
/// evaluated at the points of the domain.
pub proof fn law_convert_then_forward_evaluates<F: BinaryField>(
    c: Seq<F::Elem>,
    novel: Seq<F::Elem>,
    factors: Seq<F::Elem>,
    basis: Seq<F::Elem>,
    shift: F::Elem,
    dim: nat,
    i: int,
)
    requires
        novel.len() == span(dim),
        to_monomial::<F>(novel, basis, dim, 1) == c,
        dim <= basis.len(),
        independent::<F>(basis, dim),
        twiddles::<F>(factors, basis, 1, dim, shift),
        0 <= i < span(dim),
    ensures
        forward_model::<F>(novel, factors, 1, dim)[i] == poly_value::<F>(
            c,
            domain_point::<F>(basis, shift, dim, i),
        ),
{
    law_forward_evaluates::<F>(novel, factors, basis, shift, 1, dim, i);
    law_conversion_keeps_values::<F>(
        novel,
        basis,
        dim,
        domain_point::<F>(basis, shift, dim, i),
    );
}

/// A sparse product acts on each lane independently.
proof fn lemma_product_lane<F: BinaryField>(
    terms: Seq<F::Elem>,
    q: Seq<F::Elem>,
    d: nat,
    lanes: nat,
    lane: int,
    n: nat,
    r: int,
)
    requires
        q.len() == span(d) * lanes,
        0 <= lane < lanes,
    ensures
        sparse_product::<F>(terms, q, lanes, n, r * lanes + lane) == sparse_product::<F>(
            terms,
            lane_of(q, span(d), lanes, lane),
            1,
            n,
            r,
        ),
    decreases n,
{
    if n > 0 {
        let e = (n - 1) as nat;
        lemma_product_lane::<F>(terms, q, d, lanes, lane, e, r);
        let k = r * lanes + lane - span(e) * lanes;
        let j = r - span(e);
        assert(k == j * lanes + lane) by (nonlinear_arith)
            requires
                k == r * lanes + lane - span(e) * lanes,
                j == r - span(e),
        ;
        if 0 <= j < span(d) {
            lemma_lane_index(j, d, lanes, lane);
        } else {
            assert(!(0 <= k < span(d) * lanes)) by (nonlinear_arith)
                requires
                    k == j * lanes + lane,
                    0 <= lane < lanes,
                    j < 0 || j >= span(d),
            ;
        }
    }
}

/// Conversion acts on each lane independently.
pub proof fn law_conversion_by_lanes<F: BinaryField>(
    v: Seq<F::Elem>,
    basis: Seq<F::Elem>,
    dim: nat,
    lanes: nat,
    lane: int,
)
    requires
        v.len() == span(dim) * lanes,
        0 <= lane < lanes,
    ensures
        lane_of(to_monomial::<F>(v, basis, dim, lanes), span(dim), lanes, lane) == to_monomial::<F>(
            lane_of(v, span(dim), lanes, lane),
            basis,
            dim,
            1,
        ),
    decreases dim,
{
    let u = lane_of(v, span(dim), lanes, lane);
    if dim > 0 {
        let d = (dim - 1) as nat;
        lemma_lane_halves(v, dim, lanes, lane);
        lemma_halves_span(d, lanes);
        lemma_halves_span(d, 1);
        law_conversion_by_lanes::<F>(low_half(v), basis, d, lanes, lane);
        law_conversion_by_lanes::<F>(high_half(v), basis, d, lanes, lane);
        let low = to_monomial::<F>(low_half(v), basis, d, lanes);
        let high = to_monomial::<F>(high_half(v), basis, d, lanes);
        let (ulow, uhigh) = (
            to_monomial::<F>(low_half(u), basis, d, 1),
            to_monomial::<F>(high_half(u), basis, d, 1),
        );
        lemma_to_monomial_len::<F>(low_half(v), basis, d, lanes);
        lemma_to_monomial_len::<F>(high_half(v), basis, d, lanes);
        lemma_to_monomial_len::<F>(low_half(u), basis, d, 1);
        lemma_to_monomial_len::<F>(high_half(u), basis, d, 1);
        let terms = normalized_coefficients::<F>(basis, d);
        let base = low + vzero::<F>(high.len());
        let ubase = ulow + vzero::<F>(uhigh.len());
        lemma_lane_concat(low, vzero::<F>(high.len()), d, lanes, lane);
        let zeros = lane_of(vzero::<F>(high.len()), span(d), lanes, lane);
        assert forall|r: int| 0 <= r < span(d) implies zeros[r] == fzero::<F>() by {
            lemma_lane_index(r, d, lanes, lane);
        }
        assert(zeros =~= vzero::<F>(uhigh.len()));
        assert(lane_of(base, 2 * span(d), lanes, lane) == ubase);
        let out = to_monomial::<F>(v, basis, dim, lanes);
        let uout = to_monomial::<F>(u, basis, dim, 1);
        assert forall|r: int| 0 <= r < span(dim) implies lane_of(
            out,
            span(dim),
            lanes,
            lane,
        )[r] == uout[r] by {
            lemma_product_lane::<F>(terms, high, d, lanes, lane, dim, r);
            lemma_lane_index(r, dim, lanes, lane);
            assert(base[r * lanes + lane] == ubase[r]) by {
                assert(lane_of(base, 2 * span(d), lanes, lane)[r] == ubase[r]);
            }
        }
        assert(lane_of(out, span(dim), lanes, lane) =~= uout);
    } else {
        assert(span(0) == 1);
        assert(lane_of(v, span(0), lanes, lane) == u);
    }
}

/// Novel to monomial keeps the polynomial of every lane.
pub proof fn law_conversion_keeps_values_of_lanes<F: BinaryField>(
    v: Seq<F::Elem>,
    basis: Seq<F::Elem>,
    dim: nat,
    lanes: nat,
    lane: int,
    x: F::Elem,
)
    requires
        v.len() == span(dim) * lanes,
        0 <= lane < lanes,
    ensures
        poly_value::<F>(
            lane_of(to_monomial::<F>(v, basis, dim, lanes), span(dim), lanes, lane),
            x,
        ) == novel_value::<F>(basis, lane_of(v, span(dim), lanes, lane), dim, x),
{
    law_conversion_by_lanes::<F>(v, basis, dim, lanes, lane);
    law_conversion_keeps_values::<F>(lane_of(v, span(dim), lanes, lane), basis, dim, x);
}

/// Interpolation passes through the evaluations: the polynomial whose monomial
/// coefficients are converted from the inverse transform of `v` takes the value
/// `v[i]` at point `i`.
pub proof fn law_interpolation_passes_through<F: BinaryField>(
    v: Seq<F::Elem>,
    factors: Seq<F::Elem>,
    basis: Seq<F::Elem>,
    shift: F::Elem,
    dim: nat,
    i: int,
)
    requires
        v.len() == span(dim),
        dim <= basis.len(),
        independent::<F>(basis, dim),
        twiddles::<F>(factors, basis, 1, dim, shift),
        0 <= i < span(dim),
    ensures
        poly_value::<F>(
            to_monomial::<F>(inverse_model::<F>(v, factors, 1, dim), basis, dim, 1),
            domain_point::<F>(basis, shift, dim, i),
        ) == v[i],
{
    let u = inverse_model::<F>(v, factors, 1, dim);
    lemma_halves_span(dim, 1);
    lemma_inverse_len::<F>(v, factors, 1, dim);
    law_forward_undoes_inverse::<F>(v, factors, 1, dim);
    law_convert_then_forward_evaluates::<F>(
        to_monomial::<F>(u, basis, dim, 1),
        u,
        factors,
        basis,
        shift,
        dim,
        i,
    );
}

/// Interpolation of packed rows passes through the evaluations of every lane.
pub proof fn law_interpolation_passes_through_lanes<F: BinaryField>(
    v: Seq<F::Elem>,
    factors: Seq<F::Elem>,
    basis: Seq<F::Elem>,
    shift: F::Elem,
    dim: nat,
    lanes: nat,
    lane: int,
    i: int,
)
    requires
        v.len() == span(dim) * lanes,
        0 <= lane < lanes,
        dim <= basis.len(),
        independent::<F>(basis, dim),
        twiddles::<F>(factors, basis, 1, dim, shift),
        0 <= i < span(dim),
    ensures
        poly_value::<F>(
            lane_of(
                to_monomial::<F>(inverse_model::<F>(v, factors, 1, dim), basis, dim, lanes),
                span(dim),
                lanes,
                lane,
            ),
            domain_point::<F>(basis, shift, dim, i),
        ) == v[i * lanes + lane],
{
    let u = inverse_model::<F>(v, factors, 1, dim);
    let c = lane_of(v, span(dim), lanes, lane);
    lemma_halves_span(dim, lanes);
    lemma_inverse_len::<F>(v, factors, 1, dim);
    law_inverse_by_lanes::<F>(v, factors, 1, dim, lanes, lane);
    law_conversion_by_lanes::<F>(u, basis, dim, lanes, lane);
    law_interpolation_passes_through::<F>(c, factors, basis, shift, dim, i);
}

/// The formal derivative of a polynomial in the monomial basis, in characteristic
/// two: `x^n` goes to `x^(n-1)` for odd `n` and to zero for even `n`.
pub open spec fn formal_derivative<F: BinaryField>(c: Seq<F::Elem>) -> Seq<F::Elem> {
    Seq::new(
        c.len(),
        |t: int|
            if t % 2 == 0 && t + 1 < c.len() {
                c[t + 1]
            } else {
                fzero::<F>()
            },
    )
}

/// The product rule for a sparse product: every term but the first has even
/// degree and a vanishing derivative.
proof fn lemma_derivative_of_product<F: BinaryField>(
    base: Seq<F::Elem>,
    terms: Seq<F::Elem>,
    q: Seq<F::Elem>,
    n: nat,
    t: int,
)
    requires
        0 <= t < base.len(),
        base.len() == 2 * q.len(),
        q.len() == span((terms.len() - 1) as nat),
        1 <= n <= terms.len(),
    ensures
        formal_derivative::<F>(add_product::<F>(base, terms, q, 1, n))[t] == fadd::<F>(
            fadd::<F>(
                formal_derivative::<F>(base)[t],
                if t < q.len() {
                    fmul::<F>(terms[0], q[t])
                } else {
                    fzero::<F>()
                },
            ),
            sparse_product::<F>(terms, formal_derivative::<F>(q), 1, n, t),
        ),
    decreases n,
{
    let h = q.len() as int;
    let dq = formal_derivative::<F>(q);
    let out = add_product::<F>(base, terms, q, 1, n);
    let db = formal_derivative::<F>(base)[t];
    lemma_add::<F>(fzero::<F>(), fzero::<F>(), fzero::<F>());
    lemma_mul::<F>(terms[0], fzero::<F>(), fzero::<F>());
    lemma_halves_span((terms.len() - 1) as nat, 1);
    if n == 1 {
        let k = t - 1;
        assert(span(0) == 1);
        let p0 = sparse_product::<F>(terms, dq, 1, 0, t);
        assert(p0 == fzero::<F>());
        let y = if 0 <= k < h {
            fmul::<F>(terms[0], dq[k])
        } else {
            fzero::<F>()
        };
        assert(sparse_product::<F>(terms, dq, 1, 1, t) == fadd::<F>(p0, y));
        lemma_add::<F>(y, y, y);
        let z = if t < h {
            fmul::<F>(terms[0], q[t])
        } else {
            fzero::<F>()
        };
        lemma_add::<F>(z, z, z);
        lemma_add::<F>(db, z, y);
        if t % 2 == 0 {
            if t + 1 < base.len() {
                lemma_add_term::<F>(base, terms, q, 1, 0, t + 1);
                let b1 = base[t + 1];
                lemma_add::<F>(b1, b1, b1);
            }
            assert(y == fzero::<F>());
            assert(t + 1 < base.len());
        } else {
            // Both contributions are terms[0] * q[t].
            assert(out.len() == base.len());
            if t < h {
                assert(dq[k] == q[t]);
            } else {
                assert(0 <= k);
                if k < h {
                    assert(k + 1 == h);
                }
            }
        }
    } else {
        let e = (n - 1) as nat;
        lemma_derivative_of_product::<F>(base, terms, q, e, t);
        let before = add_product::<F>(base, terms, q, 1, e);
        let s = span(e) as int;
        assert(s == 2 * span((e - 1) as nat));
        let c = terms[e as int];
        lemma_mul::<F>(c, fzero::<F>(), fzero::<F>());
        let rest = sparse_product::<F>(terms, dq, 1, e, t);
        let head = fadd::<F>(
            db,
            if t < h {
                fmul::<F>(terms[0], q[t])
            } else {
                fzero::<F>()
            },
        );
        let k = t - s;
        let y = if 0 <= k < h {
            fmul::<F>(c, dq[k])
        } else {
            fzero::<F>()
        };
        lemma_add::<F>(head, rest, y);
        let full = fadd::<F>(head, rest);
        lemma_add::<F>(full, full, full);
        if t % 2 == 0 {
            assert(t + 1 < base.len());
            lemma_add_term::<F>(base, terms, q, 1, e, t + 1);
        }
    }
}

/// The derivative of the novel-basis coefficients is the formal derivative of the
/// polynomial.
pub proof fn law_derivative_is_formal<F: BinaryField>(
    v: Seq<F::Elem>,
    slopes: Seq<F::Elem>,
    basis: Seq<F::Elem>,
    dim: nat,
)
    requires
        v.len() == span(dim),
        dim <= slopes.len(),
        forall|j: int|
            0 <= j < dim ==> #[trigger] slopes[j] == normalized_coefficients::<F>(
                basis,
                j as nat,
            )[0],
    ensures
        to_monomial::<F>(derivative_model::<F>(v, slopes, dim), basis, dim, 1)
            == formal_derivative::<F>(to_monomial::<F>(v, basis, dim, 1)),
    decreases dim,
{
    let dv = derivative_model::<F>(v, slopes, dim);
    lemma_halves_span(dim, 1);
    if dim == 0 {
        assert(to_monomial::<F>(dv, basis, dim, 1) =~= formal_derivative::<F>(v));
    } else {
        let d = (dim - 1) as nat;
        lemma_halves_span(d, 1);
        let slope = slopes[d as int];
        let (vl, vh) = (low_half(v), high_half(v));
        let dl = derivative_model::<F>(vl, slopes, d);
        let dh = derivative_model::<F>(vh, slopes, d);
        lemma_derivative_len::<F>(vl, slopes, d);
        lemma_derivative_len::<F>(vh, slopes, d);
        lemma_concat_halves(axpy::<F>(dl, slope, vh), dh);
        law_derivative_is_formal::<F>(vl, slopes, basis, d);
        law_derivative_is_formal::<F>(vh, slopes, basis, d);
        law_conversion_is_linear::<F>(dl, slope, vh, basis, d, 1);
        let ml = to_monomial::<F>(vl, basis, d, 1);
        let mh = to_monomial::<F>(vh, basis, d, 1);
        lemma_to_monomial_len::<F>(vl, basis, d, 1);
        lemma_to_monomial_len::<F>(vh, basis, d, 1);
        let terms = normalized_coefficients::<F>(basis, d);
        lemma_subspace_coefficients::<F>(basis, d, fzero::<F>());
        let base = ml + vzero::<F>(mh.len());
        let out = to_monomial::<F>(dv, basis, dim, 1);
        let want = formal_derivative::<F>(to_monomial::<F>(v, basis, dim, 1));
        let fl = formal_derivative::<F>(ml);
        let fh = formal_derivative::<F>(mh);
        let obase = axpy::<F>(fl, slope, mh) + vzero::<F>(fh.len());
        assert(out == add_product::<F>(obase, terms, fh, 1, dim));
        assert forall|t: int| 0 <= t < out.len() implies out[t] == want[t] by {
            lemma_derivative_of_product::<F>(base, terms, mh, dim, t);
            let db = formal_derivative::<F>(base)[t];
            lemma_add::<F>(fzero::<F>(), fzero::<F>(), fzero::<F>());
            if t < ml.len() {
                assert(db == fl[t]);
            } else {
                assert(db == fzero::<F>());
            }
        }
        assert(out =~= want);
    }
}

/// The rule that fixes the formal derivative: the derivative of `a + x f` is
/// `f + x f'`, whatever the constant.
pub proof fn law_derivative_of_a_shifted_polynomial<F: BinaryField>(
    a: F::Elem,
    f: Seq<F::Elem>,
    t: int,
)
    requires
        0 <= t <= f.len(),
    ensures
        formal_derivative::<F>(seq![a] + f).len() == f.len() + 1,
        formal_derivative::<F>(seq![a] + f)[t] == fadd::<F>(
            if t < f.len() {
                f[t]
            } else {
                fzero::<F>()
            },
            if t > 0 {
                formal_derivative::<F>(f)[t - 1]
            } else {
                fzero::<F>()
            },
        ),
{
    let z = fzero::<F>();
    let g = seq![a] + f;
    lemma_add::<F>(z, z, z);
    if t < f.len() {
        assert(g[t + 1] == f[t]);
        lemma_add::<F>(f[t], f[t], f[t]);
    }
    if t > 0 {
        assert(g[t] == f[t - 1]);
    }
}

} // verus!
