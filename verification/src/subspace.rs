//! Subspace polynomials over nested additive subspaces.
//!
//! An ordered basis `b_0, b_1, ...` spans nested subspaces `V_k`, the sums of
//! subsets of the first `k` elements. The subspace polynomial of `V_k` is
//! `W_0(x) = x`, `W_{k+1}(x) = W_k(x)^2 + W_k(b_k) * W_k(x)`: it is additive and
//! vanishes exactly on `V_k`. Normalized by `W_k(b_k)`, it takes equal values on
//! each coset of `V_k`, and values that differ by one on two cosets that differ
//! by `b_k`.

use vstd::prelude::*;

use crate::field::{
    fadd, finv, fmul, fone, fzero, lemma_add, lemma_finv, lemma_mul, lemma_nonzero, BinaryField,
};
use crate::kernel::{lemma_cancel_right, vadd, vscale};
use crate::transform::laws::lemma_swap_sum;
use crate::span::{lemma_span_monotone, span};

verus! {

/// The square of an element.
pub open spec fn fsq<F: BinaryField>(a: F::Elem) -> F::Elem {
    fmul::<F>(a, a)
}

/// The sum of the basis elements at the set bits of `i < 2^dim`: its highest bit
/// selects `basis[dim - 1]`, the rest an element of the subspace below.
pub open spec fn combine<F: BinaryField>(basis: Seq<F::Elem>, dim: nat, i: int) -> F::Elem
    decreases dim,
{
    if dim == 0 {
        fzero::<F>()
    } else {
        let d = (dim - 1) as nat;
        if i < span(d) {
            combine::<F>(basis, d, i)
        } else {
            fadd::<F>(combine::<F>(basis, d, i - span(d)), basis[d as int])
        }
    }
}

/// Whether `x` is the sum of a subset of the first `dim` basis elements.
pub open spec fn spans<F: BinaryField>(basis: Seq<F::Elem>, dim: nat, x: F::Elem) -> bool {
    exists|i: int| 0 <= i < span(dim) && #[trigger] combine::<F>(basis, dim, i) == x
}

/// Whether no element among the first `n` is a sum of others before it.
pub open spec fn independent<F: BinaryField>(basis: Seq<F::Elem>, n: nat) -> bool {
    forall|k: int| 0 <= k < n ==> !spans::<F>(basis, k as nat, #[trigger] basis[k])
}

/// The value at `x` of the subspace polynomial `W_k`.
pub open spec fn subspace<F: BinaryField>(basis: Seq<F::Elem>, k: nat, x: F::Elem) -> F::Elem
    decreases k,
{
    if k == 0 {
        x
    } else {
        let w = subspace::<F>(basis, (k - 1) as nat, x);
        let n = subspace::<F>(basis, (k - 1) as nat, basis[k - 1]);
        fadd::<F>(fsq::<F>(w), fmul::<F>(n, w))
    }
}

/// The normalizer `W_k(b_k)`.
pub open spec fn normalizer<F: BinaryField>(basis: Seq<F::Elem>, k: nat) -> F::Elem {
    subspace::<F>(basis, k, basis[k as int])
}

/// The value at `x` of the normalized subspace polynomial `W_k / W_k(b_k)`.
pub open spec fn normalized<F: BinaryField>(basis: Seq<F::Elem>, k: nat, x: F::Elem) -> F::Elem {
    fmul::<F>(finv::<F>(normalizer::<F>(basis, k)), subspace::<F>(basis, k, x))
}

/// `(x + y)^2 == x^2 + y^2`.
pub proof fn lemma_square_sum<F: BinaryField>(x: F::Elem, y: F::Elem)
    ensures
        fsq::<F>(fadd::<F>(x, y)) == fadd::<F>(fsq::<F>(x), fsq::<F>(y)),
        fsq::<F>(fzero::<F>()) == fzero::<F>(),
        fsq::<F>(fone::<F>()) == fone::<F>(),
{
    let s = fadd::<F>(x, y);
    let xy = fmul::<F>(x, y);
    lemma_mul::<F>(s, x, y);
    lemma_mul::<F>(x, x, y);
    lemma_mul::<F>(y, x, y);
    // s * s == (x^2 + x y) + (x y + y^2)
    lemma_add::<F>(fadd::<F>(fsq::<F>(x), xy), xy, fsq::<F>(y));
    lemma_cancel_right::<F>(fsq::<F>(x), xy);
    lemma_mul::<F>(fzero::<F>(), fzero::<F>(), fzero::<F>());
    lemma_mul::<F>(fone::<F>(), fone::<F>(), fone::<F>());
}

/// `W_k` is additive.
pub proof fn lemma_subspace_additive<F: BinaryField>(
    basis: Seq<F::Elem>,
    k: nat,
    x: F::Elem,
    y: F::Elem,
)
    ensures
        subspace::<F>(basis, k, fadd::<F>(x, y)) == fadd::<F>(
            subspace::<F>(basis, k, x),
            subspace::<F>(basis, k, y),
        ),
    decreases k,
{
    if k > 0 {
        let d = (k - 1) as nat;
        lemma_subspace_additive::<F>(basis, d, x, y);
        let a = subspace::<F>(basis, d, x);
        let b = subspace::<F>(basis, d, y);
        let n = normalizer::<F>(basis, d);
        lemma_square_sum::<F>(a, b);
        lemma_mul::<F>(n, a, b);
        lemma_swap_sum::<F>(fsq::<F>(a), fsq::<F>(b), fmul::<F>(n, a), fmul::<F>(n, b));
    }
}

/// `W_k(0) == 0`.
pub proof fn lemma_subspace_zero<F: BinaryField>(basis: Seq<F::Elem>, k: nat)
    ensures
        subspace::<F>(basis, k, fzero::<F>()) == fzero::<F>(),
{
    let z = subspace::<F>(basis, k, fzero::<F>());
    lemma_subspace_additive::<F>(basis, k, fzero::<F>(), fzero::<F>());
    lemma_add::<F>(fzero::<F>(), fzero::<F>(), fzero::<F>());
    lemma_add::<F>(z, z, z);
}

/// `W_k` factors through the level below: `W_k(x) = W_{k-1}(x) * W_{k-1}(x + b_{k-1})`.
pub proof fn lemma_subspace_factors<F: BinaryField>(basis: Seq<F::Elem>, k: nat, x: F::Elem)
    requires
        k > 0,
    ensures
        subspace::<F>(basis, k, x) == fmul::<F>(
            subspace::<F>(basis, (k - 1) as nat, x),
            subspace::<F>(basis, (k - 1) as nat, fadd::<F>(x, basis[k - 1])),
        ),
{
    let d = (k - 1) as nat;
    let w = subspace::<F>(basis, d, x);
    let n = normalizer::<F>(basis, d);
    lemma_subspace_additive::<F>(basis, d, x, basis[k - 1]);
    lemma_mul::<F>(w, w, n);
    lemma_mul::<F>(n, w, w);
}

/// `W_k` vanishes exactly on the sums of the first `k` basis elements.
pub proof fn law_subspace_polynomial_vanishes_exactly<F: BinaryField>(
    basis: Seq<F::Elem>,
    k: nat,
    x: F::Elem,
)
    ensures
        subspace::<F>(basis, k, x) == fzero::<F>() <==> spans::<F>(basis, k, x),
    decreases k,
{
    if k == 0 {
        assert(span(0) == 1);
        assert(combine::<F>(basis, 0, 0) == fzero::<F>());
    } else {
        let d = (k - 1) as nat;
        let b = basis[k - 1];
        let y = fadd::<F>(x, b);
        law_subspace_polynomial_vanishes_exactly::<F>(basis, d, x);
        law_subspace_polynomial_vanishes_exactly::<F>(basis, d, y);
        lemma_subspace_factors::<F>(basis, k, x);
        let w = subspace::<F>(basis, d, x);
        let u = subspace::<F>(basis, d, y);
        lemma_nonzero::<F>(w, u);
        lemma_mul::<F>(w, u, u);
        lemma_mul::<F>(u, w, w);
        lemma_cancel_right::<F>(x, b);
        if spans::<F>(basis, d, x) {
            let i = choose|i: int| 0 <= i < span(d) && #[trigger] combine::<F>(basis, d, i) == x;
            assert(combine::<F>(basis, k, i) == x);
        }
        if spans::<F>(basis, d, y) {
            let i = choose|i: int| 0 <= i < span(d) && #[trigger] combine::<F>(basis, d, i) == y;
            assert(combine::<F>(basis, k, i + span(d)) == x);
        }
        if spans::<F>(basis, k, x) {
            let i = choose|i: int| 0 <= i < span(k) && #[trigger] combine::<F>(basis, k, i) == x;
            if i < span(d) {
                assert(combine::<F>(basis, d, i) == x);
            } else {
                let c = combine::<F>(basis, d, i - span(d));
                lemma_cancel_right::<F>(c, b);
                assert(c == y);
            }
        }
    }
}

/// A basis is independent exactly if every normalizer is nonzero.
pub proof fn law_independent_iff_normalizers<F: BinaryField>(basis: Seq<F::Elem>, n: nat)
    ensures
        independent::<F>(basis, n) <==> (forall|k: int|
            0 <= k < n ==> #[trigger] normalizer::<F>(basis, k as nat) != fzero::<F>()),
{
    assert forall|k: int| 0 <= k < n implies (#[trigger] normalizer::<F>(basis, k as nat) == fzero::<
        F,
    >()) == spans::<F>(basis, k as nat, basis[k]) by {
        law_subspace_polynomial_vanishes_exactly::<F>(basis, k as nat, basis[k]);
    }
    if forall|k: int| 0 <= k < n ==> #[trigger] normalizer::<F>(basis, k as nat) != fzero::<F>() {
        assert forall|k: int| 0 <= k < n implies !spans::<F>(
            basis,
            k as nat,
            #[trigger] basis[k],
        ) by {
            assert(normalizer::<F>(basis, k as nat) != fzero::<F>());
        }
    }
}

/// Sums below a power of two need no further basis elements.
pub proof fn lemma_combine_narrow<F: BinaryField>(
    basis: Seq<F::Elem>,
    dim: nat,
    k: nat,
    i: int,
)
    requires
        k <= dim,
        0 <= i < span(k),
    ensures
        combine::<F>(basis, dim, i) == combine::<F>(basis, k, i),
    decreases dim,
{
    if k < dim {
        lemma_span_monotone(k, (dim - 1) as nat);
        lemma_combine_narrow::<F>(basis, (dim - 1) as nat, k, i);
    }
}

/// Sums by bits: no bit selects zero, and bit `k` adds basis element `k`.
pub proof fn law_sums_by_bits<F: BinaryField>(basis: Seq<F::Elem>, dim: nat, k: nat, i: int)
    requires
        k < dim,
        0 <= i < span(k),
    ensures
        combine::<F>(basis, dim, 0) == fzero::<F>(),
        combine::<F>(basis, dim, i + span(k)) == fadd::<F>(
            combine::<F>(basis, dim, i),
            basis[k as int],
        ),
{
    lemma_span_monotone(k, dim);
    lemma_span_monotone(0, k);
    assert(span(0) == 1);
    assert(span(k + 1) == 2 * span(k));
    lemma_combine_narrow::<F>(basis, dim, 0, 0);
    lemma_combine_narrow::<F>(basis, dim, k, i);
    lemma_combine_narrow::<F>(basis, dim, k + 1, i + span(k));
}

/// Independence: no sum but the empty one is zero.
pub proof fn law_independence<F: BinaryField>(basis: Seq<F::Elem>, n: nat)
    ensures
        independent::<F>(basis, n) <==> (forall|i: int|
            0 < i < span(n) ==> #[trigger] combine::<F>(basis, n, i) != fzero::<F>()),
{
    if independent::<F>(basis, n) {
        assert forall|i: int| 0 < i < span(n) implies #[trigger] combine::<F>(basis, n, i)
            != fzero::<F>() by {
            law_sums_are_distinct::<F>(basis, n, 0, i);
            assert(span(0) == 1);
            lemma_combine_narrow::<F>(basis, n, 0, 0);
        }
    }
    if forall|i: int| 0 < i < span(n) ==> #[trigger] combine::<F>(basis, n, i) != fzero::<F>() {
        assert forall|k: int| 0 <= k < n implies !spans::<F>(
            basis,
            k as nat,
            #[trigger] basis[k],
        ) by {
            if spans::<F>(basis, k as nat, basis[k]) {
                let b = basis[k];
                let j = choose|j: int|
                    0 <= j < span(k as nat) && #[trigger] combine::<F>(basis, k as nat, j) == b;
                law_sums_by_bits::<F>(basis, n, k as nat, j);
                lemma_combine_narrow::<F>(basis, n, k as nat, j);
                lemma_add::<F>(b, b, b);
                lemma_span_monotone((k + 1) as nat, n);
                assert(span((k + 1) as nat) == 2 * span(k as nat));
                assert(combine::<F>(basis, n, j + span(k as nat)) == fzero::<F>());
            }
        }
    }
}

/// The normalized subspace polynomial `k` is additive, vanishes on the sums of the
/// first `k` basis elements, and is one at basis element `k`.
pub proof fn law_normalized_polynomials<F: BinaryField>(
    basis: Seq<F::Elem>,
    k: nat,
    x: F::Elem,
    y: F::Elem,
    i: int,
)
    requires
        independent::<F>(basis, k + 1),
        0 <= i < span(k),
    ensures
        normalized::<F>(basis, k, fadd::<F>(x, y)) == fadd::<F>(
            normalized::<F>(basis, k, x),
            normalized::<F>(basis, k, y),
        ),
        normalized::<F>(basis, k, combine::<F>(basis, k, i)) == fzero::<F>(),
        normalized::<F>(basis, k, basis[k as int]) == fone::<F>(),
{
    law_independent_iff_normalizers::<F>(basis, k + 1);
    let n = normalizer::<F>(basis, k);
    assert(n == normalizer::<F>(basis, k as int as nat));
    let c = finv::<F>(n);
    lemma_finv::<F>(n, n);
    lemma_subspace_additive::<F>(basis, k, x, y);
    lemma_mul::<F>(c, subspace::<F>(basis, k, x), subspace::<F>(basis, k, y));
    let s = combine::<F>(basis, k, i);
    assert(spans::<F>(basis, k, s));
    law_subspace_polynomial_vanishes_exactly::<F>(basis, k, s);
    lemma_mul::<F>(c, c, c);
    lemma_mul::<F>(n, c, c);
}

/// Different subsets of an independent basis have different sums.
pub proof fn law_sums_are_distinct<F: BinaryField>(
    basis: Seq<F::Elem>,
    dim: nat,
    i: int,
    j: int,
)
    requires
        independent::<F>(basis, dim),
        0 <= i < j < span(dim),
    ensures
        combine::<F>(basis, dim, i) != combine::<F>(basis, dim, j),
    decreases dim,
{
    if dim > 0 {
        let d = (dim - 1) as nat;
        let b = basis[d as int];
        let h = span(d) as int;
        assert(independent::<F>(basis, d));
        if j < h {
            law_sums_are_distinct::<F>(basis, d, i, j);
        } else {
            let y = combine::<F>(basis, d, j - h);
            if i >= h {
                law_sums_are_distinct::<F>(basis, d, i - h, j - h);
                let x = combine::<F>(basis, d, i - h);
                lemma_cancel_right::<F>(x, b);
                lemma_cancel_right::<F>(y, b);
            } else {
                let x = combine::<F>(basis, d, i);
                law_subspace_polynomial_vanishes_exactly::<F>(basis, d, x);
                law_subspace_polynomial_vanishes_exactly::<F>(basis, d, y);
                law_subspace_polynomial_vanishes_exactly::<F>(basis, d, b);
                lemma_subspace_additive::<F>(basis, d, y, b);
                assert(spans::<F>(basis, d, x));
                assert(spans::<F>(basis, d, y));
                assert(!spans::<F>(basis, d, b));
                let w = subspace::<F>(basis, d, b);
                lemma_add::<F>(fzero::<F>(), w, w);
                lemma_add::<F>(w, w, w);
            }
        }
    } else {
        assert(span(0) == 1);
    }
}

/// The normalized polynomial is additive, vanishes on `V_k` and is one at `b_k`:
/// it is constant on each coset of `V_k`, and two cosets that differ by `b_k`
/// have values that differ by one.
pub proof fn law_normalized_on_cosets<F: BinaryField>(
    basis: Seq<F::Elem>,
    k: nat,
    x: F::Elem,
    i: int,
)
    requires
        normalizer::<F>(basis, k) != fzero::<F>(),
        0 <= i < span(k),
    ensures
        normalized::<F>(basis, k, fadd::<F>(x, combine::<F>(basis, k, i))) == normalized::<F>(
            basis,
            k,
            x,
        ),
        normalized::<F>(
            basis,
            k,
            fadd::<F>(fadd::<F>(x, basis[k as int]), combine::<F>(basis, k, i)),
        ) == fadd::<F>(normalized::<F>(basis, k, x), fone::<F>()),
{
    let u = combine::<F>(basis, k, i);
    let b = basis[k as int];
    let n = normalizer::<F>(basis, k);
    let s = finv::<F>(n);
    assert(spans::<F>(basis, k, u));
    law_subspace_polynomial_vanishes_exactly::<F>(basis, k, u);
    lemma_subspace_additive::<F>(basis, k, x, u);
    lemma_subspace_additive::<F>(basis, k, fadd::<F>(x, b), u);
    lemma_subspace_additive::<F>(basis, k, x, b);
    let wx = subspace::<F>(basis, k, x);
    lemma_add::<F>(wx, wx, wx);
    lemma_add::<F>(fadd::<F>(wx, n), wx, wx);
    lemma_finv::<F>(n, n);
    lemma_mul::<F>(s, wx, n);
    lemma_mul::<F>(n, s, s);
}

// Coefficients.

/// The value at `x` of the linearized polynomial with coefficient `c[j]` of
/// `x^(2^j)`.
pub open spec fn linearized<F: BinaryField>(c: Seq<F::Elem>, x: F::Elem) -> F::Elem
    decreases c.len(),
{
    if c.len() == 0 {
        fzero::<F>()
    } else {
        fadd::<F>(fmul::<F>(c[0], x), linearized::<F>(c.drop_first(), fsq::<F>(x)))
    }
}

/// The squares of the entries of a vector.
pub open spec fn vsquare<F: BinaryField>(c: Seq<F::Elem>) -> Seq<F::Elem> {
    Seq::new(c.len(), |i: int| fsq::<F>(c[i]))
}

/// The coefficients of `w^2 + n * w`, for the linearized polynomial `w` with
/// coefficients `c`.
pub open spec fn next_coefficients<F: BinaryField>(c: Seq<F::Elem>, n: F::Elem) -> Seq<F::Elem> {
    vadd::<F>(vscale::<F>(n, c).push(fzero::<F>()), seq![fzero::<F>()] + vsquare::<F>(c))
}

/// The coefficients of `W_k`, low exponent first.
pub open spec fn subspace_coefficients<F: BinaryField>(basis: Seq<F::Elem>, k: nat) -> Seq<F::Elem>
    decreases k,
{
    if k == 0 {
        seq![fone::<F>()]
    } else {
        next_coefficients::<F>(
            subspace_coefficients::<F>(basis, (k - 1) as nat),
            normalizer::<F>(basis, (k - 1) as nat),
        )
    }
}

/// The coefficients of the normalized polynomial.
pub open spec fn normalized_coefficients<F: BinaryField>(basis: Seq<F::Elem>, k: nat) -> Seq<
    F::Elem,
> {
    vscale::<F>(
        finv::<F>(normalizer::<F>(basis, k)),
        subspace_coefficients::<F>(basis, k),
    )
}

proof fn lemma_linearized_sum<F: BinaryField>(a: Seq<F::Elem>, b: Seq<F::Elem>, x: F::Elem)
    requires
        a.len() == b.len(),
    ensures
        linearized::<F>(vadd::<F>(a, b), x) == fadd::<F>(
            linearized::<F>(a, x),
            linearized::<F>(b, x),
        ),
    decreases a.len(),
{
    if a.len() == 0 {
        lemma_add::<F>(fzero::<F>(), fzero::<F>(), fzero::<F>());
    } else {
        let y = fsq::<F>(x);
        let s = vadd::<F>(a, b);
        assert(s.drop_first() =~= vadd::<F>(a.drop_first(), b.drop_first()));
        lemma_linearized_sum::<F>(a.drop_first(), b.drop_first(), y);
        lemma_mul::<F>(x, a[0], b[0]);
        lemma_swap_sum::<F>(
            fmul::<F>(a[0], x),
            fmul::<F>(b[0], x),
            linearized::<F>(a.drop_first(), y),
            linearized::<F>(b.drop_first(), y),
        );
    }
}

pub proof fn lemma_linearized_scale<F: BinaryField>(n: F::Elem, c: Seq<F::Elem>, x: F::Elem)
    ensures
        linearized::<F>(vscale::<F>(n, c), x) == fmul::<F>(n, linearized::<F>(c, x)),
    decreases c.len(),
{
    if c.len() == 0 {
        lemma_mul::<F>(n, n, n);
    } else {
        let y = fsq::<F>(x);
        assert(vscale::<F>(n, c).drop_first() =~= vscale::<F>(n, c.drop_first()));
        lemma_linearized_scale::<F>(n, c.drop_first(), y);
        lemma_mul::<F>(n, c[0], x);
        lemma_mul::<F>(n, fmul::<F>(c[0], x), linearized::<F>(c.drop_first(), y));
    }
}

proof fn lemma_linearized_pad<F: BinaryField>(c: Seq<F::Elem>, x: F::Elem)
    ensures
        linearized::<F>(c.push(fzero::<F>()), x) == linearized::<F>(c, x),
    decreases c.len(),
{
    let p = c.push(fzero::<F>());
    let y = fsq::<F>(x);
    if c.len() == 0 {
        reveal_with_fuel(linearized, 2);
        lemma_mul::<F>(x, x, x);
        assert(p.drop_first() =~= Seq::<F::Elem>::empty());
        lemma_add::<F>(fzero::<F>(), fzero::<F>(), fzero::<F>());
    } else {
        assert(p.drop_first() =~= c.drop_first().push(fzero::<F>()));
        lemma_linearized_pad::<F>(c.drop_first(), y);
    }
}

proof fn lemma_linearized_square<F: BinaryField>(c: Seq<F::Elem>, x: F::Elem)
    ensures
        linearized::<F>(vsquare::<F>(c), fsq::<F>(x)) == fsq::<F>(linearized::<F>(c, x)),
    decreases c.len(),
{
    if c.len() == 0 {
        lemma_square_sum::<F>(x, x);
    } else {
        let y = fsq::<F>(x);
        assert(vsquare::<F>(c).drop_first() =~= vsquare::<F>(c.drop_first()));
        lemma_linearized_square::<F>(c.drop_first(), y);
        lemma_square_sum::<F>(fmul::<F>(c[0], x), linearized::<F>(c.drop_first(), y));
        // (c0 * x)^2 == c0^2 * x^2
        lemma_square_product::<F>(c[0], x);
    }
}

/// `(a * b)^2 == a^2 * b^2`.
pub proof fn lemma_square_product<F: BinaryField>(a: F::Elem, b: F::Elem)
    ensures
        fsq::<F>(fmul::<F>(a, b)) == fmul::<F>(fsq::<F>(a), fsq::<F>(b)),
{
    let ab = fmul::<F>(a, b);
    lemma_mul::<F>(a, b, ab);
    lemma_mul::<F>(b, a, b);
    lemma_mul::<F>(a, b, b);
    lemma_mul::<F>(a, a, fsq::<F>(b));
    lemma_mul::<F>(b, ab, ab);
    lemma_mul::<F>(a, fsq::<F>(b), b);
}

proof fn lemma_next_coefficients<F: BinaryField>(c: Seq<F::Elem>, n: F::Elem, x: F::Elem)
    ensures
        linearized::<F>(next_coefficients::<F>(c, n), x) == fadd::<F>(
            fsq::<F>(linearized::<F>(c, x)),
            fmul::<F>(n, linearized::<F>(c, x)),
        ),
        next_coefficients::<F>(c, n).len() == c.len() + 1,
{
    let a = vscale::<F>(n, c).push(fzero::<F>());
    let b = seq![fzero::<F>()] + vsquare::<F>(c);
    lemma_linearized_sum::<F>(a, b, x);
    lemma_linearized_pad::<F>(vscale::<F>(n, c), x);
    lemma_linearized_scale::<F>(n, c, x);
    assert(b.drop_first() =~= vsquare::<F>(c));
    lemma_linearized_square::<F>(c, x);
    let q = fsq::<F>(linearized::<F>(c, x));
    lemma_mul::<F>(x, x, x);
    lemma_add::<F>(q, q, q);
    lemma_add::<F>(fmul::<F>(n, linearized::<F>(c, x)), q, q);
}

/// The coefficients of `W_k` evaluate to `W_k`; there are `k + 1` of them and
/// the last is one.
pub proof fn lemma_subspace_coefficients<F: BinaryField>(basis: Seq<F::Elem>, k: nat, x: F::Elem)
    ensures
        linearized::<F>(subspace_coefficients::<F>(basis, k), x) == subspace::<F>(basis, k, x),
        subspace_coefficients::<F>(basis, k).len() == k + 1,
        subspace_coefficients::<F>(basis, k)[k as int] == fone::<F>(),
    decreases k,
{
    if k == 0 {
        reveal_with_fuel(linearized, 2);
        let c = seq![fone::<F>()];
        assert(c.drop_first() =~= Seq::<F::Elem>::empty());
        lemma_mul::<F>(x, x, x);
        lemma_add::<F>(x, x, x);
    } else {
        let d = (k - 1) as nat;
        let c = subspace_coefficients::<F>(basis, d);
        lemma_subspace_coefficients::<F>(basis, d, x);
        lemma_next_coefficients::<F>(c, normalizer::<F>(basis, d), x);
        lemma_square_sum::<F>(fone::<F>(), fone::<F>());
        lemma_add::<F>(fone::<F>(), fone::<F>(), fone::<F>());
    }
}

/// The rule that fixes linearized polynomials: the coefficients stand at `x, x^2,
/// x^4, ...`.
pub proof fn law_linearized_values<F: BinaryField>(a: F::Elem, c: Seq<F::Elem>, x: F::Elem)
    ensures
        linearized::<F>(Seq::<F::Elem>::empty(), x) == fzero::<F>(),
        linearized::<F>(seq![a] + c, x) == fadd::<F>(
            fmul::<F>(a, x),
            linearized::<F>(c, fmul::<F>(x, x)),
        ),
{
    let d = seq![a] + c;
    assert(d.drop_first() =~= c);
}

/// The coefficients of the normalized subspace polynomials: one more than the
/// dimension, and their linearized polynomial is the normalized one.
pub proof fn law_normalized_coefficients<F: BinaryField>(
    basis: Seq<F::Elem>,
    k: nat,
    x: F::Elem,
)
    ensures
        normalized_coefficients::<F>(basis, k).len() == k + 1,
        linearized::<F>(normalized_coefficients::<F>(basis, k), x) == normalized::<F>(basis, k, x),
{
    lemma_subspace_coefficients::<F>(basis, k, x);
    lemma_linearized_scale::<F>(
        finv::<F>(normalizer::<F>(basis, k)),
        subspace_coefficients::<F>(basis, k),
        x,
    );
}

} // verus!
