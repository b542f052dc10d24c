//! Polynomials in the monomial basis.

use vstd::prelude::*;

use crate::field::{fadd, fmul, fone, fzero, lemma_add, lemma_mul, BinaryField};
use crate::span::{lemma_span_monotone, span};
use crate::subspace::{fsq, linearized};

verus! {

/// `x^n`.
pub open spec fn fpow<F: BinaryField>(x: F::Elem, n: nat) -> F::Elem
    decreases n,
{
    if n == 0 {
        fone::<F>()
    } else {
        fmul::<F>(fpow::<F>(x, (n - 1) as nat), x)
    }
}

/// The sum of `c_i * x^i` over the first `n` coefficients.
pub open spec fn poly_sum<F: BinaryField>(c: Seq<F::Elem>, n: nat, x: F::Elem) -> F::Elem
    decreases n,
{
    if n == 0 {
        fzero::<F>()
    } else {
        fadd::<F>(
            poly_sum::<F>(c, (n - 1) as nat, x),
            fmul::<F>(c[n - 1], fpow::<F>(x, (n - 1) as nat)),
        )
    }
}

/// The value at `x` of the polynomial with monomial coefficients `c`.
pub open spec fn poly_value<F: BinaryField>(c: Seq<F::Elem>, x: F::Elem) -> F::Elem {
    poly_sum::<F>(c, c.len(), x)
}

pub proof fn lemma_pow_add<F: BinaryField>(x: F::Elem, a: nat, b: nat)
    ensures
        fpow::<F>(x, a + b) == fmul::<F>(fpow::<F>(x, a), fpow::<F>(x, b)),
    decreases b,
{
    let p = fpow::<F>(x, a);
    if b == 0 {
        lemma_mul::<F>(p, p, p);
    } else {
        let c = (b - 1) as nat;
        lemma_pow_add::<F>(x, a, c);
        lemma_mul::<F>(p, fpow::<F>(x, c), x);
        assert((a + b - 1) as nat == a + c);
    }
}

/// `(x^2)^n == x^(2n)`.
pub proof fn lemma_pow_square<F: BinaryField>(x: F::Elem, n: nat)
    ensures
        fpow::<F>(fsq::<F>(x), n) == fpow::<F>(x, 2 * n),
    decreases n,
{
    if n > 0 {
        let m = (n - 1) as nat;
        lemma_pow_square::<F>(x, m);
        assert((2 * n - 1) as nat == 2 * m + 1);
        assert((2 * n - 2) as nat == 2 * m);
        let p = fpow::<F>(x, 2 * m);
        assert(fpow::<F>(x, (2 * m + 1) as nat) == fmul::<F>(p, x));
        assert(fpow::<F>(x, 2 * n) == fmul::<F>(fmul::<F>(p, x), x));
        lemma_mul::<F>(p, x, x);
    }
}

/// The sum of `c_j * x^(2^j)` over the first `n` coefficients.
pub open spec fn linearized_sum<F: BinaryField>(c: Seq<F::Elem>, n: nat, x: F::Elem) -> F::Elem
    decreases n,
{
    if n == 0 {
        fzero::<F>()
    } else {
        fadd::<F>(
            linearized_sum::<F>(c, (n - 1) as nat, x),
            fmul::<F>(c[n - 1], fpow::<F>(x, span((n - 1) as nat))),
        )
    }
}

proof fn lemma_linearized_shift<F: BinaryField>(c: Seq<F::Elem>, n: nat, x: F::Elem)
    requires
        1 <= n <= c.len(),
    ensures
        linearized_sum::<F>(c, n, x) == fadd::<F>(
            fmul::<F>(c[0], x),
            linearized_sum::<F>(c.drop_first(), (n - 1) as nat, fsq::<F>(x)),
        ),
    decreases n,
{
    let y = fsq::<F>(x);
    let head = fmul::<F>(c[0], x);
    if n == 1 {
        reveal_with_fuel(linearized_sum, 2);
        reveal_with_fuel(fpow, 2);
        lemma_mul::<F>(x, x, x);
        lemma_add::<F>(head, head, head);
    } else {
        let m = (n - 1) as nat;
        lemma_linearized_shift::<F>(c, m, x);
        let s = linearized_sum::<F>(c.drop_first(), (m - 1) as nat, y);
        lemma_pow_square::<F>(x, span((m - 1) as nat));
        assert(span(m) == 2 * span((m - 1) as nat));
        let t = fmul::<F>(c[m as int], fpow::<F>(x, span(m)));
        lemma_add::<F>(head, s, t);
        assert(c.drop_first()[m - 1] == c[m as int]);
    }
}

/// A linearized polynomial is the sum of its terms.
pub proof fn lemma_linearized_sum<F: BinaryField>(c: Seq<F::Elem>, x: F::Elem)
    ensures
        linearized::<F>(c, x) == linearized_sum::<F>(c, c.len(), x),
    decreases c.len(),
{
    if c.len() > 0 {
        lemma_linearized_sum::<F>(c.drop_first(), fsq::<F>(x));
        lemma_linearized_shift::<F>(c, c.len(), x);
    }
}

/// Zero coefficients add nothing.
pub proof fn lemma_poly_gap<F: BinaryField>(c: Seq<F::Elem>, a: nat, b: nat, x: F::Elem)
    requires
        a <= b <= c.len(),
        forall|i: int| a <= i < b ==> #[trigger] c[i] == fzero::<F>(),
    ensures
        poly_sum::<F>(c, b, x) == poly_sum::<F>(c, a, x),
    decreases b,
{
    if a < b {
        lemma_poly_gap::<F>(c, a, (b - 1) as nat, x);
        assert(c[b - 1] == fzero::<F>());
        let p = fpow::<F>(x, (b - 1) as nat);
        lemma_mul::<F>(p, p, p);
        let s = poly_sum::<F>(c, a, x);
        lemma_add::<F>(s, s, s);
    }
}

pub proof fn lemma_poly_same<F: BinaryField>(a: Seq<F::Elem>, b: Seq<F::Elem>, n: nat, x: F::Elem)
    requires
        n <= a.len(),
        n <= b.len(),
        forall|i: int| 0 <= i < n ==> #[trigger] a[i] == b[i],
    ensures
        poly_sum::<F>(a, n, x) == poly_sum::<F>(b, n, x),
    decreases n,
{
    if n > 0 {
        lemma_poly_same::<F>(a, b, (n - 1) as nat, x);
        assert(a[n - 1] == b[n - 1]);
    }
}

/// The dense form of a linearized polynomial plus a constant: coefficient `j` of
/// the sparse form stands at index `2^j`.
pub open spec fn is_dense<F: BinaryField>(
    dense: Seq<F::Elem>,
    sparse: Seq<F::Elem>,
    constant: F::Elem,
) -> bool {
    &&& sparse.len() > 0
    &&& dense.len() == span((sparse.len() - 1) as nat) + 1
    &&& dense[0] == constant
    &&& forall|j: int| 0 <= j < sparse.len() ==> dense[span(j as nat) as int] == #[trigger] sparse[j]
    &&& forall|i: int|
        0 < i < dense.len() && (forall|j: int| 0 <= j < sparse.len() ==> i != #[trigger] span(
            j as nat,
        )) ==> #[trigger] dense[i] == fzero::<F>()
}

proof fn lemma_dense_prefix<F: BinaryField>(
    dense: Seq<F::Elem>,
    sparse: Seq<F::Elem>,
    constant: F::Elem,
    n: nat,
    x: F::Elem,
)
    requires
        is_dense::<F>(dense, sparse, constant),
        1 <= n <= sparse.len(),
    ensures
        poly_sum::<F>(dense, span((n - 1) as nat) + 1, x) == fadd::<F>(
            constant,
            linearized_sum::<F>(sparse, n, x),
        ),
    decreases n,
{
    let k = (n - 1) as nat;
    lemma_span_monotone(k, (sparse.len() - 1) as nat);
    let p = fpow::<F>(x, span(k));
    assert(dense[span(k) as int] == sparse[k as int]);
    if n == 1 {
        reveal_with_fuel(poly_sum, 3);
        reveal_with_fuel(linearized_sum, 2);
        reveal_with_fuel(fpow, 1);
        lemma_mul::<F>(constant, constant, constant);
        lemma_add::<F>(constant, constant, constant);
        let t = fmul::<F>(sparse[0], p);
        lemma_add::<F>(t, t, t);
    } else {
        let m = (n - 2) as nat;
        lemma_dense_prefix::<F>(dense, sparse, constant, (n - 1) as nat, x);
        lemma_span_monotone(m, k);
        assert forall|i: int| span(m) + 1 <= i < span(k) implies #[trigger] dense[i] == fzero::<
            F,
        >() by {
            assert forall|j: int| 0 <= j < sparse.len() implies i != #[trigger] span(j as nat) by {
                if j <= m {
                    lemma_span_monotone(j as nat, m);
                } else {
                    lemma_span_monotone(k, j as nat);
                }
            }
        }
        lemma_poly_gap::<F>(dense, span(m) + 1, span(k), x);
        lemma_add::<F>(
            constant,
            linearized_sum::<F>(sparse, (n - 1) as nat, x),
            fmul::<F>(sparse[k as int], p),
        );
    }
}

/// The dense form evaluates to the linearized polynomial plus the constant.
pub proof fn lemma_dense_value<F: BinaryField>(
    dense: Seq<F::Elem>,
    sparse: Seq<F::Elem>,
    constant: F::Elem,
    x: F::Elem,
)
    requires
        is_dense::<F>(dense, sparse, constant),
    ensures
        poly_value::<F>(dense, x) == fadd::<F>(constant, linearized::<F>(sparse, x)),
{
    lemma_linearized_sum::<F>(sparse, x);
    lemma_dense_prefix::<F>(dense, sparse, constant, sparse.len(), x);
}

} // verus!
