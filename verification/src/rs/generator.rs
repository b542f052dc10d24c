//! Generator rows: the value of a polynomial at one point from its values at
//! others.

use vstd::prelude::*;

use crate::field::{
    fadd, finv, fmul, fone, fzero, inverse, lemma_add, lemma_finv, lemma_mul, lemma_nonzero,
    lemma_one_not_zero, plus, times, BinaryField,
};
use crate::kernel::{lemma_cancel, ButterflyKernels};
use crate::ntt::ring::{
    lemma_add_pairs, lemma_sum_add, lemma_sum_same, lemma_sum_scale, lemma_sum_zero, rsum,
};
use crate::basis::convert_laws::formal_derivative;
use crate::poly::{
    fpow, is_dense, lemma_dense_value, lemma_poly_gap, lemma_poly_same, poly_sum, poly_value,
};
use crate::span::span;
use crate::subspace::{
    combine, lemma_subspace_additive, lemma_subspace_coefficients, lemma_subspace_factors, subspace,
    subspace_coefficients,
};
use crate::transform::plan::TransformPlan;

verus! {

/// The product of `x + p_e` over the first `k` points.
pub open spec fn locator<F: BinaryField>(p: Seq<F::Elem>, k: nat, x: F::Elem) -> F::Elem
    decreases k,
{
    if k == 0 {
        fone::<F>()
    } else {
        fmul::<F>(locator::<F>(p, (k - 1) as nat, x), fadd::<F>(x, p[k - 1]))
    }
}

/// The derivative of the locator at point `d`: the product of `p_d + p_e` over
/// the first `k` points but `d` itself.
pub open spec fn locator_slope<F: BinaryField>(p: Seq<F::Elem>, k: nat, d: int) -> F::Elem
    decreases k,
{
    if k == 0 {
        fone::<F>()
    } else if d == k - 1 {
        locator_slope::<F>(p, (k - 1) as nat, d)
    } else {
        fmul::<F>(locator_slope::<F>(p, (k - 1) as nat, d), fadd::<F>(p[d], p[k - 1]))
    }
}

/// The points of a plan's domain.
pub open spec fn points<F: ButterflyKernels>(plan: &TransformPlan<F>) -> Seq<F::Elem> {
    Seq::new(span(plan.dim()), |i: int| plan.point(i))
}

/// Whether the first `k` points are distinct.
pub open spec fn distinct<F: BinaryField>(p: Seq<F::Elem>, k: nat) -> bool {
    forall|i: int, j: int| 0 <= i < j < k ==> #[trigger] p[i] != #[trigger] p[j]
}

/// Whether `x` is none of the first `k` points.
pub open spec fn outside<F: BinaryField>(p: Seq<F::Elem>, k: nat, x: F::Elem) -> bool {
    forall|i: int| 0 <= i < k ==> #[trigger] p[i] != x
}

/// The coefficient of the value at point `d` in the value at `x`, from the value
/// of the locator at `x` and its derivative at point `d`.
pub open spec fn coefficient_at<F: BinaryField>(
    value: F::Elem,
    difference: F::Elem,
    derivative: F::Elem,
) -> F::Elem {
    fmul::<F>(value, finv::<F>(fmul::<F>(difference, derivative)))
}

/// The coefficient of the value at point `d` in the value at `x`.
pub open spec fn weight<F: BinaryField>(
    p: Seq<F::Elem>,
    k: nat,
    d: int,
    x: F::Elem,
) -> F::Elem {
    coefficient_at::<F>(
        locator::<F>(p, k, x),
        fadd::<F>(x, p[d]),
        locator_slope::<F>(p, k, d),
    )
}

/// The combination of the values at the first `k` points.
pub open spec fn combined<F: BinaryField>(
    p: Seq<F::Elem>,
    k: nat,
    c: Seq<F::Elem>,
    x: F::Elem,
) -> F::Elem {
    rsum::<F>(|d: int| fmul::<F>(weight::<F>(p, k, d, x), poly_value::<F>(c, p[d])), k)
}

/// `x + y` is zero only if `x` is `y`.
pub(crate) proof fn lemma_difference<F: BinaryField>(x: F::Elem, y: F::Elem)
    ensures
        fadd::<F>(x, y) == fzero::<F>() <==> x == y,
{
    lemma_add::<F>(x, y, y);
    lemma_add::<F>(y, y, y);
}

pub(crate) proof fn lemma_locator_zero<F: BinaryField>(p: Seq<F::Elem>, k: nat, x: F::Elem)
    ensures
        locator::<F>(p, k, x) == fzero::<F>() <==> !outside::<F>(p, k, x),
    decreases k,
{
    lemma_one_not_zero::<F>();
    if k > 0 {
        let m = (k - 1) as nat;
        lemma_locator_zero::<F>(p, m, x);
        let (a, b) = (locator::<F>(p, m, x), fadd::<F>(x, p[k - 1]));
        lemma_difference::<F>(x, p[k - 1]);
        lemma_nonzero::<F>(a, b);
        lemma_mul::<F>(a, b, b);
        lemma_mul::<F>(b, a, a);
        if outside::<F>(p, k, x) {
            assert(outside::<F>(p, m, x));
            assert(p[k - 1] != x);
        }
        if outside::<F>(p, m, x) && p[k - 1] != x {
            assert(outside::<F>(p, k, x));
        }
    }
}

/// The locator of two groups of points is the product of their locators.
proof fn lemma_locator_split<F: BinaryField>(
    p: Seq<F::Elem>,
    q: Seq<F::Elem>,
    a: nat,
    b: nat,
    x: F::Elem,
)
    requires
        forall|i: int| 0 <= i < b ==> #[trigger] q[i] == p[a + i],
    ensures
        locator::<F>(p, a + b, x) == fmul::<F>(locator::<F>(p, a, x), locator::<F>(q, b, x)),
    decreases b,
{
    let l = locator::<F>(p, a, x);
    if b == 0 {
        lemma_mul::<F>(l, l, l);
    } else {
        let c = (b - 1) as nat;
        lemma_locator_split::<F>(p, q, a, c, x);
        assert(q[c as int] == p[a + (b - 1)]);
        lemma_mul::<F>(l, locator::<F>(q, c, x), fadd::<F>(x, q[c as int]));
        assert((a + b - 1) as nat == a + c);
    }
}

/// Locators of points whose differences from `x` and `y` are the same.
proof fn lemma_locator_moved<F: BinaryField>(
    p: Seq<F::Elem>,
    q: Seq<F::Elem>,
    k: nat,
    x: F::Elem,
    y: F::Elem,
)
    requires
        forall|i: int| 0 <= i < k ==> fadd::<F>(x, #[trigger] p[i]) == fadd::<F>(y, q[i]),
    ensures
        locator::<F>(p, k, x) == locator::<F>(q, k, y),
    decreases k,
{
    if k > 0 {
        lemma_locator_moved::<F>(p, q, (k - 1) as nat, x, y);
        assert(fadd::<F>(x, p[k - 1]) == fadd::<F>(y, q[k - 1]));
    }
}

/// The subspace polynomial is the product over the subspace: `W_dim(x)` is the
/// locator at `x` of the sums of the first `dim` basis elements.
pub proof fn law_subspace_polynomial_is_the_locator<F: BinaryField>(
    basis: Seq<F::Elem>,
    dim: nat,
    x: F::Elem,
)
    ensures
        subspace::<F>(basis, dim, x) == locator::<F>(
            Seq::new(span(dim), |i: int| combine::<F>(basis, dim, i)),
            span(dim),
            x,
        ),
    decreases dim,
{
    let p = Seq::new(span(dim), |i: int| combine::<F>(basis, dim, i));
    if dim == 0 {
        assert(span(0) == 1);
        reveal_with_fuel(locator, 2);
        lemma_add::<F>(x, x, x);
        lemma_mul::<F>(x, x, x);
        assert(p[0] == fzero::<F>());
    } else {
        let d = (dim - 1) as nat;
        let b = basis[d as int];
        let h = span(d);
        let y = fadd::<F>(x, b);
        let half = Seq::new(h, |i: int| combine::<F>(basis, d, i));
        let q = Seq::new(h, |i: int| p[h + i]);
        law_subspace_polynomial_is_the_locator::<F>(basis, d, x);
        law_subspace_polynomial_is_the_locator::<F>(basis, d, y);
        lemma_subspace_factors::<F>(basis, dim, x);
        lemma_locator_split::<F>(p, q, h, h, x);
        lemma_locator_moved::<F>(p, half, h, x, x);
        assert forall|i: int| 0 <= i < h implies fadd::<F>(x, #[trigger] q[i]) == fadd::<F>(
            y,
            half[i],
        ) by {
            let u = half[i];
            assert(q[i] == fadd::<F>(u, b));
            lemma_add::<F>(u, b, b);
            lemma_add::<F>(x, b, u);
        }
        lemma_locator_moved::<F>(q, half, h, x, y);
    }
}

/// The vanishing polynomial of a plan is the product of `x + p` over its points.
pub proof fn law_vanishing_polynomial_is_the_locator<F: ButterflyKernels>(
    plan: &TransformPlan<F>,
    vanishing: Seq<F::Elem>,
    x: F::Elem,
)
    requires
        plan.wf(),
        is_dense::<F>(
            vanishing,
            subspace_coefficients::<F>(plan.domain_basis(), plan.dim()),
            subspace::<F>(plan.domain_basis(), plan.dim(), plan.domain_shift()),
        ),
    ensures
        poly_value::<F>(vanishing, x) == locator::<F>(points::<F>(plan), span(plan.dim()), x),
{
    let basis = plan.domain_basis();
    let (dim, shift) = (plan.dim(), plan.domain_shift());
    let y = fadd::<F>(shift, x);
    lemma_dense_value::<F>(
        vanishing,
        subspace_coefficients::<F>(basis, dim),
        subspace::<F>(basis, dim, shift),
        x,
    );
    lemma_subspace_coefficients::<F>(basis, dim, x);
    lemma_subspace_additive::<F>(basis, dim, shift, x);
    law_subspace_polynomial_is_the_locator::<F>(basis, dim, y);
    let p = points::<F>(plan);
    let q = Seq::new(span(dim), |i: int| combine::<F>(basis, dim, i));
    assert forall|i: int| 0 <= i < span(dim) implies fadd::<F>(x, #[trigger] p[i]) == fadd::<F>(
        y,
        q[i],
    ) by {
        lemma_add::<F>(x, shift, q[i]);
        lemma_add::<F>(shift, x, x);
    }
    lemma_locator_moved::<F>(p, q, span(dim), x, y);
}

proof fn lemma_slope_nonzero<F: BinaryField>(p: Seq<F::Elem>, k: nat, n: nat, d: int)
    requires
        k <= n,
        0 <= d < n,
        distinct::<F>(p, n),
    ensures
        locator_slope::<F>(p, k, d) != fzero::<F>(),
    decreases k,
{
    lemma_one_not_zero::<F>();
    if k > 0 {
        let m = (k - 1) as nat;
        lemma_slope_nonzero::<F>(p, m, n, d);
        if d != k - 1 {
            lemma_difference::<F>(p[d], p[k - 1]);
            assert(p[d] != p[k - 1]);
            lemma_nonzero::<F>(locator_slope::<F>(p, m, d), fadd::<F>(p[d], p[k - 1]));
        }
    }
}

/// The slope at a point past the first `k` is the locator there.
proof fn lemma_slope_is_locator<F: BinaryField>(p: Seq<F::Elem>, k: nat, d: int)
    requires
        d >= k,
    ensures
        locator_slope::<F>(p, k, d) == locator::<F>(p, k, p[d]),
    decreases k,
{
    if k > 0 {
        lemma_slope_is_locator::<F>(p, (k - 1) as nat, d);
    }
}

/// A polynomial as its constant plus `x` times the rest.
proof fn lemma_poly_first<F: BinaryField>(c: Seq<F::Elem>, n: nat, x: F::Elem)
    requires
        1 <= n <= c.len(),
    ensures
        poly_sum::<F>(c, n, x) == fadd::<F>(
            c[0],
            fmul::<F>(x, poly_sum::<F>(c.drop_first(), (n - 1) as nat, x)),
        ),
    decreases n,
{
    let rest = c.drop_first();
    if n == 1 {
        reveal_with_fuel(poly_sum, 2);
        reveal_with_fuel(fpow, 1);
        lemma_mul::<F>(c[0], c[0], c[0]);
        lemma_mul::<F>(x, x, x);
        lemma_add::<F>(c[0], c[0], c[0]);
    } else {
        let m = (n - 1) as nat;
        let l = (n - 2) as nat;
        lemma_poly_first::<F>(c, m, x);
        let s = poly_sum::<F>(rest, l, x);
        let a = rest[l as int];
        assert(a == c[n - 1]);
        let q = fpow::<F>(x, l);
        assert(fpow::<F>(x, m) == fmul::<F>(q, x));
        // x (s + a q) == x s + a (q x)
        lemma_mul::<F>(x, s, fmul::<F>(a, q));
        lemma_mul::<F>(x, a, q);
        lemma_mul::<F>(a, x, q);
        lemma_mul::<F>(x, q, q);
        lemma_add::<F>(c[0], fmul::<F>(x, s), fmul::<F>(a, fmul::<F>(q, x)));
    }
}

/// The quotient of a polynomial by `x + t`.
pub open spec fn quotient<F: BinaryField>(c: Seq<F::Elem>, t: F::Elem) -> Seq<F::Elem>
    decreases c.len(),
{
    if c.len() <= 1 {
        Seq::empty()
    } else {
        seq![poly_value::<F>(c.drop_first(), t)] + quotient::<F>(c.drop_first(), t)
    }
}

/// Division by `x + t` leaves the value at `t`.
pub proof fn law_division<F: BinaryField>(c: Seq<F::Elem>, t: F::Elem, x: F::Elem)
    requires
        c.len() >= 1,
    ensures
        quotient::<F>(c, t).len() == c.len() - 1,
        poly_value::<F>(c, x) == fadd::<F>(
            poly_value::<F>(c, t),
            fmul::<F>(fadd::<F>(x, t), poly_value::<F>(quotient::<F>(c, t), x)),
        ),
    decreases c.len(),
{
    let z = fadd::<F>(x, t);
    lemma_poly_first::<F>(c, c.len(), x);
    lemma_poly_first::<F>(c, c.len(), t);
    let rest = c.drop_first();
    if c.len() == 1 {
        assert(poly_sum::<F>(rest, 0, x) == fzero::<F>());
        lemma_mul::<F>(x, x, x);
        lemma_mul::<F>(t, t, t);
        lemma_mul::<F>(z, z, z);
        lemma_add::<F>(c[0], c[0], c[0]);
    } else {
        law_division::<F>(rest, t, x);
        let inner = quotient::<F>(rest, t);
        let q = quotient::<F>(c, t);
        assert(q.drop_first() =~= inner);
        lemma_poly_first::<F>(q, q.len(), x);
        let r = poly_value::<F>(rest, t);
        let i = poly_value::<F>(inner, x);
        assert(poly_value::<F>(q, x) == fadd::<F>(r, fmul::<F>(x, i)));
        // c0 + x (r + z i) == (c0 + t r) + z (r + x i)
        let zi = fmul::<F>(z, i);
        let xr = fmul::<F>(x, r);
        let tr = fmul::<F>(t, r);
        let xzi = fmul::<F>(x, zi);
        lemma_mul::<F>(x, r, zi);
        lemma_mul::<F>(z, r, fmul::<F>(x, i));
        lemma_mul::<F>(r, x, t);
        lemma_mul::<F>(z, x, i);
        lemma_mul::<F>(x, z, i);
        assert(fmul::<F>(z, r) == fadd::<F>(xr, tr));
        assert(fmul::<F>(z, fmul::<F>(x, i)) == xzi);
        let right = fadd::<F>(fadd::<F>(xr, tr), xzi);
        // (c0 + tr) + ((xr + tr) + xzi) == c0 + (xr + xzi)
        lemma_add::<F>(c[0], tr, right);
        lemma_add::<F>(xr, tr, xzi);
        lemma_add::<F>(tr, xr, fadd::<F>(tr, xzi));
        lemma_add::<F>(xr, tr, fadd::<F>(tr, xzi));
        lemma_add::<F>(tr, tr, xzi);
        lemma_add::<F>(xzi, xzi, xzi);
        lemma_add::<F>(fadd::<F>(tr, xzi), tr, tr);
        assert(fadd::<F>(tr, right) == fadd::<F>(xr, xzi));
    }
}

/// The coefficients of the locator of the first `k` points.
pub open spec fn locator_coefficients<F: BinaryField>(p: Seq<F::Elem>, k: nat) -> Seq<F::Elem>
    decreases k,
{
    if k == 0 {
        seq![fone::<F>()]
    } else {
        let c = locator_coefficients::<F>(p, (k - 1) as nat);
        Seq::new(
            k + 1,
            |i: int|
                fadd::<F>(
                    if i > 0 {
                        c[i - 1]
                    } else {
                        fzero::<F>()
                    },
                    if i < k {
                        fmul::<F>(p[k - 1], c[i])
                    } else {
                        fzero::<F>()
                    },
                ),
        )
    }
}

/// `(x + t) * c` up to degree `n`.
proof fn lemma_times_linear<F: BinaryField>(
    c: Seq<F::Elem>,
    b: Seq<F::Elem>,
    t: F::Elem,
    n: nat,
    x: F::Elem,
)
    requires
        n <= c.len(),
        b.len() == c.len() + 1,
        forall|i: int|
            0 <= i < b.len() ==> #[trigger] b[i] == fadd::<F>(
                if i > 0 {
                    c[i - 1]
                } else {
                    fzero::<F>()
                },
                if i < c.len() {
                    fmul::<F>(t, c[i])
                } else {
                    fzero::<F>()
                },
            ),
    ensures
        n < c.len() ==> poly_sum::<F>(b, n + 1, x) == fadd::<F>(
            fmul::<F>(fadd::<F>(x, t), poly_sum::<F>(c, n, x)),
            fmul::<F>(fmul::<F>(t, c[n as int]), fpow::<F>(x, n)),
        ),
        n == c.len() ==> poly_sum::<F>(b, n + 1, x) == fmul::<F>(
            fadd::<F>(x, t),
            poly_sum::<F>(c, n, x),
        ),
    decreases n,
{
    let z = fadd::<F>(x, t);
    let last = if n < c.len() {
        fmul::<F>(t, c[n as int])
    } else {
        fzero::<F>()
    };
    let pn = fpow::<F>(x, n);
    let tail = fmul::<F>(last, pn);
    lemma_mul::<F>(pn, pn, pn);
    if n == 0 {
        reveal_with_fuel(poly_sum, 2);
        lemma_mul::<F>(z, z, z);
        lemma_add::<F>(last, last, last);
        lemma_add::<F>(tail, tail, tail);
        assert(b[0] == fadd::<F>(fzero::<F>(), last));
    } else {
        let m = (n - 1) as nat;
        lemma_times_linear::<F>(c, b, t, m, x);
        let s = poly_sum::<F>(c, m, x);
        let a = c[m as int];
        let pm = fpow::<F>(x, m);
        assert(pn == fmul::<F>(pm, x));
        assert(b[n as int] == fadd::<F>(a, last));
        // z (s + a pm) == z s + (t a) pm + a pn
        let u = fmul::<F>(z, s);
        let v = fmul::<F>(fmul::<F>(t, a), pm);
        let w = fmul::<F>(a, pn);
        lemma_mul::<F>(z, s, fmul::<F>(a, pm));
        let ap = fmul::<F>(a, pm);
        lemma_mul::<F>(ap, x, t);
        lemma_mul::<F>(a, pm, x);
        lemma_mul::<F>(t, a, pm);
        lemma_mul::<F>(z, ap, ap);
        lemma_mul::<F>(ap, t, t);
        assert(fmul::<F>(z, ap) == fadd::<F>(w, v));
        lemma_add::<F>(w, v, v);
        // b_n pn == a pn + last pn
        lemma_mul::<F>(pn, a, last);
        lemma_mul::<F>(a, pn, pn);
        lemma_mul::<F>(last, pn, pn);
        lemma_mul::<F>(fadd::<F>(a, last), pn, pn);
        // (u + v) + (w + tail) == (u + (w + v)) + tail
        lemma_add::<F>(u, v, fadd::<F>(w, tail));
        lemma_add::<F>(v, w, tail);
        lemma_add::<F>(u, fadd::<F>(v, w), tail);
        let total = fadd::<F>(u, fadd::<F>(w, v));
        lemma_add::<F>(total, total, total);
    }
}

proof fn lemma_locator_value<F: BinaryField>(p: Seq<F::Elem>, k: nat, x: F::Elem)
    ensures
        locator_coefficients::<F>(p, k).len() == k + 1,
        poly_value::<F>(locator_coefficients::<F>(p, k), x) == locator::<F>(p, k, x),
    decreases k,
{
    let b = locator_coefficients::<F>(p, k);
    if k == 0 {
        reveal_with_fuel(poly_sum, 2);
        reveal_with_fuel(fpow, 1);
        lemma_mul::<F>(fone::<F>(), fone::<F>(), fone::<F>());
        lemma_add::<F>(fone::<F>(), fone::<F>(), fone::<F>());
    } else {
        let m = (k - 1) as nat;
        let c = locator_coefficients::<F>(p, m);
        lemma_locator_value::<F>(p, m, x);
        lemma_times_linear::<F>(c, b, p[k - 1], c.len(), x);
        let (s, z) = (poly_value::<F>(c, x), fadd::<F>(x, p[k - 1]));
        lemma_mul::<F>(z, s, s);
    }
}

/// The sum of two polynomials.
proof fn lemma_poly_add<F: BinaryField>(
    a: Seq<F::Elem>,
    b: Seq<F::Elem>,
    s: Seq<F::Elem>,
    n: nat,
    x: F::Elem,
)
    requires
        forall|i: int| 0 <= i < n ==> #[trigger] s[i] == fadd::<F>(a[i], b[i]),
    ensures
        poly_sum::<F>(s, n, x) == fadd::<F>(poly_sum::<F>(a, n, x), poly_sum::<F>(b, n, x)),
    decreases n,
{
    if n == 0 {
        lemma_add::<F>(fzero::<F>(), fzero::<F>(), fzero::<F>());
    } else {
        let m = (n - 1) as nat;
        lemma_poly_add::<F>(a, b, s, m, x);
        let q = fpow::<F>(x, m);
        assert(s[n - 1] == fadd::<F>(a[n - 1], b[n - 1]));
        lemma_mul::<F>(q, a[n - 1], b[n - 1]);
        lemma_mul::<F>(a[n - 1], q, q);
        lemma_mul::<F>(b[n - 1], q, q);
        lemma_mul::<F>(s[n - 1], q, q);
        lemma_add_pairs::<F>(
            poly_sum::<F>(a, m, x),
            poly_sum::<F>(b, m, x),
            fmul::<F>(a[n - 1], q),
            fmul::<F>(b[n - 1], q),
        );
    }
}

/// The derivative of the locator, and its value at one more point.
proof fn lemma_locator_derivative_step<F: BinaryField>(p: Seq<F::Elem>, k: nat, x: F::Elem)
    requires
        k > 0,
    ensures
        poly_value::<F>(formal_derivative::<F>(locator_coefficients::<F>(p, k)), x) == fadd::<F>(
            fmul::<F>(
                fadd::<F>(x, p[k - 1]),
                poly_value::<F>(
                    formal_derivative::<F>(locator_coefficients::<F>(p, (k - 1) as nat)),
                    x,
                ),
            ),
            locator::<F>(p, (k - 1) as nat, x),
        ),
{
    let m = (k - 1) as nat;
    let t = p[k - 1];
    let c = locator_coefficients::<F>(p, m);
    let b = locator_coefficients::<F>(p, k);
    lemma_locator_value::<F>(p, m, x);
    lemma_locator_value::<F>(p, k, x);
    let dc = formal_derivative::<F>(c);
    let db = formal_derivative::<F>(b);
    let scaled = Seq::new(
        k + 1,
        |i: int|
            fadd::<F>(
                if i > 0 {
                    dc[i - 1]
                } else {
                    fzero::<F>()
                },
                if i < k {
                    fmul::<F>(t, dc[i])
                } else {
                    fzero::<F>()
                },
            ),
    );
    lemma_times_linear::<F>(dc, scaled, t, k, x);
    let padded = c.push(fzero::<F>());
    lemma_poly_same::<F>(padded, c, k, x);
    lemma_poly_gap::<F>(padded, k, k + 1, x);
    assert forall|i: int| 0 <= i < k + 1 implies #[trigger] db[i] == fadd::<F>(
        scaled[i],
        padded[i],
    ) by {
        let z = fzero::<F>();
        lemma_mul::<F>(t, t, t);
        lemma_add::<F>(z, z, z);
        if i == k {
            if i % 2 == 1 {
                assert(dc[i - 1] == z);
            } else {
                assert(dc[i - 1] == z);
            }
        } else {
            let ci = c[i];
            lemma_add::<F>(ci, ci, ci);
            if i % 2 == 0 {
                assert(b[i + 1] == fadd::<F>(
                    ci,
                    if i + 1 < k {
                        fmul::<F>(t, c[i + 1])
                    } else {
                        z
                    },
                ));
                if i > 0 {
                    assert(dc[i - 1] == z);
                }
                let u = fmul::<F>(t, dc[i]);
                lemma_add::<F>(u, ci, ci);
                lemma_add::<F>(ci, u, u);
            } else {
                assert(dc[i - 1] == ci);
                assert(dc[i] == z);
            }
        }
    }
    lemma_poly_add::<F>(scaled, padded, db, k + 1, x);
}

/// The slope of the locator at a point is the value there of its formal
/// derivative.
pub proof fn law_locator_slope_is_the_derivative<F: BinaryField>(
    p: Seq<F::Elem>,
    k: nat,
    d: int,
)
    requires
        0 <= d < k,
    ensures
        poly_value::<F>(formal_derivative::<F>(locator_coefficients::<F>(p, k)), p[d])
            == locator_slope::<F>(p, k, d),
    decreases k,
{
    let m = (k - 1) as nat;
    let x = p[d];
    lemma_locator_derivative_step::<F>(p, k, x);
    let w = poly_value::<F>(formal_derivative::<F>(locator_coefficients::<F>(p, m)), x);
    let y = fadd::<F>(x, p[k - 1]);
    let l = locator::<F>(p, m, x);
    lemma_mul::<F>(y, w, w);
    lemma_mul::<F>(w, w, w);
    if d == m {
        lemma_add::<F>(x, x, x);
        lemma_add::<F>(l, l, l);
        lemma_slope_is_locator::<F>(p, m, d);
    } else {
        law_locator_slope_is_the_derivative::<F>(p, m, d);
        lemma_locator_zero::<F>(p, m, x);
        assert(!outside::<F>(p, m, x));
        let v = fmul::<F>(y, w);
        lemma_add::<F>(v, v, v);
    }
}

/// The weight of a point when one more point comes in.
proof fn lemma_weight_step<F: BinaryField>(p: Seq<F::Elem>, k: nat, d: int, x: F::Elem)
    requires
        0 <= d < k,
        distinct::<F>(p, k + 1),
        outside::<F>(p, k + 1, x),
    ensures
        ({
            let t = p[k as int];
            fmul::<F>(weight::<F>(p, k + 1, d, x), fadd::<F>(p[d], t)) == fmul::<F>(
                fadd::<F>(x, t),
                weight::<F>(p, k, d, x),
            )
        }),
{
    let t = p[k as int];
    let (l, z) = (locator::<F>(p, k, x), fadd::<F>(x, t));
    let (s, y) = (locator_slope::<F>(p, k, d), fadd::<F>(p[d], t));
    let g = fadd::<F>(x, p[d]);
    assert(p[d] != x && p[d] != t);
    lemma_difference::<F>(x, p[d]);
    lemma_difference::<F>(p[d], t);
    lemma_slope_nonzero::<F>(p, k, k + 1, d);
    lemma_nonzero::<F>(g, s);
    let gs = fmul::<F>(g, s);
    lemma_nonzero::<F>(s, y);
    lemma_nonzero::<F>(gs, y);
    let n = fmul::<F>(g, fmul::<F>(s, y));
    lemma_mul::<F>(g, s, y);
    assert(n == fmul::<F>(gs, y));
    lemma_finv::<F>(n, n);
    // y / n == 1 / gs
    let i = fmul::<F>(finv::<F>(n), y);
    lemma_mul::<F>(gs, y, finv::<F>(n));
    lemma_mul::<F>(y, finv::<F>(n), finv::<F>(n));
    lemma_mul::<F>(gs, finv::<F>(n), y);
    assert(fmul::<F>(gs, i) == fone::<F>());
    lemma_finv::<F>(gs, i);
    // ((l z) / n) y == (l z) i == z (l i)
    let lz = fmul::<F>(l, z);
    lemma_mul::<F>(lz, finv::<F>(n), y);
    lemma_mul::<F>(z, l, i);
    lemma_mul::<F>(l, z, z);
}

/// A sum of weights times values that are given by a quotient.
proof fn lemma_weights_times_quotient<F: BinaryField>(
    p: Seq<F::Elem>,
    k: nat,
    q: Seq<F::Elem>,
    g: spec_fn(int) -> F::Elem,
    x: F::Elem,
)
    requires
        distinct::<F>(p, k + 1),
        outside::<F>(p, k + 1, x),
        q.len() <= k,
        forall|d: int|
            0 <= d < k ==> #[trigger] g(d) == fmul::<F>(
                fadd::<F>(p[d], p[k as int]),
                poly_value::<F>(q, p[d]),
            ),
    ensures
        fmul::<F>(fadd::<F>(x, p[k as int]), poly_value::<F>(q, x)) == rsum::<F>(
            |d: int| fmul::<F>(weight::<F>(p, k + 1, d, x), g(d)),
            k,
        ),
    decreases k, 3nat,
{
    let t = p[k as int];
    let z = fadd::<F>(x, t);
    assert(distinct::<F>(p, k));
    assert(outside::<F>(p, k, x));
    law_generator_rows_interpolate::<F>(p, k, q, x);
    let f = |d: int| fmul::<F>(weight::<F>(p, k, d, x), poly_value::<F>(q, p[d]));
    let h = |d: int| fmul::<F>(weight::<F>(p, k + 1, d, x), g(d));
    assert forall|d: int| 0 <= d < k implies #[trigger] h(d) == fmul::<F>(z, f(d)) by {
        lemma_weight_step::<F>(p, k, d, x);
        let w = weight::<F>(p, k + 1, d, x);
        let y = fadd::<F>(p[d], t);
        let v = poly_value::<F>(q, p[d]);
        assert(g(d) == fmul::<F>(y, v));
        lemma_mul::<F>(w, y, v);
        lemma_mul::<F>(z, weight::<F>(p, k, d, x), v);
    }
    lemma_sum_scale::<F>(f, z, h, k);
}

/// The weights of the points before the last add up to one plus the weight of
/// the last.
proof fn lemma_weights_sum<F: BinaryField>(p: Seq<F::Elem>, k: nat, x: F::Elem)
    requires
        distinct::<F>(p, k + 1),
        outside::<F>(p, k + 1, x),
    ensures
        rsum::<F>(|d: int| weight::<F>(p, k + 1, d, x), k) == fadd::<F>(
            fone::<F>(),
            weight::<F>(p, k + 1, k as int, x),
        ),
    decreases k, 4nat,
{
    let t = p[k as int];
    let z = fadd::<F>(x, t);
    let c = locator_coefficients::<F>(p, k);
    lemma_locator_value::<F>(p, k, x);
    lemma_locator_value::<F>(p, k, t);
    law_division::<F>(c, t, x);
    let q = quotient::<F>(c, t);
    let lt = locator::<F>(p, k, t);
    let lx = locator::<F>(p, k, x);
    let g = |d: int| lt;
    assert forall|d: int| 0 <= d < k implies #[trigger] g(d) == fmul::<F>(
        fadd::<F>(p[d], t),
        poly_value::<F>(q, p[d]),
    ) by {
        law_division::<F>(c, t, p[d]);
        lemma_locator_value::<F>(p, k, p[d]);
        lemma_locator_zero::<F>(p, k, p[d]);
        assert(!outside::<F>(p, k, p[d]));
        let m = fmul::<F>(fadd::<F>(p[d], t), poly_value::<F>(q, p[d]));
        lemma_add::<F>(lt, m, m);
    }
    lemma_weights_times_quotient::<F>(p, k, q, g, x);
    // lx + lt == lt * sum
    let f = |d: int| weight::<F>(p, k + 1, d, x);
    let h = |d: int| fmul::<F>(weight::<F>(p, k + 1, d, x), g(d));
    assert forall|d: int| 0 <= d < k implies #[trigger] h(d) == fmul::<F>(lt, f(d)) by {
        lemma_mul::<F>(f(d), lt, lt);
    }
    lemma_sum_scale::<F>(f, lt, h, k);
    let sum = rsum::<F>(f, k);
    let zq = fmul::<F>(z, poly_value::<F>(q, x));
    assert(lx == fadd::<F>(lt, zq));
    assert(zq == fmul::<F>(lt, sum));
    lemma_locator_zero::<F>(p, k, t);
    assert(outside::<F>(p, k, t));
    assert(lt != fzero::<F>());
    let i = finv::<F>(lt);
    lemma_finv::<F>(lt, lt);
    // sum == (lx + lt) / lt == lx / lt + 1
    lemma_mul::<F>(i, lt, sum);
    lemma_mul::<F>(lt, i, i);
    lemma_mul::<F>(sum, sum, sum);
    assert(sum == fmul::<F>(i, zq));
    lemma_cancel::<F>(lt, zq);
    lemma_add::<F>(lt, zq, zq);
    lemma_add::<F>(zq, lt, lt);
    assert(zq == fadd::<F>(lt, lx)) by {
        lemma_add::<F>(lt, lt, zq);
        lemma_add::<F>(zq, zq, zq);
    }
    lemma_mul::<F>(i, lt, lx);
    assert(sum == fadd::<F>(fone::<F>(), fmul::<F>(i, lx)));
    // the last weight is lx / lt
    lemma_slope_is_locator::<F>(p, k, k as int);
    assert(p[k as int] != x);
    lemma_difference::<F>(x, t);
    lemma_nonzero::<F>(z, lt);
    let zl = fmul::<F>(z, lt);
    lemma_finv::<F>(zl, zl);
    // z / (z lt) == 1 / lt
    let j = fmul::<F>(z, finv::<F>(zl));
    lemma_mul::<F>(lt, z, finv::<F>(zl));
    lemma_mul::<F>(lt, z, z);
    assert(fmul::<F>(lt, j) == fone::<F>());
    lemma_finv::<F>(lt, j);
    lemma_mul::<F>(lx, z, finv::<F>(zl));
    lemma_mul::<F>(lx, i, i);
    assert(weight::<F>(p, k + 1, k as int, x) == fmul::<F>(lx, i));
}

/// The value of a polynomial of degree below `k` at any further point is the
/// combination of its values at `k` distinct points.
pub proof fn law_generator_rows_interpolate<F: BinaryField>(
    p: Seq<F::Elem>,
    k: nat,
    c: Seq<F::Elem>,
    x: F::Elem,
)
    requires
        distinct::<F>(p, k),
        outside::<F>(p, k, x),
        c.len() <= k,
    ensures
        combined::<F>(p, k, c, x) == poly_value::<F>(c, x),
    decreases k, 2nat,
{
    if k == 0 {
        assert(combined::<F>(p, k, c, x) == fzero::<F>());
    } else if c.len() == 0 {
        let f = |d: int| fmul::<F>(weight::<F>(p, k, d, x), poly_value::<F>(c, p[d]));
        assert forall|d: int| 0 <= d < k implies #[trigger] f(d) == fzero::<F>() by {
            lemma_mul::<F>(weight::<F>(p, k, d, x), fzero::<F>(), fzero::<F>());
        }
        lemma_sum_zero::<F>(f, k);
    } else {
        let m = (k - 1) as nat;
        let t = p[m as int];
        let z = fadd::<F>(x, t);
        law_division::<F>(c, t, x);
        let q = quotient::<F>(c, t);
        let ct = poly_value::<F>(c, t);
        let g = |d: int| fadd::<F>(poly_value::<F>(c, p[d]), ct);
        assert forall|d: int| 0 <= d < m implies #[trigger] g(d) == fmul::<F>(
            fadd::<F>(p[d], t),
            poly_value::<F>(q, p[d]),
        ) by {
            law_division::<F>(c, t, p[d]);
            let v = fmul::<F>(fadd::<F>(p[d], t), poly_value::<F>(q, p[d]));
            lemma_add::<F>(ct, v, ct);
            lemma_add::<F>(v, ct, ct);
            lemma_add::<F>(v, v, v);
            lemma_add::<F>(ct, ct, ct);
        }
        lemma_weights_times_quotient::<F>(p, m, q, g, x);
        lemma_weights_sum::<F>(p, m, x);
        let w = |d: int| weight::<F>(p, k, d, x);
        let a = |d: int| fmul::<F>(weight::<F>(p, k, d, x), poly_value::<F>(c, p[d]));
        let b = |d: int| fmul::<F>(ct, w(d));
        let h = |d: int| fmul::<F>(weight::<F>(p, m + 1, d, x), g(d));
        assert forall|d: int| 0 <= d < m implies #[trigger] h(d) == fadd::<F>(a(d), b(d)) by {
            lemma_mul::<F>(w(d), poly_value::<F>(c, p[d]), ct);
            lemma_mul::<F>(ct, w(d), ct);
        }
        lemma_sum_add::<F>(a, b, h, m);
        lemma_sum_scale::<F>(w, ct, b, m);
        let sa = rsum::<F>(a, m);
        let wl = weight::<F>(p, k, m as int, x);
        let sw = fadd::<F>(fone::<F>(), wl);
        assert(rsum::<F>(w, m) == sw) by {
            let w2 = |d: int| weight::<F>(p, m + 1, d, x);
            lemma_sum_same::<F>(w, w2, m);
        }
        let zq = fmul::<F>(z, poly_value::<F>(q, x));
        assert(zq == fadd::<F>(sa, fmul::<F>(ct, sw)));
        // ct + zq == sa + wl ct
        lemma_mul::<F>(ct, fone::<F>(), wl);
        let cw = fmul::<F>(ct, wl);
        assert(fmul::<F>(ct, sw) == fadd::<F>(ct, cw));
        lemma_add::<F>(sa, ct, cw);
        lemma_add::<F>(ct, sa, fadd::<F>(ct, cw));
        lemma_add::<F>(sa, ct, fadd::<F>(ct, cw));
        lemma_add::<F>(ct, ct, cw);
        lemma_add::<F>(cw, cw, cw);
        lemma_mul::<F>(wl, ct, ct);
        lemma_add::<F>(fadd::<F>(ct, cw), ct, ct);
        assert(fadd::<F>(ct, zq) == fadd::<F>(sa, cw));
        assert(rsum::<F>(a, k) == fadd::<F>(sa, a(k - 1)));
        assert(combined::<F>(p, k, c, x) == rsum::<F>(a, k));
    }
}

/// The coefficients that express the value at `point` as a combination of the
/// values at the first `row.len()` points of a plan, from the values of the
/// systematic locator over the domain and its derivatives at those points.
pub fn generator_row<F: ButterflyKernels>(
    plan: &TransformPlan<F>,
    values: &[F::Elem],
    derivatives: &[F::Elem],
    point: usize,
    row: &mut [F::Elem],
)
    requires
        plan.wf(),
        values@.len() == span(plan.dim()),
        point < span(plan.dim()),
        old(row)@.len() <= point,
        old(row)@.len() <= derivatives@.len(),
    ensures
        final(row)@.len() == old(row)@.len(),
        forall|d: int|
            0 <= d < final(row)@.len() ==> #[trigger] final(row)@[d] == coefficient_at::<F>(
                values@[point as int],
                fadd::<F>(plan.point(point as int), plan.point(d)),
                derivatives@[d],
            ),
{
    let at = plan.point_element(point);
    let numerator = values[point];
    let count: usize = row.len();
    let mut d: usize = 0;
    while d < count
        invariant
            d <= count,
            plan.wf(),
            point < span(plan.dim()),
            count <= point,
            count <= derivatives@.len(),
            row@.len() == count,
            at == plan.label(point as int),
            numerator == values@[point as int],
            forall|i: int|
                0 <= i < d ==> #[trigger] row@[i] == coefficient_at::<F>(
                    numerator,
                    fadd::<F>(plan.point(point as int), plan.point(i)),
                    derivatives@[i],
                ),
        decreases count - d,
    {
        let difference = plus::<F>(at, plan.point_element(d));
        proof {
            plan.law_labels_keep_differences(point as int, d as int);
        }
        let denominator = times::<F>(difference, derivatives[d]);
        row[d] = times::<F>(numerator, inverse::<F>(denominator));
        d = d + 1;
    }
}

/// The rule that fixes polynomial values: the empty polynomial is zero, and the value
/// of `a + x f` at `x` is `a` plus `x` times the value of `f`.
pub proof fn law_polynomial_values<F: BinaryField>(a: F::Elem, f: Seq<F::Elem>, x: F::Elem)
    ensures
        poly_value::<F>(Seq::<F::Elem>::empty(), x) == fzero::<F>(),
        poly_value::<F>(seq![a] + f, x) == fadd::<F>(a, fmul::<F>(x, poly_value::<F>(f, x))),
{
    let c = seq![a] + f;
    lemma_poly_first::<F>(c, c.len(), x);
    assert(c.drop_first() =~= f);
}

/// The rule that fixes locators: none has value one, and a further point `p` is a
/// factor `x + p`; the slope at a point is the locator of the others there.
pub proof fn law_locators<F: BinaryField>(p: Seq<F::Elem>, k: nat, x: F::Elem, d: int)
    requires
        0 <= d,
    ensures
        locator::<F>(p, 0, x) == fone::<F>(),
        locator::<F>(p, k + 1, x) == fmul::<F>(
            locator::<F>(p, k, x),
            fadd::<F>(x, p[k as int]),
        ),
        d >= k ==> locator_slope::<F>(p, k, d) == locator::<F>(p, k, p[d]),
        d != k ==> locator_slope::<F>(p, k + 1, d) == fmul::<F>(
            locator_slope::<F>(p, k, d),
            fadd::<F>(p[d], p[k as int]),
        ),
        d == k ==> locator_slope::<F>(p, k + 1, d) == locator_slope::<F>(p, k, d),
{
    if d >= k {
        lemma_slope_is_locator::<F>(p, k, d);
    }
}

/// A coefficient times what it was divided by gives back the value of the locator.
pub proof fn law_returned_coefficients<F: BinaryField>(
    value: F::Elem,
    difference: F::Elem,
    derivative: F::Elem,
)
    requires
        difference != fzero::<F>(),
        derivative != fzero::<F>(),
    ensures
        fmul::<F>(
            coefficient_at::<F>(value, difference, derivative),
            fmul::<F>(difference, derivative),
        ) == value,
{
    let n = fmul::<F>(difference, derivative);
    lemma_nonzero::<F>(difference, derivative);
    lemma_finv::<F>(n, n);
    lemma_mul::<F>(value, finv::<F>(n), n);
    lemma_mul::<F>(n, finv::<F>(n), n);
    lemma_mul::<F>(value, value, value);
}

} // verus!
