//! The Frobenius map: every element of the field is its own `2^width`-th power.

use vstd::prelude::*;
use vstd::set_lib::{lemma_int_range, lemma_len_subset, lemma_map_size_bound, set_int_range};

use crate::basis::artin;
use crate::field::tower::mask;
use crate::field::{
    fadd, finv, fmul, fone, fzero, lemma_add, lemma_finv, lemma_mul, lemma_nonzero,
    lemma_one_not_zero, lemma_raw_add, BinaryField,
};
use crate::poly::{fpow, lemma_pow_square};
use crate::span::{lemma_span_monotone, span};
use crate::subspace::{combine, fsq, lemma_square_sum, spans};
use crate::transform::plan::lemma_width_span;

verus! {

/// The product of `f(0), ..., f(n - 1)`.
pub open spec fn product<F: BinaryField>(f: spec_fn(int) -> F::Elem, n: nat) -> F::Elem
    decreases n,
{
    if n == 0 {
        fone::<F>()
    } else {
        fmul::<F>(product::<F>(f, (n - 1) as nat), f(n - 1))
    }
}

proof fn lemma_product_same<F: BinaryField>(
    f: spec_fn(int) -> F::Elem,
    g: spec_fn(int) -> F::Elem,
    n: nat,
)
    requires
        forall|i: int| 0 <= i < n ==> #[trigger] f(i) == g(i),
    ensures
        product::<F>(f, n) == product::<F>(g, n),
    decreases n,
{
    if n > 0 {
        lemma_product_same::<F>(f, g, (n - 1) as nat);
        assert(f(n - 1) == g(n - 1));
    }
}

proof fn lemma_product_nonzero<F: BinaryField>(f: spec_fn(int) -> F::Elem, n: nat)
    requires
        forall|i: int| 0 <= i < n ==> #[trigger] f(i) != fzero::<F>(),
    ensures
        product::<F>(f, n) != fzero::<F>(),
    decreases n,
{
    lemma_one_not_zero::<F>();
    if n > 0 {
        lemma_product_nonzero::<F>(f, (n - 1) as nat);
        assert(f(n - 1) != fzero::<F>());
        lemma_nonzero::<F>(product::<F>(f, (n - 1) as nat), f(n - 1));
    }
}

/// A common factor comes out as a power.
proof fn lemma_product_scale<F: BinaryField>(
    f: spec_fn(int) -> F::Elem,
    g: spec_fn(int) -> F::Elem,
    a: F::Elem,
    n: nat,
)
    requires
        forall|i: int| 0 <= i < n ==> #[trigger] g(i) == fmul::<F>(a, f(i)),
    ensures
        product::<F>(g, n) == fmul::<F>(fpow::<F>(a, n), product::<F>(f, n)),
    decreases n,
{
    if n == 0 {
        lemma_mul::<F>(fone::<F>(), fone::<F>(), fone::<F>());
    } else {
        let m = (n - 1) as nat;
        lemma_product_scale::<F>(f, g, a, m);
        assert(g(n - 1) == fmul::<F>(a, f(n - 1)));
        let (p, q, x) = (fpow::<F>(a, m), product::<F>(f, m), f(n - 1));
        // (p q) (a x) == (p a) (q x)
        lemma_mul::<F>(p, q, fmul::<F>(a, x));
        lemma_mul::<F>(q, a, x);
        lemma_mul::<F>(a, q, x);
        lemma_mul::<F>(p, a, fmul::<F>(q, x));
    }
}

/// Two products that differ in one factor.
proof fn lemma_product_replace<F: BinaryField>(
    f: spec_fn(int) -> F::Elem,
    g: spec_fn(int) -> F::Elem,
    n: nat,
    j: int,
)
    requires
        0 <= j < n,
        forall|i: int| 0 <= i < n && i != j ==> #[trigger] f(i) == g(i),
    ensures
        fmul::<F>(product::<F>(f, n), g(j)) == fmul::<F>(product::<F>(g, n), f(j)),
    decreases n,
{
    let m = (n - 1) as nat;
    let (p, q) = (product::<F>(f, m), product::<F>(g, m));
    if j == m {
        lemma_product_same::<F>(f, g, m);
        lemma_mul::<F>(p, f(j), g(j));
        lemma_mul::<F>(p, g(j), f(j));
        lemma_mul::<F>(f(j), g(j), p);
    } else {
        lemma_product_replace::<F>(f, g, m, j);
        let x = f(n - 1);
        assert(x == g(n - 1));
        // (p x) g == (p g) x == (q f) x == (q x) f
        lemma_mul::<F>(p, x, g(j));
        lemma_mul::<F>(x, g(j), p);
        lemma_mul::<F>(p, g(j), x);
        lemma_mul::<F>(q, x, f(j));
        lemma_mul::<F>(x, f(j), q);
        lemma_mul::<F>(q, f(j), x);
    }
}

/// A product does not depend on the order of its factors: `p` and `q` are
/// permutations of the indices that undo each other.
proof fn lemma_product_permuted<F: BinaryField>(
    f: spec_fn(int) -> F::Elem,
    p: spec_fn(int) -> int,
    q: spec_fn(int) -> int,
    n: nat,
)
    requires
        forall|i: int| 0 <= i < n ==> 0 <= #[trigger] p(i) < n && q(p(i)) == i,
        forall|i: int| 0 <= i < n ==> 0 <= #[trigger] q(i) < n && p(q(i)) == i,
    ensures
        product::<F>(|i: int| f(p(i)), n) == product::<F>(f, n),
    decreases n,
{
    let g = |i: int| f(p(i));
    if n > 0 {
        let m = (n - 1) as nat;
        let last = n - 1;
        if p(last) == last {
            assert forall|i: int| 0 <= i < m implies 0 <= #[trigger] p(i) < m && q(p(i)) == i by {
                assert(q(p(i)) == i);
            }
            assert forall|i: int| 0 <= i < m implies 0 <= #[trigger] q(i) < m && p(q(i)) == i by {
                assert(p(q(i)) == i);
            }
            lemma_product_permuted::<F>(f, p, q, m);
        } else {
            let j = q(last);
            let k = p(last);
            assert(p(j) == last);
            assert(q(k) == last);
            let p2 = |i: int| if i == j {
                k
            } else {
                p(i)
            };
            let q2 = |i: int| if i == k {
                j
            } else {
                q(i)
            };
            assert forall|i: int| 0 <= i < m implies 0 <= #[trigger] p2(i) < m && q2(p2(i))
                == i by {
                assert(q(p(i)) == i);
            }
            assert forall|i: int| 0 <= i < m implies 0 <= #[trigger] q2(i) < m && p2(q2(i))
                == i by {
                assert(p(q(i)) == i);
            }
            lemma_product_permuted::<F>(f, p2, q2, m);
            let h = |i: int| f(p2(i));
            lemma_product_replace::<F>(g, h, m, j);
            assert(g(j) == f(last));
            assert(h(j) == f(k));
            assert(g(last) == f(k));
        }
    }
}

/// The element with index `i` among the nonzero ones.
spec fn nonzero_at<F: BinaryField>(i: int) -> F::Elem {
    F::of_raw((i + 1) as u64)
}

/// Every nonzero element raised to the number of nonzero elements is one, and
/// every element raised to the number of elements is itself.
pub proof fn law_field_order<F: BinaryField>(a: F::Elem)
    ensures
        a != fzero::<F>() ==> fpow::<F>(a, mask(F::width()) as nat) == fone::<F>(),
        fpow::<F>(a, (mask(F::width()) + 1) as nat) == a,
{
    let n = mask(F::width()) as nat;
    F::lemma_width();
    if a != fzero::<F>() {
        let b = finv::<F>(a);
        lemma_finv::<F>(a, a);
        let e = |i: int| nonzero_at::<F>(i);
        let p = |i: int| F::raw(fmul::<F>(a, nonzero_at::<F>(i))) - 1;
        let q = |i: int| F::raw(fmul::<F>(b, nonzero_at::<F>(i))) - 1;
        assert forall|i: int| 0 <= i < n implies #[trigger] e(i) != fzero::<F>() by {
            lemma_index_nonzero::<F>(i);
        }
        assert forall|i: int| 0 <= i < n implies 0 <= #[trigger] p(i) < n && q(p(i)) == i && e(
            p(i),
        ) == fmul::<F>(a, e(i)) by {
            lemma_index_moves::<F>(a, b, i);
        }
        lemma_mul::<F>(a, b, b);
        assert forall|i: int| 0 <= i < n implies 0 <= #[trigger] q(i) < n && p(q(i)) == i by {
            lemma_index_moves::<F>(b, a, i);
        }
        lemma_product_permuted::<F>(e, p, q, n);
        let moved = |i: int| e(p(i));
        assert forall|i: int| 0 <= i < n implies #[trigger] moved(i) == fmul::<F>(a, e(i)) by {
            assert(0 <= p(i) < n);
        }
        lemma_product_scale::<F>(e, moved, a, n);
        let whole = product::<F>(e, n);
        lemma_product_nonzero::<F>(e, n);
        let power = fpow::<F>(a, n);
        // power * whole == whole
        let i = finv::<F>(whole);
        lemma_finv::<F>(whole, whole);
        lemma_mul::<F>(power, whole, i);
        lemma_mul::<F>(power, power, power);
        assert(power == fone::<F>());
        lemma_mul::<F>(a, a, a);
    } else {
        lemma_mul::<F>(fpow::<F>(a, n), a, a);
    }
}

proof fn lemma_index_nonzero<F: BinaryField>(i: int)
    requires
        0 <= i < mask(F::width()),
    ensures
        nonzero_at::<F>(i) != fzero::<F>(),
        F::raw(nonzero_at::<F>(i)) == i + 1,
{
    F::lemma_raw(nonzero_at::<F>(i), (i + 1) as u64);
    lemma_raw_add::<F>(fzero::<F>(), fzero::<F>());
}

/// Multiplication by `a` moves the nonzero elements about, and multiplication
/// by its inverse moves them back.
proof fn lemma_index_moves<F: BinaryField>(a: F::Elem, b: F::Elem, i: int)
    requires
        0 <= i < mask(F::width()),
        fmul::<F>(a, b) == fone::<F>(),
    ensures
        ({
            let x = fmul::<F>(a, nonzero_at::<F>(i));
            let j = F::raw(x) - 1;
            &&& 0 <= j < mask(F::width())
            &&& nonzero_at::<F>(j) == x
            &&& F::raw(fmul::<F>(b, nonzero_at::<F>(j))) - 1 == i
        }),
{
    let e = nonzero_at::<F>(i);
    lemma_index_nonzero::<F>(i);
    let x = fmul::<F>(a, e);
    lemma_one_not_zero::<F>();
    lemma_mul::<F>(b, a, e);
    lemma_mul::<F>(a, b, b);
    lemma_mul::<F>(e, e, e);
    assert(fmul::<F>(b, x) == e);
    lemma_mul::<F>(b, b, b);
    assert(x != fzero::<F>());
    F::lemma_raw(x, 0);
    lemma_raw_add::<F>(fzero::<F>(), fzero::<F>());
    F::lemma_raw(fzero::<F>(), 0);
}

/// `x` squared `k` times.
pub open spec fn squared<F: BinaryField>(x: F::Elem, k: nat) -> F::Elem
    decreases k,
{
    if k == 0 {
        x
    } else {
        squared::<F>(fsq::<F>(x), (k - 1) as nat)
    }
}

/// `x^2 + x`, applied `k` times.
pub open spec fn artin_iterate<F: BinaryField>(x: F::Elem, k: nat) -> F::Elem
    decreases k,
{
    if k == 0 {
        x
    } else {
        artin_iterate::<F>(artin::<F>(x), (k - 1) as nat)
    }
}

proof fn lemma_squared_power<F: BinaryField>(x: F::Elem, k: nat)
    ensures
        squared::<F>(x, k) == fpow::<F>(x, span(k)),
    decreases k,
{
    if k == 0 {
        reveal_with_fuel(fpow, 2);
        lemma_mul::<F>(x, x, x);
        assert(span(0) == 1);
    } else {
        lemma_squared_power::<F>(fsq::<F>(x), (k - 1) as nat);
        lemma_pow_square::<F>(x, span((k - 1) as nat));
    }
}

proof fn lemma_squared_additive<F: BinaryField>(x: F::Elem, y: F::Elem, k: nat)
    ensures
        squared::<F>(fadd::<F>(x, y), k) == fadd::<F>(squared::<F>(x, k), squared::<F>(y, k)),
    decreases k,
{
    if k > 0 {
        lemma_square_sum::<F>(x, y);
        lemma_squared_additive::<F>(fsq::<F>(x), fsq::<F>(y), (k - 1) as nat);
    }
}

proof fn lemma_squared_compose<F: BinaryField>(x: F::Elem, a: nat, b: nat)
    ensures
        squared::<F>(x, a + b) == squared::<F>(squared::<F>(x, a), b),
    decreases a,
{
    if a > 0 {
        lemma_squared_compose::<F>(fsq::<F>(x), (a - 1) as nat, b);
        assert((a + b - 1) as nat == (a - 1) as nat + b);
    }
}

proof fn lemma_artin_compose<F: BinaryField>(x: F::Elem, a: nat, b: nat)
    ensures
        artin_iterate::<F>(x, a + b) == artin_iterate::<F>(artin_iterate::<F>(x, a), b),
    decreases a,
{
    if a > 0 {
        lemma_artin_compose::<F>(artin::<F>(x), (a - 1) as nat, b);
        assert((a + b - 1) as nat == (a - 1) as nat + b);
    }
}

/// `x^2 + x` applied `2^k` times is `x` squared `2^k` times, plus `x`.
pub proof fn law_artin_doubles<F: BinaryField>(x: F::Elem, k: nat)
    ensures
        artin_iterate::<F>(x, span(k)) == fadd::<F>(squared::<F>(x, span(k)), x),
    decreases k,
{
    if k == 0 {
        reveal_with_fuel(artin_iterate, 2);
        reveal_with_fuel(squared, 2);
        assert(span(0) == 1);
    } else {
        let h = span((k - 1) as nat);
        law_artin_doubles::<F>(x, (k - 1) as nat);
        let s = squared::<F>(x, h);
        let y = fadd::<F>(s, x);
        law_artin_doubles::<F>(y, (k - 1) as nat);
        lemma_artin_compose::<F>(x, h, h);
        lemma_squared_compose::<F>(x, h, h);
        lemma_squared_additive::<F>(s, x, h);
        assert(h + h == span(k));
        let t = squared::<F>(s, h);
        // (t + s) + (s + x) == t + x
        lemma_add::<F>(t, s, y);
        lemma_add::<F>(s, s, x);
        lemma_add::<F>(x, x, x);
    }
}

/// `x^2 + x` applied as many times as an element has bits gives zero.
pub proof fn law_artin_is_nilpotent<F: BinaryField>(x: F::Elem)
    ensures
        artin_iterate::<F>(x, F::width() as nat) == fzero::<F>(),
{
    let w = F::width() as nat;
    F::lemma_width();
    lemma_width_span::<F>();
    reveal_with_fuel(span, 7);
    assert(span(3) == 8 && span(4) == 16 && span(5) == 32 && span(6) == 64);
    let k: nat = if w == 8 {
        3
    } else if w == 16 {
        4
    } else if w == 32 {
        5
    } else {
        6
    };
    law_artin_doubles::<F>(x, k);
    lemma_squared_power::<F>(x, w);
    law_field_order::<F>(x);
    lemma_add::<F>(x, x, x);
}

/// Fewer elements than an element has bits do not span the field.
pub proof fn law_short_families_do_not_span<F: BinaryField>(v: Seq<F::Elem>, n: nat) -> (x: F::Elem)
    requires
        n < F::width(),
    ensures
        !spans::<F>(v, n, x),
{
    let w = F::width() as nat;
    lemma_width_span::<F>();
    lemma_span_monotone(n, w);
    lemma_span_monotone(0, n);
    if forall|x: F::Elem| #[trigger] spans::<F>(v, n, x) {
        let indices = set_int_range(0, span(n) as int);
        let f = |i: int| F::raw(combine::<F>(v, n, i)) as int;
        let image = indices.map(f);
        lemma_int_range(0, span(n) as int);
        lemma_map_size_bound(indices, image, f);
        let all = set_int_range(0, span(w) as int);
        lemma_int_range(0, span(w) as int);
        assert forall|r: int| all.contains(r) implies image.contains(r) by {
            let x = F::of_raw(r as u64);
            F::lemma_raw(x, r as u64);
            assert(spans::<F>(v, n, x));
            let i = choose|i: int|
                0 <= i < span(n) && #[trigger] combine::<F>(v, n, i) == x;
            assert(indices.contains(i) && f(i) == r);
        }
        lemma_len_subset(all, image);
    }
    choose|x: F::Elem| !(#[trigger] spans::<F>(v, n, x))
}

} // verus!
