//! Cyclic convolution: what pointwise products of transforms are.

use vstd::prelude::*;

use crate::ntt::ring::{
    all_valid, dft, dft_term, lemma_dft_term_valid, lemma_dft_valid, lemma_one_pow,
    lemma_pow_product, lemma_pow_sum, lemma_pow_valid, lemma_sum_exchange, lemma_sum_same,
    lemma_sum_scale, lemma_sum_split, lemma_sum_valid, rpow, rsum, Ring,
};

verus! {

/// The index that takes `i` to `m` around a circle of `n`.
pub open spec fn behind(n: int, m: int, i: int) -> int {
    if i <= m {
        m - i
    } else {
        m - i + n
    }
}

/// Entry `m` of the cyclic convolution: the sum of `x_i * y_j` over the pairs with
/// `i + j` congruent to `m`.
pub open spec fn convolution_at<R: Ring>(x: Seq<R::Elem>, y: Seq<R::Elem>, m: int) -> R::Elem {
    rsum::<R>(|i: int| R::rmul(x[i], y[behind(x.len() as int, m, i)]), x.len())
}

/// The cyclic convolution of two vectors of one length.
pub open spec fn convolution<R: Ring>(x: Seq<R::Elem>, y: Seq<R::Elem>) -> Seq<R::Elem> {
    Seq::new(x.len(), |m: int| convolution_at::<R>(x, y, m))
}

/// Powers of a root of unity wrap around.
proof fn lemma_wrap<R: Ring>(w: R::Elem, n: nat, k: nat, i: nat, j: nat, m: nat)
    requires
        R::valid(w),
        rpow::<R>(w, n) == R::rone(),
        i + j == m || i + j == m + n,
    ensures
        R::rmul(rpow::<R>(w, i * k), rpow::<R>(w, j * k)) == rpow::<R>(w, m * k),
{
    R::lemma_units();
    lemma_pow_sum::<R>(w, i * k, j * k);
    assert(i * k + j * k == (i + j) * k) by (nonlinear_arith);
    if i + j != m {
        assert((m + n) * k == m * k + n * k) by (nonlinear_arith);
        lemma_pow_sum::<R>(w, m * k, n * k);
        lemma_pow_product::<R>(w, n, k);
        lemma_one_pow::<R>(k);
        lemma_pow_valid::<R>(w, m * k);
        let p = rpow::<R>(w, m * k);
        R::lemma_ring(p, p, p);
    }
}

/// Transforming a vector that was turned by `i` places multiplies by `w^(i k)`.
proof fn lemma_turned<R: Ring>(
    y: Seq<R::Elem>,
    w: R::Elem,
    k: nat,
    i: int,
    turned: spec_fn(int) -> R::Elem,
)
    requires
        all_valid::<R>(y),
        R::valid(w),
        rpow::<R>(w, y.len()) == R::rone(),
        0 <= i < y.len(),
        forall|m: int|
            0 <= m < y.len() ==> #[trigger] turned(m) == R::rmul(
                y[behind(y.len() as int, m, i)],
                rpow::<R>(w, (m * k) as nat),
            ),
    ensures
        rsum::<R>(turned, y.len()) == R::rmul(rpow::<R>(w, (i * k) as nat), dft::<R>(y, w, k)),
{
    let n = y.len();
    let c = rpow::<R>(w, (i * k) as nat);
    lemma_pow_valid::<R>(w, (i * k) as nat);
    let f = |j: int| dft_term::<R>(y, w, k, j);
    let h = |j: int| R::rmul(c, f(j));
    assert forall|j: int| 0 <= j < n implies R::valid(#[trigger] f(j)) by {
        lemma_dft_term_valid::<R>(y, w, k, j);
    }
    lemma_sum_scale::<R>(f, c, h, n);
    // A turned term is a scaled term.
    assert forall|m: int| 0 <= m < n implies #[trigger] turned(m) == h(
        behind(n as int, m, i),
    ) && R::valid(turned(m)) by {
        let j = behind(n as int, m, i);
        let p = rpow::<R>(w, (j * k) as nat);
        lemma_wrap::<R>(w, n, k, i as nat, j as nat, m as nat);
        lemma_pow_valid::<R>(w, (j * k) as nat);
        lemma_pow_valid::<R>(w, (m * k) as nat);
        assert(R::valid(y[j]));
        R::lemma_ring(c, y[j], p);
        R::lemma_ring(y[j], c, p);
        R::lemma_ring(y[j], rpow::<R>(w, (m * k) as nat), p);
    }
    assert forall|j: int| 0 <= j < n implies R::valid(#[trigger] h(j)) by {
        R::lemma_ring(c, f(j), c);
    }
    let start = i as nat;
    let rest = (n - i) as nat;
    let tail = |j: int| turned(start + j);
    let wrapped = |m: int| h(rest + m);
    lemma_sum_split::<R>(turned, tail, start, rest);
    lemma_sum_split::<R>(h, wrapped, rest, start);
    assert forall|j: int| 0 <= j < rest implies #[trigger] tail(j) == h(j) by {
        assert(turned(start + j) == h(behind(n as int, start + j, i)));
    }
    lemma_sum_same::<R>(tail, h, rest);
    assert forall|m: int| 0 <= m < start implies #[trigger] turned(m) == wrapped(m) by {
        assert(turned(m) == h(behind(n as int, m, i)));
    }
    lemma_sum_same::<R>(turned, wrapped, start);
    lemma_sum_valid::<R>(h, rest);
    lemma_sum_valid::<R>(turned, start);
    R::lemma_ring(rsum::<R>(turned, start), rsum::<R>(h, rest), c);
    assert(start + rest == n);
}

/// The transform of a cyclic convolution is the pointwise product of the
/// transforms, for every `w` whose power at the length is one.
pub proof fn law_convolution<R: Ring>(x: Seq<R::Elem>, y: Seq<R::Elem>, w: R::Elem, k: nat)
    requires
        x.len() == y.len(),
        all_valid::<R>(x),
        all_valid::<R>(y),
        R::valid(w),
        rpow::<R>(w, x.len()) == R::rone(),
    ensures
        dft::<R>(convolution::<R>(x, y), w, k) == R::rmul(
            dft::<R>(x, w, k),
            dft::<R>(y, w, k),
        ),
{
    let n = x.len();
    let z = convolution::<R>(x, y);
    let dy = dft::<R>(y, w, k);
    lemma_dft_valid::<R>(y, w, k);
    lemma_dft_valid::<R>(x, w, k);
    let by_rows = |m: int| dft_term::<R>(z, w, k, m);
    let f = |m: int|
        |i: int|
            R::rmul(
                rpow::<R>(w, (m * k) as nat),
                R::rmul(x[i], y[behind(n as int, m, i)]),
            );
    let g = |i: int|
        |m: int|
            R::rmul(
                rpow::<R>(w, (m * k) as nat),
                R::rmul(x[i], y[behind(n as int, m, i)]),
            );
    let by_columns = |i: int| rsum::<R>(g(i), n);
    assert forall|m: int, i: int| 0 <= m < n && 0 <= i < n implies R::valid(#[trigger] f(m)(i)) by {
        let p = rpow::<R>(w, (m * k) as nat);
        lemma_pow_valid::<R>(w, (m * k) as nat);
        let b = y[behind(n as int, m, i)];
        assert(R::valid(x[i]) && R::valid(b));
        R::lemma_ring(x[i], b, p);
        R::lemma_ring(p, R::rmul(x[i], b), p);
    }
    assert forall|m: int| 0 <= m < n implies #[trigger] by_rows(m) == rsum::<R>(f(m), n) by {
        let p = rpow::<R>(w, (m * k) as nat);
        lemma_pow_valid::<R>(w, (m * k) as nat);
        let inner = |i: int| R::rmul(x[i], y[behind(n as int, m, i)]);
        assert forall|i: int| 0 <= i < n implies R::valid(#[trigger] inner(i)) by {
            let b = y[behind(n as int, m, i)];
            assert(R::valid(x[i]) && R::valid(b));
            R::lemma_ring(x[i], b, p);
        }
        lemma_sum_scale::<R>(inner, p, f(m), n);
        lemma_sum_valid::<R>(inner, n);
        R::lemma_ring(p, rsum::<R>(inner, n), p);
        R::lemma_ring(rsum::<R>(inner, n), p, p);
        assert(z[m] == rsum::<R>(inner, n));
    }
    lemma_sum_exchange::<R>(f, by_rows, by_columns, g, n, n);
    let terms = |i: int| dft_term::<R>(x, w, k, i);
    assert forall|i: int| 0 <= i < n implies R::valid(#[trigger] terms(i)) by {
        lemma_dft_term_valid::<R>(x, w, k, i);
    }
    assert forall|i: int| 0 <= i < n implies #[trigger] by_columns(i) == R::rmul(dy, terms(i)) by {
        let turned = |m: int|
            R::rmul(y[behind(n as int, m, i)], rpow::<R>(w, (m * k) as nat));
        lemma_turned::<R>(y, w, k, i, turned);
        let a = x[i];
        assert(R::valid(a));
        assert forall|m: int| 0 <= m < n implies R::valid(#[trigger] turned(m)) && g(i)(m)
            == R::rmul(a, turned(m)) by {
            let p = rpow::<R>(w, (m * k) as nat);
            lemma_pow_valid::<R>(w, (m * k) as nat);
            let b = y[behind(n as int, m, i)];
            assert(R::valid(b));
            R::lemma_ring(a, b, p);
            R::lemma_ring(b, p, a);
            R::lemma_ring(p, R::rmul(a, b), p);
        }
        assert forall|m: int| 0 <= m < n implies #[trigger] g(i)(m) == R::rmul(a, turned(m)) by {
            assert(R::valid(turned(m)));
        }
        lemma_sum_scale::<R>(turned, a, g(i), n);
        // a * (p * dy) == dy * (a * p)
        let p = rpow::<R>(w, (i * k) as nat);
        lemma_pow_valid::<R>(w, (i * k) as nat);
        R::lemma_ring(a, p, dy);
        R::lemma_ring(R::rmul(a, p), dy, dy);
    }
    lemma_sum_scale::<R>(terms, dy, by_columns, n);
    R::lemma_ring(dft::<R>(x, w, k), dy, dy);
    let rows = |j: int| dft_term::<R>(z, w, k, j);
    lemma_sum_same::<R>(rows, by_rows, n);
}

} // verus!
