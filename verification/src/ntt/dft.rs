//! The discrete Fourier transform by halves, and its inverse.

use vstd::prelude::*;

use crate::ntt::ring::{
    all_valid, dft, dft_term, lemma_add_pairs, lemma_dft_term_valid, lemma_dft_valid,
    lemma_embed_sum, lemma_embed_valid, lemma_neg, lemma_one_pow, lemma_pow_of_product,
    lemma_pow_product, lemma_pow_sum, lemma_pow_valid, lemma_sum_add, lemma_sum_same,
    lemma_sum_scale, lemma_sum_split, lemma_sum_valid, rembed, rpow, rsub, rsum, Ring,
};
use crate::span::span;

verus! {

/// The entries with even index.
pub open spec fn evens<T>(x: Seq<T>) -> Seq<T> {
    Seq::new(x.len() / 2, |i: int| x[2 * i])
}

/// The entries with odd index.
pub open spec fn odds<T>(x: Seq<T>) -> Seq<T> {
    Seq::new(x.len() / 2, |i: int| x[2 * i + 1])
}

/// Whether `w` is a root of unity of order `2^dim`: one if `dim` is zero, and
/// otherwise minus one when raised to half that order.
pub open spec fn is_root<R: Ring>(w: R::Elem, dim: nat) -> bool {
    &&& R::valid(w)
    &&& dim == 0 ==> w == R::rone()
    &&& dim > 0 ==> rpow::<R>(w, span((dim - 1) as nat)) == R::rneg(R::rone())
}

/// The square of a root of order `2^dim` is a root of half that order, and the
/// root itself gives one when raised to its order.
pub proof fn lemma_root<R: Ring>(w: R::Elem, dim: nat)
    requires
        is_root::<R>(w, dim),
    ensures
        rpow::<R>(w, span(dim)) == R::rone(),
        dim > 0 ==> is_root::<R>(rpow::<R>(w, 2), (dim - 1) as nat),
{
    R::lemma_units();
    let one = R::rone();
    if dim == 0 {
        lemma_one_pow::<R>(1);
    } else {
        let h = span((dim - 1) as nat);
        lemma_pow_sum::<R>(w, h, h);
        assert(h + h == span(dim));
        R::lemma_ring(one, one, one);
        lemma_neg::<R>(R::rneg(one), one);
        lemma_neg::<R>(one, one);
        let w2 = rpow::<R>(w, 2);
        lemma_pow_valid::<R>(w, 2);
        if dim == 1 {
            assert(span(1) == 2) by {
                reveal_with_fuel(span, 2);
            }
        } else {
            let q = span((dim - 2) as nat);
            lemma_pow_product::<R>(w, 2, q);
            assert(2 * q == h);
        }
    }
}

/// A sum over `2 h` terms, taken by the parity of the index.
proof fn lemma_sum_pairs<R: Ring>(
    f: spec_fn(int) -> R::Elem,
    even: spec_fn(int) -> R::Elem,
    odd: spec_fn(int) -> R::Elem,
    h: nat,
)
    requires
        forall|i: int| 0 <= i < h ==> #[trigger] even(i) == f(2 * i),
        forall|i: int| 0 <= i < h ==> #[trigger] odd(i) == f(2 * i + 1),
        forall|i: int| 0 <= i < 2 * h ==> R::valid(#[trigger] f(i)),
    ensures
        rsum::<R>(f, 2 * h) == R::radd(rsum::<R>(even, h), rsum::<R>(odd, h)),
    decreases h,
{
    R::lemma_units();
    if h == 0 {
        R::lemma_ring(R::rzero(), R::rzero(), R::rzero());
    } else {
        let g = (h - 1) as nat;
        lemma_sum_pairs::<R>(f, even, odd, g);
        assert(even(h - 1) == f(2 * (h - 1)) && odd(h - 1) == f(2 * (h - 1) + 1));
        reveal_with_fuel(rsum, 3);
        assert(rsum::<R>(f, 2 * h) == R::radd(
            R::radd(rsum::<R>(f, 2 * g), even(h - 1)),
            odd(h - 1),
        ));
        assert forall|i: int| 0 <= i < g implies R::valid(#[trigger] even(i)) by {
            assert(even(i) == f(2 * i));
        }
        assert forall|i: int| 0 <= i < g implies R::valid(#[trigger] odd(i)) by {
            assert(odd(i) == f(2 * i + 1));
        }
        lemma_sum_valid::<R>(even, g);
        lemma_sum_valid::<R>(odd, g);
        let (a, b) = (rsum::<R>(even, g), rsum::<R>(odd, g));
        let (c, d) = (even(h - 1), odd(h - 1));
        R::lemma_ring(a, b, c);
        R::lemma_ring(R::radd(a, b), c, d);
        lemma_add_pairs::<R>(a, b, c, d);
    }
}

proof fn lemma_parts_valid<R: Ring>(x: Seq<R::Elem>)
    requires
        all_valid::<R>(x),
    ensures
        all_valid::<R>(evens(x)),
        all_valid::<R>(odds(x)),
{
    assert forall|i: int| 0 <= i < evens(x).len() implies R::valid(#[trigger] evens(x)[i]) by {
        assert(R::valid(x[2 * i]));
    }
    assert forall|i: int| 0 <= i < odds(x).len() implies R::valid(#[trigger] odds(x)[i]) by {
        assert(R::valid(x[2 * i + 1]));
    }
}

/// `w^(2 i k)` is `(w^2)^(i k)`, and `w^((2 i + 1) k)` is `w^k` times that.
proof fn lemma_split_powers<R: Ring>(w: R::Elem, i: nat, k: nat)
    requires
        R::valid(w),
    ensures
        rpow::<R>(w, (2 * i) * k) == rpow::<R>(rpow::<R>(w, 2), i * k),
        rpow::<R>(w, (2 * i + 1) * k) == R::rmul(
            rpow::<R>(w, k),
            rpow::<R>(rpow::<R>(w, 2), i * k),
        ),
{
    lemma_pow_product::<R>(w, 2, i * k);
    assert((2 * i) * k == 2 * (i * k) && (2 * i + 1) * k == k + 2 * (i * k)) by (nonlinear_arith);
    lemma_pow_sum::<R>(w, k, 2 * (i * k));
}

/// The transform of a sequence from the transforms of its even and odd parts.
pub proof fn law_dft_splits<R: Ring>(x: Seq<R::Elem>, w: R::Elem, k: nat)
    requires
        all_valid::<R>(x),
        x.len() % 2 == 0,
        R::valid(w),
    ensures
        dft::<R>(x, w, k) == R::radd(
            dft::<R>(evens(x), rpow::<R>(w, 2), k),
            R::rmul(rpow::<R>(w, k), dft::<R>(odds(x), rpow::<R>(w, 2), k)),
        ),
{
    let h = x.len() / 2;
    let w2 = rpow::<R>(w, 2);
    let wk = rpow::<R>(w, k);
    lemma_pow_valid::<R>(w, 2);
    lemma_pow_valid::<R>(w, k);
    lemma_parts_valid::<R>(x);
    let f = |j: int| dft_term::<R>(x, w, k, j);
    let even = |i: int| dft_term::<R>(evens(x), w2, k, i);
    let half = |i: int| dft_term::<R>(odds(x), w2, k, i);
    let odd = |i: int| R::rmul(wk, half(i));
    assert forall|j: int| 0 <= j < 2 * h implies R::valid(#[trigger] f(j)) by {
        lemma_dft_term_valid::<R>(x, w, k, j);
    }
    assert forall|i: int| 0 <= i < h implies #[trigger] even(i) == f(2 * i) by {
        lemma_split_powers::<R>(w, i as nat, k);
        assert(evens(x)[i] == x[2 * i]);
    }
    assert forall|i: int| 0 <= i < h implies R::valid(#[trigger] half(i)) by {
        lemma_dft_term_valid::<R>(odds(x), w2, k, i);
    }
    assert forall|i: int| 0 <= i < h implies #[trigger] odd(i) == f(2 * i + 1) by {
        lemma_split_powers::<R>(w, i as nat, k);
        assert(odds(x)[i] == x[2 * i + 1]);
        assert(R::valid(x[2 * i + 1]));
        let (a, c) = (x[2 * i + 1], rpow::<R>(w2, (i * k) as nat));
        lemma_pow_valid::<R>(w2, (i * k) as nat);
        R::lemma_ring(wk, a, c);
        R::lemma_ring(a, wk, c);
        assert((2 * i + 1) * k == ((2 * i + 1) as nat) * k);
        assert(half(i) == R::rmul(a, c));
        assert(f(2 * i + 1) == R::rmul(a, R::rmul(wk, c)));
    }
    lemma_sum_pairs::<R>(f, even, odd, h);
    lemma_sum_scale::<R>(half, wk, odd, h);
    assert(2 * h == x.len());
    assert(dft::<R>(evens(x), w2, k) == rsum::<R>(even, h));
    assert(dft::<R>(odds(x), w2, k) == rsum::<R>(half, h));
}

/// The transform at `k + n` is the transform at `k` if `w^n` is one.
pub proof fn lemma_dft_period<R: Ring>(x: Seq<R::Elem>, w: R::Elem, k: nat, n: nat)
    requires
        all_valid::<R>(x),
        R::valid(w),
        rpow::<R>(w, n) == R::rone(),
    ensures
        dft::<R>(x, w, k + n) == dft::<R>(x, w, k),
{
    let f = |j: int| dft_term::<R>(x, w, k + n, j);
    let g = |j: int| dft_term::<R>(x, w, k, j);
    assert forall|j: int| 0 <= j < x.len() implies #[trigger] f(j) == g(j) by {
        let jk = (j * k) as nat;
        let jn = (n * j) as nat;
        assert(j * (k + n) == j * k + n * j && n * j >= 0 && j * k >= 0) by (nonlinear_arith)
            requires
                j >= 0,
                k >= 0,
                n >= 0,
        ;
        lemma_pow_sum::<R>(w, jk, jn);
        lemma_pow_product::<R>(w, n, j as nat);
        lemma_one_pow::<R>(j as nat);
        lemma_pow_valid::<R>(w, jk);
        R::lemma_ring(rpow::<R>(w, jk), rpow::<R>(w, jk), rpow::<R>(w, jk));
    }
    lemma_sum_same::<R>(f, g, x.len());
}

/// The butterfly: both halves of a transform from the transforms of the even
/// and the odd entries.
pub proof fn law_dft_butterfly<R: Ring>(x: Seq<R::Elem>, w: R::Elem, dim: nat, k: nat)
    requires
        all_valid::<R>(x),
        dim > 0,
        x.len() == span(dim),
        is_root::<R>(w, dim),
    ensures
        ({
            let w2 = rpow::<R>(w, 2);
            let e = dft::<R>(evens(x), w2, k);
            let t = R::rmul(rpow::<R>(w, k), dft::<R>(odds(x), w2, k));
            &&& R::valid(e)
            &&& R::valid(t)
            &&& dft::<R>(x, w, k) == R::radd(e, t)
            &&& dft::<R>(x, w, k + span((dim - 1) as nat)) == rsub::<R>(e, t)
        }),
{
    let h = span((dim - 1) as nat);
    let w2 = rpow::<R>(w, 2);
    lemma_root::<R>(w, dim);
    lemma_root::<R>(w2, (dim - 1) as nat);
    lemma_parts_valid::<R>(x);
    law_dft_splits::<R>(x, w, k);
    law_dft_splits::<R>(x, w, k + h);
    lemma_dft_period::<R>(evens(x), w2, k, h);
    lemma_dft_period::<R>(odds(x), w2, k, h);
    lemma_dft_valid::<R>(evens(x), w2, k);
    lemma_dft_valid::<R>(odds(x), w2, k);
    lemma_pow_valid::<R>(w, k);
    lemma_pow_sum::<R>(w, k, h);
    let wk = rpow::<R>(w, k);
    let o = dft::<R>(odds(x), w2, k);
    lemma_neg::<R>(wk, wk);
    R::lemma_ring(wk, o, o);
    R::lemma_ring(o, wk, wk);
    lemma_neg::<R>(o, wk);
    R::lemma_ring(R::rneg(wk), o, o);
}

/// The whole transform.
pub open spec fn transform<R: Ring>(x: Seq<R::Elem>, w: R::Elem) -> Seq<R::Elem> {
    Seq::new(x.len(), |k: int| dft::<R>(x, w, k as nat))
}

pub proof fn lemma_transform_valid<R: Ring>(x: Seq<R::Elem>, w: R::Elem)
    requires
        all_valid::<R>(x),
        R::valid(w),
    ensures
        all_valid::<R>(transform::<R>(x, w)),
{
    assert forall|k: int| 0 <= k < x.len() implies R::valid(#[trigger] transform::<R>(x, w)[k]) by {
        lemma_dft_valid::<R>(x, w, k as nat);
    }
}

/// The inverse of a root of unity is a root of the same order.
pub proof fn lemma_inverse_root<R: Ring>(w: R::Elem, v: R::Elem, dim: nat)
    requires
        is_root::<R>(w, dim),
        R::valid(v),
        R::rmul(w, v) == R::rone(),
    ensures
        is_root::<R>(v, dim),
        R::rmul(rpow::<R>(w, 2), rpow::<R>(v, 2)) == R::rone(),
        R::rmul(v, w) == R::rone(),
{
    R::lemma_units();
    let one = R::rone();
    R::lemma_ring(w, v, v);
    R::lemma_ring(v, one, one);
    R::lemma_ring(one, one, one);
    lemma_pow_of_product::<R>(w, v, 2);
    lemma_one_pow::<R>(2);
    if dim > 0 {
        let h = span((dim - 1) as nat);
        lemma_pow_of_product::<R>(w, v, h);
        lemma_one_pow::<R>(h);
        let vh = rpow::<R>(v, h);
        lemma_pow_valid::<R>(v, h);
        // one == -one * vh == -vh
        R::lemma_ring(R::rneg(one), vh, vh);
        lemma_neg::<R>(vh, vh);
        assert(R::rneg(vh) == one);
    }
}

/// Opposite terms of a transform back, for an even output.
proof fn lemma_pair_even<R: Ring>(
    v: R::Elem,
    dim: nat,
    e: R::Elem,
    t: R::Elem,
    k: nat,
    i: nat,
)
    requires
        dim > 0,
        is_root::<R>(v, dim),
        R::valid(e),
        R::valid(t),
    ensures
        ({
            let h = span((dim - 1) as nat);
            let p = rpow::<R>(rpow::<R>(v, 2), k * i);
            R::radd(
                R::rmul(R::radd(e, t), rpow::<R>(v, k * (2 * i))),
                R::rmul(rsub::<R>(e, t), rpow::<R>(v, (k + h) * (2 * i))),
            ) == R::radd(R::rmul(e, p), R::rmul(e, p))
        }),
{
    R::lemma_units();
    let h = span((dim - 1) as nat);
    let v2 = rpow::<R>(v, 2);
    let p = rpow::<R>(v2, k * i);
    lemma_pow_valid::<R>(v, 2);
    lemma_pow_valid::<R>(v2, k * i);
    lemma_pow_product::<R>(v, 2, k * i);
    assert(k * (2 * i) == 2 * (k * i) && (k + h) * (2 * i) == 2 * (k * i) + (2 * h) * i)
        by (nonlinear_arith);
    lemma_root::<R>(v, dim);
    lemma_pow_product::<R>(v, 2 * h, i);
    lemma_one_pow::<R>(i);
    lemma_pow_sum::<R>(v, 2 * (k * i), (2 * h) * i);
    R::lemma_ring(p, p, p);
    assert(rpow::<R>(v, (k + h) * (2 * i)) == p);
    // (e + t) p + (e - t) p == ((e + t) + (e - t)) p
    let n = R::rneg(t);
    R::lemma_ring(t, t, t);
    R::lemma_ring(e, t, n);
    R::lemma_ring(t, n, n);
    R::lemma_ring(e, n, n);
    let (a, b) = (R::radd(e, t), R::radd(e, n));
    R::lemma_ring(p, a, b);
    R::lemma_ring(a, p, p);
    R::lemma_ring(b, p, p);
    lemma_add_pairs::<R>(e, t, e, n);
    R::lemma_ring(e, e, e);
    R::lemma_ring(R::radd(e, e), p, p);
    R::lemma_ring(p, e, e);
    R::lemma_ring(e, p, p);
}

/// Opposite terms of a transform back, for an odd output.
proof fn lemma_pair_odd<R: Ring>(
    w: R::Elem,
    v: R::Elem,
    dim: nat,
    e: R::Elem,
    o: R::Elem,
    k: nat,
    i: nat,
)
    requires
        dim > 0,
        is_root::<R>(v, dim),
        R::valid(w),
        R::rmul(w, v) == R::rone(),
        R::valid(e),
        R::valid(o),
    ensures
        ({
            let h = span((dim - 1) as nat);
            let p = rpow::<R>(rpow::<R>(v, 2), k * i);
            let t = R::rmul(rpow::<R>(w, k), o);
            R::radd(
                R::rmul(R::radd(e, t), rpow::<R>(v, k * (2 * i + 1))),
                R::rmul(rsub::<R>(e, t), rpow::<R>(v, (k + h) * (2 * i + 1))),
            ) == R::radd(R::rmul(o, p), R::rmul(o, p))
        }),
{
    R::lemma_units();
    let one = R::rone();
    let h = span((dim - 1) as nat);
    let v2 = rpow::<R>(v, 2);
    let p = rpow::<R>(v2, k * i);
    let vk = rpow::<R>(v, k);
    let wk = rpow::<R>(w, k);
    lemma_pow_valid::<R>(v, 2);
    lemma_pow_valid::<R>(v2, k * i);
    lemma_pow_valid::<R>(v, k);
    lemma_pow_valid::<R>(w, k);
    lemma_pow_product::<R>(v, 2, k * i);
    assert(k * (2 * i + 1) == k + 2 * (k * i)) by (nonlinear_arith);
    assert((k + h) * (2 * i + 1) == k * (2 * i + 1) + (h + (2 * h) * i)) by (nonlinear_arith);
    lemma_pow_sum::<R>(v, k, 2 * (k * i));
    let q = R::rmul(vk, p);
    assert(rpow::<R>(v, k * (2 * i + 1)) == q);
    lemma_root::<R>(v, dim);
    lemma_pow_product::<R>(v, 2 * h, i);
    lemma_one_pow::<R>(i);
    lemma_pow_sum::<R>(v, h, (2 * h) * i);
    R::lemma_ring(one, one, one);
    R::lemma_ring(R::rneg(one), one, one);
    lemma_pow_sum::<R>(v, k * (2 * i + 1), h + (2 * h) * i);
    R::lemma_ring(vk, p, p);
    lemma_neg::<R>(q, q);
    assert(rpow::<R>(v, (k + h) * (2 * i + 1)) == R::rneg(q));
    // (e + t) q - (e - t) q == (t + t) q
    let t = R::rmul(wk, o);
    R::lemma_ring(wk, o, o);
    let n = R::rneg(t);
    R::lemma_ring(t, t, t);
    R::lemma_ring(e, t, t);
    R::lemma_ring(e, n, n);
    R::lemma_ring(e, e, e);
    let (a, b) = (R::radd(e, t), R::radd(e, n));
    lemma_neg::<R>(b, q);
    lemma_neg::<R>(q, b);
    R::lemma_ring(b, q, q);
    R::lemma_ring(q, b, b);
    // b * -q == q * -b
    assert(R::rmul(b, R::rneg(q)) == R::rmul(q, R::rneg(b)));
    lemma_neg::<R>(e, n);
    lemma_neg::<R>(t, t);
    R::lemma_ring(R::rneg(e), t, t);
    assert(R::rneg(b) == R::radd(R::rneg(e), t));
    R::lemma_ring(q, a, R::rneg(b));
    R::lemma_ring(a, q, q);
    lemma_add_pairs::<R>(e, t, R::rneg(e), t);
    let tt = R::radd(t, t);
    R::lemma_ring(tt, tt, tt);
    lemma_neg::<R>(tt, tt);
    assert(R::radd(a, R::rneg(b)) == tt);
    // t q == o p
    lemma_pow_of_product::<R>(w, v, k);
    lemma_one_pow::<R>(k);
    R::lemma_ring(o, wk, q);
    R::lemma_ring(wk, vk, p);
    R::lemma_ring(p, one, one);
    R::lemma_ring(one, p, p);
    assert(R::rmul(t, q) == R::rmul(o, p));
    R::lemma_ring(q, t, t);
    R::lemma_ring(t, q, q);
}

/// Transforming with a root of unity and then with its inverse gives back the
/// input times its length.
pub proof fn law_transform_back<R: Ring>(
    x: Seq<R::Elem>,
    w: R::Elem,
    v: R::Elem,
    dim: nat,
    j: nat,
)
    requires
        all_valid::<R>(x),
        x.len() == span(dim),
        is_root::<R>(w, dim),
        R::valid(v),
        R::rmul(w, v) == R::rone(),
        j < x.len(),
    ensures
        dft::<R>(transform::<R>(x, w), v, j) == R::rmul(rembed::<R>(x.len()), x[j as int]),
    decreases dim,
{
    R::lemma_units();
    let y = transform::<R>(x, w);
    lemma_transform_valid::<R>(x, w);
    if dim == 0 {
        reveal_with_fuel(rsum, 2);
        reveal_with_fuel(rembed, 2);
        let one = R::rone();
        let a = x[0];
        assert(R::valid(a));
        assert(span(0) == 1);
        lemma_single::<R>(x, w);
        lemma_single::<R>(y, v);
        assert(y[0] == dft::<R>(x, w, 0));
        lemma_neg::<R>(one, one);
        assert(rembed::<R>(1) == one);
        R::lemma_ring(one, a, a);
        R::lemma_ring(a, a, a);
        assert(j == 0);
    } else {
        let h = span((dim - 1) as nat);
        let (w2, v2) = (rpow::<R>(w, 2), rpow::<R>(v, 2));
        lemma_inverse_root::<R>(w, v, dim);
        lemma_root::<R>(w, dim);
        lemma_root::<R>(v, dim);
        lemma_parts_valid::<R>(x);
        let i = j / 2;
        let even = j % 2 == 0;
        let part = if even {
            evens(x)
        } else {
            odds(x)
        };
        assert(part.len() == h);
        assert(part[i as int] == x[j as int]);
        law_transform_back::<R>(part, w2, v2, (dim - 1) as nat, i);
        let z = transform::<R>(part, w2);
        lemma_transform_valid::<R>(part, w2);
        let f = |k: int| dft_term::<R>(y, v, j, k);
        let g = |k: int| dft_term::<R>(y, v, j, h + k);
        let both = |k: int| R::radd(f(k), g(k));
        let e = |k: int| dft_term::<R>(z, v2, i, k);
        assert forall|k: int| 0 <= k < h + h implies R::valid(#[trigger] f(k)) by {
            lemma_dft_term_valid::<R>(y, v, j, k);
        }
        assert forall|k: int| 0 <= k < h implies R::valid(#[trigger] g(k)) by {
            lemma_dft_term_valid::<R>(y, v, j, h + k);
        }
        assert forall|k: int| 0 <= k < h implies R::valid(#[trigger] e(k)) by {
            lemma_dft_term_valid::<R>(z, v2, i, k);
        }
        assert forall|k: int| 0 <= k < h implies #[trigger] both(k) == R::radd(e(k), e(k)) by {
            let kn = k as nat;
            law_dft_butterfly::<R>(x, w, dim, kn);
            let ek = dft::<R>(evens(x), w2, kn);
            let ok = dft::<R>(odds(x), w2, kn);
            lemma_dft_valid::<R>(odds(x), w2, kn);
            assert(y[k] == dft::<R>(x, w, kn));
            assert(y[h + k] == dft::<R>(x, w, kn + h));
            assert(z[k] == dft::<R>(part, w2, kn));
            if even {
                lemma_pair_even::<R>(v, dim, ek, R::rmul(rpow::<R>(w, kn), ok), kn, i);
                assert(j == 2 * i);
            } else {
                lemma_pair_odd::<R>(w, v, dim, ek, ok, kn, i);
                assert(j == 2 * i + 1);
            }
            assert(k * j == kn * j && (h + k) * j == (kn + h) * j && k * i == kn * i);
        }
        lemma_sum_split::<R>(f, g, h, h);
        lemma_sum_add::<R>(f, g, both, h);
        lemma_sum_add::<R>(e, e, both, h);
        assert(dft::<R>(y, v, j) == rsum::<R>(f, h + h));
        assert(dft::<R>(z, v2, i) == rsum::<R>(e, h));
        assert(x.len() == h + h);
        lemma_embed_sum::<R>(h, h);
        lemma_embed_valid::<R>(h);
        let (n, a) = (rembed::<R>(h), x[j as int]);
        assert(R::valid(a));
        R::lemma_ring(a, n, n);
        R::lemma_ring(n, n, n);
        R::lemma_ring(R::radd(n, n), a, a);
        R::lemma_ring(n, a, a);
    }
}

/// The transform of a single entry is that entry.
pub proof fn lemma_single<R: Ring>(x: Seq<R::Elem>, w: R::Elem)
    requires
        all_valid::<R>(x),
        x.len() == 1,
        R::valid(w),
    ensures
        dft::<R>(x, w, 0) == x[0],
{
    R::lemma_units();
    reveal_with_fuel(rsum, 2);
    let a = x[0];
    assert(R::valid(a));
    let f = |j: int| dft_term::<R>(x, w, 0, j);
    assert(f(0) == R::rmul(a, R::rone()));
    assert(rsum::<R>(f, 1) == R::radd(R::rzero(), f(0)));
    R::lemma_ring(a, a, a);
    lemma_neg::<R>(a, a);
}

} // verus!
