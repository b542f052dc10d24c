//! Commutative rings, powers, sums, and the discrete Fourier transform.

use vstd::prelude::*;

verus! {

/// A commutative ring on the valid values of a type.
pub trait Ring: Sized {
    /// A value of the ring.
    type Elem: Copy;

    /// Whether a value is in canonical form.
    spec fn valid(a: Self::Elem) -> bool;

    spec fn rzero() -> Self::Elem;

    spec fn rone() -> Self::Elem;

    spec fn radd(a: Self::Elem, b: Self::Elem) -> Self::Elem;

    spec fn rneg(a: Self::Elem) -> Self::Elem;

    spec fn rmul(a: Self::Elem, b: Self::Elem) -> Self::Elem;

    proof fn lemma_units()
        ensures
            Self::valid(Self::rzero()),
            Self::valid(Self::rone()),
    ;

    proof fn lemma_ring(a: Self::Elem, b: Self::Elem, c: Self::Elem)
        requires
            Self::valid(a),
            Self::valid(b),
            Self::valid(c),
        ensures
            Self::valid(Self::radd(a, b)),
            Self::valid(Self::rneg(a)),
            Self::valid(Self::rmul(a, b)),
            Self::radd(a, b) == Self::radd(b, a),
            Self::radd(Self::radd(a, b), c) == Self::radd(a, Self::radd(b, c)),
            Self::radd(a, Self::rzero()) == a,
            Self::radd(a, Self::rneg(a)) == Self::rzero(),
            Self::rmul(a, b) == Self::rmul(b, a),
            Self::rmul(Self::rmul(a, b), c) == Self::rmul(a, Self::rmul(b, c)),
            Self::rmul(a, Self::radd(b, c)) == Self::radd(Self::rmul(a, b), Self::rmul(a, c)),
            Self::rmul(a, Self::rone()) == a,
    ;
}

/// The difference of two values.
pub open spec fn rsub<R: Ring>(a: R::Elem, b: R::Elem) -> R::Elem {
    R::radd(a, R::rneg(b))
}

/// Zero absorbs, and negation moves through products.
pub proof fn lemma_neg<R: Ring>(a: R::Elem, b: R::Elem)
    requires
        R::valid(a),
        R::valid(b),
    ensures
        R::rmul(a, R::rzero()) == R::rzero(),
        R::rmul(R::rzero(), a) == R::rzero(),
        R::rmul(a, R::rneg(b)) == R::rneg(R::rmul(a, b)),
        R::rmul(a, R::rneg(R::rone())) == R::rneg(a),
        R::rneg(R::rneg(a)) == a,
        R::radd(R::rzero(), a) == a,
        R::rneg(R::radd(a, b)) == R::radd(R::rneg(a), R::rneg(b)),
{
    R::lemma_units();
    let z = R::rzero();
    let az = R::rmul(a, z);
    R::lemma_ring(a, z, z);
    R::lemma_ring(z, z, z);
    R::lemma_ring(a, b, z);
    R::lemma_ring(b, a, a);
    // az == az + az, so az == 0
    R::lemma_ring(az, az, az);
    R::lemma_ring(az, az, R::rneg(az));
    R::lemma_ring(az, z, z);
    R::lemma_ring(a, b, R::rneg(b));
    R::lemma_ring(a, R::rneg(b), b);
    lemma_neg_unique::<R>(R::rmul(a, b), R::rmul(a, R::rneg(b)));
    let one = R::rone();
    R::lemma_ring(one, one, one);
    R::lemma_ring(a, one, R::rneg(one));
    R::lemma_ring(a, R::rneg(one), one);
    lemma_neg_unique::<R>(a, R::rmul(a, R::rneg(one)));
    R::lemma_ring(R::rneg(a), a, a);
    R::lemma_ring(a, R::rneg(a), a);
    lemma_neg_unique::<R>(R::rneg(a), a);
    // -(a + b) == -a + -b
    let (na, nb) = (R::rneg(a), R::rneg(b));
    R::lemma_ring(na, nb, z);
    R::lemma_ring(a, b, R::radd(na, nb));
    R::lemma_ring(b, na, nb);
    R::lemma_ring(b, R::radd(na, nb), a);
    R::lemma_ring(na, b, nb);
    R::lemma_ring(b, nb, na);
    R::lemma_ring(na, z, z);
    lemma_neg_unique::<R>(R::radd(a, b), R::radd(na, nb));
}

/// The negation is unique.
proof fn lemma_neg_unique<R: Ring>(a: R::Elem, b: R::Elem)
    requires
        R::valid(a),
        R::valid(b),
    ensures
        R::radd(a, b) == R::rzero() ==> b == R::rneg(a),
{
    R::lemma_units();
    let n = R::rneg(a);
    R::lemma_ring(a, b, b);
    R::lemma_ring(a, b, n);
    R::lemma_ring(n, a, b);
    R::lemma_ring(a, n, b);
    R::lemma_ring(b, n, a);
    R::lemma_ring(n, R::rzero(), a);
    R::lemma_ring(R::rzero(), b, a);
    R::lemma_ring(b, R::rzero(), a);
}

/// `x^n`.
pub open spec fn rpow<R: Ring>(x: R::Elem, n: nat) -> R::Elem
    decreases n,
{
    if n == 0 {
        R::rone()
    } else {
        R::rmul(rpow::<R>(x, (n - 1) as nat), x)
    }
}

pub proof fn lemma_pow_valid<R: Ring>(x: R::Elem, n: nat)
    requires
        R::valid(x),
    ensures
        R::valid(rpow::<R>(x, n)),
    decreases n,
{
    R::lemma_units();
    if n > 0 {
        lemma_pow_valid::<R>(x, (n - 1) as nat);
        R::lemma_ring(rpow::<R>(x, (n - 1) as nat), x, x);
    }
}

pub proof fn lemma_pow_sum<R: Ring>(x: R::Elem, a: nat, b: nat)
    requires
        R::valid(x),
    ensures
        rpow::<R>(x, a + b) == R::rmul(rpow::<R>(x, a), rpow::<R>(x, b)),
    decreases b,
{
    R::lemma_units();
    lemma_pow_valid::<R>(x, a);
    let p = rpow::<R>(x, a);
    if b == 0 {
        R::lemma_ring(p, p, p);
    } else {
        let c = (b - 1) as nat;
        lemma_pow_sum::<R>(x, a, c);
        lemma_pow_valid::<R>(x, c);
        R::lemma_ring(p, rpow::<R>(x, c), x);
        assert((a + b - 1) as nat == a + c);
    }
}

pub proof fn lemma_pow_product<R: Ring>(x: R::Elem, a: nat, b: nat)
    requires
        R::valid(x),
    ensures
        rpow::<R>(rpow::<R>(x, a), b) == rpow::<R>(x, a * b),
    decreases b,
{
    if b == 0 {
        assert(a * b == 0) by (nonlinear_arith)
            requires
                b == 0,
        ;
    } else {
        let c = (b - 1) as nat;
        lemma_pow_product::<R>(x, a, c);
        lemma_pow_sum::<R>(x, a * c, a);
        assert(a * b == a * c + a) by (nonlinear_arith)
            requires
                b == c + 1,
        ;
    }
}

pub proof fn lemma_pow_of_product<R: Ring>(x: R::Elem, y: R::Elem, n: nat)
    requires
        R::valid(x),
        R::valid(y),
    ensures
        rpow::<R>(R::rmul(x, y), n) == R::rmul(rpow::<R>(x, n), rpow::<R>(y, n)),
    decreases n,
{
    R::lemma_units();
    if n == 0 {
        R::lemma_ring(R::rone(), R::rone(), R::rone());
    } else {
        let m = (n - 1) as nat;
        lemma_pow_of_product::<R>(x, y, m);
        lemma_pow_valid::<R>(x, m);
        lemma_pow_valid::<R>(y, m);
        lemma_mul_pairs::<R>(rpow::<R>(x, m), rpow::<R>(y, m), x, y);
    }
}

/// `(a * b) * (c * d) == (a * c) * (b * d)`.
pub proof fn lemma_mul_pairs<R: Ring>(a: R::Elem, b: R::Elem, c: R::Elem, d: R::Elem)
    requires
        R::valid(a),
        R::valid(b),
        R::valid(c),
        R::valid(d),
    ensures
        R::rmul(R::rmul(a, b), R::rmul(c, d)) == R::rmul(R::rmul(a, c), R::rmul(b, d)),
{
    R::lemma_ring(c, d, a);
    R::lemma_ring(b, d, a);
    R::lemma_ring(a, b, R::rmul(c, d));
    R::lemma_ring(b, c, d);
    R::lemma_ring(c, b, d);
    R::lemma_ring(a, c, R::rmul(b, d));
}

/// `(a + b) + (c + d) == (a + c) + (b + d)`.
pub proof fn lemma_add_pairs<R: Ring>(a: R::Elem, b: R::Elem, c: R::Elem, d: R::Elem)
    requires
        R::valid(a),
        R::valid(b),
        R::valid(c),
        R::valid(d),
    ensures
        R::radd(R::radd(a, b), R::radd(c, d)) == R::radd(R::radd(a, c), R::radd(b, d)),
{
    R::lemma_ring(c, d, a);
    R::lemma_ring(b, d, a);
    R::lemma_ring(a, b, R::radd(c, d));
    R::lemma_ring(b, c, d);
    R::lemma_ring(c, b, d);
    R::lemma_ring(a, c, R::radd(b, d));
}

pub proof fn lemma_one_pow<R: Ring>(n: nat)
    ensures
        rpow::<R>(R::rone(), n) == R::rone(),
    decreases n,
{
    R::lemma_units();
    R::lemma_ring(R::rone(), R::rone(), R::rone());
    if n > 0 {
        lemma_one_pow::<R>((n - 1) as nat);
    }
}

/// Whether the characteristic is two: one plus one is zero.
pub open spec fn characteristic_two<R: Ring>() -> bool {
    R::radd(R::rone(), R::rone()) == R::rzero()
}

/// The image of a natural number: the sum of that many ones.
pub open spec fn rembed<R: Ring>(n: nat) -> R::Elem
    decreases n,
{
    if n == 0 {
        R::rzero()
    } else {
        R::radd(rembed::<R>((n - 1) as nat), R::rone())
    }
}

pub proof fn lemma_embed_valid<R: Ring>(n: nat)
    ensures
        R::valid(rembed::<R>(n)),
    decreases n,
{
    R::lemma_units();
    if n > 0 {
        lemma_embed_valid::<R>((n - 1) as nat);
        R::lemma_ring(rembed::<R>((n - 1) as nat), R::rone(), R::rone());
    }
}

pub proof fn lemma_embed_sum<R: Ring>(a: nat, b: nat)
    ensures
        rembed::<R>(a + b) == R::radd(rembed::<R>(a), rembed::<R>(b)),
    decreases b,
{
    R::lemma_units();
    lemma_embed_valid::<R>(a);
    let p = rembed::<R>(a);
    if b == 0 {
        R::lemma_ring(p, p, p);
    } else {
        let c = (b - 1) as nat;
        lemma_embed_sum::<R>(a, c);
        lemma_embed_valid::<R>(c);
        R::lemma_ring(p, rembed::<R>(c), R::rone());
        assert((a + b - 1) as nat == a + c);
    }
}

/// Whether every entry is valid.
pub open spec fn all_valid<R: Ring>(v: Seq<R::Elem>) -> bool {
    forall|i: int| 0 <= i < v.len() ==> R::valid(#[trigger] v[i])
}

/// The sum of `f(0), ..., f(n - 1)`.
pub open spec fn rsum<R: Ring>(f: spec_fn(int) -> R::Elem, n: nat) -> R::Elem
    decreases n,
{
    if n == 0 {
        R::rzero()
    } else {
        R::radd(rsum::<R>(f, (n - 1) as nat), f(n - 1))
    }
}

pub proof fn lemma_sum_valid<R: Ring>(f: spec_fn(int) -> R::Elem, n: nat)
    requires
        forall|i: int| 0 <= i < n ==> R::valid(#[trigger] f(i)),
    ensures
        R::valid(rsum::<R>(f, n)),
    decreases n,
{
    R::lemma_units();
    if n > 0 {
        lemma_sum_valid::<R>(f, (n - 1) as nat);
        R::lemma_ring(rsum::<R>(f, (n - 1) as nat), f(n - 1), R::rzero());
    }
}

pub proof fn lemma_sum_same<R: Ring>(
    f: spec_fn(int) -> R::Elem,
    g: spec_fn(int) -> R::Elem,
    n: nat,
)
    requires
        forall|i: int| 0 <= i < n ==> #[trigger] f(i) == g(i),
    ensures
        rsum::<R>(f, n) == rsum::<R>(g, n),
    decreases n,
{
    if n > 0 {
        lemma_sum_same::<R>(f, g, (n - 1) as nat);
        assert(f(n - 1) == g(n - 1));
    }
}

pub proof fn lemma_sum_add<R: Ring>(
    f: spec_fn(int) -> R::Elem,
    g: spec_fn(int) -> R::Elem,
    h: spec_fn(int) -> R::Elem,
    n: nat,
)
    requires
        forall|i: int| 0 <= i < n ==> R::valid(#[trigger] f(i)),
        forall|i: int| 0 <= i < n ==> R::valid(#[trigger] g(i)),
        forall|i: int| 0 <= i < n ==> #[trigger] h(i) == R::radd(f(i), g(i)),
    ensures
        rsum::<R>(h, n) == R::radd(rsum::<R>(f, n), rsum::<R>(g, n)),
    decreases n,
{
    R::lemma_units();
    if n == 0 {
        R::lemma_ring(R::rzero(), R::rzero(), R::rzero());
    } else {
        let m = (n - 1) as nat;
        lemma_sum_add::<R>(f, g, h, m);
        lemma_sum_valid::<R>(f, m);
        lemma_sum_valid::<R>(g, m);
        assert(h(n - 1) == R::radd(f(n - 1), g(n - 1)));
        lemma_add_pairs::<R>(rsum::<R>(f, m), rsum::<R>(g, m), f(n - 1), g(n - 1));
    }
}

pub proof fn lemma_sum_scale<R: Ring>(
    f: spec_fn(int) -> R::Elem,
    c: R::Elem,
    h: spec_fn(int) -> R::Elem,
    n: nat,
)
    requires
        R::valid(c),
        forall|i: int| 0 <= i < n ==> R::valid(#[trigger] f(i)),
        forall|i: int| 0 <= i < n ==> #[trigger] h(i) == R::rmul(c, f(i)),
    ensures
        rsum::<R>(h, n) == R::rmul(c, rsum::<R>(f, n)),
    decreases n,
{
    R::lemma_units();
    if n == 0 {
        lemma_neg::<R>(c, c);
    } else {
        let m = (n - 1) as nat;
        lemma_sum_scale::<R>(f, c, h, m);
        lemma_sum_valid::<R>(f, m);
        assert(h(n - 1) == R::rmul(c, f(n - 1)));
        R::lemma_ring(c, rsum::<R>(f, m), f(n - 1));
    }
}

pub proof fn lemma_sum_zero<R: Ring>(f: spec_fn(int) -> R::Elem, n: nat)
    requires
        forall|i: int| 0 <= i < n ==> #[trigger] f(i) == R::rzero(),
    ensures
        rsum::<R>(f, n) == R::rzero(),
    decreases n,
{
    R::lemma_units();
    if n > 0 {
        lemma_sum_zero::<R>(f, (n - 1) as nat);
        assert(f(n - 1) == R::rzero());
        R::lemma_ring(R::rzero(), R::rzero(), R::rzero());
    }
}

/// A sum over `a + b` terms is the sum of the first `a` and the other `b`.
pub proof fn lemma_sum_split<R: Ring>(
    f: spec_fn(int) -> R::Elem,
    g: spec_fn(int) -> R::Elem,
    a: nat,
    b: nat,
)
    requires
        forall|i: int| 0 <= i < a + b ==> R::valid(#[trigger] f(i)),
        forall|i: int| 0 <= i < b ==> #[trigger] g(i) == f(a + i),
    ensures
        rsum::<R>(f, a + b) == R::radd(rsum::<R>(f, a), rsum::<R>(g, b)),
    decreases b,
{
    R::lemma_units();
    lemma_sum_valid::<R>(f, a);
    if b == 0 {
        R::lemma_ring(rsum::<R>(f, a), R::rzero(), R::rzero());
    } else {
        let c = (b - 1) as nat;
        lemma_sum_split::<R>(f, g, a, c);
        assert(g(b - 1) == f(a + b - 1));
        assert((a + b - 1) as nat == a + c);
        assert forall|i: int| 0 <= i < c implies R::valid(#[trigger] g(i)) by {
            assert(g(i) == f(a + i));
        }
        lemma_sum_valid::<R>(g, c);
        R::lemma_ring(rsum::<R>(f, a), rsum::<R>(g, c), g(b - 1));
    }
}

/// Sums over a rectangle can be taken by rows or by columns.
pub proof fn lemma_sum_exchange<R: Ring>(
    f: spec_fn(int) -> spec_fn(int) -> R::Elem,
    by_rows: spec_fn(int) -> R::Elem,
    by_columns: spec_fn(int) -> R::Elem,
    g: spec_fn(int) -> spec_fn(int) -> R::Elem,
    rows: nat,
    columns: nat,
)
    requires
        forall|i: int, j: int|
            0 <= i < rows && 0 <= j < columns ==> R::valid(#[trigger] f(i)(j)),
        forall|i: int, j: int|
            0 <= i < rows && 0 <= j < columns ==> #[trigger] g(j)(i) == f(i)(j),
        forall|i: int| 0 <= i < rows ==> #[trigger] by_rows(i) == rsum::<R>(f(i), columns),
        forall|j: int| 0 <= j < columns ==> #[trigger] by_columns(j) == rsum::<R>(g(j), rows),
    ensures
        rsum::<R>(by_rows, rows) == rsum::<R>(by_columns, columns),
    decreases rows,
{
    if rows == 0 {
        assert forall|j: int| 0 <= j < columns implies #[trigger] by_columns(j) == R::rzero() by {
            assert(rsum::<R>(g(j), 0) == R::rzero());
        }
        lemma_sum_zero::<R>(by_columns, columns);
    } else {
        let m = (rows - 1) as nat;
        let shorter = |j: int| rsum::<R>(g(j), m);
        lemma_sum_exchange::<R>(f, by_rows, shorter, g, m, columns);
        let last = f(rows - 1);
        assert forall|j: int| 0 <= j < columns implies R::valid(#[trigger] shorter(j)) by {
            assert forall|i: int| 0 <= i < m implies R::valid(#[trigger] g(j)(i)) by {
                assert(R::valid(f(i)(j)));
            }
            lemma_sum_valid::<R>(g(j), m);
        }
        assert forall|j: int| 0 <= j < columns implies R::valid(#[trigger] last(j)) by {
            assert(R::valid(f(rows - 1)(j)));
        }
        assert forall|j: int| 0 <= j < columns implies #[trigger] by_columns(j) == R::radd(
            shorter(j),
            last(j),
        ) by {
            assert(g(j)(rows - 1) == f(rows - 1)(j));
        }
        lemma_sum_add::<R>(shorter, last, by_columns, columns);
    }
}

/// Term `j` of output `k` of the discrete Fourier transform of `x`.
pub open spec fn dft_term<R: Ring>(x: Seq<R::Elem>, w: R::Elem, k: nat, j: int) -> R::Elem {
    R::rmul(x[j], rpow::<R>(w, (j * k) as nat))
}

/// Output `k` of the discrete Fourier transform: the sum of `x_j * w^(j k)`.
pub open spec fn dft<R: Ring>(x: Seq<R::Elem>, w: R::Elem, k: nat) -> R::Elem {
    rsum::<R>(|j: int| dft_term::<R>(x, w, k, j), x.len())
}

pub proof fn lemma_dft_term_valid<R: Ring>(x: Seq<R::Elem>, w: R::Elem, k: nat, j: int)
    requires
        all_valid::<R>(x),
        R::valid(w),
        0 <= j < x.len(),
    ensures
        R::valid(dft_term::<R>(x, w, k, j)),
{
    lemma_pow_valid::<R>(w, (j * k) as nat);
    R::lemma_ring(x[j], rpow::<R>(w, (j * k) as nat), x[j]);
}

pub proof fn lemma_dft_valid<R: Ring>(x: Seq<R::Elem>, w: R::Elem, k: nat)
    requires
        all_valid::<R>(x),
        R::valid(w),
    ensures
        R::valid(dft::<R>(x, w, k)),
{
    let f = |j: int| dft_term::<R>(x, w, k, j);
    assert forall|j: int| 0 <= j < x.len() implies R::valid(#[trigger] f(j)) by {
        lemma_dft_term_valid::<R>(x, w, k, j);
    }
    lemma_sum_valid::<R>(f, x.len());
}

} // verus!
