//! What fixes the fields of the transforms, their byte code, and the transforms.

use vstd::arithmetic::div_mod::{
    lemma_add_mod_noop, lemma_fundamental_div_mod, lemma_fundamental_div_mod_converse,
    lemma_mod_multiples_vanish, lemma_small_mod,
};
use vstd::arithmetic::power2::pow2;
use vstd::prelude::*;

use crate::field::{fadd, fmul, fone, fzero, BinaryField};
use crate::grid::{entry, lemma_place};
use crate::ntt::field::NttField;
use crate::ntt::plan::{root_of, rows_transformed};
use crate::ntt::prime::{Goldilocks, Mersenne31, Quad, QuadMersenne31};
use crate::ntt::ring::{
    all_valid, dft, dft_term, lemma_dft_term_valid, lemma_neg, lemma_pow_valid, lemma_sum_add,
    lemma_sum_zero, rpow, rsum, Ring,
};
use crate::ntt::rows::{canonical, lemma_code_bytes, lemma_values_valid, values};
use crate::ntt::stages::column;
use crate::words::{law_words_are_little_endian, lemma_limits, lemma_word_bound, words};

verus! {

/// A remainder differs from the number by a multiple.
proof fn lemma_remainder(x: int, p: int)
    requires
        p > 0,
    ensures
        0 <= x % p < p,
        (x - x % p) % p == 0,
{
    lemma_fundamental_div_mod(x, p);
    lemma_mod_multiples_vanish(x / p, 0, p);
    lemma_small_mod(0, p as nat);
    assert(p * (x / p) + 0 == x - x % p);
}

/// Goldilocks: the residues below `2^64 - 2^32 + 1`, each written as itself, with
/// the sum and the product of the integers up to multiples of the modulus.
pub proof fn law_goldilocks_arithmetic(a: u64, b: u64)
    ensures
        Goldilocks::valid(a) <==> a < 0xFFFF_FFFF_0000_0001,
        Goldilocks::rzero() == 0,
        Goldilocks::rone() == 1,
        Goldilocks::order() == 0xFFFF_FFFF_0000_0001,
        Goldilocks::valid(a) && Goldilocks::valid(b) ==> {
            &&& Goldilocks::radd(a, b) < 0xFFFF_FFFF_0000_0001
            &&& Goldilocks::radd(a, b) == a + b || Goldilocks::radd(a, b) + 0xFFFF_FFFF_0000_0001
                == a + b
            &&& Goldilocks::rmul(a, b) < 0xFFFF_FFFF_0000_0001
            &&& (a * b - Goldilocks::rmul(a, b)) % 0xFFFF_FFFF_0000_0001 == 0
            &&& Goldilocks::rneg(a) == 0 && a == 0 || Goldilocks::rneg(a) + a
                == 0xFFFF_FFFF_0000_0001
        },
{
    let p = 0xFFFF_FFFF_0000_0001int;
    lemma_remainder(a * b, p);
}

/// Mersenne31: the residues below `2^31 - 1`, each written as itself, with the sum
/// and the product of the integers up to multiples of the modulus.
pub proof fn law_mersenne31_arithmetic(a: u32, b: u32)
    ensures
        Mersenne31::valid(a) <==> a < 0x7FFF_FFFF,
        Mersenne31::rzero() == 0,
        Mersenne31::rone() == 1,
        Mersenne31::order() == 0x7FFF_FFFF,
        Mersenne31::valid(a) && Mersenne31::valid(b) ==> {
            &&& Mersenne31::radd(a, b) < 0x7FFF_FFFF
            &&& Mersenne31::radd(a, b) == a + b || Mersenne31::radd(a, b) + 0x7FFF_FFFF == a + b
            &&& Mersenne31::rmul(a, b) < 0x7FFF_FFFF
            &&& (a * b - Mersenne31::rmul(a, b)) % 0x7FFF_FFFF == 0
            &&& Mersenne31::rneg(a) == 0 && a == 0 || Mersenne31::rneg(a) + a == 0x7FFF_FFFF
        },
{
    lemma_remainder(a * b, 0x7FFF_FFFF);
}

/// QuadMersenne31: pairs of residues below `2^31 - 1`, with `i^2 = -1`.
pub proof fn law_quad_mersenne31_arithmetic(a: Quad, b: Quad)
    ensures
        QuadMersenne31::valid(a) <==> a.re < 0x7FFF_FFFF && a.im < 0x7FFF_FFFF,
        QuadMersenne31::rzero() == (Quad { re: 0, im: 0 }),
        QuadMersenne31::rone() == (Quad { re: 1, im: 0 }),
        QuadMersenne31::order() == 0x7FFF_FFFF * 0x7FFF_FFFF,
        QuadMersenne31::valid(a) && QuadMersenne31::valid(b) ==> ({
            let s = QuadMersenne31::radd(a, b);
            let m = QuadMersenne31::rmul(a, b);
            let n = QuadMersenne31::rneg(a);
            &&& s.re < 0x7FFF_FFFF && s.im < 0x7FFF_FFFF
            &&& s.re == a.re + b.re || s.re + 0x7FFF_FFFF == a.re + b.re
            &&& s.im == a.im + b.im || s.im + 0x7FFF_FFFF == a.im + b.im
            &&& m.re < 0x7FFF_FFFF && m.im < 0x7FFF_FFFF
            &&& (a.re * b.re - a.im * b.im - m.re) % 0x7FFF_FFFF == 0
            &&& (a.re * b.im + a.im * b.re - m.im) % 0x7FFF_FFFF == 0
            &&& QuadMersenne31::radd(a, n) == (Quad { re: 0, im: 0 })
        }),
{
    let p = 0x7FFF_FFFFint;
    lemma_remainder(a.re * b.re - a.im * b.im, p);
    lemma_remainder(a.re * b.im + a.im * b.re, p);
    if QuadMersenne31::valid(a) {
        QuadMersenne31::lemma_ring(a, a, a);
    }
    assert(0x7FFF_FFFFint * 0x7FFF_FFFF == 0x3FFF_FFFF_0000_0001int);
}

/// The word of a Goldilocks element: eight bytes. Words add up as their elements
/// do, the words zero and one are zero and one, and the word of an element is its
/// residue.
pub proof fn law_goldilocks_words(x: nat, y: nat, e: u64)
    ensures
        Goldilocks::code_bytes() == 8,
        Goldilocks::of_word(0) == 0,
        Goldilocks::of_word(1) == 1,
        Goldilocks::of_word(x + y) == Goldilocks::radd(
            Goldilocks::of_word(x),
            Goldilocks::of_word(y),
        ),
        x < 0xFFFF_FFFF_0000_0001 ==> Goldilocks::of_word(x) == x && Goldilocks::to_word(
            Goldilocks::of_word(x),
        ) == x,
        e < 0xFFFF_FFFF_0000_0001 ==> Goldilocks::to_word(e) == e,
{
    lemma_add_mod_noop(x as int, y as int, 0xFFFF_FFFF_0000_0001);
}

/// The word of a Mersenne31 element: four bytes. Words add up as their elements do,
/// the words zero and one are zero and one, and the word of an element is its
/// residue.
pub proof fn law_mersenne31_words(x: nat, y: nat, e: u32)
    ensures
        Mersenne31::code_bytes() == 4,
        Mersenne31::of_word(0) == 0,
        Mersenne31::of_word(1) == 1,
        Mersenne31::of_word(x + y) == Mersenne31::radd(
            Mersenne31::of_word(x),
            Mersenne31::of_word(y),
        ),
        x < 0x7FFF_FFFF ==> Mersenne31::of_word(x) == x && Mersenne31::to_word(
            Mersenne31::of_word(x),
        ) == x,
        e < 0x7FFF_FFFF ==> Mersenne31::to_word(e) == e,
{
    lemma_add_mod_noop(x as int, y as int, 0x7FFF_FFFF);
}

/// The parts of a word by its halves.
proof fn lemma_quad_word(x: nat, u: nat)
    requires
        x < 0x1_0000_0000,
    ensures
        QuadMersenne31::of_word(x + 0x1_0000_0000 * u).re == x as int % 0x7FFF_FFFF,
        QuadMersenne31::of_word(x + 0x1_0000_0000 * u).im == u as int % 0x7FFF_FFFF,
{
    lemma_fundamental_div_mod_converse(
        (x + 0x1_0000_0000 * u) as int,
        0x1_0000_0000,
        u as int,
        x as int,
    );
}

/// The word of a QuadMersenne31 element: eight bytes, the real part in the low half
/// and the imaginary part in the high half. The halves add up as the parts do, the
/// words zero and one are zero and one, and `2^32` stands for `i`.
pub proof fn law_quad_mersenne31_words(x: nat, y: nat, u: nat, v: nat, e: Quad)
    requires
        x + y < 0x1_0000_0000,
    ensures
        QuadMersenne31::code_bytes() == 8,
        QuadMersenne31::of_word(0) == QuadMersenne31::rzero(),
        QuadMersenne31::of_word(1) == QuadMersenne31::rone(),
        QuadMersenne31::of_word(0x1_0000_0000) == (Quad { re: 0, im: 1 }),
        QuadMersenne31::of_word((x + y) + 0x1_0000_0000 * (u + v)) == QuadMersenne31::radd(
            QuadMersenne31::of_word(x + 0x1_0000_0000 * u),
            QuadMersenne31::of_word(y + 0x1_0000_0000 * v),
        ),
        x < 0x7FFF_FFFF && u < 0x7FFF_FFFF ==> {
            &&& QuadMersenne31::of_word(x + 0x1_0000_0000 * u) == (Quad {
                re: x as u32,
                im: u as u32,
            })
            &&& QuadMersenne31::to_word(QuadMersenne31::of_word(x + 0x1_0000_0000 * u)) == x
                + 0x1_0000_0000 * u
        },
        e.re < 0x7FFF_FFFF && e.im < 0x7FFF_FFFF ==> QuadMersenne31::to_word(e) % 0x1_0000_0000
            == e.re && QuadMersenne31::to_word(e) / 0x1_0000_0000 == e.im,
{
    let p = 0x7FFF_FFFFint;
    lemma_add_mod_noop(x as int, y as int, p);
    lemma_add_mod_noop(u as int, v as int, p);
    lemma_quad_word(x, u);
    lemma_quad_word(y, v);
    lemma_quad_word(x + y, u + v);
    lemma_quad_word(0, 0);
    lemma_quad_word(1, 0);
    lemma_quad_word(0, 1);
    if x < 0x7FFF_FFFF && u < 0x7FFF_FFFF {
        lemma_small_mod(x, p as nat);
        lemma_small_mod(u, p as nat);
    }
    lemma_fundamental_div_mod_converse(
        e.re as int + 0x1_0000_0000 * e.im as int,
        0x1_0000_0000,
        e.im as int,
        e.re as int,
    );
}

/// What decoding and encoding a word of QuadMersenne31 return: the halves of the
/// word, up to multiples of the modulus, and back.
pub proof fn law_quad_mersenne31_codes(x: u64, e: Quad, f: Quad, y: u64)
    requires
        call_ensures(<QuadMersenne31 as NttField>::decode, (x,), e),
        QuadMersenne31::valid(f),
        call_ensures(<QuadMersenne31 as NttField>::encode, (f,), y),
    ensures
        e.re < 0x7FFF_FFFF && (x % 0x1_0000_0000 - e.re) % 0x7FFF_FFFF == 0,
        e.im < 0x7FFF_FFFF && (x / 0x1_0000_0000 - e.im) % 0x7FFF_FFFF == 0,
        y % 0x1_0000_0000 == f.re,
        y / 0x1_0000_0000 == f.im,
{
    lemma_limits();
    lemma_remainder(x as int % 0x1_0000_0000, 0x7FFF_FFFF);
    lemma_remainder(x as int / 0x1_0000_0000, 0x7FFF_FFFF);
}

/// What decoding and encoding a word of Goldilocks return: the word, up to
/// multiples of the modulus, and back.
pub proof fn law_goldilocks_codes(x: u64, e: u64, f: u64, y: u64)
    requires
        call_ensures(<Goldilocks as NttField>::decode, (x,), e),
        Goldilocks::valid(f),
        call_ensures(<Goldilocks as NttField>::encode, (f,), y),
    ensures
        e == x && x < 0xFFFF_FFFF_0000_0001 || e + 0xFFFF_FFFF_0000_0001 == x,
        y == f,
{
    lemma_limits();
}

/// What decoding and encoding a word of Mersenne31 return: the word, up to
/// multiples of the modulus, and back.
pub proof fn law_mersenne31_codes(x: u64, e: u32, f: u32, y: u64)
    requires
        x < 0x1_0000_0000,
        call_ensures(<Mersenne31 as NttField>::decode, (x,), e),
        Mersenne31::valid(f),
        call_ensures(<Mersenne31 as NttField>::encode, (f,), y),
    ensures
        e < 0x7FFF_FFFF && (x - e) % 0x7FFF_FFFF == 0,
        y == f,
{
    lemma_limits();
    lemma_remainder(x as int, 0x7FFF_FFFF);
}

/// Binary fields have one word for each element: its bit pattern.
pub proof fn law_binary_words<F: BinaryField>(e: <F as BinaryField>::Elem)
    ensures
        8 * <F as NttField>::code_bytes() == F::width(),
        <F as NttField>::to_word(e) == F::raw(e),
        <F as NttField>::of_word(F::raw(e) as nat) == e,
        <F as NttField>::generator() == <F as Ring>::rone(),
{
    F::lemma_width();
    F::lemma_raw(e, 0);
}

/// The elements that a buffer of eight-byte elements stands for are those of its
/// little-endian words, in order.
pub proof fn law_values_of_eight_bytes<F: NttField>(bytes: Seq<u8>, i: int)
    requires
        F::code_bytes() == 8,
        0 <= i < bytes.len() / 8,
    ensures
        values::<F>(bytes).len() == bytes.len() / 8,
        values::<F>(bytes)[i] == F::of_word(
            (bytes[8 * i] + 0x100 * bytes[8 * i + 1] + 0x1_0000 * bytes[8 * i + 2] + 0x100_0000
                * bytes[8 * i + 3] + 0x1_0000_0000 * bytes[8 * i + 4] + 0x100_0000_0000 * bytes[8
                * i + 5] + 0x1_0000_0000_0000 * bytes[8 * i + 6] + 0x100_0000_0000_0000 * bytes[8
                * i + 7]) as nat,
        ),
{
    law_words_are_little_endian(bytes, 8, i);
}

/// The elements that a buffer of four-byte elements stands for are those of its
/// little-endian words, in order.
pub proof fn law_values_of_four_bytes<F: NttField>(bytes: Seq<u8>, i: int)
    requires
        F::code_bytes() == 4,
        0 <= i < bytes.len() / 4,
    ensures
        values::<F>(bytes).len() == bytes.len() / 4,
        values::<F>(bytes)[i] == F::of_word(
            (bytes[4 * i] + 0x100 * bytes[4 * i + 1] + 0x1_0000 * bytes[4 * i + 2] + 0x100_0000
                * bytes[4 * i + 3]) as nat,
        ),
{
    law_words_are_little_endian(bytes, 4, i);
}

/// The roots of the plans are powers of 7 modulo the Goldilocks modulus, of 7 modulo
/// the Mersenne31 modulus, and of `1 + 12 i`.
pub proof fn law_roots_are_powers_of_the_generators(size: usize)
    requires
        size > 0,
    ensures
        root_of::<Goldilocks>(size) == rpow::<Goldilocks>(
            7,
            (0xFFFF_FFFF_0000_0000int / size as int) as nat,
        ),
        root_of::<Mersenne31>(size) == rpow::<Mersenne31>(
            7,
            (0x7FFF_FFFEint / size as int) as nat,
        ),
        root_of::<QuadMersenne31>(size) == rpow::<QuadMersenne31>(
            Quad { re: 1, im: 12 },
            (0x3FFF_FFFF_0000_0000int / size as int) as nat,
        ),
{
}

/// Powers: none is one, and one more factor is one more exponent.
pub proof fn law_powers<R: Ring>(x: R::Elem, n: nat)
    ensures
        rpow::<R>(x, 0) == R::rone(),
        rpow::<R>(x, n + 1) == R::rmul(rpow::<R>(x, n), x),
{
}

/// A sum with one term that is not zero.
proof fn lemma_sum_single<R: Ring>(f: spec_fn(int) -> R::Elem, n: nat, at: int)
    requires
        0 <= at < n,
        R::valid(f(at)),
        forall|i: int| 0 <= i < n && i != at ==> #[trigger] f(i) == R::rzero(),
    ensures
        rsum::<R>(f, n) == f(at),
    decreases n,
{
    R::lemma_units();
    let m = (n - 1) as nat;
    if at == m {
        lemma_sum_zero::<R>(f, m);
        lemma_neg::<R>(f(at), f(at));
    } else {
        lemma_sum_single::<R>(f, m, at);
        assert(f(m as int) == R::rzero());
        R::lemma_ring(f(at), R::rzero(), R::rzero());
    }
}

/// The transform of an impulse: where only entry `j` is not zero, output `k` is that
/// entry times `w^(j k)`.
pub proof fn law_transform_of_an_impulse<R: Ring>(x: Seq<R::Elem>, w: R::Elem, j: int, k: nat)
    requires
        all_valid::<R>(x),
        R::valid(w),
        0 <= j < x.len(),
        forall|i: int| 0 <= i < x.len() && i != j ==> #[trigger] x[i] == R::rzero(),
    ensures
        dft::<R>(x, w, k) == R::rmul(x[j], rpow::<R>(w, (j * k) as nat)),
        j == 0 ==> dft::<R>(x, w, k) == x[0],
{
    let f = |i: int| dft_term::<R>(x, w, k, i);
    lemma_dft_term_valid::<R>(x, w, k, j);
    assert forall|i: int| 0 <= i < x.len() && i != j implies #[trigger] f(i) == R::rzero() by {
        assert(x[i] == R::rzero());
        lemma_pow_valid::<R>(w, (i * k) as nat);
        let p = rpow::<R>(w, (i * k) as nat);
        lemma_neg::<R>(p, p);
    }
    lemma_sum_single::<R>(f, x.len(), j);
    if j == 0 {
        assert(0 * k == 0) by (nonlinear_arith);
        R::lemma_units();
        R::lemma_ring(x[0], x[0], x[0]);
    }
}

/// The transform of a sum is the sum of the transforms.
pub proof fn law_transform_is_additive<R: Ring>(
    x: Seq<R::Elem>,
    y: Seq<R::Elem>,
    s: Seq<R::Elem>,
    w: R::Elem,
    k: nat,
)
    requires
        all_valid::<R>(x),
        all_valid::<R>(y),
        R::valid(w),
        x.len() == y.len(),
        s.len() == x.len(),
        forall|i: int| 0 <= i < s.len() ==> #[trigger] s[i] == R::radd(x[i], y[i]),
    ensures
        dft::<R>(s, w, k) == R::radd(dft::<R>(x, w, k), dft::<R>(y, w, k)),
{
    let f = |i: int| dft_term::<R>(x, w, k, i);
    let g = |i: int| dft_term::<R>(y, w, k, i);
    let h = |i: int| dft_term::<R>(s, w, k, i);
    assert forall|i: int| 0 <= i < x.len() implies R::valid(#[trigger] f(i)) by {
        lemma_dft_term_valid::<R>(x, w, k, i);
    }
    assert forall|i: int| 0 <= i < x.len() implies R::valid(#[trigger] g(i)) by {
        lemma_dft_term_valid::<R>(y, w, k, i);
    }
    assert forall|i: int| 0 <= i < x.len() implies #[trigger] h(i) == R::radd(f(i), g(i)) by {
        let p = rpow::<R>(w, (i * k) as nat);
        lemma_pow_valid::<R>(w, (i * k) as nat);
        assert(R::valid(x[i]) && R::valid(y[i]));
        assert(s[i] == R::radd(x[i], y[i]));
        R::lemma_ring(p, x[i], y[i]);
        R::lemma_ring(x[i], p, p);
        R::lemma_ring(y[i], p, p);
        R::lemma_ring(x[i], y[i], p);
        R::lemma_ring(s[i], p, p);
    }
    lemma_sum_add::<R>(f, g, h, x.len());
}

/// Rows of an impulse: where every row of a buffer but row `j` is zero, row `k` of
/// its transform is row `j` times `w^(j k)`, lane by lane; an impulse in the first
/// row spreads to every row as it is.
pub proof fn law_rows_of_an_impulse<F: NttField>(
    before: Seq<u8>,
    after: Seq<u8>,
    lanes: nat,
    n: nat,
    w: F::Elem,
    j: int,
    k: int,
    l: int,
)
    requires
        F::valid(w),
        rows_transformed::<F>(before, after, lanes, n, w),
        values::<F>(before).len() == n * lanes,
        0 <= j < n,
        0 <= k < n,
        0 <= l < lanes,
        forall|i: int, m: int|
            0 <= i < n && i != j && 0 <= m < lanes ==> #[trigger] values::<F>(before)[i * lanes + m]
                == F::rzero(),
    ensures
        values::<F>(after)[k * lanes + l] == F::rmul(
            values::<F>(before)[j * lanes + l],
            rpow::<F>(w, (j * k) as nat),
        ),
        j == 0 ==> values::<F>(after)[k * lanes + l] == values::<F>(before)[l],
{
    let v = values::<F>(before);
    lemma_code_bytes::<F>();
    lemma_values_valid::<F>(before);
    let x = column(v, lanes, l, n);
    assert forall|i: int| 0 <= i < n implies F::valid(#[trigger] x[i]) by {
        lemma_place(i, l, lanes as int, n as int);
        assert(F::valid(v[i * lanes + l]));
    }
    assert forall|i: int| 0 <= i < n && i != j implies #[trigger] x[i] == F::rzero() by {
        assert(v[i * lanes + l] == F::rzero());
    }
    law_transform_of_an_impulse::<F>(x, w, j, k as nat);
    assert(entry(values::<F>(after), lanes, k, l) == dft::<F>(x, w, k as nat));
}

/// Canonical rows: every word is below the modulus, and of the quadratic extension
/// every half of a word.
pub proof fn law_canonical_rows(bytes: Seq<u8>)
    ensures
        canonical::<Goldilocks>(bytes) <==> (forall|i: int|
            0 <= i < bytes.len() / 8 ==> #[trigger] words(bytes, 8)[i] < 0xFFFF_FFFF_0000_0001),
        canonical::<Mersenne31>(bytes) <==> (forall|i: int|
            0 <= i < bytes.len() / 4 ==> #[trigger] words(bytes, 4)[i] < 0x7FFF_FFFF),
        canonical::<QuadMersenne31>(bytes) <==> (forall|i: int|
            0 <= i < bytes.len() / 8 ==> #[trigger] words(bytes, 8)[i] % 0x1_0000_0000 < 0x7FFF_FFFF
                && words(bytes, 8)[i] / 0x1_0000_0000 < 0x7FFF_FFFF),
{
    assert forall|i: int| 0 <= i < bytes.len() / 8 implies {
        &&& Goldilocks::to_word(Goldilocks::of_word(#[trigger] words(bytes, 8)[i])) == words(
            bytes,
            8,
        )[i] <==> words(bytes, 8)[i] < 0xFFFF_FFFF_0000_0001
        &&& QuadMersenne31::to_word(QuadMersenne31::of_word(words(bytes, 8)[i])) == words(
            bytes,
            8,
        )[i] <==> words(bytes, 8)[i] % 0x1_0000_0000 < 0x7FFF_FFFF && words(bytes, 8)[i]
            / 0x1_0000_0000 < 0x7FFF_FFFF
    } by {
        lemma_word_bound(bytes, 8, i);
        lemma_limits();
        let w = words(bytes, 8)[i];
        lemma_quad_canonical(w);
    }
    assert forall|i: int| 0 <= i < bytes.len() / 4 implies (Mersenne31::to_word(
        Mersenne31::of_word(#[trigger] words(bytes, 4)[i]),
    ) == words(bytes, 4)[i] <==> words(bytes, 4)[i] < 0x7FFF_FFFF) by {
        lemma_word_bound(bytes, 4, i);
        lemma_limits();
    }
}

proof fn lemma_quad_canonical(w: nat)
    ensures
        QuadMersenne31::to_word(QuadMersenne31::of_word(w)) == w <==> w % 0x1_0000_0000
            < 0x7FFF_FFFF && w / 0x1_0000_0000 < 0x7FFF_FFFF,
{
    let (x, u) = (w % 0x1_0000_0000, w / 0x1_0000_0000);
    let p = 0x7FFF_FFFFnat;
    lemma_fundamental_div_mod(w as int, 0x1_0000_0000);
    lemma_fundamental_div_mod(x as int, p as int);
    lemma_fundamental_div_mod(u as int, p as int);
    if x < p {
        lemma_small_mod(x, p);
    }
    if u < p {
        lemma_small_mod(u, p);
    }
}

/// The ring of a binary field is the field.
pub proof fn law_binary_arithmetic<F: BinaryField>(
    a: <F as BinaryField>::Elem,
    b: <F as BinaryField>::Elem,
)
    ensures
        <F as Ring>::valid(a),
        <F as Ring>::radd(a, b) == fadd::<F>(a, b),
        <F as Ring>::rmul(a, b) == fmul::<F>(a, b),
        <F as Ring>::rneg(a) == a,
        <F as Ring>::rzero() == fzero::<F>(),
        <F as Ring>::rone() == fone::<F>(),
        <F as NttField>::order() == pow2(F::width() as nat),
{
    crate::transform::plan::lemma_width_span::<F>();
    crate::transform::accept::law_spans_are_powers_of_two(F::width() as nat);
}

} // verus!
