//! Fields with multiplicative transforms.

use vstd::prelude::*;

use crate::field::tower::mask;
use crate::field::{
    self, fadd, fmul, fone, fzero, lemma_add, lemma_mul, lemma_one_not_zero, BinaryField,
};
use crate::ntt::arith::{
    goldilocks_inv, goldilocks_mul, goldilocks_pow, goldilocks_vectorized, mersenne31_inv,
    mersenne31_mul, mersenne31_pow, mersenne31_vectorized, quad_mersenne31_inv,
    quad_mersenne31_mul, quad_mersenne31_pow, quad_mersenne31_vectorized,
};
use crate::ntt::generator::{
    lemma_goldilocks_generator, lemma_mersenne31_generator, lemma_quad_generator, quad_generator,
    GOLDILOCKS_GENERATOR, MERSENNE31_GENERATOR,
};
use crate::ntt::prime::{
    Goldilocks, Mersenne31, Quad, QuadMersenne31, GOLDILOCKS_MODULUS, MERSENNE31_MODULUS,
};
use crate::ntt::ring::{
    characteristic_two, lemma_one_pow, lemma_pow_product, lemma_pow_sum, rembed, rpow, rsub, Ring,
};
use crate::span::{is_span, lemma_span_monotone, span};
use crate::words::{lemma_limits, limit};

verus! {

/// A finite field with a generator of its multiplicative group and a byte code
/// for its elements.
pub trait NttField: Ring {
    /// The width of an encoded element in bytes.
    spec fn code_bytes() -> nat;

    /// The element that a word stands for, in canonical form.
    spec fn of_word(x: nat) -> Self::Elem;

    /// The word that a canonical element is stored as.
    spec fn to_word(e: Self::Elem) -> nat;

    /// The number of elements.
    spec fn order() -> nat;

    /// An element whose powers hold every root of unity of power-of-two order.
    spec fn generator() -> Self::Elem;

    proof fn lemma_word(e: Self::Elem, x: nat)
        ensures
            1 <= Self::code_bytes() <= 8,
            x < limit(Self::code_bytes()) ==> Self::valid(Self::of_word(x)),
            Self::valid(e) ==> Self::to_word(e) < limit(Self::code_bytes()) && Self::of_word(
                Self::to_word(e),
            ) == e,
    ;

    /// Half the group order takes the generator to minus one, or the group
    /// order is odd and takes it to one.
    proof fn lemma_generator()
        ensures
            2 <= Self::order() <= u64::MAX + 1,
            Self::valid(Self::generator()),
            Self::rone() != Self::rzero(),
            Self::order() % 2 == 1 ==> Self::rone() != Self::rneg(Self::rone()) && rpow::<Self>(
                Self::generator(),
                ((Self::order() - 1) / 2) as nat,
            ) == Self::rneg(Self::rone()),
            Self::order() % 2 == 0 ==> rpow::<Self>(
                Self::generator(),
                (Self::order() - 1) as nat,
            ) == Self::rone(),
    ;

    /// A transform size is not zero in the field.
    proof fn lemma_size(n: nat)
        requires
            is_span(n),
            n <= 0x10_0000,
            (Self::order() - 1) % (n as int) == 0,
        ensures
            rembed::<Self>(n) != Self::rzero(),
    ;

    /// The width of an encoded element in bytes.
    fn element_bytes() -> (n: usize)
        ensures
            n == Self::code_bytes(),
    ;

    /// The number of elements.
    fn field_order() -> (n: u128)
        ensures
            n == Self::order(),
    ;

    /// Whether the characteristic is two. Every word is then canonical.
    fn binary() -> (b: bool)
        ensures
            b == characteristic_two::<Self>(),
            b ==> forall|x: nat| x < limit(Self::code_bytes()) ==> Self::to_word(#[trigger] Self::of_word(x)) == x,
    ;

    /// Whether the machine multiplies rows of this field with a vector kernel.
    ///
    /// The answer rests on the machine, except in characteristic two: there the
    /// only transform size is one, nothing is multiplied, and no kernel is used.
    fn vectorized() -> (b: bool)
        ensures
            characteristic_two::<Self>() ==> !b,
    ;

    /// The generator.
    fn root_generator() -> (e: Self::Elem)
        ensures
            e == Self::generator(),
    ;

    /// The canonical element that a word stands for.
    fn decode(x: u64) -> (e: Self::Elem)
        requires
            x < limit(Self::code_bytes()),
        ensures
            e == Self::of_word(x as nat),
    ;

    /// The word that a canonical element is stored as.
    fn encode(e: Self::Elem) -> (x: u64)
        requires
            Self::valid(e),
        ensures
            x == Self::to_word(e),
    ;

    fn zero() -> (e: Self::Elem)
        ensures
            e == Self::rzero(),
    ;

    fn one() -> (e: Self::Elem)
        ensures
            e == Self::rone(),
    ;

    fn plus(a: Self::Elem, b: Self::Elem) -> (c: Self::Elem)
        requires
            Self::valid(a),
            Self::valid(b),
        ensures
            c == Self::radd(a, b),
    ;

    fn minus(a: Self::Elem, b: Self::Elem) -> (c: Self::Elem)
        requires
            Self::valid(a),
            Self::valid(b),
        ensures
            c == rsub::<Self>(a, b),
    ;

    fn times(a: Self::Elem, b: Self::Elem) -> (c: Self::Elem)
        requires
            Self::valid(a),
            Self::valid(b),
        ensures
            c == Self::rmul(a, b),
    ;

    fn power(a: Self::Elem, exponent: u64) -> (c: Self::Elem)
        requires
            Self::valid(a),
        ensures
            c == rpow::<Self>(a, exponent as nat),
    ;

    /// The multiplicative inverse; zero maps to zero.
    fn reciprocal(a: Self::Elem) -> (b: Self::Elem)
        requires
            Self::valid(a),
        ensures
            Self::valid(b),
            a == Self::rzero() ==> b == Self::rzero(),
            a != Self::rzero() ==> Self::rmul(a, b) == Self::rone(),
    ;

    fn same(a: Self::Elem, b: Self::Elem) -> (r: bool)
        ensures
            r == (a == b),
    ;
}

proof fn lemma_goldilocks_embed(n: nat)
    requires
        n < GOLDILOCKS_MODULUS,
    ensures
        rembed::<Goldilocks>(n) == n,
    decreases n,
{
    if n > 0 {
        lemma_goldilocks_embed((n - 1) as nat);
    }
}

proof fn lemma_mersenne31_embed(n: nat)
    requires
        n < MERSENNE31_MODULUS,
    ensures
        rembed::<Mersenne31>(n) == n,
    decreases n,
{
    if n > 0 {
        lemma_mersenne31_embed((n - 1) as nat);
    }
}

proof fn lemma_quad_embed(n: nat)
    requires
        n < MERSENNE31_MODULUS,
    ensures
        rembed::<QuadMersenne31>(n) == (Quad { re: n as u32, im: 0 }),
    decreases n,
{
    if n > 0 {
        lemma_quad_embed((n - 1) as nat);
    }
}

proof fn lemma_span_positive(n: nat)
    requires
        is_span(n),
    ensures
        n >= 1,
        n == 1 || n % 2 == 0,
{
    let k = choose|k: nat| #[trigger] span(k) == n;
    lemma_span_monotone(0, k);
}

/// The sum of two residues.
fn residue_sum(a: u32, b: u32) -> (c: u32)
    requires
        Mersenne31::valid(a),
        Mersenne31::valid(b),
    ensures
        c == Mersenne31::radd(a, b),
{
    let s: u32 = a + b;
    if s >= MERSENNE31_MODULUS {
        s - MERSENNE31_MODULUS
    } else {
        s
    }
}

/// The difference of two residues.
fn residue_difference(a: u32, b: u32) -> (c: u32)
    requires
        Mersenne31::valid(a),
        Mersenne31::valid(b),
    ensures
        c == rsub::<Mersenne31>(a, b),
{
    if a >= b {
        a - b
    } else {
        a + (MERSENNE31_MODULUS - b)
    }
}

impl NttField for Goldilocks {
    open spec fn code_bytes() -> nat {
        8
    }

    open spec fn of_word(x: nat) -> u64 {
        (x % GOLDILOCKS_MODULUS as nat) as u64
    }

    open spec fn to_word(e: u64) -> nat {
        e as nat
    }

    open spec fn order() -> nat {
        GOLDILOCKS_MODULUS as nat
    }

    open spec fn generator() -> u64 {
        GOLDILOCKS_GENERATOR
    }

    proof fn lemma_word(e: u64, x: nat) {
        lemma_limits();
    }

    proof fn lemma_generator() {
        lemma_goldilocks_generator();
    }

    proof fn lemma_size(n: nat) {
        lemma_span_positive(n);
        lemma_goldilocks_embed(n);
    }

    fn element_bytes() -> (n: usize) {
        8
    }

    fn field_order() -> (n: u128) {
        0xFFFF_FFFF_0000_0001
    }

    fn binary() -> (b: bool) {
        false
    }

    fn vectorized() -> (b: bool) {
        goldilocks_vectorized()
    }

    fn root_generator() -> (e: u64) {
        GOLDILOCKS_GENERATOR
    }

    fn decode(x: u64) -> (e: u64) {
        x % GOLDILOCKS_MODULUS
    }

    fn encode(e: u64) -> (x: u64) {
        e
    }

    fn zero() -> (e: u64) {
        0
    }

    fn one() -> (e: u64) {
        1
    }

    fn plus(a: u64, b: u64) -> (c: u64) {
        if a >= GOLDILOCKS_MODULUS - b {
            a - (GOLDILOCKS_MODULUS - b)
        } else {
            a + b
        }
    }

    fn minus(a: u64, b: u64) -> (c: u64) {
        if a >= b {
            a - b
        } else {
            a + (GOLDILOCKS_MODULUS - b)
        }
    }

    fn times(a: u64, b: u64) -> (c: u64) {
        goldilocks_mul(a, b)
    }

    fn power(a: u64, exponent: u64) -> (c: u64) {
        goldilocks_pow(a, exponent)
    }

    fn reciprocal(a: u64) -> (b: u64) {
        goldilocks_inv(a)
    }

    fn same(a: u64, b: u64) -> (r: bool) {
        a == b
    }
}

impl NttField for Mersenne31 {
    open spec fn code_bytes() -> nat {
        4
    }

    open spec fn of_word(x: nat) -> u32 {
        (x % MERSENNE31_MODULUS as nat) as u32
    }

    open spec fn to_word(e: u32) -> nat {
        e as nat
    }

    open spec fn order() -> nat {
        MERSENNE31_MODULUS as nat
    }

    open spec fn generator() -> u32 {
        MERSENNE31_GENERATOR
    }

    proof fn lemma_word(e: u32, x: nat) {
        lemma_limits();
    }

    proof fn lemma_generator() {
        lemma_mersenne31_generator();
    }

    proof fn lemma_size(n: nat) {
        lemma_span_positive(n);
        lemma_mersenne31_embed(n);
    }

    fn element_bytes() -> (n: usize) {
        4
    }

    fn field_order() -> (n: u128) {
        0x7FFF_FFFF
    }

    fn binary() -> (b: bool) {
        false
    }

    fn vectorized() -> (b: bool) {
        mersenne31_vectorized()
    }

    fn root_generator() -> (e: u32) {
        MERSENNE31_GENERATOR
    }

    fn decode(x: u64) -> (e: u32) {
        proof {
            lemma_limits();
        }
        (x % MERSENNE31_MODULUS as u64) as u32
    }

    fn encode(e: u32) -> (x: u64) {
        e as u64
    }

    fn zero() -> (e: u32) {
        0
    }

    fn one() -> (e: u32) {
        1
    }

    fn plus(a: u32, b: u32) -> (c: u32) {
        residue_sum(a, b)
    }

    fn minus(a: u32, b: u32) -> (c: u32) {
        residue_difference(a, b)
    }

    fn times(a: u32, b: u32) -> (c: u32) {
        mersenne31_mul(a, b)
    }

    fn power(a: u32, exponent: u64) -> (c: u32) {
        mersenne31_pow(a, exponent)
    }

    fn reciprocal(a: u32) -> (b: u32) {
        mersenne31_inv(a)
    }

    fn same(a: u32, b: u32) -> (r: bool) {
        a == b
    }
}

impl NttField for QuadMersenne31 {
    open spec fn code_bytes() -> nat {
        8
    }

    open spec fn of_word(x: nat) -> Quad {
        Quad {
            re: (x % 0x1_0000_0000 % MERSENNE31_MODULUS as nat) as u32,
            im: (x / 0x1_0000_0000 % MERSENNE31_MODULUS as nat) as u32,
        }
    }

    open spec fn to_word(e: Quad) -> nat {
        e.re as nat + 0x1_0000_0000 * e.im as nat
    }

    open spec fn order() -> nat {
        0x3FFF_FFFF_0000_0001
    }

    open spec fn generator() -> Quad {
        quad_generator()
    }

    proof fn lemma_word(e: Quad, x: nat) {
        lemma_limits();
        assert(Self::valid(e) ==> Self::of_word(Self::to_word(e)) == e);
    }

    proof fn lemma_generator() {
        lemma_quad_generator();
    }

    proof fn lemma_size(n: nat) {
        lemma_span_positive(n);
        lemma_quad_embed(n);
    }

    fn element_bytes() -> (n: usize) {
        8
    }

    fn field_order() -> (n: u128) {
        0x3FFF_FFFF_0000_0001
    }

    fn binary() -> (b: bool) {
        false
    }

    fn vectorized() -> (b: bool) {
        quad_mersenne31_vectorized()
    }

    fn root_generator() -> (e: Quad) {
        Quad { re: 1, im: 12 }
    }

    fn decode(x: u64) -> (e: Quad) {
        let low: u64 = x % 0x1_0000_0000;
        let high: u64 = x / 0x1_0000_0000;
        Quad {
            re: (low % MERSENNE31_MODULUS as u64) as u32,
            im: (high % MERSENNE31_MODULUS as u64) as u32,
        }
    }

    fn encode(e: Quad) -> (x: u64) {
        e.re as u64 + 0x1_0000_0000 * e.im as u64
    }

    fn zero() -> (e: Quad) {
        Quad { re: 0, im: 0 }
    }

    fn one() -> (e: Quad) {
        Quad { re: 1, im: 0 }
    }

    fn plus(a: Quad, b: Quad) -> (c: Quad) {
        Quad { re: residue_sum(a.re, b.re), im: residue_sum(a.im, b.im) }
    }

    fn minus(a: Quad, b: Quad) -> (c: Quad) {
        Quad { re: residue_difference(a.re, b.re), im: residue_difference(a.im, b.im) }
    }

    fn times(a: Quad, b: Quad) -> (c: Quad) {
        quad_mersenne31_mul(a, b)
    }

    fn power(a: Quad, exponent: u64) -> (c: Quad) {
        quad_mersenne31_pow(a, exponent)
    }

    fn reciprocal(a: Quad) -> (b: Quad) {
        quad_mersenne31_inv(a)
    }

    fn same(a: Quad, b: Quad) -> (r: bool) {
        a == b
    }
}

impl<F: BinaryField> Ring for F {
    type Elem = <F as BinaryField>::Elem;

    open spec fn valid(a: <F as BinaryField>::Elem) -> bool {
        true
    }

    open spec fn rzero() -> <F as BinaryField>::Elem {
        fzero::<F>()
    }

    open spec fn rone() -> <F as BinaryField>::Elem {
        fone::<F>()
    }

    open spec fn radd(
        a: <F as BinaryField>::Elem,
        b: <F as BinaryField>::Elem,
    ) -> <F as BinaryField>::Elem {
        fadd::<F>(a, b)
    }

    open spec fn rneg(a: <F as BinaryField>::Elem) -> <F as BinaryField>::Elem {
        a
    }

    open spec fn rmul(
        a: <F as BinaryField>::Elem,
        b: <F as BinaryField>::Elem,
    ) -> <F as BinaryField>::Elem {
        fmul::<F>(a, b)
    }

    proof fn lemma_units() {
    }

    proof fn lemma_ring(
        a: <F as BinaryField>::Elem,
        b: <F as BinaryField>::Elem,
        c: <F as BinaryField>::Elem,
    ) {
        lemma_add::<F>(a, b, c);
        lemma_mul::<F>(a, b, c);
    }
}

/// `a^exponent` by repeated squaring.
fn binary_power<F: BinaryField>(
    a: <F as BinaryField>::Elem,
    exponent: u64,
) -> (c: <F as BinaryField>::Elem)
    ensures
        c == rpow::<F>(a, exponent as nat),
{
    let mut base = a;
    let mut rest: u64 = exponent;
    let mut result = field::one::<F>();
    proof {
        lemma_mul::<F>(rpow::<F>(a, exponent as nat), fone::<F>(), fone::<F>());
    }
    while rest > 0
        invariant
            fmul::<F>(result, rpow::<F>(base, rest as nat)) == rpow::<F>(a, exponent as nat),
        decreases rest,
    {
        let ghost old_base = base;
        let ghost old_result = result;
        let ghost old_rest = rest;
        if rest % 2 == 1 {
            result = field::times::<F>(result, base);
        }
        base = field::times::<F>(base, base);
        rest = rest / 2;
        proof {
            let half = rest as nat;
            reveal_with_fuel(rpow, 3);
            lemma_mul::<F>(old_base, old_base, old_base);
            lemma_mul::<F>(fone::<F>(), old_base, old_base);
            assert(rpow::<F>(old_base, 2) == base);
            lemma_pow_product::<F>(old_base, 2, half);
            lemma_pow_sum::<F>(old_base, 1, 2 * half);
            lemma_mul::<F>(old_result, old_base, rpow::<F>(base, half));
        }
    }
    proof {
        lemma_mul::<F>(result, result, result);
    }
    result
}

impl<F: BinaryField> NttField for F {
    open spec fn code_bytes() -> nat {
        (F::width() / 8) as nat
    }

    open spec fn of_word(x: nat) -> <F as BinaryField>::Elem {
        F::of_raw(x as u64)
    }

    open spec fn to_word(e: <F as BinaryField>::Elem) -> nat {
        F::raw(e) as nat
    }

    open spec fn order() -> nat {
        (mask(F::width()) + 1) as nat
    }

    open spec fn generator() -> <F as BinaryField>::Elem {
        fone::<F>()
    }

    proof fn lemma_word(e: <F as BinaryField>::Elem, x: nat) {
        F::lemma_width();
        F::lemma_raw(e, x as u64);
        lemma_limits();
    }

    proof fn lemma_generator() {
        F::lemma_width();
        lemma_one_not_zero::<F>();
        lemma_one_pow::<F>((Self::order() - 1) as nat);
    }

    proof fn lemma_size(n: nat) {
        F::lemma_width();
        lemma_span_positive(n);
        if n % 2 == 0 {
            let group = Self::order() - 1;
            let q = group / (n as int);
            vstd::arithmetic::div_mod::lemma_fundamental_div_mod(group, n as int);
            let half = (n / 2) as int;
            assert(n * q == 2 * (half * q)) by (nonlinear_arith)
                requires
                    n == 2 * half,
            ;
        }
        reveal_with_fuel(rembed, 2);
        lemma_one_not_zero::<F>();
        lemma_add::<F>(fone::<F>(), fzero::<F>(), fzero::<F>());
    }

    fn element_bytes() -> (n: usize) {
        F::bytes()
    }

    fn field_order() -> (n: u128) {
        let bytes = F::bytes();
        proof {
            F::lemma_width();
        }
        if bytes == 1 {
            0x100
        } else if bytes == 2 {
            0x1_0000
        } else if bytes == 4 {
            0x1_0000_0000
        } else {
            0x1_0000_0000_0000_0000
        }
    }

    fn binary() -> (b: bool) {
        proof {
            F::lemma_width();
            lemma_limits();
            assert forall|x: nat| x < limit(Self::code_bytes()) implies Self::to_word(
                #[trigger] Self::of_word(x),
            ) == x by {
                F::lemma_raw(F::of_raw(x as u64), x as u64);
            }
            lemma_add::<F>(fone::<F>(), fzero::<F>(), fzero::<F>());
        }
        true
    }

    /// The only transform size is one, which has no multiplications.
    fn vectorized() -> (b: bool) {
        false
    }

    fn root_generator() -> (e: <F as BinaryField>::Elem) {
        field::one::<F>()
    }

    fn decode(x: u64) -> (e: <F as BinaryField>::Elem) {
        proof {
            F::lemma_width();
            lemma_limits();
        }
        F::from_bits(x)
    }

    fn encode(e: <F as BinaryField>::Elem) -> (x: u64) {
        F::to_bits(e)
    }

    fn zero() -> (e: <F as BinaryField>::Elem) {
        field::zero::<F>()
    }

    fn one() -> (e: <F as BinaryField>::Elem) {
        field::one::<F>()
    }

    fn plus(
        a: <F as BinaryField>::Elem,
        b: <F as BinaryField>::Elem,
    ) -> (c: <F as BinaryField>::Elem) {
        field::plus::<F>(a, b)
    }

    fn minus(
        a: <F as BinaryField>::Elem,
        b: <F as BinaryField>::Elem,
    ) -> (c: <F as BinaryField>::Elem) {
        field::plus::<F>(a, b)
    }

    fn times(
        a: <F as BinaryField>::Elem,
        b: <F as BinaryField>::Elem,
    ) -> (c: <F as BinaryField>::Elem) {
        field::times::<F>(a, b)
    }

    fn power(a: <F as BinaryField>::Elem, exponent: u64) -> (c: <F as BinaryField>::Elem) {
        binary_power::<F>(a, exponent)
    }

    fn reciprocal(a: <F as BinaryField>::Elem) -> (b: <F as BinaryField>::Elem) {
        proof {
            if a != fzero::<F>() {
                crate::field::lemma_finv::<F>(a, a);
            }
        }
        field::inverse::<F>(a)
    }

    fn same(a: <F as BinaryField>::Elem, b: <F as BinaryField>::Elem) -> (r: bool) {
        proof {
            F::lemma_raw(a, 0);
            F::lemma_raw(b, 0);
        }
        F::to_bits(a) == F::to_bits(b)
    }
}

} // verus!
