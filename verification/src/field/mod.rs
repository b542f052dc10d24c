//! Finite fields of characteristic two.
//!
//! A field is a marker type that implements [`BinaryField`]. Its elements are
//! plain integers: the raw bit pattern of an element, as wide as the field. The
//! sum is bitwise XOR; the product is the one of [`byte`] or [`tower`].

use vstd::prelude::*;

mod arith;
pub mod byte;
pub mod laws;
pub mod markers;
mod sealed;
pub mod tower;

pub use markers::{FanPaar16, FanPaar32, FanPaar64, FanPaar8, Gf16, Gf32, Gf64, Gf8B, Gf8D};
pub use sealed::Sealed;

use tower::{lemma_xor, mask};

verus! {

/// A finite field of characteristic two.
pub trait BinaryField: Sealed + Sized {
    /// An element: its raw bit pattern.
    type Elem: Copy + std::fmt::Debug;

    /// The number of bits of an element.
    spec fn width() -> u64;

    /// The bit pattern of an element, zero-extended.
    spec fn raw(e: Self::Elem) -> u64;

    /// The element with the given bit pattern.
    spec fn of_raw(x: u64) -> Self::Elem;

    /// Whether the field has butterfly kernels beside the portable ones.
    spec fn has_kernels() -> bool;

    /// The field product on bit patterns.
    spec fn raw_product(a: u64, b: u64) -> u64;

    proof fn lemma_width()
        ensures
            Self::width() == 8 || Self::width() == 16 || Self::width() == 32 || Self::width() == 64,
    ;

    /// Elements and bit patterns of the field's width correspond one to one.
    proof fn lemma_raw(e: Self::Elem, x: u64)
        ensures
            Self::raw(e) <= mask(Self::width()),
            Self::of_raw(Self::raw(e)) == e,
            x <= mask(Self::width()) ==> Self::raw(Self::of_raw(x)) == x,
    ;

    /// The product is commutative, associative and distributes over the sum.
    proof fn lemma_raw_ring(a: u64, b: u64, c: u64)
        requires
            a <= mask(Self::width()),
            b <= mask(Self::width()),
            c <= mask(Self::width()),
        ensures
            Self::raw_product(a, b) <= mask(Self::width()),
            Self::raw_product(a, b) == Self::raw_product(b, a),
            Self::raw_product(Self::raw_product(a, b), c) == Self::raw_product(
                a,
                Self::raw_product(b, c),
            ),
            Self::raw_product(a, b ^ c) == Self::raw_product(a, b) ^ Self::raw_product(a, c),
            Self::raw_product(a, 1) == a,
    ;

    /// Every nonzero bit pattern has an inverse.
    proof fn lemma_raw_inverse(a: u64) -> (b: u64)
        requires
            0 < a <= mask(Self::width()),
        ensures
            b <= mask(Self::width()),
            Self::raw_product(a, b) == 1,
    ;

    /// The width of an element in bytes.
    fn bytes() -> (n: usize)
        ensures
            n * 8 == Self::width(),
    ;

    /// Whether the field has butterfly kernels beside the portable ones.
    fn vector_kernels() -> (b: bool)
        ensures
            b == Self::has_kernels(),
    ;

    /// The bit pattern of an element.
    fn to_bits(e: Self::Elem) -> (x: u64)
        ensures
            x == Self::raw(e),
    ;

    /// The element with the given bit pattern.
    fn from_bits(x: u64) -> (e: Self::Elem)
        requires
            x <= mask(Self::width()),
        ensures
            e == Self::of_raw(x),
    ;

    /// The field product.
    fn multiply(a: Self::Elem, b: Self::Elem) -> (c: Self::Elem)
        ensures
            c == Self::of_raw(Self::raw_product(Self::raw(a), Self::raw(b))),
    ;

    /// The multiplicative inverse; zero maps to zero.
    fn invert(a: Self::Elem) -> (b: Self::Elem)
        ensures
            Self::raw(a) == 0 ==> Self::raw(b) == 0,
            Self::raw(a) != 0 ==> Self::raw_product(Self::raw(a), Self::raw(b)) == 1,
    ;
}

/// The additive identity.
#[verifier::opaque]
pub open spec fn fzero<F: BinaryField>() -> F::Elem {
    F::of_raw(0)
}

/// The multiplicative identity.
#[verifier::opaque]
pub open spec fn fone<F: BinaryField>() -> F::Elem {
    F::of_raw(1)
}

/// The field sum: bitwise XOR.
#[verifier::opaque]
pub open spec fn fadd<F: BinaryField>(a: F::Elem, b: F::Elem) -> F::Elem {
    F::of_raw(F::raw(a) ^ F::raw(b))
}

/// The field product.
#[verifier::opaque]
pub open spec fn fmul<F: BinaryField>(a: F::Elem, b: F::Elem) -> F::Elem {
    F::of_raw(F::raw_product(F::raw(a), F::raw(b)))
}

proof fn lemma_mask_closed(a: u64, b: u64, w: u64)
    by (bit_vector)
    requires
        w == 8 || w == 16 || w == 32 || w == 64,
        a <= mask(w),
        b <= mask(w),
    ensures
        a ^ b <= mask(w),
        1 <= mask(w),
        a ^ b == 0 ==> a == b,
{
}

/// The bit pattern of a sum is the XOR of the bit patterns.
pub proof fn lemma_raw_add<F: BinaryField>(a: F::Elem, b: F::Elem)
    ensures
        F::raw(fadd::<F>(a, b)) == F::raw(a) ^ F::raw(b),
        F::raw(fzero::<F>()) == 0,
        F::raw(fone::<F>()) == 1,
        F::raw(a) == 0 <==> a == fzero::<F>(),
{
    reveal(fadd);
    reveal(fzero);
    reveal(fone);
    F::lemma_width();
    F::lemma_raw(a, 0);
    F::lemma_raw(b, 1);
    lemma_mask_closed(F::raw(a), F::raw(b), F::width());
    F::lemma_raw(a, F::raw(a) ^ F::raw(b));
}

/// The sum is a commutative group in which every element is its own negation.
pub proof fn lemma_add<F: BinaryField>(a: F::Elem, b: F::Elem, c: F::Elem)
    ensures
        fadd::<F>(a, b) == fadd::<F>(b, a),
        fadd::<F>(fadd::<F>(a, b), c) == fadd::<F>(a, fadd::<F>(b, c)),
        fadd::<F>(a, a) == fzero::<F>(),
        fadd::<F>(a, fzero::<F>()) == a,
        fadd::<F>(fzero::<F>(), a) == a,
        fadd::<F>(a, b) == fzero::<F>() ==> a == b,
{
    lemma_raw_add::<F>(a, b);
    lemma_raw_add::<F>(b, c);
    lemma_raw_add::<F>(fadd::<F>(a, b), c);
    lemma_raw_add::<F>(a, fadd::<F>(b, c));
    lemma_xor(F::raw(a), F::raw(b), F::raw(c));
    reveal(fadd);
    reveal(fzero);
    F::lemma_raw(a, 0);
    F::lemma_raw(b, 0);
    F::lemma_width();
    lemma_mask_closed(F::raw(a), F::raw(b), F::width());
}

/// The product is commutative, associative, and distributes over the sum.
pub proof fn lemma_mul<F: BinaryField>(a: F::Elem, b: F::Elem, c: F::Elem)
    ensures
        fmul::<F>(a, b) == fmul::<F>(b, a),
        fmul::<F>(fmul::<F>(a, b), c) == fmul::<F>(a, fmul::<F>(b, c)),
        fmul::<F>(a, fadd::<F>(b, c)) == fadd::<F>(fmul::<F>(a, b), fmul::<F>(a, c)),
        fmul::<F>(fadd::<F>(b, c), a) == fadd::<F>(fmul::<F>(b, a), fmul::<F>(c, a)),
        fmul::<F>(a, fone::<F>()) == a,
        fmul::<F>(fone::<F>(), a) == a,
        fmul::<F>(a, fzero::<F>()) == fzero::<F>(),
        fmul::<F>(fzero::<F>(), a) == fzero::<F>(),
{
    reveal(fadd);
    reveal(fmul);
    reveal(fzero);
    reveal(fone);
    let (x, y, z) = (F::raw(a), F::raw(b), F::raw(c));
    F::lemma_width();
    F::lemma_raw(a, 0);
    F::lemma_raw(b, 1);
    F::lemma_raw(c, 0);
    lemma_mask_closed(y, z, F::width());
    F::lemma_raw(a, y ^ z);
    F::lemma_raw_ring(x, y, z);
    F::lemma_raw_ring(y, z, 0);
    F::lemma_raw_ring(x, z, 0);
    F::lemma_raw_ring(x, y ^ z, 0);
    F::lemma_raw_ring(x, 1, 0);
    F::lemma_raw_ring(x, 0, 0);
    F::lemma_raw(a, F::raw_product(x, y));
    F::lemma_raw(a, F::raw_product(x, z));
    F::lemma_raw(a, F::raw_product(y, z));
    let p0 = F::raw_product(x, 0);
    lemma_xor(p0, p0, 0);
    lemma_xor(0, 0, 0);
}

/// Every nonzero element has an inverse.
pub proof fn lemma_inverse<F: BinaryField>(a: F::Elem) -> (b: F::Elem)
    requires
        a != fzero::<F>(),
    ensures
        fmul::<F>(a, b) == fone::<F>(),
{
    reveal(fmul);
    reveal(fone);
    reveal(fzero);
    F::lemma_raw(a, 0);
    let y = F::lemma_raw_inverse(F::raw(a));
    F::lemma_raw(a, y);
    F::of_raw(y)
}

/// The multiplicative inverse, with zero mapped to zero.
pub open spec fn finv<F: BinaryField>(a: F::Elem) -> F::Elem {
    if a == fzero::<F>() {
        fzero::<F>()
    } else {
        choose|b: F::Elem| fmul::<F>(a, b) == fone::<F>()
    }
}

/// The inverse of a nonzero element exists and is unique.
pub proof fn lemma_finv<F: BinaryField>(a: F::Elem, b: F::Elem)
    requires
        a != fzero::<F>(),
    ensures
        fmul::<F>(a, finv::<F>(a)) == fone::<F>(),
        fmul::<F>(a, b) == fone::<F>() ==> b == finv::<F>(a),
        finv::<F>(a) != fzero::<F>(),
{
    let w = lemma_inverse::<F>(a);
    let i = finv::<F>(a);
    assert(fmul::<F>(a, i) == fone::<F>());
    if fmul::<F>(a, b) == fone::<F>() {
        // b == (i * a) * b == i * (a * b) == i
        lemma_mul::<F>(i, a, b);
        lemma_mul::<F>(b, a, a);
        lemma_mul::<F>(i, i, i);
    }
    lemma_mul::<F>(a, a, a);
    lemma_one_not_zero::<F>();
}

/// One and zero differ.
pub proof fn lemma_one_not_zero<F: BinaryField>()
    ensures
        fone::<F>() != fzero::<F>(),
{
    lemma_raw_add::<F>(fone::<F>(), fzero::<F>());
}

/// A product is zero only if one of its factors is.
pub proof fn lemma_nonzero<F: BinaryField>(a: F::Elem, b: F::Elem)
    ensures
        fmul::<F>(a, b) == fzero::<F>() ==> a == fzero::<F>() || b == fzero::<F>(),
{
    if fmul::<F>(a, b) == fzero::<F>() && a != fzero::<F>() {
        let i = finv::<F>(a);
        lemma_finv::<F>(a, a);
        lemma_mul::<F>(i, a, b);
        lemma_mul::<F>(b, a, a);
        lemma_mul::<F>(a, i, i);
        lemma_mul::<F>(i, i, i);
    }
}

/// The additive identity.
pub fn zero<F: BinaryField>() -> (e: F::Elem)
    ensures
        e == fzero::<F>(),
{
    proof {
        reveal(fzero);
    }
    F::from_bits(0)
}

/// The multiplicative identity.
pub fn one<F: BinaryField>() -> (e: F::Elem)
    ensures
        e == fone::<F>(),
{
    proof {
        reveal(fone);
        F::lemma_width();
    }
    F::from_bits(1)
}

/// The field sum.
pub fn plus<F: BinaryField>(a: F::Elem, b: F::Elem) -> (c: F::Elem)
    ensures
        c == fadd::<F>(a, b),
{
    proof {
        reveal(fadd);
        F::lemma_width();
        F::lemma_raw(a, 0);
        F::lemma_raw(b, 0);
        lemma_mask_closed(F::raw(a), F::raw(b), F::width());
    }
    F::from_bits(F::to_bits(a) ^ F::to_bits(b))
}

/// The field product.
pub fn times<F: BinaryField>(a: F::Elem, b: F::Elem) -> (c: F::Elem)
    ensures
        c == fmul::<F>(a, b),
{
    proof {
        reveal(fmul);
    }
    F::multiply(a, b)
}

/// The multiplicative inverse; zero maps to zero.
pub fn inverse<F: BinaryField>(a: F::Elem) -> (b: F::Elem)
    ensures
        b == finv::<F>(a),
{
    let b = F::invert(a);
    proof {
        reveal(fmul);
        reveal(fone);
        lemma_raw_add::<F>(a, b);
        lemma_raw_add::<F>(b, a);
        if a != fzero::<F>() {
            lemma_finv::<F>(a, b);
        }
    }
    b
}

/// Whether an element is the additive identity.
pub fn is_zero<F: BinaryField>(a: F::Elem) -> (b: bool)
    ensures
        b == (a == fzero::<F>()),
{
    proof {
        lemma_raw_add::<F>(a, a);
    }
    F::to_bits(a) == 0
}

/// Whether an element is the multiplicative identity.
pub fn is_one<F: BinaryField>(a: F::Elem) -> (b: bool)
    ensures
        b == (a == fone::<F>()),
{
    proof {
        reveal(fone);
        lemma_raw_add::<F>(a, a);
        F::lemma_raw(a, 1);
    }
    F::to_bits(a) == 1
}

} // verus!
