//! Scalar arithmetic of the `fgf` crate on canonical prime-field elements.
//!
//! Each function hands raw lanes to the element type of one field of `fgf`
//! and gives back the raw lanes of the result.

use vstd::prelude::*;

use crate::ntt::prime::{Goldilocks, Mersenne31, Quad, QuadMersenne31};
use crate::ntt::ring::{rpow, Ring};

verus! {

/// `fgf::goldilocks::Elem::mul`: the canonical product modulo `2^64 - 2^32 + 1`.
#[verifier::external_body]
pub(crate) fn goldilocks_mul(a: u64, b: u64) -> (c: u64)
    requires
        Goldilocks::valid(a),
        Goldilocks::valid(b),
    ensures
        c == Goldilocks::rmul(a, b),
{
    fgf::goldilocks::Elem::from_raw(a).mul(fgf::goldilocks::Elem::from_raw(b)).to_raw()
}

/// `fgf::goldilocks::Elem::pow`: the power, which is one for exponent zero.
#[verifier::external_body]
pub(crate) fn goldilocks_pow(a: u64, exponent: u64) -> (c: u64)
    requires
        Goldilocks::valid(a),
    ensures
        c == rpow::<Goldilocks>(a, exponent as nat),
{
    fgf::goldilocks::Elem::from_raw(a).pow(exponent).to_raw()
}

/// `fgf::goldilocks::Elem::inv`: the multiplicative inverse, with zero mapped to zero.
#[verifier::external_body]
pub(crate) fn goldilocks_inv(a: u64) -> (b: u64)
    requires
        Goldilocks::valid(a),
    ensures
        Goldilocks::valid(b),
        a == 0 ==> b == 0,
        a != 0 ==> Goldilocks::rmul(a, b) == 1,
{
    fgf::goldilocks::Elem::from_raw(a).inv().to_raw()
}

/// `fgf::mersenne31::Elem::mul`: the canonical product modulo `2^31 - 1`.
#[verifier::external_body]
pub(crate) fn mersenne31_mul(a: u32, b: u32) -> (c: u32)
    requires
        Mersenne31::valid(a),
        Mersenne31::valid(b),
    ensures
        c == Mersenne31::rmul(a, b),
{
    fgf::mersenne31::Elem::from_raw(a).mul(fgf::mersenne31::Elem::from_raw(b)).to_raw()
}

/// `fgf::mersenne31::Elem::pow`: the power, which is one for exponent zero.
#[verifier::external_body]
pub(crate) fn mersenne31_pow(a: u32, exponent: u64) -> (c: u32)
    requires
        Mersenne31::valid(a),
    ensures
        c == rpow::<Mersenne31>(a, exponent as nat),
{
    fgf::mersenne31::Elem::from_raw(a).pow(exponent).to_raw()
}

/// `fgf::mersenne31::Elem::inv`: the multiplicative inverse, with zero mapped to zero.
#[verifier::external_body]
pub(crate) fn mersenne31_inv(a: u32) -> (b: u32)
    requires
        Mersenne31::valid(a),
    ensures
        Mersenne31::valid(b),
        a == 0 ==> b == 0,
        a != 0 ==> Mersenne31::rmul(a, b) == 1,
{
    fgf::mersenne31::Elem::from_raw(a).inv().to_raw()
}

/// `fgf::quad_mersenne31::Elem::mul`: the canonical product of `a.re + a.im i`
/// and `b.re + b.im i` with `i^2 = -1`.
#[verifier::external_body]
pub(crate) fn quad_mersenne31_mul(a: Quad, b: Quad) -> (c: Quad)
    requires
        QuadMersenne31::valid(a),
        QuadMersenne31::valid(b),
    ensures
        c == QuadMersenne31::rmul(a, b),
{
    let x = fgf::quad_mersenne31::Elem::from_raw(a.re, a.im);
    let (re, im) = x.mul(fgf::quad_mersenne31::Elem::from_raw(b.re, b.im)).to_raw();
    Quad { re, im }
}

/// `fgf::quad_mersenne31::Elem::pow`: the power, which is one for exponent zero.
#[verifier::external_body]
pub(crate) fn quad_mersenne31_pow(a: Quad, exponent: u64) -> (c: Quad)
    requires
        QuadMersenne31::valid(a),
    ensures
        c == rpow::<QuadMersenne31>(a, exponent as nat),
{
    let (re, im) = fgf::quad_mersenne31::Elem::from_raw(a.re, a.im).pow(exponent).to_raw();
    Quad { re, im }
}

/// `fgf::quad_mersenne31::Elem::inv`: the multiplicative inverse, with zero
/// mapped to zero.
#[verifier::external_body]
pub(crate) fn quad_mersenne31_inv(a: Quad) -> (b: Quad)
    requires
        QuadMersenne31::valid(a),
    ensures
        QuadMersenne31::valid(b),
        a == QuadMersenne31::rzero() ==> b == QuadMersenne31::rzero(),
        a != QuadMersenne31::rzero() ==> QuadMersenne31::rmul(a, b) == QuadMersenne31::rone(),
{
    let (re, im) = fgf::quad_mersenne31::Elem::from_raw(a.re, a.im).inv().to_raw();
    Quad { re, im }
}

/// `fgf::kernel::has_vector_elementwise` for Goldilocks: whether the machine
/// multiplies rows elementwise with a vector kernel. The answer rests on the
/// machine, so nothing is said of it.
#[verifier::external_body]
pub(crate) fn goldilocks_vectorized() -> bool {
    fgf::kernel::has_vector_elementwise::<fgf::Goldilocks>()
}

/// `fgf::kernel::has_vector_elementwise` for Mersenne31, a property of the
/// machine of which nothing is said.
#[verifier::external_body]
pub(crate) fn mersenne31_vectorized() -> bool {
    fgf::kernel::has_vector_elementwise::<fgf::Mersenne31>()
}

/// `fgf::kernel::has_vector_elementwise` for QuadMersenne31, a property of the
/// machine of which nothing is said.
#[verifier::external_body]
pub(crate) fn quad_mersenne31_vectorized() -> bool {
    fgf::kernel::has_vector_elementwise::<fgf::QuadMersenne31>()
}

} // verus!
