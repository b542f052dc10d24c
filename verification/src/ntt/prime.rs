//! The prime fields Goldilocks and Mersenne31, and the quadratic extension of
//! the latter, as rings on raw lanes.

use vstd::prelude::*;

use crate::ntt::modular::{lemma_pairs, lemma_residues, pair_im, pair_re};
use crate::ntt::ring::Ring;

verus! {

/// The modulus `2^64 - 2^32 + 1`.
pub const GOLDILOCKS_MODULUS: u64 = 0xFFFF_FFFF_0000_0001;

/// The modulus `2^31 - 1`.
pub const MERSENNE31_MODULUS: u32 = 0x7FFF_FFFF;

/// The field of integers modulo `2^64 - 2^32 + 1`; an element is its residue.
#[derive(Clone, Copy, Debug)]
pub struct Goldilocks;

/// The field of integers modulo `2^31 - 1`; an element is its residue.
#[derive(Clone, Copy, Debug)]
pub struct Mersenne31;

/// The number `re + im i`.
#[derive(Clone, Copy, Debug, PartialEq, Eq, Structural)]
pub struct Quad {
    /// The real part.
    pub re: u32,
    /// The imaginary part.
    pub im: u32,
}

/// The field of `a + b i` with `a` and `b` modulo `2^31 - 1` and `i^2 = -1`;
/// an element is the pair of `a` and `b`.
#[derive(Clone, Copy, Debug)]
pub struct QuadMersenne31;

impl Ring for Goldilocks {
    type Elem = u64;

    open spec fn valid(a: u64) -> bool {
        a < GOLDILOCKS_MODULUS
    }

    open spec fn rzero() -> u64 {
        0
    }

    open spec fn rone() -> u64 {
        1
    }

    open spec fn radd(a: u64, b: u64) -> u64 {
        ((a + b) % GOLDILOCKS_MODULUS as int) as u64
    }

    open spec fn rneg(a: u64) -> u64 {
        ((-a) % GOLDILOCKS_MODULUS as int) as u64
    }

    open spec fn rmul(a: u64, b: u64) -> u64 {
        ((a * b) % GOLDILOCKS_MODULUS as int) as u64
    }

    proof fn lemma_units() {
    }

    proof fn lemma_ring(a: u64, b: u64, c: u64) {
        lemma_residues(a as int, b as int, c as int, GOLDILOCKS_MODULUS as int);
        lemma_residues(b as int, c as int, a as int, GOLDILOCKS_MODULUS as int);
        lemma_residues(a as int, c as int, b as int, GOLDILOCKS_MODULUS as int);
    }
}

impl Ring for Mersenne31 {
    type Elem = u32;

    open spec fn valid(a: u32) -> bool {
        a < MERSENNE31_MODULUS
    }

    open spec fn rzero() -> u32 {
        0
    }

    open spec fn rone() -> u32 {
        1
    }

    open spec fn radd(a: u32, b: u32) -> u32 {
        ((a + b) % MERSENNE31_MODULUS as int) as u32
    }

    open spec fn rneg(a: u32) -> u32 {
        ((-a) % MERSENNE31_MODULUS as int) as u32
    }

    open spec fn rmul(a: u32, b: u32) -> u32 {
        ((a * b) % MERSENNE31_MODULUS as int) as u32
    }

    proof fn lemma_units() {
    }

    proof fn lemma_ring(a: u32, b: u32, c: u32) {
        lemma_residues(a as int, b as int, c as int, MERSENNE31_MODULUS as int);
        lemma_residues(b as int, c as int, a as int, MERSENNE31_MODULUS as int);
        lemma_residues(a as int, c as int, b as int, MERSENNE31_MODULUS as int);
    }
}

impl Ring for QuadMersenne31 {
    type Elem = Quad;

    open spec fn valid(a: Quad) -> bool {
        a.re < MERSENNE31_MODULUS && a.im < MERSENNE31_MODULUS
    }

    open spec fn rzero() -> Quad {
        Quad { re: 0, im: 0 }
    }

    open spec fn rone() -> Quad {
        Quad { re: 1, im: 0 }
    }

    open spec fn radd(a: Quad, b: Quad) -> Quad {
        Quad { re: Mersenne31::radd(a.re, b.re), im: Mersenne31::radd(a.im, b.im) }
    }

    open spec fn rneg(a: Quad) -> Quad {
        Quad { re: Mersenne31::rneg(a.re), im: Mersenne31::rneg(a.im) }
    }

    open spec fn rmul(a: Quad, b: Quad) -> Quad {
        let p = MERSENNE31_MODULUS as int;
        Quad {
            re: pair_re(a.re as int, a.im as int, b.re as int, b.im as int, p) as u32,
            im: pair_im(a.re as int, a.im as int, b.re as int, b.im as int, p) as u32,
        }
    }

    proof fn lemma_units() {
    }

    proof fn lemma_ring(a: Quad, b: Quad, c: Quad) {
        Mersenne31::lemma_ring(a.re, b.re, c.re);
        Mersenne31::lemma_ring(a.im, b.im, c.im);
        Mersenne31::lemma_ring(b.re, c.re, a.re);
        Mersenne31::lemma_ring(b.im, c.im, a.im);
        lemma_pairs(
            a.re as int,
            a.im as int,
            b.re as int,
            b.im as int,
            c.re as int,
            c.im as int,
            MERSENNE31_MODULUS as int,
        );
    }
}

} // verus!
