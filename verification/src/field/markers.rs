//! The binary fields.

use vstd::prelude::*;

use crate::field::arith::{
    fp16_inv, fp16_mul, fp32_inv, fp32_mul, fp64_inv, fp64_mul, fp8_inv, fp8_mul, gf16_inv,
    gf16_mul, gf32_inv, gf32_mul, gf64_inv, gf64_mul, gf8b_inv, gf8b_mul, gf8d_inv, gf8d_mul,
};
use crate::field::byte::{byte_product, lemma_byte_inverse, lemma_byte_laws};
use crate::field::tower::{
    lemma_tower_assoc, lemma_tower_closed, lemma_tower_comm, lemma_tower_distributes,
    lemma_tower_inverse, lemma_tower_one, lemma_xor_bytes, tower_product, Tower,
};
use crate::field::{BinaryField, Sealed};

verus! {

/// GF(2^8) modulo `0x11B`.
#[derive(Clone, Copy, Debug, PartialEq, Eq)]
pub struct Gf8B;

impl Sealed for Gf8B {

}

impl BinaryField for Gf8B {
    type Elem = u8;

    open spec fn width() -> u64 {
        8
    }

    open spec fn raw(e: u8) -> u64 {
        e as u64
    }

    open spec fn of_raw(x: u64) -> u8 {
        x as u8
    }

    open spec fn has_kernels() -> bool {
        true
    }

    open spec fn raw_product(a: u64, b: u64) -> u64 {
        byte_product(a as u8, b as u8, 0x1b) as u64
    }

    proof fn lemma_width() {
    }

    proof fn lemma_raw(e: u8, x: u64) {
    }

    proof fn lemma_raw_ring(a: u64, b: u64, c: u64) {
        lemma_xor_bytes(b, c);
        lemma_xor_bytes(byte_product(a as u8, b as u8, 0x1b) as u64, byte_product(a as u8, c as u8, 0x1b) as u64);
        lemma_xor_bytes(byte_product(b as u8, c as u8, 0x1b) as u64, a);
        lemma_xor_bytes(1, a);
        lemma_byte_laws(a as u8, b as u8, c as u8, 0x1b);
    }

    proof fn lemma_raw_inverse(a: u64) -> (b: u64) {
        lemma_xor_bytes(a, a);
        let b = lemma_byte_inverse(a as u8, 0x1b);
        lemma_xor_bytes(b as u64, a);
        b as u64
    }

    fn bytes() -> (n: usize) {
        1
    }

    fn vector_kernels() -> (b: bool) {
        true
    }

    fn to_bits(e: u8) -> (x: u64) {
        e as u64
    }

    fn from_bits(x: u64) -> (e: u8) {
        x as u8
    }

    fn multiply(a: u8, b: u8) -> (c: u8) {
        gf8b_mul(a, b)
    }

    fn invert(a: u8) -> (b: u8) {
        gf8b_inv(a)
    }
}

/// GF(2^8) modulo `0x11D`.
#[derive(Clone, Copy, Debug, PartialEq, Eq)]
pub struct Gf8D;

impl Sealed for Gf8D {

}

impl BinaryField for Gf8D {
    type Elem = u8;

    open spec fn width() -> u64 {
        8
    }

    open spec fn raw(e: u8) -> u64 {
        e as u64
    }

    open spec fn of_raw(x: u64) -> u8 {
        x as u8
    }

    open spec fn has_kernels() -> bool {
        false
    }

    open spec fn raw_product(a: u64, b: u64) -> u64 {
        byte_product(a as u8, b as u8, 0x1d) as u64
    }

    proof fn lemma_width() {
    }

    proof fn lemma_raw(e: u8, x: u64) {
    }

    proof fn lemma_raw_ring(a: u64, b: u64, c: u64) {
        lemma_xor_bytes(b, c);
        lemma_xor_bytes(byte_product(a as u8, b as u8, 0x1d) as u64, byte_product(a as u8, c as u8, 0x1d) as u64);
        lemma_xor_bytes(byte_product(b as u8, c as u8, 0x1d) as u64, a);
        lemma_xor_bytes(1, a);
        lemma_byte_laws(a as u8, b as u8, c as u8, 0x1d);
    }

    proof fn lemma_raw_inverse(a: u64) -> (b: u64) {
        lemma_xor_bytes(a, a);
        let b = lemma_byte_inverse(a as u8, 0x1d);
        lemma_xor_bytes(b as u64, a);
        b as u64
    }

    fn bytes() -> (n: usize) {
        1
    }

    fn vector_kernels() -> (b: bool) {
        false
    }

    fn to_bits(e: u8) -> (x: u64) {
        e as u64
    }

    fn from_bits(x: u64) -> (e: u8) {
        x as u8
    }

    fn multiply(a: u8, b: u8) -> (c: u8) {
        gf8d_mul(a, b)
    }

    fn invert(a: u8) -> (b: u8) {
        gf8d_inv(a)
    }
}

/// GF(2^16), a quadratic tower over GF(2^8) modulo `0x11B`.
#[derive(Clone, Copy, Debug, PartialEq, Eq)]
pub struct Gf16;

impl Sealed for Gf16 {

}

impl BinaryField for Gf16 {
    type Elem = u16;

    open spec fn width() -> u64 {
        16
    }

    open spec fn raw(e: u16) -> u64 {
        e as u64
    }

    open spec fn of_raw(x: u64) -> u16 {
        x as u16
    }

    open spec fn has_kernels() -> bool {
        true
    }

    open spec fn raw_product(a: u64, b: u64) -> u64 {
        tower_product(Tower::Rijndael, 16, a, b)
    }

    proof fn lemma_width() {
    }

    proof fn lemma_raw(e: u16, x: u64) {
    }

    proof fn lemma_raw_ring(a: u64, b: u64, c: u64) {
        lemma_tower_closed(Tower::Rijndael, 16, a, b);
        lemma_tower_comm(Tower::Rijndael, 16, a, b);
        lemma_tower_assoc(Tower::Rijndael, 16, a, b, c);
        lemma_tower_distributes(Tower::Rijndael, 16, a, b, c);
        lemma_tower_one(Tower::Rijndael, 16, a);
    }

    proof fn lemma_raw_inverse(a: u64) -> (b: u64) {
        lemma_tower_inverse(Tower::Rijndael, 16, a)
    }

    fn bytes() -> (n: usize) {
        2
    }

    fn vector_kernels() -> (b: bool) {
        true
    }

    fn to_bits(e: u16) -> (x: u64) {
        e as u64
    }

    fn from_bits(x: u64) -> (e: u16) {
        x as u16
    }

    fn multiply(a: u16, b: u16) -> (c: u16) {
        gf16_mul(a, b)
    }

    fn invert(a: u16) -> (b: u16) {
        gf16_inv(a)
    }
}

/// GF(2^32), a quadratic tower over [`Gf16`].
#[derive(Clone, Copy, Debug, PartialEq, Eq)]
pub struct Gf32;

impl Sealed for Gf32 {

}

impl BinaryField for Gf32 {
    type Elem = u32;

    open spec fn width() -> u64 {
        32
    }

    open spec fn raw(e: u32) -> u64 {
        e as u64
    }

    open spec fn of_raw(x: u64) -> u32 {
        x as u32
    }

    open spec fn has_kernels() -> bool {
        false
    }

    open spec fn raw_product(a: u64, b: u64) -> u64 {
        tower_product(Tower::Rijndael, 32, a, b)
    }

    proof fn lemma_width() {
    }

    proof fn lemma_raw(e: u32, x: u64) {
    }

    proof fn lemma_raw_ring(a: u64, b: u64, c: u64) {
        lemma_tower_closed(Tower::Rijndael, 32, a, b);
        lemma_tower_comm(Tower::Rijndael, 32, a, b);
        lemma_tower_assoc(Tower::Rijndael, 32, a, b, c);
        lemma_tower_distributes(Tower::Rijndael, 32, a, b, c);
        lemma_tower_one(Tower::Rijndael, 32, a);
    }

    proof fn lemma_raw_inverse(a: u64) -> (b: u64) {
        lemma_tower_inverse(Tower::Rijndael, 32, a)
    }

    fn bytes() -> (n: usize) {
        4
    }

    fn vector_kernels() -> (b: bool) {
        false
    }

    fn to_bits(e: u32) -> (x: u64) {
        e as u64
    }

    fn from_bits(x: u64) -> (e: u32) {
        x as u32
    }

    fn multiply(a: u32, b: u32) -> (c: u32) {
        gf32_mul(a, b)
    }

    fn invert(a: u32) -> (b: u32) {
        gf32_inv(a)
    }
}

/// GF(2^64), a quadratic tower over [`Gf32`].
#[derive(Clone, Copy, Debug, PartialEq, Eq)]
pub struct Gf64;

impl Sealed for Gf64 {

}

impl BinaryField for Gf64 {
    type Elem = u64;

    open spec fn width() -> u64 {
        64
    }

    open spec fn raw(e: u64) -> u64 {
        e as u64
    }

    open spec fn of_raw(x: u64) -> u64 {
        x as u64
    }

    open spec fn has_kernels() -> bool {
        false
    }

    open spec fn raw_product(a: u64, b: u64) -> u64 {
        tower_product(Tower::Rijndael, 64, a, b)
    }

    proof fn lemma_width() {
    }

    proof fn lemma_raw(e: u64, x: u64) {
    }

    proof fn lemma_raw_ring(a: u64, b: u64, c: u64) {
        lemma_tower_closed(Tower::Rijndael, 64, a, b);
        lemma_tower_comm(Tower::Rijndael, 64, a, b);
        lemma_tower_assoc(Tower::Rijndael, 64, a, b, c);
        lemma_tower_distributes(Tower::Rijndael, 64, a, b, c);
        lemma_tower_one(Tower::Rijndael, 64, a);
    }

    proof fn lemma_raw_inverse(a: u64) -> (b: u64) {
        lemma_tower_inverse(Tower::Rijndael, 64, a)
    }

    fn bytes() -> (n: usize) {
        8
    }

    fn vector_kernels() -> (b: bool) {
        false
    }

    fn to_bits(e: u64) -> (x: u64) {
        e
    }

    fn from_bits(x: u64) -> (e: u64) {
        x
    }

    fn multiply(a: u64, b: u64) -> (c: u64) {
        gf64_mul(a, b)
    }

    fn invert(a: u64) -> (b: u64) {
        gf64_inv(a)
    }
}

/// GF(2^8) in the canonical tower basis.
#[derive(Clone, Copy, Debug, PartialEq, Eq)]
pub struct FanPaar8;

impl Sealed for FanPaar8 {

}

impl BinaryField for FanPaar8 {
    type Elem = u8;

    open spec fn width() -> u64 {
        8
    }

    open spec fn raw(e: u8) -> u64 {
        e as u64
    }

    open spec fn of_raw(x: u64) -> u8 {
        x as u8
    }

    open spec fn has_kernels() -> bool {
        false
    }

    open spec fn raw_product(a: u64, b: u64) -> u64 {
        tower_product(Tower::FanPaar, 8, a, b)
    }

    proof fn lemma_width() {
    }

    proof fn lemma_raw(e: u8, x: u64) {
    }

    proof fn lemma_raw_ring(a: u64, b: u64, c: u64) {
        lemma_tower_closed(Tower::FanPaar, 8, a, b);
        lemma_tower_comm(Tower::FanPaar, 8, a, b);
        lemma_tower_assoc(Tower::FanPaar, 8, a, b, c);
        lemma_tower_distributes(Tower::FanPaar, 8, a, b, c);
        lemma_tower_one(Tower::FanPaar, 8, a);
    }

    proof fn lemma_raw_inverse(a: u64) -> (b: u64) {
        lemma_tower_inverse(Tower::FanPaar, 8, a)
    }

    fn bytes() -> (n: usize) {
        1
    }

    fn vector_kernels() -> (b: bool) {
        false
    }

    fn to_bits(e: u8) -> (x: u64) {
        e as u64
    }

    fn from_bits(x: u64) -> (e: u8) {
        x as u8
    }

    fn multiply(a: u8, b: u8) -> (c: u8) {
        fp8_mul(a, b)
    }

    fn invert(a: u8) -> (b: u8) {
        fp8_inv(a)
    }
}

/// GF(2^16) in the canonical tower basis.
#[derive(Clone, Copy, Debug, PartialEq, Eq)]
pub struct FanPaar16;

impl Sealed for FanPaar16 {

}

impl BinaryField for FanPaar16 {
    type Elem = u16;

    open spec fn width() -> u64 {
        16
    }

    open spec fn raw(e: u16) -> u64 {
        e as u64
    }

    open spec fn of_raw(x: u64) -> u16 {
        x as u16
    }

    open spec fn has_kernels() -> bool {
        false
    }

    open spec fn raw_product(a: u64, b: u64) -> u64 {
        tower_product(Tower::FanPaar, 16, a, b)
    }

    proof fn lemma_width() {
    }

    proof fn lemma_raw(e: u16, x: u64) {
    }

    proof fn lemma_raw_ring(a: u64, b: u64, c: u64) {
        lemma_tower_closed(Tower::FanPaar, 16, a, b);
        lemma_tower_comm(Tower::FanPaar, 16, a, b);
        lemma_tower_assoc(Tower::FanPaar, 16, a, b, c);
        lemma_tower_distributes(Tower::FanPaar, 16, a, b, c);
        lemma_tower_one(Tower::FanPaar, 16, a);
    }

    proof fn lemma_raw_inverse(a: u64) -> (b: u64) {
        lemma_tower_inverse(Tower::FanPaar, 16, a)
    }

    fn bytes() -> (n: usize) {
        2
    }

    fn vector_kernels() -> (b: bool) {
        false
    }

    fn to_bits(e: u16) -> (x: u64) {
        e as u64
    }

    fn from_bits(x: u64) -> (e: u16) {
        x as u16
    }

    fn multiply(a: u16, b: u16) -> (c: u16) {
        fp16_mul(a, b)
    }

    fn invert(a: u16) -> (b: u16) {
        fp16_inv(a)
    }
}

/// GF(2^32) in the canonical tower basis.
#[derive(Clone, Copy, Debug, PartialEq, Eq)]
pub struct FanPaar32;

impl Sealed for FanPaar32 {

}

impl BinaryField for FanPaar32 {
    type Elem = u32;

    open spec fn width() -> u64 {
        32
    }

    open spec fn raw(e: u32) -> u64 {
        e as u64
    }

    open spec fn of_raw(x: u64) -> u32 {
        x as u32
    }

    open spec fn has_kernels() -> bool {
        false
    }

    open spec fn raw_product(a: u64, b: u64) -> u64 {
        tower_product(Tower::FanPaar, 32, a, b)
    }

    proof fn lemma_width() {
    }

    proof fn lemma_raw(e: u32, x: u64) {
    }

    proof fn lemma_raw_ring(a: u64, b: u64, c: u64) {
        lemma_tower_closed(Tower::FanPaar, 32, a, b);
        lemma_tower_comm(Tower::FanPaar, 32, a, b);
        lemma_tower_assoc(Tower::FanPaar, 32, a, b, c);
        lemma_tower_distributes(Tower::FanPaar, 32, a, b, c);
        lemma_tower_one(Tower::FanPaar, 32, a);
    }

    proof fn lemma_raw_inverse(a: u64) -> (b: u64) {
        lemma_tower_inverse(Tower::FanPaar, 32, a)
    }

    fn bytes() -> (n: usize) {
        4
    }

    fn vector_kernels() -> (b: bool) {
        false
    }

    fn to_bits(e: u32) -> (x: u64) {
        e as u64
    }

    fn from_bits(x: u64) -> (e: u32) {
        x as u32
    }

    fn multiply(a: u32, b: u32) -> (c: u32) {
        fp32_mul(a, b)
    }

    fn invert(a: u32) -> (b: u32) {
        fp32_inv(a)
    }
}

/// GF(2^64) in the canonical tower basis.
#[derive(Clone, Copy, Debug, PartialEq, Eq)]
pub struct FanPaar64;

impl Sealed for FanPaar64 {

}

impl BinaryField for FanPaar64 {
    type Elem = u64;

    open spec fn width() -> u64 {
        64
    }

    open spec fn raw(e: u64) -> u64 {
        e as u64
    }

    open spec fn of_raw(x: u64) -> u64 {
        x as u64
    }

    open spec fn has_kernels() -> bool {
        false
    }

    open spec fn raw_product(a: u64, b: u64) -> u64 {
        tower_product(Tower::FanPaar, 64, a, b)
    }

    proof fn lemma_width() {
    }

    proof fn lemma_raw(e: u64, x: u64) {
    }

    proof fn lemma_raw_ring(a: u64, b: u64, c: u64) {
        lemma_tower_closed(Tower::FanPaar, 64, a, b);
        lemma_tower_comm(Tower::FanPaar, 64, a, b);
        lemma_tower_assoc(Tower::FanPaar, 64, a, b, c);
        lemma_tower_distributes(Tower::FanPaar, 64, a, b, c);
        lemma_tower_one(Tower::FanPaar, 64, a);
    }

    proof fn lemma_raw_inverse(a: u64) -> (b: u64) {
        lemma_tower_inverse(Tower::FanPaar, 64, a)
    }

    fn bytes() -> (n: usize) {
        8
    }

    fn vector_kernels() -> (b: bool) {
        false
    }

    fn to_bits(e: u64) -> (x: u64) {
        e
    }

    fn from_bits(x: u64) -> (e: u64) {
        x
    }

    fn multiply(a: u64, b: u64) -> (c: u64) {
        fp64_mul(a, b)
    }

    fn invert(a: u64) -> (b: u64) {
        fp64_inv(a)
    }
}

} // verus!
