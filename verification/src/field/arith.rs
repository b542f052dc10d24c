//! Scalar arithmetic of the `fgf` crate on raw bit patterns.
//!
//! Each function hands its operands to the element type of one field of `fgf`
//! and gives back the raw bit pattern of the result.

use vstd::prelude::*;

use crate::field::byte::byte_product;
use crate::field::tower::{tower_product, Tower};

verus! {

/// `fgf::gf8b::Elem::mul`: the product modulo `0x11B`.
#[verifier::external_body]
pub(crate) fn gf8b_mul(a: u8, b: u8) -> (c: u8)
    ensures
        c == byte_product(a, b, 0x1b),
{
    fgf::gf8b::Elem::from_raw(a).mul(fgf::gf8b::Elem::from_raw(b)).to_raw()
}

/// `fgf::gf8b::Elem::inv`: the multiplicative inverse, with zero mapped to zero.
#[verifier::external_body]
pub(crate) fn gf8b_inv(a: u8) -> (b: u8)
    ensures
        a == 0 ==> b == 0,
        a != 0 ==> byte_product(a, b, 0x1b) == 1,
{
    fgf::gf8b::Elem::from_raw(a).inv().to_raw()
}

/// `fgf::gf8d::Elem::mul`: the product modulo `0x11D`.
#[verifier::external_body]
pub(crate) fn gf8d_mul(a: u8, b: u8) -> (c: u8)
    ensures
        c == byte_product(a, b, 0x1d),
{
    fgf::gf8d::Elem::from_raw(a).mul(fgf::gf8d::Elem::from_raw(b)).to_raw()
}

/// `fgf::gf8d::Elem::inv`: the multiplicative inverse, with zero mapped to zero.
#[verifier::external_body]
pub(crate) fn gf8d_inv(a: u8) -> (b: u8)
    ensures
        a == 0 ==> b == 0,
        a != 0 ==> byte_product(a, b, 0x1d) == 1,
{
    fgf::gf8d::Elem::from_raw(a).inv().to_raw()
}

/// `fgf::gf16::Elem::mul`: the product of the tower level of width 16.
#[verifier::external_body]
pub(crate) fn gf16_mul(a: u16, b: u16) -> (c: u16)
    ensures
        c as u64 == tower_product(Tower::Rijndael, 16, a as u64, b as u64),
{
    fgf::gf16::Elem::from_raw(a).mul(fgf::gf16::Elem::from_raw(b)).to_raw()
}

/// `fgf::gf16::Elem::inv`: the multiplicative inverse, with zero mapped to zero.
#[verifier::external_body]
pub(crate) fn gf16_inv(a: u16) -> (b: u16)
    ensures
        a == 0 ==> b == 0,
        a != 0 ==> tower_product(Tower::Rijndael, 16, a as u64, b as u64) == 1,
{
    fgf::gf16::Elem::from_raw(a).inv().to_raw()
}

/// `fgf::gf32::Elem::mul`: the product of the tower level of width 32.
#[verifier::external_body]
pub(crate) fn gf32_mul(a: u32, b: u32) -> (c: u32)
    ensures
        c as u64 == tower_product(Tower::Rijndael, 32, a as u64, b as u64),
{
    fgf::gf32::Elem::from_raw(a).mul(fgf::gf32::Elem::from_raw(b)).to_raw()
}

/// `fgf::gf32::Elem::inv`: the multiplicative inverse, with zero mapped to zero.
#[verifier::external_body]
pub(crate) fn gf32_inv(a: u32) -> (b: u32)
    ensures
        a == 0 ==> b == 0,
        a != 0 ==> tower_product(Tower::Rijndael, 32, a as u64, b as u64) == 1,
{
    fgf::gf32::Elem::from_raw(a).inv().to_raw()
}

/// `fgf::gf64::Elem::mul`: the product of the tower level of width 64.
#[verifier::external_body]
pub(crate) fn gf64_mul(a: u64, b: u64) -> (c: u64)
    ensures
        c == tower_product(Tower::Rijndael, 64, a, b),
{
    fgf::gf64::Elem::from_raw(a).mul(fgf::gf64::Elem::from_raw(b)).to_raw()
}

/// `fgf::gf64::Elem::inv`: the multiplicative inverse, with zero mapped to zero.
#[verifier::external_body]
pub(crate) fn gf64_inv(a: u64) -> (b: u64)
    ensures
        a == 0 ==> b == 0,
        a != 0 ==> tower_product(Tower::Rijndael, 64, a, b) == 1,
{
    fgf::gf64::Elem::from_raw(a).inv().to_raw()
}

/// `fgf::fan_paar::fp8::Elem::mul`: the product of the tower level of width 8.
#[verifier::external_body]
pub(crate) fn fp8_mul(a: u8, b: u8) -> (c: u8)
    ensures
        c as u64 == tower_product(Tower::FanPaar, 8, a as u64, b as u64),
{
    fgf::fan_paar::fp8::Elem::from_raw(a).mul(fgf::fan_paar::fp8::Elem::from_raw(b)).to_raw()
}

/// `fgf::fan_paar::fp8::Elem::inv`: the multiplicative inverse, with zero mapped to zero.
#[verifier::external_body]
pub(crate) fn fp8_inv(a: u8) -> (b: u8)
    ensures
        a == 0 ==> b == 0,
        a != 0 ==> tower_product(Tower::FanPaar, 8, a as u64, b as u64) == 1,
{
    fgf::fan_paar::fp8::Elem::from_raw(a).inv().to_raw()
}

/// `fgf::fan_paar::fp16::Elem::mul`: the product of the tower level of width 16.
#[verifier::external_body]
pub(crate) fn fp16_mul(a: u16, b: u16) -> (c: u16)
    ensures
        c as u64 == tower_product(Tower::FanPaar, 16, a as u64, b as u64),
{
    fgf::fan_paar::fp16::Elem::from_raw(a).mul(fgf::fan_paar::fp16::Elem::from_raw(b)).to_raw()
}

/// `fgf::fan_paar::fp16::Elem::inv`: the multiplicative inverse, with zero mapped to zero.
#[verifier::external_body]
pub(crate) fn fp16_inv(a: u16) -> (b: u16)
    ensures
        a == 0 ==> b == 0,
        a != 0 ==> tower_product(Tower::FanPaar, 16, a as u64, b as u64) == 1,
{
    fgf::fan_paar::fp16::Elem::from_raw(a).inv().to_raw()
}

/// `fgf::fan_paar::fp32::Elem::mul`: the product of the tower level of width 32.
#[verifier::external_body]
pub(crate) fn fp32_mul(a: u32, b: u32) -> (c: u32)
    ensures
        c as u64 == tower_product(Tower::FanPaar, 32, a as u64, b as u64),
{
    fgf::fan_paar::fp32::Elem::from_raw(a).mul(fgf::fan_paar::fp32::Elem::from_raw(b)).to_raw()
}

/// `fgf::fan_paar::fp32::Elem::inv`: the multiplicative inverse, with zero mapped to zero.
#[verifier::external_body]
pub(crate) fn fp32_inv(a: u32) -> (b: u32)
    ensures
        a == 0 ==> b == 0,
        a != 0 ==> tower_product(Tower::FanPaar, 32, a as u64, b as u64) == 1,
{
    fgf::fan_paar::fp32::Elem::from_raw(a).inv().to_raw()
}

/// `fgf::fan_paar::fp64::Elem::mul`: the product of the tower level of width 64.
#[verifier::external_body]
pub(crate) fn fp64_mul(a: u64, b: u64) -> (c: u64)
    ensures
        c == tower_product(Tower::FanPaar, 64, a, b),
{
    fgf::fan_paar::fp64::Elem::from_raw(a).mul(fgf::fan_paar::fp64::Elem::from_raw(b)).to_raw()
}

/// `fgf::fan_paar::fp64::Elem::inv`: the multiplicative inverse, with zero mapped to zero.
#[verifier::external_body]
pub(crate) fn fp64_inv(a: u64) -> (b: u64)
    ensures
        a == 0 ==> b == 0,
        a != 0 ==> tower_product(Tower::FanPaar, 64, a, b) == 1,
{
    fgf::fan_paar::fp64::Elem::from_raw(a).inv().to_raw()
}

} // verus!
