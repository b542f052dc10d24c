//! What fixes each field: the laws that single its product out.
//!
//! The sum is bitwise XOR and the product distributes over it, so a product is
//! known from what it does to single bits. For a byte field that is doubling. For
//! each further level of a tower it is that the level holds the one below, where
//! the root takes the elements of that one, and what the square of the root is.

use vstd::prelude::*;

use crate::field::byte::{lemma_byte_double, lemma_byte_laws};
use crate::field::markers::{
    FanPaar16, FanPaar32, FanPaar64, FanPaar8, Gf16, Gf32, Gf64, Gf8B, Gf8D,
};
use crate::field::tower::{
    join, lemma_halves_divide, lemma_join, lemma_tower_assoc, lemma_tower_closed,
    lemma_tower_comm, lemma_tower_distributes_left, lemma_tower_level, lemma_tower_one,
    lemma_tower_root, lemma_xor_narrow, mask, tower_product, Tower,
};
use crate::field::{
    fadd, finv, fmul, fone, fzero, lemma_finv, lemma_mul, lemma_one_not_zero, BinaryField,
};

verus! {

/// What the trait's product and inverse return are the product and the inverse of
/// the field.
pub proof fn law_calls_multiply_and_invert<F: BinaryField>(
    a: F::Elem,
    b: F::Elem,
    product: F::Elem,
    inverse: F::Elem,
)
    requires
        call_ensures(F::multiply, (a, b), product),
        call_ensures(F::invert, (a,), inverse),
    ensures
        product == fmul::<F>(a, b),
        a != fzero::<F>() ==> fmul::<F>(a, inverse) == fone::<F>(),
        a == fzero::<F>() ==> inverse == fzero::<F>(),
{
    reveal(fmul);
    reveal(fone);
    reveal(fzero);
    F::lemma_raw(a, 0);
    F::lemma_raw(inverse, 0);
}

/// Elements of [`Gf8B`] are the integers of 8 bits, written as they are; the sum is
/// XOR, and zero and one are those numbers.
pub proof fn law_gf8b_sum(a: u8, b: u8)
    ensures
        Gf8B::width() == 8,
        Gf8B::raw(a) == a,
        Gf8B::of_raw(a as u64) == a,
        fadd::<Gf8B>(a, b) == a ^ b,
        fzero::<Gf8B>() == 0,
        fone::<Gf8B>() == 1,
{
    reveal(fadd);
    reveal(fzero);
    reveal(fone);
    lemma_xor_narrow(a as u64, b as u64);
}

/// Elements of [`Gf8D`] are the integers of 8 bits, written as they are; the sum is
/// XOR, and zero and one are those numbers.
pub proof fn law_gf8d_sum(a: u8, b: u8)
    ensures
        Gf8D::width() == 8,
        Gf8D::raw(a) == a,
        Gf8D::of_raw(a as u64) == a,
        fadd::<Gf8D>(a, b) == a ^ b,
        fzero::<Gf8D>() == 0,
        fone::<Gf8D>() == 1,
{
    reveal(fadd);
    reveal(fzero);
    reveal(fone);
    lemma_xor_narrow(a as u64, b as u64);
}

/// Elements of [`Gf16`] are the integers of 16 bits, written as they are; the sum is
/// XOR, and zero and one are those numbers.
pub proof fn law_gf16_sum(a: u16, b: u16)
    ensures
        Gf16::width() == 16,
        Gf16::raw(a) == a,
        Gf16::of_raw(a as u64) == a,
        fadd::<Gf16>(a, b) == a ^ b,
        fzero::<Gf16>() == 0,
        fone::<Gf16>() == 1,
{
    reveal(fadd);
    reveal(fzero);
    reveal(fone);
    lemma_xor_narrow(a as u64, b as u64);
}

/// Elements of [`Gf32`] are the integers of 32 bits, written as they are; the sum is
/// XOR, and zero and one are those numbers.
pub proof fn law_gf32_sum(a: u32, b: u32)
    ensures
        Gf32::width() == 32,
        Gf32::raw(a) == a,
        Gf32::of_raw(a as u64) == a,
        fadd::<Gf32>(a, b) == a ^ b,
        fzero::<Gf32>() == 0,
        fone::<Gf32>() == 1,
{
    reveal(fadd);
    reveal(fzero);
    reveal(fone);
    lemma_xor_narrow(a as u64, b as u64);
}

/// Elements of [`Gf64`] are the integers of 64 bits, written as they are; the sum is
/// XOR, and zero and one are those numbers.
pub proof fn law_gf64_sum(a: u64, b: u64)
    ensures
        Gf64::width() == 64,
        Gf64::raw(a) == a,
        Gf64::of_raw(a as u64) == a,
        fadd::<Gf64>(a, b) == a ^ b,
        fzero::<Gf64>() == 0,
        fone::<Gf64>() == 1,
{
    reveal(fadd);
    reveal(fzero);
    reveal(fone);
}

/// Elements of [`FanPaar8`] are the integers of 8 bits, written as they are; the sum is
/// XOR, and zero and one are those numbers.
pub proof fn law_fan_paar8_sum(a: u8, b: u8)
    ensures
        FanPaar8::width() == 8,
        FanPaar8::raw(a) == a,
        FanPaar8::of_raw(a as u64) == a,
        fadd::<FanPaar8>(a, b) == a ^ b,
        fzero::<FanPaar8>() == 0,
        fone::<FanPaar8>() == 1,
{
    reveal(fadd);
    reveal(fzero);
    reveal(fone);
    lemma_xor_narrow(a as u64, b as u64);
}

/// Elements of [`FanPaar16`] are the integers of 16 bits, written as they are; the sum is
/// XOR, and zero and one are those numbers.
pub proof fn law_fan_paar16_sum(a: u16, b: u16)
    ensures
        FanPaar16::width() == 16,
        FanPaar16::raw(a) == a,
        FanPaar16::of_raw(a as u64) == a,
        fadd::<FanPaar16>(a, b) == a ^ b,
        fzero::<FanPaar16>() == 0,
        fone::<FanPaar16>() == 1,
{
    reveal(fadd);
    reveal(fzero);
    reveal(fone);
    lemma_xor_narrow(a as u64, b as u64);
}

/// Elements of [`FanPaar32`] are the integers of 32 bits, written as they are; the sum is
/// XOR, and zero and one are those numbers.
pub proof fn law_fan_paar32_sum(a: u32, b: u32)
    ensures
        FanPaar32::width() == 32,
        FanPaar32::raw(a) == a,
        FanPaar32::of_raw(a as u64) == a,
        fadd::<FanPaar32>(a, b) == a ^ b,
        fzero::<FanPaar32>() == 0,
        fone::<FanPaar32>() == 1,
{
    reveal(fadd);
    reveal(fzero);
    reveal(fone);
    lemma_xor_narrow(a as u64, b as u64);
}

/// Elements of [`FanPaar64`] are the integers of 64 bits, written as they are; the sum is
/// XOR, and zero and one are those numbers.
pub proof fn law_fan_paar64_sum(a: u64, b: u64)
    ensures
        FanPaar64::width() == 64,
        FanPaar64::raw(a) == a,
        FanPaar64::of_raw(a as u64) == a,
        fadd::<FanPaar64>(a, b) == a ^ b,
        fzero::<FanPaar64>() == 0,
        fone::<FanPaar64>() == 1,
{
    reveal(fadd);
    reveal(fzero);
    reveal(fone);
}

/// Doubling in [`Gf8B`]: a shift, and where the high bit leaves, the low byte of the
/// modulus `0x11B` is added.
pub proof fn law_gf8b_doubles(a: u8)
    ensures
        a < 0x80 ==> fmul::<Gf8B>(2, a) == 2 * a,
        a >= 0x80 ==> fmul::<Gf8B>(2, a) == ((2 * a - 0x100) as u8) ^ 0x1b,
{
    reveal(fmul);
    lemma_byte_double(a, 0x1b);
    lemma_byte_laws(a, 2, 0, 0x1b);
}

/// Doubling in [`Gf8D`]: a shift, and where the high bit leaves, the low byte of the
/// modulus `0x11D` is added.
pub proof fn law_gf8d_doubles(a: u8)
    ensures
        a < 0x80 ==> fmul::<Gf8D>(2, a) == 2 * a,
        a >= 0x80 ==> fmul::<Gf8D>(2, a) == ((2 * a - 0x100) as u8) ^ 0x1d,
{
    reveal(fmul);
    lemma_byte_double(a, 0x1d);
    lemma_byte_laws(a, 2, 0, 0x1d);
}

/// The pattern of an element of the level below times the root.
proof fn lemma_root_pattern(w: u64, h: u64, a: u64)
    requires
        (h == 1 && w == 2) || (h == 2 && w == 4) || (h == 4 && w == 8) || (h == 8 && w == 16) || (h
            == 16 && w == 32) || (h == 32 && w == 64),
        a <= mask(h),
    ensures
        join(0, a, h) <= mask(w),
        h == 1 ==> join(0, a, h) == 2 * a,
        h == 2 ==> join(0, a, h) == 4 * a,
        h == 4 ==> join(0, a, h) == 0x10 * a,
        h == 8 ==> join(0, a, h) == 0x100 * a,
        h == 16 ==> join(0, a, h) == 0x1_0000 * a,
        h == 32 ==> join(0, a, h) == 0x1_0000_0000 * a,
{
    lemma_join(0, a, w, h);
    lemma_halves_divide(join(0, a, h), w, h);
}

/// The lowest level of the first tower is the byte field.
proof fn lemma_byte_level(a: u8, b: u8)
    ensures
        tower_product(Tower::Rijndael, 8, a as u64, b as u64) == fmul::<Gf8B>(a, b),
{
    reveal(fmul);
}

/// [`Gf16`] over [`Gf8B`]: products of elements of the field below are those of that
/// field, the root `0x100` takes such an element to the high half, and `r (r x) == r x + d x` for `d = 0x20`.
pub proof fn law_gf16_extends(a: u8, b: u8, x: u16)
    ensures
        fmul::<Gf16>(a as u16, b as u16) == fmul::<Gf8B>(a, b),
        fmul::<Gf16>(0x100, a as u16) == 0x100 * a,
        fmul::<Gf16>(0x100, fmul::<Gf16>(0x100, x)) == fmul::<Gf16>(0x100, x) ^ fmul::<Gf16>(0x20, x),
{
    reveal(fmul);
    let k = Tower::Rijndael;
    let r = join(0, 1, 8);
    lemma_root_pattern(16, 8, 1);
    lemma_root_pattern(16, 8, a as u64);
    lemma_tower_level(k, 16, 8, a as u64, b as u64);
    lemma_tower_closed(k, 8, a as u64, b as u64);
    lemma_tower_root(k, 16, 8, x as u64);
    let y = tower_product(k, 16, r, x as u64);
    lemma_tower_closed(k, 16, r, x as u64);
    lemma_tower_closed(k, 16, 1, y);
    lemma_tower_closed(k, 16, 0x20, x as u64);
    lemma_tower_closed(k, 16, r, y);
    lemma_tower_one(k, 16, y);
    lemma_tower_one(k, 16, x as u64);
    lemma_tower_comm(k, 16, 1, y);
    lemma_tower_comm(k, 16, 1, x as u64);
    lemma_byte_level(a, b);
    lemma_xor_narrow(
        tower_product(k, 16, 1, y),
        tower_product(k, 16, 0x20, x as u64),
    );
}

/// [`Gf32`] over [`Gf16`]: products of elements of the field below are those of that
/// field, the root `0x10000` takes such an element to the high half, and `r (r x) == r x + d x` for `d = 0x2000`.
pub proof fn law_gf32_extends(a: u16, b: u16, x: u32)
    ensures
        fmul::<Gf32>(a as u32, b as u32) == fmul::<Gf16>(a, b),
        fmul::<Gf32>(0x10000, a as u32) == 0x10000 * a,
        fmul::<Gf32>(0x10000, fmul::<Gf32>(0x10000, x)) == fmul::<Gf32>(0x10000, x) ^ fmul::<Gf32>(0x2000, x),
{
    reveal(fmul);
    let k = Tower::Rijndael;
    let r = join(0, 1, 16);
    lemma_root_pattern(32, 16, 1);
    lemma_root_pattern(32, 16, a as u64);
    lemma_tower_level(k, 32, 16, a as u64, b as u64);
    lemma_tower_closed(k, 16, a as u64, b as u64);
    lemma_tower_root(k, 32, 16, x as u64);
    let y = tower_product(k, 32, r, x as u64);
    lemma_tower_closed(k, 32, r, x as u64);
    lemma_tower_closed(k, 32, 1, y);
    lemma_tower_closed(k, 32, 0x2000, x as u64);
    lemma_tower_closed(k, 32, r, y);
    lemma_tower_one(k, 32, y);
    lemma_tower_one(k, 32, x as u64);
    lemma_tower_comm(k, 32, 1, y);
    lemma_tower_comm(k, 32, 1, x as u64);
    lemma_xor_narrow(
        tower_product(k, 32, 1, y),
        tower_product(k, 32, 0x2000, x as u64),
    );
}

/// [`Gf64`] over [`Gf32`]: products of elements of the field below are those of that
/// field, the root `0x100000000` takes such an element to the high half, and `r (r x) == r x + d x` for
/// `d = 0x2000_0000`.
pub proof fn law_gf64_extends(a: u32, b: u32, x: u64)
    ensures
        fmul::<Gf64>(a as u64, b as u64) == fmul::<Gf32>(a, b),
        fmul::<Gf64>(0x100000000, a as u64) == 0x100000000 * a,
        fmul::<Gf64>(0x100000000, fmul::<Gf64>(0x100000000, x)) == fmul::<Gf64>(0x100000000, x) ^ fmul::<Gf64>(0x2000_0000, x),
{
    reveal(fmul);
    let k = Tower::Rijndael;
    let r = join(0, 1, 32);
    lemma_root_pattern(64, 32, 1);
    lemma_root_pattern(64, 32, a as u64);
    lemma_tower_level(k, 64, 32, a as u64, b as u64);
    lemma_tower_closed(k, 32, a as u64, b as u64);
    lemma_tower_root(k, 64, 32, x as u64);
    let y = tower_product(k, 64, r, x as u64);
    lemma_tower_closed(k, 64, r, x as u64);
    lemma_tower_closed(k, 64, 1, y);
    lemma_tower_closed(k, 64, 0x2000_0000, x as u64);
    lemma_tower_closed(k, 64, r, y);
    lemma_tower_one(k, 64, y);
    lemma_tower_one(k, 64, x as u64);
    lemma_tower_comm(k, 64, 1, y);
    lemma_tower_comm(k, 64, 1, x as u64);
    lemma_xor_narrow(
        tower_product(k, 64, 1, y),
        tower_product(k, 64, 0x2000_0000, x as u64),
    );
}

/// [`FanPaar16`] over [`FanPaar8`]: products of elements of the field below are those of that
/// field, the root `0x100` takes such an element to the high half, and `r (r x) == s (r x) + x` for the root
/// `s = 0x10` below.
pub proof fn law_fan_paar16_extends(a: u8, b: u8, x: u16)
    ensures
        fmul::<FanPaar16>(a as u16, b as u16) == fmul::<FanPaar8>(a, b),
        fmul::<FanPaar16>(0x100, a as u16) == 0x100 * a,
        fmul::<FanPaar16>(0x100, fmul::<FanPaar16>(0x100, x)) == fmul::<FanPaar16>(0x10, fmul::<FanPaar16>(0x100, x)) ^ x,
{
    reveal(fmul);
    let k = Tower::FanPaar;
    let r = join(0, 1, 8);
    lemma_root_pattern(16, 8, 1);
    lemma_root_pattern(16, 8, a as u64);
    lemma_tower_level(k, 16, 8, a as u64, b as u64);
    lemma_tower_closed(k, 8, a as u64, b as u64);
    lemma_tower_root(k, 16, 8, x as u64);
    let y = tower_product(k, 16, r, x as u64);
    lemma_tower_closed(k, 16, r, x as u64);
    lemma_tower_closed(k, 16, 0x10, y);
    lemma_tower_closed(k, 16, 1, x as u64);
    lemma_tower_closed(k, 16, r, y);
    lemma_tower_one(k, 16, y);
    lemma_tower_one(k, 16, x as u64);
    lemma_tower_comm(k, 16, 1, y);
    lemma_tower_comm(k, 16, 1, x as u64);
    lemma_xor_narrow(
        tower_product(k, 16, 0x10, y),
        tower_product(k, 16, 1, x as u64),
    );
}

/// [`FanPaar32`] over [`FanPaar16`]: products of elements of the field below are those of that
/// field, the root `0x10000` takes such an element to the high half, and `r (r x) == s (r x) + x` for the
/// root `s = 0x100` below.
pub proof fn law_fan_paar32_extends(a: u16, b: u16, x: u32)
    ensures
        fmul::<FanPaar32>(a as u32, b as u32) == fmul::<FanPaar16>(a, b),
        fmul::<FanPaar32>(0x10000, a as u32) == 0x10000 * a,
        fmul::<FanPaar32>(0x10000, fmul::<FanPaar32>(0x10000, x)) == fmul::<FanPaar32>(0x100, fmul::<FanPaar32>(0x10000, x)) ^ x,
{
    reveal(fmul);
    let k = Tower::FanPaar;
    let r = join(0, 1, 16);
    lemma_root_pattern(32, 16, 1);
    lemma_root_pattern(32, 16, a as u64);
    lemma_tower_level(k, 32, 16, a as u64, b as u64);
    lemma_tower_closed(k, 16, a as u64, b as u64);
    lemma_tower_root(k, 32, 16, x as u64);
    let y = tower_product(k, 32, r, x as u64);
    lemma_tower_closed(k, 32, r, x as u64);
    lemma_tower_closed(k, 32, 0x100, y);
    lemma_tower_closed(k, 32, 1, x as u64);
    lemma_tower_closed(k, 32, r, y);
    lemma_tower_one(k, 32, y);
    lemma_tower_one(k, 32, x as u64);
    lemma_tower_comm(k, 32, 1, y);
    lemma_tower_comm(k, 32, 1, x as u64);
    lemma_xor_narrow(
        tower_product(k, 32, 0x100, y),
        tower_product(k, 32, 1, x as u64),
    );
}

/// [`FanPaar64`] over [`FanPaar32`]: products of elements of the field below are those of that
/// field, the root `0x100000000` takes such an element to the high half, and `r (r x) == s (r x) + x` for the
/// root `s = 0x1_0000` below.
pub proof fn law_fan_paar64_extends(a: u32, b: u32, x: u64)
    ensures
        fmul::<FanPaar64>(a as u64, b as u64) == fmul::<FanPaar32>(a, b),
        fmul::<FanPaar64>(0x100000000, a as u64) == 0x100000000 * a,
        fmul::<FanPaar64>(0x100000000, fmul::<FanPaar64>(0x100000000, x)) == fmul::<FanPaar64>(0x1_0000, fmul::<FanPaar64>(0x100000000, x)) ^ x,
{
    reveal(fmul);
    let k = Tower::FanPaar;
    let r = join(0, 1, 32);
    lemma_root_pattern(64, 32, 1);
    lemma_root_pattern(64, 32, a as u64);
    lemma_tower_level(k, 64, 32, a as u64, b as u64);
    lemma_tower_closed(k, 32, a as u64, b as u64);
    lemma_tower_root(k, 64, 32, x as u64);
    let y = tower_product(k, 64, r, x as u64);
    lemma_tower_closed(k, 64, r, x as u64);
    lemma_tower_closed(k, 64, 0x1_0000, y);
    lemma_tower_closed(k, 64, 1, x as u64);
    lemma_tower_closed(k, 64, r, y);
    lemma_tower_one(k, 64, y);
    lemma_tower_one(k, 64, x as u64);
    lemma_tower_comm(k, 64, 1, y);
    lemma_tower_comm(k, 64, 1, x as u64);
    lemma_xor_narrow(
        tower_product(k, 64, 0x1_0000, y),
        tower_product(k, 64, 1, x as u64),
    );
}

/// [`FanPaar8`] over the fields of one, two and four bits that it holds: each is
/// closed, its root takes it to the high half of the next, and `r (r x)` is
/// `s (r x) + x` for the root `s` below, which is one for the first.
pub proof fn law_fan_paar8_extends(a: u8, b: u8, x: u8)
    ensures
        a < 2 && b < 2 ==> fmul::<FanPaar8>(a, b) < 2,
        a < 4 && b < 4 ==> fmul::<FanPaar8>(a, b) < 4,
        a < 0x10 && b < 0x10 ==> fmul::<FanPaar8>(a, b) < 0x10,
        a < 2 ==> fmul::<FanPaar8>(2, a) == 2 * a,
        a < 4 ==> fmul::<FanPaar8>(4, a) == 4 * a,
        a < 0x10 ==> fmul::<FanPaar8>(0x10, a) == 0x10 * a,
        fmul::<FanPaar8>(2, fmul::<FanPaar8>(2, x)) == fmul::<FanPaar8>(2, x) ^ x,
        fmul::<FanPaar8>(4, fmul::<FanPaar8>(4, x)) == fmul::<FanPaar8>(
            2,
            fmul::<FanPaar8>(4, x),
        ) ^ x,
        fmul::<FanPaar8>(0x10, fmul::<FanPaar8>(0x10, x)) == fmul::<FanPaar8>(
            4,
            fmul::<FanPaar8>(0x10, x),
        ) ^ x,
{
    reveal(fmul);
    let k = Tower::FanPaar;
    let (c, d) = (a as u64, b as u64);
    lemma_root_pattern(8, 4, 1);
    lemma_root_pattern(4, 2, 1);
    lemma_root_pattern(2, 1, 1);
    // the level of four bits
    if c < 0x10 {
        lemma_root_pattern(8, 4, c);
        lemma_tower_level(k, 8, 4, c, c);
        if d < 0x10 {
            lemma_tower_level(k, 8, 4, c, d);
            lemma_tower_closed(k, 4, c, d);
        }
    }
    // the level of two bits
    lemma_tower_level(k, 8, 4, 4, 1);
    if c < 4 {
        lemma_root_pattern(4, 2, c);
        lemma_tower_level(k, 4, 2, c, c);
        lemma_tower_level(k, 8, 4, 4, c);
        if d < 4 {
            lemma_tower_level(k, 4, 2, c, d);
            lemma_tower_closed(k, 2, c, d);
        }
    }
    // the level of one bit
    if c < 2 {
        lemma_root_pattern(2, 1, c);
        lemma_tower_level(k, 2, 1, c, c);
        lemma_tower_level(k, 4, 2, 2, c);
        lemma_tower_level(k, 8, 4, 2, c);
        if d < 2 {
            lemma_tower_level(k, 2, 1, c, d);
            lemma_tower_closed(k, 1, c, d);
        }
    }
    lemma_small_root(2, x);
    lemma_small_root(4, x);
    lemma_small_root(0x10, x);
}

/// The roots of [`FanPaar8`] and of the fields that it holds.
proof fn lemma_small_root(r: u64, x: u8)
    requires
        r == 2 || r == 4 || r == 0x10,
    ensures
        ({
            let k = Tower::FanPaar;
            let y = tower_product(k, 8, r, x as u64);
            let s: u64 = if r == 2 {
                1
            } else if r == 4 {
                2
            } else {
                4
            };
            &&& y <= 0xff
            &&& tower_product(k, 8, r, y) <= 0xff
            &&& tower_product(k, 8, r, y) as u8 == (tower_product(k, 8, s, y) as u8) ^ x
            &&& r == 2 ==> tower_product(k, 8, s, y) == y
        }),
{
    let k = Tower::FanPaar;
    let z = x as u64;
    let y = tower_product(k, 8, r, z);
    let s: u64 = if r == 2 {
        1
    } else if r == 4 {
        2
    } else {
        4
    };
    lemma_root_pattern(8, 4, 1);
    lemma_root_pattern(4, 2, 1);
    lemma_root_pattern(2, 1, 1);
    lemma_root_pattern(8, 4, 4);
    lemma_root_pattern(4, 2, 2);
    lemma_tower_closed(k, 8, r, z);
    lemma_tower_closed(k, 8, s, y);
    lemma_tower_closed(k, 8, r, y);
    // r * r == s * r + 1
    if r == 0x10 {
        lemma_tower_level(k, 8, 4, 4, 4);
        lemma_tower_root(k, 8, 4, z);
    } else if r == 4 {
        lemma_tower_root(k, 4, 2, 1);
        lemma_tower_level(k, 4, 2, 1, 1);
        lemma_tower_level(k, 4, 2, 2, 1);
        lemma_tower_one(k, 4, 4);
        lemma_tower_one(k, 4, 1);
        lemma_tower_level(k, 8, 4, 4, 4);
        lemma_tower_closed(k, 4, 2, 4);
        lemma_tower_level(k, 8, 4, 2, 4);
    } else {
        lemma_tower_root(k, 2, 1, 1);
        lemma_tower_level(k, 2, 1, 1, 1);
        lemma_tower_one(k, 2, 2);
        lemma_tower_one(k, 2, 1);
        lemma_tower_comm(k, 2, 1, 2);
        lemma_tower_level(k, 4, 2, 2, 2);
        lemma_tower_level(k, 8, 4, 2, 2);
        lemma_tower_one(k, 8, 2);
        lemma_tower_comm(k, 8, 1, 2);
        lemma_tower_one(k, 8, y);
        lemma_tower_comm(k, 8, 1, y);
    }
    lemma_tower_one(k, 8, z);
    lemma_tower_comm(k, 8, 1, z);
    if r != 0x10 {
        let rr = tower_product(k, 8, r, r);
        let sr = tower_product(k, 8, s, r);
        assert(rr == sr ^ 1);
        lemma_tower_assoc(k, 8, r, r, z);
        lemma_tower_closed(k, 8, s, r);
        lemma_tower_distributes_left(k, 8, sr, 1, z);
        lemma_tower_assoc(k, 8, s, r, z);
    }
    lemma_xor_narrow(tower_product(k, 8, s, y), z);
}

/// Inverses: the product with the element is one, no other element has that product,
/// and zero maps to zero.
pub proof fn law_inverses<F: BinaryField>(a: F::Elem, b: F::Elem)
    ensures
        a != fzero::<F>() ==> fmul::<F>(a, finv::<F>(a)) == fone::<F>(),
        fmul::<F>(a, b) == fone::<F>() ==> b == finv::<F>(a),
        finv::<F>(fzero::<F>()) == fzero::<F>(),
{
    lemma_one_not_zero::<F>();
    lemma_mul::<F>(a, b, b);
    lemma_mul::<F>(b, b, b);
    if a != fzero::<F>() {
        lemma_finv::<F>(a, b);
    }
}

/// The product with a sum is the sum of the products, and one and zero are what they
/// are called.
pub proof fn law_products_are_linear<F: BinaryField>(a: F::Elem, b: F::Elem, c: F::Elem)
    ensures
        fmul::<F>(a, fadd::<F>(b, c)) == fadd::<F>(fmul::<F>(a, b), fmul::<F>(a, c)),
        fmul::<F>(a, b) == fmul::<F>(b, a),
        fmul::<F>(fmul::<F>(a, b), c) == fmul::<F>(a, fmul::<F>(b, c)),
        fmul::<F>(fone::<F>(), a) == a,
        fmul::<F>(fzero::<F>(), a) == fzero::<F>(),
{
    lemma_mul::<F>(a, b, c);
}

} // verus!
