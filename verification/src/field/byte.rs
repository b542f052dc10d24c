//! The byte fields `GF(2)[x] / p(x)` for a degree-eight polynomial `p`.
//!
//! A byte is the coefficient vector of a polynomial of degree below eight; the
//! sum is bitwise XOR. This module defines the product and proves that it makes
//! the bytes a field.

use vstd::prelude::*;

verus! {

/// Multiplication by `x` in `GF(2)[x] / (x^8 + low)`.
pub open spec fn xtime(a: u8, low: u8) -> u8 {
    (a << 1) ^ (if a & 0x80 == 0x80 { low } else { 0u8 })
}

/// `a` when the bit `bit` of `b` is set, zero otherwise.
pub open spec fn term(a: u8, b: u8, bit: u8) -> u8 {
    if b & bit == bit { a } else { 0u8 }
}

/// The product of two bytes in `GF(2)[x] / (x^8 + low)`: the sum of `x^i * a`
/// over the set bits `i` of `b`.
pub open spec fn byte_product(a: u8, b: u8, low: u8) -> u8 {
    let a1 = xtime(a, low);
    let a2 = xtime(a1, low);
    let a3 = xtime(a2, low);
    let a4 = xtime(a3, low);
    let a5 = xtime(a4, low);
    let a6 = xtime(a5, low);
    let a7 = xtime(a6, low);
    term(a, b, 0x01) ^ term(a1, b, 0x02) ^ term(a2, b, 0x04) ^ term(a3, b, 0x08)
        ^ term(a4, b, 0x10) ^ term(a5, b, 0x20) ^ term(a6, b, 0x40) ^ term(a7, b, 0x80)
}

/// The low bytes of the two supported reduction polynomials, `0x11B` and `0x11D`.
pub open spec fn byte_modulus(low: u8) -> bool {
    low == 0x1b || low == 0x1d
}

proof fn lemma_byte_comm_1b(a: u8, b: u8)
    by (bit_vector)
    ensures
        byte_product(a, b, 0x1b) == byte_product(b, a, 0x1b),
{
}

proof fn lemma_byte_comm_1d(a: u8, b: u8)
    by (bit_vector)
    ensures
        byte_product(a, b, 0x1d) == byte_product(b, a, 0x1d),
{
}

proof fn lemma_byte_linear(a: u8, b: u8, c: u8, low: u8)
    by (bit_vector)
    ensures
        byte_product(a, b ^ c, low) == byte_product(a, b, low) ^ byte_product(a, c, low),
        byte_product(a, 0, low) == 0,
        byte_product(a, 1, low) == a,
{
}

proof fn lemma_byte_xtime_1b(a: u8, b: u8)
    by (bit_vector)
    ensures
        byte_product(a, xtime(b, 0x1b), 0x1b) == xtime(byte_product(a, b, 0x1b), 0x1b),
{
}

proof fn lemma_byte_xtime_1d(a: u8, b: u8)
    by (bit_vector)
    ensures
        byte_product(a, xtime(b, 0x1d), 0x1d) == xtime(byte_product(a, b, 0x1d), 0x1d),
{
}

proof fn lemma_byte_xtime(a: u8, b: u8, low: u8)
    requires
        byte_modulus(low),
    ensures
        byte_product(a, xtime(b, low), low) == xtime(byte_product(a, b, low), low),
{
    lemma_byte_xtime_1b(a, b);
    lemma_byte_xtime_1d(a, b);
}

proof fn lemma_byte_term(a: u8, x: u8, c: u8, bit: u8, low: u8)
    ensures
        byte_product(a, term(x, c, bit), low) == term(byte_product(a, x, low), c, bit),
{
    lemma_byte_linear(a, 0, 0, low);
}

proof fn lemma_byte_assoc(a: u8, b: u8, c: u8, low: u8)
    requires
        byte_modulus(low),
    ensures
        byte_product(byte_product(a, b, low), c, low) == byte_product(
            a,
            byte_product(b, c, low),
            low,
        ),
{
    let b1 = xtime(b, low);
    let b2 = xtime(b1, low);
    let b3 = xtime(b2, low);
    let b4 = xtime(b3, low);
    let b5 = xtime(b4, low);
    let b6 = xtime(b5, low);
    let b7 = xtime(b6, low);
    lemma_byte_xtime(a, b, low);
    lemma_byte_xtime(a, b1, low);
    lemma_byte_xtime(a, b2, low);
    lemma_byte_xtime(a, b3, low);
    lemma_byte_xtime(a, b4, low);
    lemma_byte_xtime(a, b5, low);
    lemma_byte_xtime(a, b6, low);
    let t0 = term(b, c, 0x01);
    let t1 = term(b1, c, 0x02);
    let t2 = term(b2, c, 0x04);
    let t3 = term(b3, c, 0x08);
    let t4 = term(b4, c, 0x10);
    let t5 = term(b5, c, 0x20);
    let t6 = term(b6, c, 0x40);
    let t7 = term(b7, c, 0x80);
    lemma_byte_linear(a, t0, t1, low);
    lemma_byte_linear(a, t0 ^ t1, t2, low);
    lemma_byte_linear(a, t0 ^ t1 ^ t2, t3, low);
    lemma_byte_linear(a, t0 ^ t1 ^ t2 ^ t3, t4, low);
    lemma_byte_linear(a, t0 ^ t1 ^ t2 ^ t3 ^ t4, t5, low);
    lemma_byte_linear(a, t0 ^ t1 ^ t2 ^ t3 ^ t4 ^ t5, t6, low);
    lemma_byte_linear(a, t0 ^ t1 ^ t2 ^ t3 ^ t4 ^ t5 ^ t6, t7, low);
    lemma_byte_term(a, b, c, 0x01, low);
    lemma_byte_term(a, b1, c, 0x02, low);
    lemma_byte_term(a, b2, c, 0x04, low);
    lemma_byte_term(a, b3, c, 0x08, low);
    lemma_byte_term(a, b4, c, 0x10, low);
    lemma_byte_term(a, b5, c, 0x20, low);
    lemma_byte_term(a, b6, c, 0x40, low);
    lemma_byte_term(a, b7, c, 0x80, low);
}

proof fn lemma_byte_nonzero_1b(a: u8, b: u8)
    by (bit_vector)
    requires
        a != 0,
        b != 0,
    ensures
        byte_product(a, b, 0x1b) != 0,
{
}

proof fn lemma_byte_frobenius_1b(
    a: u8,
    a2: u8,
    a4: u8,
    a8: u8,
    a16: u8,
    a32: u8,
    a64: u8,
    a128: u8,
)
    by (bit_vector)
    requires
        a2 == byte_product(a, a, 0x1b),
        a4 == byte_product(a2, a2, 0x1b),
        a8 == byte_product(a4, a4, 0x1b),
        a16 == byte_product(a8, a8, 0x1b),
        a32 == byte_product(a16, a16, 0x1b),
        a64 == byte_product(a32, a32, 0x1b),
        a128 == byte_product(a64, a64, 0x1b),
    ensures
        byte_product(a128, a128, 0x1b) == a,
{
}

proof fn lemma_byte_nonzero_1d(a: u8, b: u8)
    by (bit_vector)
    requires
        a != 0,
        b != 0,
    ensures
        byte_product(a, b, 0x1d) != 0,
{
}

proof fn lemma_byte_frobenius_1d(
    a: u8,
    a2: u8,
    a4: u8,
    a8: u8,
    a16: u8,
    a32: u8,
    a64: u8,
    a128: u8,
)
    by (bit_vector)
    requires
        a2 == byte_product(a, a, 0x1d),
        a4 == byte_product(a2, a2, 0x1d),
        a8 == byte_product(a4, a4, 0x1d),
        a16 == byte_product(a8, a8, 0x1d),
        a32 == byte_product(a16, a16, 0x1d),
        a64 == byte_product(a32, a32, 0x1d),
        a128 == byte_product(a64, a64, 0x1d),
    ensures
        byte_product(a128, a128, 0x1d) == a,
{
}

proof fn lemma_byte_idempotent(a: u8, low: u8)
    by (bit_vector)
    requires
        low == 0x1b || low == 0x1d,
        byte_product(a, a, low) == a,
    ensures
        a == 0 || a == 1,
{
}

pub proof fn lemma_byte_laws(a: u8, b: u8, c: u8, low: u8)
    requires
        byte_modulus(low),
    ensures
        byte_product(a, b, low) == byte_product(b, a, low),
        byte_product(byte_product(a, b, low), c, low) == byte_product(
            a,
            byte_product(b, c, low),
            low,
        ),
        byte_product(a, b ^ c, low) == byte_product(a, b, low) ^ byte_product(a, c, low),
        byte_product(a, 1, low) == a,
        byte_product(a, 0, low) == 0,
        a != 0 && b != 0 ==> byte_product(a, b, low) != 0,
{
    lemma_byte_comm_1b(a, b);
    lemma_byte_comm_1d(a, b);
    lemma_byte_assoc(a, b, c, low);
    lemma_byte_linear(a, b, c, low);
    if a != 0 && b != 0 {
        lemma_byte_nonzero_1b(a, b);
        lemma_byte_nonzero_1d(a, b);
    }
}

/// `(a * b)^2 == a^2 * b^2`.
proof fn lemma_byte_square_product(a: u8, b: u8, low: u8)
    requires
        byte_modulus(low),
    ensures
        ({
            let ab = byte_product(a, b, low);
            byte_product(ab, ab, low) == byte_product(
                byte_product(a, a, low),
                byte_product(b, b, low),
                low,
            )
        }),
{
    let ab = byte_product(a, b, low);
    let bb = byte_product(b, b, low);
    lemma_byte_laws(a, b, ab, low);
    lemma_byte_laws(b, ab, 0, low);
    lemma_byte_laws(a, b, b, low);
    lemma_byte_laws(a, a, bb, low);
    lemma_byte_laws(a, bb, 0, low);
}

/// Every nonzero byte has an inverse.
pub proof fn lemma_byte_inverse(a: u8, low: u8) -> (b: u8)
    requires
        byte_modulus(low),
        a != 0,
    ensures
        byte_product(a, b, low) == 1,
{
    let a2 = byte_product(a, a, low);
    let a4 = byte_product(a2, a2, low);
    let a8 = byte_product(a4, a4, low);
    let a16 = byte_product(a8, a8, low);
    let a32 = byte_product(a16, a16, low);
    let a64 = byte_product(a32, a32, low);
    let a128 = byte_product(a64, a64, low);
    if low == 0x1b {
        lemma_byte_frobenius_1b(a, a2, a4, a8, a16, a32, a64, a128);
    } else {
        lemma_byte_frobenius_1d(a, a2, a4, a8, a16, a32, a64, a128);
    }
    let p1 = byte_product(a2, a4, low);
    let p2 = byte_product(p1, a8, low);
    let p3 = byte_product(p2, a16, low);
    let p4 = byte_product(p3, a32, low);
    let p5 = byte_product(p4, a64, low);
    let b = byte_product(p5, a128, low);
    let n = byte_product(a, b, low);
    // The squares of the partial products are the same products, one step on.
    lemma_byte_square_product(a2, a4, low);
    lemma_byte_square_product(p1, a8, low);
    lemma_byte_square_product(p2, a16, low);
    lemma_byte_square_product(p3, a32, low);
    lemma_byte_square_product(p4, a64, low);
    lemma_byte_square_product(p5, a128, low);
    lemma_byte_square_product(a, b, low);
    let q1 = byte_product(a4, a8, low);
    let q2 = byte_product(q1, a16, low);
    let q3 = byte_product(q2, a32, low);
    let q4 = byte_product(q3, a64, low);
    let q5 = byte_product(q4, a128, low);
    // a2 * q == p
    lemma_byte_laws(a2, a4, a8, low);
    lemma_byte_laws(a2, q1, a16, low);
    lemma_byte_laws(a2, q2, a32, low);
    lemma_byte_laws(a2, q3, a64, low);
    lemma_byte_laws(a2, q4, a128, low);
    assert(byte_product(a2, q5, low) == b);
    // n^2 == a2 * (q5 * a) == n
    lemma_byte_laws(a2, q5, a, low);
    lemma_byte_laws(b, a, 0, low);
    assert(byte_product(n, n, low) == n);
    lemma_byte_idempotent(n, low);
    lemma_byte_laws(a, a, 0, low);
    lemma_byte_laws(a2, a2, 0, low);
    lemma_byte_laws(a4, a4, 0, low);
    lemma_byte_laws(a8, a8, 0, low);
    lemma_byte_laws(a16, a16, 0, low);
    lemma_byte_laws(a32, a32, 0, low);
    lemma_byte_laws(a64, a64, 0, low);
    lemma_byte_laws(p1, a8, 0, low);
    lemma_byte_laws(p2, a16, 0, low);
    lemma_byte_laws(p3, a32, 0, low);
    lemma_byte_laws(p4, a64, 0, low);
    lemma_byte_laws(p5, a128, 0, low);
    lemma_byte_laws(a, b, 0, low);
    b
}

/// Doubling a byte: a shift, reduced where the high bit leaves.
pub proof fn lemma_byte_double(a: u8, low: u8)
    by (bit_vector)
    ensures
        a < 0x80 ==> byte_product(a, 2, low) == 2 * a,
        a >= 0x80 ==> byte_product(a, 2, low) ^ low == 2 * a - 0x100,
        (byte_product(a, 2, low) ^ low) ^ low == byte_product(a, 2, low),
{
}

} // verus!
