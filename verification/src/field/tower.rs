//! Quadratic towers of binary fields on raw bit patterns.
//!
//! Each level of a tower doubles the extension degree. An element of the level
//! of width `2h` is `lo + hi * r` with `lo` and `hi` in the level of width `h`,
//! stored as the low and the high half of the bit pattern, and `r` satisfies
//! `r^2 = t * r + n` for two constants `t` and `n` of the level below. The sum is
//! bitwise XOR.
//!
//! This module defines the product and proves that it makes the bit patterns of
//! every level a field.

use vstd::prelude::*;

use crate::field::byte::{byte_product, lemma_byte_inverse, lemma_byte_laws};

verus! {

/// The two towers: one rooted at the byte field modulo `0x11B`, with
/// `r^2 = r + delta`; and the canonical tower rooted at GF(2), with
/// `r^2 = alpha * r + 1` for the root `alpha` of the level below.
pub enum Tower {
    Rijndael,
    FanPaar,
}

/// The largest bit pattern of width `w`.
pub open spec fn mask(w: u64) -> u64 {
    if w == 1 {
        1
    } else if w == 2 {
        3
    } else if w == 4 {
        0xf
    } else if w == 8 {
        0xff
    } else if w == 16 {
        0xffff
    } else if w == 32 {
        0xffff_ffff
    } else {
        0xffff_ffff_ffff_ffff
    }
}

/// The widths at which a tower has a level.
pub open spec fn level(k: Tower, w: u64) -> bool {
    w == 8 || w == 16 || w == 32 || w == 64 || (k is FanPaar && (w == 1 || w == 2 || w == 4))
}

/// The widths that have a level of half the width below them.
pub open spec fn extends(k: Tower, w: u64, h: u64) -> bool {
    level(k, h) && w == 2 * h && w <= 64
}

/// The constant component of an element over the level of width `h`.
pub open spec fn lo(x: u64, h: u64) -> u64 {
    x & mask(h)
}

/// The coefficient of the root of an element over the level of width `h`.
pub open spec fn hi(x: u64, h: u64) -> u64 {
    (x >> h) & mask(h)
}

/// The element `l + u * r` over the level of width `h`.
pub open spec fn join(l: u64, u: u64, h: u64) -> u64 {
    l | (u << h)
}

/// The root of the canonical tower's level of width `h`.
pub open spec fn alpha(h: u64) -> u64 {
    if h == 1 {
        1
    } else if h == 2 {
        2
    } else if h == 4 {
        4
    } else if h == 8 {
        0x10
    } else if h == 16 {
        0x100
    } else {
        0x1_0000
    }
}

/// The coefficient `t` of `r^2 = t * r + n` over the level of width `h`.
pub open spec fn root_trace(k: Tower, h: u64) -> u64 {
    match k {
        Tower::Rijndael => 1,
        Tower::FanPaar => alpha(h),
    }
}

/// The constant `n` of `r^2 = t * r + n` over the level of width `h`.
pub open spec fn root_norm(k: Tower, h: u64) -> u64 {
    match k {
        Tower::Rijndael => if h == 8 {
            0x20
        } else if h == 16 {
            0x2000
        } else {
            0x2000_0000
        },
        Tower::FanPaar => 1,
    }
}

/// The product of two elements of the level of width `w`.
pub open spec fn tower_product(k: Tower, w: u64, a: u64, b: u64) -> u64
    decreases w,
{
    if w <= 1 {
        a & b & 1
    } else if k is Rijndael && w <= 8 {
        byte_product(a as u8, b as u8, 0x1b) as u64
    } else {
        let h = (w / 2) as u64;
        let ll = tower_product(k, h, lo(a, h), lo(b, h));
        let lh = tower_product(k, h, lo(a, h), hi(b, h));
        let hl = tower_product(k, h, hi(a, h), lo(b, h));
        let hh = tower_product(k, h, hi(a, h), hi(b, h));
        join(
            ll ^ tower_product(k, h, root_norm(k, h), hh),
            lh ^ hl ^ tower_product(k, h, root_trace(k, h), hh),
            h,
        )
    }
}

// Bit patterns and their halves.

proof fn lemma_halves(x: u64, y: u64, w: u64, h: u64)
    by (bit_vector)
    requires
        (h == 1 && w == 2) || (h == 2 && w == 4) || (h == 4 && w == 8) || (h == 8 && w == 16) || (h
            == 16 && w == 32) || (h == 32 && w == 64),
        x <= mask(w),
        y <= mask(w),
    ensures
        lo(x, h) <= mask(h),
        hi(x, h) <= mask(h),
        join(lo(x, h), hi(x, h), h) == x,
        lo(x ^ y, h) == lo(x, h) ^ lo(y, h),
        hi(x ^ y, h) == hi(x, h) ^ hi(y, h),
        x ^ y <= mask(w),
        lo(0, h) == 0,
        hi(0, h) == 0,
        lo(1, h) == 1,
        hi(1, h) == 0,
{
}

pub proof fn lemma_join(l: u64, u: u64, w: u64, h: u64)
    by (bit_vector)
    requires
        (h == 1 && w == 2) || (h == 2 && w == 4) || (h == 4 && w == 8) || (h == 8 && w == 16) || (h
            == 16 && w == 32) || (h == 32 && w == 64),
        l <= mask(h),
        u <= mask(h),
    ensures
        join(l, u, h) <= mask(w),
        lo(join(l, u, h), h) == l,
        hi(join(l, u, h), h) == u,
        join(1, 0, h) == 1,
        join(0, 0, h) == 0,
{
}

proof fn lemma_xor_bound(a: u64, b: u64, w: u64)
    by (bit_vector)
    requires
        a <= mask(w),
        b <= mask(w),
    ensures
        a ^ b <= mask(w),
        0 <= mask(w),
        1 <= mask(w),
{
}

/// The sum is a commutative group in which every element is its own negation.
pub proof fn lemma_xor(a: u64, b: u64, c: u64)
    by (bit_vector)
    ensures
        a ^ b == b ^ a,
        (a ^ b) ^ c == a ^ (b ^ c),
        a ^ a == 0,
        a ^ 0 == a,
        0 ^ a == a,
{
}

proof fn lemma_xor4(a: u64, b: u64, c: u64, d: u64)
    by (bit_vector)
    ensures
        (a ^ b) ^ (c ^ d) == (a ^ c) ^ (b ^ d),
{
}

proof fn lemma_xor6(a: u64, b: u64, c: u64, d: u64, e: u64, f: u64)
    by (bit_vector)
    ensures
        ((a ^ b) ^ (c ^ d)) ^ (e ^ f) == ((a ^ c) ^ e) ^ ((b ^ d) ^ f),
{
}

proof fn lemma_bit(a: u64, b: u64, c: u64)
    by (bit_vector)
    requires
        a <= 1,
        b <= 1,
        c <= 1,
    ensures
        a & b & 1 <= 1,
        a & b & 1 == b & a & 1,
        (a & b & 1) & c & 1 == a & (b & c & 1) & 1,
        a & (b ^ c) & 1 == (a & b & 1) ^ (a & c & 1),
        a & 1 & 1 == a,
        a & a & 1 == a,
{
}

pub proof fn lemma_xor_bytes(a: u64, b: u64)
    by (bit_vector)
    requires
        a <= 0xff,
        b <= 0xff,
    ensures
        (a as u8) as u64 == a,
        (a ^ b) as u8 == (a as u8) ^ (b as u8),
        ((a as u8) ^ (b as u8)) as u64 == a ^ b,
{
}

/// The halves of a pattern in arithmetic terms.
pub proof fn lemma_halves_divide(x: u64, w: u64, h: u64)
    by (bit_vector)
    requires
        (h == 1 && w == 2) || (h == 2 && w == 4) || (h == 4 && w == 8) || (h == 8 && w == 16) || (h
            == 16 && w == 32) || (h == 32 && w == 64),
        x <= mask(w),
    ensures
        h == 1 ==> lo(x, h) == x % 2 && hi(x, h) == x / 2,
        h == 2 ==> lo(x, h) == x % 4 && hi(x, h) == x / 4,
        h == 4 ==> lo(x, h) == x % 0x10 && hi(x, h) == x / 0x10,
        h == 8 ==> lo(x, h) == x % 0x100 && hi(x, h) == x / 0x100,
        h == 16 ==> lo(x, h) == x % 0x1_0000 && hi(x, h) == x / 0x1_0000,
        h == 32 ==> lo(x, h) == x % 0x1_0000_0000 && hi(x, h) == x / 0x1_0000_0000,
{
}

/// The sum of narrow patterns.
pub proof fn lemma_xor_narrow(a: u64, b: u64)
    by (bit_vector)
    ensures
        (a ^ b) as u8 == (a as u8) ^ (b as u8),
        (a ^ b) as u16 == (a as u16) ^ (b as u16),
        (a ^ b) as u32 == (a as u32) ^ (b as u32),
{
}

// The ring laws, level by level.

pub proof fn lemma_tower_closed(k: Tower, w: u64, a: u64, b: u64)
    requires
        level(k, w),
        a <= mask(w),
        b <= mask(w),
    ensures
        tower_product(k, w, a, b) <= mask(w),
    decreases w,
{
    if w == 1 {
        lemma_bit(a, b, 0);
    } else if k is Rijndael && w == 8 {
    } else {
        let h = (w / 2) as u64;
        lemma_halves(a, b, w, h);
        lemma_halves(b, b, w, h);
        let hh = tower_product(k, h, hi(a, h), hi(b, h));
        let ll = tower_product(k, h, lo(a, h), lo(b, h));
        let lh = tower_product(k, h, lo(a, h), hi(b, h));
        let hl = tower_product(k, h, hi(a, h), lo(b, h));
        lemma_tower_closed(k, h, lo(a, h), lo(b, h));
        lemma_tower_closed(k, h, lo(a, h), hi(b, h));
        lemma_tower_closed(k, h, hi(a, h), lo(b, h));
        lemma_tower_closed(k, h, hi(a, h), hi(b, h));
        lemma_tower_closed(k, h, root_norm(k, h), hh);
        lemma_tower_closed(k, h, root_trace(k, h), hh);
        let l = ll ^ tower_product(k, h, root_norm(k, h), hh);
        let t = tower_product(k, h, root_trace(k, h), hh);
        lemma_xor_bound(ll, tower_product(k, h, root_norm(k, h), hh), h);
        lemma_xor_bound(lh, hl, h);
        lemma_xor_bound(lh ^ hl, t, h);
        lemma_join(l, lh ^ hl ^ t, w, h);
    }
}

/// The components of a product.
proof fn lemma_tower_parts(k: Tower, w: u64, h: u64, a: u64, b: u64)
    requires
        extends(k, w, h),
        a <= mask(w),
        b <= mask(w),
    ensures
        lo(a, h) <= mask(h),
        hi(a, h) <= mask(h),
        lo(b, h) <= mask(h),
        hi(b, h) <= mask(h),
        tower_product(k, w, a, b) <= mask(w),
        lo(tower_product(k, w, a, b), h) == tower_product(k, h, lo(a, h), lo(b, h))
            ^ tower_product(k, h, root_norm(k, h), tower_product(k, h, hi(a, h), hi(b, h))),
        hi(tower_product(k, w, a, b), h) == tower_product(k, h, lo(a, h), hi(b, h))
            ^ tower_product(k, h, hi(a, h), lo(b, h)) ^ tower_product(
            k,
            h,
            root_trace(k, h),
            tower_product(k, h, hi(a, h), hi(b, h)),
        ),
{
    lemma_tower_closed(k, w, a, b);
    lemma_halves(a, b, w, h);
    lemma_halves(b, b, w, h);
    let hh = tower_product(k, h, hi(a, h), hi(b, h));
    let ll = tower_product(k, h, lo(a, h), lo(b, h));
    let lh = tower_product(k, h, lo(a, h), hi(b, h));
    let hl = tower_product(k, h, hi(a, h), lo(b, h));
    lemma_tower_closed(k, h, lo(a, h), lo(b, h));
    lemma_tower_closed(k, h, lo(a, h), hi(b, h));
    lemma_tower_closed(k, h, hi(a, h), lo(b, h));
    lemma_tower_closed(k, h, hi(a, h), hi(b, h));
    lemma_tower_closed(k, h, root_norm(k, h), hh);
    lemma_tower_closed(k, h, root_trace(k, h), hh);
    let l = ll ^ tower_product(k, h, root_norm(k, h), hh);
    let t = tower_product(k, h, root_trace(k, h), hh);
    lemma_xor_bound(ll, tower_product(k, h, root_norm(k, h), hh), h);
    lemma_xor_bound(lh, hl, h);
    lemma_xor_bound(lh ^ hl, t, h);
    lemma_join(l, lh ^ hl ^ t, w, h);
    assert(h == (w / 2) as u64);
}

/// Two patterns with equal components are equal.
proof fn lemma_same_parts(k: Tower, x: u64, y: u64, w: u64, h: u64)
    requires
        extends(k, w, h),
        x <= mask(w),
        y <= mask(w),
        lo(x, h) == lo(y, h),
        hi(x, h) == hi(y, h),
    ensures
        x == y,
{
    lemma_halves(x, y, w, h);
    lemma_halves(y, y, w, h);
}

pub proof fn lemma_tower_comm(k: Tower, w: u64, a: u64, b: u64)
    requires
        level(k, w),
        a <= mask(w),
        b <= mask(w),
    ensures
        tower_product(k, w, a, b) == tower_product(k, w, b, a),
    decreases w,
{
    if w == 1 {
        lemma_bit(a, b, 0);
    } else if k is Rijndael && w == 8 {
        lemma_byte_laws(a as u8, b as u8, 0, 0x1b);
    } else {
        let h = (w / 2) as u64;
        lemma_tower_parts(k, w, h, a, b);
        lemma_tower_parts(k, w, h, b, a);
        lemma_tower_comm(k, h, lo(a, h), lo(b, h));
        lemma_tower_comm(k, h, lo(a, h), hi(b, h));
        lemma_tower_comm(k, h, hi(a, h), lo(b, h));
        lemma_tower_comm(k, h, hi(a, h), hi(b, h));
        lemma_xor(
            tower_product(k, h, lo(a, h), hi(b, h)),
            tower_product(k, h, hi(a, h), lo(b, h)),
            0,
        );
        lemma_same_parts(k, tower_product(k, w, a, b), tower_product(k, w, b, a), w, h);
    }
}

pub proof fn lemma_tower_distributes(k: Tower, w: u64, a: u64, b: u64, c: u64)
    requires
        level(k, w),
        a <= mask(w),
        b <= mask(w),
        c <= mask(w),
    ensures
        tower_product(k, w, a, b ^ c) == tower_product(k, w, a, b) ^ tower_product(k, w, a, c),
    decreases w,
{
    if w == 1 {
        lemma_bit(a, b, c);
    } else if k is Rijndael && w == 8 {
        lemma_xor_bytes(b, c);
        lemma_byte_laws(a as u8, b as u8, c as u8, 0x1b);
        let x = byte_product(a as u8, b as u8, 0x1b);
        let y = byte_product(a as u8, c as u8, 0x1b);
        lemma_xor_bytes(x as u64, y as u64);
    } else {
        let h = (w / 2) as u64;
        lemma_halves(b, c, w, h);
        lemma_halves(c, c, w, h);
        lemma_tower_parts(k, w, h, a, b);
        lemma_tower_parts(k, w, h, a, c);
        lemma_tower_parts(k, w, h, a, b ^ c);
        let (al, ah) = (lo(a, h), hi(a, h));
        let (bl, bh) = (lo(b, h), hi(b, h));
        let (cl, ch) = (lo(c, h), hi(c, h));
        let (n, t) = (root_norm(k, h), root_trace(k, h));
        let x = tower_product(k, h, ah, bh);
        let y = tower_product(k, h, ah, ch);
        lemma_tower_distributes(k, h, al, bl, cl);
        lemma_tower_distributes(k, h, al, bh, ch);
        lemma_tower_distributes(k, h, ah, bl, cl);
        lemma_tower_distributes(k, h, ah, bh, ch);
        lemma_tower_closed(k, h, ah, bh);
        lemma_tower_closed(k, h, ah, ch);
        lemma_tower_distributes(k, h, n, x, y);
        lemma_tower_distributes(k, h, t, x, y);
        lemma_xor4(
            tower_product(k, h, al, bl),
            tower_product(k, h, al, cl),
            tower_product(k, h, n, x),
            tower_product(k, h, n, y),
        );
        lemma_xor6(
            tower_product(k, h, al, bh),
            tower_product(k, h, al, ch),
            tower_product(k, h, ah, bl),
            tower_product(k, h, ah, cl),
            tower_product(k, h, t, x),
            tower_product(k, h, t, y),
        );
        let p = tower_product(k, w, a, b);
        let q = tower_product(k, w, a, c);
        lemma_halves(p, q, w, h);
        lemma_same_parts(k, tower_product(k, w, a, b ^ c), p ^ q, w, h);
    }
}

pub proof fn lemma_tower_one(k: Tower, w: u64, a: u64)
    requires
        level(k, w),
        a <= mask(w),
    ensures
        tower_product(k, w, a, 1) == a,
        tower_product(k, w, a, 0) == 0,
    decreases w,
{
    lemma_xor_bound(0, 0, w);
    lemma_tower_distributes(k, w, a, 0, 0);
    let z = tower_product(k, w, a, 0);
    lemma_xor(z, z, z);
    lemma_xor(0, 0, 0);
    if w == 1 {
        lemma_bit(a, 0, 0);
    } else if k is Rijndael && w == 8 {
        lemma_byte_laws(a as u8, 0, 0, 0x1b);
        lemma_xor_bytes(a, a);
        assert(1u64 as u8 == 1u8);
    } else {
        let h = (w / 2) as u64;
        let (al, ah) = (lo(a, h), hi(a, h));
        lemma_tower_parts(k, w, h, a, 1);
        lemma_halves(a, a, w, h);
        lemma_tower_one(k, h, al);
        lemma_tower_one(k, h, ah);
        lemma_tower_one(k, h, root_norm(k, h));
        lemma_tower_one(k, h, root_trace(k, h));
        lemma_xor(al, 0, 0);
        lemma_xor(ah, 0, 0);
        lemma_same_parts(k, tower_product(k, w, a, 1), a, w, h);
    }
}

/// `(x1 ^ x2) * z == x1 * z ^ x2 * z`.
pub proof fn lemma_tower_distributes_left(k: Tower, w: u64, x1: u64, x2: u64, z: u64)
    requires
        level(k, w),
        x1 <= mask(w),
        x2 <= mask(w),
        z <= mask(w),
    ensures
        tower_product(k, w, x1 ^ x2, z) == tower_product(k, w, x1, z) ^ tower_product(k, w, x2, z),
{
    lemma_xor_bound(x1, x2, w);
    lemma_tower_comm(k, w, x1 ^ x2, z);
    lemma_tower_comm(k, w, x1, z);
    lemma_tower_comm(k, w, x2, z);
    lemma_tower_distributes(k, w, z, x1, x2);
}

/// `x * (y * z) == y * (x * z)`.
proof fn lemma_tower_swap(k: Tower, w: u64, x: u64, y: u64, z: u64)
    requires
        level(k, w),
        x <= mask(w),
        y <= mask(w),
        z <= mask(w),
    ensures
        tower_product(k, w, x, tower_product(k, w, y, z)) == tower_product(
            k,
            w,
            y,
            tower_product(k, w, x, z),
        ),
    decreases w, 1int,
{
    lemma_tower_assoc(k, w, x, y, z);
    lemma_tower_assoc(k, w, y, x, z);
    lemma_tower_comm(k, w, x, y);
}

/// `(a + b) * f`, where `a`, `b` are sums that hold a scaled product:
/// `(u ^ v ^ s * (b * d)) * f == u * f ^ v * f ^ s * (b * (d * f))`.
proof fn lemma_tower_expand(k: Tower, w: u64, u: u64, v: u64, s: u64, b: u64, d: u64, f: u64)
    requires
        level(k, w),
        u <= mask(w),
        v <= mask(w),
        s <= mask(w),
        b <= mask(w),
        d <= mask(w),
        f <= mask(w),
    ensures
        ({
            let sbd = tower_product(k, w, s, tower_product(k, w, b, d));
            let bdf = tower_product(k, w, b, tower_product(k, w, d, f));
            &&& sbd <= mask(w)
            &&& u ^ v ^ sbd <= mask(w)
            &&& tower_product(k, w, u ^ v ^ sbd, f) == tower_product(k, w, u, f) ^ tower_product(
                k,
                w,
                v,
                f,
            ) ^ tower_product(k, w, s, bdf)
        }),
    decreases w, 2int,
{
    let bd = tower_product(k, w, b, d);
    let sbd = tower_product(k, w, s, bd);
    lemma_tower_closed(k, w, b, d);
    lemma_tower_closed(k, w, s, bd);
    lemma_xor_bound(u, v, w);
    lemma_xor_bound(u ^ v, sbd, w);
    lemma_tower_distributes_left(k, w, u ^ v, sbd, f);
    lemma_tower_distributes_left(k, w, u, v, f);
    lemma_tower_assoc(k, w, s, bd, f);
    lemma_tower_assoc(k, w, b, d, f);
}

/// `x * (u ^ v ^ s * y) == x * u ^ x * v ^ s * (x * y)`.
proof fn lemma_tower_expand_right(k: Tower, w: u64, x: u64, u: u64, v: u64, s: u64, y: u64)
    requires
        level(k, w),
        x <= mask(w),
        u <= mask(w),
        v <= mask(w),
        s <= mask(w),
        y <= mask(w),
    ensures
        ({
            let sy = tower_product(k, w, s, y);
            &&& sy <= mask(w)
            &&& u ^ v ^ sy <= mask(w)
            &&& tower_product(k, w, x, u ^ v ^ sy) == tower_product(k, w, x, u) ^ tower_product(
                k,
                w,
                x,
                v,
            ) ^ tower_product(k, w, s, tower_product(k, w, x, y))
        }),
    decreases w, 2int,
{
    let sy = tower_product(k, w, s, y);
    lemma_tower_closed(k, w, s, y);
    lemma_xor_bound(u, v, w);
    lemma_xor_bound(u ^ v, sy, w);
    lemma_tower_distributes(k, w, x, u ^ v, sy);
    lemma_tower_distributes(k, w, x, u, v);
    lemma_tower_swap(k, w, x, s, y);
}

proof fn lemma_xor_assoc_lo(ace: u64, bde: u64, adf: u64, bcf: u64, bdf: u64)
    by (bit_vector)
    ensures
        (0 ^ ace ^ bde) ^ (adf ^ bcf ^ bdf) == (0 ^ ace ^ adf) ^ (bcf ^ bde ^ bdf),
{
}

proof fn lemma_xor_assoc_hi(
    acf: u64,
    nbdf: u64,
    ade: u64,
    bce: u64,
    tbde: u64,
    tadf: u64,
    tbcf: u64,
    ttbdf: u64,
)
    by (bit_vector)
    ensures
        (0 ^ acf ^ nbdf) ^ (ade ^ bce ^ tbde) ^ (tadf ^ tbcf ^ ttbdf) == (acf ^ ade ^ tadf) ^ (0
            ^ bce ^ nbdf) ^ (tbcf ^ tbde ^ ttbdf),
{
}

pub proof fn lemma_tower_assoc(k: Tower, w: u64, x: u64, y: u64, z: u64)
    requires
        level(k, w),
        x <= mask(w),
        y <= mask(w),
        z <= mask(w),
    ensures
        tower_product(k, w, tower_product(k, w, x, y), z) == tower_product(
            k,
            w,
            x,
            tower_product(k, w, y, z),
        ),
    decreases w, 0int,
{
    if w == 1 {
        lemma_bit(x, y, z);
    } else if k is Rijndael && w == 8 {
        lemma_byte_laws(x as u8, y as u8, z as u8, 0x1b);
        let p = byte_product(x as u8, y as u8, 0x1b);
        let q = byte_product(y as u8, z as u8, 0x1b);
        lemma_xor_bytes(p as u64, q as u64);
        assert((p as u64) as u8 == p);
        assert((q as u64) as u8 == q);
    } else {
        let h = (w / 2) as u64;
        let xy = tower_product(k, w, x, y);
        let yz = tower_product(k, w, y, z);
        lemma_tower_parts(k, w, h, x, y);
        lemma_tower_parts(k, w, h, y, z);
        lemma_tower_parts(k, w, h, xy, z);
        lemma_tower_parts(k, w, h, x, yz);
        let (a, b) = (lo(x, h), hi(x, h));
        let (c, d) = (lo(y, h), hi(y, h));
        let (e, f) = (lo(z, h), hi(z, h));
        let (n, t) = (root_norm(k, h), root_trace(k, h));
        let ac = tower_product(k, h, a, c);
        let ad = tower_product(k, h, a, d);
        let bc = tower_product(k, h, b, c);
        let bd = tower_product(k, h, b, d);
        let ce = tower_product(k, h, c, e);
        let cf = tower_product(k, h, c, f);
        let de = tower_product(k, h, d, e);
        let df = tower_product(k, h, d, f);
        lemma_tower_closed(k, h, a, c);
        lemma_tower_closed(k, h, a, d);
        lemma_tower_closed(k, h, b, c);
        lemma_tower_closed(k, h, b, d);
        lemma_tower_closed(k, h, c, e);
        lemma_tower_closed(k, h, c, f);
        lemma_tower_closed(k, h, d, e);
        lemma_tower_closed(k, h, d, f);
        let ace = tower_product(k, h, a, ce);
        let acf = tower_product(k, h, a, cf);
        let ade = tower_product(k, h, a, de);
        let adf = tower_product(k, h, a, df);
        let bce = tower_product(k, h, b, ce);
        let bcf = tower_product(k, h, b, cf);
        let bde = tower_product(k, h, b, de);
        let bdf = tower_product(k, h, b, df);
        lemma_tower_assoc(k, h, a, c, e);
        lemma_tower_assoc(k, h, a, c, f);
        lemma_tower_assoc(k, h, a, d, e);
        lemma_tower_assoc(k, h, a, d, f);
        lemma_tower_assoc(k, h, b, c, e);
        lemma_tower_assoc(k, h, b, c, f);
        lemma_tower_closed(k, h, a, df);
        lemma_tower_closed(k, h, b, cf);
        lemma_tower_closed(k, h, b, df);
        lemma_tower_closed(k, h, b, de);
        lemma_tower_closed(k, h, t, bdf);
        let tbdf = tower_product(k, h, t, bdf);
        let nbd = tower_product(k, h, n, bd);
        let ndf = tower_product(k, h, n, df);
        lemma_tower_closed(k, h, n, bd);
        lemma_tower_closed(k, h, n, df);
        lemma_xor(ac, 0, 0);
        lemma_xor(ce, 0, 0);
        lemma_xor(0, ac, nbd);
        lemma_xor(0, ce, ndf);
        lemma_tower_comm(k, h, 0, e);
        lemma_tower_comm(k, h, 0, f);
        lemma_tower_one(k, h, e);
        lemma_tower_one(k, h, f);
        lemma_tower_one(k, h, a);
        lemma_tower_one(k, h, b);
        // L * e, L * f, H * e, H * f
        lemma_tower_expand(k, h, 0, ac, n, b, d, e);
        lemma_tower_expand(k, h, 0, ac, n, b, d, f);
        lemma_tower_expand(k, h, ad, bc, t, b, d, e);
        lemma_tower_expand(k, h, ad, bc, t, b, d, f);
        // a * L', b * L', a * H', b * H'
        lemma_tower_expand_right(k, h, a, 0, ce, n, df);
        lemma_tower_expand_right(k, h, b, 0, ce, n, df);
        lemma_tower_expand_right(k, h, a, cf, de, t, df);
        lemma_tower_expand_right(k, h, b, cf, de, t, df);
        // n * (H * f), t * (H * f), n * (b * H'), t * (b * H')
        lemma_xor_bound(adf, bcf, h);
        lemma_xor_bound(bcf, bde, h);
        lemma_tower_distributes(k, h, n, adf ^ bcf, tbdf);
        lemma_tower_distributes(k, h, n, adf, bcf);
        lemma_tower_distributes(k, h, t, adf ^ bcf, tbdf);
        lemma_tower_distributes(k, h, t, adf, bcf);
        lemma_tower_distributes(k, h, n, bcf ^ bde, tbdf);
        lemma_tower_distributes(k, h, n, bcf, bde);
        lemma_tower_distributes(k, h, t, bcf ^ bde, tbdf);
        lemma_tower_distributes(k, h, t, bcf, bde);
        lemma_xor_assoc_lo(
            ace,
            tower_product(k, h, n, bde),
            tower_product(k, h, n, adf),
            tower_product(k, h, n, bcf),
            tower_product(k, h, n, tbdf),
        );
        lemma_xor_assoc_hi(
            acf,
            tower_product(k, h, n, bdf),
            ade,
            bce,
            tower_product(k, h, t, bde),
            tower_product(k, h, t, adf),
            tower_product(k, h, t, bcf),
            tower_product(k, h, t, tbdf),
        );
        let p = tower_product(k, w, xy, z);
        let q = tower_product(k, w, x, yz);
        assert(lo(xy, h) == 0 ^ ac ^ nbd);
        assert(lo(yz, h) == 0 ^ ce ^ ndf);
        assert(lo(p, h) == lo(q, h));
        assert(hi(p, h) == hi(q, h));
        lemma_same_parts(k, p, q, w, h);
    }
}

// Every level is a field.

/// The absolute trace of an element, as a bit.
spec fn trace(k: Tower, w: u64, x: u64) -> u64
    decreases w,
{
    if w <= 1 {
        x & 1
    } else if k is Rijndael && w <= 8 {
        ((x >> 5) ^ (x >> 7)) & 1
    } else {
        let h = (w / 2) as u64;
        trace(k, h, tower_product(k, h, root_trace(k, h), hi(x, h)))
    }
}

proof fn lemma_trace_bits(x: u64, y: u64)
    by (bit_vector)
    ensures
        (x ^ y) & 1 == (x & 1) ^ (y & 1),
        (((x ^ y) >> 5) ^ ((x ^ y) >> 7)) & 1 == (((x >> 5) ^ (x >> 7)) & 1) ^ (((y >> 5) ^ (y
            >> 7)) & 1),
{
}

proof fn lemma_trace_byte_square(x: u8, y: u64, z: u64)
    by (bit_vector)
    requires
        y == byte_product(x, x, 0x1b) as u64,
        z == x as u64,
    ensures
        ((y >> 5) ^ (y >> 7)) & 1 == ((z >> 5) ^ (z >> 7)) & 1,
{
}

proof fn lemma_trace_additive(k: Tower, w: u64, x: u64, y: u64)
    requires
        level(k, w),
        x <= mask(w),
        y <= mask(w),
    ensures
        trace(k, w, x ^ y) == trace(k, w, x) ^ trace(k, w, y),
    decreases w,
{
    if w == 1 || (k is Rijndael && w == 8) {
        lemma_trace_bits(x, y);
    } else {
        let h = (w / 2) as u64;
        lemma_halves(x, y, w, h);
        lemma_halves(y, y, w, h);
        let t = root_trace(k, h);
        lemma_tower_distributes(k, h, t, hi(x, h), hi(y, h));
        lemma_tower_closed(k, h, t, hi(x, h));
        lemma_tower_closed(k, h, t, hi(y, h));
        lemma_trace_additive(
            k,
            h,
            tower_product(k, h, t, hi(x, h)),
            tower_product(k, h, t, hi(y, h)),
        );
    }
}

/// `(s * x)^2 == s * (s * x^2)`.
proof fn lemma_tower_square_scaled(k: Tower, w: u64, s: u64, x: u64)
    requires
        level(k, w),
        s <= mask(w),
        x <= mask(w),
    ensures
        ({
            let sx = tower_product(k, w, s, x);
            tower_product(k, w, sx, sx) == tower_product(
                k,
                w,
                s,
                tower_product(k, w, s, tower_product(k, w, x, x)),
            )
        }),
{
    let sx = tower_product(k, w, s, x);
    lemma_tower_closed(k, w, s, x);
    lemma_tower_assoc(k, w, s, x, sx);
    lemma_tower_swap(k, w, x, s, x);
}

/// The trace of a square is the trace of its root.
proof fn lemma_trace_square(k: Tower, w: u64, x: u64)
    requires
        level(k, w),
        x <= mask(w),
    ensures
        trace(k, w, tower_product(k, w, x, x)) == trace(k, w, x),
    decreases w,
{
    if w == 1 {
        lemma_bit(x, 0, 0);
    } else if k is Rijndael && w == 8 {
        lemma_xor_bytes(x, x);
        lemma_trace_byte_square(x as u8, tower_product(k, w, x, x), x);
    } else {
        let h = (w / 2) as u64;
        let t = root_trace(k, h);
        lemma_tower_parts(k, w, h, x, x);
        let (a, b) = (lo(x, h), hi(x, h));
        let ab = tower_product(k, h, a, b);
        let bb = tower_product(k, h, b, b);
        let tb = tower_product(k, h, t, b);
        let tbb = tower_product(k, h, t, bb);
        lemma_tower_comm(k, h, a, b);
        lemma_xor(ab, ab, tbb);
        lemma_xor(tbb, 0, 0);
        assert(hi(tower_product(k, w, x, x), h) == tbb);
        lemma_tower_square_scaled(k, h, t, b);
        lemma_tower_closed(k, h, t, b);
        lemma_trace_square(k, h, tb);
    }
}

/// The inverse of the root trace of the level of width `h`.
spec fn root_trace_inverse(k: Tower, h: u64) -> u64 {
    match k {
        Tower::Rijndael => 1,
        Tower::FanPaar => if h == 1 {
            1
        } else {
            alpha(h) ^ alpha((h / 2) as u64)
        },
    }
}

proof fn lemma_alpha_bits(h: u64)
    by (bit_vector)
    requires
        h == 2 || h == 4 || h == 8 || h == 16 || h == 32,
    ensures
        alpha(h) <= mask(h),
        alpha(h / 2) <= mask(h / 2),
        alpha(h) ^ alpha(h / 2) <= mask(h),
        lo(alpha(h), h / 2) == 0,
        hi(alpha(h), h / 2) == 1,
        lo(alpha(h) ^ alpha(h / 2), h / 2) == alpha(h / 2),
        hi(alpha(h) ^ alpha(h / 2), h / 2) == 1,
{
}

proof fn lemma_trace_alpha(h: u64)
    requires
        level(Tower::FanPaar, h),
        h <= 32,
    ensures
        trace(Tower::FanPaar, h, alpha(h)) == 1,
    decreases h,
{
    let k = Tower::FanPaar;
    if h == 1 {
        assert(1u64 & 1 == 1) by (bit_vector);
    } else {
        let q = (h / 2) as u64;
        lemma_alpha_bits(h);
        lemma_tower_one(k, q, alpha(q));
        lemma_trace_alpha(q);
    }
}

/// The constants of every level make `s^2 + s = norm / trace^2` insoluble.
proof fn lemma_root_constants(k: Tower, h: u64)
    requires
        level(k, h),
        h <= 32,
    ensures
        ({
            let s = root_trace_inverse(k, h);
            &&& s <= mask(h)
            &&& root_trace(k, h) <= mask(h)
            &&& root_norm(k, h) <= mask(h)
            &&& tower_product(k, h, root_trace(k, h), s) == 1
            &&& trace(
                k,
                h,
                tower_product(k, h, root_norm(k, h), tower_product(k, h, s, s)),
            ) == 1
        }),
{
    let s = root_trace_inverse(k, h);
    if k is Rijndael {
        lemma_tower_one(k, h, 1);
        lemma_tower_one(k, h, root_norm(k, h));
        assert(((0x20u64 >> 5) ^ (0x20u64 >> 7)) & 1 == 1 && (0x2000u64 >> 8) & 0xff == 0x20 && (
        0x2000_0000u64 >> 16) & 0xffff == 0x2000) by (bit_vector);
        lemma_tower_comm(k, 8, 1, 0x20);
        lemma_tower_one(k, 8, 0x20);
        assert(trace(k, 8, 0x20) == 1);
        assert(hi(0x2000, 8) == 0x20);
        assert(trace(k, 16, 0x2000) == 1);
        lemma_tower_comm(k, 16, 1, 0x2000);
        lemma_tower_one(k, 16, 0x2000);
        assert(hi(0x2000_0000, 16) == 0x2000);
        assert(trace(k, 32, 0x2000_0000) == 1);
    } else if h == 1 {
        assert(1u64 & 1 & 1 == 1 && 1u64 & 1 == 1) by (bit_vector);
    } else {
        let q = (h / 2) as u64;
        lemma_alpha_bits(h);
        let aq = alpha(q);
        // (0 + 1 r)(aq + 1 r) == 1
        lemma_tower_parts(k, h, q, alpha(h), s);
        lemma_tower_one(k, q, 1);
        lemma_tower_one(k, q, 0);
        lemma_tower_one(k, q, aq);
        lemma_tower_comm(k, q, 0, aq);
        lemma_tower_comm(k, q, 1, aq);
        lemma_tower_comm(k, q, 0, 1);
        lemma_xor(1, 0, 0);
        lemma_xor(aq, aq, 0);
        lemma_xor(0, aq, aq);
        lemma_halves(1, 1, h, q);
        lemma_same_parts(k, tower_product(k, h, alpha(h), s), 1, h, q);
        // trace(1 * s^2) == trace(s) == trace(aq) == 1
        let ss = tower_product(k, h, s, s);
        lemma_tower_closed(k, h, s, s);
        lemma_tower_one(k, h, ss);
        lemma_tower_comm(k, h, 1, ss);
        lemma_trace_square(k, h, s);
        lemma_trace_alpha(q);
    }
}

/// The norm of `a + b r` vanishes only at zero, given inverses one level down.
proof fn lemma_norm_nonzero(k: Tower, h: u64, a: u64, b: u64)
    requires
        level(k, h),
        h <= 32,
        a <= mask(h),
        b <= mask(h),
        a != 0 || b != 0,
    ensures
        ({
            let t = root_trace(k, h);
            let n = root_norm(k, h);
            tower_product(k, h, a, a ^ tower_product(k, h, t, b)) ^ tower_product(
                k,
                h,
                n,
                tower_product(k, h, b, b),
            ) != 0
        }),
    decreases h, 1int,
{
    let t = root_trace(k, h);
    let n = root_norm(k, h);
    let s = root_trace_inverse(k, h);
    lemma_root_constants(k, h);
    let tb = tower_product(k, h, t, b);
    let bb = tower_product(k, h, b, b);
    let aa = tower_product(k, h, a, a);
    let x = tower_product(k, h, a, a ^ tb);
    let y = tower_product(k, h, n, bb);
    lemma_tower_closed(k, h, t, b);
    lemma_tower_closed(k, h, b, b);
    lemma_tower_closed(k, h, a, a);
    lemma_tower_closed(k, h, n, bb);
    lemma_tower_distributes(k, h, a, a, tb);
    lemma_tower_one(k, h, a);
    lemma_tower_one(k, h, n);
    lemma_tower_one(k, h, t);
    if b == 0 {
        lemma_tower_one(k, h, b);
        lemma_xor(aa, 0, 0);
        lemma_xor(aa, 0, 0);
        if aa == 0 {
            let i = lemma_tower_inverse(k, h, a);
            // a == (a * a) * i == 0
            lemma_tower_assoc(k, h, a, a, i);
            lemma_tower_comm(k, h, 0, i);
            lemma_tower_one(k, h, i);
        }
    } else if x ^ y == 0 {
        // x == a^2 + t a b == n b^2. With c = s / b and v = a c: v^2 + v + n s^2 == 0.
        let i = lemma_tower_inverse(k, h, b);
        let c = tower_product(k, h, s, i);
        lemma_tower_closed(k, h, s, i);
        let v = tower_product(k, h, a, c);
        let cc = tower_product(k, h, c, c);
        let vv = tower_product(k, h, v, v);
        let ss = tower_product(k, h, s, s);
        lemma_tower_closed(k, h, a, c);
        lemma_tower_closed(k, h, c, c);
        lemma_tower_closed(k, h, v, v);
        lemma_tower_closed(k, h, s, s);
        // b * c == s
        lemma_tower_swap(k, h, b, s, i);
        lemma_tower_one(k, h, s);
        assert(tower_product(k, h, b, c) == s);
        // c^2 * a^2 == v^2
        lemma_tower_product_squares(k, h, a, c);
        // c^2 * (a * (t b)) == v: (a c) * ((t b) c) and (t b) c == t s == 1
        let atb = tower_product(k, h, a, tb);
        lemma_tower_closed(k, h, a, tb);
        lemma_tower_product_pairs(k, h, a, tb, c, c);
        lemma_tower_assoc(k, h, t, b, c);
        lemma_tower_one(k, h, v);
        assert(tower_product(k, h, atb, cc) == v);
        // c^2 * (n b^2) == n s^2
        lemma_tower_assoc(k, h, n, bb, cc);
        lemma_tower_product_squares(k, h, b, c);
        let nss = tower_product(k, h, n, ss);
        lemma_tower_closed(k, h, n, ss);
        assert(tower_product(k, h, y, cc) == nss);
        // The sum of the three, scaled by c^2, is zero.
        lemma_xor_bound(aa, atb, h);
        lemma_tower_distributes_left(k, h, aa ^ atb, y, cc);
        lemma_tower_distributes_left(k, h, aa, atb, cc);
        lemma_tower_comm(k, h, 0, cc);
        lemma_tower_one(k, h, cc);
        assert((vv ^ v) ^ nss == 0);
        lemma_xor_bound(vv, v, h);
        lemma_trace_additive(k, h, vv ^ v, nss);
        lemma_trace_additive(k, h, vv, v);
        lemma_trace_square(k, h, v);
        let tv = trace(k, h, v);
        lemma_xor(tv, tv, 0);
        lemma_xor(1, 1, 1);
        lemma_trace_additive(k, h, 0, 0);
        let tz = trace(k, h, 0);
        lemma_xor(tz, tz, tz);
        lemma_xor(0, 0, 0);
        assert(false);
    }
}

/// `(a * b) * (c * d) == (a * c) * (b * d)`.
proof fn lemma_tower_product_pairs(k: Tower, w: u64, a: u64, b: u64, c: u64, d: u64)
    requires
        level(k, w),
        a <= mask(w),
        b <= mask(w),
        c <= mask(w),
        d <= mask(w),
    ensures
        tower_product(k, w, tower_product(k, w, a, b), tower_product(k, w, c, d)) == tower_product(
            k,
            w,
            tower_product(k, w, a, c),
            tower_product(k, w, b, d),
        ),
{
    let cd = tower_product(k, w, c, d);
    let bd = tower_product(k, w, b, d);
    lemma_tower_closed(k, w, c, d);
    lemma_tower_closed(k, w, b, d);
    lemma_tower_assoc(k, w, a, b, cd);
    lemma_tower_assoc(k, w, a, c, bd);
    lemma_tower_swap(k, w, b, c, d);
}

/// `a^2 * c^2 == (a * c)^2`.
proof fn lemma_tower_product_squares(k: Tower, w: u64, a: u64, c: u64)
    requires
        level(k, w),
        a <= mask(w),
        c <= mask(w),
    ensures
        ({
            let ac = tower_product(k, w, a, c);
            tower_product(k, w, tower_product(k, w, a, a), tower_product(k, w, c, c))
                == tower_product(k, w, ac, ac)
        }),
{
    lemma_tower_product_pairs(k, w, a, a, c, c);
}

/// Every nonzero element of a level has an inverse.
pub proof fn lemma_tower_inverse(k: Tower, w: u64, x: u64) -> (y: u64)
    requires
        level(k, w),
        0 < x <= mask(w),
    ensures
        y <= mask(w),
        tower_product(k, w, x, y) == 1,
    decreases w, 0int,
{
    if w == 1 {
        assert(1u64 & 1 & 1 == 1) by (bit_vector);
        1
    } else if k is Rijndael && w == 8 {
        lemma_xor_bytes(x, x);
        let y = lemma_byte_inverse(x as u8, 0x1b);
        y as u64
    } else {
        let h = (w / 2) as u64;
        let (a, b) = (lo(x, h), hi(x, h));
        let (t, n) = (root_trace(k, h), root_norm(k, h));
        lemma_halves(x, x, w, h);
        lemma_root_constants(k, h);
        if a == 0 && b == 0 {
            lemma_join(0, 0, w, h);
        }
        lemma_norm_nonzero(k, h, a, b);
        let tb = tower_product(k, h, t, b);
        let bb = tower_product(k, h, b, b);
        lemma_tower_closed(k, h, t, b);
        lemma_tower_closed(k, h, b, b);
        lemma_tower_closed(k, h, n, bb);
        lemma_xor_bound(a, tb, h);
        lemma_tower_closed(k, h, a, a ^ tb);
        let norm = tower_product(k, h, a, a ^ tb) ^ tower_product(k, h, n, bb);
        lemma_xor_bound(tower_product(k, h, a, a ^ tb), tower_product(k, h, n, bb), h);
        let i = lemma_tower_inverse(k, h, norm);
        let conj = join(a ^ tb, b, h);
        let scale = join(i, 0, h);
        lemma_join(a ^ tb, b, w, h);
        lemma_join(i, 0, w, h);
        lemma_join(norm, 0, w, h);
        // x * conj == norm
        lemma_tower_parts(k, w, h, x, conj);
        let ab = tower_product(k, h, a, b);
        let ba = tower_product(k, h, b, a);
        let btb = tower_product(k, h, b, tb);
        lemma_tower_distributes(k, h, b, a, tb);
        lemma_tower_comm(k, h, a, b);
        lemma_tower_swap(k, h, b, t, b);
        lemma_xor(ab, ab, btb);
        lemma_xor(btb, btb, btb);
        lemma_xor(btb, 0, 0);
        let xc = tower_product(k, w, x, conj);
        assert(hi(xc, h) == 0);
        lemma_same_parts(k, xc, join(norm, 0, h), w, h);
        // norm * i == 1
        lemma_tower_parts(k, w, h, xc, scale);
        lemma_tower_one(k, h, norm);
        lemma_tower_one(k, h, 0);
        lemma_tower_one(k, h, n);
        lemma_tower_one(k, h, t);
        lemma_tower_one(k, h, i);
        lemma_tower_comm(k, h, 0, i);
        lemma_xor(1, 0, 0);
        lemma_xor(0, 0, 0);
        lemma_xor_bound(0, 0, w);
        lemma_halves(1, 1, w, h);
        lemma_same_parts(k, tower_product(k, w, xc, scale), 1, w, h);
        lemma_tower_assoc(k, w, x, conj, scale);
        let y = tower_product(k, w, conj, scale);
        lemma_tower_closed(k, w, conj, scale);
        y
    }
}

/// What the root of a level does: the level holds the one below, the root takes an
/// element of the level below to the high half, and `r * r == t * r + n`.
pub proof fn lemma_tower_level(k: Tower, w: u64, h: u64, a: u64, b: u64)
    requires
        extends(k, w, h),
        a <= mask(h),
        b <= mask(h),
    ensures
        join(0, 1, h) <= mask(w),
        a <= mask(w),
        tower_product(k, w, a, b) == tower_product(k, h, a, b),
        tower_product(k, w, join(0, 1, h), a) == join(0, a, h),
        tower_product(k, w, join(0, 1, h), join(0, 1, h)) == join(
            root_norm(k, h),
            root_trace(k, h),
            h,
        ),
{
    let r = join(0, 1, h);
    let (n, t) = (root_norm(k, h), root_trace(k, h));
    lemma_xor_bound(0, 0, h);
    lemma_join(0, 1, w, h);
    lemma_join(0, a, w, h);
    lemma_join(a, 0, w, h);
    lemma_join(b, 0, w, h);
    lemma_join(n, t, w, h);
    lemma_low(a, w, h);
    lemma_low(b, w, h);
    lemma_tower_parts(k, w, h, a, b);
    lemma_tower_parts(k, w, h, r, a);
    lemma_tower_parts(k, w, h, r, r);
    lemma_tower_closed(k, h, a, b);
    let p = tower_product(k, h, a, b);
    lemma_low(p, w, h);
    lemma_tower_one(k, h, a);
    lemma_tower_one(k, h, b);
    lemma_tower_one(k, h, 0);
    lemma_tower_one(k, h, 1);
    lemma_tower_one(k, h, n);
    lemma_tower_one(k, h, t);
    lemma_tower_comm(k, h, 0, a);
    lemma_tower_comm(k, h, 0, b);
    lemma_tower_comm(k, h, 1, a);
    lemma_tower_comm(k, h, 0, 1);
    lemma_xor(p, 0, 0);
    lemma_xor(a, 0, 0);
    lemma_xor(n, 0, 0);
    lemma_xor(t, 0, 0);
    lemma_xor(0, a, 0);
    lemma_xor(0, 0, t);
    lemma_same_parts(k, tower_product(k, w, a, b), p, w, h);
    lemma_same_parts(k, tower_product(k, w, r, a), join(0, a, h), w, h);
    lemma_same_parts(k, tower_product(k, w, r, r), join(n, t, h), w, h);
}

/// A pattern of the level below has no high half.
proof fn lemma_low(a: u64, w: u64, h: u64)
    requires
        (h == 1 && w == 2) || (h == 2 && w == 4) || (h == 4 && w == 8) || (h == 8 && w == 16) || (h
            == 16 && w == 32) || (h == 32 && w == 64),
        a <= mask(h),
    ensures
        a <= mask(w),
        lo(a, h) == a,
        hi(a, h) == 0,
{
    lemma_halves_divide(a, w, h);
}

/// The root of a level on any element: `r * (r * x) == t * (r * x) + n * x`.
pub proof fn lemma_tower_root(k: Tower, w: u64, h: u64, x: u64)
    requires
        extends(k, w, h),
        x <= mask(w),
    ensures
        ({
            let r = join(0, 1, h);
            let y = tower_product(k, w, r, x);
            tower_product(k, w, r, y) == tower_product(k, w, root_trace(k, h), y) ^ tower_product(
                k,
                w,
                root_norm(k, h),
                x,
            )
        }),
{
    let r = join(0, 1, h);
    let (n, t) = (root_norm(k, h), root_trace(k, h));
    lemma_tower_level(k, w, h, t, n);
    lemma_tower_level(k, w, h, n, t);
    let rt = join(0, t, h);
    lemma_join(n, 0, w, h);
    lemma_join(0, t, w, h);
    lemma_join(n, t, w, h);
    lemma_low(n, w, h);
    lemma_low(t, w, h);
    lemma_halves(n, rt, w, h);
    lemma_xor(n, 0, 0);
    lemma_xor(t, 0, 0);
    lemma_same_parts(k, n ^ rt, join(n, t, h), w, h);
    lemma_tower_assoc(k, w, r, r, x);
    lemma_tower_distributes_left(k, w, n, rt, x);
    lemma_tower_comm(k, w, r, t);
    lemma_tower_assoc(k, w, t, r, x);
    lemma_xor(
        tower_product(k, w, n, x),
        tower_product(k, w, t, tower_product(k, w, r, x)),
        0,
    );
}

} // verus!
