//! Powers of the generators: half the group order gives minus one.

use vstd::prelude::*;

use crate::ntt::prime::{Goldilocks, Mersenne31, Quad, QuadMersenne31};
use crate::ntt::ring::{lemma_pow_sum, rpow, Ring};

verus! {

/// The generator of the group of Goldilocks.
pub const GOLDILOCKS_GENERATOR: u64 = 7;

/// The generator of the group of Mersenne31.
pub const MERSENNE31_GENERATOR: u32 = 7;

/// The generator `1 + 12 i` of the group of QuadMersenne31.
pub open spec fn quad_generator() -> Quad {
    Quad { re: 1, im: 12 }
}

/// Whether `7^n` is `v` modulo `2^64 - 2^32 + 1`.
#[verifier::opaque]
pub open spec fn goldilocks_power(n: nat, v: u64) -> bool {
    rpow::<Goldilocks>(GOLDILOCKS_GENERATOR, n) == v
}

/// Whether `7^n` is `v` modulo `2^31 - 1`.
#[verifier::opaque]
pub open spec fn mersenne31_power(n: nat, v: u32) -> bool {
    rpow::<Mersenne31>(MERSENNE31_GENERATOR, n) == v
}

/// Whether `(1 + 12 i)^n` is `re + im i`.
#[verifier::opaque]
pub open spec fn quad_power(n: nat, re: u32, im: u32) -> bool {
    rpow::<QuadMersenne31>(quad_generator(), n) == (Quad { re, im })
}

proof fn lemma_first_power<R: Ring>(x: R::Elem)
    requires
        R::valid(x),
    ensures
        rpow::<R>(x, 1) == x,
{
    reveal_with_fuel(rpow, 2);
    R::lemma_units();
    R::lemma_ring(R::rone(), x, x);
    R::lemma_ring(x, x, x);
}

proof fn lemma_goldilocks_join(n: nat, a: u64, m: nat, b: u64, c: u64)
    requires
        goldilocks_power(n, a),
        goldilocks_power(m, b),
        (a * b) % 0xffff_ffff_0000_0001 == c,
    ensures
        goldilocks_power(n + m, c),
{
    reveal(goldilocks_power);
    lemma_pow_sum::<Goldilocks>(GOLDILOCKS_GENERATOR, n, m);
}

proof fn lemma_mersenne31_join(n: nat, a: u32, m: nat, b: u32, c: u32)
    requires
        mersenne31_power(n, a),
        mersenne31_power(m, b),
        (a * b) % 0x7fff_ffff == c,
    ensures
        mersenne31_power(n + m, c),
{
    reveal(mersenne31_power);
    lemma_pow_sum::<Mersenne31>(MERSENNE31_GENERATOR, n, m);
}

proof fn lemma_quad_join(n: nat, a: u32, b: u32, m: nat, c: u32, d: u32, re: u32, im: u32)
    requires
        quad_power(n, a, b),
        quad_power(m, c, d),
        (a * c - b * d) % 0x7fff_ffff == re,
        (a * d + b * c) % 0x7fff_ffff == im,
    ensures
        quad_power(n + m, re, im),
{
    reveal(quad_power);
    lemma_pow_sum::<QuadMersenne31>(quad_generator(), n, m);
}

proof fn lemma_goldilocks_run_2()
    requires
        goldilocks_power(1, 7),
    ensures
        goldilocks_power(3, 0x157),
{
    lemma_goldilocks_join(1, 7, 1, 7, 0x31);
    lemma_goldilocks_join(2, 0x31, 1, 7, 0x157);
}

proof fn lemma_goldilocks_run_4()
    requires
        goldilocks_power(3, 0x157),
    ensures
        goldilocks_power(0xf, 0x45160b7a437),
{
    lemma_goldilocks_join(3, 0x157, 3, 0x157, 0x1cb91);
    lemma_goldilocks_join(6, 0x1cb91, 6, 0x1cb91, 0x339014821);
    lemma_goldilocks_join(0xc, 0x339014821, 3, 0x157, 0x45160b7a437);
}

proof fn lemma_goldilocks_run_8()
    requires
        goldilocks_power(0xf, 0x45160b7a437),
    ensures
        goldilocks_power(0xff, 0x70c2c3d51532b015),
{
    lemma_goldilocks_join(0xf, 0x45160b7a437, 0xf, 0x45160b7a437, 0x15f486976fe5deed);
    lemma_goldilocks_join(0x1e, 0x15f486976fe5deed, 0x1e, 0x15f486976fe5deed, 0x5d0a24cd6a73f846);
    lemma_goldilocks_join(0x3c, 0x5d0a24cd6a73f846, 0x3c, 0x5d0a24cd6a73f846, 0xadfa8c74b12c55ca);
    lemma_goldilocks_join(0x78, 0xadfa8c74b12c55ca, 0x78, 0xadfa8c74b12c55ca, 0x7398d2e21f835ed4);
    lemma_goldilocks_join(0xf0, 0x7398d2e21f835ed4, 0xf, 0x45160b7a437, 0x70c2c3d51532b015);
}

proof fn lemma_goldilocks_run_16()
    requires
        goldilocks_power(0xff, 0x70c2c3d51532b015),
    ensures
        goldilocks_power(0xffff, 0xa86793b70b1704a5),
{
    lemma_goldilocks_join(0xff, 0x70c2c3d51532b015, 0xff, 0x70c2c3d51532b015, 0x977d266aaa5717a5);
    lemma_goldilocks_join(0x1fe, 0x977d266aaa5717a5, 0x1fe, 0x977d266aaa5717a5, 0x787f47a07fcf41e4);
    lemma_goldilocks_join(0x3fc, 0x787f47a07fcf41e4, 0x3fc, 0x787f47a07fcf41e4, 0xb6c1a91901da77b4);
    lemma_goldilocks_join(0x7f8, 0xb6c1a91901da77b4, 0x7f8, 0xb6c1a91901da77b4, 0x322bed0706077320);
    lemma_goldilocks_join(0xff0, 0x322bed0706077320, 0xff0, 0x322bed0706077320, 0x86a2d630bb83a30c);
    lemma_goldilocks_join(0x1fe0, 0x86a2d630bb83a30c, 0x1fe0, 0x86a2d630bb83a30c, 0xa7af6c74ba20c4b0);
    lemma_goldilocks_join(0x3fc0, 0xa7af6c74ba20c4b0, 0x3fc0, 0xa7af6c74ba20c4b0, 0x23fa4d3054e7b59b);
    lemma_goldilocks_join(0x7f80, 0x23fa4d3054e7b59b, 0x7f80, 0x23fa4d3054e7b59b, 0x7beb8570e09cd999);
    lemma_goldilocks_join(0xff00, 0x7beb8570e09cd999, 0xff, 0x70c2c3d51532b015, 0xa86793b70b1704a5);
}

proof fn lemma_goldilocks_run_32()
    requires
        goldilocks_power(0xffff, 0xa86793b70b1704a5),
    ensures
        goldilocks_power(0xffffffff, 0x185629dcda58878c),
{
    lemma_goldilocks_join(0xffff, 0xa86793b70b1704a5, 0xffff, 0xa86793b70b1704a5, 0x893fa9923de9a55);
    lemma_goldilocks_join(0x1fffe, 0x893fa9923de9a55, 0x1fffe, 0x893fa9923de9a55, 0x8b93ae51f2c03a11);
    lemma_goldilocks_join(0x3fffc, 0x8b93ae51f2c03a11, 0x3fffc, 0x8b93ae51f2c03a11, 0x9eb6e0ea5824f899);
    lemma_goldilocks_join(0x7fff8, 0x9eb6e0ea5824f899, 0x7fff8, 0x9eb6e0ea5824f899, 0x22259027d26ca2f7);
    lemma_goldilocks_join(0xffff0, 0x22259027d26ca2f7, 0xffff0, 0x22259027d26ca2f7, 0x496072558f0308e7);
    lemma_goldilocks_join(0x1fffe0, 0x496072558f0308e7, 0x1fffe0, 0x496072558f0308e7, 0x25e156b273e5cd95);
    lemma_goldilocks_join(0x3fffc0, 0x25e156b273e5cd95, 0x3fffc0, 0x25e156b273e5cd95, 0x50a0cdd5318285ac);
    lemma_goldilocks_join(0x7fff80, 0x50a0cdd5318285ac, 0x7fff80, 0x50a0cdd5318285ac, 0x3cc9bb789828ac60);
    lemma_goldilocks_join(0xffff00, 0x3cc9bb789828ac60, 0xffff00, 0x3cc9bb789828ac60, 0x8f2194edcfa68d62);
    lemma_goldilocks_join(0x1fffe00, 0x8f2194edcfa68d62, 0x1fffe00, 0x8f2194edcfa68d62, 0xf7d4c5a6b3720d4);
    lemma_goldilocks_join(0x3fffc00, 0xf7d4c5a6b3720d4, 0x3fffc00, 0xf7d4c5a6b3720d4, 0x71d30fa716baca03);
    lemma_goldilocks_join(0x7fff800, 0x71d30fa716baca03, 0x7fff800, 0x71d30fa716baca03, 0x84cbece42cb35a3d);
    lemma_goldilocks_join(0xffff000, 0x84cbece42cb35a3d, 0xffff000, 0x84cbece42cb35a3d, 0x3592b09e290cac82);
    lemma_goldilocks_join(0x1fffe000, 0x3592b09e290cac82, 0x1fffe000, 0x3592b09e290cac82, 0x22f4ac64cdf8f4ca);
    lemma_goldilocks_join(0x3fffc000, 0x22f4ac64cdf8f4ca, 0x3fffc000, 0x22f4ac64cdf8f4ca, 0x3d2db806d5b567b0);
    lemma_goldilocks_join(0x7fff8000, 0x3d2db806d5b567b0, 0x7fff8000, 0x3d2db806d5b567b0, 0x485ea3ea21b6de8f);
    lemma_goldilocks_join(0xffff0000, 0x485ea3ea21b6de8f, 0xffff, 0xa86793b70b1704a5, 0x185629dcda58878c);
}

proof fn lemma_goldilocks_squares()
    requires
        goldilocks_power(0xffffffff, 0x185629dcda58878c),
    ensures
        goldilocks_power(0x7fffffff80000000, 0xffffffff00000000),
{
    lemma_goldilocks_join(0xffffffff, 0x185629dcda58878c, 0xffffffff, 0x185629dcda58878c, 0x400a7f755588e659);
    lemma_goldilocks_join(0x1fffffffe, 0x400a7f755588e659, 0x1fffffffe, 0x400a7f755588e659, 0x7e9bd009b86a0845);
    lemma_goldilocks_join(0x3fffffffc, 0x7e9bd009b86a0845, 0x3fffffffc, 0x7e9bd009b86a0845, 0xdfa8c93ba46d2666);
    lemma_goldilocks_join(0x7fffffff8, 0xdfa8c93ba46d2666, 0x7fffffff8, 0xdfa8c93ba46d2666, 0x59049500004a4485);
    lemma_goldilocks_join(0xffffffff0, 0x59049500004a4485, 0xffffffff0, 0x59049500004a4485, 0x10d78dd8915a171d);
    lemma_goldilocks_join(0x1fffffffe0, 0x10d78dd8915a171d, 0x1fffffffe0, 0x10d78dd8915a171d, 0xed41d05b78d6e286);
    lemma_goldilocks_join(0x3fffffffc0, 0xed41d05b78d6e286, 0x3fffffffc0, 0xed41d05b78d6e286, 0x4bbaf5976ecfefd8);
    lemma_goldilocks_join(0x7fffffff80, 0x4bbaf5976ecfefd8, 0x7fffffff80, 0x4bbaf5976ecfefd8, 0x86cdcc31c307e171);
    lemma_goldilocks_join(0xffffffff00, 0x86cdcc31c307e171, 0xffffffff00, 0x86cdcc31c307e171, 0xea9d5a1336fbc98b);
    lemma_goldilocks_join(0x1fffffffe00, 0xea9d5a1336fbc98b, 0x1fffffffe00, 0xea9d5a1336fbc98b, 0x4b2a18ade67246b5);
    lemma_goldilocks_join(0x3fffffffc00, 0x4b2a18ade67246b5, 0x3fffffffc00, 0x4b2a18ade67246b5, 0xf502aef532322654);
    lemma_goldilocks_join(0x7fffffff800, 0xf502aef532322654, 0x7fffffff800, 0xf502aef532322654, 0x30ba2ecd5e93e76d);
    lemma_goldilocks_join(0xffffffff000, 0x30ba2ecd5e93e76d, 0xffffffff000, 0x30ba2ecd5e93e76d, 0xfbd41c6b8caa3302);
    lemma_goldilocks_join(0x1fffffffe000, 0xfbd41c6b8caa3302, 0x1fffffffe000, 0xfbd41c6b8caa3302, 0x81281a7b05f9beac);
    lemma_goldilocks_join(0x3fffffffc000, 0x81281a7b05f9beac, 0x3fffffffc000, 0x81281a7b05f9beac, 0xabd0a6e8aa3d8a0e);
    lemma_goldilocks_join(0x7fffffff8000, 0xabd0a6e8aa3d8a0e, 0x7fffffff8000, 0xabd0a6e8aa3d8a0e, 0x54df9630bf79450e);
    lemma_goldilocks_join(0xffffffff0000, 0x54df9630bf79450e, 0xffffffff0000, 0x54df9630bf79450e, 0xf6b2cffe2306baac);
    lemma_goldilocks_join(0x1fffffffe0000, 0xf6b2cffe2306baac, 0x1fffffffe0000, 0xf6b2cffe2306baac, 0xe0ee099310bba1e2);
    lemma_goldilocks_join(0x3fffffffc0000, 0xe0ee099310bba1e2, 0x3fffffffc0000, 0xe0ee099310bba1e2, 0x1544ef2335d17997);
    lemma_goldilocks_join(0x7fffffff80000, 0x1544ef2335d17997, 0x7fffffff80000, 0x1544ef2335d17997, 0xf2c35199959dfcb6);
    lemma_goldilocks_join(0xffffffff00000, 0xf2c35199959dfcb6, 0xffffffff00000, 0xf2c35199959dfcb6, 0x653b4801da1c8cf);
    lemma_goldilocks_join(0x1fffffffe00000, 0x653b4801da1c8cf, 0x1fffffffe00000, 0x653b4801da1c8cf, 0x9d8f2ad78bfed972);
    lemma_goldilocks_join(0x3fffffffc00000, 0x9d8f2ad78bfed972, 0x3fffffffc00000, 0x9d8f2ad78bfed972, 0x1905d02a5c411f4e);
    lemma_goldilocks_join(0x7fffffff800000, 0x1905d02a5c411f4e, 0x7fffffff800000, 0x1905d02a5c411f4e, 0xbf79143ce60ca966);
    lemma_goldilocks_join(0xffffffff000000, 0xbf79143ce60ca966, 0xffffffff000000, 0xbf79143ce60ca966, 0xf80007ff08000001);
    lemma_goldilocks_join(0x1fffffffe000000, 0xf80007ff08000001, 0x1fffffffe000000, 0xf80007ff08000001, 0x8000000000);
    lemma_goldilocks_join(0x3fffffffc000000, 0x8000000000, 0x3fffffffc000000, 0x8000000000, 0x3fffffffc000);
    lemma_goldilocks_join(0x7fffffff8000000, 0x3fffffffc000, 0x7fffffff8000000, 0x3fffffffc000, 0xefffffff00000001);
    lemma_goldilocks_join(0xffffffff0000000, 0xefffffff00000001, 0xffffffff0000000, 0xefffffff00000001, 0xfffffffeff000001);
    lemma_goldilocks_join(0x1fffffffe0000000, 0xfffffffeff000001, 0x1fffffffe0000000, 0xfffffffeff000001, 0x1000000000000);
    lemma_goldilocks_join(0x3fffffffc0000000, 0x1000000000000, 0x3fffffffc0000000, 0x1000000000000, 0xffffffff00000000);
}

/// Seven to half the group order is minus one modulo `2^64 - 2^32 + 1`.
pub proof fn lemma_goldilocks_generator()
    ensures
        rpow::<Goldilocks>(GOLDILOCKS_GENERATOR, 0x7fffffff80000000) == Goldilocks::rneg(
            Goldilocks::rone(),
        ),
{
    assert(goldilocks_power(1, 7)) by {
        reveal(goldilocks_power);
        lemma_first_power::<Goldilocks>(GOLDILOCKS_GENERATOR);
    }
    lemma_goldilocks_run_2();
    lemma_goldilocks_run_4();
    lemma_goldilocks_run_8();
    lemma_goldilocks_run_16();
    lemma_goldilocks_run_32();
    lemma_goldilocks_squares();
    reveal(goldilocks_power);
}

proof fn lemma_mersenne31_run_2()
    requires
        mersenne31_power(1, 7),
    ensures
        mersenne31_power(3, 0x157),
{
    lemma_mersenne31_join(1, 7, 1, 7, 0x31);
    lemma_mersenne31_join(2, 0x31, 1, 7, 0x157);
}

proof fn lemma_mersenne31_run_3()
    requires
        mersenne31_power(1, 7),
        mersenne31_power(3, 0x157),
    ensures
        mersenne31_power(7, 0xc90f7),
{
    lemma_mersenne31_join(3, 0x157, 3, 0x157, 0x1cb91);
    lemma_mersenne31_join(6, 0x1cb91, 1, 7, 0xc90f7);
}

proof fn lemma_mersenne31_run_6()
    requires
        mersenne31_power(7, 0xc90f7),
    ensures
        mersenne31_power(0x3f, 0x1474d695),
{
    lemma_mersenne31_join(7, 0xc90f7, 7, 0xc90f7, 0x693ecf8c);
    lemma_mersenne31_join(0xe, 0x693ecf8c, 0xe, 0x693ecf8c, 0x5e9cdfe4);
    lemma_mersenne31_join(0x1c, 0x5e9cdfe4, 0x1c, 0x5e9cdfe4, 0x579e2c2a);
    lemma_mersenne31_join(0x38, 0x579e2c2a, 7, 0xc90f7, 0x1474d695);
}

proof fn lemma_mersenne31_run_7()
    requires
        mersenne31_power(1, 7),
        mersenne31_power(0x3f, 0x1474d695),
    ensures
        mersenne31_power(0x7f, 0x3b28a301),
{
    lemma_mersenne31_join(0x3f, 0x1474d695, 0x3f, 0x1474d695, 0x762a606d);
    lemma_mersenne31_join(0x7e, 0x762a606d, 1, 7, 0x3b28a301);
}

proof fn lemma_mersenne31_run_14()
    requires
        mersenne31_power(0x7f, 0x3b28a301),
    ensures
        mersenne31_power(0x3fff, 0x76a6e34b),
{
    lemma_mersenne31_join(0x7f, 0x3b28a301, 0x7f, 0x3b28a301, 0x6971c92c);
    lemma_mersenne31_join(0xfe, 0x6971c92c, 0xfe, 0x6971c92c, 0x25cb32c3);
    lemma_mersenne31_join(0x1fc, 0x25cb32c3, 0x1fc, 0x25cb32c3, 0x747b7c74);
    lemma_mersenne31_join(0x3f8, 0x747b7c74, 0x3f8, 0x747b7c74, 0x5df8dd44);
    lemma_mersenne31_join(0x7f0, 0x5df8dd44, 0x7f0, 0x5df8dd44, 0x1ffbff72);
    lemma_mersenne31_join(0xfe0, 0x1ffbff72, 0xfe0, 0x1ffbff72, 0xc6e4e9d);
    lemma_mersenne31_join(0x1fc0, 0xc6e4e9d, 0x1fc0, 0xc6e4e9d, 0x60451a15);
    lemma_mersenne31_join(0x3f80, 0x60451a15, 0x7f, 0x3b28a301, 0x76a6e34b);
}

proof fn lemma_mersenne31_run_15()
    requires
        mersenne31_power(1, 7),
        mersenne31_power(0x3fff, 0x76a6e34b),
    ensures
        mersenne31_power(0x7fff, 0x67668076),
{
    lemma_mersenne31_join(0x3fff, 0x76a6e34b, 0x3fff, 0x76a6e34b, 0x210ea4a3);
    lemma_mersenne31_join(0x7ffe, 0x210ea4a3, 1, 7, 0x67668076);
}

proof fn lemma_mersenne31_run_30()
    requires
        mersenne31_power(0x7fff, 0x67668076),
    ensures
        mersenne31_power(0x3fffffff, 0x7ffffffe),
{
    lemma_mersenne31_join(0x7fff, 0x67668076, 0x7fff, 0x67668076, 0x66057f37);
    lemma_mersenne31_join(0xfffe, 0x66057f37, 0xfffe, 0x66057f37, 0x5cae60cd);
    lemma_mersenne31_join(0x1fffc, 0x5cae60cd, 0x1fffc, 0x5cae60cd, 0x5661fcdf);
    lemma_mersenne31_join(0x3fff8, 0x5661fcdf, 0x3fff8, 0x5661fcdf, 0x2911c110);
    lemma_mersenne31_join(0x7fff0, 0x2911c110, 0x7fff0, 0x2911c110, 0x62e68324);
    lemma_mersenne31_join(0xfffe0, 0x62e68324, 0xfffe0, 0x62e68324, 0x444874ff);
    lemma_mersenne31_join(0x1fffc0, 0x444874ff, 0x1fffc0, 0x444874ff, 0x21553b54);
    lemma_mersenne31_join(0x3fff80, 0x21553b54, 0x3fff80, 0x21553b54, 0x2435fee8);
    lemma_mersenne31_join(0x7fff00, 0x2435fee8, 0x7fff00, 0x2435fee8, 0x541fa869);
    lemma_mersenne31_join(0xfffe00, 0x541fa869, 0xfffe00, 0x541fa869, 0x57818fef);
    lemma_mersenne31_join(0x1fffc00, 0x57818fef, 0x1fffc00, 0x57818fef, 0xd9d83ef);
    lemma_mersenne31_join(0x3fff800, 0xd9d83ef, 0x3fff800, 0xd9d83ef, 0x5e9739c3);
    lemma_mersenne31_join(0x7fff000, 0x5e9739c3, 0x7fff000, 0x5e9739c3, 0x2af93a0a);
    lemma_mersenne31_join(0xfffe000, 0x2af93a0a, 0xfffe000, 0x2af93a0a, 0x4b09fbbe);
    lemma_mersenne31_join(0x1fffc000, 0x4b09fbbe, 0x1fffc000, 0x4b09fbbe, 0x2ae7d4ce);
    lemma_mersenne31_join(0x3fff8000, 0x2ae7d4ce, 0x7fff, 0x67668076, 0x7ffffffe);
}

/// Seven to half the group order is minus one modulo `2^31 - 1`.
pub proof fn lemma_mersenne31_generator()
    ensures
        rpow::<Mersenne31>(MERSENNE31_GENERATOR, 0x3fffffff) == Mersenne31::rneg(
            Mersenne31::rone(),
        ),
{
    assert(mersenne31_power(1, 7)) by {
        reveal(mersenne31_power);
        lemma_first_power::<Mersenne31>(MERSENNE31_GENERATOR);
    }
    lemma_mersenne31_run_2();
    lemma_mersenne31_run_3();
    lemma_mersenne31_run_6();
    lemma_mersenne31_run_7();
    lemma_mersenne31_run_14();
    lemma_mersenne31_run_15();
    lemma_mersenne31_run_30();
    reveal(mersenne31_power);
}

proof fn lemma_quad_run_2()
    requires
        quad_power(1, 1, 0xc),
    ensures
        quad_power(3, 0x7ffffe50, 0x7ffff963),
{
    lemma_quad_join(1, 1, 0xc, 1, 1, 0xc, 0x7fffff70, 0x18);
    lemma_quad_join(2, 0x7fffff70, 0x18, 1, 1, 0xc, 0x7ffffe50, 0x7ffff963);
}

proof fn lemma_quad_run_3()
    requires
        quad_power(1, 1, 0xc),
        quad_power(3, 0x7ffffe50, 0x7ffff963),
    ensures
        quad_power(7, 0x7ecc1730, 0x7e2c1013),
{
    lemma_quad_join(3, 0x7ffffe50, 0x7ffff963, 3, 0x7ffffe50, 0x7ffff963, 0x7fd72690, 0x164148);
    lemma_quad_join(6, 0x7fd72690, 0x164148, 1, 1, 0xc, 0x7ecc1730, 0x7e2c1013);
}

proof fn lemma_quad_run_6()
    requires
        quad_power(7, 0x7ecc1730, 0x7e2c1013),
    ensures
        quad_power(0x3f, 0x1e6b7375, 0x4674ae77),
{
    lemma_quad_join(7, 0x7ecc1730, 0x7e2c1013, 7, 0x7ecc1730, 0x7e2c1013, 0x7c4b8bd6, 0x7aa8af1);
    lemma_quad_join(0xe, 0x7c4b8bd6, 0x7aa8af1, 0xe, 0x7c4b8bd6, 0x7aa8af1, 0x286611d, 0x741b7ab9);
    lemma_quad_join(0x1c, 0x286611d, 0x741b7ab9, 0x1c, 0x286611d, 0x741b7ab9, 0x14130f5e, 0x37aa577);
    lemma_quad_join(0x38, 0x14130f5e, 0x37aa577, 7, 0x7ecc1730, 0x7e2c1013, 0x1e6b7375, 0x4674ae77);
}

proof fn lemma_quad_run_7()
    requires
        quad_power(1, 1, 0xc),
        quad_power(0x3f, 0x1e6b7375, 0x4674ae77),
    ensures
        quad_power(0x7f, 0x39349678, 0x7b59b63c),
{
    lemma_quad_join(0x3f, 0x1e6b7375, 0x4674ae77, 0x3f, 0x1e6b7375, 0x4674ae77, 0x5d95074a, 0x185d5ebc);
    lemma_quad_join(0x7e, 0x5d95074a, 0x185d5ebc, 1, 1, 0xc, 0x39349678, 0x7b59b63c);
}

proof fn lemma_quad_run_14()
    requires
        quad_power(0x7f, 0x39349678, 0x7b59b63c),
    ensures
        quad_power(0x3fff, 0x41f73c96, 0x731cc829),
{
    lemma_quad_join(0x7f, 0x39349678, 0x7b59b63c, 0x7f, 0x39349678, 0x7b59b63c, 0x2c71bcb1, 0x744a6973);
    lemma_quad_join(0xfe, 0x2c71bcb1, 0x744a6973, 0xfe, 0x2c71bcb1, 0x744a6973, 0x4332751e, 0xa0e8bc4);
    lemma_quad_join(0x1fc, 0x4332751e, 0xa0e8bc4, 0x1fc, 0x4332751e, 0xa0e8bc4, 0x660aa075, 0x62491205);
    lemma_quad_join(0x3f8, 0x660aa075, 0x62491205, 0x3f8, 0x660aa075, 0x62491205, 0x1378a4ae, 0x2e697f20);
    lemma_quad_join(0x7f0, 0x1378a4ae, 0x2e697f20, 0x7f0, 0x1378a4ae, 0x2e697f20, 0xbd0ba8b, 0x3e689e78);
    lemma_quad_join(0xfe0, 0xbd0ba8b, 0x3e689e78, 0xfe0, 0xbd0ba8b, 0x3e689e78, 0x3adf74a1, 0x2a67fb77);
    lemma_quad_join(0x1fc0, 0x3adf74a1, 0x2a67fb77, 0x1fc0, 0x3adf74a1, 0x2a67fb77, 0x9e3323c, 0x3f026f29);
    lemma_quad_join(0x3f80, 0x9e3323c, 0x3f026f29, 0x7f, 0x39349678, 0x7b59b63c, 0x41f73c96, 0x731cc829);
}

proof fn lemma_quad_run_15()
    requires
        quad_power(1, 1, 0xc),
        quad_power(0x3fff, 0x41f73c96, 0x731cc829),
    ensures
        quad_power(0x7fff, 0x1af76196, 0xcdf2e97),
{
    lemma_quad_join(0x3fff, 0x41f73c96, 0x731cc829, 0x3fff, 0x41f73c96, 0x731cc829, 0x22cbca44, 0x6b51b363);
    lemma_quad_join(0x7ffe, 0x22cbca44, 0x6b51b363, 1, 1, 0xc, 0x1af76196, 0xcdf2e97);
}

proof fn lemma_quad_run_30()
    requires
        quad_power(0x7fff, 0x1af76196, 0xcdf2e97),
    ensures
        quad_power(0x3fffffff, 0x3d67694d, 0x3a7348c6),
{
    lemma_quad_join(0x7fff, 0x1af76196, 0xcdf2e97, 0x7fff, 0x1af76196, 0xcdf2e97, 0x157d66b2, 0x4fa772d9);
    lemma_quad_join(0xfffe, 0x157d66b2, 0x4fa772d9, 0xfffe, 0x157d66b2, 0x4fa772d9, 0x6c6b8e, 0x1109a650);
    lemma_quad_join(0x1fffc, 0x6c6b8e, 0x1109a650, 0x1fffc, 0x6c6b8e, 0x1109a650, 0x2d0ff4b2, 0x4b583daa);
    lemma_quad_join(0x3fff8, 0x2d0ff4b2, 0x4b583daa, 0x3fff8, 0x2d0ff4b2, 0x4b583daa, 0x7e88ebd1, 0x2f3aa484);
    lemma_quad_join(0x7fff0, 0x7e88ebd1, 0x2f3aa484, 0x7fff0, 0x7e88ebd1, 0x2f3aa484, 0x2168f39d, 0x616b760f);
    lemma_quad_join(0xfffe0, 0x2168f39d, 0x616b760f, 0xfffe0, 0x2168f39d, 0x616b760f, 0x4afad3eb, 0x7cfa72b8);
    lemma_quad_join(0x1fffc0, 0x4afad3eb, 0x7cfa72b8, 0x1fffc0, 0x4afad3eb, 0x7cfa72b8, 0x21859db8, 0x4eb5529a);
    lemma_quad_join(0x3fff80, 0x21859db8, 0x4eb5529a, 0x3fff80, 0x21859db8, 0x4eb5529a, 0x4a51a2e1, 0x3d3572be);
    lemma_quad_join(0x7fff00, 0x4a51a2e1, 0x3d3572be, 0x7fff00, 0x4a51a2e1, 0x3d3572be, 0x59cb5573, 0x787c0a13);
    lemma_quad_join(0xfffe00, 0x59cb5573, 0x787c0a13, 0xfffe00, 0x59cb5573, 0x787c0a13, 0x51af0efd, 0x774ef362);
    lemma_quad_join(0x1fffc00, 0x51af0efd, 0x774ef362, 0x1fffc00, 0x51af0efd, 0x774ef362, 0xa96f5ab, 0x50ee0b8f);
    lemma_quad_join(0x3fff800, 0xa96f5ab, 0x50ee0b8f, 0x3fff800, 0xa96f5ab, 0x50ee0b8f, 0x1b70259e, 0x51b3d6b);
    lemma_quad_join(0x7fff000, 0x1b70259e, 0x51b3d6b, 0x7fff000, 0x1b70259e, 0x51b3d6b, 0x18266e53, 0x7f312ea8);
    lemma_quad_join(0xfffe000, 0x18266e53, 0x7f312ea8, 0xfffe000, 0x18266e53, 0x7f312ea8, 0x71896a15, 0x47db72e4);
    lemma_quad_join(0x1fffc000, 0x71896a15, 0x47db72e4, 0x1fffc000, 0x71896a15, 0x47db72e4, 0x3f25d1cb, 0x44a76920);
    lemma_quad_join(0x3fff8000, 0x3f25d1cb, 0x44a76920, 0x7fff, 0x1af76196, 0xcdf2e97, 0x3d67694d, 0x3a7348c6);
}

proof fn lemma_quad_squares()
    requires
        quad_power(0x3fffffff, 0x3d67694d, 0x3a7348c6),
    ensures
        quad_power(0x1fffffff80000000, 0x7ffffffe, 0),
{
    lemma_quad_join(0x3fffffff, 0x3d67694d, 0x3a7348c6, 0x3fffffff, 0x3d67694d, 0x3a7348c6, 0x6d764a25, 0x5e74862d);
    lemma_quad_join(0x7ffffffe, 0x6d764a25, 0x5e74862d, 0x7ffffffe, 0x6d764a25, 0x5e74862d, 0x1e6299e2, 0x5049d5cc);
    lemma_quad_join(0xfffffffc, 0x1e6299e2, 0x5049d5cc, 0xfffffffc, 0x1e6299e2, 0x5049d5cc, 0x597cdf33, 0x2a39a283);
    lemma_quad_join(0x1fffffff8, 0x597cdf33, 0x2a39a283, 0x1fffffff8, 0x597cdf33, 0x2a39a283, 0x612408bb, 0x7c09831d);
    lemma_quad_join(0x3fffffff0, 0x612408bb, 0x7c09831d, 0x3fffffff0, 0x612408bb, 0x7c09831d, 0x6939bff2, 0x64839d5c);
    lemma_quad_join(0x7ffffffe0, 0x6939bff2, 0x64839d5c, 0x7ffffffe0, 0x6939bff2, 0x64839d5c, 0x485fb376, 0x1ddf6ac9);
    lemma_quad_join(0xfffffffc0, 0x485fb376, 0x1ddf6ac9, 0xfffffffc0, 0x485fb376, 0x1ddf6ac9, 0x709c57ab, 0x6c418ad4);
    lemma_quad_join(0x1fffffff80, 0x709c57ab, 0x6c418ad4, 0x1fffffff80, 0x709c57ab, 0x6c418ad4, 0x73000934, 0x1cc6b639);
    lemma_quad_join(0x3fffffff00, 0x73000934, 0x1cc6b639, 0x3fffffff00, 0x73000934, 0x1cc6b639, 0x3f4d8633, 0x133f1cba);
    lemma_quad_join(0x7ffffffe00, 0x3f4d8633, 0x133f1cba, 0x7ffffffe00, 0x3f4d8633, 0x133f1cba, 0x74abda6d, 0x24259aad);
    lemma_quad_join(0xfffffffc00, 0x74abda6d, 0x24259aad, 0xfffffffc00, 0x74abda6d, 0x24259aad, 0x74a86a13, 0x779383);
    lemma_quad_join(0x1fffffff800, 0x74a86a13, 0x779383, 0x1fffffff800, 0x74a86a13, 0x779383, 0xe6bb685, 0x6cb25778);
    lemma_quad_join(0x3fffffff000, 0xe6bb685, 0x6cb25778, 0x3fffffff000, 0xe6bb685, 0x6cb25778, 0x45de9753, 0x5c7b75f9);
    lemma_quad_join(0x7ffffffe000, 0x45de9753, 0x5c7b75f9, 0x7ffffffe000, 0x45de9753, 0x5c7b75f9, 0x63150647, 0x580cff93);
    lemma_quad_join(0xfffffffc000, 0x63150647, 0x580cff93, 0xfffffffc000, 0x63150647, 0x580cff93, 0x7cffe1b5, 0x1b9fafc9);
    lemma_quad_join(0x1fffffff8000, 0x7cffe1b5, 0x1b9fafc9, 0x1fffffff8000, 0x7cffe1b5, 0x1b9fafc9, 0x7f4edd9d, 0x632fba7b);
    lemma_quad_join(0x3fffffff0000, 0x7f4edd9d, 0x632fba7b, 0x3fffffff0000, 0x7f4edd9d, 0x632fba7b, 0x20464549, 0x2c4088b);
    lemma_quad_join(0x7ffffffe0000, 0x20464549, 0x2c4088b, 0x7ffffffe0000, 0x20464549, 0x2c4088b, 0x7d9f7011, 0x2dd0daf3);
    lemma_quad_join(0xfffffffc0000, 0x7d9f7011, 0x2dd0daf3, 0xfffffffc0000, 0x7d9f7011, 0x2dd0daf3, 0x76ee1d36, 0x7719c302);
    lemma_quad_join(0x1fffffff80000, 0x76ee1d36, 0x7719c302, 0x1fffffff80000, 0x76ee1d36, 0x7719c302, 0x147c1069, 0x6217568e);
    lemma_quad_join(0x3fffffff00000, 0x147c1069, 0x6217568e, 0x3fffffff00000, 0x147c1069, 0x6217568e, 0x241910e2, 0xaec31e7);
    lemma_quad_join(0x7ffffffe00000, 0x241910e2, 0xaec31e7, 0x7ffffffe00000, 0x241910e2, 0xaec31e7, 0x4ede4bd6, 0xc8c1f13);
    lemma_quad_join(0xfffffffc00000, 0x4ede4bd6, 0xc8c1f13, 0xfffffffc00000, 0x4ede4bd6, 0xc8c1f13, 0x6c6f0abf, 0x1ce3708d);
    lemma_quad_join(0x1fffffff800000, 0x6c6f0abf, 0x1ce3708d, 0x1fffffff800000, 0x6c6f0abf, 0x1ce3708d, 0x2be279f0, 0x2364e3a5);
    lemma_quad_join(0x3fffffff000000, 0x2be279f0, 0x2364e3a5, 0x3fffffff000000, 0x2be279f0, 0x2364e3a5, 0x69c0f747, 0x31f5d806);
    lemma_quad_join(0x7ffffffe000000, 0x69c0f747, 0x31f5d806, 0x7ffffffe000000, 0x69c0f747, 0x31f5d806, 0x5d739c92, 0x64c7604e);
    lemma_quad_join(0xfffffffc000000, 0x5d739c92, 0x64c7604e, 0xfffffffc000000, 0x5d739c92, 0x64c7604e, 0x46515668, 0x3604adb7);
    lemma_quad_join(0x1fffffff8000000, 0x46515668, 0x3604adb7, 0x1fffffff8000000, 0x46515668, 0x3604adb7, 0x233668e2, 0x45abdd8a);
    lemma_quad_join(0x3fffffff0000000, 0x233668e2, 0x45abdd8a, 0x3fffffff0000000, 0x233668e2, 0x45abdd8a, 0x8000, 0x8000);
    lemma_quad_join(0x7ffffffe0000000, 0x8000, 0x8000, 0x7ffffffe0000000, 0x8000, 0x8000, 0, 1);
    lemma_quad_join(0xfffffffc0000000, 0, 1, 0xfffffffc0000000, 0, 1, 0x7ffffffe, 0);
}

/// `1 + 12 i` to half the group order is minus one.
pub proof fn lemma_quad_generator()
    ensures
        rpow::<QuadMersenne31>(quad_generator(), 0x1fffffff80000000) == QuadMersenne31::rneg(
            QuadMersenne31::rone(),
        ),
{
    assert(quad_power(1, 1, 0xc)) by {
        reveal(quad_power);
        lemma_first_power::<QuadMersenne31>(quad_generator());
    }
    lemma_quad_run_2();
    lemma_quad_run_3();
    lemma_quad_run_6();
    lemma_quad_run_7();
    lemma_quad_run_14();
    lemma_quad_run_15();
    lemma_quad_run_30();
    lemma_quad_squares();
    reveal(quad_power);
}

} // verus!
