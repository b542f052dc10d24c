//! Row kernels: butterflies on every backend, and scaled sums.

use butterfly_fft::field::{self, FanPaar64, Gf16, Gf32, Gf8B};
use butterfly_fft::kernel::{
    backend, backend_for, butterfly_fft_tiers, fused_forward, fused_forward_backend, fused_inverse,
    fused_inverse_backend, narrowed, target_of, tiers_for, xor_scaled_bytes, xor_scaled_bytes_rows,
    Backend, ButterflyKernels, Target,
};
use butterfly_fft::tables::{multiply_base, FactorTables, FactorWords, ScaleTable, TierButterflies};

fn decode<F: ButterflyKernels>(bytes: &[u8]) -> F::Elem {
    let mut wide = [0u8; 8];
    wide[..bytes.len()].copy_from_slice(bytes);
    F::from_bits(u64::from_le_bytes(wide))
}

fn encode<F: ButterflyKernels>(bytes: &mut [u8], value: F::Elem) {
    let width = F::bytes();
    bytes.copy_from_slice(&F::to_bits(value).to_le_bytes()[..width]);
}

fn pattern(seed: u8, len: usize) -> Vec<u8> {
    let mut bytes = Vec::with_capacity(len);
    let mut x = seed;
    for _ in 0..len {
        bytes.push(x);
        x = x.wrapping_mul(29).wrapping_add(0xa5);
    }
    bytes
}

/// Byte lengths covering empty, sub-lane, exact-lane, and tailed shapes.
fn lengths(bytes_per_elem: usize) -> Vec<usize> {
    let elems = [0, 1, 7, 8, 15, 16, 17, 31, 32, 33, 65];
    elems.map(|e| e * bytes_per_elem).into_iter().collect()
}

/// The butterfly by element arithmetic.
fn reference_forward<F: ButterflyKernels>(low: &mut [u8], high: &mut [u8], coefficient: F::Elem) {
    let width = F::bytes();
    for (l, h) in low.chunks_exact_mut(width).zip(high.chunks_exact_mut(width)) {
        let (lo, hi) = (decode::<F>(l), decode::<F>(h));
        let new_low = field::plus::<F>(lo, field::times::<F>(coefficient, hi));
        encode::<F>(l, new_low);
        encode::<F>(h, field::plus::<F>(hi, new_low));
    }
}

fn reference_inverse<F: ButterflyKernels>(low: &mut [u8], high: &mut [u8], coefficient: F::Elem) {
    let width = F::bytes();
    for (l, h) in low.chunks_exact_mut(width).zip(high.chunks_exact_mut(width)) {
        let (lo, hi) = (decode::<F>(l), decode::<F>(h));
        let new_high = field::plus::<F>(lo, hi);
        encode::<F>(l, field::plus::<F>(lo, field::times::<F>(coefficient, new_high)));
        encode::<F>(h, new_high);
    }
}

fn scalar_roundtrip<F: TierButterflies>(coefficients: &[F::Elem]) {
    for &coefficient in coefficients {
        for len in lengths(F::bytes()) {
            let mut low = pattern(0x11, len);
            let mut high = pattern(0x97, len);
            let (original_low, original_high) = (low.clone(), high.clone());
            F::forward_on(Backend::Scalar, &mut low, &mut high, coefficient);
            F::inverse_on(Backend::Scalar, &mut low, &mut high, coefficient);
            assert_eq!(low, original_low, "low not restored at len {len}");
            assert_eq!(high, original_high, "high not restored at len {len}");
        }
    }
}

#[test]
fn kernel_scalar_roundtrip_gf8() {
    scalar_roundtrip::<Gf8B>(&[0x00, 0x01, 0x02, 0x03, 0x53, 0xff]);
}

#[test]
fn kernel_scalar_roundtrip_gf16() {
    scalar_roundtrip::<Gf16>(&[0x0000, 0x0001, 0x0108, 0x9b37, 0xffff]);
}

#[test]
fn mod_scalar_roundtrip_gf8() {
    scalar_roundtrip::<Gf8B>(&[0x00, 0x01, 0x02, 0x03, 0x53, 0xff]);
}

#[test]
fn mod_scalar_roundtrip_gf16() {
    scalar_roundtrip::<Gf16>(&[0x0000, 0x0001, 0x0108, 0x9b37, 0xffff]);
}

fn scalar_forward_matches<F: TierButterflies>(coefficients: &[F::Elem]) {
    for &coefficient in coefficients {
        for len in lengths(F::bytes()) {
            let mut low = pattern(0x3d, len);
            let mut high = pattern(0xc2, len);
            let (mut expected_low, mut expected_high) = (low.clone(), high.clone());
            reference_forward::<F>(&mut expected_low, &mut expected_high, coefficient);
            F::forward_on(Backend::Scalar, &mut low, &mut high, coefficient);
            assert_eq!(low, expected_low);
            assert_eq!(high, expected_high);
        }
    }
}

#[test]
fn kernel_scalar_forward_matches_element_math_gf8() {
    scalar_forward_matches::<Gf8B>(&[0x00, 0x01, 0x03, 0xff]);
}

#[test]
fn kernel_scalar_forward_matches_element_math_gf16() {
    scalar_forward_matches::<Gf16>(&[0x0000, 0x0001, 0x0108, 0xbeef]);
}

#[test]
fn mod_scalar_forward_matches_element_math_gf8() {
    scalar_forward_matches::<Gf8B>(&[0x00, 0x01, 0x03, 0xff]);
}

#[test]
fn mod_scalar_forward_matches_element_math_gf16() {
    scalar_forward_matches::<Gf16>(&[0x0000, 0x0001, 0x0108, 0xbeef]);
}

fn butterflies_roundtrip<F: ButterflyKernels>(coefficients: &[F::Elem]) {
    for &coefficient in coefficients {
        for len in lengths(F::bytes()) {
            let mut low = pattern(0x5b, len);
            let mut high = pattern(0xe4, len);
            let (original_low, original_high) = (low.clone(), high.clone());
            fused_forward::<F>(&mut low, &mut high, coefficient);
            fused_inverse::<F>(&mut low, &mut high, coefficient);
            assert_eq!(low, original_low);
            assert_eq!(high, original_high);
        }
    }
}

#[test]
fn kernel_public_butterflies_roundtrip() {
    butterflies_roundtrip::<Gf8B>(&[0x00, 0x01, 0x53, 0xff]);
    butterflies_roundtrip::<Gf16>(&[0x0000, 0x0001, 0x0108, 0x9b37]);
}

#[test]
fn mod_public_butterflies_roundtrip() {
    butterflies_roundtrip::<Gf8B>(&[0x00, 0x01, 0x53, 0xff]);
    butterflies_roundtrip::<Gf16>(&[0x0000, 0x0001, 0x0108, 0x9b37]);
}

fn zero_coefficient_couples<F: ButterflyKernels>() {
    for len in lengths(F::bytes()) {
        let mut low = pattern(0x77, len);
        let mut high = pattern(0x08, len);
        let expected_high: Vec<u8> = high.iter().zip(&low).map(|(h, l)| h ^ l).collect();
        let original_low = low.clone();
        fused_forward::<F>(&mut low, &mut high, field::zero::<F>());
        assert_eq!(low, original_low, "low must be untouched");
        assert_eq!(high, expected_high);
    }
}

#[test]
fn kernel_public_forward_zero_coefficient_is_xor_coupling() {
    zero_coefficient_couples::<Gf8B>();
    zero_coefficient_couples::<Gf16>();
}

#[test]
fn mod_public_forward_zero_coefficient_is_xor_coupling() {
    zero_coefficient_couples::<Gf8B>();
    zero_coefficient_couples::<Gf16>();
}

/// The unit-coefficient fast paths equal the general butterfly with one.
#[test]
fn one_coefficient_fast_paths_match_xor_semantics() {
    fn check<F: ButterflyKernels>() {
        let one = field::one::<F>();
        for len in lengths(F::bytes()) {
            let low = pattern(0x5a, len);
            let high = pattern(0xc3, len);
            let expected: Vec<u8> = low.iter().zip(&high).map(|(l, h)| l ^ h).collect();

            let mut forward = (low.clone(), high.clone());
            fused_forward::<F>(&mut forward.0, &mut forward.1, one);
            assert_eq!(forward.0, expected, "forward-one low");
            assert_eq!(forward.1, low, "forward-one high");

            let mut inverse = (low.clone(), high.clone());
            fused_inverse::<F>(&mut inverse.0, &mut inverse.1, one);
            assert_eq!(inverse.0, high, "inverse-one low");
            assert_eq!(inverse.1, expected, "inverse-one high");

            // The fast paths must still undo each other.
            fused_inverse::<F>(&mut forward.0, &mut forward.1, one);
            assert_eq!(forward.0, low);
            assert_eq!(forward.1, high);

            // And agree with element arithmetic at the same coefficient.
            let (mut reference_low, mut reference_high) = (low.clone(), high.clone());
            reference_forward::<F>(&mut reference_low, &mut reference_high, one);
            let (mut fast_low, mut fast_high) = (low.clone(), high.clone());
            fused_forward::<F>(&mut fast_low, &mut fast_high, one);
            assert_eq!(fast_low, reference_low);
            assert_eq!(fast_high, reference_high);
        }
    }
    check::<Gf8B>();
    check::<Gf16>();
}

#[test]
fn xor_scaled_matches_element_math() {
    fn check<F: ButterflyKernels>(coefficient: F::Elem) {
        let width = F::bytes();
        for len in lengths(width) {
            let src = pattern(0x19, len);
            let mut dst = pattern(0xb3, len);
            let mut expected = dst.clone();
            for (out, input) in expected.chunks_exact_mut(width).zip(src.chunks_exact(width)) {
                let product = field::times::<F>(decode::<F>(input), coefficient);
                let sum = field::plus::<F>(decode::<F>(out), product);
                encode::<F>(out, sum);
            }
            xor_scaled_bytes::<F>(&mut dst, coefficient, &src);
            assert_eq!(dst, expected);
        }
    }
    check::<Gf8B>(0x53);
    check::<Gf8B>(0x00);
    check::<Gf8B>(0x01);
    check::<Gf16>(0x9b37);
    check::<Gf16>(0x0000);
    check::<Gf16>(0x0001);
}

#[test]
fn xor_scaled_rows_match_element_math() {
    fn check<F: ButterflyKernels>(coefficients: &[F::Elem]) {
        let width = F::bytes();
        let row_len = 3 * width;
        let source = pattern(0x31, row_len);
        let mut destinations = pattern(0xc7, coefficients.len() * row_len);
        let mut expected = destinations.clone();
        for (row, &coefficient) in expected.chunks_exact_mut(row_len).zip(coefficients) {
            for (out, input) in row.chunks_exact_mut(width).zip(source.chunks_exact(width)) {
                let product = field::times::<F>(coefficient, decode::<F>(input));
                let value = field::plus::<F>(decode::<F>(out), product);
                encode::<F>(out, value);
            }
        }
        xor_scaled_bytes_rows::<F>(&mut destinations, row_len, coefficients, &source);
        assert_eq!(destinations, expected);
    }

    check::<Gf8B>(&[0x00, 0x01, 0x53, 0xff]);
    check::<Gf16>(&[0x0000, 0x0001, 0x9b37, 0xffff]);
}

/// Compare one backend against element arithmetic in both directions
/// independently.
fn differential_backend<F: TierButterflies>(selected: Backend, coefficients: &[F::Elem]) {
    for &coefficient in coefficients {
        for len in lengths(F::bytes()) {
            let low = pattern(0x2e, len);
            let high = pattern(0xd1, len);

            let (mut expected_low, mut expected_high) = (low.clone(), high.clone());
            reference_forward::<F>(&mut expected_low, &mut expected_high, coefficient);
            let (mut actual_low, mut actual_high) = (low.clone(), high.clone());
            F::forward_on(selected, &mut actual_low, &mut actual_high, coefficient);
            assert_eq!(actual_low, expected_low, "{selected:?} forward low at len {len}");
            assert_eq!(actual_high, expected_high, "{selected:?} forward high at len {len}");

            let (mut expected_low, mut expected_high) = (low.clone(), high.clone());
            reference_inverse::<F>(&mut expected_low, &mut expected_high, coefficient);
            let (mut actual_low, mut actual_high) = (low, high);
            F::inverse_on(selected, &mut actual_low, &mut actual_high, coefficient);
            assert_eq!(actual_low, expected_low, "{selected:?} inverse low at len {len}");
            assert_eq!(actual_high, expected_high, "{selected:?} inverse high at len {len}");
        }
    }
}

fn x86_backends_match() {
    for selected in [Backend::V3GfniCrypto, Backend::V3, Backend::V2] {
        differential_backend::<Gf8B>(selected, &[0x00, 0x01, 0x02, 0x53, 0xff]);
        differential_backend::<Gf16>(selected, &[0x0000, 0x0001, 0x0108, 0x9b37, 0xffff]);
    }
}

fn neon_backends_match() {
    for selected in [Backend::NeonAes, Backend::Neon] {
        differential_backend::<Gf8B>(selected, &[0x00, 0x01, 0x02, 0x53, 0xff]);
        differential_backend::<Gf16>(selected, &[0x0000, 0x0001, 0x0108, 0x9b37, 0xffff]);
    }
}

#[test]
fn kernel_x86_backends_match_scalar_in_both_directions() {
    x86_backends_match();
}

#[test]
fn mod_x86_backends_match_scalar_in_both_directions() {
    x86_backends_match();
}

#[test]
fn kernel_neon_backends_match_scalar_in_both_directions() {
    neon_backends_match();
}

#[test]
fn mod_neon_backends_match_scalar_in_both_directions() {
    neon_backends_match();
}

/// A field without kernels of its own runs the portable ones on every backend.
#[test]
fn kernelless_field_tier_entries_inherit_scalar() {
    for selected in [
        Backend::V3GfniCrypto,
        Backend::V3,
        Backend::V2,
        Backend::NeonAes,
        Backend::Neon,
    ] {
        differential_backend::<Gf32>(selected, &[1, 0]);
    }
}

/// The backend is always one that the field has kernels for.
#[test]
fn resolved_backend_is_in_supported_tiers() {
    assert!(butterfly_fft_tiers().contains(&backend()));
    assert!(Gf8B::butterfly_tiers().contains(&backend_for::<Gf8B>()));
    assert!(Gf16::butterfly_tiers().contains(&backend_for::<Gf16>()));
    // Wider fields have no butterfly kernels: always the portable ones.
    assert_eq!(backend_for::<Gf32>(), Backend::Scalar);
    assert_eq!(backend_for::<FanPaar64>(), Backend::Scalar);
}

#[test]
fn narrowing_keeps_what_the_field_has() {
    assert_eq!(narrowed::<Gf16>(Backend::V3, Target::X86), Backend::V3);
    assert_eq!(narrowed::<Gf8B>(Backend::Neon, Target::Aarch64), Backend::Neon);
    assert_eq!(narrowed::<Gf8B>(Backend::Neon, Target::X86), Backend::Scalar);
    assert_eq!(narrowed::<Gf8B>(Backend::V3, Target::Other), Backend::Scalar);
    assert_eq!(narrowed::<Gf32>(Backend::V3, Target::X86), Backend::Scalar);
    assert_eq!(Gf32::butterfly_tiers(), vec![Backend::Scalar]);
}

/// Tables, words and bit-serial rounds all give the field product.
#[test]
fn prepared_products_match_the_field() {
    for c in [0x00u8, 0x01, 0x02, 0x1b, 0x53, 0xff] {
        let table = ScaleTable::new(c);
        for x in 0..=255u8 {
            let product = field::times::<Gf8B>(x, c);
            assert_eq!(table.multiply(x), product);
            assert_eq!(multiply_base(x, c), product);
        }
    }
    assert_eq!(multiply_base(0x53, 0xca), 0x01);
    for c in [0x0000u16, 0x0001, 0x0100, 0x0108, 0x9b37, 0xffff] {
        let tables = FactorTables::new(c);
        let words = FactorWords::new(c);
        for x in (0..=0xffffu16).step_by(257) {
            let product = field::times::<Gf16>(x, c);
            assert_eq!(tables.multiply(x), product);
            assert_eq!(words.multiply(x), product);
        }
    }
}

#[test]
fn tiers_are_those_of_the_target() {
    assert_eq!(
        tiers_for(true, Target::X86),
        vec![Backend::V3GfniCrypto, Backend::V3, Backend::V2, Backend::Scalar]
    );
    assert_eq!(
        tiers_for(true, Target::Aarch64),
        vec![Backend::NeonAes, Backend::Neon, Backend::Scalar]
    );
    assert_eq!(tiers_for(true, Target::Other), vec![Backend::Scalar]);
    assert_eq!(tiers_for(false, Target::X86), vec![Backend::Scalar]);
    assert_eq!(target_of(None, Some(false)), Target::X86);
    assert_eq!(target_of(Some(true), Some(false)), Target::X86);
    assert_eq!(target_of(Some(false), Some(true)), Target::Aarch64);
    assert_eq!(target_of(Some(false), Some(false)), Target::Other);
    // No list names backends of two architectures.
    let tiers = butterfly_fft_tiers();
    assert!(!(tiers.contains(&Backend::V2) && tiers.contains(&Backend::Neon)));
    assert_eq!(Gf8B::butterfly_tiers(), tiers);
    assert_eq!(Gf16::butterfly_tiers(), tiers);
}

#[test]
fn backends_have_their_names() {
    assert_eq!(Backend::V3GfniCrypto.name(), "v3_gfni_crypto");
    assert_eq!(Backend::V3.name(), "v3");
    assert_eq!(Backend::V2.name(), "v2");
    assert_eq!(Backend::NeonAes.name(), "neon_aes");
    assert_eq!(Backend::Neon.name(), "neon");
    assert_eq!(Backend::Scalar.name(), "scalar");
    let names: Vec<String> = butterfly_fft_tiers().into_iter().map(Backend::name).collect();
    assert!(names.contains(&backend().name()));
}

/// Every backend gives the butterfly of the one that was resolved.
#[test]
fn fused_butterflies_agree_on_every_backend() {
    let backends = [
        Backend::V3GfniCrypto,
        Backend::V3,
        Backend::V2,
        Backend::NeonAes,
        Backend::Neon,
        Backend::Scalar,
    ];
    for coefficient in [0x0000u16, 0x0001, 0x0108, 0xbeef] {
        let (mut low, mut high) = (pattern(0x11, 34), pattern(0x97, 34));
        fused_forward::<Gf16>(&mut low, &mut high, coefficient);
        for tier in backends {
            let (mut a, mut b) = (pattern(0x11, 34), pattern(0x97, 34));
            fused_forward_backend::<Gf16>(tier, &mut a, &mut b, coefficient);
            assert_eq!((&a, &b), (&low, &high));
            fused_inverse_backend::<Gf16>(tier, &mut a, &mut b, coefficient);
            assert_eq!((a, b), (pattern(0x11, 34), pattern(0x97, 34)));
        }
    }
}
