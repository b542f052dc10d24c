//! Fields, dense inverses, payload shapes and error messages.

use butterfly_fft::field::{
    self, BinaryField, FanPaar16, FanPaar32, FanPaar64, FanPaar8, Gf16, Gf32, Gf64, Gf8B, Gf8D,
};
use butterfly_fft::payload::{FastEccNttBuffer, LeopardBuffer, NanorsBuffer};
use butterfly_fft::rs::{inverse_scratch_elements, invert_square_into};
use butterfly_fft::{NttError, PlanError, TransformError};

#[test]
fn inverse_times_matrix_is_the_identity() {
    let mut state = 0x9e37_79b9u32;
    for size in 1..=6usize {
        let mut matrix = vec![0u16; size * size];
        loop {
            for entry in &mut matrix {
                state = state.wrapping_mul(1_664_525).wrapping_add(1_013_904_223);
                let bytes = state.to_le_bytes();
                *entry = u16::from_le_bytes([bytes[1], bytes[2]]);
            }
            let mut augmented = vec![0u16; inverse_scratch_elements(size)];
            let mut inverse = vec![0u16; size * size];
            if !invert_square_into::<Gf16>(&matrix, size, &mut augmented, &mut inverse) {
                continue;
            }
            for row in 0..size {
                for column in 0..size {
                    let entry = (0..size).fold(0u16, |accumulator, index| {
                        accumulator
                            ^ field::times::<Gf16>(
                                matrix[row * size + index],
                                inverse[index * size + column],
                            )
                    });
                    let expected = if row == column { 1 } else { 0 };
                    assert_eq!(entry, expected, "size {size} at ({row},{column})");
                }
            }
            break;
        }
    }
}

#[test]
fn detects_singular_systems() {
    let size = 3;
    // Third row is the sum of the first two.
    let matrix = [1u16, 2, 3, 4, 8, 12, 5, 10, 15];
    let mut augmented = vec![0u16; inverse_scratch_elements(size)];
    let mut inverse = vec![1u16; size * size];
    assert!(!invert_square_into::<Gf16>(&matrix, size, &mut augmented, &mut inverse));
    assert_eq!(inverse, vec![1u16; size * size]);
    // The zero matrix is singular too.
    let zero = vec![0u16; size * size];
    assert!(!invert_square_into::<Gf16>(&zero, size, &mut augmented, &mut inverse));
    assert_eq!(inverse, vec![1u16; size * size]);
}

#[test]
fn small_inverses_have_exact_values() {
    let mut augmented = vec![0u8; inverse_scratch_elements(2)];
    let mut inverse = vec![0u8; 4];
    assert!(invert_square_into::<Gf8B>(&[0, 1, 1, 0], 2, &mut augmented, &mut inverse));
    assert_eq!(inverse, vec![0, 1, 1, 0]);
    assert!(invert_square_into::<Gf8B>(&[0x53], 1, &mut augmented, &mut inverse[..1]));
    assert_eq!(inverse[0], 0xca);
    assert!(invert_square_into::<Gf8B>(&[], 0, &mut augmented, &mut []));
}

/// Products and inverses of every field on values worked out by hand.
#[test]
fn field_arithmetic_has_exact_values() {
    assert_eq!(field::times::<Gf8B>(0x53, 0xca), 0x01);
    assert_eq!(field::times::<Gf8B>(0x80, 0x02), 0x1b);
    assert_eq!(field::inverse::<Gf8B>(0x53), 0xca);
    assert_eq!(field::times::<Gf8D>(0x80, 0x02), 0x1d);
    // In the quadratic tower, the root squares to itself plus a constant.
    assert_eq!(field::times::<Gf16>(0x0100, 0x0100), 0x0120);
    assert_eq!(field::times::<Gf32>(0x0001_0000, 0x0001_0000), 0x0001_2000);
    assert_eq!(
        field::times::<Gf64>(0x1_0000_0000, 0x1_0000_0000),
        0x1_2000_0000
    );
    // In the canonical tower, `r^2 = t r + 1` for the root `t` below.
    assert_eq!(field::times::<FanPaar8>(0x10, 0x10), 0x41);
    assert_eq!(field::times::<FanPaar16>(0x0100, 0x0100), 0x1001);
    assert_eq!(field::times::<FanPaar32>(0x0001_0000, 0x0001_0000), 0x0100_0001);
    assert_eq!(
        field::times::<FanPaar64>(0x1_0000_0000, 0x1_0000_0000),
        0x0001_0000_0000_0001
    );
}

#[test]
fn inverses_multiply_to_one_in_every_field() {
    fn check<F: BinaryField>() {
        let mut state = 0x0123_4567_89ab_cdefu64;
        let mask = if F::bytes() == 8 { u64::MAX } else { (1u64 << (8 * F::bytes())) - 1 };
        for _ in 0..64 {
            state ^= state << 13;
            state ^= state >> 7;
            state ^= state << 17;
            let a = F::from_bits(state & mask);
            if field::is_zero::<F>(a) {
                continue;
            }
            let b = field::inverse::<F>(a);
            assert!(field::is_one::<F>(field::times::<F>(a, b)));
        }
        assert!(field::is_zero::<F>(field::inverse::<F>(field::zero::<F>())));
    }
    check::<Gf8B>();
    check::<Gf8D>();
    check::<Gf16>();
    check::<Gf32>();
    check::<Gf64>();
    check::<FanPaar8>();
    check::<FanPaar16>();
    check::<FanPaar32>();
    check::<FanPaar64>();
}

#[test]
fn payloads_keep_their_shape() {
    let bytes: Vec<u8> = (0..64u8).collect();
    let buffer = NanorsBuffer::new(bytes.clone(), 8);
    assert_eq!(buffer.as_bytes(), &bytes[..]);
    assert_eq!(buffer.points(), 8);
    assert_eq!(buffer.row_len(), 8);
    assert_eq!(buffer.into_bytes(), bytes);
    let rows = LeopardBuffer::new(vec![7u8; 32 * 64], 32);
    assert_eq!(rows.as_bytes(), &[7u8; 32 * 64][..]);
    assert_eq!((rows.points(), rows.row_len()), (32, 64));
    assert_eq!(rows.into_bytes().len(), 32 * 64);
    let shape = FastEccNttBuffer::shaped(64, 2);
    assert_eq!(shape.points(), 64);
    assert_eq!(shape.lanes(), 2);
}

#[test]
fn messages_have_exact_texts() {
    assert_eq!(
        TransformError::BufferLength { expected: 8, got: 4 }.message(),
        "wrong transform length: expected 8, got 4"
    );
    assert_eq!(
        TransformError::ScratchTooSmall { required: 10, available: 9 }.message(),
        "scratch too small: need 10, have 9"
    );
    assert_eq!(
        TransformError::InvalidRowLength { row_len: 3, element_bytes: 2 }.message(),
        "row length 3 is zero or not a whole number of 2-byte elements"
    );
    assert_eq!(TransformError::GeometryOverflow.message(), "transform geometry overflowed");
    assert_eq!(
        TransformError::InvalidSelection.message(),
        "selected rows must be in range, sorted, and unique"
    );
    assert_eq!(
        TransformError::InvalidRange { start: 1, end: 20, size: 16 }.message(),
        "range 1..20 is invalid for 16 rows"
    );
    assert_eq!(
        TransformError::InvalidActivePrefix { active: 17, size: 16 }.message(),
        "active prefix 17 is invalid for 16 rows"
    );
    assert_eq!(
        TransformError::UnsupportedPlanSize { size: 2, minimum: 4 }.message(),
        "plan size 2 is unsupported: need at least 4"
    );

    assert_eq!(
        PlanError::InvalidSize { size: 0 }.message(),
        "invalid transform size 0: not a power of two"
    );
    assert_eq!(
        PlanError::DomainTooLarge { log_size: 9, cap: 8 }.message(),
        "transform log size 9 exceeds domain cap 8"
    );
    assert_eq!(
        PlanError::BasisTooShort { needed: 4, got: 2 }.message(),
        "basis too short: need 4 elements, got 2"
    );
    assert_eq!(
        PlanError::DependentBasis.message(),
        "basis elements are linearly dependent over GF(2)"
    );
    assert_eq!(
        PlanError::NoCantorBasis { dimension: 3 }.message(),
        "no Cantor basis for this field: chain broke at v_3"
    );

    assert_eq!(
        NttError::UnsupportedSize { size: 4, field_order: 1 << 64 }.message(),
        "transform size 4 is unsupported: it exceeds the table-size cap, or the field of order \
         18446744073709551616 has no primitive root of unity of that order"
    );
    assert_eq!(
        NttError::AllocationFailed.message(),
        "transform table allocation failed"
    );
    assert_eq!(
        NttError::BufferLength { expected: 64, actual: 48 }.message(),
        "wrong row buffer length: expected 64 bytes, got 48"
    );
    assert_eq!(
        NttError::ScratchFieldMismatch { scratch_element_bytes: 4, field_element_bytes: 8 }
            .message(),
        "scratch was built for 4-byte elements, but this plan transforms 8-byte elements"
    );
    assert_eq!(
        NttError::ScratchTooSmall { required: 16, available: 8 }.message(),
        "scratch too small: need 16 row bytes, have 8"
    );
    assert_eq!(
        NttError::ScratchBatchTooSmall { required: 16, available: 8 }.message(),
        "scratch batch too small: need 16 bytes, have 8"
    );
    assert_eq!(
        NttError::ScratchTransposeTooSmall { required: 4, available: 1 }.message(),
        "scratch transpose too small: need 4 bytes, have 1"
    );
}
