//! Additive transforms: evaluation, inversion, derivatives, restricted and
//! truncated variants, cosets and vanishing polynomials.

use std::fmt::Debug;
use std::sync::Arc;

use butterfly_fft::basis::{monomial_to_novel, novel_to_monomial, CantorBasis};
use butterfly_fft::field::{self, BinaryField, Gf16, Gf8B, Gf8D};
use butterfly_fft::kernel::{xor_scaled_bytes, ButterflyKernels};
use butterfly_fft::transform::factors::{subspace_polynomials, NormalizedSubspacePolynomial};
use butterfly_fft::transform::plan::{
    DERIVATIVE_GATHER_ROW_MIN, DERIVATIVE_OVERWRITE_ROW_MIN, MAX_LOG_SIZE,
};
use butterfly_fft::transform::PlanCache;
use butterfly_fft::{PlanError, TransformError, TransformPlan};

fn lcg(state: &mut u32) -> u32 {
    *state = state.wrapping_mul(1_664_525).wrapping_add(1_013_904_223);
    *state
}

fn decode<F: ButterflyKernels>(bytes: &[u8]) -> F::Elem {
    let mut wide = [0u8; 8];
    wide[..bytes.len()].copy_from_slice(bytes);
    F::from_bits(u64::from_le_bytes(wide))
}

fn encode<F: ButterflyKernels>(bytes: &mut [u8], value: F::Elem) {
    let width = F::bytes();
    bytes.copy_from_slice(&F::to_bits(value).to_le_bytes()[..width]);
}

fn random_elements<F: ButterflyKernels>(state: &mut u32, count: usize) -> Vec<F::Elem> {
    (0..count)
        .map(|_| {
            let mut bytes = [0u8; 8];
            for byte in &mut bytes[..F::bytes()] {
                *byte = lcg(state).to_le_bytes()[1];
            }
            decode::<F>(&bytes[..F::bytes()])
        })
        .collect()
}

/// The first `count` elements of the bit basis.
fn bit_basis<F: ButterflyKernels>(count: usize) -> Vec<F::Elem> {
    (0..count).map(|bit| F::from_bits(1u64 << bit)).collect()
}

fn plan_of<F: ButterflyKernels>(size: usize) -> TransformPlan<F> {
    TransformPlan::<F>::new(size).ok().expect("supported size")
}

fn cantor<F: ButterflyKernels>() -> CantorBasis<F> {
    CantorBasis::<F>::build().ok().expect("the field has a Cantor basis")
}

/// Naive novel-basis evaluation: the sum of `a_j X_j(x)`, where `X_j` is the
/// product of the normalized subspace polynomials at the set bits of `j`.
fn direct_evaluate<F: ButterflyKernels>(
    polynomials: &[NormalizedSubspacePolynomial<F>],
    coefficients: &[F::Elem],
    point: F::Elem,
) -> F::Elem {
    let normalized: Vec<F::Elem> =
        polynomials.iter().map(|polynomial| polynomial.evaluate(point)).collect();
    let mut result = field::zero::<F>();
    for (index, &coefficient) in coefficients.iter().enumerate() {
        let mut basis_value = field::one::<F>();
        for (bit, &value) in normalized.iter().enumerate() {
            if index & (1 << bit) != 0 {
                basis_value = field::times::<F>(basis_value, value);
            }
        }
        result = field::plus::<F>(result, field::times::<F>(coefficient, basis_value));
    }
    result
}

#[test]
fn transform_validates_sizes_and_lengths() {
    fn check<F: ButterflyKernels>(max_log: u32) {
        assert_eq!(
            TransformPlan::<F>::new(0).err().unwrap(),
            PlanError::InvalidSize { size: 0 }
        );
        assert_eq!(
            TransformPlan::<F>::new(3).err().unwrap(),
            PlanError::InvalidSize { size: 3 }
        );
        assert!(TransformPlan::<F>::new(1 << max_log).is_ok());
        let cap = (8 * F::bytes()).min(MAX_LOG_SIZE);
        assert_eq!(
            TransformPlan::<F>::new(1 << (cap + 1)).err().unwrap(),
            PlanError::DomainTooLarge { log_size: cap + 1, cap }
        );
        let plan = plan_of::<F>(8);
        let mut short = random_elements::<F>(&mut 7, 4);
        assert_eq!(
            plan.forward(&mut short),
            Err(TransformError::BufferLength { expected: 8, got: 4 })
        );
    }
    check::<Gf8B>(8);
    check::<Gf16>(16);
}

#[test]
fn transform_transform_matches_direct_novel_basis_evaluation() {
    fn check<F: ButterflyKernels>(state: &mut u32)
    where
        F::Elem: PartialEq + Debug,
    {
        for log_size in 0..=5usize {
            let size = 1 << log_size;
            let coefficients = random_elements::<F>(state, size);
            let basis = bit_basis::<F>(log_size);
            let polynomials = subspace_polynomials::<F>(&basis).unwrap();
            let expected: Vec<F::Elem> = (0..size)
                .map(|point| {
                    direct_evaluate::<F>(&polynomials, &coefficients, F::from_bits(point as u64))
                })
                .collect();
            let mut actual = coefficients;
            plan_of::<F>(size).forward(&mut actual).unwrap();
            assert_eq!(actual, expected, "forward diverged at size {size}");
        }
    }
    check::<Gf8B>(&mut 0x1234_5678);
    check::<Gf16>(&mut 0x9abc_def0);
}

#[test]
fn transform_forward_inverse_roundtrips() {
    fn check<F: ButterflyKernels>(state: &mut u32, max_log: usize)
    where
        F::Elem: PartialEq + Debug,
    {
        for log_size in 0..=max_log {
            let size = 1 << log_size;
            let plan = plan_of::<F>(size);
            let mut values = random_elements::<F>(state, size);
            let expected = values.clone();
            plan.forward(&mut values).unwrap();
            plan.inverse(&mut values).unwrap();
            assert_eq!(values, expected, "roundtrip failed at size {size}");
        }
    }
    check::<Gf8B>(&mut 11, 8);
    check::<Gf16>(&mut 13, 10);
}

/// The byte-domain transform must match the element-domain transform lane by
/// lane.
#[test]
fn transform_bytes_match_element_domain_per_lane() {
    fn check<F: ButterflyKernels>(state: &mut u32) {
        const LANES: usize = 3;
        let width = F::bytes();
        let row_len = LANES * width;
        for log_size in 1..=6usize {
            let size = 1 << log_size;
            let plan = plan_of::<F>(size);
            let lanes: Vec<Vec<F::Elem>> =
                (0..LANES).map(|_| random_elements::<F>(state, size)).collect();
            let mut rows = vec![0u8; size * row_len];
            for (lane, elements) in lanes.iter().enumerate() {
                for (row, &element) in elements.iter().enumerate() {
                    let start = row * row_len + lane * width;
                    encode::<F>(&mut rows[start..start + width], element);
                }
            }
            let original = rows.clone();
            plan.forward_bytes(&mut rows, row_len).unwrap();
            for (lane, elements) in lanes.iter().enumerate() {
                let mut expected = elements.clone();
                plan.forward(&mut expected).unwrap();
                for (row, &element) in expected.iter().enumerate() {
                    let start = row * row_len + lane * width;
                    let mut packed = [0u8; 8];
                    encode::<F>(&mut packed[..width], element);
                    assert_eq!(
                        &rows[start..start + width],
                        &packed[..width],
                        "lane {lane} row {row} diverged at size {size}"
                    );
                }
            }
            plan.inverse_bytes(&mut rows, row_len).unwrap();
            assert_eq!(rows, original, "byte roundtrip failed at size {size}");
        }
    }
    check::<Gf8B>(&mut 17);
    check::<Gf16>(&mut 19);
}

#[test]
fn transform_derivative_matches_unit_basis_formula() {
    fn check<F: ButterflyKernels>(state: &mut u32)
    where
        F::Elem: PartialEq + Debug,
    {
        for log_size in 1..=5usize {
            let size = 1 << log_size;
            let plan = plan_of::<F>(size);
            let basis_index = (lcg(state) as usize % (size - 1)) + 1;
            let mut coefficients = vec![field::zero::<F>(); size];
            coefficients[basis_index] = random_elements::<F>(state, 1)[0];
            let mut expected = vec![field::zero::<F>(); size];
            let mut remaining = basis_index;
            while remaining != 0 {
                let bit = remaining.trailing_zeros() as usize;
                let at = basis_index ^ (1 << bit);
                let factor = plan.table().derivative_factors()[bit];
                expected[at] = field::plus::<F>(
                    expected[at],
                    field::times::<F>(factor, coefficients[basis_index]),
                );
                remaining &= remaining - 1;
            }
            let mut derivative = vec![field::zero::<F>(); size];
            plan.derivative_into(&mut derivative, &coefficients).unwrap();
            assert_eq!(derivative, expected, "derivative diverged at size {size}");
        }
    }
    check::<Gf8B>(&mut 23);
    check::<Gf16>(&mut 29);
}

/// A constant polynomial has zero derivative.
#[test]
fn transform_derivative_annihilates_constants() {
    fn check<F: ButterflyKernels>() {
        let plan = plan_of::<F>(16);
        let mut coefficients = vec![field::zero::<F>(); 16];
        coefficients[0] = field::one::<F>();
        let mut derivative = vec![field::one::<F>(); 16];
        plan.derivative_into(&mut derivative, &coefficients).unwrap();
        assert!(derivative.iter().all(|&element| field::is_zero::<F>(element)));
    }
    check::<Gf8B>();
    check::<Gf16>();
}

#[test]
fn transform_derivative_bytes_match_element_domain() {
    fn check<F: ButterflyKernels>(state: &mut u32) {
        let size = 16;
        let width = F::bytes();
        let plan = plan_of::<F>(size);
        let coefficients = random_elements::<F>(state, size);
        let row_len = 2 * width;
        let mut coefficient_rows = vec![0u8; size * row_len];
        for (row, &element) in coefficients.iter().enumerate() {
            encode::<F>(&mut coefficient_rows[row * row_len..row * row_len + width], element);
        }
        let mut derivative_rows = vec![0u8; size * row_len];
        plan.derivative_into_bytes(&mut derivative_rows, row_len, &coefficient_rows)
            .unwrap();
        let mut expected = vec![field::zero::<F>(); size];
        plan.derivative_into(&mut expected, &coefficients).unwrap();
        for (row, &element) in expected.iter().enumerate() {
            let mut packed = [0u8; 8];
            encode::<F>(&mut packed[..width], element);
            assert_eq!(
                &derivative_rows[row * row_len..row * row_len + width],
                &packed[..width],
                "byte derivative row {row} diverged"
            );
        }
    }
    check::<Gf8B>(&mut 31);
    check::<Gf16>(&mut 37);
}

#[test]
fn byte_derivative_paths_match_monomial_differentiation() {
    fn check<F: ButterflyKernels>(state: &mut u32, row_len: usize)
    where
        F::Elem: PartialEq + Debug,
    {
        let size = 8;
        let width = F::bytes();
        let plan = plan_of::<F>(size);
        let coefficients = random_elements::<F>(state, size);

        let mut monomial = coefficients.clone();
        novel_to_monomial::<F>(&mut monomial, &plan).unwrap();
        let mut expected = vec![field::zero::<F>(); size];
        for degree in (1..size).step_by(2) {
            expected[degree - 1] = monomial[degree];
        }
        monomial_to_novel::<F>(&mut expected, &plan).unwrap();

        let mut coefficient_rows = vec![0u8; size * row_len];
        for (row, &coefficient) in coefficient_rows.chunks_exact_mut(row_len).zip(&coefficients) {
            for element in row.chunks_mut(width) {
                encode::<F>(element, coefficient);
            }
        }

        let mut derivative_rows = vec![0xA5; coefficient_rows.len()];
        plan.derivative_into_bytes(&mut derivative_rows, row_len, &coefficient_rows)
            .unwrap();
        let mut augmented_rows = coefficient_rows.clone();
        plan.derivative_plus_identity_bytes(&mut augmented_rows, row_len).unwrap();

        for row in 0..size {
            let expected_derivative = expected[row];
            let expected_augmented = field::plus::<F>(coefficients[row], expected_derivative);
            for element in derivative_rows[row * row_len..][..row_len].chunks(width) {
                assert_eq!(decode::<F>(element), expected_derivative);
            }
            for element in augmented_rows[row * row_len..][..row_len].chunks(width) {
                assert_eq!(decode::<F>(element), expected_augmented);
            }
        }
    }

    check::<Gf8B>(&mut 101, DERIVATIVE_OVERWRITE_ROW_MIN);
    check::<Gf16>(&mut 103, DERIVATIVE_OVERWRITE_ROW_MIN);
    check::<Gf16>(&mut 107, DERIVATIVE_GATHER_ROW_MIN);
}

/// The byte-derivative sweep must match the straightforward
/// one-direction-at-a-time schedule, over both the default basis and the Cantor
/// basis.
#[test]
fn derivative_bytes_sweep_matches_per_direction_schedule() {
    fn reference<F: ButterflyKernels>(
        plan: &TransformPlan<F>,
        coefficients: &[u8],
        row_len: usize,
        derivative: &mut [u8],
    ) {
        derivative.fill(0);
        for (bit, &factor) in plan.table().derivative_factors().iter().enumerate() {
            let half_len = (1 << bit) * row_len;
            let block_len = half_len * 2;
            for (source_block, destination_block) in coefficients
                .chunks_exact(block_len)
                .zip(derivative.chunks_exact_mut(block_len))
            {
                xor_scaled_bytes::<F>(
                    &mut destination_block[..half_len],
                    factor,
                    &source_block[half_len..],
                );
            }
        }
    }
    fn check_plan<F: ButterflyKernels>(
        state: &mut u32,
        label: &str,
        plan_for: impl Fn(usize) -> TransformPlan<F>,
    ) {
        for log_size in 0..=usize::min(9, 8 * F::bytes()) {
            let size = 1 << log_size;
            let plan = plan_for(size);
            for lane_count in [1usize, 3, 7] {
                let row_len = lane_count * F::bytes();
                let coefficients: Vec<u8> =
                    (0..size * row_len).map(|_| lcg(state).to_le_bytes()[1]).collect();
                for preset in [0xA5u8, 0x00] {
                    let mut actual = vec![preset; size * row_len];
                    plan.derivative_into_bytes(&mut actual, row_len, &coefficients).unwrap();
                    let mut expected = vec![preset; size * row_len];
                    reference(&plan, &coefficients, row_len, &mut expected);
                    assert_eq!(
                        actual, expected,
                        "{label} derivative diverged at log {log_size} lanes {lane_count}"
                    );

                    let mut augmented = coefficients.clone();
                    plan.derivative_plus_identity_bytes(&mut augmented, row_len).unwrap();
                    let expected_augmented: Vec<u8> = coefficients
                        .iter()
                        .zip(&expected)
                        .map(|(&coefficient, &derivative)| coefficient ^ derivative)
                        .collect();
                    assert_eq!(
                        augmented, expected_augmented,
                        "{label} augmented derivative diverged at log {log_size}"
                    );
                }
            }
        }
    }
    fn check<F: ButterflyKernels>(state: &mut u32) {
        check_plan(state, "bit", plan_of::<F>);
        let basis = cantor::<F>();
        check_plan(state, "cantor", |size: usize| {
            let log = size.ilog2() as usize;
            TransformPlan::<F>::with_basis(size, &basis.elements()[..log]).ok().unwrap()
        });
    }
    check::<Gf8B>(&mut 41);
    check::<Gf16>(&mut 43);
}

#[test]
fn derivative_production_crossovers_match_cantor_oracle() {
    fn check<F: ButterflyKernels>() {
        let size = 8usize;
        let basis = cantor::<F>();
        let plan = TransformPlan::<F>::with_basis(size, &basis.elements()[..3]).ok().unwrap();
        for row_len in [DERIVATIVE_OVERWRITE_ROW_MIN, DERIVATIVE_GATHER_ROW_MIN] {
            let coefficients: Vec<u8> = (0..size * row_len)
                .map(|index| index.to_le_bytes()[0].wrapping_mul(73).wrapping_add(19))
                .collect();
            let mut expected = vec![0u8; coefficients.len()];
            for source in 1..size {
                let mut bits = source;
                while bits != 0 {
                    let bit = bits.trailing_zeros() as usize;
                    let destination = source ^ (1 << bit);
                    let source_start = source * row_len;
                    let destination_start = destination * row_len;
                    for offset in 0..row_len {
                        expected[destination_start + offset] ^= coefficients[source_start + offset];
                    }
                    bits &= bits - 1;
                }
            }

            let mut actual = vec![0xA5; coefficients.len()];
            plan.derivative_into_bytes(&mut actual, row_len, &coefficients).unwrap();
            assert_eq!(actual, expected, "row length {row_len}");
        }
    }

    check::<Gf8B>();
    check::<Gf16>();
}

#[test]
fn transform_with_basis_constructs_and_roundtrips() {
    fn check<F: ButterflyKernels>(state: &mut u32)
    where
        F::Elem: PartialEq + Debug,
    {
        // Reversed independent prefix: different domain ordering, still a valid
        // transform.
        let mut basis = bit_basis::<F>(4);
        basis.reverse();
        let plan = TransformPlan::<F>::with_basis(16, &basis).ok().unwrap();
        let mut values = random_elements::<F>(state, 16);
        let expected = values.clone();
        plan.forward(&mut values).unwrap();
        plan.inverse(&mut values).unwrap();
        assert_eq!(values, expected);
        // Point 2^j is the basis element itself.
        for (j, &element) in basis.iter().enumerate() {
            assert_eq!(plan.point_element(1 << j), element);
        }
        // Dependent and short bases are rejected.
        let dependent = [basis[0], basis[0]];
        assert_eq!(
            TransformPlan::<F>::with_basis(4, &dependent).err().unwrap(),
            PlanError::DependentBasis
        );
        assert_eq!(
            TransformPlan::<F>::with_basis(16, &basis[..2]).err().unwrap(),
            PlanError::BasisTooShort { needed: 4, got: 2 }
        );
    }
    check::<Gf8B>(&mut 41);
    check::<Gf8D>(&mut 43);
    check::<Gf16>(&mut 43);
}

#[test]
fn transform_point_element_matches_bit_pattern() {
    fn check<F: ButterflyKernels>()
    where
        F::Elem: PartialEq + Debug,
    {
        let plan = plan_of::<F>(32);
        for index in 0..32 {
            assert_eq!(plan.point_element(index), F::from_bits(index as u64));
        }
    }
    check::<Gf8B>();
    check::<Gf16>();
}

#[test]
fn transform_shared_plans_are_actually_shared() {
    fn check<F: ButterflyKernels>() {
        let mut cache = PlanCache::<F>::new();
        let a = cache.shared(64).ok().unwrap();
        let b = cache.shared(64).ok().unwrap();
        assert!(Arc::ptr_eq(&a, &b));
    }
    check::<Gf8B>();
    check::<Gf8D>();
    check::<Gf16>();
}

fn pack_elements<F: ButterflyKernels>(elements: &[F::Elem]) -> Vec<u8> {
    let width = F::bytes();
    let mut rows = vec![0u8; elements.len() * width];
    for (row, &element) in elements.iter().enumerate() {
        encode::<F>(&mut rows[row * width..(row + 1) * width], element);
    }
    rows
}

fn unpack_row<F: ButterflyKernels>(rows: &[u8], index: usize) -> F::Elem {
    let width = F::bytes();
    decode::<F>(&rows[index * width..(index + 1) * width])
}

#[test]
fn transform_forward_selected_matches_full() {
    fn check<F: ButterflyKernels>(state: &mut u32)
    where
        F::Elem: PartialEq + Debug,
    {
        for log_size in 1..=6usize {
            let size = 1 << log_size;
            let plan = plan_of::<F>(size);
            let coefficients = random_elements::<F>(state, size);
            let mut reference = coefficients.clone();
            plan.forward(&mut reference).unwrap();
            let mut subsets: Vec<Vec<usize>> = vec![
                vec![],
                vec![0],
                vec![size - 1],
                (0..size).step_by(3).collect(),
                (0..size).collect(),
            ];
            if size >= 4 {
                subsets.push(vec![1, size / 2, size - 1]);
            }
            for selected in &subsets {
                let mut rows = pack_elements::<F>(&coefficients);
                plan.forward_bytes_selected(&mut rows, F::bytes(), selected).unwrap();
                for &index in selected {
                    assert_eq!(
                        unpack_row::<F>(&rows, index),
                        reference[index],
                        "selected row {index} diverged at size {size}"
                    );
                }
            }
        }
    }
    check::<Gf8B>(&mut 47);
    check::<Gf16>(&mut 53);
}

#[test]
fn transform_forward_range_matches_full() {
    fn check<F: ButterflyKernels>(state: &mut u32)
    where
        F::Elem: PartialEq + Debug,
    {
        for log_size in 1..=6usize {
            let size = 1 << log_size;
            let plan = plan_of::<F>(size);
            let coefficients = random_elements::<F>(state, size);
            let mut reference = coefficients.clone();
            plan.forward(&mut reference).unwrap();
            let ranges = [0..size, 0..1, size - 1..size, size / 4..size / 2, size / 2..size];
            for range in ranges {
                let mut rows = pack_elements::<F>(&coefficients);
                plan.forward_bytes_range(&mut rows, F::bytes(), range.clone()).unwrap();
                for index in range {
                    assert_eq!(
                        unpack_row::<F>(&rows, index),
                        reference[index],
                        "range row {index} diverged at size {size}"
                    );
                }
            }
        }
    }
    check::<Gf8B>(&mut 59);
    check::<Gf16>(&mut 61);
}

#[test]
fn transform_trunc_range_matches_padded_full() {
    fn check<F: ButterflyKernels>(state: &mut u32)
    where
        F::Elem: PartialEq + Debug,
    {
        for log_size in 2..=6usize {
            let size = 1usize << log_size;
            let half = size / 2;
            let plan = plan_of::<F>(size);
            for active in [1, 3, half - 1, half, half + 1, size - 1, size] {
                let mut coefficients = random_elements::<F>(state, active);
                coefficients.resize(size, field::zero::<F>());
                let mut reference = coefficients.clone();
                plan.forward(&mut reference).unwrap();
                let ranges = [0..size, 0..active.min(size), half..size];
                for range in ranges {
                    let mut rows = pack_elements::<F>(&coefficients);
                    plan.forward_bytes_truncated_range(
                        &mut rows,
                        F::bytes(),
                        active,
                        range.clone(),
                    )
                    .unwrap();
                    for index in range {
                        assert_eq!(
                            unpack_row::<F>(&rows, index),
                            reference[index],
                            "trunc row {index} diverged at size {size} active {active}"
                        );
                    }
                }
            }
        }
    }
    check::<Gf8B>(&mut 67);
    check::<Gf16>(&mut 71);
}

#[test]
fn transform_high_coset_matches_padded_full() {
    fn check<F: ButterflyKernels>(state: &mut u32)
    where
        F::Elem: PartialEq + Debug,
    {
        for log_size in 2..=7usize {
            let size = 1 << log_size;
            let half = size / 2;
            let plan = plan_of::<F>(size);
            let mut coefficients = random_elements::<F>(state, half);
            coefficients.resize(size, field::zero::<F>());
            // High-coset input: the original half-length coefficients.
            let mut rows = pack_elements::<F>(&coefficients[..half]);
            let mut reference = coefficients;
            plan.forward(&mut reference).unwrap();
            plan.forward_bytes_high_coset_range(&mut rows, F::bytes(), 0..half).unwrap();
            for index in 0..half {
                assert_eq!(
                    unpack_row::<F>(&rows, index),
                    reference[half + index],
                    "high-coset row {index} diverged at size {size}"
                );
            }
        }
        // Sizes below 4 are rejected.
        let mut one_row = vec![0u8; F::bytes()];
        assert_eq!(
            plan_of::<F>(2).forward_bytes_high_coset_range(&mut one_row, F::bytes(), 0..1),
            Err(TransformError::UnsupportedPlanSize { size: 2, minimum: 4 })
        );
    }
    check::<Gf8B>(&mut 73);
    check::<Gf16>(&mut 79);
}

#[test]
fn transform_inverse_truncated_recovers_active_prefix() {
    fn check<F: ButterflyKernels>(state: &mut u32)
    where
        F::Elem: PartialEq + Debug,
    {
        let width = F::bytes();
        for log_size in 1..=7usize {
            let size = 1usize << log_size;
            let half = size / 2;
            let plan = plan_of::<F>(size);
            for active in [1, half.max(1), (half + 1).min(size), size] {
                let mut coefficients = random_elements::<F>(state, active);
                coefficients.resize(size, field::zero::<F>());
                let mut evaluations = coefficients.clone();
                plan.forward(&mut evaluations).unwrap();
                let mut rows = pack_elements::<F>(&evaluations);
                let scratch_rows = plan.inverse_bytes_truncated_scratch_rows(active).unwrap();
                let mut scratch = vec![0u8; scratch_rows * width];
                plan.inverse_bytes_truncated_scratch(&mut rows, width, active, &mut scratch)
                    .unwrap();
                for (index, &coefficient) in coefficients.iter().enumerate().take(active) {
                    assert_eq!(
                        unpack_row::<F>(&rows, index),
                        coefficient,
                        "truncated inverse row {index} diverged at size {size} active {active}"
                    );
                }
                // Undersized scratch is reported.
                if scratch_rows > 0 {
                    let mut short_scratch = vec![0u8; (scratch_rows - 1) * width];
                    let mut rows = pack_elements::<F>(&evaluations);
                    assert_eq!(
                        plan.inverse_bytes_truncated_scratch(
                            &mut rows,
                            width,
                            active,
                            &mut short_scratch,
                        ),
                        Err(TransformError::ScratchTooSmall {
                            required: scratch_rows * width,
                            available: (scratch_rows - 1) * width,
                        })
                    );
                }
            }
        }
    }
    check::<Gf8B>(&mut 83);
    check::<Gf16>(&mut 89);
}

#[test]
fn transform_forward_selected_rejects_unsorted() {
    let plan = plan_of::<Gf16>(8);
    let mut rows = [0u8; 16];
    assert_eq!(
        plan.forward_bytes_selected(&mut rows, 2, &[5, 2]),
        Err(TransformError::InvalidSelection)
    );
    assert_eq!(
        plan.forward_bytes_selected(&mut rows, 2, &[2, 2]),
        Err(TransformError::InvalidSelection)
    );
    assert_eq!(
        plan.forward_bytes_selected(&mut rows, 2, &[8]),
        Err(TransformError::InvalidSelection)
    );
}

#[test]
fn transform_forward_range_rejects_out_of_bounds() {
    let plan = plan_of::<Gf16>(8);
    let mut rows = [0u8; 16];
    assert_eq!(
        plan.forward_bytes_range(&mut rows, 2, 0..9),
        Err(TransformError::InvalidRange { start: 0, end: 9, size: 8 })
    );
}

#[test]
fn transform_byte_rows_reject_zero_width_before_walking() {
    let plan = plan_of::<Gf8B>(4);
    assert_eq!(
        plan.forward_bytes_selected(&mut [], 0, &[0]),
        Err(TransformError::InvalidRowLength { row_len: 0, element_bytes: 1 })
    );
}

#[test]
fn transform_byte_rows_reject_unrepresentable_geometry() {
    let plan = plan_of::<Gf8B>(4);
    let row_len = 1usize << (usize::BITS - 2);
    assert_eq!(
        plan.forward_bytes(&mut [], row_len),
        Err(TransformError::GeometryOverflow)
    );
}

#[test]
fn truncated_variants_reject_a_bad_active_prefix() {
    let plan = plan_of::<Gf8B>(4);
    let mut rows = [0u8; 4];
    assert_eq!(
        plan.forward_bytes_truncated_range(&mut rows, 1, 5, 0..4),
        Err(TransformError::InvalidActivePrefix { active: 5, size: 4 })
    );
    assert_eq!(
        plan.inverse_bytes_truncated_scratch_rows(0),
        Err(TransformError::InvalidActivePrefix { active: 0, size: 4 })
    );
}

/// Schoolbook polynomial product over dense monomial coefficients.
fn poly_mul<F: ButterflyKernels>(a: &[F::Elem], b: &[F::Elem]) -> Vec<F::Elem> {
    let mut result = vec![field::zero::<F>(); a.len() + b.len() - 1];
    for (i, &ai) in a.iter().enumerate() {
        for (j, &bj) in b.iter().enumerate() {
            result[i + j] = field::plus::<F>(result[i + j], field::times::<F>(ai, bj));
        }
    }
    result
}

/// Horner evaluation, independent of the transform.
fn horner_eval<F: ButterflyKernels>(coefficients: &[F::Elem], point: F::Elem) -> F::Elem {
    coefficients.iter().rev().fold(field::zero::<F>(), |acc, &c| {
        field::plus::<F>(field::times::<F>(acc, point), c)
    })
}

/// The product of `X + point`, as an independent oracle for the vanishing
/// polynomial.
fn product_vanishing<F: ButterflyKernels>(points: &[F::Elem]) -> Vec<F::Elem> {
    let mut product = vec![field::one::<F>()];
    for &point in points {
        let factor = [point, field::one::<F>()];
        product = poly_mul::<F>(&product, &factor);
    }
    product
}

#[test]
fn vanishing_polynomial_vanishes_on_subspace_and_matches_product() {
    fn check<F: ButterflyKernels>()
    where
        F::Elem: PartialEq + Debug,
    {
        for log_size in 1..=6usize {
            let size = 1 << log_size;
            let plan = plan_of::<F>(size);
            let g = plan.vanishing_polynomial();
            assert_eq!(g.len(), size + 1, "degree mismatch at size {size}");
            assert_eq!(g[size], field::one::<F>(), "not monic at size {size}");
            for index in 0..size {
                assert_eq!(
                    horner_eval::<F>(&g, plan.point_element(index)),
                    field::zero::<F>(),
                    "G nonzero at point {index} size {size}"
                );
            }
            let points: Vec<F::Elem> = (0..size).map(|i| plan.point_element(i)).collect();
            assert_eq!(g, product_vanishing::<F>(&points), "subspace G mismatch size {size}");
        }
    }
    check::<Gf8B>();
    check::<Gf16>();
}

#[test]
fn vanishing_polynomial_vanishes_on_affine_coset_and_matches_product() {
    fn check<F: ButterflyKernels>()
    where
        F::Elem: PartialEq + Debug,
    {
        for log_size in 1..=6usize {
            let size = 1 << log_size;
            // A shift outside the span: the next bit-basis element.
            let shift = F::from_bits(1u64 << log_size);
            let basis = bit_basis::<F>(log_size);
            let plan = TransformPlan::<F>::with_shift(size, &basis, shift).ok().unwrap();
            let g = plan.vanishing_polynomial();
            assert_eq!(g.len(), size + 1);
            assert_eq!(g[size], field::one::<F>(), "not monic at size {size}");
            // An affine coset has a nonzero constant term.
            assert!(!field::is_zero::<F>(g[0]), "affine G has zero constant at size {size}");
            for index in 0..size {
                assert_eq!(
                    horner_eval::<F>(&g, plan.point_element(index)),
                    field::zero::<F>(),
                    "affine G nonzero at point {index} size {size}"
                );
            }
            let points: Vec<F::Elem> = (0..size).map(|i| plan.point_element(i)).collect();
            assert_eq!(g, product_vanishing::<F>(&points), "affine G mismatch size {size}");
        }
    }
    check::<Gf8B>();
    check::<Gf16>();
}

/// A plan over the bit basis with a coset shift.
fn bit_shifted_plan<F: ButterflyKernels>(
    size: usize,
    shift: F::Elem,
    state: &mut u32,
) -> TransformPlan<F> {
    let log_size = size.trailing_zeros() as usize;
    let basis = bit_basis::<F>(log_size);
    let _ = lcg(state);
    TransformPlan::<F>::with_shift(size, &basis, shift).ok().unwrap()
}

fn shifted_random<F: ButterflyKernels>(
    state: &mut u32,
    shift_seed: u32,
    size: usize,
) -> (F::Elem, Vec<F::Elem>) {
    *state = state.wrapping_mul(shift_seed).wrapping_add(1);
    (random_elements::<F>(state, 1)[0], random_elements::<F>(state, size))
}

/// Shifted forward row `i` is the polynomial's value at point `i` of the coset.
#[test]
fn transform_shifted_forward_evaluates_at_coset_points() {
    fn check<F: ButterflyKernels>(state: &mut u32)
    where
        F::Elem: PartialEq + Debug,
    {
        for log_size in 0..=7usize {
            let size = 1 << log_size;
            let (shift, novel) = shifted_random::<F>(state, 3, size);
            let plan = bit_shifted_plan::<F>(size, shift, state);

            let mut monomial = novel.clone();
            novel_to_monomial::<F>(&mut monomial, &plan).unwrap();

            let mut values = novel;
            plan.forward(&mut values).unwrap();
            for (index, &value) in values.iter().enumerate() {
                assert_eq!(
                    value,
                    horner_eval::<F>(&monomial, plan.point_element(index)),
                    "size {size} point {index}"
                );
            }
        }
    }
    check::<Gf8B>(&mut 0x1122_3344);
    check::<Gf16>(&mut 0x5566_7788);
}

#[test]
fn transform_shifted_round_trips() {
    fn check<F: ButterflyKernels>(state: &mut u32)
    where
        F::Elem: PartialEq + Debug,
    {
        for log_size in 0..=8usize {
            let size = 1 << log_size;
            let (shift, original) = shifted_random::<F>(state, 5, size);
            let plan = bit_shifted_plan::<F>(size, shift, state);
            let mut values = original.clone();
            plan.forward(&mut values).unwrap();
            plan.inverse(&mut values).unwrap();
            assert_eq!(values, original, "size {size}");

            let row_len = 3 * F::bytes();
            let bytes: Vec<u8> =
                (0..size * row_len).map(|_| lcg(state).to_le_bytes()[1]).collect();
            let mut rows = bytes.clone();
            plan.forward_bytes(&mut rows, row_len).unwrap();
            plan.inverse_bytes(&mut rows, row_len).unwrap();
            assert_eq!(rows, bytes, "byte rows size {size}");
        }
    }
    check::<Gf8B>(&mut 0xaaaa_5555);
    check::<Gf16>(&mut 0x5555_aaaa);
}

/// The last normalized subspace polynomial evaluated at `point`, straight from
/// the polynomials rather than through any table.
fn normalized_top<F: ButterflyKernels>(
    basis: &[F::Elem],
    log_size: usize,
    point: F::Elem,
) -> F::Elem {
    subspace_polynomials::<F>(&basis[..log_size]).expect("plan basis is independent")
        [log_size - 1]
        .evaluate(point)
}

/// An unshifted transform is the concatenation of two transforms of half its
/// size over the two half cosets, applied to the halves of the coefficients.
#[test]
fn transform_coset_halves_reconstruct_the_full_transform() {
    fn check<F: ButterflyKernels>(state: &mut u32)
    where
        F::Elem: PartialEq + Debug,
    {
        for log_size in 1..=7usize {
            let size = 1 << log_size;
            let half = size / 2;
            let full = plan_of::<F>(size);
            let coefficients = random_elements::<F>(state, size);
            let mut expected = coefficients.clone();
            full.forward(&mut expected).unwrap();

            let direction = &full.basis()[..log_size - 1];
            let split = full.basis()[log_size - 1];
            let low = TransformPlan::<F>::with_shift(half, direction, field::zero::<F>())
                .ok()
                .unwrap();
            let high = TransformPlan::<F>::with_shift(half, direction, split).ok().unwrap();

            let mut low_values = coefficients[..half].to_vec();
            let mut high_values = coefficients[..half].to_vec();
            let tail = &coefficients[half..];
            low.forward(&mut low_values).unwrap();
            high.forward(&mut high_values).unwrap();

            let mut tail_low = tail.to_vec();
            let mut tail_high = tail.to_vec();
            low.forward(&mut tail_low).unwrap();
            high.forward(&mut tail_high).unwrap();

            for index in 0..half {
                let w_low = normalized_top::<F>(full.basis(), log_size, low.point_element(index));
                let w_high = normalized_top::<F>(full.basis(), log_size, high.point_element(index));
                assert_eq!(
                    field::plus::<F>(
                        low_values[index],
                        field::times::<F>(w_low, tail_low[index])
                    ),
                    expected[index],
                    "low coset {index} size {size}"
                );
                assert_eq!(
                    field::plus::<F>(
                        high_values[index],
                        field::times::<F>(w_high, tail_high[index])
                    ),
                    expected[half + index],
                    "high coset {index} size {size}"
                );
            }
        }
    }
    check::<Gf8B>(&mut 0x0f0f_f0f0);
    check::<Gf16>(&mut 0xf0f0_0f0f);
}

#[test]
fn transform_shifted_plans_over_a_cantor_basis() {
    let basis = cantor::<Gf16>();
    let mut state = 0xbeef_cafeu32;
    let _ = lcg(&mut state);
    let (shift, original) = shifted_random::<Gf16>(&mut state, 7, 64);
    let plan = TransformPlan::<Gf16>::with_shift(64, &basis.elements()[..6], shift)
        .ok()
        .unwrap();
    assert_eq!(plan.point_element(0), shift);
    assert_eq!(plan.basis(), &basis.elements()[..6]);

    let mut values = original.clone();
    plan.forward(&mut values).unwrap();
    plan.inverse(&mut values).unwrap();
    assert_eq!(values, original);
}

#[test]
fn transform_zero_shift_matches_the_unshifted_plan() {
    let mut state = 0x1357_9bdfu32;
    let (.., original) = shifted_random::<Gf16>(&mut state, 11, 128);
    let plan = bit_shifted_plan::<Gf16>(128, 0, &mut state);
    let unshifted = plan_of::<Gf16>(128);
    let mut shifted_values = original.clone();
    let mut plain_values = original;
    plan.forward(&mut shifted_values).unwrap();
    unshifted.forward(&mut plain_values).unwrap();
    assert_eq!(shifted_values, plain_values);
    for index in 0..128 {
        assert_eq!(plan.point_element(index), unshifted.point_element(index));
    }
}

/// The derivative is a coefficient-basis operation: the same plan with and
/// without a coset shift produces the same derivative bytes.
#[test]
fn derivative_is_shift_independent() {
    let mut state = 0x2468_ace0u32;
    let (shift, coefficients) = shifted_random::<Gf16>(&mut state, 13, 16);
    let row_len = Gf16::bytes();
    let mut coefficient_rows = vec![0u8; 16 * row_len];
    for (row, &coefficient) in coefficients.iter().enumerate() {
        encode::<Gf16>(&mut coefficient_rows[row * row_len..][..row_len], coefficient);
    }
    let shifted = bit_shifted_plan::<Gf16>(16, shift, &mut state);
    let plain = plan_of::<Gf16>(16);
    let mut shifted_rows = vec![0u8; coefficient_rows.len()];
    let mut plain_rows = vec![0u8; coefficient_rows.len()];
    shifted
        .derivative_into_bytes(&mut shifted_rows, row_len, &coefficient_rows)
        .unwrap();
    plain
        .derivative_into_bytes(&mut plain_rows, row_len, &coefficient_rows)
        .unwrap();
    assert_eq!(shifted_rows, plain_rows);
}

#[test]
fn with_shift_shares_size_validation() {
    let expected = PlanError::DomainTooLarge { log_size: 9, cap: 8 };
    assert_eq!(
        TransformPlan::<Gf8B>::with_shift(512, &[], 0).err().unwrap(),
        expected
    );
}
