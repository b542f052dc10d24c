//! Shifted plans: transforms over affine cosets.

use std::fmt::Debug;

use butterfly_fft::basis::{novel_to_monomial, BitBasis, CantorBasis};
use butterfly_fft::field::{self, BinaryField, Gf16, Gf8B};
use butterfly_fft::kernel::ButterflyKernels;
use butterfly_fft::shifted::ShiftedPlan;
use butterfly_fft::transform::factors::subspace_polynomials;
use butterfly_fft::{PlanError, TransformPlan};

struct Rng(u64);

impl Rng {
    fn next_u64(&mut self) -> u64 {
        self.0 ^= self.0 << 13;
        self.0 ^= self.0 >> 7;
        self.0 ^= self.0 << 17;
        self.0
    }

    fn elem<F: ButterflyKernels>(&mut self) -> F::Elem {
        decode::<F>(&self.next_u64().to_le_bytes()[..F::bytes()])
    }

    fn elems<F: ButterflyKernels>(&mut self, count: usize) -> Vec<F::Elem> {
        (0..count).map(|_| self.elem::<F>()).collect()
    }
}

fn decode<F: ButterflyKernels>(bytes: &[u8]) -> F::Elem {
    let mut wide = [0u8; 8];
    wide[..bytes.len()].copy_from_slice(bytes);
    F::from_bits(u64::from_le_bytes(wide))
}

fn encode<F: ButterflyKernels>(bytes: &mut [u8], value: F::Elem) {
    let width = F::bytes();
    bytes.copy_from_slice(&F::to_bits(value).to_le_bytes()[..width]);
}

fn horner<F: ButterflyKernels>(coefficients: &[F::Elem], point: F::Elem) -> F::Elem {
    coefficients.iter().rev().fold(field::zero::<F>(), |accumulator, &coefficient| {
        field::plus::<F>(field::times::<F>(accumulator, point), coefficient)
    })
}

/// Shifted forward row `i` is the polynomial's value at point `i` of the coset,
/// checked against the monomial form.
#[test]
fn shifted_shifted_forward_evaluates_at_coset_points() {
    fn check<F: ButterflyKernels>(rng: &mut Rng)
    where
        F::Elem: PartialEq + Debug,
    {
        for log_size in 0..=7usize {
            let size = 1 << log_size;
            let shift = rng.elem::<F>();
            let plan = ShiftedPlan::<F>::new(size, shift).ok().unwrap();

            let novel = rng.elems::<F>(size);
            let mut monomial = novel.clone();
            novel_to_monomial::<F>(&mut monomial, plan.plan()).unwrap();

            let mut values = novel;
            plan.forward(&mut values).unwrap();
            for (index, &value) in values.iter().enumerate() {
                assert_eq!(
                    value,
                    horner::<F>(&monomial, plan.point_element(index)),
                    "size {size} point {index}"
                );
            }
        }
    }
    check::<Gf8B>(&mut Rng(0x1122_3344_5566_7788));
    check::<Gf16>(&mut Rng(0x8877_6655_4433_2211));
}

#[test]
fn shifted_shifted_round_trips() {
    fn check<F: ButterflyKernels>(rng: &mut Rng)
    where
        F::Elem: PartialEq + Debug,
    {
        for log_size in 0..=8usize {
            let size = 1 << log_size;
            let plan = ShiftedPlan::<F>::new(size, rng.elem::<F>()).ok().unwrap();
            let original = rng.elems::<F>(size);
            let mut values = original.clone();
            plan.forward(&mut values).unwrap();
            plan.inverse(&mut values).unwrap();
            assert_eq!(values, original, "size {size}");

            let row_len = 3 * F::bytes();
            let bytes: Vec<u8> =
                (0..size * row_len).map(|_| rng.next_u64().to_le_bytes()[0]).collect();
            let mut rows = bytes.clone();
            plan.forward_bytes(&mut rows, row_len).unwrap();
            plan.inverse_bytes(&mut rows, row_len).unwrap();
            assert_eq!(rows, bytes, "byte rows size {size}");
        }
    }
    check::<Gf8B>(&mut Rng(0xaaaa_5555_aaaa_5555));
    check::<Gf16>(&mut Rng(0x5555_aaaa_5555_aaaa));
}

/// The last normalized subspace polynomial evaluated at `point`, straight from
/// the polynomials rather than through any table.
fn normalized_top<F: ButterflyKernels>(
    basis: &[F::Elem],
    log_size: usize,
    point: F::Elem,
) -> F::Elem {
    subspace_polynomials::<F>(&basis[..log_size]).expect("plan basis is independent")
        [log_size - 1]
        .evaluate(point)
}

/// An unshifted transform is the concatenation of two transforms of half its
/// size over the two half cosets.
#[test]
fn shifted_coset_halves_reconstruct_the_full_transform() {
    fn check<F: ButterflyKernels>(rng: &mut Rng)
    where
        F::Elem: PartialEq + Debug,
    {
        for log_size in 1..=7usize {
            let size = 1 << log_size;
            let half = size / 2;
            let full = TransformPlan::<F>::new(size).ok().unwrap();
            let coefficients = rng.elems::<F>(size);
            let mut expected = coefficients.clone();
            full.forward(&mut expected).unwrap();

            let direction = &full.basis()[..log_size - 1];
            let split = full.basis()[log_size - 1];
            let low = ShiftedPlan::<F>::from_elements(half, direction, field::zero::<F>())
                .ok()
                .unwrap();
            let high = ShiftedPlan::<F>::from_elements(half, direction, split).ok().unwrap();

            let mut low_values = coefficients[..half].to_vec();
            let mut high_values = coefficients[..half].to_vec();
            let tail = &coefficients[half..];
            low.forward(&mut low_values).unwrap();
            high.forward(&mut high_values).unwrap();

            let mut tail_low = tail.to_vec();
            let mut tail_high = tail.to_vec();
            low.forward(&mut tail_low).unwrap();
            high.forward(&mut tail_high).unwrap();

            for index in 0..half {
                let w_low = normalized_top::<F>(full.basis(), log_size, low.point_element(index));
                let w_high = normalized_top::<F>(full.basis(), log_size, high.point_element(index));
                assert_eq!(
                    field::plus::<F>(low_values[index], field::times::<F>(w_low, tail_low[index])),
                    expected[index],
                    "low coset {index} size {size}"
                );
                assert_eq!(
                    field::plus::<F>(
                        high_values[index],
                        field::times::<F>(w_high, tail_high[index])
                    ),
                    expected[half + index],
                    "high coset {index} size {size}"
                );
            }
        }
    }
    check::<Gf8B>(&mut Rng(0x0f0f_0f0f_f0f0_f0f0));
    check::<Gf16>(&mut Rng(0xf0f0_f0f0_0f0f_0f0f));
}

#[test]
fn shifted_shifted_plans_over_a_cantor_basis() {
    let cantor = CantorBasis::<Gf16>::build().ok().unwrap();
    let mut rng = Rng(0xbeef_cafe_dead_f00d);
    let shift = rng.elem::<Gf16>();
    let plan = ShiftedPlan::<Gf16>::with_basis(64, &cantor, shift).ok().unwrap();
    assert_eq!(plan.point_element(0), shift);
    assert_eq!(plan.shift(), shift);
    assert_eq!(plan.basis(), &cantor.elements()[..6]);

    let original = rng.elems::<Gf16>(64);
    let mut values = original.clone();
    plan.forward(&mut values).unwrap();
    plan.inverse(&mut values).unwrap();
    assert_eq!(values, original);
}

#[test]
fn shifted_zero_shift_matches_the_unshifted_plan() {
    let mut rng = Rng(0x1357_9bdf_2468_ace0);
    let plan = ShiftedPlan::<Gf16>::new(128, 0).ok().unwrap();
    let unshifted = TransformPlan::<Gf16>::new(128).ok().unwrap();
    let original = rng.elems::<Gf16>(128);
    let mut shifted_values = original.clone();
    let mut plain_values = original;
    plan.forward(&mut shifted_values).unwrap();
    unshifted.forward(&mut plain_values).unwrap();
    assert_eq!(shifted_values, plain_values);
    for index in 0..128 {
        assert_eq!(plan.point_element(index), unshifted.point_element(index));
    }
    assert_eq!(plan.points(), unshifted.points());
}

#[test]
fn shifted_facade_delegates_derivative_and_high_coset() {
    let mut rng = Rng(0x2468_ace0_1357_9bdf);
    let plan = ShiftedPlan::<Gf16>::new(16, rng.elem::<Gf16>()).ok().unwrap();
    let coefficients = rng.elems::<Gf16>(16);

    let mut derivative = vec![0u16; 16];
    let mut expected_derivative = derivative.clone();
    plan.derivative(&coefficients, &mut derivative).unwrap();
    plan.plan().derivative_into(&mut expected_derivative, &coefficients).unwrap();
    assert_eq!(derivative, expected_derivative);

    let row_len = Gf16::bytes();
    let mut coefficient_rows = vec![0u8; 16 * row_len];
    for (row, &coefficient) in coefficients.iter().enumerate() {
        encode::<Gf16>(&mut coefficient_rows[row * row_len..][..row_len], coefficient);
    }
    let mut derivative_rows = vec![0u8; coefficient_rows.len()];
    let mut expected_rows = derivative_rows.clone();
    plan.derivative_bytes(&coefficient_rows, row_len, &mut derivative_rows).unwrap();
    plan.plan()
        .derivative_into_bytes(&mut expected_rows, row_len, &coefficient_rows)
        .unwrap();
    assert_eq!(derivative_rows, expected_rows);

    let half = plan.size() / 2;
    let mut padded = coefficients[..half].to_vec();
    padded.resize(plan.size(), 0);
    plan.forward(&mut padded).unwrap();
    let mut high_rows = vec![0u8; half * row_len];
    for (row, &coefficient) in coefficients[..half].iter().enumerate() {
        encode::<Gf16>(&mut high_rows[row * row_len..][..row_len], coefficient);
    }
    plan.forward_bytes_high_coset_range(&mut high_rows, row_len, 0..half).unwrap();
    for (row, &expected) in padded[half..].iter().enumerate() {
        assert_eq!(decode::<Gf16>(&high_rows[row * row_len..][..row_len]), expected);
    }
}

#[test]
fn shifted_constructors_share_size_validation() {
    let expected = PlanError::DomainTooLarge { log_size: 9, cap: 8 };
    assert_eq!(ShiftedPlan::<Gf8B>::new(512, 0).err().unwrap(), expected);
    assert_eq!(
        ShiftedPlan::<Gf8B>::with_basis(512, &BitBasis, 0).err().unwrap(),
        expected
    );
}

/// The restricted and truncated variants of the facade are those of the plan.
#[test]
fn shifted_facade_delegates_restricted_variants() {
    let mut rng = Rng(0x0102_0304_0506_0708);
    let size = 16;
    let width = Gf16::bytes();
    let plan = ShiftedPlan::<Gf16>::new(size, rng.elem::<Gf16>()).ok().unwrap();
    assert_eq!(plan.log_size(), 4);
    let active = 11;
    let mut coefficients = rng.elems::<Gf16>(active);
    coefficients.resize(size, 0);
    let mut values = coefficients.clone();
    plan.forward(&mut values).unwrap();
    let mut packed = vec![0u8; size * width];
    for (row, &coefficient) in coefficients.iter().enumerate() {
        encode::<Gf16>(&mut packed[row * width..][..width], coefficient);
    }

    let mut rows = packed.clone();
    plan.forward_bytes_selected(&mut rows, width, &[3, 12]).unwrap();
    for row in [3usize, 12] {
        assert_eq!(decode::<Gf16>(&rows[row * width..][..width]), values[row]);
    }
    let mut rows = packed.clone();
    plan.forward_bytes_range(&mut rows, width, 5..9).unwrap();
    for row in 5..9 {
        assert_eq!(decode::<Gf16>(&rows[row * width..][..width]), values[row]);
    }
    let mut rows = packed.clone();
    plan.forward_bytes_trunc_range(&mut rows, width, active, 0..size).unwrap();
    for row in 0..size {
        assert_eq!(decode::<Gf16>(&rows[row * width..][..width]), values[row]);
    }
    let needed = plan.inverse_truncated_scratch_rows(active).unwrap();
    let mut scratch = vec![0u8; needed * width];
    plan.inverse_truncated_bytes(&mut rows, width, active, &mut scratch).unwrap();
    assert_eq!(&rows[..active * width], &packed[..active * width]);
}

/// The underlying plan reports the points of the subspace, without the shift.
#[test]
fn the_underlying_plan_reports_unshifted_points() {
    let plan = ShiftedPlan::<Gf16>::new(4, 0x2ba7).unwrap();
    for index in 0..4u16 {
        assert_eq!(plan.plan().point_element(index as usize), index);
        assert_eq!(plan.point_element(index as usize), 0x2ba7 ^ index);
    }
    assert_eq!(plan.plan().points(), vec![0, 1, 2, 3]);
    assert_eq!(plan.points(), vec![0x2ba7, 0x2ba6, 0x2ba5, 0x2ba4]);
    assert_eq!(plan.shift(), 0x2ba7);
    // It still evaluates over the coset.
    let (mut a, mut b) = (vec![3u16, 1, 4, 1], vec![3u16, 1, 4, 1]);
    plan.forward(&mut a).unwrap();
    plan.plan().forward(&mut b).unwrap();
    assert_eq!(a, b);
    let copy = plan.clone();
    assert_eq!(format!("{copy:?}"), format!("{plan:?}"));
}
