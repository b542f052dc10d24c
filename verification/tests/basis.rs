//! Bases, subspace polynomials, coordinates and coefficient conversions.

use std::fmt::Debug;

use butterfly_fft::basis::{
    conversion_scratch_elements, inverse_interpolate_bytes, linearly_independent,
    monomial_to_novel, monomial_to_novel_bytes, monomial_to_novel_with_scratch,
    novel_to_monomial, novel_to_monomial_bytes, novel_to_monomial_with_scratch, point_of,
    solve_quadratic, BitBasis, CantorBasis, CoordinateMap, OrderedBasis,
};
use butterfly_fft::field::{
    self, FanPaar16, FanPaar32, FanPaar64, FanPaar8, Gf16, Gf32, Gf64, Gf8B, Gf8D,
};
use butterfly_fft::kernel::ButterflyKernels;
use butterfly_fft::shifted::ShiftedPlan;
use butterfly_fft::transform::factors::{subspace_polynomials, FactorTable};
use butterfly_fft::{TransformError, TransformPlan};

struct Rng(u64);

impl Rng {
    fn next_u64(&mut self) -> u64 {
        self.0 ^= self.0 << 13;
        self.0 ^= self.0 >> 7;
        self.0 ^= self.0 << 17;
        self.0
    }

    fn elem<F: ButterflyKernels>(&mut self) -> F::Elem {
        decode::<F>(&self.next_u64().to_le_bytes()[..F::bytes()])
    }

    fn elems<F: ButterflyKernels>(&mut self, count: usize) -> Vec<F::Elem> {
        (0..count).map(|_| self.elem::<F>()).collect()
    }
}

fn decode<F: ButterflyKernels>(bytes: &[u8]) -> F::Elem {
    let mut wide = [0u8; 8];
    wide[..bytes.len()].copy_from_slice(bytes);
    F::from_bits(u64::from_le_bytes(wide))
}

fn encode<F: ButterflyKernels>(bytes: &mut [u8], value: F::Elem) {
    let width = F::bytes();
    bytes.copy_from_slice(&F::to_bits(value).to_le_bytes()[..width]);
}

fn bit_basis<F: ButterflyKernels>(count: usize) -> Vec<F::Elem> {
    (0..count).map(|bit| F::from_bits(1u64 << bit)).collect()
}

fn plan_of<F: ButterflyKernels>(size: usize) -> TransformPlan<F> {
    TransformPlan::<F>::new(size).ok().expect("supported size")
}

fn cantor<F: ButterflyKernels>() -> CantorBasis<F> {
    CantorBasis::<F>::build().ok().expect("the field has a Cantor basis")
}

fn horner<F: ButterflyKernels>(coefficients: &[F::Elem], point: F::Elem) -> F::Elem {
    coefficients.iter().rev().fold(field::zero::<F>(), |accumulator, &coefficient| {
        field::plus::<F>(field::times::<F>(accumulator, point), coefficient)
    })
}

#[test]
fn bit_basis_coordinates_are_bit_patterns() {
    fn check<F: ButterflyKernels>() {
        let map = CoordinateMap::<F>::of(&BitBasis).expect("bit basis is a full basis");
        for bit in 0..8 * F::bytes() {
            let pattern = 1u64 << bit;
            assert_eq!(F::to_bits(map.to_element(pattern)), pattern);
            assert_eq!(map.to_coordinates(F::from_bits(pattern)), pattern);
        }
    }
    check::<Gf8B>();
    check::<Gf16>();
    check::<Gf32>();
    check::<Gf64>();
    check::<FanPaar16>();
}

#[test]
fn short_or_dependent_bases_have_no_coordinate_map() {
    let short: Vec<u8> = (0..4).map(|i| OrderedBasis::<Gf8B>::element(&BitBasis, i)).collect();
    assert!(CoordinateMap::<Gf8B>::new(&short).is_none());

    let mut dependent: Vec<u8> =
        (0..8).map(|i| OrderedBasis::<Gf8B>::element(&BitBasis, i)).collect();
    dependent[7] = dependent[0] ^ dependent[1];
    assert!(CoordinateMap::<Gf8B>::new(&dependent).is_none());
}

#[test]
fn point_of_matches_bit_pattern_under_the_bit_basis() {
    fn check<F: ButterflyKernels>()
    where
        F::Elem: PartialEq + Debug,
    {
        let basis: Vec<F::Elem> = (0..8 * F::bytes())
            .map(|i| OrderedBasis::<F>::element(&BitBasis, i))
            .collect();
        for index in [0usize, 1, 2, 3, 5, 17, 63, 200] {
            let masked = index & ((1usize << basis.len().min(16)) - 1);
            assert_eq!(point_of::<F>(&basis, masked), F::from_bits(masked as u64));
        }
    }
    check::<Gf8B>();
    check::<Gf16>();
    check::<Gf32>();
}

/// A basis longer than a machine word still has its low points.
#[test]
fn point_of_accepts_long_bases() {
    let basis: Vec<u8> = (0..70u8).collect();
    assert_eq!(point_of::<Gf8B>(&basis, 0b1010_0010), 1 ^ 5 ^ 7);
    assert!(!linearly_independent::<Gf8B>(&basis));
}

/// `v_0` is one, and `v_i^2 + v_i == v_(i-1)` for every step.
#[test]
fn cantor_chain_holds_for_every_field() {
    fn chain_holds<F: ButterflyKernels>()
    where
        F::Elem: PartialEq + Debug,
    {
        let basis = cantor::<F>();
        let elements = basis.elements();
        assert_eq!(elements.len(), 8 * F::bytes());
        assert!(field::is_one::<F>(elements[0]), "v_0 must be one");
        for index in 1..elements.len() {
            let value = elements[index];
            assert_eq!(
                field::plus::<F>(field::times::<F>(value, value), value),
                elements[index - 1],
                "chain broken at v_{index}"
            );
        }
    }
    chain_holds::<Gf8B>();
    chain_holds::<Gf16>();
    chain_holds::<Gf32>();
    chain_holds::<Gf64>();
    chain_holds::<FanPaar8>();
    chain_holds::<FanPaar16>();
    chain_holds::<Gf8D>();
    chain_holds::<FanPaar32>();
    chain_holds::<FanPaar64>();
}

#[test]
fn cantor_elements_are_a_basis() {
    fn check<F: ButterflyKernels>() {
        assert!(linearly_independent::<F>(cantor::<F>().elements()));
    }
    check::<Gf8B>();
    check::<Gf16>();
    check::<Gf32>();
    check::<Gf64>();
}

/// Over the Cantor basis every normalizer is one, and the coefficients are
/// Pascal's triangle modulo two.
#[test]
fn subspace_polynomials_follow_pascal_mod_two() {
    fn check<F: ButterflyKernels>()
    where
        F::Elem: PartialEq + Debug,
    {
        let basis = cantor::<F>();
        let polynomials =
            subspace_polynomials::<F>(basis.elements()).expect("cantor basis is independent");
        for (k, polynomial) in polynomials.iter().enumerate() {
            assert!(
                field::is_one::<F>(polynomial.normalizer_inverse),
                "W_{k}(v_{k}) is not one"
            );
            assert_eq!(polynomial.coefficients.len(), k + 1);
            for (j, &coefficient) in polynomial.coefficients.iter().enumerate() {
                let expected = if j & !k == 0 { field::one::<F>() } else { field::zero::<F>() };
                assert_eq!(coefficient, expected, "W_{k} coefficient {j}");
            }
        }
    }
    check::<Gf8B>();
    check::<Gf16>();
    check::<Gf32>();
    check::<Gf64>();
}

#[test]
fn quadratics_are_solved_exactly_where_they_have_roots() {
    for value in 0..=255u8 {
        let roots: Vec<u8> =
            (0..=255u8).filter(|&x| field::times::<Gf8B>(x, x) ^ x == value).collect();
        assert_eq!(solve_quadratic::<Gf8B>(value), roots.first().copied());
    }
}

fn vanishes_on_subspace<F: ButterflyKernels>() {
    for dimension in 1..=5usize {
        let basis = bit_basis::<F>(dimension + 1);
        let polynomials = subspace_polynomials::<F>(&basis).unwrap();
        let top = &polynomials[dimension];
        for point in 0..1u64 << dimension {
            assert!(
                field::is_zero::<F>(top.evaluate(F::from_bits(point))),
                "W_{dimension} nonzero at subspace point"
            );
        }
    }
}

#[test]
fn subspace_polynomials_vanish() {
    vanishes_on_subspace::<Gf8B>();
    vanishes_on_subspace::<Gf16>();
}

fn evaluate_linearized<F: ButterflyKernels>(coefficients: &[F::Elem], value: F::Elem) -> F::Elem {
    let mut power = value;
    let mut total = field::zero::<F>();
    for &coefficient in coefficients {
        total = field::plus::<F>(total, field::times::<F>(coefficient, power));
        power = field::times::<F>(power, power);
    }
    total
}

#[test]
fn normalizers_match_definition() {
    fn check<F: ButterflyKernels>() {
        for dimension in 1..=6usize {
            let basis = bit_basis::<F>(dimension);
            let polynomials = subspace_polynomials::<F>(&basis).unwrap();
            for (k, polynomial) in polynomials.iter().enumerate() {
                let normalizer = evaluate_linearized::<F>(&polynomial.coefficients, basis[k]);
                assert!(
                    field::is_one::<F>(field::times::<F>(
                        normalizer,
                        polynomial.normalizer_inverse
                    )),
                    "bad normalizer at level {k}"
                );
            }
        }
    }
    check::<Gf8B>();
    check::<Gf16>();
}

#[test]
fn bit_basis_elements_are_bit_patterns() {
    fn check<F: ButterflyKernels>()
    where
        F::Elem: PartialEq + Debug,
    {
        for index in 0..8 * F::bytes() {
            let element = OrderedBasis::<F>::element(&BitBasis, index);
            assert_eq!(element, F::from_bits(1 << index));
        }
    }
    check::<Gf8B>();
    check::<Gf16>();
}

#[test]
fn independence_detection() {
    fn check<F: ButterflyKernels>() {
        assert!(linearly_independent::<F>(&bit_basis::<F>(8 * F::bytes())));
        assert!(!linearly_independent::<F>(&[field::zero::<F>()]));
        let mut dependent = bit_basis::<F>(2);
        dependent.push(field::plus::<F>(dependent[0], dependent[1]));
        assert!(!linearly_independent::<F>(&dependent));
    }
    check::<Gf8B>();
    check::<Gf16>();
}

#[test]
fn dependent_basis_yields_no_polynomials() {
    fn check<F: ButterflyKernels>() {
        let basis = bit_basis::<F>(2);
        let dependent = [basis[0], basis[0]];
        assert!(subspace_polynomials::<F>(&dependent).is_none());
    }
    check::<Gf8B>();
    check::<Gf16>();
}

/// A normalized subspace polynomial differs by exactly one between sibling
/// half-subspaces.
#[test]
fn normalized_siblings_differ_by_one() {
    fn random_element<F: ButterflyKernels>(state: &mut u32) -> F::Elem {
        *state = state.wrapping_mul(1_664_525).wrapping_add(1_013_904_223);
        decode::<F>(&state.to_le_bytes()[..F::bytes()])
    }
    fn check<F: ButterflyKernels>(state: &mut u32) {
        for dimension in 1..=5usize {
            let basis = bit_basis::<F>(dimension + 1);
            let polynomials = subspace_polynomials::<F>(&basis).unwrap();
            let poly = &polynomials[dimension];
            for _ in 0..8 {
                let shift = random_element::<F>(state);
                let sum = field::plus::<F>(
                    poly.evaluate(shift),
                    poly.evaluate(field::plus::<F>(shift, basis[dimension])),
                );
                assert!(
                    field::is_one::<F>(sum),
                    "sibling property failed at level {dimension}"
                );
            }
        }
    }
    check::<Gf8B>(&mut 0xdead_beef);
    check::<Gf16>(&mut 0x0bad_f00d);
}

/// The root twiddle is the top polynomial at the shift, and the children thread
/// the coset shift as expected.
#[test]
fn shifted_table_matches_polynomial_evaluations() {
    fn check<F: ButterflyKernels>()
    where
        F::Elem: PartialEq + Debug,
    {
        let log_size = 4;
        let basis = bit_basis::<F>(log_size);
        let polynomials = subspace_polynomials::<F>(&basis).unwrap();
        // The unshifted root twiddle vanishes (zero lies in the subspace).
        let plain = TransformPlan::<F>::with_basis(16, &basis).ok().unwrap();
        assert!(field::is_zero::<F>(plain.table().factors()[1]));
        // An arbitrary coset shift lands at the root and propagates.
        let shift = field::plus::<F>(basis[0], basis[2]);
        let plan = TransformPlan::<F>::with_shift(16, &basis, shift).ok().unwrap();
        let table: &FactorTable<F> = plan.table();
        assert_eq!(
            table.factors()[1],
            polynomials[log_size - 1].evaluate(shift),
            "root twiddle"
        );
        assert_eq!(
            table.factors()[2],
            polynomials[log_size - 2].evaluate(shift),
            "low child"
        );
        assert_eq!(
            table.factors()[3],
            polynomials[log_size - 2].evaluate(field::plus::<F>(shift, basis[log_size - 1])),
            "high child"
        );
    }
    check::<Gf8B>();
    check::<Gf16>();
}

fn pack<F: ButterflyKernels>(lanes: &[Vec<F::Elem>]) -> Vec<u8> {
    let width = F::bytes();
    let size = lanes.first().map_or(0, Vec::len);
    let row_len = lanes.len() * width;
    let mut rows = vec![0u8; size * row_len];
    for (lane, coefficients) in lanes.iter().enumerate() {
        assert_eq!(coefficients.len(), size);
        for (degree, &coefficient) in coefficients.iter().enumerate() {
            let start = degree * row_len + lane * width;
            encode::<F>(&mut rows[start..start + width], coefficient);
        }
    }
    rows
}

fn assert_rows<F: ButterflyKernels>(rows: &[u8], expected: &[Vec<F::Elem>])
where
    F::Elem: PartialEq + Debug,
{
    let width = F::bytes();
    let row_len = expected.len() * width;
    for (lane, coefficients) in expected.iter().enumerate() {
        for (degree, &coefficient) in coefficients.iter().enumerate() {
            let start = degree * row_len + lane * width;
            assert_eq!(
                decode::<F>(&rows[start..start + width]),
                coefficient,
                "degree {degree} lane {lane}"
            );
        }
    }
}

fn round_trip<F: ButterflyKernels>(plan: &TransformPlan<F>, rng: &mut Rng)
where
    F::Elem: PartialEq + Debug,
{
    let original = rng.elems::<F>(plan.size());
    let mut values = original.clone();
    novel_to_monomial::<F>(&mut values, plan).unwrap();
    monomial_to_novel::<F>(&mut values, plan).unwrap();
    assert_eq!(values, original, "size {}", plan.size());

    let mut values = original.clone();
    monomial_to_novel::<F>(&mut values, plan).unwrap();
    novel_to_monomial::<F>(&mut values, plan).unwrap();
    assert_eq!(values, original, "size {}", plan.size());
}

fn scratch_and_byte_variants<F: ButterflyKernels>(
    plan: &TransformPlan<F>,
    lanes: usize,
    rng: &mut Rng,
) where
    F::Elem: PartialEq + Debug,
{
    let width = F::bytes();
    let required = conversion_scratch_elements(plan.size());

    let monomial = rng.elems::<F>(plan.size());
    let mut expected_novel = monomial.clone();
    monomial_to_novel::<F>(&mut expected_novel, plan).unwrap();
    let mut scratch_novel = monomial.clone();
    let mut element_scratch = vec![field::zero::<F>(); required + 1];
    monomial_to_novel_with_scratch::<F>(&mut scratch_novel, plan, &mut element_scratch).unwrap();
    assert_eq!(scratch_novel, expected_novel);

    let novel = rng.elems::<F>(plan.size());
    let mut expected_monomial = novel.clone();
    novel_to_monomial::<F>(&mut expected_monomial, plan).unwrap();
    let mut scratch_monomial = novel.clone();
    novel_to_monomial_with_scratch::<F>(&mut scratch_monomial, plan, &mut element_scratch)
        .unwrap();
    assert_eq!(scratch_monomial, expected_monomial);

    let monomial_lanes: Vec<Vec<F::Elem>> =
        (0..lanes).map(|_| rng.elems::<F>(plan.size())).collect();
    let expected_novel_lanes: Vec<Vec<F::Elem>> = monomial_lanes
        .iter()
        .map(|lane| {
            let mut converted = lane.clone();
            monomial_to_novel::<F>(&mut converted, plan).unwrap();
            converted
        })
        .collect();
    let row_len = lanes * width;
    let mut rows = pack::<F>(&monomial_lanes);
    let mut byte_scratch = vec![0xa5; required * row_len + width];
    monomial_to_novel_bytes::<F>(&mut rows, row_len, plan, &mut byte_scratch).unwrap();
    assert_rows::<F>(&rows, &expected_novel_lanes);

    let novel_lanes: Vec<Vec<F::Elem>> =
        (0..lanes).map(|_| rng.elems::<F>(plan.size())).collect();
    let expected_monomial_lanes: Vec<Vec<F::Elem>> = novel_lanes
        .iter()
        .map(|lane| {
            let mut converted = lane.clone();
            novel_to_monomial::<F>(&mut converted, plan).unwrap();
            converted
        })
        .collect();
    let mut rows = pack::<F>(&novel_lanes);
    novel_to_monomial_bytes::<F>(&mut rows, row_len, plan, &mut byte_scratch).unwrap();
    assert_rows::<F>(&rows, &expected_monomial_lanes);
}

#[test]
fn scratch_and_simd_batched_variants_match_element_conversions() {
    let mut rng = Rng(0x6a09_e667_f3bc_c909);
    for &(log_size, lanes) in &[(0usize, 1usize), (1, 3), (3, 17), (5, 33)] {
        scratch_and_byte_variants(&plan_of::<Gf8B>(1 << log_size), lanes, &mut rng);
        scratch_and_byte_variants(&plan_of::<Gf16>(1 << log_size), lanes, &mut rng);
    }
    let basis = cantor::<Gf16>();
    scratch_and_byte_variants(
        &TransformPlan::<Gf16>::with_basis(32, &basis.prefix(5)).ok().unwrap(),
        19,
        &mut rng,
    );
}

#[test]
fn conversions_are_mutual_inverses() {
    let mut rng = Rng(0x2545_f491_4f6c_dd1d);
    for log_size in 0..=8usize {
        round_trip(&plan_of::<Gf16>(1 << log_size), &mut rng);
    }
    for log_size in 0..=8usize {
        round_trip(&plan_of::<Gf8B>(1 << log_size), &mut rng);
    }
}

/// Converted coefficients evaluate, through the transform, to exactly what
/// Horner gives on the monomial form at every domain point.
fn agrees_with_horner<F: ButterflyKernels>(plan: &TransformPlan<F>, rng: &mut Rng)
where
    F::Elem: PartialEq + Debug,
{
    let monomial = rng.elems::<F>(plan.size());
    let mut novel = monomial.clone();
    monomial_to_novel::<F>(&mut novel, plan).unwrap();
    plan.forward(&mut novel).unwrap();
    for (index, &value) in novel.iter().enumerate() {
        assert_eq!(
            value,
            horner::<F>(&monomial, plan.point_element(index)),
            "point {index} of {}",
            plan.size()
        );
    }
}

#[test]
fn monomial_coefficients_evaluate_through_the_transform() {
    let mut rng = Rng(0x9e37_79b9_7f4a_7c15);
    for log_size in 0..=8usize {
        agrees_with_horner(&plan_of::<Gf16>(1 << log_size), &mut rng);
    }
    for log_size in 0..=8usize {
        agrees_with_horner(&plan_of::<Gf8B>(1 << log_size), &mut rng);
    }
}

/// Conversion works over any ordered basis the plan was built with.
#[test]
fn conversion_follows_the_plan_basis() {
    let mut rng = Rng(0xdead_beef_0bad_f00d);
    let basis = cantor::<Gf16>();
    for log_size in 1..=8usize {
        let plan = TransformPlan::<Gf16>::with_basis(1 << log_size, &basis.prefix(log_size))
            .ok()
            .unwrap();
        round_trip(&plan, &mut rng);
        agrees_with_horner(&plan, &mut rng);
    }
    // A basis that is neither bit nor Cantor.
    let mixed: Vec<u16> = (0..8)
        .map(|index| {
            OrderedBasis::<Gf16>::element(&BitBasis, index)
                ^ OrderedBasis::<Gf16>::element(&BitBasis, index + 1)
        })
        .collect();
    let plan = TransformPlan::<Gf16>::with_basis(256, &mixed).ok().unwrap();
    round_trip(&plan, &mut rng);
    agrees_with_horner(&plan, &mut rng);
}

/// `X_i` has degree exactly `i`.
#[test]
fn novel_basis_is_degree_triangular() {
    let plan = plan_of::<Gf16>(64);
    for index in 0..plan.size() {
        let mut values = vec![0u16; plan.size()];
        values[index] = 1;
        novel_to_monomial::<Gf16>(&mut values, &plan).unwrap();
        assert_ne!(values[index], 0, "X_{index} lost its leading term");
        assert!(
            values[index + 1..].iter().all(|&value| value == 0),
            "X_{index} has degree above {index}"
        );
    }
}

#[test]
fn wrong_lengths_are_rejected() {
    let plan = plan_of::<Gf16>(8);
    let mut short_values = vec![0u16; 7];
    let coefficient_error = TransformError::BufferLength { expected: 8, got: 7 };
    assert_eq!(
        novel_to_monomial::<Gf16>(&mut short_values, &plan).unwrap_err(),
        coefficient_error
    );
    assert_eq!(
        monomial_to_novel::<Gf16>(&mut short_values, &plan).unwrap_err(),
        coefficient_error
    );

    let mut values = vec![0u16; 8];
    let mut short_scratch = vec![0u16; 3];
    let scratch_error = TransformError::ScratchTooSmall { required: 4, available: 3 };
    assert_eq!(
        novel_to_monomial_with_scratch::<Gf16>(&mut values, &plan, &mut short_scratch)
            .unwrap_err(),
        scratch_error
    );
    assert_eq!(
        monomial_to_novel_with_scratch::<Gf16>(&mut values, &plan, &mut short_scratch)
            .unwrap_err(),
        scratch_error
    );

    let mut short_rows = vec![0u8; 15];
    let mut byte_scratch = vec![0u8; 8];
    let byte_coefficient_error = TransformError::BufferLength { expected: 16, got: 15 };
    assert_eq!(
        novel_to_monomial_bytes::<Gf16>(&mut short_rows, 2, &plan, &mut byte_scratch).unwrap_err(),
        byte_coefficient_error
    );
    assert_eq!(
        monomial_to_novel_bytes::<Gf16>(&mut short_rows, 2, &plan, &mut byte_scratch).unwrap_err(),
        byte_coefficient_error
    );

    let mut rows = vec![0u8; 16];
    let mut short_byte_scratch = vec![0u8; 7];
    let byte_scratch_error = TransformError::ScratchTooSmall { required: 8, available: 7 };
    assert_eq!(
        novel_to_monomial_bytes::<Gf16>(&mut rows, 2, &plan, &mut short_byte_scratch).unwrap_err(),
        byte_scratch_error
    );
    assert_eq!(
        monomial_to_novel_bytes::<Gf16>(&mut rows, 2, &plan, &mut short_byte_scratch).unwrap_err(),
        byte_scratch_error
    );
}

#[test]
fn conversions_reject_bad_row_geometry() {
    let plan = plan_of::<Gf16>(8);
    assert_eq!(
        novel_to_monomial_bytes::<Gf16>(&mut [], 0, &plan, &mut []).unwrap_err(),
        TransformError::InvalidRowLength { row_len: 0, element_bytes: 2 }
    );
    assert_eq!(
        monomial_to_novel_bytes::<Gf16>(&mut [], 3, &plan, &mut []).unwrap_err(),
        TransformError::InvalidRowLength { row_len: 3, element_bytes: 2 }
    );
    assert_eq!(
        novel_to_monomial_bytes::<Gf16>(&mut [], usize::MAX - 1, &plan, &mut []).unwrap_err(),
        TransformError::GeometryOverflow
    );
}

#[test]
fn inverse_interpolate_recovers_monomial_coefficients() {
    fn check<F: ButterflyKernels>(rng: &mut Rng)
    where
        F::Elem: PartialEq + Debug,
    {
        for log_size in 1..=7usize {
            let size = 1 << log_size;
            let plan = plan_of::<F>(size);
            let evaluations = rng.elems::<F>(size);
            let row_len = F::bytes();
            let mut rows = pack::<F>(&[evaluations.clone()]);
            let mut scratch = vec![0u8; conversion_scratch_elements(size) * row_len];
            inverse_interpolate_bytes::<F>(&mut rows, row_len, &plan, &mut scratch).unwrap();
            let monomial: Vec<F::Elem> =
                (0..size).map(|d| decode::<F>(&rows[d * row_len..(d + 1) * row_len])).collect();
            for (point, &evaluation) in evaluations.iter().enumerate() {
                assert_eq!(
                    horner::<F>(&monomial, plan.point_element(point)),
                    evaluation,
                    "R(point) != received at size {size} point {point}"
                );
            }
        }
    }
    let mut rng = Rng(0x9e37_79b9);
    check::<Gf8B>(&mut rng);
    check::<Gf16>(&mut rng);
}

#[test]
fn inverse_interpolate_handles_affine_coset() {
    fn check<F: ButterflyKernels>(rng: &mut Rng)
    where
        F::Elem: PartialEq + Debug,
    {
        for log_size in 1..=6usize {
            let size = 1 << log_size;
            let shift = F::from_bits(1u64 << log_size);
            let plan = ShiftedPlan::<F>::new(size, shift).ok().unwrap();
            let evaluations = rng.elems::<F>(size);
            let row_len = F::bytes();
            let mut rows = pack::<F>(&[evaluations.clone()]);
            let mut scratch = vec![0u8; conversion_scratch_elements(size) * row_len];
            inverse_interpolate_bytes::<F>(&mut rows, row_len, plan.plan(), &mut scratch)
                .unwrap();
            let monomial: Vec<F::Elem> =
                (0..size).map(|d| decode::<F>(&rows[d * row_len..(d + 1) * row_len])).collect();
            for (point, &evaluation) in evaluations.iter().enumerate() {
                assert_eq!(
                    horner::<F>(&monomial, plan.point_element(point)),
                    evaluation,
                    "affine R(point) != received at size {size} point {point}"
                );
            }
        }
    }
    let mut rng = Rng(0x6c62_2c73);
    check::<Gf8B>(&mut rng);
    check::<Gf16>(&mut rng);
}

/// Conversion of packed rows converts every lane on its own.
#[test]
fn conversion_acts_on_each_lane() {
    let plan = TransformPlan::<Gf8B>::new(8).unwrap();
    let lanes = 3usize;
    let rows: Vec<u8> = (0..24u8).map(|i| i.wrapping_mul(37).wrapping_add(11)).collect();
    let mut packed = rows.clone();
    let mut scratch = vec![0u8; 64];
    novel_to_monomial_bytes(&mut packed, lanes, &plan, &mut scratch).unwrap();
    for lane in 0..lanes {
        let mut single: Vec<u8> = (0..8).map(|r| rows[r * lanes + lane]).collect();
        novel_to_monomial(&mut single, &plan).unwrap();
        let column: Vec<u8> = (0..8).map(|r| packed[r * lanes + lane]).collect();
        assert_eq!(column, single);
    }
}

/// A prefix is the start of the basis, and a copied map converts as the first.
#[test]
fn prefixes_start_the_basis() {
    let cantor = CantorBasis::<Gf8B>::build().unwrap();
    assert_eq!(OrderedBasis::<Gf8B>::prefix(&cantor, 3), cantor.elements()[..3].to_vec());
    assert_eq!(OrderedBasis::<Gf8B>::prefix(&BitBasis, 3), vec![1, 2, 4]);
    let map = CoordinateMap::<Gf8B>::new(cantor.elements()).unwrap();
    let copy = map.clone();
    for x in 0..=255u8 {
        assert_eq!(copy.to_coordinates(x), map.to_coordinates(x));
    }
}
