//! Polynomials in the monomial basis over arbitrary affine subspaces: convert,
//! then transform. Ground truth is Horner over the monomial coefficients.

use std::fmt::Debug;

use butterfly_fft::basis::{
    monomial_to_novel, novel_to_monomial, BitBasis, CantorBasis, CoordinateMap, OrderedBasis,
};
use butterfly_fft::field::{self, Gf16, Gf8B};
use butterfly_fft::kernel::ButterflyKernels;
use butterfly_fft::shifted::ShiftedPlan;
use butterfly_fft::TransformPlan;

struct Rng(u64);

impl Rng {
    fn next_u64(&mut self) -> u64 {
        self.0 ^= self.0 << 13;
        self.0 ^= self.0 >> 7;
        self.0 ^= self.0 << 17;
        self.0
    }

    fn elem<F: ButterflyKernels>(&mut self) -> F::Elem {
        let mut wide = [0u8; 8];
        let width = F::bytes();
        wide[..width].copy_from_slice(&self.next_u64().to_le_bytes()[..width]);
        F::from_bits(u64::from_le_bytes(wide))
    }

    fn elems<F: ButterflyKernels>(&mut self, count: usize) -> Vec<F::Elem> {
        (0..count).map(|_| self.elem::<F>()).collect()
    }
}

fn horner<F: ButterflyKernels>(coefficients: &[F::Elem], point: F::Elem) -> F::Elem {
    coefficients.iter().rev().fold(field::zero::<F>(), |accumulator, &coefficient| {
        field::plus::<F>(field::times::<F>(accumulator, point), coefficient)
    })
}

/// A random affine subspace: an independent direction basis plus a shift.
fn random_subspace<F: ButterflyKernels>(rng: &mut Rng, dimension: usize) -> (Vec<F::Elem>, F::Elem) {
    let map = CoordinateMap::<F>::of(&BitBasis).expect("bit basis is full");
    let mut directions: Vec<F::Elem> = Vec::new();
    let mut spanned: Vec<u64> = Vec::new();
    while directions.len() < dimension {
        let candidate = rng.elem::<F>();
        let mut reduced = map.to_coordinates(candidate);
        for &pivot in &spanned {
            reduced = reduced.min(reduced ^ pivot);
        }
        if reduced == 0 {
            continue;
        }
        for pivot in &mut spanned {
            *pivot = (*pivot).min(*pivot ^ reduced);
        }
        spanned.push(reduced);
        directions.push(candidate);
    }
    (directions, rng.elem::<F>())
}

fn evaluate_over_affine_subspace<F: ButterflyKernels>(seed: u64)
where
    F::Elem: PartialEq + Debug,
{
    let mut rng = Rng(seed);
    for dimension in 1..=7usize {
        let size = 1 << dimension;
        let (directions, shift) = random_subspace::<F>(&mut rng, dimension);
        let plan = ShiftedPlan::<F>::from_elements(size, &directions, shift).ok().unwrap();

        let monomial = rng.elems::<F>(size);

        // Convert over the coset's direction basis, then transform.
        let mut values = monomial.clone();
        monomial_to_novel::<F>(&mut values, plan.plan()).unwrap();
        plan.forward(&mut values).unwrap();

        for (index, &value) in values.iter().enumerate() {
            let point = plan.point_element(index);
            assert_eq!(
                value,
                horner::<F>(&monomial, point),
                "dimension {dimension} point {index}"
            );
        }

        // The point set really is the affine subspace: distinct points.
        let points = plan.points();
        assert_eq!(points[0], shift);
        let mut patterns: Vec<u64> = points.iter().map(|&point| F::to_bits(point)).collect();
        patterns.sort_unstable();
        patterns.dedup();
        assert_eq!(patterns.len(), size, "coset points are not distinct");
    }
}

#[test]
fn monomial_polynomial_over_an_arbitrary_affine_subspace() {
    evaluate_over_affine_subspace::<Gf8B>(0x1111_2222_3333_4444);
    evaluate_over_affine_subspace::<Gf16>(0x4444_3333_2222_1111);
}

/// Truncation composes with the shift.
#[test]
fn truncated_forward_composes_with_a_shift() {
    let mut rng = Rng(0xcafe_f00d_1234_5678);
    for dimension in 1..=6usize {
        let size = 1 << dimension;
        let (directions, shift) = random_subspace::<Gf16>(&mut rng, dimension);
        let plan = ShiftedPlan::<Gf16>::from_elements(size, &directions, shift).ok().unwrap();
        let row_len = 2;

        for active in 1..=size {
            let mut monomial = rng.elems::<Gf16>(size);
            monomial[active..].fill(0);

            // The novel coefficients of a polynomial of degree below `active`
            // occupy exactly the first `active` slots.
            let mut novel = monomial.clone();
            monomial_to_novel::<Gf16>(&mut novel, plan.plan()).unwrap();
            assert!(
                novel[active..].iter().all(|&value| value == 0),
                "novel tail not zero for active {active}"
            );

            let mut rows: Vec<u8> = novel.iter().flat_map(|value| value.to_le_bytes()).collect();
            plan.forward_bytes_trunc_range(&mut rows, row_len, active, 0..size).unwrap();

            for index in 0..size {
                let value = u16::from_le_bytes([rows[2 * index], rows[2 * index + 1]]);
                assert_eq!(
                    value,
                    horner::<Gf16>(&monomial, plan.point_element(index)),
                    "dimension {dimension} active {active} point {index}"
                );
            }
        }
    }
}

/// Coset evaluations back to monomial coefficients.
#[test]
fn coset_interpolation_recovers_monomial_coefficients() {
    let mut rng = Rng(0x0bad_c0de_dead_10cc);
    for dimension in 1..=7usize {
        let size = 1 << dimension;
        let (directions, shift) = random_subspace::<Gf16>(&mut rng, dimension);
        let plan = ShiftedPlan::<Gf16>::from_elements(size, &directions, shift).ok().unwrap();

        let monomial = rng.elems::<Gf16>(size);
        let mut values: Vec<u16> = (0..size)
            .map(|index| horner::<Gf16>(&monomial, plan.point_element(index)))
            .collect();

        plan.inverse(&mut values).unwrap();
        novel_to_monomial::<Gf16>(&mut values, plan.plan()).unwrap();
        assert_eq!(values, monomial, "dimension {dimension}");
    }
}

/// The Cantor basis is a drop-in domain basis.
#[test]
fn cantor_domain_basis_behaves_like_any_other() {
    let cantor = CantorBasis::<Gf16>::build().ok().unwrap();
    let mut rng = Rng(0x5eed_5eed_5eed_5eed);
    for dimension in 1..=8usize {
        let size = 1 << dimension;
        let plan =
            TransformPlan::<Gf16>::with_basis(size, &cantor.prefix(dimension)).ok().unwrap();

        let monomial = rng.elems::<Gf16>(size);
        let mut values = monomial.clone();
        monomial_to_novel::<Gf16>(&mut values, &plan).unwrap();
        plan.forward(&mut values).unwrap();
        for (index, &value) in values.iter().enumerate() {
            assert_eq!(value, horner::<Gf16>(&monomial, plan.point_element(index)));
        }
    }
}

/// Bit and Cantor coordinate maps invert each other.
#[test]
fn change_of_basis_matrices_invert() {
    let cantor8 = CantorBasis::<Gf8B>::build().ok().unwrap();
    let map = CoordinateMap::<Gf8B>::of(&cantor8).unwrap();
    for pattern in 0..256u64 {
        let element = pattern as u8;
        assert_eq!(map.to_element(map.to_coordinates(element)), element);
        let coordinates = pattern;
        assert_eq!(map.to_coordinates(map.to_element(coordinates)), coordinates);
    }

    let cantor16 = CantorBasis::<Gf16>::build().ok().unwrap();
    let map = CoordinateMap::<Gf16>::of(&cantor16).unwrap();
    let mut rng = Rng(0xa5a5_5a5a_a5a5_5a5a);
    for _ in 0..2048 {
        let element = rng.elem::<Gf16>();
        assert_eq!(map.to_element(map.to_coordinates(element)), element);
    }

    // The coordinates select the Cantor elements that add up to the element.
    for _ in 0..256 {
        let element = rng.elem::<Gf16>();
        let coordinates = map.to_coordinates(element);
        let mut rebuilt = 0u16;
        for bit in 0..16 {
            if coordinates & (1 << bit) != 0 {
                rebuilt ^= OrderedBasis::<Gf16>::element(&cantor16, bit);
            }
        }
        assert_eq!(rebuilt, element);
    }
}
