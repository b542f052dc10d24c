//! Multiplicative transforms: convention, inversion, lane independence,
//! noncanonical input, and rejected geometry.

use std::fmt::Debug;

use butterfly_fft::field::{Gf16, Gf8B};
use butterfly_fft::ntt::plan::{fill_stage_offsets, stage_offsets};
use butterfly_fft::ntt::prime::{GOLDILOCKS_MODULUS, MERSENNE31_MODULUS};
use butterfly_fft::ntt::stages::bit_reversal;
use butterfly_fft::ntt::transpose::transpose_slots;
use butterfly_fft::ntt::{
    FourStepPlan, Goldilocks, Mersenne31, NttError, NttField, NttPlan, NttScratch, QuadMersenne31,
};

/// Deterministic xorshift.
struct Rng(u64);

impl Rng {
    fn next_u64(&mut self) -> u64 {
        self.0 ^= self.0 << 13;
        self.0 ^= self.0 >> 7;
        self.0 ^= self.0 << 17;
        self.0
    }

    /// A canonical element from raw bytes.
    fn elem<F: NttField>(&mut self) -> F::Elem {
        read::<F>(&self.next_u64().to_le_bytes()[..F::element_bytes()])
    }

    fn elems<F: NttField>(&mut self, count: usize) -> Vec<F::Elem> {
        (0..count).map(|_| self.elem::<F>()).collect()
    }
}

fn word(bytes: &[u8]) -> u64 {
    let mut wide = [0u8; 8];
    wide[..bytes.len()].copy_from_slice(bytes);
    u64::from_le_bytes(wide)
}

fn read<F: NttField>(bytes: &[u8]) -> F::Elem {
    F::decode(word(bytes))
}

fn write<F: NttField>(bytes: &mut [u8], value: F::Elem) {
    let width = F::element_bytes();
    bytes.copy_from_slice(&F::encode(value).to_le_bytes()[..width]);
}

fn pack<F: NttField>(values: &[F::Elem]) -> Vec<u8> {
    let mut bytes = vec![0u8; values.len() * F::element_bytes()];
    for (slot, &value) in bytes.chunks_exact_mut(F::element_bytes()).zip(values) {
        write::<F>(slot, value);
    }
    bytes
}

fn unpack<F: NttField>(bytes: &[u8]) -> Vec<F::Elem> {
    bytes.chunks_exact(F::element_bytes()).map(read::<F>).collect()
}

/// Independent direct transform: `Y[k] = sum of x[j] * root^(j k)`.
fn direct_dft<F: NttField>(input: &[F::Elem], root: F::Elem) -> Vec<F::Elem> {
    let size = input.len();
    (0..size)
        .map(|k| {
            let mut total = F::zero();
            for (j, &value) in input.iter().enumerate() {
                let exponent = (j * k) % size;
                total = F::plus(total, F::times(value, F::power(root, exponent as u64)));
            }
            total
        })
        .collect()
}

/// Forward matches the direct DFT, and the inverse restores the input.
fn check_size<F: NttField>(size: usize, seed: u64)
where
    F::Elem: PartialEq + Debug,
{
    let plan = NttPlan::<F>::new(size).ok().expect("supported size");
    assert_eq!(plan.size(), size);

    let mut rng = Rng(seed);
    let input = rng.elems::<F>(size);
    let expected = direct_dft::<F>(&input, plan.root());

    let mut rows = pack::<F>(&input);
    let width = F::element_bytes();
    let mut scratch = plan.scratch(width).expect("scratch");
    plan.forward_bytes_scratch(&mut rows, width, &mut scratch).expect("forward");
    assert_eq!(unpack::<F>(&rows), expected, "size {size}: forward output disagrees");

    plan.inverse_bytes_scratch(&mut rows, width, &mut scratch).expect("inverse");
    assert_eq!(unpack::<F>(&rows), input, "size {size}: inverse did not restore the input");
}

/// Three lanes per row transform independently and agree with three separate
/// single-lane transforms.
fn check_lanes<F: NttField>(size: usize, seed: u64)
where
    F::Elem: PartialEq + Debug,
{
    check_lanes_width::<F>(size, seed, 3);
}

fn check_lanes_width<F: NttField>(size: usize, seed: u64, lanes_count: usize)
where
    F::Elem: PartialEq + Debug,
{
    let width = F::element_bytes();
    let mut rng = Rng(seed);
    let lanes: Vec<Vec<F::Elem>> = (0..lanes_count).map(|_| rng.elems::<F>(size)).collect();

    let row_len = lanes_count * width;
    let plan = NttPlan::<F>::new(size).ok().expect("supported size");
    let mut rows = vec![0u8; size * row_len];
    for point in 0..size {
        for (lane, values) in lanes.iter().enumerate() {
            let at = point * row_len + lane * width;
            write::<F>(&mut rows[at..at + width], values[point]);
        }
    }

    let mut scratch = plan.scratch(row_len).expect("scratch");
    plan.forward_bytes_scratch(&mut rows, row_len, &mut scratch).expect("forward");

    for (lane, values) in lanes.iter().enumerate() {
        let mut single = pack::<F>(values);
        let mut narrow = plan.scratch(width).expect("scratch");
        plan.forward_bytes_scratch(&mut single, width, &mut narrow).expect("forward");
        let expected = unpack::<F>(&single);
        let got: Vec<F::Elem> = (0..size)
            .map(|point| {
                let at = point * row_len + lane * width;
                read::<F>(&rows[at..at + width])
            })
            .collect();
        assert_eq!(got, expected, "lane {lane} size {size}");
    }

    plan.inverse_bytes_scratch(&mut rows, row_len, &mut scratch).expect("inverse");
    for point in 0..size {
        for (lane, values) in lanes.iter().enumerate() {
            let at = point * row_len + lane * width;
            assert_eq!(read::<F>(&rows[at..at + width]), values[point]);
        }
    }
}

fn forward_of<F: NttField>(plan: &NttPlan<F>, raw: &[u8]) -> Vec<F::Elem> {
    let width = F::element_bytes();
    let mut rows = raw.to_vec();
    let mut scratch = plan.scratch(width).expect("scratch");
    plan.forward_bytes_scratch(&mut rows, width, &mut scratch).expect("forward");
    unpack::<F>(&rows)
}

fn sizes() -> &'static [usize] {
    &[1, 2, 4, 8, 32, 256]
}

#[test]
fn goldilocks_forward_matches_direct_dft() {
    for &size in sizes() {
        check_size::<Goldilocks>(size, 0x1234_5678_9abc_def1);
    }
}

#[test]
fn quad_mersenne31_forward_matches_direct_dft() {
    for &size in sizes() {
        check_size::<QuadMersenne31>(size, 0x0f0f_1e2d_3c4b_5a69);
    }
}

#[test]
fn goldilocks_lanes_are_independent() {
    for &size in sizes() {
        check_lanes::<Goldilocks>(size, 0xdead_beef_cafe_0001);
    }
}

#[test]
fn quad_mersenne31_lanes_are_independent() {
    for &size in sizes() {
        check_lanes::<QuadMersenne31>(size, 0x0bad_c0de_1357_9bdf);
    }
}

#[test]
fn quad_mersenne31_wide_rows_match_single_lane_transforms() {
    for lanes in [4usize, 16] {
        check_lanes_width::<QuadMersenne31>(32, 0x0def_ec7a_0000_0000 + lanes as u64, lanes);
    }
}

#[test]
fn goldilocks_noncanonical_input_matches_canonical() {
    let plan = NttPlan::<Goldilocks>::new(8).ok().expect("supported size");
    let modulus = GOLDILOCKS_MODULUS;

    // Raw `p` and raw `p + 1` are noncanonical encodings of 0 and 1.
    let raw: Vec<u64> = vec![
        modulus,
        modulus + 1,
        modulus + 5,
        u64::MAX,
        0,
        3,
        modulus,
        modulus + 2,
    ];
    let raw_bytes: Vec<u8> = raw.iter().flat_map(|lane| lane.to_le_bytes()).collect();
    let canonical: Vec<u64> = raw.iter().map(|&lane| Goldilocks::decode(lane)).collect();
    let canonical_bytes = pack::<Goldilocks>(&canonical);
    assert_ne!(raw_bytes, canonical_bytes, "fixture must actually be noncanonical");

    assert_eq!(forward_of(&plan, &raw_bytes), forward_of(&plan, &canonical_bytes));
}

#[test]
fn quad_mersenne31_noncanonical_input_matches_canonical() {
    let plan = NttPlan::<QuadMersenne31>::new(8).ok().expect("supported size");
    let modulus = MERSENNE31_MODULUS;

    let raw: Vec<(u32, u32)> = vec![
        (modulus, modulus),
        (modulus, 4),
        (7, modulus),
        (u32::MAX, u32::MAX),
        (0, 0),
        (modulus, 1),
        (2, 3),
        (modulus, modulus),
    ];
    let mut raw_bytes = Vec::new();
    for (re, im) in raw {
        raw_bytes.extend_from_slice(&re.to_le_bytes());
        raw_bytes.extend_from_slice(&im.to_le_bytes());
    }
    let canonical_bytes = pack::<QuadMersenne31>(&unpack::<QuadMersenne31>(&raw_bytes));
    assert_ne!(raw_bytes, canonical_bytes, "fixture must actually be noncanonical");

    assert_eq!(forward_of(&plan, &raw_bytes), forward_of(&plan, &canonical_bytes));
}

#[test]
fn invalid_sizes_are_rejected() {
    assert_eq!(
        NttPlan::<Goldilocks>::new(3).unwrap_err(),
        NttError::InvalidSize { size: 3 }
    );
    assert_eq!(
        NttPlan::<Goldilocks>::new(0).unwrap_err(),
        NttError::InvalidSize { size: 0 }
    );
    assert_eq!(
        NttPlan::<QuadMersenne31>::new(3).unwrap_err(),
        NttError::InvalidSize { size: 3 }
    );
}

#[test]
fn oversized_domain_is_rejected() {
    let size = 1usize << 21;
    assert_eq!(
        NttPlan::<Goldilocks>::new(size).unwrap_err(),
        NttError::UnsupportedSize { size, field_order: Goldilocks::field_order() }
    );
}

/// `|F| - 1` is odd for the binary fields and `2 (2^30 - 1)` for base
/// Mersenne31, so none of them has a fourth root of unity; all three still
/// accept the identity transform.
#[test]
fn fields_without_a_domain_reject_size_four() {
    fn reject<F: NttField>() {
        assert_eq!(
            NttPlan::<F>::new(4).err().expect("size four is not supported"),
            NttError::UnsupportedSize { size: 4, field_order: F::field_order() },
        );
    }
    reject::<Gf8B>();
    reject::<Gf16>();
    reject::<Mersenne31>();
}

#[test]
fn size_one_is_the_identity_everywhere() {
    fn identity<F: NttField>(seed: u64)
    where
        F::Elem: PartialEq + Debug,
    {
        let width = F::element_bytes();
        let plan = NttPlan::<F>::new(1).ok().expect("size one is always legal");
        assert_eq!(plan.size(), 1);
        let mut rng = Rng(seed);
        let input = rng.elems::<F>(1);
        let mut rows = pack::<F>(&input);
        let mut scratch = plan.scratch(width).expect("scratch");
        plan.forward_bytes_scratch(&mut rows, width, &mut scratch).expect("forward");
        assert_eq!(unpack::<F>(&rows), input, "forward");
        plan.inverse_bytes_scratch(&mut rows, width, &mut scratch).expect("inverse");
        assert_eq!(unpack::<F>(&rows), input, "inverse");
    }
    identity::<Gf8B>(0x9e37_79b9_7f4a_7c15);
    identity::<Gf16>(0x517c_c1b7_2722_0a95);
    identity::<Mersenne31>(0x2545_f491_4f6c_dd1d);
    identity::<Goldilocks>(0x1405_7b7e_f767_814f);
    identity::<QuadMersenne31>(0x0123_4567_89ab_cdef);
}

/// Mersenne31 is the boundary case: size two is the only nontrivial radix-two
/// domain it has.
#[test]
fn mersenne31_admits_only_size_two() {
    check_size::<Mersenne31>(2, 0x3141_5926_5358_9793);
    assert!(NttPlan::<Mersenne31>::new(8).is_err());
}

#[test]
fn validation_errors_leave_the_destination_untouched() {
    let plan = NttPlan::<Goldilocks>::new(4).ok().expect("supported size");
    let element = Goldilocks::element_bytes();
    let row_len = 2 * element;
    let mut scratch = plan.scratch(row_len).expect("scratch");

    let mut rng = Rng(0x7f4a_7c15_9e37_79b9);
    let input = rng.elems::<Goldilocks>(8);
    let pristine = pack::<Goldilocks>(&input);

    // Wrong buffer length.
    let mut rows = pristine.clone();
    assert_eq!(
        plan.forward_bytes_scratch(&mut rows[..3 * row_len], row_len, &mut scratch)
            .unwrap_err(),
        NttError::BufferLength { expected: 4 * row_len, actual: 3 * row_len }
    );
    assert_eq!(rows, pristine, "buffer-length rejection mutated the rows");

    // Row length that is not a whole number of elements.
    let ragged = row_len + 1;
    let mut rows = pristine.clone();
    assert_eq!(
        plan.forward_bytes_scratch(&mut rows, ragged, &mut scratch).unwrap_err(),
        NttError::InvalidRowLength { row_len: ragged, element_bytes: element }
    );
    assert_eq!(rows, pristine, "row-length rejection mutated the rows");

    // Scratch built for a shorter row.
    let mut narrow = plan.scratch(element).expect("scratch");
    let mut rows = pristine.clone();
    assert_eq!(
        plan.forward_bytes_scratch(&mut rows, row_len, &mut narrow).unwrap_err(),
        NttError::ScratchTooSmall { required: row_len, available: element }
    );
    assert_eq!(rows, pristine, "scratch rejection mutated the rows");

    assert_eq!(
        plan.inverse_bytes_scratch(&mut rows, row_len, &mut narrow).unwrap_err(),
        NttError::ScratchTooSmall { required: row_len, available: element }
    );
    assert_eq!(rows, pristine, "inverse scratch rejection mutated the rows");

    // Plan and scratch survive the rejections: a valid call still runs, and
    // still agrees with the direct DFT lane by lane.
    plan.forward_bytes_scratch(&mut rows, row_len, &mut scratch)
        .expect("forward after rejections");
    for lane in 0..2 {
        let lane_input: Vec<_> = (0..4).map(|point| input[point * 2 + lane]).collect();
        let expected = direct_dft::<Goldilocks>(&lane_input, plan.root());
        let got: Vec<_> = (0..4)
            .map(|point| {
                let at = point * row_len + lane * element;
                read::<Goldilocks>(&rows[at..at + element])
            })
            .collect();
        assert_eq!(got, expected);
    }
    plan.inverse_bytes_scratch(&mut rows, row_len, &mut scratch)
        .expect("inverse after rejections");
    assert_eq!(rows, pristine);
}

#[test]
fn scratch_rejects_a_ragged_row_length() {
    let plan = NttPlan::<Goldilocks>::new(4).ok().expect("supported size");
    assert_eq!(
        plan.scratch(5).unwrap_err(),
        NttError::InvalidRowLength { row_len: 5, element_bytes: Goldilocks::element_bytes() }
    );
}

#[test]
fn zero_row_length_is_rejected() {
    let plan = NttPlan::<Goldilocks>::new(4).ok().expect("supported size");
    let error = NttError::InvalidRowLength {
        row_len: 0,
        element_bytes: Goldilocks::element_bytes(),
    };
    assert_eq!(plan.scratch(0).unwrap_err(), error);
    let mut scratch = plan.scratch(8).expect("scratch");
    let mut rows: Vec<u8> = Vec::new();
    assert_eq!(plan.forward_bytes_scratch(&mut rows, 0, &mut scratch).unwrap_err(), error);
    assert_eq!(plan.inverse_bytes_scratch(&mut rows, 0, &mut scratch).unwrap_err(), error);
    assert!(rows.is_empty());
}

/// A scratch carries the element width it was built for, so handing a
/// QuadMersenne31 plan a Mersenne31 scratch is rejected even though the row is
/// long enough in bytes.
#[test]
fn scratch_from_a_different_field_is_rejected() {
    let m31 = NttPlan::<Mersenne31>::new(2).ok().expect("supported size");
    let mut foreign: NttScratch =
        m31.scratch(8 * Mersenne31::element_bytes()).expect("scratch");

    let plan = NttPlan::<QuadMersenne31>::new(4).ok().expect("supported size");
    let element = QuadMersenne31::element_bytes();
    let mut rows = vec![0u8; 4 * element];
    assert_eq!(
        plan.forward_bytes_scratch(&mut rows, element, &mut foreign).unwrap_err(),
        NttError::ScratchFieldMismatch {
            scratch_element_bytes: Mersenne31::element_bytes(),
            field_element_bytes: element,
        }
    );
}

#[test]
fn overflowing_geometry_is_rejected() {
    let plan = NttPlan::<Goldilocks>::new(4).ok().expect("supported size");
    let mut scratch = plan.scratch(8).expect("scratch");
    let mut rows = vec![0u8; 32];
    let row_len = usize::MAX / 2 + 1;
    assert_eq!(
        plan.forward_bytes_scratch(&mut rows, row_len, &mut scratch).unwrap_err(),
        NttError::GeometryOverflow
    );
}

fn check_schedules_agree<F: NttField>(size: usize, lanes: usize, seed: u64) {
    let row_len = lanes * F::element_bytes();
    let plan = NttPlan::<F>::new(size).ok().expect("supported size");
    let mut rng = Rng(seed);
    let mut fused = vec![0u8; size * row_len];
    for slot in fused.chunks_exact_mut(8) {
        slot.copy_from_slice(&rng.next_u64().to_le_bytes());
    }
    let mut packed = fused.clone();
    let mut scratch = plan.scratch(row_len).expect("scratch");

    plan.forward_fused(&mut fused, row_len, &mut scratch).expect("geometry");
    plan.forward_packed(&mut packed, row_len, &mut scratch).expect("geometry");
    assert_eq!(fused, packed, "size {size} lanes {lanes}: schedules disagree");
}

fn check_fused_matches_direct_dft<F: NttField>(size: usize, lanes: usize, seed: u64)
where
    F::Elem: PartialEq + Debug,
{
    let width = F::element_bytes();
    let row_len = lanes * width;
    let plan = NttPlan::<F>::new(size).ok().expect("supported size");
    let mut rng = Rng(seed);
    let mut rows = vec![0u8; size * row_len];
    for slot in rows.chunks_exact_mut(8) {
        slot.copy_from_slice(&rng.next_u64().to_le_bytes());
    }
    let original = rows.clone();
    let mut scratch = plan.scratch(row_len).expect("scratch");

    plan.forward_fused(&mut rows, row_len, &mut scratch).expect("geometry");
    let powers: Vec<F::Elem> = {
        let mut power = F::one();
        (0..size)
            .map(|_| {
                let now = power;
                power = F::times(power, plan.root());
                now
            })
            .collect()
    };
    for lane in 0..lanes {
        let input: Vec<F::Elem> = (0..size)
            .map(|point| {
                let at = point * row_len + lane * width;
                read::<F>(&original[at..at + width])
            })
            .collect();
        for point in 0..size {
            let mut want = F::zero();
            for (j, &value) in input.iter().enumerate() {
                want = F::plus(want, F::times(value, powers[(j * point) % size]));
            }
            let at = point * row_len + lane * width;
            assert_eq!(
                read::<F>(&rows[at..at + width]),
                want,
                "size {size} lane {lane}: fused forward disagrees with the direct DFT"
            );
        }
    }
}

fn agreement_sizes() -> &'static [usize] {
    &[1, 2, 4, 8, 16, 32, 64, 256, 1024]
}

fn lane_widths() -> &'static [usize] {
    &[1, 2, 4, 16]
}

#[test]
fn goldilocks_schedules_agree_below_the_packed_defect() {
    for &size in agreement_sizes() {
        for &lanes in lane_widths() {
            if size * lanes >= 256 {
                continue;
            }
            check_schedules_agree::<Goldilocks>(
                size,
                lanes,
                0x0f0f_1e2d ^ (size as u64) << 32 ^ lanes as u64,
            );
        }
    }
}

#[test]
fn goldilocks_fused_matches_direct_dft_at_wide_geometries() {
    for &size in &[256usize, 1024] {
        for &lanes in lane_widths() {
            check_fused_matches_direct_dft::<Goldilocks>(
                size,
                lanes,
                0x5eed_1234 ^ (size as u64) << 32 ^ lanes as u64,
            );
        }
    }
}

#[test]
fn quad_mersenne31_schedules_agree() {
    for &size in agreement_sizes() {
        for &lanes in lane_widths() {
            check_schedules_agree::<QuadMersenne31>(
                size,
                lanes,
                0x0bad_c0de ^ (size as u64) << 32 ^ lanes as u64,
            );
        }
    }
}

/// The arithmetic of the prime fields on values worked out by hand.
#[test]
fn prime_field_arithmetic_has_exact_values() {
    let p = GOLDILOCKS_MODULUS;
    assert_eq!(Goldilocks::times(p - 1, p - 1), 1);
    assert_eq!(Goldilocks::times(1 << 32, 1 << 32), (1u64 << 32) - 1);
    assert_eq!(Goldilocks::power(7, 3), 343);
    assert_eq!(Goldilocks::power(7, (p - 1) / 2), p - 1);
    assert_eq!(Goldilocks::times(Goldilocks::reciprocal(5), 5), 1);
    assert_eq!(Goldilocks::reciprocal(0), 0);
    assert_eq!(Goldilocks::minus(0, 1), p - 1);

    let q = MERSENNE31_MODULUS;
    assert_eq!(Mersenne31::times(q - 1, q - 1), 1);
    assert_eq!(Mersenne31::times(1 << 16, 1 << 15), 1);
    assert_eq!(Mersenne31::power(7, 2), 49);
    assert_eq!(Mersenne31::reciprocal(2), 0x4000_0000);
    assert_eq!(Mersenne31::plus(q - 1, 2), 1);

    let i = butterfly_fft::ntt::Quad { re: 0, im: 1 };
    let minus_one = butterfly_fft::ntt::Quad { re: q - 1, im: 0 };
    let one = butterfly_fft::ntt::Quad { re: 1, im: 0 };
    assert_eq!(QuadMersenne31::times(i, i), minus_one);
    assert_eq!(QuadMersenne31::power(i, 4), one);
    assert_eq!(QuadMersenne31::times(QuadMersenne31::reciprocal(i), i), one);
}

/// The forward transform of four points over Goldilocks, written out: the root
/// of order four is `2^48`.
#[test]
fn four_point_transform_has_exact_values() {
    let plan = NttPlan::<Goldilocks>::new(4).ok().expect("supported size");
    assert_eq!(plan.root(), 1 << 48);
    let mut rows = pack::<Goldilocks>(&[1, 0, 0, 0]);
    let mut scratch = plan.scratch(8).expect("scratch");
    plan.forward_bytes_scratch(&mut rows, 8, &mut scratch).expect("forward");
    assert_eq!(unpack::<Goldilocks>(&rows), vec![1, 1, 1, 1]);

    let mut rows = pack::<Goldilocks>(&[0, 1, 0, 0]);
    plan.forward_bytes_scratch(&mut rows, 8, &mut scratch).expect("forward");
    let p = GOLDILOCKS_MODULUS;
    assert_eq!(unpack::<Goldilocks>(&rows), vec![1, 1 << 48, p - 1, p - (1 << 48)]);
}

/// The transform of a cyclic convolution is the product of the transforms.
#[test]
fn products_of_transforms_are_cyclic_convolutions() {
    let p = 0xffff_ffff_0000_0001u128;
    let plan = NttPlan::<Goldilocks>::new(8).unwrap();
    let mut scratch = plan.scratch(8).unwrap();
    let x = [3u64, 1, 4, 1, 5, 9, 2, 6];
    let y = [2u64, 7, 1, 8, 2, 8, 0xffff_ffff_0000_0000, 8];
    let mut expected = [0u64; 8];
    for i in 0..8usize {
        for j in 0..8usize {
            let term = u128::from(x[i]) * u128::from(y[j]) % p;
            let sum = (u128::from(expected[(i + j) % 8]) + term) % p;
            expected[(i + j) % 8] = sum as u64;
        }
    }
    let bytes_of = |v: &[u64; 8]| -> Vec<u8> { v.iter().flat_map(|e| e.to_le_bytes()).collect() };
    let words_of = |b: &[u8]| -> Vec<u64> {
        b.chunks_exact(8).map(|c| u64::from_le_bytes(c.try_into().unwrap())).collect()
    };
    let (mut fx, mut fy) = (bytes_of(&x), bytes_of(&y));
    plan.forward_bytes_scratch(&mut fx, 8, &mut scratch).unwrap();
    plan.forward_bytes_scratch(&mut fy, 8, &mut scratch).unwrap();
    let mut product: Vec<u8> = words_of(&fx)
        .iter()
        .zip(words_of(&fy))
        .flat_map(|(&a, b)| ((u128::from(a) * u128::from(b) % p) as u64).to_le_bytes())
        .collect();
    plan.inverse_bytes_scratch(&mut product, 8, &mut scratch).unwrap();
    assert_eq!(words_of(&product), expected.to_vec());
}

/// No allocation holds more than `isize::MAX` bytes.
#[test]
fn scratch_reports_failed_allocations() {
    let plan = NttPlan::<Goldilocks>::new(8).unwrap();
    let row_len = usize::MAX - 7;
    assert_eq!(row_len % 8, 0);
    assert_eq!(plan.scratch(row_len).err(), Some(NttError::AllocationFailed));
    let least = (usize::MAX / 2 + 1) / 8 * 8;
    assert_eq!(plan.scratch(least).err(), Some(NttError::AllocationFailed));
    let four = FourStepPlan::<Goldilocks>::new(8).unwrap();
    assert_eq!(four.scratch(row_len).err(), Some(NttError::AllocationFailed));
    assert_eq!(
        four.scratch(usize::MAX).err(),
        Some(NttError::InvalidRowLength { row_len: usize::MAX, element_bytes: 8 })
    );
}

#[test]
fn stage_offsets_end_at_the_bits_of_a_word() {
    assert_eq!(stage_offsets(0).unwrap(), Vec::<usize>::new());
    assert_eq!(stage_offsets(5).unwrap(), vec![0, 1, 3, 7, 15]);
    let bits = usize::BITS as usize;
    let full = stage_offsets(bits).unwrap();
    assert_eq!(full.len(), bits);
    assert_eq!(full[bits - 1], usize::MAX / 2);
    assert_eq!(stage_offsets(bits + 1).err(), Some(NttError::GeometryOverflow));
    assert_eq!(fill_stage_offsets(Vec::new(), 200).err(), Some(NttError::GeometryOverflow));
    assert_eq!(bit_reversal(8, 3).unwrap(), vec![0, 4, 2, 6, 1, 5, 3, 7]);
}

#[test]
fn transposed_slots_come_back_and_the_tail_stays() {
    // Two rows of three slots of two bytes, and three bytes behind them.
    let first: Vec<u8> = (0..15).collect();
    let mut rows = first.clone();
    let (mut bits, mut temp) = (vec![0xffu8; 1], vec![9u8; 2]);
    transpose_slots(&mut rows, 2, 2, 3, &mut bits, &mut temp);
    assert_eq!(rows, vec![0, 1, 6, 7, 2, 3, 8, 9, 4, 5, 10, 11, 12, 13, 14]);
    transpose_slots(&mut rows, 2, 3, 2, &mut bits, &mut temp);
    assert_eq!(rows, first);
    transpose_slots(&mut rows, 2, 0, 3, &mut [], &mut temp);
    assert_eq!(rows, first);
}
