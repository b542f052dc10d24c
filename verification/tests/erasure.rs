//! Generator rows and targeted recovery.

use butterfly_fft::field::{self, Gf16, Gf8B};
use butterfly_fft::kernel::{xor_scaled_bytes_rows, ButterflyKernels};
use butterfly_fft::rs::{generator_row, inverse_scratch_elements, invert_square_into};
use butterfly_fft::TransformPlan;

/// The locator of the first `systematic` points at every further point, and its
/// derivative at each of them, straight from the definition.
fn systematic_locator<F: ButterflyKernels>(
    plan: &TransformPlan<F>,
    systematic: usize,
) -> (Vec<F::Elem>, Vec<F::Elem>) {
    let size = plan.size();
    let mut values = vec![field::zero::<F>(); size];
    let mut derivatives = vec![field::zero::<F>(); size];
    for point in 0..size {
        let mut product = field::one::<F>();
        for erased in 0..systematic {
            if erased != point {
                let difference =
                    field::plus::<F>(plan.point_element(point), plan.point_element(erased));
                product = field::times::<F>(product, difference);
            }
        }
        if point < systematic {
            derivatives[point] = product;
        } else {
            values[point] = product;
        }
    }
    (values, derivatives)
}

#[test]
fn generator_rows_reproduce_the_systematic_encoding() {
    for (log_size, systematic) in [(3usize, 5usize), (4, 9), (5, 20), (6, 33)] {
        let size = 1usize << log_size;
        let plan = TransformPlan::<Gf16>::new(size).unwrap();
        let (values, derivatives) = systematic_locator(&plan, systematic);
        let mut evaluations = vec![0u16; size];
        for (index, slot) in evaluations[..systematic].iter_mut().enumerate() {
            let seed = u16::try_from(index).expect("small index");
            *slot = seed.wrapping_mul(7_919).wrapping_add(3);
        }
        plan.forward(&mut evaluations).unwrap();
        let data = evaluations[..systematic].to_vec();

        let mut row = vec![0u16; systematic];
        for (point, &expected) in evaluations.iter().enumerate().skip(systematic) {
            generator_row(&plan, &values, &derivatives, point, &mut row);
            let combined = row
                .iter()
                .zip(data.iter())
                .fold(0u16, |accumulator, (&coefficient, &value)| {
                    accumulator ^ field::times::<Gf16>(coefficient, value)
                });
            assert_eq!(combined, expected, "point {point} of {size}");
        }
    }
}

#[test]
fn generator_rows_work_over_gf8() {
    let plan = TransformPlan::<Gf8B>::new(8).unwrap();
    let (values, derivatives) = systematic_locator(&plan, 5);
    let mut row = vec![0u8; 5];
    for point in 5..8 {
        generator_row(&plan, &values, &derivatives, point, &mut row);
        assert!(row.iter().all(|&coefficient| coefficient != 0));
    }
}

/// With one systematic point, every codeword is constant and the row is one.
#[test]
fn single_point_rows_are_one() {
    let plan = TransformPlan::<Gf8B>::new(4).unwrap();
    let (values, derivatives) = systematic_locator(&plan, 1);
    let mut row = vec![0u8; 1];
    for point in 1..4 {
        generator_row(&plan, &values, &derivatives, point, &mut row);
        assert_eq!(row, vec![1]);
    }
    // Two points 0 and 1: the value at 2 is 3 * f(0) + 2 * f(1).
    let (values, derivatives) = systematic_locator(&plan, 2);
    let mut row = vec![0u8; 2];
    generator_row(&plan, &values, &derivatives, 2, &mut row);
    assert_eq!(row, vec![3, 2]);
}

fn recover<F: ButterflyKernels>(
    data_points: usize,
    size: usize,
    row_len: usize,
    lost: &[usize],
    shift: u64,
) {
    let basis: Vec<F::Elem> = (0..size.trailing_zeros()).map(|i| F::from_bits(1 << i)).collect();
    let plan = TransformPlan::<F>::with_shift(size, &basis, F::from_bits(shift)).unwrap();
    let missing = lost.len();
    let mut codeword: Vec<u8> = (0..size * row_len)
        .map(|i| if i < data_points * row_len { (i * 37 + 11) as u8 } else { 0 })
        .collect();
    plan.forward_bytes(&mut codeword, row_len).unwrap();
    let data = codeword[..data_points * row_len].to_vec();
    let repairs = codeword[data_points * row_len..].to_vec();

    let (values, derivatives) = systematic_locator(&plan, data_points);
    let mut generator = vec![field::zero::<F>(); missing * data_points];
    for row in 0..missing {
        generator_row(
            &plan,
            &values,
            &derivatives,
            data_points + row,
            &mut generator[row * data_points..(row + 1) * data_points],
        );
    }
    let mut system = vec![field::zero::<F>(); missing * missing];
    for row in 0..missing {
        for (column, &point) in lost.iter().enumerate() {
            system[row * missing + column] = generator[row * data_points + point];
        }
    }
    let mut augmented = vec![field::zero::<F>(); inverse_scratch_elements(missing)];
    let mut inverse = vec![field::zero::<F>(); missing * missing];
    assert!(invert_square_into::<F>(&system, missing, &mut augmented, &mut inverse));

    let mut residuals = repairs[..missing * row_len].to_vec();
    let mut coefficients = vec![field::zero::<F>(); missing];
    for point in 0..data_points {
        if lost.contains(&point) {
            continue;
        }
        for row in 0..missing {
            coefficients[row] = generator[row * data_points + point];
        }
        let source = &data[point * row_len..(point + 1) * row_len];
        xor_scaled_bytes_rows::<F>(&mut residuals, row_len, &coefficients, source);
    }
    let mut recovered = vec![0u8; missing * row_len];
    for residual in 0..missing {
        for row in 0..missing {
            coefficients[row] = inverse[row * missing + residual];
        }
        let source = &residuals[residual * row_len..(residual + 1) * row_len];
        xor_scaled_bytes_rows::<F>(&mut recovered, row_len, &coefficients, source);
    }
    for (row, &point) in lost.iter().enumerate() {
        assert_eq!(
            &recovered[row * row_len..(row + 1) * row_len],
            &data[point * row_len..(point + 1) * row_len],
            "data point {point}"
        );
    }
}

#[test]
fn lost_rows_come_back_from_repairs() {
    recover::<Gf16>(8, 16, 4, &[0], 0);
    recover::<Gf16>(8, 16, 4, &[3, 5], 0);
    recover::<Gf16>(9, 16, 6, &[0, 4, 8], 0);
    recover::<Gf16>(17, 32, 2, &[1, 2, 3, 15, 16], 0);
    recover::<Gf8B>(5, 8, 3, &[1, 4], 0);
    recover::<Gf16>(9, 16, 6, &[0, 4, 8], 0x4d21);
}

/// The points of a plan are distinct, and the vanishing polynomial is the product
/// of their differences from a point.
#[test]
fn points_are_distinct_and_locate_themselves() {
    let basis = [0x35u8, 0x02, 0xc1];
    let plan = TransformPlan::<Gf8B>::with_shift(8, &basis, 0x77).unwrap();
    let points = plan.points();
    for i in 0..8 {
        for j in 0..i {
            assert_ne!(points[i], points[j]);
        }
    }
    let vanishing = plan.vanishing_polynomial();
    for x in 0..=255u8 {
        let product = points.iter().fold(1u8, |acc, &p| field::times::<Gf8B>(acc, x ^ p));
        let value = vanishing.iter().rev().fold(0u8, |acc, &c| field::times::<Gf8B>(acc, x) ^ c);
        assert_eq!(value, product);
    }
}
