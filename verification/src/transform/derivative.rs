//! Formal derivatives in the novel basis.
//!
//! The normalized subspace polynomial `W_j` is linearized, so its formal
//! derivative is a constant, its slope. The product rule on
//! `f = f_low + W_j * f_high` gives `f' = (f_low' + slope_j * f_high) + W_j * f_high'`.

use vstd::arithmetic::div_mod::{lemma_fundamental_div_mod, lemma_fundamental_div_mod_converse};
use vstd::prelude::*;

use crate::field::{
    fadd, fmul, fzero, is_zero, lemma_add, lemma_mul, plus, times, zero, BinaryField,
};
use crate::kernel::{axpy, row_clear, row_mul_into, vadd, vscale, vzero, xor_scaled_bytes};
use crate::pack::{lemma_elem_bytes, lemma_unpack_concat, unpack, whole};
use crate::span::{lemma_span_monotone, span};
use crate::transform::model::{halves, high_half, lemma_halves_span, low_half};
use crate::transform::walk::{lemma_half_bytes, lemma_rows, rows_fit};

verus! {

/// The derivative of the novel-basis coefficient vector `v`.
pub open spec fn derivative_model<F: BinaryField>(
    v: Seq<F::Elem>,
    slopes: Seq<F::Elem>,
    dim: nat,
) -> Seq<F::Elem>
    decreases dim,
{
    if dim == 0 {
        vzero::<F>(v.len())
    } else {
        let d = (dim - 1) as nat;
        axpy::<F>(
            derivative_model::<F>(low_half(v), slopes, d),
            slopes[d as int],
            high_half(v),
        ) + derivative_model::<F>(high_half(v), slopes, d)
    }
}

pub proof fn lemma_derivative_len<F: BinaryField>(v: Seq<F::Elem>, slopes: Seq<F::Elem>, dim: nat)
    requires
        halves(v.len(), dim),
    ensures
        derivative_model::<F>(v, slopes, dim).len() == v.len(),
    decreases dim,
{
    if dim > 0 {
        lemma_derivative_len::<F>(low_half(v), slopes, (dim - 1) as nat);
        lemma_derivative_len::<F>(high_half(v), slopes, (dim - 1) as nat);
    }
}

/// The contribution of bit `j` to row `r`: `slope_j` times row `r + 2^j` where
/// bit `j` of `r` is clear, zero otherwise.
pub open spec fn derivative_term<F: BinaryField>(
    v: Seq<F::Elem>,
    slopes: Seq<F::Elem>,
    lanes: nat,
    r: int,
    lane: int,
    j: nat,
) -> F::Elem {
    if (r / (span(j) as int)) % 2 == 0 {
        fmul::<F>(slopes[j as int], v[(r + span(j)) * lanes + lane])
    } else {
        fzero::<F>()
    }
}

/// The sum of the contributions of the bits below `n` to row `r`.
pub open spec fn derivative_entry<F: BinaryField>(
    v: Seq<F::Elem>,
    slopes: Seq<F::Elem>,
    lanes: nat,
    r: int,
    lane: int,
    n: nat,
) -> F::Elem
    decreases n,
{
    if n == 0 {
        fzero::<F>()
    } else {
        fadd::<F>(
            derivative_entry::<F>(v, slopes, lanes, r, lane, (n - 1) as nat),
            derivative_term::<F>(v, slopes, lanes, r, lane, (n - 1) as nat),
        )
    }
}

/// Bit `j` of a row, for the rows of a half.
proof fn lemma_bit_of_half(r: int, d: nat, j: nat)
    requires
        0 <= r,
        j < d,
    ensures
        ((r + span(d)) / (span(j) as int)) % 2 == (r / (span(j) as int)) % 2,
        (r / (span(j) as int)) % 2 == 0 && r < span(d) ==> r + span(j) < span(d),
{
    lemma_span_monotone(j, d);
    let s = span(j) as int;
    let e = (d - j - 1) as nat;
    crate::span::lemma_span_add(e + 1, j);
    let m = span(e) as int;
    assert(span(e + 1) == 2 * m);
    lemma_fundamental_div_mod(r, s);
    let q = r / s;
    let t = r % s;
    assert(span(d) == 2 * m * s);
    assert(r + span(d) == (q + 2 * m) * s + t) by (nonlinear_arith)
        requires
            r == s * q + t,
            span(d) == 2 * m * s,
    ;
    lemma_fundamental_div_mod_converse(r + span(d), s, q + 2 * m, t);
    assert((q + 2 * m) % 2 == q % 2);
    if q % 2 == 0 && r < span(d) {
        assert(q < 2 * m) by (nonlinear_arith)
            requires
                r == s * q + t,
                t >= 0,
                r < 2 * m * s,
                s > 0,
        ;
        assert(q + 2 <= 2 * m);
        assert(r + s < 2 * m * s) by (nonlinear_arith)
            requires
                r == s * q + t,
                t < s,
                q + 2 <= 2 * m,
                s > 0,
        ;
    }
}

/// The entries over the low bits see only one half.
proof fn lemma_entry_half<F: BinaryField>(
    v: Seq<F::Elem>,
    slopes: Seq<F::Elem>,
    lanes: nat,
    d: nat,
    r: int,
    lane: int,
    n: nat,
)
    requires
        v.len() == 2 * (span(d) * lanes),
        n <= d,
        0 <= r < span(d),
        0 <= lane < lanes,
    ensures
        derivative_entry::<F>(v, slopes, lanes, r, lane, n) == derivative_entry::<F>(
            low_half(v),
            slopes,
            lanes,
            r,
            lane,
            n,
        ),
        derivative_entry::<F>(v, slopes, lanes, r + span(d), lane, n) == derivative_entry::<F>(
            high_half(v),
            slopes,
            lanes,
            r,
            lane,
            n,
        ),
    decreases n,
{
    if n > 0 {
        let j = (n - 1) as nat;
        lemma_entry_half::<F>(v, slopes, lanes, d, r, lane, j);
        lemma_bit_of_half(r, d, j);
        let h = span(d) * lanes;
        if (r / (span(j) as int)) % 2 == 0 {
            let k = r + span(j);
            assert(0 <= k * lanes + lane < h && (k + span(d)) * lanes == k * lanes + h)
                by (nonlinear_arith)
                requires
                    0 <= k,
                    k + 1 <= span(d),
                    0 <= lane < lanes,
                    h == span(d) * lanes,
            ;
            assert(low_half(v)[k * lanes + lane] == v[k * lanes + lane]);
            assert(high_half(v)[k * lanes + lane] == v[k * lanes + lane + h]);
            assert((r + span(d)) + span(j) == k + span(d));
        }
    }
}

/// Row `r` of the derivative is the sum of `slope_j` times row `r + 2^j` over the
/// clear bits `j` of `r`: the derivative of `X_i` is the sum of `slope_j` times
/// `X_(i - 2^j)` over the set bits `j` of `i`.
pub proof fn law_derivative_entries<F: BinaryField>(
    v: Seq<F::Elem>,
    slopes: Seq<F::Elem>,
    dim: nat,
    lanes: nat,
    r: int,
    lane: int,
)
    requires
        v.len() == span(dim) * lanes,
        0 <= r < span(dim),
        0 <= lane < lanes,
    ensures
        0 <= r * lanes + lane < v.len(),
        derivative_model::<F>(v, slopes, dim)[r * lanes + lane] == derivative_entry::<F>(
            v,
            slopes,
            lanes,
            r,
            lane,
            dim,
        ),
    decreases dim,
{
    let at = r * lanes + lane;
    assert(0 <= at < span(dim) * lanes) by (nonlinear_arith)
        requires
            0 <= r,
            r + 1 <= span(dim),
            0 <= lane < lanes,
            at == r * lanes + lane,
    ;
    if dim > 0 {
        let d = (dim - 1) as nat;
        let h = span(d) * lanes;
        assert(v.len() == 2 * h) by (nonlinear_arith)
            requires
                v.len() == (2 * span(d)) * lanes,
                h == span(d) * lanes,
        ;
        lemma_halves_span(d, lanes);
        lemma_derivative_len::<F>(low_half(v), slopes, d);
        lemma_derivative_len::<F>(high_half(v), slopes, d);
        if r < span(d) {
            law_derivative_entries::<F>(low_half(v), slopes, d, lanes, r, lane);
            lemma_entry_half::<F>(v, slopes, lanes, d, r, lane, d);
            lemma_fundamental_div_mod_converse(r, span(d) as int, 0, r);
            assert(0 <= at < h) by (nonlinear_arith)
                requires
                    0 <= r,
                    r + 1 <= span(d),
                    0 <= lane < lanes,
                    at == r * lanes + lane,
                    h == span(d) * lanes,
            ;
            assert((r + span(d)) * lanes == r * lanes + h) by (nonlinear_arith)
                requires
                    h == span(d) * lanes,
            ;
            assert(high_half(v)[at] == v[at + h]);
        } else {
            let q = r - span(d);
            law_derivative_entries::<F>(high_half(v), slopes, d, lanes, q, lane);
            lemma_entry_half::<F>(v, slopes, lanes, d, q, lane, d);
            lemma_fundamental_div_mod_converse(r, span(d) as int, 1, q);
            assert(at == q * lanes + lane + h) by (nonlinear_arith)
                requires
                    q == r - span(d),
                    at == r * lanes + lane,
                    h == span(d) * lanes,
            ;
            let e = derivative_entry::<F>(v, slopes, lanes, r, lane, d);
            lemma_add::<F>(e, e, e);
        }
    }
}

/// The derivative of a constant is zero.
pub proof fn law_derivative_annihilates_constants<F: BinaryField>(
    v: Seq<F::Elem>,
    slopes: Seq<F::Elem>,
    dim: nat,
    lanes: nat,
)
    requires
        v.len() == span(dim) * lanes,
        forall|i: int| lanes <= i < v.len() ==> #[trigger] v[i] == fzero::<F>(),
    ensures
        derivative_model::<F>(v, slopes, dim) == vzero::<F>(v.len()),
    decreases dim,
{
    if dim > 0 {
        let d = (dim - 1) as nat;
        let h = span(d) * lanes;
        assert(v.len() == 2 * h) by (nonlinear_arith)
            requires
                v.len() == (2 * span(d)) * lanes,
                h == span(d) * lanes,
        ;
        lemma_halves_span(d, lanes);
        assert(lanes <= h) by (nonlinear_arith)
            requires
                h == span(d) * lanes,
                span(d) >= 1,
        ;
        assert forall|i: int| lanes <= i < low_half(v).len() implies #[trigger] low_half(v)[i]
            == fzero::<F>() by {
            assert(v[i] == fzero::<F>());
        }
        assert forall|i: int| 0 <= i < high_half(v).len() implies #[trigger] high_half(v)[i]
            == fzero::<F>() by {
            assert(v[i + h] == fzero::<F>());
        }
        law_derivative_annihilates_constants::<F>(low_half(v), slopes, d, lanes);
        law_derivative_annihilates_constants::<F>(high_half(v), slopes, d, lanes);
        let s = slopes[d as int];
        lemma_mul::<F>(s, s, s);
        lemma_add::<F>(fzero::<F>(), fzero::<F>(), fzero::<F>());
        assert(derivative_model::<F>(v, slopes, dim) =~= vzero::<F>(v.len()));
    }
}

/// Add the derivative of `coefficients` to `derivative`.
fn derivative_into_bytes_add_node<F: BinaryField>(
    derivative: &mut [u8],
    coefficients: &[u8],
    slopes: &[F::Elem],
    dimension: usize,
)
    requires
        old(derivative)@.len() == coefficients@.len(),
        whole::<F>(coefficients@.len() as int),
        halves(unpack::<F>(coefficients@).len(), dimension as nat),
        dimension <= slopes@.len(),
    ensures
        final(derivative)@.len() == old(derivative)@.len(),
        unpack::<F>(final(derivative)@) == vadd::<F>(
            unpack::<F>(old(derivative)@),
            derivative_model::<F>(unpack::<F>(coefficients@), slopes@, dimension as nat),
        ),
    decreases dimension,
{
    let ghost v = unpack::<F>(coefficients@);
    let ghost a = unpack::<F>(derivative@);
    proof {
        lemma_elem_bytes::<F>();
    }
    if dimension == 0 {
        proof {
            assert forall|i: int| 0 <= i < a.len() implies a[i] == vadd::<F>(
                a,
                vzero::<F>(v.len()),
            )[i] by {
                lemma_add::<F>(a[i], a[i], a[i]);
            }
            assert(a =~= vadd::<F>(a, vzero::<F>(v.len())));
        }
        return ;
    }
    let half: usize = coefficients.len() / 2;
    proof {
        lemma_half_bytes::<F>(coefficients@);
        lemma_half_bytes::<F>(derivative@);
        lemma_derivative_len::<F>(low_half(v), slopes@, (dimension - 1) as nat);
        lemma_derivative_len::<F>(high_half(v), slopes@, (dimension - 1) as nat);
    }
    let (coefficient_low, coefficient_high) = coefficients.split_at(half);
    let (derivative_low, derivative_high) = derivative.split_at_mut(half);
    let slope = slopes[dimension - 1];
    xor_scaled_bytes::<F>(derivative_low, slope, coefficient_high);
    derivative_into_bytes_add_node::<F>(derivative_low, coefficient_low, slopes, dimension - 1);
    derivative_into_bytes_add_node::<F>(derivative_high, coefficient_high, slopes, dimension - 1);
    proof {
        lemma_unpack_concat::<F>(derivative_low@, derivative_high@);
        let d = (dimension - 1) as nat;
        let dl = derivative_model::<F>(low_half(v), slopes@, d);
        let dh = derivative_model::<F>(high_half(v), slopes@, d);
        let full = derivative_model::<F>(v, slopes@, dimension as nat);
        let out = unpack::<F>(derivative_low@) + unpack::<F>(derivative_high@);
        assert forall|i: int| 0 <= i < a.len() implies out[i] == vadd::<F>(a, full)[i] by {
            let n = low_half(v).len();
            if i < n {
                let t = fmul::<F>(slope, high_half(v)[i]);
                lemma_add::<F>(a[i], t, dl[i]);
                lemma_add::<F>(t, dl[i], dl[i]);
            }
        }
        assert(out =~= vadd::<F>(a, full));
    }
}

/// Overwrite `derivative` with the derivative of `coefficients`, first
/// contributions first.
pub(crate) fn derivative_into_bytes_overwrite_node<F: BinaryField>(
    derivative: &mut [u8],
    coefficients: &[u8],
    slopes: &[F::Elem],
    dimension: usize,
)
    requires
        old(derivative)@.len() == coefficients@.len(),
        whole::<F>(coefficients@.len() as int),
        halves(unpack::<F>(coefficients@).len(), dimension as nat),
        dimension <= slopes@.len(),
    ensures
        final(derivative)@.len() == old(derivative)@.len(),
        unpack::<F>(final(derivative)@) == derivative_model::<F>(
            unpack::<F>(coefficients@),
            slopes@,
            dimension as nat,
        ),
    decreases dimension,
{
    let ghost v = unpack::<F>(coefficients@);
    proof {
        lemma_elem_bytes::<F>();
    }
    if dimension == 0 {
        row_clear::<F>(derivative);
        return ;
    }
    let half: usize = coefficients.len() / 2;
    proof {
        lemma_half_bytes::<F>(coefficients@);
        lemma_half_bytes::<F>(derivative@);
        lemma_derivative_len::<F>(low_half(v), slopes@, (dimension - 1) as nat);
    }
    let (coefficient_low, coefficient_high) = coefficients.split_at(half);
    let (derivative_low, derivative_high) = derivative.split_at_mut(half);
    let slope = slopes[dimension - 1];
    row_mul_into::<F>(derivative_low, slope, coefficient_high);
    derivative_into_bytes_add_node::<F>(derivative_low, coefficient_low, slopes, dimension - 1);
    derivative_into_bytes_overwrite_node::<F>(
        derivative_high,
        coefficient_high,
        slopes,
        dimension - 1,
    );
    proof {
        lemma_unpack_concat::<F>(derivative_low@, derivative_high@);
        let dl = derivative_model::<F>(low_half(v), slopes@, (dimension - 1) as nat);
        let scaled = vscale::<F>(slope, high_half(v));
        assert forall|i: int| 0 <= i < dl.len() implies vadd::<F>(scaled, dl)[i] == axpy::<F>(
            dl,
            slope,
            high_half(v),
        )[i] by {
            lemma_add::<F>(scaled[i], dl[i], dl[i]);
        }
        assert(vadd::<F>(scaled, dl) =~= axpy::<F>(dl, slope, high_half(v)));
    }
}

/// Overwrite `derivative` with the derivative of `coefficients`, in ascending
/// order of the source blocks.
pub(crate) fn derivative_into_bytes_sweep_node<F: BinaryField>(
    derivative: &mut [u8],
    coefficients: &[u8],
    slopes: &[F::Elem],
    dimension: usize,
)
    requires
        old(derivative)@.len() == coefficients@.len(),
        whole::<F>(coefficients@.len() as int),
        halves(unpack::<F>(coefficients@).len(), dimension as nat),
        dimension <= slopes@.len(),
    ensures
        final(derivative)@.len() == old(derivative)@.len(),
        unpack::<F>(final(derivative)@) == derivative_model::<F>(
            unpack::<F>(coefficients@),
            slopes@,
            dimension as nat,
        ),
    decreases dimension,
{
    let ghost v = unpack::<F>(coefficients@);
    proof {
        lemma_elem_bytes::<F>();
    }
    if dimension == 0 {
        row_clear::<F>(derivative);
        return ;
    }
    let half: usize = coefficients.len() / 2;
    proof {
        lemma_half_bytes::<F>(coefficients@);
        lemma_half_bytes::<F>(derivative@);
        lemma_derivative_len::<F>(low_half(v), slopes@, (dimension - 1) as nat);
    }
    let (coefficient_low, coefficient_high) = coefficients.split_at(half);
    let (derivative_low, derivative_high) = derivative.split_at_mut(half);
    derivative_into_bytes_sweep_node::<F>(derivative_low, coefficient_low, slopes, dimension - 1);
    xor_scaled_bytes::<F>(derivative_low, slopes[dimension - 1], coefficient_high);
    derivative_into_bytes_sweep_node::<F>(derivative_high, coefficient_high, slopes, dimension - 1);
    proof {
        lemma_unpack_concat::<F>(derivative_low@, derivative_high@);
    }
}

/// Add the derivative to its coefficients, in place: the source of each step has
/// not been changed yet.
pub(crate) fn derivative_plus_identity_node<F: BinaryField>(
    rows: &mut [u8],
    slopes: &[F::Elem],
    dimension: usize,
)
    requires
        whole::<F>(old(rows)@.len() as int),
        halves(unpack::<F>(old(rows)@).len(), dimension as nat),
        dimension <= slopes@.len(),
    ensures
        final(rows)@.len() == old(rows)@.len(),
        unpack::<F>(final(rows)@) == vadd::<F>(
            unpack::<F>(old(rows)@),
            derivative_model::<F>(unpack::<F>(old(rows)@), slopes@, dimension as nat),
        ),
    decreases dimension,
{
    let ghost v = unpack::<F>(rows@);
    proof {
        lemma_elem_bytes::<F>();
    }
    if dimension == 0 {
        proof {
            assert forall|i: int| 0 <= i < v.len() implies v[i] == vadd::<F>(
                v,
                vzero::<F>(v.len()),
            )[i] by {
                lemma_add::<F>(v[i], v[i], v[i]);
            }
            assert(v =~= vadd::<F>(v, vzero::<F>(v.len())));
        }
        return ;
    }
    let half: usize = rows.len() / 2;
    proof {
        lemma_half_bytes::<F>(rows@);
        lemma_derivative_len::<F>(low_half(v), slopes@, (dimension - 1) as nat);
        lemma_derivative_len::<F>(high_half(v), slopes@, (dimension - 1) as nat);
    }
    let (low, high) = rows.split_at_mut(half);
    derivative_plus_identity_node::<F>(low, slopes, dimension - 1);
    let slope = slopes[dimension - 1];
    xor_scaled_bytes::<F>(low, slope, high);
    derivative_plus_identity_node::<F>(high, slopes, dimension - 1);
    proof {
        lemma_unpack_concat::<F>(low@, high@);
        let d = (dimension - 1) as nat;
        let dl = derivative_model::<F>(low_half(v), slopes@, d);
        let full = derivative_model::<F>(v, slopes@, dimension as nat);
        let out = unpack::<F>(low@) + unpack::<F>(high@);
        assert forall|i: int| 0 <= i < v.len() implies out[i] == vadd::<F>(v, full)[i] by {
            if i < dl.len() {
                lemma_add::<F>(v[i], dl[i], fmul::<F>(slope, high_half(v)[i]));
            }
        }
        assert(out =~= vadd::<F>(v, full));
    }
}

/// The source index of a contribution lies inside the vector.
proof fn lemma_source_fits(r: int, lane: int, lanes: nat, dim: nat, j: nat)
    requires
        0 <= r < span(dim),
        0 <= lane < lanes,
        j < dim,
        (r / (span(j) as int)) % 2 == 0,
    ensures
        (r + span(j)) * lanes + lane == r * lanes + lane + span(j) * lanes,
        0 <= r * lanes + lane + span(j) * lanes < span(dim) * lanes,
        span(j) * lanes <= span(dim) * lanes,
{
    lemma_bit_of_half(r, dim, j);
    lemma_span_monotone(j, dim);
    let k = r + span(j);
    assert(k * lanes + lane == r * lanes + lane + span(j) * lanes && 0 <= k * lanes + lane < span(
        dim,
    ) * lanes && span(j) * lanes <= span(dim) * lanes) by (nonlinear_arith)
        requires
            k == r + span(j),
            0 <= r,
            k + 1 <= span(dim),
            0 <= lane < lanes,
            span(j) <= span(dim),
    ;
}

/// The row and the lane of an index.
proof fn lemma_row_and_lane(k: int, lanes: nat, dim: nat)
    requires
        lanes > 0,
        0 <= k < span(dim) * lanes,
    ensures
        0 <= k / (lanes as int) < span(dim),
        0 <= k % (lanes as int) < lanes,
        k == (k / (lanes as int)) * lanes + k % (lanes as int),
{
    lemma_fundamental_div_mod(k, lanes as int);
    let q = k / (lanes as int);
    let t = k % (lanes as int);
    assert(k == q * lanes + t && 0 <= q < span(dim)) by (nonlinear_arith)
        requires
            k == lanes * q + t,
            0 <= t < lanes,
            0 <= k < span(dim) * lanes,
            lanes > 0,
    ;
}

/// Overwrite `derivative` with the derivative of `coefficients`, one output
/// after the other.
pub(crate) fn derivative_into_bytes_gather_rows<F: BinaryField>(
    derivative: &mut [u8],
    row_len: usize,
    coefficients: &[u8],
    slopes: &[F::Elem],
    dimension: usize,
)
    requires
        old(derivative)@.len() == coefficients@.len(),
        rows_fit::<F>(coefficients@.len(), row_len as nat, dimension as nat),
        dimension <= slopes@.len(),
    ensures
        final(derivative)@.len() == old(derivative)@.len(),
        unpack::<F>(final(derivative)@) == derivative_model::<F>(
            unpack::<F>(coefficients@),
            slopes@,
            dimension as nat,
        ),
{
    proof {
        lemma_elem_bytes::<F>();
        lemma_rows::<F>(coefficients@, row_len as nat, dimension as nat);
        lemma_rows::<F>(derivative@, row_len as nat, dimension as nat);
    }
    let lanes: usize = row_len / F::bytes();
    let count: usize = coefficients.len() / F::bytes();
    let ghost v = unpack::<F>(coefficients@);
    let ghost full = derivative_model::<F>(v, slopes@, dimension as nat);
    proof {
        lemma_derivative_len::<F>(v, slopes@, dimension as nat);
    }
    let mut k: usize = 0;
    while k < count
        invariant
            k <= count,
            lanes > 0,
            derivative@.len() == coefficients@.len(),
            whole::<F>(coefficients@.len() as int),
            dimension <= slopes@.len(),
            v == unpack::<F>(coefficients@),
            v.len() == count,
            count == span(dimension as nat) * lanes,
            unpack::<F>(derivative@).len() == count,
            full.len() == count,
            full == derivative_model::<F>(v, slopes@, dimension as nat),
            forall|i: int| 0 <= i < k ==> #[trigger] unpack::<F>(derivative@)[i] == full[i],
        decreases count - k,
    {
        let row: usize = k / lanes;
        let ghost lane = k % lanes;
        proof {
            lemma_row_and_lane(k as int, lanes as nat, dimension as nat);
            law_derivative_entries::<F>(
                v,
                slopes@,
                dimension as nat,
                lanes as nat,
                row as int,
                lane as int,
            );
        }
        let mut sum = zero::<F>();
        let mut level: usize = 0;
        let mut bit: usize = 1;
        let mut step: usize = lanes;
        assert(span(0) * lanes == lanes) by (nonlinear_arith)
            requires
                span(0) == 1,
        ;
        while level < dimension
            invariant
                level <= dimension <= slopes@.len(),
                v == unpack::<F>(coefficients@),
                v.len() == count,
                count == span(dimension as nat) * lanes,
                k == row * lanes + lane,
                k < count,
                0 <= row < span(dimension as nat),
                0 <= lane < lanes,
                bit == span(level as nat),
                step == span(level as nat) * lanes,
                sum == derivative_entry::<F>(
                    v,
                    slopes@,
                    lanes as nat,
                    row as int,
                    lane as int,
                    level as nat,
                ),
            decreases dimension - level,
        {
            let slope = slopes[level];
            proof {
                lemma_add::<F>(sum, sum, sum);
                lemma_span_monotone(level as nat, dimension as nat);
                let (a, b) = (span(level as nat), span(dimension as nat));
                assert(2 * a <= b) by {
                    lemma_span_monotone((level + 1) as nat, dimension as nat);
                }
                assert(2 * a * lanes <= b * lanes && 2 * a * lanes == 2 * (a * lanes) && a <= a
                    * lanes) by (nonlinear_arith)
                    requires
                        2 * a <= b,
                        lanes >= 1,
                ;
                if (row as int / (a as int)) % 2 == 0 {
                    lemma_source_fits(
                        row as int,
                        lane as int,
                        lanes as nat,
                        dimension as nat,
                        level as nat,
                    );
                }
            }
            if (row / bit) % 2 == 0 {
                if is_zero::<F>(slope) {
                    proof {
                        let x = v[(row + span(level as nat)) * lanes + lane];
                        lemma_mul::<F>(x, x, x);
                    }
                } else {
                    let source = crate::pack::read_elem::<F>(coefficients, k + step);
                    sum = plus::<F>(sum, times::<F>(slope, source));
                }
            }
            level = level + 1;
            bit = bit * 2;
            step = step * 2;
        }
        crate::pack::write_elem::<F>(derivative, k, sum);
        k = k + 1;
    }
    assert(unpack::<F>(derivative@) =~= full);
}

/// Overwrite `derivative` with the derivative of `coefficients`, on elements.
pub(crate) fn derivative_into_values<F: BinaryField>(
    derivative: &mut [F::Elem],
    coefficients: &[F::Elem],
    slopes: &[F::Elem],
    dimension: usize,
)
    requires
        old(derivative)@.len() == coefficients@.len(),
        coefficients@.len() == span(dimension as nat),
        dimension <= slopes@.len(),
    ensures
        final(derivative)@.len() == old(derivative)@.len(),
        final(derivative)@ == derivative_model::<F>(coefficients@, slopes@, dimension as nat),
{
    let count: usize = coefficients.len();
    let ghost v = coefficients@;
    let ghost full = derivative_model::<F>(v, slopes@, dimension as nat);
    proof {
        lemma_halves_span(dimension as nat, 1);
        lemma_derivative_len::<F>(v, slopes@, dimension as nat);
    }
    let mut k: usize = 0;
    while k < count
        invariant
            k <= count,
            derivative@.len() == count,
            dimension <= slopes@.len(),
            v == coefficients@,
            v.len() == count,
            count == span(dimension as nat),
            full.len() == count,
            full == derivative_model::<F>(v, slopes@, dimension as nat),
            forall|i: int| 0 <= i < k ==> #[trigger] derivative@[i] == full[i],
        decreases count - k,
    {
        proof {
            law_derivative_entries::<F>(v, slopes@, dimension as nat, 1, k as int, 0);
        }
        let mut sum = zero::<F>();
        let mut level: usize = 0;
        let mut bit: usize = 1;
        while level < dimension
            invariant
                level <= dimension <= slopes@.len(),
                v == coefficients@,
                v.len() == count,
                count == span(dimension as nat),
                k < count,
                bit == span(level as nat),
                sum == derivative_entry::<F>(v, slopes@, 1, k as int, 0, level as nat),
            decreases dimension - level,
        {
            let slope = slopes[level];
            proof {
                lemma_add::<F>(sum, sum, sum);
                lemma_span_monotone(level as nat, dimension as nat);
                lemma_span_monotone((level + 1) as nat, dimension as nat);
                if (k as int / (span(level as nat) as int)) % 2 == 0 {
                    lemma_source_fits(k as int, 0, 1, dimension as nat, level as nat);
                }
            }
            if (k / bit) % 2 == 0 {
                if is_zero::<F>(slope) {
                    proof {
                        let x = v[(k + span(level as nat)) * 1 + 0];
                        lemma_mul::<F>(x, x, x);
                    }
                } else {
                    sum = plus::<F>(sum, times::<F>(slope, coefficients[k + bit]));
                }
            }
            level = level + 1;
            bit = bit * 2;
        }
        derivative[k] = sum;
        k = k + 1;
    }
    assert(derivative@ =~= full);
}

} // verus!
