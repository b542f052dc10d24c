//! Monomial and novel coefficient bases.
//!
//! A polynomial of degree below `2^dim` splits as `f = f_low + W * f_high`, with
//! `W` the normalized subspace polynomial of degree `2^(dim-1)` and both parts
//! of smaller degree. Novel to monomial multiplies by the sparse `W` on the way
//! up; monomial to novel divides by it on the way down.

use vstd::prelude::*;

use crate::error::TransformError;
use crate::field::{
    fadd, finv, fmul, fzero, inverse, is_zero, lemma_add, lemma_finv, lemma_mul, plus, times, zero,
    BinaryField,
};
use crate::kernel::{
    row_clear, row_copy, row_mul_into, vadd, vzero, xor_scaled_bytes, ButterflyKernels,
};
use crate::pack::{
    elem_bytes, lemma_elem_bytes, lemma_unpack_concat, lemma_unpack_split,
    unpack, whole,
};
use crate::words::lemma_whole_parts;
use crate::span::{lemma_span_monotone, span};
use crate::subspace::{
    law_independent_iff_normalizers, lemma_subspace_coefficients, normalized_coefficients,
    normalizer,
};
use crate::transform::laws::lemma_swap_sum;
use crate::transform::model::{
    halves, high_half, inverse_model, lemma_concat_halves, lemma_halves_span, low_half,
};
use crate::transform::plan::{check_geometry, geometry_error, TransformPlan};
use crate::transform::walk::{lanes_of, lemma_row_halves, lemma_rows, rows_fit};

verus! {

/// The contribution of the first `n` terms of a sparse polynomial, with
/// `terms[e]` at degree `2^e`, times `q` to entry `t` of the product. Degrees
/// count rows of `lanes` entries.
pub open spec fn sparse_product<F: BinaryField>(
    terms: Seq<F::Elem>,
    q: Seq<F::Elem>,
    lanes: nat,
    n: nat,
    t: int,
) -> F::Elem
    decreases n,
{
    if n == 0 {
        fzero::<F>()
    } else {
        let e = (n - 1) as nat;
        let k = t - span(e) * lanes;
        fadd::<F>(
            sparse_product::<F>(terms, q, lanes, e, t),
            if 0 <= k < q.len() {
                fmul::<F>(terms[e as int], q[k])
            } else {
                fzero::<F>()
            },
        )
    }
}

/// The vector `base` plus the product of the first `n` sparse terms and `q`.
pub open spec fn add_product<F: BinaryField>(
    base: Seq<F::Elem>,
    terms: Seq<F::Elem>,
    q: Seq<F::Elem>,
    lanes: nat,
    n: nat,
) -> Seq<F::Elem> {
    Seq::new(
        base.len(),
        |t: int| fadd::<F>(base[t], sparse_product::<F>(terms, q, lanes, n, t)),
    )
}

/// The monomial coefficients of the polynomial with novel-basis coefficients `v`.
pub open spec fn to_monomial<F: BinaryField>(
    v: Seq<F::Elem>,
    basis: Seq<F::Elem>,
    dim: nat,
    lanes: nat,
) -> Seq<F::Elem>
    decreases dim,
{
    if dim == 0 {
        v
    } else {
        let d = (dim - 1) as nat;
        let low = to_monomial::<F>(low_half(v), basis, d, lanes);
        let high = to_monomial::<F>(high_half(v), basis, d, lanes);
        add_product::<F>(
            low + vzero::<F>(high.len()),
            normalized_coefficients::<F>(basis, d),
            high,
            lanes,
            dim,
        )
    }
}

pub proof fn lemma_to_monomial_len<F: BinaryField>(
    v: Seq<F::Elem>,
    basis: Seq<F::Elem>,
    dim: nat,
    lanes: nat,
)
    requires
        halves(v.len(), dim),
    ensures
        to_monomial::<F>(v, basis, dim, lanes).len() == v.len(),
    decreases dim,
{
    if dim > 0 {
        lemma_to_monomial_len::<F>(low_half(v), basis, (dim - 1) as nat, lanes);
        lemma_to_monomial_len::<F>(high_half(v), basis, (dim - 1) as nat, lanes);
    }
}

proof fn lemma_product_additive<F: BinaryField>(
    terms: Seq<F::Elem>,
    q: Seq<F::Elem>,
    r: Seq<F::Elem>,
    lanes: nat,
    n: nat,
    t: int,
)
    requires
        q.len() == r.len(),
    ensures
        sparse_product::<F>(terms, vadd::<F>(q, r), lanes, n, t) == fadd::<F>(
            sparse_product::<F>(terms, q, lanes, n, t),
            sparse_product::<F>(terms, r, lanes, n, t),
        ),
    decreases n,
{
    lemma_add::<F>(fzero::<F>(), fzero::<F>(), fzero::<F>());
    if n > 0 {
        let e = (n - 1) as nat;
        lemma_product_additive::<F>(terms, q, r, lanes, e, t);
        let k = t - span(e) * lanes;
        let a = sparse_product::<F>(terms, q, lanes, e, t);
        let b = sparse_product::<F>(terms, r, lanes, e, t);
        let c = terms[e as int];
        if 0 <= k < q.len() {
            lemma_mul::<F>(c, q[k], r[k]);
            lemma_swap_sum::<F>(a, fmul::<F>(c, q[k]), b, fmul::<F>(c, r[k]));
        } else {
            lemma_swap_sum::<F>(a, fzero::<F>(), b, fzero::<F>());
        }
    }
}

proof fn lemma_product_zero<F: BinaryField>(
    terms: Seq<F::Elem>,
    q: Seq<F::Elem>,
    lanes: nat,
    n: nat,
    t: int,
)
    requires
        forall|k: int| 0 <= k < q.len() ==> #[trigger] q[k] == fzero::<F>(),
    ensures
        sparse_product::<F>(terms, q, lanes, n, t) == fzero::<F>(),
    decreases n,
{
    lemma_add::<F>(fzero::<F>(), fzero::<F>(), fzero::<F>());
    if n > 0 {
        let e = (n - 1) as nat;
        lemma_product_zero::<F>(terms, q, lanes, e, t);
        lemma_mul::<F>(terms[e as int], fzero::<F>(), fzero::<F>());
    }
}

/// Above its leading row, the product with a single row is zero; in its leading
/// row, it is the row times the leading term.
proof fn lemma_product_of_row<F: BinaryField>(
    terms: Seq<F::Elem>,
    row: Seq<F::Elem>,
    lanes: nat,
    d: nat,
    at: int,
    n: nat,
    t: int,
)
    requires
        lanes > 0,
        at >= 0,
        n <= d + 1,
        row.len() == span(d) * lanes,
        forall|k: int|
            0 <= k < row.len() && !(at * lanes <= k < (at + 1) * lanes) ==> #[trigger] row[k]
                == fzero::<F>(),
        t >= (at + span(d)) * lanes,
    ensures
        sparse_product::<F>(terms, row, lanes, n, t) == if n == d + 1 && t < (at + span(d) + 1)
            * lanes && 0 <= t - span(d) * lanes < row.len() {
            fmul::<F>(terms[d as int], row[t - span(d) * lanes])
        } else {
            fzero::<F>()
        },
    decreases n,
{
    lemma_add::<F>(fzero::<F>(), fzero::<F>(), fzero::<F>());
    if n > 0 {
        let e = (n - 1) as nat;
        lemma_product_of_row::<F>(terms, row, lanes, d, at, e, t);
        let k = t - span(e) * lanes;
        let c = terms[e as int];
        lemma_mul::<F>(c, fzero::<F>(), fzero::<F>());
        if e < d {
            lemma_span_monotone(e, d);
            let (a, b) = (span(e), span(d));
            assert(k >= (at + 1) * lanes) by (nonlinear_arith)
                requires
                    t >= (at + b) * lanes,
                    k == t - a * lanes,
                    a + 1 <= b,
                    lanes > 0,
            ;
            if 0 <= k < row.len() {
                assert(row[k] == fzero::<F>());
            }
        } else {
            let b = span(d);
            assert(k >= at * lanes && (t < (at + b + 1) * lanes <==> k < (at + 1) * lanes))
                by (nonlinear_arith)
                requires
                    t >= (at + b) * lanes,
                    k == t - b * lanes,
            ;
            let m = fmul::<F>(c, row[k]);
            lemma_add::<F>(m, m, m);
            if 0 <= k < row.len() && k >= (at + 1) * lanes {
                assert(row[k] == fzero::<F>());
            }
        }
    }
}

/// One more sparse term.
pub(crate) proof fn lemma_add_term<F: BinaryField>(
    base: Seq<F::Elem>,
    terms: Seq<F::Elem>,
    q: Seq<F::Elem>,
    lanes: nat,
    e: nat,
    t: int,
)
    requires
        0 <= t < base.len(),
    ensures
        ({
            let k = t - span(e) * lanes;
            let before = add_product::<F>(base, terms, q, lanes, e);
            let after = add_product::<F>(base, terms, q, lanes, e + 1);
            after[t] == if 0 <= k < q.len() {
                fadd::<F>(before[t], fmul::<F>(terms[e as int], q[k]))
            } else {
                before[t]
            }
        }),
{
    let k = t - span(e) * lanes;
    let p = sparse_product::<F>(terms, q, lanes, e, t);
    lemma_add::<F>(base[t], p, fmul::<F>(terms[e as int], q[k]));
    lemma_add::<F>(p, p, p);
}

/// Dividing by the sparse polynomial: taking out the leading row keeps the sum of
/// the remainder and the product.
proof fn lemma_division_step<F: BinaryField>(
    whole: Seq<F::Elem>,
    rest: Seq<F::Elem>,
    next: Seq<F::Elem>,
    terms: Seq<F::Elem>,
    q: Seq<F::Elem>,
    row: Seq<F::Elem>,
    lanes: nat,
    n: nat,
)
    requires
        q.len() == row.len(),
        rest.len() == whole.len(),
        whole == add_product::<F>(rest, terms, q, lanes, n),
        next == add_product::<F>(rest, terms, row, lanes, n),
    ensures
        whole == add_product::<F>(next, terms, vadd::<F>(q, row), lanes, n),
{
    let out = add_product::<F>(next, terms, vadd::<F>(q, row), lanes, n);
    assert forall|t: int| 0 <= t < whole.len() implies whole[t] == out[t] by {
        lemma_product_additive::<F>(terms, q, row, lanes, n, t);
        let a = sparse_product::<F>(terms, q, lanes, n, t);
        let b = sparse_product::<F>(terms, row, lanes, n, t);
        // (rest + b) + (a + b) == rest + a
        lemma_swap_sum::<F>(rest[t], b, a, b);
        lemma_add::<F>(b, b, b);
        let s = fadd::<F>(rest[t], a);
        lemma_add::<F>(s, s, s);
    }
    assert(whole =~= out);
}

/// Add `c` times `src` to the entries of `values` from index `at` on.
fn add_scaled_block<F: BinaryField>(
    values: &mut [F::Elem],
    at: usize,
    c: F::Elem,
    src: &[F::Elem],
)
    requires
        at + src@.len() <= old(values)@.len(),
    ensures
        final(values)@.len() == old(values)@.len(),
        forall|t: int|
            0 <= t < old(values)@.len() ==> #[trigger] final(values)@[t] == if at <= t < at
                + src@.len() {
                fadd::<F>(old(values)@[t], fmul::<F>(c, src@[t - at]))
            } else {
                old(values)@[t]
            },
{
    let count: usize = src.len();
    let len: usize = values.len();
    let ghost before = values@;
    let mut i: usize = 0;
    while i < count
        invariant
            i <= count,
            count == src@.len(),
            values@.len() == len,
            before.len() == len,
            at + count <= len,
            forall|t: int|
                0 <= t < before.len() ==> #[trigger] values@[t] == if at <= t < at + i {
                    fadd::<F>(before[t], fmul::<F>(c, src@[t - at]))
                } else {
                    before[t]
                },
        decreases count - i,
    {
        let sum = plus::<F>(values[at + i], times::<F>(c, src[i]));
        values[at + i] = sum;
        i = i + 1;
    }
}

/// Add `c` times `src` to the packed elements of `values` from byte `at` on.
fn add_scaled_rows<F: BinaryField>(values: &mut [u8], at: usize, c: F::Elem, src: &[u8])
    requires
        at + src@.len() <= old(values)@.len(),
        whole::<F>(at as int),
        whole::<F>(src@.len() as int),
        whole::<F>(old(values)@.len() as int),
    ensures
        final(values)@.len() == old(values)@.len(),
        forall|t: int|
            0 <= t < unpack::<F>(old(values)@).len() ==> #[trigger] unpack::<F>(final(values)@)[t]
                == ({
                let k = at as int / (elem_bytes::<F>() as int);
                if k <= t < k + unpack::<F>(src@).len() {
                    fadd::<F>(
                        unpack::<F>(old(values)@)[t],
                        fmul::<F>(c, unpack::<F>(src@)[t - k]),
                    )
                } else {
                    unpack::<F>(old(values)@)[t]
                }
            }),
{
    let len: usize = values.len();
    let count: usize = src.len();
    let ghost n = elem_bytes::<F>() as int;
    proof {
        lemma_elem_bytes::<F>();
        lemma_whole_parts(len as int, at as int, n);
        lemma_whole_parts(len - at, count as int, n);
        lemma_whole_parts(at as int, 0, n);
        lemma_whole_parts(count as int, 0, n);
        lemma_unpack_split::<F>(values@, at as int);
    }
    let (head, rest) = values.split_at_mut(at);
    proof {
        lemma_unpack_split::<F>(rest@, count as int);
    }
    let (block, tail) = rest.split_at_mut(count);
    xor_scaled_bytes::<F>(block, c, src);
    proof {
        lemma_unpack_concat::<F>(block@, tail@);
        lemma_unpack_concat::<F>(head@, block@ + tail@);
    }
}

/// Number of field elements of workspace that the conversions need for a domain
/// of `size` coefficients.
pub fn conversion_scratch_elements(size: usize) -> (r: usize)
    ensures
        r == size / 2,
{
    size / 2
}

/// Bottom-up: convert both halves, then fold them together.
fn novel_to_monomial_node<F: ButterflyKernels>(
    values: &mut [F::Elem],
    plan: &TransformPlan<F>,
    dimension: usize,
    scratch: &mut [F::Elem],
)
    requires
        plan.wf(),
        dimension <= plan.dim(),
        old(values)@.len() == span(dimension as nat),
        2 * old(scratch)@.len() + 1 >= span(dimension as nat),
    ensures
        final(scratch)@.len() == old(scratch)@.len(),
        final(values)@.len() == old(values)@.len(),
        final(values)@ == to_monomial::<F>(
            old(values)@,
            plan.domain_basis(),
            dimension as nat,
            1,
        ),
    decreases dimension,
{
    if dimension == 0 {
        return ;
    }
    let ghost basis = plan.domain_basis();
    let ghost d = (dimension - 1) as nat;
    let ghost v = values@;
    let len: usize = values.len();
    let half: usize = len / 2;
    proof {
        plan.lemma_wf();
        lemma_halves_span(d, 1);
    }
    {
        let (low, high) = values.split_at_mut(half);
        novel_to_monomial_node::<F>(low, plan, dimension - 1, scratch);
        novel_to_monomial_node::<F>(high, plan, dimension - 1, scratch);
    }
    let ghost low = to_monomial::<F>(low_half(v), basis, d, 1);
    let ghost q = to_monomial::<F>(high_half(v), basis, d, 1);
    proof {
        lemma_to_monomial_len::<F>(low_half(v), basis, d, 1);
        lemma_to_monomial_len::<F>(high_half(v), basis, d, 1);
        assert(values@ == low + q);
    }
    let factor = plan.normalized_subspace_polynomial(dimension - 1);
    let ghost terms = normalized_coefficients::<F>(basis, d);
    proof {
        lemma_subspace_coefficients::<F>(basis, d, fzero::<F>());
    }
    let zero = zero::<F>();
    let (source, _) = scratch.split_at_mut(half);
    let mut i: usize = 0;
    while i < half
        invariant
            i <= half,
            source@.len() == half,
            values@.len() == len,
            len == 2 * half,
            q.len() == half,
            low.len() == half,
            zero == fzero::<F>(),
            forall|k: int| 0 <= k < half ==> #[trigger] values@[k] == low[k],
            forall|k: int|
                half <= k < len ==> #[trigger] values@[k] == if k - half < i {
                    fzero::<F>()
                } else {
                    q[k - half]
                },
            forall|k: int| 0 <= k < i ==> #[trigger] source@[k] == q[k],
        decreases half - i,
    {
        source[i] = values[half + i];
        values[half + i] = zero;
        i = i + 1;
    }
    let ghost base = low + vzero::<F>(half as nat);
    assert(source@ =~= q);
    assert(values@ =~= base);
    let mut exponent: usize = 0;
    let mut shift: usize = 1;
    proof {
        assert(add_product::<F>(base, terms, q, 1, 0) =~= base) by {
            assert forall|t: int| 0 <= t < base.len() implies add_product::<F>(
                base,
                terms,
                q,
                1,
                0,
            )[t] == base[t] by {
                lemma_add::<F>(base[t], base[t], base[t]);
            }
        }
    }
    while exponent < dimension
        invariant
            exponent <= dimension,
            d + 1 == dimension,
            factor@ == terms,
            terms.len() == dimension,
            source@ == q,
            q.len() == half,
            half == span(d),
            values@.len() == 2 * half,
            base.len() == 2 * half,
            len == 2 * half,
            shift == span(exponent as nat),
            values@ == add_product::<F>(base, terms, q, 1, exponent as nat),
        decreases dimension - exponent,
    {
        let term = factor[exponent];
        let ghost before = values@;
        proof {
            lemma_span_monotone(exponent as nat, d);
        }
        if !is_zero::<F>(term) {
            add_scaled_block::<F>(values, shift, term, source);
        }
        proof {
            let after = add_product::<F>(base, terms, q, 1, (exponent + 1) as nat);
            assert forall|t: int| 0 <= t < after.len() implies values@[t] == after[t] by {
                lemma_add_term::<F>(base, terms, q, 1, exponent as nat, t);
                if term == fzero::<F>() {
                    let k = t - shift;
                    lemma_mul::<F>(q[k], q[k], q[k]);
                    lemma_add::<F>(before[t], before[t], before[t]);
                }
            }
            assert(values@ =~= after);
        }
        exponent = exponent + 1;
        shift = shift * 2;
    }
}

/// The leading coefficient of a normalized subspace polynomial is nonzero.
proof fn lemma_leading<F: ButterflyKernels>(plan: &TransformPlan<F>, d: nat)
    requires
        plan.wf(),
        d < plan.dim(),
    ensures
        ({
            let terms = normalized_coefficients::<F>(plan.domain_basis(), d);
            &&& terms.len() == d + 1
            &&& terms[d as int] != fzero::<F>()
        }),
{
    plan.lemma_wf();
    let basis = plan.domain_basis();
    lemma_subspace_coefficients::<F>(basis, d, fzero::<F>());
    law_independent_iff_normalizers::<F>(basis, plan.dim());
    let n = normalizer::<F>(basis, d as int as nat);
    lemma_finv::<F>(n, n);
    lemma_mul::<F>(finv::<F>(n), n, n);
}

/// The row that a division step takes out, as a vector of the quotient's length.
spec fn single_row<F: BinaryField>(
    row: Seq<F::Elem>,
    lanes: nat,
    at: int,
    len: nat,
) -> Seq<F::Elem> {
    Seq::new(
        len,
        |k: int|
            if at * lanes <= k < at * lanes + lanes {
                row[k - at * lanes]
            } else {
                fzero::<F>()
            },
    )
}

/// What a completed division step does to the rows from the leading one on.
proof fn lemma_leading_cleared<F: BinaryField>(
    rest: Seq<F::Elem>,
    terms: Seq<F::Elem>,
    row: Seq<F::Elem>,
    lanes: nat,
    d: nat,
    at: int,
    t: int,
)
    requires
        lanes > 0,
        0 <= at < span(d),
        row.len() == lanes,
        terms[d as int] != fzero::<F>(),
        rest.len() == 2 * (span(d) * lanes),
        (at + span(d)) * lanes <= t < rest.len(),
        forall|k: int|
            0 <= k < lanes ==> #[trigger] row[k] == fmul::<F>(
                finv::<F>(terms[d as int]),
                rest[(at + span(d)) * lanes + k],
            ),
        t >= (at + span(d) + 1) * lanes ==> rest[t] == fzero::<F>(),
    ensures
        add_product::<F>(
            rest,
            terms,
            single_row::<F>(row, lanes, at, span(d) * lanes),
            lanes,
            d + 1,
        )[t] == fzero::<F>(),
{
    let q = single_row::<F>(row, lanes, at, span(d) * lanes);
    assert((at + 1) * lanes == at * lanes + lanes) by (nonlinear_arith);
    assert((at + span(d) + 1) * lanes == (at + span(d)) * lanes + lanes) by (nonlinear_arith);
    assert((at + span(d)) * lanes == at * lanes + span(d) * lanes) by (nonlinear_arith);
    assert(0 <= at * lanes && at * lanes + lanes <= span(d) * lanes) by (nonlinear_arith)
        requires
            0 <= at,
            at + 1 <= span(d),
    ;
    lemma_product_of_row::<F>(terms, q, lanes, d, at, d + 1, t);
    lemma_add::<F>(fzero::<F>(), fzero::<F>(), fzero::<F>());
    if t < (at + span(d) + 1) * lanes {
        let k = t - (at + span(d)) * lanes;
        assert(q[t - span(d) * lanes] == row[k]);
        let lead = terms[d as int];
        let i = finv::<F>(lead);
        lemma_finv::<F>(lead, lead);
        lemma_mul::<F>(lead, i, rest[t]);
        lemma_mul::<F>(rest[t], lead, i);
        lemma_add::<F>(rest[t], rest[t], rest[t]);
    }
}

/// Top-down: divide by the sparse polynomial; the remainder is the low half and
/// the quotient the high half.
fn monomial_to_novel_node<F: ButterflyKernels>(
    values: &mut [F::Elem],
    plan: &TransformPlan<F>,
    dimension: usize,
    scratch: &mut [F::Elem],
)
    requires
        plan.wf(),
        dimension <= plan.dim(),
        old(values)@.len() == span(dimension as nat),
        2 * old(scratch)@.len() + 1 >= span(dimension as nat),
    ensures
        final(scratch)@.len() == old(scratch)@.len(),
        final(values)@.len() == old(values)@.len(),
        to_monomial::<F>(final(values)@, plan.domain_basis(), dimension as nat, 1) == old(values)@,
    decreases dimension,
{
    if dimension == 0 {
        return ;
    }
    let ghost basis = plan.domain_basis();
    let ghost d = (dimension - 1) as nat;
    let ghost v = values@;
    let len: usize = values.len();
    let half: usize = len / 2;
    proof {
        lemma_halves_span(d, 1);
        lemma_leading::<F>(plan, d);
    }
    let factor = plan.normalized_subspace_polynomial(dimension - 1);
    let ghost terms = normalized_coefficients::<F>(basis, d);
    let leading_inverse = inverse::<F>(factor[dimension - 1]);
    let ghost mut q = vzero::<F>(half as nat);
    {
        let (quotient, _) = scratch.split_at_mut(half);
        let mut degree: usize = len;
        proof {
            let start = add_product::<F>(v, terms, q, 1, dimension as nat);
            assert forall|t: int| 0 <= t < v.len() implies start[t] == v[t] by {
                lemma_product_zero::<F>(terms, q, 1, dimension as nat, t);
                lemma_add::<F>(v[t], v[t], v[t]);
            }
            assert(v =~= start);
        }
        while degree > half
            invariant
                half <= degree <= len,
                len == 2 * half,
                half == span(d),
                d + 1 == dimension,
                v.len() == len,
                values@.len() == len,
                quotient@.len() == half,
                q.len() == half,
                factor@ == terms,
                terms.len() == dimension,
                terms[d as int] != fzero::<F>(),
                leading_inverse == finv::<F>(terms[d as int]),
                v == add_product::<F>(values@, terms, q, 1, dimension as nat),
                forall|t: int| degree <= t < len ==> #[trigger] values@[t] == fzero::<F>(),
                forall|k: int|
                    0 <= k < half ==> #[trigger] q[k] == if k < degree - half {
                        fzero::<F>()
                    } else {
                        quotient@[k]
                    },
            decreases degree,
        {
            degree = degree - 1;
            let at: usize = degree - half;
            let coefficient = times::<F>(values[degree], leading_inverse);
            quotient[at] = coefficient;
            let ghost rest = values@;
            let ghost row = seq![coefficient];
            let ghost single = single_row::<F>(row, 1, at as int, half as nat);
            proof {
                lemma_mul::<F>(values@[degree as int], leading_inverse, leading_inverse);
                let start = add_product::<F>(rest, terms, single, 1, 0);
                assert forall|t: int| 0 <= t < rest.len() implies start[t] == rest[t] by {
                    lemma_add::<F>(rest[t], rest[t], rest[t]);
                }
                assert(rest =~= start);
            }
            let mut exponent: usize = 0;
            let mut shift: usize = 1;
            while exponent < dimension
                invariant
                    exponent <= dimension,
                    d + 1 == dimension,
                    at < half,
                    half == span(d),
                    len == 2 * half,
                    factor@ == terms,
                    terms.len() == dimension,
                    values@.len() == len,
                    rest.len() == len,
                    shift == span(exponent as nat),
                    row == seq![coefficient],
                    single == single_row::<F>(row, 1, at as int, half as nat),
                    values@ == add_product::<F>(rest, terms, single, 1, exponent as nat),
                decreases dimension - exponent,
            {
                let term = factor[exponent];
                let ghost before = values@;
                proof {
                    lemma_span_monotone(exponent as nat, d);
                }
                if !is_zero::<F>(term) {
                    let target: usize = at + shift;
                    values[target] = plus::<F>(values[target], times::<F>(term, coefficient));
                }
                proof {
                    let after = add_product::<F>(rest, terms, single, 1, (exponent + 1) as nat);
                    assert forall|t: int| 0 <= t < after.len() implies values@[t] == after[t] by {
                        lemma_add_term::<F>(rest, terms, single, 1, exponent as nat, t);
                        lemma_mul::<F>(term, fzero::<F>(), fzero::<F>());
                        lemma_mul::<F>(coefficient, fzero::<F>(), fzero::<F>());
                        lemma_add::<F>(before[t], before[t], before[t]);
                    }
                    assert(values@ =~= after);
                }
                exponent = exponent + 1;
                shift = shift * 2;
            }
            proof {
                lemma_division_step::<F>(
                    v,
                    rest,
                    values@,
                    terms,
                    q,
                    single,
                    1,
                    dimension as nat,
                );
                let next_q = vadd::<F>(q, single);
                assert forall|k: int| 0 <= k < half implies #[trigger] next_q[k] == if k < degree
                    - half {
                    fzero::<F>()
                } else {
                    quotient@[k]
                } by {
                    lemma_add::<F>(q[k], q[k], q[k]);
                    lemma_add::<F>(coefficient, coefficient, coefficient);
                }
                assert forall|t: int| degree <= t < len implies #[trigger] values@[t]
                    == fzero::<F>() by {
                    lemma_leading_cleared::<F>(rest, terms, row, 1, d, at as int, t);
                }
                q = next_q;
            }
        }
        assert(quotient@ =~= q);
        let mut i: usize = 0;
        let ghost rest = values@;
        while i < half
            invariant
                i <= half,
                len == 2 * half,
                quotient@.len() == half,
                quotient@ == q,
                rest.len() == len,
                values@.len() == len,
                forall|k: int| 0 <= k < half ==> #[trigger] values@[k] == rest[k],
                forall|k: int|
                    half <= k < half + i ==> #[trigger] values@[k] == q[k - half],
            decreases half - i,
        {
            values[half + i] = quotient[i];
            i = i + 1;
        }
        proof {
            assert(rest =~= rest.subrange(0, half as int) + vzero::<F>(half as nat));
            assert(values@ =~= rest.subrange(0, half as int) + q);
            assert(v == add_product::<F>(
                values@.subrange(0, half as int) + vzero::<F>(half as nat),
                terms,
                q,
                1,
                dimension as nat,
            )) by {
                assert(values@.subrange(0, half as int) =~= rest.subrange(0, half as int));
            }
        }
    }
    let ghost parted = values@;
    let (low, high) = values.split_at_mut(half);
    monomial_to_novel_node::<F>(low, plan, dimension - 1, scratch);
    monomial_to_novel_node::<F>(high, plan, dimension - 1, scratch);
    proof {
        lemma_concat_halves(low@, high@);
        assert(parted.subrange(half as int, len as int) =~= q);
    }
}

/// Bottom-up conversion of packed rows.
fn novel_to_monomial_bytes_node<F: ButterflyKernels>(
    values: &mut [u8],
    row_len: usize,
    plan: &TransformPlan<F>,
    dimension: usize,
    scratch: &mut [u8],
)
    requires
        plan.wf(),
        dimension <= plan.dim(),
        rows_fit::<F>(old(values)@.len(), row_len as nat, dimension as nat),
        old(values)@.len() <= 2 * old(scratch)@.len() || dimension == 0,
    ensures
        final(scratch)@.len() == old(scratch)@.len(),
        final(values)@.len() == old(values)@.len(),
        unpack::<F>(final(values)@) == to_monomial::<F>(
            unpack::<F>(old(values)@),
            plan.domain_basis(),
            dimension as nat,
            lanes_of::<F>(row_len as nat),
        ),
    decreases dimension,
{
    if dimension == 0 {
        return ;
    }
    let ghost basis = plan.domain_basis();
    let ghost lanes = lanes_of::<F>(row_len as nat);
    let ghost d = (dimension - 1) as nat;
    let ghost v = unpack::<F>(values@);
    proof {
        lemma_elem_bytes::<F>();
        lemma_rows::<F>(values@, row_len as nat, dimension as nat);
        lemma_row_halves::<F>(values@, row_len as nat, dimension as nat);
    }
    let len: usize = values.len();
    let half: usize = len / 2;
    {
        let (low, high) = values.split_at_mut(half);
        novel_to_monomial_bytes_node::<F>(low, row_len, plan, dimension - 1, scratch);
        novel_to_monomial_bytes_node::<F>(high, row_len, plan, dimension - 1, scratch);
        proof {
            lemma_unpack_concat::<F>(low@, high@);
        }
    }
    let ghost low = to_monomial::<F>(low_half(v), basis, d, lanes);
    let ghost q = to_monomial::<F>(high_half(v), basis, d, lanes);
    proof {
        lemma_halves_span(d, lanes);
        assert(v.len() == 2 * (span(d) * lanes)) by (nonlinear_arith)
            requires
                v.len() == (2 * span(d)) * lanes,
        ;
        lemma_to_monomial_len::<F>(low_half(v), basis, d, lanes);
        lemma_to_monomial_len::<F>(high_half(v), basis, d, lanes);
        assert(unpack::<F>(values@) == low + q);
        lemma_row_halves::<F>(values@, row_len as nat, dimension as nat);
        lemma_concat_halves(low, q);
    }
    let factor = plan.normalized_subspace_polynomial(dimension - 1);
    let ghost terms = normalized_coefficients::<F>(basis, d);
    proof {
        lemma_subspace_coefficients::<F>(basis, d, fzero::<F>());
    }
    let (source, _) = scratch.split_at_mut(half);
    {
        let (kept, high) = values.split_at_mut(half);
        row_copy(source, high);
        row_clear::<F>(high);
        proof {
            lemma_unpack_concat::<F>(kept@, high@);
        }
    }
    let ghost base = low + vzero::<F>(q.len());
    assert(unpack::<F>(values@) == base);
    assert(unpack::<F>(source@) == q);
    let mut exponent: usize = 0;
    let mut shift: usize = row_len;
    proof {
        let start = add_product::<F>(base, terms, q, lanes, 0);
        assert forall|t: int| 0 <= t < base.len() implies start[t] == base[t] by {
            lemma_add::<F>(base[t], base[t], base[t]);
        }
        assert(start =~= base);
        assert(span(0) * row_len == row_len) by (nonlinear_arith)
            requires
                span(0) == 1,
        ;
    }
    while exponent < dimension
        invariant
            exponent <= dimension,
            d + 1 == dimension,
            factor@ == terms,
            terms.len() == dimension,
            row_len > 0,
            whole::<F>(row_len as int),
            whole::<F>(half as int),
            whole::<F>(len as int),
            lanes == lanes_of::<F>(row_len as nat),
            lanes * elem_bytes::<F>() == row_len,
            half == span(d) * row_len,
            len == 2 * half,
            unpack::<F>(source@) == q,
            source@.len() == half,
            q.len() == span(d) * lanes,
            values@.len() == len,
            base.len() == 2 * q.len(),
            shift == span(exponent as nat) * row_len,
            unpack::<F>(values@).len() == base.len(),
            unpack::<F>(values@) == add_product::<F>(base, terms, q, lanes, exponent as nat),
        decreases dimension - exponent,
    {
        let term = factor[exponent];
        let ghost before = unpack::<F>(values@);
        let ghost a = span(exponent as nat);
        proof {
            lemma_elem_bytes::<F>();
            lemma_span_monotone(exponent as nat, d);
            let n = elem_bytes::<F>();
            assert(a * row_len <= span(d) * row_len && a * row_len == (a * lanes) * n && 2 * a
                * row_len == 2 * (a * row_len)) by (nonlinear_arith)
                requires
                    a <= span(d),
                    row_len == lanes * n,
            ;
            vstd::arithmetic::div_mod::lemma_mod_multiples_basic((a * lanes) as int, n as int);
            vstd::arithmetic::div_mod::lemma_div_multiples_vanish((a * lanes) as int, n as int);
            assert(n * (a * lanes) == (a * lanes) * n) by (nonlinear_arith);
        }
        if !is_zero::<F>(term) {
            add_scaled_rows::<F>(values, shift, term, source);
        }
        proof {
            let after = add_product::<F>(base, terms, q, lanes, (exponent + 1) as nat);
            assert forall|t: int| 0 <= t < after.len() implies unpack::<F>(values@)[t]
                == after[t] by {
                lemma_add_term::<F>(base, terms, q, lanes, exponent as nat, t);
                if term == fzero::<F>() {
                    let k = t - a * lanes;
                    lemma_mul::<F>(q[k], q[k], q[k]);
                    lemma_add::<F>(before[t], before[t], before[t]);
                }
            }
            assert(unpack::<F>(values@).len() == after.len());
            assert(unpack::<F>(values@) =~= after);
        }
        exponent = exponent + 1;
        if exponent < dimension {
            shift = shift * 2;
        } else {
            proof {
                assert(span(dimension as nat) * row_len == len) by (nonlinear_arith)
                    requires
                        span(dimension as nat) == 2 * span(d),
                        half == span(d) * row_len,
                        len == 2 * half,
                ;
            }
            shift = len;
        }
    }
}

/// The row that a division step reads, and its place among the packed elements.
proof fn lemma_row_place<F: BinaryField>(row_len: nat, row: int, rows: nat)
    requires
        row_len > 0,
        whole::<F>(row_len as int),
        0 <= row < rows,
    ensures
        0 <= row * row_len,
        row * row_len + row_len <= rows * row_len,
        whole::<F>(row * row_len),
        (row * row_len) / (elem_bytes::<F>() as int) == row * lanes_of::<F>(row_len),
        lanes_of::<F>(row_len) * elem_bytes::<F>() == row_len,
        lanes_of::<F>(row_len) > 0,
{
    lemma_elem_bytes::<F>();
    let n = elem_bytes::<F>();
    let lanes = lanes_of::<F>(row_len);
    lemma_whole_parts(row_len as int, 0, n as int);
    assert(lanes > 0) by (nonlinear_arith)
        requires
            lanes * n == row_len,
            row_len > 0,
    ;
    assert(0 <= row * row_len && row * row_len + row_len <= rows * row_len && row * row_len == (row
        * lanes) * n) by (nonlinear_arith)
        requires
            0 <= row,
            row + 1 <= rows,
            row_len == lanes * n,
    ;
    vstd::arithmetic::div_mod::lemma_mod_multiples_basic(row * lanes, n as int);
    vstd::arithmetic::div_mod::lemma_div_multiples_vanish(row * lanes, n as int);
    assert(n * (row * lanes) == (row * lanes) * n) by (nonlinear_arith);
}

/// Whole rows are whole elements.
proof fn lemma_rows_place<F: BinaryField>(row_len: nat, rows: nat)
    requires
        row_len > 0,
        whole::<F>(row_len as int),
    ensures
        whole::<F>((rows * row_len) as int),
        (rows * row_len) as int / (elem_bytes::<F>() as int) == rows * lanes_of::<F>(row_len),
        whole::<F>((2 * (rows * row_len)) as int),
        (2 * (rows * row_len)) as int / (elem_bytes::<F>() as int) == 2 * (rows * lanes_of::<F>(
            row_len,
        )),
{
    lemma_row_place::<F>(row_len, rows as int, rows + 1);
    lemma_elem_bytes::<F>();
    let b = (rows * row_len) as int;
    lemma_whole_parts(b, b, elem_bytes::<F>() as int);
}

/// Overwrite row `to` of `quotient` with `c` times row `from` of `values`.
fn scale_row_into<F: BinaryField>(
    quotient: &mut [u8],
    to: usize,
    values: &[u8],
    from: usize,
    row_len: usize,
    c: F::Elem,
    Ghost(rows): Ghost<nat>,
)
    requires
        row_len > 0,
        whole::<F>(row_len as int),
        old(quotient)@.len() == rows * row_len,
        values@.len() == 2 * (rows * row_len),
        to < rows,
        from < 2 * rows,
    ensures
        final(quotient)@.len() == old(quotient)@.len(),
        ({
            let lanes = lanes_of::<F>(row_len as nat);
            let before = unpack::<F>(old(quotient)@);
            let after = unpack::<F>(final(quotient)@);
            &&& after.len() == before.len()
            &&& forall|k: int|
                0 <= k < before.len() ==> #[trigger] after[k] == if to * lanes <= k < to * lanes
                    + lanes {
                    fmul::<F>(c, unpack::<F>(values@)[from * lanes + (k - to * lanes)])
                } else {
                    before[k]
                }
        }),
{
    let len: usize = quotient.len();
    let total: usize = values.len();
    let ghost n = elem_bytes::<F>() as int;
    let ghost lanes = lanes_of::<F>(row_len as nat);
    proof {
        lemma_elem_bytes::<F>();
        assert(2 * (rows * row_len) == (2 * rows) * row_len) by (nonlinear_arith);
        lemma_row_place::<F>(row_len as nat, to as int, rows);
        lemma_row_place::<F>(row_len as nat, from as int, 2 * rows);
        lemma_rows_place::<F>(row_len as nat, rows);
    }
    let start: usize = to * row_len;
    let at: usize = from * row_len;
    proof {
        lemma_whole_parts(len as int, start as int, n);
        lemma_whole_parts(len - start, row_len as int, n);
        lemma_whole_parts(total as int, at as int, n);
        lemma_whole_parts(total - at, row_len as int, n);
        lemma_whole_parts(row_len as int, 0, n);
        lemma_unpack_split::<F>(quotient@, start as int);
        lemma_unpack_split::<F>(values@, at as int);
    }
    let (_, after_at) = values.split_at(at);
    proof {
        lemma_unpack_split::<F>(after_at@, row_len as int);
    }
    let (source, _) = after_at.split_at(row_len);
    let (head, rest) = quotient.split_at_mut(start);
    proof {
        lemma_unpack_split::<F>(rest@, row_len as int);
    }
    let (target, tail) = rest.split_at_mut(row_len);
    row_mul_into::<F>(target, c, source);
    proof {
        lemma_unpack_concat::<F>(target@, tail@);
        lemma_unpack_concat::<F>(head@, target@ + tail@);
    }
}

/// One division step on packed rows: add the sparse polynomial times row `at` of
/// `quotient` to `values`.
fn subtract_row<F: BinaryField>(
    values: &mut [u8],
    quotient: &[u8],
    at: usize,
    row_len: usize,
    factor: &[F::Elem],
    Ghost(d): Ghost<nat>,
)
    requires
        row_len > 0,
        whole::<F>(row_len as int),
        quotient@.len() == span(d) * row_len,
        old(values)@.len() == 2 * (span(d) * row_len),
        at < span(d),
        factor@.len() == d + 1,
    ensures
        final(values)@.len() == old(values)@.len(),
        ({
            let lanes = lanes_of::<F>(row_len as nat);
            let row = unpack::<F>(quotient@).subrange(at * lanes, at * lanes + lanes);
            unpack::<F>(final(values)@) == add_product::<F>(
                unpack::<F>(old(values)@),
                factor@,
                single_row::<F>(row, lanes, at as int, span(d) * lanes),
                lanes,
                d + 1,
            )
        }),
{
    let len: usize = values.len();
    let count: usize = factor.len();
    let ghost rows = span(d);
    let ghost n = elem_bytes::<F>() as int;
    let ghost lanes = lanes_of::<F>(row_len as nat);
    let ghost rest = unpack::<F>(values@);
    let ghost terms = factor@;
    proof {
        lemma_elem_bytes::<F>();
        lemma_row_place::<F>(row_len as nat, at as int, rows);
        lemma_rows_place::<F>(row_len as nat, rows);
        assert(0 <= at * lanes && at * lanes + lanes <= rows * lanes) by (nonlinear_arith)
            requires
                at + 1 <= rows,
        ;
        assert(rest.len() == 2 * (rows * lanes));
    }
    let start: usize = at * row_len;
    proof {
        lemma_whole_parts(quotient@.len() as int, start as int, n);
        lemma_whole_parts(quotient@.len() - start, row_len as int, n);
        lemma_whole_parts(row_len as int, 0, n);
        lemma_unpack_split::<F>(quotient@, start as int);
    }
    let (_, from_start) = quotient.split_at(start);
    proof {
        lemma_unpack_split::<F>(from_start@, row_len as int);
    }
    let (source, _) = from_start.split_at(row_len);
    let ghost row = unpack::<F>(quotient@).subrange(at * lanes, at * lanes + lanes);
    let ghost single = single_row::<F>(row, lanes, at as int, rows * lanes);
    proof {
        assert(unpack::<F>(source@) =~= row);
        let begin = add_product::<F>(rest, terms, single, lanes, 0);
        assert forall|t: int| 0 <= t < rest.len() implies begin[t] == rest[t] by {
            lemma_add::<F>(rest[t], rest[t], rest[t]);
        }
        assert(rest =~= begin);
    }
    let mut exponent: usize = 0;
    let mut shift: usize = 1;
    while exponent < count
        invariant
            exponent <= count,
            count == d + 1,
            factor@ == terms,
            terms.len() == count,
            row_len > 0,
            whole::<F>(row_len as int),
            whole::<F>(len as int),
            rows == span(d),
            at < rows,
            lanes == lanes_of::<F>(row_len as nat),
            lanes * elem_bytes::<F>() == row_len,
            lanes > 0,
            len == 2 * (rows * row_len),
            values@.len() == len,
            rest.len() == 2 * (rows * lanes),
            source@.len() == row_len,
            unpack::<F>(source@) == row,
            row.len() == lanes,
            single == single_row::<F>(row, lanes, at as int, rows * lanes),
            0 <= at * lanes,
            at * lanes + lanes <= rows * lanes,
            shift == span(exponent as nat),
            unpack::<F>(values@).len() == rest.len(),
            unpack::<F>(values@) == add_product::<F>(rest, terms, single, lanes, exponent as nat),
        decreases count - exponent,
    {
        let term = factor[exponent];
        let ghost before = unpack::<F>(values@);
        proof {
            lemma_elem_bytes::<F>();
            lemma_span_monotone(exponent as nat, d);
            lemma_halves_span(d, 1);
            assert((2 * rows) * row_len == 2 * (rows * row_len)) by (nonlinear_arith);
            assert(2 * rows <= len) by (nonlinear_arith)
                requires
                    len == (2 * rows) * row_len,
                    row_len >= 1,
            ;
            lemma_row_place::<F>(row_len as nat, at + shift, 2 * rows);
            assert((at + shift) * lanes == at * lanes + shift * lanes) by (nonlinear_arith);
        }
        if !is_zero::<F>(term) {
            let target: usize = at + shift;
            add_scaled_rows::<F>(values, target * row_len, term, source);
        }
        proof {
            let after = add_product::<F>(rest, terms, single, lanes, (exponent + 1) as nat);
            assert forall|t: int| 0 <= t < after.len() implies unpack::<F>(values@)[t]
                == after[t] by {
                lemma_add_term::<F>(rest, terms, single, lanes, exponent as nat, t);
                lemma_mul::<F>(term, fzero::<F>(), fzero::<F>());
                let k = t - shift * lanes;
                lemma_mul::<F>(single[k], fzero::<F>(), fzero::<F>());
                lemma_add::<F>(before[t], before[t], before[t]);
            }
            assert(unpack::<F>(values@).len() == after.len());
            assert(unpack::<F>(values@) =~= after);
        }
        exponent = exponent + 1;
        shift = shift * 2;
    }
}

/// Top-down division of packed rows.
fn monomial_to_novel_bytes_node<F: ButterflyKernels>(
    values: &mut [u8],
    row_len: usize,
    plan: &TransformPlan<F>,
    dimension: usize,
    scratch: &mut [u8],
)
    requires
        plan.wf(),
        dimension <= plan.dim(),
        rows_fit::<F>(old(values)@.len(), row_len as nat, dimension as nat),
        old(values)@.len() <= 2 * old(scratch)@.len() || dimension == 0,
    ensures
        final(scratch)@.len() == old(scratch)@.len(),
        final(values)@.len() == old(values)@.len(),
        to_monomial::<F>(
            unpack::<F>(final(values)@),
            plan.domain_basis(),
            dimension as nat,
            lanes_of::<F>(row_len as nat),
        ) == unpack::<F>(old(values)@),
    decreases dimension,
{
    if dimension == 0 {
        return ;
    }
    let ghost basis = plan.domain_basis();
    let ghost lanes = lanes_of::<F>(row_len as nat);
    let ghost d = (dimension - 1) as nat;
    let ghost rows = span(d);
    let ghost v = unpack::<F>(values@);
    let len: usize = values.len();
    let half: usize = len / 2;
    let half_rows: usize = half / row_len;
    proof {
        lemma_elem_bytes::<F>();
        lemma_rows::<F>(values@, row_len as nat, dimension as nat);
        lemma_row_halves::<F>(values@, row_len as nat, dimension as nat);
        lemma_leading::<F>(plan, d);
        lemma_halves_span(d, lanes);
        plan.lemma_wf();
        lemma_span_monotone(dimension as nat, plan.dim());
        assert(v.len() == 2 * (rows * lanes)) by (nonlinear_arith)
            requires
                v.len() == (2 * rows) * lanes,
        ;
    }
    let factor = plan.normalized_subspace_polynomial(dimension - 1);
    let ghost terms = normalized_coefficients::<F>(basis, d);
    let leading_inverse = inverse::<F>(factor[dimension - 1]);
    let ghost mut q = vzero::<F>(rows * lanes);
    {
        let (quotient, _) = scratch.split_at_mut(half);
        let mut degree: usize = half_rows * 2;
        proof {
            let start = add_product::<F>(v, terms, q, lanes, dimension as nat);
            assert forall|t: int| 0 <= t < v.len() implies start[t] == v[t] by {
                lemma_product_zero::<F>(terms, q, lanes, dimension as nat, t);
                lemma_add::<F>(v[t], v[t], v[t]);
            }
            assert(v =~= start);
            lemma_rows::<F>(quotient@, row_len as nat, d);
            assert((2 * rows) * lanes == 2 * (rows * lanes)) by (nonlinear_arith);
        }
        while degree > half_rows
            invariant
                half_rows <= degree <= 2 * half_rows,
                half_rows == rows,
                rows == span(d),
                d + 1 == dimension,
                row_len > 0,
                whole::<F>(row_len as int),
                lanes == lanes_of::<F>(row_len as nat),
                lanes > 0,
                half == rows * row_len,
                len == 2 * half,
                v.len() == 2 * (rows * lanes),
                values@.len() == len,
                unpack::<F>(values@).len() == v.len(),
                quotient@.len() == half,
                unpack::<F>(quotient@).len() == rows * lanes,
                q.len() == rows * lanes,
                factor@ == terms,
                terms.len() == dimension,
                terms[d as int] != fzero::<F>(),
                leading_inverse == finv::<F>(terms[d as int]),
                v == add_product::<F>(unpack::<F>(values@), terms, q, lanes, dimension as nat),
                forall|t: int|
                    degree * lanes <= t < v.len() ==> #[trigger] unpack::<F>(values@)[t]
                        == fzero::<F>(),
                forall|k: int|
                    0 <= k < rows * lanes ==> #[trigger] q[k] == if k < (degree - rows) * lanes {
                        fzero::<F>()
                    } else {
                        unpack::<F>(quotient@)[k]
                    },
            decreases degree,
        {
            degree = degree - 1;
            let at: usize = degree - half_rows;
            let ghost rest = unpack::<F>(values@);
            let ghost old_quotient = unpack::<F>(quotient@);
            scale_row_into::<F>(
                quotient,
                at,
                values,
                degree,
                row_len,
                leading_inverse,
                Ghost(rows),
            );
            let ghost row = unpack::<F>(quotient@).subrange(at * lanes, at * lanes + lanes);
            let ghost single = single_row::<F>(row, lanes, at as int, rows * lanes);
            proof {
                assert(0 <= at * lanes && at * lanes + lanes <= rows * lanes && (at + rows) * lanes
                    == at * lanes + rows * lanes && (degree + 1) * lanes == degree * lanes + lanes
                    && (degree + 1 - rows) * lanes == at * lanes + lanes && (degree - rows) * lanes
                    == at * lanes) by (nonlinear_arith)
                    requires
                        at + 1 <= rows,
                        degree == at + rows,
                ;
                assert forall|k: int| 0 <= k < lanes implies #[trigger] row[k] == fmul::<F>(
                    finv::<F>(terms[d as int]),
                    rest[(at + span(d)) * lanes + k],
                ) by {
                    assert(row[k] == unpack::<F>(quotient@)[at * lanes + k]);
                }
            }
            subtract_row::<F>(values, quotient, at, row_len, factor, Ghost(d));
            proof {
                lemma_division_step::<F>(
                    v,
                    rest,
                    unpack::<F>(values@),
                    terms,
                    q,
                    single,
                    lanes,
                    dimension as nat,
                );
                let next_q = vadd::<F>(q, single);
                assert forall|k: int| 0 <= k < rows * lanes implies #[trigger] next_q[k] == if k < (
                degree - rows) * lanes {
                    fzero::<F>()
                } else {
                    unpack::<F>(quotient@)[k]
                } by {
                    lemma_add::<F>(q[k], q[k], q[k]);
                    let x = unpack::<F>(quotient@)[k];
                    lemma_add::<F>(x, x, x);
                    if at * lanes <= k < at * lanes + lanes {
                        assert(single[k] == row[k - at * lanes]);
                    }
                }
                assert forall|t: int| degree * lanes <= t < v.len() implies #[trigger] unpack::<F>(
                    values@,
                )[t] == fzero::<F>() by {
                    lemma_leading_cleared::<F>(rest, terms, row, lanes, d, at as int, t);
                }
                q = next_q;
            }
        }
        let ghost rest = unpack::<F>(values@);
        proof {
            assert((rows - rows) * lanes == 0) by (nonlinear_arith);
            assert(unpack::<F>(quotient@) =~= q);
            lemma_row_halves::<F>(values@, row_len as nat, dimension as nat);
        }
        {
            let (kept, high) = values.split_at_mut(half);
            row_copy(high, quotient);
            proof {
                lemma_unpack_concat::<F>(kept@, high@);
            }
        }
        proof {
            let low = low_half(rest);
            assert(unpack::<F>(values@) =~= low + q);
            assert(rest =~= low + vzero::<F>(rows * lanes));
        }
    }
    let ghost parted = unpack::<F>(values@);
    proof {
        lemma_row_halves::<F>(values@, row_len as nat, dimension as nat);
        lemma_concat_halves(low_half(parted), high_half(parted));
        assert(high_half(parted) =~= q);
        assert(v == add_product::<F>(
            low_half(parted) + vzero::<F>(rows * lanes),
            terms,
            q,
            lanes,
            dimension as nat,
        ));
    }
    let (low, high) = values.split_at_mut(half);
    monomial_to_novel_bytes_node::<F>(low, row_len, plan, dimension - 1, scratch);
    monomial_to_novel_bytes_node::<F>(high, row_len, plan, dimension - 1, scratch);
    proof {
        lemma_unpack_concat::<F>(low@, high@);
        lemma_rows::<F>(low@, row_len as nat, d);
        lemma_rows::<F>(high@, row_len as nat, d);
        lemma_concat_halves(unpack::<F>(low@), unpack::<F>(high@));
    }
}

/// Rewrite novel-basis coefficients as monomial coefficients in place.
///
/// On return `coefficients[d]` is the coefficient of `x^d` in the same
/// polynomial.
pub fn novel_to_monomial<F: ButterflyKernels>(
    coefficients: &mut [F::Elem],
    plan: &TransformPlan<F>,
) -> (r: Result<(), TransformError>)
    requires
        plan.wf(),
    ensures
        final(coefficients)@.len() == old(coefficients)@.len(),
        match length_error(old(coefficients)@.len(), span(plan.dim())) {
            Some(e) => r == Err::<(), TransformError>(e) && final(coefficients)@ == old(
                coefficients,
            )@,
            None => r is Ok && final(coefficients)@ == to_monomial::<F>(
                old(coefficients)@,
                plan.domain_basis(),
                plan.dim(),
                1,
            ),
        },
{
    match check_len(coefficients.len(), plan.size()) {
        Ok(_) => {},
        Err(e) => {
            return Err(e);
        },
    }
    let mut scratch = zeros::<F>(conversion_scratch_elements(plan.size()));
    novel_to_monomial_node::<F>(
        coefficients,
        plan,
        plan.log_size(),
        scratch.as_mut_slice(),
    );
    Ok(())
}

/// Rewrite novel-basis coefficients as monomial coefficients in place, in
/// caller-provided workspace.
pub fn novel_to_monomial_with_scratch<F: ButterflyKernels>(
    coefficients: &mut [F::Elem],
    plan: &TransformPlan<F>,
    scratch: &mut [F::Elem],
) -> (r: Result<(), TransformError>)
    requires
        plan.wf(),
    ensures
        final(coefficients)@.len() == old(coefficients)@.len(),
        final(scratch)@.len() == old(scratch)@.len(),
        match conversion_error(
            old(coefficients)@.len(),
            old(scratch)@.len(),
            span(plan.dim()),
        ) {
            Some(e) => {
                &&& r == Err::<(), TransformError>(e)
                &&& final(coefficients)@ == old(coefficients)@
                &&& final(scratch)@ == old(scratch)@
            },
            None => r is Ok && final(coefficients)@ == to_monomial::<F>(
                old(coefficients)@,
                plan.domain_basis(),
                plan.dim(),
                1,
            ),
        },
{
    match check_len(coefficients.len(), plan.size()) {
        Ok(_) => {},
        Err(e) => {
            return Err(e);
        },
    }
    match check_min_len(scratch.len(), conversion_scratch_elements(plan.size())) {
        Ok(_) => {},
        Err(e) => {
            return Err(e);
        },
    }
    novel_to_monomial_node::<F>(coefficients, plan, plan.log_size(), scratch);
    Ok(())
}

/// Rewrite monomial coefficients as novel-basis coefficients in place, the
/// inverse of [`novel_to_monomial`].
pub fn monomial_to_novel<F: ButterflyKernels>(
    coefficients: &mut [F::Elem],
    plan: &TransformPlan<F>,
) -> (r: Result<(), TransformError>)
    requires
        plan.wf(),
    ensures
        final(coefficients)@.len() == old(coefficients)@.len(),
        match length_error(old(coefficients)@.len(), span(plan.dim())) {
            Some(e) => r == Err::<(), TransformError>(e) && final(coefficients)@ == old(
                coefficients,
            )@,
            None => r is Ok && to_monomial::<F>(
                final(coefficients)@,
                plan.domain_basis(),
                plan.dim(),
                1,
            ) == old(coefficients)@,
        },
{
    match check_len(coefficients.len(), plan.size()) {
        Ok(_) => {},
        Err(e) => {
            return Err(e);
        },
    }
    let mut scratch = zeros::<F>(conversion_scratch_elements(plan.size()));
    monomial_to_novel_node::<F>(
        coefficients,
        plan,
        plan.log_size(),
        scratch.as_mut_slice(),
    );
    Ok(())
}

/// Rewrite monomial coefficients as novel-basis coefficients in place, in
/// caller-provided workspace.
pub fn monomial_to_novel_with_scratch<F: ButterflyKernels>(
    coefficients: &mut [F::Elem],
    plan: &TransformPlan<F>,
    scratch: &mut [F::Elem],
) -> (r: Result<(), TransformError>)
    requires
        plan.wf(),
    ensures
        final(coefficients)@.len() == old(coefficients)@.len(),
        final(scratch)@.len() == old(scratch)@.len(),
        match conversion_error(
            old(coefficients)@.len(),
            old(scratch)@.len(),
            span(plan.dim()),
        ) {
            Some(e) => {
                &&& r == Err::<(), TransformError>(e)
                &&& final(coefficients)@ == old(coefficients)@
                &&& final(scratch)@ == old(scratch)@
            },
            None => r is Ok && to_monomial::<F>(
                final(coefficients)@,
                plan.domain_basis(),
                plan.dim(),
                1,
            ) == old(coefficients)@,
        },
{
    match check_len(coefficients.len(), plan.size()) {
        Ok(_) => {},
        Err(e) => {
            return Err(e);
        },
    }
    match check_min_len(scratch.len(), conversion_scratch_elements(plan.size())) {
        Ok(_) => {},
        Err(e) => {
            return Err(e);
        },
    }
    monomial_to_novel_node::<F>(coefficients, plan, plan.log_size(), scratch);
    Ok(())
}

/// The error for a buffer of `got` elements, if it should hold `expected`.
pub open spec fn length_error(got: nat, expected: nat) -> Option<TransformError> {
    if got == expected {
        None
    } else {
        Some(TransformError::BufferLength { expected: expected as usize, got: got as usize })
    }
}

/// The error for a conversion of `size` coefficients in workspace, if a buffer
/// has the wrong length.
pub open spec fn conversion_error(got: nat, scratch: nat, size: nat) -> Option<TransformError> {
    if got != size {
        Some(TransformError::BufferLength { expected: size as usize, got: got as usize })
    } else if scratch < size / 2 {
        Some(
            TransformError::ScratchTooSmall {
                required: (size / 2) as usize,
                available: scratch as usize,
            },
        )
    } else {
        None
    }
}

fn check_len(got: usize, expected: usize) -> (r: Result<(), TransformError>)
    ensures
        match length_error(got as nat, expected as nat) {
            Some(e) => r == Err::<(), TransformError>(e),
            None => r is Ok,
        },
{
    if got == expected {
        Ok(())
    } else {
        Err(TransformError::BufferLength { expected, got })
    }
}

fn check_min_len(available: usize, required: usize) -> (r: Result<(), TransformError>)
    ensures
        if available >= required {
            r is Ok
        } else {
            r == Err::<(), TransformError>(
                TransformError::ScratchTooSmall { required, available },
            )
        },
{
    if available >= required {
        Ok(())
    } else {
        Err(TransformError::ScratchTooSmall { required, available })
    }
}

fn zeros<F: BinaryField>(count: usize) -> (r: Vec<F::Elem>)
    ensures
        r@.len() == count,
{
    let zero = zero::<F>();
    let mut r: Vec<F::Elem> = Vec::with_capacity(count);
    let mut i: usize = 0;
    while i < count
        invariant
            i <= count,
            r@.len() == i,
        decreases count - i,
    {
        r.push(zero);
        i = i + 1;
    }
    r
}

/// The error for a conversion of packed rows, if the geometry or the workspace
/// is not valid.
pub open spec fn rows_conversion_error<F: BinaryField>(
    got: usize,
    row_len: usize,
    scratch: usize,
    size: usize,
) -> Option<TransformError> {
    match geometry_error::<F>(got, row_len, size) {
        Some(e) => Some(e),
        None => if scratch < (size / 2) * row_len {
            Some(
                TransformError::ScratchTooSmall {
                    required: ((size / 2) * row_len) as usize,
                    available: scratch,
                },
            )
        } else {
            None
        },
    }
}

fn check_byte_geometry<F: BinaryField>(
    got: usize,
    row_len: usize,
    scratch: usize,
    size: usize,
) -> (r: Result<(), TransformError>)
    ensures
        match rows_conversion_error::<F>(got, row_len, scratch, size) {
            Some(e) => r == Err::<(), TransformError>(e),
            None => r is Ok,
        },
{
    match check_geometry::<F>(got, row_len, size) {
        Ok(_) => {
            let half: usize = conversion_scratch_elements(size);
            assert(half * row_len <= size * row_len) by (nonlinear_arith)
                requires
                    half <= size,
            ;
            check_min_len(scratch, half * row_len)
        },
        Err(e) => Err(e),
    }
}

/// The workspace of a conversion suffices for the recursion.
proof fn lemma_workspace(size: nat, row_len: nat, dim: nat)
    requires
        size == span(dim),
    ensures
        dim == 0 || size * row_len <= 2 * ((size / 2) * row_len),
{
    if dim > 0 {
        let h = size / 2;
        assert(size * row_len == 2 * (h * row_len)) by (nonlinear_arith)
            requires
                size == 2 * h,
        ;
    }
}

/// Rewrite packed rows of novel-basis coefficients as rows of monomial
/// coefficients in place, each lane an independent polynomial.
pub fn novel_to_monomial_bytes<F: ButterflyKernels>(
    coefficients: &mut [u8],
    row_len: usize,
    plan: &TransformPlan<F>,
    scratch: &mut [u8],
) -> (r: Result<(), TransformError>)
    requires
        plan.wf(),
    ensures
        final(coefficients)@.len() == old(coefficients)@.len(),
        final(scratch)@.len() == old(scratch)@.len(),
        match rows_conversion_error::<F>(
            old(coefficients)@.len() as usize,
            row_len,
            old(scratch)@.len() as usize,
            span(plan.dim()) as usize,
        ) {
            Some(e) => {
                &&& r == Err::<(), TransformError>(e)
                &&& final(coefficients)@ == old(coefficients)@
                &&& final(scratch)@ == old(scratch)@
            },
            None => r is Ok && unpack::<F>(final(coefficients)@) == to_monomial::<F>(
                unpack::<F>(old(coefficients)@),
                plan.domain_basis(),
                plan.dim(),
                lanes_of::<F>(row_len as nat),
            ),
        },
{
    let size: usize = plan.size();
    match check_byte_geometry::<F>(coefficients.len(), row_len, scratch.len(), size) {
        Ok(_) => {},
        Err(e) => {
            return Err(e);
        },
    }
    proof {
        lemma_workspace(size as nat, row_len as nat, plan.dim());
    }
    novel_to_monomial_bytes_node::<F>(coefficients, row_len, plan, plan.log_size(), scratch);
    Ok(())
}

/// Rewrite packed rows of monomial coefficients as rows of novel-basis
/// coefficients in place, each lane an independent polynomial.
pub fn monomial_to_novel_bytes<F: ButterflyKernels>(
    coefficients: &mut [u8],
    row_len: usize,
    plan: &TransformPlan<F>,
    scratch: &mut [u8],
) -> (r: Result<(), TransformError>)
    requires
        plan.wf(),
    ensures
        final(coefficients)@.len() == old(coefficients)@.len(),
        final(scratch)@.len() == old(scratch)@.len(),
        match rows_conversion_error::<F>(
            old(coefficients)@.len() as usize,
            row_len,
            old(scratch)@.len() as usize,
            span(plan.dim()) as usize,
        ) {
            Some(e) => {
                &&& r == Err::<(), TransformError>(e)
                &&& final(coefficients)@ == old(coefficients)@
                &&& final(scratch)@ == old(scratch)@
            },
            None => r is Ok && to_monomial::<F>(
                unpack::<F>(final(coefficients)@),
                plan.domain_basis(),
                plan.dim(),
                lanes_of::<F>(row_len as nat),
            ) == unpack::<F>(old(coefficients)@),
        },
{
    let size: usize = plan.size();
    match check_byte_geometry::<F>(coefficients.len(), row_len, scratch.len(), size) {
        Ok(_) => {},
        Err(e) => {
            return Err(e);
        },
    }
    proof {
        lemma_workspace(size as nat, row_len as nat, plan.dim());
    }
    monomial_to_novel_bytes_node::<F>(coefficients, row_len, plan, plan.log_size(), scratch);
    Ok(())
}

/// Interpolate domain evaluations into monomial coefficients in place.
///
/// Row `i` starts as the evaluation at the plan's point `i` and ends as the
/// coefficient of `x^i` of the interpolating polynomial.
pub fn inverse_interpolate_bytes<F: ButterflyKernels>(
    rows: &mut [u8],
    row_len: usize,
    plan: &TransformPlan<F>,
    scratch: &mut [u8],
) -> (r: Result<(), TransformError>)
    requires
        plan.wf(),
    ensures
        final(rows)@.len() == old(rows)@.len(),
        final(scratch)@.len() == old(scratch)@.len(),
        match rows_conversion_error::<F>(
            old(rows)@.len() as usize,
            row_len,
            old(scratch)@.len() as usize,
            span(plan.dim()) as usize,
        ) {
            Some(e) => {
                &&& r == Err::<(), TransformError>(e)
                &&& final(rows)@ == old(rows)@
                &&& final(scratch)@ == old(scratch)@
            },
            None => r is Ok && unpack::<F>(final(rows)@) == to_monomial::<F>(
                inverse_model::<F>(unpack::<F>(old(rows)@), plan.heap(), 1, plan.dim()),
                plan.domain_basis(),
                plan.dim(),
                lanes_of::<F>(row_len as nat),
            ),
        },
{
    match check_byte_geometry::<F>(rows.len(), row_len, scratch.len(), plan.size()) {
        Ok(_) => {},
        Err(e) => {
            return Err(e);
        },
    }
    match plan.inverse_bytes(rows, row_len) {
        Ok(_) => novel_to_monomial_bytes::<F>(rows, row_len, plan, scratch),
        Err(e) => Err(e),
    }
}

} // verus!
