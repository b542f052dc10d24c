//! What generator rows and a dense inverse recover.

use vstd::prelude::*;

use crate::basis::convert::to_monomial;
use crate::basis::convert_laws::{law_conversion_keeps_degrees, law_convert_then_forward_evaluates};
use crate::field::{fadd, fmul, fzero, lemma_add, lemma_mul, BinaryField};
use crate::kernel::ButterflyKernels;
use crate::grid::entry;
use crate::ntt::ring::{
    lemma_sum_add, lemma_sum_exchange, lemma_sum_same, lemma_sum_scale, lemma_sum_zero, rsum,
};
use crate::poly::{lemma_poly_gap, lemma_poly_same, poly_value};
use crate::rs::generator::{
    coefficient_at, distinct, law_generator_rows_interpolate, locator, locator_slope, outside,
    points, weight,
};
use crate::rs::solve::{
    lemma_sum_one_term, lemma_unit_row, multiply_to_one, product_at, unit_at,
};
use crate::span::span;
use crate::transform::laws::zero_from;
use crate::transform::model::forward_model;
use crate::transform::plan::TransformPlan;

verus! {

/// The generator row of a point gives the evaluation there of every codeword:
/// where only the first `k` novel-basis coefficients may be nonzero, evaluation
/// `x` is the combination of the first `k` evaluations by the row of `x`.
pub proof fn law_generator_row_extends_codewords<F: ButterflyKernels>(
    plan: &TransformPlan<F>,
    v: Seq<F::Elem>,
    values: Seq<F::Elem>,
    derivatives: Seq<F::Elem>,
    row: Seq<F::Elem>,
    x: int,
)
    requires
        plan.wf(),
        v.len() == span(plan.dim()),
        zero_from::<F>(v, row.len() as int),
        row.len() <= x < span(plan.dim()),
        values[x] == locator::<F>(points::<F>(plan), row.len(), plan.point(x)),
        forall|d: int|
            0 <= d < row.len() ==> #[trigger] derivatives[d] == locator_slope::<F>(
                points::<F>(plan),
                row.len(),
                d,
            ),
        forall|d: int|
            0 <= d < row.len() ==> #[trigger] row[d] == coefficient_at::<F>(
                values[x],
                fadd::<F>(plan.point(x), plan.point(d)),
                derivatives[d],
            ),
    ensures
        ({
            let out = forward_model::<F>(v, plan.heap(), 1, plan.dim());
            out[x] == rsum::<F>(|d: int| fmul::<F>(row[d], out[d]), row.len())
        }),
{
    let k = row.len();
    let dim = plan.dim();
    let p = points::<F>(plan);
    let basis = plan.domain_basis();
    let out = forward_model::<F>(v, plan.heap(), 1, dim);
    plan.lemma_wf();
    let m = to_monomial::<F>(v, basis, dim, 1);
    assert(span(dim) * 1 == span(dim));
    law_conversion_keeps_degrees::<F>(v, basis, dim, 1, k as int);
    crate::transform::model::lemma_halves_span(dim, 1);
    crate::basis::convert::lemma_to_monomial_len::<F>(v, basis, dim, 1);
    let c = m.subrange(0, k as int);
    assert forall|i: int| 0 <= i < span(dim) implies #[trigger] out[i] == poly_value::<F>(
        c,
        plan.point(i),
    ) by {
        law_convert_then_forward_evaluates::<F>(
            m,
            v,
            plan.heap(),
            basis,
            plan.domain_shift(),
            dim,
            i,
        );
        lemma_poly_gap::<F>(m, k, m.len(), plan.point(i));
        lemma_poly_same::<F>(m, c, k, plan.point(i));
    }
    assert forall|i: int, j: int| 0 <= i < j < k implies #[trigger] p[i] != #[trigger] p[j] by {
        plan.law_points_are_distinct(i, j);
    }
    assert forall|i: int| 0 <= i < k implies #[trigger] p[i] != plan.point(x) by {
        plan.law_points_are_distinct(i, x);
    }
    assert(distinct::<F>(p, k));
    assert(outside::<F>(p, k, plan.point(x)));
    law_generator_rows_interpolate::<F>(p, k, c, plan.point(x));
    let f = |d: int| fmul::<F>(weight::<F>(p, k, d, plan.point(x)), poly_value::<F>(c, p[d]));
    let g = |d: int| fmul::<F>(row[d], out[d]);
    assert forall|d: int| 0 <= d < k implies #[trigger] f(d) == g(d) by {
        assert(p[d] == plan.point(d));
        assert(derivatives[d] == locator_slope::<F>(p, k, d));
        assert(out[d] == poly_value::<F>(c, plan.point(d)));
    }
    lemma_sum_same::<F>(f, g, k);
}

/// Whether `missing` lists distinct positions below `k`.
pub open spec fn positions(missing: Seq<int>, k: nat) -> bool {
    &&& forall|i: int| 0 <= i < missing.len() ==> 0 <= #[trigger] missing[i] < k
    &&& forall|i: int, j: int|
        0 <= i < j < missing.len() ==> #[trigger] missing[i] != #[trigger] missing[j]
}

/// A sum over listed positions is the sum over all positions of the listed terms.
proof fn lemma_sum_listed<F: BinaryField>(
    f: spec_fn(int) -> F::Elem,
    missing: Seq<int>,
    k: nat,
)
    requires
        positions(missing, k),
    ensures
        rsum::<F>(
            |d: int|
                if missing.contains(d) {
                    f(d)
                } else {
                    fzero::<F>()
                },
            k,
        ) == rsum::<F>(|j: int| f(missing[j]), missing.len()),
    decreases missing.len(),
{
    let listed = |d: int|
        if missing.contains(d) {
            f(d)
        } else {
            fzero::<F>()
        };
    let by_place = |j: int| f(missing[j]);
    if missing.len() == 0 {
        lemma_sum_zero::<F>(listed, k);
    } else {
        let n = (missing.len() - 1) as nat;
        let rest = missing.drop_last();
        let at = missing[n as int];
        assert(positions(rest, k));
        lemma_sum_listed::<F>(f, rest, k);
        let before = |d: int|
            if rest.contains(d) {
                f(d)
            } else {
                fzero::<F>()
            };
        let single = |d: int|
            if d == at {
                f(d)
            } else {
                fzero::<F>()
            };
        assert forall|d: int| 0 <= d < k implies #[trigger] listed(d) == fadd::<F>(
            before(d),
            single(d),
        ) by {
            lemma_add::<F>(f(d), f(d), f(d));
            lemma_add::<F>(fzero::<F>(), f(d), f(d));
            if rest.contains(d) {
                let i = choose|i: int| 0 <= i < rest.len() && rest[i] == d;
                assert(missing[i] == d);
                assert(missing[i] != missing[n as int]);
                assert(missing.contains(d));
            } else if d == at {
                assert(missing[n as int] == d);
                assert(missing.contains(d));
            } else if missing.contains(d) {
                let i = choose|i: int| 0 <= i < missing.len() && missing[i] == d;
                assert(i != n);
                assert(rest[i] == d);
            }
        }
        lemma_sum_add::<F>(before, single, listed, k);
        lemma_sum_one_term::<F>(single, k, at);
        let places = |j: int| f(rest[j]);
        lemma_sum_same::<F>(places, by_place, n);
    }
}

/// What is left of repair `i` when the contributions of the data that was not lost
/// are taken out.
pub open spec fn residual<F: BinaryField>(
    generator: Seq<F::Elem>,
    k: nat,
    missing: Seq<int>,
    data: Seq<F::Elem>,
    repair: F::Elem,
    i: int,
) -> F::Elem {
    fadd::<F>(
        repair,
        rsum::<F>(
            |d: int|
                if missing.contains(d) {
                    fzero::<F>()
                } else {
                    fmul::<F>(entry(generator, k, i, d), data[d])
                },
            k,
        ),
    )
}

proof fn lemma_residual<F: BinaryField>(
    generator: Seq<F::Elem>,
    k: nat,
    missing: Seq<int>,
    data: Seq<F::Elem>,
    repair: F::Elem,
    i: int,
)
    requires
        positions(missing, k),
        repair == rsum::<F>(|d: int| fmul::<F>(entry(generator, k, i, d), data[d]), k),
    ensures
        residual::<F>(generator, k, missing, data, repair, i) == rsum::<F>(
            |c: int| fmul::<F>(entry(generator, k, i, missing[c]), data[missing[c]]),
            missing.len(),
        ),
{
    let f = |d: int| fmul::<F>(entry(generator, k, i, d), data[d]);
    let lost = |d: int|
        if missing.contains(d) {
            f(d)
        } else {
            fzero::<F>()
        };
    let kept = |d: int|
        if missing.contains(d) {
            fzero::<F>()
        } else {
            fmul::<F>(entry(generator, k, i, d), data[d])
        };
    assert forall|d: int| 0 <= d < k implies #[trigger] f(d) == fadd::<F>(lost(d), kept(d)) by {
        lemma_add::<F>(f(d), f(d), f(d));
        lemma_add::<F>(fzero::<F>(), f(d), f(d));
    }
    lemma_sum_add::<F>(lost, kept, f, k);
    lemma_sum_listed::<F>(f, missing, k);
    let (a, b) = (rsum::<F>(lost, k), rsum::<F>(kept, k));
    lemma_add::<F>(a, b, b);
    lemma_add::<F>(b, b, b);
    lemma_add::<F>(a, a, a);
    let g = |c: int| fmul::<F>(entry(generator, k, i, missing[c]), data[missing[c]]);
    let h = |c: int| f(missing[c]);
    lemma_sum_same::<F>(g, h, missing.len());
}

/// Lost data comes back from as many repairs: where the inverse undoes the
/// columns of the generator rows at the lost positions, its product with the
/// residuals is the lost data.
pub proof fn law_targeted_recovery<F: BinaryField>(
    generator: Seq<F::Elem>,
    k: nat,
    missing: Seq<int>,
    data: Seq<F::Elem>,
    repairs: Seq<F::Elem>,
    system: Seq<F::Elem>,
    inverse: Seq<F::Elem>,
    j: int,
)
    requires
        positions(missing, k),
        0 <= j < missing.len(),
        forall|i: int|
            0 <= i < missing.len() ==> #[trigger] repairs[i] == rsum::<F>(
                |d: int| fmul::<F>(entry(generator, k, i, d), data[d]),
                k,
            ),
        forall|i: int, c: int|
            0 <= i < missing.len() && 0 <= c < missing.len() ==> #[trigger] entry(
                system,
                missing.len(),
                i,
                c,
            ) == entry(generator, k, i, missing[c]),
        multiply_to_one::<F>(inverse, system, missing.len()),
    ensures
        data[missing[j]] == rsum::<F>(
            |i: int|
                fmul::<F>(
                    entry(inverse, missing.len(), j, i),
                    residual::<F>(generator, k, missing, data, repairs[i], i),
                ),
            missing.len(),
        ),
{
    let t = missing.len();
    let lost = Seq::new(t, |c: int| data[missing[c]]);
    let by_rows = |i: int|
        fmul::<F>(
            entry(inverse, t, j, i),
            residual::<F>(generator, k, missing, data, repairs[i], i),
        );
    let f = |i: int|
        |c: int|
            fmul::<F>(entry(inverse, t, j, i), fmul::<F>(entry(system, t, i, c), lost[c]));
    let g = |c: int|
        |i: int|
            fmul::<F>(entry(inverse, t, j, i), fmul::<F>(entry(system, t, i, c), lost[c]));
    let by_columns = |c: int| rsum::<F>(g(c), t);
    assert forall|i: int| 0 <= i < t implies #[trigger] by_rows(i) == rsum::<F>(f(i), t) by {
        assert(repairs[i] == repairs[i]);
        lemma_residual::<F>(generator, k, missing, data, repairs[i], i);
        let inner = |c: int|
            fmul::<F>(entry(generator, k, i, missing[c]), data[missing[c]]);
        assert forall|c: int| 0 <= c < t implies #[trigger] f(i)(c) == fmul::<F>(
            entry(inverse, t, j, i),
            inner(c),
        ) by {
            assert(entry(system, t, i, c) == entry(generator, k, i, missing[c]));
        }
        lemma_sum_scale::<F>(inner, entry(inverse, t, j, i), f(i), t);
    }
    lemma_sum_exchange::<F>(f, by_rows, by_columns, g, t, t);
    assert forall|c: int| 0 <= c < t implies #[trigger] by_columns(c) == fmul::<F>(
        unit_at::<F>(j, c),
        lost[c],
    ) by {
        let q = |i: int| fmul::<F>(entry(inverse, t, j, i), entry(system, t, i, c));
        assert forall|i: int| 0 <= i < t implies #[trigger] g(c)(i) == fmul::<F>(lost[c], q(i)) by {
            lemma_mul::<F>(entry(inverse, t, j, i), entry(system, t, i, c), lost[c]);
            lemma_mul::<F>(lost[c], q(i), q(i));
        }
        lemma_sum_scale::<F>(q, lost[c], g(c), t);
        assert(product_at::<F>(inverse, system, t, j, c) == unit_at::<F>(j, c));
        lemma_mul::<F>(lost[c], unit_at::<F>(j, c), lost[c]);
    }
    lemma_unit_row::<F>(j, t, lost, by_columns);
}

} // verus!
