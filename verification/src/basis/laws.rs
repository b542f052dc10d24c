//! What fixes the bases and what is solved over them.

use vstd::arithmetic::power2::pow2;
use vstd::prelude::*;

use crate::basis::cantor::CantorBasis;
use crate::basis::gf2::{
    below, lemma_select_one, lemma_select_xor, lemma_select_zero, select, solvable, XorSolver,
};
use crate::basis::{
    artin, law_artin_roots, lemma_below, linearly_independent, point_of, solve_quadratic, BitBasis, CoordinateMap,
    OrderedBasis,
};
use crate::error::PlanError;
use crate::field::tower::{lemma_xor, lemma_xor_narrow};
use crate::field::{fadd, fmul, fone, fzero, lemma_add, lemma_raw_add, BinaryField};
use crate::span::{lemma_span_monotone, span};
use crate::subspace::{combine, law_independence, law_sums_by_bits};
use crate::transform::accept::law_spans_are_powers_of_two;
use crate::transform::plan::lemma_width_span;

verus! {

/// A prefix of a basis holds the elements that the basis gives one by one.
pub proof fn law_bases_are_read_in_order<F: BinaryField, B: OrderedBasis<F>>(
    basis: &B,
    index: usize,
    element: F::Elem,
    count: usize,
    prefix: Vec<F::Elem>,
)
    requires
        index < count <= basis.members().len(),
        call_ensures(B::element, (basis, index), element),
        call_ensures(B::prefix, (basis, count), prefix),
    ensures
        prefix@.len() == count,
        prefix@[index as int] == element,
{
}

/// A Cantor basis always exists. It has as many elements as the field has bits; its
/// first is one, each further one is a root of `x^2 + x = v` for the one before it,
/// and of the two roots the one that is the smaller number.
pub proof fn law_cantor_bases<F: BinaryField>(r: Result<CantorBasis<F>, PlanError>, i: int)
    requires
        call_ensures(CantorBasis::<F>::build, (), r),
    ensures
        r is Ok,
        ({
            let basis = r->Ok_0;
            let v = OrderedBasis::<F>::members(&basis);
            &&& v.len() == F::width()
            &&& basis.chain() == v
            &&& v[0] == fone::<F>()
            &&& 0 < i < v.len() ==> {
                &&& fadd::<F>(fmul::<F>(v[i], v[i]), v[i]) == v[i - 1]
                &&& F::raw(v[i]) <= F::raw(fadd::<F>(v[i], fone::<F>()))
            }
        }),
{
    let basis = r->Ok_0;
    basis.law_members_are_the_chain();
    let v = basis.chain();
    if 0 < i < v.len() {
        assert(artin::<F>(v[i]) == v[i - 1]);
        let y = fadd::<F>(v[i], fone::<F>());
        law_artin_roots::<F>(v[i], y);
        assert(artin::<F>(y) == v[i - 1]);
    }
}

/// What a Cantor basis hands out: the elements of one chain, whichever way they are
/// asked for.
pub proof fn law_cantor_elements<F: BinaryField>(
    basis: &CantorBasis<F>,
    index: usize,
    element: F::Elem,
    previous: F::Elem,
    elements: &[F::Elem],
    bits: usize,
)
    requires
        basis.wf(),
        call_ensures(CantorBasis::<F>::elements, (basis,), elements),
        call_ensures(<CantorBasis<F> as OrderedBasis<F>>::bits, (basis,), bits),
        index < F::width(),
        call_ensures(<CantorBasis<F> as OrderedBasis<F>>::element, (basis, index), element),
        index > 0 ==> call_ensures(
            <CantorBasis<F> as OrderedBasis<F>>::element,
            (basis, (index - 1) as usize),
            previous,
        ),
    ensures
        bits == F::width(),
        elements@.len() == F::width(),
        element == elements@[index as int],
        index == 0 ==> element == fone::<F>(),
        index > 0 ==> fadd::<F>(fmul::<F>(element, element), element) == previous,
{
    basis.law_members_are_the_chain();
    let v = basis.chain();
    if index > 0 {
        assert(artin::<F>(v[index as int]) == v[index - 1]);
    }
}

/// The bit basis: element `i` has the bit pattern `2^i`, and there is one for each
/// bit of the field.
pub proof fn law_bit_basis_elements<F: BinaryField>(
    index: usize,
    element: F::Elem,
    bits: usize,
)
    requires
        index < F::width(),
        call_ensures(<BitBasis as OrderedBasis<F>>::element, (&BitBasis, index), element),
        call_ensures(<BitBasis as OrderedBasis<F>>::bits, (&BitBasis,), bits),
    ensures
        F::raw(element) == pow2(index as nat),
        bits == F::width(),
{
    lemma_width_span::<F>();
    law_spans_are_powers_of_two(index as nat);
    lemma_span_monotone(index as nat, F::width() as nat);
    F::lemma_raw(element, span(index as nat) as u64);
}

/// Coordinates: an element and its coordinates determine each other, and one more
/// coordinate is one more member of the basis.
pub proof fn law_coordinates<F: BinaryField>(
    map: &CoordinateMap<F>,
    c: u64,
    k: nat,
    low: F::Elem,
    high: F::Elem,
    back: u64,
)
    requires
        map.wf(),
        k < F::width(),
        c < pow2(k),
        call_ensures(CoordinateMap::<F>::to_element, (map, c), low),
        call_ensures(CoordinateMap::<F>::to_element, (map, (c + pow2(k)) as u64), high),
        call_ensures(CoordinateMap::<F>::to_coordinates, (map, low), back),
    ensures
        high == fadd::<F>(low, map.members()[k as int]),
        back == c,
        c == 0 ==> low == fzero::<F>(),
{
    let w = F::width() as nat;
    lemma_width_span::<F>();
    law_spans_are_powers_of_two(k);
    lemma_span_monotone(k, w);
    assert(span(k + 1) == 2 * span(k));
    lemma_span_monotone(k + 1, w);
    law_sums_by_bits::<F>(map.members(), w, k, c as int);
    map.law_coordinates_are_unique(c, back);
}

/// Points over a basis: the empty index is zero, and bit `k` adds basis element `k`.
pub proof fn law_points_over_a_basis<F: BinaryField>(
    basis: &[F::Elem],
    i: usize,
    k: nat,
    low: F::Elem,
    high: F::Elem,
)
    requires
        k < basis@.len(),
        i < pow2(k),
        i + pow2(k) <= usize::MAX,
        call_ensures(point_of::<F>, (basis, i), low),
        call_ensures(point_of::<F>, (basis, (i + pow2(k)) as usize), high),
    ensures
        high == fadd::<F>(low, basis@[k as int]),
        i == 0 ==> low == fzero::<F>(),
{
    let n = basis@.len();
    law_spans_are_powers_of_two(k);
    assert(span(k + 1) == 2 * span(k));
    lemma_span_monotone(k + 1, n);
    lemma_span_monotone(k, n);
    law_sums_by_bits::<F>(basis@, n, k, i as int);
}

/// Quadratic equations: what is returned solves `x^2 + x = value` and is the smaller
/// of the two solutions, and nothing is returned only if nothing solves it.
pub proof fn law_quadratic_equations<F: BinaryField>(
    value: F::Elem,
    r: Option<F::Elem>,
    y: F::Elem,
)
    requires
        call_ensures(solve_quadratic::<F>, (value,), r),
    ensures
        r matches Some(x) ==> {
            &&& fadd::<F>(fmul::<F>(x, x), x) == value
            &&& F::raw(x) <= F::raw(fadd::<F>(x, fone::<F>()))
        },
        fadd::<F>(fmul::<F>(y, y), y) == value ==> r is Some && (y == r->Some_0 || y == fadd::<F>(
            r->Some_0,
            fone::<F>(),
        )),
{
    assert(artin::<F>(y) == fadd::<F>(fmul::<F>(y, y), y));
    if r is Some {
        let x = r->Some_0;
        let z = fadd::<F>(x, fone::<F>());
        law_artin_roots::<F>(x, z);
        law_artin_roots::<F>(x, y);
        assert(artin::<F>(z) == value);
    }
}

/// Selections of columns: none is zero, one bit is one column, and selections add up
/// as the columns do.
pub proof fn law_selected_columns(columns: Seq<u64>, a: u64, b: u64, k: int)
    requires
        columns.len() <= 64,
        0 <= k < columns.len(),
    ensures
        select(columns, 0) == 0,
        select(columns, 1u64 << (k as u64)) == columns[k],
        select(columns, a ^ b) == select(columns, a) ^ select(columns, b),
{
    lemma_select_zero(columns);
    lemma_select_one(columns, k);
    lemma_select_xor(columns, a, b);
}

/// Solving over columns: a solution selects the target, and a target that a
/// selection of the columns gives is always solved.
pub proof fn law_column_solutions(solver: &XorSolver, target: u64, r: Option<u64>, c: u64)
    requires
        solver.wf(),
        solver.columns().len() <= 64,
        call_ensures(XorSolver::solve, (solver, target), r),
    ensures
        r matches Some(s) ==> select(solver.columns(), s) == target && (solver.columns().len() < 64
            ==> s < pow2(solver.columns().len())),
        (solver.columns().len() == 64 || c < pow2(solver.columns().len())) && select(
            solver.columns(),
            c,
        ) == target ==> r is Some,
{
    let n = solver.columns().len();
    if n < 64 {
        law_spans_are_powers_of_two(n);
        lemma_below(c, n);
        if r is Some {
            lemma_below(r->Some_0, n);
        }
    }
    if (n == 64 || c < pow2(n)) && select(solver.columns(), c) == target {
        assert(below(c, n as int));
    }
}

/// Coordinate maps: one exists exactly for the bases of the whole field, which are
/// those with one element for each bit and no empty sum but the empty one.
pub proof fn law_bases_with_coordinates<F: BinaryField>(
    basis: &[F::Elem],
    r: Option<CoordinateMap<F>>,
)
    requires
        call_ensures(CoordinateMap::<F>::new, (basis,), r),
    ensures
        r is Some <==> basis@.len() == F::width() && (forall|i: int|
            0 < i < span(F::width() as nat) ==> #[trigger] combine::<F>(
                basis@,
                F::width() as nat,
                i,
            ) != fzero::<F>()),
        r matches Some(map) ==> map.wf() && map.members() == basis@,
{
    law_independence::<F>(basis@, F::width() as nat);
}

/// Independence as it is tested: true exactly if no sum but the empty one is zero.
pub proof fn law_tested_independence<F: BinaryField>(elements: &[F::Elem], r: bool)
    requires
        call_ensures(linearly_independent::<F>, (elements,), r),
    ensures
        r <==> (forall|i: int|
            0 < i < span(elements@.len()) ==> #[trigger] combine::<F>(
                elements@,
                elements@.len(),
                i,
            ) != fzero::<F>()),
{
    law_independence::<F>(elements@, elements@.len());
}

/// Independence of columns: true exactly if no column is selected by the ones before
/// it.
pub proof fn law_tested_columns(solver: &XorSolver, r: bool, k: int, c: u64)
    requires
        solver.wf(),
        solver.columns().len() <= 64,
        call_ensures(XorSolver::independent, (solver,), r),
        0 <= k < solver.columns().len(),
        k < 64,
        c < pow2(k as nat),
        select(solver.columns().subrange(0, k), c) == solver.columns()[k],
    ensures
        !r,
{
    law_spans_are_powers_of_two(k as nat);
    lemma_below(c, k as nat);
    let before = solver.columns().subrange(0, k);
    assert(below(c, before.len() as int));
    assert(solvable(before, solver.columns()[k]));
}

} // verus!
