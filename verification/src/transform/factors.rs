//! Subspace polynomials and twiddle tables.

use vstd::prelude::*;

use crate::field::{
    fadd, finv, fmul, fzero, inverse, is_one, is_zero, lemma_add, lemma_mul, one, plus, times, zero,
    BinaryField,
};
use crate::kernel::vscale;
use crate::span::{span, lemma_span_limits, lemma_span_monotone, size_of_log};
use crate::subspace::{
    fsq, independent, law_independent_iff_normalizers, lemma_subspace_coefficients, linearized,
    next_coefficients, normalized, normalized_coefficients, normalizer, subspace_coefficients,
};
use crate::transform::model::{heap_holds};
use crate::transform::novel::twiddles;

verus! {

/// The product `coefficient * value`, by selection where the coefficient is zero
/// or one.
fn scale<F: BinaryField>(coefficient: F::Elem, value: F::Elem) -> (r: F::Elem)
    ensures
        r == fmul::<F>(coefficient, value),
{
    proof {
        lemma_mul::<F>(value, value, value);
    }
    if is_zero::<F>(coefficient) {
        zero::<F>()
    } else if is_one::<F>(coefficient) {
        value
    } else {
        times::<F>(coefficient, value)
    }
}

/// Evaluate the linearized polynomial with coefficient `coefficients[j]` of
/// `x^(2^j)`.
pub(crate) fn evaluate_linearized<F: BinaryField>(
    coefficients: &[F::Elem],
    value: F::Elem,
) -> (r: F::Elem)
    ensures
        r == linearized::<F>(coefficients@, value),
{
    let mut power = value;
    let mut result = zero::<F>();
    let ghost whole = linearized::<F>(coefficients@, value);
    let len: usize = coefficients.len();
    let mut i: usize = 0;
    proof {
        assert(coefficients@.subrange(0, len as int) =~= coefficients@);
        lemma_add::<F>(whole, whole, whole);
    }
    while i < len
        invariant
            i <= len,
            len == coefficients@.len(),
            fadd::<F>(
                result,
                linearized::<F>(coefficients@.subrange(i as int, len as int), power),
            ) == whole,
        decreases len - i,
    {
        let ghost rest = coefficients@.subrange(i as int, len as int);
        let term = scale::<F>(coefficients[i], power);
        proof {
            assert(rest.drop_first() =~= coefficients@.subrange(i + 1, len as int));
            lemma_add::<F>(
                result,
                term,
                linearized::<F>(rest.drop_first(), fsq::<F>(power)),
            );
        }
        result = plus::<F>(result, term);
        power = times::<F>(power, power);
        i = i + 1;
    }
    proof {
        assert(coefficients@.subrange(len as int, len as int) =~= Seq::<F::Elem>::empty());
        lemma_add::<F>(result, result, result);
    }
    result
}

/// A normalized subspace polynomial.
#[derive(Clone, Debug)]
pub struct NormalizedSubspacePolynomial<F: BinaryField> {
    /// Coefficients of `x^(2^j)` of `W_k`, low exponent first.
    pub coefficients: Vec<F::Elem>,
    /// `1 / W_k(b_k)`.
    pub normalizer_inverse: F::Elem,
    /// The coefficients with `normalizer_inverse` folded in.
    pub normalized_coefficients: Vec<F::Elem>,
}

impl<F: BinaryField> NormalizedSubspacePolynomial<F> {
    /// Whether this is the polynomial of dimension `k` over `basis`.
    pub open spec fn describes(&self, basis: Seq<F::Elem>, k: nat) -> bool {
        &&& self.coefficients@ == subspace_coefficients::<F>(basis, k)
        &&& self.normalizer_inverse == finv::<F>(normalizer::<F>(basis, k))
        &&& self.normalized_coefficients@ == normalized_coefficients::<F>(basis, k)
    }

    /// Evaluate the normalized polynomial.
    pub fn evaluate(&self, value: F::Elem) -> (r: F::Elem)
        ensures
            r == fmul::<F>(self.normalizer_inverse, linearized::<F>(self.coefficients@, value)),
            forall|basis: Seq<F::Elem>, k: nat| #[trigger]
                self.describes(basis, k) ==> r == normalized::<F>(basis, k, value),
    {
        let result = evaluate_linearized::<F>(self.coefficients.as_slice(), value);
        proof {
            assert forall|basis: Seq<F::Elem>, k: nat| #[trigger]
                self.describes(basis, k) implies fmul::<F>(self.normalizer_inverse, result)
                == normalized::<F>(basis, k, value) by {
                lemma_subspace_coefficients::<F>(basis, k, value);
            }
        }
        scale::<F>(self.normalizer_inverse, result)
    }
}

/// The vector `factor * values`.
fn scaled<F: BinaryField>(factor: F::Elem, values: &Vec<F::Elem>) -> (r: Vec<F::Elem>)
    ensures
        r@ == vscale::<F>(factor, values@),
{
    let len: usize = values.len();
    let mut r: Vec<F::Elem> = Vec::with_capacity(len);
    let mut i: usize = 0;
    while i < len
        invariant
            i <= len,
            len == values@.len(),
            r@.len() == i,
            forall|j: int| 0 <= j < i ==> #[trigger] r@[j] == fmul::<F>(factor, values@[j]),
        decreases len - i,
    {
        r.push(scale::<F>(factor, values[i]));
        i = i + 1;
    }
    assert(r@ =~= vscale::<F>(factor, values@));
    r
}

/// The coefficients of `w^2 + n * w`, for the linearized polynomial `w` with the
/// given coefficients.
fn next_level<F: BinaryField>(coefficients: &Vec<F::Elem>, n: F::Elem) -> (next: Vec<F::Elem>)
    ensures
        next@ == next_coefficients::<F>(coefficients@, n),
{
    let len: usize = coefficients.len();
    let mut next: Vec<F::Elem> = Vec::new();
    let mut carry = zero::<F>();
    let mut i: usize = 0;
    while i < len
        invariant
            i <= len,
            len == coefficients@.len(),
            next@.len() == i,
            carry == if i == 0 {
                fzero::<F>()
            } else {
                fsq::<F>(coefficients@[i - 1])
            },
            forall|j: int|
                0 <= j < i ==> #[trigger] next@[j] == next_coefficients::<F>(coefficients@, n)[j],
        decreases len - i,
    {
        let c = coefficients[i];
        next.push(plus::<F>(scale::<F>(n, c), carry));
        carry = times::<F>(c, c);
        i = i + 1;
    }
    proof {
        lemma_add::<F>(carry, carry, carry);
    }
    next.push(carry);
    assert(next@ =~= next_coefficients::<F>(coefficients@, n));
    next
}

/// The normalized subspace polynomials of an ordered basis, or `None` if the
/// basis is dependent.
pub fn subspace_polynomials<F: BinaryField>(basis: &[F::Elem]) -> (r: Option<
    Vec<NormalizedSubspacePolynomial<F>>,
>)
    ensures
        r is Some <==> independent::<F>(basis@, basis@.len()),
        r matches Some(p) ==> p@.len() == basis@.len() && forall|k: int|
            0 <= k < p@.len() ==> (#[trigger] p@[k]).describes(basis@, k as nat),
{
    let len: usize = basis.len();
    let mut result: Vec<NormalizedSubspacePolynomial<F>> = Vec::new();
    let mut coefficients: Vec<F::Elem> = Vec::new();
    coefficients.push(one::<F>());
    proof {
        law_independent_iff_normalizers::<F>(basis@, basis@.len());
        assert(coefficients@ =~= subspace_coefficients::<F>(basis@, 0));
    }
    let mut dimension: usize = 0;
    while dimension < len
        invariant
            dimension <= len,
            len == basis@.len(),
            independent::<F>(basis@, basis@.len()) <==> (forall|k: int|
                0 <= k < basis@.len() ==> #[trigger] normalizer::<F>(basis@, k as nat) != fzero::<
                    F,
                >()),
            coefficients@ == subspace_coefficients::<F>(basis@, dimension as nat),
            result@.len() == dimension,
            forall|k: int|
                0 <= k < dimension ==> (#[trigger] result@[k]).describes(basis@, k as nat),
            forall|k: int|
                0 <= k < dimension ==> #[trigger] normalizer::<F>(basis@, k as nat) != fzero::<F>(),
        decreases len - dimension,
    {
        let n = evaluate_linearized::<F>(coefficients.as_slice(), basis[dimension]);
        proof {
            lemma_subspace_coefficients::<F>(basis@, dimension as nat, basis@[dimension as int]);
            assert(n == normalizer::<F>(basis@, dimension as int as nat));
        }
        if is_zero::<F>(n) {
            return None;
        }
        let normalizer_inverse = inverse::<F>(n);
        let normalized_coefficients = scaled::<F>(normalizer_inverse, &coefficients);
        let next = next_level::<F>(&coefficients, n);
        let polynomial = NormalizedSubspacePolynomial {
            coefficients,
            normalizer_inverse,
            normalized_coefficients,
        };
        assert(polynomial.describes(basis@, dimension as nat));
        result.push(polynomial);
        coefficients = next;
        dimension = dimension + 1;
    }
    Some(result)
}

/// The coefficients of the subspace polynomial of the whole span of `basis`.
pub(crate) fn monic_subspace_polynomial<F: BinaryField>(basis: &[F::Elem]) -> (r: Vec<F::Elem>)
    ensures
        r@ == subspace_coefficients::<F>(basis@, basis@.len()),
{
    let len: usize = basis.len();
    let mut coefficients: Vec<F::Elem> = Vec::new();
    coefficients.push(one::<F>());
    assert(coefficients@ =~= subspace_coefficients::<F>(basis@, 0));
    let mut dimension: usize = 0;
    while dimension < len
        invariant
            dimension <= len,
            len == basis@.len(),
            coefficients@ == subspace_coefficients::<F>(basis@, dimension as nat),
        decreases len - dimension,
    {
        let n = evaluate_linearized::<F>(coefficients.as_slice(), basis[dimension]);
        proof {
            lemma_subspace_coefficients::<F>(basis@, dimension as nat, basis@[dimension as int]);
        }
        coefficients = next_level::<F>(&coefficients, n);
        dimension = dimension + 1;
    }
    coefficients
}

/// Whether heap node `node` is `index` or one of its ancestors.
pub(crate) open spec fn ancestor(node: nat, index: nat) -> bool
    decreases index,
{
    index == node || (index > node && ancestor(node, index / 2))
}

proof fn lemma_children_disjoint(node: nat, index: nat)
    requires
        node >= 1,
    ensures
        !(ancestor(2 * node, index) && ancestor(2 * node + 1, index)),
        ancestor(2 * node, index) ==> ancestor(node, index) && index != node,
        ancestor(2 * node + 1, index) ==> ancestor(node, index) && index != node,
    decreases index,
{
    if index > 2 * node + 1 {
        lemma_children_disjoint(node, index / 2);
    } else {
        reveal_with_fuel(ancestor, 3);
    }
}

/// The twiddles of a subtree depend on the entries of the subtree alone.
proof fn lemma_twiddles_frame<F: BinaryField>(
    a: Seq<F::Elem>,
    b: Seq<F::Elem>,
    basis: Seq<F::Elem>,
    node: nat,
    dim: nat,
    shift: F::Elem,
)
    requires
        node >= 1,
        a.len() == b.len(),
        heap_holds(a.len(), node, dim),
        twiddles::<F>(a, basis, node, dim, shift),
        forall|i: int| 0 <= i < a.len() && ancestor(node, i as nat) ==> #[trigger] a[i] == b[i],
    ensures
        twiddles::<F>(b, basis, node, dim, shift),
    decreases dim,
{
    if dim > 0 {
        let d = (dim - 1) as nat;
        assert(ancestor(node, node));
        assert(a[node as int] == b[node as int]);
        assert forall|i: int|
            0 <= i < a.len() && ancestor(2 * node, i as nat) implies #[trigger] a[i] == b[i] by {
            lemma_children_disjoint(node, i as nat);
        }
        assert forall|i: int|
            0 <= i < a.len() && ancestor(2 * node + 1, i as nat) implies #[trigger] a[i]
            == b[i] by {
            lemma_children_disjoint(node, i as nat);
        }
        lemma_twiddles_frame::<F>(a, b, basis, 2 * node, d, shift);
        lemma_twiddles_frame::<F>(
            a,
            b,
            basis,
            2 * node + 1,
            d,
            fadd::<F>(shift, basis[d as int]),
        );
    }
}

/// Fill in the twiddles of the subtree rooted at `node`.
pub(crate) fn fill_factors<F: BinaryField>(
    factors: &mut Vec<F::Elem>,
    polynomials: &Vec<NormalizedSubspacePolynomial<F>>,
    basis: &[F::Elem],
    node: usize,
    dimension: usize,
    shift: F::Elem,
)
    requires
        node >= 1,
        dimension >= 1,
        heap_holds(old(factors)@.len(), node as nat, dimension as nat),
        dimension <= polynomials@.len(),
        polynomials@.len() <= basis@.len(),
        forall|k: int|
            0 <= k < polynomials@.len() ==> (#[trigger] polynomials@[k]).describes(basis@, k as nat),
    ensures
        final(factors)@.len() == old(factors)@.len(),
        twiddles::<F>(final(factors)@, basis@, node as nat, dimension as nat, shift),
        forall|i: int|
            0 <= i < old(factors)@.len() && !ancestor(node as nat, i as nat)
                ==> #[trigger] final(factors)@[i] == old(factors)@[i],
    decreases dimension,
{
    let nodes: usize = factors.len();
    let ghost before = factors@;
    let ghost d = (dimension - 1) as nat;
    let value = polynomials[dimension - 1].evaluate(shift);
    factors.set(node, value);
    let ghost rooted = factors@;
    assert(polynomials@[dimension - 1].describes(basis@, d));
    proof {
        assert forall|i: int| 0 <= i < before.len() && !ancestor(node as nat, i as nat) implies
            #[trigger] rooted[i] == before[i] by {
            assert(i != node);
        }
    }
    if dimension > 1 {
        assert(2 * node + 1 < nodes) by {
            reveal_with_fuel(heap_holds, 3);
        }
        fill_factors::<F>(factors, polynomials, basis, node * 2, dimension - 1, shift);
        let ghost left = factors@;
        fill_factors::<F>(
            factors,
            polynomials,
            basis,
            node * 2 + 1,
            dimension - 1,
            plus::<F>(shift, basis[dimension - 1]),
        );
        proof {
            let after = factors@;
            assert forall|i: int|
                0 <= i < left.len() && ancestor(2 * node as nat, i as nat) implies #[trigger] left[i]
                == after[i] by {
                lemma_children_disjoint(node as nat, i as nat);
            }
            lemma_twiddles_frame::<F>(left, after, basis@, 2 * node as nat, d, shift);
            lemma_children_disjoint(node as nat, node as nat);
            assert(after[node as int] == left[node as int]);
            assert(left[node as int] == rooted[node as int]);
            assert forall|i: int| 0 <= i < before.len() && !ancestor(node as nat, i as nat) implies
                #[trigger] after[i] == before[i] by {
                lemma_children_disjoint(node as nat, i as nat);
                assert(after[i] == left[i]);
                assert(left[i] == rooted[i]);
            }
        }
    } else {
        reveal_with_fuel(twiddles, 2);
    }
}

/// A heap of `2^dim` entries holds the tree of dimension `dim` rooted at one.
pub(crate) proof fn lemma_heap(len: nat, node: nat, dim: nat)
    requires
        2 * len >= (node + 1) * span(dim),
        dim >= 1,
    ensures
        heap_holds(len, node, dim),
    decreases dim,
{
    let d = (dim - 1) as nat;
    crate::transform::model::lemma_halves_span(d, 1);
    assert(2 * len >= 2 * ((node + 1) * span(d))) by (nonlinear_arith)
        requires
            2 * len >= (node + 1) * (2 * span(d)),
    ;
    assert((node + 1) * span(d) >= node + 1) by (nonlinear_arith)
        requires
            span(d) >= 1,
    ;
    if d >= 1 {
        assert(2 * len >= (2 * node + 2) * span(d)) by (nonlinear_arith)
            requires
                2 * len >= (node + 1) * (2 * span(d)),
        ;
        assert((2 * node + 2) * span(d) >= (2 * node + 1) * span(d)) by (nonlinear_arith);
        lemma_heap(len, 2 * node, d);
        lemma_heap(len, 2 * node + 1, d);
    } else {
        reveal_with_fuel(heap_holds, 2);
    }
}

/// The twiddle and derivative tables of one plan.
///
/// `factors` is a binary heap with its root at index one; `derivative_factors[j]`
/// is the formal derivative of the normalized subspace polynomial `j`, a constant.
#[derive(Clone, Debug)]
pub struct FactorTable<F: BinaryField> {
    pub(crate) factors: Vec<F::Elem>,
    pub(crate) derivative_factors: Vec<F::Elem>,
    pub(crate) polynomials: Vec<NormalizedSubspacePolynomial<F>>,
}

impl<F: BinaryField> FactorTable<F> {
    /// The twiddle heap.
    pub closed spec fn heap(&self) -> Seq<F::Elem> {
        self.factors@
    }

    /// The derivative constants.
    pub closed spec fn slopes(&self) -> Seq<F::Elem> {
        self.derivative_factors@
    }

    /// Whether this is the table of the domain `shift + V_dim` over `basis`.
    pub closed spec fn describes(&self, basis: Seq<F::Elem>, dim: nat, shift: F::Elem) -> bool {
        &&& self.factors@.len() == span(dim)
        &&& heap_holds(self.factors@.len(), 1, dim)
        &&& twiddles::<F>(self.factors@, basis, 1, dim, shift)
        &&& self.derivative_factors@.len() == dim
        &&& forall|j: int|
            0 <= j < dim ==> #[trigger] self.derivative_factors@[j] == normalized_coefficients::<F>(
                basis,
                j as nat,
            )[0]
        &&& self.polynomials@.len() == dim
        &&& forall|k: int|
            0 <= k < dim ==> (#[trigger] self.polynomials@[k]).describes(basis, k as nat)
    }

    /// What a table holds, for readers outside this module.
    pub proof fn lemma_describes(&self, basis: Seq<F::Elem>, dim: nat, shift: F::Elem)
        requires
            self.describes(basis, dim, shift),
        ensures
            self.heap().len() == span(dim),
            twiddles::<F>(self.heap(), basis, 1, dim, shift),
            heap_holds(self.heap().len(), 1, dim),
            self.slopes().len() == dim,
            forall|j: int|
                0 <= j < dim ==> #[trigger] self.slopes()[j] == normalized_coefficients::<F>(
                    basis,
                    j as nat,
                )[0],
    {
    }

    /// The polynomial of dimension `k` of the table.
    pub closed spec fn normal_form(&self, k: int) -> NormalizedSubspacePolynomial<F> {
        self.polynomials@[k]
    }

    /// What polynomials a table holds, for readers outside this module.
    pub proof fn lemma_polynomials(&self, basis: Seq<F::Elem>, dim: nat, shift: F::Elem)
        requires
            self.describes(basis, dim, shift),
        ensures
            self.degree() == dim,
            forall|k: int|
                0 <= k < dim ==> (#[trigger] self.normal_form(k)).describes(basis, k as nat),
    {
    }

    /// The number of polynomials of the table.
    pub closed spec fn degree(&self) -> nat {
        self.polynomials@.len()
    }

    /// The polynomial of dimension `k`.
    pub(crate) fn polynomial(&self, k: usize) -> (r: &NormalizedSubspacePolynomial<F>)
        requires
            k < self.degree(),
        ensures
            *r == self.normal_form(k as int),
    {
        &self.polynomials[k]
    }

    /// Build the table for a domain of `2^log_size` points, or give `None` if the
    /// first `log_size` basis elements are dependent.
    pub(crate) fn build(log_size: usize, basis: &[F::Elem], shift: F::Elem) -> (r: Option<Self>)
        requires
            log_size == basis@.len(),
            log_size <= 20,
        ensures
            r is Some <==> independent::<F>(basis@, log_size as nat),
            r matches Some(t) ==> t.describes(basis@, log_size as nat, shift),
    {
        let polynomials = match subspace_polynomials::<F>(basis) {
            Some(p) => p,
            None => {
                return None;
            },
        };
        let mut derivative_factors: Vec<F::Elem> = Vec::new();
        let mut j: usize = 0;
        while j < log_size
            invariant
                j <= log_size,
                log_size == polynomials@.len(),
                forall|k: int|
                    0 <= k < polynomials@.len() ==> (#[trigger] polynomials@[k]).describes(
                        basis@,
                        k as nat,
                    ),
                derivative_factors@.len() == j,
                forall|k: int|
                    0 <= k < j ==> #[trigger] derivative_factors@[k] == normalized_coefficients::<
                        F,
                    >(basis@, k as nat)[0],
            decreases log_size - j,
        {
            proof {
                assert(polynomials@[j as int].describes(basis@, j as nat));
                lemma_subspace_coefficients::<F>(basis@, j as nat, fzero::<F>());
            }
            derivative_factors.push(polynomials[j].normalized_coefficients[0]);
            j = j + 1;
        }
        proof {
            lemma_span_limits();
            lemma_span_monotone(log_size as nat, 20);
        }
        let size: usize = size_of_log(log_size) as usize;
        let mut factors: Vec<F::Elem> = Vec::with_capacity(size);
        let zero = zero::<F>();
        let mut i: usize = 0;
        while i < size
            invariant
                i <= size,
                factors@.len() == i,
            decreases size - i,
        {
            factors.push(zero);
            i = i + 1;
        }
        if log_size != 0 {
            proof {
                lemma_heap(size as nat, 1, log_size as nat);
            }
            fill_factors::<F>(&mut factors, &polynomials, basis, 1, log_size, shift);
        }
        Some(FactorTable { factors, derivative_factors, polynomials })
    }

    /// The twiddle heap; index zero is unused.
    pub fn factors(&self) -> (r: &[F::Elem])
        ensures
            r@ == self.heap(),
    {
        self.factors.as_slice()
    }

    /// The formal derivatives of the normalized subspace polynomials.
    pub fn derivative_factors(&self) -> (r: &[F::Elem])
        ensures
            r@ == self.slopes(),
    {
        self.derivative_factors.as_slice()
    }
}

} // verus!
