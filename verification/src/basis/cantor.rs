//! The Cantor basis.

use vstd::prelude::*;

use crate::basis::frobenius::{
    artin_iterate, law_artin_is_nilpotent, law_short_families_do_not_span,
};
use crate::basis::{
    artin, law_artin_roots, lemma_artin_additive, linearly_independent, solve_quadratic,
    OrderedBasis,
};
use crate::error::PlanError;
use crate::field::{fadd, fone, fzero, lemma_add, lemma_mul, lemma_one_not_zero, one, BinaryField};
use crate::span::{lemma_span_monotone, span};
use crate::subspace::{
    combine, independent, law_independent_iff_normalizers, lemma_square_sum,
    lemma_subspace_coefficients, normalizer, spans, subspace, subspace_coefficients,
};

verus! {

/// The Cantor basis of a field: `v_0 = 1`, and `v_i` is the root of
/// `x^2 + x = v_{i-1}` with the smaller bit pattern.
#[derive(Clone, Debug)]
pub struct CantorBasis<F: BinaryField> {
    elements: Vec<F::Elem>,
}

/// Whether `v` starts at one and each further element is the smaller root of the
/// one before.
pub open spec fn is_chain<F: BinaryField>(v: Seq<F::Elem>) -> bool {
    &&& v.len() >= 1
    &&& v[0] == fone::<F>()
    &&& forall|i: int|
        0 < i < v.len() ==> artin::<F>(#[trigger] v[i]) == v[i - 1] && forall|y: F::Elem|
            #[trigger] artin::<F>(y) == v[i - 1] ==> F::raw(v[i]) <= F::raw(y)
}

/// Chains are unique.
pub proof fn law_chains_are_unique<F: BinaryField>(a: Seq<F::Elem>, b: Seq<F::Elem>, i: int)
    requires
        is_chain::<F>(a),
        is_chain::<F>(b),
        0 <= i < a.len(),
        i < b.len(),
    ensures
        a[i] == b[i],
    decreases i,
{
    if i > 0 {
        law_chains_are_unique::<F>(a, b, i - 1);
        assert(artin::<F>(a[i]) == a[i - 1]);
        assert(artin::<F>(b[i]) == b[i - 1]);
        assert(F::raw(a[i]) <= F::raw(b[i]));
        assert(F::raw(b[i]) <= F::raw(a[i]));
        F::lemma_raw(a[i], 0);
        F::lemma_raw(b[i], 0);
    }
}

/// The subspace polynomial of the first `k` chain elements takes `v_j` back to
/// `v_{j-k}`.
proof fn lemma_chain_descends<F: BinaryField>(v: Seq<F::Elem>, k: nat, j: int)
    requires
        is_chain::<F>(v),
        k <= j < v.len(),
    ensures
        subspace::<F>(v, k, v[j]) == v[j - k],
    decreases k,
{
    if k > 0 {
        let d = (k - 1) as nat;
        lemma_chain_descends::<F>(v, d, j);
        lemma_chain_descends::<F>(v, d, d as int);
        let w = v[j - d];
        lemma_mul::<F>(w, w, w);
        assert(artin::<F>(v[j - d]) == v[j - d - 1]);
    }
}

/// Over a Cantor chain every normalizer is one.
pub proof fn law_cantor_normalizers_are_one<F: BinaryField>(v: Seq<F::Elem>, k: nat)
    requires
        is_chain::<F>(v),
        k < v.len(),
    ensures
        normalizer::<F>(v, k) == fone::<F>(),
{
    lemma_chain_descends::<F>(v, k, k as int);
}

/// A Cantor chain is independent.
pub proof fn law_cantor_chains_are_independent<F: BinaryField>(v: Seq<F::Elem>)
    requires
        is_chain::<F>(v),
    ensures
        independent::<F>(v, v.len()),
{
    law_independent_iff_normalizers::<F>(v, v.len());
    lemma_one_not_zero::<F>();
    assert forall|k: int| 0 <= k < v.len() implies #[trigger] normalizer::<F>(v, k as nat)
        != fzero::<F>() by {
        law_cantor_normalizers_are_one::<F>(v, k as nat);
    }
}

/// `x^2 + x` takes a sum of chain elements to the sum of those before them.
proof fn lemma_artin_shifts<F: BinaryField>(v: Seq<F::Elem>, d: nat, i: int)
    requires
        is_chain::<F>(v),
        d < v.len(),
        0 <= i < span(d),
    ensures
        artin::<F>(combine::<F>(v, d + 1, 2 * i)) == combine::<F>(v, d, i),
    decreases d,
{
    lemma_artin_additive::<F>(fzero::<F>(), fzero::<F>());
    if d == 0 {
        reveal_with_fuel(combine, 2);
        assert(span(0) == 1);
    } else {
        let e = (d - 1) as nat;
        assert(span(d) == 2 * span(e));
        if i < span(e) {
            lemma_artin_shifts::<F>(v, e, i);
        } else {
            lemma_artin_shifts::<F>(v, e, i - span(e));
            assert(2 * (i - span(e)) == 2 * i - span(d));
            lemma_artin_additive::<F>(combine::<F>(v, d, 2 * i - span(d)), v[d as int]);
            assert(artin::<F>(v[d as int]) == v[d - 1]);
        }
    }
}

/// The lowest bit selects the first element.
proof fn lemma_combine_first<F: BinaryField>(v: Seq<F::Elem>, d: nat, i: int)
    requires
        d >= 1,
        0 <= 2 * i + 1 < span(d),
    ensures
        combine::<F>(v, d, 2 * i + 1) == fadd::<F>(combine::<F>(v, d, 2 * i), v[0]),
    decreases d,
{
    let e = (d - 1) as nat;
    assert(span(d) == 2 * span(e));
    if d == 1 {
        reveal_with_fuel(combine, 2);
        assert(span(0) == 1);
    } else {
        let f = (d - 2) as nat;
        assert(span(e) == 2 * span(f));
        if 2 * i + 1 < span(e) {
            lemma_combine_first::<F>(v, e, i);
        } else {
            let j = i - span(f);
            assert(2 * j == 2 * i - span(e));
            lemma_combine_first::<F>(v, e, j);
            let c = combine::<F>(v, e, 2 * j);
            lemma_add::<F>(c, v[0], v[e as int]);
            lemma_add::<F>(v[0], v[e as int], v[0]);
            lemma_add::<F>(c, v[e as int], v[0]);
        }
    }
}

/// From an element outside a span, `x^2 + x` leads to one that it takes inside.
proof fn lemma_last_outside<F: BinaryField>(v: Seq<F::Elem>, x: F::Elem, k: nat) -> (y: F::Elem)
    requires
        !spans::<F>(v, v.len(), x),
        artin_iterate::<F>(x, k) == fzero::<F>(),
    ensures
        !spans::<F>(v, v.len(), y),
        spans::<F>(v, v.len(), artin::<F>(y)),
    decreases k,
{
    lemma_zero_spanned::<F>(v, v.len());
    if spans::<F>(v, v.len(), artin::<F>(x)) {
        x
    } else {
        lemma_last_outside::<F>(v, artin::<F>(x), (k - 1) as nat)
    }
}

proof fn lemma_zero_spanned<F: BinaryField>(v: Seq<F::Elem>, n: nat)
    ensures
        spans::<F>(v, n, fzero::<F>()),
        combine::<F>(v, n, 0) == fzero::<F>(),
    decreases n,
{
    lemma_span_monotone(0, n);
    if n > 0 {
        lemma_zero_spanned::<F>(v, (n - 1) as nat);
        lemma_span_monotone(0, (n - 1) as nat);
    }
    assert(combine::<F>(v, n, 0) == fzero::<F>());
}

/// A chain shorter than an element has bits goes on: its last element has a root.
pub proof fn law_chains_go_on<F: BinaryField>(v: Seq<F::Elem>) -> (root: F::Elem)
    requires
        is_chain::<F>(v),
        v.len() < F::width(),
    ensures
        artin::<F>(root) == v.last(),
{
    let n = v.len();
    let d = (n - 1) as nat;
    let x = law_short_families_do_not_span::<F>(v, n);
    law_artin_is_nilpotent::<F>(x);
    let y = lemma_last_outside::<F>(v, x, F::width() as nat);
    let i = choose|i: int| 0 <= i < span(n) && #[trigger] combine::<F>(v, n, i) == artin::<F>(y);
    assert(span(n) == 2 * span(d));
    if i < span(d) {
        // y differs from an element of the span by zero or one
        let u = combine::<F>(v, n, 2 * i);
        lemma_artin_shifts::<F>(v, d, i);
        law_artin_roots::<F>(u, y);
        lemma_combine_first::<F>(v, n, i);
        assert(spans::<F>(v, n, combine::<F>(v, n, 2 * i)));
        assert(spans::<F>(v, n, combine::<F>(v, n, 2 * i + 1)));
        y
    } else {
        let j = i - span(d);
        let u = combine::<F>(v, n, 2 * j);
        lemma_artin_shifts::<F>(v, d, j);
        let c = combine::<F>(v, d, j);
        lemma_artin_additive::<F>(y, u);
        // artin(y) == c + v_d and artin(u) == c
        lemma_add::<F>(c, v[d as int], c);
        lemma_add::<F>(v[d as int], c, c);
        lemma_add::<F>(c, c, c);
        lemma_add::<F>(v[d as int], v[d as int], c);
        fadd::<F>(y, u)
    }
}

/// Whether entry `j` of row `k` of Pascal's triangle is odd.
pub open spec fn pascal_odd(k: nat, j: int) -> bool
    decreases k,
{
    if k == 0 {
        j == 0
    } else {
        pascal_odd((k - 1) as nat, j) != pascal_odd((k - 1) as nat, j - 1)
    }
}

proof fn lemma_pascal_range(k: nat, j: int)
    requires
        j < 0 || j > k,
    ensures
        !pascal_odd(k, j),
    decreases k,
{
    if k > 0 {
        lemma_pascal_range((k - 1) as nat, j);
        lemma_pascal_range((k - 1) as nat, j - 1);
    }
}

/// Over a Cantor chain the coefficients of the subspace polynomial of dimension
/// `k` are row `k` of Pascal's triangle modulo two.
pub proof fn law_cantor_coefficients_are_pascal<F: BinaryField>(
    v: Seq<F::Elem>,
    k: nat,
    j: int,
)
    requires
        is_chain::<F>(v),
        k <= v.len(),
        0 <= j <= k,
    ensures
        subspace_coefficients::<F>(v, k).len() == k + 1,
        subspace_coefficients::<F>(v, k)[j] == if pascal_odd(k, j) {
            fone::<F>()
        } else {
            fzero::<F>()
        },
    decreases k,
{
    lemma_subspace_coefficients::<F>(v, k, fzero::<F>());
    if k > 0 {
        let d = (k - 1) as nat;
        law_cantor_normalizers_are_one::<F>(v, d);
        lemma_subspace_coefficients::<F>(v, d, fzero::<F>());
        let c = subspace_coefficients::<F>(v, d);
        let one = fone::<F>();
        lemma_square_sum::<F>(one, one);
        lemma_add::<F>(one, one, one);
        lemma_add::<F>(fzero::<F>(), one, one);
        lemma_mul::<F>(one, one, one);
        if j <= d {
            law_cantor_coefficients_are_pascal::<F>(v, d, j);
        } else {
            lemma_pascal_range(d, j);
        }
        if j >= 1 {
            law_cantor_coefficients_are_pascal::<F>(v, d, j - 1);
        } else {
            lemma_pascal_range(d, -1);
        }
    }
}

/// Whether every set bit of `j` is set in `k`.
pub open spec fn submask(j: nat, k: nat) -> bool
    decreases j,
{
    j == 0 || (j % 2 <= k % 2 && submask(j / 2, k / 2))
}

/// Rows `2 k` and `2 k + 1` of Pascal's triangle modulo two, from row `k`.
proof fn lemma_pascal_doubles(k: nat, j: int)
    ensures
        pascal_odd(2 * k, 2 * j) == pascal_odd(k, j),
        !pascal_odd(2 * k, 2 * j + 1),
        pascal_odd(2 * k + 1, 2 * j) == pascal_odd(k, j),
        pascal_odd(2 * k + 1, 2 * j + 1) == pascal_odd(k, j),
    decreases k,
{
    if k > 0 {
        let d = (k - 1) as nat;
        lemma_pascal_doubles(d, j);
        lemma_pascal_doubles(d, j - 1);
        assert((2 * k - 1) as nat == 2 * d + 1);
        assert(2 * (j - 1) + 1 == 2 * j - 1);
        assert(pascal_odd(2 * k, 2 * j) == (pascal_odd(2 * d + 1, 2 * j) != pascal_odd(
            2 * d + 1,
            2 * j - 1,
        )));
        assert(pascal_odd(2 * k, 2 * j + 1) == (pascal_odd(2 * d + 1, 2 * j + 1) != pascal_odd(
            2 * d + 1,
            2 * j,
        )));
        assert(pascal_odd(2 * k, 2 * j - 1) == (pascal_odd(2 * d + 1, 2 * j - 1) != pascal_odd(
            2 * d + 1,
            2 * (j - 1),
        )));
    } else {
        reveal_with_fuel(pascal_odd, 2);
    }
    assert((2 * k + 1 - 1) as nat == 2 * k);
}

/// Pascal's triangle modulo two holds the submasks: entry `j` of row `k` is odd
/// exactly if every set bit of `j` is set in `k`.
pub proof fn law_pascal_is_submask(k: nat, j: nat)
    ensures
        pascal_odd(k, j as int) == submask(j, k),
    decreases k + j,
{
    if j == 0 {
        lemma_pascal_edge(k);
    } else if k == 0 {
        lemma_submask_zero(j);
    } else {
        let (a, b) = (k / 2, j / 2);
        law_pascal_is_submask(a, b);
        lemma_pascal_doubles(a, b as int);
        assert(k == 2 * a || k == 2 * a + 1);
        assert(j == 2 * b || j == 2 * b + 1);
    }
}

proof fn lemma_pascal_edge(k: nat)
    ensures
        pascal_odd(k, 0),
    decreases k,
{
    if k > 0 {
        lemma_pascal_edge((k - 1) as nat);
        lemma_pascal_range((k - 1) as nat, -1);
    }
}

proof fn lemma_submask_zero(j: nat)
    requires
        j > 0,
    ensures
        !submask(j, 0),
    decreases j,
{
    if j % 2 == 0 {
        lemma_submask_zero(j / 2);
    }
}

impl<F: BinaryField> CantorBasis<F> {
    /// The basis elements.
    pub closed spec fn chain(&self) -> Seq<F::Elem> {
        self.elements@
    }

    /// The basis's invariant: a full independent chain.
    pub open spec fn wf(&self) -> bool {
        &&& self.chain().len() == F::width()
        &&& is_chain::<F>(self.chain())
        &&& independent::<F>(self.chain(), self.chain().len())
    }

    /// As an ordered basis, a Cantor basis has the elements of its chain in order.
    pub proof fn law_members_are_the_chain(&self)
        ensures
            OrderedBasis::<F>::members(self) == self.chain(),
    {
    }

    /// Solve the Cantor chain of the field, which never breaks.
    pub fn build() -> (r: Result<Self, PlanError>)
        ensures
            r matches Ok(basis) && basis.wf(),
    {
        proof {
            F::lemma_width();
        }
        let bits: usize = F::bytes() * 8;
        let mut elements: Vec<F::Elem> = Vec::with_capacity(bits);
        elements.push(one::<F>());
        let mut dimension: usize = 1;
        while dimension < bits
            invariant
                1 <= dimension <= bits,
                bits == F::width(),
                elements@.len() == dimension,
                is_chain::<F>(elements@),
            decreases bits - dimension,
        {
            let previous = elements[dimension - 1];
            proof {
                let root = law_chains_go_on::<F>(elements@);
                assert(artin::<F>(root) == previous);
            }
            match solve_quadratic::<F>(previous) {
                None => {
                    return Err(PlanError::NoCantorBasis { dimension });
                },
                Some(next) => {
                    elements.push(next);
                },
            }
            dimension = dimension + 1;
        }
        proof {
            law_cantor_chains_are_independent::<F>(elements@);
        }
        if !linearly_independent::<F>(elements.as_slice()) {
            return Err(PlanError::NoCantorBasis { dimension: bits });
        }
        Ok(CantorBasis { elements })
    }

    /// The basis elements.
    pub fn elements(&self) -> (r: &[F::Elem])
        ensures
            r@ == self.chain(),
    {
        self.elements.as_slice()
    }
}

impl<F: BinaryField> OrderedBasis<F> for CantorBasis<F> {
    closed spec fn members(&self) -> Seq<F::Elem> {
        self.elements@
    }

    fn element(&self, index: usize) -> (e: F::Elem) {
        self.elements[index]
    }

    fn bits(&self) -> (n: usize) {
        self.elements.len()
    }
}

} // verus!
