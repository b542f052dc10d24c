//! Ordered bases of a field and coordinates over them.
//!
//! An ordered basis fixes both the evaluation points of a transform, in order,
//! and its subspace polynomials. Two are offered: the bit basis, under which
//! point `i` has the bit pattern `i`, and the Cantor basis. A [`CoordinateMap`]
//! converts between the bit pattern of an element and its coordinates over any
//! ordered basis of the whole field.

use std::marker::PhantomData;

use vstd::arithmetic::power2::{lemma_pow2_unfold, pow2};
use vstd::bits::lemma_u64_shr_is_div;
use vstd::prelude::*;

pub mod cantor;
pub mod convert;
pub mod convert_laws;
pub mod frobenius;
pub mod gf2;
pub mod laws;

pub use cantor::CantorBasis;
pub use convert::{
    conversion_scratch_elements, inverse_interpolate_bytes, monomial_to_novel,
    monomial_to_novel_bytes, monomial_to_novel_with_scratch, novel_to_monomial,
    novel_to_monomial_bytes, novel_to_monomial_with_scratch,
};
use crate::field::tower::lemma_xor;
use crate::field::{
    fadd, fone, fzero, lemma_add, lemma_mul, lemma_nonzero, lemma_raw_add, one, plus, times, zero,
    BinaryField,
};
use crate::kernel::lemma_cancel;
use crate::span::{lemma_span_limits, lemma_span_monotone, lemma_xor_span, size_of_log, span};
use crate::subspace::{combine, fsq, independent, lemma_square_sum, spans};
use crate::transform::factors::subspace_polynomials;
use crate::transform::laws::lemma_swap_sum;
use crate::transform::plan::{
    bit_basis, bit_basis_element, bit_basis_elements, law_bit_basis_points, lemma_width_span,
};
use gf2::{
    below, bit, columns_independent, lemma_independent_injective, lemma_select_none,
    lemma_select_one, lemma_select_xor, lemma_select_zero, select, solvable, XorSolver,
};

verus! {

/// The sum of the basis elements at the set bits of `index`.
pub(crate) fn combine_elements<F: BinaryField>(
    basis: &[F::Elem],
    dimension: usize,
    index: usize,
) -> (r: F::Elem)
    requires
        dimension <= basis@.len(),
        dimension <= 64,
        index < span(dimension as nat),
    ensures
        r == combine::<F>(basis@, dimension as nat, index as int),
{
    let mut element = zero::<F>();
    let mut remaining: u64 = index as u64;
    let mut level: usize = dimension;
    let ghost full = combine::<F>(basis@, dimension as nat, index as int);
    proof {
        lemma_add::<F>(full, full, full);
    }
    while level > 0
        invariant
            level <= dimension <= basis@.len(),
            dimension <= 64,
            0 <= remaining < span(level as nat),
            fadd::<F>(element, combine::<F>(basis@, level as nat, remaining as int)) == full,
        decreases level,
    {
        level = level - 1;
        let bit = size_of_log(level);
        if remaining >= bit {
            proof {
                let c = combine::<F>(basis@, level as nat, remaining - bit);
                let b = basis@[level as int];
                lemma_add::<F>(c, b, b);
                lemma_add::<F>(element, b, c);
            }
            element = plus::<F>(element, basis[level]);
            remaining = remaining - bit;
        }
    }
    proof {
        lemma_add::<F>(element, element, element);
    }
    element
}

/// The transform point selected by `index` over an ordered basis: the sum of the
/// basis elements at the set bits of `index`.
pub fn point_of<F: BinaryField>(basis: &[F::Elem], index: usize) -> (r: F::Elem)
    requires
        index < span(basis@.len()),
    ensures
        r == combine::<F>(basis@, basis@.len(), index as int),
{
    if basis.len() <= 64 {
        combine_elements::<F>(basis, basis.len(), index)
    } else {
        proof {
            lemma_span_limits();
            lemma_combine_low::<F>(basis@, basis@.len(), index as int);
        }
        combine_elements::<F>(basis, 64, index)
    }
}

/// Sixty-four basis elements are enough for a machine word.
proof fn lemma_combine_low<F: BinaryField>(basis: Seq<F::Elem>, dim: nat, i: int)
    requires
        dim >= 64,
        0 <= i < span(64),
    ensures
        combine::<F>(basis, dim, i) == combine::<F>(basis, 64, i),
    decreases dim,
{
    if dim > 64 {
        lemma_span_monotone(64, (dim - 1) as nat);
        lemma_combine_low::<F>(basis, (dim - 1) as nat, i);
    }
}

/// The bit patterns of a sequence of elements.
pub open spec fn patterns<F: BinaryField>(elements: Seq<F::Elem>) -> Seq<u64> {
    Seq::new(elements.len(), |i: int| F::raw(elements[i]))
}

proof fn lemma_pow2_span(n: nat)
    ensures
        pow2(n) == span(n),
    decreases n,
{
    if n > 0 {
        lemma_pow2_unfold(n);
        lemma_pow2_span((n - 1) as nat);
    } else {
        vstd::arithmetic::power2::lemma2_to64();
    }
}

/// The highest of the lowest `d + 1` bits of `i`.
proof fn lemma_top_bit(i: u64, d: nat)
    requires
        d < 64,
        i < span(d + 1),
    ensures
        bit(i, d as int) <==> i >= span(d),
{
    lemma_span_limits();
    lemma_span_monotone(d, 63);
    lemma_pow2_span(d);
    lemma_u64_shr_is_div(i, d as u64);
    let s = span(d) as int;
    let q = i as int / s;
    assert(i >> (d as u64) == q);
    lemma_span_monotone(0, d);
    if i >= span(d) {
        vstd::arithmetic::div_mod::lemma_fundamental_div_mod_converse(i as int, s, 1, i - s);
        assert(1u64 & 1 == 1) by (bit_vector);
    } else {
        vstd::arithmetic::div_mod::lemma_fundamental_div_mod_converse(i as int, s, 0, i as int);
        assert(0u64 & 1 == 0) by (bit_vector);
    }
}

/// Selections of `n` columns are the numbers below `2^n`.
pub(crate) proof fn lemma_below(c: u64, n: nat)
    requires
        n <= 64,
    ensures
        below(c, n as int) <==> c < span(n),
{
    lemma_span_limits();
    if n < 64 {
        lemma_pow2_span(n);
        lemma_span_monotone(0, n);
        lemma_u64_shr_is_div(c, n as u64);
        let s = span(n) as int;
        vstd::arithmetic::div_mod::lemma_fundamental_div_mod(c as int, s);
        if c < s {
            vstd::arithmetic::div_mod::lemma_fundamental_div_mod_converse(c as int, s, 0, c as int);
        } else {
            let q = c as int / s;
            assert(q >= 1) by (nonlinear_arith)
                requires
                    c == s * q + c as int % s,
                    c as int % s < s,
                    c >= s,
                    s > 0,
            ;
        }
    }
}

/// Sums of basis elements are sums of bit patterns.
pub(crate) proof fn lemma_combine_select<F: BinaryField>(basis: Seq<F::Elem>, k: nat, i: u64)
    requires
        k <= basis.len(),
        k <= 64,
        i < span(k),
    ensures
        F::raw(combine::<F>(basis, k, i as int)) == select(
            patterns::<F>(basis).subrange(0, k as int),
            i,
        ),
    decreases k,
{
    let columns = patterns::<F>(basis).subrange(0, k as int);
    if k == 0 {
        lemma_raw_add::<F>(fzero::<F>(), fzero::<F>());
    } else {
        let d = (k - 1) as nat;
        let rest = columns.drop_last();
        assert(rest =~= patterns::<F>(basis).subrange(0, d as int));
        lemma_top_bit(i, d);
        if i < span(d) {
            lemma_combine_select::<F>(basis, d, i);
        } else {
            let j = (i - span(d)) as u64;
            lemma_combine_select::<F>(basis, d, j);
            lemma_xor_span(j, d);
            let unit = span(d) as u64;
            lemma_select_xor(rest, j, unit);
            assert forall|b: int| 0 <= b < rest.len() implies !#[trigger] bit(unit, b) by {
                lemma_unit_bit(d, b as nat);
            }
            lemma_select_none(rest, unit);
            lemma_xor(select(rest, j), 0, 0);
            let c = combine::<F>(basis, d, j as int);
            lemma_raw_add::<F>(c, basis[d as int]);
        }
    }
}

/// A power of two has no lower bits.
proof fn lemma_unit_bit(d: nat, b: nat)
    requires
        b < d < 64,
    ensures
        span(d) <= u64::MAX,
        !bit(span(d) as u64, b as int),
{
    lemma_span_limits();
    lemma_span_monotone(d, 63);
    lemma_pow2_span(b);
    let unit = span(d) as u64;
    lemma_u64_shr_is_div(unit, b as u64);
    let e = (d - b - 1) as nat;
    crate::span::lemma_span_add(e + 1, b);
    let q = span(e + 1) as int;
    assert(q == 2 * span(e));
    vstd::arithmetic::div_mod::lemma_fundamental_div_mod_converse(
        unit as int,
        span(b) as int,
        q,
        0,
    );
    lemma_span_monotone(0, b);
    let s = unit >> (b as u64);
    assert(s == q);
    assert(s & 1 == s % 2) by (bit_vector);
}

/// An element is a sum of basis elements exactly if its bit pattern is a sum of
/// their bit patterns.
pub(crate) proof fn lemma_spans_solvable<F: BinaryField>(
    basis: Seq<F::Elem>,
    k: nat,
    x: F::Elem,
)
    requires
        k <= basis.len(),
        k <= 64,
    ensures
        spans::<F>(basis, k, x) <==> solvable(
            patterns::<F>(basis).subrange(0, k as int),
            F::raw(x),
        ),
{
    let columns = patterns::<F>(basis).subrange(0, k as int);
    lemma_span_limits();
    lemma_span_monotone(k, 64);
    if spans::<F>(basis, k, x) {
        let i = choose|i: int| 0 <= i < span(k) && #[trigger] combine::<F>(basis, k, i) == x;
        lemma_combine_select::<F>(basis, k, i as u64);
        lemma_below(i as u64, k);
        assert(select(columns, i as u64) == F::raw(x));
    }
    if solvable(columns, F::raw(x)) {
        let c = choose|c: u64|
            below(c, columns.len() as int) && #[trigger] select(columns, c) == F::raw(x);
        lemma_below(c, k);
        lemma_combine_select::<F>(basis, k, c);
        let y = combine::<F>(basis, k, c as int);
        F::lemma_raw(x, 0);
        F::lemma_raw(y, 0);
        assert(y == x);
    }
}

proof fn lemma_independent_columns<F: BinaryField>(basis: Seq<F::Elem>)
    requires
        basis.len() <= 64,
    ensures
        independent::<F>(basis, basis.len()) <==> columns_independent(patterns::<F>(basis)),
{
    let columns = patterns::<F>(basis);
    assert forall|k: int| 0 <= k < basis.len() implies spans::<F>(
        basis,
        k as nat,
        #[trigger] basis[k],
    ) == solvable(columns.subrange(0, k), columns[k]) by {
        lemma_spans_solvable::<F>(basis, k as nat, basis[k]);
    }
    if independent::<F>(basis, basis.len()) {
        assert forall|k: int| 0 <= k < columns.len() implies !solvable(
            columns.subrange(0, k),
            #[trigger] columns[k],
        ) by {
            assert(!spans::<F>(basis, k as nat, basis[k]));
        }
    }
    if columns_independent(columns) {
        assert forall|k: int| 0 <= k < basis.len() implies !spans::<F>(
            basis,
            k as nat,
            #[trigger] basis[k],
        ) by {
            assert(!solvable(columns.subrange(0, k), columns[k]));
        }
    }
}

fn patterns_of<F: BinaryField>(elements: &[F::Elem]) -> (r: Vec<u64>)
    ensures
        r@ == patterns::<F>(elements@),
{
    let len: usize = elements.len();
    let mut r: Vec<u64> = Vec::with_capacity(len);
    let mut i: usize = 0;
    while i < len
        invariant
            i <= len,
            len == elements@.len(),
            r@.len() == i,
            forall|j: int| 0 <= j < i ==> #[trigger] r@[j] == F::raw(elements@[j]),
        decreases len - i,
    {
        r.push(F::to_bits(elements[i]));
        i = i + 1;
    }
    assert(r@ =~= patterns::<F>(elements@));
    r
}

/// Whether the elements are linearly independent over GF(2).
pub fn linearly_independent<F: BinaryField>(elements: &[F::Elem]) -> (r: bool)
    ensures
        r == independent::<F>(elements@, elements@.len()),
{
    if elements.len() > 64 {
        // more elements than a bit pattern has bits
        return subspace_polynomials::<F>(elements).is_some();
    }
    let columns = patterns_of::<F>(elements);
    proof {
        lemma_independent_columns::<F>(elements@);
    }
    XorSolver::new(columns.as_slice()).independent()
}

/// `x^2 + x`.
pub open spec fn artin<F: BinaryField>(x: F::Elem) -> F::Elem {
    fadd::<F>(fsq::<F>(x), x)
}

pub proof fn lemma_artin_additive<F: BinaryField>(x: F::Elem, y: F::Elem)
    ensures
        artin::<F>(fadd::<F>(x, y)) == fadd::<F>(artin::<F>(x), artin::<F>(y)),
        artin::<F>(fzero::<F>()) == fzero::<F>(),
        artin::<F>(fone::<F>()) == fzero::<F>(),
{
    lemma_square_sum::<F>(x, y);
    lemma_swap_sum::<F>(fsq::<F>(x), fsq::<F>(y), x, y);
    lemma_add::<F>(fzero::<F>(), fzero::<F>(), fzero::<F>());
    lemma_add::<F>(fone::<F>(), fone::<F>(), fone::<F>());
}

/// The image of a sum of basis elements is the sum of the images.
proof fn lemma_artin_combine<F: BinaryField>(
    basis: Seq<F::Elem>,
    images: Seq<F::Elem>,
    k: nat,
    i: int,
)
    requires
        k <= basis.len(),
        images.len() == basis.len(),
        forall|j: int| 0 <= j < basis.len() ==> #[trigger] images[j] == artin::<F>(basis[j]),
    ensures
        combine::<F>(images, k, i) == artin::<F>(combine::<F>(basis, k, i)),
    decreases k,
{
    lemma_artin_additive::<F>(fzero::<F>(), fzero::<F>());
    if k > 0 {
        let d = (k - 1) as nat;
        lemma_artin_combine::<F>(basis, images, d, i);
        lemma_artin_combine::<F>(basis, images, d, i - span(d));
        lemma_artin_additive::<F>(combine::<F>(basis, d, i - span(d)), basis[d as int]);
    }
}

/// The roots of `x^2 + x = value` come in pairs that differ by one.
pub proof fn law_artin_roots<F: BinaryField>(x: F::Elem, y: F::Elem)
    ensures
        artin::<F>(x) == artin::<F>(y) <==> (y == x || y == fadd::<F>(x, fone::<F>())),
{
    lemma_artin_additive::<F>(x, y);
    lemma_artin_additive::<F>(x, fone::<F>());
    let d = fadd::<F>(x, y);
    let e = artin::<F>(x);
    lemma_add::<F>(e, artin::<F>(y), e);
    lemma_add::<F>(e, e, e);
    if artin::<F>(x) == artin::<F>(y) {
        // d^2 + d == d * (d + 1) == 0
        lemma_mul::<F>(d, d, fone::<F>());
        lemma_nonzero::<F>(d, fadd::<F>(d, fone::<F>()));
        lemma_cancel::<F>(x, y);
        lemma_add::<F>(x, y, y);
        lemma_add::<F>(d, fone::<F>(), fone::<F>());
        lemma_add::<F>(x, x, x);
    }
}

/// Solve `x^2 + x = value`: the root with the smaller bit pattern, or `None` if
/// there is no root.
///
/// The map is additive, so this is a linear solve, not a search.
pub fn solve_quadratic<F: BinaryField>(value: F::Elem) -> (r: Option<F::Elem>)
    ensures
        r is Some <==> exists|x: F::Elem| #[trigger] artin::<F>(x) == value,
        r matches Some(x) ==> artin::<F>(x) == value && forall|y: F::Elem| #[trigger]
            artin::<F>(y) == value ==> F::raw(x) <= F::raw(y),
{
    proof {
        F::lemma_width();
        lemma_width_span::<F>();
    }
    let width: usize = F::bytes() * 8;
    let ghost w = F::width() as nat;
    let basis = bit_basis_elements::<F>(width);
    let mut images: Vec<F::Elem> = Vec::with_capacity(width);
    let mut i: usize = 0;
    while i < width
        invariant
            i <= width,
            width == basis@.len(),
            images@.len() == i,
            forall|j: int| 0 <= j < i ==> #[trigger] images@[j] == artin::<F>(basis@[j]),
        decreases width - i,
    {
        let e = basis[i];
        images.push(plus::<F>(times::<F>(e, e), e));
        i = i + 1;
    }
    let columns = patterns_of::<F>(images.as_slice());
    let ghost all = patterns::<F>(images@);
    assert(all.subrange(0, w as int) =~= all);
    let target = F::to_bits(value);
    match XorSolver::new(columns.as_slice()).solve(target) {
        None => {
            proof {
                if exists|x: F::Elem| #[trigger] artin::<F>(x) == value {
                    let x = choose|x: F::Elem| #[trigger] artin::<F>(x) == value;
                    F::lemma_raw(x, 0);
                    let c = F::raw(x);
                    lemma_element_of_bits::<F>(x);
                    lemma_artin_combine::<F>(basis@, images@, w, c as int);
                    lemma_combine_select::<F>(images@, w, c);
                    lemma_below(c, w);
                    assert(select(all, c) == F::raw(value));
                }
            }
            None
        },
        Some(solution) => {
            proof {
                lemma_below(solution, w);
                lemma_artin_combine::<F>(basis@, images@, w, solution as int);
                lemma_combine_select::<F>(images@, w, solution);
                let y = combine::<F>(images@, w, solution as int);
                F::lemma_raw(y, 0);
                F::lemma_raw(value, solution);
                let x = F::of_raw(solution);
                lemma_element_of_bits::<F>(x);
                assert(artin::<F>(x) == value);
            }
            let root = F::from_bits(solution);
            let sibling = plus::<F>(root, one::<F>());
            proof {
                law_artin_roots::<F>(root, sibling);
                assert forall|y: F::Elem| #[trigger] artin::<F>(y) == value implies y == root || y
                    == sibling by {
                    law_artin_roots::<F>(root, y);
                }
            }
            if F::to_bits(root) <= F::to_bits(sibling) {
                Some(root)
            } else {
                Some(sibling)
            }
        },
    }
}

/// An element is the sum of the bit-basis elements at the set bits of its pattern.
proof fn lemma_element_of_bits<F: BinaryField>(x: F::Elem)
    ensures
        combine::<F>(bit_basis::<F>(F::width() as nat), F::width() as nat, F::raw(x) as int) == x,
        F::raw(x) < span(F::width() as nat),
{
    let w = F::width() as nat;
    lemma_width_span::<F>();
    F::lemma_raw(x, 0);
    law_bit_basis_points::<F>(w, w, F::raw(x) as int);
    let y = combine::<F>(bit_basis::<F>(w), w, F::raw(x) as int);
    F::lemma_raw(y, 0);
}

/// An ordered GF(2)-basis of a field: a transform of dimension `k` takes the
/// first `k` elements.
pub trait OrderedBasis<F: BinaryField> {
    /// The basis elements, in order.
    spec fn members(&self) -> Seq<F::Elem>;

    /// The basis element of index `index`.
    fn element(&self, index: usize) -> (e: F::Elem)
        requires
            index < self.members().len(),
        ensures
            e == self.members()[index as int],
    ;

    /// Number of basis elements.
    fn bits(&self) -> (n: usize)
        ensures
            n == self.members().len(),
    ;

    /// The first `count` basis elements.
    fn prefix(&self, count: usize) -> (r: Vec<F::Elem>)
        requires
            count <= self.members().len(),
        ensures
            r@ == self.members().subrange(0, count as int),
    {
        let mut r: Vec<F::Elem> = Vec::with_capacity(count);
        let mut i: usize = 0;
        while i < count
            invariant
                i <= count <= self.members().len(),
                r@ == self.members().subrange(0, i as int),
            decreases count - i,
        {
            r.push(self.element(i));
            i = i + 1;
            assert(r@ =~= self.members().subrange(0, i as int));
        }
        r
    }
}

/// The default ordered basis: element `i` has the bit pattern `2^i`.
#[derive(Clone, Copy, Debug, PartialEq, Eq)]
pub struct BitBasis;

impl Default for BitBasis {
    fn default() -> (r: Self) {
        BitBasis
    }
}

impl<F: BinaryField> OrderedBasis<F> for BitBasis {
    open spec fn members(&self) -> Seq<F::Elem> {
        bit_basis::<F>(F::width() as nat)
    }

    fn element(&self, index: usize) -> (e: F::Elem) {
        bit_basis_element::<F>(index)
    }

    fn bits(&self) -> (n: usize) {
        proof {
            F::lemma_width();
        }
        F::bytes() * 8
    }
}

/// The change of basis between an ordered basis of the field and bit patterns.
#[derive(Debug)]
pub struct CoordinateMap<F: BinaryField> {
    /// Column `j` is the bit pattern of basis element `j`.
    forward: Vec<u64>,
    /// Column `b` holds the coordinates of the element with bit pattern `2^b`.
    inverse: Vec<u64>,
    field: PhantomData<F>,
}

impl<F: BinaryField> Clone for CoordinateMap<F> {
    fn clone(&self) -> (r: Self)
        ensures
            r.members() == self.members(),
            r.wf() == self.wf(),
    {
        let forward = self.forward.clone();
        let inverse = self.inverse.clone();
        assert(forward@ =~= self.forward@ && inverse@ =~= self.inverse@);
        CoordinateMap { forward, inverse, field: PhantomData }
    }
}

/// Whether the elements are a basis of the whole field.
pub open spec fn is_full_basis<F: BinaryField>(basis: Seq<F::Elem>) -> bool {
    basis.len() == F::width() && independent::<F>(basis, basis.len())
}

impl<F: BinaryField> CoordinateMap<F> {
    /// The basis of the map.
    pub closed spec fn members(&self) -> Seq<F::Elem> {
        Seq::new(self.forward@.len(), |j: int| F::of_raw(self.forward@[j]))
    }

    /// The map's invariant: the inverse columns solve the forward columns.
    pub closed spec fn wf(&self) -> bool {
        &&& is_full_basis::<F>(self.members())
        &&& self.forward@ == patterns::<F>(self.members())
        &&& self.inverse@.len() == F::width()
        &&& forall|b: int|
            0 <= b < F::width() ==> {
                &&& below(#[trigger] self.inverse@[b], F::width() as int)
                &&& select(self.forward@, self.inverse@[b]) == span(b as nat)
            }
    }

    /// Build the map for an ordered basis, or give `None` unless it is a basis of
    /// the whole field.
    pub fn new(basis: &[F::Elem]) -> (r: Option<Self>)
        ensures
            r is Some <==> is_full_basis::<F>(basis@),
            r matches Some(map) ==> map.wf() && map.members() == basis@,
    {
        proof {
            F::lemma_width();
            lemma_width_span::<F>();
        }
        let width: usize = F::bytes() * 8;
        if basis.len() != width {
            return None;
        }
        let forward = patterns_of::<F>(basis);
        let solver = XorSolver::new(forward.as_slice());
        let mut inverse: Vec<u64> = Vec::with_capacity(width);
        proof {
            lemma_independent_columns::<F>(basis@);
        }
        let mut b: usize = 0;
        while b < width
            invariant
                b <= width,
                width == F::width(),
                8 <= F::width() <= 64,
                basis@.len() == width,
                solver.wf(),
                solver.columns() == forward@,
                forward@ == patterns::<F>(basis@),
                inverse@.len() == b,
                forall|k: int|
                    0 <= k < b ==> {
                        &&& below(#[trigger] inverse@[k], F::width() as int)
                        &&& select(forward@, inverse@[k]) == span(k as nat)
                    },
            decreases width - b,
        {
            let unit = size_of_log(b);
            match solver.solve(unit) {
                None => {
                    proof {
                        if is_full_basis::<F>(basis@) {
                            let w = F::width() as nat;
                            lemma_width_span::<F>();
                            assert forall|j: int| 0 <= j < forward@.len() implies below(
                                #[trigger] forward@[j],
                                w as int,
                            ) by {
                                F::lemma_raw(basis@[j], 0);
                                lemma_below(forward@[j], w);
                            }
                            lemma_span_monotone(b as nat, w);
                            lemma_below(unit, w);
                            lemma_independent_columns::<F>(basis@);
                            solver.lemma_complete(unit);
                        }
                    }
                    return None;
                },
                Some(c) => {
                    inverse.push(c);
                },
            }
            b = b + 1;
        }
        proof {
            assert forall|k: int| 0 <= k < forward@.len() implies solvable(
                forward@,
                #[trigger] (1u64 << (k as u64)),
            ) by {
                lemma_shift_is_span(k as nat);
                assert(select(forward@, inverse@[k]) == span(k as nat));
            }
            solver.lemma_full();
        }
        let map = CoordinateMap { forward, inverse, field: PhantomData };
        proof {
            assert forall|j: int| 0 <= j < basis@.len() implies map.members()[j] == basis@[j] by {
                F::lemma_raw(basis@[j], 0);
            }
            assert(map.members() =~= basis@);
        }
        Some(map)
    }

    /// Build the map for a basis provider, or give `None` unless it offers a basis
    /// of the whole field.
    pub fn of<B: OrderedBasis<F>>(basis: &B) -> (r: Option<Self>)
        ensures
            r is Some <==> is_full_basis::<F>(basis.members()),
            r matches Some(map) ==> map.wf() && map.members() == basis.members(),
    {
        let count = basis.bits();
        proof {
            F::lemma_width();
        }
        if count != F::bytes() * 8 {
            return None;
        }
        let members = basis.prefix(count);
        assert(members@ =~= basis.members());
        Self::new(members.as_slice())
    }

    /// The element with the given coordinates: the sum of the basis elements at
    /// the set bits.
    pub fn to_element(&self, coordinates: u64) -> (r: F::Elem)
        requires
            self.wf(),
            coordinates < span(F::width() as nat),
        ensures
            r == combine::<F>(self.members(), F::width() as nat, coordinates as int),
    {
        proof {
            F::lemma_width();
            let w = F::width() as nat;
            assert(self.forward@.subrange(0, w as int) =~= self.forward@);
            lemma_combine_select::<F>(self.members(), w, coordinates);
            let e = combine::<F>(self.members(), w, coordinates as int);
            F::lemma_raw(e, 0);
        }
        F::from_bits(apply(self.forward.as_slice(), coordinates))
    }

    /// The coordinates of an element: they select it, and no others do.
    pub fn to_coordinates(&self, element: F::Elem) -> (r: u64)
        requires
            self.wf(),
        ensures
            r < span(F::width() as nat),
            combine::<F>(self.members(), F::width() as nat, r as int) == element,
    {
        let bits = F::to_bits(element);
        proof {
            F::lemma_width();
            lemma_width_span::<F>();
            F::lemma_raw(element, 0);
        }
        let r = apply(self.inverse.as_slice(), bits);
        proof {
            let w = F::width() as nat;
            lemma_inverse_columns(self.forward@, self.inverse@, w, w, bits);
            lemma_below(r, w);
            assert(self.forward@.subrange(0, w as int) =~= self.forward@);
            lemma_combine_select::<F>(self.members(), w, r);
            let e = combine::<F>(self.members(), w, r as int);
            F::lemma_raw(e, 0);
        }
        r
    }

    /// Coordinates determine the element and the element its coordinates: two
    /// coordinate words that select the same element are equal.
    pub proof fn law_coordinates_are_unique(&self, a: u64, b: u64)
        requires
            self.wf(),
            a < span(F::width() as nat),
            b < span(F::width() as nat),
            combine::<F>(self.members(), F::width() as nat, a as int) == combine::<F>(
                self.members(),
                F::width() as nat,
                b as int,
            ),
        ensures
            a == b,
    {
        F::lemma_width();
        let w = F::width() as nat;
        let columns = self.forward@;
        assert(columns.subrange(0, w as int) =~= columns);
        lemma_combine_select::<F>(self.members(), w, a);
        lemma_combine_select::<F>(self.members(), w, b);
        lemma_select_xor(columns, a, b);
        let s = select(columns, a);
        lemma_xor(s, s, s);
        lemma_below(a, w);
        lemma_below(b, w);
        lemma_below(a ^ b, w);
        gf2::lemma_below_xor(a, b, w as int);
        lemma_independent_columns::<F>(self.members());
        lemma_independent_injective(columns, a ^ b);
        gf2::lemma_xor_zero(a, b);
    }
}

proof fn lemma_shift_is_span(k: nat)
    requires
        k < 64,
    ensures
        1u64 << (k as u64) == span(k),
{
    lemma_span_limits();
    lemma_span_monotone(k, 63);
    lemma_pow2_span(k);
    vstd::bits::lemma_u64_shl_is_mul(1, k as u64);
}

/// Selecting inverse columns and then forward columns gives the selection back.
proof fn lemma_inverse_columns(
    forward: Seq<u64>,
    inverse: Seq<u64>,
    w: nat,
    n: nat,
    x: u64,
)
    requires
        n <= w <= 64,
        forward.len() == w,
        inverse.len() == w,
        x < span(n),
        forall|b: int|
            0 <= b < w ==> {
                &&& below(#[trigger] inverse[b], w as int)
                &&& select(forward, inverse[b]) == span(b as nat)
            },
    ensures
        below(select(inverse.subrange(0, n as int), x), w as int),
        select(forward, select(inverse.subrange(0, n as int), x)) == x,
        select(inverse.subrange(0, n as int), x) == select(inverse, x),
    decreases n,
{
    let columns = inverse.subrange(0, n as int);
    if n == 0 {
        lemma_select_zero(forward);
        lemma_below(0, w);
        lemma_span_monotone(0, w);
        lemma_select_zero(inverse);
    } else {
        let d = (n - 1) as nat;
        let rest = columns.drop_last();
        assert(rest =~= inverse.subrange(0, d as int));
        lemma_top_bit(x, d);
        if x < span(d) {
            lemma_inverse_columns(forward, inverse, w, d, x);
        } else {
            let y = (x - span(d)) as u64;
            lemma_inverse_columns(forward, inverse, w, d, y);
            lemma_xor_span(y, d);
            let unit = span(d) as u64;
            lemma_select_xor(rest, y, unit);
            assert forall|b: int| 0 <= b < rest.len() implies !#[trigger] bit(unit, b) by {
                lemma_unit_bit(d, b as nat);
            }
            lemma_select_none(rest, unit);
            let s = select(rest, y);
            lemma_xor(s, 0, 0);
            let c = inverse[d as int];
            lemma_select_xor(forward, s, c);
            gf2::lemma_below_xor(s, c, w as int);
            lemma_select_xor(inverse, y, unit);
            lemma_shift_is_span(d);
            lemma_select_one(inverse, d as int);
        }
    }
}

/// The sum of the columns at the set bits of `vector`.
pub fn apply(columns: &[u64], vector: u64) -> (r: u64)
    requires
        columns@.len() <= 64,
        vector < span(columns@.len()),
    ensures
        r == select(columns@, vector),
{
    let len: usize = columns.len();
    let mut result: u64 = 0;
    let mut remaining: u64 = vector;
    let mut i: usize = 0;
    proof {
        assert(columns@.subrange(0, 0) =~= Seq::<u64>::empty());
        gf2::lemma_shift_step(vector, 0);
    }
    while i < len
        invariant
            i <= len <= 64,
            len == columns@.len(),
            i < 64 ==> remaining == vector >> (i as u64),
            result == select(columns@.subrange(0, i as int), vector),
        decreases len - i,
    {
        let ghost wider = columns@.subrange(0, i + 1);
        proof {
            assert(wider.drop_last() =~= columns@.subrange(0, i as int));
            assert(wider.last() == columns@[i as int]);
            gf2::lemma_shift_step(vector, i as u64);
        }
        if remaining & 1 == 1 {
            result = result ^ columns[i];
        }
        remaining = remaining >> 1;
        i = i + 1;
    }
    assert(columns@.subrange(0, len as int) =~= columns@);
    result
}

} // verus!
