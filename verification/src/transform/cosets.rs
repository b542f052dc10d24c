//! Transforms over the halves of a domain.

use vstd::prelude::*;

use crate::field::{fadd, fmul, lemma_add, BinaryField};
use crate::kernel::ButterflyKernels;
use crate::span::span;
use crate::subspace::{combine, independent, normalized, spans, subspace};
use crate::transform::model::{forward_model, high_half, low_half};
use crate::transform::novel::{
    domain_point, law_forward_evaluates, law_novel_split, novel_basis, novel_sum, novel_value,
};
use crate::transform::plan::TransformPlan;

verus! {

/// Whether two bases agree on their first `n` elements.
spec fn same_start<F: BinaryField>(a: Seq<F::Elem>, b: Seq<F::Elem>, n: nat) -> bool {
    forall|i: int| 0 <= i < n ==> #[trigger] a[i] == b[i]
}

proof fn lemma_same_combine<F: BinaryField>(a: Seq<F::Elem>, b: Seq<F::Elem>, n: nat, i: int)
    requires
        same_start::<F>(a, b, n),
    ensures
        combine::<F>(a, n, i) == combine::<F>(b, n, i),
    decreases n,
{
    if n > 0 {
        let d = (n - 1) as nat;
        assert(a[d as int] == b[d as int]);
        if i < span(d) {
            lemma_same_combine::<F>(a, b, d, i);
        } else {
            lemma_same_combine::<F>(a, b, d, i - span(d));
        }
    }
}

/// Independence of the first `n` elements rests on them alone.
pub(crate) proof fn lemma_same_independent<F: BinaryField>(
    a: Seq<F::Elem>,
    b: Seq<F::Elem>,
    n: nat,
)
    requires
        forall|i: int| 0 <= i < n ==> #[trigger] a[i] == b[i],
        independent::<F>(a, n),
    ensures
        independent::<F>(b, n),
{
    assert forall|k: int| 0 <= k < n implies !spans::<F>(b, k as nat, #[trigger] b[k]) by {
        assert(a[k] == b[k]);
        if spans::<F>(b, k as nat, b[k]) {
            let i = choose|i: int|
                0 <= i < span(k as nat) && #[trigger] combine::<F>(b, k as nat, i) == b[k];
            lemma_same_combine::<F>(a, b, k as nat, i);
            assert(combine::<F>(a, k as nat, i) == a[k]);
        }
    }
}

proof fn lemma_same_subspace<F: BinaryField>(
    a: Seq<F::Elem>,
    b: Seq<F::Elem>,
    n: nat,
    x: F::Elem,
)
    requires
        same_start::<F>(a, b, n),
    ensures
        subspace::<F>(a, n, x) == subspace::<F>(b, n, x),
    decreases n,
{
    if n > 0 {
        let d = (n - 1) as nat;
        assert(a[d as int] == b[d as int]);
        lemma_same_subspace::<F>(a, b, d, x);
        lemma_same_subspace::<F>(a, b, d, a[d as int]);
    }
}

proof fn lemma_same_novel_basis<F: BinaryField>(
    a: Seq<F::Elem>,
    b: Seq<F::Elem>,
    n: nat,
    i: int,
    x: F::Elem,
)
    requires
        same_start::<F>(a, b, n),
    ensures
        novel_basis::<F>(a, n, i, x) == novel_basis::<F>(b, n, i, x),
    decreases n,
{
    if n > 0 {
        let d = (n - 1) as nat;
        assert(a[d as int] == b[d as int]);
        lemma_same_subspace::<F>(a, b, d, x);
        lemma_same_subspace::<F>(a, b, d, a[d as int]);
        if i < span(d) {
            lemma_same_novel_basis::<F>(a, b, d, i, x);
        } else {
            lemma_same_novel_basis::<F>(a, b, d, i - span(d), x);
        }
    }
}

proof fn lemma_same_novel_sum<F: BinaryField>(
    a: Seq<F::Elem>,
    b: Seq<F::Elem>,
    v: Seq<F::Elem>,
    dim: nat,
    n: nat,
    x: F::Elem,
)
    requires
        same_start::<F>(a, b, dim),
    ensures
        novel_sum::<F>(a, v, dim, n, x) == novel_sum::<F>(b, v, dim, n, x),
    decreases n,
{
    if n > 0 {
        lemma_same_novel_sum::<F>(a, b, v, dim, (n - 1) as nat, x);
        lemma_same_novel_basis::<F>(a, b, dim, n - 1, x);
    }
}

/// The transform over one half of a domain: output `i` of a plan over the half at
/// `shift` is the value at the point of the whole domain.
proof fn lemma_half<F: ButterflyKernels>(
    full: &TransformPlan<F>,
    half: &TransformPlan<F>,
    v: Seq<F::Elem>,
    i: int,
)
    requires
        full.wf(),
        half.wf(),
        half.dim() + 1 == full.dim(),
        half.domain_basis() == full.domain_basis().drop_last(),
        v.len() == span(half.dim()),
        0 <= i < v.len(),
    ensures
        forward_model::<F>(v, half.heap(), 1, half.dim())[i] == novel_value::<F>(
            full.domain_basis(),
            v,
            half.dim(),
            half.point(i),
        ),
        half.point(i) == domain_point::<F>(
            full.domain_basis(),
            half.domain_shift(),
            half.dim(),
            i,
        ),
{
    full.lemma_wf();
    half.lemma_wf();
    let (a, b) = (half.domain_basis(), full.domain_basis());
    assert(same_start::<F>(a, b, half.dim()));
    law_forward_evaluates::<F>(v, half.heap(), a, half.domain_shift(), 1, half.dim(), i);
    lemma_same_novel_sum::<F>(a, b, v, half.dim(), v.len(), half.point(i));
    lemma_same_combine::<F>(a, b, half.dim(), i);
}

/// The transforms over the two halves of a domain give the transform over the
/// whole: with the last basis element dropped, a half at the shift and a half at
/// the shift plus that element, each output is the low coefficients' output plus
/// the normalized subspace polynomial times the high coefficients' output.
pub proof fn law_coset_halves<F: ButterflyKernels>(
    full: &TransformPlan<F>,
    low: &TransformPlan<F>,
    high: &TransformPlan<F>,
    v: Seq<F::Elem>,
    i: int,
)
    requires
        full.wf(),
        low.wf(),
        high.wf(),
        low.dim() + 1 == full.dim(),
        high.dim() + 1 == full.dim(),
        low.domain_basis() == full.domain_basis().drop_last(),
        high.domain_basis() == full.domain_basis().drop_last(),
        low.domain_shift() == full.domain_shift(),
        high.domain_shift() == fadd::<F>(full.domain_shift(), full.domain_basis().last()),
        v.len() == span(full.dim()),
        0 <= i < span(low.dim()),
    ensures
        forward_model::<F>(v, full.heap(), 1, full.dim())[i] == fadd::<F>(
            forward_model::<F>(low_half(v), low.heap(), 1, low.dim())[i],
            fmul::<F>(
                normalized::<F>(full.domain_basis(), low.dim(), low.point(i)),
                forward_model::<F>(high_half(v), low.heap(), 1, low.dim())[i],
            ),
        ),
        forward_model::<F>(v, full.heap(), 1, full.dim())[span(low.dim()) + i] == fadd::<F>(
            forward_model::<F>(low_half(v), high.heap(), 1, high.dim())[i],
            fmul::<F>(
                normalized::<F>(full.domain_basis(), high.dim(), high.point(i)),
                forward_model::<F>(high_half(v), high.heap(), 1, high.dim())[i],
            ),
        ),
{
    full.lemma_wf();
    let d = low.dim();
    let basis = full.domain_basis();
    let s = full.domain_shift();
    assert(low_half(v).len() == span(d) && high_half(v).len() == span(d));
    law_forward_evaluates::<F>(v, full.heap(), basis, s, 1, full.dim(), i);
    law_forward_evaluates::<F>(v, full.heap(), basis, s, 1, full.dim(), span(d) + i);
    lemma_half::<F>(full, low, low_half(v), i);
    lemma_half::<F>(full, low, high_half(v), i);
    lemma_half::<F>(full, high, low_half(v), i);
    lemma_half::<F>(full, high, high_half(v), i);
    let u = combine::<F>(basis, d, i);
    let b = basis[d as int];
    assert(combine::<F>(basis, full.dim(), i) == u);
    assert(combine::<F>(basis, full.dim(), span(d) + i) == fadd::<F>(u, b));
    lemma_add::<F>(s, b, u);
    lemma_add::<F>(u, b, b);
    law_novel_split::<F>(basis, v, full.dim(), low.point(i));
    law_novel_split::<F>(basis, v, full.dim(), high.point(i));
}

} // verus!
