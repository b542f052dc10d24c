//! Rows of equal length in one flat sequence.

use vstd::prelude::*;

verus! {

/// Row `k`, lane `l` of a sequence of rows of `lanes` elements.
pub open spec fn entry<T>(v: Seq<T>, lanes: nat, k: int, l: int) -> T {
    v[k * lanes + l]
}

/// Lane `l` of row `k` lies within `rows` rows.
pub proof fn lemma_place(k: int, l: int, lanes: int, rows: int)
    requires
        0 <= k < rows,
        0 <= l < lanes,
    ensures
        0 <= k * lanes + l < rows * lanes,
{
    assert(0 <= k * lanes && k * lanes + lanes <= rows * lanes) by (nonlinear_arith)
        requires
            0 <= k < rows,
            lanes >= 0,
    ;
}

/// The lanes of row `k` lie within row `o` only if the rows are the same.
pub proof fn lemma_row_order(k: int, o: int, l: int, lanes: int)
    requires
        0 <= l < lanes,
    ensures
        o * lanes <= k * lanes + l < o * lanes + lanes <==> k == o,
{
    if k < o {
        assert(k * lanes + lanes <= o * lanes) by (nonlinear_arith)
            requires
                k < o,
                lanes > 0,
        ;
    } else if k > o {
        assert(o * lanes + lanes <= k * lanes) by (nonlinear_arith)
            requires
                k > o,
                lanes > 0,
        ;
    }
}

/// Rows lie one after the other: row `k` is the `k`-th run of `lanes` items.
pub proof fn law_rows_lie_in_order<T>(v: Seq<T>, lanes: nat, k: int, l: int)
    requires
        0 <= k,
        0 <= l < lanes,
        (k + 1) * lanes <= v.len(),
    ensures
        entry(v, lanes, k, l) == v.subrange(k * lanes, (k + 1) * lanes)[l],
{
    assert((k + 1) * lanes == k * lanes + lanes && k * lanes >= 0) by (nonlinear_arith)
        requires
            k >= 0,
    ;
}

} // verus!
