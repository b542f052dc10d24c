//! Lanes: the columns of packed rows are transformed independently.

use vstd::prelude::*;

use crate::field::BinaryField;
use crate::kernel::{axpy, forward_high, forward_low};
use crate::span::span;
use crate::transform::derivative::{derivative_model, lemma_derivative_len};
use crate::transform::model::{
    forward_model, high_half, inverse_model, law_forward_undoes_inverse,
    law_inverse_undoes_forward, lemma_forward_len, lemma_halves_span, lemma_inverse_len, low_half,
};

verus! {

/// Lane `lane` of `rows` rows of `lanes` elements.
pub open spec fn lane_of<T>(v: Seq<T>, rows: nat, lanes: nat, lane: int) -> Seq<T> {
    Seq::new(rows, |r: int| v[r * lanes + lane])
}

/// The indices of a lane, and of the same lane in the high half.
pub proof fn lemma_lane_index(r: int, d: nat, lanes: nat, lane: int)
    requires
        0 <= r < span(d),
        0 <= lane < lanes,
    ensures
        0 <= r * lanes + lane < span(d) * lanes,
        (r + span(d)) * lanes + lane == r * lanes + lane + span(d) * lanes,
        (2 * span(d)) * lanes == 2 * (span(d) * lanes),
{
    assert(0 <= r * lanes + lane < span(d) * lanes && (r + span(d)) * lanes + lane == r * lanes
        + lane + span(d) * lanes && (2 * span(d)) * lanes == 2 * (span(d) * lanes))
        by (nonlinear_arith)
        requires
            0 <= r,
            r + 1 <= span(d),
            0 <= lane < lanes,
    ;
}

/// The lanes of the two halves are the halves of the lanes.
pub proof fn lemma_lane_halves<T>(v: Seq<T>, dim: nat, lanes: nat, lane: int)
    requires
        dim > 0,
        v.len() == span(dim) * lanes,
        0 <= lane < lanes,
    ensures
        ({
            let d = (dim - 1) as nat;
            let c = lane_of(v, span(dim), lanes, lane);
            &&& v.len() == 2 * (span(d) * lanes)
            &&& low_half(c) == lane_of(low_half(v), span(d), lanes, lane)
            &&& high_half(c) == lane_of(high_half(v), span(d), lanes, lane)
        }),
{
    let d = (dim - 1) as nat;
    lemma_halves_span(d, lanes);
    lemma_lane_index(0, d, lanes, lane);
    let c = lane_of(v, span(dim), lanes, lane);
    let (a, b) = (low_half(c), high_half(c));
    assert forall|r: int| 0 <= r < span(d) implies a[r] == lane_of(
        low_half(v),
        span(d),
        lanes,
        lane,
    )[r] && b[r] == lane_of(high_half(v), span(d), lanes, lane)[r] by {
        lemma_lane_index(r, d, lanes, lane);
    }
    assert(a =~= lane_of(low_half(v), span(d), lanes, lane));
    assert(b =~= lane_of(high_half(v), span(d), lanes, lane));
}

/// The lane of a concatenation of two equally long vectors.
pub proof fn lemma_lane_concat<T>(a: Seq<T>, b: Seq<T>, d: nat, lanes: nat, lane: int)
    requires
        a.len() == span(d) * lanes,
        b.len() == span(d) * lanes,
        0 <= lane < lanes,
    ensures
        lane_of(a + b, 2 * span(d), lanes, lane) == lane_of(a, span(d), lanes, lane) + lane_of(
            b,
            span(d),
            lanes,
            lane,
        ),
{
    let c = lane_of(a + b, 2 * span(d), lanes, lane);
    let e = lane_of(a, span(d), lanes, lane) + lane_of(b, span(d), lanes, lane);
    assert forall|r: int| 0 <= r < 2 * span(d) implies c[r] == e[r] by {
        if r < span(d) {
            lemma_lane_index(r, d, lanes, lane);
        } else {
            lemma_lane_index(r - span(d), d, lanes, lane);
        }
    }
    assert(c =~= e);
}

/// The forward transform acts on each lane independently.
pub proof fn law_forward_by_lanes<F: BinaryField>(
    v: Seq<F::Elem>,
    factors: Seq<F::Elem>,
    node: nat,
    dim: nat,
    lanes: nat,
    lane: int,
)
    requires
        v.len() == span(dim) * lanes,
        0 <= lane < lanes,
    ensures
        lane_of(forward_model::<F>(v, factors, node, dim), span(dim), lanes, lane)
            == forward_model::<F>(lane_of(v, span(dim), lanes, lane), factors, node, dim),
    decreases dim,
{
    if dim > 0 {
        let d = (dim - 1) as nat;
        let c = factors[node as int];
        let u = lane_of(v, span(dim), lanes, lane);
        lemma_lane_halves(v, dim, lanes, lane);
        let low = forward_low::<F>(low_half(v), high_half(v), c);
        let high = forward_high::<F>(low_half(v), high_half(v), c);
        let ulow = forward_low::<F>(low_half(u), high_half(u), c);
        let uhigh = forward_high::<F>(low_half(u), high_half(u), c);
        assert forall|r: int| 0 <= r < span(d) implies lane_of(low, span(d), lanes, lane)[r]
            == ulow[r] && lane_of(high, span(d), lanes, lane)[r] == uhigh[r] by {
            lemma_lane_index(r, d, lanes, lane);
        }
        assert(lane_of(low, span(d), lanes, lane) =~= ulow);
        assert(lane_of(high, span(d), lanes, lane) =~= uhigh);
        law_forward_by_lanes::<F>(low, factors, 2 * node, d, lanes, lane);
        law_forward_by_lanes::<F>(high, factors, 2 * node + 1, d, lanes, lane);
        lemma_halves_span(d, lanes);
        lemma_forward_len::<F>(low, factors, 2 * node, d);
        lemma_forward_len::<F>(high, factors, 2 * node + 1, d);
        lemma_lane_concat(
            forward_model::<F>(low, factors, 2 * node, d),
            forward_model::<F>(high, factors, 2 * node + 1, d),
            d,
            lanes,
            lane,
        );
    }
}

/// The inverse transform acts on each lane independently.
pub proof fn law_inverse_by_lanes<F: BinaryField>(
    v: Seq<F::Elem>,
    factors: Seq<F::Elem>,
    node: nat,
    dim: nat,
    lanes: nat,
    lane: int,
)
    requires
        v.len() == span(dim) * lanes,
        0 <= lane < lanes,
    ensures
        lane_of(inverse_model::<F>(v, factors, node, dim), span(dim), lanes, lane)
            == inverse_model::<F>(lane_of(v, span(dim), lanes, lane), factors, node, dim),
{
    let u = inverse_model::<F>(v, factors, node, dim);
    lemma_halves_span(dim, lanes);
    lemma_halves_span(dim, 1);
    lemma_inverse_len::<F>(v, factors, node, dim);
    law_forward_undoes_inverse::<F>(v, factors, node, dim);
    law_forward_by_lanes::<F>(u, factors, node, dim, lanes, lane);
    law_inverse_undoes_forward::<F>(lane_of(u, span(dim), lanes, lane), factors, node, dim);
}

/// The derivative acts on each lane independently.
pub proof fn law_derivative_by_lanes<F: BinaryField>(
    v: Seq<F::Elem>,
    slopes: Seq<F::Elem>,
    dim: nat,
    lanes: nat,
    lane: int,
)
    requires
        v.len() == span(dim) * lanes,
        0 <= lane < lanes,
    ensures
        lane_of(derivative_model::<F>(v, slopes, dim), span(dim), lanes, lane)
            == derivative_model::<F>(lane_of(v, span(dim), lanes, lane), slopes, dim),
    decreases dim,
{
    let u = lane_of(v, span(dim), lanes, lane);
    if dim == 0 {
        lemma_lane_index(0, 0, lanes, lane);
        assert(lane_of(derivative_model::<F>(v, slopes, dim), span(dim), lanes, lane)
            =~= derivative_model::<F>(u, slopes, dim));
    } else {
        let d = (dim - 1) as nat;
        let c = slopes[d as int];
        lemma_lane_halves(v, dim, lanes, lane);
        lemma_halves_span(d, lanes);
        law_derivative_by_lanes::<F>(low_half(v), slopes, d, lanes, lane);
        law_derivative_by_lanes::<F>(high_half(v), slopes, d, lanes, lane);
        let dl = derivative_model::<F>(low_half(v), slopes, d);
        let dh = derivative_model::<F>(high_half(v), slopes, d);
        lemma_derivative_len::<F>(low_half(v), slopes, d);
        lemma_derivative_len::<F>(high_half(v), slopes, d);
        let low = axpy::<F>(dl, c, high_half(v));
        let ulow = axpy::<F>(
            derivative_model::<F>(low_half(u), slopes, d),
            c,
            high_half(u),
        );
        lemma_halves_span(d, 1);
        lemma_derivative_len::<F>(low_half(u), slopes, d);
        assert forall|r: int| 0 <= r < span(d) implies lane_of(low, span(d), lanes, lane)[r]
            == ulow[r] by {
            lemma_lane_index(r, d, lanes, lane);
            assert(lane_of(dl, span(d), lanes, lane)[r] == dl[r * lanes + lane]);
        }
        assert(lane_of(low, span(d), lanes, lane) =~= ulow);
        lemma_lane_concat(low, dh, d, lanes, lane);
    }
}

/// A lane has one entry of each row.
pub proof fn law_lane_entries<T>(v: Seq<T>, rows: nat, lanes: nat, lane: int, r: int)
    requires
        0 <= r < rows,
    ensures
        lane_of(v, rows, lanes, lane).len() == rows,
        lane_of(v, rows, lanes, lane)[r] == v[r * lanes + lane],
{
}

} // verus!
