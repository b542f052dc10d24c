//! Bit reversal and the stages of the transform.

use vstd::arithmetic::div_mod::{lemma_fundamental_div_mod, lemma_fundamental_div_mod_converse};
use vstd::prelude::*;

use crate::error::NttError;
use crate::grid::{entry, lemma_place};
use crate::ntt::dft::{evens, is_root, law_dft_butterfly, lemma_root, lemma_single, odds};
use crate::ntt::field::NttField;
use crate::ntt::reserve::{refused, reserve};
use crate::ntt::ring::{
    all_valid, dft, lemma_dft_valid, lemma_pow_product, lemma_pow_valid, rpow, Ring,
};
use crate::ntt::rows::{
    canonical, full, lemma_code_bytes, lemma_values_concat, lemma_values_split, lemma_values_valid,
    stage_pass, swap_values, values, Schedule,
};
use crate::span::{lemma_span_monotone, span};

verus! {

/// The low `dim` bits of `j` in reverse order.
pub open spec fn reversed(j: nat, dim: nat) -> nat
    decreases dim,
{
    if dim == 0 {
        0
    } else {
        (j % 2) * span((dim - 1) as nat) + reversed(j / 2, (dim - 1) as nat)
    }
}

/// The two values of the product in [`reversed`].
proof fn lemma_bit_product(j: nat, h: nat)
    ensures
        j % 2 == 0 ==> (j % 2) * h == 0,
        j % 2 == 1 ==> (j % 2) * h == h,
{
    assert(0 * h == 0 && 1 * h == h) by (nonlinear_arith);
}

pub proof fn lemma_reversed_bound(j: nat, dim: nat)
    ensures
        reversed(j, dim) < span(dim),
    decreases dim,
{
    if dim > 0 {
        lemma_reversed_bound(j / 2, (dim - 1) as nat);
        lemma_bit_product(j, span((dim - 1) as nat));
    }
}

/// The top bit moves to the bottom.
proof fn lemma_reversed_top(j: nat, b: nat, dim: nat)
    requires
        dim > 0,
        j < span((dim - 1) as nat),
        b <= 1,
    ensures
        reversed(j + b * span((dim - 1) as nat), dim) == 2 * reversed(j, (dim - 1) as nat) + b,
    decreases dim,
{
    let h = span((dim - 1) as nat);
    let i = j + b * h;
    assert(0 * h == 0 && 1 * h == h);
    if dim == 1 {
        assert(h == 1 && j == 0 && i == b);
        assert(reversed(i / 2, 0) == 0);
        lemma_bit_product(i, 1);
    } else {
        let q = span((dim - 2) as nat);
        assert(0 * q == 0 && 1 * q == q);
        assert(h == 2 * q);
        if b == 0 {
            assert(i == j);
        } else {
            assert(i == j + 2 * q);
        }
        assert(i % 2 == j % 2 && i / 2 == j / 2 + b * q);
        lemma_reversed_top(j / 2, b, (dim - 1) as nat);
        lemma_bit_product(j, q);
        lemma_bit_product(j, h);
        assert(reversed(i, dim) == (j % 2) * h + reversed(j / 2 + b * q, (dim - 1) as nat));
        assert(reversed(j, (dim - 1) as nat) == (j % 2) * q + reversed(j / 2, (dim - 2) as nat));
    }
}

/// Bit reversal undoes itself.
pub proof fn law_reversal_is_an_involution(j: nat, dim: nat)
    requires
        j < span(dim),
    ensures
        reversed(reversed(j, dim), dim) == j,
    decreases dim,
{
    if dim > 0 {
        let low = (dim - 1) as nat;
        let h = span(low);
        let r = reversed(j / 2, low);
        lemma_reversed_bound(j / 2, low);
        lemma_reversed_top(r, j % 2, dim);
        law_reversal_is_an_involution(j / 2, low);
        assert((j % 2) * h + r == r + (j % 2) * h);
    }
}

/// The bit-reversed successor of a bit-reversed counter.
spec fn reversed_next(r: nat, dim: nat) -> nat
    decreases dim,
{
    if dim == 0 {
        0
    } else {
        let h = span((dim - 1) as nat);
        if r < h {
            r + h
        } else {
            reversed_next((r - h) as nat, (dim - 1) as nat)
        }
    }
}

proof fn lemma_reversed_next(j: nat, dim: nat)
    requires
        j + 1 < span(dim),
    ensures
        reversed(j + 1, dim) == reversed_next(reversed(j, dim), dim),
    decreases dim,
{
    if dim > 0 {
        let low = (dim - 1) as nat;
        let h = span(low);
        lemma_bit_product(j, h);
        lemma_bit_product(j + 1, h);
        lemma_reversed_bound(j / 2, low);
        if j % 2 == 0 {
            assert((j + 1) / 2 == j / 2);
        } else {
            assert((j + 1) / 2 == j / 2 + 1);
            lemma_reversed_next(j / 2, low);
        }
    }
}

/// The bit reversals of `0, ..., size - 1`.
///
/// Fails only where the table cannot be allocated.
pub fn bit_reversal(size: usize, log_size: usize) -> (r: Result<Vec<usize>, NttError>)
    requires
        size == span(log_size as nat),
    ensures
        r matches Ok(permutation) ==> {
            &&& permutation@.len() == size
            &&& forall|i: int|
                0 <= i < size ==> #[trigger] permutation@[i] == reversed(i as nat, log_size as nat)
        },
        r matches Err(e) ==> e == NttError::AllocationFailed,
        r is Err ==> refused::<usize>(size),
{
    let mut permutation: Vec<usize> = Vec::new();
    match reserve::<usize>(&mut permutation, size) {
        Ok(()) => Ok(fill_reversal(permutation, size, log_size)),
        Err(e) => Err(e),
    }
}

/// Fill an empty table with the bit reversals, by counting in reversed order.
pub fn fill_reversal(empty: Vec<usize>, size: usize, log_size: usize) -> (permutation: Vec<usize>)
    requires
        empty@.len() == 0,
        size == span(log_size as nat),
    ensures
        permutation@.len() == size,
        forall|i: int|
            0 <= i < size ==> #[trigger] permutation@[i] == reversed(i as nat, log_size as nat),
{
    let ghost dim = log_size as nat;
    let mut permutation: Vec<usize> = empty;
    let mut counter: usize = 0;
    let mut i: usize = 0;
    proof {
        lemma_span_monotone(0, dim);
        lemma_reversed_zero(dim);
    }
    while i < size
        invariant
            size == span(dim),
            i <= size,
            permutation@.len() == i,
            i < size ==> counter == reversed(i as nat, dim),
            forall|k: int| 0 <= k < i ==> #[trigger] permutation@[k] == reversed(k as nat, dim),
        decreases size - i,
    {
        permutation.push(counter);
        proof {
            lemma_reversed_bound(i as nat, dim);
        }
        let ghost next = reversed_next(counter as nat, dim);
        let mut bit: usize = size / 2;
        let ghost mut left = dim;
        while bit != 0 && counter >= bit
            invariant
                size == span(dim),
                left <= dim,
                counter < span(left),
                bit == span(left) / 2,
                next == reversed_next(counter as nat, left),
            decreases left,
        {
            counter = counter - bit;
            bit = bit / 2;
            proof {
                assert(left > 0) by {
                    if left == 0 {
                        assert(span(0) == 1);
                    }
                }
                assert(span(left) == 2 * span((left - 1) as nat));
                left = (left - 1) as nat;
            }
        }
        proof {
            lemma_span_monotone(0, left);
            lemma_span_monotone(left, dim);
            if left > 0 {
                assert(span(left) == 2 * span((left - 1) as nat));
                lemma_span_monotone(0, (left - 1) as nat);
            } else {
                assert(span(0) == 1);
            }
            assert(counter + bit == next);
        }
        counter = counter + bit;
        proof {
            if i + 1 < size {
                lemma_reversed_next(i as nat, dim);
            }
        }
        i = i + 1;
    }
    permutation
}

proof fn lemma_reversed_zero(dim: nat)
    ensures
        reversed(0, dim) == 0,
    decreases dim,
{
    if dim > 0 {
        lemma_reversed_zero((dim - 1) as nat);
        lemma_bit_product(0, span((dim - 1) as nat));
    }
}

/// Lane `l` of `n` rows.
pub open spec fn column<T>(v: Seq<T>, lanes: nat, l: int, n: nat) -> Seq<T> {
    Seq::new(n, |j: int| entry(v, lanes, j, l))
}

/// A sequence in bit-reversed order.
pub open spec fn scrambled<T>(x: Seq<T>, dim: nat) -> Seq<T> {
    Seq::new(x.len(), |j: int| x[reversed(j as nat, dim) as int])
}

/// The start of the run of stage `s` in the table of powers.
pub open spec fn stage_start(s: nat) -> int {
    span(s) - 1
}

/// Whether a table holds, stage by stage, the powers of a root `w` of order
/// `2^dim` that the stages multiply by.
pub open spec fn table_holds<R: Ring>(table: Seq<R::Elem>, w: R::Elem, dim: nat) -> bool {
    &&& table.len() >= span(dim) - 1
    &&& forall|s: nat, o: nat|
        #![trigger table[stage_start(s) + o]]
        s < dim && o < span(s) ==> table[stage_start(s) + o] == rpow::<R>(
            rpow::<R>(w, span((dim - 1 - s) as nat)),
            o,
        )
}

/// The transform of `2^dim` rows in bit-reversed order by butterflies: the two
/// halves first, then one stage across them.
pub(crate) fn transform_node<F: NttField>(
    rows: &mut [u8],
    lanes: usize,
    twiddles: &[F::Elem],
    offsets: &[usize],
    dim: usize,
    schedule: Schedule,
    temp: &mut [u8],
    Ghost(w): Ghost<F::Elem>,
)
    requires
        full::<F>(old(rows)@.len() as int),
        lanes >= 1,
        values::<F>(old(rows)@).len() == span(dim as nat) * lanes,
        canonical::<F>(old(rows)@),
        is_root::<F>(w, dim as nat),
        table_holds::<F>(twiddles@, w, dim as nat),
        all_valid::<F>(twiddles@),
        dim <= offsets@.len(),
        forall|s: int|
            0 <= s < offsets@.len() ==> #[trigger] offsets@[s] == stage_start(s as nat),
        full::<F>(old(temp)@.len() as int),
        lanes <= values::<F>(old(temp)@).len(),
    ensures
        final(rows)@.len() == old(rows)@.len(),
        final(temp)@.len() == old(temp)@.len(),
        canonical::<F>(final(rows)@),
        forall|k: int, l: int|
            0 <= k < span(dim as nat) && 0 <= l < lanes ==> #[trigger] entry(
                values::<F>(final(rows)@),
                lanes as nat,
                k,
                l,
            ) == dft::<F>(
                scrambled(
                    column(values::<F>(old(rows)@), lanes as nat, l, span(dim as nat)),
                    dim as nat,
                ),
                w,
                k as nat,
            ),
    decreases dim,
{
    let ghost d = dim as nat;
    let ghost v = values::<F>(rows@);
    let ghost n = lanes as nat;
    proof {
        lemma_code_bytes::<F>();
        lemma_values_valid::<F>(rows@);
    }
    if dim == 0 {
        proof {
            assert forall|k: int, l: int| 0 <= k < span(0) && 0 <= l < n implies #[trigger] entry(
                v,
                n,
                k,
                l,
            ) == dft::<F>(scrambled(column(v, n, l, span(0)), 0), w, k as nat) by {
                assert(span(0) == 1 && k == 0);
                let c = scrambled(column(v, n, l, 1), 0);
                assert(span(0) * lanes == lanes) by (nonlinear_arith)
                    requires
                        span(0) == 1,
                ;
                assert(entry(v, n, 0, l) == v[l]) by {
                    assert(0 * n == 0);
                }
                assert(c[0] == v[l]);
                assert(F::valid(v[l]));
                assert(all_valid::<F>(c));
                lemma_single::<F>(c, w);
            }
        }
        return ;
    }
    let ghost h = span((d - 1) as nat);
    let half_bytes: usize = rows.len() / 2;
    let base: usize = offsets[dim - 1];
    proof {
        lemma_half::<F>(rows@, d, n);
    }
    let (low, high) = rows.split_at_mut(half_bytes);
    let ghost a = values::<F>(low@);
    let ghost b = values::<F>(high@);
    let ghost w2 = rpow::<F>(w, 2);
    proof {
        lemma_root::<F>(w, d);
        lemma_table::<F>(twiddles@, w, d);
        lemma_span_monotone(0, (d - 1) as nat);
    }
    let entries: usize = twiddles.len();
    transform_node::<F>(low, lanes, twiddles, offsets, dim - 1, schedule, temp, Ghost(w2));
    transform_node::<F>(high, lanes, twiddles, offsets, dim - 1, schedule, temp, Ghost(w2));
    let ghost e = values::<F>(low@);
    let ghost o = values::<F>(high@);
    stage_pass::<F>(low, high, base + 1, lanes, twiddles, base, schedule, temp);
    proof {
        lemma_values_concat::<F>(low@, high@);
        let z = values::<F>(low@ + high@);
        let f = values::<F>(low@);
        let g = values::<F>(high@);
        assert forall|k: int, l: int| 0 <= k < span(d) && 0 <= l < n implies #[trigger] entry(
            z,
            n,
            k,
            l,
        ) == dft::<F>(scrambled(column(v, n, l, span(d)), d), w, k as nat) by {
            let x = scrambled(column(v, n, l, span(d)), d);
            let r = if k < h {
                k
            } else {
                k - h
            };
            lemma_place(r, l, n as int, h as int);
            lemma_row_shift(r, l, n as int, h as int);
            lemma_column_valid::<F>(v, n, l, d);
            lemma_parts::<F>(v, a, b, n, l, d);
            law_dft_butterfly::<F>(x, w, d, r as nat);
            let er = dft::<F>(evens(x), w2, r as nat);
            let or = dft::<F>(odds(x), w2, r as nat);
            assert(entry(e, n, r, l) == er);
            assert(entry(o, n, r, l) == or);
            assert(twiddles@[base + r] == rpow::<F>(w, r as nat)) by {
                let s = (d - 1) as nat;
                let rn = r as nat;
                assert(twiddles@[stage_start(s) + rn] == rpow::<F>(
                    rpow::<F>(w, span((d - 1 - s) as nat)),
                    rn,
                ));
                assert(span(0) == 1);
                lemma_pow_product::<F>(w, 1, rn);
                assert(1 * rn == rn);
            }
            lemma_pow_valid::<F>(w, r as nat);
            assert(all_valid::<F>(b));
            lemma_column_valid::<F>(b, n, l, (d - 1) as nat);
            lemma_dft_valid::<F>(odds(x), w2, r as nat);
            F::lemma_ring(rpow::<F>(w, r as nat), or, or);
            if k < h {
                assert(entry(z, n, k, l) == entry(f, n, r, l));
            } else {
                assert(entry(z, n, k, l) == entry(g, n, r, l));
                assert(k as nat == r as nat + h);
            }
        }
    }
}

/// The halves of a buffer of `2^dim` rows.
proof fn lemma_half<F: NttField>(rows: Seq<u8>, dim: nat, lanes: nat)
    requires
        dim > 0,
        full::<F>(rows.len() as int),
        values::<F>(rows).len() == span(dim) * lanes,
        canonical::<F>(rows),
    ensures
        ({
            let m = rows.len() as int / 2;
            let h = span((dim - 1) as nat);
            let v = values::<F>(rows);
            let low = rows.subrange(0, m);
            let high = rows.subrange(m, rows.len() as int);
            &&& rows.len() == 2 * m
            &&& full::<F>(m)
            &&& values::<F>(low) == v.subrange(0, (h * lanes) as int)
            &&& values::<F>(high) == v.subrange((h * lanes) as int, v.len() as int)
            &&& v.len() == 2 * (h * lanes)
            &&& canonical::<F>(low)
            &&& canonical::<F>(high)
        }),
{
    lemma_code_bytes::<F>();
    let w = F::code_bytes() as int;
    let h = span((dim - 1) as nat);
    let c = (h * lanes) as int;
    let len = rows.len() as int;
    assert(span(dim) * lanes == 2 * c) by (nonlinear_arith)
        requires
            span(dim) == 2 * h,
            c == h * lanes,
    ;
    lemma_fundamental_div_mod(len, w);
    assert(len == 2 * (c * w)) by (nonlinear_arith)
        requires
            len == w * (2 * c) + 0,
    ;
    let m = len / 2;
    assert(m == c * w);
    lemma_fundamental_div_mod_converse(m, w, c, 0);
    lemma_values_split::<F>(rows, m);
}

/// Row `h + r` starts `h` rows after row `r`.
proof fn lemma_row_shift(r: int, l: int, lanes: int, h: int)
    ensures
        (h + r) * lanes + l == h * lanes + (r * lanes + l),
{
    assert((h + r) * lanes == h * lanes + r * lanes) by (nonlinear_arith);
}

proof fn lemma_column_valid<F: NttField>(v: Seq<F::Elem>, lanes: nat, l: int, dim: nat)
    requires
        all_valid::<F>(v),
        v.len() == span(dim) * lanes,
        0 <= l < lanes,
    ensures
        all_valid::<F>(column(v, lanes, l, span(dim))),
        all_valid::<F>(scrambled(column(v, lanes, l, span(dim)), dim)),
{
    let c = column(v, lanes, l, span(dim));
    assert forall|j: int| 0 <= j < c.len() implies F::valid(#[trigger] c[j]) by {
        lemma_place(j, l, lanes as int, span(dim) as int);
        assert(F::valid(v[j * lanes + l]));
    }
    assert forall|j: int| 0 <= j < c.len() implies F::valid(#[trigger] scrambled(c, dim)[j]) by {
        lemma_reversed_bound(j as nat, dim);
        assert(F::valid(c[reversed(j as nat, dim) as int]));
    }
}

/// The even and the odd entries of a scrambled column come from the two halves
/// of the rows.
proof fn lemma_parts<F: NttField>(
    v: Seq<F::Elem>,
    a: Seq<F::Elem>,
    b: Seq<F::Elem>,
    lanes: nat,
    l: int,
    dim: nat,
)
    requires
        dim > 0,
        0 <= l < lanes,
        v.len() == 2 * (span((dim - 1) as nat) * lanes),
        a == v.subrange(0, (span((dim - 1) as nat) * lanes) as int),
        b == v.subrange((span((dim - 1) as nat) * lanes) as int, v.len() as int),
    ensures
        ({
            let low = (dim - 1) as nat;
            let h = span(low);
            let x = scrambled(column(v, lanes, l, span(dim)), dim);
            &&& evens(x) == scrambled(column(a, lanes, l, h), low)
            &&& odds(x) == scrambled(column(b, lanes, l, h), low)
        }),
{
    let low = (dim - 1) as nat;
    let h = span(low);
    let x = scrambled(column(v, lanes, l, span(dim)), dim);
    let p = scrambled(column(a, lanes, l, h), low);
    let q = scrambled(column(b, lanes, l, h), low);
    assert forall|i: int| 0 <= i < h implies evens(x)[i] == p[i] && odds(x)[i] == q[i] by {
        let r = reversed(i as nat, low) as int;
        lemma_reversed_bound(i as nat, low);
        let (even, odd) = ((2 * i) as nat, (2 * i + 1) as nat);
        lemma_bit_product(even, h);
        lemma_bit_product(odd, h);
        assert(even % 2 == 0 && even / 2 == i && odd % 2 == 1 && odd / 2 == i);
        assert(reversed(even, dim) == r);
        assert(reversed(odd, dim) == h + r);
        lemma_place(r, l, lanes as int, h as int);
        lemma_row_shift(r, l, lanes as int, h as int);
        assert(column(v, lanes, l, span(dim))[r] == v[r * lanes + l]);
        assert(column(v, lanes, l, span(dim))[h + r] == v[(h + r) * lanes + l]);
    }
    assert(evens(x) =~= p);
    assert(odds(x) =~= q);
}

/// The head of a table for a root serves the square of the root.
proof fn lemma_table<R: Ring>(table: Seq<R::Elem>, w: R::Elem, dim: nat)
    requires
        dim > 0,
        R::valid(w),
        table_holds::<R>(table, w, dim),
    ensures
        table_holds::<R>(table, rpow::<R>(w, 2), (dim - 1) as nat),
{
    let low = (dim - 1) as nat;
    lemma_span_monotone(low, dim);
    assert forall|s: nat, o: nat|
        #![trigger table[stage_start(s) + o]]
        s < low && o < span(s) implies table[stage_start(s) + o] == rpow::<R>(
        rpow::<R>(rpow::<R>(w, 2), span((low - 1 - s) as nat)),
        o,
    ) by {
        let q = span((low - 1 - s) as nat);
        lemma_pow_product::<R>(w, 2, q);
        assert(span((dim - 1 - s) as nat) == 2 * q);
    }
}

/// Swap rows into bit-reversed order.
pub(crate) fn permute<F: NttField>(rows: &mut [u8], lanes: usize, permutation: &[usize], Ghost(dim): Ghost<nat>)
    requires
        full::<F>(old(rows)@.len() as int),
        values::<F>(old(rows)@).len() == span(dim) * lanes,
        canonical::<F>(old(rows)@),
        permutation@.len() == span(dim),
        forall|i: int|
            0 <= i < permutation@.len() ==> #[trigger] permutation@[i] == reversed(i as nat, dim),
    ensures
        final(rows)@.len() == old(rows)@.len(),
        canonical::<F>(final(rows)@),
        forall|k: int, l: int|
            0 <= k < span(dim) && 0 <= l < lanes ==> #[trigger] entry(
                values::<F>(final(rows)@),
                lanes as nat,
                k,
                l,
            ) == entry(
                values::<F>(old(rows)@),
                lanes as nat,
                reversed(k as nat, dim) as int,
                l,
            ),
{
    let ghost len = rows@.len();
    let ghost v = values::<F>(rows@);
    let ghost n = lanes as nat;
    let size: usize = permutation.len();
    proof {
        lemma_code_bytes::<F>();
    }
    let count: usize = rows.len() / F::element_bytes();
    let mut i: usize = 0;
    while i < size
        invariant
            i <= size,
            size == span(dim),
            size == permutation@.len(),
            v.len() == count,
            count == size * lanes,
            n == lanes,
            rows@.len() == len,
            full::<F>(len as int),
            values::<F>(rows@).len() == count,
            canonical::<F>(rows@),
            forall|k: int|
                0 <= k < permutation@.len() ==> #[trigger] permutation@[k] == reversed(
                    k as nat,
                    dim,
                ),
            forall|k: int, l: int|
                0 <= k < size && 0 <= l < n ==> #[trigger] entry(values::<F>(rows@), n, k, l)
                    == if k < i || reversed(k as nat, dim) < i {
                    entry(v, n, reversed(k as nat, dim) as int, l)
                } else {
                    entry(v, n, k, l)
                },
        decreases size - i,
    {
        let target: usize = permutation[i];
        let ghost before = values::<F>(rows@);
        proof {
            lemma_code_bytes::<F>();
            lemma_reversed_bound(i as nat, dim);
            law_reversal_is_an_involution(i as nat, dim);
        }
        if i < target {
            swap_values::<F>(rows, i, target, lanes, size);
        }
        proof {
            let t = target as int;
            let after = values::<F>(rows@);
            assert forall|k: int, l: int| 0 <= k < size && 0 <= l < n implies #[trigger] entry(
                after,
                n,
                k,
                l,
            ) == (if k < i + 1 || reversed(k as nat, dim) < i + 1 {
                entry(v, n, reversed(k as nat, dim) as int, l)
            } else {
                entry(v, n, k, l)
            }) by {
                let r = reversed(k as nat, dim) as int;
                lemma_reversed_bound(k as nat, dim);
                law_reversal_is_an_involution(k as nat, dim);
                assert(r == i ==> k == t);
                assert(k == i ==> r == t);
                assert(k == t ==> r == i);
                let p = entry(before, n, k, l);
                let q = entry(before, n, r, l);
            }
        }
        i = i + 1;
    }
    proof {
        assert forall|k: int, l: int| 0 <= k < size && 0 <= l < n implies #[trigger] entry(
            values::<F>(rows@),
            n,
            k,
            l,
        ) == entry(v, n, reversed(k as nat, dim) as int, l) by {}
    }
}

/// Bit reversal: bit `b` of the reversal is bit `dim - 1 - b` of the number.
pub proof fn law_reversal_mirrors_bits(j: nat, dim: nat, b: nat)
    requires
        b < dim,
    ensures
        reversed(j, dim) < span(dim),
        reversed(j, dim) / span(b) % 2 == j / span((dim - 1 - b) as nat) % 2,
    decreases dim,
{
    let d = (dim - 1) as nat;
    let bit = j % 2;
    let rest = reversed(j / 2, d);
    lemma_reversed_bound(j, dim);
    lemma_reversed_bound(j / 2, d);
    lemma_span_monotone(0, b);
    lemma_bit_product(j, span(d));
    if b == d {
        assert(span(0) == 1);
        lemma_fundamental_div_mod_converse(
            reversed(j, dim) as int,
            span(d) as int,
            bit as int,
            rest as int,
        );
        assert(j as int / 1 == j);
        assert(reversed(j, dim) / span(b) == bit);
    } else {
        law_reversal_mirrors_bits(j / 2, d, b);
        let c = (d - b) as nat;
        crate::span::lemma_span_add(b, c);
        let (s, t) = (span(b) as int, span(c) as int);
        assert(t == 2 * span((c - 1) as nat));
        let h = span((c - 1) as nat) as int;
        // the high bit is an even number of units of bit `b`
        assert(bit * span(d) == s * (2 * (bit * h))) by (nonlinear_arith)
            requires
                span(d) == s * t,
                t == 2 * h,
        ;
        let q = rest as int / s;
        lemma_fundamental_div_mod(rest as int, s);
        assert((2 * (bit * h) + q) * s == s * (2 * (bit * h)) + s * q) by (nonlinear_arith);
        lemma_fundamental_div_mod_converse(
            reversed(j, dim) as int,
            s,
            2 * (bit * h) + q,
            rest as int % s,
        );
        let m = bit * h;
        assert((2 * m + q) % 2 == q % 2);
        assert(reversed(j, dim) as int / s == 2 * m + q);
        // bit `dim - 1 - b` of the number is bit `d - 1 - b` of its half
        let e = (d - 1 - b) as nat;
        assert(span((dim - 1 - b) as nat) == 2 * span(e));
        lemma_span_monotone(0, e);
        vstd::arithmetic::div_mod::lemma_div_denominator(j as int, 2, span(e) as int);
        assert(j as int / 2 / (span(e) as int) == j as int / (2 * span(e) as int));
    }
}

/// The runs of the stages follow one another: that of stage `s` has `2^s` entries.
pub proof fn law_stage_starts(s: nat)
    ensures
        stage_start(0) == 0,
        stage_start(s + 1) == stage_start(s) + span(s),
{
    assert(span(0) == 1);
}

} // verus!
