//! The four-step transform: two passes of short transforms between
//! transpositions.

use vstd::arithmetic::div_mod::{lemma_fundamental_div_mod, lemma_fundamental_div_mod_converse};
use vstd::prelude::*;

use crate::error::NttError;
use crate::grid::{entry, lemma_place, lemma_row_order};
use crate::ntt::field::NttField;
use crate::ntt::plan::{
    domain, lanes_in, law_root_is_primitive, lemma_geometry, root_of, rows_error,
    rows_transformed, schedule_for, scratch_error, size_error, tables_refused, validate_scratch,
    NttPlan, NttScratch,
};
use crate::ntt::reserve::{refused, zeroed};
use crate::ntt::ring::{
    all_valid, dft, dft_term, lemma_dft_term_valid, lemma_dft_valid, lemma_one_pow,
    lemma_pow_product, lemma_pow_sum, lemma_pow_valid, lemma_sum_exchange, lemma_sum_same,
    lemma_sum_scale, lemma_sum_split, rpow, rsum, Ring,
};
use crate::ntt::rows::{
    canonical, canonicalize, full, lemma_code_bytes, lemma_values_concat, lemma_values_split,
    lemma_values_valid, read_value, values, write_value, Schedule,
};
use crate::ntt::stages::column;
use crate::ntt::transpose::{lemma_source, source, transpose_slots, transposed};
use crate::span::{lemma_span_add, lemma_span_limits, lemma_span_monotone, size_of_log, span};
use crate::words::{lemma_word_fits, words};

verus! {

/// A sum over `rows * width` terms, block by block.
proof fn lemma_sum_blocks<R: Ring>(
    f: spec_fn(int) -> R::Elem,
    blocks: spec_fn(int) -> R::Elem,
    inner: spec_fn(int) -> spec_fn(int) -> R::Elem,
    rows: nat,
    width: nat,
)
    requires
        forall|j: int| 0 <= j < rows * width ==> R::valid(#[trigger] f(j)),
        forall|r: int, c: int|
            0 <= r < rows && 0 <= c < width ==> #[trigger] inner(r)(c) == f(r * width + c),
        forall|r: int| 0 <= r < rows ==> #[trigger] blocks(r) == rsum::<R>(inner(r), width),
    ensures
        rsum::<R>(f, rows * width) == rsum::<R>(blocks, rows),
    decreases rows,
{
    if rows == 0 {
        assert(rows * width == 0) by (nonlinear_arith)
            requires
                rows == 0,
        ;
    } else {
        let m = (rows - 1) as nat;
        let a = m * width;
        assert(rows * width == a + width) by (nonlinear_arith)
            requires
                rows == m + 1,
                a == m * width,
        ;
        assert forall|r: int, c: int| 0 <= r < m && 0 <= c < width implies #[trigger] inner(r)(c)
            == f(r * width + c) by {}
        lemma_sum_blocks::<R>(f, blocks, inner, m, width);
        let last = inner(rows - 1);
        assert forall|c: int| 0 <= c < width implies #[trigger] last(c) == f(a + c) by {
            assert(inner(rows - 1)(c) == f((rows - 1) * width + c));
        }
        lemma_sum_split::<R>(f, last, a, width);
    }
}

/// Every `long`-th entry of a sequence, from entry `c` on.
pub open spec fn stride<T>(x: Seq<T>, short: nat, long: nat, c: int) -> Seq<T> {
    Seq::new(short, |r: int| x[r * long + c])
}

/// The inputs of the second pass for the output residue `k1`: transforms of the
/// strides, times powers of the root.
pub open spec fn between<R: Ring>(
    x: Seq<R::Elem>,
    w: R::Elem,
    short: nat,
    long: nat,
    k1: nat,
) -> Seq<R::Elem> {
    Seq::new(
        long,
        |c: int|
            R::rmul(
                dft::<R>(stride(x, short, long, c), rpow::<R>(w, long), k1),
                rpow::<R>(w, (c * k1) as nat),
            ),
    )
}

proof fn lemma_stride_valid<R: Ring>(x: Seq<R::Elem>, short: nat, long: nat, c: int)
    requires
        all_valid::<R>(x),
        x.len() == short * long,
        0 <= c < long,
    ensures
        all_valid::<R>(stride(x, short, long, c)),
{
    let s = stride(x, short, long, c);
    assert forall|r: int| 0 <= r < short implies R::valid(#[trigger] s[r]) by {
        lemma_place(r, c, long as int, short as int);
        assert(R::valid(x[r * long + c]));
    }
}

/// `w^(j k)` for `j = r long + c` and `k = short k2 + k1`.
proof fn lemma_four_powers<R: Ring>(
    w: R::Elem,
    short: nat,
    long: nat,
    r: nat,
    c: nat,
    k1: nat,
    k2: nat,
)
    requires
        R::valid(w),
        rpow::<R>(w, short * long) == R::rone(),
    ensures
        rpow::<R>(w, (r * long + c) * (short * k2 + k1)) == R::rmul(
            rpow::<R>(rpow::<R>(w, long), r * k1),
            R::rmul(rpow::<R>(w, c * k1), rpow::<R>(rpow::<R>(w, short), c * k2)),
        ),
{
    R::lemma_units();
    let n = short * long;
    let a = long * (r * k1);
    let b = c * k1;
    let d = short * (c * k2);
    let e = n * (r * k2);
    assert((r * long + c) * (short * k2 + k1) == e + (a + (b + d))) by {
        let j = r * long;
        let k = short * k2;
        assert((j + c) * (k + k1) == j * k + j * k1 + c * k + c * k1) by (nonlinear_arith);
        assert(j * k == e) by (nonlinear_arith)
            requires
                j == r * long,
                k == short * k2,
                n == short * long,
                e == n * (r * k2),
        ;
        assert(j * k1 == a) by (nonlinear_arith)
            requires
                j == r * long,
                a == long * (r * k1),
        ;
        assert(c * k == d) by (nonlinear_arith)
            requires
                k == short * k2,
                d == short * (c * k2),
        ;
    }
    lemma_pow_sum::<R>(w, e, a + (b + d));
    lemma_pow_sum::<R>(w, a, b + d);
    lemma_pow_sum::<R>(w, b, d);
    lemma_pow_product::<R>(w, n, r * k2);
    lemma_one_pow::<R>(r * k2);
    lemma_pow_product::<R>(w, long, r * k1);
    lemma_pow_product::<R>(w, short, c * k2);
    lemma_pow_valid::<R>(w, a + (b + d));
    let p = rpow::<R>(w, a + (b + d));
    R::lemma_ring(p, R::rone(), p);
}

/// The four-step decomposition: output `short k2 + k1` of a transform of
/// `short * long` points is output `k2` of a transform of `long` points, whose
/// inputs are outputs `k1` of transforms of `short` points times powers of the
/// root.
pub proof fn law_four_step<R: Ring>(
    x: Seq<R::Elem>,
    w: R::Elem,
    short: nat,
    long: nat,
    k1: nat,
    k2: nat,
)
    requires
        all_valid::<R>(x),
        x.len() == short * long,
        R::valid(w),
        rpow::<R>(w, short * long) == R::rone(),
    ensures
        dft::<R>(x, w, short * k2 + k1) == dft::<R>(
            between::<R>(x, w, short, long, k1),
            rpow::<R>(w, short),
            k2,
        ),
{
    let k = short * k2 + k1;
    let w1 = rpow::<R>(w, long);
    let w2 = rpow::<R>(w, short);
    lemma_pow_valid::<R>(w, long);
    lemma_pow_valid::<R>(w, short);
    let y = between::<R>(x, w, short, long, k1);
    let f = |j: int| dft_term::<R>(x, w, k, j);
    let by_row = |r: int| |c: int| f(r * long + c);
    let by_column = |c: int| |r: int| f(r * long + c);
    let row_sums = |r: int| rsum::<R>(by_row(r), long);
    let column_sums = |c: int| rsum::<R>(by_column(c), short);
    assert forall|j: int| 0 <= j < short * long implies R::valid(#[trigger] f(j)) by {
        lemma_dft_term_valid::<R>(x, w, k, j);
    }
    assert forall|r: int, c: int| 0 <= r < short && 0 <= c < long implies R::valid(
        #[trigger] by_row(r)(c),
    ) by {
        lemma_place(r, c, long as int, short as int);
        assert(R::valid(f(r * long + c)));
    }
    lemma_sum_blocks::<R>(f, row_sums, by_row, short, long);
    lemma_sum_exchange::<R>(by_row, row_sums, column_sums, by_column, short, long);
    let out = |c: int| dft_term::<R>(y, w2, k2, c);
    assert forall|c: int| 0 <= c < long implies #[trigger] column_sums(c) == out(c) by {
        let s = stride(x, short, long, c);
        lemma_stride_valid::<R>(x, short, long, c);
        let cn = c as nat;
        let g = |r: int| dft_term::<R>(s, w1, k1, r);
        let p = rpow::<R>(w, cn * k1);
        let q = rpow::<R>(w2, cn * k2);
        lemma_pow_valid::<R>(w, cn * k1);
        lemma_pow_valid::<R>(w2, cn * k2);
        let factor = R::rmul(p, q);
        R::lemma_ring(p, q, q);
        assert forall|r: int| 0 <= r < short implies R::valid(#[trigger] g(r)) by {
            lemma_dft_term_valid::<R>(s, w1, k1, r);
        }
        assert forall|r: int| 0 <= r < short implies #[trigger] by_column(c)(r) == R::rmul(
            factor,
            g(r),
        ) by {
            let rn = r as nat;
            lemma_place(r, c, long as int, short as int);
            lemma_four_powers::<R>(w, short, long, rn, cn, k1, k2);
            let a = x[r * long + c];
            assert(R::valid(a));
            assert(s[r] == a);
            let t = rpow::<R>(w1, rn * k1);
            lemma_pow_valid::<R>(w1, rn * k1);
            assert((r * long + c) * k == (rn * long + cn) * (short * k2 + k1));
            assert(by_column(c)(r) == R::rmul(a, R::rmul(t, factor)));
            assert(g(r) == R::rmul(a, t));
            R::lemma_ring(a, t, factor);
            R::lemma_ring(a, t, t);
            R::lemma_ring(R::rmul(a, t), factor, factor);
        }
        lemma_sum_scale::<R>(g, factor, by_column(c), short);
        let d = dft::<R>(s, w1, k1);
        lemma_dft_valid::<R>(s, w1, k1);
        assert(d == rsum::<R>(g, short));
        assert(y[c] == R::rmul(d, p));
        assert(out(c) == R::rmul(R::rmul(d, p), q));
        R::lemma_ring(d, p, q);
        R::lemma_ring(d, factor, q);
    }
    lemma_sum_same::<R>(column_sums, out, long);
    assert(dft::<R>(x, w, k) == rsum::<R>(f, short * long));
    assert(dft::<R>(y, w2, k2) == rsum::<R>(out, long));
}

/// Lane `l` of the `g`-th group of `m` rows.
pub open spec fn group_column<T>(v: Seq<T>, lanes: nat, l: int, g: int, m: nat) -> Seq<T> {
    Seq::new(m, |j: int| entry(v, lanes, g * m + j, l))
}

/// Transform each of `count` groups of rows.
fn group_transforms<F: NttField>(
    plan: &NttPlan<F>,
    rows: &mut [u8],
    lanes: usize,
    count: usize,
    schedule: Schedule,
    temp: &mut [u8],
)
    requires
        plan.wf(),
        lanes >= 1,
        full::<F>(old(rows)@.len() as int),
        values::<F>(old(rows)@).len() == (count * plan.points()) * lanes,
        canonical::<F>(old(rows)@),
        full::<F>(old(temp)@.len() as int),
        lanes <= values::<F>(old(temp)@).len(),
    ensures
        final(rows)@.len() == old(rows)@.len(),
        final(temp)@.len() == old(temp)@.len(),
        canonical::<F>(final(rows)@),
        forall|g: int, k: int, l: int|
            0 <= g < count && 0 <= k < plan.points() && 0 <= l < lanes ==> #[trigger] group_entry(
                values::<F>(final(rows)@),
                lanes as nat,
                g,
                k,
                plan.points() as nat,
                l,
            ) == dft::<F>(
                group_column(
                    values::<F>(old(rows)@),
                    lanes as nat,
                    l,
                    g,
                    plan.points() as nat,
                ),
                plan.omega(),
                k as nat,
            ),
    decreases count,
{
    if count == 0 {
        return ;
    }
    let ghost v = values::<F>(rows@);
    let ghost n = lanes as nat;
    let ghost m = plan.points() as nat;
    proof {
        lemma_code_bytes::<F>();
        lemma_groups::<F>(rows@, count as nat, m, n);
    }
    let group_bytes: usize = rows.len() / count;
    let (head, tail) = rows.split_at_mut(group_bytes);
    let ghost a = values::<F>(head@);
    let ghost b = values::<F>(tail@);
    plan.forward_rows(head, lanes, schedule, temp);
    group_transforms::<F>(plan, tail, lanes, count - 1, schedule, temp);
    proof {
        lemma_values_concat::<F>(head@, tail@);
        let z = values::<F>(head@ + tail@);
        let f = values::<F>(head@);
        let t = values::<F>(tail@);
        assert forall|g: int, k: int, l: int|
            0 <= g < count && 0 <= k < m && 0 <= l < n implies #[trigger] group_entry(
            z,
            n,
            g,
            k,
            m,
            l,
        ) == dft::<F>(group_column(v, n, l, g, m), plan.omega(), k as nat) by {
            if g == 0 {
                assert(0 * m == 0);
                lemma_place(k, l, n as int, m as int);
                assert(entry(f, n, k, l) == z[k * n + l]);
                assert(group_column(v, n, l, 0, m) =~= column(a, n, l, m)) by {
                    assert forall|j: int| 0 <= j < m implies group_column(v, n, l, 0, m)[j]
                        == column(a, n, l, m)[j] by {
                        lemma_place(j, l, n as int, m as int);
                    }
                }
            } else {
                let h = g - 1;
                lemma_group_shift(h, k, l, m as int, n as int, count - 1);
                assert(group_entry(t, n, h, k, m, l) == t[(h * m + k) * n + l]);
                assert(group_column(v, n, l, g, m) =~= group_column(b, n, l, h, m)) by {
                    assert forall|j: int| 0 <= j < m implies group_column(v, n, l, g, m)[j]
                        == group_column(b, n, l, h, m)[j] by {
                        lemma_group_shift(h, j, l, m as int, n as int, count - 1);
                    }
                }
            }
        }
    }
}

/// Row `k` of the `g`-th group of `m` rows, lane `l`.
pub open spec fn group_entry<T>(v: Seq<T>, lanes: nat, g: int, k: int, m: nat, l: int) -> T {
    entry(v, lanes, g * m + k, l)
}

/// The first group and the rest of `count` groups of `m` rows.
proof fn lemma_groups<F: NttField>(rows: Seq<u8>, count: nat, m: nat, lanes: nat)
    requires
        count >= 1,
        full::<F>(rows.len() as int),
        values::<F>(rows).len() == (count * m) * lanes,
        canonical::<F>(rows),
    ensures
        ({
            let g = rows.len() as int / count as int;
            let v = values::<F>(rows);
            let head = rows.subrange(0, g);
            let tail = rows.subrange(g, rows.len() as int);
            &&& 0 <= g <= rows.len()
            &&& full::<F>(g)
            &&& full::<F>(rows.len() - g)
            &&& values::<F>(head) == v.subrange(0, (m * lanes) as int)
            &&& values::<F>(tail) == v.subrange((m * lanes) as int, v.len() as int)
            &&& v.len() - m * lanes == ((count - 1) * m) * lanes
            &&& m * lanes <= v.len()
            &&& canonical::<F>(head)
            &&& canonical::<F>(tail)
        }),
{
    lemma_code_bytes::<F>();
    let w = F::code_bytes() as int;
    let len = rows.len() as int;
    let c = (m * lanes) as int;
    let v = values::<F>(rows);
    lemma_fundamental_div_mod(len, w);
    assert((count * m) * lanes == count * c) by (nonlinear_arith)
        requires
            c == m * lanes,
    ;
    assert(len == (c * w) * count) by (nonlinear_arith)
        requires
            len == w * (count * c) + 0,
    ;
    lemma_fundamental_div_mod_converse(len, count as int, c * w, 0);
    let g = len / count as int;
    assert(0 <= g <= len) by (nonlinear_arith)
        requires
            g == c * w,
            len == (c * w) * count,
            count >= 1,
            c >= 0,
            w >= 1,
    ;
    lemma_fundamental_div_mod_converse(g, w, c, 0);
    lemma_values_split::<F>(rows, g);
    let d = count - 1;
    assert(((count - 1) * m) * lanes == count * c - c) by (nonlinear_arith)
        requires
            c == m * lanes,
    ;
}

/// The rows of group `h + 1` lie one group after those of group `h`.
proof fn lemma_group_shift(h: int, k: int, l: int, m: int, lanes: int, count: int)
    requires
        0 <= h < count,
        0 <= k < m,
        0 <= l < lanes,
    ensures
        ((h + 1) * m + k) * lanes + l == m * lanes + ((h * m + k) * lanes + l),
        0 <= (h * m + k) * lanes + l < (count * m) * lanes,
{
    lemma_place(h, k, m, count);
    lemma_place(h * m + k, l, lanes, count * m);
    let i = h * m + k;
    assert((h + 1) * m + k == m + i) by (nonlinear_arith)
        requires
            i == h * m + k,
    ;
    assert((m + i) * lanes == m * lanes + i * lanes) by (nonlinear_arith);
}

/// Multiply row `index` by `factor`.
fn scale_row<F: NttField>(
    rows: &mut [u8],
    index: usize,
    lanes: usize,
    size: usize,
    factor: F::Elem,
)
    requires
        full::<F>(old(rows)@.len() as int),
        canonical::<F>(old(rows)@),
        values::<F>(old(rows)@).len() == size * lanes,
        index < size,
        F::valid(factor),
    ensures
        final(rows)@.len() == old(rows)@.len(),
        canonical::<F>(final(rows)@),
        forall|k: int, l: int|
            0 <= k < size && 0 <= l < lanes ==> #[trigger] entry(
                values::<F>(final(rows)@),
                lanes as nat,
                k,
                l,
            ) == if k == index {
                F::rmul(entry(values::<F>(old(rows)@), lanes as nat, k, l), factor)
            } else {
                entry(values::<F>(old(rows)@), lanes as nat, k, l)
            },
{
    let ghost len = rows@.len();
    let ghost v = values::<F>(rows@);
    let ghost n = lanes as nat;
    proof {
        lemma_code_bytes::<F>();
    }
    let count: usize = rows.len() / F::element_bytes();
    let mut l: usize = 0;
    while l < lanes
        invariant
            l <= lanes,
            n == lanes,
            index < size,
            F::valid(factor),
            count == size * lanes,
            rows@.len() == len,
            full::<F>(len as int),
            values::<F>(rows@).len() == count,
            canonical::<F>(rows@),
            forall|k: int, m: int|
                0 <= k < size && 0 <= m < lanes ==> #[trigger] entry(values::<F>(rows@), n, k, m)
                    == if k == index && m < l {
                    F::rmul(entry(v, n, k, m), factor)
                } else {
                    entry(v, n, k, m)
                },
        decreases lanes - l,
    {
        let ghost before = values::<F>(rows@);
        proof {
            lemma_code_bytes::<F>();
            lemma_place(index as int, l as int, lanes as int, size as int);
            assert(index * lanes >= 0) by (nonlinear_arith)
                requires
                    index >= 0,
                    lanes >= 0,
            ;
        }
        let e = read_value::<F>(rows, index * lanes + l);
        proof {
            F::lemma_ring(e, factor, e);
            assert(e == entry(before, n, index as int, l as int));
        }
        write_value::<F>(rows, index * lanes + l, F::times(e, factor));
        proof {
            assert forall|k: int, m: int| 0 <= k < size && 0 <= m < lanes implies #[trigger] entry(
                values::<F>(rows@),
                n,
                k,
                m,
            ) == (if k == index && m < l + 1 {
                F::rmul(entry(v, n, k, m), factor)
            } else {
                entry(v, n, k, m)
            }) by {
                lemma_place(k, m, lanes as int, size as int);
                lemma_row_order(k, index as int, m, lanes as int);
                assert(entry(before, n, k, m) == before[k * n + m]);
            }
        }
        l = l + 1;
    }
}

/// The exponent of the root for slot `i` of rows of `short` slots.
pub open spec fn twist(i: int, short: int) -> nat {
    ((i / short) * (i % short)) as nat
}

/// Multiply slot `short c + k` by `root^(c k)`, for every `c` below `long`.
///
/// The slots of row zero stay: their factor is one.
fn fourstep_twiddles<F: NttField>(
    rows: &mut [u8],
    lanes: usize,
    long: usize,
    short: usize,
    root: F::Elem,
)
    requires
        full::<F>(old(rows)@.len() as int),
        canonical::<F>(old(rows)@),
        long >= 1,
        short >= 1,
        long * short <= usize::MAX,
        values::<F>(old(rows)@).len() == (long * short) * lanes,
        F::valid(root),
    ensures
        final(rows)@.len() == old(rows)@.len(),
        canonical::<F>(final(rows)@),
        forall|k: int, l: int|
            0 <= k < long * short && 0 <= l < lanes ==> #[trigger] entry(
                values::<F>(final(rows)@),
                lanes as nat,
                k,
                l,
            ) == F::rmul(
                entry(values::<F>(old(rows)@), lanes as nat, k, l),
                rpow::<F>(root, twist(k, short as int)),
            ),
{
    let ghost len = rows@.len();
    let ghost v = values::<F>(rows@);
    let ghost n = lanes as nat;
    let size: usize = long * short;
    let mut row_factor = root;
    let mut row: usize = 1;
    proof {
        lemma_code_bytes::<F>();
        lemma_values_valid::<F>(rows@);
        assert(1 * short == short);
        assert(short <= size) by (nonlinear_arith)
            requires
                size == long * short,
                long >= 1,
        ;
        F::lemma_units();
        F::lemma_ring(F::rone(), root, root);
        F::lemma_ring(root, F::rone(), root);
        reveal_with_fuel(rpow, 2);
        assert forall|k: int, l: int| 0 <= k < size && 0 <= l < n implies #[trigger] entry(
            v,
            n,
            k,
            l,
        ) == (if k < short {
            F::rmul(entry(v, n, k, l), rpow::<F>(root, twist(k, short as int)))
        } else {
            entry(v, n, k, l)
        }) by {
            lemma_place(k, l, n as int, size as int);
            let e = v[k * n + l];
            assert(F::valid(e));
            F::lemma_ring(e, e, e);
            if k < short {
                lemma_fundamental_div_mod_converse(k, short as int, 0, k);
                assert(0 * (k % short as int) == 0);
            }
        }
    }
    while row < long
        invariant
            1 <= row <= long,
            short >= 1,
            size == long * short,
            n == lanes,
            v.len() == size * lanes,
            rows@.len() == len,
            full::<F>(len as int),
            canonical::<F>(rows@),
            values::<F>(rows@).len() == size * lanes,
            F::valid(root),
            row_factor == rpow::<F>(root, row as nat),
            forall|k: int, l: int|
                0 <= k < size && 0 <= l < n ==> #[trigger] entry(values::<F>(rows@), n, k, l)
                    == if k < row * short {
                    F::rmul(entry(v, n, k, l), rpow::<F>(root, twist(k, short as int)))
                } else {
                    entry(v, n, k, l)
                },
        decreases long - row,
    {
        let mut power = F::one();
        let mut column: usize = 0;
        proof {
            lemma_pow_valid::<F>(root, row as nat);
            assert(row * short + short <= size) by (nonlinear_arith)
                requires
                    size == long * short,
                    row < long,
                    short >= 1,
            ;
            assert(row * short >= 0) by (nonlinear_arith)
                requires
                    row >= 0,
                    short >= 0,
            ;
        }
        let first: usize = row * short;
        while column < short
            invariant
                column <= short,
                short >= 1,
                1 <= row < long,
                first == row * short,
                first + short <= size,
                n == lanes,
                rows@.len() == len,
                full::<F>(len as int),
                canonical::<F>(rows@),
                values::<F>(rows@).len() == size * lanes,
                F::valid(root),
                F::valid(row_factor),
                row_factor == rpow::<F>(root, row as nat),
                power == rpow::<F>(row_factor, column as nat),
                forall|k: int, l: int|
                    0 <= k < size && 0 <= l < n ==> #[trigger] entry(values::<F>(rows@), n, k, l)
                        == if k < first + column {
                        F::rmul(entry(v, n, k, l), rpow::<F>(root, twist(k, short as int)))
                    } else {
                        entry(v, n, k, l)
                    },
            decreases short - column,
        {
            proof {
                lemma_code_bytes::<F>();
                lemma_pow_valid::<F>(row_factor, column as nat);
                lemma_fundamental_div_mod_converse(
                    first + column,
                    short as int,
                    row as int,
                    column as int,
                );
                lemma_pow_product::<F>(root, row as nat, column as nat);
            }
            let ghost now = values::<F>(rows@);
            scale_row::<F>(rows, first + column, lanes, size, power);
            proof {
                assert forall|k: int, l: int| 0 <= k < size && 0 <= l < n implies #[trigger] entry(
                    values::<F>(rows@),
                    n,
                    k,
                    l,
                ) == (if k < first + column + 1 {
                    F::rmul(entry(v, n, k, l), rpow::<F>(root, twist(k, short as int)))
                } else {
                    entry(v, n, k, l)
                }) by {
                    let e = entry(now, n, k, l);
                }
            }
            power = F::times(power, row_factor);
            column = column + 1;
        }
        row_factor = F::times(row_factor, root);
        row = row + 1;
        proof {
            assert(row * short == first + short) by (nonlinear_arith)
                requires
                    first == (row - 1) * short,
            ;
        }
    }
}

/// The source of slot `c height + r`.
proof fn lemma_source_of(c: int, r: int, height: int, width: int)
    requires
        0 <= c < width,
        0 <= r < height,
    ensures
        source(c * height + r, height, width) == r * width + c,
        0 <= c * height + r < height * width,
{
    reveal(source);
    lemma_place(c, r, height, width);
    lemma_fundamental_div_mod_converse(c * height + r, height, c, r);
    assert(width * height == height * width) by (nonlinear_arith);
}

/// A transposition of rows of whole elements moves the values with the bytes.
proof fn lemma_transposed_values<F: NttField>(
    before: Seq<u8>,
    after: Seq<u8>,
    row_len: nat,
    lanes: nat,
    height: int,
    width: int,
)
    requires
        height > 0,
        width > 0,
        transposed(before, after, row_len, height, width),
        row_len == lanes * F::code_bytes(),
        before.len() == (height * width) * row_len,
        canonical::<F>(before),
    ensures
        after.len() == before.len(),
        full::<F>(after.len() as int),
        values::<F>(after).len() == values::<F>(before).len(),
        canonical::<F>(after),
        forall|k: int, m: int|
            0 <= k < height * width && 0 <= m < lanes ==> #[trigger] entry(
                values::<F>(after),
                lanes,
                k,
                m,
            ) == entry(values::<F>(before), lanes, source(k, height, width), m),
{
    lemma_code_bytes::<F>();
    let b = F::code_bytes();
    let size = height * width;
    let count = size * lanes;
    assert(size > 0) by (nonlinear_arith)
        requires
            size == height * width,
            height > 0,
            width > 0,
    ;
    assert(before.len() == count * b) by (nonlinear_arith)
        requires
            before.len() == size * row_len,
            row_len == lanes * b,
            count == size * lanes,
    ;
    lemma_fundamental_div_mod_converse(before.len() as int, b as int, count, 0);
    let (u, v) = (words(before, b), words(after, b));
    assert forall|k: int, m: int| 0 <= k < size && 0 <= m < lanes implies {
        &&& 0 <= k * lanes + m < count
        &&& 0 <= source(k, height, width) * lanes + m < count
        &&& #[trigger] entry(v, lanes, k, m) == entry(u, lanes, source(k, height, width), m)
    } by {
        let j = source(k, height, width);
        lemma_source(k, height, width);
        lemma_place(k, m, lanes as int, size);
        lemma_place(j, m, lanes as int, size);
        let (i, o) = (k * lanes + m, j * lanes + m);
        lemma_word_fits(before.len() as int, b as int, i);
        lemma_word_fits(before.len() as int, b as int, o);
        let (x, y) = (
            after.subrange(i * b, i * b + b),
            before.subrange(o * b, o * b + b),
        );
        assert forall|t: int| 0 <= t < b implies x[t] == y[t] by {
            let l = m * b + t;
            lemma_place(m, t, b as int, lanes as int);
            assert(i * b + t == k * row_len + l && o * b + t == j * row_len + l) by (nonlinear_arith)
                requires
                    i == k * lanes + m,
                    o == j * lanes + m,
                    l == m * b + t,
                    row_len == lanes * b,
            ;
            assert(entry(after, row_len, k, l) == entry(before, row_len, j, l));
        }
        assert(x =~= y);
    }
    assert forall|k: int, m: int| 0 <= k < size && 0 <= m < lanes implies #[trigger] entry(
        values::<F>(after),
        lanes,
        k,
        m,
    ) == entry(values::<F>(before), lanes, source(k, height, width), m) by {
        assert(entry(v, lanes, k, m) == entry(u, lanes, source(k, height, width), m));
    }
    assert forall|i: int| 0 <= i < count implies F::to_word(F::of_word(#[trigger] v[i])) == v[i] by {
        let n = lanes as int;
        assert(n > 0) by (nonlinear_arith)
            requires
                0 <= i < size * n,
                n >= 0,
        ;
        let (k, m) = (i / n, i % n);
        lemma_fundamental_div_mod(i, n);
        assert(n * k == k * n) by (nonlinear_arith);
        assert(0 <= k < size) by (nonlinear_arith)
            requires
                i == k * n + m,
                0 <= m < n,
                0 <= i < size * n,
        ;
        let o = source(k, height, width) * lanes + m;
        assert(entry(v, lanes, k, m) == u[o]);
        assert(0 <= o < count);
    }
}

/// What the passes of a four-step transform add up to.
proof fn lemma_steps<F: NttField>(
    v: Seq<F::Elem>,
    a: Seq<F::Elem>,
    b: Seq<F::Elem>,
    c: Seq<F::Elem>,
    d: Seq<F::Elem>,
    e: Seq<F::Elem>,
    z: Seq<F::Elem>,
    w: F::Elem,
    n: nat,
    l: int,
    short: nat,
    long: nat,
    k: int,
)
    requires
        0 < short,
        0 < long,
        0 <= l < n,
        0 <= k < short * long,
        F::valid(w),
        all_valid::<F>(v),
        v.len() == (short * long) * n,
        rpow::<F>(w, short * long) == F::rone(),
        forall|i: int, m: int|
            0 <= i < short * long && 0 <= m < n ==> #[trigger] entry(a, n, i, m) == entry(
                v,
                n,
                source(i, short as int, long as int),
                m,
            ),
        forall|g: int, i: int, m: int|
            0 <= g < long && 0 <= i < short && 0 <= m < n ==> #[trigger] group_entry(
                b,
                n,
                g,
                i,
                short,
                m,
            ) == dft::<F>(group_column(a, n, m, g, short), rpow::<F>(w, long), i as nat),
        forall|i: int, m: int|
            0 <= i < long * short && 0 <= m < n ==> #[trigger] entry(c, n, i, m) == F::rmul(
                entry(b, n, i, m),
                rpow::<F>(w, twist(i, short as int)),
            ),
        forall|i: int, m: int|
            0 <= i < long * short && 0 <= m < n ==> #[trigger] entry(d, n, i, m) == entry(
                c,
                n,
                source(i, long as int, short as int),
                m,
            ),
        forall|g: int, i: int, m: int|
            0 <= g < short && 0 <= i < long && 0 <= m < n ==> #[trigger] group_entry(
                e,
                n,
                g,
                i,
                long,
                m,
            ) == dft::<F>(group_column(d, n, m, g, long), rpow::<F>(w, short), i as nat),
        forall|i: int, m: int|
            0 <= i < short * long && 0 <= m < n ==> #[trigger] entry(z, n, i, m) == entry(
                e,
                n,
                source(i, short as int, long as int),
                m,
            ),
    ensures
        entry(z, n, k, l) == dft::<F>(column(v, n, l, short * long), w, k as nat),
{
    let (s, t) = (short as int, long as int);
    let size = short * long;
    let x = column(v, n, l, size);
    let (k1, k2) = (k % s, k / s);
    lemma_fundamental_div_mod(k, s);
    assert(s * k2 == k2 * s) by (nonlinear_arith);
    assert(t * s == s * t) by (nonlinear_arith);
    assert(0 <= k2 < t) by (nonlinear_arith)
        requires
            k == k2 * s + k1,
            0 <= k1 < s,
            0 <= k < s * t,
    ;
    assert forall|j: int| 0 <= j < x.len() implies F::valid(#[trigger] x[j]) by {
        lemma_place(j, l, n as int, size as int);
        assert(F::valid(v[j * n + l]));
    }
    law_four_step::<F>(x, w, short, long, k1 as nat, k2 as nat);
    lemma_source_of(k2, k1, s, t);
    assert(entry(z, n, k, l) == group_entry(e, n, k1, k2, long, l));
    let y = between::<F>(x, w, short, long, k1 as nat);
    let u = group_column(d, n, l, k1, long);
    assert forall|p: int| 0 <= p < long implies u[p] == y[p] by {
        lemma_source_of(k1, p, t, s);
        lemma_source_of(p, k1, s, t);
        let i = p * s + k1;
        assert(u[p] == entry(d, n, k1 * t + p, l));
        assert(u[p] == entry(c, n, i, l));
        lemma_fundamental_div_mod_converse(i, s, p, k1);
        assert(twist(i, s) == p * k1);
        assert(entry(b, n, i, l) == group_entry(b, n, p, k1, short, l));
        let g = group_column(a, n, l, p, short);
        let h = stride(x, short, long, p);
        assert forall|r: int| 0 <= r < short implies g[r] == h[r] by {
            lemma_source_of(p, r, s, t);
            lemma_place(r, p, t, s);
            assert(g[r] == entry(a, n, p * s + r, l));
            assert(h[r] == x[r * t + p]);
            assert(x[r * t + p] == entry(v, n, r * t + p, l));
        }
        assert(g =~= h);
        assert(y[p] == F::rmul(
            dft::<F>(h, rpow::<F>(w, long), k1 as nat),
            rpow::<F>(w, (p * k1) as nat),
        ));
    }
    assert(u =~= y);
    assert(k as nat == short * (k2 as nat) + k1 as nat);
}

/// A forward transform in four steps: short transforms, powers of the root,
/// long transforms, with transpositions between them.
#[derive(Clone, Debug)]
pub struct FourStepPlan<F: NttField> {
    size: usize,
    root: F::Elem,
    first: NttPlan<F>,
    second: NttPlan<F>,
}

/// The workspace of a four-step transform: a row temporary, and one flag per
/// point for the transpositions.
#[derive(Clone, Debug)]
pub struct FourStepScratch {
    work: NttScratch,
    transpose_bits: Vec<u8>,
}

impl FourStepScratch {
    /// The element width, in bytes, that the workspace was made for.
    pub closed spec fn width(self) -> usize {
        self.work.width()
    }

    /// The longest row, in bytes, that the workspace serves.
    pub closed spec fn capacity(self) -> usize {
        self.work.capacity()
    }

    /// The number of bytes of transposition flags.
    pub closed spec fn flags(self) -> nat {
        self.transpose_bits@.len()
    }

    /// Whether the row temporary is whole.
    pub closed spec fn wf(self) -> bool {
        self.work.wf()
    }
}

/// The bytes of flags that a transform of `size` points needs.
pub open spec fn flag_bytes(size: usize) -> int {
    (size + 7) / 8
}

/// The error of the geometry of a four-step call, or `None` if it can run.
pub open spec fn fourstep_error<F: NttField>(
    size: usize,
    buffer: nat,
    row_len: usize,
    scratch: FourStepScratch,
) -> Option<NttError> {
    let error = rows_error::<F>(size, buffer, row_len, scratch.width(), scratch.capacity());
    if error is Some {
        error
    } else if scratch.flags() < flag_bytes(size) {
        Some(
            NttError::ScratchTransposeTooSmall {
                required: flag_bytes(size) as usize,
                available: scratch.flags() as usize,
            },
        )
    } else {
        None
    }
}

/// A divisor of a supported size is supported, and its root is a power of the
/// root of the size.
proof fn lemma_subsize<F: NttField>(size: usize, part: usize, other: usize, dim: nat)
    requires
        size_error::<F>(size) is None,
        part == span(dim),
        other >= 1,
        size == part * other,
    ensures
        size_error::<F>(part) is None,
        root_of::<F>(part) == rpow::<F>(root_of::<F>(size), other as nat),
{
    F::lemma_generator();
    lemma_span_monotone(0, dim);
    let group = F::order() - 1;
    let q = group / size as int;
    assert(size >= 1) by (nonlinear_arith)
        requires
            size == part * other,
            part >= 1,
            other >= 1,
    ;
    lemma_fundamental_div_mod(group, size as int);
    assert(group == (q * other) * part) by (nonlinear_arith)
        requires
            group == size * q,
            size == part * other,
    ;
    lemma_fundamental_div_mod_converse(group, part as int, q * other, 0);
    assert(part <= size) by (nonlinear_arith)
        requires
            size == part * other,
            other >= 1,
    ;
    assert(q >= 0) by (nonlinear_arith)
        requires
            group == size * q,
            group >= 0,
            size >= 1,
    ;
    lemma_pow_product::<F>(F::generator(), q as nat, other as nat);
}

/// Whether the allocator refused room for a table of the plan of one of the two
/// factors of a size, of which one is the other or twice the other.
pub open spec fn parts_refused<F: NttField>(size: usize) -> bool {
    exists|part: usize|
        (part * part == size || 2 * (part * part) == size || part * part == 2 * size)
            && #[trigger] tables_refused::<F>(part)
}

/// The factors of a size by which the transform splits.
proof fn lemma_factor_shape(low: nat, high: nat, short: int, long: int)
    requires
        high == low || high == low + 1,
        short == span(low),
        long == span(high),
    ensures
        short * short == short * long || 2 * (short * short) == short * long,
        long * long == short * long || long * long == 2 * (short * long),
{
    if high == low + 1 {
        assert(long == 2 * short);
        assert(short * long == 2 * (short * short) && long * long == 2 * (short * long))
            by (nonlinear_arith)
            requires
                long == 2 * short,
        ;
    }
}

impl<F: NttField> FourStepPlan<F> {
    /// The number of points.
    pub closed spec fn points(self) -> usize {
        self.size
    }

    /// The root of unity of the transform.
    pub closed spec fn omega(self) -> F::Elem {
        self.root
    }

    /// Whether the two plans are those of the factors of the size.
    pub closed spec fn wf(self) -> bool {
        &&& self.first.wf()
        &&& self.second.wf()
        &&& self.first.points() >= 1
        &&& self.second.points() >= 1
        &&& self.size == self.first.points() * self.second.points()
        &&& F::valid(self.root)
        &&& rpow::<F>(self.root, self.size as nat) == F::rone()
        &&& self.first.omega() == rpow::<F>(self.root, self.second.points() as nat)
        &&& self.second.omega() == rpow::<F>(self.root, self.first.points() as nat)
    }

    /// A plan for a power-of-two number of points.
    ///
    /// For a supported size it rests on the machine whether there is room for the
    /// tables of the two plans.
    pub fn new(size: usize) -> (plan: Result<Self, NttError>)
        ensures
            size_error::<F>(size) matches Some(e) ==> plan == Err::<Self, NttError>(e),
            size_error::<F>(size) is None ==> (plan matches Err(e) ==> e
                == NttError::AllocationFailed),
            size_error::<F>(size) is None && plan is Err ==> parts_refused::<F>(size),
            plan matches Ok(p) ==> p.wf() && p.points() == size && p.omega() == root_of::<F>(size),
    {
        let (log_size, root) = match domain::<F>(size) {
            Ok(found) => found,
            Err(e) => {
                return Err(e);
            },
        };
        let low: usize = log_size / 2;
        let high: usize = log_size - low;
        proof {
            lemma_span_limits();
            lemma_span_monotone(low as nat, 20);
            lemma_span_monotone(high as nat, 20);
            lemma_span_monotone(0, low as nat);
            lemma_span_monotone(0, high as nat);
            lemma_span_add(low as nat, high as nat);
        }
        let short: usize = size_of_log(low) as usize;
        let long: usize = size_of_log(high) as usize;
        proof {
            assert(short * long == long * short) by (nonlinear_arith);
            lemma_subsize::<F>(size, short, long, low as nat);
            lemma_subsize::<F>(size, long, short, high as nat);
            law_root_is_primitive::<F>(size, log_size as nat);
            lemma_factor_shape(low as nat, high as nat, short as int, long as int);
        }
        let first = match NttPlan::<F>::new(short) {
            Ok(plan) => plan,
            Err(e) => {
                return Err(e);
            },
        };
        let second = match NttPlan::<F>::new(long) {
            Ok(plan) => plan,
            Err(e) => {
                return Err(e);
            },
        };
        Ok(FourStepPlan { size, root, first, second })
    }

    /// The number of points.
    pub fn size(&self) -> (n: usize)
        ensures
            n == self.points(),
    {
        self.size
    }

    /// The root of unity of the transform.
    pub fn root(&self) -> (w: F::Elem)
        ensures
            w == self.omega(),
    {
        self.root
    }

    /// The workspace for rows of up to `row_len` bytes.
    ///
    /// Up to `isize::MAX` bytes it rests on the machine whether there is room.
    pub fn scratch(&self, row_len: usize) -> (scratch: Result<FourStepScratch, NttError>)
        ensures
            scratch_error::<F>(row_len) matches Some(e) ==> scratch == Err::<
                FourStepScratch,
                NttError,
            >(e),
            scratch_error::<F>(row_len) is None ==> (scratch matches Err(e) ==> e
                == NttError::AllocationFailed),
            scratch_error::<F>(row_len) is None && scratch is Err ==> refused::<u8>(row_len)
                || refused::<u8>(flag_bytes(self.points()) as usize),
            scratch matches Ok(s) ==> s.wf() && s.capacity() == row_len && s.width()
                == F::code_bytes() && s.flags() == flag_bytes(self.points()),
    {
        let work = match self.first.scratch(row_len) {
            Ok(work) => work,
            Err(e) => {
                return Err(e);
            },
        };
        let flags: usize = bytes_of_flags(self.size);
        match zeroed(flags) {
            Ok(transpose_bits) => Ok(FourStepScratch { work, transpose_bits }),
            Err(e) => Err(e),
        }
    }

    /// The forward transform of `size` rows of `row_len` bytes, in place, with
    /// input and output in natural order.
    ///
    /// Nothing is written unless every check passes.
    pub fn forward_bytes_scratch(
        &self,
        rows: &mut [u8],
        row_len: usize,
        scratch: &mut FourStepScratch,
    ) -> (r: Result<(), NttError>)
        requires
            self.wf(),
            old(scratch).wf(),
        ensures
            ({
                let error = fourstep_error::<F>(
                    self.points(),
                    old(rows)@.len(),
                    row_len,
                    *old(scratch),
                );
                &&& r is Ok <==> error is None
                &&& r matches Err(e) ==> Some(e) == error && final(rows)@ == old(rows)@
                    && *final(scratch) == *old(scratch)
            }),
            r is Ok ==> rows_transformed::<F>(
                old(rows)@,
                final(rows)@,
                lanes_in::<F>(row_len),
                self.points() as nat,
                self.omega(),
            ),
            final(scratch).wf(),
            final(scratch).width() == old(scratch).width(),
            final(scratch).capacity() == old(scratch).capacity(),
            final(scratch).flags() == old(scratch).flags(),
            row_len > 0 && row_len as nat % F::code_bytes() == 0 && old(rows)@.len() == self.points()
                * row_len && old(scratch).width() == F::code_bytes() && old(scratch).capacity()
                >= row_len && 8 * old(scratch).flags() >= self.points() ==> r is Ok,
    {
        match validate_scratch::<F>(self.size, rows.len(), row_len, &scratch.work) {
            Err(e) => {
                return Err(e);
            },
            Ok(()) => {},
        }
        let flags: usize = bytes_of_flags(self.size);
        if scratch.transpose_bits.len() < flags {
            return Err(
                NttError::ScratchTransposeTooSmall {
                    required: flags,
                    available: scratch.transpose_bits.len(),
                },
            );
        }
        proof {
            lemma_geometry::<F>(self.size, rows@.len(), row_len);
        }
        let lanes: usize = row_len / F::element_bytes();
        let short: usize = self.first.size();
        let long: usize = self.second.size();
        let ghost before = values::<F>(rows@);
        let ghost n = lanes as nat;
        proof {
            lemma_values_valid::<F>(rows@);
        }
        let schedule = schedule_for(F::vectorized(), row_len);
        proof {
            assert(short * long == long * short) by (nonlinear_arith);
        }
        canonicalize::<F>(rows);
        let temp = scratch.work.head(row_len);
        let bits = scratch.transpose_bits.as_mut_slice();
        let ghost mixed = rows@;
        transpose_slots(rows, row_len, short, long, bits, temp);
        proof {
            lemma_transposed_values::<F>(mixed, rows@, row_len as nat, n, short as int, long as int);
        }
        let ghost a = values::<F>(rows@);
        group_transforms::<F>(&self.first, rows, lanes, long, schedule, temp);
        let ghost b = values::<F>(rows@);
        fourstep_twiddles::<F>(rows, lanes, long, short, self.root);
        let ghost c = values::<F>(rows@);
        let ghost mixed = rows@;
        transpose_slots(rows, row_len, long, short, bits, temp);
        proof {
            lemma_transposed_values::<F>(mixed, rows@, row_len as nat, n, long as int, short as int);
        }
        let ghost d = values::<F>(rows@);
        group_transforms::<F>(&self.second, rows, lanes, short, schedule, temp);
        let ghost e = values::<F>(rows@);
        let ghost mixed = rows@;
        transpose_slots(rows, row_len, short, long, bits, temp);
        proof {
            lemma_transposed_values::<F>(mixed, rows@, row_len as nat, n, short as int, long as int);
        }
        proof {
            let z = values::<F>(rows@);
            let size = self.size as nat;
            let (s, t) = (short as nat, long as nat);
            let w = self.root;
            assert forall|k: int, l: int| 0 <= k < size && 0 <= l < n implies #[trigger] entry(
                z,
                n,
                k,
                l,
            ) == dft::<F>(column(before, n, l, size), w, k as nat) by {
                lemma_steps::<F>(before, a, b, c, d, e, z, w, n, l, s, t, k);
            }
        }
        Ok(())
    }
}

/// The bytes of flags that a transform of `size` points needs.
fn bytes_of_flags(size: usize) -> (flags: usize)
    ensures
        flags == flag_bytes(size),
        size <= 8 * flags,
{
    if size % 8 == 0 {
        size / 8
    } else {
        size / 8 + 1
    }
}

} // verus!
