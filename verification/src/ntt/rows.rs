//! Rows of encoded elements, and the butterflies on them.

use vstd::prelude::*;

use crate::grid::{entry, lemma_place, lemma_row_order};
use crate::ntt::field::NttField;
use crate::ntt::ring::{all_valid, rsub};
use crate::words::{
    lemma_word_bound, lemma_words_concat, lemma_words_split, read_word, words, write_word,
};

verus! {

/// The elements that a buffer of whole elements stands for.
pub open spec fn values<F: NttField>(bytes: Seq<u8>) -> Seq<F::Elem> {
    Seq::new(bytes.len() / F::code_bytes(), |i: int| F::of_word(words(bytes, F::code_bytes())[i]))
}

/// A length in bytes of whole elements.
pub open spec fn full<F: NttField>(len: int) -> bool {
    len % (F::code_bytes() as int) == 0
}

/// Whether the first `n` words of a buffer are canonical.
pub open spec fn canonical_to<F: NttField>(bytes: Seq<u8>, n: int) -> bool {
    forall|i: int|
        0 <= i < n ==> F::to_word(F::of_word(#[trigger] words(bytes, F::code_bytes())[i])) == words(
            bytes,
            F::code_bytes(),
        )[i]
}

/// Whether every word of a buffer is canonical.
pub open spec fn canonical<F: NttField>(bytes: Seq<u8>) -> bool {
    canonical_to::<F>(bytes, values::<F>(bytes).len() as int)
}

pub proof fn lemma_code_bytes<F: NttField>()
    ensures
        1 <= F::code_bytes() <= 8,
{
    F::lemma_word(F::rzero(), 0);
}

pub proof fn lemma_values_valid<F: NttField>(bytes: Seq<u8>)
    ensures
        all_valid::<F>(values::<F>(bytes)),
{
    lemma_code_bytes::<F>();
    assert forall|i: int| 0 <= i < values::<F>(bytes).len() implies F::valid(
        #[trigger] values::<F>(bytes)[i],
    ) by {
        lemma_word_bound(bytes, F::code_bytes(), i);
        F::lemma_word(F::rzero(), words(bytes, F::code_bytes())[i]);
    }
}

/// The parts of a buffer split on an element boundary.
pub proof fn lemma_values_split<F: NttField>(bytes: Seq<u8>, mid: int)
    requires
        full::<F>(bytes.len() as int),
        full::<F>(mid),
        0 <= mid <= bytes.len(),
    ensures
        ({
            let k = mid / (F::code_bytes() as int);
            let s = values::<F>(bytes);
            let low = bytes.subrange(0, mid);
            let high = bytes.subrange(mid, bytes.len() as int);
            &&& 0 <= k <= s.len()
            &&& values::<F>(low) == s.subrange(0, k)
            &&& values::<F>(high) == s.subrange(k, s.len() as int)
            &&& full::<F>(bytes.len() - mid)
            &&& canonical::<F>(bytes) ==> canonical::<F>(low) && canonical::<F>(high)
        }),
{
    lemma_code_bytes::<F>();
    let w = F::code_bytes();
    lemma_words_split(bytes, w, mid);
    let k = mid / (w as int);
    let s = values::<F>(bytes);
    let low = bytes.subrange(0, mid);
    let high = bytes.subrange(mid, bytes.len() as int);
    assert(words(low, w).len() == k && words(high, w).len() == s.len() - k);
    assert(values::<F>(low) =~= s.subrange(0, k));
    assert(values::<F>(high) =~= s.subrange(k, s.len() as int));
    if canonical::<F>(bytes) {
        assert forall|i: int| 0 <= i < k implies F::to_word(
            F::of_word(#[trigger] words(low, w)[i]),
        ) == words(low, w)[i] by {
            assert(words(low, w)[i] == words(bytes, w)[i]);
        }
        assert forall|i: int| 0 <= i < s.len() - k implies F::to_word(
            F::of_word(#[trigger] words(high, w)[i]),
        ) == words(high, w)[i] by {
            assert(words(high, w)[i] == words(bytes, w)[i + k]);
        }
    }
}

/// The values of a concatenation.
pub proof fn lemma_values_concat<F: NttField>(a: Seq<u8>, b: Seq<u8>)
    requires
        full::<F>(a.len() as int),
        full::<F>(b.len() as int),
    ensures
        values::<F>(a + b) == values::<F>(a) + values::<F>(b),
        full::<F>((a + b).len() as int),
        canonical::<F>(a) && canonical::<F>(b) ==> canonical::<F>(a + b),
{
    lemma_code_bytes::<F>();
    let w = F::code_bytes();
    lemma_words_concat(a, b, w);
    let (u, v) = (words(a, w), words(b, w));
    assert(words(a + b, w).len() == u.len() + v.len());
    assert forall|i: int| 0 <= i < values::<F>(a + b).len() implies values::<F>(a + b)[i] == (
    values::<F>(a) + values::<F>(b))[i] by {
        assert(words(a + b, w)[i] == if i < u.len() {
            u[i]
        } else {
            v[i - u.len()]
        });
    }
    assert(values::<F>(a + b) =~= values::<F>(a) + values::<F>(b));
    if canonical::<F>(a) && canonical::<F>(b) {
        assert forall|i: int| 0 <= i < values::<F>(a + b).len() implies F::to_word(
            F::of_word(#[trigger] words(a + b, w)[i]),
        ) == words(a + b, w)[i] by {
            if i < u.len() {
                assert(words(a + b, w)[i] == u[i]);
            } else {
                assert(words(a + b, w)[i] == v[i - u.len()]);
            }
        }
    }
}

/// Canonical bytes are determined by their values.
pub proof fn lemma_canonical_injective<F: NttField>(a: Seq<u8>, b: Seq<u8>)
    requires
        a.len() == b.len(),
        full::<F>(a.len() as int),
        canonical::<F>(a),
        canonical::<F>(b),
        values::<F>(a) == values::<F>(b),
    ensures
        a == b,
{
    lemma_code_bytes::<F>();
    let w = F::code_bytes();
    assert forall|i: int| 0 <= i < words(a, w).len() implies words(a, w)[i] == words(b, w)[i] by {
        assert(values::<F>(a)[i] == F::of_word(words(a, w)[i]));
        assert(values::<F>(b)[i] == F::of_word(words(b, w)[i]));
    }
    assert(words(a, w) =~= words(b, w));
    crate::words::lemma_words_injective(a, b, w);
}

/// Decode the element with index `index`.
pub fn read_value<F: NttField>(bytes: &[u8], index: usize) -> (e: F::Elem)
    requires
        index < values::<F>(bytes@).len(),
    ensures
        e == values::<F>(bytes@)[index as int],
        F::valid(e),
{
    proof {
        lemma_code_bytes::<F>();
        lemma_word_bound(bytes@, F::code_bytes(), index as int);
        lemma_values_valid::<F>(bytes@);
        assert(F::valid(values::<F>(bytes@)[index as int]));
    }
    F::decode(read_word(bytes, F::element_bytes(), index))
}

/// Encode `e` as the element with index `index`.
pub fn write_value<F: NttField>(bytes: &mut [u8], index: usize, e: F::Elem)
    requires
        index < values::<F>(old(bytes)@).len(),
        full::<F>(old(bytes)@.len() as int),
        F::valid(e),
    ensures
        final(bytes)@.len() == old(bytes)@.len(),
        values::<F>(final(bytes)@) == values::<F>(old(bytes)@).update(index as int, e),
        forall|n: int| #[trigger]
            canonical_to::<F>(old(bytes)@, n) && n <= values::<F>(old(bytes)@).len() ==> canonical_to::<F>(
                final(bytes)@,
                if n == index {
                    n + 1
                } else {
                    n
                },
            ),
        canonical::<F>(old(bytes)@) ==> canonical::<F>(final(bytes)@),
{
    let ghost before = bytes@;
    let ghost w = F::code_bytes();
    proof {
        lemma_code_bytes::<F>();
        F::lemma_word(e, 0);
    }
    write_word(bytes, F::element_bytes(), index, F::encode(e));
    proof {
        let (u, v) = (words(before, w), words(bytes@, w));
        assert(values::<F>(bytes@) =~= values::<F>(before).update(index as int, e));
        assert forall|n: int| #[trigger]
            canonical_to::<F>(before, n) && n <= values::<F>(
                before,
            ).len() implies canonical_to::<F>(
            bytes@,
            if n == index {
                n + 1
            } else {
                n
            },
        ) by {
            assert forall|i: int| 0 <= i < n || i == index implies F::to_word(
                F::of_word(#[trigger] v[i]),
            ) == v[i] by {
                if i != index {
                    assert(v[i] == u[i]);
                }
            }
        }
    }
}

/// Bring every word into canonical form.
pub fn canonicalize<F: NttField>(rows: &mut [u8])
    requires
        full::<F>(old(rows)@.len() as int),
    ensures
        final(rows)@.len() == old(rows)@.len(),
        values::<F>(final(rows)@) == values::<F>(old(rows)@),
        canonical::<F>(final(rows)@),
{
    let ghost before = rows@;
    proof {
        lemma_code_bytes::<F>();
    }
    if F::binary() {
        proof {
            let w = F::code_bytes();
            assert forall|i: int| 0 <= i < words(before, w).len() implies F::to_word(
                F::of_word(#[trigger] words(before, w)[i]),
            ) == words(before, w)[i] by {
                lemma_word_bound(before, w, i);
            }
        }
        return ;
    }
    let count: usize = rows.len() / F::element_bytes();
    let mut i: usize = 0;
    while i < count
        invariant
            i <= count,
            full::<F>(before.len() as int),
            rows@.len() == before.len(),
            values::<F>(rows@) == values::<F>(before),
            values::<F>(before).len() == count,
            canonical_to::<F>(rows@, i as int),
        decreases count - i,
    {
        let e = read_value::<F>(rows, i);
        proof {
            assert(values::<F>(before).update(i as int, e) =~= values::<F>(before));
        }
        write_value::<F>(rows, i, e);
        i = i + 1;
    }
}

/// One butterfly on `lanes` neighbouring elements, each pair held in registers.
fn fused_pair<F: NttField>(
    low: &mut [u8],
    high: &mut [u8],
    start: usize,
    lanes: usize,
    twiddle: F::Elem,
)
    requires
        full::<F>(old(low)@.len() as int),
        old(low)@.len() == old(high)@.len(),
        start + lanes <= values::<F>(old(low)@).len(),
        F::valid(twiddle),
        canonical::<F>(old(low)@),
        canonical::<F>(old(high)@),
    ensures
        pair_done::<F>(old(low)@, old(high)@, final(low)@, final(high)@, start as int, lanes as int, twiddle),
{
    let ghost (a, b) = (low@, high@);
    let one = F::one();
    let trivial = F::same(twiddle, one);
    proof {
        lemma_code_bytes::<F>();
        lemma_values_valid::<F>(a);
        lemma_values_valid::<F>(b);
    }
    let count: usize = low.len() / F::element_bytes();
    let mut l: usize = 0;
    while l < lanes
        invariant
            l <= lanes,
            start + lanes <= count,
            values::<F>(a).len() == count,
            values::<F>(low@).len() == count,
            values::<F>(high@).len() == count,
            full::<F>(a.len() as int),
            a.len() == b.len(),
            start + lanes <= values::<F>(a).len(),
            F::valid(twiddle),
            trivial == (twiddle == F::rone()),
            all_valid::<F>(values::<F>(a)),
            all_valid::<F>(values::<F>(b)),
            pair_done::<F>(a, b, low@, high@, start as int, l as int, twiddle),
        decreases lanes - l,
    {
        proof {
            lemma_code_bytes::<F>();
        }
        let at: usize = start + l;
        let u = read_value::<F>(low, at);
        let v = read_value::<F>(high, at);
        proof {
            F::lemma_ring(v, twiddle, u);
        }
        let w = if trivial {
            v
        } else {
            F::times(v, twiddle)
        };
        proof {
            F::lemma_ring(w, u, u);
            F::lemma_ring(u, w, u);
            F::lemma_ring(u, F::rneg(w), u);
        }
        let ghost (c, d) = (low@, high@);
        write_value::<F>(low, at, F::plus(u, w));
        write_value::<F>(high, at, F::minus(u, w));
        l = l + 1;
        proof {
            let (x, y) = (values::<F>(a), values::<F>(b));
            assert(values::<F>(c)[at as int] == x[at as int]);
            assert(values::<F>(d)[at as int] == y[at as int]);
            assert(w == F::rmul(v, twiddle));
            assert forall|i: int| 0 <= i < x.len() implies #[trigger] values::<F>(low@)[i] == (
            if start <= i < start + l {
                F::radd(x[i], F::rmul(y[i], twiddle))
            } else {
                x[i]
            }) by {
                if i != at {
                    assert(values::<F>(low@)[i] == values::<F>(c)[i]);
                }
            }
            assert forall|i: int| 0 <= i < y.len() implies #[trigger] values::<F>(high@)[i] == (
            if start <= i < start + l {
                rsub::<F>(x[i], F::rmul(y[i], twiddle))
            } else {
                y[i]
            }) by {
                if i != at {
                    assert(values::<F>(high@)[i] == values::<F>(d)[i]);
                }
            }
        }
    }
}

/// Whether a butterfly took the `lanes` elements from `start` on of two
/// buffers, and nothing else, to their sum and difference.
pub open spec fn pair_done<F: NttField>(
    low: Seq<u8>,
    high: Seq<u8>,
    new_low: Seq<u8>,
    new_high: Seq<u8>,
    start: int,
    lanes: int,
    twiddle: F::Elem,
) -> bool {
    let a = values::<F>(low);
    let b = values::<F>(high);
    let c = values::<F>(new_low);
    let d = values::<F>(new_high);
    &&& new_low.len() == low.len()
    &&& new_high.len() == high.len()
    &&& canonical::<F>(new_low)
    &&& canonical::<F>(new_high)
    &&& forall|i: int|
        0 <= i < a.len() ==> #[trigger] c[i] == if start <= i < start + lanes {
            F::radd(a[i], F::rmul(b[i], twiddle))
        } else {
            a[i]
        }
    &&& forall|i: int|
        0 <= i < b.len() ==> #[trigger] d[i] == if start <= i < start + lanes {
            rsub::<F>(a[i], F::rmul(b[i], twiddle))
        } else {
            b[i]
        }
}

/// Multiply `lanes` elements from `start` on by `factor` into the head of `temp`.
fn scale_run<F: NttField>(
    temp: &mut [u8],
    source: &[u8],
    start: usize,
    lanes: usize,
    factor: F::Elem,
)
    requires
        full::<F>(old(temp)@.len() as int),
        lanes <= values::<F>(old(temp)@).len(),
        start + lanes <= values::<F>(source@).len(),
        F::valid(factor),
    ensures
        final(temp)@.len() == old(temp)@.len(),
        forall|i: int|
            0 <= i < lanes ==> #[trigger] values::<F>(final(temp)@)[i] == F::rmul(
                values::<F>(source@)[start + i],
                factor,
            ),
{
    let ghost before = temp@;
    let ghost from = values::<F>(source@);
    proof {
        lemma_code_bytes::<F>();
    }
    let count: usize = source.len() / F::element_bytes();
    let mut l: usize = 0;
    while l < lanes
        invariant
            l <= lanes,
            full::<F>(before.len() as int),
            temp@.len() == before.len(),
            lanes <= values::<F>(before).len(),
            start + lanes <= count,
            from == values::<F>(source@),
            from.len() == count,
            F::valid(factor),
            forall|i: int|
                0 <= i < l ==> #[trigger] values::<F>(temp@)[i] == F::rmul(from[start + i], factor),
        decreases lanes - l,
    {
        proof {
            lemma_code_bytes::<F>();
        }
        let e = read_value::<F>(source, start + l);
        proof {
            F::lemma_ring(e, factor, e);
        }
        write_value::<F>(temp, l, F::times(e, factor));
        l = l + 1;
    }
}

/// Copy `lanes` elements from `start` on to the same place of another buffer.
fn copy_run<F: NttField>(target: &mut [u8], source: &[u8], start: usize, lanes: usize)
    requires
        full::<F>(old(target)@.len() as int),
        old(target)@.len() == source@.len(),
        start + lanes <= values::<F>(source@).len(),
        canonical::<F>(old(target)@),
    ensures
        final(target)@.len() == old(target)@.len(),
        canonical::<F>(final(target)@),
        forall|i: int|
            0 <= i < values::<F>(source@).len() ==> #[trigger] values::<F>(final(target)@)[i] == if start
                <= i < start + lanes {
                values::<F>(source@)[i]
            } else {
                values::<F>(old(target)@)[i]
            },
{
    let ghost before = values::<F>(target@);
    let ghost from = values::<F>(source@);
    proof {
        lemma_code_bytes::<F>();
    }
    let count: usize = source.len() / F::element_bytes();
    let mut l: usize = 0;
    while l < lanes
        invariant
            l <= lanes,
            full::<F>(target@.len() as int),
            target@.len() == source@.len(),
            start + lanes <= count,
            from == values::<F>(source@),
            from.len() == count,
            canonical::<F>(target@),
            forall|i: int|
                0 <= i < count ==> #[trigger] values::<F>(target@)[i] == if start <= i < start + l {
                    from[i]
                } else {
                    before[i]
                },
        decreases lanes - l,
    {
        proof {
            lemma_code_bytes::<F>();
        }
        let e = read_value::<F>(source, start + l);
        write_value::<F>(target, start + l, e);
        l = l + 1;
    }
}

/// Add the head of `temp` to, or subtract it from, `lanes` elements from
/// `start` on.
fn add_run<F: NttField>(
    target: &mut [u8],
    temp: &[u8],
    start: usize,
    lanes: usize,
    negate: bool,
)
    requires
        full::<F>(old(target)@.len() as int),
        start + lanes <= values::<F>(old(target)@).len(),
        lanes <= values::<F>(temp@).len(),
        canonical::<F>(old(target)@),
    ensures
        final(target)@.len() == old(target)@.len(),
        canonical::<F>(final(target)@),
        forall|i: int|
            0 <= i < values::<F>(old(target)@).len() ==> #[trigger] values::<F>(final(target)@)[i]
                == if start <= i < start + lanes {
                if negate {
                    rsub::<F>(values::<F>(old(target)@)[i], values::<F>(temp@)[i - start])
                } else {
                    F::radd(values::<F>(old(target)@)[i], values::<F>(temp@)[i - start])
                }
            } else {
                values::<F>(old(target)@)[i]
            },
{
    let ghost len = target@.len();
    let ghost before = values::<F>(target@);
    let ghost by = values::<F>(temp@);
    proof {
        lemma_code_bytes::<F>();
    }
    let count: usize = target.len() / F::element_bytes();
    let mut l: usize = 0;
    while l < lanes
        invariant
            l <= lanes,
            full::<F>(len as int),
            target@.len() == len,
            before.len() == count,
            values::<F>(target@).len() == count,
            start + lanes <= count,
            by == values::<F>(temp@),
            lanes <= by.len(),
            canonical::<F>(target@),
            forall|i: int|
                0 <= i < count ==> #[trigger] values::<F>(target@)[i] == if start <= i < start + l {
                    if negate {
                        rsub::<F>(before[i], by[i - start])
                    } else {
                        F::radd(before[i], by[i - start])
                    }
                } else {
                    before[i]
                },
        decreases lanes - l,
    {
        proof {
            lemma_code_bytes::<F>();
        }
        let u = read_value::<F>(target, start + l);
        let v = read_value::<F>(temp, l);
        proof {
            F::lemma_ring(v, u, u);
            F::lemma_ring(u, v, u);
            F::lemma_ring(u, F::rneg(v), u);
        }
        let sum = if negate {
            F::minus(u, v)
        } else {
            F::plus(u, v)
        };
        write_value::<F>(target, start + l, sum);
        l = l + 1;
    }
}

/// The butterfly of [`fused_pair`] as whole-row operations through a temporary.
fn packed_pair<F: NttField>(
    low: &mut [u8],
    high: &mut [u8],
    start: usize,
    lanes: usize,
    twiddle: F::Elem,
    temp: &mut [u8],
)
    requires
        full::<F>(old(low)@.len() as int),
        old(low)@.len() == old(high)@.len(),
        start + lanes <= values::<F>(old(low)@).len(),
        F::valid(twiddle),
        canonical::<F>(old(low)@),
        canonical::<F>(old(high)@),
        full::<F>(old(temp)@.len() as int),
        lanes <= values::<F>(old(temp)@).len(),
    ensures
        pair_done::<F>(
            old(low)@,
            old(high)@,
            final(low)@,
            final(high)@,
            start as int,
            lanes as int,
            twiddle,
        ),
        final(temp)@.len() == old(temp)@.len(),
{
    proof {
        lemma_code_bytes::<F>();
    }
    scale_run::<F>(temp, high, start, lanes, twiddle);
    copy_run::<F>(high, low, start, lanes);
    add_run::<F>(high, temp, start, lanes, true);
    add_run::<F>(low, temp, start, lanes, false);
}

/// Which of the equivalent forms the butterflies take.
#[derive(Clone, Copy, Debug, PartialEq, Eq, Structural)]
pub enum Schedule {
    /// Each pair of elements held in registers.
    Fused,
    /// Whole-row operations through a temporary row.
    Packed,
    /// Passes over a whole half: every product first, then every sum and
    /// difference.
    Batched,
}

/// Multiply `lanes` elements from `start` on by `factor`, in place.
fn scale_in_place<F: NttField>(target: &mut [u8], start: usize, lanes: usize, factor: F::Elem)
    requires
        full::<F>(old(target)@.len() as int),
        start + lanes <= values::<F>(old(target)@).len(),
        canonical::<F>(old(target)@),
        F::valid(factor),
    ensures
        final(target)@.len() == old(target)@.len(),
        canonical::<F>(final(target)@),
        forall|i: int|
            0 <= i < values::<F>(old(target)@).len() ==> #[trigger] values::<F>(final(target)@)[i]
                == if start <= i < start + lanes {
                F::rmul(values::<F>(old(target)@)[i], factor)
            } else {
                values::<F>(old(target)@)[i]
            },
{
    let ghost len = target@.len();
    let ghost before = values::<F>(target@);
    proof {
        lemma_code_bytes::<F>();
    }
    let count: usize = target.len() / F::element_bytes();
    let mut l: usize = 0;
    while l < lanes
        invariant
            l <= lanes,
            full::<F>(len as int),
            target@.len() == len,
            before.len() == count,
            values::<F>(target@).len() == count,
            start + lanes <= count,
            canonical::<F>(target@),
            F::valid(factor),
            forall|i: int|
                0 <= i < count ==> #[trigger] values::<F>(target@)[i] == if start <= i < start + l {
                    F::rmul(before[i], factor)
                } else {
                    before[i]
                },
        decreases lanes - l,
    {
        proof {
            lemma_code_bytes::<F>();
        }
        let e = read_value::<F>(target, start + l);
        proof {
            F::lemma_ring(e, factor, e);
        }
        write_value::<F>(target, start + l, F::times(e, factor));
        l = l + 1;
    }
}

/// Multiply every row of a half by its own factor.
fn scale_region<F: NttField>(
    region: &mut [u8],
    half: usize,
    lanes: usize,
    factors: &[F::Elem],
    base: usize,
)
    requires
        full::<F>(old(region)@.len() as int),
        half * lanes == values::<F>(old(region)@).len(),
        base + half <= factors@.len(),
        all_valid::<F>(factors@),
        canonical::<F>(old(region)@),
    ensures
        final(region)@.len() == old(region)@.len(),
        canonical::<F>(final(region)@),
        forall|k: int, l: int|
            0 <= k < half && 0 <= l < lanes ==> #[trigger] entry(
                values::<F>(final(region)@),
                lanes as nat,
                k,
                l,
            ) == F::rmul(
                entry(values::<F>(old(region)@), lanes as nat, k, l),
                factors@[base + k],
            ),
{
    let ghost len = region@.len();
    let ghost b = values::<F>(region@);
    let entries: usize = factors.len();
    proof {
        lemma_code_bytes::<F>();
    }
    let count: usize = region.len() / F::element_bytes();
    let mut o: usize = 0;
    while o < half
        invariant
            o <= half,
            half * lanes == count,
            b.len() == count,
            full::<F>(len as int),
            region@.len() == len,
            values::<F>(region@).len() == count,
            base + half <= entries,
            entries == factors@.len(),
            all_valid::<F>(factors@),
            canonical::<F>(region@),
            forall|k: int, l: int|
                0 <= k < half && 0 <= l < lanes ==> #[trigger] entry(
                    values::<F>(region@),
                    lanes as nat,
                    k,
                    l,
                ) == if k < o {
                    F::rmul(entry(b, lanes as nat, k, l), factors@[base + k])
                } else {
                    entry(b, lanes as nat, k, l)
                },
        decreases half - o,
    {
        let ghost d = region@;
        proof {
            lemma_code_bytes::<F>();
            assert(0 <= o * lanes && o * lanes + lanes <= count) by (nonlinear_arith)
                requires
                    0 <= o < half,
                    half * lanes == count,
                    lanes >= 0,
            ;
        }
        let factor = factors[base + o];
        let start: usize = o * lanes;
        assert(F::valid(factor));
        scale_in_place::<F>(region, start, lanes, factor);
        proof {
            assert forall|k: int, l: int| 0 <= k < half && 0 <= l < lanes implies #[trigger] entry(
                values::<F>(region@),
                lanes as nat,
                k,
                l,
            ) == (if k < o + 1 {
                F::rmul(entry(b, lanes as nat, k, l), factors@[base + k])
            } else {
                entry(b, lanes as nat, k, l)
            }) by {
                let i = k * lanes + l;
                lemma_place(k, l, lanes as int, half as int);
                lemma_row_order(k, o as int, l, lanes as int);
                assert(0 <= i < count && (start <= i < start + lanes <==> k == o));
                assert(entry(values::<F>(d), lanes as nat, k, l) == values::<F>(d)[i]);
            }
        }
        o = o + 1;
    }
}

/// The stage of [`stage_pass`] as two passes over the halves.
fn batched_pass<F: NttField>(
    low: &mut [u8],
    high: &mut [u8],
    half: usize,
    lanes: usize,
    twiddles: &[F::Elem],
    base: usize,
)
    requires
        full::<F>(old(low)@.len() as int),
        old(low)@.len() == old(high)@.len(),
        half * lanes == values::<F>(old(low)@).len(),
        base + half <= twiddles@.len(),
        all_valid::<F>(twiddles@),
        canonical::<F>(old(low)@),
        canonical::<F>(old(high)@),
    ensures
        final(low)@.len() == old(low)@.len(),
        final(high)@.len() == old(high)@.len(),
        canonical::<F>(final(low)@),
        canonical::<F>(final(high)@),
        forall|k: int, l: int|
            0 <= k < half && 0 <= l < lanes ==> #[trigger] entry(
                values::<F>(final(low)@),
                lanes as nat,
                k,
                l,
            ) == F::radd(
                entry(values::<F>(old(low)@), lanes as nat, k, l),
                F::rmul(entry(values::<F>(old(high)@), lanes as nat, k, l), twiddles@[base + k]),
            ),
        forall|k: int, l: int|
            0 <= k < half && 0 <= l < lanes ==> #[trigger] entry(
                values::<F>(final(high)@),
                lanes as nat,
                k,
                l,
            ) == rsub::<F>(
                entry(values::<F>(old(low)@), lanes as nat, k, l),
                F::rmul(entry(values::<F>(old(high)@), lanes as nat, k, l), twiddles@[base + k]),
            ),
{
    let ghost a = values::<F>(low@);
    proof {
        lemma_code_bytes::<F>();
    }
    scale_region::<F>(high, half, lanes, twiddles, base);
    let ghost t = values::<F>(high@);
    proof {
        lemma_code_bytes::<F>();
        lemma_values_valid::<F>(high@);
        F::lemma_units();
    }
    let count: usize = low.len() / F::element_bytes();
    fused_pair::<F>(low, high, 0, count, F::one());
    proof {
        assert forall|k: int, l: int| 0 <= k < half && 0 <= l < lanes implies entry(
            values::<F>(low@),
            lanes as nat,
            k,
            l,
        ) == F::radd(entry(a, lanes as nat, k, l), entry(t, lanes as nat, k, l)) && entry(
            values::<F>(high@),
            lanes as nat,
            k,
            l,
        ) == rsub::<F>(entry(a, lanes as nat, k, l), entry(t, lanes as nat, k, l)) by {
            let i = k * lanes + l;
            lemma_place(k, l, lanes as int, half as int);
            assert(0 <= i < count);
            assert(F::valid(t[i]));
            F::lemma_ring(t[i], t[i], t[i]);
            assert(entry(t, lanes as nat, k, l) == t[i]);
            assert(entry(a, lanes as nat, k, l) == a[i]);
            assert(entry(values::<F>(low@), lanes as nat, k, l) == values::<F>(low@)[i]);
            assert(entry(values::<F>(high@), lanes as nat, k, l) == values::<F>(high@)[i]);
        }
    }
}

/// One stage over two halves: the butterfly of every row of `low` with the row
/// of `high` across from it.
pub(crate) fn stage_pass<F: NttField>(
    low: &mut [u8],
    high: &mut [u8],
    half: usize,
    lanes: usize,
    twiddles: &[F::Elem],
    base: usize,
    schedule: Schedule,
    temp: &mut [u8],
)
    requires
        full::<F>(old(low)@.len() as int),
        old(low)@.len() == old(high)@.len(),
        half * lanes == values::<F>(old(low)@).len(),
        base + half <= twiddles@.len(),
        all_valid::<F>(twiddles@),
        canonical::<F>(old(low)@),
        canonical::<F>(old(high)@),
        full::<F>(old(temp)@.len() as int),
        lanes <= values::<F>(old(temp)@).len(),
    ensures
        final(low)@.len() == old(low)@.len(),
        final(high)@.len() == old(high)@.len(),
        canonical::<F>(final(low)@),
        canonical::<F>(final(high)@),
        final(temp)@.len() == old(temp)@.len(),
        forall|k: int, l: int|
            0 <= k < half && 0 <= l < lanes ==> #[trigger] entry(
                values::<F>(final(low)@),
                lanes as nat,
                k,
                l,
            ) == F::radd(
                entry(values::<F>(old(low)@), lanes as nat, k, l),
                F::rmul(entry(values::<F>(old(high)@), lanes as nat, k, l), twiddles@[base + k]),
            ),
        forall|k: int, l: int|
            0 <= k < half && 0 <= l < lanes ==> #[trigger] entry(
                values::<F>(final(high)@),
                lanes as nat,
                k,
                l,
            ) == rsub::<F>(
                entry(values::<F>(old(low)@), lanes as nat, k, l),
                F::rmul(entry(values::<F>(old(high)@), lanes as nat, k, l), twiddles@[base + k]),
            ),
{
    if schedule == Schedule::Batched {
        batched_pass::<F>(low, high, half, lanes, twiddles, base);
        return ;
    }
    let ghost (len, room) = (low@.len(), temp@.len());
    let ghost a = values::<F>(low@);
    let ghost b = values::<F>(high@);
    let entries: usize = twiddles.len();
    proof {
        lemma_code_bytes::<F>();
    }
    let count: usize = low.len() / F::element_bytes();
    let mut o: usize = 0;
    while o < half
        invariant
            o <= half,
            half * lanes == count,
            a.len() == count,
            b.len() == count,
            full::<F>(len as int),
            low@.len() == len,
            high@.len() == len,
            values::<F>(low@).len() == count,
            values::<F>(high@).len() == count,
            base + half <= entries,
            entries == twiddles@.len(),
            all_valid::<F>(twiddles@),
            canonical::<F>(low@),
            canonical::<F>(high@),
            full::<F>(room as int),
            temp@.len() == room,
            lanes <= values::<F>(temp@).len(),
            forall|k: int, l: int|
                0 <= k < half && 0 <= l < lanes ==> #[trigger] entry(
                    values::<F>(low@),
                    lanes as nat,
                    k,
                    l,
                ) == if k < o {
                    F::radd(
                        entry(a, lanes as nat, k, l),
                        F::rmul(entry(b, lanes as nat, k, l), twiddles@[base + k]),
                    )
                } else {
                    entry(a, lanes as nat, k, l)
                },
            forall|k: int, l: int|
                0 <= k < half && 0 <= l < lanes ==> #[trigger] entry(
                    values::<F>(high@),
                    lanes as nat,
                    k,
                    l,
                ) == if k < o {
                    rsub::<F>(
                        entry(a, lanes as nat, k, l),
                        F::rmul(entry(b, lanes as nat, k, l), twiddles@[base + k]),
                    )
                } else {
                    entry(b, lanes as nat, k, l)
                },
        decreases half - o,
    {
        let ghost (c, d) = (low@, high@);
        proof {
            lemma_code_bytes::<F>();
            assert(0 <= o * lanes && o * lanes + lanes <= count) by (nonlinear_arith)
                requires
                    0 <= o < half,
                    half * lanes == count,
                    lanes >= 0,
            ;
        }
        let twiddle = twiddles[base + o];
        let start: usize = o * lanes;
        assert(F::valid(twiddle));
        if schedule == Schedule::Fused {
            fused_pair::<F>(low, high, start, lanes, twiddle);
        } else {
            packed_pair::<F>(low, high, start, lanes, twiddle, temp);
        }
        proof {
            assert forall|k: int, l: int| 0 <= k < half && 0 <= l < lanes implies #[trigger] entry(
                values::<F>(low@),
                lanes as nat,
                k,
                l,
            ) == (if k < o + 1 {
                F::radd(
                    entry(a, lanes as nat, k, l),
                    F::rmul(entry(b, lanes as nat, k, l), twiddles@[base + k]),
                )
            } else {
                entry(a, lanes as nat, k, l)
            }) by {
                let i = k * lanes + l;
                lemma_place(k, l, lanes as int, half as int);
                lemma_row_order(k, o as int, l, lanes as int);
                assert(0 <= i < count && (start <= i < start + lanes <==> k == o));
                assert(entry(values::<F>(c), lanes as nat, k, l) == values::<F>(c)[i]);
                assert(entry(values::<F>(d), lanes as nat, k, l) == values::<F>(d)[i]);
            }
            assert forall|k: int, l: int| 0 <= k < half && 0 <= l < lanes implies #[trigger] entry(
                values::<F>(high@),
                lanes as nat,
                k,
                l,
            ) == (if k < o + 1 {
                rsub::<F>(
                    entry(a, lanes as nat, k, l),
                    F::rmul(entry(b, lanes as nat, k, l), twiddles@[base + k]),
                )
            } else {
                entry(b, lanes as nat, k, l)
            }) by {
                let i = k * lanes + l;
                lemma_place(k, l, lanes as int, half as int);
                lemma_row_order(k, o as int, l, lanes as int);
                assert(0 <= i < count && (start <= i < start + lanes <==> k == o));
                assert(entry(values::<F>(c), lanes as nat, k, l) == values::<F>(c)[i]);
                assert(entry(values::<F>(d), lanes as nat, k, l) == values::<F>(d)[i]);
            }
        }
        o = o + 1;
    }
}

/// Swap two rows.
pub(crate) fn swap_values<F: NttField>(
    rows: &mut [u8],
    first: usize,
    second: usize,
    lanes: usize,
    size: usize,
)
    requires
        full::<F>(old(rows)@.len() as int),
        values::<F>(old(rows)@).len() == size * lanes,
        first < size,
        second < size,
        first != second,
        canonical::<F>(old(rows)@),
    ensures
        final(rows)@.len() == old(rows)@.len(),
        canonical::<F>(final(rows)@),
        forall|k: int, l: int|
            0 <= k < size && 0 <= l < lanes ==> #[trigger] entry(
                values::<F>(final(rows)@),
                lanes as nat,
                k,
                l,
            ) == entry(
                values::<F>(old(rows)@),
                lanes as nat,
                if k == first {
                    second as int
                } else if k == second {
                    first as int
                } else {
                    k
                },
                l,
            ),
{
    let ghost len = rows@.len();
    let ghost v = values::<F>(rows@);
    proof {
        lemma_code_bytes::<F>();
    }
    let count: usize = rows.len() / F::element_bytes();
    let mut l: usize = 0;
    while l < lanes
        invariant
            l <= lanes,
            first < size,
            second < size,
            first != second,
            count == size * lanes,
            v.len() == count,
            rows@.len() == len,
            full::<F>(len as int),
            values::<F>(rows@).len() == count,
            canonical::<F>(rows@),
            forall|k: int, m: int|
                0 <= k < size && 0 <= m < lanes ==> #[trigger] entry(
                    values::<F>(rows@),
                    lanes as nat,
                    k,
                    m,
                ) == entry(
                    v,
                    lanes as nat,
                    if k == first && m < l {
                        second as int
                    } else if k == second && m < l {
                        first as int
                    } else {
                        k
                    },
                    m,
                ),
        decreases lanes - l,
    {
        let ghost before = values::<F>(rows@);
        proof {
            lemma_code_bytes::<F>();
            lemma_place(first as int, l as int, lanes as int, size as int);
            lemma_place(second as int, l as int, lanes as int, size as int);
            lemma_row_order(first as int, second as int, l as int, lanes as int);
            assert(0 <= first * lanes && 0 <= second * lanes) by (nonlinear_arith)
                requires
                    first >= 0,
                    second >= 0,
                    lanes >= 0,
            ;
        }
        let x: usize = first * lanes + l;
        let y: usize = second * lanes + l;
        let a = read_value::<F>(rows, x);
        let b = read_value::<F>(rows, y);
        proof {
            assert(a == entry(before, lanes as nat, first as int, l as int));
            assert(b == entry(before, lanes as nat, second as int, l as int));
        }
        write_value::<F>(rows, x, b);
        write_value::<F>(rows, y, a);
        proof {
            let n = lanes as nat;
            let after = values::<F>(rows@);
            assert forall|k: int, m: int| 0 <= k < size && 0 <= m < lanes implies #[trigger] entry(
                after,
                n,
                k,
                m,
            ) == entry(
                v,
                n,
                if k == first && m < l + 1 {
                    second as int
                } else if k == second && m < l + 1 {
                    first as int
                } else {
                    k
                },
                m,
            ) by {
                lemma_place(k, m, lanes as int, size as int);
                lemma_row_order(k, first as int, m, lanes as int);
                lemma_row_order(k, second as int, m, lanes as int);
                assert(entry(before, n, k, m) == before[k * lanes + m]);
            }
        }
        l = l + 1;
    }
}

} // verus!
