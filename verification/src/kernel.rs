//! Row kernels: fused butterflies and scaled sums over packed byte rows.
//!
//! A butterfly couples two equal-length halves with one coefficient `c`:
//! forward, `low' = low + c * high` and `high' = low' + high`; the inverse
//! undoes it. Both act on every packed element independently.

use vstd::prelude::*;
use vstd::string::*;

use crate::field::{
    fadd, fmul, fzero, is_one, is_zero, lemma_add, lemma_mul, plus, times, BinaryField, FanPaar16,
    FanPaar32, FanPaar64, FanPaar8, Gf16, Gf32, Gf64, Gf8B, Gf8D,
};
use crate::pack::{
    elem_bytes, lemma_elem_bytes, lemma_unpack_concat, read_elem, unpack, whole, write_elem,
};
use crate::grid::{entry, lemma_place, lemma_row_order};
use crate::tables::TierButterflies;
use crate::words::lemma_whole_parts;

verus! {

/// The elementwise sum of two vectors.
pub open spec fn vadd<F: BinaryField>(a: Seq<F::Elem>, b: Seq<F::Elem>) -> Seq<F::Elem> {
    Seq::new(a.len(), |i: int| fadd::<F>(a[i], b[i]))
}

/// The vector `c * b`.
pub open spec fn vscale<F: BinaryField>(c: F::Elem, b: Seq<F::Elem>) -> Seq<F::Elem> {
    Seq::new(b.len(), |i: int| fmul::<F>(c, b[i]))
}

/// The vector `a + c * b`.
pub open spec fn axpy<F: BinaryField>(a: Seq<F::Elem>, c: F::Elem, b: Seq<F::Elem>) -> Seq<
    F::Elem,
> {
    Seq::new(a.len(), |i: int| fadd::<F>(a[i], fmul::<F>(c, b[i])))
}

/// The zero vector of length `n`.
pub open spec fn vzero<F: BinaryField>(n: nat) -> Seq<F::Elem> {
    Seq::new(n, |i: int| fzero::<F>())
}

/// The low output of the forward butterfly.
pub open spec fn forward_low<F: BinaryField>(
    low: Seq<F::Elem>,
    high: Seq<F::Elem>,
    c: F::Elem,
) -> Seq<F::Elem> {
    axpy::<F>(low, c, high)
}

/// The high output of the forward butterfly.
pub open spec fn forward_high<F: BinaryField>(
    low: Seq<F::Elem>,
    high: Seq<F::Elem>,
    c: F::Elem,
) -> Seq<F::Elem> {
    vadd::<F>(axpy::<F>(low, c, high), high)
}

/// The high output of the inverse butterfly.
pub open spec fn inverse_high<F: BinaryField>(low: Seq<F::Elem>, high: Seq<F::Elem>) -> Seq<
    F::Elem,
> {
    vadd::<F>(low, high)
}

/// The low output of the inverse butterfly.
pub open spec fn inverse_low<F: BinaryField>(
    low: Seq<F::Elem>,
    high: Seq<F::Elem>,
    c: F::Elem,
) -> Seq<F::Elem> {
    axpy::<F>(low, c, vadd::<F>(low, high))
}

/// The inverse butterfly undoes the forward butterfly with the same
/// coefficient, and the other way round.
pub proof fn law_butterflies_undo_each_other<F: BinaryField>(
    low: Seq<F::Elem>,
    high: Seq<F::Elem>,
    c: F::Elem,
)
    requires
        low.len() == high.len(),
    ensures
        inverse_low::<F>(forward_low::<F>(low, high, c), forward_high::<F>(low, high, c), c) == low,
        inverse_high::<F>(forward_low::<F>(low, high, c), forward_high::<F>(low, high, c)) == high,
        forward_low::<F>(inverse_low::<F>(low, high, c), inverse_high::<F>(low, high), c) == low,
        forward_high::<F>(inverse_low::<F>(low, high, c), inverse_high::<F>(low, high), c) == high,
{
    let fl = forward_low::<F>(low, high, c);
    let fh = forward_high::<F>(low, high, c);
    let il = inverse_low::<F>(low, high, c);
    let ih = inverse_high::<F>(low, high);
    assert forall|i: int| 0 <= i < low.len() implies inverse_high::<F>(fl, fh)[i] == high[i]
        && inverse_low::<F>(fl, fh, c)[i] == low[i] && forward_low::<F>(il, ih, c)[i] == low[i]
        && forward_high::<F>(il, ih, c)[i] == high[i] by {
        lemma_cancel::<F>(fl[i], high[i]);
        lemma_cancel_right::<F>(low[i], fmul::<F>(c, high[i]));
        lemma_cancel_right::<F>(low[i], fmul::<F>(c, ih[i]));
        lemma_cancel::<F>(low[i], high[i]);
    }
    assert(inverse_high::<F>(fl, fh) =~= high);
    assert(inverse_low::<F>(fl, fh, c) =~= low);
    assert(forward_low::<F>(il, ih, c) =~= low);
    assert(forward_high::<F>(il, ih, c) =~= high);
}

/// `a + (a + b) == b`.
pub proof fn lemma_cancel<F: BinaryField>(a: F::Elem, b: F::Elem)
    ensures
        fadd::<F>(a, fadd::<F>(a, b)) == b,
{
    lemma_add::<F>(a, a, b);
    lemma_add::<F>(b, a, a);
}

/// `(a + b) + b == a`.
pub proof fn lemma_cancel_right<F: BinaryField>(a: F::Elem, b: F::Elem)
    ensures
        fadd::<F>(fadd::<F>(a, b), b) == a,
{
    lemma_add::<F>(a, b, b);
    lemma_add::<F>(b, b, b);
}

/// Add a row to a row, element by element.
pub fn row_add<F: BinaryField>(dst: &mut [u8], src: &[u8])
    requires
        old(dst)@.len() == src@.len(),
        whole::<F>(src@.len() as int),
    ensures
        final(dst)@.len() == old(dst)@.len(),
        unpack::<F>(final(dst)@) == vadd::<F>(unpack::<F>(old(dst)@), unpack::<F>(src@)),
{
    proof {
        lemma_elem_bytes::<F>();
    }
    let count: usize = dst.len() / F::bytes();
    let ghost before = unpack::<F>(dst@);
    let ghost other = unpack::<F>(src@);
    let mut i: usize = 0;
    while i < count
        invariant
            i <= count,
            dst@.len() == src@.len(),
            whole::<F>(src@.len() as int),
            before.len() == count,
            other == unpack::<F>(src@),
            other.len() == count,
            unpack::<F>(dst@).len() == count,
            forall|j: int|
                0 <= j < count ==> #[trigger] unpack::<F>(dst@)[j] == if j < i {
                    fadd::<F>(before[j], other[j])
                } else {
                    before[j]
                },
        decreases count - i,
    {
        let sum = plus::<F>(read_elem::<F>(dst, i), read_elem::<F>(src, i));
        write_elem::<F>(dst, i, sum);
        i = i + 1;
    }
    proof {
        assert(unpack::<F>(dst@) =~= vadd::<F>(before, other));
    }
}

/// Add `c` times a row to a row, element by element.
pub fn row_mul_add<F: BinaryField>(dst: &mut [u8], c: F::Elem, src: &[u8])
    requires
        old(dst)@.len() == src@.len(),
        whole::<F>(src@.len() as int),
    ensures
        final(dst)@.len() == old(dst)@.len(),
        unpack::<F>(final(dst)@) == axpy::<F>(unpack::<F>(old(dst)@), c, unpack::<F>(src@)),
{
    proof {
        lemma_elem_bytes::<F>();
    }
    let count: usize = dst.len() / F::bytes();
    let ghost before = unpack::<F>(dst@);
    let ghost other = unpack::<F>(src@);
    let mut i: usize = 0;
    while i < count
        invariant
            i <= count,
            dst@.len() == src@.len(),
            whole::<F>(src@.len() as int),
            before.len() == count,
            other == unpack::<F>(src@),
            other.len() == count,
            unpack::<F>(dst@).len() == count,
            forall|j: int|
                0 <= j < count ==> #[trigger] unpack::<F>(dst@)[j] == if j < i {
                    fadd::<F>(before[j], fmul::<F>(c, other[j]))
                } else {
                    before[j]
                },
        decreases count - i,
    {
        let scaled = times::<F>(c, read_elem::<F>(src, i));
        let sum = plus::<F>(read_elem::<F>(dst, i), scaled);
        write_elem::<F>(dst, i, sum);
        i = i + 1;
    }
    proof {
        assert(unpack::<F>(dst@) =~= axpy::<F>(before, c, other));
    }
}

/// Overwrite a row with `c` times a row, element by element.
pub fn row_mul_into<F: BinaryField>(dst: &mut [u8], c: F::Elem, src: &[u8])
    requires
        old(dst)@.len() == src@.len(),
        whole::<F>(src@.len() as int),
    ensures
        final(dst)@.len() == old(dst)@.len(),
        unpack::<F>(final(dst)@) == vscale::<F>(c, unpack::<F>(src@)),
{
    proof {
        lemma_elem_bytes::<F>();
    }
    let count: usize = dst.len() / F::bytes();
    let ghost other = unpack::<F>(src@);
    let mut i: usize = 0;
    while i < count
        invariant
            i <= count,
            dst@.len() == src@.len(),
            whole::<F>(src@.len() as int),
            other == unpack::<F>(src@),
            other.len() == count,
            unpack::<F>(dst@).len() == count,
            forall|j: int|
                0 <= j < i ==> #[trigger] unpack::<F>(dst@)[j] == fmul::<F>(c, other[j]),
        decreases count - i,
    {
        let scaled = times::<F>(c, read_elem::<F>(src, i));
        write_elem::<F>(dst, i, scaled);
        i = i + 1;
    }
    proof {
        assert(unpack::<F>(dst@) =~= vscale::<F>(c, other));
    }
}

/// Overwrite a row with a row.
pub fn row_copy(dst: &mut [u8], src: &[u8])
    requires
        old(dst)@.len() == src@.len(),
    ensures
        final(dst)@ == src@,
{
    let len: usize = dst.len();
    let mut i: usize = 0;
    while i < len
        invariant
            i <= len,
            dst@.len() == len,
            src@.len() == len,
            forall|j: int| 0 <= j < i ==> dst@[j] == src@[j],
        decreases len - i,
    {
        dst[i] = src[i];
        i = i + 1;
    }
    assert(dst@ =~= src@);
}

/// Zero a row.
pub fn row_clear<F: BinaryField>(dst: &mut [u8])
    requires
        whole::<F>(old(dst)@.len() as int),
    ensures
        final(dst)@.len() == old(dst)@.len(),
        unpack::<F>(final(dst)@) == vzero::<F>(unpack::<F>(old(dst)@).len()),
{
    proof {
        lemma_elem_bytes::<F>();
    }
    let count: usize = dst.len() / F::bytes();
    let ghost before = dst@;
    let zero = crate::field::zero::<F>();
    let mut i: usize = 0;
    while i < count
        invariant
            i <= count,
            zero == fzero::<F>(),
            dst@.len() == before.len(),
            whole::<F>(before.len() as int),
            unpack::<F>(dst@).len() == count,
            forall|j: int| 0 <= j < i ==> #[trigger] unpack::<F>(dst@)[j] == fzero::<F>(),
        decreases count - i,
    {
        write_elem::<F>(dst, i, zero);
        i = i + 1;
    }
    proof {
        assert(unpack::<F>(dst@) =~= vzero::<F>(count as nat));
    }
}

/// One pass over both halves: the forward butterfly with any coefficient.
pub(crate) fn forward_pass<F: BinaryField>(low: &mut [u8], high: &mut [u8], c: F::Elem)
    requires
        old(low)@.len() == old(high)@.len(),
        whole::<F>(old(low)@.len() as int),
    ensures
        final(low)@.len() == old(low)@.len(),
        final(high)@.len() == old(high)@.len(),
        unpack::<F>(final(low)@) == forward_low::<F>(
            unpack::<F>(old(low)@),
            unpack::<F>(old(high)@),
            c,
        ),
        unpack::<F>(final(high)@) == forward_high::<F>(
            unpack::<F>(old(low)@),
            unpack::<F>(old(high)@),
            c,
        ),
{
    proof {
        lemma_elem_bytes::<F>();
    }
    let count: usize = low.len() / F::bytes();
    let ghost l0 = unpack::<F>(low@);
    let ghost h0 = unpack::<F>(high@);
    let ghost len = low@.len();
    let mut i: usize = 0;
    while i < count
        invariant
            i <= count,
            low@.len() == len,
            high@.len() == len,
            whole::<F>(len as int),
            l0.len() == count,
            h0.len() == count,
            unpack::<F>(low@).len() == count,
            unpack::<F>(high@).len() == count,
            forall|j: int|
                0 <= j < count ==> #[trigger] unpack::<F>(low@)[j] == if j < i {
                    forward_low::<F>(l0, h0, c)[j]
                } else {
                    l0[j]
                },
            forall|j: int|
                0 <= j < count ==> #[trigger] unpack::<F>(high@)[j] == if j < i {
                    forward_high::<F>(l0, h0, c)[j]
                } else {
                    h0[j]
                },
        decreases count - i,
    {
        let l = read_elem::<F>(low, i);
        let h = read_elem::<F>(high, i);
        let new_low = plus::<F>(l, times::<F>(c, h));
        let new_high = plus::<F>(new_low, h);
        write_elem::<F>(low, i, new_low);
        write_elem::<F>(high, i, new_high);
        i = i + 1;
    }
    proof {
        assert(unpack::<F>(low@) =~= forward_low::<F>(l0, h0, c));
        assert(unpack::<F>(high@) =~= forward_high::<F>(l0, h0, c));
    }
}

/// One pass over both halves: the inverse butterfly with any coefficient.
pub(crate) fn inverse_pass<F: BinaryField>(low: &mut [u8], high: &mut [u8], c: F::Elem)
    requires
        old(low)@.len() == old(high)@.len(),
        whole::<F>(old(low)@.len() as int),
    ensures
        final(low)@.len() == old(low)@.len(),
        final(high)@.len() == old(high)@.len(),
        unpack::<F>(final(low)@) == inverse_low::<F>(
            unpack::<F>(old(low)@),
            unpack::<F>(old(high)@),
            c,
        ),
        unpack::<F>(final(high)@) == inverse_high::<F>(
            unpack::<F>(old(low)@),
            unpack::<F>(old(high)@),
        ),
{
    proof {
        lemma_elem_bytes::<F>();
    }
    let count: usize = low.len() / F::bytes();
    let ghost l0 = unpack::<F>(low@);
    let ghost h0 = unpack::<F>(high@);
    let ghost len = low@.len();
    let mut i: usize = 0;
    while i < count
        invariant
            i <= count,
            low@.len() == len,
            high@.len() == len,
            whole::<F>(len as int),
            l0.len() == count,
            h0.len() == count,
            unpack::<F>(low@).len() == count,
            unpack::<F>(high@).len() == count,
            forall|j: int|
                0 <= j < count ==> #[trigger] unpack::<F>(low@)[j] == if j < i {
                    inverse_low::<F>(l0, h0, c)[j]
                } else {
                    l0[j]
                },
            forall|j: int|
                0 <= j < count ==> #[trigger] unpack::<F>(high@)[j] == if j < i {
                    inverse_high::<F>(l0, h0)[j]
                } else {
                    h0[j]
                },
        decreases count - i,
    {
        let l = read_elem::<F>(low, i);
        let h = read_elem::<F>(high, i);
        let new_high = plus::<F>(l, h);
        let new_low = plus::<F>(l, times::<F>(c, new_high));
        write_elem::<F>(low, i, new_low);
        write_elem::<F>(high, i, new_high);
        i = i + 1;
    }
    proof {
        assert(unpack::<F>(low@) =~= inverse_low::<F>(l0, h0, c));
        assert(unpack::<F>(high@) =~= inverse_high::<F>(l0, h0));
    }
}

/// Fused forward butterfly over two equal-length packed halves:
/// `low' = low + c * high`, `high' = low' + high`.
///
/// The trivial coefficients need no product: zero couples the halves with one
/// sum, and one swaps their roles through two.
pub fn fused_forward<F: ButterflyKernels>(low: &mut [u8], high: &mut [u8], coefficient: F::Elem)
    requires
        old(low)@.len() == old(high)@.len(),
        whole::<F>(old(low)@.len() as int),
    ensures
        final(low)@.len() == old(low)@.len(),
        final(high)@.len() == old(high)@.len(),
        unpack::<F>(final(low)@) == forward_low::<F>(
            unpack::<F>(old(low)@),
            unpack::<F>(old(high)@),
            coefficient,
        ),
        unpack::<F>(final(high)@) == forward_high::<F>(
            unpack::<F>(old(low)@),
            unpack::<F>(old(high)@),
            coefficient,
        ),
{
    fused_forward_backend::<F>(backend_for::<F>(), low, high, coefficient)
}

/// The fused forward butterfly on a backend: coefficients zero and one need no
/// product, and every other goes to the kernel of the backend.
pub fn fused_forward_backend<F: ButterflyKernels>(
    tier: Backend,
    low: &mut [u8],
    high: &mut [u8],
    coefficient: F::Elem,
)
    requires
        old(low)@.len() == old(high)@.len(),
        whole::<F>(old(low)@.len() as int),
    ensures
        final(low)@.len() == old(low)@.len(),
        final(high)@.len() == old(high)@.len(),
        unpack::<F>(final(low)@) == forward_low::<F>(
            unpack::<F>(old(low)@),
            unpack::<F>(old(high)@),
            coefficient,
        ),
        unpack::<F>(final(high)@) == forward_high::<F>(
            unpack::<F>(old(low)@),
            unpack::<F>(old(high)@),
            coefficient,
        ),
{
    let ghost l0 = unpack::<F>(low@);
    let ghost h0 = unpack::<F>(high@);
    proof {
        lemma_elem_bytes::<F>();
    }
    if is_zero::<F>(coefficient) {
        row_add::<F>(high, low);
        proof {
            assert forall|i: int| 0 <= i < l0.len() implies forward_low::<F>(l0, h0, coefficient)[i]
                == l0[i] && vadd::<F>(h0, l0)[i] == forward_high::<F>(l0, h0, coefficient)[i] by {
                lemma_mul::<F>(h0[i], h0[i], h0[i]);
                lemma_add::<F>(l0[i], h0[i], h0[i]);
            }
            assert(forward_low::<F>(l0, h0, coefficient) =~= l0);
            assert(vadd::<F>(h0, l0) =~= forward_high::<F>(l0, h0, coefficient));
        }
    } else if is_one::<F>(coefficient) {
        row_add::<F>(low, high);
        row_add::<F>(high, low);
        proof {
            assert forall|i: int| 0 <= i < l0.len() implies vadd::<F>(l0, h0)[i] == forward_low::<
                F,
            >(l0, h0, coefficient)[i] && vadd::<F>(h0, vadd::<F>(l0, h0))[i] == forward_high::<F>(
                l0,
                h0,
                coefficient,
            )[i] by {
                lemma_mul::<F>(h0[i], h0[i], h0[i]);
                lemma_add::<F>(vadd::<F>(l0, h0)[i], h0[i], h0[i]);
            }
            assert(vadd::<F>(l0, h0) =~= forward_low::<F>(l0, h0, coefficient));
            assert(vadd::<F>(h0, vadd::<F>(l0, h0)) =~= forward_high::<F>(l0, h0, coefficient));
        }
    } else {
        F::forward_on(tier, low, high, coefficient);
    }
}

/// Fused inverse butterfly: `high' = high + low`, `low' = low + c * high'`.
///
/// Undoes [`fused_forward`] with the same coefficient.
pub fn fused_inverse<F: ButterflyKernels>(low: &mut [u8], high: &mut [u8], coefficient: F::Elem)
    requires
        old(low)@.len() == old(high)@.len(),
        whole::<F>(old(low)@.len() as int),
    ensures
        final(low)@.len() == old(low)@.len(),
        final(high)@.len() == old(high)@.len(),
        unpack::<F>(final(low)@) == inverse_low::<F>(
            unpack::<F>(old(low)@),
            unpack::<F>(old(high)@),
            coefficient,
        ),
        unpack::<F>(final(high)@) == inverse_high::<F>(
            unpack::<F>(old(low)@),
            unpack::<F>(old(high)@),
        ),
{
    fused_inverse_backend::<F>(backend_for::<F>(), low, high, coefficient)
}

/// The fused inverse butterfly on a backend: coefficients zero and one need no
/// product, and every other goes to the kernel of the backend.
pub fn fused_inverse_backend<F: ButterflyKernels>(
    tier: Backend,
    low: &mut [u8],
    high: &mut [u8],
    coefficient: F::Elem,
)
    requires
        old(low)@.len() == old(high)@.len(),
        whole::<F>(old(low)@.len() as int),
    ensures
        final(low)@.len() == old(low)@.len(),
        final(high)@.len() == old(high)@.len(),
        unpack::<F>(final(low)@) == inverse_low::<F>(
            unpack::<F>(old(low)@),
            unpack::<F>(old(high)@),
            coefficient,
        ),
        unpack::<F>(final(high)@) == inverse_high::<F>(
            unpack::<F>(old(low)@),
            unpack::<F>(old(high)@),
        ),
{
    let ghost l0 = unpack::<F>(low@);
    let ghost h0 = unpack::<F>(high@);
    proof {
        lemma_elem_bytes::<F>();
    }
    if is_zero::<F>(coefficient) {
        row_add::<F>(high, low);
        proof {
            assert forall|i: int| 0 <= i < l0.len() implies inverse_low::<F>(l0, h0, coefficient)[i]
                == l0[i] && vadd::<F>(h0, l0)[i] == inverse_high::<F>(l0, h0)[i] by {
                lemma_mul::<F>(inverse_high::<F>(l0, h0)[i], h0[i], h0[i]);
                lemma_add::<F>(l0[i], h0[i], h0[i]);
            }
            assert(inverse_low::<F>(l0, h0, coefficient) =~= l0);
            assert(vadd::<F>(h0, l0) =~= inverse_high::<F>(l0, h0));
        }
    } else if is_one::<F>(coefficient) {
        row_add::<F>(high, low);
        row_add::<F>(low, high);
        proof {
            assert forall|i: int| 0 <= i < l0.len() implies vadd::<F>(h0, l0)[i] == inverse_high::<
                F,
            >(l0, h0)[i] && vadd::<F>(l0, vadd::<F>(h0, l0))[i] == inverse_low::<F>(
                l0,
                h0,
                coefficient,
            )[i] by {
                lemma_mul::<F>(inverse_high::<F>(l0, h0)[i], h0[i], h0[i]);
                lemma_add::<F>(l0[i], h0[i], h0[i]);
            }
            assert(vadd::<F>(h0, l0) =~= inverse_high::<F>(l0, h0));
            assert(vadd::<F>(l0, vadd::<F>(h0, l0)) =~= inverse_low::<F>(l0, h0, coefficient));
        }
    } else {
        F::inverse_on(tier, low, high, coefficient);
    }
}

/// Add `coefficient * src` to `dst`, element by element.
pub fn xor_scaled_bytes<F: BinaryField>(dst: &mut [u8], coefficient: F::Elem, src: &[u8])
    requires
        old(dst)@.len() == src@.len(),
        whole::<F>(src@.len() as int),
    ensures
        final(dst)@.len() == old(dst)@.len(),
        unpack::<F>(final(dst)@) == axpy::<F>(
            unpack::<F>(old(dst)@),
            coefficient,
            unpack::<F>(src@),
        ),
{
    let ghost d = unpack::<F>(dst@);
    let ghost s = unpack::<F>(src@);
    proof {
        lemma_elem_bytes::<F>();
    }
    if is_zero::<F>(coefficient) {
        proof {
            assert forall|i: int| 0 <= i < d.len() implies axpy::<F>(d, coefficient, s)[i]
                == d[i] by {
                lemma_mul::<F>(s[i], s[i], s[i]);
                lemma_add::<F>(d[i], d[i], d[i]);
            }
            assert(axpy::<F>(d, coefficient, s) =~= d);
        }
        return ;
    }
    if is_one::<F>(coefficient) {
        row_add::<F>(dst, src);
        proof {
            assert forall|i: int| 0 <= i < d.len() implies axpy::<F>(d, coefficient, s)[i]
                == vadd::<F>(d, s)[i] by {
                lemma_mul::<F>(s[i], s[i], s[i]);
            }
            assert(axpy::<F>(d, coefficient, s) =~= vadd::<F>(d, s));
        }
        return ;
    }
    row_mul_add::<F>(dst, coefficient, src);
}

/// A backend of the butterfly kernels, strongest first per architecture.
#[derive(Clone, Copy, Debug, PartialEq, Eq)]
pub enum Backend {
    /// x86 with AVX2, GFNI and crypto.
    V3GfniCrypto,
    /// x86 with AVX2.
    V3,
    /// x86 with SSE4.2.
    V2,
    /// AArch64 with NEON and AES.
    NeonAes,
    /// AArch64 with NEON.
    Neon,
    /// The portable fallback.
    Scalar,
}

/// The name of a backend, which the `SIMD_BACKEND` override takes too.
pub open spec fn backend_name(backend: Backend) -> Seq<char> {
    match backend {
        Backend::V3GfniCrypto => "v3_gfni_crypto"@,
        Backend::V3 => "v3"@,
        Backend::V2 => "v2"@,
        Backend::NeonAes => "neon_aes"@,
        Backend::Neon => "neon"@,
        Backend::Scalar => "scalar"@,
    }
}

impl Backend {
    /// The name of the backend.
    pub fn name(self) -> (name: String)
        ensures
            name@ == backend_name(self),
    {
        String::from_str(
            match self {
                Backend::V3GfniCrypto => "v3_gfni_crypto",
                Backend::V3 => "v3",
                Backend::V2 => "v2",
                Backend::NeonAes => "neon_aes",
                Backend::Neon => "neon",
                Backend::Scalar => "scalar",
            },
        )
    }
}

/// The architectures that the butterflies have kernels for, and any other.
#[derive(Clone, Copy, Debug, PartialEq, Eq)]
pub enum Target {
    /// x86_64.
    X86,
    /// AArch64.
    Aarch64,
    /// An architecture with the portable kernels alone.
    Other,
}

/// Every backend of a target, strongest first, or the portable one alone.
pub open spec fn tiers_of(kernels: bool, target: Target) -> Seq<Backend> {
    if !kernels {
        seq![Backend::Scalar]
    } else {
        match target {
            Target::X86 => seq![
                Backend::V3GfniCrypto,
                Backend::V3,
                Backend::V2,
                Backend::Scalar,
            ],
            Target::Aarch64 => seq![Backend::NeonAes, Backend::Neon, Backend::Scalar],
            Target::Other => seq![Backend::Scalar],
        }
    }
}

/// Every backend of a target, strongest first, or the portable one alone.
pub fn tiers_for(kernels: bool, target: Target) -> (tiers: Vec<Backend>)
    ensures
        tiers@ == tiers_of(kernels, target),
{
    let mut tiers: Vec<Backend> = Vec::new();
    if kernels {
        match target {
            Target::X86 => {
                tiers.push(Backend::V3GfniCrypto);
                tiers.push(Backend::V3);
                tiers.push(Backend::V2);
            },
            Target::Aarch64 => {
                tiers.push(Backend::NeonAes);
                tiers.push(Backend::Neon);
            },
            Target::Other => {},
        }
    }
    tiers.push(Backend::Scalar);
    assert(tiers@ =~= tiers_of(kernels, target));
    tiers
}

/// The backend that the machine and the `SIMD_BACKEND` override settle on, from
/// `simdispatch::Selection` over the backends that the butterflies know.
///
/// The answer rests on the machine and its environment, so nothing is said of it.
#[verifier::external_body]
pub fn backend() -> Backend {
    let tiers: &'static [simdispatch::Backend] = &[
        simdispatch::Backend::V3GfniCrypto, simdispatch::Backend::V3, simdispatch::Backend::V2,
        simdispatch::Backend::NeonAes, simdispatch::Backend::Neon, simdispatch::Backend::Scalar,
    ];
    match simdispatch::Selection::new("SIMD_BACKEND").supports(tiers).resolve() {
        simdispatch::Backend::V3GfniCrypto => Backend::V3GfniCrypto,
        simdispatch::Backend::V3 => Backend::V3,
        simdispatch::Backend::V2 => Backend::V2,
        simdispatch::Backend::NeonAes => Backend::NeonAes,
        simdispatch::Backend::Neon => Backend::Neon,
        _ => Backend::Scalar,
    }
}

/// `archmage::SimdToken::compiled_with` of `archmage::X64V2Token`: `Some(false)` on
/// every architecture but x86_64. The answer rests on the target, so nothing is said
/// of it.
#[verifier::external_body]
fn x86_compiled() -> Option<bool> {
    <archmage::X64V2Token as archmage::SimdToken>::compiled_with()
}

/// `archmage::SimdToken::compiled_with` of `archmage::NeonToken`: `Some(false)` on
/// every architecture but AArch64. The answer rests on the target, so nothing is said
/// of it.
#[verifier::external_body]
fn neon_compiled() -> Option<bool> {
    <archmage::NeonToken as archmage::SimdToken>::compiled_with()
}

/// The target, from what the tokens of the two architectures report: `Some(false)`
/// rules an architecture out.
pub fn target_of(x86: Option<bool>, neon: Option<bool>) -> (target: Target)
    ensures
        target == if x86 != Some(false) {
            Target::X86
        } else if neon != Some(false) {
            Target::Aarch64
        } else {
            Target::Other
        },
{
    match x86 {
        Some(false) => match neon {
            Some(false) => Target::Other,
            _ => Target::Aarch64,
        },
        _ => Target::X86,
    }
}

/// The target that the library was compiled for.
fn compiled_target() -> Target {
    target_of(x86_compiled(), neon_compiled())
}

/// The backends of the target, strongest first.
pub fn butterfly_fft_tiers() -> (tiers: Vec<Backend>)
    ensures
        exists|target: Target| tiers@ == #[trigger] tiers_of(true, target),
{
    let target = compiled_target();
    let tiers = tiers_for(true, target);
    assert(tiers@ == tiers_of(true, target));
    tiers
}

/// The per-field butterfly contract: the backends that a field's butterflies
/// have kernels for.
///
/// Fields without kernels of their own run the portable ones.
pub trait ButterflyKernels: TierButterflies {
    /// The backends of the target, strongest first.
    fn butterfly_tiers() -> (tiers: Vec<Backend>)
        ensures
            exists|target: Target| tiers@ == #[trigger] tiers_of(Self::has_kernels(), target),
    ;
}

impl<F: TierButterflies> ButterflyKernels for F {
    fn butterfly_tiers() -> (tiers: Vec<Backend>) {
        let target = compiled_target();
        let tiers = tiers_for(F::vector_kernels(), target);
        assert(tiers@ == tiers_of(Self::has_kernels(), target));
        tiers
    }
}

/// A resolved backend, narrowed to those of the target that the field has kernels
/// for.
pub fn narrowed<F: BinaryField>(resolved: Backend, target: Target) -> (selected: Backend)
    ensures
        selected == if tiers_of(F::has_kernels(), target).contains(resolved) {
            resolved
        } else {
            Backend::Scalar
        },
{
    let ghost tiers = tiers_of(F::has_kernels(), target);
    let own: bool = match target {
        Target::X86 => match resolved {
            Backend::V3GfniCrypto => true,
            Backend::V3 => true,
            Backend::V2 => true,
            _ => false,
        },
        Target::Aarch64 => match resolved {
            Backend::NeonAes => true,
            Backend::Neon => true,
            _ => false,
        },
        Target::Other => false,
    };
    if F::vector_kernels() && own {
        proof {
            match resolved {
                Backend::V3GfniCrypto => {
                    assert(tiers[0] == resolved);
                },
                Backend::V3 => {
                    assert(tiers[1] == resolved);
                },
                Backend::V2 => {
                    assert(tiers[2] == resolved);
                },
                Backend::NeonAes => {
                    assert(tiers[0] == resolved);
                },
                _ => {
                    assert(tiers[1] == resolved);
                },
            }
        }
        resolved
    } else {
        Backend::Scalar
    }
}

/// The backend for a field: that of the machine, narrowed to those of the target
/// that the field has kernels for.
pub fn backend_for<F: BinaryField>() -> (selected: Backend)
    ensures
        exists|target: Target| #[trigger] tiers_of(F::has_kernels(), target).contains(selected),
        !F::has_kernels() ==> selected == Backend::Scalar,
{
    let target = compiled_target();
    let selected = narrowed::<F>(backend(), target);
    proof {
        let tiers = tiers_of(F::has_kernels(), target);
        assert(tiers.last() == Backend::Scalar);
        assert(tiers.contains(selected));
    }
    selected
}

/// Whether every row of `after` is the row of `before` plus its coefficient times the
/// source.
pub open spec fn scaled_source_added<F: BinaryField>(
    before: Seq<F::Elem>,
    after: Seq<F::Elem>,
    coefficients: Seq<F::Elem>,
    source: Seq<F::Elem>,
) -> bool {
    forall|j: int, l: int|
        0 <= j < coefficients.len() && 0 <= l < source.len() ==> #[trigger] entry(
            after,
            source.len(),
            j,
            l,
        ) == fadd::<F>(entry(before, source.len(), j, l), fmul::<F>(coefficients[j], source[l]))
}

/// Add `coefficients[j] * source` to row `j` of `destinations`, for every row.
pub fn xor_scaled_bytes_rows<F: BinaryField>(
    destinations: &mut [u8],
    row_len: usize,
    coefficients: &[F::Elem],
    source: &[u8],
)
    requires
        row_len > 0,
        whole::<F>(row_len as int),
        source@.len() == row_len,
        old(destinations)@.len() == coefficients@.len() * row_len,
    ensures
        final(destinations)@.len() == old(destinations)@.len(),
        forall|j: int, l: int|
            0 <= j < coefficients@.len() && 0 <= l < unpack::<F>(source@).len() ==> #[trigger] entry(
                unpack::<F>(final(destinations)@),
                unpack::<F>(source@).len(),
                j,
                l,
            ) == fadd::<F>(
                entry(unpack::<F>(old(destinations)@), unpack::<F>(source@).len(), j, l),
                fmul::<F>(coefficients@[j], unpack::<F>(source@)[l]),
            ),
        scaled_source_added::<F>(
            unpack::<F>(old(destinations)@),
            unpack::<F>(final(destinations)@),
            coefficients@,
            unpack::<F>(source@),
        ),
{
    let ghost s = unpack::<F>(source@);
    let ghost n = s.len();
    let ghost v = unpack::<F>(destinations@);
    let ghost rows = coefficients@.len() as int;
    let len: usize = destinations.len();
    let count: usize = coefficients.len();
    let mut j: usize = 0;
    proof {
        lemma_elem_bytes::<F>();
        lemma_row_grid::<F>(row_len as int, rows);
    }
    while j < count
        invariant
            j <= count,
            count == coefficients@.len(),
            rows == count,
            row_len > 0,
            whole::<F>(row_len as int),
            source@.len() == row_len,
            s == unpack::<F>(source@),
            n == s.len(),
            len == count * row_len,
            destinations@.len() == len,
            whole::<F>(len as int),
            unpack::<F>(destinations@).len() == rows * n,
            forall|i: int, l: int|
                0 <= i < rows && 0 <= l < n ==> #[trigger] entry(
                    unpack::<F>(destinations@),
                    n,
                    i,
                    l,
                ) == if i < j {
                    fadd::<F>(entry(v, n, i, l), fmul::<F>(coefficients@[i], s[l]))
                } else {
                    entry(v, n, i, l)
                },
        decreases count - j,
    {
        let ghost before = destinations@;
        let ghost u = unpack::<F>(before);
        proof {
            lemma_elem_bytes::<F>();
            lemma_row_grid::<F>(row_len as int, rows);
            lemma_row_grid::<F>(row_len as int, j as int);
            assert(0 <= j * row_len && j * row_len + row_len <= len) by (nonlinear_arith)
                requires
                    0 <= j < count,
                    len == count * row_len,
                    row_len > 0,
            ;
        }
        let start: usize = j * row_len;
        let (head, rest) = destinations.split_at_mut(start);
        let (row, tail) = rest.split_at_mut(row_len);
        let ghost (a, b, c) = (head@, row@, tail@);
        xor_scaled_bytes::<F>(row, coefficients[j], source);
        proof {
            lemma_whole_parts(len as int, start as int, elem_bytes::<F>() as int);
            lemma_whole_parts(len - start, row_len as int, elem_bytes::<F>() as int);
            lemma_unpack_concat::<F>(b, c);
            lemma_unpack_concat::<F>(a, b + c);
            assert(a + (b + c) =~= before);
            let d = row@;
            lemma_unpack_concat::<F>(d, c);
            lemma_unpack_concat::<F>(a, d + c);
            let now = unpack::<F>(a + (d + c));
            let (ua, ub, uc) = (unpack::<F>(a), unpack::<F>(b), unpack::<F>(c));
            let ud = unpack::<F>(d);
            assert(ua.len() == j * n && ub.len() == n && ud.len() == n);
            assert(now.len() == u.len());
            assert forall|i: int, l: int| 0 <= i < rows && 0 <= l < n implies #[trigger] entry(
                now,
                n,
                i,
                l,
            ) == (if i < j + 1 {
                fadd::<F>(entry(v, n, i, l), fmul::<F>(coefficients@[i], s[l]))
            } else {
                entry(v, n, i, l)
            }) by {
                lemma_place(i, l, n as int, rows);
                lemma_row_order(i, j as int, l, n as int);
                let p = i * n + l;
                assert(entry(u, n, i, l) == u[p]);
                if i == j {
                    assert(now[p] == ud[l]);
                    assert(u[p] == ub[l]);
                    assert(ud[l] == fadd::<F>(ub[l], fmul::<F>(coefficients@[i], s[l])));
                } else {
                    assert(now[p] == u[p]);
                }
            }
        }
        j = j + 1;
    }
}

/// The elements of `rows` rows of whole elements.
proof fn lemma_row_grid<F: BinaryField>(row_len: int, rows: int)
    requires
        row_len > 0,
        rows >= 0,
        whole::<F>(row_len),
    ensures
        whole::<F>(rows * row_len),
        rows * row_len / (elem_bytes::<F>() as int) == rows * (row_len / (elem_bytes::<F>() as int)),
{
    lemma_elem_bytes::<F>();
    let w = elem_bytes::<F>() as int;
    let n = row_len / w;
    vstd::arithmetic::div_mod::lemma_fundamental_div_mod(row_len, w);
    assert(rows * row_len == (rows * n) * w) by (nonlinear_arith)
        requires
            row_len == w * n,
    ;
    vstd::arithmetic::div_mod::lemma_fundamental_div_mod_converse(rows * row_len, w, rows * n, 0);
}

/// The butterflies, entry by entry: forward, the new low entry differs from the old
/// one by `c` times the high entry, and the new high entry from the old one by the
/// new low entry; the inverse does the same in the other order.
pub proof fn law_butterfly_entries<F: BinaryField>(
    low: Seq<F::Elem>,
    high: Seq<F::Elem>,
    c: F::Elem,
    i: int,
)
    requires
        low.len() == high.len(),
        0 <= i < low.len(),
    ensures
        forward_low::<F>(low, high, c).len() == low.len(),
        forward_high::<F>(low, high, c).len() == low.len(),
        inverse_low::<F>(low, high, c).len() == low.len(),
        inverse_high::<F>(low, high).len() == low.len(),
        fadd::<F>(forward_low::<F>(low, high, c)[i], low[i]) == fmul::<F>(c, high[i]),
        fadd::<F>(forward_high::<F>(low, high, c)[i], high[i]) == forward_low::<F>(low, high, c)[i],
        fadd::<F>(inverse_high::<F>(low, high)[i], high[i]) == low[i],
        fadd::<F>(inverse_low::<F>(low, high, c)[i], low[i]) == fmul::<F>(
            c,
            inverse_high::<F>(low, high)[i],
        ),
{
    let (l, h) = (low[i], high[i]);
    let p = fmul::<F>(c, h);
    let n = fadd::<F>(l, p);
    let q = fmul::<F>(c, fadd::<F>(h, l));
    lemma_cancel_right::<F>(p, l);
    lemma_cancel_right::<F>(q, l);
    lemma_cancel_right::<F>(n, h);
    lemma_cancel_right::<F>(l, h);
    lemma_add::<F>(l, p, p);
    lemma_add::<F>(l, q, q);
    lemma_add::<F>(h, n, n);
    lemma_add::<F>(h, l, l);
    lemma_add::<F>(n, h, h);
    lemma_mul::<F>(c, h, l);
    lemma_mul::<F>(c, l, h);
}

/// Sums and scaled sums, entry by entry.
pub proof fn law_sum_entries<F: BinaryField>(
    a: Seq<F::Elem>,
    c: F::Elem,
    b: Seq<F::Elem>,
    i: int,
)
    requires
        a.len() == b.len(),
        0 <= i < a.len(),
    ensures
        vadd::<F>(a, b).len() == a.len(),
        axpy::<F>(a, c, b).len() == a.len(),
        fadd::<F>(vadd::<F>(a, b)[i], b[i]) == a[i],
        fadd::<F>(axpy::<F>(a, c, b)[i], a[i]) == fmul::<F>(c, b[i]),
{
    let p = fmul::<F>(c, b[i]);
    lemma_cancel_right::<F>(a[i], b[i]);
    lemma_cancel_right::<F>(p, a[i]);
    lemma_add::<F>(a[i], p, p);
}

/// The fields with kernels of their own: the byte field modulo `0x11B`, and the
/// field of sixteen bits over it.
pub proof fn law_fields_with_kernels()
    ensures
        Gf8B::has_kernels(),
        Gf16::has_kernels(),
        !Gf8D::has_kernels(),
        !Gf32::has_kernels(),
        !Gf64::has_kernels(),
        !FanPaar8::has_kernels(),
        !FanPaar16::has_kernels(),
        !FanPaar32::has_kernels(),
        !FanPaar64::has_kernels(),
{
}

/// A narrowed backend is portable, or the one that was resolved, and then the field
/// has kernels and the backend is one of the target's.
pub proof fn law_narrowed_backends<F: BinaryField>(
    resolved: Backend,
    target: Target,
    selected: Backend,
)
    requires
        call_ensures(narrowed::<F>, (resolved, target), selected),
    ensures
        selected == Backend::Scalar || selected == resolved,
        !F::has_kernels() || target is Other ==> selected == Backend::Scalar,
        F::has_kernels() && target is X86 && (resolved is V3GfniCrypto || resolved is V3
            || resolved is V2) ==> selected == resolved,
        F::has_kernels() && target is Aarch64 && (resolved is NeonAes || resolved is Neon)
            ==> selected == resolved,
        target is X86 && (resolved is NeonAes || resolved is Neon) ==> selected == Backend::Scalar,
        target is Aarch64 && (resolved is V3GfniCrypto || resolved is V3 || resolved is V2)
            ==> selected == Backend::Scalar,
{
    let tiers = tiers_of(F::has_kernels(), target);
    if F::has_kernels() && target is X86 {
        assert(tiers[0] == Backend::V3GfniCrypto && tiers[1] == Backend::V3 && tiers[2]
            == Backend::V2);
    }
    if F::has_kernels() && target is Aarch64 {
        assert(tiers[0] == Backend::NeonAes && tiers[1] == Backend::Neon);
    }
}

/// The backends of a target: the portable one comes last and once, the others are those
/// of the architecture, from the widest on, and there are none without kernels.
pub proof fn law_tiers(kernels: bool, target: Target, tiers: Vec<Backend>)
    requires
        call_ensures(tiers_for, (kernels, target), tiers),
    ensures
        tiers@.last() == Backend::Scalar,
        !kernels || target is Other ==> tiers@.len() == 1,
        kernels && target is X86 ==> tiers@.len() == 4 && tiers@[0] is V3GfniCrypto && tiers@[1] is V3
            && tiers@[2] is V2,
        kernels && target is Aarch64 ==> tiers@.len() == 3 && tiers@[0] is NeonAes
            && tiers@[1] is Neon,
{
}

/// A target is ruled out exactly by `Some(false)`, and x86_64 goes before AArch64.
pub proof fn law_targets(x86: Option<bool>, neon: Option<bool>, target: Target)
    requires
        call_ensures(target_of, (x86, neon), target),
    ensures
        target is X86 <==> x86 is None || x86->Some_0,
        target is Aarch64 <==> x86 == Some(false) && (neon is None || neon->Some_0),
        target is Other <==> x86 == Some(false) && neon == Some(false),
{
}

/// The names of the backends.
pub proof fn law_backend_names(backend: Backend, name: String)
    requires
        call_ensures(Backend::name, (backend,), name),
    ensures
        backend is V3GfniCrypto ==> name@ == "v3_gfni_crypto"@,
        backend is V3 ==> name@ == "v3"@,
        backend is V2 ==> name@ == "v2"@,
        backend is NeonAes ==> name@ == "neon_aes"@,
        backend is Neon ==> name@ == "neon"@,
        backend is Scalar ==> name@ == "scalar"@,
{
}

} // verus!
