//! Packed elements: little-endian field elements in a byte buffer.

use vstd::prelude::*;

use crate::field::tower::mask;
use crate::field::BinaryField;
use crate::words::{
    law_words_are_little_endian, le, lemma_limits, lemma_whole_parts, lemma_word_bound,
    lemma_words_concat, lemma_words_injective, limit, read_word, words, write_word,
};

verus! {

/// The width of an element in bytes.
pub open spec fn elem_bytes<F: BinaryField>() -> nat {
    (F::width() / 8) as nat
}

/// The element whose encoding starts at byte `at`.
pub open spec fn elem_at<F: BinaryField>(bytes: Seq<u8>, at: int) -> F::Elem {
    F::of_raw(le(bytes.subrange(at, at + elem_bytes::<F>())) as u64)
}

/// The elements that a byte string of whole elements holds.
pub open spec fn unpack<F: BinaryField>(bytes: Seq<u8>) -> Seq<F::Elem> {
    Seq::new(
        bytes.len() / elem_bytes::<F>(),
        |i: int| elem_at::<F>(bytes, i * elem_bytes::<F>()),
    )
}

/// A byte string of whole elements.
pub open spec fn whole<F: BinaryField>(len: int) -> bool {
    len % (elem_bytes::<F>() as int) == 0
}

pub proof fn lemma_elem_bytes<F: BinaryField>()
    ensures
        elem_bytes::<F>() == 1 || elem_bytes::<F>() == 2 || elem_bytes::<F>() == 4 || elem_bytes::<
            F,
        >() == 8,
        limit(elem_bytes::<F>()) == mask(F::width()) + 1,
{
    F::lemma_width();
    lemma_limits();
}

/// The elements of a buffer are its words, decoded one by one.
proof fn lemma_unpack_words<F: BinaryField>(bytes: Seq<u8>)
    ensures
        unpack::<F>(bytes).len() == words(bytes, elem_bytes::<F>()).len(),
        forall|i: int|
            0 <= i < unpack::<F>(bytes).len() ==> #[trigger] unpack::<F>(bytes)[i] == F::of_raw(
                words(bytes, elem_bytes::<F>())[i] as u64,
            ) && words(bytes, elem_bytes::<F>())[i] <= mask(F::width()) && F::raw(
                unpack::<F>(bytes)[i],
            ) == words(bytes, elem_bytes::<F>())[i],
{
    lemma_elem_bytes::<F>();
    let n = elem_bytes::<F>();
    assert forall|i: int| 0 <= i < unpack::<F>(bytes).len() implies #[trigger] unpack::<F>(bytes)[i]
        == F::of_raw(words(bytes, n)[i] as u64) && words(bytes, n)[i] <= mask(F::width()) && F::raw(
        unpack::<F>(bytes)[i],
    ) == words(bytes, n)[i] by {
        lemma_word_bound(bytes, n, i);
        F::lemma_raw(unpack::<F>(bytes)[i], words(bytes, n)[i] as u64);
    }
}

/// A whole buffer is determined by the elements it holds.
pub proof fn law_elements_determine_bytes<F: BinaryField>(a: Seq<u8>, b: Seq<u8>)
    requires
        a.len() == b.len(),
        whole::<F>(a.len() as int),
        unpack::<F>(a) == unpack::<F>(b),
    ensures
        a == b,
{
    lemma_elem_bytes::<F>();
    lemma_unpack_words::<F>(a);
    lemma_unpack_words::<F>(b);
    let n = elem_bytes::<F>();
    assert forall|i: int| 0 <= i < words(a, n).len() implies words(a, n)[i] == words(b, n)[i] by {
        let (x, y) = (unpack::<F>(a)[i], unpack::<F>(b)[i]);
        assert(x == y);
        assert(F::raw(x) == words(a, n)[i] && F::raw(y) == words(b, n)[i]);
    }
    assert(words(a, n) =~= words(b, n));
    lemma_words_injective(a, b, n);
}

/// The elements of a concatenation.
pub proof fn lemma_unpack_concat<F: BinaryField>(a: Seq<u8>, b: Seq<u8>)
    requires
        whole::<F>(a.len() as int),
        whole::<F>(b.len() as int),
    ensures
        unpack::<F>(a + b) == unpack::<F>(a) + unpack::<F>(b),
        whole::<F>((a + b).len() as int),
        unpack::<F>(a).len() * elem_bytes::<F>() == a.len(),
{
    lemma_elem_bytes::<F>();
    lemma_words_concat(a, b, elem_bytes::<F>());
    lemma_unpack_words::<F>(a);
    lemma_unpack_words::<F>(b);
    lemma_unpack_words::<F>(a + b);
    let (s, t) = (unpack::<F>(a), unpack::<F>(b));
    let u = unpack::<F>(a + b);
    assert(u.len() == s.len() + t.len());
    assert forall|i: int| 0 <= i < u.len() implies u[i] == (s + t)[i] by {
        if i < s.len() {
            assert(s[i] == (s + t)[i]);
        } else {
            assert(t[i - s.len()] == (s + t)[i]);
        }
    }
    assert(u =~= s + t);
}

/// The elements of the two parts of a buffer split on an element boundary.
pub proof fn lemma_unpack_split<F: BinaryField>(bytes: Seq<u8>, mid: int)
    requires
        whole::<F>(bytes.len() as int),
        whole::<F>(mid),
        0 <= mid <= bytes.len(),
    ensures
        ({
            let k = mid / (elem_bytes::<F>() as int);
            let s = unpack::<F>(bytes);
            &&& 0 <= k <= s.len()
            &&& unpack::<F>(bytes.subrange(0, mid)) == s.subrange(0, k)
            &&& unpack::<F>(bytes.subrange(mid, bytes.len() as int)) == s.subrange(
                k,
                s.len() as int,
            )
            &&& whole::<F>(bytes.len() - mid)
        }),
{
    lemma_elem_bytes::<F>();
    let a = bytes.subrange(0, mid);
    let b = bytes.subrange(mid, bytes.len() as int);
    lemma_whole_parts(bytes.len() as int, mid, elem_bytes::<F>() as int);
    lemma_whole_parts(mid, bytes.len() as int, elem_bytes::<F>() as int);
    lemma_unpack_concat::<F>(a, b);
    assert(a + b =~= bytes);
    let k = mid / (elem_bytes::<F>() as int);
    let s = unpack::<F>(bytes);
    assert(unpack::<F>(a) =~= s.subrange(0, k));
    assert(unpack::<F>(b) =~= s.subrange(k, s.len() as int));
}

/// Decode the element with index `index` of a packed buffer.
pub fn read_elem<F: BinaryField>(bytes: &[u8], index: usize) -> (e: F::Elem)
    requires
        index < unpack::<F>(bytes@).len(),
    ensures
        e == unpack::<F>(bytes@)[index as int],
{
    proof {
        lemma_elem_bytes::<F>();
        lemma_unpack_words::<F>(bytes@);
        let e = unpack::<F>(bytes@)[index as int];
        assert(F::raw(e) == words(bytes@, elem_bytes::<F>())[index as int]);
    }
    let value = read_word(bytes, F::bytes(), index);
    F::from_bits(value)
}

/// Encode `e` as the element with index `index` of a packed buffer.
pub fn write_elem<F: BinaryField>(bytes: &mut [u8], index: usize, e: F::Elem)
    requires
        index < unpack::<F>(old(bytes)@).len(),
        whole::<F>(old(bytes)@.len() as int),
    ensures
        final(bytes)@.len() == old(bytes)@.len(),
        unpack::<F>(final(bytes)@) == unpack::<F>(old(bytes)@).update(index as int, e),
{
    let ghost before = bytes@;
    proof {
        lemma_elem_bytes::<F>();
        F::lemma_raw(e, 0);
        lemma_unpack_words::<F>(before);
    }
    write_word(bytes, F::bytes(), index, F::to_bits(e));
    proof {
        lemma_unpack_words::<F>(bytes@);
        let s = unpack::<F>(before);
        let t = unpack::<F>(bytes@);
        assert forall|i: int| 0 <= i < t.len() implies t[i] == s.update(index as int, e)[i] by {
            assert(t[i] == F::of_raw(words(bytes@, elem_bytes::<F>())[i] as u64));
            assert(s[i] == s[i]);
        }
        assert(t =~= s.update(index as int, e));
    }
}

/// Elements are packed in order and little-endian: the first byte of an element holds
/// its low bits.
pub proof fn law_elements_are_little_endian<F: BinaryField>(bytes: Seq<u8>, i: int)
    requires
        0 <= i < bytes.len() / elem_bytes::<F>(),
    ensures
        8 * elem_bytes::<F>() == F::width(),
        unpack::<F>(bytes).len() == bytes.len() / elem_bytes::<F>(),
        F::width() == 8 ==> F::raw(unpack::<F>(bytes)[i]) == bytes[i],
        F::width() == 16 ==> F::raw(unpack::<F>(bytes)[i]) == bytes[2 * i] + 0x100 * bytes[2 * i
            + 1],
        F::width() == 32 ==> F::raw(unpack::<F>(bytes)[i]) == bytes[4 * i] + 0x100 * bytes[4 * i
            + 1] + 0x1_0000 * bytes[4 * i + 2] + 0x100_0000 * bytes[4 * i + 3],
        F::width() == 64 ==> F::raw(unpack::<F>(bytes)[i]) == bytes[8 * i] + 0x100 * bytes[8 * i
            + 1] + 0x1_0000 * bytes[8 * i + 2] + 0x100_0000 * bytes[8 * i + 3] + 0x1_0000_0000
            * bytes[8 * i + 4] + 0x100_0000_0000 * bytes[8 * i + 5] + 0x1_0000_0000_0000 * bytes[8
            * i + 6] + 0x100_0000_0000_0000 * bytes[8 * i + 7],
{
    lemma_elem_bytes::<F>();
    F::lemma_width();
    lemma_unpack_words::<F>(bytes);
    law_words_are_little_endian(bytes, elem_bytes::<F>(), i);
}

} // verus!
