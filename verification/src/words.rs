//! Little-endian words in a byte buffer.

use vstd::arithmetic::div_mod::{lemma_fundamental_div_mod, lemma_fundamental_div_mod_converse};
use vstd::prelude::*;

verus! {


/// The value of a little-endian byte string.
pub open spec fn le(bytes: Seq<u8>) -> nat
    decreases bytes.len(),
{
    if bytes.len() == 0 {
        0
    } else {
        bytes[0] as nat + 256 * le(bytes.drop_first())
    }
}

/// The first `n` little-endian bytes of `x`.
pub open spec fn le_bytes(x: nat, n: nat) -> Seq<u8>
    decreases n,
{
    if n == 0 {
        Seq::empty()
    } else {
        seq![(x % 256) as u8] + le_bytes(x / 256, (n - 1) as nat)
    }
}

/// `256^n`.
pub open spec fn limit(n: nat) -> nat
    decreases n,
{
    if n == 0 {
        1
    } else {
        256 * limit((n - 1) as nat)
    }
}

pub proof fn lemma_limits()
    ensures
        limit(1) == 0x100,
        limit(2) == 0x1_0000,
        limit(4) == 0x1_0000_0000,
        limit(8) == 0x1_0000_0000_0000_0000,
{
    reveal_with_fuel(limit, 9);
}

pub proof fn lemma_le_bound(bytes: Seq<u8>)
    ensures
        le(bytes) < limit(bytes.len()),
    decreases bytes.len(),
{
    if bytes.len() > 0 {
        lemma_le_bound(bytes.drop_first());
    }
}

/// Decoding inverts encoding.
pub proof fn lemma_le_of_bytes(x: nat, n: nat)
    requires
        x < limit(n),
    ensures
        le_bytes(x, n).len() == n,
        le(le_bytes(x, n)) == x,
    decreases n,
{
    if n > 0 {
        lemma_le_of_bytes(x / 256, (n - 1) as nat);
        let b = le_bytes(x, n);
        assert(b.drop_first() =~= le_bytes(x / 256, (n - 1) as nat));
    }
}

/// Encoding inverts decoding.
pub proof fn lemma_bytes_of_le(bytes: Seq<u8>)
    ensures
        le_bytes(le(bytes), bytes.len()) == bytes,
    decreases bytes.len(),
{
    if bytes.len() > 0 {
        lemma_bytes_of_le(bytes.drop_first());
        let x = le(bytes);
        let rest = le(bytes.drop_first());
        assert(x % 256 == bytes[0] && x / 256 == rest);
        assert(le_bytes(x, bytes.len()) =~= bytes);
    } else {
        assert(le_bytes(le(bytes), 0) =~= bytes);
    }
}

proof fn lemma_limit_monotone(a: nat, b: nat)
    requires
        a <= b,
    ensures
        limit(a) <= limit(b),
        limit(a) >= 1,
    decreases b,
{
    if a < b {
        lemma_limit_monotone(a, (b - 1) as nat);
    } else if b > 0 {
        lemma_limit_monotone((a - 1) as nat, (b - 1) as nat);
    }
}

/// A sum or a difference of multiples is a multiple, and quotients add up.
pub proof fn lemma_whole_parts(a: int, b: int, n: int)
    requires
        n > 0,
        a % n == 0,
        b % n == 0,
    ensures
        (a + b) % n == 0,
        (a - b) % n == 0,
        (a + b) / n == a / n + b / n,
        (a - b) / n == a / n - b / n,
        a / n * n == a,
        a >= 0 ==> a / n >= 0,
{
    lemma_fundamental_div_mod(a, n);
    lemma_fundamental_div_mod(b, n);
    let (x, y) = (a / n, b / n);
    assert(n * x == x * n) by (nonlinear_arith);
    assert(n * y == y * n) by (nonlinear_arith);
    assert((x + y) * n == x * n + y * n && (x - y) * n == x * n - y * n) by (nonlinear_arith);
    lemma_fundamental_div_mod_converse(a + b, n, x + y, 0);
    lemma_fundamental_div_mod_converse(a - b, n, x - y, 0);
    if a >= 0 {
        assert(x >= 0) by (nonlinear_arith)
            requires
                n > 0,
                x * n >= 0,
        ;
    }
}

/// The number in word `i` of a buffer of words of `w` bytes.
pub open spec fn word(bytes: Seq<u8>, w: nat, i: int) -> nat {
    le(bytes.subrange(i * w, i * w + w))
}

/// The numbers that a buffer of whole words holds.
pub open spec fn words(bytes: Seq<u8>, w: nat) -> Seq<nat> {
    Seq::new(bytes.len() / w, |i: int| word(bytes, w, i))
}

pub proof fn lemma_word_fits(len: int, w: int, i: int)
    requires
        w > 0,
        0 <= i < len / w,
    ensures
        0 <= i * w,
        (i + 1) * w <= len,
        (i + 1) * w == i * w + w,
{
    lemma_fundamental_div_mod(len, w);
    let q = len / w;
    assert(0 <= i * w && (i + 1) * w <= q * w && (i + 1) * w == i * w + w) by (nonlinear_arith)
        requires
            w > 0,
            0 <= i < q,
    ;
    assert(w * q == q * w) by (nonlinear_arith);
}

/// Every word is below the limit of its width.
pub proof fn lemma_word_bound(bytes: Seq<u8>, w: nat, i: int)
    requires
        w > 0,
        0 <= i < bytes.len() / w,
    ensures
        words(bytes, w)[i] < limit(w),
        0 <= i * w,
        i * w + w <= bytes.len(),
{
    lemma_word_fits(bytes.len() as int, w as int, i);
    lemma_le_bound(bytes.subrange(i * w, i * w + w));
}

/// A buffer of whole words is determined by them.
pub proof fn lemma_words_injective(a: Seq<u8>, b: Seq<u8>, w: nat)
    requires
        w > 0,
        a.len() == b.len(),
        a.len() % w == 0,
        words(a, w) == words(b, w),
    ensures
        a == b,
{
    let n = w as int;
    assert forall|j: int| 0 <= j < a.len() implies a[j] == b[j] by {
        let i = j / n;
        lemma_fundamental_div_mod(j, n);
        lemma_fundamental_div_mod(a.len() as int, n);
        let q = a.len() as int / n;
        assert(n * i == i * n) by (nonlinear_arith);
        assert(0 <= i < q) by (nonlinear_arith)
            requires
                n > 0,
                j == n * i + j % n,
                0 <= j % n < n,
                a.len() == n * q,
                0 <= j < a.len(),
        ;
        lemma_word_fits(a.len() as int, n, i);
        let x = a.subrange(i * n, i * n + n);
        let y = b.subrange(i * n, i * n + n);
        assert(words(a, w)[i] == words(b, w)[i]);
        assert(le(x) == word(a, w, i) && le(y) == word(b, w, i));
        lemma_bytes_of_le(x);
        lemma_bytes_of_le(y);
        assert(words(a, w)[i] == word(a, w, i) && words(b, w)[i] == word(b, w, i));
        assert(x.len() == w && y.len() == w);
        assert(x == y);
        assert(x[j - i * n] == a[j] && y[j - i * n] == b[j]);
    }
    assert(a =~= b);
}

/// The words of a concatenation.
pub proof fn lemma_words_concat(a: Seq<u8>, b: Seq<u8>, w: nat)
    requires
        w > 0,
        a.len() % w == 0,
        b.len() % w == 0,
    ensures
        words(a + b, w) == words(a, w) + words(b, w),
        (a + b).len() % w == 0,
        words(a, w).len() * w == a.len(),
{
    let n = w as int;
    let ab = a + b;
    lemma_whole_parts(a.len() as int, b.len() as int, n);
    lemma_whole_parts(b.len() as int, a.len() as int, n);
    assert forall|i: int| 0 <= i < ab.len() as int / n implies #[trigger] words(ab, w)[i] == (words(
        a,
        w,
    ) + words(b, w))[i] by {
        lemma_word_fits(ab.len() as int, n, i);
        let k = a.len() as int / n;
        if i < k {
            lemma_word_fits(a.len() as int, n, i);
            assert(ab.subrange(i * n, i * n + n) =~= a.subrange(i * n, i * n + n));
        } else {
            let j = i - k;
            assert(j * n == i * n - a.len()) by (nonlinear_arith)
                requires
                    j == i - k,
                    k * n == a.len(),
            ;
            assert(0 <= j < b.len() as int / n);
            lemma_word_fits(b.len() as int, n, j);
            assert(ab.subrange(i * n, i * n + n) =~= b.subrange(j * n, j * n + n));
        }
    }
    assert(words(ab, w) =~= words(a, w) + words(b, w));
}

/// The words of the two parts of a buffer split on a word boundary.
pub proof fn lemma_words_split(bytes: Seq<u8>, w: nat, mid: int)
    requires
        w > 0,
        bytes.len() % w == 0,
        mid % (w as int) == 0,
        0 <= mid <= bytes.len(),
    ensures
        ({
            let k = mid / (w as int);
            let s = words(bytes, w);
            &&& 0 <= k <= s.len()
            &&& words(bytes.subrange(0, mid), w) == s.subrange(0, k)
            &&& words(bytes.subrange(mid, bytes.len() as int), w) == s.subrange(k, s.len() as int)
            &&& (bytes.len() - mid) % (w as int) == 0
        }),
{
    let a = bytes.subrange(0, mid);
    let b = bytes.subrange(mid, bytes.len() as int);
    lemma_whole_parts(bytes.len() as int, mid, w as int);
    lemma_whole_parts(mid, bytes.len() as int, w as int);
    lemma_words_concat(a, b, w);
    assert(a + b =~= bytes);
    let k = mid / (w as int);
    let s = words(bytes, w);
    assert(words(a, w) =~= s.subrange(0, k));
    assert(words(b, w) =~= s.subrange(k, s.len() as int));
}

/// The number in word `index` of a buffer of words of `width` bytes.
pub fn read_word(bytes: &[u8], width: usize, index: usize) -> (value: u64)
    requires
        1 <= width <= 8,
        index < words(bytes@, width as nat).len(),
    ensures
        value == words(bytes@, width as nat)[index as int],
{
    let len: usize = bytes.len();
    proof {
        lemma_word_fits(bytes@.len() as int, width as int, index as int);
    }
    let start: usize = index * width;
    let ghost window = bytes@.subrange(start as int, start + width);
    let mut value: u64 = 0;
    let mut k: usize = width;
    proof {
        assert(window.subrange(width as int, width as int) =~= Seq::<u8>::empty());
    }
    while k > 0
        invariant
            k <= width,
            width <= 8,
            bytes@.len() == len,
            start + width <= len,
            window == bytes@.subrange(start as int, start + width),
            value == le(window.subrange(k as int, width as int)),
        decreases k,
    {
        k = k - 1;
        proof {
            let rest = window.subrange(k as int, width as int);
            assert(rest.drop_first() =~= window.subrange(k + 1, width as int));
            lemma_le_bound(rest);
            lemma_limit_monotone(rest.len(), 8);
            lemma_limits();
        }
        value = bytes[start + k] as u64 + 256 * value;
    }
    proof {
        assert(window.subrange(0, width as int) =~= window);
    }
    value
}

/// Store `number` as word `index` of a buffer of words of `width` bytes.
pub fn write_word(bytes: &mut [u8], width: usize, index: usize, number: u64)
    requires
        1 <= width <= 8,
        old(bytes)@.len() % (width as nat) == 0,
        index < words(old(bytes)@, width as nat).len(),
        number < limit(width as nat),
    ensures
        final(bytes)@.len() == old(bytes)@.len(),
        words(final(bytes)@, width as nat) == words(old(bytes)@, width as nat).update(
            index as int,
            number as nat,
        ),
{
    let len: usize = bytes.len();
    let ghost before = bytes@;
    proof {
        lemma_word_fits(bytes@.len() as int, width as int, index as int);
    }
    let start: usize = index * width;
    let mut value: u64 = number;
    let mut k: usize = 0;
    proof {
        lemma_le_of_bytes(number as nat, width as nat);
    }
    let ghost code = le_bytes(number as nat, width as nat);
    assert(code.subrange(0, width as int) =~= code);
    while k < width
        invariant
            k <= width,
            start + width <= len,
            bytes@.len() == len,
            before.len() == len,
            code.len() == width,
            code.subrange(k as int, width as int) == le_bytes(value as nat, (width - k) as nat),
            forall|j: int|
                0 <= j < before.len() ==> #[trigger] bytes@[j] == if start <= j < start + k {
                    code[j - start]
                } else {
                    before[j]
                },
        decreases width - k,
    {
        proof {
            let rest = code.subrange(k as int, width as int);
            assert(rest[0] == code[k as int]);
            assert(rest == seq![(value as nat % 256) as u8] + le_bytes(
                value as nat / 256,
                (width - k - 1) as nat,
            ));
            assert(rest.drop_first() =~= le_bytes(value as nat / 256, (width - k - 1) as nat));
            assert(rest.drop_first() =~= code.subrange(k + 1, width as int));
        }
        bytes[start + k] = (value % 256) as u8;
        value = value / 256;
        k = k + 1;
    }
    proof {
        let w = width as nat;
        let s = words(before, w);
        let t = words(bytes@, w);
        assert forall|i: int| 0 <= i < s.len() implies #[trigger] t[i] == s.update(
            index as int,
            number as nat,
        )[i] by {
            lemma_word_fits(before.len() as int, width as int, i);
            let at = i * width;
            if i == index {
                assert(bytes@.subrange(at, at + width) =~= code);
            } else {
                assert(at + width <= start || start + width <= at) by (nonlinear_arith)
                    requires
                        at == i * width,
                        start == index * width,
                        i != index,
                        width >= 1,
                ;
                assert(bytes@.subrange(at, at + width) =~= before.subrange(at, at + width));
            }
        }
        assert(t =~= s.update(index as int, number as nat));
    }
}

/// Words are little-endian: the first byte counts ones, and each further byte counts
/// 256 times what the one before it counts.
pub proof fn law_words_are_little_endian(bytes: Seq<u8>, w: nat, i: int)
    requires
        w == 1 || w == 2 || w == 4 || w == 8,
        0 <= i < bytes.len() / w,
    ensures
        words(bytes, w).len() == bytes.len() / w,
        w == 1 ==> words(bytes, w)[i] == bytes[i],
        w == 2 ==> words(bytes, w)[i] == bytes[2 * i] + 0x100 * bytes[2 * i + 1],
        w == 4 ==> words(bytes, w)[i] == bytes[4 * i] + 0x100 * bytes[4 * i + 1] + 0x1_0000
            * bytes[4 * i + 2] + 0x100_0000 * bytes[4 * i + 3],
        w == 8 ==> words(bytes, w)[i] == bytes[8 * i] + 0x100 * bytes[8 * i + 1] + 0x1_0000
            * bytes[8 * i + 2] + 0x100_0000 * bytes[8 * i + 3] + 0x1_0000_0000 * bytes[8 * i + 4]
            + 0x100_0000_0000 * bytes[8 * i + 5] + 0x1_0000_0000_0000 * bytes[8 * i + 6]
            + 0x100_0000_0000_0000 * bytes[8 * i + 7],
{
    lemma_word_fits(bytes.len() as int, w as int, i);
    let b = bytes.subrange(i * w, i * w + w);
    assert(i * w == w * i) by (nonlinear_arith);
    reveal_with_fuel(le, 9);
    assert forall|j: int| 0 <= j < w implies b[j] == bytes[w * i + j] by {
    }
    if w == 8 {
        assert(b[0] == bytes[8 * i] && b[1] == bytes[8 * i + 1] && b[2] == bytes[8 * i + 2] && b[3]
            == bytes[8 * i + 3] && b[4] == bytes[8 * i + 4] && b[5] == bytes[8 * i + 5] && b[6]
            == bytes[8 * i + 6] && b[7] == bytes[8 * i + 7]);
    }
}

} // verus!
