//! In-place transposition of a matrix of rows by following its cycles.

use vstd::arithmetic::div_mod::{lemma_fundamental_div_mod, lemma_fundamental_div_mod_converse};
use vstd::prelude::*;
use vstd::set_lib::{lemma_int_range, lemma_len_subset, set_int_range};

use crate::grid::{entry, lemma_place, lemma_row_order};

verus! {

/// The slot that ends up in slot `i` when a `height`-by-`width` matrix is
/// transposed.
#[verifier::opaque]
pub open spec fn source(i: int, height: int, width: int) -> int {
    i % height * width + i / height
}

/// Slot `width r + c` ends up in slot `height c + r`, and every slot below
/// `height * width` is the source of exactly one.
pub proof fn lemma_source(i: int, height: int, width: int)
    requires
        height > 0,
        width > 0,
        0 <= i < height * width,
    ensures
        0 <= source(i, height, width) < height * width,
        source(source(i, height, width), width, height) == i,
{
    reveal(source);
    let (r, c) = (i % height, i / height);
    lemma_fundamental_div_mod(i, height);
    assert(0 <= c < width) by (nonlinear_arith)
        requires
            i == height * c + r,
            0 <= r < height,
            0 <= i < height * width,
    ;
    lemma_place(r, c, width, height);
    let j = r * width + c;
    lemma_fundamental_div_mod_converse(j, width, r, c);
    assert(c * height == height * c) by (nonlinear_arith);
}

/// Two slots with the same source are the same.
proof fn lemma_source_injective(i: int, j: int, height: int, width: int)
    requires
        height > 0,
        width > 0,
        0 <= i < height * width,
        0 <= j < height * width,
        source(i, height, width) == source(j, height, width),
    ensures
        i == j,
{
    lemma_source(i, height, width);
    lemma_source(j, height, width);
}

/// Whether the flag of slot `i` is set.
pub open spec fn flagged(bits: Seq<u8>, i: int) -> bool {
    bits[i / 8] & (1u8 << ((i % 8) as u8)) != 0
}

proof fn lemma_flags()
    ensures
        forall|b: u8, i: u8, j: u8|
            i < 8 && j < 8 ==> ((#[trigger] (b | (1u8 << i)) & #[trigger] (1u8 << j) != 0) <==> (i
                == j || b & (1u8 << j) != 0)),
        forall|j: u8| j < 8 ==> 0u8 & #[trigger] (1u8 << j) == 0,
{
    assert(forall|b: u8, i: u8, j: u8|
        i < 8 && j < 8 ==> ((#[trigger] (b | (1u8 << i)) & #[trigger] (1u8 << j) != 0) <==> (i == j
            || b & (1u8 << j) != 0))) by (bit_vector);
    assert(forall|j: u8| j < 8 ==> 0u8 & #[trigger] (1u8 << j) == 0) by (bit_vector);
}

fn get_flag(bits: &[u8], i: usize) -> (b: bool)
    requires
        i < 8 * bits@.len(),
    ensures
        b == flagged(bits@, i as int),
{
    bits[i / 8] & (1u8 << ((i % 8) as u8)) != 0
}

fn set_flag(bits: &mut [u8], i: usize)
    requires
        i < 8 * old(bits)@.len(),
    ensures
        final(bits)@.len() == old(bits)@.len(),
        forall|j: int|
            0 <= j < 8 * old(bits)@.len() ==> (#[trigger] flagged(final(bits)@, j) <==> j == i
                || flagged(old(bits)@, j)),
{
    let ghost before = bits@;
    bits[i / 8] = bits[i / 8] | (1u8 << ((i % 8) as u8));
    proof {
        lemma_flags();
        assert forall|j: int| 0 <= j < 8 * before.len() implies (#[trigger] flagged(bits@, j) <==> j
            == i || flagged(before, j)) by {
            let b = before[i as int / 8];
            let (p, q) = ((i % 8) as u8, (j % 8) as u8);
            assert((((b | (1u8 << p)) & (1u8 << q)) != 0) <==> (p == q || b & (1u8 << q) != 0));
        }
    }
}

fn clear_flags(bits: &mut [u8])
    ensures
        final(bits)@.len() == old(bits)@.len(),
        forall|j: int| 0 <= j < 8 * old(bits)@.len() ==> !(#[trigger] flagged(final(bits)@, j)),
{
    let len: usize = bits.len();
    let mut i: usize = 0;
    while i < len
        invariant
            i <= len,
            bits@.len() == len,
            forall|k: int| 0 <= k < i ==> bits@[k] == 0,
        decreases len - i,
    {
        bits[i] = 0;
        i = i + 1;
    }
    proof {
        lemma_flags();
        assert forall|j: int| 0 <= j < 8 * len implies !(#[trigger] flagged(bits@, j)) by {
            assert(bits@[j / 8] == 0);
            let q = (j % 8) as u8;
            assert(0u8 & (1u8 << q) == 0);
        }
    }
}

/// Row `index` of a buffer that holds `size` rows lies within it.
proof fn lemma_row_fits(index: int, size: int, row_len: int, len: int)
    requires
        0 <= index < size,
        0 <= row_len,
        size * row_len <= len,
    ensures
        0 <= index * row_len,
        index * row_len + row_len <= size * row_len,
        index * row_len + row_len <= len,
{
    assert(0 <= index * row_len && index * row_len + row_len <= size * row_len) by (nonlinear_arith)
        requires
            0 <= index < size,
            0 <= row_len,
    ;
}

/// Copy row `index` into `temp`.
fn save_row(temp: &mut [u8], rows: &[u8], index: usize, row_len: usize, size: usize)
    requires
        old(temp)@.len() == row_len,
        size * row_len <= rows@.len(),
        index < size,
    ensures
        final(temp)@.len() == row_len,
        forall|l: int|
            0 <= l < row_len ==> #[trigger] final(temp)@[l] == entry(
                rows@,
                row_len as nat,
                index as int,
                l,
            ),
{
    let count: usize = rows.len();
    proof {
        lemma_row_fits(index as int, size as int, row_len as int, count as int);
    }
    let first: usize = index * row_len;
    let mut l: usize = 0;
    while l < row_len
        invariant
            l <= row_len,
            temp@.len() == row_len,
            first == index * row_len,
            first + row_len <= count,
            count == rows@.len(),
            forall|m: int|
                0 <= m < l ==> #[trigger] temp@[m] == entry(rows@, row_len as nat, index as int, m),
        decreases row_len - l,
    {
        temp[l] = rows[first + l];
        l = l + 1;
    }
}

/// Whether row `index` of `after` holds `row`, and every other byte is that of
/// `before`.
spec fn row_replaced(
    before: Seq<u8>,
    after: Seq<u8>,
    row: Seq<u8>,
    index: int,
    row_len: int,
) -> bool {
    &&& after.len() == before.len()
    &&& forall|i: int|
        0 <= i < before.len() ==> #[trigger] after[i] == if index * row_len <= i < index * row_len
            + row_len {
            row[i - index * row_len]
        } else {
            before[i]
        }
}

/// What a replaced row does to the rows and to the bytes behind them.
proof fn lemma_row_replaced(
    before: Seq<u8>,
    after: Seq<u8>,
    row: Seq<u8>,
    index: int,
    row_len: nat,
    size: int,
)
    requires
        row_replaced(before, after, row, index, row_len as int),
        row.len() == row_len,
        0 <= index < size,
        size * row_len <= before.len(),
    ensures
        forall|k: int, l: int|
            0 <= k < size && 0 <= l < row_len ==> #[trigger] entry(after, row_len, k, l) == if k
                == index {
                row[l]
            } else {
                entry(before, row_len, k, l)
            },
        forall|i: int| size * row_len <= i < before.len() ==> #[trigger] after[i] == before[i],
{
    lemma_row_fits(index, size, row_len as int, before.len() as int);
    assert forall|k: int, l: int| 0 <= k < size && 0 <= l < row_len implies #[trigger] entry(
        after,
        row_len,
        k,
        l,
    ) == (if k == index {
        row[l]
    } else {
        entry(before, row_len, k, l)
    }) by {
        lemma_place(k, l, row_len as int, size);
        lemma_row_order(k, index, l, row_len as int);
    }
}

/// Copy `temp` into row `index`.
fn load_row(rows: &mut [u8], temp: &[u8], index: usize, row_len: usize, size: usize)
    requires
        temp@.len() == row_len,
        size * row_len <= old(rows)@.len(),
        index < size,
    ensures
        row_replaced(old(rows)@, final(rows)@, temp@, index as int, row_len as int),
{
    let ghost before = rows@;
    let count: usize = rows.len();
    proof {
        lemma_row_fits(index as int, size as int, row_len as int, count as int);
    }
    let first: usize = index * row_len;
    let mut l: usize = 0;
    while l < row_len
        invariant
            l <= row_len,
            temp@.len() == row_len,
            first == index * row_len,
            first + row_len <= count,
            count == rows@.len(),
            before.len() == count,
            forall|i: int|
                0 <= i < count ==> #[trigger] rows@[i] == if first <= i < first + l {
                    temp@[i - first]
                } else {
                    before[i]
                },
        decreases row_len - l,
    {
        rows[first + l] = temp[l];
        l = l + 1;
    }
}

/// Copy row `from` onto row `to`.
fn move_row(rows: &mut [u8], to: usize, from: usize, row_len: usize, size: usize)
    requires
        size * row_len <= old(rows)@.len(),
        to < size,
        from < size,
        to != from,
    ensures
        row_replaced(
            old(rows)@,
            final(rows)@,
            old(rows)@.subrange(from * row_len, from * row_len + row_len),
            to as int,
            row_len as int,
        ),
{
    let ghost before = rows@;
    let count: usize = rows.len();
    proof {
        lemma_row_fits(to as int, size as int, row_len as int, count as int);
        lemma_row_fits(from as int, size as int, row_len as int, count as int);
        assert(from * row_len + row_len <= to * row_len || to * row_len + row_len <= from * row_len)
            by (nonlinear_arith)
            requires
                from != to,
                row_len >= 0,
        ;
    }
    let target: usize = to * row_len;
    let first: usize = from * row_len;
    let mut l: usize = 0;
    while l < row_len
        invariant
            l <= row_len,
            first + row_len <= count,
            target + row_len <= count,
            first + row_len <= target || target + row_len <= first,
            count == rows@.len(),
            before.len() == count,
            forall|i: int|
                0 <= i < count ==> #[trigger] rows@[i] == if target <= i < target + l {
                    before[i - target + first]
                } else {
                    before[i]
                },
        decreases row_len - l,
    {
        let byte = rows[first + l];
        rows[target + l] = byte;
        l = l + 1;
    }
}

/// Whether every slot has either been moved into place, if it is among the moved
/// ones, or is still the slot of the first matrix, and every byte behind the
/// slots is that of the first buffer.
spec fn partly_moved(
    v: Seq<u8>,
    now: Seq<u8>,
    moved: Set<int>,
    height: int,
    width: int,
    row_len: nat,
) -> bool {
    &&& now.len() == v.len()
    &&& forall|k: int, l: int|
        0 <= k < height * width && 0 <= l < row_len ==> #[trigger] entry(now, row_len, k, l)
            == entry(
            v,
            row_len,
            if moved.contains(k) {
                source(k, height, width)
            } else {
                k
            },
            l,
        )
    &&& forall|i: int|
        (height * width) * row_len <= i < v.len() ==> #[trigger] now[i] == v[i]
}

/// Whether the flags are those of a set of slots.
spec fn flags_of(bits: Seq<u8>, size: int, moved: Set<int>) -> bool {
    forall|i: int| 0 <= i < size ==> (#[trigger] flagged(bits, i) <==> moved.contains(i))
}

/// Whether a set of slots is a union of cycles.
#[verifier::opaque]
spec fn whole_cycles(moved: Set<int>, height: int, width: int) -> bool {
    &&& forall|i: int| moved.contains(i) ==> 0 <= i < height * width
    &&& forall|i: int|
        0 <= i < height * width ==> (#[trigger] moved.contains(i) <==> moved.contains(
            source(i, height, width),
        ))
}

/// Whether `moved` is a union of cycles and the part of one more cycle that
/// leads from `start` up to `current`.
#[verifier::opaque]
spec fn on_path(moved: Set<int>, start: int, current: int, height: int, width: int) -> bool {
    &&& forall|i: int| moved.contains(i) ==> 0 <= i < height * width
    &&& 0 <= current < height * width
    &&& !moved.contains(current)
    &&& current == start || moved.contains(start)
    &&& forall|i: int| #[trigger]
        moved.contains(i) ==> moved.contains(source(i, height, width)) || source(i, height, width)
            == current
    &&& forall|i: int|
        0 <= i < height * width && moved.contains(#[trigger] source(i, height, width))
            ==> moved.contains(i) || source(i, height, width) == start
    &&& current == start ==> source(start, height, width) != start && forall|i: int|
        0 <= i < height * width && #[trigger] source(i, height, width) == start
            ==> !moved.contains(i)
    &&& current != start ==> exists|i: int|
        moved.contains(i) && #[trigger] source(i, height, width) == current
}

/// A slot that no walked cycle holds starts a path.
proof fn lemma_path_start(moved: Set<int>, start: int, height: int, width: int)
    requires
        height > 0,
        width > 0,
        0 <= start < height * width,
        whole_cycles(moved, height, width),
        !moved.contains(start),
        source(start, height, width) != start,
    ensures
        on_path(moved, start, start, height, width),
{
    reveal(whole_cycles);
    reveal(on_path);
}

/// A path goes on until it comes back to its start.
proof fn lemma_path_step(moved: Set<int>, start: int, current: int, height: int, width: int)
    requires
        height > 0,
        width > 0,
        0 <= start < height * width,
        on_path(moved, start, current, height, width),
    ensures
        ({
            let next = source(current, height, width);
            let more = moved.insert(current);
            &&& !moved.contains(current)
            &&& 0 <= current < height * width
            &&& 0 <= next < height * width
            &&& next == start ==> whole_cycles(more, height, width) && more.contains(start)
            &&& next != start ==> on_path(more, start, next, height, width) && next != current
                && !moved.contains(next)
        }),
{
    reveal(on_path);
    reveal(whole_cycles);
    let size = height * width;
    let next = source(current, height, width);
    let more = moved.insert(current);
    lemma_source(current, height, width);
    if next == start {
        assert forall|i: int| 0 <= i < size implies (#[trigger] more.contains(i) <==> more.contains(
            source(i, height, width),
        )) by {
            let j = source(i, height, width);
            if j == start {
                lemma_source_injective(i, current, height, width);
            } else if j == current {
                let k = choose|k: int|
                    moved.contains(k) && #[trigger] source(k, height, width) == current;
                lemma_source_injective(i, k, height, width);
            }
        }
    } else {
        if moved.contains(next) {
            assert(moved.contains(current) || next == start);
        }
        if next == current {
            if current == start {
                assert(source(start, height, width) != start);
            } else {
                let i = choose|i: int|
                    moved.contains(i) && #[trigger] source(i, height, width) == current;
                lemma_source_injective(i, current, height, width);
            }
        }
        assert forall|i: int| 0 <= i < size && more.contains(
            #[trigger] source(i, height, width),
        ) implies more.contains(i) || source(i, height, width) == start by {
            let j = source(i, height, width);
            if j == current && current != start {
                let k = choose|k: int|
                    moved.contains(k) && #[trigger] source(k, height, width) == current;
                lemma_source_injective(i, k, height, width);
            }
        }
        assert(more.contains(current) && source(current, height, width) == next);
    }
}

/// Follow the cycle through `start`, moving every row on it into place.
fn move_cycle(
    rows: &mut [u8],
    row_len: usize,
    height: usize,
    width: usize,
    start: usize,
    bits: &mut [u8],
    temp: &mut [u8],
    Ghost(v): Ghost<Seq<u8>>,
    Ghost(before): Ghost<Set<int>>,
) -> (r: Ghost<Set<int>>)
    requires
        height > 0,
        width > 0,
        height * width <= usize::MAX,
        start < height * width,
        height * width <= 8 * old(bits)@.len(),
        (height * width) * row_len <= old(rows)@.len(),
        old(temp)@.len() == row_len,
        source(start as int, height as int, width as int) != start,
        !before.contains(start as int),
        flags_of(old(bits)@, height * width, before),
        partly_moved(v, old(rows)@, before, height as int, width as int, row_len as nat),
        whole_cycles(before, height as int, width as int),
    ensures
        final(temp)@.len() == old(temp)@.len(),
        final(bits)@.len() == old(bits)@.len(),
        before.subset_of(r@),
        r@.contains(start as int),
        flags_of(final(bits)@, height * width, r@),
        partly_moved(v, final(rows)@, r@, height as int, width as int, row_len as nat),
        whole_cycles(r@, height as int, width as int),
{
    let size: usize = height * width;
    let ghost h = height as int;
    let ghost w = width as int;
    let ghost n = row_len as nat;
    let ghost len = rows@.len();
    let ghost flags = bits@.len();
    save_row(temp, rows, start, row_len, size);
    let ghost t = temp@;
    proof {
        assert forall|l: int| 0 <= l < n implies #[trigger] t[l] == entry(v, n, start as int, l) by {
            let e = entry(rows@, n, start as int, l);
        }
        lemma_path_start(before, start as int, h, w);
        lemma_moved_finite(before, h, w);
    }
    let mut current: usize = start;
    let ghost mut moved: Set<int> = before;
    let mut done: bool = false;
    while !done
        invariant
            height > 0,
            width > 0,
            h == height,
            w == width,
            n == row_len,
            size == height * width,
            size == h * w,
            size <= 8 * flags,
            bits@.len() == flags,
            start < size,
            rows@.len() == len,
            size * row_len <= len,
            temp@.len() == row_len,
            t == temp@,
            forall|l: int| 0 <= l < n ==> #[trigger] t[l] == entry(v, n, start as int, l),
            partly_moved(v, rows@, moved, h, w, n),
            flags_of(bits@, size as int, moved),
            before.subset_of(moved),
            moved.finite(),
            !done ==> on_path(moved, start as int, current as int, h, w),
            done ==> whole_cycles(moved, h, w) && moved.contains(start as int),
            moved.len() <= size,
        decreases size - moved.len(),
    {
        let ghost c = current as int;
        let ghost old_moved = moved;
        let ghost now = rows@;
        proof {
            lemma_path_step(moved, start as int, c, h, w);
            lemma_moved_room(moved, c, size as int, h, w, start as int);
            lemma_step_fits(c, h, w);
        }
        set_flag(bits, current);
        let next: usize = current % height * width + current / height;
        proof {
            reveal(source);
            assert(next == source(c, h, w));
            moved = moved.insert(c);
        }
        if next == start {
            load_row(rows, temp, current, row_len, size);
            done = true;
            proof {
                lemma_row_replaced(now, rows@, t, c, n, size as int);
                lemma_placed(v, now, rows@, old_moved, c, h, w, n, t);
            }
        } else {
            move_row(rows, current, next, row_len, size);
            proof {
                lemma_row_fits(next as int, size as int, n as int, len as int);
                let row = now.subrange(next * n, next * n + n);
                lemma_row_replaced(now, rows@, row, c, n, size as int);
                assert forall|l: int| 0 <= l < n implies #[trigger] row[l] == entry(
                    v,
                    n,
                    source(c, h, w),
                    l,
                ) by {
                    let e = entry(now, n, next as int, l);
                }
                lemma_placed(v, now, rows@, old_moved, c, h, w, n, row);
            }
            current = next;
        }
    }
    Ghost(moved)
}

proof fn lemma_step_fits(c: int, h: int, w: int)
    requires
        h > 0,
        w > 0,
        0 <= c < h * w,
    ensures
        0 <= c % h * w,
        0 <= c / h,
        c % h * w + c / h < h * w,
{
    lemma_source(c, h, w);
    reveal(source);
    lemma_fundamental_div_mod(c, h);
    assert(0 <= c % h * w && 0 <= c / h) by (nonlinear_arith)
        requires
            h > 0,
            w > 0,
            c >= 0,
    ;
}

proof fn lemma_moved_finite(moved: Set<int>, h: int, w: int)
    requires
        h > 0,
        w > 0,
        whole_cycles(moved, h, w),
    ensures
        moved.finite(),
        moved.len() <= h * w,
{
    reveal(whole_cycles);
    assert(h * w >= 0) by (nonlinear_arith)
        requires
            h > 0,
            w > 0,
    ;
    lemma_int_range(0, h * w);
    lemma_len_subset(moved, set_int_range(0, h * w));
}

proof fn lemma_moved_room(moved: Set<int>, c: int, size: int, h: int, w: int, start: int)
    requires
        size == h * w,
        size >= 0,
        moved.finite(),
        on_path(moved, start, c, h, w),
    ensures
        moved.insert(c).finite(),
        moved.insert(c).len() == moved.len() + 1,
        moved.len() + 1 <= size,
{
    reveal(on_path);
    lemma_int_range(0, size);
    lemma_len_subset(moved.insert(c), set_int_range(0, size));
}

/// A slot that takes the row of its source has moved into place.
proof fn lemma_placed(
    v: Seq<u8>,
    now: Seq<u8>,
    after: Seq<u8>,
    moved: Set<int>,
    c: int,
    h: int,
    w: int,
    n: nat,
    t: Seq<u8>,
)
    requires
        partly_moved(v, now, moved, h, w, n),
        after.len() == now.len(),
        forall|l: int|
            0 <= l < n ==> #[trigger] t[l] == entry(v, n, source(c, h, w), l),
        forall|k: int, l: int|
            0 <= k < h * w && 0 <= l < n ==> #[trigger] entry(after, n, k, l) == if k == c {
                t[l]
            } else {
                entry(now, n, k, l)
            },
        forall|i: int| (h * w) * n <= i < now.len() ==> #[trigger] after[i] == now[i],
    ensures
        partly_moved(v, after, moved.insert(c), h, w, n),
{
    assert forall|k: int, l: int| 0 <= k < h * w && 0 <= l < n implies #[trigger] entry(
        after,
        n,
        k,
        l,
    ) == entry(
        v,
        n,
        if moved.insert(c).contains(k) {
            source(k, h, w)
        } else {
            k
        },
        l,
    ) by {
        if k != c {
            assert(entry(after, n, k, l) == entry(now, n, k, l));
        } else {
            assert(entry(after, n, k, l) == t[l]);
        }
    }
}

/// Whether `after` is `before` with its first `height * width` slots of `row_len`
/// bytes transposed and the bytes behind them left alone.
pub open spec fn transposed(
    before: Seq<u8>,
    after: Seq<u8>,
    row_len: nat,
    height: int,
    width: int,
) -> bool {
    &&& after.len() == before.len()
    &&& forall|k: int, l: int|
        0 <= k < height * width && 0 <= l < row_len ==> #[trigger] entry(after, row_len, k, l)
            == entry(before, row_len, source(k, height, width), l)
    &&& forall|i: int|
        (height * width) * row_len <= i < before.len() ==> #[trigger] after[i] == before[i]
}

/// A transposition moves slot `width r + c` to slot `height c + r`.
pub proof fn law_transpose_moves_slots(
    before: Seq<u8>,
    after: Seq<u8>,
    row_len: nat,
    height: int,
    width: int,
    r: int,
    c: int,
    l: int,
)
    requires
        transposed(before, after, row_len, height, width),
        0 <= r < height,
        0 <= c < width,
        0 <= l < row_len,
    ensures
        entry(after, row_len, height * c + r, l) == entry(before, row_len, width * r + c, l),
{
    reveal(source);
    let k = height * c + r;
    assert(c * height == height * c && width * height == height * width && r * width == width * r)
        by (nonlinear_arith);
    lemma_place(c, r, height, width);
    lemma_fundamental_div_mod_converse(k, height, c, r);
    assert(entry(after, row_len, k, l) == entry(before, row_len, source(k, height, width), l));
}

/// A transposition is undone by the one with height and width exchanged.
pub proof fn law_transpose_undoes_transpose(
    before: Seq<u8>,
    middle: Seq<u8>,
    after: Seq<u8>,
    row_len: nat,
    height: int,
    width: int,
)
    requires
        0 <= height,
        0 <= width,
        transposed(before, middle, row_len, height, width),
        transposed(middle, after, row_len, width, height),
    ensures
        after == before,
{
    let n = row_len as int;
    assert(width * height == height * width) by (nonlinear_arith);
    let size = height * width;
    assert forall|i: int| 0 <= i < before.len() implies after[i] == before[i] by {
        if i >= size * n {
            assert(middle[i] == before[i]);
        } else {
            assert(n > 0 && size > 0) by (nonlinear_arith)
                requires
                    0 <= i < size * n,
                    n >= 0,
            ;
            assert(height > 0 && width > 0) by (nonlinear_arith)
                requires
                    height * width > 0,
                    height >= 0,
                    width >= 0,
            ;
            let (k, l) = (i / n, i % n);
            lemma_fundamental_div_mod(i, n);
            assert(n * k == k * n) by (nonlinear_arith);
            assert(0 <= k < size) by (nonlinear_arith)
                requires
                    i == k * n + l,
                    0 <= l < n,
                    0 <= i < size * n,
            ;
            let m = source(k, width, height);
            lemma_source(k, width, height);
            assert(entry(after, row_len, k, l) == entry(middle, row_len, m, l));
            assert(entry(middle, row_len, m, l) == entry(
                before,
                row_len,
                source(m, height, width),
                l,
            ));
        }
    }
    assert(after =~= before);
}

/// Transpose a `height`-by-`width` matrix of slots of `row_len` bytes in place:
/// slot `width r + c` moves to slot `height c + r`. Bytes behind the matrix stay.
///
/// Each cycle of the permutation is followed through a one-slot temporary, with
/// one flag per slot for the cycles that were walked.
pub fn transpose_slots(
    rows: &mut [u8],
    row_len: usize,
    height: usize,
    width: usize,
    bits: &mut [u8],
    temp: &mut [u8],
)
    requires
        height * width <= usize::MAX,
        height * width <= 8 * old(bits)@.len(),
        (height * width) * row_len <= old(rows)@.len(),
        old(temp)@.len() == row_len,
    ensures
        transposed(old(rows)@, final(rows)@, row_len as nat, height as int, width as int),
        final(temp)@.len() == old(temp)@.len(),
        final(bits)@.len() == old(bits)@.len(),
{
    let size: usize = height * width;
    let ghost h = height as int;
    let ghost w = width as int;
    let ghost n = row_len as nat;
    let ghost v = rows@;
    let ghost flags = bits@.len();
    clear_flags(bits);
    let ghost mut moved: Set<int> = Set::empty();
    proof {
        reveal(whole_cycles);
        assert(size > 0 ==> height > 0 && width > 0) by (nonlinear_arith)
            requires
                size == height * width,
                height >= 0,
                width >= 0,
        ;
    }
    let mut start: usize = 0;
    while start < size
        invariant
            size > 0 ==> height > 0 && width > 0,
            h == height,
            w == width,
            n == row_len,
            start <= size,
            size == height * width,
            size == h * w,
            size <= 8 * flags,
            bits@.len() == flags,
            (height * width) * row_len <= v.len(),
            temp@.len() == row_len,
            partly_moved(v, rows@, moved, h, w, n),
            flags_of(bits@, size as int, moved),
            whole_cycles(moved, h, w),
            forall|i: int|
                0 <= i < start ==> #[trigger] moved.contains(i) || source(i, h, w) == i,
        decreases size - start,
    {
        proof {
            lemma_step_fits(start as int, h, w);
            reveal(source);
        }
        if !get_flag(bits, start) && start % height * width + start / height != start {
            let more = move_cycle(
                rows,
                row_len,
                height,
                width,
                start,
                bits,
                temp,
                Ghost(v),
                Ghost(moved),
            );
            proof {
                moved = more@;
            }
        }
        start = start + 1;
    }
    proof {
        assert forall|k: int, l: int| 0 <= k < h * w && 0 <= l < n implies #[trigger] entry(
            rows@,
            n,
            k,
            l,
        ) == entry(v, n, source(k, h, w), l) by {
            assert(moved.contains(k) || source(k, h, w) == k);
        }
    }
}

} // verus!
