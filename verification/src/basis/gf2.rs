//! GF(2) linear algebra on field elements viewed as bit vectors.

use vstd::prelude::*;

use crate::field::tower::lemma_xor;

verus! {

/// Whether bit `k` of `x` is set.
pub open spec fn bit(x: u64, k: int) -> bool {
    (x >> (k as u64)) & 1 == 1
}

/// The sum of the columns at the set bits of `selection`.
pub open spec fn select(columns: Seq<u64>, selection: u64) -> u64
    decreases columns.len(),
{
    if columns.len() == 0 {
        0
    } else {
        let rest = select(columns.drop_last(), selection);
        if bit(selection, columns.len() - 1) {
            rest ^ columns.last()
        } else {
            rest
        }
    }
}

/// Whether only the lowest `n` bits of `x` can be set.
pub open spec fn below(x: u64, n: int) -> bool {
    n >= 64 || x >> (n as u64) == 0
}

/// Whether `target` is the sum of a subset of the columns.
pub open spec fn solvable(columns: Seq<u64>, target: u64) -> bool {
    exists|c: u64| below(c, columns.len() as int) && #[trigger] select(columns, c) == target
}

/// Whether no column is the sum of columns before it.
pub open spec fn columns_independent(columns: Seq<u64>) -> bool {
    forall|k: int|
        0 <= k < columns.len() ==> !solvable(columns.subrange(0, k), #[trigger] columns[k])
}

/// The number of columns that are not the sum of columns before them.
pub open spec fn rank(columns: Seq<u64>) -> nat
    decreases columns.len(),
{
    if columns.len() == 0 {
        0
    } else {
        rank(columns.drop_last()) + (if solvable(columns.drop_last(), columns.last()) {
            0nat
        } else {
            1nat
        })
    }
}

proof fn lemma_rank(columns: Seq<u64>)
    ensures
        rank(columns) <= columns.len(),
        rank(columns) == columns.len() <==> columns_independent(columns),
    decreases columns.len(),
{
    if columns.len() > 0 {
        let rest = columns.drop_last();
        let n = rest.len() as int;
        lemma_rank(rest);
        assert(columns.subrange(0, n) =~= rest);
        assert forall|k: int| 0 <= k < n implies #[trigger] rest.subrange(0, k) == columns.subrange(
            0,
            k,
        ) by {
            assert(rest.subrange(0, k) =~= columns.subrange(0, k));
        }
        if columns_independent(columns) {
            assert forall|k: int| 0 <= k < rest.len() implies !solvable(
                rest.subrange(0, k),
                #[trigger] rest[k],
            ) by {
                assert(rest[k] == columns[k]);
            }
            assert(columns[n] == columns.last());
        }
        if rank(columns) == columns.len() {
            assert forall|k: int| 0 <= k < columns.len() implies !solvable(
                columns.subrange(0, k),
                #[trigger] columns[k],
            ) by {
                if k < n {
                    assert(rest[k] == columns[k]);
                }
            }
        }
    }
}

proof fn lemma_bit_facts(a: u64, b: u64, k: u64)
    by (bit_vector)
    requires
        k < 64,
    ensures
        ((a ^ b) >> k) & 1 == ((a >> k) & 1) ^ ((b >> k) & 1),
        (a >> k) & 1 == 0 || (a >> k) & 1 == 1,
        (0u64 >> k) & 1 == 0,
        a >> k == 0 && b >> k == 0 ==> (a ^ b) >> k == 0,
        0u64 >> k == 0,
        k < 63 && a >> k == 0 ==> a >> ((k + 1) as u64) == 0,
        k < 63 && a >> ((k + 1) as u64) == 0 && (a >> k) & 1 == 0 ==> a >> k == 0,
        k == 63 && (a >> k) & 1 == 0 ==> a >> k == 0,
        k < 63 && a >> ((k + 1) as u64) == 0 && (a >> k) & 1 == 1 ==> a >> k == 1,
        k == 63 && (a >> k) & 1 == 1 ==> a >> k == 1,
        a >> k == 1 ==> (a >> k) & 1 == 1,
        a >> k == 1 && k < 63 ==> a >> ((k + 1) as u64) == 0,
        a >> k == 1 && b >> k == 1 ==> (a ^ b) >> k == 0,
        k == 0 && a >> k == 0 ==> a == 0,
        (1u64 << k) >> k == 1,
        k < 63 ==> (1u64 << k) >> ((k + 1) as u64) == 0,
{
}

proof fn lemma_one_bits(j: u64, k: u64)
    by (bit_vector)
    requires
        j < 64,
        k < 64,
    ensures
        ((1u64 << k) >> j) & 1 == (if j == k { 1u64 } else { 0u64 }),
        1u64 ^ 1 == 0,
        1u64 ^ 0 == 1,
        0u64 ^ 1 == 1,
        0u64 ^ 0 == 0,
{
}

pub(crate) proof fn lemma_bit_xor(a: u64, b: u64, k: int)
    requires
        0 <= k < 64,
    ensures
        bit(a ^ b, k) == (bit(a, k) != bit(b, k)),
{
    lemma_bit_facts(a, b, k as u64);
    lemma_bit_facts(b, b, k as u64);
    lemma_one_bits(0, 0);
}

/// The sum selected by a sum of selections is the sum of the selected sums.
pub proof fn lemma_select_xor(columns: Seq<u64>, a: u64, b: u64)
    requires
        columns.len() <= 64,
    ensures
        select(columns, a ^ b) == select(columns, a) ^ select(columns, b),
    decreases columns.len(),
{
    if columns.len() == 0 {
        lemma_xor(0, 0, 0);
    } else {
        let rest = columns.drop_last();
        lemma_select_xor(rest, a, b);
        let (x, y, c) = (select(rest, a), select(rest, b), columns.last());
        lemma_bit_xor(a, b, columns.len() - 1);
        lemma_xor(x, y, c);
        lemma_xor(x, c, y);
        lemma_xor(y, c, c);
        lemma_xor(c, y, c);
        lemma_xor(c, c, y);
        lemma_xor(x ^ c, y, c);
        lemma_xor(x, c, y ^ c);
        lemma_xor(c, y, y);
        lemma_xor(y, y, y);
    }
}

/// A selection of the columns before the last selects the same sum.
proof fn lemma_select_prefix(columns: Seq<u64>, c: u64)
    requires
        1 <= columns.len() <= 64,
        below(c, columns.len() - 1),
    ensures
        select(columns, c) == select(columns.drop_last(), c),
        below(c, columns.len() as int),
{
    let n = (columns.len() - 1) as u64;
    lemma_bit_facts(c, c, n);
    assert(0u64 & 1 == 0) by (bit_vector);
}

pub(crate) proof fn lemma_below_xor(a: u64, b: u64, n: int)
    requires
        below(a, n),
        below(b, n),
        0 <= n,
    ensures
        below(a ^ b, n),
        below(0, n),
{
    if n < 64 {
        lemma_bit_facts(a, b, n as u64);
    }
}

/// Selecting one column.
pub(crate) proof fn lemma_select_one(columns: Seq<u64>, k: int)
    requires
        0 <= k < columns.len() <= 64,
    ensures
        select(columns, 1u64 << (k as u64)) == columns[k],
        below(1u64 << (k as u64), k + 1),
    decreases columns.len(),
{
    let c = 1u64 << (k as u64);
    lemma_bit_facts(c, c, k as u64);
    let n = columns.len() - 1;
    lemma_one_bits(n as u64, k as u64);
    let rest = columns.drop_last();
    if k < n {
        lemma_select_one(rest, k);
    } else {
        assert forall|j: int| 0 <= j < rest.len() implies !#[trigger] bit(c, j) by {
            lemma_one_bits(j as u64, k as u64);
        }
        lemma_select_none(rest, c);
        lemma_xor(columns.last(), 0, 0);
    }
}

/// Selecting a column that is not there gives zero.
pub(crate) proof fn lemma_select_none(columns: Seq<u64>, c: u64)
    requires
        columns.len() <= 64,
        forall|j: int| 0 <= j < columns.len() ==> !#[trigger] bit(c, j),
    ensures
        select(columns, c) == 0,
    decreases columns.len(),
{
    if columns.len() > 0 {
        assert(!bit(c, columns.len() - 1));
        lemma_select_none(columns.drop_last(), c);
    }
}

/// A pivot: a nonzero value whose leading bit is its slot, and the selection of
/// columns that sums to it.
#[derive(Clone, Copy)]
pub struct Pivot {
    pub value: u64,
    pub combination: u64,
}

/// Whether `value` is the sum of pivots in the slots below `n`.
spec fn reached(pivots: Seq<Option<Pivot>>, n: nat, value: u64) -> bool
    decreases n,
{
    if n == 0 {
        value == 0
    } else {
        reached(pivots, (n - 1) as nat, value) || (pivots[n - 1] is Some && reached(
            pivots,
            (n - 1) as nat,
            value ^ pivots[n - 1]->0.value,
        ))
    }
}

/// The number of pivots in the slots below `n`.
spec fn taken(pivots: Seq<Option<Pivot>>, n: nat) -> nat
    decreases n,
{
    if n == 0 {
        0
    } else {
        taken(pivots, (n - 1) as nat) + (if pivots[n - 1] is Some {
            1nat
        } else {
            0nat
        })
    }
}

proof fn lemma_taken_update(pivots: Seq<Option<Pivot>>, slot: int, pivot: Pivot, n: nat)
    requires
        0 <= slot < pivots.len(),
        n <= pivots.len(),
        pivots[slot] is None,
    ensures
        taken(pivots.update(slot, Some(pivot)), n) == taken(pivots, n) + (if slot < n {
            1nat
        } else {
            0nat
        }),
    decreases n,
{
    if n > 0 {
        lemma_taken_update(pivots, slot, pivot, (n - 1) as nat);
    }
}

proof fn lemma_none_taken(pivots: Seq<Option<Pivot>>, n: nat)
    requires
        n <= pivots.len(),
        forall|k: int| 0 <= k < n ==> (#[trigger] pivots[k]) is None,
    ensures
        taken(pivots, n) == 0,
    decreases n,
{
    if n > 0 {
        lemma_none_taken(pivots, (n - 1) as nat);
    }
}

proof fn lemma_all_taken(pivots: Seq<Option<Pivot>>, w: nat, n: nat)
    requires
        w <= n <= pivots.len(),
        forall|k: int| 0 <= k < w ==> (#[trigger] pivots[k]) is Some,
    ensures
        taken(pivots, n) >= w,
    decreases n,
{
    if n > 0 {
        if w == n {
            lemma_all_taken(pivots, (w - 1) as nat, (n - 1) as nat);
        } else {
            lemma_all_taken(pivots, w, (n - 1) as nat);
        }
    }
}

proof fn lemma_taken_low(pivots: Seq<Option<Pivot>>, w: nat, n: nat)
    requires
        w <= n <= pivots.len(),
        forall|k: int| w <= k < n ==> (#[trigger] pivots[k]) is None,
    ensures
        taken(pivots, n) == taken(pivots, w),
    decreases n,
{
    if w < n {
        lemma_taken_low(pivots, w, (n - 1) as nat);
    }
}

proof fn lemma_taken_full(pivots: Seq<Option<Pivot>>, n: nat)
    requires
        n <= pivots.len(),
    ensures
        taken(pivots, n) <= n,
        taken(pivots, n) == n ==> forall|k: int| 0 <= k < n ==> (#[trigger] pivots[k]) is Some,
    decreases n,
{
    if n > 0 {
        lemma_taken_full(pivots, (n - 1) as nat);
    }
}

/// With every slot below `n` taken, every value of `n` bits is a sum of pivots.
proof fn lemma_everything_reached(pivots: Seq<Option<Pivot>>, n: nat, x: u64)
    requires
        pivots_lead(pivots),
        n <= 64,
        forall|k: int| 0 <= k < n ==> (#[trigger] pivots[k]) is Some,
        below(x, n as int),
    ensures
        reached(pivots, n, x),
    decreases n,
{
    if n == 0 {
        lemma_bit_facts(x, x, 0);
    } else {
        let m = (n - 1) as nat;
        let p = pivots[m as int]->0.value;
        lemma_bit_facts(x, p, m as u64);
        lemma_bit_facts(p, p, m as u64);
        if bit(x, m as int) {
            lemma_everything_reached(pivots, m, x ^ p);
        } else {
            lemma_everything_reached(pivots, m, x);
        }
    }
}

proof fn lemma_select_below(columns: Seq<u64>, w: int, c: u64)
    requires
        columns.len() <= 64,
        0 <= w,
        forall|j: int| 0 <= j < columns.len() ==> below(#[trigger] columns[j], w),
    ensures
        below(select(columns, c), w),
    decreases columns.len(),
{
    if columns.len() == 0 {
        if w < 64 {
            lemma_bit_facts(0, 0, w as u64);
        }
    } else {
        let rest = columns.drop_last();
        assert forall|j: int| 0 <= j < rest.len() implies below(#[trigger] rest[j], w) by {
            assert(rest[j] == columns[j]);
        }
        lemma_select_below(rest, w, c);
        assert(columns[columns.len() - 1] == columns.last());
        lemma_below_xor(select(rest, c), columns.last(), w);
    }
}

/// Whether every pivot stands in the slot of its leading bit.
spec fn pivots_lead(pivots: Seq<Option<Pivot>>) -> bool {
    &&& pivots.len() == 64
    &&& forall|k: int|
        0 <= k < 64 && (#[trigger] pivots[k]) is Some ==> pivots[k]->0.value >> (k as u64) == 1
}

/// Whether every pivot is the sum of the columns that it records.
spec fn pivots_sum(pivots: Seq<Option<Pivot>>, columns: Seq<u64>) -> bool {
    forall|k: int|
        0 <= k < pivots.len() && (#[trigger] pivots[k]) is Some ==> {
            &&& below(pivots[k]->0.combination, columns.len() as int)
            &&& select(columns, pivots[k]->0.combination) == pivots[k]->0.value
        }
}

proof fn lemma_reached_zero(pivots: Seq<Option<Pivot>>, n: nat)
    ensures
        reached(pivots, n, 0),
    decreases n,
{
    if n > 0 {
        lemma_reached_zero(pivots, (n - 1) as nat);
    }
}

proof fn lemma_reached_xor(pivots: Seq<Option<Pivot>>, n: nat, a: u64, b: u64)
    requires
        n <= pivots.len(),
        reached(pivots, n, a),
        reached(pivots, n, b),
    ensures
        reached(pivots, n, a ^ b),
    decreases n,
{
    if n == 0 {
        lemma_xor(0, 0, 0);
    } else {
        let m = (n - 1) as nat;
        let p = pivots[n - 1]->0.value;
        let a_low = reached(pivots, m, a);
        let b_low = reached(pivots, m, b);
        lemma_xor(a, b, p);
        lemma_xor(a, p, b);
        lemma_xor(b, p, p);
        lemma_xor(p, b, p);
        lemma_xor(p, p, b);
        lemma_xor(a ^ p, b, p);
        lemma_xor(a, p, b ^ p);
        lemma_xor(p, b, b);
        lemma_xor(b, b, b);
        if a_low && b_low {
            lemma_reached_xor(pivots, m, a, b);
        } else if a_low {
            lemma_reached_xor(pivots, m, a, b ^ p);
        } else if b_low {
            lemma_reached_xor(pivots, m, a ^ p, b);
        } else {
            lemma_reached_xor(pivots, m, a ^ p, b ^ p);
        }
    }
}

/// Sums of pivots in low slots are small.
proof fn lemma_reached_below(pivots: Seq<Option<Pivot>>, n: nat, v: u64)
    requires
        pivots_lead(pivots),
        n <= 64,
        reached(pivots, n, v),
    ensures
        below(v, n as int),
    decreases n,
{
    if n == 0 {
        lemma_bit_facts(0, 0, 0);
    } else {
        let m = (n - 1) as nat;
        if reached(pivots, m, v) {
            lemma_reached_below(pivots, m, v);
            lemma_bit_facts(v, v, m as u64);
        } else {
            let p = pivots[n - 1]->0.value;
            lemma_reached_below(pivots, m, v ^ p);
            lemma_bit_facts(v ^ p, v ^ p, m as u64);
            lemma_bit_facts(p, p, m as u64);
            lemma_xor(v, p, p);
            lemma_xor(p, p, v);
            if n < 64 {
                lemma_bit_facts(v ^ p, p, n as u64);
            }
        }
    }
}

/// The slot of the leading bit of a nonzero sum of pivots is taken.
proof fn lemma_reached_leading(pivots: Seq<Option<Pivot>>, n: nat, v: u64, lead: int)
    requires
        pivots_lead(pivots),
        n <= 64,
        0 <= lead < 64,
        reached(pivots, n, v),
        v >> (lead as u64) == 1,
    ensures
        pivots[lead] is Some,
    decreases n,
{
    lemma_bit_facts(v, v, lead as u64);
    if n == 0 {
    } else {
        let m = (n - 1) as nat;
        if reached(pivots, m, v) {
            lemma_reached_leading(pivots, m, v, lead);
        } else {
            let p = pivots[n - 1]->0.value;
            lemma_reached_below(pivots, m, v ^ p);
            if lead == n - 1 {
            } else if lead < n - 1 {
                // Slot n - 1 would leave its bit set.
                lemma_shift_more(v, lead, n - 1);
                lemma_bit_facts(v, p, m as u64);
                lemma_bit_facts(p, p, m as u64);
                lemma_bit_facts(v ^ p, v ^ p, m as u64);
                lemma_one_bits(0, 0);
                assert(0u64 & 1 == 0) by (bit_vector);
                assert(false);
            } else {
                lemma_reached_below(pivots, n, v);
                lemma_shift_zero(v, n as int, lead);
                assert(false);
            }
        }
    }
}

proof fn lemma_shift_more(v: u64, lead: int, k: int)
    requires
        0 <= lead < k < 64,
        v >> (lead as u64) == 1,
    ensures
        v >> (k as u64) == 0,
    decreases k,
{
    lemma_bit_facts(v, v, lead as u64);
    if k == lead + 1 {
    } else {
        lemma_shift_more(v, lead, k - 1);
        lemma_bit_facts(v, v, (k - 1) as u64);
    }
}

proof fn lemma_shift_zero(v: u64, n: int, k: int)
    requires
        0 <= n <= k < 64,
        v >> (n as u64) == 0,
    ensures
        v >> (k as u64) == 0,
    decreases k,
{
    if n < k {
        lemma_shift_zero(v, n, k - 1);
        lemma_bit_facts(v, v, (k - 1) as u64);
    }
}

/// Filling an empty slot keeps what was reached.
proof fn lemma_reached_more(pivots: Seq<Option<Pivot>>, slot: int, pivot: Option<Pivot>, n: nat, v: u64)
    requires
        pivots.len() == 64,
        0 <= slot < 64,
        pivots[slot] is None,
        n <= 64,
        reached(pivots, n, v),
    ensures
        reached(pivots.update(slot, pivot), n, v),
    decreases n,
{
    if n > 0 {
        let m = (n - 1) as nat;
        if reached(pivots, m, v) {
            lemma_reached_more(pivots, slot, pivot, m, v);
        } else {
            lemma_reached_more(pivots, slot, pivot, m, v ^ pivots[n - 1]->0.value);
        }
    }
}

/// A pivot is reached.
proof fn lemma_reached_pivot(pivots: Seq<Option<Pivot>>, slot: int, n: nat)
    requires
        0 <= slot < n <= pivots.len(),
        pivots[slot] is Some,
    ensures
        reached(pivots, n, pivots[slot]->0.value),
    decreases n,
{
    let p = pivots[slot]->0.value;
    if slot == n - 1 {
        lemma_xor(p, p, p);
        lemma_reached_zero(pivots, (n - 1) as nat);
    } else {
        lemma_reached_pivot(pivots, slot, (n - 1) as nat);
    }
}

/// If every column is reached, so is every sum of columns.
proof fn lemma_select_reached(pivots: Seq<Option<Pivot>>, columns: Seq<u64>, c: u64)
    requires
        pivots.len() == 64,
        columns.len() <= 64,
        forall|j: int| 0 <= j < columns.len() ==> reached(pivots, 64, #[trigger] columns[j]),
    ensures
        reached(pivots, 64, select(columns, c)),
    decreases columns.len(),
{
    if columns.len() == 0 {
        lemma_reached_zero(pivots, 64);
    } else {
        let rest = columns.drop_last();
        assert forall|j: int| 0 <= j < rest.len() implies reached(
            pivots,
            64,
            #[trigger] rest[j],
        ) by {
            assert(rest[j] == columns[j]);
        }
        lemma_select_reached(pivots, rest, c);
        assert(columns[columns.len() - 1] == columns.last());
        lemma_reached_xor_last(pivots, select(rest, c), columns.last());
    }
}

proof fn lemma_reached_xor_last(pivots: Seq<Option<Pivot>>, a: u64, b: u64)
    requires
        pivots.len() == 64,
        reached(pivots, 64, a),
        reached(pivots, 64, b),
    ensures
        reached(pivots, 64, a ^ b),
{
    lemma_reached_xor(pivots, 64, a, b);
}

/// The index of the leading set bit.
pub(crate) fn leading_bit(value: u64) -> (k: usize)
    requires
        value != 0,
    ensures
        k < 64,
        value >> (k as u64) == 1,
{
    let mut k: u64 = 63;
    proof {
        lemma_bit_facts(value, value, 63);
    }
    while k > 0 && (value >> k) & 1 == 0
        invariant
            k < 64,
            value != 0,
            k < 63 ==> value >> ((k + 1) as u64) == 0,
        decreases k,
    {
        proof {
            lemma_bit_facts(value, value, k);
        }
        k = k - 1;
    }
    proof {
        lemma_bit_facts(value, value, k);
    }
    k as usize
}

/// A GF(2) linear system in reduced form, solved by XOR elimination.
///
/// Each column is reduced against the pivots already held and, if it survives,
/// becomes the pivot of its own leading bit.
pub struct XorSolver {
    pivots: Vec<Option<Pivot>>,
    filled: usize,
    width: usize,
    reduced: Ghost<Seq<u64>>,
}

impl XorSolver {
    /// The columns of the system.
    pub closed spec fn columns(&self) -> Seq<u64> {
        self.reduced@
    }

    /// The solver's invariant: it holds the reduced form of its columns.
    pub closed spec fn wf(&self) -> bool {
        let columns = self.reduced@;
        &&& columns.len() <= 64
        &&& self.width == columns.len()
        &&& pivots_lead(self.pivots@)
        &&& pivots_sum(self.pivots@, columns)
        &&& forall|j: int|
            0 <= j < columns.len() ==> reached(self.pivots@, 64, #[trigger] columns[j])
        &&& self.filled == rank(columns)
        &&& taken(self.pivots@, 64) == rank(columns)
    }

    /// Reduce `columns` into pivot form.
    pub fn new(columns: &[u64]) -> (r: Self)
        requires
            columns@.len() <= 64,
        ensures
            r.wf(),
            r.columns() == columns@,
    {
        let mut pivots: Vec<Option<Pivot>> = Vec::with_capacity(64);
        let mut slot: usize = 0;
        while slot < 64
            invariant
                slot <= 64,
                pivots@.len() == slot,
                forall|k: int| 0 <= k < slot ==> (#[trigger] pivots@[k]) is None,
            decreases 64 - slot,
        {
            pivots.push(None);
            slot = slot + 1;
        }
        let mut filled: usize = 0;
        let mut index: usize = 0;
        proof {
            lemma_none_taken(pivots@, 64);
        }
        assert(columns@.subrange(0, 0) =~= Seq::<u64>::empty());
        while index < columns.len()
            invariant
                index <= columns@.len() <= 64,
                filled <= index,
                filled == rank(columns@.subrange(0, index as int)),
                filled == taken(pivots@, 64),
                pivots_lead(pivots@),
                pivots_sum(pivots@, columns@.subrange(0, index as int)),
                forall|j: int| 0 <= j < index ==> reached(pivots@, 64, #[trigger] columns@[j]),
            decreases columns@.len() - index,
        {
            let ghost done = columns@.subrange(0, index as int);
            let ghost wider = columns@.subrange(0, index + 1);
            let column = columns[index];
            proof {
                assert(wider.drop_last() =~= done);
                assert(wider.last() == column);
                // Selections of the columns before stay selections of all.
                assert forall|k: int| 0 <= k < 64 && (#[trigger] pivots@[k]) is Some implies {
                    &&& below(pivots@[k]->0.combination, wider.len() as int)
                    &&& select(wider, pivots@[k]->0.combination) == pivots@[k]->0.value
                } by {
                    lemma_select_prefix(wider, pivots@[k]->0.combination);
                }
                lemma_select_one(wider, index as int);
                lemma_reached_zero(pivots@, 64);
                lemma_xor(column, column, column);
            }
            let mut value: u64 = column;
            let mut combination: u64 = 1u64 << (index as u64);
            let mut placed = false;
            while value != 0 && !placed
                invariant
                    index < columns@.len() <= 64,
                    wider == columns@.subrange(0, index + 1),
                    done == columns@.subrange(0, index as int),
                    wider.drop_last() == done,
                    wider.len() == index + 1,
                    pivots_lead(pivots@),
                    pivots_sum(pivots@, wider),
                    forall|j: int| 0 <= j < index ==> reached(pivots@, 64, #[trigger] columns@[j]),
                    reached(pivots@, 64, column ^ value) || placed,
                    placed ==> reached(pivots@, 64, column),
                    placed ==> !solvable(done, column),
                    !placed ==> pivots_sum(pivots@, done),
                    taken(pivots@, 64) == filled + (if placed {
                        1nat
                    } else {
                        0nat
                    }),
                    !placed ==> below(combination, wider.len() as int),
                    !placed ==> select(wider, combination) == value,
                decreases value, if placed {
                    0int
                } else {
                    1int
                },
            {
                let leading = leading_bit(value);
                let pivot = pivots[leading];
                match pivot {
                    None => {
                        let ghost before = pivots@;
                        pivots.set(leading, Some(Pivot { value, combination }));
                        proof {
                            lemma_taken_update(
                                before,
                                leading as int,
                                Pivot { value, combination },
                                64,
                            );
                            assert(pivots@ == before.update(
                                leading as int,
                                Some(Pivot { value, combination }),
                            ));
                            assert forall|j: int| 0 <= j < index implies reached(
                                pivots@,
                                64,
                                #[trigger] columns@[j],
                            ) by {
                                lemma_reached_more(
                                    before,
                                    leading as int,
                                    Some(Pivot { value, combination }),
                                    64,
                                    columns@[j],
                                );
                            }
                            lemma_reached_more(
                                before,
                                leading as int,
                                Some(Pivot { value, combination }),
                                64,
                                column ^ value,
                            );
                            lemma_reached_pivot(pivots@, leading as int, 64);
                            lemma_reached_xor(pivots@, 64, column ^ value, value);
                            lemma_xor(column, value, value);
                            lemma_xor(value, value, column);
                            lemma_xor(column, 0, 0);
                            if solvable(done, column) {
                                let c = choose|c: u64|
                                    below(c, done.len() as int) && #[trigger] select(done, c)
                                        == column;
                                assert forall|j: int| 0 <= j < done.len() implies reached(
                                    before,
                                    64,
                                    #[trigger] done[j],
                                ) by {
                                    assert(done[j] == columns@[j]);
                                }
                                lemma_select_reached(before, done, c);
                                lemma_reached_xor(before, 64, column, column ^ value);
                                lemma_xor(column, column, value);
                                lemma_xor(value, 0, 0);
                                lemma_reached_leading(before, 64, value, leading as int);
                            }
                        }
                        placed = true;
                    },
                    Some(Pivot { value: pivot_value, combination: pivot_combination }) => {
                        let ghost (v0, c0) = (value, combination);
                        proof {
                            lemma_reached_pivot(pivots@, leading as int, 64);
                            lemma_reached_xor(pivots@, 64, column ^ value, pivot_value);
                            lemma_xor(column, value, pivot_value);
                            lemma_select_xor(wider, combination, pivot_combination);
                            lemma_below_xor(combination, pivot_combination, wider.len() as int);
                            lemma_reduced(value, pivot_value, leading as u64);
                        }
                        value = value ^ pivot_value;
                        combination = combination ^ pivot_combination;
                    },
                }
            }
            proof {
                if !placed {
                    // The column is the sum of columns before it.
                    lemma_xor(column, 0, 0);
                    assert(reached(pivots@, 64, column));
                    assert(solvable(done, column)) by {
                        lemma_reached_solvable(pivots@, done, 64, column);
                    }
                }
                assert forall|j: int| 0 <= j < index + 1 implies reached(
                    pivots@,
                    64,
                    #[trigger] columns@[j],
                ) by {
                }
            }
            if placed {
                filled = filled + 1;
            }
            index = index + 1;
        }
        assert(columns@.subrange(0, columns@.len() as int) =~= columns@);
        XorSolver { pivots, filled, width: columns.len(), reduced: Ghost(columns@) }
    }

    /// The selection of columns that sums to `target`, or `None` if there is none.
    pub fn solve(&self, target: u64) -> (r: Option<u64>)
        requires
            self.wf(),
        ensures
            r is Some <==> solvable(self.columns(), target),
            r matches Some(c) ==> below(c, self.columns().len() as int) && select(self.columns(), c)
                == target,
    {
        let ghost columns = self.reduced@;
        let mut value: u64 = target;
        let mut combination: u64 = 0;
        proof {
            if columns.len() < 64 {
                lemma_bit_facts(0, 0, columns.len() as u64);
            }
            lemma_select_zero(columns);
            lemma_xor(target, 0, 0);
            lemma_reached_zero(self.pivots@, 64);
        }
        while value != 0
            invariant
                self.wf(),
                columns == self.reduced@,
                below(combination, columns.len() as int),
                target == value ^ select(columns, combination),
                reached(self.pivots@, 64, select(columns, combination)),
            decreases value,
        {
            let leading = leading_bit(value);
            match self.pivots[leading] {
                None => {
                    proof {
                        if solvable(columns, target) {
                            let c = choose|c: u64|
                                below(c, columns.len() as int) && #[trigger] select(columns, c)
                                    == target;
                            lemma_select_reached(self.pivots@, columns, c);
                            let s = select(columns, combination);
                            lemma_reached_xor(self.pivots@, 64, target, s);
                            lemma_xor(value, s, s);
                            lemma_xor(s, s, s);
                            lemma_xor(value, 0, 0);
                            lemma_reached_leading(self.pivots@, 64, value, leading as int);
                        }
                    }
                    return None;
                },
                Some(Pivot { value: pivot_value, combination: pivot_combination }) => {
                    proof {
                        lemma_reached_pivot(self.pivots@, leading as int, 64);
                        let s = select(columns, combination);
                        lemma_reached_xor(self.pivots@, 64, s, pivot_value);
                        lemma_select_xor(columns, combination, pivot_combination);
                        lemma_below_xor(combination, pivot_combination, columns.len() as int);
                        lemma_reduced(value, pivot_value, leading as u64);
                        lemma_shuffle(value, pivot_value, s);
                    }
                    value = value ^ pivot_value;
                    combination = combination ^ pivot_combination;
                },
            }
        }
        proof {
            let s = select(columns, combination);
            lemma_xor(s, 0, 0);
        }
        Some(combination)
    }

    /// If every unit vector below `w` is a sum of the `w` columns, the columns are
    /// independent.
    pub proof fn lemma_full(&self)
        requires
            self.wf(),
            forall|k: int|
                0 <= k < self.columns().len() ==> solvable(
                    self.columns(),
                    #[trigger] (1u64 << (k as u64)),
                ),
        ensures
            columns_independent(self.columns()),
    {
        let columns = self.reduced@;
        let w = columns.len();
        assert forall|k: int| 0 <= k < w implies (#[trigger] self.pivots@[k]) is Some by {
            let unit = 1u64 << (k as u64);
            assert(solvable(columns, unit));
            let c = choose|c: u64|
                below(c, columns.len() as int) && #[trigger] select(columns, c) == unit;
            lemma_select_reached(self.pivots@, columns, c);
            lemma_bit_facts(0, 0, k as u64);
            lemma_reached_leading(self.pivots@, 64, unit, k);
        }
        lemma_all_taken(self.pivots@, w, 64);
        lemma_rank(columns);
    }

    /// Independent columns of as many bits as there are columns reach everything
    /// of that many bits.
    pub proof fn lemma_complete(&self, x: u64)
        requires
            self.wf(),
            columns_independent(self.columns()),
            below(x, self.columns().len() as int),
            forall|j: int|
                0 <= j < self.columns().len() ==> below(
                    #[trigger] self.columns()[j],
                    self.columns().len() as int,
                ),
        ensures
            solvable(self.columns(), x),
    {
        let columns = self.reduced@;
        let w = columns.len();
        let pivots = self.pivots@;
        lemma_rank(columns);
        assert forall|k: int| w <= k < 64 implies (#[trigger] pivots[k]) is None by {
            if pivots[k] is Some {
                lemma_select_below(columns, w as int, pivots[k]->0.combination);
                lemma_shift_zero(pivots[k]->0.value, w as int, k);
            }
        }
        lemma_taken_low(pivots, w, 64);
        lemma_taken_full(pivots, w);
        lemma_everything_reached(pivots, w, x);
        lemma_reached_solvable(pivots, columns, w, x);
    }

    /// Whether the columns are independent: each of them filled a slot.
    pub fn independent(&self) -> (r: bool)
        requires
            self.wf(),
        ensures
            r == columns_independent(self.columns()),
    {
        proof {
            lemma_rank(self.reduced@);
        }
        self.filled == self.width
    }
}

proof fn lemma_shuffle(v: u64, p: u64, s: u64)
    by (bit_vector)
    ensures
        (v ^ p) ^ (s ^ p) == v ^ s,
{
}

/// Subtracting a pivot with the same leading bit makes a value smaller.
proof fn lemma_reduced(v: u64, p: u64, k: u64)
    by (bit_vector)
    requires
        k < 64,
        v >> k == 1,
        p >> k == 1,
    ensures
        v ^ p < v,
{
}

/// A sum of pivots is a sum of columns.
proof fn lemma_reached_solvable(pivots: Seq<Option<Pivot>>, columns: Seq<u64>, n: nat, v: u64)
    requires
        columns.len() <= 64,
        n <= pivots.len(),
        pivots_sum(pivots, columns),
        reached(pivots, n, v),
    ensures
        solvable(columns, v),
    decreases n,
{
    if n == 0 {
        lemma_select_zero(columns);
        assert(below(0, columns.len() as int)) by {
            if columns.len() < 64 {
                lemma_bit_facts(0, 0, columns.len() as u64);
            }
        }
        assert(select(columns, 0) == 0);
    } else {
        let m = (n - 1) as nat;
        if reached(pivots, m, v) {
            lemma_reached_solvable(pivots, columns, m, v);
        } else {
            let (p, c) = (pivots[n - 1]->0.value, pivots[n - 1]->0.combination);
            lemma_reached_solvable(pivots, columns, m, v ^ p);
            let d = choose|d: u64|
                below(d, columns.len() as int) && #[trigger] select(columns, d) == v ^ p;
            lemma_select_xor(columns, d, c);
            lemma_below_xor(d, c, columns.len() as int);
            lemma_xor(v, p, p);
            lemma_xor(p, p, v);
            lemma_xor(v, 0, 0);
            assert(select(columns, d ^ c) == v);
        }
    }
}

pub(crate) proof fn lemma_select_zero(columns: Seq<u64>)
    requires
        columns.len() <= 64,
    ensures
        select(columns, 0) == 0,
{
    assert forall|j: int| 0 <= j < columns.len() implies !#[trigger] bit(0, j) by {
        lemma_bit_facts(0, 0, j as u64);
    }
    lemma_select_none(columns, 0);
}

/// Independent columns sum to zero only where nothing is selected.
pub proof fn lemma_independent_injective(columns: Seq<u64>, c: u64)
    requires
        columns.len() <= 64,
        columns_independent(columns),
        below(c, columns.len() as int),
        select(columns, c) == 0,
    ensures
        c == 0,
    decreases columns.len(),
{
    if columns.len() == 0 {
        lemma_bit_facts(c, c, 0);
    } else {
        let rest = columns.drop_last();
        let n = rest.len() as int;
        assert(columns.subrange(0, n) =~= rest);
        assert(columns_independent(rest)) by {
            assert forall|k: int| 0 <= k < rest.len() implies !solvable(
                rest.subrange(0, k),
                #[trigger] rest[k],
            ) by {
                assert(rest.subrange(0, k) =~= columns.subrange(0, k));
                assert(rest[k] == columns[k]);
            }
        }
        lemma_bit_facts(c, c, n as u64);
        if bit(c, n) {
            // The last column would be a sum of the others.
            let unit = 1u64 << (n as u64);
            let d = c ^ unit;
            lemma_bit_facts(c, unit, n as u64);
            lemma_bit_facts(unit, unit, n as u64);
            lemma_select_xor(rest, c, unit);
            assert forall|j: int| 0 <= j < rest.len() implies !#[trigger] bit(unit, j) by {
                lemma_one_bits(j as u64, n as u64);
            }
            lemma_select_none(rest, unit);
            let s = select(rest, c);
            lemma_xor(s, 0, 0);
            lemma_xor(s, columns.last(), columns.last());
            lemma_xor(columns.last(), columns.last(), s);
            lemma_xor(columns.last(), s, s);
            lemma_xor(s, s, columns.last());
            lemma_xor_zero(s, columns.last());
            assert(below(d, n));
            assert(select(rest, d) == columns.last());
            assert(columns[n] == columns.last());
            assert(solvable(columns.subrange(0, n), columns[n]));
        } else {
            lemma_independent_injective(rest, c);
        }
    }
}

pub(crate) proof fn lemma_xor_zero(a: u64, b: u64)
    by (bit_vector)
    ensures
        a ^ b == 0 ==> a == b,
{
}

pub(crate) proof fn lemma_shift_step(v: u64, i: u64)
    by (bit_vector)
    requires
        i < 64,
    ensures
        i < 63 ==> (v >> i) >> 1 == v >> ((i + 1) as u64),
        v >> 0u64 == v,
{
}

} // verus!
