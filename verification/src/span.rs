//! Powers of two.

use vstd::prelude::*;

verus! {

/// `2^dim`, the number of rows of a transform of dimension `dim`.
pub open spec fn span(dim: nat) -> nat
    decreases dim,
{
    if dim == 0 {
        1
    } else {
        2 * span((dim - 1) as nat)
    }
}

/// Whether `size` is a power of two.
pub open spec fn is_span(size: nat) -> bool {
    exists|k: nat| #[trigger] span(k) == size
}

pub proof fn lemma_span_monotone(a: nat, b: nat)
    requires
        a <= b,
    ensures
        span(a) <= span(b),
        span(a) >= 1,
        a < b ==> span(a) < span(b),
    decreases b,
{
    if a < b {
        lemma_span_monotone(a, (b - 1) as nat);
    } else if b > 0 {
        lemma_span_monotone((a - 1) as nat, (b - 1) as nat);
    }
}

/// A power of two determines its exponent.
pub proof fn lemma_span_injective(a: nat, b: nat)
    requires
        span(a) == span(b),
    ensures
        a == b,
{
    if a < b {
        lemma_span_monotone(a, b);
    } else if b < a {
        lemma_span_monotone(b, a);
    }
}

pub proof fn lemma_span_add(a: nat, b: nat)
    ensures
        span(a + b) == span(a) * span(b),
    decreases a,
{
    if a == 0 {
        assert(span(a) * span(b) == span(b)) by (nonlinear_arith)
            requires
                span(a) == 1,
        ;
    } else {
        let c = (a - 1) as nat;
        lemma_span_add(c, b);
        assert((a + b - 1) as nat == c + b);
        assert(2 * (span(c) * span(b)) == (2 * span(c)) * span(b)) by (nonlinear_arith);
    }
}

/// An odd multiple of a power of two is a power of two only if the factor is one.
proof fn lemma_odd_factor(odd: nat, k: nat, m: nat)
    requires
        odd % 2 == 1,
        odd * span(k) == span(m),
    ensures
        odd == 1,
    decreases m,
{
    if m == 0 {
        assert(odd == 1) by (nonlinear_arith)
            requires
                odd * span(k) == 1,
                odd >= 1,
        ;
    } else if k == 0 {
        assert(odd * span(k) == odd) by (nonlinear_arith)
            requires
                span(k) == 1,
        ;
    } else {
        let (j, l) = ((k - 1) as nat, (m - 1) as nat);
        assert(odd * span(j) == span(l)) by (nonlinear_arith)
            requires
                odd * (2 * span(j)) == 2 * span(l),
        ;
        lemma_odd_factor(odd, j, l);
    }
}

pub proof fn lemma_span_limits()
    ensures
        span(0) == 1,
        span(1) == 2,
        span(20) == 0x10_0000,
        span(63) == 0x8000_0000_0000_0000,
        span(64) == 0x1_0000_0000_0000_0000,
{
    reveal_with_fuel(span, 11);
    assert(span(10) == 0x400);
    lemma_span_add(10, 10);
    lemma_span_add(20, 20);
    lemma_span_add(40, 20);
    assert(span(2) == 4 && span(3) == 8 && span(4) == 16);
    lemma_span_add(60, 3);
    lemma_span_add(60, 4);
    assert(0x400int * 0x400 == 0x10_0000);
    assert(0x10_0000int * 0x10_0000 == 0x100_0000_0000);
    assert(0x100_0000_0000int * 0x10_0000 == 0x1000_0000_0000_0000);
}

/// The base-two logarithm of a power of two, `None` for any other number.
pub fn log_of(size: usize) -> (r: Option<usize>)
    ensures
        r is Some <==> is_span(size as nat),
        r matches Some(k) ==> span(k as nat) == size && k < 64,
{
    if size == 0 {
        proof {
            assert forall|k: nat| #[trigger] span(k) != 0 by {
                lemma_span_monotone(0, k);
            }
        }
        return None;
    }
    let mut rest: usize = size;
    let mut k: usize = 0;
    assert(size * span(0) == size) by (nonlinear_arith)
        requires
            span(0) == 1,
    ;
    while rest % 2 == 0
        invariant
            rest >= 1,
            size == rest * span(k as nat),
            k < 64,
        decreases rest,
    {
        let ghost before = rest;
        rest = rest / 2;
        proof {
            let s = span(k as nat);
            assert(before * s == rest * (2 * s)) by (nonlinear_arith)
                requires
                    before == 2 * rest,
            ;
            assert(2 * s <= size) by (nonlinear_arith)
                requires
                    size == rest * (2 * s),
                    rest >= 1,
            ;
            lemma_span_limits();
            if k + 1 >= 64 {
                lemma_span_monotone(64, (k + 1) as nat);
            }
        }
        k = k + 1;
    }
    if rest == 1 {
        assert(1 * span(k as nat) == span(k as nat));
        Some(k)
    } else {
        proof {
            if is_span(size as nat) {
                let m = choose|m: nat| #[trigger] span(m) == size as nat;
                lemma_odd_factor(rest as nat, k as nat, m);
            }
        }
        None
    }
}

/// `2^log_size`.
pub fn size_of_log(log_size: usize) -> (size: u64)
    requires
        log_size < 64,
    ensures
        size == span(log_size as nat),
{
    let mut size: u64 = 1;
    let mut k: usize = 0;
    proof {
        lemma_span_limits();
        lemma_span_monotone(log_size as nat, 63);
    }
    while k < log_size
        invariant
            k <= log_size < 64,
            size == span(k as nat),
            span(log_size as nat) <= 0x8000_0000_0000_0000,
        decreases log_size - k,
    {
        proof {
            lemma_span_monotone((k + 1) as nat, log_size as nat);
        }
        size = size * 2;
        k = k + 1;
    }
    size
}

proof fn lemma_double_bit(p: u64)
    by (bit_vector)
    requires
        0 < p < 0x8000_0000_0000_0000,
        p & ((p - 1) as u64) == 0,
    ensures
        ((2 * p) as u64) & ((2 * p - 1) as u64) == 0,
{
}

proof fn lemma_disjoint_bit(a: u64, p: u64)
    by (bit_vector)
    requires
        p & ((p - 1) as u64) == 0,
        a < p,
    ensures
        a ^ p == a + p,
        p ^ a == a + p,
{
}

proof fn lemma_single_bit(k: nat)
    requires
        k < 64,
    ensures
        span(k) <= 0x8000_0000_0000_0000,
        ({
            let p = span(k) as u64;
            p & ((p - 1) as u64) == 0
        }),
    decreases k,
{
    lemma_span_limits();
    lemma_span_monotone(k, 63);
    if k == 0 {
        assert(1u64 & 0u64 == 0) by (bit_vector);
    } else {
        lemma_single_bit((k - 1) as nat);
        lemma_span_monotone((k - 1) as nat, k);
        lemma_double_bit(span((k - 1) as nat) as u64);
    }
}

/// Adding a power of two above a smaller number sets one more bit.
pub proof fn lemma_xor_span(a: u64, k: nat)
    requires
        k < 64,
        a < span(k),
    ensures
        span(k) <= 0x8000_0000_0000_0000,
        a ^ (span(k) as u64) == a + span(k),
{
    lemma_single_bit(k);
    lemma_disjoint_bit(a, span(k) as u64);
}

} // verus!
