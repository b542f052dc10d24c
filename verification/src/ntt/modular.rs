//! Residues modulo an integer, and pairs of them.

use vstd::arithmetic::div_mod::{
    lemma_add_mod_noop, lemma_add_mod_noop_right, lemma_mul_mod_noop_left,
    lemma_mul_mod_noop_right, lemma_small_mod, lemma_sub_mod_noop,
};
use vstd::prelude::*;

verus! {

/// Residues modulo `p` form a commutative ring.
pub proof fn lemma_residues(a: int, b: int, c: int, p: int)
    requires
        p > 1,
        0 <= a < p,
        0 <= b < p,
        0 <= c < p,
    ensures
        0 <= (a + b) % p < p,
        0 <= (a - b) % p < p,
        0 <= (a * b) % p < p,
        0 <= (-a) % p < p,
        (a + b) % p == (b + a) % p,
        ((a + b) % p + c) % p == (a + (b + c) % p) % p,
        (a + 0) % p == a,
        (a + (-a) % p) % p == 0,
        (a - b) % p == (a + (-b) % p) % p,
        (a * b) % p == (b * a) % p,
        (((a * b) % p) * c) % p == (a * ((b * c) % p)) % p,
        (a * ((b + c) % p)) % p == ((a * b) % p + (a * c) % p) % p,
        (a * 1) % p == a,
{
    lemma_small_mod(a as nat, p as nat);
    lemma_add_mod_noop_right(c, a + b, p);
    lemma_add_mod_noop_right(a, b + c, p);
    lemma_add_mod_noop_right(a, -a, p);
    lemma_small_mod(0, p as nat);
    lemma_add_mod_noop_right(a, -b, p);
    assert(a * b == b * a) by (nonlinear_arith);
    lemma_mul_mod_noop_left(a * b, c, p);
    lemma_mul_mod_noop_right(a, b * c, p);
    assert((a * b) * c == a * (b * c)) by (nonlinear_arith);
    lemma_mul_mod_noop_right(a, b + c, p);
    assert(a * (b + c) == a * b + a * c) by (nonlinear_arith);
    lemma_add_mod_noop(a * b, a * c, p);
}

/// `(u % p) * z` and `u * z` agree modulo `p` inside a difference or a sum.
proof fn lemma_reduce_pair(u: int, z: int, v: int, w: int, p: int)
    requires
        p > 1,
    ensures
        ((u % p) * z - (v % p) * w) % p == (u * z - v * w) % p,
        ((u % p) * z + (v % p) * w) % p == (u * z + v * w) % p,
        (z * (u % p) - w * (v % p)) % p == (z * u - w * v) % p,
        (z * (u % p) + w * (v % p)) % p == (z * u + w * v) % p,
{
    lemma_mul_mod_noop_left(u, z, p);
    lemma_mul_mod_noop_left(v, w, p);
    lemma_sub_mod_noop((u % p) * z, (v % p) * w, p);
    lemma_sub_mod_noop(u * z, v * w, p);
    lemma_add_mod_noop((u % p) * z, (v % p) * w, p);
    lemma_add_mod_noop(u * z, v * w, p);
    assert(z * (u % p) == (u % p) * z && w * (v % p) == (v % p) * w && z * u == u * z && w * v == v
        * w) by (nonlinear_arith);
}

/// `(a c - b d) e` and `(a d + b c) f` as sums of triple products.
proof fn lemma_expand(a: int, b: int, c: int, d: int, e: int)
    ensures
        (a * c - b * d) * e == a * (c * e) - b * (d * e),
        (a * c + b * d) * e == a * (c * e) + b * (d * e),
{
    let (u, v) = (a * c, b * d);
    assert((u - v) * e == u * e - v * e && (u + v) * e == u * e + v * e) by (nonlinear_arith);
    assert((a * c) * e == a * (c * e)) by (nonlinear_arith);
    assert((b * d) * e == b * (d * e)) by (nonlinear_arith);
}

/// `a (c e - d f)` and `a (c e + d f)` as sums of triple products.
proof fn lemma_expand_inner(a: int, c: int, e: int, d: int, f: int)
    ensures
        a * (c * e - d * f) == a * (c * e) - a * (d * f),
        a * (c * e + d * f) == a * (c * e) + a * (d * f),
{
    let (u, v) = (c * e, d * f);
    assert(a * (u - v) == a * u - a * v && a * (u + v) == a * u + a * v) by (nonlinear_arith);
}

/// The real part of a product of pairs `a + b i`, with `i^2 = -1`.
pub open spec fn pair_re(a: int, b: int, c: int, d: int, p: int) -> int {
    (a * c - b * d) % p
}

/// The imaginary part of a product of pairs.
pub open spec fn pair_im(a: int, b: int, c: int, d: int, p: int) -> int {
    (a * d + b * c) % p
}

/// Pairs of residues with `i^2 = -1` multiply as a commutative ring.
pub proof fn lemma_pairs(a: int, b: int, c: int, d: int, e: int, f: int, p: int)
    requires
        p > 1,
        0 <= a < p,
        0 <= b < p,
        0 <= c < p,
        0 <= d < p,
        0 <= e < p,
        0 <= f < p,
    ensures
        pair_re(a, b, c, d, p) == pair_re(c, d, a, b, p),
        pair_im(a, b, c, d, p) == pair_im(c, d, a, b, p),
        pair_re(pair_re(a, b, c, d, p), pair_im(a, b, c, d, p), e, f, p) == pair_re(
            a,
            b,
            pair_re(c, d, e, f, p),
            pair_im(c, d, e, f, p),
            p,
        ),
        pair_im(pair_re(a, b, c, d, p), pair_im(a, b, c, d, p), e, f, p) == pair_im(
            a,
            b,
            pair_re(c, d, e, f, p),
            pair_im(c, d, e, f, p),
            p,
        ),
        pair_re(a, b, (c + e) % p, (d + f) % p, p) == (pair_re(a, b, c, d, p) + pair_re(
            a,
            b,
            e,
            f,
            p,
        )) % p,
        pair_im(a, b, (c + e) % p, (d + f) % p, p) == (pair_im(a, b, c, d, p) + pair_im(
            a,
            b,
            e,
            f,
            p,
        )) % p,
        pair_re(a, b, 1, 0, p) == a,
        pair_im(a, b, 1, 0, p) == b,
{
    assert(a * c == c * a && b * d == d * b && a * d == d * a && b * c == c * b)
        by (nonlinear_arith);
    let x = a * c - b * d;
    let y = a * d + b * c;
    let z = c * e - d * f;
    let w = c * f + d * e;
    lemma_reduce_pair(x, e, y, f, p);
    lemma_reduce_pair(z, a, w, b, p);
    lemma_reduce_pair(x, f, y, e, p);
    lemma_reduce_pair(w, a, z, b, p);
    lemma_expand(a, b, c, d, e);
    lemma_expand(a, b, d, c, f);
    lemma_expand(a, b, c, d, f);
    lemma_expand(a, b, d, c, e);
    lemma_expand_inner(a, c, e, d, f);
    lemma_expand_inner(b, c, f, d, e);
    lemma_expand_inner(a, c, f, d, e);
    lemma_expand_inner(b, c, e, d, f);
    let (s, t) = (c + e, d + f);
    lemma_reduce_pair(s, a, t, b, p);
    lemma_reduce_pair(t, a, s, b, p);
    assert(a * s - b * t == (a * c - b * d) + (a * e - b * f)) by (nonlinear_arith)
        requires
            s == c + e,
            t == d + f,
    ;
    assert(a * t + b * s == (a * d + b * c) + (a * f + b * e)) by (nonlinear_arith)
        requires
            s == c + e,
            t == d + f,
    ;
    lemma_add_mod_noop(a * c - b * d, a * e - b * f, p);
    lemma_add_mod_noop(a * d + b * c, a * f + b * e, p);
    lemma_small_mod(a as nat, p as nat);
    lemma_small_mod(b as nat, p as nat);
    assert(a * 1 - b * 0 == a && a * 0 + b * 1 == b) by (nonlinear_arith);
}

} // verus!
