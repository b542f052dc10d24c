//! A small dense inverse.

use vstd::prelude::*;

use crate::field::{
    fadd, fmul, fone, fzero, inverse, is_zero, lemma_add, lemma_finv, lemma_mul, lemma_nonzero,
    lemma_one_not_zero, one, plus, times, zero, BinaryField,
};
use crate::grid::{entry, lemma_place, lemma_row_order};
use crate::ntt::ring::{
    lemma_sum_add, lemma_sum_exchange, lemma_sum_same, lemma_sum_scale, lemma_sum_split,
    lemma_sum_zero, rsum,
};

verus! {

/// Row `r` of a matrix of `n` columns times the vector `x`.
pub open spec fn dot<F: BinaryField>(a: Seq<F::Elem>, n: nat, r: int, x: Seq<F::Elem>) -> F::Elem {
    rsum::<F>(|e: int| fmul::<F>(entry(a, n, r, e), x[e]), n)
}

/// Whether the first `rows` rows of a matrix of `n` columns take `x` to zero.
pub open spec fn annihilates<F: BinaryField>(
    a: Seq<F::Elem>,
    n: nat,
    rows: nat,
    x: Seq<F::Elem>,
) -> bool {
    forall|r: int| 0 <= r < rows ==> #[trigger] dot::<F>(a, n, r, x) == fzero::<F>()
}

/// Whether a square matrix takes no vector but zero to zero.
pub open spec fn nonsingular<F: BinaryField>(m: Seq<F::Elem>, n: nat) -> bool {
    forall|x: Seq<F::Elem>, i: int|
        x.len() == n && #[trigger] annihilates::<F>(m, n, n, x) && 0 <= i < n ==> #[trigger] x[i]
            == fzero::<F>()
}

/// The entry in row `r` and column `c` of a product of square matrices.
pub open spec fn product_at<F: BinaryField>(
    a: Seq<F::Elem>,
    b: Seq<F::Elem>,
    n: nat,
    r: int,
    c: int,
) -> F::Elem {
    rsum::<F>(|k: int| fmul::<F>(entry(a, n, r, k), entry(b, n, k, c)), n)
}

/// The entry of the identity matrix.
pub open spec fn unit_at<F: BinaryField>(r: int, c: int) -> F::Elem {
    if r == c {
        fone::<F>()
    } else {
        fzero::<F>()
    }
}

/// Whether the product of two square matrices is the identity.
pub open spec fn multiply_to_one<F: BinaryField>(a: Seq<F::Elem>, b: Seq<F::Elem>, n: nat) -> bool {
    forall|r: int, c: int|
        0 <= r < n && 0 <= c < n ==> #[trigger] product_at::<F>(a, b, n, r, c) == unit_at::<F>(r, c)
}

/// Whether two systems of `rows` equations in `n` unknowns have the same
/// solutions.
#[verifier::opaque]
spec fn same_solutions<F: BinaryField>(
    a: Seq<F::Elem>,
    b: Seq<F::Elem>,
    n: nat,
    rows: nat,
) -> bool {
    forall|x: Seq<F::Elem>|
        #![trigger annihilates::<F>(a, n, rows, x)]
        #![trigger annihilates::<F>(b, n, rows, x)]
        annihilates::<F>(a, n, rows, x) <==> annihilates::<F>(b, n, rows, x)
}

/// A sum with a single term that is not zero.
pub proof fn lemma_sum_one_term<F: BinaryField>(f: spec_fn(int) -> F::Elem, n: nat, at: int)
    requires
        0 <= at < n,
        forall|i: int| 0 <= i < n && i != at ==> #[trigger] f(i) == fzero::<F>(),
    ensures
        rsum::<F>(f, n) == f(at),
    decreases n,
{
    let last = n - 1;
    if at == last {
        lemma_sum_zero::<F>(f, (n - 1) as nat);
        lemma_add::<F>(f(at), f(at), f(at));
    } else {
        lemma_sum_one_term::<F>(f, (n - 1) as nat, at);
        assert(f(last) == fzero::<F>());
        lemma_add::<F>(f(at), f(at), f(at));
    }
}

/// Swapping two rows keeps the solutions.
proof fn lemma_swap_keeps<F: BinaryField>(
    a: Seq<F::Elem>,
    b: Seq<F::Elem>,
    n: nat,
    rows: nat,
    i: int,
    j: int,
)
    requires
        0 <= i < rows,
        0 <= j < rows,
        forall|r: int, e: int|
            0 <= r < rows && 0 <= e < n ==> #[trigger] entry(b, n, r, e) == entry(
                a,
                n,
                if r == i {
                    j
                } else if r == j {
                    i
                } else {
                    r
                },
                e,
            ),
    ensures
        same_solutions::<F>(a, b, n, rows),
{
    reveal(same_solutions);
    assert forall|x: Seq<F::Elem>, r: int| 0 <= r < rows implies #[trigger] dot::<F>(b, n, r, x)
        == dot::<F>(
        a,
        n,
        if r == i {
            j
        } else if r == j {
            i
        } else {
            r
        },
        x,
    ) by {
        let s = if r == i {
            j
        } else if r == j {
            i
        } else {
            r
        };
        let f = |e: int| fmul::<F>(entry(b, n, r, e), x[e]);
        let g = |e: int| fmul::<F>(entry(a, n, s, e), x[e]);
        assert forall|e: int| 0 <= e < n implies #[trigger] f(e) == g(e) by {
            assert(entry(b, n, r, e) == entry(a, n, s, e));
        }
        lemma_sum_same::<F>(f, g, n);
    }
    assert forall|x: Seq<F::Elem>|
        annihilates::<F>(a, n, rows, x) <==> annihilates::<F>(b, n, rows, x) by {
        if annihilates::<F>(a, n, rows, x) {
            assert forall|r: int| 0 <= r < rows implies #[trigger] dot::<F>(b, n, r, x) == fzero::<
                F,
            >() by {}
        }
        if annihilates::<F>(b, n, rows, x) {
            assert forall|r: int| 0 <= r < rows implies #[trigger] dot::<F>(a, n, r, x) == fzero::<
                F,
            >() by {
                if r == i {
                    assert(dot::<F>(b, n, j, x) == dot::<F>(a, n, i, x) || i == j);
                    assert(dot::<F>(b, n, r, x) == dot::<F>(a, n, j, x));
                } else if r == j {
                    assert(dot::<F>(b, n, i, x) == dot::<F>(a, n, j, x));
                } else {
                    assert(dot::<F>(b, n, r, x) == dot::<F>(a, n, r, x));
                }
            }
        }
    }
}

/// Scaling a row by a nonzero factor keeps the solutions.
proof fn lemma_scale_keeps<F: BinaryField>(
    a: Seq<F::Elem>,
    b: Seq<F::Elem>,
    n: nat,
    rows: nat,
    i: int,
    p: F::Elem,
)
    requires
        0 <= i < rows,
        p != fzero::<F>(),
        forall|r: int, e: int|
            0 <= r < rows && 0 <= e < n ==> #[trigger] entry(b, n, r, e) == if r == i {
                fmul::<F>(entry(a, n, r, e), p)
            } else {
                entry(a, n, r, e)
            },
    ensures
        same_solutions::<F>(a, b, n, rows),
{
    reveal(same_solutions);
    assert forall|x: Seq<F::Elem>, r: int| 0 <= r < rows implies #[trigger] dot::<F>(b, n, r, x)
        == (if r == i {
        fmul::<F>(p, dot::<F>(a, n, r, x))
    } else {
        dot::<F>(a, n, r, x)
    }) by {
        let f = |e: int| fmul::<F>(entry(a, n, r, e), x[e]);
        let g = |e: int| fmul::<F>(entry(b, n, r, e), x[e]);
        if r == i {
            assert forall|e: int| 0 <= e < n implies #[trigger] g(e) == fmul::<F>(p, f(e)) by {
                assert(entry(b, n, r, e) == fmul::<F>(entry(a, n, r, e), p));
                lemma_mul::<F>(entry(a, n, r, e), p, x[e]);
                lemma_mul::<F>(p, entry(a, n, r, e), x[e]);
            }
            lemma_sum_scale::<F>(f, p, g, n);
        } else {
            assert forall|e: int| 0 <= e < n implies #[trigger] g(e) == f(e) by {
                assert(entry(b, n, r, e) == entry(a, n, r, e));
            }
            lemma_sum_same::<F>(g, f, n);
        }
    }
    assert forall|x: Seq<F::Elem>|
        annihilates::<F>(a, n, rows, x) <==> annihilates::<F>(b, n, rows, x) by {
        lemma_mul::<F>(p, p, p);
        lemma_nonzero::<F>(p, dot::<F>(a, n, i, x));
        if annihilates::<F>(a, n, rows, x) {
            assert forall|r: int| 0 <= r < rows implies #[trigger] dot::<F>(b, n, r, x) == fzero::<
                F,
            >() by {
                assert(dot::<F>(a, n, r, x) == fzero::<F>());
            }
        }
        if annihilates::<F>(b, n, rows, x) {
            assert forall|r: int| 0 <= r < rows implies #[trigger] dot::<F>(a, n, r, x) == fzero::<
                F,
            >() by {
                assert(dot::<F>(b, n, r, x) == fzero::<F>());
            }
        }
    }
}

/// Adding a multiple of another row keeps the solutions.
proof fn lemma_add_keeps<F: BinaryField>(
    a: Seq<F::Elem>,
    b: Seq<F::Elem>,
    n: nat,
    rows: nat,
    i: int,
    j: int,
    p: F::Elem,
)
    requires
        0 <= i < rows,
        0 <= j < rows,
        i != j,
        forall|r: int, e: int|
            0 <= r < rows && 0 <= e < n ==> #[trigger] entry(b, n, r, e) == if r == i {
                fadd::<F>(entry(a, n, r, e), fmul::<F>(p, entry(a, n, j, e)))
            } else {
                entry(a, n, r, e)
            },
    ensures
        same_solutions::<F>(a, b, n, rows),
{
    reveal(same_solutions);
    assert forall|x: Seq<F::Elem>, r: int| 0 <= r < rows implies #[trigger] dot::<F>(b, n, r, x)
        == (if r == i {
        fadd::<F>(dot::<F>(a, n, r, x), fmul::<F>(p, dot::<F>(a, n, j, x)))
    } else {
        dot::<F>(a, n, r, x)
    }) by {
        let f = |e: int| fmul::<F>(entry(a, n, r, e), x[e]);
        let g = |e: int| fmul::<F>(entry(b, n, r, e), x[e]);
        if r == i {
            let h = |e: int| fmul::<F>(entry(a, n, j, e), x[e]);
            let ph = |e: int| fmul::<F>(p, h(e));
            assert forall|e: int| 0 <= e < n implies #[trigger] g(e) == fadd::<F>(f(e), ph(e)) by {
                let (u, v) = (entry(a, n, r, e), entry(a, n, j, e));
                assert(entry(b, n, r, e) == fadd::<F>(u, fmul::<F>(p, v)));
                lemma_mul::<F>(x[e], u, fmul::<F>(p, v));
                lemma_mul::<F>(p, v, x[e]);
            }
            lemma_sum_scale::<F>(h, p, ph, n);
            lemma_sum_add::<F>(f, ph, g, n);
        } else {
            assert forall|e: int| 0 <= e < n implies #[trigger] g(e) == f(e) by {
                assert(entry(b, n, r, e) == entry(a, n, r, e));
            }
            lemma_sum_same::<F>(g, f, n);
        }
    }
    assert forall|x: Seq<F::Elem>|
        annihilates::<F>(a, n, rows, x) <==> annihilates::<F>(b, n, rows, x) by {
        lemma_mul::<F>(p, p, p);
        if annihilates::<F>(a, n, rows, x) {
            assert forall|r: int| 0 <= r < rows implies #[trigger] dot::<F>(b, n, r, x) == fzero::<
                F,
            >() by {
                assert(dot::<F>(a, n, r, x) == fzero::<F>());
                assert(dot::<F>(a, n, j, x) == fzero::<F>());
                lemma_add::<F>(fzero::<F>(), fzero::<F>(), fzero::<F>());
            }
        }
        if annihilates::<F>(b, n, rows, x) {
            assert(dot::<F>(b, n, j, x) == dot::<F>(a, n, j, x));
            assert forall|r: int| 0 <= r < rows implies #[trigger] dot::<F>(a, n, r, x) == fzero::<
                F,
            >() by {
                assert(dot::<F>(b, n, r, x) == fzero::<F>());
                lemma_add::<F>(dot::<F>(a, n, r, x), fzero::<F>(), fzero::<F>());
            }
        }
    }
}

proof fn lemma_same_chain<F: BinaryField>(
    a: Seq<F::Elem>,
    b: Seq<F::Elem>,
    c: Seq<F::Elem>,
    n: nat,
    rows: nat,
)
    requires
        same_solutions::<F>(a, b, n, rows),
        same_solutions::<F>(b, c, n, rows),
    ensures
        same_solutions::<F>(a, c, n, rows),
{
    reveal(same_solutions);
    assert forall|x: Seq<F::Elem>|
        annihilates::<F>(a, n, rows, x) <==> annihilates::<F>(c, n, rows, x) by {
        assert(annihilates::<F>(a, n, rows, x) <==> annihilates::<F>(b, n, rows, x));
    }
}

/// Whether the left part of a system is `m` and its right part the identity.
spec fn augmented_with<F: BinaryField>(a: Seq<F::Elem>, m: Seq<F::Elem>, n: nat) -> bool {
    &&& forall|r: int, e: int|
        0 <= r < n && 0 <= e < n ==> #[trigger] entry(a, 2 * n, r, e) == entry(m, n, r, e)
    &&& forall|r: int, e: int|
        0 <= r < n && n <= e < 2 * n ==> #[trigger] entry(a, 2 * n, r, e) == unit_at::<F>(r, e - n)
}

/// Whether the first `c` columns of a system are those of the identity.
spec fn reduced_to<F: BinaryField>(a: Seq<F::Elem>, n: nat, c: int) -> bool {
    forall|r: int, e: int|
        0 <= r < n && 0 <= e < c ==> #[trigger] entry(a, 2 * n, r, e) == unit_at::<F>(r, e)
}

/// The right part of a system.
spec fn right_part<T>(a: Seq<T>, n: nat) -> Seq<T> {
    Seq::new(n * n, |i: int| entry(a, 2 * n, i / n as int, n + i % n as int))
}

/// A row of a system times a vector in two parts.
proof fn lemma_dot_parts<F: BinaryField>(
    a: Seq<F::Elem>,
    n: nat,
    r: int,
    x: Seq<F::Elem>,
    y: Seq<F::Elem>,
)
    requires
        x.len() == n,
        y.len() == n,
    ensures
        dot::<F>(a, 2 * n, r, x + y) == fadd::<F>(
            rsum::<F>(|e: int| fmul::<F>(entry(a, 2 * n, r, e), x[e]), n),
            rsum::<F>(|e: int| fmul::<F>(entry(a, 2 * n, r, n + e), y[e]), n),
        ),
{
    let z = x + y;
    let f = |e: int| fmul::<F>(entry(a, 2 * n, r, e), z[e]);
    let g = |e: int| fmul::<F>(entry(a, 2 * n, r, e), x[e]);
    let h = |e: int| fmul::<F>(entry(a, 2 * n, r, n + e), y[e]);
    assert forall|e: int| 0 <= e < n implies #[trigger] h(e) == f(n + e) by {
        assert(z[n + e] == y[e]);
    }
    assert forall|e: int| 0 <= e < n implies #[trigger] g(e) == f(e) by {
        assert(z[e] == x[e]);
    }
    lemma_sum_split::<F>(f, h, n, n);
    lemma_sum_same::<F>(g, f, n);
    assert(n + n == 2 * n);
}

/// What a system with a unit left or right part says of its solutions.
pub proof fn lemma_unit_row<F: BinaryField>(r: int, n: nat, x: Seq<F::Elem>, f: spec_fn(int) -> F::Elem)
    requires
        0 <= r < n,
        x.len() == n,
        forall|e: int|
            0 <= e < n ==> #[trigger] f(e) == fmul::<F>(unit_at::<F>(r, e), x[e]),
    ensures
        rsum::<F>(f, n) == x[r],
{
    assert forall|e: int| 0 <= e < n && e != r implies #[trigger] f(e) == fzero::<F>() by {
        lemma_mul::<F>(x[e], x[e], x[e]);
    }
    lemma_sum_one_term::<F>(f, n, r);
    lemma_mul::<F>(x[r], x[r], x[r]);
}

/// Solutions of the system that starts from `m`: the right part of the vector
/// is `m` times its left part.
proof fn lemma_first_system<F: BinaryField>(
    a: Seq<F::Elem>,
    m: Seq<F::Elem>,
    n: nat,
    x: Seq<F::Elem>,
    y: Seq<F::Elem>,
)
    requires
        augmented_with::<F>(a, m, n),
        x.len() == n,
        y.len() == n,
    ensures
        annihilates::<F>(a, 2 * n, n, x + y) <==> forall|r: int|
            0 <= r < n ==> #[trigger] dot::<F>(m, n, r, x) == y[r],
{
    assert forall|r: int| 0 <= r < n implies #[trigger] dot::<F>(a, 2 * n, r, x + y) == fadd::<F>(
        dot::<F>(m, n, r, x),
        y[r],
    ) by {
        lemma_dot_parts::<F>(a, n, r, x, y);
        let f = |e: int| fmul::<F>(entry(a, 2 * n, r, e), x[e]);
        let g = |e: int| fmul::<F>(entry(m, n, r, e), x[e]);
        let h = |e: int| fmul::<F>(entry(a, 2 * n, r, n + e), y[e]);
        assert forall|e: int| 0 <= e < n implies #[trigger] f(e) == g(e) by {
            assert(entry(a, 2 * n, r, e) == entry(m, n, r, e));
        }
        lemma_sum_same::<F>(f, g, n);
        assert forall|e: int| 0 <= e < n implies #[trigger] h(e) == fmul::<F>(
            unit_at::<F>(r, e),
            y[e],
        ) by {
            assert(entry(a, 2 * n, r, n + e) == unit_at::<F>(r, n + e - n));
        }
        lemma_unit_row::<F>(r, n, y, h);
    }
    if annihilates::<F>(a, 2 * n, n, x + y) {
        assert forall|r: int| 0 <= r < n implies #[trigger] dot::<F>(m, n, r, x) == y[r] by {
            assert(dot::<F>(a, 2 * n, r, x + y) == fzero::<F>());
            lemma_add::<F>(dot::<F>(m, n, r, x), y[r], y[r]);
        }
    }
    if forall|r: int| 0 <= r < n ==> #[trigger] dot::<F>(m, n, r, x) == y[r] {
        assert forall|r: int| 0 <= r < n implies #[trigger] dot::<F>(a, 2 * n, r, x + y) == fzero::<
            F,
        >() by {
            assert(dot::<F>(m, n, r, x) == y[r]);
            lemma_add::<F>(y[r], y[r], y[r]);
        }
    }
}

/// Solutions of a reduced system: the left part of the vector is the right part
/// of the system times the right part of the vector.
proof fn lemma_last_system<F: BinaryField>(
    a: Seq<F::Elem>,
    n: nat,
    x: Seq<F::Elem>,
    y: Seq<F::Elem>,
)
    requires
        reduced_to::<F>(a, n, n as int),
        x.len() == n,
        y.len() == n,
    ensures
        annihilates::<F>(a, 2 * n, n, x + y) <==> forall|r: int|
            0 <= r < n ==> #[trigger] dot::<F>(right_part(a, n), n, r, y) == x[r],
{
    let b = right_part(a, n);
    assert forall|r: int| 0 <= r < n implies #[trigger] dot::<F>(a, 2 * n, r, x + y) == fadd::<F>(
        x[r],
        dot::<F>(b, n, r, y),
    ) by {
        lemma_dot_parts::<F>(a, n, r, x, y);
        let f = |e: int| fmul::<F>(entry(a, 2 * n, r, e), x[e]);
        let g = |e: int| fmul::<F>(entry(b, n, r, e), y[e]);
        let h = |e: int| fmul::<F>(entry(a, 2 * n, r, n + e), y[e]);
        assert forall|e: int| 0 <= e < n implies #[trigger] h(e) == g(e) by {
            lemma_right_entry(a, n, r, e);
        }
        lemma_sum_same::<F>(h, g, n);
        assert forall|e: int| 0 <= e < n implies #[trigger] f(e) == fmul::<F>(
            unit_at::<F>(r, e),
            x[e],
        ) by {
            assert(entry(a, 2 * n, r, e) == unit_at::<F>(r, e));
        }
        lemma_unit_row::<F>(r, n, x, f);
    }
    if annihilates::<F>(a, 2 * n, n, x + y) {
        assert forall|r: int| 0 <= r < n implies #[trigger] dot::<F>(b, n, r, y) == x[r] by {
            assert(dot::<F>(a, 2 * n, r, x + y) == fzero::<F>());
            lemma_add::<F>(x[r], dot::<F>(b, n, r, y), y[r]);
        }
    }
    if forall|r: int| 0 <= r < n ==> #[trigger] dot::<F>(b, n, r, y) == x[r] {
        assert forall|r: int| 0 <= r < n implies #[trigger] dot::<F>(a, 2 * n, r, x + y) == fzero::<
            F,
        >() by {
            assert(dot::<F>(b, n, r, y) == x[r]);
            lemma_add::<F>(x[r], x[r], x[r]);
        }
    }
}

proof fn lemma_right_entry<T>(a: Seq<T>, n: nat, r: int, e: int)
    requires
        0 <= r < n,
        0 <= e < n,
    ensures
        entry(right_part(a, n), n, r, e) == entry(a, 2 * n, r, n + e),
{
    lemma_place(r, e, n as int, n as int);
    vstd::arithmetic::div_mod::lemma_fundamental_div_mod_converse(r * n + e, n as int, r, e);
}

/// Column `c` of a square matrix.
spec fn column_of<T>(m: Seq<T>, n: nat, c: int) -> Seq<T> {
    Seq::new(n, |r: int| entry(m, n, r, c))
}

/// The unit vector `c`.
spec fn unit_vector<F: BinaryField>(n: nat, c: int) -> Seq<F::Elem> {
    Seq::new(n, |r: int| unit_at::<F>(r, c))
}

proof fn lemma_dot_unit<F: BinaryField>(m: Seq<F::Elem>, n: nat, r: int, c: int)
    requires
        0 <= c < n,
    ensures
        dot::<F>(m, n, r, unit_vector::<F>(n, c)) == entry(m, n, r, c),
{
    let x = unit_vector::<F>(n, c);
    let f = |e: int| fmul::<F>(entry(m, n, r, e), x[e]);
    assert forall|e: int| 0 <= e < n && e != c implies #[trigger] f(e) == fzero::<F>() by {
        lemma_mul::<F>(entry(m, n, r, e), x[e], x[e]);
    }
    lemma_sum_one_term::<F>(f, n, c);
    lemma_mul::<F>(entry(m, n, r, c), x[c], x[c]);
}

proof fn lemma_dot_column<F: BinaryField>(a: Seq<F::Elem>, b: Seq<F::Elem>, n: nat, r: int, c: int)
    ensures
        dot::<F>(a, n, r, column_of(b, n, c)) == product_at::<F>(a, b, n, r, c),
{
    let x = column_of(b, n, c);
    let f = |e: int| fmul::<F>(entry(a, n, r, e), x[e]);
    let g = |k: int| fmul::<F>(entry(a, n, r, k), entry(b, n, k, c));
    assert forall|e: int| 0 <= e < n implies #[trigger] f(e) == g(e) by {
        assert(x[e] == entry(b, n, e, c));
    }
    lemma_sum_same::<F>(f, g, n);
}

/// A system that is reduced all the way holds the inverse of the matrix that it
/// started from.
proof fn lemma_reduced_inverts<F: BinaryField>(
    start: Seq<F::Elem>,
    end: Seq<F::Elem>,
    m: Seq<F::Elem>,
    n: nat,
)
    requires
        augmented_with::<F>(start, m, n),
        same_solutions::<F>(start, end, 2 * n, n),
        reduced_to::<F>(end, n, n as int),
    ensures
        nonsingular::<F>(m, n),
        multiply_to_one::<F>(m, right_part(end, n), n),
        multiply_to_one::<F>(right_part(end, n), m, n),
{
    reveal(same_solutions);
    let b = right_part(end, n);
    assert forall|r: int, c: int| 0 <= r < n && 0 <= c < n implies #[trigger] product_at::<F>(
        m,
        b,
        n,
        r,
        c,
    ) == unit_at::<F>(r, c) by {
        let x = column_of(b, n, c);
        let y = unit_vector::<F>(n, c);
        assert forall|i: int| 0 <= i < n implies #[trigger] dot::<F>(b, n, i, y) == x[i] by {
            lemma_dot_unit::<F>(b, n, i, c);
        }
        lemma_last_system::<F>(end, n, x, y);
        lemma_first_system::<F>(start, m, n, x, y);
        assert(annihilates::<F>(start, 2 * n, n, x + y));
        assert(dot::<F>(m, n, r, x) == y[r]);
        lemma_dot_column::<F>(m, b, n, r, c);
    }
    assert forall|r: int, c: int| 0 <= r < n && 0 <= c < n implies #[trigger] product_at::<F>(
        b,
        m,
        n,
        r,
        c,
    ) == unit_at::<F>(r, c) by {
        let x = unit_vector::<F>(n, c);
        let y = column_of(m, n, c);
        assert forall|i: int| 0 <= i < n implies #[trigger] dot::<F>(m, n, i, x) == y[i] by {
            lemma_dot_unit::<F>(m, n, i, c);
        }
        lemma_first_system::<F>(start, m, n, x, y);
        lemma_last_system::<F>(end, n, x, y);
        assert(annihilates::<F>(end, 2 * n, n, x + y));
        assert(dot::<F>(b, n, r, y) == x[r]);
        lemma_dot_column::<F>(b, m, n, r, c);
    }
    assert forall|x: Seq<F::Elem>, i: int|
        x.len() == n && #[trigger] annihilates::<F>(m, n, n, x) && 0 <= i
            < n implies #[trigger] x[i] == fzero::<F>() by {
        let y = Seq::new(n, |r: int| fzero::<F>());
        assert forall|r: int| 0 <= r < n implies #[trigger] dot::<F>(m, n, r, x) == y[r] by {}
        lemma_first_system::<F>(start, m, n, x, y);
        lemma_last_system::<F>(end, n, x, y);
        assert(annihilates::<F>(end, 2 * n, n, x + y));
        assert(dot::<F>(b, n, i, y) == x[i]);
        let f = |e: int| fmul::<F>(entry(b, n, i, e), y[e]);
        assert forall|e: int| 0 <= e < n implies #[trigger] f(e) == fzero::<F>() by {
            lemma_mul::<F>(entry(b, n, i, e), y[e], y[e]);
        }
        lemma_sum_zero::<F>(f, n);
    }
}

/// A system without a pivot in column `c` started from a singular matrix.
proof fn lemma_no_pivot<F: BinaryField>(
    start: Seq<F::Elem>,
    end: Seq<F::Elem>,
    m: Seq<F::Elem>,
    n: nat,
    c: int,
)
    requires
        augmented_with::<F>(start, m, n),
        same_solutions::<F>(start, end, 2 * n, n),
        0 <= c < n,
        reduced_to::<F>(end, n, c),
        forall|r: int| c <= r < n ==> #[trigger] entry(end, 2 * n, r, c) == fzero::<F>(),
    ensures
        !nonsingular::<F>(m, n),
{
    reveal(same_solutions);
    lemma_one_not_zero::<F>();
    let x = Seq::new(
        n,
        |i: int|
            if i == c {
                fone::<F>()
            } else if i < c {
                entry(end, 2 * n, i, c)
            } else {
                fzero::<F>()
            },
    );
    let y = Seq::new(n, |r: int| fzero::<F>());
    assert forall|r: int| 0 <= r < n implies #[trigger] dot::<F>(end, 2 * n, r, x + y) == fzero::<
        F,
    >() by {
        lemma_dot_parts::<F>(end, n, r, x, y);
        let h = |e: int| fmul::<F>(entry(end, 2 * n, r, n + e), y[e]);
        assert forall|e: int| 0 <= e < n implies #[trigger] h(e) == fzero::<F>() by {
            lemma_mul::<F>(entry(end, 2 * n, r, n + e), y[e], y[e]);
        }
        lemma_sum_zero::<F>(h, n);
        let f = |e: int| fmul::<F>(entry(end, 2 * n, r, e), x[e]);
        // the terms at r and at c, of which the first is there only if r < c
        let p = |e: int| if e == c {
            f(c)
        } else {
            fzero::<F>()
        };
        let q = |e: int| if e == r && r < c {
            f(r)
        } else {
            fzero::<F>()
        };
        assert forall|e: int| 0 <= e < n implies #[trigger] f(e) == fadd::<F>(p(e), q(e)) by {
            lemma_add::<F>(f(e), f(e), f(e));
            lemma_add::<F>(fzero::<F>(), fzero::<F>(), fzero::<F>());
            if e < c && e != r {
                assert(entry(end, 2 * n, r, e) == unit_at::<F>(r, e));
                lemma_mul::<F>(x[e], x[e], x[e]);
            } else if e > c {
                lemma_mul::<F>(entry(end, 2 * n, r, e), x[e], x[e]);
            }
        }
        lemma_sum_add::<F>(p, q, f, n);
        lemma_sum_one_term::<F>(p, n, c);
        lemma_sum_one_term::<F>(q, n, r);
        let t = entry(end, 2 * n, r, c);
        lemma_mul::<F>(t, t, t);
        lemma_add::<F>(t, t, t);
        lemma_add::<F>(fzero::<F>(), fzero::<F>(), fzero::<F>());
        if r < c {
            assert(entry(end, 2 * n, r, r) == unit_at::<F>(r, r));
        }
    }
    assert(annihilates::<F>(end, 2 * n, n, x + y));
    assert(annihilates::<F>(start, 2 * n, n, x + y));
    lemma_first_system::<F>(start, m, n, x, y);
    assert(annihilates::<F>(m, n, n, x)) by {
        assert forall|r: int| 0 <= r < n implies #[trigger] dot::<F>(m, n, r, x) == fzero::<
            F,
        >() by {}
    }
    if nonsingular::<F>(m, n) {
        assert(x[c] == fzero::<F>());
    }
}

/// The elements of workspace that [`invert_square_into`] needs.
pub fn inverse_scratch_elements(size: usize) -> (count: usize)
    requires
        2 * (size * size) <= usize::MAX,
    ensures
        count == 2 * (size * size),
{
    proof {
        assert((2 * size) * size == 2 * (size * size) && size * size >= 0 && 2 * size <= 2 * (size
            * size)) by (nonlinear_arith)
            requires
                size >= 0,
        ;
    }
    2 * size * size
}

/// Write the matrix and the identity side by side.
fn augment<F: BinaryField>(work: &mut [F::Elem], matrix: &[F::Elem], size: usize)
    requires
        old(work)@.len() == size * (2 * size),
        matrix@.len() >= size * size,
        2 * (size * size) <= usize::MAX,
    ensures
        final(work)@.len() == old(work)@.len(),
        augmented_with::<F>(final(work)@, matrix@, size as nat),
{
    let ghost n = size as nat;
    let given: usize = matrix.len();
    let count: usize = work.len();
    let mut r: usize = 0;
    proof {
        assert(2 * size <= 2 * (size * size)) by (nonlinear_arith)
            requires
                size >= 0,
        ;
    }
    let stride: usize = 2 * size;
    while r < size
        invariant
            r <= size,
            n == size,
            stride == 2 * size,
            count == size * stride,
            work@.len() == count,
            matrix@.len() == given,
            given >= size * size,
            forall|i: int, e: int|
                0 <= i < r && 0 <= e < n ==> #[trigger] entry(work@, 2 * n, i, e) == entry(
                    matrix@,
                    n,
                    i,
                    e,
                ),
            forall|i: int, e: int|
                0 <= i < r && n <= e < 2 * n ==> #[trigger] entry(work@, 2 * n, i, e) == unit_at::<
                    F,
                >(i, e - n),
        decreases size - r,
    {
        let mut c: usize = 0;
        while c < stride
            invariant
                c <= stride,
                r < size,
                n == size,
                stride == 2 * size,
                count == size * stride,
                work@.len() == count,
                matrix@.len() == given,
                given >= size * size,
                forall|i: int, e: int|
                    0 <= i <= r && 0 <= e < n && (i < r || e < c) ==> #[trigger] entry(
                        work@,
                        2 * n,
                        i,
                        e,
                    ) == entry(matrix@, n, i, e),
                forall|i: int, e: int|
                    0 <= i <= r && n <= e < 2 * n && (i < r || e < c) ==> #[trigger] entry(
                        work@,
                        2 * n,
                        i,
                        e,
                    ) == unit_at::<F>(i, e - n),
            decreases stride - c,
        {
            let ghost before = work@;
            proof {
                lemma_place(r as int, c as int, stride as int, size as int);
                assert(0 <= r * stride && 0 <= r * size) by (nonlinear_arith)
                    requires
                        r >= 0,
                        stride >= 0,
                        size >= 0,
                ;
                if c < size {
                    lemma_place(r as int, c as int, size as int, size as int);
                }
            }
            let at: usize = r * stride + c;
            if c < size {
                work[at] = matrix[r * size + c];
            } else if c - size == r {
                work[at] = one::<F>();
            } else {
                work[at] = zero::<F>();
            }
            proof {
                assert forall|i: int, e: int| 0 <= i <= r && 0 <= e < 2 * n && (i < r || e
                    < c) implies #[trigger] entry(work@, 2 * n, i, e) == entry(
                    before,
                    2 * n,
                    i,
                    e,
                ) by {
                    lemma_place(i, e, stride as int, size as int);
                    lemma_row_order(i, r as int, e, stride as int);
                }
            }
            c = c + 1;
        }
        r = r + 1;
    }
}

/// Swap two rows.
fn exchange<F: BinaryField>(work: &mut [F::Elem], size: usize, stride: usize, i: usize, j: usize)
    requires
        old(work)@.len() == size * stride,
        i < size,
        j < size,
        i != j,
    ensures
        final(work)@.len() == old(work)@.len(),
        forall|r: int, e: int|
            0 <= r < size && 0 <= e < stride ==> #[trigger] entry(
                final(work)@,
                stride as nat,
                r,
                e,
            ) == entry(
                old(work)@,
                stride as nat,
                if r == i {
                    j as int
                } else if r == j {
                    i as int
                } else {
                    r
                },
                e,
            ),
{
    let ghost v = work@;
    let ghost n = stride as nat;
    let count: usize = work.len();
    let mut c: usize = 0;
    while c < stride
        invariant
            c <= stride,
            n == stride,
            i < size,
            j < size,
            i != j,
            count == size * stride,
            work@.len() == count,
            v.len() == count,
            forall|r: int, e: int|
                0 <= r < size && 0 <= e < stride ==> #[trigger] entry(work@, n, r, e) == entry(
                    v,
                    n,
                    if r == i && e < c {
                        j as int
                    } else if r == j && e < c {
                        i as int
                    } else {
                        r
                    },
                    e,
                ),
        decreases stride - c,
    {
        let ghost before = work@;
        proof {
            lemma_place(i as int, c as int, stride as int, size as int);
            lemma_place(j as int, c as int, stride as int, size as int);
            lemma_row_order(i as int, j as int, c as int, stride as int);
            assert(0 <= i * stride && 0 <= j * stride) by (nonlinear_arith)
                requires
                    i >= 0,
                    j >= 0,
                    stride >= 0,
            ;
            assert(entry(before, n, i as int, c as int) == entry(v, n, i as int, c as int));
            assert(entry(before, n, j as int, c as int) == entry(v, n, j as int, c as int));
        }
        let x: usize = i * stride + c;
        let y: usize = j * stride + c;
        let a = work[x];
        let b = work[y];
        work[x] = b;
        work[y] = a;
        proof {
            assert forall|r: int, e: int| 0 <= r < size && 0 <= e < stride implies #[trigger] entry(
                work@,
                n,
                r,
                e,
            ) == entry(
                v,
                n,
                if r == i && e < c + 1 {
                    j as int
                } else if r == j && e < c + 1 {
                    i as int
                } else {
                    r
                },
                e,
            ) by {
                lemma_place(r, e, stride as int, size as int);
                lemma_row_order(r, i as int, e, stride as int);
                lemma_row_order(r, j as int, e, stride as int);
                assert(entry(before, n, r, e) == before[r * n + e]);
            }
        }
        c = c + 1;
    }
}

/// Multiply the entries of a row from column `from` on.
fn scale_row<F: BinaryField>(
    work: &mut [F::Elem],
    size: usize,
    stride: usize,
    row: usize,
    from: usize,
    factor: F::Elem,
)
    requires
        old(work)@.len() == size * stride,
        row < size,
        from <= stride,
    ensures
        final(work)@.len() == old(work)@.len(),
        forall|r: int, e: int|
            0 <= r < size && 0 <= e < stride ==> #[trigger] entry(
                final(work)@,
                stride as nat,
                r,
                e,
            ) == if r == row && e >= from {
                fmul::<F>(entry(old(work)@, stride as nat, r, e), factor)
            } else {
                entry(old(work)@, stride as nat, r, e)
            },
{
    let ghost v = work@;
    let ghost n = stride as nat;
    let count: usize = work.len();
    let mut c: usize = from;
    while c < stride
        invariant
            from <= c <= stride,
            n == stride,
            row < size,
            count == size * stride,
            work@.len() == count,
            forall|r: int, e: int|
                0 <= r < size && 0 <= e < stride ==> #[trigger] entry(work@, n, r, e) == if r == row
                    && from <= e < c {
                    fmul::<F>(entry(v, n, r, e), factor)
                } else {
                    entry(v, n, r, e)
                },
        decreases stride - c,
    {
        let ghost before = work@;
        proof {
            lemma_place(row as int, c as int, stride as int, size as int);
            assert(0 <= row * stride) by (nonlinear_arith)
                requires
                    row >= 0,
                    stride >= 0,
            ;
            assert(entry(before, n, row as int, c as int) == entry(v, n, row as int, c as int));
        }
        let at: usize = row * stride + c;
        work[at] = times::<F>(work[at], factor);
        proof {
            assert forall|r: int, e: int| 0 <= r < size && 0 <= e < stride implies #[trigger] entry(
                work@,
                n,
                r,
                e,
            ) == (if r == row && from <= e < c + 1 {
                fmul::<F>(entry(v, n, r, e), factor)
            } else {
                entry(v, n, r, e)
            }) by {
                lemma_place(r, e, stride as int, size as int);
                lemma_row_order(r, row as int, e, stride as int);
                assert(entry(before, n, r, e) == before[r * n + e]);
            }
        }
        c = c + 1;
    }
}

/// Add a multiple of the pivot row to another row, from column `from` on.
fn add_row<F: BinaryField>(
    work: &mut [F::Elem],
    size: usize,
    stride: usize,
    row: usize,
    pivot: usize,
    from: usize,
    factor: F::Elem,
)
    requires
        old(work)@.len() == size * stride,
        row < size,
        pivot < size,
        row != pivot,
        from <= stride,
    ensures
        final(work)@.len() == old(work)@.len(),
        forall|r: int, e: int|
            0 <= r < size && 0 <= e < stride ==> #[trigger] entry(
                final(work)@,
                stride as nat,
                r,
                e,
            ) == if r == row && e >= from {
                fadd::<F>(
                    entry(old(work)@, stride as nat, r, e),
                    fmul::<F>(factor, entry(old(work)@, stride as nat, pivot as int, e)),
                )
            } else {
                entry(old(work)@, stride as nat, r, e)
            },
{
    let ghost v = work@;
    let ghost n = stride as nat;
    let count: usize = work.len();
    let mut c: usize = from;
    while c < stride
        invariant
            from <= c <= stride,
            n == stride,
            row < size,
            pivot < size,
            row != pivot,
            count == size * stride,
            work@.len() == count,
            forall|r: int, e: int|
                0 <= r < size && 0 <= e < stride ==> #[trigger] entry(work@, n, r, e) == if r == row
                    && from <= e < c {
                    fadd::<F>(
                        entry(v, n, r, e),
                        fmul::<F>(factor, entry(v, n, pivot as int, e)),
                    )
                } else {
                    entry(v, n, r, e)
                },
        decreases stride - c,
    {
        let ghost before = work@;
        proof {
            lemma_place(row as int, c as int, stride as int, size as int);
            lemma_place(pivot as int, c as int, stride as int, size as int);
            assert(0 <= row * stride && 0 <= pivot * stride) by (nonlinear_arith)
                requires
                    row >= 0,
                    pivot >= 0,
                    stride >= 0,
            ;
            assert(entry(before, n, row as int, c as int) == entry(v, n, row as int, c as int));
            assert(entry(before, n, pivot as int, c as int) == entry(v, n, pivot as int, c as int));
        }
        let at: usize = row * stride + c;
        let pivot_value = work[pivot * stride + c];
        work[at] = plus::<F>(work[at], times::<F>(factor, pivot_value));
        proof {
            assert forall|r: int, e: int| 0 <= r < size && 0 <= e < stride implies #[trigger] entry(
                work@,
                n,
                r,
                e,
            ) == (if r == row && from <= e < c + 1 {
                fadd::<F>(entry(v, n, r, e), fmul::<F>(factor, entry(v, n, pivot as int, e)))
            } else {
                entry(v, n, r, e)
            }) by {
                lemma_place(r, e, stride as int, size as int);
                lemma_row_order(r, row as int, e, stride as int);
                assert(entry(before, n, r, e) == before[r * n + e]);
            }
        }
        c = c + 1;
    }
}

/// The first row from `column` on whose entry in that column is not zero.
fn find_pivot<F: BinaryField>(
    work: &[F::Elem],
    size: usize,
    stride: usize,
    column: usize,
) -> (pivot: Option<usize>)
    requires
        work@.len() == size * stride,
        column < size,
        column < stride,
    ensures
        pivot is None ==> forall|r: int|
            column <= r < size ==> #[trigger] entry(work@, stride as nat, r, column as int)
                == fzero::<F>(),
        pivot matches Some(p) ==> column <= p < size && entry(
            work@,
            stride as nat,
            p as int,
            column as int,
        ) != fzero::<F>(),
{
    let count: usize = work.len();
    let mut row: usize = column;
    while row < size
        invariant
            column <= row <= size,
            column < stride,
            count == size * stride,
            work@.len() == count,
            forall|r: int|
                column <= r < row ==> #[trigger] entry(work@, stride as nat, r, column as int)
                    == fzero::<F>(),
        decreases size - row,
    {
        proof {
            lemma_place(row as int, column as int, stride as int, size as int);
            assert(0 <= row * stride) by (nonlinear_arith)
                requires
                    row >= 0,
                    stride >= 0,
            ;
        }
        if !is_zero::<F>(work[row * stride + column]) {
            return Some(row);
        }
        row = row + 1;
    }
    None
}

/// Bring column `column` of a system to that of the identity.
fn reduce_column<F: BinaryField>(
    work: &mut [F::Elem],
    size: usize,
    stride: usize,
    column: usize,
) -> (found: bool)
    requires
        stride == 2 * size,
        old(work)@.len() == size * stride,
        column < size,
        reduced_to::<F>(old(work)@, size as nat, column as int),
    ensures
        final(work)@.len() == old(work)@.len(),
        !found ==> final(work)@ == old(work)@ && forall|r: int|
            column <= r < size ==> #[trigger] entry(
                old(work)@,
                stride as nat,
                r,
                column as int,
            ) == fzero::<F>(),
        found ==> same_solutions::<F>(old(work)@, final(work)@, stride as nat, size as nat),
        found ==> reduced_to::<F>(final(work)@, size as nat, column + 1),
{
    let ghost n = size as nat;
    let ghost s = stride as nat;
    let ghost col = column as int;
    let ghost v = work@;
    let pivot: usize = match find_pivot::<F>(work, size, stride, column) {
        Some(pivot) => pivot,
        None => {
            return false;
        },
    };
    if pivot != column {
        exchange::<F>(work, size, stride, column, pivot);
        proof {
            lemma_swap_keeps::<F>(v, work@, s, n, col, pivot as int);
        }
    } else {
        proof {
            reveal(same_solutions);
            assert(same_solutions::<F>(v, work@, s, n));
        }
    }
    let ghost a = work@;
    let count: usize = work.len();
    proof {
        assert forall|r: int, e: int| 0 <= r < n && 0 <= e < col implies #[trigger] entry(
            a,
            2 * n,
            r,
            e,
        ) == unit_at::<F>(r, e) by {
            let q = if r == col {
                pivot as int
            } else if r == pivot {
                col
            } else {
                r
            };
            assert(entry(a, s, r, e) == entry(v, s, q, e));
            assert(entry(v, 2 * n, q, e) == unit_at::<F>(q, e));
        }
        assert(entry(a, s, col, col) == entry(v, s, pivot as int, col));
        lemma_place(col, col, stride as int, size as int);
        assert(0 <= column * stride) by (nonlinear_arith)
            requires
                column >= 0,
                stride >= 0,
        ;
    }
    let pivot_value = work[column * stride + column];
    let pivot_inverse = inverse::<F>(pivot_value);
    proof {
        lemma_finv::<F>(pivot_value, pivot_inverse);
    }
    scale_row::<F>(work, size, stride, column, column, pivot_inverse);
    let ghost b = work@;
    proof {
        let p = pivot_inverse;
        assert forall|r: int, e: int| 0 <= r < n && 0 <= e < s implies #[trigger] entry(b, s, r, e)
            == (if r == col {
            fmul::<F>(entry(a, s, r, e), p)
        } else {
            entry(a, s, r, e)
        }) by {
            if r == col && e < col {
                assert(entry(a, 2 * n, r, e) == unit_at::<F>(r, e));
                lemma_mul::<F>(p, p, p);
            }
        }
        lemma_scale_keeps::<F>(a, b, s, n, col, p);
        lemma_same_chain::<F>(v, a, b, s, n);
        assert(entry(b, s, col, col) == fone::<F>());
        assert forall|r: int, e: int| 0 <= r < n && 0 <= e < col implies #[trigger] entry(
            b,
            2 * n,
            r,
            e,
        ) == unit_at::<F>(r, e) by {
            assert(entry(a, 2 * n, r, e) == unit_at::<F>(r, e));
            assert(entry(b, s, r, e) == entry(a, s, r, e));
        }
    }
    let mut row: usize = 0;
    while row < size
        invariant
            row <= size,
            n == size,
            s == stride,
            col == column,
            stride == 2 * size,
            column < size,
            count == size * stride,
            work@.len() == count,
            same_solutions::<F>(v, work@, s, n),
            reduced_to::<F>(work@, n, col),
            entry(work@, s, col, col) == fone::<F>(),
            forall|r: int|
                0 <= r < row && r != col ==> #[trigger] entry(work@, s, r, col) == fzero::<F>(),
        decreases size - row,
    {
        let ghost c = work@;
        proof {
            lemma_place(row as int, col, stride as int, size as int);
            assert(0 <= row * stride) by (nonlinear_arith)
                requires
                    row >= 0,
                    stride >= 0,
            ;
        }
        if row != column {
            let factor = work[row * stride + column];
            if !is_zero::<F>(factor) {
                add_row::<F>(work, size, stride, row, column, column, factor);
                proof {
                    let d = work@;
                    assert forall|r: int, e: int|
                        0 <= r < n && 0 <= e < s implies #[trigger] entry(d, s, r, e) == (if r
                        == row {
                        fadd::<F>(entry(c, s, r, e), fmul::<F>(factor, entry(c, s, col, e)))
                    } else {
                        entry(c, s, r, e)
                    }) by {
                        if r == row && e < col {
                            assert(entry(c, 2 * n, col, e) == unit_at::<F>(col, e));
                            lemma_mul::<F>(factor, factor, factor);
                            lemma_add::<F>(entry(c, s, r, e), factor, factor);
                        }
                    }
                    lemma_add_keeps::<F>(c, d, s, n, row as int, col, factor);
                    lemma_same_chain::<F>(v, c, d, s, n);
                    assert forall|r: int, e: int|
                        0 <= r < n && 0 <= e < col implies #[trigger] entry(d, 2 * n, r, e)
                        == unit_at::<F>(r, e) by {
                        assert(entry(c, 2 * n, r, e) == unit_at::<F>(r, e));
                        assert(entry(d, s, r, e) == entry(c, s, r, e));
                    }
                    lemma_mul::<F>(factor, factor, factor);
                    lemma_add::<F>(factor, factor, factor);
                    assert(entry(d, s, row as int, col) == fzero::<F>());
                    assert forall|r: int| 0 <= r < row + 1 && r != col implies #[trigger] entry(
                        d,
                        s,
                        r,
                        col,
                    ) == fzero::<F>() by {
                        if r < row {
                            assert(entry(c, s, r, col) == fzero::<F>());
                            assert(entry(d, s, r, col) == entry(c, s, r, col));
                        }
                    }
                    assert(entry(d, s, col, col) == entry(c, s, col, col));
                }
            }
        }
        row = row + 1;
    }
    proof {
        assert forall|r: int, e: int| 0 <= r < n && 0 <= e < col + 1 implies #[trigger] entry(
            work@,
            2 * n,
            r,
            e,
        ) == unit_at::<F>(r, e) by {
            if e == col {
                assert(r == col || entry(work@, s, r, col) == fzero::<F>());
            }
        }
    }
    true
}

/// Reduce a system column by column, and say whether every column had a pivot.
fn eliminate<F: BinaryField>(
    work: &mut [F::Elem],
    size: usize,
    stride: usize,
    Ghost(m): Ghost<Seq<F::Elem>>,
) -> (found: bool)
    requires
        stride == 2 * size,
        old(work)@.len() == size * stride,
        augmented_with::<F>(old(work)@, m, size as nat),
    ensures
        final(work)@.len() == old(work)@.len(),
        found == nonsingular::<F>(m, size as nat),
        found ==> multiply_to_one::<F>(m, right_part(final(work)@, size as nat), size as nat),
        found ==> multiply_to_one::<F>(right_part(final(work)@, size as nat), m, size as nat),
{
    let ghost n = size as nat;
    let ghost start = work@;
    proof {
        reveal(same_solutions);
        assert(same_solutions::<F>(start, work@, 2 * n, n));
    }
    let mut column: usize = 0;
    while column < size
        invariant
            column <= size,
            n == size,
            stride == 2 * size,
            start == old(work)@,
            work@.len() == start.len(),
            start.len() == size * stride,
            augmented_with::<F>(start, m, n),
            same_solutions::<F>(start, work@, 2 * n, n),
            reduced_to::<F>(work@, n, column as int),
        decreases size - column,
    {
        let ghost before = work@;
        if !reduce_column::<F>(work, size, stride, column) {
            proof {
                lemma_no_pivot::<F>(start, before, m, n, column as int);
            }
            return false;
        }
        proof {
            lemma_same_chain::<F>(start, before, work@, 2 * n, n);
        }
        column = column + 1;
    }
    proof {
        lemma_reduced_inverts::<F>(start, work@, m, n);
    }
    true
}

/// Invert a dense `size`-by-`size` matrix in row-major order by Gauss-Jordan
/// elimination, and say whether it was invertible.
///
/// `augmented` is workspace; `inverse` stays as it was if the matrix is
/// singular.
pub fn invert_square_into<F: BinaryField>(
    matrix: &[F::Elem],
    size: usize,
    augmented: &mut [F::Elem],
    inverse: &mut [F::Elem],
) -> (found: bool)
    requires
        size * size <= matrix@.len(),
        2 * (size * size) <= old(augmented)@.len(),
        old(inverse)@.len() == size * size,
    ensures
        found == nonsingular::<F>(matrix@, size as nat),
        final(augmented)@.len() == old(augmented)@.len(),
        final(inverse)@.len() == old(inverse)@.len(),
        !found ==> final(inverse)@ == old(inverse)@,
        found ==> multiply_to_one::<F>(matrix@, final(inverse)@, size as nat),
        found ==> multiply_to_one::<F>(final(inverse)@, matrix@, size as nat),
{
    let ghost n = size as nat;
    let room: usize = augmented.len();
    proof {
        assert(size * (2 * size) == 2 * (size * size) && 2 * size <= 2 * (size * size))
            by (nonlinear_arith)
            requires
                size >= 0,
        ;
    }
    let stride: usize = 2 * size;
    let needed: usize = size * stride;
    let (work, _) = augmented.split_at_mut(needed);
    augment::<F>(work, matrix, size);
    if !eliminate::<F>(work, size, stride, Ghost(matrix@)) {
        return false;
    }
    copy_right::<F>(work, inverse, size, stride);
    true
}

/// Copy the right part of a system.
fn copy_right<F: BinaryField>(
    work: &[F::Elem],
    inverse: &mut [F::Elem],
    size: usize,
    stride: usize,
)
    requires
        stride == 2 * size,
        work@.len() == size * stride,
        old(inverse)@.len() == size * size,
    ensures
        final(inverse)@ == right_part(work@, size as nat),
{
    let ghost n = size as nat;
    let count: usize = work.len();
    let total: usize = inverse.len();
    let mut r: usize = 0;
    while r < size
        invariant
            r <= size,
            n == size,
            stride == 2 * size,
            count == size * stride,
            work@.len() == count,
            total == size * size,
            inverse@.len() == total,
            forall|i: int, e: int|
                0 <= i < r && 0 <= e < n ==> #[trigger] entry(inverse@, n, i, e) == entry(
                    work@,
                    2 * n,
                    i,
                    n + e,
                ),
        decreases size - r,
    {
        let mut c: usize = 0;
        while c < size
            invariant
                c <= size,
                r < size,
                n == size,
                stride == 2 * size,
                count == size * stride,
                work@.len() == count,
                total == size * size,
                inverse@.len() == total,
                forall|i: int, e: int|
                    0 <= i <= r && 0 <= e < n && (i < r || e < c) ==> #[trigger] entry(
                        inverse@,
                        n,
                        i,
                        e,
                    ) == entry(work@, 2 * n, i, n + e),
            decreases size - c,
        {
            let ghost before = inverse@;
            proof {
                lemma_place(r as int, size + c, stride as int, size as int);
                lemma_place(r as int, c as int, size as int, size as int);
                assert(0 <= r * stride && 0 <= r * size) by (nonlinear_arith)
                    requires
                        r >= 0,
                        stride >= 0,
                        size >= 0,
                ;
            }
            inverse[r * size + c] = work[r * stride + size + c];
            proof {
                assert forall|i: int, e: int| 0 <= i <= r && 0 <= e < n && (i < r || e
                    < c) implies #[trigger] entry(inverse@, n, i, e) == entry(
                    before,
                    n,
                    i,
                    e,
                ) by {
                    lemma_place(i, e, size as int, size as int);
                    lemma_row_order(i, r as int, e, size as int);
                }
            }
            c = c + 1;
        }
        r = r + 1;
    }
    proof {
        let b = right_part(work@, n);
        assert forall|i: int| 0 <= i < n * n implies inverse@[i] == b[i] by {
            let (k, l) = (i / n as int, i % n as int);
            vstd::arithmetic::div_mod::lemma_fundamental_div_mod(i, n as int);
            assert(n * k == k * n) by (nonlinear_arith);
            assert(0 <= k < n) by (nonlinear_arith)
                requires
                    i == k * n + l,
                    0 <= l < n,
                    0 <= i < n * n,
            ;
            assert(entry(inverse@, n, k, l) == inverse@[i]);
        }
        assert(inverse@ =~= b);
    }
}

/// A matrix with a left inverse is not singular.
pub proof fn law_invertible_is_nonsingular<F: BinaryField>(
    b: Seq<F::Elem>,
    m: Seq<F::Elem>,
    n: nat,
)
    requires
        multiply_to_one::<F>(b, m, n),
    ensures
        nonsingular::<F>(m, n),
{
    assert forall|x: Seq<F::Elem>, i: int|
        x.len() == n && #[trigger] annihilates::<F>(m, n, n, x) && 0 <= i < n implies #[trigger] x[i]
        == fzero::<F>() by {
        // x_i == sum_c (sum_k b_ik m_kc) x_c == sum_k b_ik (sum_c m_kc x_c) == 0
        let f = |k: int| |c: int| fmul::<F>(entry(b, n, i, k), fmul::<F>(entry(m, n, k, c), x[c]));
        let g = |c: int| |k: int| fmul::<F>(entry(b, n, i, k), fmul::<F>(entry(m, n, k, c), x[c]));
        let by_rows = |k: int| fmul::<F>(entry(b, n, i, k), dot::<F>(m, n, k, x));
        let by_columns = |c: int| rsum::<F>(g(c), n);
        assert forall|k: int| 0 <= k < n implies #[trigger] by_rows(k) == rsum::<F>(f(k), n) by {
            let inner = |c: int| fmul::<F>(entry(m, n, k, c), x[c]);
            lemma_sum_scale::<F>(inner, entry(b, n, i, k), f(k), n);
        }
        lemma_sum_exchange::<F>(f, by_rows, by_columns, g, n, n);
        assert forall|k: int| 0 <= k < n implies #[trigger] by_rows(k) == fzero::<F>() by {
            assert(dot::<F>(m, n, k, x) == fzero::<F>());
            lemma_mul::<F>(entry(b, n, i, k), fzero::<F>(), fzero::<F>());
        }
        lemma_sum_zero::<F>(by_rows, n);
        assert forall|c: int| 0 <= c < n implies #[trigger] by_columns(c) == fmul::<F>(
            unit_at::<F>(i, c),
            x[c],
        ) by {
            let q = |k: int| fmul::<F>(entry(b, n, i, k), entry(m, n, k, c));
            assert forall|k: int| 0 <= k < n implies #[trigger] g(c)(k) == fmul::<F>(x[c], q(k)) by {
                lemma_mul::<F>(entry(b, n, i, k), entry(m, n, k, c), x[c]);
                lemma_mul::<F>(x[c], q(k), q(k));
            }
            lemma_sum_scale::<F>(q, x[c], g(c), n);
            assert(product_at::<F>(b, m, n, i, c) == unit_at::<F>(i, c));
            lemma_mul::<F>(x[c], unit_at::<F>(i, c), x[c]);
        }
        lemma_unit_row::<F>(i, n, x, by_columns);
    }
}

/// An inverse undoes its matrix: with `b` the inverse of `m`, the product of `b` with
/// the image of a vector under `m` is the vector.
pub proof fn law_inverse_undoes_the_matrix<F: BinaryField>(
    b: Seq<F::Elem>,
    m: Seq<F::Elem>,
    n: nat,
    x: Seq<F::Elem>,
    y: Seq<F::Elem>,
    i: int,
)
    requires
        multiply_to_one::<F>(b, m, n),
        x.len() == n,
        y.len() == n,
        0 <= i < n,
        forall|r: int| 0 <= r < n ==> #[trigger] y[r] == rsum::<F>(|c: int| fmul::<F>(m[r * n + c], x[c]), n),
    ensures
        rsum::<F>(|k: int| fmul::<F>(b[i * n + k], y[k]), n) == x[i],
{
    let f = |k: int| |c: int| fmul::<F>(entry(b, n, i, k), fmul::<F>(entry(m, n, k, c), x[c]));
    let g = |c: int| |k: int| fmul::<F>(entry(b, n, i, k), fmul::<F>(entry(m, n, k, c), x[c]));
    let by_rows = |k: int| fmul::<F>(b[i * n + k], y[k]);
    let by_columns = |c: int| rsum::<F>(g(c), n);
    assert forall|k: int| 0 <= k < n implies #[trigger] by_rows(k) == rsum::<F>(f(k), n) by {
        let inner = |c: int| fmul::<F>(m[k * n + c], x[c]);
        assert(y[k] == rsum::<F>(inner, n));
        lemma_sum_scale::<F>(inner, entry(b, n, i, k), f(k), n);
    }
    lemma_sum_exchange::<F>(f, by_rows, by_columns, g, n, n);
    assert forall|c: int| 0 <= c < n implies #[trigger] by_columns(c) == fmul::<F>(
        unit_at::<F>(i, c),
        x[c],
    ) by {
        let q = |k: int| fmul::<F>(entry(b, n, i, k), entry(m, n, k, c));
        assert forall|k: int| 0 <= k < n implies #[trigger] g(c)(k) == fmul::<F>(x[c], q(k)) by {
            lemma_mul::<F>(entry(b, n, i, k), entry(m, n, k, c), x[c]);
            lemma_mul::<F>(x[c], q(k), q(k));
        }
        lemma_sum_scale::<F>(q, x[c], g(c), n);
        assert(product_at::<F>(b, m, n, i, c) == unit_at::<F>(i, c));
        lemma_mul::<F>(x[c], unit_at::<F>(i, c), x[c]);
    }
    lemma_unit_row::<F>(i, n, x, by_columns);
}

} // verus!
