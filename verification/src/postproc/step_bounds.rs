//! How large the numbers of the elimination are, and how far they are from the exact ones.
//!
//! Beside the matrix `a` and what becomes its inverse, `v`, goes a matrix of real numbers, `g`,
//! which is near the inverse of `a`: it begins as the inverse of the matrix that is eliminated, and
//! each step turns one of its columns into that of the identity.
use crate::double::Double;
use crate::formula::Arithmetic;
use crate::postproc::inverse::{column, dot, is_square};
use crate::postproc::isotropic_inverse::worths;
use crate::postproc::step_sums::{lemma_dot_tail, tail};
use crate::rounding::{is_zero, size, worth, zero_stays};
use vstd::prelude::*;

verus! {

/// An entry of the identity.
pub open spec fn delta(i: int, j: int) -> real {
    if i == j {
        1real
    } else {
        0real
    }
}

/// Whether all entries are finite.
pub open spec fn is_finite_matrix(a: Seq<Seq<Double>>) -> bool {
    &&& is_square(a)
    &&& forall|r: int, j: int| 0 <= r < 6 && 0 <= j < 6 ==> (#[trigger] a[r][j]).is_finite()
}

/// Whether the first `k` columns of `a` are those of the identity.
pub open spec fn begins_as_identity(a: Seq<Seq<Double>>, k: int) -> bool {
    forall|r: int, j: int|
        0 <= r < 6 && 0 <= j < k ==> if r == j {
            #[trigger] a[r][j] == Double::natural(1)
        } else {
            is_zero(a[r][j])
        }
}

/// Whether `g` has six rows, begins with `k` columns of the identity, and the rest of each row
/// comes to `n` at most.
pub open spec fn is_companion(g: Seq<Seq<real>>, k: int, n: real) -> bool {
    &&& g.len() == 6
    &&& forall|i: int| 0 <= i < 6 ==> (#[trigger] g[i]).len() == 6
    &&& forall|i: int, s: int| 0 <= i < 6 && 0 <= s < k ==> #[trigger] g[i][s] == delta(i, s)
    &&& forall|i: int| 0 <= i < 6 ==> tail(#[trigger] g[i], k) <= n
}

/// The column of a matrix, as real numbers.
pub open spec fn real_column(a: Seq<Seq<Double>>, j: int) -> Seq<real> {
    column(worths(a), j)
}

/// Whether `g` times `a` is the identity up to `t`, from column `k` on.
pub open spec fn is_close(g: Seq<Seq<real>>, a: Seq<Seq<Double>>, k: int, t: real) -> bool {
    forall|i: int, j: int|
        0 <= i < 6 && k <= j < 6 ==> size(#[trigger] dot(g[i], real_column(a, j)) - delta(i, j))
            <= t
}

/// Whether the rows from `k` on are small: `l` in the scale `n`.
pub open spec fn is_small_below(a: Seq<Seq<Double>>, k: int, n: real, l: real) -> bool {
    forall|r: int, j: int|
        k <= r < 6 && 0 <= j < 6 ==> n * size(worth(#[trigger] a[r][j])) <= l
}

/// Whether the rows before `k` are small.
pub open spec fn is_small_above(a: Seq<Seq<Double>>, k: int, n: real, l: real) -> bool {
    forall|r: int, j: int|
        0 <= r < k && 0 <= j < 6 ==> n * size(worth(#[trigger] a[r][j])) <= l
}

/// Whether the entry in place `k` is the largest of its column, from row `k` on.
pub open spec fn is_largest(a: Seq<Seq<Double>>, k: int) -> bool {
    forall|r: int| k <= r < 6 ==> size(worth(#[trigger] a[r][k])) <= size(worth(a[k][k]))
}

pub proof fn lemma_real_column(a: Seq<Seq<Double>>, j: int)
    requires
        0 <= j < 6,
    ensures
        real_column(a, j).len() == 6,
        forall|s: int| 0 <= s < 6 ==> #[trigger] real_column(a, j)[s] == worth(a[s][j]),
{
}

/// The pivot is not small.
pub proof fn lemma_pivot(a: Seq<Seq<Double>>, g: Seq<Seq<real>>, k: int, n: real, t: real)
    requires
        0 <= k < 6,
        is_companion(g, k, n),
        is_close(g, a, k, t),
        is_largest(a, k),
    ensures
        n * size(worth(a[k][k])) >= 1real - t,
{
    let x = real_column(a, k);
    let p = size(worth(a[k][k]));
    lemma_real_column(a, k);
    assert forall|s: int| k <= s < 6 implies size(#[trigger] x[s]) <= p by {
        assert(x[s] == worth(a[s][k]));
    }
    lemma_dot_tail(g[k], x, k, k, p);
    assert(size(dot(g[k], real_column(a, k)) - delta(k, k)) <= t);
    let s = tail(g[k], k);
    assert(s * p <= n * p) by (nonlinear_arith)
        requires
            s <= n,
            p >= 0real,
    ;
}

/// The rows before `k` are not large.
pub proof fn lemma_above(
    a: Seq<Seq<Double>>,
    g: Seq<Seq<real>>,
    k: int,
    n: real,
    t: real,
    l: real,
    r: int,
    j: int,
)
    requires
        0 <= r < k,
        k < 6,
        0 <= j < 6,
        n > 0real,
        l >= 1real,
        0real <= t <= 1real,
        is_companion(g, k, n),
        is_close(g, a, k, t),
        is_small_below(a, k, n, l),
        begins_as_identity(a, k),
        worth(Double::natural(1)) == 1real,
    ensures
        size(worth(a[r][j])) <= l + 1real,
{
    if j < k {
        assert(a[r][j] == a[r][j]);
        if r != j {
            assert(is_zero(a[r][j]));
            zero_stays(a[r][j], Double { bits: 0 });
        }
    } else {
        let x = real_column(a, j);
        lemma_real_column(a, j);
        let b = l / n;
        assert(n * b == l) by (nonlinear_arith)
            requires
                b == l / n,
                n > 0real,
        ;
        assert(b > 0real) by (nonlinear_arith)
            requires
                n * b == l,
                n > 0real,
                l >= 1real,
        ;
        assert forall|s: int| k <= s < 6 implies size(#[trigger] x[s]) <= b by {
            let y = size(worth(a[s][j]));
            assert(n * y <= l);
            assert(y <= b) by (nonlinear_arith)
                requires
                    n * y <= n * b,
                    n > 0real,
            ;
        }
        lemma_dot_tail(g[r], x, r, k, b);
        assert(size(dot(g[r], real_column(a, j)) - delta(r, j)) <= t);
        let s = tail(g[r], k);
        assert(s * b <= n * b) by (nonlinear_arith)
            requires
                s <= n,
                b >= 0real,
        ;
        assert(x[r] == worth(a[r][j]));
    }
}

} // verus!
