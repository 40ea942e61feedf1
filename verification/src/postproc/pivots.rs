//! Which rows the elimination of the stiffness of an isotropic material takes.
use crate::arithmetic::{difference, integer, lemma_exact_integer, product, quotient};
use crate::double::{lemma_grid_fields, lemma_grid_increases, Double, WIDE};
use crate::formula::Arithmetic;
use crate::postproc::inverse::{
    eliminated, first_obstacle, incomparable, is_square, largest_entry, magnitude_of, obstacle,
    pivot_row, smallest_pivot, step, swapped,
};
use crate::rounding::{
    is_zero, lemma_real_product, lemma_unit, lemma_worth, less_zero, size, unit, worth, zero_stays,
};
use vstd::arithmetic::power2::*;
use vstd::prelude::*;

verus! {

/// A number of larger size has more units.
pub proof fn lemma_larger(a: Double, b: Double)
    requires
        a.is_finite(),
        b.is_finite(),
        size(worth(a)) < size(worth(b)),
    ensures
        a.units() < b.units(),
{
    lemma_worth(a);
    lemma_worth(b);
    lemma_unit();
    let (u, v, big) = (a.units() as real, b.units() as real, unit());
    assert(u < v) by (nonlinear_arith)
        requires
            u / big < v / big,
            big > 0real,
    ;
}

/// A number of at least one eighth can be a pivot.
pub proof fn lemma_not_small(v: Double)
    requires
        v.is_finite(),
        8real * size(worth(v)) >= 1real,
    ensures
        !magnitude_of(v).is_below(smallest_pivot()),
        v.magnitude() > 0,
{
    let p = WIDE as nat;
    lemma_worth(v);
    lemma_unit();
    let (u, big) = (v.units() as real, unit());
    assert(8real * u >= big) by (nonlinear_arith)
        requires
            8real * (u / big) >= 1real,
            big > 0real,
    ;
    let n = v.units();
    assert(8 * n >= pow2(1074)) by {
        assert((8 * n) as real == 8real * u);
    }
    lemma2_to64();
    lemma2_to64_rest();
    lemma_pow2_adds(3, 1071);
    lemma_pow2_adds(52, 1019);
    lemma_grid_fields(p, 1020, 0);
    lemma_grid_increases(p, smallest_pivot().magnitude(), 1020 * p);
    assert(magnitude_of(v).scaled() == n);
    if v.magnitude() == 0 {
        lemma_grid_fields(p, 0, 0);
        lemma_pow2_pos(1074);
    }
}

/// Zero, one and two are what they stand for.
pub proof fn lemma_natural(n: nat)
    requires
        n <= 2,
    ensures
        Double::natural(n).is_finite(),
        worth(Double::natural(n)) == n as real,
        n == 0 ==> is_zero(Double::natural(n)),
        n > 0 ==> Double::natural(n).magnitude() > 0,
{
    let d = Double::natural(n);
    assert(d == integer(n as int));
    lemma_exact_integer(n as int);
    lemma_unit();
    lemma_worth(d);
    let (w, big) = (worth(d), unit());
    lemma_real_product(n, pow2(1074));
    assert(w * big == n as real * big);
    assert(w == n as real) by (nonlinear_arith)
        requires
            w * big == n as real * big,
            big > 0real,
    ;
    if d.magnitude() == 0 {
        zero_stays(d, d);
    } else if n == 0 {
        lemma_grid_fields(WIDE as nat, 0, 0);
        lemma_grid_increases(WIDE as nat, 0, d.magnitude());
        assert(0 * pow2(1074) == 0);
    }
}

/// An entry after a step that takes the row in place `col`.
pub open spec fn entry_after(
    m: Seq<Seq<Double>>,
    a: Seq<Seq<Double>>,
    col: int,
    r: int,
    j: int,
) -> Double {
    let q = quotient(m[col][j], a[col][col]);
    if r == col {
        q
    } else {
        difference(m[r][j], product(a[r][col], q))
    }
}

/// What a step does that takes the row in place `col`.
pub proof fn lemma_entries(a: Seq<Seq<Double>>, v: Seq<Seq<Double>>, col: int)
    requires
        is_square(a),
        is_square(v),
        0 <= col < 6,
    ensures
        is_square(step((a, v), col, col).0),
        is_square(step((a, v), col, col).1),
        forall|r: int, j: int|
            0 <= r < 6 && 0 <= j < 6 ==> #[trigger] step((a, v), col, col).0[r][j] == entry_after(
                a,
                a,
                col,
                r,
                j,
            ),
        forall|r: int, j: int|
            0 <= r < 6 && 0 <= j < 6 ==> #[trigger] step((a, v), col, col).1[r][j] == entry_after(
                v,
                a,
                col,
                r,
                j,
            ),
{
    assert(swapped(a, col, col) =~= a);
    assert(swapped(v, col, col) =~= v);
}

/// Whether the row in place `col` has the largest entry of column `col`, and one that can be
/// divided by.
pub open spec fn leads(a: Seq<Seq<Double>>, col: int) -> bool {
    &&& forall|r: int| col <= r < 6 ==> (#[trigger] a[r])[col].is_finite()
    &&& forall|r: int| col < r < 6 ==> (#[trigger] a[r])[col].units() < a[col][col].units()
    &&& a[col][col].magnitude() > 0
    &&& !magnitude_of(a[col][col]).is_below(smallest_pivot())
}

proof fn lemma_largest(a: Seq<Seq<Double>>, col: int, k: int)
    requires
        0 <= col < 6,
        leads(a, col),
        k <= 6,
    ensures
        largest_entry(a, col, k) == col,
    decreases k - col,
{
    if k > col + 1 {
        lemma_largest(a, col, k - 1);
        assert(a[k - 1][col].units() < a[col][col].units());
    }
}

/// Nothing stops the elimination of a column where the row in its place leads.
pub proof fn lemma_leads(m: Seq<Seq<Double>>, k: nat)
    requires
        k < 6,
        first_obstacle(m, k) is None,
        leads(eliminated(m, pivot_row(), k).0, k as int),
    ensures
        first_obstacle(m, k + 1) is None,
        eliminated(m, pivot_row(), k + 1) == step(
            eliminated(m, pivot_row(), k),
            k as int,
            k as int,
        ),
{
    let a = eliminated(m, pivot_row(), k).0;
    let col = k as int;
    lemma_largest(a, col, 6);
    assert(pivot_row()(a, col) == col);
    if incomparable(a, col) {
        let r = choose|r: int| col <= r < 6 && (#[trigger] a[r])[col].is_nan();
        assert(a[r][col].is_finite());
    }
    assert(obstacle(a, col) is None);
}

/// Whether, from column `k` on, the last three rows and columns of `a` hold `g` on the diagonal and
/// zeros elsewhere, and those of `v` hold zeros beside the diagonal, and on it ones or, before row
/// `k`, the reciprocal of `g`.
pub open spec fn is_apart(a: Seq<Seq<Double>>, v: Seq<Seq<Double>>, g: Double, k: int) -> bool {
    &&& is_square(a)
    &&& is_square(v)
    &&& forall|r: int, j: int|
        0 <= r < 6 && 3 <= j < 6 && k <= j ==> if r == j {
            #[trigger] a[r][j] == g
        } else {
            is_zero(a[r][j])
        }
    &&& forall|r: int, j: int| 3 <= r < 6 && k <= j < 3 ==> is_zero(#[trigger] a[r][j])
    &&& forall|r: int, c: int|
        0 <= r < 6 && 0 <= c < 6 && (r >= 3 || c >= 3) && r != c ==> is_zero(#[trigger] v[r][c])
    &&& forall|r: int| 3 <= r < 6 && k <= r ==> (#[trigger] v[r])[r] == Double::natural(1)
    &&& forall|r: int|
        3 <= r < k && r < 6 ==> (#[trigger] v[r])[r].is_finite() && worth(v[r][r]) == worth(
            quotient(Double::natural(1), g),
        )
}

/// A number less a product with a zero.
pub proof fn lemma_less_nothing(a: Double, f: Double, q: Double)
    requires
        a.is_finite(),
        f.is_finite(),
        q.is_finite(),
        is_zero(f) || is_zero(q),
    ensures
        difference(a, product(f, q)).is_finite(),
        worth(difference(a, product(f, q))) == worth(a),
        a.magnitude() > 0 ==> difference(a, product(f, q)) == a,
        is_zero(a) ==> is_zero(difference(a, product(f, q))),
{
    if is_zero(f) {
        zero_stays(f, q);
    } else {
        zero_stays(q, f);
    }
    less_zero(a, product(f, q));
}

/// A step on one of the first three columns leaves the last three apart.
pub proof fn lemma_apart_first(a: Seq<Seq<Double>>, v: Seq<Seq<Double>>, g: Double, k: int)
    requires
        0 <= k < 3,
        is_apart(a, v, g, k),
        g.is_finite(),
        g.magnitude() > 0,
        a[k][k].is_finite(),
        a[k][k].magnitude() > 0,
        forall|r: int| 0 <= r < 3 ==> (#[trigger] a[r])[k].is_finite(),
        forall|j: int| k < j < 3 ==> quotient(#[trigger] a[k][j], a[k][k]).is_finite(),
        forall|c: int| 0 <= c < 3 ==> quotient(#[trigger] v[k][c], a[k][k]).is_finite(),
    ensures
        is_apart(step((a, v), k, k).0, step((a, v), k, k).1, g, k + 1),
{
    lemma_natural(1);
    lemma_entries(a, v, k);
    let p = a[k][k];
    let na = step((a, v), k, k).0;
    let nv = step((a, v), k, k).1;
    assert forall|r: int, j: int| 0 <= r < 6 && 3 <= j < 6 implies if r == j {
        #[trigger] na[r][j] == g
    } else {
        is_zero(na[r][j])
    } by {
        assert(na[r][j] == entry_after(a, a, k, r, j));
        assert(is_zero(a[k][j]));
        zero_stays(a[k][j], p);
        if r != k {
            if r >= 3 {
                assert(is_zero(a[r][k]));
            } else {
                assert(a[r][k].is_finite());
            }
            if r == j {
                assert(a[r][j] == g);
            } else {
                assert(is_zero(a[r][j]));
            }
            lemma_less_nothing(a[r][j], a[r][k], quotient(a[k][j], p));
        }
    }
    assert forall|r: int, j: int| 3 <= r < 6 && k + 1 <= j < 3 implies is_zero(
        #[trigger] na[r][j],
    ) by {
        assert(na[r][j] == entry_after(a, a, k, r, j));
        assert(is_zero(a[r][k]));
        assert(is_zero(a[r][j]));
        assert(quotient(a[k][j], p).is_finite());
        lemma_less_nothing(a[r][j], a[r][k], quotient(a[k][j], p));
    }
    assert forall|r: int, c: int|
        0 <= r < 6 && 0 <= c < 6 && (r >= 3 || c >= 3) && r != c implies is_zero(
        #[trigger] nv[r][c],
    ) by {
        assert(nv[r][c] == entry_after(v, a, k, r, c));
        assert(is_zero(v[r][c]));
        if c >= 3 {
            assert(is_zero(v[k][c]));
            zero_stays(v[k][c], p);
        } else {
            assert(quotient(v[k][c], p).is_finite());
        }
        if r >= 3 {
            assert(is_zero(a[r][k]));
        } else {
            assert(a[r][k].is_finite());
        }
        if r != k {
            lemma_less_nothing(v[r][c], a[r][k], quotient(v[k][c], p));
        }
    }
    assert forall|r: int| 3 <= r < 6 implies (#[trigger] nv[r])[r] == Double::natural(1) by {
        assert(nv[r][r] == entry_after(v, a, k, r, r));
        assert(v[r][r] == Double::natural(1));
        assert(is_zero(v[k][r]));
        zero_stays(v[k][r], p);
        assert(is_zero(a[r][k]));
        lemma_less_nothing(v[r][r], a[r][k], quotient(v[k][r], p));
    }
}

/// Whether the first three rows and columns of two matrices are worth the same.
pub open spec fn same_worth(v: Seq<Seq<Double>>, w: Seq<Seq<Double>>) -> bool {
    forall|r: int, c: int|
        0 <= r < 3 && 0 <= c < 3 ==> (#[trigger] w[r][c]).is_finite() && worth(w[r][c]) == worth(
            v[r][c],
        )
}

/// A step on one of the last three columns changes nothing in the first three rows and columns of
/// `v`.
pub proof fn lemma_apart_last(a: Seq<Seq<Double>>, v: Seq<Seq<Double>>, g: Double, k: int)
    requires
        3 <= k < 6,
        is_apart(a, v, g, k),
        g.is_finite(),
        8real * size(worth(g)) >= 1real,
        quotient(Double::natural(1), g).is_finite(),
        same_worth(v, v),
    ensures
        leads(a, k),
        is_apart(step((a, v), k, k).0, step((a, v), k, k).1, g, k + 1),
        same_worth(v, step((a, v), k, k).1),
{
    lemma_natural(1);
    lemma_not_small(g);
    lemma_entries(a, v, k);
    let na = step((a, v), k, k).0;
    let nv = step((a, v), k, k).1;
    assert(a[k][k] == g);
    assert forall|r: int| k < r < 6 implies (#[trigger] a[r])[k].is_finite() && a[r][k].units()
        < a[k][k].units() by {
        assert(is_zero(a[r][k]));
        zero_stays(a[r][k], g);
        lemma_larger(a[r][k], g);
    }
    assert forall|r: int| k <= r < 6 implies (#[trigger] a[r])[k].is_finite() by {
        if r > k {
            assert(a[r][k].is_finite());
        }
    }
    assert forall|r: int, j: int| 0 <= r < 6 && 3 <= j < 6 && k + 1 <= j implies if r == j {
        #[trigger] na[r][j] == g
    } else {
        is_zero(na[r][j])
    } by {
        assert(na[r][j] == entry_after(a, a, k, r, j));
        assert(is_zero(a[k][j]));
        zero_stays(a[k][j], g);
        if r != k {
            assert(is_zero(a[r][k]));
            if r == j {
                assert(a[r][j] == g);
            } else {
                assert(is_zero(a[r][j]));
            }
            lemma_less_nothing(a[r][j], a[r][k], quotient(a[k][j], g));
        }
    }
    // The row that is taken holds zeros beside the diagonal, so that its quotients are finite.
    assert forall|c: int| 0 <= c < 6 implies quotient(#[trigger] v[k][c], g).is_finite() && (c != k
        ==> is_zero(quotient(v[k][c], g))) by {
        if c != k {
            assert(is_zero(v[k][c]));
            zero_stays(v[k][c], g);
            zero_stays(quotient(v[k][c], g), g);
        } else {
            assert(v[k][k] == Double::natural(1));
        }
    }
    assert forall|r: int, c: int|
        0 <= r < 6 && 0 <= c < 6 && (r >= 3 || c >= 3) && r != c implies is_zero(
        #[trigger] nv[r][c],
    ) by {
        assert(nv[r][c] == entry_after(v, a, k, r, c));
        assert(is_zero(v[r][c]));
        assert(quotient(v[k][c], g).is_finite());
        if r != k {
            assert(is_zero(a[r][k]));
            lemma_less_nothing(v[r][c], a[r][k], quotient(v[k][c], g));
        }
    }
    assert forall|r: int| 3 <= r < 6 && r != k implies (#[trigger] nv[r])[r].is_finite() && worth(
        nv[r][r],
    ) == worth(v[r][r]) && (v[r][r].magnitude() > 0 ==> nv[r][r] == v[r][r]) by {
        assert(nv[r][r] == entry_after(v, a, k, r, r));
        assert(quotient(v[k][r], g).is_finite());
        assert(is_zero(a[r][k]));
        if r < k {
            assert(v[r][r].is_finite());
        } else {
            assert(v[r][r] == Double::natural(1));
        }
        lemma_less_nothing(v[r][r], a[r][k], quotient(v[k][r], g));
    }
    assert(nv[k][k] == entry_after(v, a, k, k, k));
    assert(v[k][k] == Double::natural(1));
    assert forall|r: int, c: int| 0 <= r < 3 && 0 <= c < 3 implies (
        #[trigger] nv[r][c]).is_finite() && worth(nv[r][c]) == worth(v[r][c]) by {
        assert(nv[r][c] == entry_after(v, a, k, r, c));
        assert(quotient(v[k][c], g).is_finite());
        assert(is_zero(a[r][k]));
        assert(v[r][c].is_finite());
        lemma_less_nothing(v[r][c], a[r][k], quotient(v[k][c], g));
    }
    assert forall|r: int| 3 <= r < 6 && k + 1 <= r implies (#[trigger] nv[r])[r]
        == Double::natural(1) by {
        assert(v[r][r] == Double::natural(1));
    }
}

} // verus!
