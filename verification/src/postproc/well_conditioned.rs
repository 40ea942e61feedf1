//! The inverse of a well-conditioned matrix, as it is computed, is its inverse up to rounding.
use crate::double::{lemma_grid_fields, lemma_grid_increases, Double, WIDE};
use crate::formula::{lemma_times_units, real_times, Arithmetic};
use crate::postproc::companion::companion_after;
use crate::postproc::conditioned::{
    companion_swapped, follows, is_ready, is_tame, lemma_ready, lemma_swap_is_tame, Bounds,
};
use crate::postproc::conditioned_step::{is_at_most, lemma_step_is_tame};
use crate::postproc::inverse::{
    column, dot, eliminated, first_obstacle, identity, incomparable, largest_entry, lemma_dot_less,
    magnitude_of, obstacle, pivot_row, row_less, smallest_pivot, step, swapped,
};
use crate::postproc::isotropic::is_scale;
use crate::postproc::isotropic_inverse::worths;
use crate::postproc::pivots::lemma_natural;
use crate::postproc::residuals::residual;
use crate::postproc::step_bounds::{
    delta, is_finite_matrix, is_largest, lemma_real_column, real_column,
};
use crate::postproc::step_sums::{lemma_dot_order, lemma_dot_plus, lemma_dot_size, tail, tail_size};
use crate::rounding::{is_zero, lemma_unit, lemma_worth, part, size, unit, worth, zero_stays};
use vstd::arithmetic::power2::*;
use vstd::prelude::*;

verus! {

/// The bounds after `k` columns where the condition is 50.
spec fn wide_bounds(k: int) -> Bounds {
    if k == 0 {
        Bounds {
            kappa: 50real,
            l: 50real,
            u: 0real,
            theta: 0real,
            rho: 0real,
            tau: 0real,
        }
    } else if k == 1 {
        Bounds {
            kappa: 50real,
            l: 101real,
            u: 2_721real,
            theta: 8_694real,
            rho: 1_435real,
            tau: 59_081real,
        }
    } else if k == 2 {
        Bounds {
            kappa: 50real,
            l: 203real,
            u: 13_711real,
            theta: 979_920real,
            rho: 5_769real,
            tau: 471_737real,
        }
    } else if k == 3 {
        Bounds {
            kappa: 50real,
            l: 407real,
            u: 57_885real,
            theta: 213_303_257real,
            rho: 17_365real,
            tau: 2_776_339real,
        }
    } else if k == 4 {
        Bounds {
            kappa: 50real,
            l: 815real,
            u: 235_013real,
            theta: 92_815_908_439real,
            rho: 46_411real,
            tau: 14_559_720real,
        }
    } else if k == 5 {
        Bounds {
            kappa: 50real,
            l: 1_631real,
            u: 944_390real,
            theta: 80_780_781_181_382real,
            rho: 116_213real,
            tau: 71_901_297real,
        }
    } else {
        Bounds {
            kappa: 50real,
            l: 3_263real,
            u: 3_783_636real,
            theta: 140_617_798_503_947_835real,
            rho: 279_236real,
            tau: 342_051_269real,
        }
    }
}

/// The bounds after `k` columns where the condition is 4.
spec fn close_bounds(k: int) -> Bounds {
    if k == 0 {
        Bounds {
            kappa: 4real,
            l: 4real,
            u: 0real,
            theta: 0real,
            rho: 0real,
            tau: 0real,
        }
    } else if k == 1 {
        Bounds {
            kappa: 4real,
            l: 9real,
            u: 23real,
            theta: 89real,
            rho: 115real,
            tau: 469real,
        }
    } else if k == 2 {
        Bounds {
            kappa: 4real,
            l: 19real,
            u: 120real,
            theta: 1_289real,
            rho: 489real,
            tau: 3_942real,
        }
    } else if k == 3 {
        Bounds {
            kappa: 4real,
            l: 39real,
            u: 527real,
            theta: 28_770real,
            rho: 1_524real,
            tau: 23_984real,
        }
    } else if k == 4 {
        Bounds {
            kappa: 4real,
            l: 79real,
            u: 2_192real,
            theta: 1_230_965real,
            rho: 4_168real,
            tau: 128_639real,
        }
    } else if k == 5 {
        Bounds {
            kappa: 4real,
            l: 159real,
            u: 8_935real,
            theta: 104_981_593real,
            rho: 10_604real,
            tau: 645_151real,
        }
    } else {
        Bounds {
            kappa: 4real,
            l: 319real,
            u: 36_072real,
            theta: 17_909_944_716real,
            rho: 25_772real,
            tau: 3_102_899real,
        }
    }
}

/// The bounds after `k` columns.
spec fn bounds(close: bool, k: int) -> Bounds {
    if close {
        close_bounds(k)
    } else {
        wide_bounds(k)
    }
}

proof fn lemma_wide_bounds_follow(k: int, f: real, q: real, fq: real)
    requires
        0 <= k < 6,
        f == wide_bounds(k).l + 1real,
        15real * q == 16real * wide_bounds(k).l,
        fq == f * q,
    ensures
        follows(wide_bounds(k), wide_bounds(k + 1), f, q, fq),
{
    if k == 0 {
        assert(fq == 51real * q);
    } else if k == 1 {
        assert(fq == 102real * q);
    } else if k == 2 {
        assert(fq == 204real * q);
    } else if k == 3 {
        assert(fq == 408real * q);
    } else if k == 4 {
        assert(fq == 816real * q);
    } else {
        assert(fq == 1632real * q);
    }
}

proof fn lemma_close_bounds_follow(k: int, f: real, q: real, fq: real)
    requires
        0 <= k < 6,
        f == close_bounds(k).l + 1real,
        15real * q == 16real * close_bounds(k).l,
        fq == f * q,
    ensures
        follows(close_bounds(k), close_bounds(k + 1), f, q, fq),
{
    if k == 0 {
        assert(fq == 5real * q);
    } else if k == 1 {
        assert(fq == 10real * q);
    } else if k == 2 {
        assert(fq == 20real * q);
    } else if k == 3 {
        assert(fq == 40real * q);
    } else if k == 4 {
        assert(fq == 80real * q);
    } else {
        assert(fq == 160real * q);
    }
}

/// A number of at least 2^-25 can be a pivot.
proof fn lemma_can_be_pivot(v: Double)
    requires
        v.is_finite(),
        0x200_0000real * size(worth(v)) >= 1real,
    ensures
        !magnitude_of(v).is_below(smallest_pivot()),
{
    let p = WIDE as nat;
    lemma_worth(v);
    lemma_unit();
    let (u, big) = (v.units() as real, unit());
    assert(0x200_0000real * u >= big) by (nonlinear_arith)
        requires
            0x200_0000real * (u / big) >= 1real,
            big > 0real,
    ;
    let n = v.units();
    assert(0x200_0000 * n >= pow2(1074)) by {
        assert((0x200_0000 * n) as real == 0x200_0000real * u);
    }
    lemma2_to64();
    lemma2_to64_rest();
    lemma_pow2_adds(25, 1049);
    lemma_pow2_adds(52, 997);
    lemma_grid_fields(p, 998, 0);
    lemma_grid_increases(p, smallest_pivot().magnitude(), 998 * p);
    assert(magnitude_of(v).scaled() == n);
}

/// A number of no more units is no larger.
proof fn lemma_no_larger(a: Double, b: Double)
    requires
        a.is_finite(),
        b.is_finite(),
        a.units() <= b.units(),
    ensures
        size(worth(a)) <= size(worth(b)),
{
    lemma_worth(a);
    lemma_worth(b);
    lemma_unit();
    let (u, v, big) = (a.units() as real, b.units() as real, unit());
    assert(u / big <= v / big) by (nonlinear_arith)
        requires
            u <= v,
            big > 0real,
    ;
}

/// The row that is chosen has the largest entry.
proof fn lemma_choice(a: Seq<Seq<Double>>, col: int, k: int)
    requires
        0 <= col < k <= 6,
    ensures
        col <= largest_entry(a, col, k) < k,
        forall|r: int|
            col <= r < k ==> (#[trigger] a[r])[col].units() <= a[largest_entry(
                a,
                col,
                k,
            )][col].units(),
    decreases k - col,
{
    if k > col + 1 {
        lemma_choice(a, col, k - 1);
        let best = largest_entry(a, col, k - 1);
        let it = largest_entry(a, col, k);
        assert forall|r: int| col <= r < k implies (#[trigger] a[r])[col].units()
            <= a[it][col].units() by {
            if r < k - 1 {
                assert(a[r][col].units() <= a[best][col].units());
            }
        }
    }
}

/// After the rows are exchanged the largest entry stands in its place.
proof fn lemma_leads_after_swap(a: Seq<Seq<Double>>, k: int) -> (p: int)
    requires
        0 <= k < 6,
        is_finite_matrix(a),
    ensures
        p == pivot_row()(a, k),
        k <= p < 6,
        is_largest(swapped(a, k, p), k),
{
    let p = largest_entry(a, k, 6);
    lemma_choice(a, k, 6);
    let s = swapped(a, k, p);
    assert(s[k] == a[p]);
    assert forall|r: int| k <= r < 6 implies size(worth(#[trigger] s[r][k])) <= size(
        worth(s[k][k]),
    ) by {
        let q = if r == k {
            p
        } else if r == p {
            k
        } else {
            r
        };
        assert(s[r] == a[q]);
        assert(a[q][k].is_finite() && a[p][k].is_finite());
        assert(a[q][k].units() <= a[p][k].units());
        lemma_no_larger(a[q][k], a[p][k]);
    }
    p
}

/// Whether `inverse` is the inverse of `m`, whose entries are `mu` at most, while the sizes in each
/// row of the inverse come to `n` at most. Their product bounds the condition number.
pub open spec fn is_conditioned(
    m: Seq<Seq<Double>>,
    inverse: Seq<Seq<real>>,
    mu: real,
    n: real,
) -> bool {
    &&& is_finite_matrix(m)
    &&& is_at_most(m, mu)
    &&& inverse.len() == 6
    &&& forall|i: int| 0 <= i < 6 ==> (#[trigger] inverse[i]).len() == 6
    &&& forall|i: int| 0 <= i < 6 ==> tail(#[trigger] inverse[i], 0) <= n
    &&& forall|i: int, j: int|
        0 <= i < 6 && 0 <= j < 6 ==> #[trigger] dot(inverse[i], real_column(m, j)) == delta(i, j)
}

/// A row of the identity times a column.
proof fn lemma_identity_row(m: Seq<Seq<Double>>, r: int, j: int)
    requires
        0 <= r < 6,
        0 <= j < 6,
    ensures
        dot(worths(identity::<Double>())[r], real_column(m, j)) == worth(m[r][j]),
{
    let x = real_column(m, j);
    let e = worths(identity::<Double>())[r];
    lemma_real_column(m, j);
    lemma_natural(0);
    lemma_natural(1);
    assert forall|t: int| 0 <= t < 6 implies #[trigger] e[t] == delta(r, t) by {
        assert(identity::<Double>()[r][t] == if r == t {
            Double::natural(1)
        } else {
            Double::natural(0)
        });
    }
    assert(e[0] == delta(r, 0) && e[1] == delta(r, 1) && e[2] == delta(r, 2) && e[3] == delta(r, 3)
        && e[4] == delta(r, 4) && e[5] == delta(r, 5));
    lemma_times_units(x[0]);
    lemma_times_units(x[1]);
    lemma_times_units(x[2]);
    lemma_times_units(x[3]);
    lemma_times_units(x[4]);
    lemma_times_units(x[5]);
    assert(r == 0 || r == 1 || r == 2 || r == 3 || r == 4 || r == 5);
}

/// Before the first column the numbers are within their bounds.
proof fn lemma_begins_tame(
    m: Seq<Seq<Double>>,
    inverse: Seq<Seq<real>>,
    mu: real,
    n: real,
    close: bool,
)
    requires
        is_conditioned(m, inverse, mu, n),
        is_scale(mu),
        is_scale(n),
        n * mu <= bounds(close, 0).kappa,
    ensures
        is_tame(m, identity::<Double>(), m, inverse, 0, n, mu, bounds(close, 0)),
{
    let v = identity::<Double>();
    let b = bounds(close, 0);
    lemma_natural(0);
    lemma_natural(1);
    assert(b.theta * part() == 0real && b.rho * part() == 0real && b.tau * part() == 0real);
    assert forall|r: int, j: int| 0 <= r < 6 && 0 <= j < 6 implies (
    #[trigger] v[r][j]).is_finite() by {}
    assert forall|r: int, j: int| 0 <= r < 6 && 0 <= j < 6 implies n * size(
        worth(#[trigger] m[r][j]),
    ) <= b.l by {
        let x = size(worth(m[r][j]));
        assert(x <= mu);
        assert(n * x <= n * mu) by (nonlinear_arith)
            requires
                x <= mu,
                n > 0real,
        ;
    }
    assert forall|r: int, j: int| 0 <= r < 6 && 0 <= j < 6 implies b.kappa * size(
        worth(#[trigger] v[r][j]),
    ) <= b.l by {}
    assert forall|i: int, j: int| 0 <= i < 6 && 0 <= j < 6 implies size(
        #[trigger] dot(inverse[i], real_column(m, j)) - delta(i, j),
    ) <= 0real by {}
    assert forall|r: int, j: int| 0 <= r < 6 && 0 <= j < 6 implies if r >= 0 {
        n * size(#[trigger] residual(m, v, m, r, j)) <= 0real
    } else {
        size(residual(m, v, m, r, j)) <= 0real
    } by {
        lemma_identity_row(m, r, j);
        assert(n * 0real == 0real);
    }
}

/// A step of the elimination exchanges two rows first.
proof fn lemma_step_swaps(a: Seq<Seq<Double>>, v: Seq<Seq<Double>>, k: int, p: int)
    requires
        0 <= k <= p < 6,
        is_finite_matrix(a),
        is_finite_matrix(v),
    ensures
        step((a, v), k, p) == step((swapped(a, k, p), swapped(v, k, p)), k, k),
{
    let (sa, sv) = (swapped(a, k, p), swapped(v, k, p));
    assert(swapped(sa, k, k) =~= sa);
    assert(swapped(sv, k, k) =~= sv);
}

/// The numbers stay within their bounds, and nothing stops the elimination.
proof fn lemma_stays_tame(
    m: Seq<Seq<Double>>,
    inverse: Seq<Seq<real>>,
    mu: real,
    n: real,
    close: bool,
    k: nat,
) -> (g: Seq<Seq<real>>)
    requires
        k <= 6,
        is_conditioned(m, inverse, mu, n),
        is_scale(mu),
        is_scale(n),
        n * mu <= bounds(close, 0).kappa,
    ensures
        first_obstacle(m, k) is None,
        is_tame(
            eliminated(m, pivot_row(), k).0,
            eliminated(m, pivot_row(), k).1,
            m,
            g,
            k as int,
            n,
            mu,
            bounds(close, k as int),
        ),
    decreases k,
{
    if k == 0 {
        lemma_begins_tame(m, inverse, mu, n, close);
        inverse
    } else {
        let c = k - 1;
        let h = lemma_stays_tame(m, inverse, mu, n, close, c as nat);
        let (a, v) = eliminated(m, pivot_row(), c as nat);
        let p = lemma_leads_after_swap(a, c);
        let b = bounds(close, c);
        lemma_swap_is_tame(a, v, m, h, c, p, n, mu, b);
        let (sa, sv) = (swapped(a, c, p), swapped(v, c, p));
        let s = companion_swapped(h, c, p);
        let f = b.l + 1real;
        let q = 16real / 15real * b.l;
        if close {
            lemma_close_bounds_follow(c, f, q, f * q);
        } else {
            lemma_wide_bounds_follow(c, f, q, f * q);
        }
        assert(b.kappa == bounds(close, 0).kappa);
        lemma_ready(sa, s, c, n, b.theta * part());
        lemma_step_swaps(a, v, c, p);
        lemma_step_is_tame(sa, sv, m, s, c, n, mu, b, bounds(close, k as int), f, q, f * q);
        lemma_no_obstacle(a, c, p, n);
        companion_after(s, c)
    }
}

/// Nothing stops a step where the largest entry is not small.
proof fn lemma_no_obstacle(a: Seq<Seq<Double>>, k: int, p: int, n: real)
    requires
        0 <= k <= p < 6,
        is_finite_matrix(a),
        p == pivot_row()(a, k),
        is_ready(swapped(a, k, p), k, n),
        is_scale(n),
    ensures
        obstacle(a, k) is None,
{
    assert(swapped(a, k, p)[k] == a[p]);
    if incomparable(a, k) {
        let r = choose|r: int| k <= r < 6 && (#[trigger] a[r])[k].is_nan();
        assert(a[r][k].is_finite());
    }
    let w = size(worth(a[p][k]));
    assert(0x200_0000real * w >= 1real) by (nonlinear_arith)
        requires
            16real * (n * w) >= 15real,
            0real < n <= 0x100_0000real,
            w >= 0real,
    ;
    assert(a[p][k].is_finite());
    lemma_can_be_pivot(a[p][k]);
}

/// How far the computed inverse times the matrix is from the identity.
proof fn lemma_inverted(
    m: Seq<Seq<Double>>,
    inverse: Seq<Seq<real>>,
    mu: real,
    n: real,
    close: bool,
    r: int,
    j: int,
)
    requires
        is_conditioned(m, inverse, mu, n),
        is_scale(mu),
        is_scale(n),
        n * mu <= bounds(close, 0).kappa,
        0 <= r < 6,
        0 <= j < 6,
    ensures
        first_obstacle(m, 6) is None,
        size(
            dot(worths(eliminated(m, pivot_row(), 6).1)[r], column(worths(m), j)) - delta(r, j),
        ) <= bounds(close, 6).tau * part(),
{
    let g = lemma_stays_tame(m, inverse, mu, n, close, 6);
    let (a, v) = eliminated(m, pivot_row(), 6);
    assert(size(residual(a, v, m, r, j)) <= bounds(close, 6).tau * part());
    lemma_natural(1);
    assert(worth(a[r][j]) == delta(r, j)) by {
        assert(a[r][j] == a[r][j]);
        if r != j {
            assert(is_zero(a[r][j]));
            zero_stays(a[r][j], a[r][j]);
        }
    }
}

/// The computed inverse of a well-conditioned matrix is its inverse up to rounding: where the
/// product of the largest entry of the matrix and of the largest sum of the sizes in a row of its
/// inverse is 50 at most, the elimination finds a matrix which times the first is the identity to
/// seven digits; where it is 4 at most, to nine.
pub proof fn well_conditioned_matrix_is_inverted(
    m: Seq<Seq<Double>>,
    inverse: Seq<Seq<real>>,
    mu: real,
    n: real,
    r: int,
    j: int,
)
    requires
        is_conditioned(m, inverse, mu, n),
        is_scale(mu),
        is_scale(n),
        n * mu <= 50real,
        0 <= r < 6,
        0 <= j < 6,
    ensures
        first_obstacle(m, 6) is None,
        ({
            let e = size(
                dot(worths(eliminated(m, pivot_row(), 6).1)[r], column(worths(m), j)) - delta(r, j),
            );
            &&& e * 10_000_000real <= 1real
            &&& n * mu <= 4real ==> e * 1_000_000_000real <= 1real
        }),
{
    lemma_inverted(m, inverse, mu, n, false, r, j);
    if n * mu <= 4real {
        lemma_inverted(m, inverse, mu, n, true, r, j);
    }
}

/// The sum of the first `c` rows of `rows`, each as often as `u` says.
spec fn mixed(u: Seq<real>, rows: Seq<Seq<real>>, c: nat) -> Seq<real>
    decreases c,
{
    if c == 0 {
        Seq::new(6, |b: int| 0real)
    } else {
        row_less(mixed(u, rows, (c - 1) as nat), 0real - u[c - 1], rows[c - 1])
    }
}

/// The first `c` products of a sum of six.
spec fn first_terms(u: Seq<real>, x: Seq<real>, c: nat) -> real
    decreases c,
{
    if c == 0 {
        0real
    } else {
        first_terms(u, x, (c - 1) as nat) + real_times(u[c - 1], x[c - 1])
    }
}

proof fn lemma_minus_times(x: real, y: real)
    ensures
        real_times(0real - x, y) == 0real - real_times(x, y),
{
    reveal(real_times);
    assert((0real - x) * y == 0real - x * y) by (nonlinear_arith);
}

/// What mixed rows come to with a column.
proof fn lemma_mixed(u: Seq<real>, rows: Seq<Seq<real>>, y: Seq<real>, w: Seq<real>, c: nat)
    requires
        c <= 6,
        forall|i: int| 0 <= i < 6 ==> #[trigger] w[i] == dot(rows[i], y),
    ensures
        mixed(u, rows, c).len() == 6,
        dot(mixed(u, rows, c), y) == first_terms(u, w, c),
        forall|b: int|
            0 <= b < 6 ==> #[trigger] mixed(u, rows, c)[b] == first_terms(u, column(rows, b), c),
    decreases c,
{
    if c == 0 {
        lemma_times_units(y[0]);
        lemma_times_units(y[1]);
        lemma_times_units(y[2]);
        lemma_times_units(y[3]);
        lemma_times_units(y[4]);
        lemma_times_units(y[5]);
    } else {
        let d = (c - 1) as nat;
        lemma_mixed(u, rows, y, w, d);
        let before = mixed(u, rows, d);
        let f = 0real - u[c - 1];
        lemma_dot_less(before, f, rows[c - 1], y);
        assert(w[c - 1] == dot(rows[c - 1], y));
        lemma_minus_times(u[c - 1], w[c - 1]);
        assert forall|b: int| 0 <= b < 6 implies #[trigger] mixed(u, rows, c)[b] == first_terms(
            u,
            column(rows, b),
            c,
        ) by {
            assert(before[b] == first_terms(u, column(rows, b), d));
            lemma_minus_times(u[c - 1], rows[c - 1][b]);
            assert(column(rows, b)[c - 1] == rows[c - 1][b]);
        }
    }
}

proof fn lemma_six_terms(u: Seq<real>, x: Seq<real>)
    ensures
        first_terms(u, x, 6) == dot(u, x),
{
    reveal_with_fuel(first_terms, 7);
}

/// The product of three: a row, a matrix and a column.
proof fn lemma_three_factors(
    u: Seq<real>,
    rows: Seq<Seq<real>>,
    y: Seq<real>,
    w: Seq<real>,
    z: Seq<real>,
)
    requires
        forall|i: int| 0 <= i < 6 ==> #[trigger] w[i] == dot(rows[i], y),
        forall|b: int| 0 <= b < 6 ==> #[trigger] z[b] == dot(u, column(rows, b)),
    ensures
        dot(u, w) == dot(z, y),
{
    lemma_mixed(u, rows, y, w, 6);
    lemma_six_terms(u, w);
    let m = mixed(u, rows, 6);
    assert forall|b: int| 0 <= b < 6 implies #[trigger] z[b] == m[b] by {
        lemma_six_terms(u, column(rows, b));
        assert(m[b] == first_terms(u, column(rows, b), 6));
    }
    assert(z[0] == m[0] && z[1] == m[1] && z[2] == m[2] && z[3] == m[3] && z[4] == m[4] && z[5]
        == m[5]);
}

/// A row of the identity picks a number.
proof fn lemma_picks(d: Seq<real>, y: Seq<real>, a: int)
    requires
        0 <= a < 6,
        forall|b: int| 0 <= b < 6 ==> #[trigger] d[b] == delta(a, b),
    ensures
        dot(d, y) == y[a],
        dot(y, d) == y[a],
{
    lemma_dot_order(d, y);
    assert(d[0] == delta(a, 0) && d[1] == delta(a, 1) && d[2] == delta(a, 2) && d[3] == delta(a, 3)
        && d[4] == delta(a, 4) && d[5] == delta(a, 5));
    lemma_times_units(y[0]);
    lemma_times_units(y[1]);
    lemma_times_units(y[2]);
    lemma_times_units(y[3]);
    lemma_times_units(y[4]);
    lemma_times_units(y[5]);
    assert(a == 0 || a == 1 || a == 2 || a == 3 || a == 4 || a == 5);
}

/// Whether `inverse` is the inverse of `m` on the other side too.
pub open spec fn is_right_inverse(m: Seq<Seq<Double>>, inverse: Seq<Seq<real>>) -> bool {
    forall|i: int, j: int|
        0 <= i < 6 && 0 <= j < 6 ==> #[trigger] dot(worths(m)[i], column(inverse, j)) == delta(i, j)
}

/// How far an entry of the computed inverse is from the exact one, by the errors of its row.
proof fn lemma_inverse_error(
    m: Seq<Seq<Double>>,
    v: Seq<Seq<Double>>,
    inverse: Seq<Seq<real>>,
    n: real,
    e: real,
    r: int,
    j: int,
)
    requires
        0 <= r < 6,
        0 <= j < 6,
        is_right_inverse(m, inverse),
        forall|i: int| 0 <= i < 6 ==> tail(#[trigger] inverse[i], 0) <= n,
        forall|b: int|
            0 <= b < 6 ==> size(
                #[trigger] dot(worths(v)[r], column(worths(m), b)) - delta(r, b),
            ) <= e,
    ensures
        size(worth(v[r][j]) - inverse[r][j]) <= 6real * (e * n),
{
    let u = worths(v)[r];
    let y = column(inverse, j);
    let w = Seq::new(6, |c: int| dot(worths(m)[c], y));
    let z = Seq::new(6, |b: int| dot(u, column(worths(m), b)));
    lemma_three_factors(u, worths(m), y, w, z);
    assert forall|c: int| 0 <= c < 6 implies #[trigger] w[c] == delta(j, c) by {
        assert(dot(worths(m)[c], column(inverse, j)) == delta(c, j));
    }
    lemma_picks(w, u, j);
    let d = Seq::new(6, |b: int| delta(r, b));
    let x = Seq::new(6, |b: int| z[b] - delta(r, b));
    lemma_dot_plus(z, d, x, y);
    lemma_picks(d, y, r);
    assert forall|b: int| 0 <= b < 6 implies size(#[trigger] x[b]) <= e by {
        assert(size(dot(worths(v)[r], column(worths(m), b)) - delta(r, b)) <= e);
    }
    assert forall|b: int| 0 <= b < 6 implies size(#[trigger] y[b]) <= n by {
        assert(tail(inverse[b], 0) <= n);
        let g = inverse[b];
        assert(tail_size(g, 0, 0) >= 0real && tail_size(g, 0, 1) >= 0real && tail_size(g, 0, 2)
            >= 0real && tail_size(g, 0, 3) >= 0real && tail_size(g, 0, 4) >= 0real && tail_size(
            g,
            0,
            5,
        ) >= 0real);
        assert(j == 0 || j == 1 || j == 2 || j == 3 || j == 4 || j == 5);
        assert(size(g[j]) == tail_size(g, 0, j));
    }
    lemma_dot_size(x, y, e, n);
}

/// The computed inverse of a well-conditioned matrix is near its inverse: to six digits of the
/// largest sum of the sizes in a row of the inverse, or to eight.
pub proof fn inverse_is_near(
    m: Seq<Seq<Double>>,
    inverse: Seq<Seq<real>>,
    mu: real,
    n: real,
    r: int,
    j: int,
)
    requires
        is_conditioned(m, inverse, mu, n),
        is_right_inverse(m, inverse),
        is_scale(mu),
        is_scale(n),
        n * mu <= 50real,
        0 <= r < 6,
        0 <= j < 6,
    ensures
        ({
            let e = size(worth(eliminated(m, pivot_row(), 6).1[r][j]) - inverse[r][j]);
            &&& e * 1_000_000real <= n
            &&& n * mu <= 4real ==> e * 100_000_000real <= n
        }),
{
    let v = eliminated(m, pivot_row(), 6).1;
    let e = 1real / 10_000_000real;
    assert forall|b: int| 0 <= b < 6 implies size(
        #[trigger] dot(worths(v)[r], column(worths(m), b)) - delta(r, b),
    ) <= e by {
        well_conditioned_matrix_is_inverted(m, inverse, mu, n, r, b);
    }
    lemma_inverse_error(m, v, inverse, n, e, r, j);
    if n * mu <= 4real {
        let c = 1real / 1_000_000_000real;
        assert forall|b: int| 0 <= b < 6 implies size(
            #[trigger] dot(worths(v)[r], column(worths(m), b)) - delta(r, b),
        ) <= c by {
            well_conditioned_matrix_is_inverted(m, inverse, mu, n, r, b);
        }
        lemma_inverse_error(m, v, inverse, n, c, r, j);
    }
}

/// The matrix times a matrix that is near its inverse.
proof fn lemma_other_side(
    m: Seq<Seq<Double>>,
    v: Seq<Seq<Double>>,
    inverse: Seq<Seq<real>>,
    mu: real,
    c: real,
    r: int,
    j: int,
)
    requires
        is_at_most(m, mu),
        is_right_inverse(m, inverse),
        forall|a: int| 0 <= a < 6 ==> size(worth(#[trigger] v[a][j]) - inverse[a][j]) <= c,
        0 <= r < 6,
        0 <= j < 6,
    ensures
        size(dot(worths(m)[r], column(worths(v), j)) - delta(r, j)) <= 6real * (c * mu),
{
    let row = worths(m)[r];
    let x = column(worths(v), j);
    let y = column(inverse, j);
    let d = Seq::new(6, |a: int| x[a] - y[a]);
    assert forall|a: int| 0 <= a < 6 implies size(#[trigger] d[a]) <= c by {
        assert(x[a] == worth(v[a][j]));
    }
    assert forall|a: int| 0 <= a < 6 implies size(#[trigger] row[a]) <= mu by {
        assert(row[a] == worth(m[r][a]));
    }
    lemma_dot_plus(x, y, d, row);
    lemma_dot_order(x, row);
    lemma_dot_order(y, row);
    lemma_dot_size(d, row, c, mu);
    assert(dot(worths(m)[r], column(inverse, j)) == delta(r, j));
}

/// A well-conditioned matrix times its computed inverse is the identity too, to three digits, or to
/// six.
pub proof fn well_conditioned_matrix_times_inverse(
    m: Seq<Seq<Double>>,
    inverse: Seq<Seq<real>>,
    mu: real,
    n: real,
    r: int,
    j: int,
)
    requires
        is_conditioned(m, inverse, mu, n),
        is_right_inverse(m, inverse),
        is_scale(mu),
        is_scale(n),
        n * mu <= 50real,
        0 <= r < 6,
        0 <= j < 6,
    ensures
        ({
            let e = size(
                dot(worths(m)[r], column(worths(eliminated(m, pivot_row(), 6).1), j)) - delta(r, j),
            );
            &&& e * 3_000real <= 1real
            &&& n * mu <= 4real ==> e * 4_000_000real <= 1real
        }),
{
    let v = eliminated(m, pivot_row(), 6).1;
    let c = n / 1_000_000real;
    assert forall|a: int| 0 <= a < 6 implies size(worth(#[trigger] v[a][j]) - inverse[a][j])
        <= c by {
        inverse_is_near(m, inverse, mu, n, a, j);
    }
    lemma_other_side(m, v, inverse, mu, c, r, j);
    assert(c * mu == n * mu / 1_000_000real) by (nonlinear_arith)
        requires
            c == n / 1_000_000real,
    ;
    if n * mu <= 4real {
        let d = n / 100_000_000real;
        assert forall|a: int| 0 <= a < 6 implies size(worth(#[trigger] v[a][j]) - inverse[a][j])
            <= d by {
            inverse_is_near(m, inverse, mu, n, a, j);
        }
        lemma_other_side(m, v, inverse, mu, d, r, j);
        assert(d * mu == n * mu / 100_000_000real) by (nonlinear_arith)
            requires
                d == n / 100_000_000real,
        ;
    }
}

} // verus!
