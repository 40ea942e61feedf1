//! What is left of the matrix when the product of its inverse and the first matrix is taken away.
use crate::double::Double;
use crate::formula::{lemma_over_times, lemma_sum_times, real_over, real_times};
use crate::postproc::inverse::{dot, lemma_dot_less, lemma_dot_over, row_less, row_over};
use crate::postproc::isotropic_inverse::worths;
use crate::postproc::step_bounds::{is_largest, lemma_real_column, real_column};
use crate::postproc::step_errors::{exact_entry, lemma_ratio_size};
use crate::postproc::step_rounding::{lemma_grows, lemma_size_times};
use crate::postproc::step_sums::{lemma_dot_plus, lemma_dot_size};
use crate::rounding::{size, worth};
use vstd::prelude::*;

verus! {

/// An entry of `a`, less that of the product of `v` and `m`.
pub open spec fn residual(
    a: Seq<Seq<Double>>,
    v: Seq<Seq<Double>>,
    m: Seq<Seq<Double>>,
    r: int,
    j: int,
) -> real {
    worth(a[r][j]) - dot(worths(v)[r], real_column(m, j))
}

/// The errors of a row in a step.
pub open spec fn row_errors(
    v: Seq<Seq<Double>>,
    w: Seq<Seq<Double>>,
    a: Seq<Seq<Double>>,
    k: int,
    r: int,
) -> Seq<real> {
    Seq::new(6, |t: int| worth(w[r][t]) - exact_entry(v, a, k, r, t))
}

/// The residual after a step, where the step is exact but for the errors.
proof fn lemma_residual_after(
    a: Seq<Seq<Double>>,
    v: Seq<Seq<Double>>,
    m: Seq<Seq<Double>>,
    b: Seq<Seq<Double>>,
    w: Seq<Seq<Double>>,
    k: int,
    r: int,
    j: int,
)
    requires
        0 <= k < 6,
        0 <= r < 6,
        0 <= j < 6,
        worth(a[k][k]) != 0real,
    ensures
        ({
            let over = real_over(residual(a, v, m, k, j), worth(a[k][k]));
            let base = if r == k {
                over
            } else {
                residual(a, v, m, r, j) - worth(a[r][k]) * over
            };
            residual(b, w, m, r, j) == base + (worth(b[r][j]) - exact_entry(a, a, k, r, j)) - dot(
                row_errors(v, w, a, k, r),
                real_column(m, j),
            )
        }),
{
    let p = worth(a[k][k]);
    let c = real_column(m, j);
    let vk = worths(v)[k];
    let vr = worths(v)[r];
    let (rk, rr) = (residual(a, v, m, k, j), residual(a, v, m, r, j));
    let xk = worth(a[k][j]);
    let over_row = row_over(vk, p);
    lemma_dot_over(vk, c, p);
    let dk = dot(vk, c);
    assert(real_over(xk, p) - real_over(dk, p) == real_over(rk, p)) by {
        lemma_over_times(xk, p);
        lemma_over_times(dk, p);
        lemma_over_times(rk, p);
        lemma_sum_times(xk, dk, real_over(1real, p));
    }
    let e = row_errors(v, w, a, k, r);
    let row = worths(w)[r];
    if r == k {
        assert forall|t: int| 0 <= t < 6 implies #[trigger] row[t] == over_row[t] + e[t] by {
            assert(over_row[t] == real_over(vk[t], p));
        }
        lemma_dot_plus(row, over_row, e, c);
    } else {
        let f = worth(a[r][k]);
        let less = row_less(vr, f, over_row);
        assert forall|t: int| 0 <= t < 6 implies #[trigger] row[t] == less[t] + e[t] by {
            assert(over_row[t] == real_over(vk[t], p));
            assert(less[t] == vr[t] - real_times(f, over_row[t]));
            assert(real_times(f, over_row[t]) == f * over_row[t]) by {
                reveal(real_times);
            }
        }
        lemma_dot_plus(row, less, e, c);
        lemma_dot_less(vr, f, over_row, c);
        let (s, u, o) = (real_over(xk, p), real_over(dk, p), real_over(rk, p));
        assert(real_times(f, u) == f * u) by {
            reveal(real_times);
        }
        assert(f * s - f * u == f * o) by (nonlinear_arith)
            requires
                s - u == o,
        ;
    }
}

/// What the errors of a row of the inverse come to.
proof fn lemma_errors_come_to(e: Seq<real>, m: Seq<Seq<Double>>, j: int, c: real, mu: real, b: real)
    requires
        0 <= j < 6,
        mu > 0real,
        c > 0real,
        forall|t: int| 0 <= t < 6 ==> c * size(#[trigger] e[t]) <= b,
        forall|s: int| 0 <= s < 6 ==> size(worth(#[trigger] m[s][j])) <= mu,
    ensures
        c * size(dot(e, real_column(m, j))) <= 6real * (mu * b),
{
    let x = real_column(m, j);
    lemma_real_column(m, j);
    let d = b / c;
    assert(c * d == b) by (nonlinear_arith)
        requires
            d == b / c,
            c > 0real,
    ;
    assert forall|t: int| 0 <= t < 6 implies size(#[trigger] e[t]) <= d by {
        let y = size(e[t]);
        assert(y <= d) by (nonlinear_arith)
            requires
                c * y <= c * d,
                c > 0real,
        ;
    }
    assert forall|t: int| 0 <= t < 6 implies size(#[trigger] x[t]) <= mu by {
        assert(x[t] == worth(m[t][j]));
    }
    lemma_dot_size(e, x, d, mu);
    let y = size(dot(e, x));
    lemma_grows(c, y, 6real * (d * mu));
    assert(c * (6real * (d * mu)) == 6real * (mu * (c * d))) by (nonlinear_arith);
}

/// The residual of a row below.
pub proof fn lemma_residual_below(
    a: Seq<Seq<Double>>,
    v: Seq<Seq<Double>>,
    m: Seq<Seq<Double>>,
    b: Seq<Seq<Double>>,
    w: Seq<Seq<Double>>,
    k: int,
    r: int,
    j: int,
    n: real,
    mu: real,
    kappa: real,
    rho: real,
    ea: real,
    ev: real,
)
    requires
        0 <= k < r < 6,
        0 <= j < 6,
        n > 0real,
        mu > 0real,
        n * mu <= kappa,
        is_largest(a, k),
        worth(a[k][k]) != 0real,
        n * size(residual(a, v, m, k, j)) <= rho,
        n * size(residual(a, v, m, r, j)) <= rho,
        n * size(worth(b[r][j]) - exact_entry(a, a, k, r, j)) <= ea,
        forall|t: int|
            0 <= t < 6 ==> size(worth(#[trigger] w[r][t]) - exact_entry(v, a, k, r, t)) <= ev,
        ev >= 0real,
        forall|s: int| 0 <= s < 6 ==> size(worth(#[trigger] m[s][j])) <= mu,
    ensures
        n * size(residual(b, w, m, r, j)) <= 2real * rho + ea + 6real * (kappa * ev),
{
    lemma_residual_after(a, v, m, b, w, k, r, j);
    let (f, p) = (worth(a[r][k]), worth(a[k][k]));
    let rk = residual(a, v, m, k, j);
    let rr = residual(a, v, m, r, j);
    let o = real_over(rk, p);
    assert(o * p == rk) by {
        lemma_over_times(rk, p);
        reveal(real_times);
    }
    assert(size(f) <= size(p)) by {
        assert(size(worth(a[r][k])) <= size(worth(a[k][k])));
    }
    lemma_size_times(o, p);
    lemma_size_times(f, o);
    let (sf, so, sp) = (size(f), size(o), size(p));
    lemma_grows(so, sf, sp);
    assert(so * sf == sf * so) by (nonlinear_arith);
    let e = row_errors(v, w, a, k, r);
    assert forall|t: int| 0 <= t < 6 implies 1real * size(#[trigger] e[t]) <= ev by {
        assert(e[t] == worth(w[r][t]) - exact_entry(v, a, k, r, t));
    }
    lemma_errors_come_to(e, m, j, 1real, mu, ev);
    let d = dot(e, real_column(m, j));
    let x = worth(b[r][j]) - exact_entry(a, a, k, r, j);
    let fo = f * o;
    let s = size(residual(b, w, m, r, j));
    assert(s <= size(rr) + size(rk) + size(x) + size(d));
    let (s1, s2, s3, s4) = (size(rr), size(rk), size(x), size(d));
    lemma_grows(n, s, s1 + s2 + s3 + s4);
    assert(n * (s1 + s2 + s3 + s4) == n * s1 + n * s2 + n * s3 + n * s4) by (nonlinear_arith);
    lemma_grows(n, s4, 6real * (mu * ev));
    assert(n * (6real * (mu * ev)) == 6real * ((n * mu) * ev)) by (nonlinear_arith);
    let nm = n * mu;
    assert(nm * ev <= kappa * ev) by (nonlinear_arith)
        requires
            nm <= kappa,
            ev >= 0real,
    ;
}

/// The residual of the row that is taken.
pub proof fn lemma_residual_taken(
    a: Seq<Seq<Double>>,
    v: Seq<Seq<Double>>,
    m: Seq<Seq<Double>>,
    b: Seq<Seq<Double>>,
    w: Seq<Seq<Double>>,
    k: int,
    j: int,
    n: real,
    mu: real,
    rho: real,
    ea: real,
    ev: real,
)
    requires
        0 <= k < 6,
        0 <= j < 6,
        n > 0real,
        mu > 0real,
        16real * (n * size(worth(a[k][k]))) >= 15real,
        worth(a[k][k]) != 0real,
        n * size(residual(a, v, m, k, j)) <= rho,
        size(worth(b[k][j]) - exact_entry(a, a, k, k, j)) <= ea,
        forall|t: int|
            0 <= t < 6 ==> mu * size(worth(#[trigger] w[k][t]) - exact_entry(v, a, k, k, t)) <= ev,
        forall|s: int| 0 <= s < 6 ==> size(worth(#[trigger] m[s][j])) <= mu,
    ensures
        size(residual(b, w, m, k, j)) <= 16real / 15real * rho + ea + 6real * ev,
{
    lemma_residual_after(a, v, m, b, w, k, k, j);
    let p = worth(a[k][k]);
    let rk = residual(a, v, m, k, j);
    lemma_ratio_size(rk, p, 1real, n, rho);
    let e = row_errors(v, w, a, k, k);
    assert forall|t: int| 0 <= t < 6 implies mu * size(#[trigger] e[t]) <= ev by {
        assert(e[t] == worth(w[k][t]) - exact_entry(v, a, k, k, t));
    }
    lemma_errors_come_to(e, m, j, mu, mu, ev);
    let y = size(dot(e, real_column(m, j)));
    assert(y <= 6real * ev) by (nonlinear_arith)
        requires
            mu * y <= 6real * (mu * ev),
            mu > 0real,
    ;
}

/// The residual of a row above.
pub proof fn lemma_residual_above(
    a: Seq<Seq<Double>>,
    v: Seq<Seq<Double>>,
    m: Seq<Seq<Double>>,
    b: Seq<Seq<Double>>,
    w: Seq<Seq<Double>>,
    k: int,
    r: int,
    j: int,
    n: real,
    mu: real,
    rho: real,
    tau: real,
    f: real,
    ea: real,
    ev: real,
)
    requires
        0 <= r < k < 6,
        0 <= j < 6,
        n > 0real,
        mu > 0real,
        16real * (n * size(worth(a[k][k]))) >= 15real,
        worth(a[k][k]) != 0real,
        n * size(residual(a, v, m, k, j)) <= rho,
        size(residual(a, v, m, r, j)) <= tau,
        size(worth(a[r][k])) <= f,
        size(worth(b[r][j]) - exact_entry(a, a, k, r, j)) <= ea,
        forall|t: int|
            0 <= t < 6 ==> mu * size(worth(#[trigger] w[r][t]) - exact_entry(v, a, k, r, t)) <= ev,
        forall|s: int| 0 <= s < 6 ==> size(worth(#[trigger] m[s][j])) <= mu,
    ensures
        size(residual(b, w, m, r, j)) <= tau + 16real / 15real * (f * rho) + ea + 6real * ev,
{
    lemma_residual_after(a, v, m, b, w, k, r, j);
    let p = worth(a[k][k]);
    let rk = residual(a, v, m, k, j);
    lemma_ratio_size(rk, p, 1real, n, rho);
    let o = real_over(rk, p);
    let x = worth(a[r][k]);
    lemma_size_times(x, o);
    let (sx, so) = (size(x), size(o));
    assert(15real * (1real * so) <= 16real * rho);
    lemma_grows(sx, so, 16real / 15real * rho);
    let h = 16real / 15real * rho;
    assert(h >= 0real);
    assert(sx * h <= f * h) by (nonlinear_arith)
        requires
            sx <= f,
            h >= 0real,
    ;
    assert(f * h == 16real / 15real * (f * rho)) by (nonlinear_arith)
        requires
            h == 16real / 15real * rho,
    ;
    let e = row_errors(v, w, a, k, r);
    assert forall|t: int| 0 <= t < 6 implies mu * size(#[trigger] e[t]) <= ev by {
        assert(e[t] == worth(w[r][t]) - exact_entry(v, a, k, r, t));
    }
    lemma_errors_come_to(e, m, j, mu, mu, ev);
    let y = size(dot(e, real_column(m, j)));
    assert(y <= 6real * ev) by (nonlinear_arith)
        requires
            mu * y <= 6real * (mu * ev),
            mu > 0real,
    ;
}

} // verus!
