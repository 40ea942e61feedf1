//! One step of the elimination of a well-conditioned matrix.
use crate::double::Double;
use crate::postproc::companion::{companion_after, lemma_close_after, lemma_companion_after};
use crate::postproc::conditioned::{
    follows, is_ready, is_tame, lemma_error_of_inverse, lemma_error_of_matrix,
    lemma_identity_after, lemma_over_kappa, lemma_sizes_after, Bounds,
};
use crate::postproc::inverse::{dot, step};
use crate::postproc::isotropic::is_scale;
use crate::postproc::pivots::{entry_after, lemma_entries};
use crate::postproc::residuals::{
    lemma_residual_above, lemma_residual_below, lemma_residual_taken, residual,
};
use crate::postproc::step_bounds::{delta, real_column};
use crate::postproc::step_errors::exact_entry;
use crate::rounding::{part, size, worth};
use vstd::prelude::*;

verus! {

proof fn lemma_sum_times_e(a: real, b: real, e: real)
    ensures
        (a + b) * e == a * e + b * e,
{
    assert((a + b) * e == a * e + b * e) by (nonlinear_arith);
}

proof fn lemma_scaled_e(c: real, a: real, e: real)
    ensures
        (c * a) * e == c * (a * e),
{
    assert((c * a) * e == c * (a * e)) by (nonlinear_arith);
}

proof fn lemma_order_e(a: real, b: real, e: real)
    requires
        a <= b,
        e > 0real,
    ensures
        a * e <= b * e,
{
    assert(a * e <= b * e) by (nonlinear_arith)
        requires
            a <= b,
            e > 0real,
    ;
}

/// The part of the bounds that a row above gets, in roundings.
proof fn lemma_weight(fq: real, z: real, e: real)
    ensures
        (31real / 10real * fq + 11real / 10real * z) * e == 31real / 10real * (fq * e) + 11real
            / 10real * (z * e),
{
    lemma_sum_times_e(31real / 10real * fq, 11real / 10real * z, e);
    lemma_scaled_e(31real / 10real, fq, e);
    lemma_scaled_e(11real / 10real, z, e);
}

/// Whether the entries of a matrix are `mu` at most.
pub open spec fn is_at_most(m: Seq<Seq<Double>>, mu: real) -> bool {
    forall|s: int, j: int|
        0 <= s < 6 && 0 <= j < 6 ==> size(worth(#[trigger] m[s][j])) <= mu
}

/// The residuals after a step.
proof fn lemma_residuals_after(
    a: Seq<Seq<Double>>,
    v: Seq<Seq<Double>>,
    m: Seq<Seq<Double>>,
    g: Seq<Seq<real>>,
    k: int,
    n: real,
    mu: real,
    b: Bounds,
    c: Bounds,
    f: real,
    q: real,
    fq: real,
    r: int,
    j: int,
)
    requires
        0 <= k < 6,
        0 <= r < 6,
        0 <= j < 6,
        is_tame(a, v, m, g, k, n, mu, b),
        is_ready(a, k, n),
        follows(b, c, f, q, fq),
        is_scale(n),
        is_scale(mu),
        n * mu <= b.kappa,
        is_at_most(m, mu),
    ensures
        ({
            let next = step((a, v), k, k);
            let s = size(residual(next.0, next.1, m, r, j));
            if r >= k + 1 {
                n * s <= c.rho * part()
            } else {
                s <= c.tau * part()
            }
        }),
{
    let next = step((a, v), k, k);
    let (na, nv) = (next.0, next.1);
    let e = part();
    lemma_entries(a, v, k);
    assert(na[r][j] == entry_after(a, a, k, r, j));
    lemma_error_of_matrix(a, v, m, g, k, n, mu, b, c, f, q, fq, r, j);
    let (rho, tau) = (b.rho * e, b.tau * e);
    assert(n * size(residual(a, v, m, k, j)) <= rho);
    let le = b.l * e;
    let qe = q * e;
    let fqe = fq * e;
    let fe = f * e;
    let ue = b.u * e;
    assert(0real * e == 0real);
    lemma_order_e(0real, b.l, e);
    lemma_order_e(0real, q, e);
    lemma_order_e(0real, f, e);
    lemma_order_e(0real, b.u, e);
    lemma_order_e(0real, b.rho, e);
    lemma_order_e(0real, b.tau, e);
    lemma_order_e(1real, f, q);
    assert(1real * q == q);
    assert(fq >= q);
    lemma_order_e(q, fq, e);
    let wa = 31real / 10real * fq + 11real / 10real * f;
    lemma_weight(fq, f, e);
    let wv = 31real / 10real * fq + 11real / 10real * b.u;
    lemma_weight(fq, b.u, e);
    let fr = f * b.rho;
    lemma_scaled_e(f, b.rho, e);
    assert(f * rho == fr * e);
    assert(f * rho >= rho) by (nonlinear_arith)
        requires
            rho >= 0real,
            f >= 1real,
    ;
    if r > k {
        assert(n * size(residual(a, v, m, r, j)) <= rho);
        let h = b.l / b.kappa;
        lemma_over_kappa(b.l, b.kappa);
        lemma_order_e(0real, h, e);
        let ev = 41real / 10real * (h * e);
        let ka = b.kappa;
        assert(ka * (41real / 10real * (h * e)) == 41real / 10real * ((ka * h) * e))
            by (nonlinear_arith);
        assert forall|t: int| 0 <= t < 6 implies size(
            worth(#[trigger] nv[r][t]) - exact_entry(v, a, k, r, t),
        ) <= ev by {
            assert(nv[r][t] == entry_after(v, a, k, r, t));
            lemma_error_of_inverse(a, v, m, g, k, n, mu, b, c, f, q, fq, r, t);
        }
        lemma_residual_below(a, v, m, na, nv, k, r, j, n, mu, ka, rho, 41real / 10real * le, ev);
        let x = 2real * b.rho + 287real / 10real * b.l;
        lemma_sum_times_e(2real * b.rho, 287real / 10real * b.l, e);
        lemma_scaled_e(2real, b.rho, e);
        lemma_scaled_e(287real / 10real, b.l, e);
        lemma_order_e(x, c.rho, e);
    } else {
        let x = b.tau + 16real / 15real * fr + wa + 6real * wv;
        lemma_sum_times_e(b.tau + 16real / 15real * fr + wa, 6real * wv, e);
        lemma_sum_times_e(b.tau + 16real / 15real * fr, wa, e);
        lemma_sum_times_e(b.tau, 16real / 15real * fr, e);
        lemma_scaled_e(16real / 15real, fr, e);
        lemma_scaled_e(6real, wv, e);
        lemma_order_e(x, c.tau, e);
        if r == k {
            let ev = 1001real / 1000real * qe;
            assert forall|t: int| 0 <= t < 6 implies mu * size(
                worth(#[trigger] nv[k][t]) - exact_entry(v, a, k, k, t),
            ) <= ev by {
                assert(nv[k][t] == entry_after(v, a, k, k, t));
                lemma_error_of_inverse(a, v, m, g, k, n, mu, b, c, f, q, fq, k, t);
            }
            lemma_residual_taken(a, v, m, na, nv, k, j, n, mu, rho, wa * e, ev);
        } else {
            assert(size(residual(a, v, m, r, j)) <= tau);
            assert forall|t: int| 0 <= t < 6 implies mu * size(
                worth(#[trigger] nv[r][t]) - exact_entry(v, a, k, r, t),
            ) <= wv * e by {
                assert(nv[r][t] == entry_after(v, a, k, r, t));
                lemma_error_of_inverse(a, v, m, g, k, n, mu, b, c, f, q, fq, r, t);
            }
            lemma_residual_above(a, v, m, na, nv, k, r, j, n, mu, rho, tau, f, wa * e, wv * e);
        }
    }
}

/// A step keeps the numbers within their bounds.
pub proof fn lemma_step_is_tame(
    a: Seq<Seq<Double>>,
    v: Seq<Seq<Double>>,
    m: Seq<Seq<Double>>,
    g: Seq<Seq<real>>,
    k: int,
    n: real,
    mu: real,
    b: Bounds,
    c: Bounds,
    f: real,
    q: real,
    fq: real,
)
    requires
        0 <= k < 6,
        is_tame(a, v, m, g, k, n, mu, b),
        is_ready(a, k, n),
        follows(b, c, f, q, fq),
        is_scale(n),
        is_scale(mu),
        n * mu <= b.kappa,
        is_at_most(m, mu),
    ensures
        ({
            let next = step((a, v), k, k);
            is_tame(next.0, next.1, m, companion_after(g, k), k + 1, n, mu, c)
        }),
{
    let next = step((a, v), k, k);
    let (na, nv) = (next.0, next.1);
    let h = companion_after(g, k);
    let e = part();
    lemma_entries(a, v, k);
    lemma_identity_after(a, v, k);
    lemma_companion_after(g, k, n);
    assert forall|r: int, j: int| 0 <= r < 6 && 0 <= j < 6 implies (
    #[trigger] na[r][j]).is_finite() by {
        assert(na[r][j] == entry_after(a, a, k, r, j));
        lemma_error_of_matrix(a, v, m, g, k, n, mu, b, c, f, q, fq, r, j);
    }
    assert forall|r: int, j: int| 0 <= r < 6 && 0 <= j < 6 implies (
    #[trigger] nv[r][j]).is_finite() by {
        assert(nv[r][j] == entry_after(v, a, k, r, j));
        lemma_error_of_matrix(a, v, m, g, k, n, mu, b, c, f, q, fq, r, j);
        lemma_error_of_inverse(a, v, m, g, k, n, mu, b, c, f, q, fq, r, j);
    }
    assert forall|r: int, j: int| k + 1 <= r < 6 && 0 <= j < 6 implies n * size(
        worth(#[trigger] na[r][j]),
    ) <= c.l by {
        assert(na[r][j] == entry_after(a, a, k, r, j));
        lemma_sizes_after(a, v, m, g, k, n, mu, b, c, f, q, fq, r, j);
    }
    assert forall|r: int, j: int| k + 1 <= r < 6 && 0 <= j < 6 implies c.kappa * size(
        worth(#[trigger] nv[r][j]),
    ) <= c.l by {
        assert(nv[r][j] == entry_after(v, a, k, r, j));
        lemma_sizes_after(a, v, m, g, k, n, mu, b, c, f, q, fq, r, j);
    }
    assert forall|r: int, j: int| 0 <= r < k + 1 && 0 <= j < 6 implies mu * size(
        worth(#[trigger] nv[r][j]),
    ) <= c.u by {
        assert(nv[r][j] == entry_after(v, a, k, r, j));
        lemma_sizes_after(a, v, m, g, k, n, mu, b, c, f, q, fq, r, j);
    }
    assert forall|r: int, j: int| 0 <= r < 6 && 0 <= j < 6 implies if r >= k + 1 {
        n * size(#[trigger] residual(na, nv, m, r, j)) <= c.rho * e
    } else {
        size(residual(na, nv, m, r, j)) <= c.tau * e
    } by {
        lemma_residuals_after(a, v, m, g, k, n, mu, b, c, f, q, fq, r, j);
    }
    let t = b.theta * e;
    let wa = 31real / 10real * fq + 11real / 10real * f;
    let above = wa * e;
    let below = 41real / 10real * (b.l * e);
    assert(0real * e == 0real);
    lemma_order_e(1real, f, q);
    assert(1real * q == q);
    lemma_order_e(0real, wa, e);
    lemma_order_e(0real, b.l, e);
    let qt = q * b.theta;
    let x = b.theta + qt + wa + 41real / 10real * b.l;
    lemma_sum_times_e(b.theta + qt + wa, 41real / 10real * b.l, e);
    lemma_sum_times_e(b.theta + qt, wa, e);
    lemma_sum_times_e(b.theta, qt, e);
    lemma_scaled_e(q, b.theta, e);
    lemma_scaled_e(41real / 10real, b.l, e);
    lemma_order_e(x, c.theta, e);
    assert forall|i: int, j: int| 0 <= i < 6 && k + 1 <= j < 6 implies size(
        #[trigger] dot(h[i], real_column(na, j)) - delta(i, j),
    ) <= c.theta * e by {
        assert forall|r: int| k < r < 6 implies n * size(
            worth(#[trigger] na[r][j]) - exact_entry(a, a, k, r, j),
        ) <= below by {
            assert(na[r][j] == entry_after(a, a, k, r, j));
            lemma_error_of_matrix(a, v, m, g, k, n, mu, b, c, f, q, fq, r, j);
        }
        assert forall|r: int| 0 <= r <= k implies size(
            worth(#[trigger] na[r][j]) - exact_entry(a, a, k, r, j),
        ) <= above by {
            assert(na[r][j] == entry_after(a, a, k, r, j));
            lemma_error_of_matrix(a, v, m, g, k, n, mu, b, c, f, q, fq, r, j);
        }
        lemma_error_of_matrix(a, v, m, g, k, n, mu, b, c, f, q, fq, k, j);
        lemma_close_after(a, na, g, k, n, t, q, above, below, i, j);
    }
}

} // verus!
