//! The elimination of a well-conditioned matrix, step by step.
use crate::arithmetic::{integer, quotient};
use crate::double::Double;
use crate::formula::{real_over, Arithmetic};
use crate::postproc::inverse::{dot, step, swapped};
use crate::postproc::isotropic::is_scale;
use crate::postproc::isotropic_inverse::worths;
use crate::postproc::pivots::{entry_after, lemma_entries, lemma_less_nothing, lemma_natural};
use crate::postproc::residuals::residual;
use crate::postproc::step_bounds::{
    begins_as_identity, delta, is_close, is_companion, is_finite_matrix, is_largest, is_small_above,
    is_small_below, lemma_above, lemma_pivot, lemma_real_column, real_column,
};
use crate::postproc::step_errors::{error_after, lemma_errors};
use crate::postproc::step_rounding::lemma_grows;
use crate::postproc::step_sums::{exchanged, lemma_dot_exchanged, lemma_tail_exchanged, tail};
use crate::rounding::{is_zero, less_itself, over_itself, part, size, times_one, worth, zero_stays};
use vstd::prelude::*;

verus! {

/// How large the numbers of the elimination can be after some columns.
pub struct Bounds {
    /// The condition of the matrix.
    pub kappa: real,
    /// The rows below, in the scale of the inverse.
    pub l: real,
    /// The rows above of what becomes the inverse, in the scale of the matrix.
    pub u: real,
    /// The distance of the companion from the inverse, in roundings.
    pub theta: real,
    /// The residuals of the rows below, in the scale of the inverse and in roundings.
    pub rho: real,
    /// The residuals of the rows above, in roundings.
    pub tau: real,
}

/// Whether the residuals are small.
pub open spec fn has_small_residuals(
    a: Seq<Seq<Double>>,
    v: Seq<Seq<Double>>,
    m: Seq<Seq<Double>>,
    k: int,
    n: real,
    rho: real,
    tau: real,
) -> bool {
    forall|r: int, j: int|
        0 <= r < 6 && 0 <= j < 6 ==> if r >= k {
            n * size(#[trigger] residual(a, v, m, r, j)) <= rho
        } else {
            size(residual(a, v, m, r, j)) <= tau
        }
}

/// Whether the numbers of the elimination of `m` are within their bounds after `k` columns.
pub open spec fn is_tame(
    a: Seq<Seq<Double>>,
    v: Seq<Seq<Double>>,
    m: Seq<Seq<Double>>,
    g: Seq<Seq<real>>,
    k: int,
    n: real,
    mu: real,
    b: Bounds,
) -> bool {
    &&& is_finite_matrix(a)
    &&& is_finite_matrix(v)
    &&& begins_as_identity(a, k)
    &&& is_companion(g, k, n)
    &&& is_close(g, a, k, b.theta * part())
    &&& is_small_below(a, k, n, b.l)
    &&& is_small_below(v, k, b.kappa, b.l)
    &&& is_small_above(v, k, mu, b.u)
    &&& has_small_residuals(a, v, m, k, n, b.rho * part(), b.tau * part())
}

/// The companion with two columns exchanged.
pub open spec fn companion_swapped(g: Seq<Seq<real>>, k: int, p: int) -> Seq<Seq<real>> {
    Seq::new(6, |i: int| exchanged(g[i], k, p))
}

/// Exchanging two rows that are still to come keeps the bounds.
pub proof fn lemma_swap_is_tame(
    a: Seq<Seq<Double>>,
    v: Seq<Seq<Double>>,
    m: Seq<Seq<Double>>,
    g: Seq<Seq<real>>,
    k: int,
    p: int,
    n: real,
    mu: real,
    b: Bounds,
)
    requires
        0 <= k <= p < 6,
        is_tame(a, v, m, g, k, n, mu, b),
    ensures
        is_tame(swapped(a, k, p), swapped(v, k, p), m, companion_swapped(g, k, p), k, n, mu, b),
{
    let sa = swapped(a, k, p);
    let sv = swapped(v, k, p);
    let h = companion_swapped(g, k, p);
    let at = |r: int|
        if r == k {
            p
        } else if r == p {
            k
        } else {
            r
        };
    assert forall|r: int| 0 <= r < 6 implies #[trigger] sa[r] == a[at(r)] && sv[r] == v[at(r)] && 0
        <= at(r) < 6 && (r >= k <==> at(r) >= k) by {}
    assert forall|r: int, j: int| 0 <= r < 6 && 0 <= j < 6 implies (
    #[trigger] sa[r][j]).is_finite() by {
        assert(sa[r] == a[at(r)]);
        assert(a[at(r)][j].is_finite());
    }
    assert forall|r: int, j: int| 0 <= r < 6 && 0 <= j < 6 implies (
    #[trigger] sv[r][j]).is_finite() by {
        assert(sa[r] == a[at(r)]);
        assert(v[at(r)][j].is_finite());
    }
    assert forall|r: int, j: int| 0 <= r < 6 && 0 <= j < k implies if r == j {
        #[trigger] sa[r][j] == Double::natural(1)
    } else {
        is_zero(sa[r][j])
    } by {
        assert(sa[r] == a[at(r)]);
        assert(a[at(r)][j] == sa[r][j]);
    }
    assert forall|i: int, s: int| 0 <= i < 6 && 0 <= s < k implies #[trigger] h[i][s] == delta(
        i,
        s,
    ) by {
        assert(h[i][s] == g[i][s]);
    }
    assert forall|i: int| 0 <= i < 6 implies tail(#[trigger] h[i], k) <= n by {
        assert(tail(g[i], k) <= n);
        lemma_tail_exchanged(g[i], k, p);
    }
    let t = b.theta * part();
    assert forall|i: int, j: int| 0 <= i < 6 && k <= j < 6 implies size(
        #[trigger] dot(h[i], real_column(sa, j)) - delta(i, j),
    ) <= t by {
        let x = real_column(a, j);
        lemma_real_column(a, j);
        lemma_real_column(sa, j);
        assert forall|s: int| 0 <= s < 6 implies #[trigger] real_column(sa, j)[s] == exchanged(
            x,
            k,
            p,
        )[s] by {
            assert(sa[s] == a[at(s)]);
        }
        assert(real_column(sa, j) =~= exchanged(x, k, p));
        lemma_dot_exchanged(g[i], x, k, p);
        assert(size(dot(g[i], real_column(a, j)) - delta(i, j)) <= t);
    }
    assert forall|r: int, j: int| k <= r < 6 && 0 <= j < 6 implies n * size(
        worth(#[trigger] sa[r][j]),
    ) <= b.l by {
        assert(sa[r] == a[at(r)]);
        assert(n * size(worth(a[at(r)][j])) <= b.l);
    }
    assert forall|r: int, j: int| k <= r < 6 && 0 <= j < 6 implies b.kappa * size(
        worth(#[trigger] sv[r][j]),
    ) <= b.l by {
        assert(sa[r] == a[at(r)]);
        assert(b.kappa * size(worth(v[at(r)][j])) <= b.l);
    }
    assert forall|r: int, j: int| 0 <= r < k && 0 <= j < 6 implies mu * size(
        worth(#[trigger] sv[r][j]),
    ) <= b.u by {
        assert(sa[r] == a[at(r)]);
        assert(mu * size(worth(v[r][j])) <= b.u);
    }
    assert forall|r: int, j: int| 0 <= r < 6 && 0 <= j < 6 implies if r >= k {
        n * size(#[trigger] residual(sa, sv, m, r, j)) <= b.rho * part()
    } else {
        size(residual(sa, sv, m, r, j)) <= b.tau * part()
    } by {
        assert(sa[r] == a[at(r)]);
        assert(worths(sv)[r] =~= worths(v)[at(r)]);
        assert(residual(sa, sv, m, r, j) == residual(a, v, m, at(r), j));
    }
}

/// A step turns one more column into that of the identity.
pub proof fn lemma_identity_after(a: Seq<Seq<Double>>, v: Seq<Seq<Double>>, k: int)
    requires
        0 <= k < 6,
        is_finite_matrix(a),
        is_finite_matrix(v),
        begins_as_identity(a, k),
        a[k][k].magnitude() > 0,
    ensures
        begins_as_identity(step((a, v), k, k).0, k + 1),
{
    lemma_entries(a, v, k);
    lemma_natural(1);
    let p = a[k][k];
    let b = step((a, v), k, k).0;
    let one = Double::natural(1);
    assert(one == integer(1));
    assert(p.is_finite());
    over_itself(p);
    assert forall|r: int, j: int| 0 <= r < 6 && 0 <= j < k + 1 implies if r == j {
        #[trigger] b[r][j] == one
    } else {
        is_zero(b[r][j])
    } by {
        assert(b[r][j] == entry_after(a, a, k, r, j));
        let f = a[r][k];
        assert(a[r][k].is_finite());
        if j == k {
            if r != k {
                times_one(f);
                less_itself(f);
            }
        } else {
            assert(a[k][j] == a[k][j]);
            assert(is_zero(a[k][j]));
            zero_stays(a[k][j], p);
            let q = quotient(a[k][j], p);
            zero_stays(q, p);
            if r != k {
                assert(a[r][j].is_finite());
                lemma_less_nothing(a[r][j], f, q);
                if r == j {
                    assert(a[r][j] == one);
                } else {
                    assert(is_zero(a[r][j]));
                }
            }
        }
    }
}

/// Whether a step can be made on column `k`: the row in its place has the largest entry, and that
/// is not small.
pub open spec fn is_ready(a: Seq<Seq<Double>>, k: int, n: real) -> bool {
    &&& is_largest(a, k)
    &&& a[k][k].magnitude() > 0
    &&& worth(a[k][k]) != 0real
    &&& 16real * (n * size(worth(a[k][k]))) >= 15real
}

pub proof fn lemma_ready(a: Seq<Seq<Double>>, g: Seq<Seq<real>>, k: int, n: real, t: real)
    requires
        0 <= k < 6,
        is_companion(g, k, n),
        is_close(g, a, k, t),
        is_largest(a, k),
        16real * t <= 1real,
    ensures
        is_ready(a, k, n),
{
    lemma_pivot(a, g, k, n, t);
    let p = worth(a[k][k]);
    if p == 0real {
        assert(n * 0real == 0real);
    }
    if a[k][k].magnitude() == 0 {
        zero_stays(a[k][k], Double { bits: 0 });
    }
}

/// Whether the bounds `c` hold after a step where the bounds `b` held before it.
pub open spec fn follows(b: Bounds, c: Bounds, f: real, q: real, fq: real) -> bool {
    &&& f == b.l + 1real
    &&& 15real * q == 16real * b.l
    &&& fq == f * q
    &&& c.kappa == b.kappa
    &&& 1real <= b.kappa <= b.l <= 0x800real
    &&& fq <= 0x40_0000real
    &&& 0real <= b.u <= 0x40_0000real
    &&& 0real <= b.theta
    &&& 16real * (b.theta * part()) <= 1real
    &&& 0real <= b.rho
    &&& 0real <= b.tau
    &&& c.l >= 2real * b.l + 1real
    &&& c.u >= b.u + fq + 1real
    &&& c.theta >= b.theta + q * b.theta + (31real / 10real * fq + 11real / 10real * f) + 41real
        / 10real * b.l
    &&& c.rho >= 2real * b.rho + 287real / 10real * b.l
    &&& c.tau >= b.tau + 16real / 15real * (f * b.rho) + (31real / 10real * fq + 11real / 10real
        * f) + 6real * (31real / 10real * fq + 11real / 10real * b.u)
}

/// The error of an entry of the matrix.
pub proof fn lemma_error_of_matrix(
    a: Seq<Seq<Double>>,
    v: Seq<Seq<Double>>,
    m: Seq<Seq<Double>>,
    g: Seq<Seq<real>>,
    k: int,
    n: real,
    mu: real,
    b: Bounds,
    c: Bounds,
    f: real,
    q: real,
    fq: real,
    r: int,
    j: int,
)
    requires
        0 <= k < 6,
        0 <= r < 6,
        0 <= j < 6,
        is_tame(a, v, m, g, k, n, mu, b),
        is_ready(a, k, n),
        follows(b, c, f, q, fq),
        is_scale(n),
    ensures
        entry_after(a, a, k, r, j).is_finite(),
        r <= k ==> size(error_after(a, a, k, r, j)) <= (31real / 10real * fq + 11real / 10real * f)
            * part(),
        r > k ==> n * size(error_after(a, a, k, r, j)) <= 41real / 10real * (b.l * part()),
        size(real_over(worth(a[k][j]), worth(a[k][k]))) <= q,
        r > k ==> n * size(worth(a[r][k]) * real_over(worth(a[k][j]), worth(a[k][k]))) <= b.l,
        r < k ==> size(worth(a[r][k])) <= f,
{
    lemma_natural(1);
    let t = b.theta * part();
    assert(t >= 0real) by (nonlinear_arith)
        requires
            t == b.theta * part(),
            b.theta >= 0real,
            part() > 0real,
    ;
    assert forall|s: int, i: int| 0 <= s < k && 0 <= i < 6 implies 1real * size(
        worth(#[trigger] a[s][i]),
    ) <= f by {
        lemma_above(a, g, k, n, t, b.l, s, i);
    }
    if r < k {
        assert(1real * size(worth(a[r][k])) <= f);
    }
    assert(n * size(worth(a[k][j])) <= b.l);
    assert(n * size(worth(a[k][k])) <= b.l);
    assert(1real * size(worth(a[k][j])) == size(worth(a[k][j])));
    assert(fq >= q) by (nonlinear_arith)
        requires
            fq == f * q,
            f >= 1real,
            q >= 0real,
    ;
    lemma_errors(a, a, k, 1real, n, n, b.l, b.l, f, q, f, fq, r, j);
    let (e, w) = (part(), 31real / 10real * fq + 11real / 10real * f);
    assert(q * e <= w / 2real * e) by (nonlinear_arith)
        requires
            2real * q <= w,
            e > 0real,
    ;
    assert(w / 2real * e == w * e / 2real) by (nonlinear_arith);
    assert(w * e >= 0real) by (nonlinear_arith)
        requires
            w >= 0real,
            e > 0real,
    ;
}

/// The error of an entry of what becomes the inverse.
pub proof fn lemma_error_of_inverse(
    a: Seq<Seq<Double>>,
    v: Seq<Seq<Double>>,
    m: Seq<Seq<Double>>,
    g: Seq<Seq<real>>,
    k: int,
    n: real,
    mu: real,
    b: Bounds,
    c: Bounds,
    f: real,
    q: real,
    fq: real,
    r: int,
    j: int,
)
    requires
        0 <= k < 6,
        0 <= r < 6,
        0 <= j < 6,
        is_tame(a, v, m, g, k, n, mu, b),
        is_ready(a, k, n),
        follows(b, c, f, q, fq),
        is_scale(n),
        is_scale(mu),
        n * mu <= b.kappa,
        r < k ==> size(worth(a[r][k])) <= f,
    ensures
        entry_after(v, a, k, r, j).is_finite(),
        r == k ==> mu * size(error_after(v, a, k, r, j)) <= 1001real / 1000real * (q * part()),
        r > k ==> size(error_after(v, a, k, r, j)) <= 41real / 10real * (b.l
            / b.kappa * part()),
        r < k ==> mu * size(error_after(v, a, k, r, j)) <= (31real / 10real * fq + 11real / 10real
            * b.u) * part(),
        mu * size(real_over(worth(v[k][j]), worth(a[k][k]))) <= q,
        r > k ==> b.kappa * size(worth(a[r][k]) * real_over(worth(v[k][j]), worth(a[k][k])))
            <= b.l,
        r < k ==> mu * size(worth(a[r][k]) * real_over(worth(v[k][j]), worth(a[k][k]))) <= fq,
{
    let h = b.l / b.kappa;
    lemma_over_kappa(b.l, b.kappa);
    assert forall|s: int, i: int| k <= s < 6 && 0 <= i < 6 implies 1real * size(
        worth(#[trigger] v[s][i]),
    ) <= h by {
        assert(b.kappa * size(worth(v[s][i])) <= b.l);
        lemma_below_over(size(worth(v[s][i])), b.l, b.kappa);
    }
    let y = size(worth(v[k][j]));
    assert(1real * size(worth(v[k][j])) <= h);
    assert(n * (mu * y) == (n * mu) * y) by (nonlinear_arith);
    let nm = n * mu;
    let ka = b.kappa;
    assert(nm * y <= ka * y) by (nonlinear_arith)
        requires
            nm <= ka,
            y >= 0real,
    ;
    let p = size(worth(a[k][k]));
    assert(n * size(worth(a[k][k])) <= b.l);
    assert(p <= b.l * 0x100_0000real) by (nonlinear_arith)
        requires
            n * p <= b.l,
            n * 0x100_0000real >= 1real,
            p >= 0real,
            n > 0real,
            b.l >= 0real,
    ;
    assert(fq >= q) by (nonlinear_arith)
        requires
            fq == f * q,
            f >= 1real,
            q >= 0real,
    ;
    lemma_errors(v, a, k, mu, 1real, n, b.l, h, f, q, b.u, fq, r, j);
    assert(b.kappa * size(worth(v[k][j])) <= b.l);
    let er = size(error_after(v, a, k, r, j));
    assert(1real * er == er);
    let pr = size(worth(a[r][k]) * real_over(worth(v[k][j]), worth(a[k][k])));
    assert(1real * pr == pr);
    if r > k {
        lemma_grows(b.kappa, pr, h);
    }
}

/// A quotient times what it was divided by.
pub proof fn lemma_over_kappa(l: real, kappa: real)
    requires
        1real <= kappa <= l,
    ensures
        kappa * (l / kappa) == l,
        1real <= l / kappa <= l,
{
    let h = l / kappa;
    assert(kappa * h == l) by (nonlinear_arith)
        requires
            h == l / kappa,
            kappa > 0real,
    ;
    assert(h >= 1real) by (nonlinear_arith)
        requires
            kappa * h == l,
            kappa <= l,
            kappa > 0real,
    ;
    assert(h <= l) by (nonlinear_arith)
        requires
            kappa * h == l,
            kappa >= 1real,
            h >= 0real,
    ;
}

proof fn lemma_below_over(y: real, l: real, kappa: real)
    requires
        1real <= kappa <= l,
        kappa * y <= l,
    ensures
        y <= l / kappa,
{
    lemma_over_kappa(l, kappa);
    let h = l / kappa;
    assert(y <= h) by (nonlinear_arith)
        requires
            kappa * y <= kappa * h,
            kappa > 0real,
    ;
}

/// A number that is a difference, up to an error.
proof fn lemma_sum_of_sizes(d: real, l: real, x: real, w: real, e: real)
    requires
        l >= 0real,
        d == x - w + e,
    ensures
        l * size(d) <= l * size(x) + l * size(w) + l * size(e),
{
    let (a, b, c) = (size(x), size(w), size(e));
    lemma_grows(l, size(d), a + b + c);
    assert(l * (a + b + c) == l * a + l * b + l * c) by (nonlinear_arith);
}

/// How large the entries are after a step.
pub proof fn lemma_sizes_after(
    a: Seq<Seq<Double>>,
    v: Seq<Seq<Double>>,
    m: Seq<Seq<Double>>,
    g: Seq<Seq<real>>,
    k: int,
    n: real,
    mu: real,
    b: Bounds,
    c: Bounds,
    f: real,
    q: real,
    fq: real,
    r: int,
    j: int,
)
    requires
        0 <= k < 6,
        0 <= r < 6,
        0 <= j < 6,
        is_tame(a, v, m, g, k, n, mu, b),
        is_ready(a, k, n),
        follows(b, c, f, q, fq),
        is_scale(n),
        is_scale(mu),
        n * mu <= b.kappa,
    ensures
        r > k ==> n * size(worth(entry_after(a, a, k, r, j))) <= c.l,
        r > k ==> b.kappa * size(worth(entry_after(v, a, k, r, j))) <= c.l,
        r <= k ==> mu * size(worth(entry_after(v, a, k, r, j))) <= c.u,
{
    lemma_error_of_matrix(a, v, m, g, k, n, mu, b, c, f, q, fq, r, j);
    lemma_error_of_inverse(a, v, m, g, k, n, mu, b, c, f, q, fq, r, j);
    let e = part();
    let le = b.l * e;
    assert(le <= 1real / 1000real && le >= 0real) by (nonlinear_arith)
        requires
            le == b.l * e,
            0real <= b.l <= 0x800real,
            0real < e <= 1real / 0x10_0000_0000_0000real,
    ;
    let qe = q * e;
    assert(qe <= 1real / 1000real) by (nonlinear_arith)
        requires
            qe == q * e,
            0real <= q <= 0x1000real,
            0real < e <= 1real / 0x10_0000_0000_0000real,
    ;
    assert(fq >= q) by (nonlinear_arith)
        requires
            fq == f * q,
            f >= 1real,
            q >= 0real,
    ;
    let w = 31real / 10real * fq + 11real / 10real * b.u;
    let we = w * e;
    assert(we <= 1real / 1000real) by (nonlinear_arith)
        requires
            we == w * e,
            0real <= w <= 0x200_0000real,
            0real < e <= 1real / 0x10_0000_0000_0000real,
    ;
    let t = real_over(worth(v[k][j]), worth(a[k][k]));
    if r > k {
        let h = b.l / b.kappa;
        lemma_over_kappa(b.l, b.kappa);
        let (er, ka) = (size(error_after(v, a, k, r, j)), b.kappa);
        lemma_grows(ka, er, 41real / 10real * (h * e));
        assert(ka * (41real / 10real * (h * e)) == 41real / 10real * ((ka * h) * e))
            by (nonlinear_arith);
        let ta = real_over(worth(a[k][j]), worth(a[k][k]));
        assert(n * size(worth(a[r][j])) <= b.l);
        assert(b.kappa * size(worth(v[r][j])) <= b.l);
        lemma_sum_of_sizes(
            worth(entry_after(a, a, k, r, j)),
            n,
            worth(a[r][j]),
            worth(a[r][k]) * ta,
            error_after(a, a, k, r, j),
        );
        lemma_sum_of_sizes(
            worth(entry_after(v, a, k, r, j)),
            b.kappa,
            worth(v[r][j]),
            worth(a[r][k]) * t,
            error_after(v, a, k, r, j),
        );
    } else if r == k {
        lemma_sum_of_sizes(
            worth(entry_after(v, a, k, r, j)),
            mu,
            t,
            0real,
            error_after(v, a, k, r, j),
        );
        assert(mu * 0real == 0real);
    } else {
        assert(mu * size(worth(v[r][j])) <= b.u);
        lemma_sum_of_sizes(
            worth(entry_after(v, a, k, r, j)),
            mu,
            worth(v[r][j]),
            worth(a[r][k]) * t,
            error_after(v, a, k, r, j),
        );
    }
}

} // verus!
