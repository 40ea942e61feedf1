//! The companion of the elimination: what stays near the inverse of the matrix.
use crate::double::Double;
use crate::formula::{lemma_over_times, lemma_times_units, real_over, real_times};
use crate::postproc::inverse::{dot, lemma_dot_less, row_less};
use crate::postproc::step_bounds::{delta, is_close, is_companion, lemma_real_column, real_column};
use crate::postproc::step_errors::exact_entry;
use crate::postproc::step_rounding::{lemma_grows, lemma_size_times};
use crate::postproc::step_sums::{lemma_dot_order, lemma_dot_plus, lemma_dot_tail, tail, tail_size};
use crate::rounding::{size, worth};
use vstd::prelude::*;

verus! {

/// The companion after a step: its column `k` becomes that of the identity.
pub open spec fn companion_after(g: Seq<Seq<real>>, k: int) -> Seq<Seq<real>> {
    Seq::new(6, |i: int| g[i].update(k, delta(i, k)))
}

pub proof fn lemma_companion_after(g: Seq<Seq<real>>, k: int, n: real)
    requires
        0 <= k < 6,
        is_companion(g, k, n),
    ensures
        is_companion(companion_after(g, k), k + 1, n),
{
    let h = companion_after(g, k);
    assert forall|i: int, s: int| 0 <= i < 6 && 0 <= s < k + 1 implies #[trigger] h[i][s] == delta(
        i,
        s,
    ) by {
        if s < k {
            assert(h[i][s] == g[i][s]);
        }
    }
    assert forall|i: int| 0 <= i < 6 implies tail(#[trigger] h[i], k + 1) <= n by {
        let (u, w) = (h[i], g[i]);
        assert(tail(g[i], k) <= n);
        assert forall|s: int| 0 <= s < 6 implies #[trigger] tail_size(u, k + 1, s) <= tail_size(
            w,
            k,
            s,
        ) by {
            if s > k {
                assert(u[s] == w[s]);
            }
        }
        assert(tail_size(u, k + 1, 0) <= tail_size(w, k, 0));
        assert(tail_size(u, k + 1, 1) <= tail_size(w, k, 1));
        assert(tail_size(u, k + 1, 2) <= tail_size(w, k, 2));
        assert(tail_size(u, k + 1, 3) <= tail_size(w, k, 3));
        assert(tail_size(u, k + 1, 4) <= tail_size(w, k, 4));
        assert(tail_size(u, k + 1, 5) <= tail_size(w, k, 5));
    }
}

/// The sum of six products where one place is treated apart.
proof fn lemma_one_place(u: Seq<real>, z: Seq<real>, g: Seq<real>, w: Seq<real>, k: int, d: real)
    requires
        0 <= k < 6,
        forall|s: int| 0 <= s < 6 && s != k ==> #[trigger] u[s] == g[s] && z[s] == w[s],
        real_times(u[k], z[k]) == d,
        real_times(g[k], w[k]) == 0real,
    ensures
        dot(u, z) == dot(g, w) + d,
{
    assert(k == 0 || k == 1 || k == 2 || k == 3 || k == 4 || k == 5);
    assert(k != 0 ==> u[0] == g[0]);
    assert(k != 1 ==> u[1] == g[1]);
    assert(k != 2 ==> u[2] == g[2]);
    assert(k != 3 ==> u[3] == g[3]);
    assert(k != 4 ==> u[4] == g[4]);
    assert(k != 5 ==> u[5] == g[5]);
}

/// The exact step on column `j`, seen by row `i` of the companion.
proof fn lemma_exact_column(
    a: Seq<Seq<Double>>,
    g: Seq<Seq<real>>,
    k: int,
    i: int,
    j: int,
    z: Seq<real>,
)
    requires
        0 <= k < 6,
        0 <= i < 6,
        0 <= j < 6,
        g.len() == 6,
        g[i].len() == 6,
        worth(a[k][k]) != 0real,
        forall|s: int| 0 <= s < 6 ==> #[trigger] z[s] == exact_entry(a, a, k, s, j),
    ensures
        ({
            let q = real_over(worth(a[k][j]), worth(a[k][k]));
            dot(companion_after(g, k)[i], z) == dot(g[i], real_column(a, j)) - q * dot(
                g[i],
                real_column(a, k),
            ) + delta(i, k) * q
        }),
{
    let p = worth(a[k][k]);
    let q = real_over(worth(a[k][j]), p);
    let x = real_column(a, j);
    let y = real_column(a, k);
    let w = row_less(x, q, y);
    let h = companion_after(g, k)[i];
    lemma_real_column(a, j);
    lemma_real_column(a, k);
    lemma_over_times(worth(a[k][j]), p);
    assert(x[k] == worth(a[k][j]) && y[k] == p);
    assert(w[k] == x[k] - real_times(q, y[k]));
    assert(w[k] == 0real);
    lemma_times_units(g[i][k]);
    assert forall|s: int| 0 <= s < 6 && s != k implies #[trigger] h[s] == g[i][s] && z[s]
        == w[s] by {
        assert(z[s] == exact_entry(a, a, k, s, j));
        assert(w[s] == x[s] - real_times(q, y[s]));
        assert(real_times(q, y[s]) == worth(a[s][k]) * q) by {
            reveal(real_times);
            let (b, c) = (q, y[s]);
            assert(b * c == c * b) by (nonlinear_arith);
        }
    }
    assert(z[k] == q);
    let d = delta(i, k) * q;
    assert(real_times(h[k], z[k]) == d) by {
        reveal(real_times);
    }
    lemma_one_place(h, z, g[i], w, k, d);
    lemma_dot_order(g[i], w);
    lemma_dot_less(x, q, y, g[i]);
    lemma_dot_order(x, g[i]);
    lemma_dot_order(y, g[i]);
    assert(real_times(q, dot(y, g[i])) == q * dot(g[i], y)) by {
        reveal(real_times);
    }
}

/// A step leaves the companion near the inverse.
pub proof fn lemma_close_after(
    a: Seq<Seq<Double>>,
    b: Seq<Seq<Double>>,
    g: Seq<Seq<real>>,
    k: int,
    n: real,
    t: real,
    q: real,
    above: real,
    below: real,
    i: int,
    j: int,
)
    requires
        0 <= k < 6,
        0 <= i < 6,
        k + 1 <= j < 6,
        n > 0real,
        is_companion(g, k, n),
        is_close(g, a, k, t),
        worth(a[k][k]) != 0real,
        size(real_over(worth(a[k][j]), worth(a[k][k]))) <= q,
        forall|r: int|
            k < r < 6 ==> n * size(worth(#[trigger] b[r][j]) - exact_entry(a, a, k, r, j)) <= below,
        forall|r: int|
            0 <= r <= k ==> size(worth(#[trigger] b[r][j]) - exact_entry(a, a, k, r, j)) <= above,
        above >= 0real,
        below >= 0real,
    ensures
        size(dot(companion_after(g, k)[i], real_column(b, j)) - delta(i, j)) <= t + q * t + above
            + below,
{
    let h = companion_after(g, k);
    lemma_companion_after(g, k, n);
    let qj = real_over(worth(a[k][j]), worth(a[k][k]));
    let z = Seq::new(6, |s: int| exact_entry(a, a, k, s, j));
    let e = Seq::new(6, |s: int| worth(b[s][j]) - exact_entry(a, a, k, s, j));
    let x = real_column(b, j);
    lemma_real_column(b, j);
    lemma_dot_plus(x, z, e, h[i]);
    lemma_dot_order(x, h[i]);
    lemma_dot_order(z, h[i]);
    lemma_dot_order(e, h[i]);
    lemma_exact_column(a, g, k, i, j, z);
    // What the errors come to.
    let c = below / n;
    assert(n * c == below) by (nonlinear_arith)
        requires
            c == below / n,
            n > 0real,
    ;
    assert forall|s: int| k + 1 <= s < 6 implies size(#[trigger] e[s]) <= c by {
        let y = size(e[s]);
        assert(e[s] == worth(b[s][j]) - exact_entry(a, a, k, s, j));
        assert(n * y <= below);
        assert(y <= c) by (nonlinear_arith)
            requires
                n * y <= n * c,
                n > 0real,
        ;
    }
    assert(c >= 0real) by (nonlinear_arith)
        requires
            n * c == below,
            n > 0real,
            below >= 0real,
    ;
    assert(is_companion(h, k + 1, n));
    assert forall|s: int| 0 <= s < k + 1 implies #[trigger] h[i][s] == if s == i {
        1real
    } else {
        0real
    } by {
        assert(h[i][s] == delta(i, s));
    }
    lemma_dot_tail(h[i], e, i, k + 1, c);
    let u = tail(h[i], k + 1);
    assert(u * c <= n * c) by (nonlinear_arith)
        requires
            u <= n,
            c >= 0real,
    ;
    if i <= k {
        assert(e[i] == worth(b[i][j]) - exact_entry(a, a, k, i, j));
        assert(size(e[i]) <= above);
    }
    // What becomes of the distance from the inverse.
    let t1 = dot(g[i], real_column(a, j)) - delta(i, j);
    let t2 = dot(g[i], real_column(a, k)) - delta(i, k);
    assert(size(t1) <= t);
    assert(size(t2) <= t);
    let d = delta(i, k);
    let v = dot(g[i], real_column(a, k));
    assert(qj * v == qj * t2 + d * qj) by (nonlinear_arith)
        requires
            v == t2 + d,
    ;
    lemma_size_times(qj, t2);
    lemma_grows(size(qj), size(t2), t);
    let sq = size(qj);
    assert(sq * t <= q * t) by (nonlinear_arith)
        requires
            sq <= q,
            t >= 0real,
    ;
}

} // verus!
