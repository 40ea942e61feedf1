//! Sums of products of rows and columns, and how large they are.
use crate::formula::{lemma_sum_times, lemma_times_order, lemma_times_units, real_times};
use crate::postproc::inverse::dot;
use crate::postproc::step_rounding::{lemma_grows, lemma_size_times};
use crate::rounding::size;
use vstd::prelude::*;

verus! {

/// A row that is the sum of two.
pub proof fn lemma_dot_plus(w: Seq<real>, u: Seq<real>, e: Seq<real>, v: Seq<real>)
    requires
        forall|t: int| 0 <= t < 6 ==> #[trigger] w[t] == u[t] + e[t],
    ensures
        dot(w, v) == dot(u, v) + dot(e, v),
{
    assert(w[0] == u[0] + e[0]);
    assert(w[1] == u[1] + e[1]);
    assert(w[2] == u[2] + e[2]);
    assert(w[3] == u[3] + e[3]);
    assert(w[4] == u[4] + e[4]);
    assert(w[5] == u[5] + e[5]);
    lemma_sum_times(u[0], e[0], v[0]);
    lemma_sum_times(u[1], e[1], v[1]);
    lemma_sum_times(u[2], e[2], v[2]);
    lemma_sum_times(u[3], e[3], v[3]);
    lemma_sum_times(u[4], e[4], v[4]);
    lemma_sum_times(u[5], e[5], v[5]);
}

pub proof fn lemma_dot_order(u: Seq<real>, v: Seq<real>)
    ensures
        dot(u, v) == dot(v, u),
{
    lemma_times_order(u[0], v[0], 0real);
    lemma_times_order(u[1], v[1], 0real);
    lemma_times_order(u[2], v[2], 0real);
    lemma_times_order(u[3], v[3], 0real);
    lemma_times_order(u[4], v[4], 0real);
    lemma_times_order(u[5], v[5], 0real);
}

/// The size of one product.
pub proof fn lemma_term_size(x: real, y: real, b: real)
    requires
        size(y) <= b,
    ensures
        size(real_times(x, y)) <= real_times(size(x), b),
{
    reveal(real_times);
    lemma_size_times(x, y);
    lemma_grows(size(x), size(y), b);
}

/// The sum of the sizes of a row, from place `k` on.
pub open spec fn tail(g: Seq<real>, k: int) -> real {
    tail_size(g, k, 0) + tail_size(g, k, 1) + tail_size(g, k, 2) + tail_size(g, k, 3) + tail_size(
        g,
        k,
        4,
    ) + tail_size(g, k, 5)
}

pub open spec fn tail_size(g: Seq<real>, k: int, s: int) -> real {
    if s >= k {
        size(g[s])
    } else {
        0real
    }
}

/// A row that begins as a row of the identity: the sum is one number, and what the rest comes to.
pub proof fn lemma_dot_tail(g: Seq<real>, x: Seq<real>, i: int, k: int, b: real)
    requires
        0 <= i < 6,
        0 <= k <= 6,
        forall|s: int|
            0 <= s < k ==> #[trigger] g[s] == if s == i {
                1real
            } else {
                0real
            },
        forall|s: int| k <= s < 6 ==> size(#[trigger] x[s]) <= b,
    ensures
        size(
            dot(g, x) - if i < k {
                x[i]
            } else {
                0real
            },
        ) <= tail(g, k) * b,
{
    lemma_tail_term(g, x, i, k, b, 0);
    lemma_tail_term(g, x, i, k, b, 1);
    lemma_tail_term(g, x, i, k, b, 2);
    lemma_tail_term(g, x, i, k, b, 3);
    lemma_tail_term(g, x, i, k, b, 4);
    lemma_tail_term(g, x, i, k, b, 5);
    let t0 = tail_size(g, k, 0);
    let t1 = tail_size(g, k, 1);
    let t2 = tail_size(g, k, 2);
    let t3 = tail_size(g, k, 3);
    let t4 = tail_size(g, k, 4);
    let t5 = tail_size(g, k, 5);
    lemma_sum_times(t0, t1, b);
    lemma_sum_times(t0 + t1, t2, b);
    lemma_sum_times(t0 + t1 + t2, t3, b);
    lemma_sum_times(t0 + t1 + t2 + t3, t4, b);
    lemma_sum_times(t0 + t1 + t2 + t3 + t4, t5, b);
    assert(real_times(tail(g, k), b) == tail(g, k) * b) by {
        reveal(real_times);
    }
}

proof fn lemma_tail_term(g: Seq<real>, x: Seq<real>, i: int, k: int, b: real, s: int)
    requires
        0 <= s < 6,
        0 <= s < k ==> g[s] == if s == i {
            1real
        } else {
            0real
        },
        k <= s ==> size(x[s]) <= b,
    ensures
        size(
            real_times(g[s], x[s]) - if s < k && s == i {
                x[s]
            } else {
                0real
            },
        ) <= real_times(tail_size(g, k, s), b),
{
    lemma_times_units(x[s]);
    lemma_times_units(b);
    if s >= k {
        lemma_term_size(g[s], x[s], b);
    }
}

/// The sum of six products of numbers of bounded size.
pub proof fn lemma_dot_size(e: Seq<real>, v: Seq<real>, a: real, b: real)
    requires
        forall|t: int| 0 <= t < 6 ==> size(#[trigger] e[t]) <= a,
        forall|t: int| 0 <= t < 6 ==> size(#[trigger] v[t]) <= b,
    ensures
        size(dot(e, v)) <= 6real * (a * b),
{
    lemma_bounded_term(e[0], v[0], a, b);
    lemma_bounded_term(e[1], v[1], a, b);
    lemma_bounded_term(e[2], v[2], a, b);
    lemma_bounded_term(e[3], v[3], a, b);
    lemma_bounded_term(e[4], v[4], a, b);
    lemma_bounded_term(e[5], v[5], a, b);
}

proof fn lemma_bounded_term(x: real, y: real, a: real, b: real)
    requires
        size(x) <= a,
        size(y) <= b,
    ensures
        size(real_times(x, y)) <= a * b,
{
    lemma_term_size(x, y, b);
    reveal(real_times);
    let s = size(x);
    assert(s * b <= a * b) by (nonlinear_arith)
        requires
            s <= a,
            b >= 0real,
    ;
}

/// A row with two places exchanged.
pub open spec fn exchanged(g: Seq<real>, k: int, p: int) -> Seq<real> {
    g.update(k, g[p]).update(p, g[k])
}

/// Exchanging two places in both keeps the sum.
pub proof fn lemma_dot_exchanged(g: Seq<real>, x: Seq<real>, k: int, p: int)
    requires
        0 <= k < 6,
        0 <= p < 6,
        g.len() == 6,
        x.len() == 6,
    ensures
        dot(exchanged(g, k, p), exchanged(x, k, p)) == dot(g, x),
{
    let (a, b) = (exchanged(g, k, p), exchanged(x, k, p));
    assert forall|s: int| 0 <= s < 6 implies real_times(#[trigger] a[s], b[s]) == real_times(
        g[if s == k {
            p
        } else if s == p {
            k
        } else {
            s
        }],
        x[if s == k {
            p
        } else if s == p {
            k
        } else {
            s
        }],
    ) by {}
    assert(a[0] == a[0] && a[1] == a[1] && a[2] == a[2] && a[3] == a[3] && a[4] == a[4] && a[5]
        == a[5]);
    assert(k == 0 || k == 1 || k == 2 || k == 3 || k == 4 || k == 5);
    assert(p == 0 || p == 1 || p == 2 || p == 3 || p == 4 || p == 5);
}

/// Exchanging two places of the tail keeps it.
pub proof fn lemma_tail_exchanged(g: Seq<real>, k: int, p: int)
    requires
        0 <= k <= p < 6,
        g.len() == 6,
    ensures
        tail(exchanged(g, k, p), k) == tail(g, k),
{
    assert(k == 0 || k == 1 || k == 2 || k == 3 || k == 4 || k == 5);
    assert(p == 0 || p == 1 || p == 2 || p == 3 || p == 4 || p == 5);
}

} // verus!
