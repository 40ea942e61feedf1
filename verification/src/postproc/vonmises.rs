//! The von Mises stress.
use crate::arithmetic::root;
use crate::double::Double;
use crate::formula::{lemma_times_units, number, real_over, real_times, Arithmetic};
use vstd::prelude::*;

verus! {

/// A number times itself.
pub open spec fn squared<V: Arithmetic>(x: V) -> V {
    x.multiplied(x)
}

/// The square of the von Mises stress, from the stresses in the order xx, yy, zz, xy, xz, yz.
pub open spec fn von_mises_squared<V: Arithmetic>(s: Seq<V>) -> V {
    let six = V::natural(6);
    squared(s[0].reduced(s[1])).added(squared(s[1].reduced(s[2]))).added(
        squared(s[2].reduced(s[0])),
    ).added(six.multiplied(squared(s[3]))).added(six.multiplied(squared(s[4]))).added(
        six.multiplied(squared(s[5])),
    ).divided(V::natural(2))
}

/// The stresses in cell `k`.
pub open spec fn stresses_at(sig: Seq<Vec<Double>>, k: int) -> Seq<Double> {
    sig.map_values(|component: Vec<Double>| component@[k])
}

fn square(x: Double) -> (r: Double)
    ensures
        r == squared(x),
{
    x.times(x)
}

fn von_mises_one(s: &[Double; 6]) -> (r: Double)
    ensures
        r == root(von_mises_squared(s@)),
{
    let six: Double = number(6);
    let normal: Double = square(s[0].minus(s[1])).plus(square(s[1].minus(s[2]))).plus(
        square(s[2].minus(s[0])),
    );
    let all: Double = normal.plus(six.times(square(s[3]))).plus(six.times(square(s[4]))).plus(
        six.times(square(s[5])),
    );
    all.divided_by(number(2)).square_root()
}

/// The von Mises stress in each cell, from the six components of the stress.
pub fn von_mises(sig: &[Vec<Double>; 6]) -> (r: Vec<Double>)
    requires
        forall|i: int| 0 <= i < 6 ==> (#[trigger] sig@[i])@.len() >= sig@[0]@.len(),
    ensures
        r@ == Seq::new(sig@[0]@.len(), |k: int| root(von_mises_squared(stresses_at(sig@, k)))),
{
    let n: usize = sig[0].len();
    let mut r: Vec<Double> = Vec::new();
    let mut k: usize = 0;
    while k < n
        invariant
            k <= n,
            n == sig@[0]@.len(),
            forall|i: int| 0 <= i < 6 ==> (#[trigger] sig@[i])@.len() >= n,
            r@ == Seq::new(k as nat, |i: int| root(von_mises_squared(stresses_at(sig@, i)))),
        decreases n - k,
    {
        assert(sig@[1]@.len() >= n && sig@[2]@.len() >= n && sig@[3]@.len() >= n);
        assert(sig@[4]@.len() >= n && sig@[5]@.len() >= n);
        let s: [Double; 6] = [
            sig[0][k],
            sig[1][k],
            sig[2][k],
            sig[3][k],
            sig[4][k],
            sig[5][k],
        ];
        assert(s@ =~= stresses_at(sig@, k as int));
        r.push(von_mises_one(&s));
        k += 1;
        assert(r@ =~= Seq::new(k as nat, |i: int| root(von_mises_squared(stresses_at(sig@, i)))));
    }
    r
}

/// In exact arithmetic a pressure does not change the von Mises stress.
pub proof fn pressure_does_not_count(s: Seq<real>, p: real)
    requires
        s.len() == 6,
    ensures
        von_mises_squared(seq![s[0] + p, s[1] + p, s[2] + p, s[3], s[4], s[5]])
            == von_mises_squared(s),
{
    let t = seq![s[0] + p, s[1] + p, s[2] + p, s[3], s[4], s[5]];
    assert(t[0] - t[1] == s[0] - s[1]);
    assert(t[1] - t[2] == s[1] - s[2]);
    assert(t[2] - t[0] == s[2] - s[0]);
}

/// In exact arithmetic the von Mises stress under a single normal stress is that stress.
pub proof fn single_stress_counts_fully(sigma: real)
    ensures
        von_mises_squared(seq![sigma, 0real, 0real, 0real, 0real, 0real]) == squared(sigma),
{
    let s = seq![sigma, 0real, 0real, 0real, 0real, 0real];
    let q = real_times(sigma, sigma);
    assert(s[0] - s[1] == sigma);
    assert(s[1] - s[2] == 0real);
    assert(real_times(s[2] - s[0], s[2] - s[0]) == q) by {
        reveal(real_times);
        let m = 0real - sigma;
        assert(m * m == sigma * sigma) by (nonlinear_arith)
            requires
                m == 0real - sigma,
        ;
    }
    lemma_times_units(0real);
    lemma_times_units(6real);
    assert(real_over(q + q, 2real) == q) by {
        reveal(real_over);
    }
}

} // verus!
