//! The errors of a step of the elimination.
use crate::arithmetic::quotient;
use crate::double::Double;
use crate::formula::{lemma_over_times, real_over, real_times};
use crate::postproc::isotropic::is_scale;
use crate::postproc::pivots::entry_after;
use crate::postproc::step_bounds::{is_finite_matrix, is_largest, is_small_above, is_small_below};
use crate::postproc::step_rounding::{
    lemma_grows, lemma_lower_entry, lemma_quotient_entry, lemma_size_times, lemma_upper_entry,
};
use crate::rounding::{part, size, worth};
use vstd::prelude::*;

verus! {

/// What an entry would be after an exact step.
pub open spec fn exact_entry(
    m: Seq<Seq<Double>>,
    a: Seq<Seq<Double>>,
    k: int,
    r: int,
    j: int,
) -> real {
    let q = real_over(worth(m[k][j]), worth(a[k][k]));
    if r == k {
        q
    } else {
        worth(m[r][j]) - worth(a[r][k]) * q
    }
}

/// How far an entry is from it.
pub open spec fn error_after(
    m: Seq<Seq<Double>>,
    a: Seq<Seq<Double>>,
    k: int,
    r: int,
    j: int,
) -> real {
    worth(entry_after(m, a, k, r, j)) - exact_entry(m, a, k, r, j)
}

/// An entry of the row that is taken, over the pivot.
pub proof fn lemma_ratio_size(y: real, p: real, c: real, n: real, l: real)
    requires
        c >= 0real,
        n * (c * size(y)) <= l,
        16real * (n * size(p)) >= 15real,
        p != 0real,
    ensures
        15real * (c * size(real_over(y, p))) <= 16real * l,
{
    let q = real_over(y, p);
    assert(q * p == y) by {
        lemma_over_times(y, p);
        reveal(real_times);
    }
    lemma_size_times(q, p);
    let (sq, sp) = (size(q), size(p));
    let z = c * sq;
    assert(z >= 0real) by (nonlinear_arith)
        requires
            z == c * sq,
            c >= 0real,
            sq >= 0real,
    ;
    assert(z * (n * sp) == n * (c * (sq * sp))) by (nonlinear_arith)
        requires
            z == c * sq,
    ;
    let w = n * sp;
    assert(15real * z <= 16real * (z * w)) by (nonlinear_arith)
        requires
            16real * w >= 15real,
            z >= 0real,
    ;
}

/// The errors of all entries of a matrix in a step: `c` is the scale of the rows above and of the
/// row that is taken, `d` that of the rows below.
pub proof fn lemma_errors(
    m: Seq<Seq<Double>>,
    a: Seq<Seq<Double>>,
    k: int,
    c: real,
    d: real,
    n: real,
    l: real,
    b: real,
    f: real,
    q: real,
    z: real,
    fq: real,
    r: int,
    j: int,
)
    requires
        0 <= k < 6,
        0 <= r < 6,
        0 <= j < 6,
        is_finite_matrix(m),
        is_finite_matrix(a),
        is_scale(c),
        is_scale(d),
        is_largest(a, k),
        a[k][k].magnitude() > 0,
        worth(a[k][k]) != 0real,
        16real * (n * size(worth(a[k][k]))) >= 15real,
        n * (c * size(worth(m[k][j]))) <= l,
        is_small_below(m, k, d, b),
        is_small_above(m, k, c, z),
        d * size(worth(a[k][k])) <= 0x100_0000_0000real,
        r < k ==> size(worth(a[r][k])) <= f,
        1real <= b <= 0x40_0000real,
        15real * q == 16real * l,
        1real <= q <= 0x40_0000real,
        fq == f * q,
        1real <= fq <= 0x40_0000real,
        0real <= z <= 0x40_0000real,
    ensures
        entry_after(m, a, k, r, j).is_finite(),
        r == k ==> c * size(error_after(m, a, k, r, j)) <= 1001real / 1000real * (q * part()),
        r > k ==> d * size(error_after(m, a, k, r, j)) <= 41real / 10real * (b * part()),
        r < k ==> c * size(error_after(m, a, k, r, j)) <= (31real / 10real * fq + 11real / 10real
            * z) * part(),
        c * size(real_over(worth(m[k][j]), worth(a[k][k]))) <= q,
        r > k ==> d * size(worth(a[r][k]) * real_over(worth(m[k][j]), worth(a[k][k]))) <= b,
        r < k ==> c * size(worth(a[r][k]) * real_over(worth(m[k][j]), worth(a[k][k]))) <= fq,
{
    let (y, p) = (m[k][j], a[k][k]);
    assert(m[k][j].is_finite() && a[k][k].is_finite() && m[r][j].is_finite()
        && a[r][k].is_finite());
    let t = real_over(worth(y), worth(p));
    lemma_ratio_size(worth(y), worth(p), c, n, l);
    lemma_quotient_entry(y, p, c, q);
    let quo = quotient(y, p);
    if r > k {
        assert(size(worth(a[r][k])) <= size(worth(p)));
        lemma_grows(d, size(worth(a[r][k])), size(worth(p)));
        assert(d * size(worth(m[r][j])) <= b);
        assert(d * size(worth(m[k][j])) <= b);
        lemma_lower_entry(m[r][j], a[r][k], y, p, d, b);
    } else if r < k {
        assert(c * size(worth(m[r][j])) <= z);
        lemma_upper_entry(m[r][j], a[r][k], quo, t, c, f, q, z, fq);
    }
}

} // verus!
