//! The compliance of an isotropic material, as the elimination computes it.
use crate::arithmetic::{difference, product, quotient};
use crate::double::Double;
use crate::formula::Arithmetic;
use crate::postproc::inverse::{eliminated, first_obstacle, identity, is_square, pivot_row, step};
use crate::postproc::isotropic::{are_exact, is_ratio, lemma_exact, Exact};
use crate::postproc::nearness::{lemma_over, near};
use crate::postproc::pivots::{
    entry_after, is_apart, leads, lemma_apart_first, lemma_apart_last, lemma_entries, lemma_larger,
    lemma_leads, lemma_natural, lemma_not_small, same_worth,
};
use crate::postproc::reduction::{
    are_scales, is_second, is_third, lemma_reduction, lemma_rest, lemma_scale, Reduction,
};
use crate::rounding::{is_zero, less_zero, size, worth, zero_stays};
use vstd::prelude::*;

verus! {

/// Whether `c` is the stiffness of an isotropic material: `a` on the first half of the diagonal,
/// `b` beside it, `g` on the second half, and zeros, of either sign, elsewhere.
pub open spec fn is_isotropic(c: Seq<Seq<Double>>, a: Double, b: Double, g: Double) -> bool {
    &&& is_square(c)
    &&& forall|r: int, j: int|
        0 <= r < 6 && 0 <= j < 6 ==> if r < 3 && j < 3 {
            #[trigger] c[r][j] == if r == j {
                a
            } else {
                b
            }
        } else if r == j {
            c[r][j] == g
        } else {
            is_zero(c[r][j])
        }
}

/// The numbers that the elimination computes.
spec fn reduction(a: Double, b: Double) -> Reduction {
    let one = Double::natural(1);
    let zero = Double::natural(0);
    let above = quotient(zero, a);
    let below = difference(zero, product(b, above));
    let x = quotient(b, a);
    let d = difference(a, product(b, x));
    let o = difference(b, product(b, x));
    let i = quotient(one, a);
    let m = difference(zero, product(b, i));
    let y = quotient(o, d);
    let h = quotient(m, d);
    let k = quotient(one, d);
    let z = difference(x, product(x, y));
    let p0 = difference(i, product(x, h));
    let q0 = difference(above, product(x, k));
    let w = difference(d, product(o, y));
    let p2 = difference(m, product(o, h));
    let q2 = difference(below, product(o, k));
    let pp = quotient(p2, w);
    let qq = quotient(q2, w);
    let s0 = difference(p0, product(z, pp));
    let s1 = difference(q0, product(z, qq));
    Reduction { x, d, o, i, m, y, h, k, z, p0, q0, w, p2, q2, pp, qq, s0, s1 }
}

/// Whether a row of three numbers leads, where the rows below hold zeros.
proof fn lemma_leads_of(a: Seq<Seq<Double>>, v: Seq<Seq<Double>>, g: Double, k: int)
    requires
        0 <= k < 3,
        is_apart(a, v, g, k),
        forall|r: int| k <= r < 3 ==> (#[trigger] a[r])[k].is_finite(),
        forall|r: int| k < r < 3 ==> size(worth((#[trigger] a[r])[k])) < size(worth(a[k][k])),
        8real * size(worth(a[k][k])) >= 1real,
    ensures
        leads(a, k),
        a[k][k].magnitude() > 0,
{
    let p = a[k][k];
    lemma_not_small(p);
    assert forall|r: int| k <= r < 6 implies (#[trigger] a[r])[k].is_finite() by {
        if r >= 3 {
            assert(is_zero(a[r][k]));
            zero_stays(a[r][k], p);
        }
    }
    assert forall|r: int| k < r < 6 implies (#[trigger] a[r])[k].units() < p.units() by {
        assert(a[r][k].is_finite());
        if r >= 3 {
            assert(is_zero(a[r][k]));
            zero_stays(a[r][k], p);
        }
        lemma_larger(a[r][k], p);
    }
}

/// The matrices after one column.
spec fn after_first(
    f: Reduction,
    a: Seq<Seq<Double>>,
    v: Seq<Seq<Double>>,
    p: Double,
    q: Double,
) -> bool {
    &&& a[0][1] == f.x
    &&& a[0][2] == f.x
    &&& a[1][1] == f.d
    &&& a[2][2] == f.d
    &&& a[1][2] == f.o
    &&& a[2][1] == f.o
    &&& v[0][0] == f.i
    &&& v[0][1] == p
    &&& v[1][0] == f.m
    &&& v[2][0] == f.m
    &&& v[1][1] == Double::natural(1)
    &&& v[2][1] == q
    &&& is_zero(v[0][2])
    &&& is_zero(v[1][2])
    &&& v[2][2] == Double::natural(1)
}

/// The matrices after two columns.
spec fn after_second(f: Reduction, a: Seq<Seq<Double>>, v: Seq<Seq<Double>>) -> bool {
    &&& a[0][2] == f.z
    &&& a[1][2] == f.y
    &&& a[2][2] == f.w
    &&& v[0][0] == f.p0
    &&& v[0][1] == f.q0
    &&& v[1][0] == f.h
    &&& v[1][1] == f.k
    &&& v[2][0] == f.p2
    &&& v[2][1] == f.q2
    &&& is_zero(v[0][2])
    &&& is_zero(v[1][2])
    &&& v[2][2] == Double::natural(1)
}

/// The inverse after three; the two zeros are those that stood in the third column.
spec fn after_third(f: Reduction, v: Seq<Seq<Double>>, zero0: Double, zero1: Double) -> bool {
    let n = quotient(Double::natural(1), f.w);
    &&& v[0][0] == f.s0
    &&& v[0][1] == f.s1
    &&& v[0][2] == difference(zero0, product(f.z, n))
    &&& v[1][0] == difference(f.h, product(f.y, f.pp))
    &&& v[1][1] == difference(f.k, product(f.y, f.qq))
    &&& v[1][2] == difference(zero1, product(f.y, n))
    &&& v[2][0] == f.pp
    &&& v[2][1] == f.qq
    &&& v[2][2] == n
}

proof fn lemma_after_first(c: Seq<Seq<Double>>, a: Double, b: Double, g: Double, f: Reduction)
    requires
        is_isotropic(c, a, b, g),
        f == reduction(a, b),
        a.is_finite(),
        b.is_finite(),
        g.is_finite(),
        g.magnitude() > 0,
        size(worth(b)) < size(worth(a)),
        8real * size(worth(a)) >= 1real,
        f.x.is_finite(),
        f.i.is_finite(),
    ensures
        first_obstacle(c, 1) is None,
        ({
            let (na, nv) = eliminated(c, pivot_row(), 1);
            let above = quotient(Double::natural(0), a);
            let below = difference(Double::natural(0), product(b, above));
            &&& after_first(f, na, nv, above, below)
            &&& is_apart(na, nv, g, 1)
            &&& is_zero(above)
            &&& is_zero(below)
        }),
{
    let v = identity::<Double>();
    let zero = Double::natural(0);
    let one = Double::natural(1);
    lemma_natural(0);
    lemma_natural(1);
    assert(eliminated(c, pivot_row(), 0) == (c, v));
    assert(first_obstacle(c, 0) is None);
    assert(is_apart(c, v, g, 0));
    assert(c[0][0] == a);
    assert(c[1][0] == b);
    assert(c[2][0] == b);
    lemma_leads_of(c, v, g, 0);
    lemma_leads(c, 0);
    lemma_entries(c, v, 0);
    let na = step((c, v), 0, 0).0;
    let nv = step((c, v), 0, 0).1;
    assert(c[0][1] == b && c[0][2] == b && c[1][1] == a && c[1][2] == b && c[2][1] == b && c[2][2]
        == a);
    assert(v[0][0] == one && v[0][1] == zero && v[1][0] == zero && v[1][1] == one && v[2][0] == zero
        && v[2][1] == zero);
    assert(v[0][2] == zero && v[1][2] == zero && v[2][2] == one);
    zero_stays(zero, a);
    let above = quotient(zero, a);
    zero_stays(above, b);
    less_zero(one, product(b, above));
    less_zero(zero, product(b, above));
    lemma_apart_first(c, v, g, 0);
    assert(na[0][1] == entry_after(c, c, 0, 0, 1));
    assert(na[0][2] == entry_after(c, c, 0, 0, 2));
    assert(na[1][1] == entry_after(c, c, 0, 1, 1));
    assert(na[1][2] == entry_after(c, c, 0, 1, 2));
    assert(na[2][1] == entry_after(c, c, 0, 2, 1));
    assert(na[2][2] == entry_after(c, c, 0, 2, 2));
    assert(nv[0][0] == entry_after(v, c, 0, 0, 0));
    assert(nv[0][1] == entry_after(v, c, 0, 0, 1));
    assert(nv[1][0] == entry_after(v, c, 0, 1, 0));
    assert(nv[1][1] == entry_after(v, c, 0, 1, 1));
    assert(nv[2][0] == entry_after(v, c, 0, 2, 0));
    assert(nv[2][1] == entry_after(v, c, 0, 2, 1));
    assert(nv[0][2] == entry_after(v, c, 0, 0, 2));
    assert(nv[1][2] == entry_after(v, c, 0, 1, 2));
    assert(nv[2][2] == entry_after(v, c, 0, 2, 2));
}

proof fn lemma_after_second(
    c: Seq<Seq<Double>>,
    g: Double,
    f: Reduction,
    above: Double,
    below: Double,
)
    requires
        ({
            let (na, nv) = eliminated(c, pivot_row(), 1);
            &&& after_first(f, na, nv, above, below)
            &&& is_apart(na, nv, g, 1)
        }),
        first_obstacle(c, 1) is None,
        is_second(f, Double::natural(1), above, below),
        g.is_finite(),
        g.magnitude() > 0,
        f.x.is_finite(),
        f.d.is_finite(),
        f.o.is_finite(),
        f.y.is_finite(),
        f.h.is_finite(),
        f.k.is_finite(),
        size(worth(f.o)) < size(worth(f.d)),
        8real * size(worth(f.d)) >= 1real,
    ensures
        first_obstacle(c, 2) is None,
        ({
            let (na, nv) = eliminated(c, pivot_row(), 2);
            &&& after_second(f, na, nv)
            &&& is_apart(na, nv, g, 2)
        }),
{
    let (m, v) = eliminated(c, pivot_row(), 1);
    lemma_natural(1);
    lemma_leads_of(m, v, g, 1);
    lemma_leads(c, 1);
    lemma_entries(m, v, 1);
    let na = step((m, v), 1, 1).0;
    let nv = step((m, v), 1, 1).1;
    zero_stays(v[1][2], f.d);
    let q = quotient(v[1][2], f.d);
    zero_stays(q, f.x);
    zero_stays(q, f.o);
    less_zero(v[0][2], product(f.x, q));
    less_zero(v[2][2], product(f.o, q));
    lemma_apart_first(m, v, g, 1);
    assert(na[0][2] == entry_after(m, m, 1, 0, 2));
    assert(na[1][2] == entry_after(m, m, 1, 1, 2));
    assert(na[2][2] == entry_after(m, m, 1, 2, 2));
    assert(nv[0][0] == entry_after(v, m, 1, 0, 0));
    assert(nv[0][1] == entry_after(v, m, 1, 0, 1));
    assert(nv[0][2] == entry_after(v, m, 1, 0, 2));
    assert(nv[1][0] == entry_after(v, m, 1, 1, 0));
    assert(nv[1][1] == entry_after(v, m, 1, 1, 1));
    assert(nv[1][2] == entry_after(v, m, 1, 1, 2));
    assert(nv[2][0] == entry_after(v, m, 1, 2, 0));
    assert(nv[2][1] == entry_after(v, m, 1, 2, 1));
    assert(nv[2][2] == entry_after(v, m, 1, 2, 2));
}

proof fn lemma_after_third(c: Seq<Seq<Double>>, g: Double, f: Reduction)
    requires
        ({
            let (na, nv) = eliminated(c, pivot_row(), 2);
            &&& after_second(f, na, nv)
            &&& is_apart(na, nv, g, 2)
        }),
        first_obstacle(c, 2) is None,
        is_third(f),
        g.is_finite(),
        g.magnitude() > 0,
        f.z.is_finite(),
        f.y.is_finite(),
        f.w.is_finite(),
        f.pp.is_finite(),
        f.qq.is_finite(),
        quotient(Double::natural(1), f.w).is_finite(),
        8real * size(worth(f.w)) >= 1real,
    ensures
        first_obstacle(c, 3) is None,
        ({
            let v = eliminated(c, pivot_row(), 2).1;
            let (na, nv) = eliminated(c, pivot_row(), 3);
            &&& after_third(f, nv, v[0][2], v[1][2])
            &&& is_apart(na, nv, g, 3)
        }),
{
    let (m, v) = eliminated(c, pivot_row(), 2);
    lemma_leads_of(m, v, g, 2);
    lemma_leads(c, 2);
    lemma_entries(m, v, 2);
    let nv = step((m, v), 2, 2).1;
    assert forall|r: int| 0 <= r < 3 implies (#[trigger] m[r])[2].is_finite() by {
        assert(r == 0 || r == 1 || r == 2);
    }
    assert forall|k: int| 0 <= k < 3 implies quotient(#[trigger] v[2][k], m[2][2]).is_finite() by {
        assert(k == 0 || k == 1 || k == 2);
    }
    lemma_apart_first(m, v, g, 2);
    assert(nv[0][0] == entry_after(v, m, 2, 0, 0));
    assert(nv[0][1] == entry_after(v, m, 2, 0, 1));
    assert(nv[0][2] == entry_after(v, m, 2, 0, 2));
    assert(nv[1][0] == entry_after(v, m, 2, 1, 0));
    assert(nv[1][1] == entry_after(v, m, 2, 1, 1));
    assert(nv[1][2] == entry_after(v, m, 2, 1, 2));
    assert(nv[2][0] == entry_after(v, m, 2, 2, 0));
    assert(nv[2][1] == entry_after(v, m, 2, 2, 1));
    assert(nv[2][2] == entry_after(v, m, 2, 2, 2));
}

/// Whether the first three rows and columns of `v` are near the exact compliance.
pub open spec fn is_near(v: Seq<Seq<Double>>, e: Exact, l: real) -> bool {
    forall|r: int, j: int|
        0 <= r < 3 && 0 <= j < 3 ==> near(
            #[trigger] v[r][j],
            l,
            if r == j {
                e.s
            } else {
                e.p
            },
            212real,
        )
}

/// The compliance: how near its entries are to the exact ones.
pub proof fn lemma_compliance(
    c: Seq<Seq<Double>>,
    a: Double,
    b: Double,
    g: Double,
    x: real,
    l: real,
    i: real,
) -> (e: Exact)
    requires
        is_isotropic(c, a, b, g),
        is_ratio(x),
        are_scales(l, i),
        i <= 2real,
        near(a, i, 1real, 0real),
        near(b, i, x, 0real),
        g.is_finite(),
        1real / 8real <= worth(g) <= 0x100_0000real,
    ensures
        first_obstacle(c, 6) is None,
        are_exact(e, x),
        is_near(eliminated(c, pivot_row(), 6).1, e, l),
        is_apart(eliminated(c, pivot_row(), 6).0, eliminated(c, pivot_row(), 6).1, g, 6),
        near(quotient(Double::natural(1), g), worth(g), 1real, 1real),
{
    let e = lemma_exact(x);
    let f = reduction(a, b);
    let zero = Double::natural(0);
    let one = Double::natural(1);
    let above = quotient(zero, a);
    let below = difference(zero, product(b, above));
    lemma_natural(0);
    lemma_natural(1);
    lemma_not_small(g);
    let h = lemma_scale(worth(g));
    lemma_over(one, 1real, 1real, 0real, g, h, 1real, 0real, worth(g), 1real, 1real, 1real, 0real);
    if a.magnitude() == 0 {
        zero_stays(a, one);
        assert(i * 0real == 0real);
    }
    zero_stays(zero, a);
    zero_stays(above, b);
    less_zero(zero, product(b, above));
    lemma_reduction(f, a, b, one, zero, above, below, e, x, l, i);
    lemma_after_first(c, a, b, g, f);
    lemma_after_second(c, g, f, above, below);
    let v2 = eliminated(c, pivot_row(), 2).1;
    lemma_rest(f, one, v2[0][2], v2[1][2], e, x, l, i);
    lemma_after_third(c, g, f);
    let (m3, v3) = eliminated(c, pivot_row(), 3);
    assert forall|r: int, j: int| 0 <= r < 3 && 0 <= j < 3 implies near(
        #[trigger] v3[r][j],
        l,
        if r == j {
            e.s
        } else {
            e.p
        },
        212real,
    ) by {
        assert(r == 0 || r == 1 || r == 2);
        assert(j == 0 || j == 1 || j == 2);
    }
    lemma_last(c, g, 3);
    lemma_last(c, g, 4);
    lemma_last(c, g, 5);
    let v6 = eliminated(c, pivot_row(), 6).1;
    assert forall|r: int, j: int| 0 <= r < 3 && 0 <= j < 3 implies near(
        #[trigger] v6[r][j],
        l,
        if r == j {
            e.s
        } else {
            e.p
        },
        212real,
    ) by {
        let v4 = eliminated(c, pivot_row(), 4).1;
        let v5 = eliminated(c, pivot_row(), 5).1;
        assert(near(v3[r][j], l, if r == j {
            e.s
        } else {
            e.p
        }, 212real));
        assert(worth(v4[r][j]) == worth(v3[r][j]));
        assert(worth(v5[r][j]) == worth(v4[r][j]));
    }
    e
}

/// One of the last three columns.
proof fn lemma_last(c: Seq<Seq<Double>>, g: Double, k: nat)
    requires
        3 <= k < 6,
        first_obstacle(c, k) is None,
        is_apart(eliminated(c, pivot_row(), k).0, eliminated(c, pivot_row(), k).1, g, k as int),
        g.is_finite(),
        8real * size(worth(g)) >= 1real,
        quotient(Double::natural(1), g).is_finite(),
        same_worth(eliminated(c, pivot_row(), k).1, eliminated(c, pivot_row(), k).1),
    ensures
        first_obstacle(c, k + 1) is None,
        is_apart(
            eliminated(c, pivot_row(), k + 1).0,
            eliminated(c, pivot_row(), k + 1).1,
            g,
            k + 1int,
        ),
        same_worth(eliminated(c, pivot_row(), k).1, eliminated(c, pivot_row(), k + 1).1),
        same_worth(eliminated(c, pivot_row(), k + 1).1, eliminated(c, pivot_row(), k + 1).1),
{
    let (m, v) = eliminated(c, pivot_row(), k);
    lemma_apart_last(m, v, g, k as int);
    lemma_leads(c, k);
}

} // verus!
