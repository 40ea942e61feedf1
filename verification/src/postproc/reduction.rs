//! The elimination of the stiffness of an isotropic material, number by number.
use crate::arithmetic::{difference, product, quotient};
use crate::double::Double;
use crate::postproc::isotropic::{are_exact, is_ratio, is_scale, scaled_to, Exact};
use crate::postproc::nearness::{lemma_minus, lemma_over, lemma_times, near};
use crate::rounding::{is_zero, size, worth, zero_stays};
use vstd::prelude::*;

verus! {

/// The numbers that the elimination computes for a diagonal entry `a` and an entry `b` beside it.
/// The predicates below say which operation each of them comes from.
pub struct Reduction {
    pub x: Double,
    pub d: Double,
    pub o: Double,
    pub i: Double,
    pub m: Double,
    pub y: Double,
    pub h: Double,
    pub k: Double,
    pub z: Double,
    pub p0: Double,
    pub q0: Double,
    pub w: Double,
    pub p2: Double,
    pub q2: Double,
    pub pp: Double,
    pub qq: Double,
    pub s0: Double,
    pub s1: Double,
}

/// The numbers after the first column.
pub open spec fn is_first(f: Reduction, a: Double, b: Double, one: Double, zero: Double) -> bool {
    &&& f.x == quotient(b, a)
    &&& f.d == difference(a, product(b, f.x))
    &&& f.o == difference(b, product(b, f.x))
    &&& f.i == quotient(one, a)
    &&& f.m == difference(zero, product(b, f.i))
}

/// The numbers after the second; the two zeros are those above and below.
pub open spec fn is_second(f: Reduction, one: Double, above: Double, below: Double) -> bool {
    &&& f.y == quotient(f.o, f.d)
    &&& f.h == quotient(f.m, f.d)
    &&& f.k == quotient(one, f.d)
    &&& f.z == difference(f.x, product(f.x, f.y))
    &&& f.p0 == difference(f.i, product(f.x, f.h))
    &&& f.q0 == difference(above, product(f.x, f.k))
    &&& f.w == difference(f.d, product(f.o, f.y))
    &&& f.p2 == difference(f.m, product(f.o, f.h))
    &&& f.q2 == difference(below, product(f.o, f.k))
}

/// The numbers after the third.
pub open spec fn is_third(f: Reduction) -> bool {
    &&& f.pp == quotient(f.p2, f.w)
    &&& f.qq == quotient(f.q2, f.w)
    &&& f.s0 == difference(f.p0, product(f.z, f.pp))
    &&& f.s1 == difference(f.q0, product(f.z, f.qq))
}

/// How near the numbers after the first column are, in the scale `l` of the inverse and `i` of the
/// matrix.
pub open spec fn first_near(f: Reduction, e: Exact, x: real, l: real, i: real) -> bool {
    &&& near(f.x, 1real, x, 1real)
    &&& near(f.d, i, e.d, 3real)
    &&& near(f.o, i, e.o, 3real)
    &&& near(f.i, l, 1real, 1real)
    &&& near(f.m, 1real, 0real - x, 3real)
}

/// How near the numbers after the second column are.
pub open spec fn second_near(f: Reduction, e: Exact, l: real, i: real) -> bool {
    &&& near(f.y, 1real, e.y, 16real)
    &&& near(f.h, l, e.h, 35real)
    &&& near(f.k, l, e.k, 31real)
    &&& near(f.z, 1real, e.y, 17real)
    &&& near(f.p0, l, e.k, 35real)
    &&& near(f.q0, l, e.h, 31real)
    &&& near(f.w, i, e.w, 14real)
    &&& near(f.p2, 1real, 0real - e.y, 29real)
    &&& near(f.q2, 1real, 0real - e.y, 26real)
}

/// The two scales belong together.
pub open spec fn are_scales(l: real, i: real) -> bool {
    is_scale(l) && is_scale(i) && l * i == 1real && i * l == 1real
}

/// A positive number of moderate size is a scale, and so is its reciprocal.
pub proof fn lemma_scale(s: real) -> (j: real)
    requires
        1real / 8real <= s <= 0x100_0000real,
    ensures
        are_scales(s, j),
        j > 0real,
        2real * s >= 1real ==> j <= 2real,
{
    let j = 1real / s;
    assert(j * s == 1real) by (nonlinear_arith)
        requires
            j == 1real / s,
            s > 0real,
    ;
    assert(s * j == j * s) by (nonlinear_arith);
    assert(j > 0real && j <= 8real) by (nonlinear_arith)
        requires
            j * s == 1real,
            8real * s >= 1real,
    ;
    if 2real * s >= 1real {
        assert(j <= 2real) by (nonlinear_arith)
            requires
                j * s == 1real,
                2real * s >= 1real,
        ;
    }
    assert(j * 0x100_0000real >= 1real) by (nonlinear_arith)
        requires
            j * s == 1real,
            s <= 0x100_0000real,
            j > 0real,
    ;
    j
}

/// The first column.
proof fn lemma_first(
    f: Reduction,
    a: Double,
    b: Double,
    one: Double,
    zero: Double,
    e: Exact,
    x: real,
    l: real,
    i: real,
)
    requires
        is_first(f, a, b, one, zero),
        is_ratio(x),
        are_exact(e, x),
        are_scales(l, i),
        near(a, i, 1real, 0real),
        near(b, i, x, 0real),
        near(one, 1real, 1real, 0real),
        near(zero, 1real, 0real, 0real),
    ensures
        first_near(f, e, x, l, i),
{
    assert(x * 1real == x);
    lemma_over(b, i, x, 0real, a, i, 1real, 0real, 1real, x, 82real / 100real, 1real, 0real);
    let t = product(b, f.x);
    lemma_times(
        b,
        i,
        x,
        0real,
        f.x,
        1real,
        x,
        1real,
        i,
        82real / 100real,
        83real / 100real,
        2real,
    );
    lemma_minus(a, 1real, 0real, t, x * x, 2real, i, 3real);
    lemma_minus(b, x, 0real, t, x * x, 2real, i, 3real);
    lemma_over(one, 1real, 1real, 0real, a, i, 1real, 0real, l, 1real, 1real, 1real, 0real);
    let u = product(b, f.i);
    lemma_times(
        b,
        i,
        x,
        0real,
        f.i,
        l,
        1real,
        1real,
        1real,
        82real / 100real,
        101real / 100real,
        2real,
    );
    lemma_minus(zero, 0real, 0real, u, x, 2real, 1real, 3real);
}

/// The rows that the second column gives, and the first row after it.
proof fn lemma_second(
    f: Reduction,
    one: Double,
    above: Double,
    below: Double,
    e: Exact,
    x: real,
    l: real,
    i: real,
)
    requires
        is_second(f, one, above, below),
        is_ratio(x),
        are_exact(e, x),
        are_scales(l, i),
        first_near(f, e, x, l, i),
        near(one, 1real, 1real, 0real),
        near(above, l, 0real, 0real),
    ensures
        near(f.y, 1real, e.y, 16real),
        near(f.h, l, e.h, 35real),
        near(f.k, l, e.k, 31real),
        near(f.z, 1real, e.y, 17real),
        near(f.p0, l, e.k, 35real),
        near(f.q0, l, e.h, 31real),
{
    lemma_over(
        f.o,
        i,
        e.o,
        3real,
        f.d,
        i,
        e.d,
        3real,
        1real,
        e.y,
        52real / 100real,
        3199real / 10000real,
        15real,
    );
    let g = 0real - x;
    assert(e.h * e.d == g) by {
        let (h, k, d) = (e.h, e.k, e.d);
        assert(h * d == 0real - x * (k * d)) by (nonlinear_arith)
            requires
                h == 0real - x * k,
        ;
        assert(x * 1real == x);
    }
    lemma_over(
        f.m,
        1real,
        g,
        3real,
        f.d,
        i,
        e.d,
        3real,
        l,
        e.h,
        252real / 100real,
        3199real / 10000real,
        34real,
    );
    lemma_over(
        one,
        1real,
        1real,
        0real,
        f.d,
        i,
        e.d,
        3real,
        l,
        e.k,
        306real / 100real,
        3199real / 10000real,
        30real,
    );
    let xy = product(f.x, f.y);
    lemma_times(
        f.x,
        1real,
        x,
        1real,
        f.y,
        1real,
        e.y,
        16real,
        1real,
        82real / 100real,
        53real / 100real,
        15real,
    );
    lemma_minus(f.x, x, 1real, xy, x * e.y, 15real, 1real, 17real);
    let xh = product(f.x, f.h);
    lemma_times(
        f.x,
        1real,
        x,
        1real,
        f.h,
        l,
        e.h,
        35real,
        l,
        82real / 100real,
        253real / 100real,
        33real,
    );
    lemma_minus(f.i, 1real, 1real, xh, x * e.h, 33real, l, 35real);
    let xk = product(f.x, f.k);
    lemma_times(
        f.x,
        1real,
        x,
        1real,
        f.k,
        l,
        e.k,
        31real,
        l,
        82real / 100real,
        307real / 100real,
        30real,
    );
    lemma_minus(above, 0real, 0real, xk, x * e.k, 30real, l, 31real);
}

/// The third row after the second column.
proof fn lemma_second_below(
    f: Reduction,
    one: Double,
    above: Double,
    below: Double,
    e: Exact,
    x: real,
    l: real,
    i: real,
)
    requires
        is_second(f, one, above, below),
        is_ratio(x),
        are_exact(e, x),
        are_scales(l, i),
        first_near(f, e, x, l, i),
        near(f.y, 1real, e.y, 16real),
        near(f.h, l, e.h, 35real),
        near(f.k, l, e.k, 31real),
        near(below, 1real, 0real, 0real),
    ensures
        near(f.w, i, e.w, 14real),
        near(f.p2, 1real, 0real - e.y, 29real),
        near(f.q2, 1real, 0real - e.y, 26real),
{
    let oy = product(f.o, f.y);
    lemma_times(
        f.o,
        i,
        e.o,
        3real,
        f.y,
        1real,
        e.y,
        16real,
        i,
        46real / 100real,
        53real / 100real,
        10real,
    );
    lemma_minus(f.d, e.d, 3real, oy, e.o * e.y, 10real, i, 14real);
    let oh = product(f.o, f.h);
    lemma_times(
        f.o,
        i,
        e.o,
        3real,
        f.h,
        l,
        e.h,
        35real,
        1real,
        46real / 100real,
        253real / 100real,
        25real,
    );
    lemma_minus(f.m, 0real - x, 3real, oh, e.o * e.h, 25real, 1real, 29real);
    let ok = product(f.o, f.k);
    lemma_times(
        f.o,
        i,
        e.o,
        3real,
        f.k,
        l,
        e.k,
        31real,
        1real,
        46real / 100real,
        307real / 100real,
        25real,
    );
    lemma_minus(below, 0real, 0real, ok, e.o * e.k, 25real, 1real, 26real);
}

/// The third column.
proof fn lemma_third(f: Reduction, e: Exact, x: real, l: real, i: real)
    requires
        is_third(f),
        is_ratio(x),
        are_exact(e, x),
        are_scales(l, i),
        second_near(f, e, l, i),
    ensures
        near(f.s0, l, e.s, 180real),
        near(f.s1, l, e.p, 180real),
        f.pp.is_finite(),
        f.qq.is_finite(),
{
    lemma_over(
        f.p2,
        1real,
        0real - e.y,
        29real,
        f.w,
        i,
        e.w,
        14real,
        l,
        e.p,
        18real / 10real,
        2599real / 10000real,
        209real,
    );
    lemma_over(
        f.q2,
        1real,
        0real - e.y,
        26real,
        f.w,
        i,
        e.w,
        14real,
        l,
        e.p,
        18real / 10real,
        2599real / 10000real,
        198real,
    );
    let u = product(f.z, f.pp);
    lemma_times(
        f.z,
        1real,
        e.y,
        17real,
        f.pp,
        l,
        e.p,
        210real,
        l,
        52real / 100real,
        181real / 100real,
        142real,
    );
    lemma_minus(f.p0, e.k, 35real, u, e.y * e.p, 142real, l, 180real);
    let v = product(f.z, f.qq);
    lemma_times(
        f.z,
        1real,
        e.y,
        17real,
        f.qq,
        l,
        e.p,
        199real,
        l,
        52real / 100real,
        181real / 100real,
        136real,
    );
    lemma_minus(f.q0, e.h, 31real, v, e.y * e.p, 136real, l, 180real);
}

/// A number of a quarter in the scale of the matrix is an eighth at least.
proof fn lemma_eighth(d: Double, i: real)
    requires
        d.is_finite(),
        0real < i <= 2real,
        4real * scaled_to(d, i) >= 1real,
    ensures
        8real * size(worth(d)) >= 1real,
{
    let w = worth(d);
    assert(8real * w >= 1real) by (nonlinear_arith)
        requires
            4real * (i * w) >= 1real,
            0real < i <= 2real,
    ;
}

/// What is larger in a scale is larger.
proof fn lemma_outweighs(p: Double, q: Double, i: real)
    requires
        i > 0real,
        size(scaled_to(p, i)) < scaled_to(q, i),
    ensures
        size(worth(p)) < size(worth(q)),
{
    let (u, v) = (worth(p), worth(q));
    assert(u < v) by (nonlinear_arith)
        requires
            i * u < i * v,
            i > 0real,
    ;
    assert(0real - u < v) by (nonlinear_arith)
        requires
            0real - i * u < i * v,
            i > 0real,
    ;
}

/// What the numbers of the elimination are near, and that the rows in their places lead.
pub proof fn lemma_reduction(
    f: Reduction,
    a: Double,
    b: Double,
    one: Double,
    zero: Double,
    above: Double,
    below: Double,
    e: Exact,
    x: real,
    l: real,
    i: real,
)
    requires
        is_first(f, a, b, one, zero),
        is_second(f, one, above, below),
        is_third(f),
        is_ratio(x),
        are_exact(e, x),
        are_scales(l, i),
        i <= 2real,
        near(a, i, 1real, 0real),
        near(b, i, x, 0real),
        near(one, 1real, 1real, 0real),
        is_zero(zero),
        is_zero(above),
        is_zero(below),
    ensures
        near(f.s0, l, e.s, 180real),
        near(f.s1, l, e.p, 180real),
        first_near(f, e, x, l, i),
        second_near(f, e, l, i),
        f.pp.is_finite(),
        f.qq.is_finite(),
        size(worth(b)) < size(worth(a)),
        size(worth(f.o)) < size(worth(f.d)),
        8real * size(worth(a)) >= 1real,
        8real * size(worth(f.d)) >= 1real,
        8real * size(worth(f.w)) >= 1real,
{
    zero_stays(zero, one);
    zero_stays(above, one);
    zero_stays(below, one);
    assert(l * 0real == 0real);
    lemma_first(f, a, b, one, zero, e, x, l, i);
    lemma_second(f, one, above, below, e, x, l, i);
    lemma_second_below(f, one, above, below, e, x, l, i);
    lemma_third(f, e, x, l, i);
    assert(1real + x - 2real * (x * x) >= 4real / 10real) by (nonlinear_arith)
        requires
            50real * x <= 41real,
            50real * x >= 0real - 17real,
    ;
    lemma_outweighs(b, a, i);
    lemma_outweighs(f.o, f.d, i);
    lemma_eighth(a, i);
    lemma_eighth(f.d, i);
    lemma_eighth(f.w, i);
}

/// The other entries of the inverse: those of the second row, of the third, and of the third
/// column. The two zeros are those that stood in the third column.
pub proof fn lemma_rest(
    f: Reduction,
    one: Double,
    zero0: Double,
    zero1: Double,
    e: Exact,
    x: real,
    l: real,
    i: real,
)
    requires
        is_third(f),
        is_ratio(x),
        are_exact(e, x),
        are_scales(l, i),
        second_near(f, e, l, i),
        near(one, 1real, 1real, 0real),
        is_zero(zero0),
        is_zero(zero1),
    ensures
        near(f.pp, l, e.p, 210real),
        near(f.qq, l, e.p, 199real),
        near(quotient(one, f.w), l, e.s, 212real),
        near(difference(zero0, product(f.z, quotient(one, f.w))), l, e.p, 179real),
        near(difference(f.h, product(f.y, f.pp)), l, e.p, 180real),
        near(difference(f.k, product(f.y, f.qq)), l, e.s, 180real),
        near(difference(zero1, product(f.y, quotient(one, f.w))), l, e.p, 180real),
{
    zero_stays(zero0, one);
    zero_stays(zero1, one);
    assert(l * 0real == 0real);
    let (y, p, w, t) = (e.y, e.p, e.w, e.s);
    assert(0real - y * t == p) by {
        assert((p * w) * t == p * (w * t)) by (nonlinear_arith);
        assert((0real - y) * t == 0real - y * t) by (nonlinear_arith);
        assert(p * 1real == p);
    }
    assert(t * w == 1real) by (nonlinear_arith)
        requires
            w * t == 1real,
    ;
    lemma_over(
        f.p2,
        1real,
        0real - e.y,
        29real,
        f.w,
        i,
        e.w,
        14real,
        l,
        e.p,
        18real / 10real,
        2599real / 10000real,
        209real,
    );
    lemma_over(
        f.q2,
        1real,
        0real - e.y,
        26real,
        f.w,
        i,
        e.w,
        14real,
        l,
        e.p,
        18real / 10real,
        2599real / 10000real,
        198real,
    );
    lemma_over(
        one,
        1real,
        1real,
        0real,
        f.w,
        i,
        e.w,
        14real,
        l,
        e.s,
        39real / 10real,
        2599real / 10000real,
        211real,
    );
    let n = quotient(one, f.w);
    lemma_times(
        f.z,
        1real,
        e.y,
        17real,
        n,
        l,
        e.s,
        212real,
        l,
        52real / 100real,
        391real / 100real,
        178real,
    );
    lemma_minus(zero0, 0real, 0real, product(f.z, n), y * t, 178real, l, 179real);
    lemma_times(
        f.y,
        1real,
        e.y,
        16real,
        f.pp,
        l,
        e.p,
        210real,
        l,
        52real / 100real,
        181real / 100real,
        140real,
    );
    lemma_minus(f.h, e.h, 35real, product(f.y, f.pp), y * p, 140real, l, 180real);
    lemma_times(
        f.y,
        1real,
        e.y,
        16real,
        f.qq,
        l,
        e.p,
        199real,
        l,
        52real / 100real,
        181real / 100real,
        134real,
    );
    lemma_minus(f.k, e.k, 31real, product(f.y, f.qq), y * p, 134real, l, 180real);
    lemma_times(
        f.y,
        1real,
        e.y,
        16real,
        n,
        l,
        e.s,
        212real,
        l,
        52real / 100real,
        391real / 100real,
        174real,
    );
    lemma_minus(zero1, 0real, 0real, product(f.y, n), y * t, 174real, l, 180real);
}

} // verus!
