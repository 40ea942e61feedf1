//! Numbers that are near exact ones, and how near the results of operations on them are.
use crate::arithmetic::{difference, product, quotient, sum};
use crate::double::Double;
use crate::formula::real_over;
use crate::postproc::isotropic::{
    is_scale, lemma_difference_slip, lemma_product_error, lemma_product_slip, lemma_quotient_error,
    lemma_quotient_slip, lemma_sum_slip, scaled_to, slip,
};
use crate::rounding::{size, worth, zero_stays};
use vstd::prelude::*;

verus! {

proof fn lemma_distributes(a: real, b: real, v: real)
    ensures
        (a + b) * v == a * v + b * v,
{
    assert((a + b) * v == a * v + b * v) by (nonlinear_arith);
}

proof fn lemma_monotone(a: real, b: real, v: real)
    requires
        a <= b,
        v >= 0real,
    ensures
        a * v <= b * v,
{
    assert(a * v <= b * v) by (nonlinear_arith)
        requires
            a <= b,
            v >= 0real,
    ;
}

/// Whether a number in its scale is within `e` slips of `x`.
pub open spec fn near(d: Double, l: real, x: real, e: real) -> bool {
    d.is_finite() && size(scaled_to(d, l) - x) <= e * slip()
}

/// The difference of two numbers that are near `x` and `y`.
pub proof fn lemma_minus(
    a: Double,
    x: real,
    ea: real,
    b: Double,
    y: real,
    eb: real,
    l: real,
    e: real,
)
    requires
        near(a, l, x, ea),
        near(b, l, y, eb),
        is_scale(l),
        size(x - y) + (ea + eb) * slip() <= 4real,
        ea + eb + 1real <= e,
    ensures
        near(difference(a, b), l, x - y, e),
{
    let v = slip();
    lemma_distributes(ea, eb, v);
    lemma_distributes(ea + eb, 1real, v);
    lemma_monotone(ea + eb + 1real, e, v);
    lemma_difference_slip(a, b, l);
}

/// The sum of two numbers that are near `x` and `y`.
pub proof fn lemma_plus(
    a: Double,
    x: real,
    ea: real,
    b: Double,
    y: real,
    eb: real,
    l: real,
    e: real,
)
    requires
        near(a, l, x, ea),
        near(b, l, y, eb),
        is_scale(l),
        size(x + y) + (ea + eb) * slip() <= 4real,
        ea + eb + 1real <= e,
    ensures
        near(sum(a, b), l, x + y, e),
{
    let v = slip();
    lemma_distributes(ea, eb, v);
    lemma_distributes(ea + eb, 1real, v);
    lemma_monotone(ea + eb + 1real, e, v);
    lemma_sum_slip(a, b, l);
}

/// The error of a product in slips.
proof fn lemma_slips(ea: real, top: real, bound: real, eb: real, v: real, e: real)
    requires
        ea * top + bound * eb + 1real <= e,
        v >= 0real,
    ensures
        (ea * v) * top + bound * (eb * v) + v <= e * v,
{
    let (p, q) = (ea * top, bound * eb);
    assert((ea * v) * top == (ea * top) * v) by (nonlinear_arith);
    assert(bound * (eb * v) == (bound * eb) * v) by (nonlinear_arith);
    lemma_distributes(p, q, v);
    lemma_distributes(p + q, 1real, v);
    lemma_monotone(p + q + 1real, e, v);
}

/// The product of two numbers that are near `x` and `y`, of which the second is below `top`.
pub proof fn lemma_times(
    a: Double,
    la: real,
    x: real,
    ea: real,
    b: Double,
    lb: real,
    y: real,
    eb: real,
    l: real,
    bound: real,
    top: real,
    e: real,
)
    requires
        near(a, la, x, ea),
        near(b, lb, y, eb),
        l == la * lb,
        is_scale(l),
        size(x) <= bound,
        size(y) + eb * slip() <= top,
        (bound + ea * slip()) * top <= 4real,
        ea * top + bound * eb + 1real <= e,
    ensures
        near(product(a, b), l, x * y, e),
{
    let p = scaled_to(a, la);
    let q = scaled_to(b, lb);
    let v = slip();
    let (ex, ey) = (ea * v, eb * v);
    lemma_product_error(p, x, ex, q, y, ey, bound, top);
    lemma_product_slip(a, la, b, lb, l);
    lemma_slips(ea, top, bound, eb, v, e);
}

/// A number that is near a positive one is positive.
pub proof fn lemma_positive(b: Double, lb: real, y: real, eb: real, low: real)
    requires
        near(b, lb, y, eb),
        lb > 0real,
        low > 0real,
        y - eb * slip() >= low,
    ensures
        scaled_to(b, lb) >= low,
        worth(b) > 0real,
        b.magnitude() > 0,
{
    let w = worth(b);
    if w <= 0real {
        assert(lb * w <= 0real) by (nonlinear_arith)
            requires
                lb > 0real,
                w <= 0real,
        ;
    }
    if b.magnitude() == 0 {
        zero_stays(b, b);
    }
}

/// The error of a quotient in slips.
proof fn lemma_slips_over(ea: real, bound: real, eb: real, c: real, low: real, v: real)
    requires
        ea + bound * eb <= c * low,
        v >= 0real,
    ensures
        ea * v + bound * (eb * v) <= (c * v) * low,
{
    let (p, q) = (bound * eb, c * low);
    assert(bound * (eb * v) == (bound * eb) * v) by (nonlinear_arith);
    assert((c * low) * v == (c * v) * low) by (nonlinear_arith);
    lemma_distributes(ea, p, v);
    lemma_monotone(ea + p, q, v);
}

proof fn lemma_ratio_error(
    x: real,
    x0: real,
    ex: real,
    y: real,
    y0: real,
    ey: real,
    q0: real,
    bq: real,
    low: real,
    e: real,
)
    requires
        size(x - x0) <= ex,
        size(y - y0) <= ey,
        q0 * y0 == x0,
        size(q0) <= bq,
        low > 0real,
        y >= low,
        ex + bq * ey <= e * low,
    ensures
        size(real_over(x, y) - q0) <= e,
{
    reveal(real_over);
    lemma_quotient_error(x, x0, ex, y, y0, ey, q0, bq, low, e);
}

proof fn lemma_ratio_slip(a: Double, la: real, b: Double, lb: real, l: real)
    requires
        a.is_finite(),
        b.is_finite(),
        b.magnitude() > 0,
        worth(b) > 0real,
        lb > 0real,
        l * lb == la,
        is_scale(l),
        size(real_over(scaled_to(a, la), scaled_to(b, lb))) <= 4real,
    ensures
        quotient(a, b).is_finite(),
        size(
            scaled_to(quotient(a, b), l) - real_over(scaled_to(a, la), scaled_to(b, lb)),
        ) <= slip(),
{
    reveal(real_over);
    lemma_quotient_slip(a, la, b, lb, l);
}

/// The quotient of two numbers that are near `q * y` and `y`, of which the second is above `low`.
pub proof fn lemma_over(
    a: Double,
    la: real,
    x: real,
    ea: real,
    b: Double,
    lb: real,
    y: real,
    eb: real,
    l: real,
    q: real,
    bound: real,
    low: real,
    c: real,
)
    requires
        near(a, la, x, ea),
        near(b, lb, y, eb),
        lb > 0real,
        l * lb == la,
        is_scale(l),
        q * y == x,
        size(q) <= bound,
        low > 0real,
        y - eb * slip() >= low,
        ea + bound * eb <= c * low,
        bound + c * slip() <= 4real,
    ensures
        near(quotient(a, b), l, q, c + 1real),
        b.magnitude() > 0,
        worth(b) > 0real,
{
    let m = scaled_to(a, la);
    let n = scaled_to(b, lb);
    let r = real_over(m, n);
    let v = slip();
    let f = c * v;
    lemma_positive(b, lb, y, eb, low);
    lemma_slips_over(ea, bound, eb, c, low, v);
    lemma_ratio_error(m, x, ea * v, n, y, eb * v, q, bound, low, f);
    assert(size(r) <= 4real);
    lemma_ratio_slip(a, la, b, lb, l);
    lemma_distributes(c, 1real, v);
}

} // verus!
