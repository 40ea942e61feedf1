//! How far one step of the elimination leads from the exact one, entry by entry.
use crate::arithmetic::{difference, product, quotient};
use crate::double::Double;
use crate::formula::{lemma_over_times, real_over, real_times};
use crate::postproc::isotropic::is_scale;
use crate::rounding::{
    difference_rounds, lemma_unit, limit, part, product_rounds, quotient_rounds, rounds, size,
    unit, worth,
};
use vstd::prelude::*;

verus! {

/// The size of a product.
pub proof fn lemma_size_times(x: real, y: real)
    ensures
        size(x * y) == size(x) * size(y),
{
    let (s, t) = (size(x), size(y));
    assert(size(x * y) == s * t) by (nonlinear_arith)
        requires
            s == size(x),
            t == size(y),
    ;
}

/// A larger factor gives a larger product.
pub proof fn lemma_grows(x: real, a: real, b: real)
    requires
        a <= b,
        x >= 0real,
    ensures
        x * a <= x * b,
{
    assert(x * a <= x * b) by (nonlinear_arith)
        requires
            a <= b,
            x >= 0real,
    ;
}

/// From a rounding to an error in the given scale.
pub proof fn lemma_scaled_rounding(d: Double, x: real, l: real, b: real)
    requires
        rounds(d, x),
        is_scale(l),
        l * size(x) <= b,
        b >= 1real,
    ensures
        l * size(worth(d) - x) <= 1001real / 1000real * (b * part()),
{
    lemma_unit();
    let big = unit();
    let i = 1real / big;
    let tiny = 1real / 0x10_0000_0000_0000_0000_0000_0000real;
    assert(i <= tiny && i > 0real) by (nonlinear_arith)
        requires
            i == 1real / big,
            big >= 0x10_0000_0000_0000_0000_0000_0000real,
            tiny == 1real / 0x10_0000_0000_0000_0000_0000_0000real,
    ;
    let (a, e, q) = (size(x), size(worth(d) - x), part());
    lemma_grows(l, e, a * q + i);
    assert(l * (a * q + i) == (l * a) * q + l * i) by (nonlinear_arith);
    assert((l * a) * q <= b * q) by (nonlinear_arith)
        requires
            l * a <= b,
            q > 0real,
    ;
    assert(l * i <= 0x100_0000real * tiny) by (nonlinear_arith)
        requires
            0real < l <= 0x100_0000real,
            0real < i <= tiny,
    ;
    assert(1real * q <= b * q) by (nonlinear_arith)
        requires
            1real <= b,
            q > 0real,
    ;
}

/// A number is below the limit where it is at most 2^26 in a scale.
pub proof fn lemma_scaled_limit(x: real, l: real, b: real)
    requires
        is_scale(l),
        l * size(x) <= b,
        0real <= b <= 0x400_0000real,
    ensures
        size(x) <= limit(),
{
    let a = size(x);
    assert(a <= b * 0x100_0000real) by (nonlinear_arith)
        requires
            l * a <= b,
            l * 0x100_0000real >= 1real,
            a >= 0real,
            l > 0real,
            b >= 0real,
    ;
}

/// An entry of the row that is taken, divided by the pivot.
pub proof fn lemma_quotient_entry(y: Double, p: Double, l: real, b: real)
    requires
        y.is_finite(),
        p.is_finite(),
        p.magnitude() > 0,
        is_scale(l),
        l * size(real_over(worth(y), worth(p))) <= b,
        1real <= b <= 0x200_0000real,
    ensures
        rounds(quotient(y, p), real_over(worth(y), worth(p))),
        l * size(worth(quotient(y, p)) - real_over(worth(y), worth(p))) <= 1001real / 1000real * (b
            * part()),
{
    let t = real_over(worth(y), worth(p));
    lemma_scaled_limit(t, l, b);
    assert(t == worth(y) / worth(p)) by {
        reveal(real_over);
    }
    quotient_rounds(y, p);
    lemma_scaled_rounding(quotient(y, p), t, l, b);
}

/// What becomes of the error of a factor.
proof fn lemma_factor_error(f: real, q: real, t: real, l: real, b: real)
    requires
        l >= 0real,
        l * size(q - t) <= b,
    ensures
        l * size(f * q - f * t) <= size(f) * b,
{
    let e = q - t;
    assert(f * q - f * t == f * e) by (nonlinear_arith)
        requires
            e == q - t,
    ;
    lemma_size_times(f, e);
    let (s, u) = (size(f), size(e));
    assert(l * (s * u) == s * (l * u)) by (nonlinear_arith);
    lemma_grows(s, l * u, b);
}

/// The last two operations of an entry: a product that is known up to an error `e`, and what is
/// left when it is taken away.
proof fn lemma_taken_away(
    x: Double,
    f: Double,
    q: Double,
    w: real,
    l: real,
    z: real,
    b: real,
    e: real,
)
    requires
        x.is_finite(),
        f.is_finite(),
        q.is_finite(),
        is_scale(l),
        l * size(worth(x)) <= z,
        l * size(w) <= b,
        l * size(worth(f) * worth(q) - w) <= e,
        0real <= e <= b / 1000real,
        b >= 1real,
        0real <= z <= 0x80_0000real,
        b <= 0x80_0000real,
    ensures
        difference(x, product(f, q)).is_finite(),
        l * size(worth(difference(x, product(f, q))) - (worth(x) - w)) <= e + (2006real / 1000real
            * b + 1001real / 1000real * z) * part(),
{
    let t = product(f, q);
    let (wf, wq, wx) = (worth(f), worth(q), worth(x));
    let u = wf * wq;
    let c = 1001real / 1000real * b;
    let q0 = part();
    lemma_triangle(l, u, w, u - w);
    lemma_scaled_limit(u, l, c);
    product_rounds(f, q);
    lemma_scaled_rounding(t, u, l, c);
    let wt = worth(t);
    let g = z + 1002real / 1000real * b;
    lemma_triangle(l, wt, u, wt - u);
    lemma_triangle(l, wx - wt, wx, 0real - wt);
    assert(size(0real - wt) == size(wt));
    lemma_scaled_limit(wx - wt, l, g);
    difference_rounds(x, t);
    let d = difference(x, t);
    lemma_scaled_rounding(d, wx - wt, l, g);
    let wd = worth(d);
    // The three errors together.
    lemma_triangle(l, wd - (wx - w), wd - (wx - wt), w - wt);
    lemma_triangle(l, w - wt, u - wt, w - u);
    assert(size(u - wt) == size(wt - u) && size(w - u) == size(u - w));
    assert(c * q0 == 1001real / 1000real * (b * q0)) by (nonlinear_arith)
        requires
            c == 1001real / 1000real * b,
    ;
    assert(g * q0 == z * q0 + 1002real / 1000real * (b * q0)) by (nonlinear_arith)
        requires
            g == z + 1002real / 1000real * b,
    ;
    let h = 2006real / 1000real * b + 1001real / 1000real * z;
    assert(h * q0 == 2006real / 1000real * (b * q0) + 1001real / 1000real * (z * q0))
        by (nonlinear_arith)
        requires
            h == 2006real / 1000real * b + 1001real / 1000real * z,
    ;
    let (bq, zq) = (b * q0, z * q0);
    assert(bq >= 0real) by (nonlinear_arith)
        requires
            bq == b * q0,
            b >= 1real,
            q0 > 0real,
    ;
}

/// The size of a sum, in a scale.
proof fn lemma_triangle(l: real, s: real, x: real, y: real)
    requires
        s == x + y,
        l >= 0real,
    ensures
        l * size(s) <= l * size(x) + l * size(y),
{
    lemma_grows(l, size(s), size(x) + size(y));
    let (a, b) = (size(x), size(y));
    assert(l * (a + b) == l * a + l * b) by (nonlinear_arith);
}

/// An entry of a row whose factor is no larger than the pivot.
pub proof fn lemma_lower_entry(x: Double, f: Double, y: Double, p: Double, l: real, b: real)
    requires
        x.is_finite(),
        f.is_finite(),
        p.magnitude() > 0,
        worth(p) != 0real,
        is_scale(l),
        l * size(worth(x)) <= b,
        l * size(worth(y)) <= b,
        size(worth(f)) <= size(worth(p)),
        l * size(worth(f)) <= 0x100_0000_0000real,
        1real <= b <= 0x40_0000real,
        rounds(quotient(y, p), real_over(worth(y), worth(p))),
    ensures
        ({
            let d = difference(x, product(f, quotient(y, p)));
            let w = worth(f) * real_over(worth(y), worth(p));
            &&& d.is_finite()
            &&& l * size(w) <= b
            &&& l * size(worth(d) - (worth(x) - w)) <= 41real / 10real * (b * part())
        }),
{
    let q = quotient(y, p);
    let (wf, wy, wp, wq) = (worth(f), worth(y), worth(p), worth(q));
    let t = real_over(wy, wp);
    let w = wf * t;
    let v = part();
    // The product is no larger than the entry of the row that is taken.
    assert(t * wp == wy) by {
        lemma_over_times(wy, wp);
        reveal(real_times);
    }
    lemma_size_times(t, wp);
    lemma_size_times(wf, t);
    let (sf, st, sp) = (size(wf), size(t), size(wp));
    lemma_grows(st, sf, sp);
    assert(st * sf == sf * st && st * sp == sp * st) by (nonlinear_arith);
    assert(size(w) <= size(wy));
    lemma_grows(l, size(w), size(wy));
    // The error of the quotient.
    lemma_unit();
    let big = unit();
    let i = 1real / big;
    let tiny = 1real / 0x10_0000_0000_0000_0000_0000_0000real;
    assert(i <= tiny && i > 0real) by (nonlinear_arith)
        requires
            i == 1real / big,
            big >= 0x10_0000_0000_0000_0000_0000_0000real,
            tiny == 1real / 0x10_0000_0000_0000_0000_0000_0000real,
    ;
    let e1 = size(wq - t);
    assert(e1 <= st * v + i);
    let lf = l * sf;
    let e = 101real / 100real * (b * v);
    lemma_factor_error(wf, wq, t, 1real, e1);
    assert(1real * size(wq - t) == e1);
    assert(size(wf * wq - w) <= sf * e1);
    lemma_grows(sf, e1, st * v + i);
    assert(sf * (st * v + i) == (sf * st) * v + sf * i) by (nonlinear_arith);
    let sw = size(w);
    assert(size(wf * wq - w) <= sw * v + sf * i);
    lemma_grows(l, size(wf * wq - w), sw * v + sf * i);
    assert(l * (sw * v + sf * i) == (l * sw) * v + lf * i) by (nonlinear_arith)
        requires
            lf == l * sf,
    ;
    let lw = l * sw;
    assert(lw * v <= b * v) by (nonlinear_arith)
        requires
            lw <= b,
            v > 0real,
    ;
    assert(lf * i <= 0x100_0000_0000real * tiny) by (nonlinear_arith)
        requires
            lf <= 0x100_0000_0000real,
            0real < i <= tiny,
    ;
    let bv = b * v;
    assert(v <= bv && bv <= b / 1000_000real) by (nonlinear_arith)
        requires
            bv == b * v,
            b >= 1real,
            v > 0real,
            v <= 1real / 1000_000real,
    ;
    lemma_taken_away(x, f, q, w, l, b, b, e);
    let h = 2006real / 1000real * b + 1001real / 1000real * b;
    assert(h * v == 3007real / 1000real * bv) by (nonlinear_arith)
        requires
            h == 2006real / 1000real * b + 1001real / 1000real * b,
            bv == b * v,
    ;
}

/// An entry of a row above.
pub proof fn lemma_upper_entry(
    x: Double,
    f: Double,
    q: Double,
    t: real,
    l: real,
    c: real,
    b: real,
    z: real,
    cb: real,
)
    requires
        x.is_finite(),
        f.is_finite(),
        q.is_finite(),
        is_scale(l),
        size(worth(f)) <= c,
        l * size(t) <= b,
        l * size(worth(q) - t) <= 1001real / 1000real * (b * part()),
        l * size(worth(x)) <= z,
        cb == c * b,
        b >= 1real,
        cb >= 1real,
        cb <= 0x40_0000real,
        0real <= z <= 0x40_0000real,
    ensures
        ({
            let d = difference(x, product(f, q));
            let w = worth(f) * t;
            &&& d.is_finite()
            &&& l * size(w) <= cb
            &&& l * size(worth(d) - (worth(x) - w)) <= (31real / 10real * cb + 11real / 10real * z)
                * part()
        }),
{
    let (wf, wq) = (worth(f), worth(q));
    let w = wf * t;
    let v = part();
    let bv = b * v;
    let sf = size(wf);
    lemma_size_times(wf, t);
    let st = size(t);
    assert(l * (sf * st) == sf * (l * st)) by (nonlinear_arith);
    lemma_grows(sf, l * st, b);
    assert(sf * b <= c * b) by (nonlinear_arith)
        requires
            sf <= c,
            b >= 1real,
    ;
    lemma_factor_error(wf, wq, t, l, 1001real / 1000real * bv);
    assert(bv >= 0real) by (nonlinear_arith)
        requires
            bv == b * v,
            b >= 1real,
            v > 0real,
    ;
    let g = 1001real / 1000real * bv;
    assert(sf * g <= c * g) by (nonlinear_arith)
        requires
            sf <= c,
            g >= 0real,
    ;
    let cv = cb * v;
    assert(c * g == 1001real / 1000real * cv) by (nonlinear_arith)
        requires
            g == 1001real / 1000real * (b * v),
            cv == (c * b) * v,
    ;
    let e = 1001real / 1000real * cv;
    assert(0real <= cv && cv <= cb / 1000_000real) by (nonlinear_arith)
        requires
            cv == cb * v,
            cb >= 1real,
            v > 0real,
            v <= 1real / 1000_000real,
    ;
    lemma_taken_away(x, f, q, w, l, z, cb, e);
    let h = 2006real / 1000real * cb + 1001real / 1000real * z;
    let zv = z * v;
    assert(zv >= 0real) by (nonlinear_arith)
        requires
            zv == z * v,
            z >= 0real,
            v > 0real,
    ;
    assert(h * v == 2006real / 1000real * cv + 1001real / 1000real * zv) by (nonlinear_arith)
        requires
            h == 2006real / 1000real * cb + 1001real / 1000real * z,
            cv == cb * v,
            zv == z * v,
    ;
    let k = 31real / 10real * cb + 11real / 10real * z;
    assert(k * v == 31real / 10real * cv + 11real / 10real * zv) by (nonlinear_arith)
        requires
            k == 31real / 10real * cb + 11real / 10real * z,
            cv == cb * v,
            zv == z * v,
    ;
}

} // verus!
