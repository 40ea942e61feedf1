//! How errors of rounding go on, and the exact numbers of the elimination of the stiffness of an
//! isotropic material.
use crate::arithmetic::{difference, product, quotient, sum};
use crate::double::Double;
use crate::rounding::{
    difference_rounds, lemma_unit, limit, part, product_rounds, quotient_rounds, rounds, size,
    sum_rounds, unit, worth,
};
use vstd::prelude::*;

verus! {

/// How far one operation leads from its exact result, where that is four at most: 2^-49.
pub open spec fn slip() -> real {
    1real / 0x2_0000_0000_0000real
}

/// A number in a scale of its own.
pub open spec fn scaled_to(d: Double, l: real) -> real {
    l * worth(d)
}

/// Whether a scale is neither too small nor too large.
pub open spec fn is_scale(l: real) -> bool {
    l > 0real && l <= 0x100_0000real && l * 0x100_0000real >= 1real
}

/// From a rounding to a slip, in the given scale.
proof fn lemma_slip(d: Double, x: real, l: real)
    requires
        rounds(d, x),
        is_scale(l),
        size(l * x) <= 4real,
    ensures
        size(scaled_to(d, l) - l * x) <= slip(),
{
    lemma_unit();
    let big = unit();
    let w = worth(d);
    let i = 1real / big;
    let tiny = 1real / 0x10_0000_0000_0000_0000_0000_0000real;
    assert(i <= tiny && i > 0real) by (nonlinear_arith)
        requires
            i == 1real / big,
            big >= 0x10_0000_0000_0000_0000_0000_0000real,
            tiny == 1real / 0x10_0000_0000_0000_0000_0000_0000real,
    ;
    let a = size(x);
    assert(size(l * x) == l * a) by (nonlinear_arith)
        requires
            a == size(x),
            l > 0real,
    ;
    let e = size(w - x);
    assert(size(l * w - l * x) == l * e) by (nonlinear_arith)
        requires
            e == size(w - x),
            l > 0real,
    ;
    let q = part();
    assert(l * e <= (l * a) * q + l * i) by (nonlinear_arith)
        requires
            e <= a * q + i,
            l > 0real,
    ;
    assert(l * i <= 0x100_0000real * tiny) by (nonlinear_arith)
        requires
            0real < l <= 0x100_0000real,
            0real < i <= tiny,
    ;
    assert((l * a) * q <= 4real * q) by (nonlinear_arith)
        requires
            l * a <= 4real,
            q > 0real,
    ;
}

/// The exact result is below the limit where its scaled form is four at most.
proof fn lemma_below_limit(x: real, l: real)
    requires
        is_scale(l),
        size(l * x) <= 4real,
    ensures
        size(x) <= limit(),
{
    let a = size(x);
    assert(l * a <= 4real) by (nonlinear_arith)
        requires
            a == size(x),
            size(l * x) <= 4real,
            l > 0real,
    ;
    assert(a <= 4real * 0x100_0000real) by (nonlinear_arith)
        requires
            l * a <= 4real,
            l * 0x100_0000real >= 1real,
            a >= 0real,
            l > 0real,
    ;
}

pub proof fn lemma_product_slip(a: Double, la: real, b: Double, lb: real, l: real)
    requires
        a.is_finite(),
        b.is_finite(),
        l == la * lb,
        is_scale(l),
        size(scaled_to(a, la) * scaled_to(b, lb)) <= 4real,
    ensures
        product(a, b).is_finite(),
        size(scaled_to(product(a, b), l) - scaled_to(a, la) * scaled_to(b, lb)) <= slip(),
{
    let (x, y) = (worth(a), worth(b));
    assert(l * (x * y) == (la * x) * (lb * y)) by (nonlinear_arith)
        requires
            l == la * lb,
    ;
    lemma_below_limit(x * y, l);
    product_rounds(a, b);
    lemma_slip(product(a, b), x * y, l);
}

pub proof fn lemma_quotient_slip(a: Double, la: real, b: Double, lb: real, l: real)
    requires
        a.is_finite(),
        b.is_finite(),
        b.magnitude() > 0,
        worth(b) != 0real,
        lb > 0real,
        l * lb == la,
        is_scale(l),
        size(scaled_to(a, la) / scaled_to(b, lb)) <= 4real,
    ensures
        quotient(a, b).is_finite(),
        size(scaled_to(quotient(a, b), l) - scaled_to(a, la) / scaled_to(b, lb)) <= slip(),
{
    let (x, y) = (worth(a), worth(b));
    let q = x / y;
    assert(q * y == x) by (nonlinear_arith)
        requires
            q == x / y,
            y != 0real,
    ;
    let n = lb * y;
    assert(n != 0real) by (nonlinear_arith)
        requires
            n == lb * y,
            lb > 0real,
            y != 0real,
    ;
    assert((l * q) * n == la * x) by (nonlinear_arith)
        requires
            n == lb * y,
            l * lb == la,
            q * y == x,
    ;
    let m = la * x;
    assert(m / n == l * q) by (nonlinear_arith)
        requires
            (l * q) * n == m,
            n != 0real,
    ;
    lemma_below_limit(q, l);
    quotient_rounds(a, b);
    lemma_slip(quotient(a, b), q, l);
}

pub proof fn lemma_difference_slip(a: Double, b: Double, l: real)
    requires
        a.is_finite(),
        b.is_finite(),
        is_scale(l),
        size(scaled_to(a, l) - scaled_to(b, l)) <= 4real,
    ensures
        difference(a, b).is_finite(),
        size(scaled_to(difference(a, b), l) - (scaled_to(a, l) - scaled_to(b, l))) <= slip(),
{
    let (x, y) = (worth(a), worth(b));
    assert(l * (x - y) == l * x - l * y) by (nonlinear_arith);
    lemma_below_limit(x - y, l);
    difference_rounds(a, b);
    lemma_slip(difference(a, b), x - y, l);
}

pub proof fn lemma_sum_slip(a: Double, b: Double, l: real)
    requires
        a.is_finite(),
        b.is_finite(),
        is_scale(l),
        size(scaled_to(a, l) + scaled_to(b, l)) <= 4real,
    ensures
        sum(a, b).is_finite(),
        size(scaled_to(sum(a, b), l) - (scaled_to(a, l) + scaled_to(b, l))) <= slip(),
{
    let (x, y) = (worth(a), worth(b));
    assert(l * (x + y) == l * x + l * y) by (nonlinear_arith);
    lemma_below_limit(x + y, l);
    sum_rounds(a, b);
    lemma_slip(sum(a, b), x + y, l);
}

/// The error of a product of two numbers that are known up to an error.
pub proof fn lemma_product_error(
    x: real,
    x0: real,
    ex: real,
    y: real,
    y0: real,
    ey: real,
    bx: real,
    by_: real,
)
    requires
        size(x - x0) <= ex,
        size(y - y0) <= ey,
        size(x0) <= bx,
        size(y) <= by_,
    ensures
        size(x * y - x0 * y0) <= ex * by_ + bx * ey,
        size(x * y) <= (bx + ex) * by_,
{
    let (p, q) = (x - x0, y - y0);
    assert(x * y - x0 * y0 == p * y + x0 * q) by (nonlinear_arith)
        requires
            p == x - x0,
            q == y - y0,
    ;
    lemma_size_product(p, y, ex, by_);
    lemma_size_product(x0, q, bx, ey);
    lemma_size_product(x, y, bx + ex, by_);
}

pub proof fn lemma_size_product(p: real, y: real, a: real, b: real)
    requires
        size(p) <= a,
        size(y) <= b,
    ensures
        size(p * y) <= a * b,
{
    let (s, t) = (size(p), size(y));
    assert(size(p * y) == s * t) by (nonlinear_arith)
        requires
            s == size(p),
            t == size(y),
    ;
    assert(s * t <= a * b) by (nonlinear_arith)
        requires
            0real <= s <= a,
            0real <= t <= b,
    ;
}

/// The error of a quotient of two numbers that are known up to an error: `y` is at least `low`, and
/// the exact quotient is `q0`.
pub proof fn lemma_quotient_error(
    x: real,
    x0: real,
    ex: real,
    y: real,
    y0: real,
    ey: real,
    q0: real,
    bq: real,
    low: real,
    e: real,
)
    requires
        size(x - x0) <= ex,
        size(y - y0) <= ey,
        q0 * y0 == x0,
        size(q0) <= bq,
        low > 0real,
        y >= low,
        ex + bq * ey <= e * low,
    ensures
        size(x / y - q0) <= e,
{
    let q = x / y;
    assert(q * y == x) by (nonlinear_arith)
        requires
            q == x / y,
            y >= low,
            low > 0real,
    ;
    let r = y - y0;
    let d = q - q0;
    assert(d * y == (x - x0) - q0 * r) by (nonlinear_arith)
        requires
            d == q - q0,
            q * y == x,
            q0 * y0 == x0,
            r == y - y0,
    ;
    lemma_size_product(q0, r, bq, ey);
    let s = size(d);
    assert(s * y <= e * low) by (nonlinear_arith)
        requires
            s == size(d),
            size(d * y) <= e * low,
            y >= 0real,
    ;
    assert(s <= e) by (nonlinear_arith)
        requires
            s * y <= e * low,
            y >= low,
            low > 0real,
            s >= 0real,
    ;
}

/// The exact numbers of the elimination, for the ratio of the off-diagonal to the diagonal entry.
pub struct Exact {
    /// What is left on the diagonal after the first column.
    pub d: real,
    /// What is left beside it.
    pub o: real,
    /// The ratio of these two.
    pub y: real,
    /// The first entry of the second row of the inverse, after the second column.
    pub h: real,
    /// The second entry of that row.
    pub k: real,
    /// What is left on the diagonal after the second column.
    pub w: real,
    /// The compliance beside the diagonal.
    pub p: real,
    /// The compliance on the diagonal.
    pub s: real,
}

/// Whether the ratio is that of a material whose Poisson's ratio is between -1/2 and 9/20.
pub open spec fn is_ratio(x: real) -> bool {
    50real * x <= 41real && 50real * x >= 0real - 17real
}

/// The relations between the exact numbers, each the exact form of one that the elimination
/// computes, and how large they are.
pub open spec fn are_exact(e: Exact, x: real) -> bool {
    &&& e.d == 1real - x * x
    &&& e.o == x - x * x
    &&& e.y * e.d == e.o
    &&& e.k * e.d == 1real
    &&& e.h == 0real - x * e.k
    &&& e.w == e.d - e.o * e.y
    &&& e.p * e.w == 0real - e.y
    &&& x - x * e.y == e.y
    &&& 1real - x * e.h == e.k
    &&& 0real - x - e.o * e.h == 0real - e.y
    &&& e.o * e.k == e.y
    &&& e.s == e.k - e.y * e.p
    &&& e.h - e.y * e.p == e.p
    // How large they are.
    &&& e.d >= 32real / 100real && e.d <= 1real
    &&& size(e.o) <= 46real / 100real
    &&& size(e.y) <= 52real / 100real
    &&& size(e.k) <= 306real / 100real
    &&& size(e.h) <= 252real / 100real
    &&& e.w >= 26real / 100real && e.w <= 2real
    &&& size(e.p) <= 18real / 10real
    &&& size(e.s) <= 39real / 10real
    // What they amount to.
    &&& e.s * ((1real - x) * (1real + 2real * x)) == 1real + x
    &&& e.p * ((1real - x) * (1real + 2real * x)) == 0real - x
    &&& e.w * (1real + x) == (1real - x) * (1real + 2real * x)
    &&& e.w * e.s == 1real
}

pub proof fn lemma_exact(x: real) -> (e: Exact)
    requires
        is_ratio(x),
    ensures
        are_exact(e, x),
{
    let a = 1real + x;
    let b = 1real - x;
    let c = 1real + 2real * x;
    let r = 1real / a;
    assert(r * a == 1real) by (nonlinear_arith)
        requires
            r == 1real / a,
            a > 0real,
    ;
    let t = 1real / b;
    assert(t * b == 1real) by (nonlinear_arith)
        requires
            t == 1real / b,
            b > 0real,
    ;
    let u = 1real / c;
    assert(u * c == 1real) by (nonlinear_arith)
        requires
            u == 1real / c,
            c > 0real,
    ;
    let d = 1real - x * x;
    let o = x - x * x;
    assert(d == a * b) by (nonlinear_arith)
        requires
            d == 1real - x * x,
            a == 1real + x,
            b == 1real - x,
    ;
    assert(o == x * b) by (nonlinear_arith)
        requires
            o == x - x * x,
            b == 1real - x,
    ;
    let y = x * r;
    let k = r * t;
    let h = 0real - x * k;
    let w = (b * c) * r;
    let p = 0real - x * (t * u);
    let s = a * (t * u);
    assert(y * d == o) by (nonlinear_arith)
        requires
            y == x * r,
            d == a * b,
            o == x * b,
            r * a == 1real,
    ;
    assert(k * d == 1real) by (nonlinear_arith)
        requires
            k == r * t,
            d == a * b,
            r * a == 1real,
            t * b == 1real,
    ;
    assert(o * k == y) by (nonlinear_arith)
        requires
            o == x * b,
            k == r * t,
            y == x * r,
            t * b == 1real,
    ;
    assert(x - x * y == y) by (nonlinear_arith)
        requires
            y == x * r,
            r * a == 1real,
            a == 1real + x,
    ;
    assert(1real - x * h == k) by {
        assert(x * h == 0real - (x * x) * k) by (nonlinear_arith)
            requires
                h == 0real - x * k,
        ;
        assert(k * d == k - (x * x) * k) by (nonlinear_arith)
            requires
                d == 1real - x * x,
        ;
    }
    assert(0real - x - o * h == 0real - y) by {
        assert(o * h == 0real - x * (o * k)) by (nonlinear_arith)
            requires
                h == 0real - x * k,
        ;
    }
    assert(w == d - o * y) by {
        // Both are `b` times the same.
        assert(o * y == b * (x * y)) by (nonlinear_arith)
            requires
                o == x * b,
        ;
        assert(d == b * a) by (nonlinear_arith)
            requires
                d == a * b,
        ;
        assert(a - x * y == c * r) by {
            assert(c * r == (a * a - x * x) * r) by {
                assert(a * a - x * x == c) by (nonlinear_arith)
                    requires
                        a == 1real + x,
                        c == 1real + 2real * x,
                ;
            }
            assert((a * a - x * x) * r == a * (r * a) - x * (x * r)) by (nonlinear_arith);
            assert(a * (r * a) == a);
        }
        assert(b * a - b * (x * y) == b * (a - x * y)) by (nonlinear_arith);
        assert(b * (c * r) == (b * c) * r) by (nonlinear_arith);
    }
    assert(p * w == 0real - y) by {
        assert((x * (t * u)) * ((b * c) * r) == ((t * b) * (u * c)) * (x * r)) by (nonlinear_arith);
        assert((0real - x * (t * u)) * w == 0real - (x * (t * u)) * w) by (nonlinear_arith);
        assert((1real * 1real) * (x * r) == x * r);
    }
    let bc = b * c;
    let v = t * u;
    assert(v * bc == 1real) by {
        assert((t * u) * (b * c) == (t * b) * (u * c)) by (nonlinear_arith);
    }
    assert(s * bc == a) by (nonlinear_arith)
        requires
            s == a * v,
            v * bc == 1real,
    ;
    assert(p * bc == 0real - x) by (nonlinear_arith)
        requires
            p == 0real - x * v,
            v * bc == 1real,
    ;
    assert(w * a == bc) by (nonlinear_arith)
        requires
            w == bc * r,
            r * a == 1real,
    ;
    assert(w * s == 1real) by {
        assert(w * s == (s * bc) * r) by (nonlinear_arith)
            requires
                w == bc * r,
        ;
        assert(a * r == r * a) by (nonlinear_arith);
    }
    // `k` and `h` over the same denominator.
    assert(k == r * (t * (u * c))) by (nonlinear_arith)
        requires
            k == r * t,
            u * c == 1real,
    ;
    assert(k == (r * c) * v) by (nonlinear_arith)
        requires
            k == r * (t * (u * c)),
            v == t * u,
    ;
    assert(y * p == 0real - (y * x) * v) by (nonlinear_arith)
        requires
            p == 0real - x * v,
    ;
    assert(r * c + y * x == a) by {
        assert(y * x == (x * x) * r) by (nonlinear_arith)
            requires
                y == x * r,
        ;
        assert(c + x * x == a * a) by (nonlinear_arith)
            requires
                a == 1real + x,
                c == 1real + 2real * x,
        ;
        assert(r * c + (x * x) * r == r * (c + x * x)) by (nonlinear_arith);
        assert(r * (a * a) == (r * a) * a) by (nonlinear_arith);
    }
    assert(k - y * p == s) by {
        assert((r * c) * v + (y * x) * v == (r * c + y * x) * v) by (nonlinear_arith);
        assert(a * v == s);
    }
    assert(h - y * p == p) by {
        assert(h == 0real - (x * (r * c)) * v) by (nonlinear_arith)
            requires
                h == 0real - x * k,
                k == (r * c) * v,
        ;
        assert((y * x) * v - (x * (r * c)) * v == (y * x - x * (r * c)) * v) by (nonlinear_arith);
        assert(y * x - x * (r * c) == 0real - x) by {
            // `r * c` is `a` less `y * x`, and `x * a` is `x` more than `x * x`.
            assert(x * (r * c) == x * a - x * (y * x)) by (nonlinear_arith)
                requires
                    r * c + y * x == a,
            ;
            assert(y * x + x * (y * x) == (y * a) * x) by (nonlinear_arith)
                requires
                    a == 1real + x,
            ;
            assert(y * a == x) by (nonlinear_arith)
                requires
                    y == x * r,
                    r * a == 1real,
            ;
            assert(x * a == x + x * x) by (nonlinear_arith)
                requires
                    a == 1real + x,
            ;
        }
        assert((0real - x) * v == 0real - x * v) by (nonlinear_arith);
    }
    let e = Exact { d, o, y, h, k, w, p, s };
    lemma_sizes(e, x, a, b, c, r, t, u);
    e
}

proof fn lemma_sizes(
    e: Exact,
    x: real,
    a: real,
    b: real,
    c: real,
    r: real,
    t: real,
    u: real,
)
    requires
        is_ratio(x),
        a == 1real + x,
        b == 1real - x,
        c == 1real + 2real * x,
        r * a == 1real,
        t * b == 1real,
        u * c == 1real,
        e.d == 1real - x * x,
        e.o == x - x * x,
        e.y * e.d == e.o,
        e.y == x * r,
        e.k * e.d == 1real,
        e.h == 0real - x * e.k,
        e.w == (b * c) * r,
        e.p * (b * c) == 0real - x,
        e.s * (b * c) == a,
    ensures
        e.d >= 32real / 100real && e.d <= 1real,
        size(e.o) <= 46real / 100real,
        size(e.y) <= 52real / 100real,
        size(e.k) <= 306real / 100real,
        size(e.h) <= 252real / 100real,
        e.w >= 26real / 100real && e.w <= 2real,
        size(e.p) <= 18real / 10real,
        size(e.s) <= 39real / 10real,
{
    let q = x * x;
    assert(0real <= q <= 6724real / 10000real) by (nonlinear_arith)
        requires
            q == x * x,
            50real * x <= 41real,
            50real * x >= 0real - 17real,
    ;
    assert(size(e.o) <= 46real / 100real) by (nonlinear_arith)
        requires
            e.o == x - x * x,
            50real * x <= 41real,
            50real * x >= 0real - 17real,
    ;
    let k = e.k;
    let d = e.d;
    assert(0real < k <= 306real / 100real) by (nonlinear_arith)
        requires
            k * d == 1real,
            d >= 3276real / 10000real,
    ;
    assert(size(e.h) <= 252real / 100real) by (nonlinear_arith)
        requires
            e.h == 0real - x * k,
            0real < k <= 306real / 100real,
            50real * x <= 41real,
            50real * x >= 0real - 17real,
    ;
    let y = e.y;
    assert(y * a == x) by (nonlinear_arith)
        requires
            y == x * r,
            r * a == 1real,
    ;
    assert(size(y) <= 52real / 100real) by (nonlinear_arith)
        requires
            y * a == x,
            a == 1real + x,
            50real * x <= 41real,
            50real * x >= 0real - 17real,
    ;
    let m = b * c;
    assert(m == 1real + x - 2real * (x * x)) by (nonlinear_arith)
        requires
            m == b * c,
            b == 1real - x,
            c == 1real + 2real * x,
    ;
    // The product of the two factors is smallest at an end.
    assert(m >= 4288real / 10000real && m <= 2real) by (nonlinear_arith)
        requires
            m == 1real + x - 2real * (x * x),
            50real * x <= 41real,
            50real * x >= 0real - 17real,
    ;
    let w = e.w;
    assert(w * a == m) by (nonlinear_arith)
        requires
            w == m * r,
            r * a == 1real,
    ;
    assert(100real * m >= 26real * a) by (nonlinear_arith)
        requires
            m == 1real + x - 2real * (x * x),
            a == 1real + x,
            50real * x <= 41real,
            50real * x >= 0real - 17real,
    ;
    assert(w >= 26real / 100real && w <= 2real) by (nonlinear_arith)
        requires
            w * a == m,
            100real * m >= 26real * a,
            m <= 2real * a,
            a > 0real,
    ;
    assert(size(e.p) <= 18real / 10real) by (nonlinear_arith)
        requires
            e.p * m == 0real - x,
            m >= 4288real / 10000real,
            10real * x <= 18real * m,
            0real - 10real * x <= 18real * m,
    ;
    assert(size(e.s) <= 39real / 10real) by (nonlinear_arith)
        requires
            e.s * m == a,
            m >= 4288real / 10000real,
            a > 0real,
            10real * a <= 39real * m,
    ;
}

} // verus!
