//! How far the operations on numbers lead from the exact results.
use crate::arithmetic::{
    difference, integer, lemma_exact_integer, lemma_is_nearest, lemma_nearest_at_most,
    lemma_nearest_exact, lemma_nearest_exists, lemma_nearest_of, lemma_nearest_zero, nearest,
    opposite, product, quotient, sum,
};
use crate::double::{
    distance, grid, grid_step, is_nearest, lemma_grid_fields, lemma_grid_increases,
    lemma_grid_step, Double, WIDE, WIDE_TOP,
};
use vstd::arithmetic::mul::*;
use vstd::arithmetic::power2::*;
use vstd::bits::*;
use vstd::prelude::*;

verus! {

/// The number of units in one.
pub open spec fn unit() -> real {
    pow2(1074) as real
}

/// The real number that a finite number stands for.
pub open spec fn worth(d: Double) -> real {
    d.scaled() as real / unit()
}

/// The size of a real number.
pub open spec fn size(x: real) -> real {
    if x < 0real {
        0real - x
    } else {
        x
    }
}

pub proof fn lemma_unit()
    ensures
        unit() > 0real,
        unit() >= 0x10_0000_0000_0000_0000_0000_0000real,
{
    lemma_pow2_pos(1074);
    lemma2_to64();
    lemma2_to64_rest();
    lemma_pow2_adds(64, 36);
    lemma_pow2_strictly_increases(100, 1074);
}

/// The product of natural numbers is their product as reals.
pub proof fn lemma_real_product(a: nat, b: nat)
    ensures
        (a * b) as real == a as real * b as real,
    decreases b,
{
    let x = a as real;
    if b > 0 {
        let c = (b - 1) as nat;
        lemma_real_product(a, c);
        let y = c as real;
        assert(a * b == a * c + a) by (nonlinear_arith)
            requires
                b == c + 1,
        ;
        assert(x * (y + 1real) == x * y + x) by (nonlinear_arith);
        assert(b as real == y + 1real);
    } else {
        assert(a * 0 == 0);
        assert(x * 0real == 0real);
    }
}

/// The last number on the grid that is not above `u`.
proof fn lemma_floor(scale: nat, u: nat, from: nat) -> (low: nat)
    requires
        scale > 0,
        from <= WIDE_TOP,
        u < grid(WIDE as nat, from) * scale,
    ensures
        low < from,
        grid(WIDE as nat, low) * scale <= u < grid(WIDE as nat, low + 1) * scale,
    decreases from,
{
    let p = WIDE as nat;
    lemma_grid_fields(p, 0, 0);
    assert(0 * scale == 0) by (nonlinear_arith);
    assert(from > 0);
    if grid(p, (from - 1) as nat) * scale <= u {
        (from - 1) as nat
    } else {
        lemma_floor(scale, u, (from - 1) as nat)
    }
}

/// A step of the grid is small beside the number that it stands at.
proof fn lemma_step_is_small(m: nat)
    ensures
        grid_step(WIDE as nat, m) * (WIDE as nat) <= grid(WIDE as nat, m) + WIDE,
{
    let p = WIDE as nat;
    let e = m / p;
    let f = m % p;
    assert(m == e * p + f) by {
        vstd::arithmetic::div_mod::lemma_fundamental_div_mod(m as int, p as int);
        lemma_mul_is_commutative(p as int, e as int);
    }
    lemma_grid_fields(p, e, f);
    if e >= 1 {
        let k = pow2((e - 1) as nat);
        assert(k * p <= (p + f) * k) by (nonlinear_arith);
    }
}

/// The nearest number is off by half a step at most: by one part in 2^53, or by half a unit.
pub proof fn lemma_rounding(scale: nat, u: nat)
    requires
        scale > 0,
        u < grid(WIDE as nat, WIDE_TOP as nat) * scale,
    ensures
        2 * distance(grid(WIDE as nat, nearest(scale, u)) * scale, u) * (WIDE as nat) <= u + (
        WIDE as nat) * scale,
{
    let p = WIDE as nat;
    let low = lemma_floor(scale, u, WIDE_TOP as nat);
    lemma_nearest_exists(scale, u, WIDE_TOP as nat);
    let m = nearest(scale, u);
    let near = distance(grid(p, m) * scale, u);
    let a = distance(grid(p, low) * scale, u);
    let b = distance(grid(p, low + 1) * scale, u);
    assert(is_nearest(p, WIDE_TOP as nat, scale, u, m));
    assert(near <= a);
    assert(near <= b);
    let g = grid(p, low);
    let s = grid_step(p, low);
    lemma_grid_step(p, low);
    lemma_step_is_small(low);
    assert((g + s) * scale == g * scale + s * scale) by (nonlinear_arith);
    assert(a + b == s * scale);
    assert(2 * near <= s * scale);
    assert((2 * near) * p <= (s * scale) * p) by (nonlinear_arith)
        requires
            2 * near <= s * scale,
    ;
    assert((s * scale) * p == (s * p) * scale) by (nonlinear_arith);
    assert((s * p) * scale <= (g + p) * scale) by (nonlinear_arith)
        requires
            s * p <= g + p,
    ;
    assert((g + p) * scale == g * scale + p * scale) by (nonlinear_arith);
}

/// One part in 2^52.
pub open spec fn part() -> real {
    1real / 0x10_0000_0000_0000real
}

/// Whether a finite number is as near to `x` as rounding leaves it: off by one part in 2^52 or one
/// unit at most.
pub open spec fn rounds(d: Double, x: real) -> bool {
    d.is_finite() && size(worth(d) - x) <= size(x) * part() + 1real / unit()
}

/// What is said here of results holds below this size.
pub open spec fn limit() -> real {
    0x4_0000_0000_0000real
}

/// From the distance in units to the distance in reals. Each unit is worth `1 / big`, and the exact
/// number is `exact / scale` of them.
proof fn lemma_close(
    scale: real,
    big: real,
    exact: real,
    found: real,
    apart: real,
    e: real,
    w: real,
    half: real,
)
    requires
        scale > 0real,
        big > 0real,
        half > 0real,
        e * (scale * big) == exact,
        w * big == found,
        apart == size(found * scale - exact),
        2real * apart * half <= exact + half * scale,
    ensures
        2real * (size(w - e) * half) <= e + half * (1real / big),
{
    let k = scale * big;
    let d = size(w - e);
    assert(k > 0real) by (nonlinear_arith)
        requires
            k == scale * big,
            scale > 0real,
            big > 0real,
    ;
    assert((w - e) * k == found * scale - exact) by (nonlinear_arith)
        requires
            k == scale * big,
            e * k == exact,
            w * big == found,
    ;
    assert(d * k == apart) by {
        if w - e < 0real {
            assert((w - e) * k <= 0real) by (nonlinear_arith)
                requires
                    w - e < 0real,
                    k > 0real,
            ;
            assert((0real - (w - e)) * k == 0real - (w - e) * k) by (nonlinear_arith);
        } else {
            assert((w - e) * k >= 0real) by (nonlinear_arith)
                requires
                    w - e >= 0real,
                    k > 0real,
            ;
        }
    }
    let i = 1real / big;
    assert(i * big == 1real) by (nonlinear_arith)
        requires
            i == 1real / big,
            big > 0real,
    ;
    assert(i * k == scale) by (nonlinear_arith)
        requires
            i * big == 1real,
            k == scale * big,
    ;
    let x = 2real * (d * half);
    let y = e + half * i;
    assert(x * k == 2real * apart * half) by (nonlinear_arith)
        requires
            x == 2real * (d * half),
            d * k == apart,
    ;
    assert(y * k == exact + half * scale) by (nonlinear_arith)
        requires
            y == e + half * i,
            e * k == exact,
            i * k == scale,
    ;
    assert(x <= y) by (nonlinear_arith)
        requires
            x * k <= y * k,
            k > 0real,
    ;
}

/// Rounding `u / scale` units, with the sign taken away.
proof fn lemma_rounds(scale: nat, u: nat, e: real)
    requires
        scale > 0,
        e * (scale as real * unit()) == u as real,
        0real <= e <= limit(),
    ensures
        nearest(scale, u) < WIDE_TOP,
        size(grid(WIDE as nat, nearest(scale, u)) as real / unit() - e) <= e * part() + 1real
            / unit(),
{
    let p = WIDE as nat;
    let n = 0x4_0000_0000_0000nat;
    crate::arithmetic::lemma_exact_integer(n as int);
    let g = integer(n as int).magnitude();
    let k = pow2(1074);
    lemma_unit();
    assert(grid(p, g) == n * k);
    let big = unit();
    let sc = scale as real;
    // The exact number is not above the limit.
    assert(u <= (n * k) * scale) by {
        let m = (n * k) * scale;
        assert(m as real == (n as real * big) * sc) by {
            lemma_real_product(n, k);
            lemma_real_product(n * k, scale);
        }
        assert(u as real <= m as real) by (nonlinear_arith)
            requires
                u as real == e * (sc * big),
                m as real == (n as real * big) * sc,
                e <= n as real,
                sc > 0real,
                big > 0real,
        ;
    }
    lemma_nearest_at_most(scale, u, g);
    lemma_grid_increases(p, g, WIDE_TOP as nat);
    lemma_mul_strict_inequality(grid(p, g) as int, grid(p, WIDE_TOP as nat) as int, scale as int);
    lemma_rounding(scale, u);
    let m = nearest(scale, u);
    let found = grid(p, m) as real;
    let near = distance(grid(p, m) * scale, u);
    let w = found / big;
    assert(w * big == found) by (nonlinear_arith)
        requires
            w == found / big,
            big > 0real,
    ;
    let half = p as real;
    lemma_real_product(grid(p, m), scale);
    assert(near as real == size(found * sc - u as real));
    assert((2 * near * p) as real == 2real * (near as real) * half) by {
        lemma_real_product(2 * near, p);
    }
    lemma_real_product(p, scale);
    lemma_close(sc, big, u as real, found, near as real, e, w, half);
    let d = size(w - e);
    let q = part();
    assert(q * half == 1real) by {
        assert(half == 0x10_0000_0000_0000real);
    }
    let i = 1real / big;
    assert(i > 0real) by (nonlinear_arith)
        requires
            i == 1real / big,
            big > 0real,
    ;
    assert(d <= e * q + i) by (nonlinear_arith)
        requires
            2real * (d * half) <= e + half * i,
            q * half == 1real,
            q > 0real,
            half > 0real,
            e >= 0real,
            i > 0real,
            d >= 0real,
    ;
}

/// The size of a number, and its sign.
pub proof fn lemma_worth(d: Double)
    requires
        d.is_finite(),
    ensures
        size(worth(d)) == d.units() as real / unit(),
        worth(d) == if d.negative() {
            0real - d.units() as real / unit()
        } else {
            d.units() as real / unit()
        },
        worth(d) * unit() == d.scaled() as real,
{
    lemma_unit();
    let u = d.units() as real;
    let big = unit();
    assert((0real - u) / big == 0real - u / big) by (nonlinear_arith)
        requires
            big > 0real,
    ;
    assert(u / big >= 0real) by (nonlinear_arith)
        requires
            big > 0real,
            u >= 0real,
    ;
    let x = d.scaled() as real;
    assert((x / big) * big == x) by (nonlinear_arith)
        requires
            big > 0real,
    ;
    assert(d.negative() ==> x == 0real - u);
}

/// A sum is off by a rounding.
pub proof fn sum_rounds(a: Double, b: Double)
    requires
        a.is_finite(),
        b.is_finite(),
        size(worth(a) + worth(b)) <= limit(),
    ensures
        rounds(sum(a, b), worth(a) + worth(b)),
{
    lemma_unit();
    lemma_worth(a);
    lemma_worth(b);
    let big = unit();
    let s = a.scaled() + b.scaled();
    let x = worth(a) + worth(b);
    assert(x * big == s as real) by (nonlinear_arith)
        requires
            worth(a) * big == a.scaled() as real,
            worth(b) * big == b.scaled() as real,
            x == worth(a) + worth(b),
            s as real == a.scaled() as real + b.scaled() as real,
    ;
    let r = sum(a, b);
    let i = 1real / big;
    assert(i > 0real) by (nonlinear_arith)
        requires
            i == 1real / big,
            big > 0real,
    ;
    if s == 0 {
        assert(x == 0real) by (nonlinear_arith)
            requires
                x * big == 0real,
                big > 0real,
        ;
        lemma_grid_fields(WIDE as nat, 0, 0);
        assert(r.units() == 0);
        assert(0real / big == 0real) by (nonlinear_arith)
            requires
                big > 0real,
        ;
        assert(worth(r) == 0real);
        assert(0real * part() == 0real);
    } else {
        let u = (if s < 0 {
            -s
        } else {
            s
        }) as nat;
        let e = size(x);
        assert(e * big == u as real) by (nonlinear_arith)
            requires
                x * big == s as real,
                e == size(x),
                u as real == size(s as real),
                big > 0real,
        ;
        assert(1nat as real * big == big);
        lemma_rounds(1, u, e);
        lemma_worth(r);
        assert((s < 0) == (x < 0real)) by (nonlinear_arith)
            requires
                x * big == s as real,
                big > 0real,
        ;
    }
}

/// A difference is off by a rounding.
pub proof fn difference_rounds(a: Double, b: Double)
    requires
        a.is_finite(),
        b.is_finite(),
        size(worth(a) - worth(b)) <= limit(),
    ensures
        rounds(difference(a, b), worth(a) - worth(b)),
{
    lemma_worth(b);
    lemma_worth(opposite(b));
    sum_rounds(a, opposite(b));
}

/// The sign of a product, and its size.
proof fn lemma_signed_product(x: real, y: real, a: real, b: real, p: bool, q: bool)
    requires
        x == if p {
            0real - a
        } else {
            a
        },
        y == if q {
            0real - b
        } else {
            b
        },
    ensures
        x * y == if p != q {
            0real - a * b
        } else {
            a * b
        },
{
    assert((0real - a) * b == 0real - a * b) by (nonlinear_arith);
    assert(a * (0real - b) == 0real - a * b) by (nonlinear_arith);
    assert((0real - a) * (0real - b) == a * b) by (nonlinear_arith);
}

/// A product is off by a rounding.
pub proof fn product_rounds(a: Double, b: Double)
    requires
        a.is_finite(),
        b.is_finite(),
        size(worth(a) * worth(b)) <= limit(),
    ensures
        rounds(product(a, b), worth(a) * worth(b)),
{
    lemma_unit();
    lemma_worth(a);
    lemma_worth(b);
    let big = unit();
    let (ua, ub) = (a.units(), b.units());
    let (x, y) = (ua as real / big, ub as real / big);
    let e = x * y;
    assert(x * big == ua as real && x >= 0real) by (nonlinear_arith)
        requires
            x == ua as real / big,
            big > 0real,
            ua as real >= 0real,
    ;
    assert(y * big == ub as real && y >= 0real) by (nonlinear_arith)
        requires
            y == ub as real / big,
            big > 0real,
            ub as real >= 0real,
    ;
    assert(e >= 0real) by (nonlinear_arith)
        requires
            e == x * y,
            x >= 0real,
            y >= 0real,
    ;
    lemma_signed_product(worth(a), worth(b), x, y, a.negative(), b.negative());
    lemma_real_product(ua, ub);
    assert(e * (big * big) == ua as real * ub as real) by (nonlinear_arith)
        requires
            e == x * y,
            x * big == ua as real,
            y * big == ub as real,
    ;
    lemma_pow2_pos(1074);
    lemma_rounds(pow2(1074), ua * ub, e);
    lemma_worth(product(a, b));
}

/// A quotient is off by a rounding.
pub proof fn quotient_rounds(a: Double, b: Double)
    requires
        a.is_finite(),
        b.is_finite(),
        b.magnitude() > 0,
        size(worth(a) / worth(b)) <= limit(),
    ensures
        rounds(quotient(a, b), worth(a) / worth(b)),
{
    lemma_unit();
    lemma_worth(a);
    lemma_worth(b);
    let big = unit();
    let (ua, ub) = (a.units(), b.units());
    lemma_grid_fields(WIDE as nat, 0, 0);
    lemma_grid_increases(WIDE as nat, 0, b.magnitude());
    assert(ub > 0);
    let (x, y) = (ua as real / big, ub as real / big);
    assert(x * big == ua as real && x >= 0real) by (nonlinear_arith)
        requires
            x == ua as real / big,
            big > 0real,
            ua as real >= 0real,
    ;
    assert(y * big == ub as real && y > 0real) by (nonlinear_arith)
        requires
            y == ub as real / big,
            big > 0real,
            ub as real > 0real,
    ;
    let e = x / y;
    assert(e * y == x && e >= 0real) by (nonlinear_arith)
        requires
            e == x / y,
            x >= 0real,
            y > 0real,
    ;
    let (p, q) = (worth(a), worth(b));
    let r = p / q;
    assert(r == if a.negative() != b.negative() {
        0real - e
    } else {
        e
    }) by {
        assert((0real - x) / y == 0real - x / y) by (nonlinear_arith)
            requires
                y > 0real,
        ;
        assert(x / (0real - y) == 0real - x / y) by (nonlinear_arith)
            requires
                y > 0real,
        ;
        assert((0real - x) / (0real - y) == x / y) by (nonlinear_arith)
            requires
                y > 0real,
        ;
    }
    lemma_real_product(ua, pow2(1074));
    assert(e * (ub as real * big) == ua as real * big) by (nonlinear_arith)
        requires
            e * y == x,
            x * big == ua as real,
            y * big == ub as real,
    ;
    lemma_rounds(ub, ua * pow2(1074), e);
    lemma_worth(quotient(a, b));
}

/// Whether a number is zero, of either sign.
pub open spec fn is_zero(d: Double) -> bool {
    d.magnitude() == 0
}

/// Zero times a finite number is zero, and so is zero divided by one.
pub proof fn zero_stays(z: Double, b: Double)
    requires
        is_zero(z),
        b.is_finite(),
    ensures
        is_zero(product(z, b)),
        is_zero(product(b, z)),
        b.magnitude() > 0 ==> is_zero(quotient(z, b)),
        z.is_finite(),
        worth(z) == 0real,
        z.scaled() == 0,
{
    let p = WIDE as nat;
    lemma_unit();
    lemma_pow2_pos(1074);
    lemma_grid_fields(p, 0, 0);
    assert(z.units() == 0);
    let (x, y) = (b.units(), pow2(1074));
    assert(0 * x == 0 && x * 0 == 0 && 0 * y == 0);
    lemma_nearest_zero(pow2(1074));
    if b.magnitude() > 0 {
        lemma_grid_increases(p, 0, b.magnitude());
        lemma_nearest_zero(b.units());
    }
    let big = unit();
    assert(0real / big == 0real) by (nonlinear_arith)
        requires
            big > 0real,
    ;
}

/// Taking zero away changes nothing but perhaps the sign of zero.
pub proof fn less_zero(a: Double, z: Double)
    requires
        a.is_finite(),
        is_zero(z),
    ensures
        difference(a, z).is_finite(),
        difference(a, z).scaled() == a.scaled(),
        worth(difference(a, z)) == worth(a),
        a.magnitude() > 0 ==> difference(a, z) == a,
        is_zero(a) ==> is_zero(difference(a, z)),
{
    let p = WIDE as nat;
    lemma_grid_fields(p, 0, 0);
    assert(z.units() == 0);
    assert(opposite(z).scaled() == 0);
    lemma_nearest_of(a);
    if a.magnitude() > 0 {
        lemma_grid_increases(p, 0, a.magnitude());
    }
}

/// A number divided by itself is one.
pub proof fn over_itself(p: Double)
    requires
        p.is_finite(),
        p.magnitude() > 0,
    ensures
        quotient(p, p) == integer(1),
{
    let one = integer(1);
    lemma_exact_integer(1);
    lemma_grid_fields(WIDE as nat, 0, 0);
    lemma_grid_increases(WIDE as nat, 0, p.magnitude());
    let u = p.units();
    lemma_mul_basics(pow2(1074) as int);
    lemma_mul_is_commutative(u as int, pow2(1074) as int);
    lemma_nearest_exact(WIDE as nat, WIDE_TOP as nat, u, u * pow2(1074), one.magnitude());
    lemma_is_nearest(u, u * pow2(1074), one.magnitude());
    lemma_nearest_of(one);
}

/// A number times one is the number.
pub proof fn times_one(f: Double)
    requires
        f.is_finite(),
    ensures
        product(f, integer(1)) == f,
{
    let one = integer(1);
    lemma_exact_integer(1);
    lemma_mul_basics(pow2(1074) as int);
    lemma_pow2_pos(1074);
    let u = f.units();
    lemma_nearest_exact(WIDE as nat, WIDE_TOP as nat, pow2(1074), u * pow2(1074), f.magnitude());
    lemma_is_nearest(pow2(1074), u * pow2(1074), f.magnitude());
    lemma_nearest_of(f);
}

/// A number less itself is zero.
pub proof fn less_itself(f: Double)
    requires
        f.is_finite(),
    ensures
        is_zero(difference(f, f)),
{
}

} // verus!
