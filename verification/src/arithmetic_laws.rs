//! What the operations on numbers give.
use crate::arithmetic::{lemma_nearest_exists, nearest, nearest_root, signed};
use crate::double::{
    distance, grid, lemma_grid_fields, lemma_grid_increases, Double, NARROW, NARROW_TOP, WIDE,
    WIDE_TOP,
};
use crate::postproc::vonmises_laws::lemma_root_exists;
use crate::single::{
    lemma_narrow_nearest_exists, lemma_widened, narrow_nearest, narrowed, widened, Single,
};
use vstd::arithmetic::power2::*;
use vstd::prelude::*;

verus! {

/// How far two integers are apart.
pub open spec fn gap(a: int, b: int) -> int {
    if a <= b {
        b - a
    } else {
        a - b
    }
}

/// Whether `r` is the nearest of two numbers to `exact`, where each unit is worth `scale`: it is
/// not farther away than the other, and where both are as far away its pattern is even.
pub open spec fn is_nearer(r: Double, other: Double, scale: int, exact: int) -> bool {
    let near = gap(r.scaled() * scale, exact);
    let far = gap(other.scaled() * scale, exact);
    near <= far && (near == far && r.scaled() != other.scaled() ==> r.bits % 2 == 0)
}

proof fn lemma_nearer(scale: nat, u: nat, negative: bool, other: Double)
    requires
        scale > 0,
        !other.is_nan(),
    ensures
        is_nearer(
            signed(negative, nearest(scale, u)),
            other,
            scale as int,
            if negative {
                -(u as int)
            } else {
                u as int
            },
        ),
        !signed(negative, nearest(scale, u)).is_nan(),
{
    let p = WIDE as nat;
    lemma_nearest_exists(scale, u, WIDE_TOP as nat);
    let m = nearest(scale, u);
    let t = other.magnitude();
    let r = signed(negative, m);
    assert(r.magnitude() == m);
    assert(r.negative() == negative);
    lemma_grid_fields(p, 0, 0);
    let (g, h) = (grid(p, m) as int, grid(p, t) as int);
    assert(grid(p, 0) * scale == 0) by (nonlinear_arith)
        requires
            grid(p, 0) == 0,
    ;
    let near = distance(grid(p, m) * scale, u);
    let at_zero = distance(grid(p, 0) * scale, u);
    let far = distance(grid(p, t) * scale, u);
    assert(at_zero == u);
    assert(m != 0 ==> near < at_zero || near == at_zero && m % 2 == 0);
    assert(m != t ==> near < far || near == far && m % 2 == 0);
    assert((-g) * scale == -(g * scale)) by (nonlinear_arith);
    assert((-h) * scale == -(h * scale)) by (nonlinear_arith);
    assert(h * scale >= 0) by (nonlinear_arith)
        requires
            h >= 0,
            scale > 0,
    ;
    assert(h * scale == 0 ==> h == 0) by (nonlinear_arith)
        requires
            h >= 0,
            scale > 0,
    ;
}

/// No number is nearer to a sum than the one that is given for it, and of two that are as near the
/// one with the even pattern is given.
pub proof fn sums_are_nearest(a: Double, b: Double, r: Double, other: Double)
    requires
        a.is_finite(),
        b.is_finite(),
        !other.is_nan(),
        call_ensures(Double::plus, (a, b), r),
    ensures
        is_nearer(r, other, 1, a.scaled() + b.scaled()),
{
    let s = a.scaled() + b.scaled();
    if s > 0 {
        lemma_nearer(1, s as nat, false, other);
    } else if s < 0 {
        lemma_nearer(1, (-s) as nat, true, other);
    } else {
        lemma_grid_fields(WIDE as nat, 0, 0);
        assert(r.magnitude() == 0);
        assert(r.units() == 0);
    }
}

/// No number is nearer to a difference than the one that is given for it.
pub proof fn differences_are_nearest(a: Double, b: Double, r: Double, other: Double)
    requires
        a.is_finite(),
        b.is_finite(),
        !other.is_nan(),
        call_ensures(Double::minus, (a, b), r),
    ensures
        is_nearer(r, other, 1, a.scaled() - b.scaled()),
{
    let c = signed(!b.negative(), b.magnitude());
    assert(c.magnitude() == b.magnitude());
    assert(c.scaled() == -b.scaled());
    let s = a.scaled() + c.scaled();
    if s > 0 {
        lemma_nearer(1, s as nat, false, other);
    } else if s < 0 {
        lemma_nearer(1, (-s) as nat, true, other);
    } else {
        lemma_grid_fields(WIDE as nat, 0, 0);
        assert(r.magnitude() == 0);
        assert(r.units() == 0);
    }
}

/// No number is nearer to a product than the one that is given for it. Numbers are counted in units
/// of 2^-1074, and so the product of two of them in units of that size squared.
pub proof fn products_are_nearest(a: Double, b: Double, r: Double, other: Double)
    requires
        a.is_finite(),
        b.is_finite(),
        !other.is_nan(),
        call_ensures(Double::times, (a, b), r),
    ensures
        is_nearer(r, other, pow2(1074) as int, a.scaled() * b.scaled()),
{
    lemma_pow2_pos(1074);
    let (u, v) = (a.units() as int, b.units() as int);
    assert((-u) * v == -(u * v)) by (nonlinear_arith);
    assert(u * (-v) == -(u * v)) by (nonlinear_arith);
    assert((-u) * (-v) == u * v) by (nonlinear_arith);
    lemma_nearer(pow2(1074), a.units() * b.units(), a.negative() != b.negative(), other);
}

/// No number is nearer to a quotient than the one that is given for it: times the divisor, none is
/// nearer to the dividend.
pub proof fn quotients_are_nearest(a: Double, b: Double, r: Double, other: Double)
    requires
        a.is_finite(),
        b.is_finite(),
        b.units() > 0,
        !other.is_nan(),
        call_ensures(Double::divided_by, (a, b), r),
    ensures
        is_nearer(
            r,
            other,
            b.units() as int,
            (if b.negative() {
                -a.scaled()
            } else {
                a.scaled()
            }) * pow2(1074),
        ),
{
    lemma_grid_fields(WIDE as nat, 0, 0);
    assert(b.magnitude() != 0);
    let (u, p) = (a.units() as int, pow2(1074) as int);
    assert((-u) * p == -(u * p)) by (nonlinear_arith);
    lemma_nearer(b.units(), a.units() * pow2(1074), a.negative() != b.negative(), other);
}

/// What has no value is not a number: what is made of something that is none, the difference of
/// two infinities, nothing times infinity, infinity over infinity, nothing over nothing, and the
/// root of what is below zero.
pub proof fn undefined_results_are_no_numbers(
    a: Double,
    b: Double,
    sum: Double,
    product: Double,
    quotient: Double,
    root: Double,
)
    requires
        call_ensures(Double::plus, (a, b), sum),
        call_ensures(Double::times, (a, b), product),
        call_ensures(Double::divided_by, (a, b), quotient),
        call_ensures(Double::square_root, (a,), root),
    ensures
        ({
            let infinite = |d: Double| d.magnitude() == 0x7ff0_0000_0000_0000;
            let nothing = |d: Double| d.magnitude() == 0;
            let lost = a.is_nan() || b.is_nan();
            &&& sum.is_nan() <==> lost || infinite(a) && infinite(b) && a.negative()
                != b.negative()
            &&& product.is_nan() <==> lost || infinite(a) && nothing(b) || nothing(a) && infinite(
                b,
            )
            &&& quotient.is_nan() <==> lost || infinite(a) && infinite(b) || nothing(a) && nothing(
                b,
            )
            &&& root.is_nan() <==> a.is_nan() || a.negative() && !nothing(a)
        }),
{
    if a.is_finite() && b.is_finite() {
        let s = a.scaled() + b.scaled();
        if s > 0 {
            lemma_nearer(1, s as nat, false, a);
        } else if s < 0 {
            lemma_nearer(1, (-s) as nat, true, a);
        }
        lemma_pow2_pos(1074);
        let negative = a.negative() != b.negative();
        lemma_nearer(pow2(1074), a.units() * b.units(), negative, a);
        if b.magnitude() > 0 {
            lemma_grid_fields(WIDE as nat, 0, 0);
            lemma_grid_increases(WIDE as nat, 0, b.magnitude());
            lemma_nearer(b.units(), a.units() * pow2(1074), negative, a);
        }
    }
    if a.is_finite() && a.magnitude() > 0 && !a.negative() {
        lemma_root_exists(a);
    }
}

/// No number is nearer to a square root than the one that is given for it: the root lies on its
/// side of the half way to any other, or there where its pattern is even.
pub proof fn roots_are_nearest(a: Double, r: Double, other: Double)
    requires
        a.is_finite(),
        !a.negative(),
        a.magnitude() > 0,
        other.is_finite(),
        call_ensures(Double::square_root, (a,), r),
    ensures
        r.is_finite(),
        !r.negative(),
        ({
            let u = a.units() * pow2(1074);
            let twice = r.units() + other.units();
            &&& other.units() > r.units() ==> 4 * u < twice * twice || 4 * u == twice * twice
                && r.bits % 2 == 0
            &&& other.units() < r.units() ==> 4 * u > twice * twice || 4 * u == twice * twice
                && r.bits % 2 == 0
        }),
{
    let p = WIDE as nat;
    lemma_root_exists(a);
    let u = a.units() * pow2(1074);
    let m = nearest_root(u);
    let t = other.magnitude();
    assert(r.magnitude() == m);
    let twice = (r.units() + other.units()) as int;
    if other.units() > r.units() {
        assert(t > m) by {
            if t < m {
                lemma_grid_increases(p, t, m);
            }
        }
        let above = (grid(p, m) + grid(p, m + 1)) as int;
        if t > m + 1 {
            lemma_grid_increases(p, m + 1, t);
        }
        assert(above * above <= twice * twice) by (nonlinear_arith)
            requires
                0 <= above <= twice,
        ;
    } else if other.units() < r.units() {
        assert(t < m) by {
            if m < t {
                lemma_grid_increases(p, m, t);
            }
        }
        let below = (grid(p, (m - 1) as nat) + grid(p, m)) as int;
        if t < m - 1 {
            lemma_grid_increases(p, t, (m - 1) as nat);
        }
        assert(below * below >= twice * twice) by (nonlinear_arith)
            requires
                0 <= twice <= below,
        ;
    }
}

/// Where results are infinite or nothing, and which sign they have: a product and a quotient are
/// below zero where exactly one of the two numbers is.
pub proof fn signs_and_infinities(
    a: Double,
    b: Double,
    sum: Double,
    product: Double,
    quotient: Double,
)
    requires
        call_ensures(Double::plus, (a, b), sum),
        call_ensures(Double::times, (a, b), product),
        call_ensures(Double::divided_by, (a, b), quotient),
        !a.is_nan(),
        !b.is_nan(),
    ensures
        ({
            let infinity: nat = 0x7ff0_0000_0000_0000;
            let differ = a.negative() != b.negative();
            &&& !product.is_nan() ==> product.negative() == differ
            &&& !quotient.is_nan() ==> quotient.negative() == differ
            &&& a.magnitude() == infinity && b.is_finite() ==> sum == a
            &&& a.is_finite() && b.magnitude() == infinity ==> sum == b
            &&& a.magnitude() == infinity && b.magnitude() > 0 ==> product.magnitude() == infinity
            &&& a.magnitude() == infinity && b.is_finite() ==> quotient.magnitude() == infinity
            &&& a.is_finite() && b.magnitude() == infinity ==> quotient.magnitude() == 0
            &&& a.is_finite() && a.magnitude() > 0 && b.magnitude() == 0 ==> quotient.magnitude()
                == infinity
        }),
{
    if a.is_finite() && b.is_finite() {
        lemma_pow2_pos(1074);
        let negative = a.negative() != b.negative();
        lemma_nearer(pow2(1074), a.units() * b.units(), negative, a);
        lemma_nearest_exists(pow2(1074), a.units() * b.units(), WIDE_TOP as nat);
        if b.magnitude() > 0 {
            lemma_grid_fields(WIDE as nat, 0, 0);
            lemma_grid_increases(WIDE as nat, 0, b.magnitude());
            lemma_nearest_exists(b.units(), a.units() * pow2(1074), WIDE_TOP as nat);
        }
    }
}

/// The value of a `binary32` number in units of 2^-1074. Infinity stands for 2^128, above all
/// finite numbers.
pub open spec fn narrow_value(s: Single) -> int {
    if s.negative() {
        -(s.units() * pow2(925))
    } else {
        (s.units() * pow2(925)) as int
    }
}

/// No `binary32` number is nearer to a number than the one that it is narrowed to, and of two that
/// are as near the one with the even pattern is taken.
pub proof fn narrowing_is_nearest(d: Double, r: Single, other: Single)
    requires
        !d.is_nan(),
        !other.is_nan(),
        call_ensures(Double::narrow, (d,), r),
    ensures
        !r.is_nan(),
        ({
            let near = gap(narrow_value(r), d.scaled());
            let far = gap(narrow_value(other), d.scaled());
            near <= far && (near == far && narrow_value(r) != narrow_value(other) ==> r.bits % 2
                == 0)
        }),
{
    let p = NARROW as nat;
    let scale = pow2(925);
    let u = d.units();
    lemma_pow2_pos(925);
    lemma_narrow_nearest_exists(u, NARROW_TOP as nat);
    let m = narrow_nearest(u);
    let t = other.magnitude();
    assert(r.magnitude() == m);
    assert(r.negative() == d.negative());
    lemma_grid_fields(p, 0, 0);
    assert(grid(p, 0) * scale == 0) by (nonlinear_arith)
        requires
            grid(p, 0) == 0,
    ;
    let near = distance(grid(p, m) * scale, u);
    let at_zero = distance(grid(p, 0) * scale, u);
    let far = distance(grid(p, t) * scale, u);
    assert(at_zero == u);
    assert(m != 0 ==> near < at_zero || near == at_zero && m % 2 == 0);
    assert(m != t ==> near < far || near == far && m % 2 == 0);
    assert(grid(p, t) * scale >= 0) by (nonlinear_arith)
        requires
            grid(p, t) >= 0,
            scale > 0,
    ;
}

/// What is computed of `binary32` numbers is what is computed of them as `binary64` numbers,
/// narrowed.
pub proof fn singles_are_computed_as_doubles(
    a: Single,
    b: Single,
    sum: (Single, Double),
    difference: (Single, Double),
    product: (Single, Double),
    quotient: (Single, Double),
    root: (Single, Double),
)
    requires
        call_ensures(Single::plus, (a, b), sum.0),
        call_ensures(Double::plus, (widened(a), widened(b)), sum.1),
        call_ensures(Single::minus, (a, b), difference.0),
        call_ensures(Double::minus, (widened(a), widened(b)), difference.1),
        call_ensures(Single::times, (a, b), product.0),
        call_ensures(Double::times, (widened(a), widened(b)), product.1),
        call_ensures(Single::divided_by, (a, b), quotient.0),
        call_ensures(Double::divided_by, (widened(a), widened(b)), quotient.1),
        call_ensures(Single::square_root, (a,), root.0),
        call_ensures(Double::square_root, (widened(a),), root.1),
    ensures
        sum.0 == narrowed(sum.1),
        difference.0 == narrowed(difference.1),
        product.0 == narrowed(product.1),
        quotient.0 == narrowed(quotient.1),
        root.0 == narrowed(root.1),
{
}

/// Widening keeps the value and the sign of a finite `binary32` number.
pub proof fn widening_keeps_the_value(s: Single, r: Double)
    requires
        s.magnitude() < 0x7f80_0000,
        call_ensures(Single::widen, (s,), r),
    ensures
        r.is_finite(),
        r.negative() == s.negative(),
        r.scaled() == narrow_value(s),
{
    lemma_widened(s);
}

/// A remainder is exact, has the sign of what is divided, and is below the divisor; what is given
/// in place of one below zero is the remainder and the size of the divisor, added.
pub proof fn remainders_are_exact(
    a: Single,
    b: Single,
    size: Single,
    r: Single,
    e: Single,
    s: Single,
)
    requires
        a.magnitude() < 0x7f80_0000,
        0 < b.magnitude() < 0x7f80_0000,
        size.bits == b.magnitude(),
        call_ensures(Single::remainder, (a, b), r),
        call_ensures(Single::rem_euclid, (a, b), e),
        call_ensures(Single::plus, (r, size), s),
    ensures
        r.magnitude() < 0x7f80_0000,
        r.negative() == a.negative(),
        r.units() == a.units() % b.units(),
        r.negative() && r.units() > 0 ==> e == s,
        !r.negative() || r.units() == 0 ==> e == r,
{
    let zero = Single { bits: 0 };
    lemma_widened(r);
    lemma_widened(zero);
    lemma_pow2_pos(925);
    lemma_grid_fields(NARROW as nat, 0, 0);
    assert(zero.units() == 0);
    let (u, c) = (r.units(), pow2(925));
    assert(u > 0 ==> u * c > 0) by (nonlinear_arith)
        requires
            c > 0,
    ;
    assert(u == 0 ==> u * c == 0) by (nonlinear_arith);
    assert(0 * c == 0) by (nonlinear_arith);
}

} // verus!
