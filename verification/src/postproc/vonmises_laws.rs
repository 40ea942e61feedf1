//! What holds of the von Mises stress as it is computed, rounding included.
use crate::arithmetic::{
    difference, integer, is_nearest_root, lemma_exact_integer, lemma_nearest_at_most,
    lemma_nearest_exists, lemma_nearest_of, lemma_nearest_root_exists, nearest_root, opposite,
    product, quotient, root, sum,
};
use crate::double::{
    grid, lemma_grid_fields, lemma_grid_increases, lemma_order, Double, WIDE, WIDE_TOP,
};
use crate::formula::{real_over, real_times};
use crate::postproc::vonmises::{squared, stresses_at, von_mises, von_mises_squared};
use vstd::arithmetic::mul::*;
use vstd::arithmetic::power2::*;
use vstd::bits::*;
use vstd::prelude::*;

verus! {

/// The von Mises stress of a cell.
pub open spec fn von_mises_of(s: Seq<Double>) -> Double {
    root(von_mises_squared(s))
}

/// A square does not depend on the sign.
proof fn lemma_square(a: Double, b: Double)
    requires
        a.magnitude() == b.magnitude() || (a.is_nan() && b.is_nan()),
    ensures
        squared(a) == squared(b),
{
}

proof fn lemma_opposite(a: Double)
    ensures
        opposite(a).magnitude() == a.magnitude(),
        opposite(a).scaled() == -a.scaled(),
        opposite(a).negative() == !a.negative(),
        opposite(opposite(a)) == a,
{
}

/// The square of a difference depends on the exact difference alone.
proof fn lemma_square_of_difference(a: Double, b: Double, c: Double, d: Double)
    requires
        a.is_finite(),
        b.is_finite(),
        c.is_finite(),
        d.is_finite(),
        a.scaled() - b.scaled() == c.scaled() - d.scaled(),
    ensures
        squared(difference(a, b)) == squared(difference(c, d)),
{
    lemma_opposite(b);
    lemma_opposite(d);
    lemma_square(difference(a, b), difference(c, d));
}

/// Adding the same to the three normal stresses leaves the von Mises stress as it is, to the last
/// bit, where the sums are exact.
pub proof fn exact_pressure_does_not_count(s: Seq<Double>, t: Seq<Double>, p: int)
    requires
        s.len() == 6,
        t.len() == 6,
        forall|i: int| 0 <= i < 3 ==> (#[trigger] s[i]).is_finite() && t[i].is_finite(),
        forall|i: int| 0 <= i < 3 ==> (#[trigger] t[i]).scaled() == s[i].scaled() + p,
        forall|i: int| 3 <= i < 6 ==> #[trigger] t[i] == s[i],
    ensures
        von_mises_of(t) == von_mises_of(s),
{
    assert(t[0].scaled() == s[0].scaled() + p);
    assert(t[1].scaled() == s[1].scaled() + p);
    assert(t[2].scaled() == s[2].scaled() + p);
    assert(s[0].is_finite() && s[1].is_finite() && s[2].is_finite());
    lemma_square_of_difference(s[0], s[1], t[0], t[1]);
    lemma_square_of_difference(s[1], s[2], t[1], t[2]);
    lemma_square_of_difference(s[2], s[0], t[2], t[0]);
    assert(t[3] == s[3] && t[4] == s[4] && t[5] == s[5]);
}

proof fn lemma_square_of_opposites(a: Double, b: Double)
    ensures
        squared(difference(opposite(a), opposite(b))) == squared(difference(a, b)),
{
    lemma_opposite(a);
    lemma_opposite(b);
    lemma_opposite(opposite(b));
    let x = difference(a, b);
    let y = difference(opposite(a), opposite(b));
    if a.is_finite() && b.is_finite() {
        let s = a.scaled() - b.scaled();
        if s > 0 {
            lemma_nearest_exists(1, s as nat, WIDE_TOP as nat);
        } else if s < 0 {
            lemma_nearest_exists(1, (-s) as nat, WIDE_TOP as nat);
        }
    }
    lemma_square(x, y);
}

/// Changing the signs of all stresses leaves the von Mises stress as it is, to the last bit.
pub proof fn signs_do_not_count(s: Seq<Double>, t: Seq<Double>)
    requires
        s.len() == 6,
        t.len() == 6,
        forall|i: int| 0 <= i < 6 ==> #[trigger] t[i] == opposite(s[i]),
    ensures
        von_mises_of(t) == von_mises_of(s),
{
    assert(t[0] == opposite(s[0]) && t[1] == opposite(s[1]) && t[2] == opposite(s[2]));
    assert(t[3] == opposite(s[3]) && t[4] == opposite(s[4]) && t[5] == opposite(s[5]));
    lemma_square_of_opposites(s[0], s[1]);
    lemma_square_of_opposites(s[1], s[2]);
    lemma_square_of_opposites(s[2], s[0]);
    lemma_opposite(s[3]);
    lemma_opposite(s[4]);
    lemma_opposite(s[5]);
    lemma_square(s[3], t[3]);
    lemma_square(s[4], t[4]);
    lemma_square(s[5], t[5]);
}

/// A cell's von Mises stress depends on the stresses of that cell alone: rearranging the cells of
/// all six components alike rearranges the result alike.
pub proof fn cells_stand_alone(
    sig: Seq<Vec<Double>>,
    tau: Seq<Vec<Double>>,
    place: spec_fn(int) -> int,
    k: int,
)
    requires
        sig.len() == 6,
        tau.len() == 6,
        forall|i: int| 0 <= i < 6 ==> (#[trigger] tau[i])@[k] == sig[i]@[place(k)],
    ensures
        von_mises_of(stresses_at(tau, k)) == von_mises_of(stresses_at(sig, place(k))),
{
    assert(stresses_at(tau, k) =~= stresses_at(sig, place(k)));
}

/// Whether a number is finite and at most `n` in size.
pub open spec fn at_most(d: Double, n: nat) -> bool {
    d.is_finite() && d.units() <= n * pow2(1074)
}

/// Where a natural number stands on the grid.
proof fn lemma_place_of(n: nat) -> (g: nat)
    requires
        n < 2 * WIDE,
    ensures
        g < WIDE_TOP,
        grid(WIDE as nat, g) == n * pow2(1074),
{
    lemma_exact_integer(n as int);
    integer(n as int).magnitude()
}

proof fn lemma_at_most(d: Double, g: nat, n: nat)
    requires
        d.magnitude() <= g,
        g < WIDE_TOP,
        grid(WIDE as nat, g) == n * pow2(1074),
    ensures
        at_most(d, n),
{
    if d.magnitude() < g {
        lemma_grid_increases(WIDE as nat, d.magnitude(), g);
    }
}

proof fn lemma_sum_at_most(a: Double, b: Double, n: nat, m: nat)
    requires
        at_most(a, n),
        at_most(b, m),
        n + m < 2 * WIDE,
    ensures
        at_most(sum(a, b), n + m),
        !a.negative() && !b.negative() ==> !sum(a, b).negative(),
{
    let g = lemma_place_of(n + m);
    let unit = pow2(1074);
    assert((n + m) * unit == n * unit + m * unit) by (nonlinear_arith);
    let s = a.scaled() + b.scaled();
    let u = (if s < 0 {
        -s
    } else {
        s
    }) as nat;
    lemma_mul_basics(grid(WIDE as nat, g) as int);
    lemma_nearest_at_most(1, u, g);
    lemma_at_most(sum(a, b), g, n + m);
}

proof fn lemma_product_at_most(a: Double, b: Double, n: nat, m: nat)
    requires
        at_most(a, n),
        at_most(b, m),
        n * m < 2 * WIDE,
    ensures
        at_most(product(a, b), n * m),
        a.negative() == b.negative() ==> !product(a, b).negative(),
{
    let g = lemma_place_of(n * m);
    let unit = pow2(1074);
    lemma_pow2_pos(1074);
    let (x, y) = (a.units(), b.units());
    assert(x * y <= ((n * m) * unit) * unit) by (nonlinear_arith)
        requires
            x <= n * unit,
            y <= m * unit,
    ;
    lemma_nearest_at_most(unit, x * y, g);
    lemma_at_most(product(a, b), g, n * m);
}

proof fn lemma_half_at_most(a: Double, n: nat)
    requires
        at_most(a, n),
        n < 2 * WIDE,
    ensures
        at_most(quotient(a, integer(2)), n),
        !a.negative() ==> !quotient(a, integer(2)).negative(),
{
    let g = lemma_place_of(n);
    let unit = pow2(1074);
    lemma_pow2_pos(1074);
    lemma_exact_integer(2);
    let two = integer(2);
    let x = a.units();
    let v = two.units();
    assert(v == 2 * unit);
    if two.magnitude() == 0 {
        lemma_grid_fields(WIDE as nat, 0, 0);
    }
    assert(x * unit <= (n * unit) * v) by (nonlinear_arith)
        requires
            x <= n * unit,
            v == 2 * unit,
            unit > 0,
    ;
    lemma_nearest_at_most(v, x * unit, g);
    lemma_at_most(quotient(a, two), g, n);
}

/// The square of the von Mises stress of stresses up to `n` in size.
proof fn lemma_radicand(s: Seq<Double>, n: nat)
    requires
        s.len() == 6,
        n <= 0x10_0000,
        forall|i: int| 0 <= i < 6 ==> at_most(#[trigger] s[i], n),
    ensures
        at_most(von_mises_squared(s), 0x2000_0000_0000),
        !von_mises_squared(s).negative(),
{
    assert(at_most(s[0], n) && at_most(s[1], n) && at_most(s[2], n));
    assert(at_most(s[3], n) && at_most(s[4], n) && at_most(s[5], n));
    let big = 0x10_0000nat;
    assert(n * pow2(1074) <= big * pow2(1074)) by (nonlinear_arith)
        requires
            n <= big,
    ;
    let a = lemma_square_at_most(s[0], s[1]);
    let b = lemma_square_at_most(s[1], s[2]);
    let c = lemma_square_at_most(s[2], s[0]);
    let d = lemma_shear_at_most(s[3]);
    let e = lemma_shear_at_most(s[4]);
    let f = lemma_shear_at_most(s[5]);
    let q = 0x400_0000_0000nat;
    let r = 0x600_0000_0000nat;
    lemma_sum_at_most(a, b, q, q);
    let ab = sum(a, b);
    lemma_sum_at_most(ab, c, 2 * q, q);
    let abc = sum(ab, c);
    lemma_sum_at_most(abc, d, 3 * q, r);
    let abcd = sum(abc, d);
    lemma_sum_at_most(abcd, e, 3 * q + r, r);
    let abcde = sum(abcd, e);
    lemma_sum_at_most(abcde, f, 3 * q + 2 * r, r);
    let all = sum(abcde, f);
    let total = 3 * q + 3 * r;
    lemma_half_at_most(all, total);
    let x = quotient(all, integer(2));
    assert(total * pow2(1074) <= 0x2000_0000_0000 * pow2(1074)) by (nonlinear_arith)
        requires
            total <= 0x2000_0000_0000,
    ;
    assert(von_mises_squared(s) == x);
}

proof fn lemma_square_at_most(a: Double, b: Double) -> (r: Double)
    requires
        at_most(a, 0x10_0000),
        at_most(b, 0x10_0000),
    ensures
        r == squared(difference(a, b)),
        at_most(r, 0x400_0000_0000),
        !r.negative(),
{
    lemma_opposite(b);
    lemma_sum_at_most(a, opposite(b), 0x10_0000, 0x10_0000);
    let d = difference(a, b);
    lemma_product_at_most(d, d, 0x20_0000, 0x20_0000);
    squared(d)
}

proof fn lemma_shear_at_most(a: Double) -> (r: Double)
    requires
        at_most(a, 0x10_0000),
    ensures
        r == product(integer(6), squared(a)),
        at_most(r, 0x600_0000_0000),
        !r.negative(),
{
    lemma_product_at_most(a, a, 0x10_0000, 0x10_0000);
    lemma_exact_integer(6);
    lemma_product_at_most(integer(6), squared(a), 6, 0x100_0000_0000);
    product(integer(6), squared(a))
}

/// A positive finite number has a nearest square root.
pub proof fn lemma_root_exists(a: Double)
    requires
        a.is_finite(),
        a.magnitude() > 0,
    ensures
        ({
            let u = a.units() * pow2(1074);
            is_nearest_root(u, nearest_root(u))
        }),
{
    let p = WIDE as nat;
    let unit = pow2(1074);
    let u = a.units() * unit;
    let top = grid(p, (WIDE_TOP - 1) as nat);
    let t = pow2(2045);
    // The largest number is far above the root.
    lemma2_to64();
    lemma2_to64_rest();
    lemma_pow2_pos(1074);
    lemma_pow2_pos(2045);
    lemma_pow2_unfold(2046);
    lemma_pow2_adds(1074, 971);
    lemma_pow2_strictly_increases(60, 971);
    lemma_grid_fields(p, 2046, (WIDE - 1) as nat);
    lemma_grid_fields(p, 2047, 0);
    lemma_grid_increases(p, a.magnitude(), WIDE_TOP as nat);
    let k = pow2(971);
    let x = a.units();
    assert(x <= p * (2 * t));
    assert(top >= p * t) by (nonlinear_arith)
        requires
            top == (p + (WIDE - 1)) * t,
            WIDE >= 1,
            t >= 0,
    ;
    assert(t >= 8 * unit) by (nonlinear_arith)
        requires
            t == unit * k,
            k >= 8,
            unit >= 0,
    ;
    assert(4 * u <= (p * t) * (8 * unit)) by (nonlinear_arith)
        requires
            u == x * unit,
            x <= p * (2 * t),
            unit >= 0,
    ;
    assert((p * t) * (8 * unit) < (p * t) * (p * t)) by (nonlinear_arith)
        requires
            t >= 8 * unit,
            p >= 2,
            t > 0,
    ;
    assert((p * t) * (p * t) <= top * top) by (nonlinear_arith)
        requires
            top >= p * t,
            p * t >= 0,
    ;
    lemma_nearest_root_exists(u, 0);
}

/// A square root is never less than zero, and that of a number that is not negative is a number.
pub proof fn roots_are_not_negative(a: Double)
    ensures
        !root(a).is_below(Double { bits: 0 }),
        !a.is_nan() && !a.negative() ==> !root(a).is_nan(),
{
    let zero = Double { bits: 0 };
    lemma_grid_fields(WIDE as nat, 0, 0);
    if a.is_finite() && a.magnitude() > 0 {
        lemma_root_exists(a);
    }
    lemma_order(root(a), zero);
}

/// Of stresses up to 2^20 in size, integers or not, the von Mises stress is a number, and not
/// negative.
pub proof fn von_mises_is_not_negative(s: Seq<Double>)
    requires
        s.len() == 6,
        forall|i: int| 0 <= i < 6 ==> at_most(#[trigger] s[i], 0x10_0000),
    ensures
        !von_mises_of(s).is_nan(),
        !von_mises_of(s).is_below(Double { bits: 0 }),
{
    lemma_radicand(s, 0x10_0000);
    roots_are_not_negative(von_mises_squared(s));
}

/// The stresses of integers up to 2^20 in size meet what the laws above ask: they are finite and
/// of that size, and an integer pressure of that size shifts them exactly.
pub proof fn integer_stresses(n: int, p: int)
    requires
        -0x10_0000 <= n <= 0x10_0000,
        -0x10_0000 <= p <= 0x10_0000,
    ensures
        at_most(integer(n), 0x10_0000),
        integer(n + p).is_finite(),
        integer(n + p).scaled() == integer(n).scaled() + p * pow2(1074),
        sum(integer(n), integer(p)).scaled() == integer(n + p).scaled(),
        sum(integer(n), integer(p)).is_finite(),
{
    let unit = pow2(1074);
    lemma_exact_integer(n);
    lemma_exact_integer(p);
    lemma_exact_integer(n + p);
    assert((n + p) * unit == n * unit + p * unit) by (nonlinear_arith);
    assert(-(0x10_0000 * unit) <= n * unit <= 0x10_0000 * unit) by (nonlinear_arith)
        requires
            -0x10_0000 <= n <= 0x10_0000,
            unit >= 0,
    ;
    let exact = integer(n + p);
    lemma_nearest_of(exact);
    lemma_grid_fields(WIDE as nat, 0, 0);
}

/// The square of a difference.
proof fn lemma_difference_squared(a: real, b: real)
    ensures
        (a - b) * (a - b) == a * a - 2real * (a * b) + b * b,
{
    assert((a - b) * (a - b) == a * a - 2real * (a * b) + b * b) by (nonlinear_arith);
}

/// In exact arithmetic the square of the von Mises stress is one and a half times the sum of the
/// squares of all nine components of the stress, less the mean of the three normal ones: the
/// stresses are given in the order xx, yy, zz, xy, xz, yz, and each of the last three counts twice.
pub proof fn von_mises_measures_the_distortion(s: Seq<real>, m: real)
    requires
        s.len() == 6,
        3real * m == s[0] + s[1] + s[2],
    ensures
        von_mises_squared(s) == 3real / 2real * ((s[0] - m) * (s[0] - m) + (s[1] - m) * (s[1] - m)
            + (s[2] - m) * (s[2] - m) + 2real * (s[3] * s[3]) + 2real * (s[4] * s[4]) + 2real * (
        s[5] * s[5])),
{
    reveal(real_times);
    reveal(real_over);
    let (a, b, c) = (s[0] - m, s[1] - m, s[2] - m);
    assert(s[0] - s[1] == a - b && s[1] - s[2] == b - c && s[2] - s[0] == c - a);
    lemma_difference_squared(a, b);
    lemma_difference_squared(b, c);
    lemma_difference_squared(c, a);
    assert(a * c == c * a) by (nonlinear_arith);
    // Since the three sum to zero, so do their products in pairs and half their squares.
    assert(c == 0real - a - b);
    assert(c * c == a * a + 2real * (a * b) + b * b) by (nonlinear_arith)
        requires
            c == 0real - a - b,
    ;
    assert(b * c == 0real - a * b - b * b) by (nonlinear_arith)
        requires
            c == 0real - a - b,
    ;
    assert(c * a == 0real - a * a - a * b) by (nonlinear_arith)
        requires
            c == 0real - a - b,
    ;
    let (x, y, z) = (s[3] * s[3], s[4] * s[4], s[5] * s[5]);
    let q = (a - b) * (a - b) + (b - c) * (b - c) + (c - a) * (c - a) + 6real * x + 6real * y
        + 6real * z;
    assert(von_mises_squared(s) == q / 2real);
}

/// In each cell the field holds the root of the formula for the six stresses in that cell, in the
/// order of the components.
pub proof fn field_holds_the_stress_of_each_cell(sig: [Vec<Double>; 6], r: Vec<Double>, k: int)
    requires
        forall|i: int| 0 <= i < 6 ==> (#[trigger] sig@[i])@.len() >= sig@[0]@.len(),
        call_ensures(von_mises, (&sig,), r),
        0 <= k < sig@[0]@.len(),
    ensures
        r@.len() == sig@[0]@.len(),
        r@[k] == root(
            von_mises_squared(
                seq![
                    sig@[0]@[k],
                    sig@[1]@[k],
                    sig@[2]@[k],
                    sig@[3]@[k],
                    sig@[4]@[k],
                    sig@[5]@[k],
                ],
            ),
        ),
{
    assert(stresses_at(sig@, k) =~= seq![
        sig@[0]@[k],
        sig@[1]@[k],
        sig@[2]@[k],
        sig@[3]@[k],
        sig@[4]@[k],
        sig@[5]@[k],
    ]);
}

} // verus!
