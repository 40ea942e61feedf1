//! The arithmetic of `binary64` numbers: each operation gives the number nearest to the exact
//! result.
use crate::double::{
    distance, grid, grid_step, is_nearest, lemma_grid_fields, lemma_grid_increases, lemma_grid_step,
    lemma_nearest, lemma_normal_shift, lemma_order, Double, WIDE, WIDE_SIGN, WIDE_TOP,
};
use vstd::arithmetic::div_mod::*;
use vstd::arithmetic::mul::*;
use vstd::arithmetic::power2::*;
use vstd::bits::*;
use vstd::prelude::*;

verus! {

/// The magnitude of the number nearest to `u / scale` units.
pub open spec fn nearest(scale: nat, u: nat) -> nat {
    choose|m: nat| is_nearest(WIDE as nat, WIDE_TOP as nat, scale, u, m)
}

/// The pattern of the number with the given sign and magnitude.
pub open spec fn signed(negative: bool, m: nat) -> Double {
    Double {
        bits: (if negative {
            WIDE_SIGN + m
        } else {
            m as int
        }) as u64,
    }
}

/// The pattern that stands for "not a number" in results.
pub open spec fn not_a_number() -> Double {
    Double { bits: 0x7ff8_0000_0000_0000 }
}

/// `a + b`.
pub open spec fn sum(a: Double, b: Double) -> Double {
    if a.is_nan() || b.is_nan() {
        not_a_number()
    } else if !a.is_finite() {
        if !b.is_finite() && a.negative() != b.negative() {
            not_a_number()
        } else {
            a
        }
    } else if !b.is_finite() {
        b
    } else {
        let s = a.scaled() + b.scaled();
        if s == 0 {
            signed(a.negative() && b.negative(), 0)
        } else if s > 0 {
            signed(false, nearest(1, s as nat))
        } else {
            signed(true, nearest(1, (-s) as nat))
        }
    }
}

/// `-a`.
pub open spec fn opposite(a: Double) -> Double {
    signed(!a.negative(), a.magnitude())
}

/// `a - b`.
pub open spec fn difference(a: Double, b: Double) -> Double {
    sum(a, opposite(b))
}

/// `a * b`.
pub open spec fn product(a: Double, b: Double) -> Double {
    let negative = a.negative() != b.negative();
    if a.is_nan() || b.is_nan() {
        not_a_number()
    } else if !a.is_finite() || !b.is_finite() {
        if a.magnitude() == 0 || b.magnitude() == 0 {
            not_a_number()
        } else {
            signed(negative, WIDE_TOP as nat)
        }
    } else {
        signed(negative, nearest(pow2(1074), a.units() * b.units()))
    }
}

/// `a / b`.
pub open spec fn quotient(a: Double, b: Double) -> Double {
    let negative = a.negative() != b.negative();
    if a.is_nan() || b.is_nan() {
        not_a_number()
    } else if !a.is_finite() {
        if !b.is_finite() {
            not_a_number()
        } else {
            signed(negative, WIDE_TOP as nat)
        }
    } else if !b.is_finite() {
        signed(negative, 0)
    } else if b.magnitude() == 0 {
        if a.magnitude() == 0 {
            not_a_number()
        } else {
            signed(negative, WIDE_TOP as nat)
        }
    } else {
        signed(negative, nearest(b.units(), a.units() * pow2(1074)))
    }
}

/// No two magnitudes are both the nearest.
pub proof fn lemma_nearest_unique(p: nat, top: nat, scale: nat, u: nat, a: nat, b: nat)
    requires
        p > 1,
        scale > 0,
        is_nearest(p, top, scale, u, a),
        is_nearest(p, top, scale, u, b),
    ensures
        a == b,
{
    if a != b {
        let low = if a < b {
            a
        } else {
            b
        };
        let high = if a < b {
            b
        } else {
            a
        };
        assert(distance(grid(p, a) * scale, u) == distance(grid(p, b) * scale, u));
        assert(low % 2 == 0 && high % 2 == 0);
        let t = (low + 1) as nat;
        lemma_grid_increases(p, low, t);
        lemma_grid_increases(p, t, high);
        lemma_mul_strict_inequality(grid(p, low) as int, grid(p, t) as int, scale as int);
        lemma_mul_strict_inequality(grid(p, t) as int, grid(p, high) as int, scale as int);
        assert(distance(grid(p, t) * scale, u) < distance(grid(p, low) * scale, u) || distance(
            grid(p, t) * scale,
            u,
        ) < distance(grid(p, high) * scale, u));
    }
}

/// Where a magnitude is the nearest, it is the one that `nearest` names.
pub proof fn lemma_is_nearest(scale: nat, u: nat, m: nat)
    requires
        scale > 0,
        is_nearest(WIDE as nat, WIDE_TOP as nat, scale, u, m),
    ensures
        nearest(scale, u) == m,
{
    lemma_nearest_unique(WIDE as nat, WIDE_TOP as nat, scale, u, m, nearest(scale, u));
}

/// A number on the grid is nearest to itself.
pub proof fn lemma_nearest_exact(p: nat, top: nat, scale: nat, u: nat, m: nat)
    requires
        p > 1,
        scale > 0,
        m <= top,
        u == grid(p, m) * scale,
    ensures
        is_nearest(p, top, scale, u, m),
{
    if m < top {
        lemma_grid_increases(p, m, m + 1);
        lemma_mul_strict_inequality(grid(p, m) as int, grid(p, m + 1) as int, scale as int);
        lemma_grid_step(p, m);
        assert(grid_step(p, m) * scale > 0) by (nonlinear_arith)
            requires
                grid_step(p, m) > 0,
                scale > 0,
        ;
    }
    lemma_nearest(p, top, scale, u, m, m);
}

/// A number whose value is known is the nearest to it.
pub proof fn lemma_nearest_of(d: Double)
    requires
        !d.is_nan(),
    ensures
        nearest(1, d.units()) == d.magnitude(),
        d == signed(d.negative(), d.magnitude()),
{
    lemma_mul_basics(d.units() as int);
    lemma_nearest_exact(WIDE as nat, WIDE_TOP as nat, 1, d.units(), d.magnitude());
    lemma_is_nearest(1, d.units(), d.magnitude());
}

/// The number nearest to the integer `n`.
pub open spec fn integer(n: int) -> Double {
    signed(
        n < 0,
        nearest(
            1,
            (if n < 0 {
                -n
            } else {
                n
            }) as nat * pow2(1074),
        ),
    )
}

/// Where an integer of up to 53 bits stands on the grid.
proof fn lemma_integer_place(n: nat) -> (m: nat)
    requires
        n < 2 * WIDE,
    ensures
        m < WIDE_TOP,
        grid(WIDE as nat, m) == n * pow2(1074),
{
    lemma2_to64();
    lemma2_to64_rest();
    if n == 0 {
        lemma_grid_fields(WIDE as nat, 0, 0);
        assert(0 * pow2(1074) == 0) by (nonlinear_arith);
        0
    } else {
        lemma_mul_basics(n as int);
        let t = lemma_normal_shift(n, 0);
        if t > 52 {
            lemma_pow2_unfold(53);
            if t > 53 {
                lemma_pow2_strictly_increases(53, t);
            }
        }
        let v = n * pow2(t);
        let e = (1075 - t) as nat;
        lemma_grid_fields(WIDE as nat, e, (v - WIDE) as nat);
        lemma_pow2_adds(t, (1074 - t) as nat);
        let a = pow2(t);
        let b = pow2((1074 - t) as nat);
        assert(n * (a * b) == (n * a) * b) by (nonlinear_arith);
        e * (WIDE as nat) + (v - WIDE) as nat
    }
}

/// An integer of up to 53 bits is exactly a number.
pub proof fn lemma_exact_integer(n: int)
    requires
        -2 * WIDE < n < 2 * WIDE,
    ensures
        integer(n).is_finite(),
        integer(n).scaled() == n * pow2(1074),
        integer(n).negative() == (n < 0),
{
    let a = (if n < 0 {
        -n
    } else {
        n
    }) as nat;
    let m = lemma_integer_place(a);
    lemma_nearest_of(signed(n < 0, m));
    if n < 0 {
        assert(-(a * pow2(1074)) == n * pow2(1074)) by (nonlinear_arith)
            requires
                a == -n,
        ;
    }
}

/// There is always a nearest number.
pub proof fn lemma_nearest_exists(scale: nat, u: nat, low: nat)
    requires
        scale > 0,
        low <= WIDE_TOP,
        low < WIDE_TOP ==> u < grid(WIDE as nat, low + 1) * scale,
    ensures
        is_nearest(WIDE as nat, WIDE_TOP as nat, scale, u, nearest(scale, u)),
    decreases low,
{
    let p = WIDE as nat;
    if grid(p, low) * scale <= u {
        let rest = 2 * (u - grid(p, low) * scale);
        let step = grid_step(p, low) * scale;
        let m = if low < WIDE_TOP && (rest > step || (rest == step && low % 2 == 1)) {
            low + 1
        } else {
            low
        };
        lemma_nearest(p, WIDE_TOP as nat, scale, u, low, m);
    } else {
        lemma_grid_fields(p, 0, 0);
        assert(low > 0) by {
            if low == 0 {
                assert(0 * scale == 0) by (nonlinear_arith);
            }
        }
        lemma_nearest_exists(scale, u, (low - 1) as nat);
    }
}

/// What is not below a number on the grid is not rounded below it.
pub proof fn lemma_nearest_at_least(u: nat, g: nat)
    requires
        g <= WIDE_TOP,
        grid(WIDE as nat, g) <= u,
    ensures
        WIDE_TOP >= nearest(1, u) >= g,
{
    let p = WIDE as nat;
    lemma_nearest_exists(1, u, WIDE_TOP as nat);
    let m = nearest(1, u);
    if m < g {
        lemma_grid_increases(p, m, g);
        lemma_mul_basics(grid(p, m) as int);
        lemma_mul_basics(grid(p, g) as int);
        assert(distance(grid(p, g) * 1, u) < distance(grid(p, m) * 1, u));
    }
}

/// What is not above a number on the grid is not rounded above it.
pub proof fn lemma_nearest_at_most(scale: nat, u: nat, g: nat)
    requires
        scale > 0,
        g <= WIDE_TOP,
        u <= grid(WIDE as nat, g) * scale,
    ensures
        nearest(scale, u) <= g,
{
    let p = WIDE as nat;
    lemma_nearest_exists(scale, u, WIDE_TOP as nat);
    let m = nearest(scale, u);
    if m > g {
        lemma_grid_increases(p, g, m);
        lemma_mul_strict_inequality(grid(p, g) as int, grid(p, m) as int, scale as int);
        assert(distance(grid(p, g) * scale, u) < distance(grid(p, m) * scale, u));
    }
}

/// Scaling the number and the grid alike changes nothing.
proof fn lemma_nearest_scale(p: nat, top: nat, scale: nat, u: nat, c: nat, m: nat)
    requires
        c > 0,
        is_nearest(p, top, scale * c, u * c, m),
    ensures
        is_nearest(p, top, scale, u, m),
{
    assert forall|t: nat| t <= top && t != m implies {
        let near = distance(grid(p, m) * scale, u);
        let other = #[trigger] distance(grid(p, t) * scale, u);
        near < other || (near == other && m % 2 == 0)
    } by {
        lemma_distance_scale(grid(p, m), scale, u, c);
        lemma_distance_scale(grid(p, t), scale, u, c);
        let near = distance(grid(p, m) * scale, u);
        let other = distance(grid(p, t) * scale, u);
        assert(distance(grid(p, t) * (scale * c), u * c) == other * c);
        assert(near * c < other * c ==> near < other) by (nonlinear_arith);
        assert(near * c == other * c ==> near == other) by (nonlinear_arith)
            requires
                c > 0,
        ;
    }
}

proof fn lemma_distance_scale(g: nat, scale: nat, u: nat, c: nat)
    requires
        c > 0,
    ensures
        distance(g * (scale * c), u * c) == distance(g * scale, u) * c,
{
    let a = g * scale;
    assert(g * (scale * c) == a * c) by (nonlinear_arith)
        requires
            a == g * scale,
    ;
    if a <= u {
        assert(a * c <= u * c) by (nonlinear_arith)
            requires
                a <= u,
        ;
        assert(u * c - a * c == (u - a) * c) by (nonlinear_arith);
    } else {
        assert(a * c > u * c) by (nonlinear_arith)
            requires
                a > u,
                c > 0,
        ;
        assert(a * c - u * c == (a - u) * c) by (nonlinear_arith);
    }
}

/// Rounding a number of `q * d + rest` parts, each worth `k`, and `delta` more, to a grid that has
/// `low` at `q * d` parts and steps by `d` of them there.
proof fn lemma_round_sticky(
    p: nat,
    top: nat,
    scale: nat,
    u: nat,
    low: nat,
    q: nat,
    d: nat,
    rest: nat,
    k: nat,
    delta: nat,
    m: nat,
)
    requires
        p > 1,
        scale > 0,
        low < top,
        rest < d,
        d % 2 == 0,
        delta < k,
        u == (q * d + rest) * k + delta,
        grid(p, low) * scale == (q * d) * k,
        grid_step(p, low) * scale == d * k,
        m == if 2 * rest > d || (2 * rest == d && (delta > 0 || low % 2 == 1)) {
            low + 1
        } else {
            low
        },
    ensures
        is_nearest(p, top, scale, u, m),
{
    assert((q * d + rest) * k == (q * d) * k + rest * k) by (nonlinear_arith);
    lemma_grid_step(p, low);
    assert(grid(p, low + 1) * scale == grid(p, low) * scale + grid_step(p, low) * scale) by {
        lemma_mul_is_distributive_add_other_way(
            scale as int,
            grid(p, low) as int,
            grid_step(p, low) as int,
        );
    }
    assert(rest * k + delta < d * k) by (nonlinear_arith)
        requires
            rest + 1 <= d,
            delta < k,
    ;
    if 2 * rest > d {
        assert(2 * (rest * k + delta) > d * k) by (nonlinear_arith)
            requires
                2 * rest > d,
                delta >= 0,
                k > 0,
        ;
    } else if 2 * rest == d {
        assert(2 * (rest * k) == d * k) by (nonlinear_arith)
            requires
                2 * rest == d,
        ;
    } else {
        assert(2 * rest + 2 <= d);
        assert(2 * (rest * k + delta) < d * k) by (nonlinear_arith)
            requires
                2 * rest + 2 <= d,
                0 <= delta < k,
        ;
    }
    lemma_nearest(p, top, scale, u, low, m);
}

/// 2 to the power of `n`.
fn two_to(n: u64) -> (r: u128)
    requires
        n <= 126,
    ensures
        r == pow2(n as nat),
{
    proof {
        lemma2_to64();
        lemma2_to64_rest();
    }
    if n <= 63 {
        proof {
            lemma_u64_pow2_no_overflow(n as nat);
            lemma_mul_basics(pow2(n as nat) as int);
            lemma_u64_shl_is_mul(1, n);
        }
        (1u64 << n) as u128
    } else {
        let h: u64 = n - 63;
        proof {
            lemma_u64_pow2_no_overflow(h as nat);
            lemma_mul_basics(pow2(h as nat) as int);
            lemma_u64_shl_is_mul(1, h);
            lemma_pow2_adds(63, h as nat);
            let a = pow2(h as nat);
            assert(0x8000_0000_0000_0000 * a <= 0x8000_0000_0000_0000 * 0xffff_ffff_ffff_ffff)
                by (nonlinear_arith)
                requires
                    a <= 0xffff_ffff_ffff_ffff,
            ;
        }
        0x8000_0000_0000_0000u128 * ((1u64 << h) as u128)
    }
}

/// `w` parts, each worth two to the power of `x` units: in terms of a scale, `k` for each part.
spec fn worth(x: int, scale: nat, k: nat) -> bool {
    &&& x >= 0 ==> k == scale * pow2(x as nat)
    &&& x < 0 ==> scale == k * pow2((-x) as nat)
}

/// The magnitude nearest to `w` times two to the power of `x` units, and a little more where
/// `sticky`.
fn pack(
    w: u128,
    x: i64,
    sticky: bool,
    Ghost(scale): Ghost<nat>,
    Ghost(u): Ghost<nat>,
    Ghost(k): Ghost<nat>,
    Ghost(delta): Ghost<nat>,
) -> (r: u64)
    requires
        pow2(54) <= w < pow2(126),
        -10000 <= x <= 10000,
        scale > 0,
        worth(x as int, scale, k),
        delta < k,
        u == w as nat * k + delta,
        sticky == (delta > 0),
    ensures
        r <= WIDE_TOP,
        is_nearest(WIDE as nat, WIDE_TOP as nat, scale, u, r as nat),
{
    let ghost p = WIDE as nat;
    let ghost top = WIDE_TOP as nat;
    let mut t: u64 = 2;
    let mut d: u128 = 4;
    proof {
        lemma2_to64();
        lemma2_to64_rest();
        lemma_pow2_adds(63, 63);
        lemma_pow2_adds(53, 73);
        lemma_pow2_strictly_increases(73, 126);
    }
    while w / d >= 0x20_0000_0000_0000
        invariant
            pow2((52 + t) as nat) <= w < pow2(126),
            2 <= t <= 73,
            d == pow2(t as nat),
            d > 0,
            pow2(53) == 0x20_0000_0000_0000,
            pow2(73) < pow2(126) < 0x7fff_ffff_ffff_ffff_ffff_ffff_ffff_ffff,
            pow2(126) == pow2(53) * pow2(73),
        decreases 80 - t,
    {
        proof {
            lemma_pow2_adds(53, t as nat);
            assert(w as nat >= 0x20_0000_0000_0000 * d as nat) by (nonlinear_arith)
                requires
                    w / d >= 0x20_0000_0000_0000,
                    d > 0,
            ;
            lemma_pow2_unfold((t + 1) as nat);
            if t == 73 {
            }
            if t + 1 < 73 {
                lemma_pow2_strictly_increases((t + 1) as nat, 73);
            }
        }
        t = t + 1;
        d = 2 * d;
    }
    let q: u128 = w / d;
    proof {
        lemma_pow2_adds(52, t as nat);
        lemma_pow2_unfold(t as nat);
        assert(q >= 0x10_0000_0000_0000) by (nonlinear_arith)
            requires
                w as nat >= 0x10_0000_0000_0000 * d as nat,
                q == w / d,
                d > 0,
        ;
    }
    let e: i64 = x + t as i64;
    if e >= 2046 {
        proof {
            lemma_grid_fields(p, 2047, 0);
            lemma_pow2_adds(52, 2046);
            // The whole is at least two to the power of 52 + t parts.
            lemma_pow2_adds(52 + t as nat, x as nat);
            if e > 2046 {
                lemma_pow2_strictly_increases(2098, (52 + e) as nat);
            }
            assert(w as nat * k >= pow2((52 + t) as nat) * k) by (nonlinear_arith)
                requires
                    w as nat >= pow2((52 + t) as nat),
            ;
            let a = pow2((52 + t) as nat);
            let b = pow2(x as nat);
            assert(a * (scale * b) == (a * b) * scale) by (nonlinear_arith);
            assert(pow2(2098) * scale <= (a * b) * scale) by (nonlinear_arith)
                requires
                    pow2(2098) <= a * b,
            ;
            assert(grid(p, top) * scale <= u);
            lemma_nearest(p, top, scale, u, top, top);
        }
        WIDE_TOP
    } else if e >= 0 {
        let rest: u128 = w % d;
        let low: u64 = (e as u64 + 1) * WIDE + (q as u64 - WIDE);
        let up: bool = rest > d - rest || (rest == d - rest && (sticky || low % 2 == 1));
        let r: u64 = if up {
            low + 1
        } else {
            low
        };
        proof {
            lemma_grid_fields(p, (e + 1) as nat, (q - WIDE) as nat);
            assert(w == q as nat * d as nat + rest as nat) by (nonlinear_arith)
                requires
                    q == w / d,
                    rest == w % d,
                    d > 0,
            ;
            let s = pow2(e as nat);
            lemma_scale_step(x as int, t as nat, scale, k);
            assert((q as nat * s) * scale == q as nat * (s * scale)) by (nonlinear_arith);
            assert(q as nat * (d as nat * k) == (q as nat * d as nat) * k) by (nonlinear_arith);
            lemma_round_sticky(
                p,
                top,
                scale,
                u,
                low as nat,
                q as nat,
                d as nat,
                rest as nat,
                k,
                delta,
                r as nat,
            );
        }
        r
    } else {
        let sh: u64 = (-x) as u64;
        if sh <= 126 {
            let d2: u128 = two_to(sh);
            proof {
                lemma_pow2_pos(sh as nat);
            }
            let q2: u128 = w / d2;
            let rest: u128 = w % d2;
            proof {
                lemma_pow2_unfold(sh as nat);
                lemma_pow2_adds(53, t as nat);
                lemma_pow2_adds(52, (t + 1) as nat);
                if sh > t + 1 {
                    lemma_pow2_strictly_increases((t + 1) as nat, sh as nat);
                }
                assert(w < 0x20_0000_0000_0000 * d as nat) by (nonlinear_arith)
                    requires
                        w / d < 0x20_0000_0000_0000,
                        d > 0,
                ;
                assert(q2 < WIDE) by (nonlinear_arith)
                    requires
                        w < 0x20_0000_0000_0000 * d as nat,
                        d2 as nat >= 2 * d as nat,
                        WIDE * 2 == 0x20_0000_0000_0000,
                        q2 == w / d2,
                        d > 0,
                ;
            }
            let low: u64 = q2 as u64;
            let up: bool = rest > d2 - rest || (rest == d2 - rest && (sticky || low % 2 == 1));
            let r: u64 = if up {
                low + 1
            } else {
                low
            };
            proof {
                lemma_grid_fields(p, 0, low as nat);
                assert(w == q2 as nat * d2 as nat + rest as nat) by (nonlinear_arith)
                    requires
                        q2 == w / d2,
                        rest == w % d2,
                        d2 > 0,
                ;
                lemma_mul_is_commutative(k as int, d2 as int);
                lemma_mul_basics(scale as int);
                assert(q2 as nat * (d2 as nat * k) == (q2 as nat * d2 as nat) * k)
                    by (nonlinear_arith);
                lemma_round_sticky(
                    p,
                    top,
                    scale,
                    u,
                    low as nat,
                    q2 as nat,
                    d2 as nat,
                    rest as nat,
                    k,
                    delta,
                    r as nat,
                );
            }
            r
        } else {
            proof {
                lemma_grid_fields(p, 0, 0);
                lemma_grid_fields(p, 0, 1);
                lemma_pow2_unfold(sh as nat);
                let h = pow2((sh - 1) as nat);
                if sh > 127 {
                    lemma_pow2_strictly_increases(126, (sh - 1) as nat);
                }
                assert(2 * u < (2 * h) * k) by (nonlinear_arith)
                    requires
                        w as nat + 1 <= pow2(126) <= h,
                        delta < k,
                        u == w as nat * k + delta,
                ;
                lemma_mul_is_commutative(k as int, (2 * h) as int);
                lemma_mul_basics(scale as int);
                lemma_nearest(p, top, scale, u, 0, 0);
            }
            0
        }
    }
}

/// A step of `t` powers of two takes a part's worth to that of a step of the grid.
proof fn lemma_scale_step(x: int, t: nat, scale: nat, k: nat)
    requires
        worth(x, scale, k),
        x + t >= 0,
    ensures
        pow2((x + t) as nat) * scale == pow2(t) * k,
{
    if x >= 0 {
        lemma_pow2_adds(x as nat, t);
        let a = pow2(x as nat);
        let b = pow2(t);
        assert((a * b) * scale == b * (scale * a)) by (nonlinear_arith);
    } else {
        lemma_pow2_adds((x + t) as nat, (-x) as nat);
        let a = pow2((x + t) as nat);
        let b = pow2((-x) as nat);
        assert(a * (k * b) == (a * b) * k) by (nonlinear_arith);
    }
}

/// The number `w` times two to the power of `x` units is `u / scale` units.
spec fn is_exactly(w: nat, x: int, scale: nat, u: nat) -> bool {
    &&& x >= 0 ==> u == (w * scale) * pow2(x as nat)
    &&& x < 0 ==> u * pow2((-x) as nat) == w * scale
}

/// The magnitude nearest to `w` times two to the power of `x` units.
fn pack_exact(w: u128, x: i64, Ghost(scale): Ghost<nat>, Ghost(u): Ghost<nat>) -> (r: u64)
    requires
        0 < w < pow2(126),
        -5000 <= x <= 5000,
        scale > 0,
        is_exactly(w as nat, x as int, scale, u),
    ensures
        r <= WIDE_TOP,
        is_nearest(WIDE as nat, WIDE_TOP as nat, scale, u, r as nat),
{
    let mut v: u128 = w;
    let mut y: i64 = x;
    let mut j: u64 = 0;
    proof {
        lemma2_to64();
        lemma2_to64_rest();
        lemma_mul_basics(w as int);
        lemma_pow2_strictly_increases(61, 126);
    }
    while v < 0x1000_0000_0000_0000
        invariant
            0 < v < pow2(126),
            pow2(61) == 0x2000_0000_0000_0000,
            pow2(61) < pow2(126),
            -5000 <= x <= 5000,
            y == x - j,
            j <= 60,
            v == w as nat * pow2(j as nat),
            v >= pow2(j as nat),
            pow2(60) == 0x1000_0000_0000_0000,
        decreases 64 - j,
    {
        proof {
            lemma_pow2_unfold((j + 1) as nat);
            let a = pow2(j as nat);
            assert(w as nat * (2 * a) == 2 * (w as nat * a)) by (nonlinear_arith);
        }
        v = 2 * v;
        y = y - 1;
        j = j + 1;
    }
    let ghost c = if y < 0 {
        pow2((-y) as nat)
    } else {
        1
    };
    let ghost k = if y < 0 {
        scale
    } else {
        scale * pow2(y as nat)
    };
    proof {
        let a = pow2(j as nat);
        if y < 0 {
            lemma_pow2_pos((-y) as nat);
            assert(scale * c > 0) by (nonlinear_arith)
                requires
                    scale > 0,
                    c > 0,
            ;
            if x >= 0 {
                lemma_pow2_adds(x as nat, (-y) as nat);
                let b = pow2(x as nat);
                assert(((w as nat * scale) * b) * c == (w as nat * (b * c)) * scale)
                    by (nonlinear_arith);
            } else {
                lemma_pow2_adds((-x) as nat, j as nat);
                let b = pow2((-x) as nat);
                assert(u * (b * a) == (u * b) * a) by (nonlinear_arith);
                assert((w as nat * scale) * a == (w as nat * a) * scale) by (nonlinear_arith);
            }
            assert(u * c == v as nat * k);
        } else {
            lemma_pow2_adds(j as nat, y as nat);
            lemma_pow2_pos(y as nat);
            let b = pow2(y as nat);
            assert(k > 0) by (nonlinear_arith)
                requires
                    k == scale * b,
                    scale > 0,
                    b > 0,
            ;
            assert((w as nat * scale) * (a * b) == (w as nat * a) * (scale * b))
                by (nonlinear_arith);
            lemma_mul_basics(u as int);
            lemma_mul_basics(scale as int);
        }
    }
    let r: u64 = pack(v, y, false, Ghost(scale * c), Ghost(u * c), Ghost(k), Ghost(0));
    proof {
        lemma_nearest_scale(WIDE as nat, WIDE_TOP as nat, scale, u, c, r as nat);
    }
    r
}

/// Nothing is nearest to nothing.
pub proof fn lemma_nearest_zero(scale: nat)
    requires
        scale > 0,
    ensures
        nearest(scale, 0) == 0,
{
    let p = WIDE as nat;
    lemma_grid_fields(p, 0, 0);
    lemma_grid_fields(p, 0, 1);
    lemma_mul_basics(scale as int);
    lemma_nearest(p, WIDE_TOP as nat, scale, 0, 0, 0);
    lemma_is_nearest(scale, 0, 0);
}

impl Double {
    fn with_sign(negative: bool, m: u64) -> (r: Double)
        requires
            m < WIDE_SIGN,
        ensures
            r == signed(negative, m as nat),
    {
        if negative {
            Double { bits: WIDE_SIGN + m }
        } else {
            Double { bits: m }
        }
    }

    fn undefined() -> (r: Double)
        ensures
            r == not_a_number(),
    {
        Double { bits: 0x7ff8_0000_0000_0000 }
    }

    /// `-self`.
    pub fn negate(self) -> (r: Double)
        ensures
            r == opposite(self),
    {
        Double::with_sign(self.bits < WIDE_SIGN, self.get_magnitude())
    }

    /// `self * other`.
    pub fn times(self, other: Double) -> (r: Double)
        ensures
            r == product(self, other),
    {
        let negative: bool = (self.bits >= WIDE_SIGN) != (other.bits >= WIDE_SIGN);
        if self.nan() || other.nan() {
            return Double::undefined();
        }
        let a: u64 = self.get_magnitude();
        let b: u64 = other.get_magnitude();
        if a == WIDE_TOP || b == WIDE_TOP {
            if a == 0 || b == 0 {
                return Double::undefined();
            }
            return Double::with_sign(negative, WIDE_TOP);
        }
        let ghost u = self.units() * other.units();
        let ghost scale = pow2(1074);
        proof {
            lemma_pow2_pos(1074);
            lemma_order(self, other);
        }
        if a == 0 || b == 0 {
            proof {
                assert(u == 0) by (nonlinear_arith)
                    requires
                        u == self.units() * other.units(),
                        self.units() == 0 || other.units() == 0,
                ;
                lemma_nearest_zero(scale);
            }
            return Double::with_sign(negative, 0);
        }
        let (ma, ea): (u64, u64) = self.parts();
        let (mb, eb): (u64, u64) = other.parts();
        let ghost ka = pow2((ea - 1) as nat);
        let ghost kb = pow2((eb - 1) as nat);
        proof {
            lemma2_to64();
            lemma2_to64_rest();
            lemma_mul_basics(ka as int);
            lemma_mul_basics(kb as int);
            assert(ma > 0 && mb > 0);
            assert(0 < ma as nat * mb as nat <= 0x20_0000_0000_0000 * 0x20_0000_0000_0000)
                by (nonlinear_arith)
                requires
                    0 < ma < 0x20_0000_0000_0000,
                    0 < mb < 0x20_0000_0000_0000,
            ;
            lemma_pow2_adds(53, 53);
            lemma_pow2_strictly_increases(106, 126);
            lemma_pow2_adds(63, 63);
        }
        let w: u128 = (ma as u128) * (mb as u128);
        let x: i64 = ea as i64 + eb as i64 - 1076;
        proof {
            lemma_pow2_adds((ea - 1) as nat, (eb - 1) as nat);
            assert((ma as nat * ka) * (mb as nat * kb) == (ma as nat * mb as nat) * (ka * kb))
                by (nonlinear_arith);
            let e2 = (ea + eb - 2) as nat;
            if x >= 0 {
                lemma_pow2_adds(1074, x as nat);
                let b = pow2(x as nat);
                assert(w as nat * (scale * b) == (w as nat * scale) * b) by (nonlinear_arith);
            } else {
                lemma_pow2_adds(e2, (-x) as nat);
                let b = pow2((-x) as nat);
                assert((w as nat * (ka * kb)) * b == w as nat * ((ka * kb) * b))
                    by (nonlinear_arith);
            }
        }
        let m: u64 = pack_exact(w, x, Ghost(scale), Ghost(u));
        proof {
            lemma_is_nearest(scale, u, m as nat);
        }
        Double::with_sign(negative, m)
    }
}

/// A number whose product with two to the power of 64 is `w` times two to the power of `e`.
proof fn lemma_aligned(u: nat, w: nat, e: nat)
    requires
        u * pow2(64) == w * pow2(e),
    ensures
        is_exactly(w, e - 64, 1, u),
{
    let x = e - 64;
    lemma_mul_basics(w as int);
    lemma_pow2_pos(64);
    lemma_pow2_pos(e);
    if x >= 0 {
        lemma_pow2_adds(64, x as nat);
        let a = pow2(64);
        let b = pow2(x as nat);
        assert(u == w * b) by (nonlinear_arith)
            requires
                u * a == w * (a * b),
                a > 0,
        ;
    } else {
        lemma_pow2_adds(e, (-x) as nat);
        let a = pow2(e);
        let b = pow2((-x) as nat);
        assert(u * b == w) by (nonlinear_arith)
            requires
                u * (a * b) == w * a,
                a > 0,
        ;
    }
}

/// The larger in exponent of two numbers, and the other, in parts of the first: each is worth two
/// to the power of the exponent less 65.
proof fn lemma_align_near(m1: nat, e1: nat, m2: nat, e2: nat, w1: nat, w2: nat)
    requires
        1 <= e2 <= e1 <= e2 + 64,
        w1 == m1 * pow2(64),
        w2 == m2 * pow2((64 - (e1 - e2)) as nat),
    ensures
        (m1 * pow2((e1 - 1) as nat)) * pow2(64) == w1 * pow2((e1 - 1) as nat),
        (m2 * pow2((e2 - 1) as nat)) * pow2(64) == w2 * pow2((e1 - 1) as nat),
{
    let k1 = pow2((e1 - 1) as nat);
    let k2 = pow2((e2 - 1) as nat);
    let c = pow2(64);
    assert((m1 * k1) * c == (m1 * c) * k1) by (nonlinear_arith);
    let d = (e1 - e2) as nat;
    lemma_pow2_adds(d, (e2 - 1) as nat);
    lemma_pow2_adds((64 - d) as nat, d);
    let a = pow2((64 - d) as nat);
    let b = pow2(d);
    assert((m2 * k2) * (a * b) == (m2 * a) * (b * k2)) by (nonlinear_arith);
}

/// As above, where the second number reaches below the parts of the first.
proof fn lemma_align_far(e1: nat, m2: nat, e2: nat, g: nat, q: nat, r: nat)
    requires
        1 <= e2,
        e1 == e2 + 64 + g,
        m2 == q * pow2(g) + r,
        r < pow2(g),
    ensures
        (m2 * pow2((e2 - 1) as nat)) * pow2(64) == q * pow2((e1 - 1) as nat) + (r * pow2(
            (e2 - 1) as nat,
        )) * pow2(64),
        (r * pow2((e2 - 1) as nat)) * pow2(64) < pow2((e1 - 1) as nat),
        r > 0 <==> (r * pow2((e2 - 1) as nat)) * pow2(64) > 0,
{
    let k2 = pow2((e2 - 1) as nat);
    let c = pow2(64);
    let b = pow2(g);
    lemma_pow2_pos((e2 - 1) as nat);
    lemma_pow2_pos(64);
    lemma_pow2_adds(64, g);
    lemma_pow2_adds((64 + g) as nat, (e2 - 1) as nat);
    assert(((q * b + r) * k2) * c == q * ((c * b) * k2) + (r * k2) * c) by (nonlinear_arith);
    assert((r * k2) * c < (c * b) * k2) by (nonlinear_arith)
        requires
            r < b,
            k2 > 0,
            c > 0,
    ;
    assert(r > 0 <==> (r * k2) * c > 0) by (nonlinear_arith)
        requires
            k2 > 0,
            c > 0,
    ;
}

/// The number with sign `negative` and magnitude nearest to `u` units, where `w` times two to the
/// power of `x` is `u`.
fn finish(negative: bool, w: u128, x: i64, Ghost(u): Ghost<nat>) -> (r: Double)
    requires
        0 < w < pow2(126),
        -5000 <= x <= 5000,
        is_exactly(w as nat, x as int, 1, u),
    ensures
        r == signed(negative, nearest(1, u)),
{
    let m: u64 = pack_exact(w, x, Ghost(1), Ghost(u));
    proof {
        lemma_is_nearest(1, u, m as nat);
    }
    Double::with_sign(negative, m)
}

impl Double {
    /// `self + other`, for finite numbers of which the first has no smaller exponent.
    fn plus_finite(self, other: Double, m1: u64, e1: u64, m2: u64, e2: u64) -> (r: Double)
        requires
            self.is_finite(),
            other.is_finite(),
            1 <= e2 <= e1 <= 2047,
            m1 < 2 * WIDE,
            m2 < 2 * WIDE,
            e1 > 1 ==> m1 >= WIDE,
            self.units() == m1 as nat * pow2((e1 - 1) as nat),
            other.units() == m2 as nat * pow2((e2 - 1) as nat),
        ensures
            r == sum(self, other),
            r == sum(other, self),
    {
        let na: bool = self.bits >= WIDE_SIGN;
        let nb: bool = other.bits >= WIDE_SIGN;
        let ghost c = pow2(64);
        let ghost k1 = pow2((e1 - 1) as nat);
        let ghost ua = self.units();
        let ghost ub = other.units();
        proof {
            lemma2_to64();
            lemma2_to64_rest();
            lemma_pow2_pos((e1 - 1) as nat);
            lemma_pow2_pos((e2 - 1) as nat);
            lemma_pow2_adds(53, 64);
            lemma_pow2_adds(63, 63);
            lemma_pow2_strictly_increases(117, 118);
            lemma_pow2_unfold(118);
            lemma_pow2_strictly_increases(118, 126);
            assert(m1 as nat * c < pow2(53) * c) by (nonlinear_arith)
                requires
                    m1 < pow2(53),
                    c > 0,
            ;
        }
        let w1: u128 = (m1 as u128) * 0x1_0000_0000_0000_0000;
        let x: i64 = e1 as i64 - 65;
        if e1 - e2 <= 64 {
            let f: u128 = two_to(64 - (e1 - e2));
            proof {
                if e1 > e2 {
                    lemma_pow2_strictly_increases((64 - (e1 - e2)) as nat, 64);
                }
                lemma_pow2_pos((64 - (e1 - e2)) as nat);
                assert(m2 as nat * (f as nat) < pow2(53) * c) by (nonlinear_arith)
                    requires
                        m2 < pow2(53),
                        0 < f as nat <= c,
                ;
            }
            let w2: u128 = (m2 as u128) * f;
            proof {
                lemma_align_near(
                    m1 as nat,
                    e1 as nat,
                    m2 as nat,
                    e2 as nat,
                    w1 as nat,
                    w2 as nat,
                );
                assert((ua + ub) * c == (w1 as nat + w2 as nat) * k1) by (nonlinear_arith)
                    requires
                        ua * c == w1 as nat * k1,
                        ub * c == w2 as nat * k1,
                ;
                assert((ua - ub) * c == (w1 - w2) * k1) by (nonlinear_arith)
                    requires
                        ua * c == w1 as nat * k1,
                        ub * c == w2 as nat * k1,
                ;
                assert((ub - ua) * c == (w2 - w1) * k1) by (nonlinear_arith)
                    requires
                        ua * c == w1 as nat * k1,
                        ub * c == w2 as nat * k1,
                ;
                lemma_same_sign(ua - ub, c as int, w1 - w2, k1 as int);
            }
            if na == nb {
                let w: u128 = w1 + w2;
                if w == 0 {
                    proof {
                        lemma_same_sign((ua + ub) as int, c as int, 0, k1 as int);
                    }
                    return Double::with_sign(na, 0);
                }
                proof {
                    lemma_aligned(ua + ub, w as nat, (e1 - 1) as nat);
                    lemma_same_sign((ua + ub) as int, c as int, w as int, k1 as int);
                }
                finish(na, w, x, Ghost(ua + ub))
            } else if w1 > w2 {
                proof {
                    lemma_aligned((ua - ub) as nat, (w1 - w2) as nat, (e1 - 1) as nat);
                }
                finish(na, w1 - w2, x, Ghost((ua - ub) as nat))
            } else if w1 < w2 {
                proof {
                    lemma_aligned((ub - ua) as nat, (w2 - w1) as nat, (e1 - 1) as nat);
                }
                finish(nb, w2 - w1, x, Ghost((ub - ua) as nat))
            } else {
                Double::with_sign(false, 0)
            }
        } else {
            let g: u64 = e1 - e2 - 64;
            proof {
                lemma_pow2_pos(g as nat);
                if g < 53 {
                    lemma_pow2_strictly_increases(g as nat, 53);
                } else if g > 53 {
                    lemma_pow2_strictly_increases(53, g as nat);
                }
            }
            let q: u64 = if g <= 53 {
                m2 / (two_to(g) as u64)
            } else {
                0
            };
            let rest: u64 = if g <= 53 {
                m2 % (two_to(g) as u64)
            } else {
                m2
            };
            let ghost b = pow2(g as nat);
            let ghost delta = (rest as nat * pow2((e2 - 1) as nat)) * c;
            proof {
                if g <= 53 {
                    lemma_fundamental_div_mod(m2 as int, b as int);
                    lemma_mul_is_commutative(b as int, q as int);
                    lemma_mod_bound(m2 as int, b as int);
                }
                lemma_align_far(e1 as nat, m2 as nat, e2 as nat, g as nat, q as nat, rest as nat);
                assert((m1 as nat * k1) * c == (m1 as nat * c) * k1) by (nonlinear_arith);
                lemma_pow2_adds(64, x as nat);
                assert(worth(x as int, c, k1));
                assert(w1 >= pow2(52) * c) by (nonlinear_arith)
                    requires
                        w1 == m1 as nat * c,
                        m1 >= pow2(52),
                ;
                lemma_pow2_adds(52, 64);
                lemma_pow2_strictly_increases(54, 116);
                assert(ua * c == w1 as nat * k1);
                assert(ub * c == q as nat * k1 + delta);
                assert((ua + ub) * c == ua * c + ub * c) by (nonlinear_arith);
                assert((ua - ub) * c == ua * c - ub * c) by (nonlinear_arith);
                assert((w1 as nat + q as nat) * k1 == w1 as nat * k1 + q as nat * k1)
                    by (nonlinear_arith);
                assert((w1 - q) * k1 == w1 as nat * k1 - q as nat * k1) by (nonlinear_arith);
                assert((w1 - q - 1) * k1 == w1 as nat * k1 - q as nat * k1 - k1)
                    by (nonlinear_arith);
                assert((w1 - q - 1) * k1 > 0) by (nonlinear_arith)
                    requires
                        w1 - q - 1 > 0,
                        k1 > 0,
                ;
                assert((ua - ub) * c > 0);
                lemma_same_sign(ua - ub, c as int, (ua - ub) * c, 1);
            }
            if na == nb {
                let m: u64 = pack(
                    w1 + q as u128,
                    x,
                    rest > 0,
                    Ghost(c),
                    Ghost((ua + ub) * c),
                    Ghost(k1),
                    Ghost(delta),
                );
                proof {
                    lemma_mul_basics(c as int);
                    lemma_nearest_scale(
                        WIDE as nat,
                        WIDE_TOP as nat,
                        1,
                        (ua + ub) as nat,
                        c,
                        m as nat,
                    );
                    lemma_is_nearest(1, (ua + ub) as nat, m as nat);
                }
                Double::with_sign(na, m)
            } else {
                let m: u64 = if rest > 0 {
                    pack(
                        w1 - q as u128 - 1,
                        x,
                        true,
                        Ghost(c),
                        Ghost(((ua - ub) * c) as nat),
                        Ghost(k1),
                        Ghost((k1 - delta) as nat),
                    )
                } else {
                    pack(
                        w1 - q as u128,
                        x,
                        false,
                        Ghost(c),
                        Ghost(((ua - ub) * c) as nat),
                        Ghost(k1),
                        Ghost(0),
                    )
                };
                proof {
                    lemma_mul_basics(c as int);
                    lemma_nearest_scale(
                        WIDE as nat,
                        WIDE_TOP as nat,
                        1,
                        (ua - ub) as nat,
                        c,
                        m as nat,
                    );
                    lemma_is_nearest(1, (ua - ub) as nat, m as nat);
                }
                Double::with_sign(na, m)
            }
        }
    }

    /// `self + other`.
    pub fn plus(self, other: Double) -> (r: Double)
        ensures
            r == sum(self, other),
    {
        if self.nan() || other.nan() {
            return Double::undefined();
        }
        let negative: bool = self.bits >= WIDE_SIGN;
        let a: u64 = self.get_magnitude();
        let b: u64 = other.get_magnitude();
        if a == WIDE_TOP {
            if b == WIDE_TOP && negative != (other.bits >= WIDE_SIGN) {
                return Double::undefined();
            }
            return self;
        }
        if b == WIDE_TOP {
            return other;
        }
        let (m1, e1): (u64, u64) = self.parts();
        let (m2, e2): (u64, u64) = other.parts();
        if e1 >= e2 {
            self.plus_finite(other, m1, e1, m2, e2)
        } else {
            other.plus_finite(self, m2, e2, m1, e1)
        }
    }

    /// `self - other`.
    pub fn minus(self, other: Double) -> (r: Double)
        ensures
            r == difference(self, other),
    {
        self.plus(other.negate())
    }
}

/// Two products with positive factors agree in sign.
proof fn lemma_same_sign(a: int, c: int, w: int, k: int)
    requires
        c > 0,
        k > 0,
        a * c == w * k,
    ensures
        a > 0 <==> w > 0,
        a == 0 <==> w == 0,
{
    assert((a > 0 <==> w > 0) && (a == 0 <==> w == 0)) by (nonlinear_arith)
        requires
            c > 0,
            k > 0,
            a * c == w * k,
    ;
}

impl Double {
    /// `self / other`.
    pub fn divided_by(self, other: Double) -> (r: Double)
        ensures
            r == quotient(self, other),
    {
        let negative: bool = (self.bits >= WIDE_SIGN) != (other.bits >= WIDE_SIGN);
        if self.nan() || other.nan() {
            return Double::undefined();
        }
        let a: u64 = self.get_magnitude();
        let b: u64 = other.get_magnitude();
        if a == WIDE_TOP {
            if b == WIDE_TOP {
                return Double::undefined();
            }
            return Double::with_sign(negative, WIDE_TOP);
        }
        if b == WIDE_TOP {
            return Double::with_sign(negative, 0);
        }
        if b == 0 {
            if a == 0 {
                return Double::undefined();
            }
            return Double::with_sign(negative, WIDE_TOP);
        }
        let ghost ua = self.units();
        let ghost ub = other.units();
        let ghost u = ua * pow2(1074);
        proof {
            lemma_order(self, other);
        }
        if a == 0 {
            proof {
                lemma_mul_basics(pow2(1074) as int);
                lemma_nearest_zero(ub);
            }
            return Double::with_sign(negative, 0);
        }
        let (ma, ea): (u64, u64) = self.parts();
        let (mb, eb): (u64, u64) = other.parts();
        let ghost kb = pow2((eb - 1) as nat);
        proof {
            lemma2_to64();
            lemma2_to64_rest();
            lemma_mul_basics(pow2((ea - 1) as nat) as int);
            lemma_mul_basics(kb as int);
            lemma_mul_basics(ma as int);
            lemma_pow2_pos((eb - 1) as nat);
            assert(ma > 0 && mb > 0);
        }
        let mut v: u64 = ma;
        let mut j: u64 = 0;
        while v < WIDE
            invariant
                0 < v < 2 * WIDE,
                v == ma as nat * pow2(j as nat),
                v >= pow2(j as nat),
                j <= 52,
                pow2(52) == WIDE,
                ma > 0,
            decreases 64 - j,
        {
            proof {
                lemma_pow2_unfold((j + 1) as nat);
                let t = pow2(j as nat);
                assert(ma as nat * (2 * t) == 2 * (ma as nat * t)) by (nonlinear_arith);
            }
            v = 2 * v;
            j = j + 1;
        }
        let f: u128 = two_to(73);
        proof {
            lemma_pow2_adds(63, 10);
            lemma_pow2_adds(53, 73);
            lemma_pow2_adds(53, 72);
            lemma_pow2_adds(52, 73);
            lemma_pow2_adds(63, 63);
            lemma_pow2_strictly_increases(54, 72);
            assert(v as nat * (f as nat) < pow2(53) * pow2(73)) by (nonlinear_arith)
                requires
                    v < pow2(53),
                    f as nat == pow2(73),
                    f > 0,
            ;
            assert(v as nat * (f as nat) >= pow2(52) * pow2(73)) by (nonlinear_arith)
                requires
                    v >= pow2(52),
                    f as nat == pow2(73),
            ;
        }
        let num: u128 = (v as u128) * f;
        let w: u128 = num / (mb as u128);
        let rest: u128 = num % (mb as u128);
        let x: i64 = ea as i64 - eb as i64 - j as i64 + 1001;
        let ghost up = if x < 0 {
            0nat
        } else {
            x as nat
        };
        let ghost down = if x < 0 {
            (-x) as nat
        } else {
            0nat
        };
        let ghost c = pow2(down);
        let ghost part = kb * pow2(up);
        let ghost k = mb as nat * part;
        proof {
            lemma_pow2_pos(down);
            lemma_pow2_pos(up);
            assert(num == w as nat * mb as nat + rest as nat && rest < mb) by (nonlinear_arith)
                requires
                    w == num / (mb as u128),
                    rest == num % (mb as u128),
                    mb > 0,
            ;
            assert(w >= pow2(72)) by (nonlinear_arith)
                requires
                    num as nat >= pow2(53) * pow2(72),
                    num == w as nat * mb as nat + rest as nat,
                    rest < mb < pow2(53),
            ;
            assert(w <= num) by (nonlinear_arith)
                requires
                    num == w as nat * mb as nat + rest as nat,
                    mb > 0,
            ;
            assert(part > 0) by (nonlinear_arith)
                requires
                    part == kb * pow2(up),
                    kb > 0,
                    pow2(up) > 0,
            ;
            // Both sides are `ma` times one power of two.
            assert(u * c == num as nat * part) by {
                let all = (ea - 1 + 1074 + down) as nat;
                lemma_pow2_adds((ea - 1) as nat, 1074);
                lemma_pow2_adds((ea - 1 + 1074) as nat, down);
                let p1 = pow2((ea - 1) as nat);
                let p2 = pow2(1074);
                assert(((ma as nat * p1) * p2) * c == ma as nat * ((p1 * p2) * c))
                    by (nonlinear_arith);
                lemma_pow2_adds(j as nat, 73);
                lemma_pow2_adds((j + 73) as nat, (eb - 1) as nat);
                lemma_pow2_adds((j + 73 + eb - 1) as nat, up);
                let q1 = pow2(j as nat);
                let q2 = pow2(73);
                let q3 = pow2(up);
                assert(((ma as nat * q1) * q2) * (kb * q3) == ma as nat * (((q1 * q2) * kb) * q3))
                    by (nonlinear_arith);
                assert(j + 73 + eb - 1 + up == all);
            }
            assert((w as nat * mb as nat + rest as nat) * part == w as nat * k + rest as nat
                * part) by (nonlinear_arith)
                requires
                    k == mb as nat * part,
            ;
            assert(rest as nat * part < k) by (nonlinear_arith)
                requires
                    k == mb as nat * part,
                    rest < mb,
                    part > 0,
            ;
            assert(rest as nat * part > 0 <==> rest > 0) by (nonlinear_arith)
                requires
                    part > 0,
            ;
            assert(ub * c > 0) by (nonlinear_arith)
                requires
                    ub > 0,
                    c > 0,
            ;
            if x >= 0 {
                lemma_mul_basics(ub as int);
                let q3 = pow2(up);
                assert(mb as nat * (kb * q3) == (mb as nat * kb) * q3) by (nonlinear_arith);
            } else {
                lemma_mul_basics(kb as int);
            }
        }
        let m: u64 = pack(
            w,
            x,
            rest > 0,
            Ghost(ub * c),
            Ghost(u * c),
            Ghost(k),
            Ghost(rest as nat * part),
        );
        proof {
            lemma_nearest_scale(WIDE as nat, WIDE_TOP as nat, ub, u, c, m as nat);
            lemma_is_nearest(ub, u, m as nat);
        }
        Double::with_sign(negative, m)
    }
}

/// `m` is the magnitude whose number is nearest to the square root of `u`; of two equally near,
/// the even one: the root lies between the half ways to the neighbours of `m`.
pub open spec fn is_nearest_root(u: nat, m: nat) -> bool {
    let p = WIDE as nat;
    &&& m < WIDE_TOP
    &&& ({
        let above = grid(p, m) + grid(p, m + 1);
        4 * u < above * above || (4 * u == above * above && m % 2 == 0)
    })
    &&& m > 0 ==> {
        let below = grid(p, (m - 1) as nat) + grid(p, m);
        4 * u > below * below || (4 * u == below * below && m % 2 == 0)
    }
}

/// The magnitude nearest to the square root of `u`.
pub open spec fn nearest_root(u: nat) -> nat {
    choose|m: nat| is_nearest_root(u, m)
}

/// The square root of `a`.
pub open spec fn root(a: Double) -> Double {
    if a.is_nan() || (a.negative() && a.magnitude() > 0) {
        not_a_number()
    } else if a.magnitude() == 0 || !a.is_finite() {
        a
    } else {
        signed(false, nearest_root(a.units() * pow2(1074)))
    }
}

/// There is always a nearest square root, where the root is not too large.
pub proof fn lemma_nearest_root_exists(u: nat, m: nat)
    requires
        m < WIDE_TOP,
        m > 0 ==> {
            let below = grid(WIDE as nat, (m - 1) as nat) + grid(WIDE as nat, m);
            4 * u > below * below || (4 * u == below * below && m % 2 == 0)
        },
        4 * u < grid(WIDE as nat, (WIDE_TOP - 1) as nat) * grid(
            WIDE as nat,
            (WIDE_TOP - 1) as nat,
        ),
    ensures
        is_nearest_root(u, nearest_root(u)),
    decreases WIDE_TOP - m,
{
    let p = WIDE as nat;
    let above = grid(p, m) + grid(p, m + 1);
    if 4 * u < above * above || (4 * u == above * above && m % 2 == 0) {
        assert(is_nearest_root(u, m));
    } else {
        if m == WIDE_TOP - 1 {
            let g = grid(p, m);
            assert(above * above >= g * g) by (nonlinear_arith)
                requires
                    above >= g,
                    g >= 0,
            ;
        }
        lemma_nearest_root_exists(u, m + 1);
    }
}

proof fn lemma_nearest_root_below(u: nat, a: nat, b: nat)
    requires
        is_nearest_root(u, a),
        is_nearest_root(u, b),
    ensures
        b <= a,
{
    let p = WIDE as nat;
    let above = grid(p, a) + grid(p, a + 1);
    let below = grid(p, (b - 1) as nat) + grid(p, b);
    if a + 1 == b {
        assert(above == below);
    } else if a + 1 < b {
        lemma_grid_increases(p, a, (b - 1) as nat);
        lemma_grid_increases(p, a + 1, b);
        assert(above * above < below * below) by (nonlinear_arith)
            requires
                0 <= above < below,
        ;
    }
}

/// Where a magnitude is nearest to the square root, it is the one that `nearest_root` names.
pub proof fn lemma_is_nearest_root(u: nat, m: nat)
    requires
        is_nearest_root(u, m),
    ensures
        nearest_root(u) == m,
{
    let n = nearest_root(u);
    lemma_nearest_root_below(u, n, m);
    lemma_nearest_root_below(u, m, n);
}

/// The square root of `n` without its fraction.
fn whole_root(n: u128) -> (r: u64)
    requires
        n < pow2(126),
    ensures
        r < pow2(63),
        r as nat * r as nat <= n < (r as nat + 1) * (r as nat + 1),
{
    let mut low: u64 = 0;
    let mut high: u64 = 0x8000_0000_0000_0000;
    proof {
        lemma2_to64_rest();
        lemma_pow2_adds(63, 63);
    }
    while high - low > 1
        invariant
            low < high <= 0x8000_0000_0000_0000,
            low as nat * low as nat <= n,
            n < high as nat * high as nat,
        decreases high - low,
    {
        let mid: u64 = low + (high - low) / 2;
        assert(mid as nat * mid as nat <= 0x8000_0000_0000_0000 * 0x8000_0000_0000_0000)
            by (nonlinear_arith)
            requires
                0 <= mid <= 0x8000_0000_0000_0000,
        ;
        if (mid as u128) * (mid as u128) <= n {
            low = mid;
        } else {
            high = mid;
        }
    }
    low
}

/// Rounding the square root of `n` times two to the power of `2 * x`, of which `r` is the whole
/// root of `n`.
proof fn lemma_round_root(
    n: nat,
    x: nat,
    r: nat,
    u: nat,
    low: nat,
    q: nat,
    d: nat,
    rest: nat,
    m: nat,
)
    requires
        r * r <= n < (r + 1) * (r + 1),
        u == n * (pow2(x) * pow2(x)),
        r == q * d + rest,
        rest < d,
        d % 2 == 0,
        q > 0,
        low + 1 < WIDE_TOP,
        grid(WIDE as nat, low) == (q * d) * pow2(x),
        grid_step(WIDE as nat, low) == d * pow2(x),
        m == if 2 * rest > d || (2 * rest == d && (r * r != n || low % 2 == 1)) {
            low + 1
        } else {
            low
        },
    ensures
        is_nearest_root(u, m),
{
    let p = WIDE as nat;
    let k = pow2(x);
    lemma_pow2_pos(x);
    lemma_grid_step(p, low);
    lemma_grid_step(p, low + 1);
    let g = grid(p, low);
    let s = d * k;
    let half = 2 * (q * d) + d;
    let mid = 2 * g + s;
    assert(mid == half * k) by (nonlinear_arith)
        requires
            mid == 2 * ((q * d) * k) + d * k,
            half == 2 * (q * d) + d,
    ;
    assert(mid * mid == (half * half) * (k * k)) by (nonlinear_arith)
        requires
            mid == half * k,
    ;
    let kk = k * k;
    assert(kk > 0) by (nonlinear_arith)
        requires
            kk == k * k,
            k > 0,
    ;
    assert(4 * u == (4 * n) * kk) by (nonlinear_arith)
        requires
            u == n * kk,
    ;
    assert(4 * n >= (2 * r) * (2 * r)) by (nonlinear_arith)
        requires
            n >= r * r,
    ;
    assert(4 * n < (2 * r + 2) * (2 * r + 2)) by (nonlinear_arith)
        requires
            n < (r + 1) * (r + 1),
    ;
    if m == low + 1 {
        // Not below the half way to the next.
        if 2 * rest > d {
            assert(4 * n > half * half) by (nonlinear_arith)
                requires
                    4 * n >= (2 * r) * (2 * r),
                    2 * r > half,
                    half >= 0,
            ;
            assert((4 * n) * kk > (half * half) * kk) by (nonlinear_arith)
                requires
                    4 * n > half * half,
                    kk > 0,
            ;
        } else {
            assert(2 * r == half);
            assert(4 * n >= half * half);
            if r * r != n {
                assert(4 * n > half * half) by (nonlinear_arith)
                    requires
                        n > r * r,
                        2 * r == half,
                ;
                assert((4 * n) * kk > (half * half) * kk) by (nonlinear_arith)
                    requires
                        4 * n > half * half,
                        kk > 0,
                ;
            } else {
                assert(4 * n == half * half) by (nonlinear_arith)
                    requires
                        n == r * r,
                        2 * r == half,
                ;
            }
        }
        // Below the half way after that.
        let above = grid(p, low + 1) + grid(p, low + 2);
        let top = 2 * (q * d + d);
        assert(above > top * k) by (nonlinear_arith)
            requires
                above > 2 * ((q * d) * k + d * k),
                top == 2 * (q * d + d),
        ;
        assert(above * above > (top * top) * kk) by (nonlinear_arith)
            requires
                above > top * k,
                top * k >= 0,
                kk == k * k,
        ;
        assert((4 * n) * kk < (top * top) * kk) by (nonlinear_arith)
            requires
                4 * n < (2 * r + 2) * (2 * r + 2),
                2 * r + 2 <= top,
                kk > 0,
        ;
    } else {
        if 2 * rest < d {
            assert(2 * r + 2 <= half);
            assert((4 * n) * kk < (half * half) * kk) by (nonlinear_arith)
                requires
                    4 * n < (2 * r + 2) * (2 * r + 2),
                    2 * r + 2 <= half,
                    kk > 0,
            ;
        } else {
            assert(4 * n == half * half) by (nonlinear_arith)
                requires
                    n == r * r,
                    2 * r == half,
            ;
        }
        // Above the half way to the one before.
        if low > 0 {
            lemma_grid_increases(p, (low - 1) as nat, low);
            let below = grid(p, (low - 1) as nat) + grid(p, low);
            let base = 2 * (q * d);
            assert(below < base * k) by (nonlinear_arith)
                requires
                    below < 2 * ((q * d) * k),
                    base == 2 * (q * d),
            ;
            assert(below * below < (base * base) * kk) by (nonlinear_arith)
                requires
                    0 <= below < base * k,
                    kk == k * k,
            ;
            assert((base * base) * kk <= (4 * n) * kk) by (nonlinear_arith)
                requires
                    4 * n >= (2 * r) * (2 * r),
                    0 <= base <= 2 * r,
                    kk > 0,
            ;
        }
    }
}

impl Double {
    /// The square root.
    pub fn square_root(self) -> (r: Double)
        ensures
            r == root(self),
    {
        let a: u64 = self.get_magnitude();
        if self.nan() || (self.bits >= WIDE_SIGN && a > 0) {
            return Double::undefined();
        }
        if a == 0 || a == WIDE_TOP {
            return self;
        }
        let (ma, ea): (u64, u64) = self.parts();
        let ghost u = self.units() * pow2(1074);
        proof {
            lemma2_to64();
            lemma2_to64_rest();
            lemma_pow2_adds(63, 63);
            lemma_order(self, self);
            lemma_mul_basics(pow2((ea - 1) as nat) as int);
            lemma_mul_basics(ma as int);
            lemma_pow2_adds(63, 62);
            lemma_pow2_unfold(125);
            lemma_pow2_unfold(126);
            lemma_pow2_strictly_increases(53, 124);
        }
        // An even power of two is left beside `v`.
        let mut v: u128 = ma as u128;
        let mut j: u64 = 0;
        while v < 0x1000_0000_0000_0000_0000_0000_0000_0000
            invariant
                0 < v < pow2(125),
                pow2(124) == 0x1000_0000_0000_0000_0000_0000_0000_0000,
                pow2(125) == 2 * pow2(124),
                v == ma as nat * pow2(j as nat),
                v >= pow2(j as nat),
                j <= 124,
                ma > 0,
            decreases 128 - j,
        {
            proof {
                lemma_pow2_unfold((j + 1) as nat);
                let t = pow2(j as nat);
                assert(ma as nat * (2 * t) == 2 * (ma as nat * t)) by (nonlinear_arith);
            }
            v = 2 * v;
            j = j + 1;
        }
        if (ea + 1073 - j) % 2 == 1 {
            proof {
                lemma_pow2_unfold((j + 1) as nat);
                let t = pow2(j as nat);
                assert(ma as nat * (2 * t) == 2 * (ma as nat * t)) by (nonlinear_arith);
            }
            v = 2 * v;
            j = j + 1;
        }
        let x: u64 = (ea + 1073 - j) / 2;
        let r: u64 = whole_root(v);
        let (t, d): (u64, u64) = if r < 0x8000_0000_0000_0000 / 2 {
            (9, 0x200)
        } else {
            (10, 0x400)
        };
        let q: u64 = r / d;
        let rest: u64 = r % d;
        proof {
            lemma_root_range(v as nat, r as nat);
        }
        let low: u64 = (x + t + 1) * WIDE + (q - WIDE);
        let exact: bool = (r as u128) * (r as u128) == v;
        let up: bool = rest > d - rest || (rest == d - rest && (!exact || low % 2 == 1));
        let m: u64 = if up {
            low + 1
        } else {
            low
        };
        proof {
            lemma_pow2_adds((ea - 1) as nat, 1074);
            lemma_pow2_adds(j as nat, (2 * x) as nat);
            lemma_pow2_adds(x as nat, x as nat);
            let p1 = pow2((ea - 1) as nat);
            let p2 = pow2(1074);
            assert((ma as nat * p1) * p2 == ma as nat * (p1 * p2)) by (nonlinear_arith);
            let q1 = pow2(j as nat);
            let q2 = pow2((2 * x) as nat);
            assert((ma as nat * q1) * q2 == ma as nat * (q1 * q2)) by (nonlinear_arith);
            assert(u == v as nat * q2);
            lemma_grid_fields(WIDE as nat, (x + t + 1) as nat, (q - WIDE) as nat);
            lemma_pow2_adds(t as nat, x as nat);
            let k = pow2(x as nat);
            assert(q as nat * (d as nat * k) == (q as nat * d as nat) * k) by (nonlinear_arith);
            lemma_round_root(
                v as nat,
                x as nat,
                r as nat,
                u,
                low as nat,
                q as nat,
                d as nat,
                rest as nat,
                m as nat,
            );
            lemma_is_nearest_root(u, m as nat);
        }
        Double::with_sign(false, m)
    }
}

/// How large the whole root of a number between two to the power of 124 and of 126 is.
proof fn lemma_root_range(n: nat, r: nat)
    requires
        0x1000_0000_0000_0000_0000_0000_0000_0000 <= n < 0x4000_0000_0000_0000_0000_0000_0000_0000,
        r * r <= n < (r + 1) * (r + 1),
    ensures
        0x4000_0000_0000_0000 <= r < 0x8000_0000_0000_0000,
{
    assert(r + 1 > 0x4000_0000_0000_0000) by (nonlinear_arith)
        requires
            0x4000_0000_0000_0000 * 0x4000_0000_0000_0000 < (r + 1) * (r + 1),
            r >= 0,
    ;
    assert(r < 0x8000_0000_0000_0000) by (nonlinear_arith)
        requires
            r * r < 0x8000_0000_0000_0000 * 0x8000_0000_0000_0000,
            r >= 0,
    ;
}

} // verus!
