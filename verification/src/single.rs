//! `binary32` numbers by their bit patterns, and their conversion from and to `binary64`.
use crate::double::{
    grid, grid_step, is_nearest, lemma_grid_fields, lemma_grid_increases, lemma_nearest,
    lemma_normal_shift, lemma_round, round, Double, NARROW, NARROW_SIGN, NARROW_TOP, WIDE,
    WIDE_SIGN, WIDE_TOP,
};
use crate::arithmetic::{
    difference, lemma_nearest_exact, lemma_nearest_of, lemma_nearest_unique, nearest, not_a_number,
    product, quotient, root, signed, sum,
};
use vstd::arithmetic::div_mod::*;
use vstd::arithmetic::mul::*;
use vstd::arithmetic::power2::*;
use vstd::bits::*;
use vstd::prelude::*;

verus! {

/// A `binary32` number.
#[derive(Clone, Copy, PartialEq, Eq, Structural, Debug)]
pub struct Single {
    pub bits: u32,
}

/// `s` as a `binary64`: the same number, since every `binary32` number is one.
pub open spec fn widened(s: Single) -> Double {
    if s.is_nan() {
        not_a_number()
    } else if s.magnitude() == NARROW_TOP {
        signed(s.negative(), WIDE_TOP as nat)
    } else {
        signed(s.negative(), nearest(1, s.units() * pow2(925)))
    }
}

/// The magnitude of the `binary32` number nearest to `u` units of 2^-1074.
pub open spec fn narrow_nearest(u: nat) -> nat {
    choose|m: nat| is_nearest(NARROW as nat, NARROW_TOP as nat, pow2(925), u, m)
}

/// The `binary32` number nearest to `d`.
pub open spec fn narrowed(d: Double) -> Single {
    if d.is_nan() {
        Single { bits: 0x7fc0_0000 }
    } else {
        Single {
            bits: (if d.negative() {
                NARROW_SIGN + narrow_nearest(d.units())
            } else {
                narrow_nearest(d.units()) as int
            }) as u32,
        }
    }
}

proof fn lemma_is_narrow_nearest(u: nat, m: nat)
    requires
        is_nearest(NARROW as nat, NARROW_TOP as nat, pow2(925), u, m),
    ensures
        narrow_nearest(u) == m,
{
    lemma_pow2_pos(925);
    lemma_nearest_unique(
        NARROW as nat,
        NARROW_TOP as nat,
        pow2(925),
        u,
        m,
        narrow_nearest(u),
    );
}

/// There is always a nearest `binary32` number.
pub proof fn lemma_narrow_nearest_exists(u: nat, low: nat)
    requires
        low <= NARROW_TOP,
        low < NARROW_TOP ==> u < grid(NARROW as nat, low + 1) * pow2(925),
    ensures
        narrow_nearest(u) <= NARROW_TOP,
        is_nearest(NARROW as nat, NARROW_TOP as nat, pow2(925), u, narrow_nearest(u)),
    decreases low,
{
    let p = NARROW as nat;
    let scale = pow2(925);
    lemma_pow2_pos(925);
    if grid(p, low) * scale <= u {
        let rest = 2 * (u - grid(p, low) * scale);
        let step = grid_step(p, low) * scale;
        let m = if low < NARROW_TOP && (rest > step || (rest == step && low % 2 == 1)) {
            low + 1
        } else {
            low
        };
        lemma_nearest(p, NARROW_TOP as nat, scale, u, low, m);
        lemma_is_narrow_nearest(u, m);
    } else {
        if low == 0 {
            lemma_grid_fields(p, 0, 0);
            assert(0 * scale == 0) by (nonlinear_arith);
        }
        lemma_narrow_nearest_exists(u, (low - 1) as nat);
    }
}

/// Narrowing a number gives a number.
pub proof fn narrowing_keeps_numbers(d: Double)
    requires
        !d.is_nan(),
    ensures
        !narrowed(d).is_nan(),
{
    lemma_narrow_nearest_exists(d.units(), NARROW_TOP as nat);
}

/// Where a finite `binary32` number stands among the `binary64` numbers.
proof fn lemma_wide_place(s: Single) -> (m: nat)
    requires
        s.magnitude() < NARROW_TOP,
    ensures
        m < WIDE_TOP,
        grid(WIDE as nat, m) == s.units() * pow2(925),
{
    lemma2_to64();
    lemma2_to64_rest();
    let g = s.magnitude();
    let e = g / (NARROW as nat);
    let f = g % (NARROW as nat);
    if e > 0 {
        let m = (e + 896) * (WIDE as nat) + f * 0x2000_0000;
        lemma_grid_fields(WIDE as nat, e + 896, f * 0x2000_0000);
        lemma_grid_fields(NARROW as nat, e, f);
        let a = pow2((e - 1) as nat);
        lemma_pow2_adds(29, 896);
        lemma_pow2_adds((e - 1) as nat, 896);
        assert((e + 896 - 1) as nat == (e - 1) as nat + 896);
        let b = pow2(896);
        assert(pow2(29) == 0x2000_0000);
        assert(((NARROW as nat + f) * 0x2000_0000) * (a * b) == ((NARROW as nat + f) * a) * (
        0x2000_0000 * b)) by (nonlinear_arith);
        m
    } else if f == 0 {
        lemma_grid_fields(WIDE as nat, 0, 0);
        lemma_grid_fields(NARROW as nat, 0, 0);
        assert(0 * pow2(925) == 0) by (nonlinear_arith);
        0
    } else {
        lemma_mul_basics(f as int);
        let t = lemma_normal_shift(f, 0);
        if t > 52 {
            lemma_pow2_strictly_increases(52, t);
            lemma_pow2_unfold(53);
            if t > 53 {
                lemma_pow2_strictly_increases(53, t);
            }
        }
        let n = f * pow2(t);
        let k = (926 - t) as nat;
        lemma_grid_fields(NARROW as nat, 0, f);
        lemma_grid_fields(WIDE as nat, k, (n - WIDE) as nat);
        lemma_pow2_adds(t, (925 - t) as nat);
        let a = pow2(t);
        let b = pow2((925 - t) as nat);
        assert(f * (a * b) == (f * a) * b) by (nonlinear_arith);
        k * (WIDE as nat) + (n - WIDE) as nat
    }
}

/// Widening keeps the sign and the value of a finite number.
pub proof fn lemma_widened(s: Single)
    requires
        s.magnitude() < NARROW_TOP,
    ensures
        widened(s).negative() == s.negative(),
        widened(s).is_finite(),
        widened(s).units() == s.units() * pow2(925),
{
    let m = lemma_wide_place(s);
    lemma_nearest_of(signed(s.negative(), m));
}

/// Widening a number and narrowing it again gives the number back.
pub proof fn narrowing_undoes_widening(s: Single)
    requires
        !s.is_nan(),
    ensures
        narrowed(widened(s)) == s,
        !widened(s).is_nan(),
{
    lemma_pow2_pos(925);
    let p = NARROW as nat;
    let top = NARROW_TOP as nat;
    let m = s.magnitude();
    if m < NARROW_TOP {
        lemma_widened(s);
        lemma_nearest_exact(p, top, pow2(925), s.units() * pow2(925), m);
        lemma_is_narrow_nearest(s.units() * pow2(925), m);
    } else {
        let u = grid(WIDE as nat, WIDE_TOP as nat);
        lemma2_to64();
        lemma2_to64_rest();
        lemma_grid_fields(WIDE as nat, 2047, 0);
        lemma_grid_fields(p, 255, 0);
        lemma_pow2_adds(52, 2046);
        lemma_pow2_adds(23, 254);
        lemma_pow2_adds(277, 925);
        lemma_pow2_strictly_increases(1202, 2098);
        assert(grid(p, top) * pow2(925) <= u);
        lemma_nearest(p, top, pow2(925), u, top, top);
        lemma_is_narrow_nearest(u, top);
    }
}

impl Single {
    pub open spec fn negative(self) -> bool {
        self.bits >= NARROW_SIGN
    }

    /// The pattern without its sign.
    pub open spec fn magnitude(self) -> nat {
        if self.bits >= NARROW_SIGN {
            (self.bits - NARROW_SIGN) as nat
        } else {
            self.bits as nat
        }
    }

    pub open spec fn is_nan(self) -> bool {
        self.magnitude() > NARROW_TOP
    }

    /// The absolute value, in units of 2^-149.
    pub open spec fn units(self) -> nat {
        grid(NARROW as nat, self.magnitude())
    }

    /// The same number as a `binary64`. Every `binary32` number is one.
    pub fn widen(self) -> (r: Double)
        ensures
            r == widened(self),
    {
        let r: Double = self.extend();
        proof {
            if !r.is_nan() {
                lemma_nearest_of(r);
            }
        }
        r
    }

    fn extend(self) -> (r: Double)
        ensures
            self.is_nan() ==> r == widened(self),
            !self.is_nan() ==> r.negative() == self.negative(),
            r.is_nan() == self.is_nan(),
            self.magnitude() == NARROW_TOP <==> r.magnitude() == WIDE_TOP,
            self.magnitude() < NARROW_TOP ==> r.units() == self.units() * pow2(925),
    {
        let sign: u64 = if self.bits >= NARROW_SIGN {
            WIDE_SIGN
        } else {
            0
        };
        let g: u32 = if self.bits >= NARROW_SIGN {
            self.bits - NARROW_SIGN
        } else {
            self.bits
        };
        let e: u64 = (g / NARROW) as u64;
        let f: u64 = (g % NARROW) as u64;
        proof {
            lemma2_to64();
            lemma2_to64_rest();
        }
        if e == 255 {
            if f == 0 {
                Double { bits: sign + WIDE_TOP }
            } else {
                Double { bits: 0x7ff8_0000_0000_0000 }
            }
        } else if e > 0 {
            let m: u64 = (e + 896) * WIDE + f * 0x2000_0000;
            proof {
                lemma_grid_fields(WIDE as nat, (e + 896) as nat, (f * 0x2000_0000) as nat);
                lemma_grid_fields(NARROW as nat, e as nat, f as nat);
                let a = pow2((e - 1) as nat);
                lemma_pow2_adds(29, 896);
                lemma_pow2_adds((e - 1) as nat, 896);
                assert((e + 896 - 1) as nat == (e - 1) as nat + 896);
                let b = pow2(896);
                assert(pow2(29) == 0x2000_0000);
                assert((WIDE as nat + f * 0x2000_0000) as nat == (NARROW as nat + f) * 0x2000_0000);
                assert(((NARROW as nat + f) * 0x2000_0000) * (a * b) == ((NARROW as nat + f) * a)
                    * (0x2000_0000 * b)) by (nonlinear_arith);
            }
            Double { bits: sign + m }
        } else if f == 0 {
            proof {
                lemma_grid_fields(WIDE as nat, 0, 0);
                lemma_grid_fields(NARROW as nat, 0, 0);
                assert(0 * pow2(925) == 0) by (nonlinear_arith);
            }
            Double { bits: sign }
        } else {
            let mut m: u64 = f;
            let mut s: u64 = 0;
            proof {
                lemma_mul_basics(f as int);
            }
            while m < WIDE
                invariant
                    0 < f < NARROW,
                    0 < m < 2 * WIDE,
                    m == f as nat * pow2(s as nat),
                    m >= pow2(s as nat),
                    s <= 52,
                    pow2(52) == WIDE,
                decreases 64 - s,
            {
                proof {
                    lemma_pow2_unfold((s + 1) as nat);
                    let a = pow2(s as nat);
                    assert(f as nat * (2 * a) == 2 * (f as nat * a)) by (nonlinear_arith);
                }
                m = 2 * m;
                s = s + 1;
            }
            let k: u64 = 926 - s;
            let r: u64 = k * WIDE + (m - WIDE);
            proof {
                lemma_grid_fields(NARROW as nat, 0, f as nat);
                lemma_grid_fields(WIDE as nat, k as nat, (m - WIDE) as nat);
                lemma_pow2_adds(s as nat, (925 - s) as nat);
                let a = pow2(s as nat);
                let b = pow2((925 - s) as nat);
                assert(f as nat * (a * b) == (f as nat * a) * b) by (nonlinear_arith);
            }
            Double { bits: sign + r }
        }
    }
}

impl Double {
    /// The `binary32` number nearest to this one.
    pub fn narrow(self) -> (r: Single)
        ensures
            r == narrowed(self),
    {
        if self.nan() {
            return Single { bits: 0x7fc0_0000 };
        }
        let r: Single = self.reduce();
        proof {
            lemma_pow2_pos(925);
            lemma_is_narrow_nearest(self.units(), r.magnitude());
        }
        r
    }

    fn reduce(self) -> (r: Single)
        requires
            !self.is_nan(),
        ensures
            r.negative() == self.negative(),
            is_nearest(
                NARROW as nat,
                NARROW_TOP as nat,
                pow2(925),
                self.units(),
                r.magnitude(),
            ),
    {
        let sign: u32 = if self.bits >= WIDE_SIGN {
            NARROW_SIGN
        } else {
            0
        };
        let parts: (u64, u64) = self.parts();
        let m: u64 = parts.0;
        let e: u64 = parts.1;
        let ghost p = NARROW as nat;
        let ghost top = NARROW_TOP as nat;
        let ghost u = self.units();
        let ghost scale = pow2(925);
        let ghost k = pow2((e - 1) as nat);
        proof {
            lemma2_to64();
            lemma2_to64_rest();
            lemma_pow2_pos(925);
            lemma_pow2_pos((e - 1) as nat);
        }
        if e >= 1151 {
            proof {
                lemma_grid_fields(p, 255, 0);
                lemma_pow2_adds(254, 925);
                lemma_pow2_adds(23, 1179);
                lemma_pow2_adds(52, 1150);
                assert(p * pow2(254) * pow2(925) == p * (pow2(254) * pow2(925)))
                    by (nonlinear_arith);
                assert(grid(p, top) * scale == pow2(52) * pow2(1150));
                if e > 1151 {
                    lemma_pow2_strictly_increases(1150, (e - 1) as nat);
                }
                let c = pow2(1150);
                lemma_pow2_pos(1150);
                assert(m as nat * k >= pow2(52) * c) by (nonlinear_arith)
                    requires
                        m >= pow2(52),
                        k >= c,
                        c > 0,
                ;
                lemma_nearest(p, top, scale, u, top, top);
            }
            Single { bits: sign + NARROW_TOP }
        } else if e >= 897 {
            let q: u64 = m / 0x2000_0000;
            let rest: u64 = m % 0x2000_0000;
            let low: u64 = (e - 896) * (NARROW as u64) + (q - NARROW as u64);
            let r: u64 = round(low, rest, 0x2000_0000);
            proof {
                let es = (e - 896) as nat;
                lemma_grid_fields(p, es, (q - NARROW) as nat);
                lemma_pow2_adds((es - 1) as nat, 925);
                lemma_pow2_adds(29, (e - 1) as nat);
                assert((es - 1) as nat + 925 == 29 + (e - 1) as nat);
                let a = pow2((es - 1) as nat);
                assert(a * scale == 0x2000_0000 * k);
                assert((q as nat * a) * scale == q as nat * (a * scale)) by (nonlinear_arith);
                assert(q as nat * (0x2000_0000 * k) == (q as nat * 0x2000_0000) * k)
                    by (nonlinear_arith);
                lemma_round(
                    p,
                    top,
                    scale,
                    u,
                    low as nat,
                    q as nat,
                    0x2000_0000,
                    rest as nat,
                    k,
                    r as nat,
                );
            }
            Single { bits: sign + r as u32 }
        } else {
            let sh: u64 = 926 - e;
            if sh <= 63 {
                proof {
                    lemma_u64_pow2_no_overflow(sh as nat);
                    lemma_mul_basics(pow2(sh as nat) as int);
                    lemma_u64_shl_is_mul(1, sh);
                    if sh > 30 {
                        lemma_pow2_strictly_increases(30, sh as nat);
                    }
                }
                let d: u64 = 1u64 << sh;
                let q: u64 = m / d;
                let rest: u64 = m % d;
                assert(q < NARROW) by {
                    assert(q as nat * d <= m) by (nonlinear_arith)
                        requires
                            q == m / d,
                            d > 0,
                    ;
                    assert(q as nat * 0x4000_0000 <= q as nat * d) by (nonlinear_arith)
                        requires
                            d >= 0x4000_0000,
                    ;
                }
                let r: u64 = round(q, rest, d);
                proof {
                    lemma_grid_fields(p, 0, q as nat);
                    lemma_pow2_adds(sh as nat, (e - 1) as nat);
                    assert(sh as nat + (e - 1) as nat == 925);
                    assert(d as nat * k == scale);
                    assert(m == q as nat * d as nat + rest as nat) by (nonlinear_arith)
                        requires
                            q == m / d,
                            rest == m % d,
                            d > 0,
                    ;
                    assert(q as nat * (d as nat * k) == (q as nat * d as nat) * k)
                        by (nonlinear_arith);
                    lemma_mul_basics(scale as int);
                    lemma_round(
                        p,
                        top,
                        scale,
                        u,
                        q as nat,
                        q as nat,
                        d as nat,
                        rest as nat,
                        k,
                        r as nat,
                    );
                }
                Single { bits: sign + r as u32 }
            } else {
                proof {
                    lemma_grid_fields(p, 0, 0);
                    lemma_pow2_adds(sh as nat, (e - 1) as nat);
                    assert(sh as nat + (e - 1) as nat == 925);
                    lemma_pow2_strictly_increases(54, sh as nat);
                    let d = pow2(sh as nat);
                    assert(2 * (m as nat * k) < d * k) by (nonlinear_arith)
                        requires
                            m < pow2(53),
                            pow2(54) == 2 * pow2(53),
                            d >= pow2(54),
                            k > 0,
                    ;
                    lemma_mul_basics(scale as int);
                    lemma_grid_increases(p, 0, 1);
                    lemma_grid_fields(p, 0, 1);
                    lemma_nearest(p, top, scale, u, 0, 0);
                }
                Single { bits: sign }
            }
        }
    }
}

/// `a + b`, computed in `binary64` and rounded.
pub open spec fn single_sum(a: Single, b: Single) -> Single {
    narrowed(sum(widened(a), widened(b)))
}

/// `a - b`, computed in `binary64` and rounded.
pub open spec fn single_difference(a: Single, b: Single) -> Single {
    narrowed(difference(widened(a), widened(b)))
}

/// `a * b`, computed in `binary64` and rounded.
pub open spec fn single_product(a: Single, b: Single) -> Single {
    narrowed(product(widened(a), widened(b)))
}

/// `a / b`, computed in `binary64` and rounded.
pub open spec fn single_quotient(a: Single, b: Single) -> Single {
    narrowed(quotient(widened(a), widened(b)))
}

/// The square root of `a`, computed in `binary64` and rounded.
pub open spec fn single_root(a: Single) -> Single {
    narrowed(root(widened(a)))
}

/// `-a`.
pub open spec fn single_opposite(a: Single) -> Single {
    Single {
        bits: (if a.negative() {
            a.bits - NARROW_SIGN
        } else {
            a.bits + NARROW_SIGN
        }) as u32,
    }
}

/// The magnitude of the `binary32` number nearest to `u` units of 2^-149.
pub open spec fn count_nearest(u: nat) -> nat {
    choose|m: nat| is_nearest(NARROW as nat, NARROW_TOP as nat, 1, u, m)
}

/// The number nearest to the natural number `n`, in one rounding.
pub open spec fn single_natural(n: nat) -> Single {
    Single { bits: count_nearest(n * pow2(149)) as u32 }
}

/// The magnitude of the number nearest to `n`.
fn count_magnitude(n: u64) -> (r: u64)
    ensures
        is_nearest(NARROW as nat, NARROW_TOP as nat, 1, n as nat * pow2(149), r as nat),
        r < NARROW_TOP,
{
    let p: u64 = 0x80_0000;
    let ghost top = NARROW_TOP as nat;
    let ghost u = n as nat * pow2(149);
    proof {
        lemma2_to64();
        lemma2_to64_rest();
        lemma_pow2_pos(149);
    }
    if n == 0 {
        proof {
            assert(u == 0) by (nonlinear_arith)
                requires
                    u == n as nat * pow2(149),
                    n == 0,
            ;
            lemma_grid_fields(p as nat, 0, 0);
            lemma_nearest(p as nat, top, 1, 0, 0, 0);
        }
        return 0;
    }
    let mut m: u64 = n;
    let mut s: u64 = 0;
    assert(n as nat * pow2(0) == n);
    while m < 0x8000_0000_0000_0000
        invariant
            0 < m,
            s <= 63,
            m == n as nat * pow2(s as nat),
            n > 0,
            m >= pow2(s as nat),
            pow2(63) == 0x8000_0000_0000_0000,
        decreases 64 - s,
    {
        proof {
            lemma_pow2_unfold((s + 1) as nat);
            let a = pow2(s as nat);
            assert(n as nat * (2 * a) == 2 * (n as nat * a)) by (nonlinear_arith);
        }
        m = 2 * m;
        s = s + 1;
    }
    let q: u64 = m / 0x100_0000_0000;
    let rest: u64 = m % 0x100_0000_0000;
    let e: u64 = 190 - s;
    let low: u64 = e * p + (q - p);
    let r: u64 = round(low, rest, 0x100_0000_0000);
    proof {
        let k = pow2((149 - s) as nat);
        lemma_pow2_pos((149 - s) as nat);
        lemma_pow2_adds(s as nat, (149 - s) as nat);
        lemma_pow2_adds(40, (149 - s) as nat);
        let a = pow2(s as nat);
        let d: nat = 0x100_0000_0000;
        assert(n as nat * (a * k) == (n as nat * a) * k) by (nonlinear_arith);
        assert(u == (q as nat * d + rest as nat) * k);
        lemma_grid_fields(p as nat, e as nat, (q - p) as nat);
        assert(q as nat * (d * k) == (q as nat * d) * k) by (nonlinear_arith);
        lemma_round(p as nat, top, 1, u, low as nat, q as nat, d, rest as nat, k, r as nat);
    }
    r
}

impl Single {
    pub fn plus(self, other: Single) -> (r: Single)
        ensures
            r == single_sum(self, other),
    {
        self.widen().plus(other.widen()).narrow()
    }

    pub fn minus(self, other: Single) -> (r: Single)
        ensures
            r == single_difference(self, other),
    {
        self.widen().minus(other.widen()).narrow()
    }

    pub fn times(self, other: Single) -> (r: Single)
        ensures
            r == single_product(self, other),
    {
        self.widen().times(other.widen()).narrow()
    }

    pub fn divided_by(self, other: Single) -> (r: Single)
        ensures
            r == single_quotient(self, other),
    {
        self.widen().divided_by(other.widen()).narrow()
    }

    pub fn square_root(self) -> (r: Single)
        ensures
            r == single_root(self),
    {
        self.widen().square_root().narrow()
    }

    pub fn negate(self) -> (r: Single)
        ensures
            r == single_opposite(self),
    {
        if self.bits >= NARROW_SIGN {
            Single { bits: self.bits - NARROW_SIGN }
        } else {
            Single { bits: self.bits + NARROW_SIGN }
        }
    }

    /// The number nearest to `n`.
    pub fn of_count(n: usize) -> (r: Single)
        ensures
            r == single_natural(n as nat),
    {
        let m: u64 = count_magnitude(n as u64);
        proof {
            lemma_nearest_unique(
                NARROW as nat,
                NARROW_TOP as nat,
                1,
                n as nat * pow2(149),
                m as nat,
                count_nearest(n as nat * pow2(149)),
            );
        }
        Single { bits: m as u32 }
    }
}

/// The remainder of `a` divided by `b`, with the sign of `a`. It is always exactly a number.
pub open spec fn single_remainder(a: Single, b: Single) -> Single {
    if a.is_nan() || b.is_nan() || a.magnitude() == NARROW_TOP || b.magnitude() == 0 {
        Single { bits: 0x7fc0_0000 }
    } else if b.magnitude() == NARROW_TOP {
        a
    } else {
        let m = choose|m: nat|
            m < NARROW_TOP && grid(NARROW as nat, m) == a.units() % b.units();
        Single {
            bits: (if a.negative() {
                NARROW_SIGN + m
            } else {
                m as int
            }) as u32,
        }
    }
}

/// The remainder of `a` divided by `b` that is not negative, but for rounding.
pub open spec fn single_rem_euclid(a: Single, b: Single) -> Single {
    let r = single_remainder(a, b);
    if widened(r).is_below(widened(Single { bits: 0 })) {
        single_sum(
            r,
            Single {
                bits: b.magnitude() as u32,
            },
        )
    } else {
        r
    }
}

/// Two numbers of the same size have the same magnitude.
proof fn lemma_same_place(a: nat, b: nat)
    requires
        grid(NARROW as nat, a) == grid(NARROW as nat, b),
    ensures
        a == b,
{
    if a < b {
        lemma_grid_increases(NARROW as nat, a, b);
    } else if b < a {
        lemma_grid_increases(NARROW as nat, b, a);
    }
}

proof fn lemma_mod_scaled(x: int, y: int, c: int)
    requires
        y > 0,
        c > 0,
    ensures
        (x * c) % (y * c) == (x % y) * c,
{
    let q = x / y;
    let r = x % y;
    lemma_fundamental_div_mod(x, y);
    assert(0 <= r < y) by {
        lemma_mod_bound(x, y);
    }
    assert(x * c == q * (y * c) + r * c) by (nonlinear_arith)
        requires
            x == y * q + r,
    ;
    assert(0 <= r * c < y * c) by (nonlinear_arith)
        requires
            0 <= r < y,
            c > 0,
    ;
    lemma_fundamental_div_mod_converse(x * c, y * c, q, r * c);
}

impl Single {
    /// The digits of a finite number, and the power of two that they count.
    fn parts(self) -> (r: (u64, u64))
        requires
            self.magnitude() < NARROW_TOP,
        ensures
            self.units() == r.0 as nat * pow2((r.1 - 1) as nat),
            r.0 < 2 * NARROW,
            1 <= r.1 <= 254,
            r.1 > 1 ==> r.0 >= NARROW,
            r.0 == 0 <==> self.magnitude() == 0,
    {
        let g: u32 = if self.bits >= NARROW_SIGN {
            self.bits - NARROW_SIGN
        } else {
            self.bits
        };
        let e: u64 = (g / NARROW) as u64;
        let f: u64 = (g % NARROW) as u64;
        proof {
            lemma_grid_fields(NARROW as nat, e as nat, f as nat);
            lemma2_to64();
            lemma_mul_basics(f as int);
        }
        if e == 0 {
            (f, 1)
        } else {
            (NARROW as u64 + f, e)
        }
    }

    fn size(self) -> (r: u32)
        ensures
            r == self.magnitude(),
    {
        if self.bits >= NARROW_SIGN {
            self.bits - NARROW_SIGN
        } else {
            self.bits
        }
    }

    /// The remainder of a division, with the sign of `self`.
    pub fn remainder(self, other: Single) -> (r: Single)
        ensures
            r == single_remainder(self, other),
            self.magnitude() < NARROW_TOP && 0 < other.magnitude() < NARROW_TOP ==> r.magnitude()
                < NARROW_TOP && r.negative() == self.negative() && r.units() == self.units()
                % other.units(),
    {
        let a: u32 = self.size();
        let b: u32 = other.size();
        if a >= NARROW_TOP || b > NARROW_TOP || b == 0 {
            return Single { bits: 0x7fc0_0000 };
        }
        if b == NARROW_TOP {
            return self;
        }
        let sign: u32 = if self.bits >= NARROW_SIGN {
            NARROW_SIGN
        } else {
            0
        };
        let ghost p = NARROW as nat;
        if a < b {
            proof {
                lemma_grid_increases(p, a as nat, b as nat);
                lemma_small_mod(self.units(), other.units());
                let m = choose|m: nat| m < NARROW_TOP && grid(p, m) == self.units() % other.units();
                lemma_same_place(m, a as nat);
            }
            return self;
        }
        let (ma, ea): (u64, u64) = self.parts();
        let (mb, eb): (u64, u64) = other.parts();
        let ghost kb = pow2((eb - 1) as nat);
        proof {
            lemma_pow2_pos((eb - 1) as nat);
            if b < a {
                lemma_grid_increases(p, b as nat, a as nat);
            }
            if ea < eb {
                // The digits of `other` are then as many as there can be.
                let ka = pow2((ea - 1) as nat);
                lemma_pow2_adds((ea - 1) as nat, (eb - ea) as nat);
                lemma_pow2_pos((ea - 1) as nat);
                lemma_pow2_pos((eb - ea - 1) as nat);
                lemma_pow2_unfold((eb - ea) as nat);
                let t = pow2((eb - ea) as nat);
                assert(mb as nat * (ka * t) >= NARROW as nat * (ka * 2)) by (nonlinear_arith)
                    requires
                        mb >= NARROW,
                        t >= 2,
                        ka > 0,
                ;
                assert(ma as nat * ka < (2 * NARROW as nat) * ka) by (nonlinear_arith)
                    requires
                        ma < 2 * NARROW,
                        ka > 0,
                ;
                assert(NARROW as nat * (ka * 2) == (2 * NARROW as nat) * ka) by (nonlinear_arith);
            }
        }
        let mut rest: u64 = ma % mb;
        let mut k: u64 = 0;
        proof {
            lemma2_to64();
            lemma_mul_basics(ma as int);
        }
        while k < ea - eb
            invariant
                ea - eb <= 254,
                eb <= ea,
                k <= ea - eb,
                0 < mb < 2 * NARROW,
                rest < mb,
                rest == (ma as nat * pow2(k as nat)) % (mb as nat),
            decreases ea - eb - k,
        {
            proof {
                let t = pow2(k as nat);
                lemma_pow2_unfold((k + 1) as nat);
                assert(ma as nat * (2 * t) == 2 * (ma as nat * t)) by (nonlinear_arith);
                lemma_mul_mod_noop_right(2, (ma as nat * t) as int, mb as int);
            }
            rest = (2 * rest) % mb;
            k = k + 1;
        }
        proof {
            let t = pow2((ea - eb) as nat);
            lemma_pow2_adds((ea - eb) as nat, (eb - 1) as nat);
            assert(ma as nat * (t * kb) == (ma as nat * t) * kb) by (nonlinear_arith);
            lemma_mod_scaled((ma as nat * t) as int, mb as int, kb as int);
            assert(self.units() % other.units() == rest as nat * kb);
        }
        let mut v: u64 = rest;
        let mut e: u64 = eb;
        while v < NARROW as u64 && e > 1
            invariant
                1 <= e <= eb <= 254,
                v < 2 * NARROW,
                v as nat * pow2((e - 1) as nat) == rest as nat * kb,
            decreases e,
        {
            proof {
                lemma_pow2_unfold((e - 1) as nat);
                let t = pow2((e - 2) as nat);
                assert(v as nat * (2 * t) == (2 * v as nat) * t) by (nonlinear_arith);
            }
            v = 2 * v;
            e = e - 1;
        }
        let m: u32 = if v >= NARROW as u64 {
            (e as u32) * NARROW + (v as u32 - NARROW)
        } else {
            v as u32
        };
        proof {
            if v >= NARROW {
                lemma_grid_fields(p, e as nat, (v - NARROW) as nat);
            } else {
                lemma_grid_fields(p, 0, v as nat);
                lemma2_to64();
                lemma_mul_basics(v as int);
            }
            assert(grid(p, m as nat) == self.units() % other.units());
            let n = choose|n: nat| n < NARROW_TOP && grid(p, n) == self.units() % other.units();
            lemma_same_place(m as nat, n);
        }
        Single { bits: sign + m }
    }

    /// The remainder of a division that is not negative, but for rounding.
    pub fn rem_euclid(self, other: Single) -> (r: Single)
        ensures
            r == single_rem_euclid(self, other),
    {
        let r: Single = self.remainder(other);
        let zero: Single = Single { bits: 0 };
        if r.widen().below(zero.widen()) {
            r.plus(Single { bits: other.size() })
        } else {
            r
        }
    }
}

} // verus!
