//! Binary floating-point numbers (IEEE 754 `binary64` and `binary32`) by their bit patterns:
//! what a pattern stands for, how two compare, and how they convert.
use vstd::arithmetic::div_mod::*;
use vstd::arithmetic::mul::*;
use vstd::arithmetic::power2::*;
use vstd::bits::*;
use vstd::prelude::*;

verus! {

/// How many fractions a `binary64` exponent has.
pub const WIDE: u64 = 0x10_0000_0000_0000;

/// The sign bit of a `binary64` pattern.
pub const WIDE_SIGN: u64 = 0x8000_0000_0000_0000;

/// The `binary64` magnitude of infinity: that of a number that is not one (NaN) is larger.
pub const WIDE_TOP: u64 = 0x7ff0_0000_0000_0000;

/// How many fractions a `binary32` exponent has.
pub const NARROW: u32 = 0x80_0000;

/// The sign bit of a `binary32` pattern.
pub const NARROW_SIGN: u32 = 0x8000_0000;

/// The `binary32` magnitude of infinity.
pub const NARROW_TOP: u32 = 0x7f80_0000;

/// What the magnitude `m` (a pattern without its sign) stands for, in units of the smallest
/// positive number, where each exponent has `p` fractions. Infinity stands one step above the
/// largest finite number.
pub open spec fn grid(p: nat, m: nat) -> nat {
    let e = m / p;
    let f = m % p;
    if e == 0 {
        f
    } else {
        (p + f) * pow2((e - 1) as nat)
    }
}

/// How far `grid` climbs from `m` to the next magnitude.
pub open spec fn grid_step(p: nat, m: nat) -> nat {
    let e = m / p;
    if e == 0 {
        1
    } else {
        pow2((e - 1) as nat)
    }
}

pub proof fn lemma_grid_step(p: nat, m: nat)
    requires
        p > 1,
    ensures
        grid(p, m + 1) == grid(p, m) + grid_step(p, m),
        grid_step(p, m) > 0,
{
    let e = m / p;
    let f = m % p;
    lemma_fundamental_div_mod(m as int, p as int);
    assert(f < p) by {
        lemma_mod_bound(m as int, p as int);
    }
    lemma2_to64();
    if e >= 1 {
        lemma_pow2_pos((e - 1) as nat);
    }
    if f + 1 < p {
        lemma_mul_is_commutative(p as int, e as int);
        lemma_fundamental_div_mod_converse((m + 1) as int, p as int, e as int, (f + 1) as int);
        if e >= 1 {
            let q = pow2((e - 1) as nat);
            assert((p + (f + 1)) * q == (p + f) * q + q) by (nonlinear_arith);
        }
    } else {
        assert(p * e + p == (e + 1) * p) by (nonlinear_arith);
        lemma_fundamental_div_mod_converse((m + 1) as int, p as int, (e + 1) as int, 0);
        if e >= 1 {
            let q = pow2((e - 1) as nat);
            lemma_pow2_unfold(e);
            assert(p * (2 * q) == (p + f) * q + q) by (nonlinear_arith)
                requires
                    f + 1 == p,
            ;
            assert((m + 1) / p == e + 1 && (m + 1) % p == 0);
            assert(grid(p, m + 1) == p * pow2(e));
        } else {
            assert((m + 1) / p == 1 && (m + 1) % p == 0);
            assert(p * 1 == p) by (nonlinear_arith);
            assert(grid(p, m + 1) == p * pow2(0));
        }
    }
}

/// A larger magnitude stands for a larger number.
pub proof fn lemma_grid_increases(p: nat, a: nat, b: nat)
    requires
        p > 1,
        a < b,
    ensures
        grid(p, a) < grid(p, b),
    decreases b,
{
    lemma_grid_step(p, (b - 1) as nat);
    if a < b - 1 {
        lemma_grid_increases(p, a, (b - 1) as nat);
    }
}

pub open spec fn distance(a: nat, b: nat) -> nat {
    if a <= b {
        (b - a) as nat
    } else {
        (a - b) as nat
    }
}

/// Of the magnitudes up to `top`, `m` is the one whose number is nearest to `u`; of two equally
/// near, the even one. Each unit of the grid is worth `scale`.
pub open spec fn is_nearest(p: nat, top: nat, scale: nat, u: nat, m: nat) -> bool {
    &&& m <= top
    &&& forall|t: nat|
        t <= top && t != m ==> {
            let near = distance(grid(p, m) * scale, u);
            let other = #[trigger] distance(grid(p, t) * scale, u);
            near < other || (near == other && m % 2 == 0)
        }
}

/// The nearest magnitude to `u` is `low`, the last one not above it, or the next, as the half way
/// between the two decides.
pub proof fn lemma_nearest(p: nat, top: nat, scale: nat, u: nat, low: nat, m: nat)
    requires
        p > 1,
        scale > 0,
        low <= top,
        grid(p, low) * scale <= u,
        low < top ==> u < grid(p, low + 1) * scale,
        ({
            let rest = 2 * (u - grid(p, low) * scale);
            let step = grid_step(p, low) * scale;
            m == if low < top && (rest > step || (rest == step && low % 2 == 1)) {
                low + 1
            } else {
                low
            }
        }),
    ensures
        is_nearest(p, top, scale, u, m),
{
    let g = |t: nat| grid(p, t) * scale;
    lemma_grid_step(p, low);
    assert(g(low + 1) == g(low) + grid_step(p, low) * scale) by {
        lemma_mul_is_distributive_add_other_way(
            scale as int,
            grid(p, low) as int,
            grid_step(p, low) as int,
        );
    }
    assert forall|t: nat| t <= top && t != m implies {
        let near = distance(grid(p, m) * scale, u);
        let other = #[trigger] distance(grid(p, t) * scale, u);
        near < other || (near == other && m % 2 == 0)
    } by {
        if t < low {
            lemma_grid_increases(p, t, low);
            lemma_mul_strict_inequality(grid(p, t) as int, grid(p, low) as int, scale as int);
        }
        if t > low + 1 {
            lemma_grid_increases(p, low + 1, t);
            lemma_mul_strict_inequality(grid(p, low + 1) as int, grid(p, t) as int, scale as int);
        }
    }
}

/// A `binary64` number.
#[derive(Clone, Copy, PartialEq, Eq, Structural, Debug)]
pub struct Double {
    pub bits: u64,
}

impl Double {
    pub open spec fn negative(self) -> bool {
        self.bits >= WIDE_SIGN
    }

    /// The pattern without its sign.
    pub open spec fn magnitude(self) -> nat {
        if self.bits >= WIDE_SIGN {
            (self.bits - WIDE_SIGN) as nat
        } else {
            self.bits as nat
        }
    }

    pub open spec fn is_nan(self) -> bool {
        self.magnitude() > WIDE_TOP
    }

    pub open spec fn is_finite(self) -> bool {
        self.magnitude() < WIDE_TOP
    }

    /// The absolute value, in units of 2^-1074.
    pub open spec fn units(self) -> nat {
        grid(WIDE as nat, self.magnitude())
    }

    /// The value, in units of 2^-1074. Infinity stands for 2^1024, above all finite numbers.
    pub open spec fn scaled(self) -> int {
        if self.negative() {
            -(self.units() as int)
        } else {
            self.units() as int
        }
    }

    /// Whether `self < other`; never where one of them is NaN.
    pub open spec fn is_below(self, other: Double) -> bool {
        !self.is_nan() && !other.is_nan() && self.scaled() < other.scaled()
    }

    /// Whether `self == other` as numbers: zero has two patterns, and NaN equals nothing.
    pub open spec fn is_same(self, other: Double) -> bool {
        !self.is_nan() && !other.is_nan() && self.scaled() == other.scaled()
    }

    /// Whether the value is an integer.
    pub open spec fn is_whole(self) -> bool {
        self.is_finite() && self.units() % pow2(1074) == 0
    }

    /// The absolute value without its fraction.
    pub open spec fn whole(self) -> nat {
        self.units() / pow2(1074)
    }

    /// The value without its fraction, moved into `low..=high`; 0 for NaN.
    pub open spec fn clamped(self, low: int, high: int) -> int {
        let n = if self.negative() {
            -(self.whole() as int)
        } else {
            self.whole() as int
        };
        if self.is_nan() {
            0
        } else if n < low {
            low
        } else if n > high {
            high
        } else {
            n
        }
    }

    pub(crate) fn get_magnitude(self) -> (r: u64)
        ensures
            r == self.magnitude(),
    {
        if self.bits >= WIDE_SIGN {
            self.bits - WIDE_SIGN
        } else {
            self.bits
        }
    }

    /// Whether `self` is not a number.
    pub fn nan(self) -> (r: bool)
        ensures
            r == self.is_nan(),
    {
        self.get_magnitude() > WIDE_TOP
    }

    /// Whether `self < other`.
    pub fn below(self, other: Double) -> (r: bool)
        ensures
            r == self.is_below(other),
    {
        let a: u64 = self.get_magnitude();
        let b: u64 = other.get_magnitude();
        proof {
            lemma_order(self, other);
        }
        if a > WIDE_TOP || b > WIDE_TOP {
            false
        } else if self.bits >= WIDE_SIGN {
            if other.bits >= WIDE_SIGN {
                b < a
            } else {
                a != 0 || b != 0
            }
        } else {
            other.bits < WIDE_SIGN && a < b
        }
    }

    /// Whether `self == other`.
    pub fn same(self, other: Double) -> (r: bool)
        ensures
            r == self.is_same(other),
    {
        let a: u64 = self.get_magnitude();
        let b: u64 = other.get_magnitude();
        proof {
            lemma_order(self, other);
        }
        if a > WIDE_TOP || b > WIDE_TOP {
            false
        } else if (self.bits >= WIDE_SIGN) == (other.bits >= WIDE_SIGN) {
            a == b
        } else {
            a == 0 && b == 0
        }
    }

    /// The number without its sign.
    pub fn absolute(self) -> (r: Double)
        ensures
            !r.negative(),
            r.magnitude() == self.magnitude(),
            r.units() == self.units(),
    {
        Double { bits: self.get_magnitude() }
    }
}

/// How two numbers of either sign compare, by their magnitudes.
pub proof fn lemma_order(a: Double, b: Double)
    ensures
        a.magnitude() < b.magnitude() <==> a.units() < b.units(),
        a.magnitude() == b.magnitude() <==> a.units() == b.units(),
        a.units() == 0 <==> a.magnitude() == 0,
        b.units() == 0 <==> b.magnitude() == 0,
{
    let p = WIDE as nat;
    if a.magnitude() < b.magnitude() {
        lemma_grid_increases(p, a.magnitude(), b.magnitude());
    }
    if b.magnitude() < a.magnitude() {
        lemma_grid_increases(p, b.magnitude(), a.magnitude());
    }
    if a.magnitude() > 0 {
        lemma_grid_increases(p, 0, a.magnitude());
    }
    if b.magnitude() > 0 {
        lemma_grid_increases(p, 0, b.magnitude());
    }
}

/// What a magnitude with exponent `e` and fraction `f` stands for.
pub proof fn lemma_grid_fields(p: nat, e: nat, f: nat)
    requires
        f < p,
    ensures
        (e * p + f) / p == e,
        (e * p + f) % p == f,
        e == 0 ==> grid(p, e * p + f) == f,
        e >= 1 ==> grid(p, e * p + f) == (p + f) * pow2((e - 1) as nat),
        e >= 1 ==> grid_step(p, e * p + f) == pow2((e - 1) as nat),
        e == 0 ==> grid_step(p, e * p + f) == 1,
{
    lemma_fundamental_div_mod_converse((e * p + f) as int, p as int, e as int, f as int);
}

/// Rounding a number of `q * d + rest` parts, each worth `k`, to a grid that has `low` at `q * d`
/// parts and steps by `d` of them there.
pub proof fn lemma_round(
    p: nat,
    top: nat,
    scale: nat,
    u: nat,
    low: nat,
    q: nat,
    d: nat,
    rest: nat,
    k: nat,
    m: nat,
)
    requires
        p > 1,
        scale > 0,
        k > 0,
        low < top,
        rest < d,
        u == (q * d + rest) * k,
        grid(p, low) * scale == (q * d) * k,
        grid_step(p, low) * scale == d * k,
        m == if 2 * rest > d || (2 * rest == d && low % 2 == 1) {
            low + 1
        } else {
            low
        },
    ensures
        is_nearest(p, top, scale, u, m),
        rest == 0 ==> m == low && grid(p, m) * scale == u,
{
    assert(u == (q * d) * k + rest * k) by (nonlinear_arith)
        requires
            u == (q * d + rest) * k,
    ;
    lemma_grid_step(p, low);
    assert(grid(p, low + 1) * scale == grid(p, low) * scale + grid_step(p, low) * scale) by {
        lemma_mul_is_distributive_add_other_way(
            scale as int,
            grid(p, low) as int,
            grid_step(p, low) as int,
        );
    }
    assert(rest * k < d * k) by (nonlinear_arith)
        requires
            rest < d,
            k > 0,
    ;
    assert(2 * (rest * k) > d * k <==> 2 * rest > d) by (nonlinear_arith)
        requires
            k > 0,
    ;
    assert(2 * (rest * k) == d * k <==> 2 * rest == d) by (nonlinear_arith)
        requires
            k > 0,
    ;
    lemma_nearest(p, top, scale, u, low, m);
    assert(rest == 0 ==> rest * k == 0) by (nonlinear_arith);
}

/// The magnitude `low`, or the next one where `rest` of `d` parts are more than half, or half and
/// `low` is odd.
pub(crate) fn round(low: u64, rest: u64, d: u64) -> (m: u64)
    requires
        low < u64::MAX,
        rest < d,
    ensures
        m == if 2 * rest > d || (2 * rest == d && low % 2 == 1) {
            low + 1
        } else {
            low as int
        },
{
    if rest > d - rest || (rest == d - rest && low % 2 == 1) {
        low + 1
    } else {
        low
    }
}

/// The magnitude of the number nearest to `n`.
fn magnitude_of(n: u64) -> (r: u64)
    ensures
        is_nearest(WIDE as nat, WIDE_TOP as nat, 1, n as nat * pow2(1074), r as nat),
        r < WIDE_TOP,
        n < 2 * WIDE ==> grid(WIDE as nat, r as nat) == n as nat * pow2(1074),
{
    let p: u64 = WIDE;
    proof {
        lemma2_to64();
        lemma2_to64_rest();
        lemma_pow2_pos(1074);
    }
    let ghost u = n as nat * pow2(1074);
    if n == 0 {
        proof {
            assert(u == 0) by (nonlinear_arith)
                requires
                    u == n as nat * pow2(1074),
                    n == 0,
            ;
            lemma_grid_fields(p as nat, 0, 0);
            lemma_nearest(p as nat, WIDE_TOP as nat, 1, 0, 0, 0);
        }
        return 0;
    }
    let mut m: u64 = n;
    let mut s: u64 = 0;
    proof {
        assert(n as nat * pow2(0) == n) by {
            lemma2_to64();
        }
    }
    while m < 0x8000_0000_0000_0000
        invariant
            0 < m,
            s <= 63,
            m == n as nat * pow2(s as nat),
            n > 0,
            m >= pow2(s as nat),
            pow2(63) == 0x8000_0000_0000_0000,
        decreases 64 - s,
    {
        proof {
            lemma_pow2_unfold((s + 1) as nat);
            let a = pow2(s as nat);
            assert(n as nat * (2 * a) == 2 * (n as nat * a)) by (nonlinear_arith);
            if s >= 63 {
            }
        }
        m = 2 * m;
        s = s + 1;
    }
    let q: u64 = m / 2048;
    let rest: u64 = m % 2048;
    let e: u64 = 1086 - s;
    let low: u64 = e * p + (q - p);
    let r: u64 = round(low, rest, 2048);
    proof {
        let k = pow2((1074 - s) as nat);
        lemma_pow2_pos((1074 - s) as nat);
        lemma_pow2_adds(s as nat, (1074 - s) as nat);
        lemma_pow2_adds(11, (1074 - s) as nat);
        let a = pow2(s as nat);
        assert(n as nat * (a * k) == (n as nat * a) * k) by (nonlinear_arith);
        assert(u == (q as nat * 2048 + rest as nat) * k);
        lemma_grid_fields(p as nat, e as nat, (q - p) as nat);
        assert(q as nat * (2048 * k) == (q as nat * 2048) * k) by (nonlinear_arith);
        lemma_round(
            p as nat,
            WIDE_TOP as nat,
            1,
            u,
            low as nat,
            q as nat,
            2048,
            rest as nat,
            k,
            r as nat,
        );
        if n < 2 * WIDE {
            assert(s >= 11) by {
                if s <= 10 {
                    if s < 10 {
                        lemma_pow2_strictly_increases(s as nat, 10);
                    }
                    assert(n as nat * a < 2 * WIDE * 1024) by (nonlinear_arith)
                        requires
                            n < 2 * WIDE,
                            0 < a <= 1024,
                    ;
                }
            }
            lemma_pow2_adds(11, (s - 11) as nat);
            let b = pow2((s - 11) as nat);
            assert(n as nat * (2048 * b) == 2048 * (n as nat * b)) by (nonlinear_arith);
            lemma_mod_multiples_basic((n as nat * b) as int, 2048);
            assert(rest == 0);
        }
    }
    r
}

impl Double {
    /// The number nearest to `n`.
    pub fn of_unsigned(n: u64) -> (r: Double)
        ensures
            r.is_finite(),
            !r.negative(),
            is_nearest(WIDE as nat, WIDE_TOP as nat, 1, n as nat * pow2(1074), r.magnitude()),
            n < 2 * WIDE ==> r.scaled() == n * pow2(1074),
    {
        Double { bits: magnitude_of(n) }
    }

    /// The number nearest to `n`.
    pub fn of_signed(n: i64) -> (r: Double)
        ensures
            r.is_finite(),
            r.negative() == (n < 0),
            is_nearest(
                WIDE as nat,
                WIDE_TOP as nat,
                1,
                (if n < 0 {
                    -n
                } else {
                    n as int
                }) as nat * pow2(1074),
                r.magnitude(),
            ),
            -2 * WIDE < n < 2 * WIDE ==> r.scaled() == n * pow2(1074),
    {
        if n >= 0 {
            Double { bits: magnitude_of(n as u64) }
        } else {
            let a: u64 = if n == i64::MIN {
                0x8000_0000_0000_0000
            } else {
                (-n) as u64
            };
            proof {
                assert((-(n as int)) * pow2(1074) == -(n * pow2(1074))) by (nonlinear_arith);
            }
            Double { bits: magnitude_of(a) + WIDE_SIGN }
        }
    }

    /// The significand and the exponent: the absolute value is the first times two to the power of
    /// the second less one.
    pub(crate) fn parts(self) -> (r: (u64, u64))
        requires
            !self.is_nan(),
        ensures
            1 <= r.1 <= 2047,
            r.0 < 2 * WIDE,
            r.1 > 1 ==> r.0 >= WIDE,
            self.units() == r.0 as nat * pow2((r.1 - 1) as nat),
    {
        let m: u64 = self.get_magnitude();
        let e: u64 = m / WIDE;
        let f: u64 = m % WIDE;
        proof {
            lemma2_to64();
            lemma_mul_basics(f as int);
        }
        if e == 0 {
            (f, 1)
        } else {
            (WIDE + f, e)
        }
    }

    /// The absolute value without its fraction, or the largest `u64` where that is smaller.
    fn whole_part(self) -> (r: u64)
        requires
            !self.is_nan(),
        ensures
            r == if self.whole() > u64::MAX {
                u64::MAX as nat
            } else {
                self.whole()
            },
    {
        let parts: (u64, u64) = self.parts();
        let m: u64 = parts.0;
        let e: u64 = parts.1;
        let ghost one = pow2(1074);
        proof {
            lemma2_to64();
            lemma2_to64_rest();
            lemma_pow2_pos(1074);
            lemma_pow2_pos((e - 1) as nat);
        }
        if e < 1023 {
            proof {
                let a = pow2((e - 1) as nat);
                lemma_pow2_adds(53, 1021);
                if e < 1022 {
                    lemma_pow2_strictly_increases((e - 1) as nat, 1021);
                }
                assert(m as nat * a < pow2(53) * pow2(1021)) by (nonlinear_arith)
                    requires
                        m < pow2(53),
                        0 < a <= pow2(1021),
                ;
                lemma_basic_div(self.units() as int, one as int);
            }
            0
        } else if e < 1075 {
            let sh: u64 = 1075 - e;
            let r: u64 = m >> sh;
            proof {
                lemma_u64_shr_is_div(m, sh);
                let a = pow2((e - 1) as nat);
                let d = pow2(sh as nat);
                lemma_pow2_pos(sh as nat);
                lemma_pow2_adds(sh as nat, (e - 1) as nat);
                assert(one == d * a);
                lemma_mul_is_commutative(d as int, a as int);
                lemma_mul_is_commutative(m as int, a as int);
                lemma_div_multiples_scale(a as int, m as int, d as int);
            }
            r
        } else if e <= 1086 {
            let sh: u64 = e - 1075;
            proof {
                let d = pow2(sh as nat);
                lemma_pow2_pos(sh as nat);
                if sh < 11 {
                    lemma_pow2_strictly_increases(sh as nat, 11);
                }
                assert(m as nat * d < pow2(53) * 2048) by (nonlinear_arith)
                    requires
                        m < pow2(53),
                        0 < d <= 2048,
                        pow2(53) > 0,
                ;
                lemma_u64_shl_is_mul(m, sh);
                lemma_pow2_adds(sh as nat, 1074);
                assert(m as nat * (d * one) == (m as nat * d) * one) by (nonlinear_arith);
                lemma_div_multiples_vanish((m as nat * d) as int, one as int);
                lemma_mul_is_commutative((m as nat * d) as int, one as int);
            }
            m << sh
        } else {
            proof {
                let d = pow2((e - 1075) as nat);
                if e > 1087 {
                    lemma_pow2_strictly_increases(12, (e - 1075) as nat);
                }
                lemma_pow2_adds((e - 1075) as nat, 1074);
                assert(m as nat * (d * one) == (m as nat * d) * one) by (nonlinear_arith);
                lemma_div_multiples_vanish((m as nat * d) as int, one as int);
                lemma_mul_is_commutative((m as nat * d) as int, one as int);
                assert(m as nat * d >= pow2(52) * 4096) by (nonlinear_arith)
                    requires
                        m >= pow2(52),
                        d >= 4096,
                        pow2(52) > 0,
                ;
            }
            u64::MAX
        }
    }

    /// Whether the value is an integer.
    pub fn is_integer(self) -> (r: bool)
        ensures
            r == self.is_whole(),
    {
        let g: u64 = self.get_magnitude();
        if g >= WIDE_TOP {
            return false;
        }
        let parts: (u64, u64) = self.parts();
        let m: u64 = parts.0;
        let e: u64 = parts.1;
        let ghost one = pow2(1074);
        proof {
            lemma2_to64();
            lemma2_to64_rest();
            lemma_pow2_pos(1074);
            lemma_pow2_pos((e - 1) as nat);
        }
        if e < 1023 {
            proof {
                let a = pow2((e - 1) as nat);
                lemma_pow2_adds(53, 1021);
                if e < 1022 {
                    lemma_pow2_strictly_increases((e - 1) as nat, 1021);
                }
                assert(m as nat * a < pow2(53) * pow2(1021)) by (nonlinear_arith)
                    requires
                        m < pow2(53),
                        0 < a <= pow2(1021),
                ;
                lemma_small_mod(self.units(), one);
                lemma_order(self, self);
            }
            g == 0
        } else if e < 1075 {
            let sh: u64 = 1075 - e;
            let q: u64 = m >> sh;
            proof {
                lemma_u64_shr_is_div(m, sh);
                let a = pow2((e - 1) as nat);
                let d = pow2(sh as nat);
                lemma_pow2_pos(sh as nat);
                if sh < 52 {
                    lemma_pow2_strictly_increases(sh as nat, 52);
                }
                lemma_pow2_adds(sh as nat, (e - 1) as nat);
                lemma_mul_is_commutative(d as int, a as int);
                lemma_mul_is_commutative(m as int, a as int);
                lemma_div_multiples_scale(a as int, m as int, d as int);
                lemma_fundamental_div_mod(m as int, d as int);
                lemma_mul_is_commutative(d as int, q as int);
                assert(q as nat * d <= m);
                lemma_u64_shl_is_mul(q, sh);
                let rest = m as int % d as int;
                assert(self.units() as int % one as int == a * rest);
                assert(a * rest == 0 <==> rest == 0) by (nonlinear_arith)
                    requires
                        a > 0,
                ;
            }
            (q << sh) == m
        } else {
            proof {
                let d = pow2((e - 1075) as nat);
                lemma_pow2_adds((e - 1075) as nat, 1074);
                assert(m as nat * (d * one) == (m as nat * d) * one) by (nonlinear_arith);
                lemma_mod_multiples_basic((m as nat * d) as int, one as int);
            }
            true
        }
    }

    /// The value without its fraction, moved into `0..=high`; 0 for NaN.
    pub fn to_unsigned(self, high: u64) -> (r: u64)
        ensures
            r == self.clamped(0, high as int),
    {
        if self.nan() || self.bits >= WIDE_SIGN {
            0
        } else {
            let n: u64 = self.whole_part();
            if n > high {
                high
            } else {
                n
            }
        }
    }

    /// The value without its fraction, moved into `-high - 1..=high`; 0 for NaN.
    pub fn to_signed(self, high: i64) -> (r: i64)
        requires
            high >= 0,
        ensures
            r == self.clamped(-high - 1, high as int),
    {
        if self.nan() {
            0
        } else {
            let n: u64 = self.whole_part();
            if self.bits < WIDE_SIGN {
                if n > high as u64 {
                    high
                } else {
                    n as i64
                }
            } else if n > high as u64 {
                -high - 1
            } else {
                -(n as i64)
            }
        }
    }
}

/// Scaling both numbers of a division by `a` keeps the quotient and scales the rest.
proof fn lemma_div_multiples_scale(a: int, m: int, d: int)
    requires
        a > 0,
        d > 0,
        m >= 0,
    ensures
        (a * m) / (a * d) == m / d,
        (a * m) % (a * d) == a * (m % d),
{
    lemma_fundamental_div_mod(m, d);
    lemma_mod_bound(m, d);
    let q = m / d;
    let r = m % d;
    assert(a * m == q * (a * d) + a * r) by (nonlinear_arith)
        requires
            m == d * q + r,
    ;
    assert(0 <= a * r < a * d) by (nonlinear_arith)
        requires
            a > 0,
            0 <= r < d,
    ;
    lemma_fundamental_div_mod_converse(a * m, a * d, q, a * r);
}

/// How far `f` must be shifted to have its leading digit where a `binary64` number has it.
pub proof fn lemma_normal_shift(f: nat, t: nat) -> (r: nat)
    requires
        f > 0,
        f * pow2(t) < 2 * WIDE,
        pow2(t) <= f * pow2(t),
    ensures
        WIDE <= f * pow2(r) < 2 * WIDE,
        pow2(r) <= f * pow2(r),
    decreases 2 * WIDE - f * pow2(t),
{
    let a = pow2(t);
    if f * a >= WIDE {
        t
    } else {
        lemma_pow2_unfold(t + 1);
        lemma_pow2_pos(t);
        assert(f * (2 * a) == 2 * (f * a)) by (nonlinear_arith);
        assert(f * a > 0) by (nonlinear_arith)
            requires
                f > 0,
                a > 0,
        ;
        lemma_normal_shift(f, t + 1)
    }
}

} // verus!
