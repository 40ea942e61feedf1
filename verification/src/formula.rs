//! The operations that the formulas of mechanics are made of.
//!
//! A formula is stated once, over any numbers with these operations. Over `Double` it says to the
//! last bit what is computed; over the real numbers it can be held to what it is meant to be.
use crate::arithmetic::{
    difference, integer, lemma_is_nearest, nearest, opposite, product, quotient, signed, sum,
};
use crate::double::Double;
use vstd::arithmetic::power2::pow2;
use vstd::prelude::*;

verus! {

/// Numbers that can be calculated with.
pub trait Arithmetic: Sized {
    /// The natural number `n`.
    spec fn natural(n: nat) -> Self;

    spec fn added(self, other: Self) -> Self;

    spec fn reduced(self, other: Self) -> Self;

    spec fn multiplied(self, other: Self) -> Self;

    spec fn divided(self, other: Self) -> Self;

    spec fn reversed(self) -> Self;
}

impl Arithmetic for Double {
    open spec fn natural(n: nat) -> Double {
        signed(false, nearest(1, n * pow2(1074)))
    }

    open spec fn added(self, other: Double) -> Double {
        sum(self, other)
    }

    open spec fn reduced(self, other: Double) -> Double {
        difference(self, other)
    }

    open spec fn multiplied(self, other: Double) -> Double {
        product(self, other)
    }

    open spec fn divided(self, other: Double) -> Double {
        quotient(self, other)
    }

    open spec fn reversed(self) -> Double {
        opposite(self)
    }
}

/// The product of two real numbers. It is opaque, so that the solver of linear arithmetic does
/// not look into it.
#[verifier::opaque]
pub open spec fn real_times(x: real, y: real) -> real {
    x * y
}

/// The quotient of two real numbers, opaque as the product is.
#[verifier::opaque]
pub open spec fn real_over(x: real, y: real) -> real {
    x / y
}

/// A sum times a number.
pub proof fn lemma_sum_times(x: real, y: real, q: real)
    ensures
        real_times(x + y, q) == real_times(x, q) + real_times(y, q),
        real_times(x - y, q) == real_times(x, q) - real_times(y, q),
        real_times(q, x + y) == real_times(q, x) + real_times(q, y),
{
    reveal(real_times);
    assert((x + y) * q == x * q + y * q) by (nonlinear_arith);
    assert((x - y) * q == x * q - y * q) by (nonlinear_arith);
    assert(q * (x + y) == q * x + q * y) by (nonlinear_arith);
}

/// The order of the factors does not matter.
pub proof fn lemma_times_order(x: real, y: real, q: real)
    ensures
        real_times(real_times(x, q), y) == real_times(real_times(x, y), q),
        real_times(real_times(q, x), y) == real_times(q, real_times(x, y)),
        real_times(x, y) == real_times(y, x),
{
    reveal(real_times);
    assert((x * q) * y == (x * y) * q) by (nonlinear_arith);
    assert((q * x) * y == q * (x * y)) by (nonlinear_arith);
    assert(x * y == y * x) by (nonlinear_arith);
}

/// To divide by a number is to multiply by its reciprocal.
pub proof fn lemma_over_times(x: real, p: real)
    requires
        p != 0real,
    ensures
        real_over(x, p) == real_times(x, real_over(1real, p)),
        real_times(real_over(x, p), p) == x,
        real_over(p, p) == 1real,
        real_over(0real, p) == 0real,
{
    reveal(real_times);
    reveal(real_over);
    assert(x / p == x * (1real / p)) by (nonlinear_arith)
        requires
            p != 0real,
    ;
    assert((x / p) * p == x) by (nonlinear_arith)
        requires
            p != 0real,
    ;
    assert(p / p == 1real) by (nonlinear_arith)
        requires
            p != 0real,
    ;
    assert(0real / p == 0real) by (nonlinear_arith)
        requires
            p != 0real,
    ;
}

/// Nothing times a number, and once a number.
pub proof fn lemma_times_units(x: real)
    ensures
        real_times(0real, x) == 0real,
        real_times(x, 0real) == 0real,
        real_times(1real, x) == x,
        real_times(x, 1real) == x,
{
    reveal(real_times);
}

impl Arithmetic for real {
    open spec fn natural(n: nat) -> real {
        n as real
    }

    open spec fn added(self, other: real) -> real {
        self + other
    }

    open spec fn reduced(self, other: real) -> real {
        self - other
    }

    open spec fn multiplied(self, other: real) -> real {
        real_times(self, other)
    }

    open spec fn divided(self, other: real) -> real {
        real_over(self, other)
    }

    open spec fn reversed(self) -> real {
        (0 as real) - self
    }
}

/// The integer `n`, or the number nearest to it.
pub fn signed_number(n: i64) -> (r: Double)
    ensures
        r == integer(n as int),
{
    let r: Double = Double::of_signed(n);
    proof {
        lemma_is_nearest(
            1,
            (if n < 0 {
                -n
            } else {
                n as int
            }) as nat * pow2(1074),
            r.magnitude(),
        );
    }
    r
}

/// The natural number `n`, or the number nearest to it.
pub fn number(n: u64) -> (r: Double)
    ensures
        r == Double::natural(n as nat),
        r == integer(n as int),
{
    let r: Double = Double::of_unsigned(n);
    proof {
        lemma_is_nearest(1, n as nat * pow2(1074), r.magnitude());
    }
    r
}

} // verus!
