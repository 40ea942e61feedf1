//! The computed inverse of the stiffness of an isotropic material, times the stiffness.
use crate::arithmetic::quotient;
use crate::double::Double;
use crate::formula::{lemma_times_units, real_times, Arithmetic};
use crate::postproc::compliance::{is_isotropic, is_near, lemma_compliance};
use crate::postproc::inverse::{column, dot, eliminated, first_obstacle, pivot_row};
use crate::postproc::isotropic::{are_exact, is_ratio, lemma_product_error, scaled_to, slip, Exact};
use crate::postproc::nearness::near;
use crate::postproc::reduction::{are_scales, lemma_scale};
use crate::rounding::{is_zero, size, worth, zero_stays};
use vstd::prelude::*;

verus! {

/// The real numbers that the entries of a matrix stand for.
pub open spec fn worths(m: Seq<Seq<Double>>) -> Seq<Seq<real>> {
    Seq::new(6, |r: int| Seq::new(6, |j: int| worth(m[r][j])))
}

/// The exact compliance times the exact stiffness.
proof fn lemma_exact_product(e: Exact, x: real)
    requires
        is_ratio(x),
        are_exact(e, x),
    ensures
        e.s + e.p * x + e.p * x == 1real,
        e.s * x + e.p + e.p * x == 0real,
{
    let (s, p) = (e.s, e.p);
    let (c1, c2) = (1real - x, 1real + 2real * x);
    let m = c1 * c2;
    assert(m == 1real + x - 2real * (x * x)) by (nonlinear_arith)
        requires
            m == c1 * c2,
            c1 == 1real - x,
            c2 == 1real + 2real * x,
    ;
    assert(m >= 4real / 10real) by (nonlinear_arith)
        requires
            m == 1real + x - 2real * (x * x),
            50real * x <= 41real,
            50real * x >= 0real - 17real,
    ;
    let (px, sx) = (p * x, s * x);
    assert(px * m == x * (p * m)) by (nonlinear_arith)
        requires
            px == p * x,
    ;
    assert(sx * m == x * (s * m)) by (nonlinear_arith)
        requires
            sx == s * x,
    ;
    assert(x * (0real - x) == 0real - x * x) by (nonlinear_arith);
    assert(x * (1real + x) == x + x * x) by (nonlinear_arith);
    let z = s + px + px;
    assert(z * m == s * m + px * m + px * m) by (nonlinear_arith)
        requires
            z == s + px + px,
    ;
    assert(z == 1real) by (nonlinear_arith)
        requires
            z * m == m,
            m > 0real,
    ;
    let y = sx + p + px;
    assert(y * m == sx * m + p * m + px * m) by (nonlinear_arith)
        requires
            y == sx + p + px,
    ;
    assert(y == 0real) by (nonlinear_arith)
        requires
            y * m == 0real,
            m > 0real,
    ;
}

/// One product of an entry of the inverse and one of the matrix.
proof fn lemma_term(u: Double, m: Double, l: real, i: real, t: real, y: real)
    requires
        are_scales(l, i),
        near(u, l, t, 212real),
        scaled_to(m, i) == y,
        size(t) <= 4real,
        size(y) <= 1real,
    ensures
        size(real_times(worth(u), worth(m)) - t * y) <= 212real * slip(),
{
    reveal(real_times);
    let (a, b) = (worth(u), worth(m));
    let z = l * a;
    assert(z * y == (a * b) * (l * i)) by (nonlinear_arith)
        requires
            z == l * a,
            y == i * b,
    ;
    assert((a * b) * 1real == a * b);
    let v = slip();
    lemma_product_error(z, t, 212real * v, y, y, 0real, 4real, 1real);
}

/// A product with a zero.
proof fn lemma_no_term(u: Double, m: Double)
    requires
        is_zero(u) || is_zero(m),
    ensures
        real_times(worth(u), worth(m)) == 0real,
{
    if is_zero(u) {
        zero_stays(u, u);
    } else {
        zero_stays(m, m);
    }
    lemma_times_units(worth(u));
    lemma_times_units(worth(m));
}

/// The first three rows and columns of the product.
proof fn lemma_first_rows(
    c: Seq<Seq<Double>>,
    v: Seq<Seq<Double>>,
    a: Double,
    b: Double,
    g: Double,
    e: Exact,
    x: real,
    l: real,
    i: real,
    r: int,
    j: int,
)
    requires
        is_isotropic(c, a, b, g),
        is_ratio(x),
        are_exact(e, x),
        are_scales(l, i),
        scaled_to(a, i) == 1real,
        scaled_to(b, i) == x,
        is_near(v, e, l),
        forall|k: int| 3 <= k < 6 ==> is_zero(#[trigger] v[r][k]),
        0 <= r < 3,
        0 <= j < 3,
    ensures
        size(
            dot(worths(v)[r], column(worths(c), j)) - if r == j {
                1real
            } else {
                0real
            },
        ) <= 636real * slip(),
{
    let entry = |n: int, k: int, p: real, q: real|
        if n == k {
            p
        } else {
            q
        };
    lemma_no_term(v[r][3], c[3][j]);
    lemma_no_term(v[r][4], c[4][j]);
    lemma_no_term(v[r][5], c[5][j]);
    assert(near(v[r][0], l, entry(r, 0, e.s, e.p), 212real));
    assert(near(v[r][1], l, entry(r, 1, e.s, e.p), 212real));
    assert(near(v[r][2], l, entry(r, 2, e.s, e.p), 212real));
    assert(c[0][j] == if j == 0 {
        a
    } else {
        b
    });
    assert(c[1][j] == if j == 1 {
        a
    } else {
        b
    });
    assert(c[2][j] == if j == 2 {
        a
    } else {
        b
    });
    lemma_term(v[r][0], c[0][j], l, i, entry(r, 0, e.s, e.p), entry(0, j, 1real, x));
    lemma_term(v[r][1], c[1][j], l, i, entry(r, 1, e.s, e.p), entry(1, j, 1real, x));
    lemma_term(v[r][2], c[2][j], l, i, entry(r, 2, e.s, e.p), entry(2, j, 1real, x));
    lemma_exact_product(e, x);
    assert(e.s * 1real == e.s && e.p * 1real == e.p);
    assert(r == 0 || r == 1 || r == 2);
    assert(j == 0 || j == 1 || j == 2);
}

/// The last three rows and columns of the product, and what is beside them.
proof fn lemma_last_rows(
    c: Seq<Seq<Double>>,
    v: Seq<Seq<Double>>,
    a: Double,
    b: Double,
    g: Double,
    r: int,
    j: int,
)
    requires
        is_isotropic(c, a, b, g),
        forall|n: int, k: int|
            0 <= n < 6 && 0 <= k < 6 && (n >= 3 || k >= 3) && n != k ==> is_zero(
                #[trigger] v[n][k],
            ),
        forall|n: int|
            3 <= n < 6 ==> worth((#[trigger] v[n])[n]) == worth(quotient(Double::natural(1), g)),
        near(quotient(Double::natural(1), g), worth(g), 1real, 1real),
        0 <= r < 6,
        0 <= j < 6,
        r >= 3 || j >= 3,
    ensures
        size(
            dot(worths(v)[r], column(worths(c), j)) - if r == j {
                1real
            } else {
                0real
            },
        ) <= slip(),
{
    assert forall|k: int| 0 <= k < 6 && !(k == r && r == j) implies real_times(
        worth(#[trigger] v[r][k]),
        worth(c[k][j]),
    ) == 0real by {
        if r >= 3 && k != r || r < 3 && k >= 3 {
            assert(is_zero(v[r][k]));
        } else {
            assert(is_zero(c[k][j]));
        }
        lemma_no_term(v[r][k], c[k][j]);
    }
    assert(0 <= r < 6 && (r == 0 || r == 1 || r == 2 || r == 3 || r == 4 || r == 5));
    let terms = |k: int| real_times(worth(v[r][k]), worth(c[k][j]));
    assert(dot(worths(v)[r], column(worths(c), j)) == terms(0) + terms(1) + terms(2) + terms(3)
        + terms(4) + terms(5));
    if r == j {
        assert(c[r][r] == g);
        assert(v[r][r] == v[r][j]);
        reveal(real_times);
        let (p, q) = (worth(v[r][r]), worth(g));
        assert(p * q == q * p) by (nonlinear_arith);
    }
}

/// The computed inverse of the stiffness of an isotropic material is its inverse up to rounding:
/// times the stiffness it is the identity to nine digits. The diagonal entry is between 1/2 and
/// 2^24, its ratio to the entry beside it is that of a Poisson's ratio between -1/2 and 9/20, and
/// the shear entry is between 1/8 and 2^24.
pub proof fn isotropic_stiffness_is_inverted(
    c: Seq<Seq<Double>>,
    a: Double,
    b: Double,
    g: Double,
    r: int,
    j: int,
)
    requires
        is_isotropic(c, a, b, g),
        a.is_finite(),
        b.is_finite(),
        g.is_finite(),
        1real / 2real <= worth(a) <= 0x100_0000real,
        50real * worth(b) <= 41real * worth(a),
        50real * worth(b) >= 0real - 17real * worth(a),
        1real / 8real <= worth(g) <= 0x100_0000real,
        0 <= r < 6,
        0 <= j < 6,
    ensures
        first_obstacle(c, 6) is None,
        size(
            dot(worths(eliminated(c, pivot_row(), 6).1)[r], column(worths(c), j)) - if r == j {
                1real
            } else {
                0real
            },
        ) * 1_000_000_000real <= 1real,
{
    let l = worth(a);
    let i = lemma_scale(l);
    let w = worth(b);
    let x = i * w;
    assert(x * l == w) by (nonlinear_arith)
        requires
            x == i * w,
            l * i == 1real,
    ;
    assert(50real * x <= 41real) by (nonlinear_arith)
        requires
            x * l == w,
            50real * w <= 41real * l,
            l > 0real,
    ;
    assert(50real * x >= 0real - 17real) by (nonlinear_arith)
        requires
            x * l == w,
            50real * w >= 0real - 17real * l,
            l > 0real,
    ;
    let e = lemma_compliance(c, a, b, g, x, l, i);
    let v = eliminated(c, pivot_row(), 6).1;
    if r < 3 && j < 3 {
        assert forall|k: int| 3 <= k < 6 implies is_zero(#[trigger] v[r][k]) by {}
        lemma_first_rows(c, v, a, b, g, e, x, l, i, r, j);
    } else {
        lemma_last_rows(c, v, a, b, g, r, j);
    }
}

} // verus!
