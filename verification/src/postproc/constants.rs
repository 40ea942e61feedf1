//! The elastic constants of an isotropic material come back, up to rounding.
use crate::arithmetic::{difference, opposite, product, quotient, sum};
use crate::double::Double;
use crate::formula::Arithmetic;
use crate::postproc::compliance::{is_isotropic, lemma_compliance};
use crate::postproc::inverse::{eliminated, first_obstacle, pivot_row};
use crate::postproc::isotropic::{
    are_exact, is_ratio, lemma_product_error, lemma_quotient_error, lemma_size_product, scaled_to,
    slip, Exact,
};
use crate::postproc::moduli::{are_moduli, young, ElasticModuli};
use crate::postproc::nearness::{lemma_minus, lemma_over, lemma_plus, lemma_times, near};
use crate::postproc::pivots::lemma_natural;
use crate::postproc::reduction::{are_scales, lemma_scale};
use crate::preproc::materials::{lambda_of, mu_of};
use crate::rounding::{lemma_worth, size, worth};
use vstd::prelude::*;

verus! {

/// The exact coefficients of a material with Young's modulus one.
pub struct Coefficients {
    /// `(1 + n) * (1 - 2 * n)`.
    pub p: real,
    /// The first Lamé coefficient.
    pub l: real,
    /// The shear modulus.
    pub m: real,
    /// `l + 2 * m`.
    pub a: real,
}

/// Whether Poisson's ratio is between -1/2 and 9/20.
pub open spec fn is_moderate(n: real) -> bool {
    20real * n <= 9real && 2real * n >= 0real - 1real
}

pub open spec fn are_coefficients(k: Coefficients, n: real) -> bool {
    &&& k.p == (1real + n) * (1real - 2real * n)
    &&& k.l * k.p == n
    &&& k.m * (2real * (1real + n)) == 1real
    &&& k.a == k.l + 2real * k.m
    &&& k.a * k.p == 1real - n
    &&& k.p >= 145real / 1000real && k.p <= 1125real / 1000real
    &&& size(k.l) <= 311real / 100real
    &&& k.m >= 34real / 100real && k.m <= 1real
    &&& k.a >= 1real && k.a <= 385real / 100real
}

proof fn lemma_coefficients(n: real) -> (k: Coefficients)
    requires
        is_moderate(n),
    ensures
        are_coefficients(k, n),
{
    let u = 1real + n;
    let v = 1real - 2real * n;
    let p = u * v;
    assert(p == 1real - n - 2real * (n * n)) by (nonlinear_arith)
        requires
            p == u * v,
            u == 1real + n,
            v == 1real - 2real * n,
    ;
    assert(p >= 145real / 1000real && p <= 1125real / 1000real) by (nonlinear_arith)
        requires
            p == 1real - n - 2real * (n * n),
            20real * n <= 9real,
            2real * n >= 0real - 1real,
    ;
    let i = 1real / p;
    assert(i * p == 1real) by (nonlinear_arith)
        requires
            i == 1real / p,
            p > 0real,
    ;
    let h = 1real / u;
    assert(h * u == 1real) by (nonlinear_arith)
        requires
            h == 1real / u,
            u > 0real,
    ;
    let m = h / 2real;
    assert(m * (2real * u) == 1real) by (nonlinear_arith)
        requires
            2real * m == h,
            h * u == 1real,
    ;
    assert(m >= 34real / 100real && m <= 1real) by (nonlinear_arith)
        requires
            m * (2real * u) == 1real,
            2real * u >= 1real,
            20real * u <= 29real,
    ;
    let l = n * i;
    assert(l * p == n) by (nonlinear_arith)
        requires
            l == n * i,
            i * p == 1real,
    ;
    assert(0real - n <= p) by (nonlinear_arith)
        requires
            p == 1real - n - 2real * (n * n),
            20real * n <= 9real,
            2real * n >= 0real - 1real,
    ;
    assert(size(l) <= 311real / 100real) by {
        assert(l <= 311real / 100real) by (nonlinear_arith)
            requires
                l * p == n,
                100real * n <= 311real * p,
                p > 0real,
        ;
        assert(l >= 0real - 311real / 100real) by (nonlinear_arith)
            requires
                l * p == n,
                0real - 100real * n <= 311real * p,
                p > 0real,
        ;
    }
    let a = l + 2real * m;
    assert(a * p == 1real - n) by {
        assert(a * p == l * p + 2real * (m * p)) by (nonlinear_arith)
            requires
                a == l + 2real * m,
        ;
        assert(2real * (m * p) == (m * (2real * u)) * v) by (nonlinear_arith)
            requires
                p == u * v,
        ;
    }
    let q = 1real - n;
    assert(q >= p) by (nonlinear_arith)
        requires
            q == 1real - n,
            p == 1real - n - 2real * (n * n),
    ;
    assert(100real * q <= 385real * p) by (nonlinear_arith)
        requires
            q == 1real - n,
            p == 1real - n - 2real * (n * n),
            20real * n <= 9real,
            2real * n >= 0real - 1real,
    ;
    assert(a >= 1real) by (nonlinear_arith)
        requires
            a * p == q,
            q >= p,
            p > 0real,
    ;
    assert(a <= 385real / 100real) by (nonlinear_arith)
        requires
            a * p == q,
            100real * q <= 385real * p,
            p > 0real,
    ;
    Coefficients { p, l, m, a }
}

/// How near the first Lamé coefficient is, in the scale of Young's modulus.
proof fn lemma_lambda(e: Double, nu: Double, k: Coefficients, n: real, s: real, j: real)
    requires
        are_scales(s, j),
        near(e, j, 1real, 0real),
        near(nu, 1real, n, 0real),
        is_moderate(n),
        are_coefficients(k, n),
    ensures
        near(lambda_of(e, nu), j, k.l, 137real),
{
    let one = Double::natural(1);
    let two = Double::natural(2);
    lemma_natural(1);
    lemma_natural(2);
    let en = product(e, nu);
    lemma_times(e, j, 1real, 0real, nu, 1real, n, 0real, j, 1real, 1real / 2real, 1real);
    let op = sum(one, nu);
    lemma_plus(one, 1real, 0real, nu, n, 0real, 1real, 1real);
    let tn = product(two, nu);
    lemma_times(two, 1real, 2real, 0real, nu, 1real, n, 0real, 1real, 2real, 1real / 2real, 1real);
    let om = difference(one, tn);
    lemma_minus(one, 1real, 0real, tn, 2real * n, 1real, 1real, 2real);
    let (u, v) = (1real + n, 1real - 2real * n);
    let pq = product(op, om);
    lemma_times(
        op,
        1real,
        u,
        1real,
        om,
        1real,
        v,
        2real,
        1real,
        145real / 100real,
        201real / 100real,
        6real,
    );
    lemma_over(
        en,
        j,
        n,
        1real,
        pq,
        1real,
        k.p,
        6real,
        j,
        k.l,
        311real / 100real,
        1449real / 10000real,
        136real,
    );
}

/// How near the shear modulus is, and twice the shear modulus.
proof fn lemma_mu(e: Double, nu: Double, k: Coefficients, n: real, s: real, j: real)
    requires
        are_scales(s, j),
        near(e, j, 1real, 0real),
        near(nu, 1real, n, 0real),
        is_moderate(n),
        are_coefficients(k, n),
    ensures
        near(mu_of(e, nu), j, k.m, 5real),
        near(product(Double::natural(2), mu_of(e, nu)), j, 2real * k.m, 11real),
{
    let one = Double::natural(1);
    let two = Double::natural(2);
    lemma_natural(1);
    lemma_natural(2);
    let op = sum(one, nu);
    lemma_plus(one, 1real, 0real, nu, n, 0real, 1real, 1real);
    let u = 1real + n;
    let to = product(two, op);
    lemma_times(
        two,
        1real,
        2real,
        0real,
        op,
        1real,
        u,
        1real,
        1real,
        2real,
        146real / 100real,
        3real,
    );
    lemma_over(
        e,
        j,
        1real,
        0real,
        to,
        1real,
        2real * u,
        3real,
        j,
        k.m,
        1real,
        999real / 1000real,
        4real,
    );
    let mu = mu_of(e, nu);
    let tm = product(two, mu);
    lemma_times(two, 1real, 2real, 0real, mu, j, k.m, 5real, j, 2real, 101real / 100real, 11real);
}

/// A number that is a quotient of two that are known up to an error.
proof fn lemma_close(
    q: real,
    x: real,
    x0: real,
    ex: real,
    y: real,
    y0: real,
    ey: real,
    q0: real,
    bq: real,
    low: real,
    e: real,
)
    requires
        q * y == x,
        size(x - x0) <= ex,
        size(y - y0) <= ey,
        q0 * y0 == x0,
        size(q0) <= bq,
        low > 0real,
        y >= low,
        ex + bq * ey <= e * low,
    ensures
        size(q - q0) <= e,
{
    lemma_quotient_error(x, x0, ex, y, y0, ey, q0, bq, low, e);
    assert(x / y == q) by (nonlinear_arith)
        requires
            q * y == x,
            y >= low,
            low > 0real,
    ;
}

/// The ratio of the two entries is that of a moderate material.
proof fn lemma_ratio(x: real, at: real, lt: real, k: Coefficients, n: real)
    requires
        is_moderate(n),
        are_coefficients(k, n),
        size(at - k.a) <= 149real * slip(),
        size(lt - k.l) <= 137real * slip(),
        x * at == lt,
    ensures
        is_ratio(x),
{
    let (a, l, p) = (k.a, k.l, k.p);
    let g = 82real * a - 100real * l;
    let h = 100real * l + 34real * a;
    assert(g * p == 82real * (a * p) - 100real * (l * p)) by (nonlinear_arith)
        requires
            g == 82real * a - 100real * l,
    ;
    assert(h * p == 100real * (l * p) + 34real * (a * p)) by (nonlinear_arith)
        requires
            h == 100real * l + 34real * a,
    ;
    assert(g >= 8real / 100real) by (nonlinear_arith)
        requires
            g * p >= 1real / 10real,
            0real < p <= 1125real / 1000real,
    ;
    assert(h >= 8real / 100real) by (nonlinear_arith)
        requires
            h * p >= 1real / 10real,
            0real < p <= 1125real / 1000real,
    ;
    assert(50real * x <= 41real) by (nonlinear_arith)
        requires
            x * at == lt,
            100real * lt <= 82real * at,
            at > 0real,
    ;
    assert(50real * x >= 0real - 17real) by (nonlinear_arith)
        requires
            x * at == lt,
            100real * lt + 34real * at >= 0real,
            at > 0real,
    ;
}

/// The sum of the two entries.
proof fn lemma_total(k: Coefficients, n: real)
    requires
        is_moderate(n),
        are_coefficients(k, n),
    ensures
        (k.a + k.l) * k.p == 1real,
        k.a + k.l >= 881real / 1000real,
        n * (k.a + k.l) == k.l,
{
    let (a, l, p) = (k.a, k.l, k.p);
    let t = a + l;
    assert(t * p == a * p + l * p) by (nonlinear_arith)
        requires
            t == a + l,
    ;
    assert(t >= 881real / 1000real) by (nonlinear_arith)
        requires
            t * p == 1real,
            0real < p <= 1125real / 1000real,
    ;
    assert(n * t == l * (t * p)) by (nonlinear_arith)
        requires
            l * p == n,
    ;
    assert(l * 1real == l);
}

/// Poisson's ratio comes back from the ratio of the entries.
proof fn lemma_nu_back(y: real, x: real, at: real, lt: real, k: Coefficients, n: real)
    requires
        is_moderate(n),
        are_coefficients(k, n),
        size(at - k.a) <= 149real * slip(),
        size(lt - k.l) <= 137real * slip(),
        x * at == lt,
        x - x * y == y,
    ensures
        size(y - n) <= 320real * slip(),
{
    let v = slip();
    lemma_total(k, n);
    let t = at + lt;
    assert(y * t == lt) by {
        assert(y * t == y * at + (x * y) * at) by (nonlinear_arith)
            requires
                t == at + lt,
                x * at == lt,
        ;
        let z = x * y;
        assert(y * at + z * at == x * at) by (nonlinear_arith)
            requires
                x - z == y,
        ;
    }
    lemma_close(
        y,
        lt,
        k.l,
        137real * v,
        t,
        k.a + k.l,
        286real * v,
        n,
        1real / 2real,
        88real / 100real,
        320real * v,
    );
}

/// The exact product behind Young's modulus.
proof fn lemma_young_exact(k: Coefficients, n: real)
    requires
        is_moderate(n),
        are_coefficients(k, n),
    ensures
        (k.a - k.l) * (k.a + 2real * k.l) == k.a + k.l,
        k.a - k.l == 2real * k.m,
{
    let (a, l, p) = (k.a, k.l, k.p);
    let (d, s, t) = (a - l, a + 2real * l, a + l);
    lemma_total(k, n);
    assert(d * p == a * p - l * p) by (nonlinear_arith)
        requires
            d == a - l,
    ;
    assert(s * p == a * p + 2real * (l * p)) by (nonlinear_arith)
        requires
            s == a + 2real * l,
    ;
    let (u, v) = (1real + n, 1real - 2real * n);
    assert((d * p) * (s * p) == v * u);
    assert(v * u == u * v) by (nonlinear_arith);
    let z = d * s;
    assert((z * p) * p == (d * p) * (s * p)) by (nonlinear_arith)
        requires
            z == d * s,
    ;
    let zp = z * p;
    assert(zp == 1real) by (nonlinear_arith)
        requires
            zp * p == p,
            p > 0real,
    ;
    assert(z == t) by (nonlinear_arith)
        requires
            z * p == t * p,
            p > 0real,
    ;
}

/// Young's modulus comes back from the ratio of the entries.
proof fn lemma_young_back(w: real, x: real, at: real, lt: real, k: Coefficients, n: real)
    requires
        is_moderate(n),
        are_coefficients(k, n),
        size(at - k.a) <= 149real * slip(),
        size(lt - k.l) <= 137real * slip(),
        x * at == lt,
        w * (1real + x) == (1real - x) * (1real + 2real * x),
    ensures
        size(at * w - 1real) <= 4700real * slip(),
{
    let v = slip();
    lemma_total(k, n);
    lemma_young_exact(k, n);
    let (d, s, t) = (at - lt, at + 2real * lt, at + lt);
    let (c0, c1, c2) = (1real + x, 1real - x, 1real + 2real * x);
    assert(t == at * c0) by (nonlinear_arith)
        requires
            t == at + lt,
            x * at == lt,
            c0 == 1real + x,
    ;
    assert(d == at * c1) by (nonlinear_arith)
        requires
            d == at - lt,
            x * at == lt,
            c1 == 1real - x,
    ;
    assert(s == at * c2) by (nonlinear_arith)
        requires
            s == at + 2real * lt,
            x * at == lt,
            c2 == 1real + 2real * x,
    ;
    assert((at * w) * (at * c0) == (at * at) * (w * c0)) by (nonlinear_arith);
    assert((at * c1) * (at * c2) == (at * at) * (c1 * c2)) by (nonlinear_arith);
    assert((at * w) * t == d * s);
    let (d0, s0, t0) = (k.a - k.l, k.a + 2real * k.l, k.a + k.l);
    lemma_product_error(
        d,
        d0,
        286real * v,
        s,
        s0,
        423real * v,
        2real,
        102real / 10real,
    );
    lemma_close(
        at * w,
        d * s,
        t0,
        3800real * v,
        t,
        t0,
        286real * v,
        1real,
        1real,
        88real / 100real,
        4700real * v,
    );
}

/// The opposite of a number is as near.
proof fn lemma_opposite_near(d: Double, l: real, x: real, e: real)
    requires
        near(d, l, x, e),
    ensures
        near(opposite(d), l, 0real - x, e),
{
    lemma_worth(d);
    lemma_worth(opposite(d));
    let w = worth(d);
    assert(worth(opposite(d)) == 0real - w);
    assert(l * (0real - w) == 0real - l * w) by (nonlinear_arith);
}

/// The reported constants, from the first two entries of the compliance.
proof fn lemma_reported(s00: Double, s01: Double, e: Exact, x: real, l: real, i: real)
    requires
        is_ratio(x),
        are_exact(e, x),
        are_scales(l, i),
        near(s00, l, e.s, 212real),
        near(s01, l, e.p, 212real),
    ensures
        ({
            let one = Double::natural(1);
            let young = quotient(one, s00);
            &&& near(young, i, e.w, 871real)
            &&& near(product(opposite(s01), young), 1real, e.y, 2000real)
        }),
{
    let one = Double::natural(1);
    lemma_natural(1);
    let (w, t) = (e.w, e.s);
    assert(t >= 1real / 2real) by (nonlinear_arith)
        requires
            w * t == 1real,
            26real / 100real <= w <= 2real,
    ;
    lemma_over(
        one,
        1real,
        1real,
        0real,
        s00,
        l,
        e.s,
        212real,
        i,
        e.w,
        2real,
        49real / 100real,
        870real,
    );
    let young = quotient(one, s00);
    lemma_opposite_near(s01, l, e.p, 212real);
    let p = e.p;
    let q = 0real - p;
    lemma_times(
        opposite(s01),
        l,
        q,
        212real,
        young,
        i,
        e.w,
        871real,
        1real,
        18real / 10real,
        201real / 100real,
        2000real,
    );
    assert(q * w == 0real - p * w) by (nonlinear_arith)
        requires
            q == 0real - p,
    ;
}

/// From the scale of the matrix to that of Young's modulus.
proof fn lemma_rescaled(d: Double, e: real, j: real, a: real, i: real, w: real)
    requires
        j * e == 1real,
        e >= 1real,
        i * a == 1real,
        size(scaled_to(d, i) - w) <= 871real * slip(),
        0real <= j * a <= 386real / 100real,
        size((j * a) * w - 1real) <= 4700real * slip(),
    ensures
        size(worth(d) - e) * 1_000_000_000real <= e,
{
    let v = slip();
    let u = worth(d);
    let at = j * a;
    let z = i * u;
    assert(at * z == (j * u) * (i * a)) by (nonlinear_arith)
        requires
            at == j * a,
            z == i * u,
    ;
    assert((j * u) * 1real == j * u);
    lemma_size_product(at, z - w, 386real / 100real, 871real * v);
    assert(at * (z - w) == at * z - at * w) by (nonlinear_arith);
    let y = j * u - 1real;
    assert(size(y) <= 8100real * v);
    assert(e * y == u - e) by {
        assert(e * y == (j * e) * u - e) by (nonlinear_arith)
            requires
                y == j * u - 1real,
        ;
        assert(1real * u == u);
    }
    let n = 1real / 1_000_000_000real;
    lemma_size_product(e, y, e, n);
    assert(e * n * 1_000_000_000real == e) by (nonlinear_arith)
        requires
            n == 1real / 1_000_000_000real,
    ;
}

/// The Lamé coefficients, the entry on the diagonal and the Zener ratio.
proof fn lemma_entries_near(e: Double, nu: Double, k: Coefficients, n: real, s: real, j: real)
    requires
        are_scales(s, j),
        near(e, j, 1real, 0real),
        near(nu, 1real, n, 0real),
        is_moderate(n),
        are_coefficients(k, n),
    ensures
        near(lambda_of(e, nu), j, k.l, 137real),
        near(mu_of(e, nu), j, k.m, 5real),
        near(diagonal_of(e, nu), j, k.a, 149real),
        near(
            quotient(
                product(Double::natural(2), mu_of(e, nu)),
                difference(diagonal_of(e, nu), lambda_of(e, nu)),
            ),
            1real,
            1real,
            451real,
        ),
{
    let two = Double::natural(2);
    let lambda = lambda_of(e, nu);
    let tm = product(two, mu_of(e, nu));
    lemma_lambda(e, nu, k, n, s, j);
    lemma_mu(e, nu, k, n, s, j);
    let m2 = 2real * k.m;
    lemma_plus(lambda, k.l, 137real, tm, m2, 11real, j, 149real);
    let a = diagonal_of(e, nu);
    lemma_young_exact(k, n);
    lemma_minus(a, k.a, 149real, lambda, k.l, 137real, j, 287real);
    let d = difference(a, lambda);
    assert(1real * m2 == m2);
    lemma_over(
        tm,
        j,
        m2,
        11real,
        d,
        j,
        m2,
        287real,
        1real,
        1real,
        1real,
        67real / 100real,
        450real,
    );
}

/// The entry on the diagonal of the stiffness: `lambda + 2 mu`.
pub open spec fn diagonal_of(e: Double, nu: Double) -> Double {
    sum(lambda_of(e, nu), product(Double::natural(2), mu_of(e, nu)))
}

/// Constants that were entered for an isotropic material come back from its stiffness, rounding
/// included: with Young's modulus between one and a million, and Poisson's ratio between -1/2 and
/// 9/20, the elimination finds the compliance, both are reported to nine digits, the shear modulus
/// as it is, and the Zener ratio is one to nine digits.
pub proof fn constants_come_back(e: Double, nu: Double, c: Seq<Seq<Double>>, r: ElasticModuli)
    requires
        e.is_finite(),
        nu.is_finite(),
        1real <= worth(e) <= 1_000_000real,
        is_moderate(worth(nu)),
        is_isotropic(c, diagonal_of(e, nu), lambda_of(e, nu), mu_of(e, nu)),
    ensures
        first_obstacle(c, 6) is None,
        are_moduli(r, c) ==> {
            &&& r.e.is_finite()
            &&& size(worth(r.e) - worth(e)) * 1_000_000_000real <= worth(e)
            &&& r.nu.is_finite()
            &&& size(worth(r.nu) - worth(nu)) * 1_000_000_000real <= 1real
            &&& r.g == mu_of(e, nu)
            &&& r.zener.is_finite()
            &&& size(worth(r.zener) - 1real) * 1_000_000_000real <= 1real
        },
{
    let s = worth(e);
    let n = worth(nu);
    let j = lemma_scale(s);
    let k = lemma_coefficients(n);
    lemma_entries_near(e, nu, k, n, s, j);
    let lambda = lambda_of(e, nu);
    let mu = mu_of(e, nu);
    let a = diagonal_of(e, nu);
    let (wa, wl, wm) = (worth(a), worth(lambda), worth(mu));
    let at = j * wa;
    let lt = j * wl;
    assert(wa == s * at) by (nonlinear_arith)
        requires
            at == j * wa,
            s * j == 1real,
    ;
    assert(99real / 100real <= wa <= 0x100_0000real) by (nonlinear_arith)
        requires
            wa == s * at,
            1real <= s <= 1_000_000real,
            99real / 100real <= at <= 4real,
    ;
    let mt = j * wm;
    assert(wm == s * mt) by (nonlinear_arith)
        requires
            mt == j * wm,
            s * j == 1real,
    ;
    assert(1real / 8real <= wm <= 0x100_0000real) by (nonlinear_arith)
        requires
            wm == s * mt,
            1real <= s <= 1_000_000real,
            1real <= 3real * mt <= 4real,
    ;
    let i = lemma_scale(wa);
    let x = i * wl;
    assert(x * at == (j * wl) * (i * wa)) by (nonlinear_arith)
        requires
            x == i * wl,
            at == j * wa,
    ;
    assert((j * wl) * 1real == j * wl);
    lemma_ratio(x, at, lt, k, n);
    let ex = lemma_compliance(c, a, lambda, mu, x, wa, i);
    let v = eliminated(c, pivot_row(), 6).1;
    assert(near(v[0][0], wa, ex.s, 212real) && near(v[0][1], wa, ex.p, 212real));
    lemma_reported(v[0][0], v[0][1], ex, x, wa, i);
    lemma_nu_back(ex.y, x, at, lt, k, n);
    lemma_young_back(ex.w, x, at, lt, k, n);
    lemma_rescaled(young(v), s, j, wa, i, ex.w);
    assert(c[0][0] == a);
    assert(c[0][1] == lambda);
    assert(c[3][3] == mu);
}

} // verus!
