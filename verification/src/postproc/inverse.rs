//! The inverse of a matrix of six rows, by Gauss-Jordan elimination.
use crate::double::Double;
use crate::formula::{
    lemma_over_times, lemma_sum_times, lemma_times_order, lemma_times_units, number, real_over,
    real_times, Arithmetic,
};
use vstd::prelude::*;

verus! {

/// A matrix of six rows and six columns.
pub type Matrix = [[Double; 6]; 6];

/// The rows of a matrix.
pub open spec fn rows(m: Matrix) -> Seq<Seq<Double>> {
    m@.map_values(|r: [Double; 6]| r@)
}

/// The matrix with ones on its diagonal and zeros elsewhere.
pub open spec fn identity<V: Arithmetic>() -> Seq<Seq<V>> {
    Seq::new(
        6,
        |r: int|
            Seq::new(
                6,
                |j: int|
                    if r == j {
                        V::natural(1)
                    } else {
                        V::natural(0)
                    },
            ),
    )
}

/// `m` with two rows exchanged.
pub open spec fn swapped<V>(m: Seq<Seq<V>>, i: int, j: int) -> Seq<Seq<V>> {
    m.update(i, m[j]).update(j, m[i])
}

/// A row divided by a number.
pub open spec fn row_over<V: Arithmetic>(row: Seq<V>, by_what: V) -> Seq<V> {
    Seq::new(6, |j: int| row[j].divided(by_what))
}

/// A row less a multiple of another.
pub open spec fn row_less<V: Arithmetic>(row: Seq<V>, factor: V, other: Seq<V>) -> Seq<V> {
    Seq::new(6, |j: int| row[j].reduced(factor.multiplied(other[j])))
}

/// `m` with row `col` replaced by `pivot_row`, and multiples of that taken from the others.
pub open spec fn cleared<V: Arithmetic>(
    m: Seq<Seq<V>>,
    pivot_row: Seq<V>,
    factors: Seq<V>,
    col: int,
) -> Seq<Seq<V>> {
    Seq::new(
        6,
        |r: int|
            if r == col {
                pivot_row
            } else {
                row_less(m[r], factors[r], pivot_row)
            },
    )
}

/// One column of a matrix.
pub open spec fn column<V>(m: Seq<Seq<V>>, col: int) -> Seq<V> {
    Seq::new(6, |r: int| m[r][col])
}

/// One step of the elimination, on the matrix and on what becomes its inverse: row `pivot` comes
/// to place `col` and is divided by its entry there, and the other rows lose theirs.
pub open spec fn step<V: Arithmetic>(
    state: (Seq<Seq<V>>, Seq<Seq<V>>),
    col: int,
    pivot: int,
) -> (Seq<Seq<V>>, Seq<Seq<V>>) {
    let a = swapped(state.0, col, pivot);
    let inv = swapped(state.1, col, pivot);
    let entry = a[col][col];
    let factors = column(a, col);
    (
        cleared(a, row_over(a[col], entry), factors, col),
        cleared(inv, row_over(inv[col], entry), factors, col),
    )
}

/// The matrix and what becomes its inverse, after `k` columns.
pub open spec fn eliminated<V: Arithmetic>(
    m: Seq<Seq<V>>,
    pivot: spec_fn(Seq<Seq<V>>, int) -> int,
    k: nat,
) -> (Seq<Seq<V>>, Seq<Seq<V>>)
    decreases k,
{
    if k == 0 {
        (m, identity())
    } else {
        let before = eliminated(m, pivot, (k - 1) as nat);
        step(before, k - 1, pivot(before.0, k - 1))
    }
}

/// The row in `col..k` with the largest entry in column `col`; of several the last.
pub open spec fn largest_entry(a: Seq<Seq<Double>>, col: int, k: int) -> int
    decreases k - col,
{
    if k <= col + 1 {
        col
    } else {
        let best = largest_entry(a, col, k - 1);
        if a[best][col].units() > a[k - 1][col].units() {
            best
        } else {
            k - 1
        }
    }
}

/// The row that the elimination takes for column `col`.
pub open spec fn pivot_row() -> spec_fn(Seq<Seq<Double>>, int) -> int {
    |a: Seq<Seq<Double>>, col: int| largest_entry(a, col, 6)
}

/// The size below which an entry counts as nothing: 1e-14.
pub open spec fn smallest_pivot() -> Double {
    Double { bits: 0x3d06_849b_86a1_2b9b }
}

/// Why a matrix has no inverse.
#[derive(Clone, Copy, PartialEq, Eq, Structural, Debug)]
pub enum InverseError {
    Singular { column: usize },
    /// The entries of a column cannot be compared, since one of them is not a number.
    NotANumber { column: usize },
}

/// Whether one of several rows that can be chosen has no number in column `col`.
pub open spec fn incomparable(a: Seq<Seq<Double>>, col: int) -> bool {
    col < 5 && exists|r: int| col <= r < 6 && (#[trigger] a[r])[col].is_nan()
}

/// `v` without its sign.
pub open spec fn magnitude_of(v: Double) -> Double {
    Double { bits: v.magnitude() as u64 }
}

/// What stops the elimination of column `col`.
pub open spec fn obstacle(a: Seq<Seq<Double>>, col: int) -> Option<InverseError> {
    if incomparable(a, col) {
        Some(InverseError::NotANumber { column: col as usize })
    } else if magnitude_of(a[pivot_row()(a, col)][col]).is_below(smallest_pivot()) {
        Some(InverseError::Singular { column: col as usize })
    } else {
        None
    }
}

/// What first stops the elimination of `k` columns.
pub open spec fn first_obstacle(m: Seq<Seq<Double>>, k: nat) -> Option<InverseError>
    decreases k,
{
    if k == 0 {
        None
    } else {
        match first_obstacle(m, (k - 1) as nat) {
            Some(error) => Some(error),
            None => obstacle(eliminated(m, pivot_row(), (k - 1) as nat).0, k - 1),
        }
    }
}

proof fn lemma_first_obstacle(m: Seq<Seq<Double>>, k: nat, n: nat)
    requires
        k <= n,
        first_obstacle(m, k) is Some,
    ensures
        first_obstacle(m, n) == first_obstacle(m, k),
    decreases n,
{
    if k < n {
        lemma_first_obstacle(m, k, (n - 1) as nat);
    }
}

fn divide_row(row: &[Double; 6], entry: Double) -> (r: [Double; 6])
    ensures
        r@ == row_over(row@, entry),
{
    let mut r: [Double; 6] = *row;
    let mut j: usize = 0;
    while j < 6
        invariant
            j <= 6,
            forall|k: int| 0 <= k < j ==> r@[k] == row@[k].divided(entry),
        decreases 6 - j,
    {
        r[j] = row[j].divided_by(entry);
        j += 1;
    }
    assert(r@ =~= row_over(row@, entry));
    r
}

fn reduce_row(row: &[Double; 6], factor: Double, other: &[Double; 6]) -> (r: [Double; 6])
    ensures
        r@ == row_less(row@, factor, other@),
{
    let mut r: [Double; 6] = *row;
    let mut j: usize = 0;
    while j < 6
        invariant
            j <= 6,
            forall|k: int| 0 <= k < j ==> r@[k] == row@[k].reduced(factor.multiplied(other@[k])),
        decreases 6 - j,
    {
        r[j] = row[j].minus(factor.times(other[j]));
        j += 1;
    }
    assert(r@ =~= row_less(row@, factor, other@));
    r
}

fn swap_rows(m: &Matrix, i: usize, j: usize) -> (r: Matrix)
    requires
        i < 6,
        j < 6,
    ensures
        rows(r) == swapped(rows(*m), i as int, j as int),
{
    let mut r: Matrix = *m;
    r[i] = m[j];
    r[j] = m[i];
    assert(rows(r) =~= swapped(rows(*m), i as int, j as int));
    r
}

fn take_column(m: &Matrix, col: usize) -> (r: [Double; 6])
    requires
        col < 6,
    ensures
        r@ == column(rows(*m), col as int),
{
    let r: [Double; 6] = [m[0][col], m[1][col], m[2][col], m[3][col], m[4][col], m[5][col]];
    assert(r@ =~= column(rows(*m), col as int));
    r
}

fn clear(m: &Matrix, pivot_row: &[Double; 6], factors: &[Double; 6], col: usize) -> (r: Matrix)
    requires
        col < 6,
    ensures
        rows(r) == cleared(rows(*m), pivot_row@, factors@, col as int),
{
    let mut r: Matrix = *m;
    let mut i: usize = 0;
    while i < 6
        invariant
            i <= 6,
            col < 6,
            forall|k: int|
                0 <= k < i ==> (#[trigger] r@[k])@ == if k == col {
                    pivot_row@
                } else {
                    row_less(m@[k]@, factors@[k], pivot_row@)
                },
        decreases 6 - i,
    {
        if i == col {
            r[i] = *pivot_row;
        } else {
            r[i] = reduce_row(&m[i], factors[i], pivot_row);
        }
        i += 1;
    }
    assert(rows(r) =~= cleared(rows(*m), pivot_row@, factors@, col as int));
    r
}

/// The row to take for column `col`, or none where the entries cannot be compared.
fn choose_pivot(a: &Matrix, col: usize) -> (r: Option<usize>)
    requires
        col < 6,
    ensures
        r is None <==> incomparable(rows(*a), col as int),
        r matches Some(p) ==> p == pivot_row()(rows(*a), col as int) && col <= p < 6,
{
    let mut best: usize = col;
    let mut i: usize = col + 1;
    if i < 6 && a[col][col].nan() {
        assert(rows(*a)[col as int][col as int].is_nan());
        return None;
    }
    while i < 6
        invariant
            col < i <= 6,
            col <= best < i,
            best == largest_entry(rows(*a), col as int, i as int),
            forall|r: int| col <= r < i && i > col + 1 ==> !(#[trigger] a@[r])@[col as int].is_nan(),
            col < 5 ==> !a@[col as int]@[col as int].is_nan(),
        decreases 6 - i,
    {
        let v: Double = a[i][col];
        let w: Double = a[best][col];
        if v.nan() {
            assert(rows(*a)[i as int][col as int].is_nan());
            return None;
        }
        let larger: bool = v.absolute().below(w.absolute());
        proof {
            assert(larger == (v.units() < w.units())) by {
                assert(!w.is_nan());
            }
        }
        if !larger {
            best = i;
        }
        i += 1;
    }
    assert forall|r: int| col < 5 && col <= r < 6 implies !(#[trigger] rows(*a)[r])[col as int].is_nan() by {
        assert(rows(*a)[r] == a@[r]@);
    }
    Some(best)
}

/// The inverse of `m`, where the elimination finds one.
pub fn invert_6x6(m: &Matrix) -> (r: Result<Matrix, InverseError>)
    ensures
        match r {
            Ok(inv) => first_obstacle(rows(*m), 6) is None && rows(inv) == eliminated(
                rows(*m),
                pivot_row(),
                6,
            ).1,
            Err(e) => first_obstacle(rows(*m), 6) == Some(e),
        },
{
    let one: Double = number(1);
    let zero: Double = number(0);
    let mut a: Matrix = *m;
    let mut inv: Matrix = [
        [one, zero, zero, zero, zero, zero],
        [zero, one, zero, zero, zero, zero],
        [zero, zero, one, zero, zero, zero],
        [zero, zero, zero, one, zero, zero],
        [zero, zero, zero, zero, one, zero],
        [zero, zero, zero, zero, zero, one],
    ];
    proof {
        let id = identity::<Double>();
        assert forall|i: int| 0 <= i < 6 implies #[trigger] rows(inv)[i] == id[i] by {
            assert(rows(inv)[i] =~= id[i]);
        }
        assert(rows(inv) =~= id);
    }
    let mut col: usize = 0;
    while col < 6
        invariant
            col <= 6,
            first_obstacle(rows(*m), col as nat) is None,
            (rows(a), rows(inv)) == eliminated(rows(*m), pivot_row(), col as nat),
        decreases 6 - col,
    {
        let ghost before = (rows(a), rows(inv));
        let p: usize = match choose_pivot(&a, col) {
            Some(p) => p,
            None => {
                proof {
                    lemma_first_obstacle(rows(*m), (col + 1) as nat, 6);
                }
                return Err(InverseError::NotANumber { column: col });
            },
        };
        let chosen: Double = a[p][col].absolute();
        assert(chosen == magnitude_of(a@[p as int]@[col as int]));
        if chosen.below(Double { bits: 0x3d06_849b_86a1_2b9b }) {
            proof {
                lemma_first_obstacle(rows(*m), (col + 1) as nat, 6);
            }
            return Err(InverseError::Singular { column: col });
        }
        let sa: Matrix = swap_rows(&a, col, p);
        let si: Matrix = swap_rows(&inv, col, p);
        let entry: Double = sa[col][col];
        let factors: [Double; 6] = take_column(&sa, col);
        let ra: [Double; 6] = divide_row(&sa[col], entry);
        let ri: [Double; 6] = divide_row(&si[col], entry);
        a = clear(&sa, &ra, &factors, col);
        inv = clear(&si, &ri, &factors, col);
        col += 1;
    }
    Ok(inv)
}

/// The sum of the products of the entries of a row and of a column.
pub open spec fn dot(u: Seq<real>, v: Seq<real>) -> real {
    real_times(u[0], v[0]) + real_times(u[1], v[1]) + real_times(u[2], v[2]) + real_times(
        u[3],
        v[3],
    ) + real_times(u[4], v[4]) + real_times(u[5], v[5])
}

/// Whether a matrix has six rows of six entries.
pub open spec fn is_square<V>(m: Seq<Seq<V>>) -> bool {
    m.len() == 6 && forall|r: int| 0 <= r < 6 ==> (#[trigger] m[r]).len() == 6
}

/// Whether `a` is the product of `inv` and `m`.
pub open spec fn is_product(a: Seq<Seq<real>>, inv: Seq<Seq<real>>, m: Seq<Seq<real>>) -> bool {
    forall|r: int, j: int|
        0 <= r < 6 && 0 <= j < 6 ==> #[trigger] a[r][j] == dot(inv[r], column(m, j))
}

/// Whether the first `k` columns of `a` are those of the identity.
pub open spec fn is_reduced(a: Seq<Seq<real>>, k: int) -> bool {
    forall|r: int, c: int|
        0 <= r < 6 && 0 <= c < k ==> #[trigger] a[r][c] == if r == c {
            1real
        } else {
            0real
        }
}

pub proof fn lemma_dot_over(u: Seq<real>, v: Seq<real>, p: real)
    requires
        p != 0real,
    ensures
        dot(row_over(u, p), v) == real_over(dot(u, v), p),
{
    let q = real_over(1real, p);
    lemma_over_times(u[0], p);
    lemma_over_times(u[1], p);
    lemma_over_times(u[2], p);
    lemma_over_times(u[3], p);
    lemma_over_times(u[4], p);
    lemma_over_times(u[5], p);
    lemma_over_times(dot(u, v), p);
    lemma_times_order(u[0], v[0], q);
    lemma_times_order(u[1], v[1], q);
    lemma_times_order(u[2], v[2], q);
    lemma_times_order(u[3], v[3], q);
    lemma_times_order(u[4], v[4], q);
    lemma_times_order(u[5], v[5], q);
    let s1 = real_times(u[0], v[0]);
    let s2 = s1 + real_times(u[1], v[1]);
    let s3 = s2 + real_times(u[2], v[2]);
    let s4 = s3 + real_times(u[3], v[3]);
    let s5 = s4 + real_times(u[4], v[4]);
    lemma_sum_times(s1, real_times(u[1], v[1]), q);
    lemma_sum_times(s2, real_times(u[2], v[2]), q);
    lemma_sum_times(s3, real_times(u[3], v[3]), q);
    lemma_sum_times(s4, real_times(u[4], v[4]), q);
    lemma_sum_times(s5, real_times(u[5], v[5]), q);
}

proof fn lemma_product_less(x: real, f: real, y: real, v: real)
    ensures
        real_times(x - real_times(f, y), v) == real_times(x, v) - real_times(f, real_times(y, v)),
{
    lemma_sum_times(x, real_times(f, y), v);
    lemma_times_order(y, v, f);
}

pub proof fn lemma_dot_less(u: Seq<real>, f: real, w: Seq<real>, v: Seq<real>)
    ensures
        dot(row_less(u, f, w), v) == dot(u, v) - real_times(f, dot(w, v)),
{
    lemma_product_less(u[0], f, w[0], v[0]);
    lemma_product_less(u[1], f, w[1], v[1]);
    lemma_product_less(u[2], f, w[2], v[2]);
    lemma_product_less(u[3], f, w[3], v[3]);
    lemma_product_less(u[4], f, w[4], v[4]);
    lemma_product_less(u[5], f, w[5], v[5]);
    let s1 = real_times(w[0], v[0]);
    let s2 = s1 + real_times(w[1], v[1]);
    let s3 = s2 + real_times(w[2], v[2]);
    let s4 = s3 + real_times(w[3], v[3]);
    let s5 = s4 + real_times(w[4], v[4]);
    lemma_sum_times(s1, real_times(w[1], v[1]), f);
    lemma_sum_times(s2, real_times(w[2], v[2]), f);
    lemma_sum_times(s3, real_times(w[3], v[3]), f);
    lemma_sum_times(s4, real_times(w[4], v[4]), f);
    lemma_sum_times(s5, real_times(w[5], v[5]), f);
}

/// One step keeps the product, and reduces one more column.
proof fn lemma_step(a: Seq<Seq<real>>, inv: Seq<Seq<real>>, m: Seq<Seq<real>>, col: int, p: int)
    requires
        is_square(a),
        is_square(inv),
        is_square(m),
        is_product(a, inv, m),
        is_reduced(a, col),
        0 <= col <= p < 6,
        a[p][col] != 0real,
    ensures
        ({
            let next = step((a, inv), col, p);
            &&& is_square(next.0)
            &&& is_square(next.1)
            &&& is_product(next.0, next.1, m)
            &&& is_reduced(next.0, col + 1)
        }),
{
    let sa = swapped(a, col, p);
    let si = swapped(inv, col, p);
    let entry = sa[col][col];
    let factors = column(sa, col);
    let ra = row_over(sa[col], entry);
    let ri = row_over(si[col], entry);
    let next = step((a, inv), col, p);
    assert(sa[col] == a[p]);
    assert(si[col] == inv[p]);
    assert forall|r: int, j: int| 0 <= r < 6 && 0 <= j < 6 implies #[trigger] sa[r][j] == dot(
        si[r],
        column(m, j),
    ) by {
        assert(a[r][j] == dot(inv[r], column(m, j)));
        assert(a[p][j] == dot(inv[p], column(m, j)));
        assert(a[col][j] == dot(inv[col], column(m, j)));
    }
    assert forall|j: int| 0 <= j < 6 implies #[trigger] ra[j] == dot(ri, column(m, j)) by {
        assert(sa[col][j] == dot(si[col], column(m, j)));
        lemma_dot_over(si[col], column(m, j), entry);
    }
    assert forall|r: int, j: int| 0 <= r < 6 && 0 <= j < 6 implies #[trigger] next.0[r][j] == dot(
        next.1[r],
        column(m, j),
    ) by {
        assert(ra[j] == dot(ri, column(m, j)));
        if r != col {
            assert(sa[r][j] == dot(si[r], column(m, j)));
            lemma_dot_less(si[r], factors[r], ri, column(m, j));
        }
    }
    assert forall|r: int, c: int| 0 <= r < 6 && 0 <= c < col + 1 implies #[trigger] next.0[r][c]
        == if r == c {
        1real
    } else {
        0real
    } by {
        if c == col {
            lemma_over_times(entry, entry);
            lemma_times_units(factors[r]);
        } else {
            assert(a[p][c] == 0real);
            assert(a[col][c] == 0real);
            assert(a[r][c] == if r == c {
                1real
            } else {
                0real
            });
            lemma_over_times(0real, entry);
            lemma_times_units(factors[r]);
        }
    }
}

proof fn lemma_eliminated(
    m: Seq<Seq<real>>,
    pivot: spec_fn(Seq<Seq<real>>, int) -> int,
    k: nat,
)
    requires
        k <= 6,
        is_square(m),
        forall|c: int|
            #![trigger eliminated(m, pivot, c as nat)]
            0 <= c < 6 ==> {
                let a = eliminated(m, pivot, c as nat).0;
                c <= pivot(a, c) < 6 && a[pivot(a, c)][c] != 0real
            },
    ensures
        ({
            let state = eliminated(m, pivot, k);
            &&& is_square(state.0)
            &&& is_square(state.1)
            &&& is_product(state.0, state.1, m)
            &&& is_reduced(state.0, k as int)
        }),
    decreases k,
{
    if k == 0 {
        let id = identity::<real>();
        assert forall|r: int, j: int| 0 <= r < 6 && 0 <= j < 6 implies #[trigger] m[r][j] == dot(
            id[r],
            column(m, j),
        ) by {
            let v = column(m, j);
            lemma_times_units(v[0]);
            lemma_times_units(v[1]);
            lemma_times_units(v[2]);
            lemma_times_units(v[3]);
            lemma_times_units(v[4]);
            lemma_times_units(v[5]);
        }
    } else {
        let c = k - 1;
        lemma_eliminated(m, pivot, c as nat);
        let before = eliminated(m, pivot, c as nat);
        lemma_step(before.0, before.1, m, c, pivot(before.0, c));
    }
}

/// In exact arithmetic the elimination finds the inverse: whichever rows are taken, as long as
/// their entries are not zero, the result times the matrix is the identity.
pub proof fn elimination_inverts(
    m: Seq<Seq<real>>,
    pivot: spec_fn(Seq<Seq<real>>, int) -> int,
    r: int,
    j: int,
)
    requires
        is_square(m),
        forall|c: int|
            #![trigger eliminated(m, pivot, c as nat)]
            0 <= c < 6 ==> {
                let a = eliminated(m, pivot, c as nat).0;
                c <= pivot(a, c) < 6 && a[pivot(a, c)][c] != 0real
            },
        0 <= r < 6,
        0 <= j < 6,
    ensures
        dot(eliminated(m, pivot, 6).1[r], column(m, j)) == if r == j {
            1real
        } else {
            0real
        },
{
    lemma_eliminated(m, pivot, 6);
    let state = eliminated(m, pivot, 6);
    assert(state.0[r][j] == dot(state.1[r], column(m, j)));
}

} // verus!
