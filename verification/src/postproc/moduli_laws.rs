//! What the elastic constants have to do with the result files.
use crate::arithmetic::{difference, integer, opposite, product, quotient};
use crate::double::Double;
use crate::formula::Arithmetic;
use crate::postproc::inverse::{
    column, dot, eliminated, first_obstacle, incomparable, invert_6x6, largest_entry, magnitude_of,
    obstacle, pivot_row, rows, smallest_pivot, InverseError, Matrix,
};
use crate::postproc::isotropic::is_scale;
use crate::postproc::isotropic_inverse::worths;
use crate::postproc::moduli::{
    all_stresses, compute_moduli, parse_std_file, row_views, std_rows, stresses, transposed,
    ElasticModuli, Flaw, ModuliError, StdFile,
};
use crate::postproc::vtkio::numbers;
use crate::postproc::well_conditioned::{is_conditioned, well_conditioned_matrix_is_inverted};
use crate::rounding::size;
use crate::text::{decimal, is_blank, is_white, lines, words};
use crate::writing::{read_as, reader, reads};
use vstd::prelude::*;

verus! {

/// The numbers that some words write, word by word.
proof fn lemma_numbers(
    list: Seq<Seq<char>>,
    k: nat,
    parse: spec_fn(Seq<char>) -> Result<Double, Seq<char>>,
)
    requires
        numbers(list, k, parse) is Ok,
    ensures
        numbers(list, k, parse)->Ok_0.len() == k,
        forall|i: int|
            0 <= i < k ==> parse(#[trigger] list[i]) == Ok::<Double, Seq<char>>(
                numbers(list, k, parse)->Ok_0[i],
            ),
    decreases k,
{
    if k > 0 {
        lemma_numbers(list, (k - 1) as nat, parse);
    }
}

/// The last row of a result file is its last line that is not blank, behind the header.
proof fn lemma_last_row(
    all: Seq<Seq<char>>,
    k: nat,
    parse: spec_fn(Seq<char>) -> Result<Double, Seq<char>>,
) -> (t: int)
    requires
        k <= all.len(),
        std_rows(all, k, parse) is Ok,
        std_rows(all, k, parse)->Ok_0.len() > 0,
    ensures
        6 <= t < k,
        !is_blank(all[t]),
        forall|u: int| t < u < k ==> is_blank(#[trigger] all[u]),
        numbers(words(all[t]), words(all[t]).len(), parse) == Ok::<Seq<Double>, Seq<char>>(
            std_rows(all, k, parse)->Ok_0.last(),
        ),
    decreases k,
{
    if is_blank(all[k - 1]) {
        lemma_last_row(all, (k - 1) as nat, parse)
    } else {
        k - 1
    }
}

proof fn lemma_stresses_of(
    files: Seq<StdFile>,
    k: nat,
    j: int,
    parse: spec_fn(Seq<char>) -> Result<Double, Seq<char>>,
)
    requires
        0 <= j < k,
        all_stresses(files, k, parse) is Ok,
    ensures
        all_stresses(files, k, parse)->Ok_0.len() == k,
        stresses(files, j, parse) == Ok::<Seq<Double>, Flaw>(
            all_stresses(files, k, parse)->Ok_0[j],
        ),
    decreases k,
{
    assert(all_stresses(files, 0, parse) is Ok);
    if k > 1 && j < k - 1 {
        lemma_stresses_of(files, (k - 1) as nat, j, parse);
    } else if k > 1 {
        lemma_stresses_of(files, (k - 1) as nat, 0, parse);
    }
}

/// Column `j` of the stiffness is what load case `j` answers: its entry in row `i` is the number
/// behind the time and `i` more numbers, in the last line of the case's file that is not blank.
pub proof fn stiffness_columns_are_the_cases<P: Fn(&str) -> Result<Double, String>>(
    files: Vec<StdFile>,
    parse: P,
    r: Result<ElasticModuli, ModuliError>,
    i: int,
    j: int,
)
    requires
        reads(parse),
        files@.len() == 6,
        call_ensures(compute_moduli::<P>, (&files, &parse), r),
        r is Ok,
        0 <= i < 6,
        0 <= j < 6,
    ensures
        files@[j].contents is Ok,
        ({
            let all = lines(files@[j].contents->Ok_0@);
            exists|t: int|
                6 <= t < all.len() && !is_blank(#[trigger] all[t]) && (forall|u: int|
                    t < u < all.len() ==> is_blank(#[trigger] all[u])) && words(all[t]).len() >= 7
                    && read_as(parse, words(all[t])[i + 1]) == Ok::<Double, Seq<char>>(
                    r->Ok_0.c[i][j],
                )
        }),
{
    let p = reader(parse);
    let m = r->Ok_0;
    let columns = all_stresses(files@, 6, p)->Ok_0;
    assert(all_stresses(files@, 6, p) is Ok);
    lemma_stresses_of(files@, 6, j, p);
    let all = lines(files@[j].contents->Ok_0@);
    let found = std_rows(all, all.len(), p)->Ok_0;
    let t = lemma_last_row(all, all.len(), p);
    lemma_numbers(words(all[t]), words(all[t]).len(), p);
    assert(columns[j] == found.last().subrange(1, 7));
    assert(rows(m.c) == transposed(columns));
    assert(rows(m.c)[i] == m.c@[i]@);
    assert(transposed(columns)[i][j] == columns[j][i]);
    assert(m.c[i][j] == found.last()[i + 1]);
    assert(p(words(all[t])[i + 1]) == Ok::<Double, Seq<char>>(found.last()[i + 1]));
    assert(!is_blank(all[t]));
}

/// The reported constants, from the entries of the reported matrices.
pub proof fn constants_come_from_the_matrices<P: Fn(&str) -> Result<Double, String>>(
    files: Vec<StdFile>,
    parse: P,
    r: Result<ElasticModuli, ModuliError>,
)
    requires
        reads(parse),
        files@.len() == 6,
        call_ensures(compute_moduli::<P>, (&files, &parse), r),
        r is Ok,
    ensures
        ({
            let m = r->Ok_0;
            &&& m.e == quotient(integer(1), m.s[0][0])
            &&& m.nu == product(opposite(m.s[0][1]), m.e)
            &&& m.g == m.c[3][3]
            &&& m.zener == quotient(
                product(integer(2), m.c[3][3]),
                difference(m.c[0][0], m.c[0][1]),
            )
        }),
{
    let m = r->Ok_0;
    let (c, s) = (rows(m.c), rows(m.s));
    assert(c[0] == m.c@[0]@ && c[3] == m.c@[3]@ && s[0] == m.s@[0]@);
    assert(Double::natural(1) == integer(1));
    assert(Double::natural(2) == integer(2));
}

/// The reported compliance times the reported stiffness is the identity up to rounding, where the
/// stiffness is well conditioned: with largest entry `mu`, and `n` the largest sum of the sizes in
/// a row of its inverse.
pub proof fn compliance_is_the_inverse<P: Fn(&str) -> Result<Double, String>>(
    files: Vec<StdFile>,
    parse: P,
    r: Result<ElasticModuli, ModuliError>,
    inverse: Seq<Seq<real>>,
    mu: real,
    n: real,
    i: int,
    j: int,
)
    requires
        reads(parse),
        files@.len() == 6,
        call_ensures(compute_moduli::<P>, (&files, &parse), r),
        r is Ok,
        is_conditioned(rows(r->Ok_0.c), inverse, mu, n),
        is_scale(mu),
        is_scale(n),
        n * mu <= 50real,
        0 <= i < 6,
        0 <= j < 6,
    ensures
        size(
            dot(worths(rows(r->Ok_0.s))[i], column(worths(rows(r->Ok_0.c)), j)) - if i == j {
                1real
            } else {
                0real
            },
        ) * 10_000_000real <= 1real,
{
    well_conditioned_matrix_is_inverted(rows(r->Ok_0.c), inverse, mu, n, i, j);
}

/// Where the last row of a result file stands: in the last line behind the header that is not
/// blank.
pub open spec fn is_last_row(all: Seq<Seq<char>>, t: int) -> bool {
    6 <= t < all.len() && !is_blank(all[t]) && forall|u: int|
        t < u < all.len() ==> is_blank(#[trigger] all[u])
}

/// Whether a result file could be read, holds nothing but numbers behind its header, and has seven
/// of them in its last row.
pub open spec fn is_flawless<P: Fn(&str) -> Result<Double, String>>(
    file: StdFile,
    parse: P,
) -> bool {
    file.contents matches Ok(text) && {
        let all = lines(text@);
        &&& forall|t: int, w: int|
            6 <= t < all.len() && 0 <= w < words(all[t]).len() ==> read_as(
                parse,
                #[trigger] words(all[t])[w],
            ) is Ok
        &&& exists|t: int| #[trigger] is_last_row(all, t) && words(all[t]).len() >= 7
    }
}

proof fn lemma_blank_is_wordless(s: Seq<char>)
    requires
        is_blank(s),
    ensures
        words(s).len() == 0,
    decreases s.len(),
{
    if s.len() > 0 {
        assert(is_white(s[0]));
        assert forall|i: int| 0 <= i < s.skip(1).len() implies #[trigger] is_white(
            s.skip(1)[i],
        ) by {
            assert(is_white(s[i + 1]));
        }
        lemma_blank_is_wordless(s.skip(1));
    }
}

/// Reading words fails where one of them writes no number.
proof fn lemma_numbers_fail(
    list: Seq<Seq<char>>,
    k: nat,
    parse: spec_fn(Seq<char>) -> Result<Double, Seq<char>>,
) -> (w: int)
    requires
        numbers(list, k, parse) is Err,
    ensures
        0 <= w < k,
        parse(list[w]) == Err::<Double, Seq<char>>(numbers(list, k, parse)->Err_0),
    decreases k,
{
    if numbers(list, (k - 1) as nat, parse) is Err {
        lemma_numbers_fail(list, (k - 1) as nat, parse)
    } else {
        k - 1
    }
}

proof fn lemma_rows_fail(
    all: Seq<Seq<char>>,
    k: nat,
    parse: spec_fn(Seq<char>) -> Result<Double, Seq<char>>,
) -> (r: (int, int))
    requires
        k <= all.len(),
        std_rows(all, k, parse) is Err,
    ensures
        6 <= r.0 < k,
        0 <= r.1 < words(all[r.0]).len(),
        parse(words(all[r.0])[r.1]) == Err::<Double, Seq<char>>(std_rows(all, k, parse)->Err_0),
    decreases k,
{
    if std_rows(all, (k - 1) as nat, parse) is Err {
        lemma_rows_fail(all, (k - 1) as nat, parse)
    } else {
        let list = words(all[k - 1]);
        (k - 1, lemma_numbers_fail(list, list.len(), parse))
    }
}

proof fn lemma_rows_read(
    all: Seq<Seq<char>>,
    k: nat,
    t: int,
    w: int,
    parse: spec_fn(Seq<char>) -> Result<Double, Seq<char>>,
)
    requires
        6 <= t < k <= all.len(),
        0 <= w < words(all[t]).len(),
        std_rows(all, k, parse) is Ok,
    ensures
        parse(words(all[t])[w]) is Ok,
    decreases k,
{
    if t < k - 1 {
        lemma_rows_read(all, (k - 1) as nat, t, w, parse);
    } else if is_blank(all[t]) {
        lemma_blank_is_wordless(all[t]);
    } else {
        let list = words(all[t]);
        lemma_numbers(list, list.len(), parse);
        assert(parse(list[w]) is Ok);
    }
}

proof fn lemma_no_rows(
    all: Seq<Seq<char>>,
    k: nat,
    parse: spec_fn(Seq<char>) -> Result<Double, Seq<char>>,
)
    requires
        k <= all.len(),
        std_rows(all, k, parse) is Ok,
    ensures
        std_rows(all, k, parse)->Ok_0.len() == 0 <==> forall|t: int|
            6 <= t < k ==> is_blank(#[trigger] all[t]),
    decreases k,
{
    if k > 6 {
        lemma_no_rows(all, (k - 1) as nat, parse);
        if is_blank(all[k - 1]) {
            assert forall|t: int|
                6 <= t < k && (forall|u: int| 6 <= u < k - 1 ==> is_blank(#[trigger] all[u]))
                implies is_blank(#[trigger] all[t]) by {}
        } else {
            assert(!is_blank(all[k - 1]));
        }
    }
}

/// The stresses of a file are found exactly where the file has no flaw.
proof fn lemma_flawless<P: Fn(&str) -> Result<Double, String>>(
    files: Seq<StdFile>,
    j: int,
    parse: P,
)
    requires
        reads(parse),
        0 <= j < files.len(),
    ensures
        stresses(files, j, reader(parse)) is Ok <==> is_flawless(files[j], parse),
{
    let p = reader(parse);
    if files[j].contents is Ok {
        let all = lines(files[j].contents->Ok_0@);
        let n = all.len();
        if std_rows(all, n, p) is Err {
            let (t, w) = lemma_rows_fail(all, n, p);
            assert(read_as(parse, words(all[t])[w]) is Err);
        } else {
            assert forall|t: int, w: int|
                6 <= t < all.len() && 0 <= w < words(all[t]).len() implies read_as(
                parse,
                #[trigger] words(all[t])[w],
            ) is Ok by {
                lemma_rows_read(all, n, t, w, p);
            }
            lemma_no_rows(all, n, p);
            if std_rows(all, n, p)->Ok_0.len() > 0 {
                let t = lemma_last_row(all, n, p);
                lemma_numbers(words(all[t]), words(all[t]).len(), p);
                assert(is_last_row(all, t));
                if is_flawless(files[j], parse) {
                    let u = choose|u: int|
                        #[trigger] is_last_row(all, u) && words(all[u]).len() >= 7;
                    assert(u == t);
                }
            }
        }
    }
}

proof fn lemma_first_flaw(
    files: Seq<StdFile>,
    k: nat,
    parse: spec_fn(Seq<char>) -> Result<Double, Seq<char>>,
) -> (j: int)
    requires
        all_stresses(files, k, parse) is Err,
    ensures
        0 <= j < k,
        stresses(files, j, parse) == Err::<Seq<Double>, Flaw>(all_stresses(files, k, parse)->Err_0),
        forall|i: int| 0 <= i < j ==> #[trigger] stresses(files, i, parse) is Ok,
    decreases k,
{
    if all_stresses(files, (k - 1) as nat, parse) is Err {
        lemma_first_flaw(files, (k - 1) as nat, parse)
    } else {
        assert forall|i: int| 0 <= i < k - 1 implies #[trigger] stresses(files, i, parse) is Ok by {
            lemma_stresses_of(files, (k - 1) as nat, i, parse);
        }
        k - 1
    }
}

/// Files without a flaw are refused only for their matrix.
pub proof fn flawless_files_are_taken<P: Fn(&str) -> Result<Double, String>>(
    files: Vec<StdFile>,
    parse: P,
    r: Result<ElasticModuli, ModuliError>,
)
    requires
        reads(parse),
        files@.len() == 6,
        call_ensures(compute_moduli::<P>, (&files, &parse), r),
    ensures
        (forall|j: int| 0 <= j < 6 ==> is_flawless(#[trigger] files@[j], parse)) <==> r is Ok
            || r->Err_0 is Inverse,
{
    let p = reader(parse);
    if all_stresses(files@, 6, p) is Err {
        let j = lemma_first_flaw(files@, 6, p);
        lemma_flawless(files@, j, parse);
        assert(!is_flawless(files@[j], parse));
    } else {
        assert forall|j: int| 0 <= j < 6 implies is_flawless(#[trigger] files@[j], parse) by {
            lemma_stresses_of(files@, 6, j, p);
            lemma_flawless(files@, j, parse);
        }
    }
}

/// What is said of the result files is true of the first that has a flaw.
pub proof fn flaws_are_those_of_the_first_file<P: Fn(&str) -> Result<Double, String>>(
    files: Vec<StdFile>,
    parse: P,
    r: Result<ElasticModuli, ModuliError>,
    j: int,
)
    requires
        reads(parse),
        files@.len() == 6,
        call_ensures(compute_moduli::<P>, (&files, &parse), r),
        0 <= j < 6,
        !is_flawless(files@[j], parse),
        forall|i: int| 0 <= i < j ==> is_flawless(#[trigger] files@[i], parse),
    ensures
        ({
            let file = files@[j];
            match r {
                Ok(_) => false,
                Err(ModuliError::Unreadable { path, reason }) => path@ == file.path@ && (
                file.contents matches Err(why) && why@ == reason@),
                Err(ModuliError::BadNumber { reason }) => file.contents matches Ok(text) && exists|
                    t: int,
                    w: int,
                |
                    6 <= t < lines(text@).len() && 0 <= w < words(lines(text@)[t]).len() && read_as(
                        parse,
                        #[trigger] words(lines(text@)[t])[w],
                    ) == Err::<Double, Seq<char>>(reason@),
                Err(ModuliError::NoRows { path }) => path@ == file.path@ && (
                file.contents matches Ok(text) && forall|t: int|
                    6 <= t < lines(text@).len() ==> is_blank(#[trigger] lines(text@)[t])),
                Err(ModuliError::ShortRow { path }) => path@ == file.path@ && (
                file.contents matches Ok(text) && exists|t: int| #[trigger]
                    is_last_row(lines(text@), t) && words(lines(text@)[t]).len() < 7),
                Err(ModuliError::Inverse { .. }) => false,
            }
        }),
{
    let p = reader(parse);
    lemma_flawless(files@, j, parse);
    assert(all_stresses(files@, 6, p) is Err) by {
        if all_stresses(files@, 6, p) is Ok {
            lemma_stresses_of(files@, 6, j, p);
        }
    }
    let f = lemma_first_flaw(files@, 6, p);
    assert(f == j) by {
        if f < j {
            lemma_flawless(files@, f, parse);
            assert(is_flawless(files@[f], parse));
        }
    }
    if files@[j].contents is Ok {
        let all = lines(files@[j].contents->Ok_0@);
        let n = all.len();
        if std_rows(all, n, p) is Err {
            let (t, w) = lemma_rows_fail(all, n, p);
            assert(read_as(parse, words(all[t])[w]) == Err::<Double, Seq<char>>(
                std_rows(all, n, p)->Err_0,
            ));
        } else {
            lemma_no_rows(all, n, p);
            if std_rows(all, n, p)->Ok_0.len() > 0 {
                let t = lemma_last_row(all, n, p);
                lemma_numbers(words(all[t]), words(all[t]).len(), p);
                assert(is_last_row(all, t));
            }
        }
    }
}

/// The elimination takes the row with the largest entry in the column, and of several the last.
pub proof fn largest_entry_is_taken(a: Seq<Seq<Double>>, col: int, r: int)
    requires
        0 <= col <= r < 6,
    ensures
        col <= pivot_row()(a, col) < 6,
        a[r][col].units() <= a[pivot_row()(a, col)][col].units(),
        pivot_row()(a, col) < r ==> a[r][col].units() < a[pivot_row()(a, col)][col].units(),
{
    lemma_largest(a, col, 6, r);
}

proof fn lemma_largest(a: Seq<Seq<Double>>, col: int, k: int, r: int)
    requires
        0 <= col <= r < k,
    ensures
        ({
            let p = largest_entry(a, col, k);
            &&& col <= p < k
            &&& a[r][col].units() <= a[p][col].units()
            &&& p < r ==> a[r][col].units() < a[p][col].units()
        }),
    decreases k - col,
{
    if k > col + 1 {
        lemma_largest(a, col, k - 1, if r < k - 1 {
            r
        } else {
            col
        });
    }
}

proof fn lemma_first_column(m: Seq<Seq<Double>>, k: nat)
    requires
        0 < k <= 6,
    ensures
        ({
            let first = obstacle(m, 0);
            match first_obstacle(m, k) {
                None => first is None,
                Some(e) => if first is Some {
                    first == Some(e)
                } else {
                    match e {
                        InverseError::Singular { column } => column > 0,
                        InverseError::NotANumber { column } => column > 0,
                    }
                },
            }
        }),
    decreases k,
{
    if k > 1 {
        lemma_first_column(m, (k - 1) as nat);
    } else {
        assert(first_obstacle(m, 0) is None);
        assert(eliminated(m, pivot_row(), 0).0 == m);
    }
}

proof fn lemma_is_small(v: Double)
    ensures
        magnitude_of(v).is_below(smallest_pivot()) <==> !v.is_nan() && v.units()
            < smallest_pivot().units(),
{
    assert(magnitude_of(v).magnitude() == v.magnitude());
}

/// A matrix is refused at its first column where an entry there is no number, or where all of them
/// are smaller than 1e-14; a matrix whose first column has neither is not refused there.
pub proof fn small_columns_are_refused(m: Matrix, r: Result<Matrix, InverseError>)
    requires
        call_ensures(invert_6x6, (&m,), r),
    ensures
        ({
            let limit = Double { bits: 0x3d06_849b_86a1_2b9b };
            let lost = exists|i: int| 0 <= i < 6 && (#[trigger] m[i])[0].is_nan();
            let small = forall|i: int|
                0 <= i < 6 ==> magnitude_of((#[trigger] m[i])[0]).is_below(limit);
            &&& r == Err::<Matrix, InverseError>(InverseError::NotANumber { column: 0 }) <==> lost
            &&& r == Err::<Matrix, InverseError>(InverseError::Singular { column: 0 }) <==> !lost
                && small
        }),
{
    let a = rows(m);
    lemma_first_column(a, 6);
    assert forall|i: int| 0 <= i < 6 implies #[trigger] m[i]@ == a[i] by {}
    let p = pivot_row()(a, 0);
    largest_entry_is_taken(a, 0, 0);
    lemma_is_small(a[p][0]);
    assert forall|i: int| 0 <= i < 6 implies (magnitude_of((#[trigger] m[i])[0]).is_below(
        smallest_pivot(),
    ) <==> !a[i][0].is_nan() && a[i][0].units() < smallest_pivot().units()) && a[i][0].units()
        <= a[p][0].units() by {
        assert(m[i]@ == a[i]);
        lemma_is_small(a[i][0]);
        largest_entry_is_taken(a, 0, i);
    }
    assert(m[p]@ == a[p]);
    assert(incomparable(a, 0) <==> exists|i: int| 0 <= i < 6 && (#[trigger] m[i])[0].is_nan()) by {
        if incomparable(a, 0) {
            let i = choose|i: int| 0 <= i < 6 && (#[trigger] a[i])[0].is_nan();
            assert(m[i]@ == a[i]);
            assert(m[i][0].is_nan());
        }
        if exists|i: int| 0 <= i < 6 && (#[trigger] m[i])[0].is_nan() {
            let i = choose|i: int| 0 <= i < 6 && (#[trigger] m[i])[0].is_nan();
            assert(m[i]@ == a[i]);
            assert(a[i][0].is_nan());
        }
    }
}

/// What is said of an error names the file or the column that is wrong.
pub proof fn errors_name_the_file_or_column(error: ModuliError, r: String)
    requires
        call_ensures(ModuliError::message, (&error,), r),
    ensures
        match error {
            ModuliError::Unreadable { path, .. } => r@ == "reading "@ + path@,
            ModuliError::BadNumber { reason } => r@ == reason@,
            ModuliError::NoRows { path } => r@ == path@ + ": no data rows"@,
            ModuliError::ShortRow { path } => r@ == path@ + ": less than seven columns"@,
            ModuliError::Inverse { cause: InverseError::Singular { column } } => r@
                == "stiffness matrix is singular (or near-singular) at column "@ + decimal(
                column as nat,
            ),
            ModuliError::Inverse { cause: InverseError::NotANumber { column } } => r@
                == "stiffness matrix holds no number at column "@ + decimal(column as nat),
        },
{
}

/// Which of the first `k` lines of a result file hold rows: those behind the header that are not
/// blank.
pub open spec fn filled(all: Seq<Seq<char>>, k: nat) -> Seq<int>
    decreases k,
{
    if k <= 6 {
        Seq::empty()
    } else if is_blank(all[k - 1]) {
        filled(all, (k - 1) as nat)
    } else {
        filled(all, (k - 1) as nat).push(k - 1)
    }
}

proof fn lemma_filled(
    all: Seq<Seq<char>>,
    k: nat,
    parse: spec_fn(Seq<char>) -> Result<Double, Seq<char>>,
    j: int,
)
    requires
        std_rows(all, k, parse) is Ok,
    ensures
        std_rows(all, k, parse)->Ok_0.len() == filled(all, k).len(),
        0 <= j < filled(all, k).len() ==> {
            let list = words(all[filled(all, k)[j]]);
            numbers(list, list.len(), parse) == Ok::<Seq<Double>, Seq<char>>(
                std_rows(all, k, parse)->Ok_0[j],
            )
        },
    decreases k,
{
    if k > 6 {
        lemma_filled(all, (k - 1) as nat, parse, j);
    }
}

/// The rows of a result file are its lines behind the header that are not blank, in their order,
/// and the numbers of a row are what its words are read as.
pub proof fn rows_are_the_filled_lines<P: Fn(&str) -> Result<Double, String>>(
    contents: &str,
    parse: P,
    found: Vec<Vec<Double>>,
    j: int,
)
    requires
        reads(parse),
        call_ensures(
            parse_std_file::<P>,
            (contents, &parse),
            Ok::<Vec<Vec<Double>>, String>(found),
        ),
        0 <= j < found@.len(),
    ensures
        ({
            let all = lines(contents@);
            let rows = filled(all, all.len());
            let list = words(all[rows[j]]);
            &&& found@.len() == rows.len()
            &&& found@[j]@.len() == list.len()
            &&& forall|w: int|
                0 <= w < list.len() ==> read_as(parse, #[trigger] list[w]) == Ok::<
                    Double,
                    Seq<char>,
                >(found@[j]@[w])
        }),
{
    let p = reader(parse);
    let all = lines(contents@);
    let views = row_views(found@);
    assert(std_rows(all, all.len(), p) == Ok::<Seq<Seq<Double>>, Seq<char>>(views));
    assert(views.len() == found@.len());
    assert(views[j] == found@[j]@);
    lemma_filled(all, all.len(), p, j);
    let list = words(all[filled(all, all.len())[j]]);
    lemma_numbers(list, list.len(), p);
    assert forall|w: int| 0 <= w < list.len() implies read_as(parse, #[trigger] list[w]) == Ok::<
        Double,
        Seq<char>,
    >(found@[j]@[w]) by {
        assert(p(list[w]) == Ok::<Double, Seq<char>>(views[j][w]));
    }
}

} // verus!
