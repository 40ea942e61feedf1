//! The homogenized elastic constants, from the stresses of the six load cases.
use crate::double::Double;
use crate::formula::{
    lemma_over_times, lemma_times_units, number, real_over, real_times, Arithmetic,
};
use crate::postproc::inverse::{
    column, dot, eliminated, first_obstacle, invert_6x6, pivot_row, rows, InverseError, Matrix,
};
use crate::postproc::vtkio::{numbers, read_numbers};
use crate::preproc::materials::{lambda_of, lame_determines_constants, mu_of};
use crate::text::{blank, decimal, is_blank, lines, split_lines, split_words, texts, words};
use crate::writing::{push_count, reader, reads};
use vstd::prelude::*;

verus! {

/// The elastic constants of the homogenized material.
pub struct ElasticModuli {
    /// The stiffness matrix.
    pub c: Matrix,
    /// The compliance matrix, which is the inverse of the stiffness matrix.
    pub s: Matrix,
    pub e: Double,
    pub nu: Double,
    pub g: Double,
    pub zener: Double,
}

/// A result file of the solver: its path, and its text or why it could not be read.
pub struct StdFile {
    pub path: String,
    pub contents: Result<String, String>,
}

/// Why there are no elastic constants.
#[derive(Debug)]
pub enum ModuliError {
    /// A result file could not be read.
    Unreadable { path: String, reason: String },
    BadNumber { reason: String },
    NoRows { path: String },
    /// The last row of a file has less than seven columns.
    ShortRow { path: String },
    Inverse { cause: InverseError },
}

/// What is wrong with the result files; a file is told by its place.
pub enum Flaw {
    Unreadable { place: int },
    BadNumber { reason: Seq<char> },
    NoRows { place: int },
    ShortRow { place: int },
    Inverse { cause: InverseError },
}

impl ModuliError {
    /// Whether the error tells of `flaw` in `files`.
    pub open spec fn tells(self, flaw: Flaw, files: Seq<StdFile>) -> bool {
        match (self, flaw) {
            (ModuliError::Unreadable { path, reason }, Flaw::Unreadable { place }) => {
                &&& path@ == files[place].path@
                &&& files[place].contents matches Err(why) && reason@ == why@
            },
            (ModuliError::BadNumber { reason }, Flaw::BadNumber { reason: text }) => reason@
                == text,
            (ModuliError::NoRows { path }, Flaw::NoRows { place }) => path@ == files[place].path@,
            (ModuliError::ShortRow { path }, Flaw::ShortRow { place }) => path@
                == files[place].path@,
            (ModuliError::Inverse { cause }, Flaw::Inverse { cause: other }) => cause == other,
            _ => false,
        }
    }

    pub open spec fn text(self) -> Seq<char> {
        match self {
            ModuliError::Unreadable { path, reason } => "reading "@ + path@,
            ModuliError::BadNumber { reason } => reason@,
            ModuliError::NoRows { path } => path@ + ": no data rows"@,
            ModuliError::ShortRow { path } => path@ + ": less than seven columns"@,
            ModuliError::Inverse { cause } => match cause {
                InverseError::Singular { column } =>
                    "stiffness matrix is singular (or near-singular) at column "@ + decimal(
                    column as nat,
                ),
                InverseError::NotANumber { column } =>
                    "stiffness matrix holds no number at column "@ + decimal(column as nat),
            },
        }
    }

    /// Says what is wrong.
    pub fn message(&self) -> (r: String)
        ensures
            r@ == self.text(),
    {
        match self {
            ModuliError::Unreadable { path, .. } => {
                let mut r: String = "reading ".to_owned();
                r.append(path.as_str());
                r
            },
            ModuliError::BadNumber { reason } => reason.clone(),
            ModuliError::NoRows { path } => {
                let mut r: String = path.clone();
                r.append(": no data rows");
                r
            },
            ModuliError::ShortRow { path } => {
                let mut r: String = path.clone();
                r.append(": less than seven columns");
                r
            },
            ModuliError::Inverse { cause } => match cause {
                InverseError::Singular { column } => {
                    let mut r: String =
                        "stiffness matrix is singular (or near-singular) at column ".to_owned();
                    push_count(&mut r, *column);
                    r
                },
                InverseError::NotANumber { column } => {
                    let mut r: String = "stiffness matrix holds no number at column ".to_owned();
                    push_count(&mut r, *column);
                    r
                },
            },
        }
    }
}

/// How many lines stand before the rows of a result file.
pub const HEADER_LINES: usize = 6;

/// The rows of numbers in the first `k` lines of a result file, or why the first word that writes
/// no number does not. The header and blank lines are passed over.
pub open spec fn std_rows(
    all: Seq<Seq<char>>,
    k: nat,
    parse: spec_fn(Seq<char>) -> Result<Double, Seq<char>>,
) -> Result<Seq<Seq<Double>>, Seq<char>>
    decreases k,
{
    if k <= HEADER_LINES {
        Ok(Seq::empty())
    } else {
        match std_rows(all, (k - 1) as nat, parse) {
            Err(reason) => Err(reason),
            Ok(before) => if is_blank(all[k - 1]) {
                Ok(before)
            } else {
                let list = words(all[k - 1]);
                match numbers(list, list.len(), parse) {
                    Err(reason) => Err(reason),
                    Ok(row) => Ok(before.push(row)),
                }
            },
        }
    }
}

proof fn lemma_std_rows(
    all: Seq<Seq<char>>,
    k: nat,
    n: nat,
    parse: spec_fn(Seq<char>) -> Result<Double, Seq<char>>,
)
    requires
        k <= n,
        std_rows(all, k, parse) is Err,
    ensures
        std_rows(all, n, parse) == std_rows(all, k, parse),
    decreases n,
{
    if k < n {
        lemma_std_rows(all, k, (n - 1) as nat, parse);
    }
}

/// The rows of some vectors.
pub open spec fn row_views(v: Seq<Vec<Double>>) -> Seq<Seq<Double>> {
    v.map_values(|row: Vec<Double>| row@)
}

/// Reads the rows of a result file.
pub fn parse_std_file<P: Fn(&str) -> Result<Double, String>>(contents: &str, parse: &P) -> (r:
    Result<Vec<Vec<Double>>, String>)
    requires
        reads(*parse),
    ensures
        match r {
            Ok(v) => std_rows(lines(contents@), lines(contents@).len(), reader(*parse)) == Ok::<
                Seq<Seq<Double>>,
                Seq<char>,
            >(row_views(v@)),
            Err(e) => std_rows(lines(contents@), lines(contents@).len(), reader(*parse)) == Err::<
                Seq<Seq<Double>>,
                Seq<char>,
            >(e@),
        },
{
    let all: Vec<String> = split_lines(contents);
    let ghost shown = texts(all@);
    assert(shown.len() == all@.len());
    let mut r: Vec<Vec<Double>> = Vec::new();
    assert(row_views(r@) =~= Seq::empty());
    if all.len() <= HEADER_LINES {
        return Ok(r);
    }
    let mut i: usize = HEADER_LINES;
    while i < all.len()
        invariant
            reads(*parse),
            HEADER_LINES <= i <= all@.len(),
            shown == texts(all@),
            shown == lines(contents@),
            std_rows(shown, i as nat, reader(*parse)) == Ok::<Seq<Seq<Double>>, Seq<char>>(
                row_views(r@),
            ),
        decreases all@.len() - i,
    {
        assert(shown[i as int] == all@[i as int]@);
        if !blank(all[i].as_str()) {
            let list: Vec<String> = split_words(all[i].as_str());
            assert(texts(list@).len() == list@.len());
            match read_numbers(&list, parse) {
                Ok(row) => {
                    let ghost before = r@;
                    r.push(row);
                    assert(row_views(r@) =~= row_views(before).push(row@));
                },
                Err(reason) => {
                    proof {
                        lemma_std_rows(shown, (i + 1) as nat, shown.len(), reader(*parse));
                    }
                    return Err(reason);
                },
            }
        }
        i += 1;
    }
    Ok(r)
}

/// The stresses of a load case: columns two to seven of the last row of its result file.
pub open spec fn stresses(
    files: Seq<StdFile>,
    place: int,
    parse: spec_fn(Seq<char>) -> Result<Double, Seq<char>>,
) -> Result<Seq<Double>, Flaw> {
    match files[place].contents {
        Err(_) => Err(Flaw::Unreadable { place }),
        Ok(contents) => {
            let all = lines(contents@);
            match std_rows(all, all.len(), parse) {
                Err(reason) => Err(Flaw::BadNumber { reason }),
                Ok(found) => if found.len() == 0 {
                    Err(Flaw::NoRows { place })
                } else if found.last().len() < 7 {
                    Err(Flaw::ShortRow { place })
                } else {
                    Ok(found.last().subrange(1, 7))
                },
            }
        },
    }
}

fn read_stresses<P: Fn(&str) -> Result<Double, String>>(
    file: &StdFile,
    parse: &P,
    Ghost(files): Ghost<Seq<StdFile>>,
    Ghost(place): Ghost<int>,
) -> (r: Result<[Double; 6], ModuliError>)
    requires
        reads(*parse),
        files[place] == *file,
    ensures
        match r {
            Ok(s) => stresses(files, place, reader(*parse)) == Ok::<Seq<Double>, Flaw>(s@),
            Err(e) => stresses(files, place, reader(*parse)) is Err && e.tells(
                stresses(files, place, reader(*parse))->Err_0,
                files,
            ),
        },
{
    let contents: &String = match &file.contents {
        Ok(contents) => contents,
        Err(why) => {
            return Err(ModuliError::Unreadable { path: file.path.clone(), reason: why.clone() });
        },
    };
    let found: Vec<Vec<Double>> = match parse_std_file(contents.as_str(), parse) {
        Ok(found) => found,
        Err(reason) => {
            return Err(ModuliError::BadNumber { reason });
        },
    };
    if found.len() == 0 {
        return Err(ModuliError::NoRows { path: file.path.clone() });
    }
    let last: &Vec<Double> = &found[found.len() - 1];
    assert(row_views(found@).last() == last@);
    if last.len() < 7 {
        return Err(ModuliError::ShortRow { path: file.path.clone() });
    }
    let r: [Double; 6] = [last[1], last[2], last[3], last[4], last[5], last[6]];
    assert(r@ =~= last@.subrange(1, 7));
    Ok(r)
}

/// The stresses of the first `k` load cases, or the first flaw in their files.
pub open spec fn all_stresses(
    files: Seq<StdFile>,
    k: nat,
    parse: spec_fn(Seq<char>) -> Result<Double, Seq<char>>,
) -> Result<Seq<Seq<Double>>, Flaw>
    decreases k,
{
    if k == 0 {
        Ok(Seq::empty())
    } else {
        match all_stresses(files, (k - 1) as nat, parse) {
            Err(flaw) => Err(flaw),
            Ok(before) => match stresses(files, k - 1, parse) {
                Err(flaw) => Err(flaw),
                Ok(s) => Ok(before.push(s)),
            },
        }
    }
}

proof fn lemma_all_stresses(
    files: Seq<StdFile>,
    k: nat,
    n: nat,
    parse: spec_fn(Seq<char>) -> Result<Double, Seq<char>>,
)
    requires
        k <= n,
        all_stresses(files, k, parse) is Err,
    ensures
        all_stresses(files, n, parse) == all_stresses(files, k, parse),
    decreases n,
{
    if k < n {
        lemma_all_stresses(files, k, (n - 1) as nat, parse);
    }
}

/// The matrix whose columns are given.
pub open spec fn transposed<V>(columns: Seq<Seq<V>>) -> Seq<Seq<V>> {
    Seq::new(6, |i: int| Seq::new(6, |j: int| columns[j][i]))
}

/// Young's modulus, from the compliance matrix.
pub open spec fn young<V: Arithmetic>(s: Seq<Seq<V>>) -> V {
    V::natural(1).divided(s[0][0])
}

/// Poisson's ratio, from the compliance matrix.
pub open spec fn poisson<V: Arithmetic>(s: Seq<Seq<V>>) -> V {
    s[0][1].reversed().multiplied(young(s))
}

/// The Zener ratio, from the stiffness matrix.
pub open spec fn zener_ratio<V: Arithmetic>(c: Seq<Seq<V>>) -> V {
    V::natural(2).multiplied(c[3][3]).divided(c[0][0].reduced(c[0][1]))
}

/// Whether `m` holds the constants that belong to the stiffness `c`.
pub open spec fn are_moduli(m: ElasticModuli, c: Seq<Seq<Double>>) -> bool {
    let s = eliminated(c, pivot_row(), 6).1;
    &&& rows(m.c) == c
    &&& rows(m.s) == s
    &&& m.e == young(s)
    &&& m.nu == poisson(s)
    &&& m.g == c[3][3]
    &&& m.zener == zener_ratio(c)
}

fn transpose(columns: &Matrix) -> (r: Matrix)
    ensures
        rows(r) == transposed(rows(*columns)),
{
    let c: &Matrix = columns;
    let r: Matrix = [
        [c[0][0], c[1][0], c[2][0], c[3][0], c[4][0], c[5][0]],
        [c[0][1], c[1][1], c[2][1], c[3][1], c[4][1], c[5][1]],
        [c[0][2], c[1][2], c[2][2], c[3][2], c[4][2], c[5][2]],
        [c[0][3], c[1][3], c[2][3], c[3][3], c[4][3], c[5][3]],
        [c[0][4], c[1][4], c[2][4], c[3][4], c[4][4], c[5][4]],
        [c[0][5], c[1][5], c[2][5], c[3][5], c[4][5], c[5][5]],
    ];
    assert forall|i: int| 0 <= i < 6 implies #[trigger] rows(r)[i] == transposed(rows(*columns))[i] by {
        assert(rows(r)[i] =~= transposed(rows(*columns))[i]);
    }
    assert(rows(r) =~= transposed(rows(*columns)));
    r
}

/// The constants that belong to a stiffness matrix.
pub fn moduli_of(c: Matrix) -> (r: Result<ElasticModuli, InverseError>)
    ensures
        match r {
            Ok(m) => first_obstacle(rows(c), 6) is None && are_moduli(m, rows(c)),
            Err(e) => first_obstacle(rows(c), 6) == Some(e),
        },
{
    let s: Matrix = match invert_6x6(&c) {
        Ok(s) => s,
        Err(e) => {
            return Err(e);
        },
    };
    let e: Double = number(1).divided_by(s[0][0]);
    let nu: Double = s[0][1].negate().times(e);
    let g: Double = c[3][3];
    let zener: Double = number(2).times(c[3][3]).divided_by(c[0][0].minus(c[0][1]));
    Ok(ElasticModuli { c, s, e, nu, g, zener })
}

/// The elastic constants, from the result files of the six load cases in the order of their
/// directions: the stresses of a case are a column of the stiffness matrix.
pub fn compute_moduli<P: Fn(&str) -> Result<Double, String>>(files: &Vec<StdFile>, parse: &P) -> (r:
    Result<ElasticModuli, ModuliError>)
    requires
        reads(*parse),
        files@.len() == 6,
    ensures
        match all_stresses(files@, 6, reader(*parse)) {
            Err(flaw) => r matches Err(e) && e.tells(flaw, files@),
            Ok(columns) => {
                let c = transposed(columns);
                match first_obstacle(c, 6) {
                    Some(cause) => r matches Err(e) && e.tells(Flaw::Inverse { cause }, files@),
                    None => r matches Ok(m) && are_moduli(m, c),
                }
            },
        },
{
    let zero: Double = Double { bits: 0 };
    let blank_row: [Double; 6] = [zero, zero, zero, zero, zero, zero];
    let mut columns: Matrix = [blank_row, blank_row, blank_row, blank_row, blank_row, blank_row];
    let mut j: usize = 0;
    assert(rows(columns).take(0) =~= Seq::empty());
    while j < 6
        invariant
            reads(*parse),
            files@.len() == 6,
            j <= 6,
            all_stresses(files@, j as nat, reader(*parse)) is Ok,
            all_stresses(files@, j as nat, reader(*parse))->Ok_0 == rows(columns).take(j as int),
        decreases 6 - j,
    {
        let ghost before = rows(columns);
        match read_stresses(&files[j], parse, Ghost(files@), Ghost(j as int)) {
            Ok(s) => {
                columns[j] = s;
                assert(rows(columns).take(j + 1) =~= before.take(j as int).push(s@));
            },
            Err(e) => {
                proof {
                    lemma_all_stresses(files@, (j + 1) as nat, 6, reader(*parse));
                }
                return Err(e);
            },
        }
        j += 1;
    }
    assert(rows(columns).take(6) =~= rows(columns));
    match moduli_of(transpose(&columns)) {
        Ok(m) => Ok(m),
        Err(cause) => Err(ModuliError::Inverse { cause }),
    }
}

/// The stiffness matrix of an isotropic material with the given Lamé coefficients and the given
/// shear coefficient.
pub open spec fn isotropic_stiffness(lambda: real, mu: real, shear: real) -> Seq<Seq<real>> {
    Seq::new(
        6,
        |i: int|
            Seq::new(
                6,
                |j: int|
                    if i < 3 && j < 3 {
                        if i == j {
                            lambda + 2real * mu
                        } else {
                            lambda
                        }
                    } else if i == j {
                        shear
                    } else {
                        0real
                    },
            ),
    )
}

/// Solves for the first row of the compliance matrix of an isotropic material.
proof fn lemma_first_row(a: real, b: real, c: real, lambda: real, mu: real, e: real, nu: real)
    requires
        mu > 0real,
        lambda + mu > 0real,
        e == mu * (3real * lambda + 2real * mu) / (lambda + mu),
        nu == lambda / (2real * (lambda + mu)),
        a * (lambda + 2real * mu) + b * lambda + c * lambda == 1real,
        a * lambda + b * (lambda + 2real * mu) + c * lambda == 0real,
        a * lambda + b * lambda + c * (lambda + 2real * mu) == 0real,
    ensures
        a * e == 1real,
        (0real - b) * e == nu,
{
    let l = lambda + mu;
    let x = mu * (3real * lambda + 2real * mu);
    assert(e * l == x) by (nonlinear_arith)
        requires
            e == x / l,
            l > 0real,
    ;
    assert(nu * (2real * l) == lambda) by (nonlinear_arith)
        requires
            nu == lambda / (2real * l),
            l > 0real,
    ;
    let la = a * lambda;
    let lb = b * lambda;
    let lc = c * lambda;
    let ma = a * mu;
    let mb = b * mu;
    let mc = c * mu;
    assert(a * (lambda + 2real * mu) == la + 2real * ma) by (nonlinear_arith)
        requires
            la == a * lambda,
            ma == a * mu,
    ;
    assert(b * (lambda + 2real * mu) == lb + 2real * mb) by (nonlinear_arith)
        requires
            lb == b * lambda,
            mb == b * mu,
    ;
    assert(c * (lambda + 2real * mu) == lc + 2real * mc) by (nonlinear_arith)
        requires
            lc == c * lambda,
            mc == c * mu,
    ;
    assert(mb == mc);
    assert(b == c) by (nonlinear_arith)
        requires
            b * mu == c * mu,
            mu > 0real,
    ;
    assert(2real * ma - 2real * mb == 1real);
    assert(la + 2real * lb + 2real * mb == 0real);
    // The first equation times `l`, and the second times `mu`.
    assert(2real * (ma * l) - 2real * (mb * l) == l) by (nonlinear_arith)
        requires
            2real * ma - 2real * mb == 1real,
    ;
    assert(la * mu + 2real * (lb * mu) + 2real * (mb * mu) == 0real) by (nonlinear_arith)
        requires
            la + 2real * lb + 2real * mb == 0real,
    ;
    assert(lb * mu == mb * lambda) by (nonlinear_arith)
        requires
            lb == b * lambda,
            mb == b * mu,
    ;
    assert(mb * l == mb * lambda + mb * mu) by (nonlinear_arith)
        requires
            l == lambda + mu,
    ;
    assert(la * mu == ma * lambda) by (nonlinear_arith)
        requires
            la == a * lambda,
            ma == a * mu,
    ;
    assert(2real * (ma * l) + ma * lambda == l);
    assert(ma * l == ma * lambda + ma * mu) by (nonlinear_arith)
        requires
            l == lambda + mu,
    ;
    let k = 3real * lambda + 2real * mu;
    assert(ma * k == 3real * (ma * lambda) + 2real * (ma * mu)) by (nonlinear_arith)
        requires
            k == 3real * lambda + 2real * mu,
    ;
    assert(ma * k == l);
    assert(a * x == ma * k) by (nonlinear_arith)
        requires
            x == mu * k,
            ma == a * mu,
    ;
    assert(a * (e * l) == (a * e) * l) by (nonlinear_arith);
    assert(a * e == 1real) by (nonlinear_arith)
        requires
            (a * e) * l == l,
            l > 0real,
    ;
    assert(2real * (b * l) == 0real - la) by (nonlinear_arith)
        requires
            la + 2real * lb + 2real * mb == 0real,
            lb == b * lambda,
            mb == b * mu,
            l == lambda + mu,
    ;
    assert((2real * (b * l)) * e == (0real - la) * e) by (nonlinear_arith)
        requires
            2real * (b * l) == 0real - la,
    ;
    assert((0real - la) * e == 0real - (a * e) * lambda) by (nonlinear_arith)
        requires
            la == a * lambda,
    ;
    assert((a * e) * lambda == lambda) by (nonlinear_arith)
        requires
            a * e == 1real,
    ;
    let d = (0real - b) * e;
    assert(d * (2real * l) == 0real - (2real * (b * l)) * e) by (nonlinear_arith)
        requires
            d == (0real - b) * e,
    ;
    assert(d == nu) by (nonlinear_arith)
        requires
            d * (2real * l) == nu * (2real * l),
            l > 0real,
    ;
}

/// In exact arithmetic the constants that are reported for the stiffness of an isotropic material
/// are those that were entered for it; its Zener ratio is one where its shear coefficient is the
/// shear modulus.
pub proof fn moduli_give_constants_back(e: real, nu: real, shear: real, s: Seq<Seq<real>>)
    requires
        e > 0real,
        nu > -1real,
        2real * nu < 1real,
        // `s` is the inverse of the stiffness, of which its first row is enough.
        forall|j: int|
            0 <= j < 6 ==> #[trigger] dot(
                s[0],
                column(isotropic_stiffness(lambda_of(e, nu), mu_of(e, nu), shear), j),
            ) == if j == 0 {
                1real
            } else {
                0real
            },
    ensures
        young(s) == e,
        poisson(s) == nu,
        shear == mu_of(e, nu) ==> zener_ratio(
            isotropic_stiffness(lambda_of(e, nu), mu_of(e, nu), shear),
        ) == 1real,
{
    let lambda = lambda_of(e, nu);
    let mu = mu_of(e, nu);
    lame_determines_constants(e, nu);
    let m = isotropic_stiffness(lambda, mu, shear);
    let a = s[0][0];
    let b = s[0][1];
    let c = s[0][2];
    lemma_times_units(s[0][3]);
    lemma_times_units(s[0][4]);
    lemma_times_units(s[0][5]);
    let d = lambda + 2real * mu;
    assert(dot(s[0], column(m, 0)) == 1real);
    assert(dot(s[0], column(m, 1)) == 0real);
    assert(dot(s[0], column(m, 2)) == 0real);
    assert(real_times(a, d) + real_times(b, lambda) + real_times(c, lambda) == 1real);
    assert(real_times(a, lambda) + real_times(b, d) + real_times(c, lambda) == 0real);
    assert(real_times(a, lambda) + real_times(b, lambda) + real_times(c, d) == 0real);
    assert(a * e == 1real && (0real - b) * e == nu) by {
        reveal(real_times);
        lemma_first_row(a, b, c, lambda, mu, e, nu);
    }
    assert(real_over(1real, a) == e) by {
        reveal(real_over);
        assert(1real / a == e) by (nonlinear_arith)
            requires
                a * e == 1real,
        ;
    }
    assert(poisson(s) == nu) by {
        reveal(real_times);
    }
    if shear == mu {
        let two_mu = m[0][0] - m[0][1];
        assert(two_mu == 2real * mu);
        assert(real_times(2real, mu) == two_mu) by {
            reveal(real_times);
        }
        lemma_over_times(two_mu, two_mu);
    }
}

} // verus!
