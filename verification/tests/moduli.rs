use amitex_gui::double::Double;
use amitex_gui::pipeline::SimulationModes;
use amitex_gui::postproc::inverse::{invert_6x6, InverseError, Matrix};
use amitex_gui::postproc::moduli::{
    compute_moduli, moduli_of, parse_std_file, ElasticModuli, ModuliError, StdFile,
};
use amitex_gui::postproc::save::{
    build_summary, folder_name, folder_name_at, format_matrix, saved_files, summary_at, SaveError,
    SaveInput,
};
use amitex_gui::postproc::vonmises::von_mises;
use amitex_gui::preproc::materials::IsotropicCoeffs;

fn d(x: f64) -> Double {
    Double { bits: x.to_bits() }
}

fn f(x: Double) -> f64 {
    f64::from_bits(x.bits)
}

fn parse(s: &str) -> Result<Double, String> {
    s.parse::<f64>().map(|x| Double { bits: x.to_bits() }).map_err(|e| e.to_string())
}

fn four(v: Double) -> String {
    format!("{:.4}", f64::from_bits(v.bits))
}

fn matrix(m: [[f64; 6]; 6]) -> Matrix {
    m.map(|row| row.map(d))
}

fn plain(m: Matrix) -> [[f64; 6]; 6] {
    m.map(|row| row.map(f))
}

fn isotropic(lambda: f64, mu: f64) -> [[f64; 6]; 6] {
    let mut c = [[0.0; 6]; 6];
    for i in 0..3 {
        for j in 0..3 {
            c[i][j] = lambda;
        }
        c[i][i] = lambda + 2.0 * mu;
        c[i + 3][i + 3] = mu;
    }
    c
}

/// The elimination on the machine's own numbers.
fn invert(m: &[[f64; 6]; 6]) -> Option<[[f64; 6]; 6]> {
    let mut a = *m;
    let mut inv = [[0.0; 6]; 6];
    for i in 0..6 {
        inv[i][i] = 1.0;
    }
    for col in 0..6 {
        let p = (col..6).max_by(|&r, &s| a[r][col].abs().partial_cmp(&a[s][col].abs()).unwrap())?;
        if a[p][col].abs() < 1e-14 {
            return None;
        }
        a.swap(col, p);
        inv.swap(col, p);
        let pivot = a[col][col];
        for j in 0..6 {
            a[col][j] /= pivot;
            inv[col][j] /= pivot;
        }
        for row in 0..6 {
            if row != col {
                let factor = a[row][col];
                for j in 0..6 {
                    a[row][j] -= factor * a[col][j];
                    inv[row][j] -= factor * inv[col][j];
                }
            }
        }
    }
    Some(inv)
}

#[test]
fn inverses_are_those_of_the_machine() {
    let mut x: u64 = 12345;
    for _ in 0..200 {
        let mut m = [[0.0; 6]; 6];
        for row in &mut m {
            for v in row.iter_mut() {
                x = x.wrapping_mul(6364136223846793005).wrapping_add(1442695040888963407);
                *v = ((x >> 33) % 2001) as f64 / 100.0 - 10.0;
            }
        }
        match (invert_6x6(&matrix(m)), invert(&m)) {
            (Ok(a), Some(b)) => {
                assert_eq!(plain(a).map(|r| r.map(f64::to_bits)), b.map(|r| r.map(f64::to_bits)));
                // The product is near the identity.
                for i in 0..6 {
                    for j in 0..6 {
                        let sum: f64 = (0..6).map(|k| b[i][k] * m[k][j]).sum();
                        assert!((sum - if i == j { 1.0 } else { 0.0 }).abs() < 1e-6);
                    }
                }
            }
            (Err(_), None) => {}
            _ => panic!("one of the two has no inverse"),
        }
    }
}

#[test]
fn singular_matrices_are_refused() {
    let mut m = isotropic(1.0, 1.0);
    m[4] = [0.0; 6];
    assert_eq!(invert_6x6(&matrix(m)), Err(InverseError::Singular { column: 4 }));
    m[4][4] = 1e-15;
    assert_eq!(invert_6x6(&matrix(m)), Err(InverseError::Singular { column: 4 }));
    m[4][4] = f64::NAN;
    assert_eq!(invert_6x6(&matrix(m)), Err(InverseError::NotANumber { column: 4 }));
    m[4][4] = 1.0;
    m[5][5] = f64::NAN;
    // The last column has no choice of a row, so nothing is compared.
    assert!(invert_6x6(&matrix(m)).is_ok());
}

#[test]
fn constants_come_back() {
    let (e, nu) = (210.0, 0.3);
    let lambda = e * nu / ((1.0 + nu) * (1.0 - 2.0 * nu));
    let mu = e / (2.0 * (1.0 + nu));
    let m = moduli_of(matrix(isotropic(lambda, mu))).unwrap_or_else(|_| panic!("singular"));
    assert!((f(m.e) - e).abs() < 1e-9);
    assert!((f(m.nu) - nu).abs() < 1e-12);
    assert_eq!(f(m.g), mu);
    assert!((f(m.zener) - 1.0).abs() < 1e-12);
}

#[test]
fn constants_come_back_to_nine_digits() {
    for e in [1.0, 3.0, 210.0, 70_000.5, 1_000_000.0] {
        for nu in [-0.5, -0.2, 0.0, 0.1, 0.3, 0.45] {
            let (lambda, mu) = IsotropicCoeffs::lame_one(d(e), d(nu));
            let c = isotropic(f(lambda), f(mu));
            let m = moduli_of(matrix(c)).unwrap_or_else(|_| panic!("singular"));
            assert!((f(m.e) - e).abs() <= 1e-9 * e, "{e} {nu}");
            assert!((f(m.nu) - nu).abs() <= 1e-9, "{e} {nu}");
            assert_eq!(m.g.bits, mu.bits);
            assert!((f(m.zener) - 1.0).abs() <= 1e-9, "{e} {nu}");
        }
    }
}

#[test]
fn isotropic_stiffness_is_inverted() {
    for (a, b, g) in [
        (1.0, 0.82, 0.125),
        (1.0, -0.34, 0.75),
        (0.5, 0.0, 16_777_216.0),
        (282.7, 121.15, 80.77),
        (16_777_216.0, 13_000_000.0, 3.0),
    ] {
        let mut c = isotropic(b, g);
        for i in 0..3 {
            c[i][i] = a;
        }
        let inv = plain(invert_6x6(&matrix(c)).unwrap_or_else(|_| panic!("singular")));
        for r in 0..6 {
            for j in 0..6 {
                let sum: f64 = (0..6).map(|k| inv[r][k] * c[k][j]).sum();
                let expected = if r == j { 1.0 } else { 0.0 };
                assert!((sum - expected).abs() <= 1e-9, "{a} {b} {g} {r} {j}");
            }
        }
    }
}

#[test]
fn well_conditioned_matrices_are_inverted() {
    let mut state: u64 = 17;
    let mut next = || {
        state = state.wrapping_mul(6364136223846793005).wrapping_add(1442695040888963407);
        (state >> 11) as f64 / (1u64 << 53) as f64 - 0.5
    };
    for round in 0..200 {
        let scale = 2f64.powi(round % 40 - 20);
        let mut m = [[0.0; 6]; 6];
        for i in 0..6 {
            for j in 0..6 {
                // The large entries stand off the diagonal, so that rows are exchanged.
                let large = if (i + 1) % 6 == j { 1.0 } else { 0.0 };
                m[i][j] = scale * (large + 0.2 * next());
            }
        }
        let inv = plain(invert_6x6(&matrix(m)).unwrap_or_else(|_| panic!("singular")));
        let largest = m.iter().flatten().fold(0.0f64, |x, y| x.max(y.abs()));
        let sum = inv.iter().map(|r| r.iter().map(|x| x.abs()).sum::<f64>()).fold(0.0, f64::max);
        assert!(largest * sum <= 50.0);
        let close = largest * sum <= 4.0;
        for r in 0..6 {
            for j in 0..6 {
                let one = if r == j { 1.0 } else { 0.0 };
                let left: f64 = (0..6).map(|k| inv[r][k] * m[k][j]).sum();
                let right: f64 = (0..6).map(|k| m[r][k] * inv[k][j]).sum();
                assert!((left - one).abs() <= if close { 1e-9 } else { 1e-7 }, "{round}");
                assert!((right - one).abs() <= if close { 2.5e-7 } else { 3e-4 }, "{round}");
            }
        }
    }
}

fn result_file(row: &str) -> String {
    format!("# 1\n# 2\n# 3\n# 4\n# 5\n# 6\n0 1 1 1 1 1 1 1\n\n{row}\n  \n")
}

fn files(c: [[f64; 6]; 6]) -> Vec<StdFile> {
    (0..6)
        .map(|j| {
            let row: Vec<String> = (0..6).map(|i| format!("{}", c[i][j])).collect();
            StdFile {
                path: format!("{j}.std"),
                contents: Ok(result_file(&format!("1.0 {} 99", row.join(" ")))),
            }
        })
        .collect()
}

#[test]
fn moduli_come_from_the_last_rows() {
    let c = isotropic(2.0, 3.0);
    let m = match compute_moduli(&files(c), &parse) {
        Ok(m) => m,
        Err(e) => panic!("{}", e.message()),
    };
    assert_eq!(plain(m.c), c);
    assert_eq!(plain(m.s), invert(&c).unwrap());
    let s = plain(m.s);
    assert_eq!(f(m.e), 1.0 / s[0][0]);
    assert_eq!(f(m.nu), -s[0][1] * (1.0 / s[0][0]));
    assert_eq!(f(m.g), 3.0);
    assert_eq!(f(m.zener), 2.0 * 3.0 / (8.0 - 2.0));
}

#[test]
fn rows_are_read_after_the_header() {
    let rows = parse_std_file(&result_file("1 2.5 -3e0"), &parse).unwrap();
    assert_eq!(rows.len(), 2);
    assert_eq!(rows[1], vec![d(1.0), d(2.5), d(-3.0)]);
    assert_eq!(parse_std_file("a\nb\nc\nd\ne\nf", &parse), Ok(Vec::new()));
    assert_eq!(parse_std_file("a\nb\nc\nd\ne\nf\nx", &parse), Err("invalid float literal".to_string()));
}

#[test]
fn faulty_results_are_reported() {
    let report = |place: usize, contents: Result<&str, &str>| {
        let mut list = files(isotropic(1.0, 1.0));
        list[place].contents = contents.map(str::to_string).map_err(str::to_string);
        match compute_moduli(&list, &parse) {
            Ok(_) => panic!("no error"),
            Err(e) => e.message(),
        }
    };
    assert_eq!(report(2, Err("gone")), "reading 2.std");
    assert_eq!(report(3, Ok("1\n2\n3\n4\n5\n6\n")), "3.std: no data rows");
    assert_eq!(report(0, Ok("1\n2\n3\n4\n5\n6\nx y")), "invalid float literal");
    assert_eq!(report(1, Ok("1\n2\n3\n4\n5\n6\n1 2 3")), "1.std: less than seven columns");
    assert_eq!(
        report(4, Ok(&result_file("1 0 0 0 0 0 0"))),
        "stiffness matrix is singular (or near-singular) at column 4"
    );
    assert_eq!(
        report(0, Ok(&result_file("1 NaN 0 0 0 0 0"))),
        "stiffness matrix holds no number at column 0"
    );
    let mut list = files(isotropic(1.0, 1.0));
    list[5].contents = Err("denied".to_string());
    match compute_moduli(&list, &parse) {
        Err(ModuliError::Unreadable { path, reason }) => {
            assert_eq!((path.as_str(), reason.as_str()), ("5.std", "denied"));
        }
        _ => panic!("no error"),
    }
}

#[test]
fn von_mises_stress_of_some_cells() {
    let cells = [
        [100.0, 0.0, 0.0, 0.0, 0.0, 0.0],
        [5.0, 5.0, 5.0, 0.0, 0.0, 0.0],
        [1.5, -2.25, 0.1, 3.0, -0.7, 12.0],
    ];
    let sig: [Vec<Double>; 6] = std::array::from_fn(|i| cells.iter().map(|c| d(c[i])).collect());
    let r: Vec<f64> = von_mises(&sig).into_iter().map(f).collect();
    // A single stress counts fully, a pressure not at all.
    assert_eq!(r[0], 100.0);
    assert_eq!(r[1], 0.0);
    let s = cells[2];
    let expected = (((s[0] - s[1]) * (s[0] - s[1])
        + (s[1] - s[2]) * (s[1] - s[2])
        + (s[2] - s[0]) * (s[2] - s[0])
        + 6.0 * (s[3] * s[3])
        + 6.0 * (s[4] * s[4])
        + 6.0 * (s[5] * s[5]))
        / 2.0)
        .sqrt();
    assert_eq!(r[2], expected);
}

#[test]
fn von_mises_stress_ignores_pressure_and_signs() {
    let mut x: u64 = 99;
    let mut next = || {
        x = x.wrapping_mul(6364136223846793005).wrapping_add(1442695040888963407);
        ((x >> 40) % 2_097_153) as f64 - 1_048_576.0
    };
    let cells: Vec<[f64; 6]> = (0..300).map(|_| std::array::from_fn(|_| next())).collect();
    let shifts: Vec<f64> = (0..300).map(|_| next()).collect();
    let stress = |cells: &Vec<[f64; 6]>| {
        let sig: [Vec<Double>; 6] =
            std::array::from_fn(|i| cells.iter().map(|c| d(c[i])).collect());
        von_mises(&sig)
    };
    let plain = stress(&cells);
    assert!(plain.iter().all(|v| f(*v) >= 0.0));
    let shifted = cells
        .iter()
        .zip(&shifts)
        .map(|(c, p)| [c[0] + p, c[1] + p, c[2] + p, c[3], c[4], c[5]])
        .collect();
    assert_eq!(stress(&shifted), plain);
    let turned = cells.iter().map(|c| c.map(|v| -v)).collect();
    assert_eq!(stress(&turned), plain);
    let reversed = cells.iter().rev().copied().collect();
    let mut backwards = stress(&reversed);
    backwards.reverse();
    assert_eq!(backwards, plain);
}

fn input(moduli: Option<Result<ElasticModuli, String>>) -> SaveInput {
    SaveInput {
        name: "run".to_string(),
        simulation_mode: SimulationModes::ElasticHomogenization,
        moduli,
        log: vec!["one".to_string(), "two".to_string()],
    }
}

#[test]
fn matrices_are_written_in_columns() {
    let mut m = [[0.0; 6]; 6];
    m[0] = [1.0, -2.5, 123456.78901, 0.00004, 1e9, f64::NAN];
    let mut expected = String::from("T:\n");
    for row in &m {
        let cells: Vec<String> = row.iter().map(|v| format!("{v:>10.4}")).collect();
        expected.push_str(&cells.join(" "));
        expected.push('\n');
    }
    assert_eq!(format_matrix("T", &matrix(m), &four), expected);
}

#[test]
fn summaries_tell_of_the_results() {
    let head = "Simulation: run\nType: Elastic homogenization\nSaved: now\n\n";
    assert_eq!(
        summary_at(&input(None), "now", &four),
        format!("{head}Run did not complete.\n")
    );
    assert_eq!(
        summary_at(&input(Some(Err("bad".to_string()))), "now", &four),
        format!("{head}Homogenization failed: bad\n")
    );
    let c = matrix(isotropic(2.0, 3.0));
    let m = moduli_of(c).unwrap_or_else(|_| panic!("singular"));
    let expected = format!(
        "{head}{}\n{}\nE       = {}\nnu      = {}\nG       = {}\nZener A = {}\n",
        format_matrix("Stiffness matrix C", &m.c, &four),
        format_matrix("Compliance matrix S", &m.s, &four),
        four(m.e),
        four(m.nu),
        four(m.g),
        four(m.zener)
    );
    assert_eq!(summary_at(&input(Some(Ok(m))), "now", &four), expected);
}

#[test]
fn summaries_tell_the_time() {
    let summary = build_summary(&input(None), &four);
    let year = chrono::Local::now().format("%Y-").to_string();
    assert!(summary.contains(&format!("\nSaved: {year}")));
    let line = summary.lines().nth(2).unwrap();
    let form: String = line.chars().skip(7).map(|c| if c.is_ascii_digit() { 'd' } else { c }).collect();
    assert_eq!(form, "dddd-dd-dd dd:dd:dd");
    assert!(summary.ends_with("\n\nRun did not complete.\n"));
}

#[test]
fn runs_are_saved_under_their_names() {
    assert_eq!(folder_name_at("run", "20260716-142000"), "run_20260716-142000");
    let folder = folder_name("run");
    let time = folder.strip_prefix("run_").unwrap();
    assert_eq!(time.len(), 15);
    assert!(time.chars().enumerate().all(|(i, c)| if i == 8 { c == '-' } else { c.is_ascii_digit() }));
    let (log, summary) = saved_files(&input(None), &four);
    assert_eq!((log.name.as_str(), log.contents.as_str()), ("gui_log.txt", "one\ntwo"));
    assert_eq!(summary.name, "summary.txt");
    assert!(summary.contents.ends_with("Run did not complete.\n"));
    assert_eq!(SaveError::Creating { path: "a".to_string() }.message(), "creating a");
    assert_eq!(
        SaveError::Copying { from: "a".to_string(), to: "b".to_string() }.message(),
        "copying a to b"
    );
    assert_eq!(SaveError::Writing { path: "a".to_string() }.message(), "writing a");
}
