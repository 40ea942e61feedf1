//! The texts in which results are shown.
use crate::double::Double;
use crate::gui::run_state::CaseStatus;
use crate::postproc::inverse::{rows, Matrix};
use crate::postproc::moduli::ElasticModuli;
use crate::text::{align_right, right_aligned, texts};
use crate::writing::{write_number, writer, writes};
use vstd::prelude::*;

verus! {

/// A case and its status.
pub fn case_text(label: &str, status: CaseStatus) -> (r: String)
    ensures
        r@ == label@ + ": "@ + status.text(),
{
    let mut r: String = label.to_owned();
    r.append(": ");
    r.append(status.label());
    r
}

/// The lines that show the elastic constants.
pub open spec fn constant_lines(m: ElasticModuli, show: spec_fn(Double) -> Seq<char>) -> Seq<
    Seq<char>,
> {
    seq![
        "E = "@ + show(m.e),
        "nu = "@ + show(m.nu),
        "G = "@ + show(m.g),
        "Zener A = "@ + show(m.zener),
    ]
}

fn labelled<S: Fn(Double) -> String>(label: &str, v: Double, show: &S) -> (r: String)
    requires
        writes(*show),
    ensures
        r@ == label@ + writer(*show)(v),
{
    let mut r: String = label.to_owned();
    r.append(write_number(show, v).as_str());
    r
}

/// The lines that show the elastic constants.
pub fn moduli_lines<S: Fn(Double) -> String>(m: &ElasticModuli, show: &S) -> (r: Vec<String>)
    requires
        writes(*show),
    ensures
        texts(r@) == constant_lines(*m, writer(*show)),
{
    let r: Vec<String> = vec![
        labelled("E = ", m.e, show),
        labelled("nu = ", m.nu, show),
        labelled("G = ", m.g, show),
        labelled("Zener A = ", m.zener, show),
    ];
    assert(texts(r@) =~= constant_lines(*m, writer(*show)));
    r
}

/// The cells that show a matrix, row by row, nine characters wide.
pub open spec fn matrix_cell(v: Double, show: spec_fn(Double) -> Seq<char>) -> Seq<char> {
    right_aligned(show(v), 9)
}

/// The cell that shows an entry of a matrix.
pub fn render_matrix<S: Fn(Double) -> String>(m: &Matrix, row: usize, col: usize, show: &S) -> (r:
    String)
    requires
        writes(*show),
        row < 6,
        col < 6,
    ensures
        r@ == matrix_cell(rows(*m)[row as int][col as int], writer(*show)),
{
    align_right(write_number(show, m[row][col]).as_str(), 9)
}

/// What is said where there are no elastic constants.
pub fn failure_text(error: &str) -> (r: String)
    ensures
        r@ == "Homogenization failed: "@ + error@,
{
    let mut r: String = "Homogenization failed: ".to_owned();
    r.append(error);
    r
}

/// What is said of the attempt to save a run.
pub fn save_text(result: &Result<String, String>) -> (r: String)
    ensures
        r@ == match *result {
            Ok(path) => "Saved to "@ + path@,
            Err(error) => "Save failed: "@ + error@,
        },
{
    match result {
        Ok(path) => {
            let mut r: String = "Saved to ".to_owned();
            r.append(path.as_str());
            r
        },
        Err(error) => {
            let mut r: String = "Save failed: ".to_owned();
            r.append(error.as_str());
            r
        },
    }
}

} // verus!
