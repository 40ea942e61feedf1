//! What is saved of a run.
use crate::clock::{
    has_no_slash, is_readable_time, is_timestamp, readable_time, timestamp,
};
use crate::double::Double;
use crate::pipeline::SimulationModes;
use crate::postproc::inverse::{rows, Matrix};
use crate::postproc::moduli::ElasticModuli;
use crate::text::{align_right, join, joined, lemma_texts_push, right_aligned, texts};
use crate::writing::{write_number, writer, writes};
use vstd::prelude::*;

verus! {

/// The cells of a row.
pub open spec fn cells(row: Seq<Double>, show: spec_fn(Double) -> Seq<char>) -> Seq<Seq<char>> {
    row.map_values(|v: Double| right_aligned(show(v), 10))
}

/// The first `k` rows of a matrix, a line for each.
pub open spec fn matrix_lines(
    m: Seq<Seq<Double>>,
    k: nat,
    show: spec_fn(Double) -> Seq<char>,
) -> Seq<char>
    decreases k,
{
    if k == 0 {
        Seq::empty()
    } else {
        matrix_lines(m, (k - 1) as nat, show) + (join(cells(m[k - 1], show), " "@) + "\n"@)
    }
}

/// A matrix under its title.
pub open spec fn matrix_text(
    title: Seq<char>,
    m: Seq<Seq<Double>>,
    show: spec_fn(Double) -> Seq<char>,
) -> Seq<char> {
    title + ":\n"@ + matrix_lines(m, m.len(), show)
}

/// Writes a matrix under its title, its entries in columns of ten characters.
pub fn format_matrix<S: Fn(Double) -> String>(title: &str, m: &Matrix, show: &S) -> (r: String)
    requires
        writes(*show),
    ensures
        r@ == matrix_text(title@, rows(*m), writer(*show)),
{
    let mut r: String = title.to_owned();
    r.append(":\n");
    let mut body: String = String::new();
    let mut i: usize = 0;
    while i < 6
        invariant
            writes(*show),
            i <= 6,
            body@ == matrix_lines(rows(*m), i as nat, writer(*show)),
        decreases 6 - i,
    {
        let mut list: Vec<String> = Vec::new();
        let ghost row = rows(*m)[i as int];
        let mut j: usize = 0;
        assert(texts(list@) =~= cells(row.take(0), writer(*show)));
        while j < 6
            invariant
                writes(*show),
                i < 6,
                j <= 6,
                row == rows(*m)[i as int],
                texts(list@) == cells(row.take(j as int), writer(*show)),
            decreases 6 - j,
        {
            let ghost before = list@;
            let cell: String = align_right(write_number(show, m[i][j]).as_str(), 10);
            list.push(cell);
            j += 1;
            proof {
                lemma_texts_push(before, cell);
                assert(cells(row.take(j as int), writer(*show)) =~= cells(
                    row.take(j - 1),
                    writer(*show),
                ).push(cell@));
            }
        }
        assert(row.take(6) =~= row);
        let mut line: String = joined(&list, " ");
        line.append("\n");
        body.append(line.as_str());
        i += 1;
    }
    r.append(body.as_str());
    r
}

/// What is saved of a run, beside the files that the solver wrote.
pub struct SaveInput {
    pub name: String,
    pub simulation_mode: SimulationModes,
    /// The elastic constants, or why there are none; nothing where the run did not complete.
    pub moduli: Option<Result<ElasticModuli, String>>,
    pub log: Vec<String>,
}

/// What the summary says of the elastic constants.
pub open spec fn moduli_text(
    moduli: Option<Result<ElasticModuli, String>>,
    show: spec_fn(Double) -> Seq<char>,
) -> Seq<char> {
    match moduli {
        Some(Ok(m)) => matrix_text("Stiffness matrix C"@, rows(m.c), show) + "\n"@ + matrix_text(
            "Compliance matrix S"@,
            rows(m.s),
            show,
        ) + "\n"@ + "E       = "@ + show(m.e) + "\n"@ + "nu      = "@ + show(m.nu) + "\n"@
            + "G       = "@ + show(m.g) + "\n"@ + "Zener A = "@ + show(m.zener) + "\n"@,
        Some(Err(error)) => "Homogenization failed: "@ + error@ + "\n"@,
        None => "Run did not complete.\n"@,
    }
}

/// The summary of a run that is saved at the time `saved`.
pub open spec fn summary_text(
    input: SaveInput,
    saved: Seq<char>,
    show: spec_fn(Double) -> Seq<char>,
) -> Seq<char> {
    "Simulation: "@ + input.name@ + "\n"@ + "Type: "@ + input.simulation_mode.title() + "\n"@
        + "Saved: "@ + saved + "\n\n"@ + moduli_text(input.moduli, show)
}

fn write_moduli<S: Fn(Double) -> String>(
    moduli: &Option<Result<ElasticModuli, String>>,
    show: &S,
) -> (r: String)
    requires
        writes(*show),
    ensures
        r@ == moduli_text(*moduli, writer(*show)),
{
    match moduli {
        Some(Ok(m)) => {
            let mut out: String = format_matrix("Stiffness matrix C", &m.c, show);
            out.append("\n");
            out.append(format_matrix("Compliance matrix S", &m.s, show).as_str());
            out.append("\n");
            out.append("E       = ");
            out.append(write_number(show, m.e).as_str());
            out.append("\n");
            out.append("nu      = ");
            out.append(write_number(show, m.nu).as_str());
            out.append("\n");
            out.append("G       = ");
            out.append(write_number(show, m.g).as_str());
            out.append("\n");
            out.append("Zener A = ");
            out.append(write_number(show, m.zener).as_str());
            out.append("\n");
            out
        },
        Some(Err(error)) => {
            let mut out: String = "Homogenization failed: ".to_owned();
            out.append(error.as_str());
            out.append("\n");
            out
        },
        None => "Run did not complete.\n".to_owned(),
    }
}

/// Writes the summary of a run that is saved at the time `saved`.
pub fn summary_at<S: Fn(Double) -> String>(input: &SaveInput, saved: &str, show: &S) -> (r:
    String)
    requires
        writes(*show),
    ensures
        r@ == summary_text(*input, saved@, writer(*show)),
{
    let mut out: String = "Simulation: ".to_owned();
    out.append(input.name.as_str());
    out.append("\n");
    out.append("Type: ");
    out.append(input.simulation_mode.label());
    out.append("\n");
    out.append("Saved: ");
    out.append(saved);
    out.append("\n\n");
    out.append(write_moduli(&input.moduli, show).as_str());
    out
}

/// Writes the summary of a run that is saved now.
pub fn build_summary<S: Fn(Double) -> String>(input: &SaveInput, show: &S) -> (r: String)
    requires
        writes(*show),
    ensures
        exists|saved: Seq<char>|
            is_readable_time(saved) && r@ == #[trigger] summary_text(
                *input,
                saved,
                writer(*show),
            ),
{
    let saved: String = readable_time();
    summary_at(input, saved.as_str(), show)
}

/// The name of the folder for a run that is saved at the time `time`.
pub open spec fn folder_text(name: Seq<char>, time: Seq<char>) -> Seq<char> {
    name + "_"@ + time
}

/// The name of the folder for a run that is saved at the time `time`.
pub fn folder_name_at(name: &str, time: &str) -> (r: String)
    ensures
        r@ == folder_text(name@, time@),
{
    let mut r: String = name.to_owned();
    r.append("_");
    r.append(time);
    r
}

/// The name of the folder for a run that is saved now.
pub fn folder_name(name: &str) -> (r: String)
    ensures
        exists|time: Seq<char>|
            has_no_slash(time) && is_timestamp(time) && r@ == #[trigger] folder_text(name@, time),
{
    let time: String = timestamp();
    folder_name_at(name, time.as_str())
}

/// Why a run could not be saved.
#[derive(Debug)]
pub enum SaveError {
    Creating { path: String },
    Copying { from: String, to: String },
    Writing { path: String },
}

impl SaveError {
    /// Says what failed.
    pub fn message(&self) -> (r: String)
        ensures
            r@ == match *self {
                SaveError::Creating { path } => "creating "@ + path@,
                SaveError::Copying { from, to } => "copying "@ + from@ + " to "@ + to@,
                SaveError::Writing { path } => "writing "@ + path@,
            },
    {
        match self {
            SaveError::Creating { path } => {
                let mut r: String = "creating ".to_owned();
                r.append(path.as_str());
                r
            },
            SaveError::Copying { from, to } => {
                let mut r: String = "copying ".to_owned();
                r.append(from.as_str());
                r.append(" to ");
                r.append(to.as_str());
                r
            },
            SaveError::Writing { path } => {
                let mut r: String = "writing ".to_owned();
                r.append(path.as_str());
                r
            },
        }
    }
}

/// A file to be written: its name, and what it holds.
pub struct NamedText {
    pub name: String,
    pub contents: String,
}

/// The files that are saved beside those of the solver, in the order in which they are written:
/// the log, and the summary.
pub fn saved_files<S: Fn(Double) -> String>(input: &SaveInput, show: &S) -> (r: (
    NamedText,
    NamedText,
))
    requires
        writes(*show),
    ensures
        r.0.name@ == "gui_log.txt"@,
        r.0.contents@ == join(texts(input.log@), "\n"@),
        r.1.name@ == "summary.txt"@,
        exists|saved: Seq<char>|
            is_readable_time(saved) && r.1.contents@ == #[trigger] summary_text(
                *input,
                saved,
                writer(*show),
            ),
{
    (
        NamedText { name: "gui_log.txt".to_owned(), contents: joined(&input.log, "\n") },
        NamedText { name: "summary.txt".to_owned(), contents: build_summary(input, show) },
    )
}

} // verus!
