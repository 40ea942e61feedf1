//! What the summary of a run says.
use crate::clock::is_readable_time;
use crate::double::Double;
use crate::postproc::inverse::{rows, Matrix};
use crate::postproc::save::{
    cells, folder_name_at, format_matrix, matrix_lines, saved_files, summary_at, summary_text,
    NamedText, SaveError, SaveInput,
};
use crate::text::{join, joined, right_aligned, spaces};
use crate::writing::{shown, writer, writes};
use vstd::prelude::*;

verus! {

/// A text is aligned to the right by spaces before it, as many as it lacks.
pub proof fn alignment_adds_spaces(s: Seq<char>, width: int)
    requires
        0 <= width,
    ensures
        s.len() >= width ==> right_aligned(s, width) == s,
        s.len() < width ==> right_aligned(s, width).len() == width && right_aligned(s, width).skip(
            width - s.len(),
        ) == s && forall|i: int|
            0 <= i < width - s.len() ==> #[trigger] right_aligned(s, width)[i] == ' ',
{
    if s.len() < width {
        let n = width - s.len();
        lemma_spaces(n);
        assert(right_aligned(s, width) =~= spaces(n) + s);
        assert(right_aligned(s, width).skip(n) =~= s);
    } else {
        lemma_spaces(width - s.len());
        assert(right_aligned(s, width) =~= s);
    }
}

proof fn lemma_spaces(n: int)
    ensures
        n > 0 ==> spaces(n).len() == n,
        n <= 0 ==> spaces(n).len() == 0,
        forall|i: int| 0 <= i < spaces(n).len() ==> #[trigger] spaces(n)[i] == ' ',
    decreases n,
{
    if n > 0 {
        lemma_spaces(n - 1);
    }
}

/// A row of six cells with spaces between them.
proof fn lemma_row(row: Seq<Double>, show: spec_fn(Double) -> Seq<char>)
    requires
        row.len() == 6,
    ensures
        join(cells(row, show), " "@) == right_aligned(show(row[0]), 10) + " "@ + right_aligned(
            show(row[1]),
            10,
        ) + " "@ + right_aligned(show(row[2]), 10) + " "@ + right_aligned(show(row[3]), 10) + " "@
            + right_aligned(show(row[4]), 10) + " "@ + right_aligned(show(row[5]), 10),
{
    let c = cells(row, show);
    let c5 = c.drop_last();
    let c4 = c5.drop_last();
    let c3 = c4.drop_last();
    let c2 = c3.drop_last();
    let c1 = c2.drop_last();
    assert(join(c1, " "@) == c1[0]);
    assert(join(c2, " "@) == join(c1, " "@) + " "@ + c2.last());
    assert(join(c3, " "@) == join(c2, " "@) + " "@ + c3.last());
    assert(join(c4, " "@) == join(c3, " "@) + " "@ + c4.last());
    assert(join(c5, " "@) == join(c4, " "@) + " "@ + c5.last());
}

/// A row of a matrix, as it is written.
pub open spec fn row_text<S: Fn(Double) -> String>(row: [Double; 6], show: S) -> Seq<char> {
    right_aligned(shown(show, row[0]), 10) + " "@ + right_aligned(shown(show, row[1]), 10) + " "@
        + right_aligned(shown(show, row[2]), 10) + " "@ + right_aligned(shown(show, row[3]), 10)
        + " "@ + right_aligned(shown(show, row[4]), 10) + " "@ + right_aligned(
        shown(show, row[5]),
        10,
    ) + "\n"@
}

/// A matrix is written row by row under its title, each row with its six entries in their order.
pub proof fn matrix_is_written_row_by_row<S: Fn(Double) -> String>(
    title: &str,
    m: Matrix,
    show: S,
    r: String,
)
    requires
        writes(show),
        call_ensures(format_matrix::<S>, (title, &m, &show), r),
    ensures
        r@ == title@ + ":\n"@ + (row_text(m[0], show) + row_text(m[1], show) + row_text(m[2], show)
            + row_text(m[3], show) + row_text(m[4], show) + row_text(m[5], show)),
{
    let w = writer(show);
    let all = rows(m);
    assert(all.len() == 6);
    assert forall|i: int| 0 <= i < 6 implies join(cells(#[trigger] all[i], w), " "@) + "\n"@
        == row_text(m[i], show) by {
        assert(all[i] == m@[i]@);
        lemma_row(all[i], w);
    }
    assert(all[0] == m@[0]@ && all[1] == m@[1]@ && all[2] == m@[2]@ && all[3] == m@[3]@ && all[4]
        == m@[4]@ && all[5] == m@[5]@);
    let e = Seq::<char>::empty();
    assert(matrix_lines(all, 0, w) == e);
    assert(matrix_lines(all, 1, w) == e + row_text(m[0], show));
    assert(matrix_lines(all, 2, w) == matrix_lines(all, 1, w) + row_text(m[1], show));
    assert(matrix_lines(all, 3, w) == matrix_lines(all, 2, w) + row_text(m[2], show));
    assert(matrix_lines(all, 4, w) == matrix_lines(all, 3, w) + row_text(m[3], show));
    assert(matrix_lines(all, 5, w) == matrix_lines(all, 4, w) + row_text(m[4], show));
    assert(matrix_lines(all, 6, w) == matrix_lines(all, 5, w) + row_text(m[5], show));
    assert(e + row_text(m[0], show) =~= row_text(m[0], show));
}

/// The summary names the run, its kind and the time, and holds the stiffness, the compliance and
/// the four constants, each under its own name; or why there are none.
pub proof fn summary_tells_the_results<S: Fn(Double) -> String>(
    input: SaveInput,
    saved: &str,
    show: S,
    r: String,
    stiffness_title: &str,
    compliance_title: &str,
    stiffness: String,
    compliance: String,
)
    requires
        writes(show),
        call_ensures(summary_at::<S>, (&input, saved, &show), r),
        stiffness_title@ == "Stiffness matrix C"@,
        compliance_title@ == "Compliance matrix S"@,
        input.moduli matches Some(Ok(m)) ==> call_ensures(
            format_matrix::<S>,
            (stiffness_title, &m.c, &show),
            stiffness,
        ) && call_ensures(format_matrix::<S>, (compliance_title, &m.s, &show), compliance),
    ensures
        ({
            let head = "Simulation: "@ + input.name@ + "\n"@ + "Type: "@ + "Elastic homogenization"@
                + "\n"@ + "Saved: "@ + saved@ + "\n\n"@;
            r@ == head + (match input.moduli {
                Some(Ok(m)) => stiffness@ + "\n"@ + compliance@ + "\n"@ + "E       = "@ + shown(
                    show,
                    m.e,
                ) + "\n"@ + "nu      = "@ + shown(show, m.nu) + "\n"@ + "G       = "@ + shown(
                    show,
                    m.g,
                ) + "\n"@ + "Zener A = "@ + shown(show, m.zener) + "\n"@,
                Some(Err(error)) => "Homogenization failed: "@ + error@ + "\n"@,
                None => "Run did not complete.\n"@,
            })
        }),
{
}

/// The folder of a saved run has the run's name and the time.
pub proof fn folder_has_the_name_and_time(name: &str, time: &str, r: String)
    requires
        call_ensures(folder_name_at, (name, time), r),
    ensures
        r@ == name@ + "_"@ + time@,
{
}

/// Beside the files of the solver the log is saved, line by line, and the summary with the time at
/// which it was saved.
pub proof fn log_and_summary_are_saved<S: Fn(Double) -> String>(
    input: SaveInput,
    show: S,
    r: (NamedText, NamedText),
    sep: &str,
    log: String,
)
    requires
        writes(show),
        sep@ == "\n"@,
        call_ensures(saved_files::<S>, (&input, &show), r),
        call_ensures(joined, (&input.log, sep), log),
    ensures
        r.0.name@ == "gui_log.txt"@,
        r.0.contents@ == log@,
        r.1.name@ == "summary.txt"@,
        exists|saved: Seq<char>|
            #[trigger] is_readable_time(saved) && r.1.contents@ == summary_text(
                input,
                saved,
                writer(show),
            ),
{
}

/// What failed in saving is told with the paths that it concerns.
pub proof fn saving_errors_name_the_paths(error: SaveError, r: String)
    requires
        call_ensures(SaveError::message, (&error,), r),
    ensures
        match error {
            SaveError::Creating { path } => r@ == "creating "@ + path@,
            SaveError::Copying { from, to } => r@ == "copying "@ + from@ + " to "@ + to@,
            SaveError::Writing { path } => r@ == "writing "@ + path@,
        },
{
}

} // verus!
