//! What a run is started with.
use crate::double::Double;
use crate::gui::results::{moduli_lines, render_matrix};
use crate::gui::run_state::{shown_after, status_changes_one_case, CaseStatus, Display};
use crate::gui::start::{check_fields, start_run, RunFields, RunInputs, Start};
use crate::pipeline::paths::join_path;
use crate::pipeline::runner::RunEvent;
use crate::postproc::inverse::{rows, Matrix};
use crate::postproc::moduli::ElasticModuli;
use crate::text::{is_blank, right_aligned, texts, words};
use crate::writing::{shown, writes};
use vstd::prelude::*;

verus! {

/// The fields of a run are taken as they were entered, each for what it was entered for. None of
/// the five that are needed may be blank; a blank map of zones stands for none. The further
/// arguments are the words of their field.
pub proof fn fields_are_taken_as_entered(f: RunFields, r: Result<RunInputs, String>)
    requires
        call_ensures(check_fields, (&f,), r),
    ensures
        r is Ok <==> !is_blank(f.material_id_vtk@) && !is_blank(f.materials_xml@) && !is_blank(
            f.algorithm@,
        ) && !is_blank(f.env_script@) && !is_blank(f.mpirun_path@),
        r matches Ok(i) ==> {
            &&& i.material_id_vtk@ == f.material_id_vtk@
            &&& i.mat_xml@ == f.materials_xml@
            &&& i.algo_xml@ == f.algorithm@
            &&& i.env_script@ == f.env_script@
            &&& i.mpirun_path@ == f.mpirun_path@
            &&& i.zone_id_vtk is None <==> is_blank(f.zone_id_vtk@)
            &&& i.zone_id_vtk matches Some(zone) ==> zone@ == f.zone_id_vtk@
            &&& i.extra_args@.len() == words(f.extra_args@).len()
            &&& forall|k: int|
                0 <= k < i.extra_args@.len() ==> (#[trigger] i.extra_args@[k])@ == words(
                    f.extra_args@,
                )[k]
        },
{
    if let Ok(i) = r {
        let t = texts(i.extra_args@);
        assert(t.len() == i.extra_args@.len());
        assert forall|k: int| 0 <= k < i.extra_args@.len() implies (#[trigger] i.extra_args@[k])@
            == words(f.extra_args@)[k] by {
            assert(t[k] == i.extra_args@[k]@);
        }
    }
}

/// A run is launched with its inputs, the solver that was found, the environment of the script, and
/// a directory under the run's name among the runs of the user; and it is launched exactly where
/// the solver was found, nothing is in the way, and there is a place for the user's data.
pub proof fn runs_are_launched_with_their_inputs(
    inputs: RunInputs,
    name: &str,
    env: Vec<(String, String)>,
    amitex: Option<String>,
    problems: Vec<String>,
    data_dir: Option<String>,
    r: Start,
)
    requires
        call_ensures(start_run, (inputs, name, env, amitex, problems, data_dir), r),
    ensures
        r is Launch <==> amitex is Some && problems@.len() == 0 && data_dir is Some,
        r is Blocked <==> amitex is Some && problems@.len() > 0,
        r matches Start::Blocked { problems: told } ==> told@ == problems@,
        r matches Start::Launch { config } ==> {
            &&& config.material_id_vtk@ == inputs.material_id_vtk@
            &&& config.zone_id_vtk == inputs.zone_id_vtk
            &&& config.mat_xml@ == inputs.mat_xml@
            &&& config.algo_xml@ == inputs.algo_xml@
            &&& config.mpirun_path@ == inputs.mpirun_path@
            &&& config.extra_args@ == inputs.extra_args@
            &&& config.amitex_path@ == amitex->0@
            &&& config.env_vars@ == env@
        },
        forall|dir: &str, part: &str, runs: String, below: &str, place: String|
            r is Launch && dir@ == data_dir->0@ && part@ == "runs"@ && #[trigger] call_ensures(
                join_path,
                (dir, part),
                runs,
            ) && below@ == runs@ && #[trigger] call_ensures(join_path, (below, name), place)
                ==> r->config.run_dir@ == place@,
{
}

/// The constants are shown in lines of their own, each under its name.
pub proof fn lines_show_the_constants<S: Fn(Double) -> String>(
    m: ElasticModuli,
    show: S,
    r: Vec<String>,
)
    requires
        writes(show),
        call_ensures(moduli_lines::<S>, (&m, &show), r),
    ensures
        r@.len() == 4,
        r@[0]@ == "E = "@ + shown(show, m.e),
        r@[1]@ == "nu = "@ + shown(show, m.nu),
        r@[2]@ == "G = "@ + shown(show, m.g),
        r@[3]@ == "Zener A = "@ + shown(show, m.zener),
{
    let t = texts(r@);
    assert(t.len() == r@.len());
    assert(t[0] == r@[0]@ && t[1] == r@[1]@ && t[2] == r@[2]@ && t[3] == r@[3]@);
}

/// The cell of a matrix shows the entry in its own row and column, with spaces before it.
pub proof fn cells_show_their_entries<S: Fn(Double) -> String>(
    m: Matrix,
    row: usize,
    col: usize,
    show: S,
    r: String,
)
    requires
        writes(show),
        row < 6,
        col < 6,
        call_ensures(render_matrix::<S>, (&m, row, col, &show), r),
    ensures
        r@ == right_aligned(shown(show, m[row as int][col as int]), 9),
{
    assert(rows(m)[row as int] == m@[row as int]@);
}

/// The status that is shown for a case is the one that was last told of it, and no other case's is
/// changed.
pub proof fn status_follows_the_events(d: Display, event: RunEvent, i: int)
    requires
        0 <= i < d.cases.len(),
        forall|j: int| 0 <= j < i ==> (#[trigger] d.cases[j]).0 != d.cases[i].0,
    ensures
        ({
            let after = shown_after(d, event);
            &&& after.cases.len() == d.cases.len()
            &&& after.cases[i].0 == d.cases[i].0
            &&& after.cases[i].1 == match event {
                RunEvent::CaseStarted { case } => if case@ == d.cases[i].0 {
                    CaseStatus::Running
                } else {
                    d.cases[i].1
                },
                RunEvent::CaseFinished { case, success } => if case@ != d.cases[i].0 {
                    d.cases[i].1
                } else if success {
                    CaseStatus::Succeeded
                } else {
                    CaseStatus::Failed
                },
                _ => d.cases[i].1,
            }
            &&& after.log == match event {
                RunEvent::CaseOutput { case, line } => d.log.push("["@ + case@ + "] "@ + line@),
                _ => d.log,
            }
            &&& after.fatal == match event {
                RunEvent::Fatal { message } => Some(message@),
                _ => d.fatal,
            }
            &&& after.std_paths == match event {
                RunEvent::AllFinished { std_paths } => Some(texts(std_paths@)),
                _ => d.std_paths,
            }
        }),
{
    match event {
        RunEvent::CaseStarted { case } => {
            status_changes_one_case(d.cases, case@, CaseStatus::Running);
        },
        RunEvent::CaseFinished { case, success } => {
            status_changes_one_case(d.cases, case@, CaseStatus::Succeeded);
            status_changes_one_case(d.cases, case@, CaseStatus::Failed);
        },
        _ => {},
    }
}

} // verus!
