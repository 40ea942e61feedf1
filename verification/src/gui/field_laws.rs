//! What the window makes of its fields, and what it shows.
use crate::gui::fields::{
    field_change, file_to_load, non_empty_path, run_name_on, start_directory, window_title,
    FieldChange,
};
use crate::gui::results::{case_text, failure_text, save_text};
use crate::gui::run_state::{shown_after, shown_after_all, CaseStatus, Display, RunState};
use crate::pipeline::runner::RunEvent;
use crate::pipeline::SimulationModes;
use crate::text::{blank, joined};
use vstd::prelude::*;

verus! {

/// A path that is not blank is taken as it stands, and a blank one is none.
pub proof fn paths_are_taken_as_entered(path: &str, r: Option<String>, b: bool)
    requires
        call_ensures(non_empty_path, (path,), r),
        call_ensures(blank, (path,), b),
    ensures
        b ==> r is None,
        !b ==> r is Some && r->0@ == path@,
{
}

/// A dialog begins in the first directory that is known; where none is, in none.
pub proof fn dialogs_begin_in_the_first_directory(
    dirs: Seq<Option<String>>,
    r: Option<String>,
    k: int,
)
    requires
        dirs.len() == 3,
        call_ensures(start_directory, (dirs[0], dirs[1], dirs[2]), r),
        0 <= k < 3,
        forall|i: int| 0 <= i < k ==> (#[trigger] dirs[i]) is None,
    ensures
        dirs[k] is Some ==> r == dirs[k],
        k == 2 && dirs[2] is None ==> r is None,
{
    if k > 0 {
        assert(dirs[0] is None);
    }
    if k > 1 {
        assert(dirs[1] is None);
    }
}

/// A run has the name that was entered where it was to have one, and else the day.
pub proof fn runs_are_named_as_entered(custom: bool, entered: &str, today: &str, r: String)
    requires
        call_ensures(run_name_on, (custom, entered, today), r),
    ensures
        custom ==> r@ == entered@,
        !custom ==> r@ == today@,
{
}

/// The title ends in the name of the run, and before it stands what is simulated.
pub proof fn titles_tell_the_mode_and_the_name(mode: SimulationModes, name: &str, r: String)
    requires
        call_ensures(window_title, (mode, name), r),
    ensures
        mode is ElasticHomogenization ==> r@ == "AMITEX-GUI - "@ + "Elastic homogenization"@
            + " - "@ + name@,
{
}

/// A field that has not changed is left alone, and of the others those are loaded that hold a path.
pub proof fn changed_fields_are_loaded(
    field: &str,
    seen: &str,
    path: Option<String>,
    r: FieldChange,
)
    requires
        call_ensures(field_change, (field, seen), r),
        call_ensures(non_empty_path, (field,), path),
    ensures
        r is Same <==> field@ == seen@,
        r is Load <==> field@ != seen@ && path is Some,
        r is Cleared <==> field@ != seen@ && path is None,
{
}

/// A file is loaded where there is something to draw on and a path in the field; otherwise what is
/// missing is told.
pub proof fn files_are_loaded_where_they_can_be(
    has_context: bool,
    field: &str,
    path: Option<String>,
    r: Result<String, String>,
)
    requires
        call_ensures(file_to_load, (has_context, field), r),
        call_ensures(non_empty_path, (field,), path),
    ensures
        r is Ok <==> has_context && path is Some,
        r is Ok ==> r->Ok_0@ == field@,
        !has_context ==> r is Err && r->Err_0@ == "No OpenGL context available"@,
        has_context && path is None ==> r is Err && r->Err_0@
            == "Select a Material ID VTK file first"@,
{
}

/// A case is shown by its name and a word for how it stands.
pub proof fn cases_are_shown_with_their_status(label: &str, status: CaseStatus, r: String)
    requires
        call_ensures(case_text, (label, status), r),
    ensures
        status is Pending ==> r@ == label@ + ": "@ + "pending"@,
        status is Running ==> r@ == label@ + ": "@ + "running"@,
        status is Succeeded ==> r@ == label@ + ": "@ + "done"@,
        status is Failed ==> r@ == label@ + ": "@ + "failed"@,
{
}

/// What came of a run, and of saving it, is told with the path or the error that belongs to it.
pub proof fn outcomes_are_told(
    error: &str,
    failure: String,
    path: String,
    saved: Result<String, String>,
    r: String,
)
    requires
        call_ensures(failure_text, (error,), failure),
        saved == Ok::<String, String>(path) || saved == Err::<String, String>(path),
        call_ensures(save_text, (&saved,), r),
    ensures
        failure@ == "Homogenization failed: "@ + error@,
        saved is Ok ==> r@ == "Saved to "@ + path@,
        saved is Err ==> r@ == "Save failed: "@ + path@,
{
}

/// The log is shown line by line.
pub proof fn log_is_shown_line_by_line(state: RunState, sep: &str, r: String, all: String)
    requires
        sep@ == "\n"@,
        call_ensures(RunState::log_text, (&state,), r),
        call_ensures(joined, (&state.log, sep), all),
    ensures
        r@ == all@,
{
}

/// Events are noted in the order in which they came: one more changes what is shown after the
/// others.
pub proof fn events_are_noted_in_order(d: Display, events: Seq<RunEvent>, next: RunEvent)
    ensures
        shown_after_all(d, Seq::empty(), 0) == d,
        shown_after_all(d, events.push(next), events.len() + 1) == shown_after(
            shown_after_all(d, events, events.len()),
            next,
        ),
{
    lemma_earlier_events(d, events, next, events.len());
}

proof fn lemma_earlier_events(d: Display, events: Seq<RunEvent>, next: RunEvent, k: nat)
    requires
        k <= events.len(),
    ensures
        shown_after_all(d, events.push(next), k) == shown_after_all(d, events, k),
    decreases k,
{
    if k > 0 {
        lemma_earlier_events(d, events, next, (k - 1) as nat);
        assert(events.push(next)[k - 1] == events[k - 1]);
    }
}

} // verus!
