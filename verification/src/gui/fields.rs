//! The fields of the window.
use crate::clock::{has_no_slash, is_date, today};
use crate::pipeline::SimulationModes;
use crate::text::{blank, is_blank};
use vstd::prelude::*;

verus! {

/// The path in a field, where the field is not blank.
pub fn non_empty_path(path: &str) -> (r: Option<String>)
    ensures
        match r {
            Some(p) => !is_blank(path@) && p@ == path@,
            None => is_blank(path@),
        },
{
    if blank(path) {
        None
    } else {
        Some(path.to_owned())
    }
}

/// Where a dialog begins: in the first of three directories that is known.
pub fn start_directory(
    first: Option<String>,
    second: Option<String>,
    third: Option<String>,
) -> (r: Option<String>)
    ensures
        r == if first is Some {
            first
        } else if second is Some {
            second
        } else {
            third
        },
{
    if first.is_some() {
        first
    } else if second.is_some() {
        second
    } else {
        third
    }
}

/// The name of a run on the day `today`: the one that was entered, or else that day.
pub fn run_name_on(custom: bool, entered: &str, today: &str) -> (r: String)
    ensures
        r@ == if custom {
            entered@
        } else {
            today@
        },
{
    if custom {
        entered.to_owned()
    } else {
        today.to_owned()
    }
}

/// The name of a run: the one that was entered, or else today's date.
pub fn run_name(custom: bool, entered: &str) -> (r: String)
    ensures
        if custom {
            r@ == entered@
        } else {
            has_no_slash(r@) && is_date(r@)
        },
{
    run_name_on(custom, entered, today().as_str())
}

/// The title of the window.
pub fn window_title(mode: SimulationModes, name: &str) -> (r: String)
    ensures
        r@ == "AMITEX-GUI - "@ + mode.title() + " - "@ + name@,
{
    let mut r: String = "AMITEX-GUI - ".to_owned();
    r.append(mode.label());
    r.append(" - ");
    r.append(name);
    r
}

/// What is to be done where the field of the map of materials holds `field`, and held `seen` when
/// it was last looked at.
#[derive(Clone, Copy, PartialEq, Eq, Structural, Debug)]
pub enum FieldChange {
    /// The field is as it was.
    Same,
    /// The field has changed, and is blank.
    Cleared,
    /// The field has changed, and a file is to be loaded.
    Load,
}

/// Whether a new path is in the field of the map of materials.
pub fn field_change(field: &str, seen: &str) -> (r: FieldChange)
    ensures
        r == if field@ == seen@ {
            FieldChange::Same
        } else if is_blank(field@) {
            FieldChange::Cleared
        } else {
            FieldChange::Load
        },
{
    if crate::text::same_text(field, seen) {
        FieldChange::Same
    } else if blank(field) {
        FieldChange::Cleared
    } else {
        FieldChange::Load
    }
}

/// The file to be loaded for the view of the materials, or why none can be.
pub fn file_to_load(has_context: bool, field: &str) -> (r: Result<String, String>)
    ensures
        match r {
            Ok(path) => has_context && !is_blank(field@) && path@ == field@,
            Err(message) => if !has_context {
                message@ == "No OpenGL context available"@
            } else {
                is_blank(field@) && message@ == "Select a Material ID VTK file first"@
            },
        },
{
    if !has_context {
        return Err("No OpenGL context available".to_owned());
    }
    match non_empty_path(field) {
        Some(path) => Ok(path),
        None => Err("Select a Material ID VTK file first".to_owned()),
    }
}

} // verus!
