//! What has to be settled before a run begins.
use crate::gui::fields::non_empty_path;
use crate::pipeline::paths::{join_path, path_join};
use crate::pipeline::runner::PipelineConfig;
use crate::text::{is_blank, split_words, texts, words};
use vstd::prelude::*;

verus! {

/// What was entered for a run.
pub struct RunFields {
    pub name: String,
    pub zone_id_vtk: String,
    pub material_id_vtk: String,
    pub algorithm: String,
    pub materials_xml: String,
    pub env_script: String,
    pub mpirun_path: String,
    pub extra_args: String,
}

/// The files and programs of a run, and further arguments for the solver.
pub struct RunInputs {
    pub material_id_vtk: String,
    pub zone_id_vtk: Option<String>,
    pub mat_xml: String,
    pub algo_xml: String,
    pub env_script: String,
    pub mpirun_path: String,
    pub extra_args: Vec<String>,
}

/// The first field that must not be blank and is, as the user is told of it.
pub open spec fn missing_field(f: RunFields) -> Option<Seq<char>> {
    if is_blank(f.material_id_vtk@) {
        Some("Select a Material ID VTK file first"@)
    } else if is_blank(f.materials_xml@) {
        Some("Select a Material XML file first"@)
    } else if is_blank(f.algorithm@) {
        Some("Select an Algorithm XML file first"@)
    } else if is_blank(f.env_script@) {
        Some("Select an env_amitex.sh (or equivalent) script first"@)
    } else if is_blank(f.mpirun_path@) {
        Some("Select the mpirun binary first"@)
    } else {
        None
    }
}

/// Whether `i` is what was entered. The map of zones may be missing.
pub open spec fn are_inputs(i: RunInputs, f: RunFields) -> bool {
    &&& i.material_id_vtk@ == f.material_id_vtk@
    &&& match i.zone_id_vtk {
        Some(zone) => !is_blank(f.zone_id_vtk@) && zone@ == f.zone_id_vtk@,
        None => is_blank(f.zone_id_vtk@),
    }
    &&& i.mat_xml@ == f.materials_xml@
    &&& i.algo_xml@ == f.algorithm@
    &&& i.env_script@ == f.env_script@
    &&& i.mpirun_path@ == f.mpirun_path@
    &&& texts(i.extra_args@) == words(f.extra_args@)
}

/// What was entered for a run, where nothing is missing.
pub fn check_fields(f: &RunFields) -> (r: Result<RunInputs, String>)
    ensures
        match r {
            Ok(inputs) => missing_field(*f) is None && are_inputs(inputs, *f),
            Err(message) => missing_field(*f) == Some(message@),
        },
{
    let material_id_vtk: String = match non_empty_path(f.material_id_vtk.as_str()) {
        Some(path) => path,
        None => {
            return Err("Select a Material ID VTK file first".to_owned());
        },
    };
    let mat_xml: String = match non_empty_path(f.materials_xml.as_str()) {
        Some(path) => path,
        None => {
            return Err("Select a Material XML file first".to_owned());
        },
    };
    let algo_xml: String = match non_empty_path(f.algorithm.as_str()) {
        Some(path) => path,
        None => {
            return Err("Select an Algorithm XML file first".to_owned());
        },
    };
    let env_script: String = match non_empty_path(f.env_script.as_str()) {
        Some(path) => path,
        None => {
            return Err("Select an env_amitex.sh (or equivalent) script first".to_owned());
        },
    };
    let mpirun_path: String = match non_empty_path(f.mpirun_path.as_str()) {
        Some(path) => path,
        None => {
            return Err("Select the mpirun binary first".to_owned());
        },
    };
    Ok(
        RunInputs {
            material_id_vtk,
            zone_id_vtk: non_empty_path(f.zone_id_vtk.as_str()),
            mat_xml,
            algo_xml,
            env_script,
            mpirun_path,
            extra_args: split_words(f.extra_args.as_str()),
        },
    )
}

/// What is said where the solver is not found.
pub fn no_solver() -> (r: String)
    ensures
        r@
            == "Could not find amitex_fftp via the sourced script (checked AMITEX_PATH and PATH) — check it sets one of these correctly"@,
{
    "Could not find amitex_fftp via the sourced script (checked AMITEX_PATH and PATH) — check it sets one of these correctly".to_owned()
}

/// What comes of the attempt to start a run.
pub enum Start {
    /// The run cannot be started, for one reason.
    Refused { message: String },
    /// Files cannot be read or programs not be executed.
    Blocked { problems: Vec<String> },
    Launch { config: PipelineConfig },
}

/// Where a run's directories are made.
pub open spec fn run_directory(data_dir: Seq<char>, name: Seq<char>) -> Seq<char> {
    path_join(path_join(data_dir, "runs"@), name)
}

/// Whether `c` is the run with the given inputs.
pub open spec fn is_run(
    c: PipelineConfig,
    inputs: RunInputs,
    amitex: Seq<char>,
    env: Vec<(String, String)>,
    run_dir: Seq<char>,
) -> bool {
    &&& c.run_dir@ == run_dir
    &&& c.material_id_vtk == inputs.material_id_vtk
    &&& c.zone_id_vtk == inputs.zone_id_vtk
    &&& c.mat_xml == inputs.mat_xml
    &&& c.algo_xml == inputs.algo_xml
    &&& c.amitex_path@ == amitex
    &&& c.mpirun_path == inputs.mpirun_path
    &&& c.env_vars == env
    &&& c.extra_args == inputs.extra_args
}

/// Starts a run with the given inputs, where the solver was found, nothing is in the way, and
/// there is a directory for the user's data.
pub fn start_run(
    inputs: RunInputs,
    name: &str,
    env: Vec<(String, String)>,
    amitex: Option<String>,
    problems: Vec<String>,
    data_dir: Option<String>,
) -> (r: Start)
    ensures
        match amitex {
            None => r matches Start::Refused { message } && message@
                == "Could not find amitex_fftp via the sourced script (checked AMITEX_PATH and PATH) — check it sets one of these correctly"@,
            Some(path) => if problems@.len() > 0 {
                r == (Start::Blocked { problems })
            } else {
                match data_dir {
                    None => r matches Start::Refused { message } && message@
                        == "Could not determine a data directory for run output"@,
                    Some(dir) => r matches Start::Launch { config } && is_run(
                        config,
                        inputs,
                        path@,
                        env,
                        run_directory(dir@, name@),
                    ),
                }
            },
        },
{
    let amitex_path: String = match amitex {
        Some(path) => path,
        None => {
            return Start::Refused { message: no_solver() };
        },
    };
    if problems.len() > 0 {
        return Start::Blocked { problems };
    }
    let dir: String = match data_dir {
        Some(dir) => dir,
        None => {
            return Start::Refused {
                message: "Could not determine a data directory for run output".to_owned(),
            };
        },
    };
    let runs: String = join_path(dir.as_str(), "runs");
    let run_dir: String = join_path(runs.as_str(), name);
    Start::Launch {
        config: PipelineConfig {
            run_dir,
            material_id_vtk: inputs.material_id_vtk,
            zone_id_vtk: inputs.zone_id_vtk,
            mat_xml: inputs.mat_xml,
            algo_xml: inputs.algo_xml,
            amitex_path,
            mpirun_path: inputs.mpirun_path,
            env_vars: env,
            extra_args: inputs.extra_args,
        },
    }
}

} // verus!
