//! What must be readable and executable before a run begins.
use crate::pipeline::environment::{get_variable, variable};
use crate::pipeline::paths::{join_path, path_join};
use crate::text::{lemma_texts_push, texts};
use vstd::prelude::*;

verus! {

/// A file that is needed: its path, and whether it could be opened or why not. Only an attempt
/// tells: a file that looks readable may still be denied.
pub struct Probe {
    pub path: String,
    pub opened: Result<(), String>,
}

/// A program that is needed: its path, whether it could be opened, and its permission bits where
/// the system has them.
pub struct ProgramProbe {
    pub path: String,
    pub opened: Result<(), String>,
    pub mode: Option<Result<u32, String>>,
}

/// A file that may be there: whether it is, and whether it could be opened.
pub struct OptionalProbe {
    pub is_file: bool,
    pub opened: Result<(), String>,
}

/// What is said of a file that cannot be opened.
pub open spec fn unreadable(opened: Result<(), String>) -> Option<Seq<char>> {
    match opened {
        Ok(_) => None,
        Err(error) => Some("not readable ("@ + error@ + ")"@),
    }
}

/// What is said of a program that cannot be opened or executed.
pub open spec fn unusable(p: ProgramProbe) -> Option<Seq<char>> {
    match unreadable(p.opened) {
        Some(reason) => Some(reason),
        None => match p.mode {
            None => None,
            Some(Err(error)) => Some("could not stat ("@ + error@ + ")"@),
            Some(Ok(mode)) => if mode & 0o111 == 0 {
                Some("not executable (missing +x permission)"@)
            } else {
                None
            },
        },
    }
}

/// Whether a check found nothing, or the reason that is meant.
pub open spec fn reason_agrees(r: Result<(), String>, meant: Option<Seq<char>>) -> bool {
    match (r, meant) {
        (Ok(_), None) => true,
        (Err(reason), Some(text)) => reason@ == text,
        _ => false,
    }
}

/// Whether a file could be opened.
pub fn check_readable(opened: &Result<(), String>) -> (r: Result<(), String>)
    ensures
        reason_agrees(r, unreadable(*opened)),
{
    match opened {
        Ok(_) => Ok(()),
        Err(error) => {
            let mut reason: String = "not readable (".to_owned();
            reason.append(error.as_str());
            reason.append(")");
            Err(reason)
        },
    }
}

/// Whether a program could be opened, and may be executed where the system has permission bits.
pub fn check_executable(p: &ProgramProbe) -> (r: Result<(), String>)
    ensures
        reason_agrees(r, unusable(*p)),
{
    match check_readable(&p.opened) {
        Ok(_) => {},
        Err(reason) => {
            return Err(reason);
        },
    }
    match &p.mode {
        None => Ok(()),
        Some(Err(error)) => {
            let mut reason: String = "could not stat (".to_owned();
            reason.append(error.as_str());
            reason.append(")");
            Err(reason)
        },
        Some(Ok(mode)) => {
            if *mode & 0o111 == 0 {
                Err("not executable (missing +x permission)".to_owned())
            } else {
                Ok(())
            }
        },
    }
}

/// Whether the program at `path`, called `label`, is there.
pub fn check_binary_exists(path: &str, label: &str, is_file: bool) -> (r: Result<(), String>)
    ensures
        match r {
            Ok(_) => is_file,
            Err(message) => !is_file && message@ == label@ + " not found: "@ + path@,
        },
{
    if !is_file {
        let mut message: String = label.to_owned();
        message.append(" not found: ");
        message.append(path);
        return Err(message);
    }
    Ok(())
}

/// A line on the file at `path`, called `label`, where something is wrong with it.
pub open spec fn problem(
    label: Seq<char>,
    path: Seq<char>,
    reason: Option<Seq<char>>,
) -> Seq<Seq<char>> {
    match reason {
        None => Seq::empty(),
        Some(text) => seq![label + ": "@ + path + " — "@ + text],
    }
}

fn push_problem(problems: &mut Vec<String>, label: &str, path: &str, found: Result<(), String>)
    ensures
        texts(final(problems)@) == texts(old(problems)@) + problem(
            label@,
            path@,
            match found {
                Ok(_) => None,
                Err(reason) => Some(reason@),
            },
        ),
{
    let ghost before = problems@;
    match found {
        Ok(_) => {
            assert(texts(before) + Seq::empty() =~= texts(before));
        },
        Err(reason) => {
            let mut line: String = label.to_owned();
            line.append(": ");
            line.append(path);
            line.append(" — ");
            line.append(reason.as_str());
            problems.push(line);
            proof {
                lemma_texts_push(before, line);
                assert(texts(before).push(line@) =~= texts(before) + seq![line@]);
            }
        },
    }
}

/// The library of material laws that the solver loads by itself.
pub open spec fn native_library_path(env: Seq<(String, String)>) -> Option<Seq<char>> {
    match variable(env, "AMITEX_PATH"@) {
        Some(root) => Some(path_join(root, "libAmitex/src/materiaux/libUmatAmitex.so"@)),
        None => None,
    }
}

/// Where the solver finds its library of material laws.
pub fn native_library(env: &Vec<(String, String)>) -> (r: Option<String>)
    ensures
        match r {
            Some(path) => native_library_path(env@) == Some(path@),
            None => native_library_path(env@) is None,
        },
{
    match get_variable(env, "AMITEX_PATH") {
        Some(root) => Some(
            join_path(root.as_str(), "libAmitex/src/materiaux/libUmatAmitex.so"),
        ),
        None => None,
    }
}

/// A line for each problem: the maps of materials and zones and the script must be readable, the
/// two programs executable, and the solver's library of material laws readable where it is there.
pub open spec fn permission_problems(
    material_id_vtk: Probe,
    zone_id_vtk: Option<Probe>,
    env_script: Probe,
    amitex: ProgramProbe,
    mpirun: ProgramProbe,
    env: Seq<(String, String)>,
    library: OptionalProbe,
) -> Seq<Seq<char>> {
    problem("Material ID VTK (-nm)"@, material_id_vtk.path@, unreadable(material_id_vtk.opened))
        + problem(
        "env_amitex.sh (or equivalent)"@,
        env_script.path@,
        unreadable(env_script.opened),
    ) + match zone_id_vtk {
        Some(zone) => problem("Zone ID VTK (-nz)"@, zone.path@, unreadable(zone.opened)),
        None => Seq::empty(),
    } + problem("amitex_fftp binary"@, amitex.path@, unusable(amitex)) + problem(
        "mpirun binary"@,
        mpirun.path@,
        unusable(mpirun),
    ) + match native_library_path(env) {
        Some(path) => if library.is_file {
            problem("Native material behavior library"@, path, unreadable(library.opened))
        } else {
            Seq::empty()
        },
        None => Seq::empty(),
    }
}

/// Finds everything that would keep a run from its files, so that all of it can be shown at once
/// before the run begins. The files that are written for the run itself are not among them.
pub fn check_permissions(
    material_id_vtk: &Probe,
    zone_id_vtk: &Option<Probe>,
    env_script: &Probe,
    amitex: &ProgramProbe,
    mpirun: &ProgramProbe,
    env: &Vec<(String, String)>,
    library: &OptionalProbe,
) -> (r: Vec<String>)
    ensures
        texts(r@) == permission_problems(
            *material_id_vtk,
            *zone_id_vtk,
            *env_script,
            *amitex,
            *mpirun,
            env@,
            *library,
        ),
{
    let mut problems: Vec<String> = Vec::new();
    let ghost empty = Seq::<Seq<char>>::empty();
    assert(texts(problems@) =~= empty);
    push_problem(
        &mut problems,
        "Material ID VTK (-nm)",
        material_id_vtk.path.as_str(),
        check_readable(&material_id_vtk.opened),
    );
    assert(texts(problems@) =~= problem(
        "Material ID VTK (-nm)"@,
        material_id_vtk.path@,
        unreadable(material_id_vtk.opened),
    ));
    push_problem(
        &mut problems,
        "env_amitex.sh (or equivalent)",
        env_script.path.as_str(),
        check_readable(&env_script.opened),
    );
    match zone_id_vtk {
        Some(zone) => {
            push_problem(
                &mut problems,
                "Zone ID VTK (-nz)",
                zone.path.as_str(),
                check_readable(&zone.opened),
            );
        },
        None => {
            assert(texts(problems@) + empty =~= texts(problems@));
        },
    }
    push_problem(
        &mut problems,
        "amitex_fftp binary",
        amitex.path.as_str(),
        check_executable(amitex),
    );
    push_problem(&mut problems, "mpirun binary", mpirun.path.as_str(), check_executable(mpirun));
    assert(texts(problems@) + empty =~= texts(problems@));
    match native_library(env) {
        Some(path) => {
            if library.is_file {
                push_problem(
                    &mut problems,
                    "Native material behavior library",
                    path.as_str(),
                    check_readable(&library.opened),
                );
            }
        },
        None => {},
    }
    problems
}

/// Nothing is reported exactly where every file that is needed could be opened and both programs
/// may be executed.
pub proof fn no_problem_means_access(
    material_id_vtk: Probe,
    zone_id_vtk: Option<Probe>,
    env_script: Probe,
    amitex: ProgramProbe,
    mpirun: ProgramProbe,
    env: Seq<(String, String)>,
    library: OptionalProbe,
)
    ensures
        permission_problems(
            material_id_vtk,
            zone_id_vtk,
            env_script,
            amitex,
            mpirun,
            env,
            library,
        ).len() == 0 <==> {
            &&& material_id_vtk.opened is Ok
            &&& env_script.opened is Ok
            &&& zone_id_vtk matches Some(zone) ==> zone.opened is Ok
            &&& unusable(amitex) is None
            &&& unusable(mpirun) is None
            &&& native_library_path(env) is Some && library.is_file ==> library.opened is Ok
        },
{
}

} // verus!
