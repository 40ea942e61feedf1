//! What is found of the files and programs that a run needs.
use crate::pipeline::environment::get_variable;
use crate::pipeline::paths::join_path;
use crate::pipeline::permissions::{
    check_binary_exists, check_executable, check_permissions, check_readable, native_library,
    OptionalProbe, Probe, ProgramProbe,
};
use crate::text::texts;
use vstd::prelude::*;

verus! {

/// A file is readable where it could be opened, and else what kept it from being opened is told.
pub proof fn readable_means_opened(opened: Result<(), String>, r: Result<(), String>)
    requires
        call_ensures(check_readable, (&opened,), r),
    ensures
        r is Ok <==> opened is Ok,
        opened matches Err(why) ==> (r matches Err(told) && told@ == "not readable ("@ + why@
            + ")"@),
{
}

/// A program can be executed where it could be opened, and one of the three bits for execution is
/// set where the system has permission bits.
pub proof fn executable_means_a_bit_is_set(p: ProgramProbe, r: Result<(), String>)
    requires
        call_ensures(check_executable, (&p,), r),
    ensures
        r is Ok <==> p.opened is Ok && (match p.mode {
            None => true,
            Some(Err(_)) => false,
            Some(Ok(mode)) => mode & 0o100 != 0 || mode & 0o010 != 0 || mode & 0o001 != 0,
        }),
{
    if let Some(Ok(mode)) = p.mode {
        assert((mode & 0o111 == 0) == (mode & 0o100 == 0 && mode & 0o010 == 0 && mode & 0o001
            == 0)) by (bit_vector);
    }
}

/// Where the library of material laws lies is told by the solver's own variable.
pub proof fn library_lies_below_the_solver(
    env: Vec<(String, String)>,
    name: &str,
    root: Option<String>,
    r: Option<String>,
)
    requires
        name@ == "AMITEX_PATH"@,
        call_ensures(get_variable, (&env, name), root),
        call_ensures(native_library, (&env,), r),
    ensures
        r is Some <==> root is Some,
        forall|dir: &str, part: &str, place: String|
            root is Some && dir@ == root->0@ && part@
                == "libAmitex/src/materiaux/libUmatAmitex.so"@ && #[trigger] call_ensures(
                join_path,
                (dir, part),
                place,
            ) ==> r->0@ == place@,
{
}

/// The problems that are told are those of the single checks, each with the name and the path of
/// its file, in a fixed order: the map of materials, the script, the map of zones where there is
/// one, the solver, the launcher, and the library where it is there.
pub proof fn problems_are_those_of_the_checks(
    material: Probe,
    zone: Option<Probe>,
    script: Probe,
    amitex: ProgramProbe,
    mpirun: ProgramProbe,
    env: Vec<(String, String)>,
    library: OptionalProbe,
    r: Vec<String>,
    m: Result<(), String>,
    s: Result<(), String>,
    z: Result<(), String>,
    a: Result<(), String>,
    l: Result<(), String>,
    n: Result<(), String>,
    place: Option<String>,
)
    requires
        call_ensures(
            check_permissions,
            (&material, &zone, &script, &amitex, &mpirun, &env, &library),
            r,
        ),
        call_ensures(check_readable, (&material.opened,), m),
        call_ensures(check_readable, (&script.opened,), s),
        zone matches Some(p) ==> call_ensures(check_readable, (&p.opened,), z),
        zone is None ==> z is Ok,
        call_ensures(check_executable, (&amitex,), a),
        call_ensures(check_executable, (&mpirun,), l),
        call_ensures(native_library, (&env,), place),
        place is Some && library.is_file ==> call_ensures(check_readable, (&library.opened,), n),
        !(place is Some && library.is_file) ==> n is Ok,
    ensures
        texts(r@) == complaint("Material ID VTK (-nm)"@, material.path@, m) + complaint(
            "env_amitex.sh (or equivalent)"@,
            script.path@,
            s,
        ) + complaint(
            "Zone ID VTK (-nz)"@,
            match zone {
                Some(p) => p.path@,
                None => Seq::empty(),
            },
            z,
        ) + complaint("amitex_fftp binary"@, amitex.path@, a) + complaint(
            "mpirun binary"@,
            mpirun.path@,
            l,
        ) + complaint(
            "Native material behavior library"@,
            match place {
                Some(p) => p@,
                None => Seq::empty(),
            },
            n,
        ),
{
}

/// A line on a file where a check failed, and none where it did not.
pub open spec fn complaint(label: Seq<char>, path: Seq<char>, r: Result<(), String>) -> Seq<
    Seq<char>,
> {
    match r {
        Ok(_) => Seq::empty(),
        Err(why) => seq![label + ": "@ + path + " — "@ + why@],
    }
}

/// A program that is not there is told by its name and its path.
pub proof fn missing_programs_are_told(
    path: &str,
    label: &str,
    is_file: bool,
    r: Result<(), String>,
)
    requires
        call_ensures(check_binary_exists, (path, label, is_file), r),
    ensures
        is_file ==> r is Ok,
        !is_file ==> r is Err && r->Err_0@ == label@ + " not found: "@ + path@,
{
}

} // verus!
