//! The environment that the solver is run in, and where the programs are found.
use crate::pipeline::paths::{join_path, path_join};
use crate::text::{
    from_utf8_lossy, lemma_texts_push, lines, lossy_text, same_text, split_at_first, split_lines,
    split_once, texts, trim, trimmed,
};
use vstd::prelude::*;

verus! {

/// The texts of some pairs: a variable's name and value, or a directory and a name in it.
pub open spec fn pair_texts(env: Seq<(String, String)>) -> Seq<(Seq<char>, Seq<char>)> {
    env.map_values(|p: (String, String)| (p.0@, p.1@))
}

/// The variables in the first `k` lines: of each line with an equals sign, what stands before and
/// after the first.
pub open spec fn assignments(all: Seq<Seq<char>>, k: nat) -> Seq<(Seq<char>, Seq<char>)>
    decreases k,
{
    if k == 0 {
        Seq::empty()
    } else {
        let before = assignments(all, (k - 1) as nat);
        match split_at_first(all[k - 1], '=') {
            Some(pair) => before.push(pair),
            None => before,
        }
    }
}

/// Reads the variables that `env` lists.
pub fn parse_environment(text: &str) -> (r: Vec<(String, String)>)
    ensures
        pair_texts(r@) == assignments(lines(text@), lines(text@).len()),
{
    let all: Vec<String> = split_lines(text);
    let ghost shown = texts(all@);
    assert(shown.len() == all@.len());
    let mut r: Vec<(String, String)> = Vec::new();
    let mut i: usize = 0;
    assert(pair_texts(r@) =~= Seq::empty());
    while i < all.len()
        invariant
            i <= all@.len(),
            shown == texts(all@),
            pair_texts(r@) == assignments(shown, i as nat),
        decreases all@.len() - i,
    {
        assert(shown[i as int] == all@[i as int]@);
        match split_once(all[i].as_str(), '=') {
            Some(pair) => {
                let ghost before = r@;
                r.push(pair);
                assert(pair_texts(r@) =~= pair_texts(before).push((pair.0@, pair.1@)));
            },
            None => {},
        }
        i += 1;
    }
    r
}

/// What is said where the script fails with the given complaint.
pub open spec fn source_failure(script: Seq<char>, complaint: Seq<char>) -> Seq<char> {
    "sourcing "@ + script + " failed: "@ + trim(complaint)
}

/// The environment that a shell listed after it had sourced the script, or what it complained of
/// where that failed.
pub fn source_env_script(
    script: &str,
    success: bool,
    stdout: &Vec<u8>,
    stderr: &Vec<u8>,
) -> (r: Result<Vec<(String, String)>, String>)
    ensures
        match r {
            Ok(env) => success && pair_texts(env@) == assignments(
                lines(lossy_text(stdout@)),
                lines(lossy_text(stdout@)).len(),
            ),
            Err(message) => !success && message@ == source_failure(script@, lossy_text(stderr@)),
        },
{
    if !success {
        let complaint: String = from_utf8_lossy(stderr.as_slice());
        let mut message: String = "sourcing ".to_owned();
        message.append(script);
        message.append(" failed: ");
        message.append(trimmed(complaint.as_str()).as_str());
        return Err(message);
    }
    let text: String = from_utf8_lossy(stdout.as_slice());
    Ok(parse_environment(text.as_str()))
}

/// What is said where no shell could be run for the script.
pub fn shell_failure(script: &str) -> (r: String)
    ensures
        r@ == "running a shell to source "@ + script@,
{
    let mut r: String = "running a shell to source ".to_owned();
    r.append(script);
    r
}

/// The value of the first of the first `k` variables that is called `name`.
pub open spec fn first_value(
    env: Seq<(Seq<char>, Seq<char>)>,
    name: Seq<char>,
    k: nat,
) -> Option<Seq<char>>
    decreases k,
{
    if k == 0 {
        None
    } else {
        match first_value(env, name, (k - 1) as nat) {
            Some(value) => Some(value),
            None => if env[k - 1].0 == name {
                Some(env[k - 1].1)
            } else {
                None
            },
        }
    }
}

/// The value of the variable called `name`.
pub open spec fn variable(env: Seq<(String, String)>, name: Seq<char>) -> Option<Seq<char>> {
    first_value(pair_texts(env), name, env.len())
}

proof fn lemma_first_value(env: Seq<(Seq<char>, Seq<char>)>, name: Seq<char>, k: nat, n: nat)
    requires
        k <= n,
        first_value(env, name, k) is Some,
    ensures
        first_value(env, name, n) == first_value(env, name, k),
    decreases n,
{
    if k < n {
        lemma_first_value(env, name, k, (n - 1) as nat);
    }
}

/// The value of the variable called `name`.
pub fn get_variable(env: &Vec<(String, String)>, name: &str) -> (r: Option<String>)
    ensures
        match r {
            Some(value) => variable(env@, name@) == Some(value@),
            None => variable(env@, name@) is None,
        },
{
    let mut i: usize = 0;
    while i < env.len()
        invariant
            i <= env@.len(),
            first_value(pair_texts(env@), name@, i as nat) is None,
        decreases env@.len() - i,
    {
        assert(pair_texts(env@)[i as int] == (env@[i as int].0@, env@[i as int].1@));
        if same_text(env[i].0.as_str(), name) {
            proof {
                lemma_first_value(pair_texts(env@), name@, (i + 1) as nat, env@.len());
            }
            return Some(env[i].1.clone());
        }
        i += 1;
    }
    None
}

/// `name` in each of the first `k` directories.
pub open spec fn in_directories(dirs: Seq<Seq<char>>, name: Seq<char>, k: nat) -> Seq<Seq<char>>
    decreases k,
{
    if k == 0 {
        Seq::empty()
    } else {
        in_directories(dirs, name, (k - 1) as nat).push(path_join(dirs[k - 1], name))
    }
}

/// Where the solver may be: in the place that its own variable tells, and then in each directory
/// that is searched for programs.
pub open spec fn solver_places(env: Seq<(String, String)>, path_dirs: Seq<Seq<char>>) -> Seq<
    Seq<char>,
> {
    let own = match variable(env, "AMITEX_PATH"@) {
        Some(root) => seq![path_join(root, "libAmitex/bin/amitex_fftp"@)],
        None => Seq::empty(),
    };
    match variable(env, "PATH"@) {
        Some(_) => own + in_directories(path_dirs, "amitex_fftp"@, path_dirs.len()),
        None => own,
    }
}

/// Where the solver may be, in the order of preference. The directories are those of the `PATH`
/// variable of `env`.
pub fn amitex_candidates(env: &Vec<(String, String)>, path_dirs: &Vec<String>) -> (r: Vec<String>)
    ensures
        texts(r@) == solver_places(env@, texts(path_dirs@)),
{
    let mut r: Vec<String> = Vec::new();
    match get_variable(env, "AMITEX_PATH") {
        Some(root) => {
            r.push(join_path(root.as_str(), "libAmitex/bin/amitex_fftp"));
        },
        None => {},
    }
    let ghost own = texts(r@);
    assert(own =~= match variable(env@, "AMITEX_PATH"@) {
        Some(root) => seq![path_join(root, "libAmitex/bin/amitex_fftp"@)],
        None => Seq::empty(),
    });
    if get_variable(env, "PATH").is_none() {
        return r;
    }
    let ghost dirs = texts(path_dirs@);
    let mut i: usize = 0;
    assert(own + in_directories(dirs, "amitex_fftp"@, 0) =~= own);
    while i < path_dirs.len()
        invariant
            i <= path_dirs@.len(),
            dirs == texts(path_dirs@),
            texts(r@) == own + in_directories(dirs, "amitex_fftp"@, i as nat),
        decreases path_dirs@.len() - i,
    {
        let ghost before = r@;
        assert(dirs[i as int] == path_dirs@[i as int]@);
        let place: String = join_path(path_dirs[i].as_str(), "amitex_fftp");
        r.push(place);
        i += 1;
        proof {
            lemma_texts_push(before, place);
            assert(texts(r@) =~= own + in_directories(dirs, "amitex_fftp"@, i as nat));
        }
    }
    r
}

/// Whether `r` is the first of the places at which there is a file.
pub open spec fn is_first_file(
    places: Seq<Seq<char>>,
    is_file: Seq<bool>,
    r: Option<Seq<char>>,
) -> bool {
    match r {
        Some(place) => exists|k: int|
            0 <= k < places.len() && #[trigger] is_file[k] && place == places[k] && forall|j: int|
                0 <= j < k ==> !#[trigger] is_file[j],
        None => forall|k: int| 0 <= k < places.len() ==> !#[trigger] is_file[k],
    }
}

/// The characters of a text, where there is one.
pub open spec fn maybe(s: Option<String>) -> Option<Seq<char>> {
    match s {
        Some(t) => Some(t@),
        None => None,
    }
}

/// The first of some places at which there is a file.
pub fn first_file(places: &Vec<String>, is_file: &Vec<bool>) -> (r: Option<String>)
    requires
        is_file@.len() == places@.len(),
    ensures
        is_first_file(texts(places@), is_file@, maybe(r)),
{
    let mut i: usize = 0;
    while i < places.len()
        invariant
            i <= places@.len(),
            is_file@.len() == places@.len(),
            forall|j: int| 0 <= j < i ==> !#[trigger] is_file@[j],
        decreases places@.len() - i,
    {
        if is_file[i] {
            assert(texts(places@)[i as int] == places@[i as int]@);
            return Some(places[i].clone());
        }
        i += 1;
    }
    None
}

/// The solver, where it is found: `is_file` says at which of the places where it may be there is
/// a file.
pub fn resolve_amitex_binary(
    env: &Vec<(String, String)>,
    path_dirs: &Vec<String>,
    is_file: &Vec<bool>,
) -> (r: Option<String>)
    requires
        is_file@.len() == solver_places(env@, texts(path_dirs@)).len(),
    ensures
        is_first_file(solver_places(env@, texts(path_dirs@)), is_file@, maybe(r)),
{
    let places: Vec<String> = amitex_candidates(env, path_dirs);
    assert(texts(places@).len() == places@.len());
    first_file(&places, is_file)
}

/// The systems that keep programs in different places.
#[derive(Clone, Copy, PartialEq, Eq, Structural, Debug)]
pub enum Platform {
    MacOs,
    Linux,
    Windows,
    Other,
}

impl Platform {
    /// What a launcher of parallel programs may be called.
    pub open spec fn launchers(self) -> Seq<Seq<char>> {
        if self == Platform::Windows {
            seq!["mpiexec.exe"@, "mpirun.exe"@]
        } else {
            seq!["mpirun"@, "mpiexec"@]
        }
    }

    /// Where one is usually installed.
    pub open spec fn usual_directories(self) -> Seq<Seq<char>> {
        match self {
            Platform::MacOs => seq!["/opt/homebrew/bin"@, "/usr/local/bin"@, "/opt/local/bin"@],
            Platform::Linux => seq!["/usr/bin"@, "/usr/local/bin"@, "/opt/openmpi/bin"@],
            Platform::Windows => seq![
                "C:\\Program Files\\Microsoft MPI\\Bin"@,
                "C:\\Program Files (x86)\\Microsoft MPI\\Bin"@,
            ],
            Platform::Other => Seq::empty(),
        }
    }

    fn launcher_names(self) -> (r: (&'static str, &'static str))
        ensures
            self.launchers() == seq![r.0@, r.1@],
    {
        match self {
            Platform::Windows => ("mpiexec.exe", "mpirun.exe"),
            _ => ("mpirun", "mpiexec"),
        }
    }

    fn usual(self) -> (r: Vec<String>)
        ensures
            texts(r@) == self.usual_directories(),
    {
        let r: Vec<String> = match self {
            Platform::MacOs => vec![
                "/opt/homebrew/bin".to_owned(),
                "/usr/local/bin".to_owned(),
                "/opt/local/bin".to_owned(),
            ],
            Platform::Linux => vec![
                "/usr/bin".to_owned(),
                "/usr/local/bin".to_owned(),
                "/opt/openmpi/bin".to_owned(),
            ],
            Platform::Windows => vec![
                "C:\\Program Files\\Microsoft MPI\\Bin".to_owned(),
                "C:\\Program Files (x86)\\Microsoft MPI\\Bin".to_owned(),
            ],
            Platform::Other => Vec::new(),
        };
        assert(texts(r@) =~= self.usual_directories());
        r
    }
}

/// Each of two names in each of the first `k` directories.
pub open spec fn both_in_directories(
    dirs: Seq<Seq<char>>,
    names: Seq<Seq<char>>,
    k: nat,
) -> Seq<(Seq<char>, Seq<char>)>
    decreases k,
{
    if k == 0 {
        Seq::empty()
    } else {
        both_in_directories(dirs, names, (k - 1) as nat) + seq![
            (dirs[k - 1], names[0]),
            (dirs[k - 1], names[1]),
        ]
    }
}

fn push_places(
    r: &mut Vec<(String, String)>,
    dirs: &Vec<String>,
    names: (&'static str, &'static str),
)
    ensures
        pair_texts(final(r)@) == pair_texts(old(r)@) + both_in_directories(
            texts(dirs@),
            seq![names.0@, names.1@],
            dirs@.len(),
        ),
{
    let ghost first = pair_texts(r@);
    let ghost shown = texts(dirs@);
    let ghost both = seq![names.0@, names.1@];
    let mut i: usize = 0;
    assert(first + both_in_directories(shown, both, 0) =~= first);
    while i < dirs.len()
        invariant
            i <= dirs@.len(),
            shown == texts(dirs@),
            both == seq![names.0@, names.1@],
            pair_texts(r@) == first + both_in_directories(shown, both, i as nat),
        decreases dirs@.len() - i,
    {
        let ghost before = r@;
        assert(shown[i as int] == dirs@[i as int]@);
        r.push((dirs[i].clone(), names.0.to_owned()));
        r.push((dirs[i].clone(), names.1.to_owned()));
        i += 1;
        assert(pair_texts(r@) =~= pair_texts(before) + seq![
            (shown[i - 1], both[0]),
            (shown[i - 1], both[1]),
        ]);
        assert(pair_texts(r@) =~= first + both_in_directories(shown, both, i as nat));
    }
}

/// Where a launcher of parallel programs may be, as directories and names: where one is usually
/// installed, since a program that was not started from a shell may know few directories, and then
/// in the directories that are searched for programs, where these are known.
pub open spec fn launcher_places(platform: Platform, path_dirs: Option<Vec<String>>) -> Seq<
    (Seq<char>, Seq<char>),
> {
    let names = platform.launchers();
    let usual = platform.usual_directories();
    let fixed = both_in_directories(usual, names, usual.len());
    match path_dirs {
        Some(dirs) => fixed + both_in_directories(texts(dirs@), names, dirs@.len()),
        None => fixed,
    }
}

/// Where a launcher of parallel programs may be, in the order of preference.
pub fn mpirun_candidates(platform: Platform, path_dirs: &Option<Vec<String>>) -> (r: Vec<
    (String, String),
>)
    ensures
        pair_texts(r@) == launcher_places(platform, *path_dirs),
{
    let names: (&'static str, &'static str) = platform.launcher_names();
    let usual: Vec<String> = platform.usual();
    assert(texts(usual@).len() == usual@.len());
    let mut r: Vec<(String, String)> = Vec::new();
    push_places(&mut r, &usual, names);
    assert(pair_texts(r@) =~= launcher_places(platform, None));
    match path_dirs {
        Some(dirs) => {
            push_places(&mut r, dirs, names);
        },
        None => {},
    }
    r
}

/// Whether `r` is the first of some places at which there is a file.
pub open spec fn is_first_launcher(
    places: Seq<(Seq<char>, Seq<char>)>,
    is_file: Seq<bool>,
    r: Option<(String, String)>,
) -> bool {
    match r {
        Some(place) => exists|k: int|
            0 <= k < is_file.len() && #[trigger] is_file[k] && (place.0@, place.1@) == places[k]
                && forall|j: int| 0 <= j < k ==> !#[trigger] is_file[j],
        None => forall|k: int| 0 <= k < is_file.len() ==> !#[trigger] is_file[k],
    }
}

/// The launcher of parallel programs, as a directory and a name, where one is found: `is_file`
/// says at which of the places where it may be there is a file. Nothing is guessed where there is
/// none.
pub fn find_mpirun(
    platform: Platform,
    path_dirs: &Option<Vec<String>>,
    is_file: &Vec<bool>,
) -> (r: Option<(String, String)>)
    requires
        is_file@.len() == launcher_places(platform, *path_dirs).len(),
    ensures
        is_first_launcher(launcher_places(platform, *path_dirs), is_file@, r),
{
    let places: Vec<(String, String)> = mpirun_candidates(platform, path_dirs);
    let ghost shown = pair_texts(places@);
    assert(shown.len() == places@.len());
    let mut i: usize = 0;
    while i < places.len()
        invariant
            i <= places@.len(),
            is_file@.len() == places@.len(),
            shown == pair_texts(places@),
            shown == launcher_places(platform, *path_dirs),
            forall|j: int| 0 <= j < i ==> !#[trigger] is_file@[j],
        decreases places@.len() - i,
    {
        if is_file[i] {
            let place: (String, String) = (places[i].0.clone(), places[i].1.clone());
            assert((place.0@, place.1@) == shown[i as int]);
            return Some(place);
        }
        i += 1;
    }
    None
}

} // verus!
