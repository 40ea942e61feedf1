//! What is read of an environment, and where programs are looked for.
use crate::pipeline::environment::{
    amitex_candidates, assignments, both_in_directories, find_mpirun, first_value, get_variable,
    in_directories, mpirun_candidates, pair_texts, parse_environment, resolve_amitex_binary,
    solver_places, source_env_script, Platform,
};
use crate::pipeline::paths::{join_path, path_join};
use crate::text::{lemma_span_before, lines, lossy_text, span_before, texts, trimmed};
use vstd::prelude::*;

verus! {

/// Whether a line assigns `value` to the variable called `name`: the two stand before and after its
/// first equals sign.
pub open spec fn assigns(line: Seq<char>, name: Seq<char>, value: Seq<char>) -> bool {
    line == name + "="@ + value && forall|i: int| 0 <= i < name.len() ==> #[trigger] name[i] != '='
}

proof fn lemma_split(line: Seq<char>)
    ensures
        ({
            let n = span_before(line, '=') as int;
            n < line.len() ==> assigns(line, line.take(n), line.skip(n + 1))
        }),
        span_before(line, '=') >= line.len() ==> forall|i: int|
            0 <= i < line.len() ==> #[trigger] line[i] != '=',
{
    let n = span_before(line, '=') as int;
    lemma_span_before(line, '=');
    reveal_strlit("=");
    if n < line.len() {
        assert(line =~= line.take(n) + "="@ + line.skip(n + 1));
    }
}

proof fn lemma_assignments(all: Seq<Seq<char>>, k: nat)
    requires
        k <= all.len(),
    ensures
        ({
            let r = assignments(all, k);
            &&& r.len() <= k
            &&& forall|i: int|
                0 <= i < k ==> (exists|j: int|
                    0 <= j < (#[trigger] all[i]).len() && all[i][j] == '=')
                    ==> exists|m: int|
                    0 <= m < r.len() && assigns(all[i], (#[trigger] r[m]).0, r[m].1)
            &&& forall|m: int|
                0 <= m < r.len() ==> exists|i: int|
                    0 <= i < k && assigns(#[trigger] all[i], (#[trigger] r[m]).0, r[m].1)
        }),
    decreases k,
{
    if k > 0 {
        let before = assignments(all, (k - 1) as nat);
        let r = assignments(all, k);
        lemma_assignments(all, (k - 1) as nat);
        lemma_split(all[k - 1]);
        assert forall|i: int|
            0 <= i < k && (exists|j: int|
                0 <= j < (#[trigger] all[i]).len() && all[i][j] == '=') implies exists|m: int|
            0 <= m < r.len() && assigns(all[i], (#[trigger] r[m]).0, r[m].1) by {
            if i < k - 1 {
                let m = choose|m: int|
                    0 <= m < before.len() && assigns(all[i], (#[trigger] before[m]).0, before[m].1);
                assert(r[m] == before[m]);
            } else {
                assert(r.len() == before.len() + 1);
                assert(assigns(all[i], r[before.len() as int].0, r[before.len() as int].1));
            }
        }
        assert forall|m: int| 0 <= m < r.len() implies exists|i: int|
            0 <= i < k && assigns(#[trigger] all[i], (#[trigger] r[m]).0, r[m].1) by {
            if m < before.len() {
                assert(r[m] == before[m]);
                let i = choose|i: int|
                    0 <= i < k - 1 && assigns(#[trigger] all[i], before[m].0, before[m].1);
                assert(assigns(all[i], r[m].0, r[m].1));
            } else {
                assert(assigns(all[k - 1], r[m].0, r[m].1));
            }
        }
    }
}

/// The variables that are read are those that the lines assign: each line with an equals sign
/// gives one, and there is none that no line assigns.
pub proof fn environment_holds_the_assignments(text: &str, r: Vec<(String, String)>)
    requires
        call_ensures(parse_environment, (text,), r),
    ensures
        forall|i: int|
            0 <= i < lines(text@).len() && (exists|j: int|
                0 <= j < (#[trigger] lines(text@)[i]).len() && lines(text@)[i][j] == '=')
                ==> exists|m: int|
                0 <= m < r@.len() && assigns(lines(text@)[i], (#[trigger] r@[m]).0@, r@[m].1@),
        forall|m: int|
            0 <= m < r@.len() ==> exists|i: int|
                0 <= i < lines(text@).len() && assigns(
                    #[trigger] lines(text@)[i],
                    (#[trigger] r@[m]).0@,
                    r@[m].1@,
                ),
{
    let all = lines(text@);
    let found = assignments(all, all.len());
    lemma_assignments(all, all.len());
    assert(found.len() == r@.len());
    assert forall|m: int| 0 <= m < r@.len() implies #[trigger] found[m] == (r@[m].0@, r@[m].1@) by {
        assert(pair_texts(r@)[m] == (r@[m].0@, r@[m].1@));
    }
    assert forall|i: int|
        0 <= i < all.len() && (exists|j: int|
            0 <= j < (#[trigger] all[i]).len() && all[i][j] == '=') implies exists|m: int|
        0 <= m < r@.len() && assigns(all[i], (#[trigger] r@[m]).0@, r@[m].1@) by {
        let m = choose|m: int|
            0 <= m < found.len() && assigns(all[i], (#[trigger] found[m]).0, found[m].1);
        assert(assigns(all[i], r@[m].0@, r@[m].1@));
    }
    assert forall|m: int| 0 <= m < r@.len() implies exists|i: int|
        0 <= i < all.len() && assigns(#[trigger] all[i], (#[trigger] r@[m]).0@, r@[m].1@) by {
        assert(found[m] == (r@[m].0@, r@[m].1@));
        let i = choose|i: int|
            0 <= i < all.len() && assigns(#[trigger] all[i], found[m].0, found[m].1);
        assert(assigns(all[i], r@[m].0@, r@[m].1@));
    }
}

proof fn lemma_first_value(env: Seq<(Seq<char>, Seq<char>)>, name: Seq<char>, k: nat)
    requires
        k <= env.len(),
    ensures
        match first_value(env, name, k) {
            Some(value) => exists|i: int|
                0 <= i < k && #[trigger] env[i] == (name, value) && forall|j: int|
                    0 <= j < i ==> (#[trigger] env[j]).0 != name,
            None => forall|j: int| 0 <= j < k ==> (#[trigger] env[j]).0 != name,
        },
    decreases k,
{
    if k > 0 {
        lemma_first_value(env, name, (k - 1) as nat);
        if first_value(env, name, (k - 1) as nat) is None && env[k - 1].0 == name {
            assert(env[k - 1] == (name, env[k - 1].1));
        }
    }
}

/// The value of a variable is that of the first one with its name.
pub proof fn first_assignment_counts(env: Vec<(String, String)>, name: &str, r: Option<String>)
    requires
        call_ensures(get_variable, (&env, name), r),
    ensures
        match r {
            Some(value) => exists|i: int|
                0 <= i < env@.len() && (#[trigger] env@[i]).0@ == name@ && env@[i].1@ == value@
                    && forall|j: int| 0 <= j < i ==> (#[trigger] env@[j]).0@ != name@,
            None => forall|j: int| 0 <= j < env@.len() ==> (#[trigger] env@[j]).0@ != name@,
        },
{
    let t = pair_texts(env@);
    lemma_first_value(t, name@, t.len());
    assert(t.len() == env@.len());
    assert forall|i: int| 0 <= i < env@.len() implies #[trigger] t[i] == (
        env@[i].0@,
        env@[i].1@,
    ) by {}
    match r {
        Some(value) => {
            let i = choose|i: int|
                0 <= i < t.len() && #[trigger] t[i] == (name@, value@) && forall|j: int|
                    0 <= j < i ==> (#[trigger] t[j]).0 != name@;
            assert(env@[i].0@ == name@);
            assert forall|j: int| 0 <= j < i implies (#[trigger] env@[j]).0@ != name@ by {
                assert(t[j] == (env@[j].0@, env@[j].1@));
            }
        },
        None => {
            assert forall|j: int| 0 <= j < env@.len() implies (#[trigger] env@[j]).0@ != name@ by {
                assert(t[j] == (env@[j].0@, env@[j].1@));
            }
        },
    }
}

proof fn lemma_in_directories(dirs: Seq<Seq<char>>, name: Seq<char>, k: nat)
    ensures
        in_directories(dirs, name, k).len() == k,
        forall|i: int|
            0 <= i < k ==> #[trigger] in_directories(dirs, name, k)[i]
                == path_join(dirs[i], name),
    decreases k,
{
    if k > 0 {
        lemma_in_directories(dirs, name, (k - 1) as nat);
    }
}

/// The solver is looked for in its own place first, where the environment tells it, and then in
/// each directory that is searched for programs, in their order, where the environment has any.
pub proof fn solver_is_looked_for_in_order(
    env: Vec<(String, String)>,
    dirs: Vec<String>,
    own_name: &str,
    path_name: &str,
    own: Option<String>,
    path: Option<String>,
    r: Vec<String>,
)
    requires
        own_name@ == "AMITEX_PATH"@,
        path_name@ == "PATH"@,
        call_ensures(get_variable, (&env, own_name), own),
        call_ensures(get_variable, (&env, path_name), path),
        call_ensures(amitex_candidates, (&env, &dirs), r),
    ensures
        ({
            let n: int = if own is Some {
                1
            } else {
                0
            };
            &&& r@.len() == n + (if path is Some {
                dirs@.len() as int
            } else {
                0
            })
            &&& forall|root: &str, part: &str, place: String|
                own is Some && root@ == own->0@ && part@ == "libAmitex/bin/amitex_fftp"@
                    && #[trigger] call_ensures(join_path, (root, part), place) ==> r@[0]@ == place@
            &&& forall|i: int, dir: &str, part: &str, place: String|
                path is Some && 0 <= i < dirs@.len() && dir@ == (#[trigger] dirs@[i])@ && part@
                    == "amitex_fftp"@ && #[trigger] call_ensures(join_path, (dir, part), place)
                    ==> r@[n + i]@ == place@
        }),
{
    let t = texts(r@);
    let d = texts(dirs@);
    lemma_in_directories(d, "amitex_fftp"@, d.len());
    assert(t.len() == r@.len() && d.len() == dirs@.len());
    assert(t == solver_places(env@, d));
    if own is Some {
        assert(t[0] == r@[0]@);
    }
    let n: int = if own is Some {
        1
    } else {
        0
    };
    assert forall|i: int, dir: &str, part: &str, place: String|
        path is Some && 0 <= i < dirs@.len() && dir@ == (#[trigger] dirs@[i])@ && part@
            == "amitex_fftp"@ && #[trigger] call_ensures(join_path, (dir, part), place) implies r@[n
        + i]@ == place@ by {
        assert(t[n + i] == r@[n + i]@);
        assert(d[i] == dirs@[i]@);
        assert(t[n + i] == in_directories(d, "amitex_fftp"@, d.len())[i]);
    }
}

/// Of the places where the solver is looked for, the first one with a file is taken, and none where
/// there is no file at any.
pub proof fn first_place_with_a_file_is_taken(
    env: Vec<(String, String)>,
    dirs: Vec<String>,
    is_file: Vec<bool>,
    places: Vec<String>,
    r: Option<String>,
)
    requires
        call_ensures(amitex_candidates, (&env, &dirs), places),
        is_file@.len() == places@.len(),
        call_ensures(resolve_amitex_binary, (&env, &dirs, &is_file), r),
    ensures
        match r {
            Some(place) => exists|k: int|
                0 <= k < places@.len() && #[trigger] is_file@[k] && place@ == places@[k]@
                    && forall|j: int| 0 <= j < k ==> !#[trigger] is_file@[j],
            None => forall|j: int| 0 <= j < places@.len() ==> !#[trigger] is_file@[j],
        },
{
    let t = texts(places@);
    assert(t.len() == places@.len());
    assert forall|k: int| 0 <= k < t.len() implies #[trigger] t[k] == places@[k]@ by {}
    match r {
        Some(place) => {
            let k = choose|k: int|
                0 <= k < t.len() && #[trigger] is_file@[k] && place@ == t[k] && forall|j: int|
                    0 <= j < k ==> !#[trigger] is_file@[j];
            assert(place@ == places@[k]@);
        },
        None => {},
    }
}

proof fn lemma_both(dirs: Seq<Seq<char>>, names: Seq<Seq<char>>, k: nat)
    ensures
        both_in_directories(dirs, names, k).len() == 2 * k,
        forall|i: int|
            0 <= i < k ==> both_in_directories(dirs, names, k)[2 * i] == (
                #[trigger] dirs[i],
                names[0],
            ) && both_in_directories(dirs, names, k)[2 * i + 1] == (dirs[i], names[1]),
    decreases k,
{
    if k > 0 {
        lemma_both(dirs, names, (k - 1) as nat);
    }
}

/// The launcher is looked for in the directories where it is usually installed on the system, and
/// then in those that are searched for programs, in each under its two names in turn.
pub proof fn launcher_is_looked_for_in_order(
    platform: Platform,
    dirs: Option<Vec<String>>,
    r: Vec<(String, String)>,
    i: int,
)
    requires
        call_ensures(mpirun_candidates, (platform, &dirs), r),
    ensures
        ({
            let names = if platform == Platform::Windows {
                ("mpiexec.exe"@, "mpirun.exe"@)
            } else {
                ("mpirun"@, "mpiexec"@)
            };
            let usual = match platform {
                Platform::MacOs => seq!["/opt/homebrew/bin"@, "/usr/local/bin"@, "/opt/local/bin"@],
                Platform::Linux => seq!["/usr/bin"@, "/usr/local/bin"@, "/opt/openmpi/bin"@],
                Platform::Windows => seq![
                    "C:\\Program Files\\Microsoft MPI\\Bin"@,
                    "C:\\Program Files (x86)\\Microsoft MPI\\Bin"@,
                ],
                Platform::Other => Seq::empty(),
            };
            let n = usual.len() as int;
            &&& r@.len() == 2 * n + (match dirs {
                Some(list) => 2 * list@.len() as int,
                None => 0,
            })
            &&& 0 <= i < n ==> r@[2 * i].0@ == usual[i] && r@[2 * i].1@ == names.0 && r@[2 * i
                + 1].0@ == usual[i] && r@[2 * i + 1].1@ == names.1
            &&& dirs matches Some(list) ==> (0 <= i < list@.len() ==> r@[2 * (n + i)].0@
                == list@[i]@ && r@[2 * (n + i)].1@ == names.0 && r@[2 * (n + i) + 1].0@
                == list@[i]@ && r@[2 * (n + i) + 1].1@ == names.1)
        }),
{
    let t = pair_texts(r@);
    assert(t.len() == r@.len());
    assert forall|k: int| 0 <= k < t.len() implies #[trigger] t[k] == (r@[k].0@, r@[k].1@) by {}
    let usual = platform.usual_directories();
    let names = platform.launchers();
    lemma_both(usual, names, usual.len());
    let n = usual.len() as int;
    if 0 <= i < n {
        assert(usual[i] == usual[i]);
        assert(t[2 * i] == (r@[2 * i].0@, r@[2 * i].1@));
        assert(t[2 * i + 1] == (r@[2 * i + 1].0@, r@[2 * i + 1].1@));
    }
    match dirs {
        Some(list) => {
            let d = texts(list@);
            lemma_both(d, names, d.len());
            assert(d.len() == list@.len());
            if 0 <= i < list@.len() {
                assert(d[i] == list@[i]@);
                assert(t[2 * (n + i)] == (r@[2 * (n + i)].0@, r@[2 * (n + i)].1@));
                assert(t[2 * (n + i) + 1] == (r@[2 * (n + i) + 1].0@, r@[2 * (n + i) + 1].1@));
            }
        },
        None => {},
    }
}

/// What a script leaves behind: the assignments in its output where it succeeds, and else what it
/// complained of, without the white space around it.
pub proof fn scripts_are_answered_by_their_output(
    script: &str,
    success: bool,
    stdout: Vec<u8>,
    stderr: Vec<u8>,
    r: Result<Vec<(String, String)>, String>,
    listing: &str,
    env: Vec<(String, String)>,
    complaint: &str,
    short: String,
)
    requires
        call_ensures(source_env_script, (script, success, &stdout, &stderr), r),
        listing@ == lossy_text(stdout@),
        call_ensures(parse_environment, (listing,), env),
        complaint@ == lossy_text(stderr@),
        call_ensures(trimmed, (complaint,), short),
    ensures
        success ==> r is Ok && pair_texts(r->Ok_0@) == pair_texts(env@),
        !success ==> r is Err && r->Err_0@ == "sourcing "@ + script@ + " failed: "@ + short@,
{
}

/// The launcher that is taken is the first in the order of the places at which there is a file.
pub proof fn first_launcher_is_taken(
    platform: Platform,
    dirs: Option<Vec<String>>,
    is_file: Vec<bool>,
    places: Vec<(String, String)>,
    r: Option<(String, String)>,
    k: int,
)
    requires
        call_ensures(mpirun_candidates, (platform, &dirs), places),
        is_file@.len() == places@.len(),
        call_ensures(find_mpirun, (platform, &dirs, &is_file), r),
        0 <= k < places@.len(),
        forall|j: int| 0 <= j < k ==> !#[trigger] is_file@[j],
    ensures
        is_file@[k] ==> (r matches Some(place) && place.0@ == places@[k].0@ && place.1@
            == places@[k].1@),
        !is_file@[k] && k == places@.len() - 1 ==> r is None,
{
    let t = pair_texts(places@);
    assert(t[k] == (places@[k].0@, places@[k].1@));
}

/// What lies below a directory has its path with one slash between; a path from the root is taken
/// as it stands.
pub proof fn paths_are_joined_by_one_slash(base: &str, part: &str, r: String)
    requires
        call_ensures(join_path, (base, part), r),
    ensures
        ({
            let rooted = part@.len() > 0 && part@[0] == '/';
            let open = base@.len() > 0 && base@.last() != '/';
            &&& rooted ==> r@ == part@
            &&& !rooted && open ==> r@ == base@.push('/') + part@
            &&& !rooted && !open ==> r@ == base@ + part@
        }),
{
    reveal_strlit("/");
    assert(base@ + "/"@ =~= base@.push('/'));
}

} // verus!
