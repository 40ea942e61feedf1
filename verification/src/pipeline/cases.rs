//! The directories and files of the load cases.
use crate::pipeline::loads::{
    case_label, case_name, case_names_differ, generate_load_xml, load_xml, DIRECTIONS,
};
use crate::pipeline::paths::{join_path, path_join};
use crate::text::{decimal, is_digit, lemma_decimal_digits};
use crate::writing::push_count;
use vstd::prelude::*;

verus! {

/// A load case: its name, and the directory that it is run in.
pub struct CaseRun {
    pub label: String,
    pub dir: String,
}

/// The directory of the load case for direction `index`.
pub open spec fn case_directory(run_dir: Seq<char>, index: int) -> Seq<char> {
    path_join(run_dir, case_name(index))
}

/// The directory of the load case for direction `index`.
pub fn case_dir(run_dir: &str, index: usize) -> (r: String)
    requires
        index < DIRECTIONS,
    ensures
        r@ == case_directory(run_dir@, index as int),
{
    join_path(run_dir, case_label(index).as_str())
}

/// The load case for direction `index`.
pub fn case_run(run_dir: &str, index: usize) -> (r: CaseRun)
    requires
        index < DIRECTIONS,
    ensures
        r.label@ == case_name(index as int),
        r.dir@ == case_directory(run_dir@, index as int),
{
    CaseRun { label: case_label(index), dir: case_dir(run_dir, index) }
}

/// A file of a load case: an underscore, the name of the case, and an ending.
pub open spec fn case_file(dir: Seq<char>, label: Seq<char>, ending: Seq<char>) -> Seq<char> {
    path_join(dir, "_"@ + label + ending)
}

fn join_case_file(case: &CaseRun, ending: &str) -> (r: String)
    ensures
        r@ == case_file(case.dir@, case.label@, ending@),
{
    let mut name: String = "_".to_owned();
    name.append(case.label.as_str());
    name.append(ending);
    join_path(case.dir.as_str(), name.as_str())
}

/// The results of a case.
pub fn std_path(case: &CaseRun) -> (r: String)
    ensures
        r@ == case_file(case.dir@, case.label@, ".std"@),
{
    join_case_file(case, ".std")
}

/// Where the output of a case is kept. The solver's own log is another file, and lacks what is
/// said where a process crashes.
pub fn command_log_path(case: &CaseRun) -> (r: String)
    ensures
        r@ == case_file(case.dir@, case.label@, "_command.log"@),
{
    join_case_file(case, "_command.log")
}

/// The ending of the file of stress component `i`, counted from one.
pub open spec fn stress_ending(i: nat) -> Seq<char> {
    "_sig"@ + decimal(i) + "_1.vtk"@
}

/// The file of stress component `i` of a case, counted from one.
pub fn stress_path(case: &CaseRun, i: usize) -> (r: String)
    ensures
        r@ == case_file(case.dir@, case.label@, stress_ending(i as nat)),
{
    let mut ending: String = "_sig".to_owned();
    push_count(&mut ending, i);
    ending.append("_1.vtk");
    join_case_file(case, ending.as_str())
}

/// The file of the von Mises stress of a case.
pub fn von_mises_path(case: &CaseRun) -> (r: String)
    ensures
        r@ == case_file(case.dir@, case.label@, "_sigVM_1.vtk"@),
{
    join_case_file(case, "_sigVM_1.vtk")
}

/// What has to be there before a case is run: its directory, and in it the loading file. The
/// other files are the same for all cases, and are not copied.
pub struct CasePlan {
    pub case: CaseRun,
    pub char_path: String,
    pub char_xml: String,
}

/// What the case for direction `index` needs before it is run.
pub fn prepare_case(run_dir: &str, index: usize) -> (r: CasePlan)
    requires
        index < DIRECTIONS,
    ensures
        r.case.label@ == case_name(index as int),
        r.case.dir@ == case_directory(run_dir@, index as int),
        r.char_path@ == path_join(r.case.dir@, "char.xml"@),
        r.char_xml@ == load_xml(index as int),
{
    let case: CaseRun = case_run(run_dir, index);
    let char_path: String = join_path(case.dir.as_str(), "char.xml");
    CasePlan { case, char_path, char_xml: generate_load_xml(index) }
}

/// A line of a case's output as it is kept, with the stream that it came from.
pub fn log_line(stream: &str, line: &str) -> (r: String)
    ensures
        r@ == "["@ + stream@ + "] "@ + line@,
{
    let mut r: String = "[".to_owned();
    r.append(stream);
    r.append("] ");
    r.append(line);
    r
}

/// No two load cases share a directory.
pub proof fn case_directories_differ(run_dir: Seq<char>, a: int, b: int)
    requires
        0 <= a < DIRECTIONS,
        0 <= b < DIRECTIONS,
        case_directory(run_dir, a) == case_directory(run_dir, b),
    ensures
        a == b,
{
    reveal_strlit("load_");
    assert(case_name(a)[0] == 'l' && case_name(b)[0] == 'l');
    let start = if run_dir.len() == 0 || run_dir.last() == '/' {
        run_dir
    } else {
        run_dir + "/"@
    };
    assert(case_directory(run_dir, a).skip(start.len() as int) =~= case_name(a));
    assert(case_directory(run_dir, b).skip(start.len() as int) =~= case_name(b));
    case_names_differ(a, b);
}

proof fn lemma_case_files_differ(dir: Seq<char>, label: Seq<char>, e: Seq<char>, f: Seq<char>)
    requires
        e != f,
    ensures
        case_file(dir, label, e) != case_file(dir, label, f),
{
    reveal_strlit("_");
    let head = "_"@ + label;
    assert((head + e)[0] == '_' && (head + f)[0] == '_');
    let start = if dir.len() == 0 || dir.last() == '/' {
        dir
    } else {
        dir + "/"@
    };
    let n = (start.len() + head.len()) as int;
    assert(case_file(dir, label, e).skip(n) =~= e);
    assert(case_file(dir, label, f).skip(n) =~= f);
}

/// The log of a case's output is neither its result file nor the solver's own log, and the von
/// Mises stress is written to none of the files that it is computed from.
pub proof fn case_files_differ(dir: Seq<char>, label: Seq<char>, i: nat)
    ensures
        case_file(dir, label, "_command.log"@) != case_file(dir, label, ".log"@),
        case_file(dir, label, "_command.log"@) != case_file(dir, label, ".std"@),
        case_file(dir, label, "_sigVM_1.vtk"@) != case_file(dir, label, stress_ending(i)),
{
    reveal_strlit("_command.log");
    reveal_strlit(".log");
    reveal_strlit(".std");
    reveal_strlit("_sigVM_1.vtk");
    reveal_strlit("_sig");
    assert("_command.log"@[0] != ".log"@[0]);
    assert("_command.log"@[0] != ".std"@[0]);
    lemma_decimal_digits(i);
    assert(is_digit(decimal(i)[0]));
    assert(stress_ending(i)[4] == decimal(i)[0]);
    assert("_sigVM_1.vtk"@[4] == 'V');
    lemma_case_files_differ(dir, label, "_command.log"@, ".log"@);
    lemma_case_files_differ(dir, label, "_command.log"@, ".std"@);
    lemma_case_files_differ(dir, label, "_sigVM_1.vtk"@, stress_ending(i));
}

} // verus!
