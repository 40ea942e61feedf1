//! What a run does, told by what it was asked to do.
use crate::pipeline::cases::{
    case_dir, case_run, command_log_path, log_line, prepare_case, std_path, stress_path,
    von_mises_path, CasePlan, CaseRun,
};
use crate::pipeline::loads::{
    case_label, generate_load_xml, load_head, load_xml, strain_line, strain_lines,
};
use crate::pipeline::runner::{
    advanced, amitex_arguments, is_possible, Action, Event, Outcome, Phase, PipelineConfig,
    Progress, Run, RunEvent,
};
use crate::text::{decimal, texts};
use vstd::prelude::*;

verus! {

/// The element of a loading file that sets a strain to one or holds it at zero.
pub open spec fn strain_element(component: Seq<char>, is_one: bool) -> Seq<char> {
    "    <"@ + component + " Driving=\"Strain\" Evolution=\"Linear\" Value=\""@ + (if is_one {
        "1."@
    } else {
        "0."@
    }) + "\"/>\n"@
}

/// The loading file of a case asks for stresses and strains at the end of one step, and tells the
/// six strains in the order xx, yy, zz, xy, xz, yz: the one of the case's direction is one, and the
/// others are zero. Nothing else in it depends on the case.
pub proof fn loading_sets_one_strain(a: usize, r: String)
    requires
        call_ensures(generate_load_xml, (a,), r),
    ensures
        r@ == "<?xml version=\"1.0\" encoding=\"UTF-8\"?>\n"@ + "<Loading_Output>\n\n"@
            + "<Output>\n    <vtk_StressStrain Strain=\"1\" Stress=\"1\"/>\n</Output>\n\n"@
            + "<Loading Tag=\"1\">\n"@
            + "    <Time_Discretization Discretization=\"Linear\" Nincr=\"1\" Tfinal=\"1.\"/>\n"@
            + "    <Output_vtkList>\n      1\n    </Output_vtkList>\n"@ + strain_element(
            "xx"@,
            a == 0,
        ) + strain_element("yy"@, a == 1) + strain_element("zz"@, a == 2) + strain_element(
            "xy"@,
            a == 3,
        ) + strain_element("xz"@, a == 4) + strain_element("yz"@, a == 5)
            + "</Loading>\n\n</Loading_Output>\n"@,
{
    lemma_strains(a as int);
}

proof fn lemma_strains(u: int)
    ensures
        load_xml(u) == load_head() + strain_line(0, u) + strain_line(1, u) + strain_line(2, u)
            + strain_line(3, u) + strain_line(4, u) + strain_line(5, u)
            + "</Loading>\n\n</Loading_Output>\n"@,
{
    reveal_with_fuel(strain_lines, 7);
    let h = load_head();
    let e = Seq::<char>::empty();
    let (a, b, c, d, p, q) = (
        strain_line(0, u),
        strain_line(1, u),
        strain_line(2, u),
        strain_line(3, u),
        strain_line(4, u),
        strain_line(5, u),
    );
    assert(strain_lines(6, u) == e + a + b + c + d + p + q);
    assert(h + (e + a + b + c + d + p + q) =~= h + a + b + c + d + p + q);
}

/// The cases are named after the directions of their strains.
pub proof fn cases_are_named_after_directions(index: usize, r: String)
    requires
        index < 6,
        call_ensures(case_label, (index,), r),
    ensures
        index == 0 ==> r@ == "load_"@ + "xx"@,
        index == 1 ==> r@ == "load_"@ + "yy"@,
        index == 2 ==> r@ == "load_"@ + "zz"@,
        index == 3 ==> r@ == "load_"@ + "xy"@,
        index == 4 ==> r@ == "load_"@ + "xz"@,
        index == 5 ==> r@ == "load_"@ + "yz"@,
{
}

/// What stands between a directory and what is in it.
pub open spec fn beside(dir: Seq<char>) -> Seq<char> {
    if dir.len() == 0 || dir.last() == '/' {
        Seq::empty()
    } else {
        "/"@
    }
}

/// The files of a case lie in its directory, under the case's name, each with its own ending.
pub proof fn case_files_lie_in_its_directory(
    case: CaseRun,
    i: usize,
    results: String,
    log: String,
    stress: String,
    von_mises: String,
)
    requires
        call_ensures(std_path, (&case,), results),
        call_ensures(command_log_path, (&case,), log),
        call_ensures(stress_path, (&case, i), stress),
        call_ensures(von_mises_path, (&case,), von_mises),
    ensures
        ({
            let start = case.dir@ + beside(case.dir@) + "_"@ + case.label@;
            &&& results@ == start + ".std"@
            &&& log@ == start + "_command.log"@
            &&& stress@ == start + "_sig"@ + decimal(i as nat) + "_1.vtk"@
            &&& von_mises@ == start + "_sigVM_1.vtk"@
        }),
{
    reveal_strlit("_");
    let dir = case.dir@;
    let start = dir + beside(dir) + "_"@ + case.label@;
    assert(("_"@ + case.label@ + ".std"@)[0] == '_');
    assert(("_"@ + case.label@ + "_command.log"@)[0] == '_');
    let e = "_sig"@ + decimal(i as nat) + "_1.vtk"@;
    assert(("_"@ + case.label@ + e)[0] == '_');
    assert(("_"@ + case.label@ + "_sigVM_1.vtk"@)[0] == '_');
    assert(results@ =~= start + ".std"@);
    assert(log@ =~= start + "_command.log"@);
    assert(stress@ =~= start + "_sig"@ + decimal(i as nat) + "_1.vtk"@);
    assert(von_mises@ =~= start + "_sigVM_1.vtk"@);
}

/// The directory of a case lies in that of the run, under the case's name; the loading file in it
/// is the one that is generated for the case's direction.
pub proof fn cases_are_prepared_for_their_direction(
    run_dir: &str,
    index: usize,
    label: String,
    load: String,
    dir: String,
    case: CaseRun,
    plan: CasePlan,
)
    requires
        index < 6,
        call_ensures(case_label, (index,), label),
        call_ensures(generate_load_xml, (index,), load),
        call_ensures(case_dir, (run_dir, index), dir),
        call_ensures(case_run, (run_dir, index), case),
        call_ensures(prepare_case, (run_dir, index), plan),
    ensures
        dir@ == run_dir@ + beside(run_dir@) + label@,
        case.dir@ == dir@,
        case.label@ == label@,
        plan.case.dir@ == dir@,
        plan.case.label@ == label@,
        plan.char_path@ == dir@ + "/"@ + "char.xml"@,
        plan.char_xml@ == load@,
{
    reveal_strlit("load_");
    reveal_strlit("char.xml");
    reveal_strlit("xx");
    reveal_strlit("yy");
    reveal_strlit("zz");
    reveal_strlit("xy");
    reveal_strlit("xz");
    reveal_strlit("yz");
    assert(label@[0] == 'l');
    assert(dir@ =~= run_dir@ + beside(run_dir@) + label@);
    assert(dir@.last() == label@.last());
    assert(label@.last() == 'x' || label@.last() == 'y' || label@.last() == 'z');
    assert(plan.char_path@ =~= dir@ + "/"@ + "char.xml"@);
}

/// What is done in each phase of a run is what the configuration asks for the case in hand: its
/// directory is made, its own loading file is written, and the launcher is run in that directory
/// with the case's arguments.
pub proof fn actions_serve_the_case_in_hand(
    run: Run,
    r: Action,
    run_dir: &str,
    index: usize,
    plan: CasePlan,
    label: &str,
    args: Vec<String>,
)
    requires
        run.wf(),
        call_ensures(Run::action, (&run,), r),
        index < 6,
        run_dir@ == run.config.run_dir@,
        call_ensures(prepare_case, (run_dir, index), plan),
        label@ == plan.case.label@,
        call_ensures(amitex_arguments, (&run.config, label), args),
    ensures
        run.phase is CheckMpirun ==> (r matches Action::CheckFile { path } && path@
            == run.config.mpirun_path@),
        run.phase is CheckAmitex ==> (r matches Action::CheckFile { path } && path@
            == run.config.amitex_path@),
        run.phase == (Phase::MakeDir { index }) ==> (r matches Action::MakeDir { path } && path@
            == plan.case.dir@),
        run.phase == (Phase::WriteChar { index }) ==> (r matches Action::WriteFile {
            path,
            contents,
        } && path@ == plan.char_path@ && contents@ == plan.char_xml@),
        run.phase == (Phase::Running { index }) ==> (r matches Action::Run {
            program,
            arguments,
            dir,
            log_path,
            label: name,
        } && program@ == run.config.mpirun_path@ && dir@ == plan.case.dir@ && name@
            == plan.case.label@ && log_path@ == plan.case.dir@ + "/"@ + "_"@ + plan.case.label@
            + "_command.log"@ && arguments@.len() == args@.len() && forall|i: int|
            0 <= i < args@.len() ==> (#[trigger] arguments@[i])@ == args@[i]@),
        run.phase == (Phase::PostProcessing { index }) ==> (r matches Action::PostProcess { case }
            && case.dir@ == plan.case.dir@ && case.label@ == plan.case.label@),
        run.phase is Finished ==> r is Stop,
{
    reveal_strlit("_");
    reveal_strlit("load_");
    reveal_strlit("xx");
    reveal_strlit("yy");
    reveal_strlit("zz");
    reveal_strlit("xy");
    reveal_strlit("xz");
    reveal_strlit("yz");
    let (dir, label) = (plan.case.dir@, plan.case.label@);
    assert(label.last() == 'x' || label.last() == 'y' || label.last() == 'z');
    assert(label[0] == 'l');
    assert(dir.last() == label.last());
    assert(("_"@ + label + "_command.log"@)[0] == '_');
    assert(dir + "/"@ + ("_"@ + label + "_command.log"@) =~= dir + "/"@ + "_"@ + label
        + "_command.log"@);
    if run.phase == (Phase::Running { index }) {
        let given = r->arguments;
        assert(texts(given@) == texts(args@));
        assert(texts(given@).len() == given@.len() && texts(args@).len() == args@.len());
        assert forall|i: int| 0 <= i < args@.len() implies (#[trigger] given@[i])@ == args@[i]@ by {
            assert(texts(given@)[i] == given@[i]@);
            assert(texts(args@)[i] == args@[i]@);
        }
    }
}

/// The launcher gets the solver, the map of materials behind `-nm`, the map of zones behind `-nz`
/// where there is one, the material file behind `-m`, the loading file behind `-c`, the algorithm
/// file behind `-a`, the name of the output behind `-s`, and then the further arguments.
pub proof fn arguments_name_the_files(config: PipelineConfig, label: &str, r: Vec<String>)
    requires
        call_ensures(amitex_arguments, (&config, label), r),
    ensures
        ({
            let n: int = if config.zone_id_vtk is Some {
                2
            } else {
                0
            };
            &&& r@.len() == 11 + n + config.extra_args@.len()
            &&& r@[0]@ == config.amitex_path@
            &&& r@[1]@ == "-nm"@ && r@[2]@ == config.material_id_vtk@
            &&& config.zone_id_vtk matches Some(zone) ==> r@[3]@ == "-nz"@ && r@[4]@ == zone@
            &&& r@[3 + n]@ == "-m"@ && r@[4 + n]@ == config.mat_xml@
            &&& r@[5 + n]@ == "-c"@ && r@[6 + n]@ == "char.xml"@
            &&& r@[7 + n]@ == "-a"@ && r@[8 + n]@ == config.algo_xml@
            &&& r@[9 + n]@ == "-s"@ && r@[10 + n]@ == "_"@ + label@
            &&& forall|i: int|
                0 <= i < config.extra_args@.len() ==> (#[trigger] r@[11 + n + i])@
                    == config.extra_args@[i]@
        }),
{
    let t = texts(r@);
    assert(t.len() == r@.len());
    assert forall|i: int| 0 <= i < r@.len() implies #[trigger] t[i] == r@[i]@ by {}
    let n: int = if config.zone_id_vtk is Some {
        2
    } else {
        0
    };
    assert(t[0] == r@[0]@ && t[1] == r@[1]@ && t[2] == r@[2]@ && t[3] == r@[3]@ && t[4] == r@[4]@);
    assert(t[3 + n] == r@[3 + n]@ && t[4 + n] == r@[4 + n]@ && t[5 + n] == r@[5 + n]@);
    assert(t[6 + n] == r@[6 + n]@ && t[7 + n] == r@[7 + n]@ && t[8 + n] == r@[8 + n]@);
    assert(t[9 + n] == r@[9 + n]@ && t[10 + n] == r@[10 + n]@);
    assert forall|i: int| 0 <= i < config.extra_args@.len() implies (#[trigger] r@[11 + n + i])@
        == config.extra_args@[i]@ by {
        assert(t[11 + n + i] == r@[11 + n + i]@);
        assert(texts(config.extra_args@)[i] == config.extra_args@[i]@);
    }
}

/// A case ends as its program did: with success, after its stress has been computed or that has
/// been given up, or without; then the next case begins, or the run ends.
pub proof fn cases_end_as_their_programs_do(
    p: Progress,
    config: PipelineConfig,
    index: usize,
    outcome: Outcome,
)
    requires
        is_possible(p),
        index < 6,
    ensures
        ({
            let (next, events) = advanced(p, config, outcome);
            let last = events.len() - 1;
            // A program that succeeds is followed by the stress of its case.
            &&& p.phase == (Phase::Running { index }) && outcome == (Outcome::Exited {
                success: true,
            }) ==> next == (Progress {
                phase: Phase::PostProcessing { index },
                results: p.results,
            }) && events.len() == 0
            // One that fails ends its case without success.
            &&& p.phase == (Phase::Running { index }) && outcome == (Outcome::Exited {
                success: false,
            }) ==> next.results == p.results.push(false) && events[0] == (Event::CaseFinished {
                case: index as int,
                success: false,
            })
            // One that cannot be started is told of, and ends its case without success.
            &&& p.phase == (Phase::Running { index }) && outcome is NotStarted ==> next.results
                == p.results.push(false) && events[0] is Fatal && events[1]
                == (Event::CaseFinished { case: index as int, success: false })
            // Whatever came of the stress, the case has succeeded.
            &&& p.phase == (Phase::PostProcessing { index }) && outcome is PostProcessed
                ==> next.results == p.results.push(true) && events[0] is CaseOutput && events[1]
                == (Event::CaseFinished { case: index as int, success: true })
            // The next case begins, or the run ends.
            &&& next.results.len() == p.results.len() + 1 && index < 5 && (p.phase == (
            Phase::Running { index }) || p.phase == (Phase::PostProcessing { index }))
                ==> next.phase == (Phase::Running { index: (index + 1) as usize })
                && events[last] == (Event::CaseStarted { case: index + 1 })
            &&& next.results.len() == 6 && p.results.len() == 5 ==> next.phase is Finished
        }),
{
}

/// Every case is prepared before the first one is run: a directory that was made is followed by its
/// loading file, that by the next directory, and the last one by the first case.
pub proof fn cases_are_prepared_in_turn(
    p: Progress,
    config: PipelineConfig,
    index: usize,
)
    requires
        is_possible(p),
        index < 6,
    ensures
        p.phase is CheckMpirun ==> advanced(p, config, Outcome::Checked { is_file: true }).0.phase
            is CheckAmitex && advanced(
            p,
            config,
            Outcome::Checked { is_file: false },
        ).0.phase is Finished,
        p.phase is CheckAmitex ==> advanced(p, config, Outcome::Checked { is_file: true }).0.phase
            == (Phase::MakeDir { index: 0 }) && advanced(
            p,
            config,
            Outcome::Checked { is_file: false },
        ).0.phase is Finished,
        p.phase == (Phase::MakeDir { index }) ==> advanced(
            p,
            config,
            Outcome::Done { success: true },
        ).0.phase == (Phase::WriteChar { index }) && advanced(
            p,
            config,
            Outcome::Done { success: false },
        ).0.phase is Finished,
        p.phase == (Phase::WriteChar { index }) ==> advanced(
            p,
            config,
            Outcome::Done { success: true },
        ).0.phase == (if index == 5 {
            Phase::Running { index: 0 }
        } else {
            Phase::MakeDir { index: (index + 1) as usize }
        }) && advanced(p, config, Outcome::Done { success: false }).0.phase is Finished,
{
}

/// What is told of a run names the case and says what happened to it; with the results come the
/// result files of the six cases, in the order of the directions.
pub proof fn events_say_what_happened(
    e: RunEvent,
    event: Event,
    run_dir: &str,
    index: usize,
    case: CaseRun,
    results: String,
)
    requires
        index < 6,
        e.tells(event, run_dir@),
        call_ensures(case_run, (run_dir, index), case),
        call_ensures(std_path, (&case,), results),
    ensures
        event == (Event::CaseStarted { case: index as int }) ==> (e matches RunEvent::CaseStarted {
            case: name,
        } && name@ == case.label@),
        event is CaseOutput && event->CaseOutput_case == index ==> (e matches RunEvent::CaseOutput {
            case: name,
            line,
        } && name@ == case.label@ && line@ == event->line),
        event is CaseFinished && event->CaseFinished_case == index ==> (
        e matches RunEvent::CaseFinished { case: name, success } && name@ == case.label@ && success
            == event->success),
        event is Fatal ==> (e matches RunEvent::Fatal { message } && message@ == event->message),
        event is AllFinished ==> (e matches RunEvent::AllFinished { std_paths }
            && std_paths@.len() == 6 && std_paths@[index as int]@ == results@),
{
    if event is AllFinished {
        let paths = e->std_paths;
        assert(texts(paths@).len() == paths@.len());
        assert(texts(paths@)[index as int] == paths@[index as int]@);
    }
}

/// A line that is kept of a program's output names the stream that it came from.
pub proof fn output_is_kept_with_its_stream(stream: &str, line: &str, r: String)
    requires
        call_ensures(log_line, (stream, line), r),
    ensures
        r@ == "["@ + stream@ + "] "@ + line@,
{
}

} // verus!
