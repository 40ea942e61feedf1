//! The course of a run: what is done next, and what is told of it.
//!
//! A run checks that the programs are there, prepares the six load cases, and runs them one after
//! another, since each uses all processors by itself. A case that succeeds is post-processed. When
//! all six have succeeded, their results are announced.
use crate::pipeline::cases::{
    case_directory, case_file, case_run, command_log_path, prepare_case, std_path, CasePlan,
    CaseRun,
};
use crate::pipeline::loads::{case_label, case_name, load_xml, DIRECTIONS};
use crate::pipeline::paths::path_join;
use crate::pipeline::permissions::check_binary_exists;
use crate::pipeline::stress::{postprocess_line, report_line, StressReport};
use crate::text::{lemma_texts_push, texts};
use vstd::prelude::*;

verus! {

/// Everything that a run needs to know.
pub struct PipelineConfig {
    /// The directory that the directories of the load cases are made in.
    pub run_dir: String,
    /// The map of materials, the same for all cases.
    pub material_id_vtk: String,
    /// The map of zones within the materials; without one, each material is one zone.
    pub zone_id_vtk: Option<String>,
    pub mat_xml: String,
    pub algo_xml: String,
    pub amitex_path: String,
    pub mpirun_path: String,
    /// The environment that the solver is run in.
    pub env_vars: Vec<(String, String)>,
    /// Further arguments for the solver, handed on as they are.
    pub extra_args: Vec<String>,
}

/// What is told of a run.
pub enum RunEvent {
    CaseStarted { case: String },
    CaseOutput { case: String, line: String },
    CaseFinished { case: String, success: bool },
    /// All six cases have succeeded; these are their results, in the order of the directions.
    AllFinished { std_paths: Vec<String> },
    Fatal { message: String },
}

/// How far a run has come.
#[derive(Clone, Copy, PartialEq, Eq, Structural, Debug)]
pub enum Phase {
    CheckMpirun,
    CheckAmitex,
    MakeDir { index: usize },
    WriteChar { index: usize },
    Running { index: usize },
    PostProcessing { index: usize },
    Finished,
}

/// What is to be done next.
pub enum Action {
    /// See whether there is a file.
    CheckFile { path: String },
    MakeDir { path: String },
    WriteFile { path: String, contents: String },
    /// Run a program in a directory until it exits, with its output kept in a file.
    Run { program: String, arguments: Vec<String>, dir: String, log_path: String, label: String },
    /// Compute the von Mises stress from the files of the stress components.
    PostProcess { case: CaseRun },
    Stop,
}

/// What came of what was done.
pub enum Outcome {
    /// Whether there is a file.
    Checked { is_file: bool },
    /// Whether a directory was made or a file was written.
    Done { success: bool },
    /// The program could not be started.
    NotStarted { reason: String },
    Exited { success: bool },
    PostProcessed { report: StressReport },
}

/// What is told of a run, with load cases told by their direction.
pub enum Event {
    CaseStarted { case: int },
    CaseOutput { case: int, line: Seq<char> },
    CaseFinished { case: int, success: bool },
    AllFinished,
    Fatal { message: Seq<char> },
}

impl RunEvent {
    /// Whether this tells of `event` in a run in `run_dir`.
    pub open spec fn tells(self, event: Event, run_dir: Seq<char>) -> bool {
        match (self, event) {
            (RunEvent::CaseStarted { case }, Event::CaseStarted { case: index }) => case@
                == case_name(index),
            (RunEvent::CaseOutput { case, line }, Event::CaseOutput { case: index, line: text }) =>
                case@ == case_name(index) && line@ == text,
            (
                RunEvent::CaseFinished { case, success },
                Event::CaseFinished { case: index, success: ok },
            ) => case@ == case_name(index) && success == ok,
            (RunEvent::AllFinished { std_paths }, Event::AllFinished) => texts(std_paths@)
                == Seq::new(DIRECTIONS as nat, |i: int| std_path_of(run_dir, i)),
            (RunEvent::Fatal { message }, Event::Fatal { message: text }) => message@ == text,
            _ => false,
        }
    }
}

/// The results of the case for direction `index`.
pub open spec fn std_path_of(run_dir: Seq<char>, index: int) -> Seq<char> {
    case_file(case_directory(run_dir, index), case_name(index), ".std"@)
}

/// Whether some events are told one by one.
pub open spec fn all_told(told: Seq<RunEvent>, events: Seq<Event>, run_dir: Seq<char>) -> bool {
    &&& told.len() == events.len()
    &&& forall|i: int| 0 <= i < events.len() ==> (#[trigger] told[i]).tells(events[i], run_dir)
}

/// How far a run has come, and which of the cases that have ended succeeded.
pub struct Progress {
    pub phase: Phase,
    pub results: Seq<bool>,
}

/// Whether all of some cases succeeded.
pub open spec fn all_true(results: Seq<bool>) -> bool {
    forall|i: int| 0 <= i < results.len() ==> #[trigger] results[i]
}

/// A run goes on after the case for direction `index` has ended.
pub open spec fn after_case(p: Progress, index: usize, success: bool) -> (Progress, Seq<Event>) {
    let results = p.results.push(success);
    let ended = Event::CaseFinished { case: index as int, success };
    if index + 1 < DIRECTIONS {
        (
            Progress { phase: Phase::Running { index: (index + 1) as usize }, results },
            seq![ended, Event::CaseStarted { case: index + 1 }],
        )
    } else if all_true(results) {
        (Progress { phase: Phase::Finished, results }, seq![ended, Event::AllFinished])
    } else {
        (Progress { phase: Phase::Finished, results }, seq![ended])
    }
}

/// A run ends before any case has begun.
pub open spec fn given_up(p: Progress, message: Seq<char>) -> (Progress, Seq<Event>) {
    (Progress { phase: Phase::Finished, results: p.results }, seq![Event::Fatal { message }])
}

/// How a run goes on, and what is told of it, where what was done has the given outcome. An
/// outcome of something else than what was to be done changes nothing.
pub open spec fn advanced(p: Progress, config: PipelineConfig, outcome: Outcome) -> (
    Progress,
    Seq<Event>,
) {
    let run_dir = config.run_dir@;
    match (p.phase, outcome) {
        (Phase::CheckMpirun, Outcome::Checked { is_file }) => if is_file {
            (Progress { phase: Phase::CheckAmitex, results: p.results }, Seq::empty())
        } else {
            given_up(p, "mpirun binary"@ + " not found: "@ + config.mpirun_path@)
        },
        (Phase::CheckAmitex, Outcome::Checked { is_file }) => if is_file {
            (Progress { phase: Phase::MakeDir { index: 0 }, results: p.results }, Seq::empty())
        } else {
            given_up(p, "amitex_fftp binary"@ + " not found: "@ + config.amitex_path@)
        },
        (Phase::MakeDir { index }, Outcome::Done { success }) => if success {
            (Progress { phase: Phase::WriteChar { index }, results: p.results }, Seq::empty())
        } else {
            given_up(p, "creating "@ + case_directory(run_dir, index as int))
        },
        (Phase::WriteChar { index }, Outcome::Done { success }) => if !success {
            given_up(p, "writing char.xml into "@ + case_directory(run_dir, index as int))
        } else if index + 1 < DIRECTIONS {
            (
                Progress {
                    phase: Phase::MakeDir { index: (index + 1) as usize },
                    results: p.results,
                },
                Seq::empty(),
            )
        } else {
            (
                Progress { phase: Phase::Running { index: 0 }, results: p.results },
                seq![Event::CaseStarted { case: 0 }],
            )
        },
        (Phase::Running { index }, Outcome::NotStarted { reason }) => {
            let fatal = Event::Fatal {
                message: case_name(index as int) + ": failed to spawn "@ + config.mpirun_path@
                    + ": "@ + reason@,
            };
            let next = after_case(p, index, false);
            (next.0, seq![fatal] + next.1)
        },
        (Phase::Running { index }, Outcome::Exited { success }) => if success {
            (Progress { phase: Phase::PostProcessing { index }, results: p.results }, Seq::empty())
        } else {
            after_case(p, index, false)
        },
        (Phase::PostProcessing { index }, Outcome::PostProcessed { report }) => {
            let line = report_line(report, case_name(index as int));
            let next = after_case(p, index, true);
            (next.0, seq![Event::CaseOutput { case: index as int, line }] + next.1)
        },
        _ => (p, Seq::empty()),
    }
}

/// The arguments of the launcher for the case called `label`: the solver, its input files, the
/// names of its output files, and the further arguments.
pub open spec fn solver_arguments(config: PipelineConfig, label: Seq<char>) -> Seq<Seq<char>> {
    seq![config.amitex_path@, "-nm"@, config.material_id_vtk@] + (match config.zone_id_vtk {
        Some(zone) => seq!["-nz"@, zone@],
        None => Seq::empty(),
    }) + seq![
        "-m"@,
        config.mat_xml@,
        "-c"@,
        "char.xml"@,
        "-a"@,
        config.algo_xml@,
        "-s"@,
        "_"@ + label,
    ] + texts(config.extra_args@)
}

/// Whether `action` is what is to be done in the given phase.
pub open spec fn is_action(phase: Phase, config: PipelineConfig, action: Action) -> bool {
    let run_dir = config.run_dir@;
    match phase {
        Phase::CheckMpirun => action matches Action::CheckFile { path } && path@
            == config.mpirun_path@,
        Phase::CheckAmitex => action matches Action::CheckFile { path } && path@
            == config.amitex_path@,
        Phase::MakeDir { index } => action matches Action::MakeDir { path } && path@
            == case_directory(run_dir, index as int),
        Phase::WriteChar { index } => action matches Action::WriteFile { path, contents } && path@
            == path_join(case_directory(run_dir, index as int), "char.xml"@) && contents@
            == load_xml(index as int),
        Phase::Running { index } => action matches Action::Run {
            program,
            arguments,
            dir,
            log_path,
            label,
        } && program@ == config.mpirun_path@ && texts(arguments@) == solver_arguments(
            config,
            case_name(index as int),
        ) && dir@ == case_directory(run_dir, index as int) && log_path@ == case_file(
            case_directory(run_dir, index as int),
            case_name(index as int),
            "_command.log"@,
        ) && label@ == case_name(index as int),
        Phase::PostProcessing { index } => action matches Action::PostProcess { case }
            && case.label@ == case_name(index as int) && case.dir@ == case_directory(
            run_dir,
            index as int,
        ),
        Phase::Finished => action is Stop,
    }
}

/// A run.
pub struct Run {
    pub config: PipelineConfig,
    pub phase: Phase,
    /// Whether every case that has ended succeeded.
    pub all_ok: bool,
    /// The same, case by case.
    pub results: Ghost<Seq<bool>>,
}

fn push_text(list: &mut Vec<String>, s: &str)
    ensures
        texts(final(list)@) == texts(old(list)@).push(s@),
{
    let ghost before = list@;
    let text: String = s.to_owned();
    list.push(text);
    proof {
        lemma_texts_push(before, text);
    }
}

/// The arguments of the launcher for the case called `label`.
pub fn amitex_arguments(config: &PipelineConfig, label: &str) -> (r: Vec<String>)
    ensures
        texts(r@) == solver_arguments(*config, label@),
{
    let mut r: Vec<String> = Vec::new();
    assert(texts(r@) =~= Seq::empty());
    push_text(&mut r, config.amitex_path.as_str());
    push_text(&mut r, "-nm");
    push_text(&mut r, config.material_id_vtk.as_str());
    let ghost head = texts(r@);
    assert(head =~= seq![config.amitex_path@, "-nm"@, config.material_id_vtk@]);
    match &config.zone_id_vtk {
        Some(zone) => {
            push_text(&mut r, "-nz");
            push_text(&mut r, zone.as_str());
            assert(texts(r@) =~= head + seq!["-nz"@, zone@]);
        },
        None => {
            assert(head + Seq::empty() =~= head);
        },
    }
    let ghost middle = texts(r@);
    push_text(&mut r, "-m");
    push_text(&mut r, config.mat_xml.as_str());
    push_text(&mut r, "-c");
    push_text(&mut r, "char.xml");
    push_text(&mut r, "-a");
    push_text(&mut r, config.algo_xml.as_str());
    push_text(&mut r, "-s");
    let mut name: String = "_".to_owned();
    name.append(label);
    push_text(&mut r, name.as_str());
    let ghost most = middle + seq![
        "-m"@,
        config.mat_xml@,
        "-c"@,
        "char.xml"@,
        "-a"@,
        config.algo_xml@,
        "-s"@,
        "_"@ + label@,
    ];
    assert(texts(r@) =~= most);
    let ghost extra = texts(config.extra_args@);
    let mut i: usize = 0;
    assert(most + extra.take(0) =~= most);
    while i < config.extra_args.len()
        invariant
            i <= config.extra_args@.len(),
            extra == texts(config.extra_args@),
            texts(r@) == most + extra.take(i as int),
        decreases config.extra_args@.len() - i,
    {
        assert(extra[i as int] == config.extra_args@[i as int]@);
        push_text(&mut r, config.extra_args[i].as_str());
        i += 1;
        assert(texts(r@) =~= most + extra.take(i as int));
    }
    assert(extra.take(i as int) =~= extra);
    r
}

fn fatal(message: String) -> (r: Vec<RunEvent>)
    ensures
        forall|run_dir: Seq<char>|
            #[trigger] all_told(r@, seq![Event::Fatal { message: message@ }], run_dir),
{
    vec![RunEvent::Fatal { message }]
}

impl Run {
    pub open spec fn progress(self) -> Progress {
        Progress { phase: self.phase, results: self.results@ }
    }

    /// Whether the run is in one of the states that it can come to.
    pub open spec fn wf(self) -> bool {
        &&& self.all_ok == all_true(self.results@)
        &&& is_possible(self.progress())
    }

    /// A run that has not begun.
    pub fn new(config: PipelineConfig) -> (r: Run)
        ensures
            r.wf(),
            r.progress() == beginning(),
            r.config == config,
    {
        Run { config, phase: Phase::CheckMpirun, all_ok: true, results: Ghost(Seq::empty()) }
    }

    /// What is to be done next.
    pub fn action(&self) -> (r: Action)
        requires
            self.wf(),
        ensures
            is_action(self.phase, self.config, r),
    {
        let run_dir: &str = self.config.run_dir.as_str();
        match self.phase {
            Phase::CheckMpirun => Action::CheckFile { path: self.config.mpirun_path.clone() },
            Phase::CheckAmitex => Action::CheckFile { path: self.config.amitex_path.clone() },
            Phase::MakeDir { index } => {
                let plan: CasePlan = prepare_case(run_dir, index);
                Action::MakeDir { path: plan.case.dir }
            },
            Phase::WriteChar { index } => {
                let plan: CasePlan = prepare_case(run_dir, index);
                Action::WriteFile { path: plan.char_path, contents: plan.char_xml }
            },
            Phase::Running { index } => {
                let case: CaseRun = case_run(run_dir, index);
                Action::Run {
                    program: self.config.mpirun_path.clone(),
                    arguments: amitex_arguments(&self.config, case.label.as_str()),
                    log_path: command_log_path(&case),
                    dir: case.dir,
                    label: case.label,
                }
            },
            Phase::PostProcessing { index } => Action::PostProcess {
                case: case_run(run_dir, index),
            },
            Phase::Finished => Action::Stop,
        }
    }

    /// Goes on to the next case, or to the end, after the case for direction `index` has ended.
    fn end_case(&mut self, index: usize, success: bool, told: &mut Vec<RunEvent>)
        requires
            old(self).wf(),
            index < DIRECTIONS,
            old(self).results@.len() == index,
            old(self).phase == (Phase::Running { index }) || old(self).phase
                == (Phase::PostProcessing { index }),
        ensures
            final(self).wf(),
            final(self).config == old(self).config,
            final(self).progress() == after_case(old(self).progress(), index, success).0,
            forall|before: Seq<Event>|
                all_told(old(told)@, before, old(self).config.run_dir@) ==> #[trigger] all_told(
                    final(told)@,
                    before + after_case(old(self).progress(), index, success).1,
                    old(self).config.run_dir@,
                ),
    {
        let ghost was = self.progress();
        let ghost first = told@;
        let ghost run_dir = self.config.run_dir@;
        self.all_ok = self.all_ok && success;
        proof {
            let results = was.results.push(success);
            assert(results.drop_last() =~= was.results);
            assert(all_true(results) == (all_true(was.results) && success)) by {
                if all_true(results) {
                    assert forall|i: int| 0 <= i < was.results.len() implies #[trigger] was.results[i] by {
                        assert(results[i]);
                    }
                    assert(results[was.results.len() as int]);
                }
            }
            self.results@ = results;
        }
        told.push(RunEvent::CaseFinished { case: case_label(index), success });
        if index + 1 < DIRECTIONS {
            told.push(RunEvent::CaseStarted { case: case_label(index + 1) });
            self.phase = Phase::Running { index: index + 1 };
        } else {
            if self.all_ok {
                let d: &str = self.config.run_dir.as_str();
                let paths: Vec<String> = vec![
                    std_path(&case_run(d, 0)),
                    std_path(&case_run(d, 1)),
                    std_path(&case_run(d, 2)),
                    std_path(&case_run(d, 3)),
                    std_path(&case_run(d, 4)),
                    std_path(&case_run(d, 5)),
                ];
                assert(texts(paths@) =~= Seq::new(
                    DIRECTIONS as nat,
                    |i: int| std_path_of(run_dir, i),
                ));
                told.push(RunEvent::AllFinished { std_paths: paths });
            }
            self.phase = Phase::Finished;
        }
        proof {
            let events = after_case(was, index, success).1;
            assert forall|before: Seq<Event>| all_told(first, before, run_dir) implies #[trigger]
            all_told(told@, before + events, run_dir) by {
                assert forall|i: int| 0 <= i < (before + events).len() implies (
                #[trigger] told@[i]).tells((before + events)[i], run_dir) by {
                    if i < before.len() {
                        assert(told@[i] == first[i]);
                    }
                }
            }
        }
    }

    /// Takes note of the outcome of what was done, goes on, and gives what is to be told.
    pub fn record(&mut self, outcome: Outcome) -> (r: Vec<RunEvent>)
        requires
            old(self).wf(),
        ensures
            final(self).wf(),
            final(self).config == old(self).config,
            final(self).progress() == advanced(old(self).progress(), old(self).config, outcome).0,
            all_told(
                r@,
                advanced(old(self).progress(), old(self).config, outcome).1,
                old(self).config.run_dir@,
            ),
    {
        let mut told: Vec<RunEvent> = Vec::new();
        let ghost run_dir = self.config.run_dir@;
        let ghost none = Seq::<Event>::empty();
        assert(all_told(told@, none, run_dir));
        match (self.phase, outcome) {
            (Phase::CheckMpirun, Outcome::Checked { is_file }) => {
                match check_binary_exists(
                    self.config.mpirun_path.as_str(),
                    "mpirun binary",
                    is_file,
                ) {
                    Ok(_) => {
                        self.phase = Phase::CheckAmitex;
                    },
                    Err(message) => {
                        self.phase = Phase::Finished;
                        told = fatal(message);
                    },
                }
            },
            (Phase::CheckAmitex, Outcome::Checked { is_file }) => {
                match check_binary_exists(
                    self.config.amitex_path.as_str(),
                    "amitex_fftp binary",
                    is_file,
                ) {
                    Ok(_) => {
                        self.phase = Phase::MakeDir { index: 0 };
                    },
                    Err(message) => {
                        self.phase = Phase::Finished;
                        told = fatal(message);
                    },
                }
            },
            (Phase::MakeDir { index }, Outcome::Done { success }) => {
                if success {
                    self.phase = Phase::WriteChar { index };
                } else {
                    let case: CaseRun = case_run(self.config.run_dir.as_str(), index);
                    let mut message: String = "creating ".to_owned();
                    message.append(case.dir.as_str());
                    self.phase = Phase::Finished;
                    told = fatal(message);
                }
            },
            (Phase::WriteChar { index }, Outcome::Done { success }) => {
                if !success {
                    let case: CaseRun = case_run(self.config.run_dir.as_str(), index);
                    let mut message: String = "writing char.xml into ".to_owned();
                    message.append(case.dir.as_str());
                    self.phase = Phase::Finished;
                    told = fatal(message);
                } else if index + 1 < DIRECTIONS {
                    self.phase = Phase::MakeDir { index: index + 1 };
                } else {
                    told.push(RunEvent::CaseStarted { case: case_label(0) });
                    self.phase = Phase::Running { index: 0 };
                }
            },
            (Phase::Running { index }, Outcome::NotStarted { reason }) => {
                let mut message: String = case_label(index);
                message.append(": failed to spawn ");
                message.append(self.config.mpirun_path.as_str());
                message.append(": ");
                message.append(reason.as_str());
                let ghost before = seq![Event::Fatal { message: message@ }];
                told = fatal(message);
                assert(all_told(told@, before, run_dir));
                self.end_case(index, false, &mut told);
            },
            (Phase::Running { index }, Outcome::Exited { success }) => {
                if success {
                    self.phase = Phase::PostProcessing { index };
                } else {
                    let ghost next = after_case(self.progress(), index, false).1;
                    self.end_case(index, false, &mut told);
                    assert(none + next =~= next);
                }
            },
            (Phase::PostProcessing { index }, Outcome::PostProcessed { report }) => {
                let case: String = case_label(index);
                let line: String = postprocess_line(&report, case.as_str());
                let ghost before = seq![Event::CaseOutput { case: index as int, line: line@ }];
                told.push(RunEvent::CaseOutput { case, line });
                assert(all_told(told@, before, run_dir));
                self.end_case(index, true, &mut told);
            },
            _ => {},
        }
        told
    }
}

/// Where a run begins.
pub open spec fn beginning() -> Progress {
    Progress { phase: Phase::CheckMpirun, results: Seq::empty() }
}

/// Whether a run can come to the given state.
pub open spec fn is_possible(p: Progress) -> bool {
    match p.phase {
        Phase::CheckMpirun | Phase::CheckAmitex => p.results.len() == 0,
        Phase::MakeDir { index } | Phase::WriteChar { index } => index < DIRECTIONS
            && p.results.len() == 0,
        Phase::Running { index } | Phase::PostProcessing { index } => index < DIRECTIONS
            && p.results.len() == index,
        Phase::Finished => p.results.len() == 0 || p.results.len() == DIRECTIONS,
    }
}

} // verus!
