//! The window shows how a run stands.
use crate::gui::run_state::{
    shown_after_all, status_changes_one_case, with_status, CaseStatus, Display,
};
use crate::pipeline::course::{
    cases_told, history, is_milestone, milestones, runs_take_their_course, story,
};
use crate::pipeline::loads::{case_name, case_names_differ, DIRECTIONS};
use crate::pipeline::runner::{
    all_told, is_possible, Event, Outcome, Phase, PipelineConfig, Progress, RunEvent,
};
use vstd::prelude::*;

verus! {

/// What is shown when a run has just begun.
pub open spec fn fresh_display() -> Display {
    Display {
        cases: Seq::new(DIRECTIONS as nat, |i: int| (case_name(i), CaseStatus::Pending)),
        log: Seq::empty(),
        fatal: None,
        std_paths: None,
    }
}

/// How a case stands after an event.
pub open spec fn status_after(s: CaseStatus, e: Event, i: int) -> CaseStatus {
    match e {
        Event::CaseStarted { case } => if case == i {
            CaseStatus::Running
        } else {
            s
        },
        Event::CaseFinished { case, success } => if case != i {
            s
        } else if success {
            CaseStatus::Succeeded
        } else {
            CaseStatus::Failed
        },
        _ => s,
    }
}

/// How a case stands after some events.
pub open spec fn status_of(events: Seq<Event>, i: int) -> CaseStatus
    decreases events.len(),
{
    if events.len() == 0 {
        CaseStatus::Pending
    } else {
        status_after(status_of(events.drop_last(), i), events.last(), i)
    }
}

/// How a case stands in a run that has come to the given state.
pub open spec fn standing(p: Progress, i: int) -> CaseStatus {
    if i < p.results.len() {
        if p.results[i] {
            CaseStatus::Succeeded
        } else {
            CaseStatus::Failed
        }
    } else if p.phase == (Phase::Running { index: i as usize }) || p.phase
        == (Phase::PostProcessing { index: i as usize }) {
        CaseStatus::Running
    } else {
        CaseStatus::Pending
    }
}

/// Whether an event is about one of the six cases, where it is about a case.
pub open spec fn is_about_a_case(e: Event) -> bool {
    match e {
        Event::CaseStarted { case } => 0 <= case < DIRECTIONS,
        Event::CaseFinished { case, success } => 0 <= case < DIRECTIONS,
        _ => true,
    }
}

/// Whether the six cases are shown in their order.
spec fn are_six_cases(cases: Seq<(Seq<char>, CaseStatus)>) -> bool {
    cases.len() == DIRECTIONS && forall|i: int|
        0 <= i < DIRECTIONS ==> (#[trigger] cases[i]).0 == case_name(i)
}

proof fn lemma_status_set(
    cases: Seq<(Seq<char>, CaseStatus)>,
    case: int,
    status: CaseStatus,
    i: int,
)
    requires
        are_six_cases(cases),
        0 <= case < DIRECTIONS,
        0 <= i < DIRECTIONS,
    ensures
        are_six_cases(with_status(cases, case_name(case), status)),
        with_status(cases, case_name(case), status)[i].1 == if i == case {
            status
        } else {
            cases[i].1
        },
{
    let r = with_status(cases, case_name(case), status);
    status_changes_one_case(cases, case_name(case), status);
    assert forall|j: int| 0 <= j < DIRECTIONS && j != case implies (#[trigger] cases[j]).0
        != case_name(case) by {
        if case_name(j) == case_name(case) {
            case_names_differ(j, case);
        }
    }
    assert forall|j: int| 0 <= j < DIRECTIONS implies (#[trigger] r[j]).0 == case_name(j) by {
        assert(r[j].0 == cases[j].0);
    }
    assert(cases[i].0 == case_name(i));
    assert(r[i].0 == cases[i].0);
}

proof fn lemma_shown(told: Seq<RunEvent>, events: Seq<Event>, run_dir: Seq<char>, k: nat, i: int)
    requires
        all_told(told, events, run_dir),
        forall|j: int| 0 <= j < events.len() ==> is_about_a_case(#[trigger] events[j]),
        k <= events.len(),
        0 <= i < DIRECTIONS,
    ensures
        are_six_cases(shown_after_all(fresh_display(), told, k).cases),
        shown_after_all(fresh_display(), told, k).cases[i].1 == status_of(events.take(k as int), i),
    decreases k,
{
    if k > 0 {
        let j = (k - 1) as nat;
        lemma_shown(told, events, run_dir, j, i);
        let before = shown_after_all(fresh_display(), told, j);
        assert(events.take(k as int).drop_last() =~= events.take(j as int));
        assert(events.take(k as int).last() == events[j as int]);
        assert(told[j as int].tells(events[j as int], run_dir));
        assert(is_about_a_case(events[j as int]));
        match events[j as int] {
            Event::CaseStarted { case } => {
                lemma_status_set(before.cases, case, CaseStatus::Running, i);
            },
            Event::CaseFinished { case, success } => {
                let status = if success {
                    CaseStatus::Succeeded
                } else {
                    CaseStatus::Failed
                };
                lemma_status_set(before.cases, case, status, i);
            },
            _ => {},
        }
    }
}

/// Only milestones tell how a case stands.
proof fn lemma_status_of_milestones(events: Seq<Event>, i: int)
    ensures
        status_of(milestones(events), i) == status_of(events, i),
    decreases events.len(),
{
    let pred = |e: Event| is_milestone(e);
    reveal_with_fuel(Seq::filter, 1);
    if events.len() > 0 {
        let before = events.drop_last();
        lemma_status_of_milestones(before, i);
        if is_milestone(events.last()) {
            assert(milestones(events) =~= milestones(before).push(events.last()));
            assert(milestones(events).drop_last() =~= milestones(before));
        } else {
            assert(milestones(events) =~= milestones(before));
        }
    } else {
        assert(milestones(events) =~= events);
    }
}

proof fn lemma_status_of_cases(results: Seq<bool>, k: nat, i: int)
    requires
        k <= results.len(),
        i >= 0,
    ensures
        status_of(cases_told(results, k), i) == if i < k {
            if results[i] {
                CaseStatus::Succeeded
            } else {
                CaseStatus::Failed
            }
        } else {
            CaseStatus::Pending
        },
    decreases k,
{
    if k > 0 {
        let before = cases_told(results, (k - 1) as nat);
        let all = cases_told(results, k);
        lemma_status_of_cases(results, (k - 1) as nat, i);
        let started = Event::CaseStarted { case: k - 1 };
        let ended = Event::CaseFinished { case: k - 1, success: results[k - 1] };
        assert(all.drop_last() =~= before.push(started));
        assert(before.push(started).drop_last() =~= before);
        assert(all.last() == ended);
        assert(status_of(before.push(started), i) == status_after(
            status_of(before, i),
            started,
            i,
        ));
    }
}

proof fn lemma_status_of_story(p: Progress, i: int)
    requires
        is_possible(p),
        0 <= i < DIRECTIONS,
    ensures
        status_of(story(p), i) == standing(p, i),
{
    let told = cases_told(p.results, p.results.len());
    lemma_status_of_cases(p.results, p.results.len(), i);
    if story(p) != told {
        assert(story(p).drop_last() =~= told);
    }
}

proof fn lemma_about_cases(config: PipelineConfig, outcomes: Seq<Outcome>)
    ensures
        forall|j: int|
            0 <= j < history(config, outcomes).1.len() ==> is_about_a_case(
                #[trigger] history(config, outcomes).1[j],
            ),
    decreases outcomes.len(),
{
    if outcomes.len() > 0 {
        lemma_about_cases(config, outcomes.drop_last());
        runs_take_their_course(config, outcomes.drop_last());
    }
}

/// Whatever comes of what is done in a run, the window that was told of it shows of each case
/// whether it is pending, running, done or failed.
pub proof fn display_follows_the_run(
    config: PipelineConfig,
    outcomes: Seq<Outcome>,
    told: Seq<RunEvent>,
    i: int,
)
    requires
        all_told(told, history(config, outcomes).1, config.run_dir@),
        0 <= i < DIRECTIONS,
    ensures
        shown_after_all(fresh_display(), told, told.len()).cases.len() == DIRECTIONS,
        shown_after_all(fresh_display(), told, told.len()).cases[i] == (
            case_name(i),
            standing(history(config, outcomes).0, i),
        ),
{
    let (p, events) = history(config, outcomes);
    runs_take_their_course(config, outcomes);
    lemma_about_cases(config, outcomes);
    lemma_shown(told, events, config.run_dir@, events.len(), i);
    assert(events.take(events.len() as int) =~= events);
    lemma_status_of_milestones(events, i);
    lemma_status_of_story(p, i);
}

} // verus!
