//! What can be told of a run as a whole.
use crate::pipeline::loads::{case_name, DIRECTIONS};
use crate::pipeline::runner::{
    advanced, after_case, all_true, beginning, is_possible, Event, Outcome, Phase, PipelineConfig,
    Progress,
};
use crate::pipeline::stress::{report_line, StressReport};
use vstd::prelude::*;

verus! {

/// Where a run has come, and what was told of it, after the given outcomes.
pub open spec fn history(config: PipelineConfig, outcomes: Seq<Outcome>) -> (Progress, Seq<Event>)
    decreases outcomes.len(),
{
    if outcomes.len() == 0 {
        (beginning(), Seq::empty())
    } else {
        let before = history(config, outcomes.drop_last());
        let next = advanced(before.0, config, outcomes.last());
        (next.0, before.1 + next.1)
    }
}

/// Whether an event tells that a case or the run has begun or ended.
pub open spec fn is_milestone(e: Event) -> bool {
    e is CaseStarted || e is CaseFinished || e is AllFinished
}

/// The events that tell that a case or the run has begun or ended.
pub open spec fn milestones(events: Seq<Event>) -> Seq<Event> {
    events.filter(|e: Event| is_milestone(e))
}

/// The beginnings and ends of the first `k` cases.
pub open spec fn cases_told(results: Seq<bool>, k: nat) -> Seq<Event>
    decreases k,
{
    if k == 0 {
        Seq::empty()
    } else {
        cases_told(results, (k - 1) as nat) + seq![
            Event::CaseStarted { case: k - 1 },
            Event::CaseFinished { case: k - 1, success: results[k - 1] },
        ]
    }
}

/// What is told of a run that has come to the given state: each case begins and ends, in the order
/// of the directions, before the next one begins; the results are announced at the end where all
/// cases succeeded.
pub open spec fn story(p: Progress) -> Seq<Event> {
    let told = cases_told(p.results, p.results.len());
    match p.phase {
        Phase::Running { index } | Phase::PostProcessing { index } => told.push(
            Event::CaseStarted { case: index as int },
        ),
        _ => if p.results.len() == DIRECTIONS && all_true(p.results) {
            told.push(Event::AllFinished)
        } else {
            told
        },
    }
}

proof fn lemma_cases_told(a: Seq<bool>, b: Seq<bool>, k: nat)
    requires
        k <= a.len(),
        k <= b.len(),
        forall|i: int| 0 <= i < k ==> a[i] == b[i],
    ensures
        cases_told(a, k) == cases_told(b, k),
    decreases k,
{
    if k > 0 {
        lemma_cases_told(a, b, (k - 1) as nat);
    }
}

proof fn lemma_milestones_of_two(a: Event, b: Event)
    ensures
        milestones(seq![a, b]) == milestones(seq![a]) + milestones(seq![b]),
        milestones(seq![a]) == if is_milestone(a) {
            seq![a]
        } else {
            Seq::empty()
        },
        milestones(seq![b]) == if is_milestone(b) {
            seq![b]
        } else {
            Seq::empty()
        },
{
    let pred = |e: Event| is_milestone(e);
    reveal_with_fuel(Seq::filter, 3);
    let empty = Seq::<Event>::empty();
    assert(seq![a].drop_last() =~= empty);
    assert(seq![b].drop_last() =~= empty);
    assert(seq![a].filter(pred) =~= if is_milestone(a) {
        seq![a]
    } else {
        empty
    });
    assert(seq![b].filter(pred) =~= if is_milestone(b) {
        seq![b]
    } else {
        empty
    });
    assert(seq![a] + seq![b] =~= seq![a, b]);
    Seq::filter_distributes_over_add(seq![a], seq![b], pred);
}

/// The end of a case continues the story.
proof fn lemma_after_case(p: Progress, index: usize, success: bool)
    requires
        is_possible(p),
        p.phase == (Phase::Running { index }) || p.phase == (Phase::PostProcessing { index }),
    ensures
        is_possible(after_case(p, index, success).0),
        story(after_case(p, index, success).0) == story(p) + milestones(
            after_case(p, index, success).1,
        ),
{
    let next = after_case(p, index, success);
    let results = p.results.push(success);
    let n = p.results.len();
    lemma_cases_told(p.results, results, n);
    let ended = Event::CaseFinished { case: index as int, success };
    assert(cases_told(results, n + 1) == cases_told(p.results, n) + seq![
        Event::CaseStarted { case: index as int },
        ended,
    ]);
    if index + 1 < DIRECTIONS {
        let started = Event::CaseStarted { case: index + 1 };
        lemma_milestones_of_two(ended, started);
        assert(story(next.0) =~= story(p) + (seq![ended] + seq![started]));
    } else if all_true(results) {
        lemma_milestones_of_two(ended, Event::AllFinished);
        assert(story(next.0) =~= story(p) + (seq![ended] + seq![Event::AllFinished]));
    } else {
        lemma_milestones_of_two(ended, ended);
        assert(story(next.0) =~= story(p) + seq![ended]);
    }
}

proof fn lemma_advanced(p: Progress, config: PipelineConfig, outcome: Outcome)
    requires
        is_possible(p),
    ensures
        is_possible(advanced(p, config, outcome).0),
        story(advanced(p, config, outcome).0) == story(p) + milestones(
            advanced(p, config, outcome).1,
        ),
{
    let next = advanced(p, config, outcome);
    let pred = |e: Event| is_milestone(e);
    let empty = Seq::<Event>::empty();
    reveal_with_fuel(Seq::filter, 2);
    assert(empty.filter(pred) =~= empty);
    match (p.phase, outcome) {
        (Phase::Running { index }, Outcome::NotStarted { reason }) => {
            lemma_after_case(p, index, false);
            let rest = after_case(p, index, false).1;
            let first = next.1[0];
            assert(next.1 =~= seq![first] + rest);
            lemma_milestones_of_two(first, first);
            Seq::filter_distributes_over_add(seq![first], rest, pred);
            assert(empty + milestones(rest) =~= milestones(rest));
        },
        (Phase::Running { index }, Outcome::Exited { success }) => {
            if success {
                assert(story(next.0) =~= story(p) + empty);
            } else {
                lemma_after_case(p, index, false);
            }
        },
        (Phase::PostProcessing { index }, Outcome::PostProcessed { report }) => {
            lemma_after_case(p, index, true);
            let rest = after_case(p, index, true).1;
            let first = next.1[0];
            assert(next.1 =~= seq![first] + rest);
            lemma_milestones_of_two(first, first);
            Seq::filter_distributes_over_add(seq![first], rest, pred);
            assert(empty + milestones(rest) =~= milestones(rest));
        },
        _ => {
            assert(p.phase is Running || p.phase is PostProcessing ==> next == (p, empty));
            if next.1.len() == 0 {
                assert(next.1 =~= empty);
                assert(story(next.0) =~= story(p) + empty);
            } else {
                let first = next.1[0];
                assert(next.1 =~= seq![first]);
                lemma_milestones_of_two(first, first);
                assert(story(next.0) =~= story(p) + milestones(seq![first]));
            }
        },
    }
}

/// Whatever comes of what is done, what is told of a run is its story: each case begins and ends
/// once, in the order of the directions, and no case begins before the one before it has ended.
pub proof fn runs_take_their_course(config: PipelineConfig, outcomes: Seq<Outcome>)
    ensures
        is_possible(history(config, outcomes).0),
        milestones(history(config, outcomes).1) == story(history(config, outcomes).0),
    decreases outcomes.len(),
{
    let empty = Seq::<Event>::empty();
    if outcomes.len() == 0 {
        reveal_with_fuel(Seq::filter, 1);
        assert(milestones(empty) =~= empty);
        assert(story(beginning()) =~= empty);
    } else {
        let before = history(config, outcomes.drop_last());
        runs_take_their_course(config, outcomes.drop_last());
        lemma_advanced(before.0, config, outcomes.last());
        let next = advanced(before.0, config, outcomes.last());
        Seq::filter_distributes_over_add(before.1, next.1, |e: Event| is_milestone(e));
    }
}

proof fn lemma_milestone_kept(events: Seq<Event>, e: Event)
    requires
        is_milestone(e),
    ensures
        events.contains(e) <==> milestones(events).contains(e),
{
    let pred = |x: Event| is_milestone(x);
    if events.contains(e) {
        let i = choose|i: int| 0 <= i < events.len() && events[i] == e;
        events.lemma_filter_contains(pred, i);
    }
    if events.filter(pred).contains(e) {
        events.lemma_filter_contains_rev(pred, e);
    }
}

proof fn lemma_case_told(results: Seq<bool>, k: nat, i: int)
    requires
        k <= results.len(),
        i >= 0,
    ensures
        cases_told(results, k).contains(Event::CaseFinished { case: i, success: true }) <==> i < k
            && results[i],
        !cases_told(results, k).contains(Event::AllFinished),
    decreases k,
{
    if k > 0 {
        let before = cases_told(results, (k - 1) as nat);
        let all = cases_told(results, k);
        let e = Event::CaseFinished { case: i, success: true };
        lemma_case_told(results, (k - 1) as nat, i);
        let n = before.len() as int;
        assert(all[n + 1] == Event::CaseFinished { case: k - 1, success: results[k - 1] });
        if before.contains(e) {
            let j = choose|j: int| 0 <= j < before.len() && before[j] == e;
            assert(all[j] == e);
        }
        if all.contains(e) {
            let j = choose|j: int| 0 <= j < all.len() && all[j] == e;
            if j < n {
                assert(before[j] == e);
            }
        }
        if all.contains(Event::AllFinished) {
            let j = choose|j: int| 0 <= j < all.len() && all[j] == Event::AllFinished;
            if j < n {
                assert(before[j] == Event::AllFinished);
            }
        }
    }
}

proof fn lemma_story_tells(p: Progress, i: int)
    requires
        is_possible(p),
        0 <= i < DIRECTIONS,
    ensures
        story(p).contains(Event::CaseFinished { case: i, success: true }) <==> i < p.results.len()
            && p.results[i],
        story(p).contains(Event::AllFinished) <==> p.results.len() == DIRECTIONS && all_true(
            p.results,
        ),
{
    let told = cases_told(p.results, p.results.len());
    let e = Event::CaseFinished { case: i, success: true };
    lemma_case_told(p.results, p.results.len(), i);
    assert(story(p) == told || story(p) == told.push(story(p).last()));
    if story(p).contains(e) {
        let j = choose|j: int| 0 <= j < story(p).len() && story(p)[j] == e;
        if j < told.len() {
            assert(told[j] == e);
        }
    }
    if told.contains(e) {
        let j = choose|j: int| 0 <= j < told.len() && told[j] == e;
        assert(story(p)[j] == e);
    }
    if story(p).contains(Event::AllFinished) {
        let j = choose|j: int| 0 <= j < story(p).len() && story(p)[j] == Event::AllFinished;
        if j < told.len() {
            assert(told[j] == Event::AllFinished);
        }
    }
    if p.results.len() == DIRECTIONS && all_true(p.results) {
        assert(story(p)[told.len() as int] == Event::AllFinished);
    }
}

/// The results are announced exactly where each of the six cases has succeeded.
pub proof fn results_come_with_six_successes(config: PipelineConfig, outcomes: Seq<Outcome>)
    ensures
        ({
            let events = history(config, outcomes).1;
            events.contains(Event::AllFinished) <==> forall|i: int|
                0 <= i < DIRECTIONS ==> #[trigger] events.contains(
                    Event::CaseFinished { case: i, success: true },
                )
        }),
{
    let (p, events) = history(config, outcomes);
    runs_take_their_course(config, outcomes);
    lemma_milestone_kept(events, Event::AllFinished);
    lemma_story_tells(p, 0);
    assert forall|i: int| 0 <= i < DIRECTIONS implies (#[trigger] events.contains(
        Event::CaseFinished { case: i, success: true },
    ) <==> i < p.results.len() && p.results[i]) by {
        lemma_milestone_kept(events, Event::CaseFinished { case: i, success: true });
        lemma_story_tells(p, i);
    }
    if forall|i: int|
        0 <= i < DIRECTIONS ==> #[trigger] events.contains(
            Event::CaseFinished { case: i, success: true },
        ) {
        assert(events.contains(Event::CaseFinished { case: 5, success: true }));
        assert forall|i: int| 0 <= i < p.results.len() implies #[trigger] p.results[i] by {
            assert(events.contains(Event::CaseFinished { case: i, success: true }));
        }
    }
}

/// The results are announced at most once, and nothing is told after them.
pub proof fn results_come_last(config: PipelineConfig, outcomes: Seq<Outcome>, i: int)
    requires
        0 <= i < history(config, outcomes).1.len(),
        history(config, outcomes).1[i] == Event::AllFinished,
    ensures
        i == history(config, outcomes).1.len() - 1,
        history(config, outcomes).0.phase == Phase::Finished,
    decreases outcomes.len(),
{
    if outcomes.len() > 0 {
        let before = history(config, outcomes.drop_last());
        let next = advanced(before.0, config, outcomes.last());
        if i < before.1.len() {
            results_come_last(config, outcomes.drop_last(), i);
        } else {
            assert(next.1[i - before.1.len()] == Event::AllFinished);
        }
    }
}

/// A case whose stresses are missing is told of in one line of output, and has succeeded all the
/// same: nothing fatal is told, and no other output.
pub proof fn missing_stress_is_one_line(
    config: PipelineConfig,
    p: Progress,
    index: usize,
    component: usize,
)
    requires
        is_possible(p),
        p.phase == (Phase::PostProcessing { index }),
    ensures
        ({
            let report = StressReport::Missing { component };
            let events = advanced(p, config, Outcome::PostProcessed { report }).1;
            &&& events.len() >= 2
            &&& events[0] == Event::CaseOutput {
                case: index as int,
                line: report_line(report, case_name(index as int)),
            }
            &&& events[1] == Event::CaseFinished { case: index as int, success: true }
            &&& forall|i: int|
                2 <= i < events.len() ==> !(#[trigger] events[i] is CaseOutput)
                    && !(events[i] is Fatal) && !(events[i] is CaseFinished)
        }),
{
}

/// Nothing more is told once a run has ended.
pub proof fn ended_runs_stay_silent(config: PipelineConfig, p: Progress, outcome: Outcome)
    requires
        p.phase == Phase::Finished,
    ensures
        advanced(p, config, outcome) == (p, Seq::<Event>::empty()),
{
}

} // verus!
