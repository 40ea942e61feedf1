//! What is shown of a run while it goes on.
use crate::pipeline::loads::{case_label, case_name, DIRECTIONS};
use crate::pipeline::runner::RunEvent;
use crate::postproc::moduli::ElasticModuli;
use crate::text::{join, joined, lemma_texts_push, same_text, texts};
use vstd::prelude::*;

verus! {

/// How a load case stands.
#[derive(Clone, Copy, PartialEq, Eq, Structural, Debug)]
pub enum CaseStatus {
    Pending,
    Running,
    Succeeded,
    Failed,
}

impl CaseStatus {
    pub open spec fn text(self) -> Seq<char> {
        match self {
            CaseStatus::Pending => "pending"@,
            CaseStatus::Running => "running"@,
            CaseStatus::Succeeded => "done"@,
            CaseStatus::Failed => "failed"@,
        }
    }

    /// The word shown for the status.
    pub fn label(self) -> (r: &'static str)
        ensures
            r@ == self.text(),
    {
        match self {
            CaseStatus::Pending => "pending",
            CaseStatus::Running => "running",
            CaseStatus::Succeeded => "done",
            CaseStatus::Failed => "failed",
        }
    }
}

/// The names and the status of some cases.
pub open spec fn case_views(cases: Seq<(String, CaseStatus)>) -> Seq<(Seq<char>, CaseStatus)> {
    cases.map_values(|c: (String, CaseStatus)| (c.0@, c.1))
}

/// `cases` with another status for the first that is called `case`.
pub open spec fn with_status(
    cases: Seq<(Seq<char>, CaseStatus)>,
    case: Seq<char>,
    status: CaseStatus,
) -> Seq<(Seq<char>, CaseStatus)>
    decreases cases.len(),
{
    if cases.len() == 0 {
        cases
    } else if cases[0].0 == case {
        cases.update(0, (case, status))
    } else {
        seq![cases[0]] + with_status(cases.skip(1), case, status)
    }
}

proof fn lemma_with_status(
    cases: Seq<(Seq<char>, CaseStatus)>,
    case: Seq<char>,
    status: CaseStatus,
    k: int,
)
    requires
        0 <= k <= cases.len(),
        forall|i: int| 0 <= i < k ==> (#[trigger] cases[i]).0 != case,
        k < cases.len() ==> cases[k].0 == case,
    ensures
        with_status(cases, case, status) == if k < cases.len() {
            cases.update(k, (case, status))
        } else {
            cases
        },
    decreases cases.len(),
{
    if cases.len() > 0 && k > 0 {
        let rest = cases.skip(1);
        assert(cases[0].0 != case);
        assert forall|i: int| 0 <= i < k - 1 implies (#[trigger] rest[i]).0 != case by {
            assert(rest[i] == cases[i + 1]);
        }
        if k < cases.len() {
            assert(rest[k - 1] == cases[k]);
        }
        lemma_with_status(rest, case, status, k - 1);
        assert(with_status(cases, case, status) =~= if k < cases.len() {
            cases.update(k, (case, status))
        } else {
            cases
        });
    }
}

/// Changes the status of the first case that is called `case`. The cases stay in their order.
pub fn set_case_status(cases: &mut Vec<(String, CaseStatus)>, case: &str, status: CaseStatus)
    ensures
        case_views(final(cases)@) == with_status(case_views(old(cases)@), case@, status),
{
    let ghost before = case_views(cases@);
    let mut i: usize = 0;
    while i < cases.len()
        invariant
            i <= cases@.len(),
            before == case_views(cases@),
            before == case_views(old(cases)@),
            forall|j: int| 0 <= j < i ==> (#[trigger] before[j]).0 != case@,
        decreases cases@.len() - i,
    {
        assert(before[i as int] == (cases@[i as int].0@, cases@[i as int].1));
        if same_text(cases[i].0.as_str(), case) {
            let label: String = cases[i].0.clone();
            proof {
                lemma_with_status(before, case@, status, i as int);
            }
            cases.set(i, (label, status));
            assert(case_views(cases@) =~= before.update(i as int, (case@, status)));
            return;
        }
        i += 1;
    }
    proof {
        lemma_with_status(before, case@, status, i as int);
    }
}

/// A change of status changes no name, and no other case than those called so.
pub proof fn status_changes_one_case(
    cases: Seq<(Seq<char>, CaseStatus)>,
    case: Seq<char>,
    status: CaseStatus,
)
    ensures
        ({
            let r = with_status(cases, case, status);
            &&& r.len() == cases.len()
            &&& forall|i: int| 0 <= i < cases.len() ==> (#[trigger] r[i]).0 == cases[i].0
            &&& forall|i: int|
                0 <= i < cases.len() && cases[i].0 != case ==> (#[trigger] r[i]).1 == cases[i].1
            &&& forall|i: int|
                0 <= i < cases.len() && cases[i].0 == case && (forall|j: int|
                    0 <= j < i ==> (#[trigger] cases[j]).0 != case) ==> (#[trigger] r[i]).1
                    == status
        }),
    decreases cases.len(),
{
    if cases.len() > 0 && cases[0].0 != case {
        let rest = cases.skip(1);
        let r = with_status(cases, case, status);
        let s = with_status(rest, case, status);
        status_changes_one_case(rest, case, status);
        assert forall|i: int| 0 <= i < cases.len() implies (#[trigger] r[i]).0 == cases[i].0 by {
            if i > 0 {
                assert(r[i] == s[i - 1]);
                assert(rest[i - 1] == cases[i]);
            }
        }
        assert forall|i: int| 0 <= i < cases.len() && cases[i].0 != case implies (
        #[trigger] r[i]).1 == cases[i].1 by {
            if i > 0 {
                assert(r[i] == s[i - 1]);
                assert(rest[i - 1] == cases[i]);
            }
        }
        assert forall|i: int|
            0 <= i < cases.len() && cases[i].0 == case && (forall|j: int|
                0 <= j < i ==> (#[trigger] cases[j]).0 != case) implies (#[trigger] r[i]).1
            == status by {
            assert(i > 0);
            assert(r[i] == s[i - 1]);
            assert forall|j: int| 0 <= j < i - 1 implies (#[trigger] rest[j]).0 != case by {
                assert(rest[j] == cases[j + 1]);
            }
            assert(rest[i - 1] == cases[i]);
        }
    } else if cases.len() > 0 {
        let r = with_status(cases, case, status);
        assert(r == cases.update(0, (case, status)));
        assert forall|i: int|
            0 <= i < cases.len() && cases[i].0 == case && (forall|j: int|
                0 <= j < i ==> (#[trigger] cases[j]).0 != case) implies (#[trigger] r[i]).1
            == status by {
            if i > 0 {
                assert(cases[0].0 == case);
            }
        }
    }
}

/// What is known of a run.
pub struct RunState {
    /// The load cases in the order of their directions.
    pub cases: Vec<(String, CaseStatus)>,
    pub log: Vec<String>,
    /// The elastic constants, or why there are none, once all cases have succeeded.
    pub moduli: Option<Result<ElasticModuli, String>>,
    /// What last kept the run from going on.
    pub fatal: Option<String>,
    /// Whether nothing more is going to be told.
    pub done: bool,
}

/// What is shown of a run.
pub struct Display {
    pub cases: Seq<(Seq<char>, CaseStatus)>,
    pub log: Seq<Seq<char>>,
    pub fatal: Option<Seq<char>>,
    /// The results of the cases, where they were announced.
    pub std_paths: Option<Seq<Seq<char>>>,
}

/// A line of output under the name of its case.
pub open spec fn case_line(case: Seq<char>, line: Seq<char>) -> Seq<char> {
    "["@ + case + "] "@ + line
}

/// What is shown after an event.
pub open spec fn shown_after(d: Display, event: RunEvent) -> Display {
    match event {
        RunEvent::CaseStarted { case } => Display {
            cases: with_status(d.cases, case@, CaseStatus::Running),
            ..d
        },
        RunEvent::CaseOutput { case, line } => Display {
            log: d.log.push(case_line(case@, line@)),
            ..d
        },
        RunEvent::CaseFinished { case, success } => Display {
            cases: with_status(
                d.cases,
                case@,
                if success {
                    CaseStatus::Succeeded
                } else {
                    CaseStatus::Failed
                },
            ),
            ..d
        },
        RunEvent::AllFinished { std_paths } => Display { std_paths: Some(texts(std_paths@)), ..d },
        RunEvent::Fatal { message } => Display { fatal: Some(message@), ..d },
    }
}

/// What is shown after the first `k` of some events.
pub open spec fn shown_after_all(d: Display, events: Seq<RunEvent>, k: nat) -> Display
    decreases k,
{
    if k == 0 {
        d
    } else {
        shown_after(shown_after_all(d, events, (k - 1) as nat), events[k - 1])
    }
}

/// The characters of a text, where there is one.
pub open spec fn maybe_text(s: Option<String>) -> Option<Seq<char>> {
    match s {
        Some(t) => Some(t@),
        None => None,
    }
}

/// The characters of some texts, where there are any.
pub open spec fn maybe_texts(s: Option<Vec<String>>) -> Option<Seq<Seq<char>>> {
    match s {
        Some(list) => Some(texts(list@)),
        None => None,
    }
}

fn copy_texts(list: &Vec<String>) -> (r: Vec<String>)
    ensures
        texts(r@) == texts(list@),
{
    let mut r: Vec<String> = Vec::new();
    let mut i: usize = 0;
    assert(texts(r@) =~= texts(list@).take(0));
    while i < list.len()
        invariant
            i <= list@.len(),
            texts(r@) == texts(list@).take(i as int),
        decreases list@.len() - i,
    {
        let ghost before = r@;
        let text: String = list[i].clone();
        r.push(text);
        i += 1;
        proof {
            lemma_texts_push(before, text);
            assert(texts(list@).take(i as int) =~= texts(list@).take(i - 1).push(text@));
        }
    }
    assert(texts(list@).take(i as int) =~= texts(list@));
    r
}

impl RunState {
    pub open spec fn display(self) -> Display {
        Display {
            cases: case_views(self.cases@),
            log: texts(self.log@),
            fatal: maybe_text(self.fatal),
            std_paths: None,
        }
    }

    /// A run that has just begun: every case is pending.
    pub fn new() -> (r: RunState)
        ensures
            r.display().cases == Seq::new(
                DIRECTIONS as nat,
                |i: int| (case_name(i), CaseStatus::Pending),
            ),
            r.log@.len() == 0,
            r.moduli is None,
            r.fatal is None,
            !r.done,
    {
        let mut cases: Vec<(String, CaseStatus)> = Vec::new();
        let mut i: usize = 0;
        while i < DIRECTIONS
            invariant
                i <= DIRECTIONS,
                case_views(cases@) == Seq::new(
                    i as nat,
                    |j: int| (case_name(j), CaseStatus::Pending),
                ),
            decreases DIRECTIONS - i,
        {
            let ghost before = cases@;
            let label: String = case_label(i);
            cases.push((label, CaseStatus::Pending));
            i += 1;
            assert(case_views(cases@) =~= case_views(before).push((label@, CaseStatus::Pending)));
            assert(case_views(cases@) =~= Seq::new(
                i as nat,
                |j: int| (case_name(j), CaseStatus::Pending),
            ));
        }
        RunState { cases, log: Vec::new(), moduli: None, fatal: None, done: false }
    }

    /// Takes note of an event; gives the results of the cases where it announces them.
    fn apply(&mut self, event: &RunEvent) -> (r: Option<Vec<String>>)
        ensures
            ({
                let d = shown_after(old(self).display(), *event);
                &&& final(self).display() == (Display { std_paths: None, ..d })
                &&& maybe_texts(r) == d.std_paths
            }),
            final(self).moduli == old(self).moduli,
            final(self).done == old(self).done,
    {
        match event {
            RunEvent::CaseStarted { case } => {
                set_case_status(&mut self.cases, case.as_str(), CaseStatus::Running);
                None
            },
            RunEvent::CaseOutput { case, line } => {
                let ghost before = self.log@;
                let mut text: String = "[".to_owned();
                text.append(case.as_str());
                text.append("] ");
                text.append(line.as_str());
                self.log.push(text);
                proof {
                    lemma_texts_push(before, text);
                }
                None
            },
            RunEvent::CaseFinished { case, success } => {
                let status: CaseStatus = if *success {
                    CaseStatus::Succeeded
                } else {
                    CaseStatus::Failed
                };
                set_case_status(&mut self.cases, case.as_str(), status);
                None
            },
            RunEvent::AllFinished { std_paths } => Some(copy_texts(std_paths)),
            RunEvent::Fatal { message } => {
                self.fatal = Some(message.clone());
                None
            },
        }
    }

    /// Takes note of what was told since the last time, and of whether the run has ended. Gives
    /// the results of the cases where they were announced.
    pub fn poll_run(&mut self, events: &Vec<RunEvent>, ended: bool) -> (r: Option<Vec<String>>)
        ensures
            ({
                let d = shown_after_all(old(self).display(), events@, events@.len());
                &&& final(self).display() == (Display { std_paths: None, ..d })
                &&& maybe_texts(r) == d.std_paths
            }),
            final(self).moduli == old(self).moduli,
            final(self).done == (old(self).done || ended),
    {
        let mut found: Option<Vec<String>> = None;
        let mut i: usize = 0;
        while i < events.len()
            invariant
                i <= events@.len(),
                ({
                    let d = shown_after_all(old(self).display(), events@, i as nat);
                    &&& self.display() == (Display { std_paths: None, ..d })
                    &&& maybe_texts(found) == d.std_paths
                }),
                self.moduli == old(self).moduli,
                self.done == old(self).done,
            decreases events@.len() - i,
        {
            match self.apply(&events[i]) {
                Some(paths) => {
                    found = Some(paths);
                },
                None => {},
            }
            i += 1;
        }
        if ended {
            self.done = true;
        }
        found
    }

    /// Takes note of the elastic constants. Nothing more is going to be told then.
    pub fn finish(&mut self, moduli: Result<ElasticModuli, String>)
        ensures
            final(self).display() == old(self).display(),
            final(self).moduli == Some(moduli),
            final(self).done,
    {
        self.moduli = Some(moduli);
        self.done = true;
    }

    /// The whole log as one text.
    pub fn log_text(&self) -> (r: String)
        ensures
            r@ == join(texts(self.log@), "\n"@),
    {
        joined(&self.log, "\n")
    }
}

} // verus!
