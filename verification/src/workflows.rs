//! The iteration loop's decision core: journal entries, the bounded
//! execute-tasks run over per-iteration inputs, and the plan-mode
//! confirmation rule.
//!
//! The run model takes the per-iteration world as arguments — the freshly
//! read document, the timestamp, and the session outcome of each iteration —
//! and decides everything else: which story is worked on, what is appended to
//! the journal, and when the run stops. A caller performs the reads, the
//! session exchanges and the writes between steps.

use vstd::prelude::*;

use crate::text::{str_to_chars, trim_chars, trimmed};
use crate::types::{sel_from, Prd, Story};

verus! {

/// A journal entry recording a successful iteration.
pub open spec fn success_entry(ts: Seq<char>, id: Seq<char>) -> Seq<char> {
    "\n## ["@ + ts + "] Completed: "@ + id + "\n"@
}

/// A journal entry recording a failed iteration, with the reason.
pub open spec fn failure_entry(ts: Seq<char>, id: Seq<char>, err: Seq<char>) -> Seq<char> {
    "\n## ["@ + ts + "] Failed: "@ + id + "\nError: "@ + err + "\n"@
}

/// Renders the journal entry for a completed story.
pub fn journal_entry_success(timestamp: &str, story_id: &str) -> (r: String)
    ensures
        r@ == success_entry(timestamp@, story_id@),
{
    let mut m = String::new();
    m.append("\n## [");
    m.append(timestamp);
    m.append("] Completed: ");
    m.append(story_id);
    m.append("\n");
    proof {
        assert(m@ =~= success_entry(timestamp@, story_id@));
    }
    m
}

/// Renders the journal entry for a failed story, with the failure reason.
pub fn journal_entry_failure(timestamp: &str, story_id: &str, error: &str) -> (r: String)
    ensures
        r@ == failure_entry(timestamp@, story_id@, error@),
{
    let mut m = String::new();
    m.append("\n## [");
    m.append(timestamp);
    m.append("] Failed: ");
    m.append(story_id);
    m.append("\nError: ");
    m.append(error);
    m.append("\n");
    proof {
        assert(m@ =~= failure_entry(timestamp@, story_id@, error@));
    }
    m
}

/// The journal after one append: the entry goes at the end, followed by a
/// newline; nothing before it changes.
pub fn appended_journal(content: &str, entry: &str) -> (r: String)
    ensures
        r@ == content@ + entry@ + "\n"@,
{
    let mut m = String::new();
    m.append(content);
    m.append(entry);
    m.append("\n");
    m
}

/// Whether a confirmation input is the literal affirmative: exactly `y`,
/// case-insensitively, once surrounding whitespace is dropped.
pub fn is_affirmative(input: &str) -> (r: bool)
    ensures
        r == (trimmed(input@) == "y"@ || trimmed(input@) == "Y"@),
{
    let v = str_to_chars(input);
    let t = trim_chars(&v);
    proof {
        reveal_strlit("y");
        reveal_strlit("Y");
        assert("y"@ =~= seq!['y']);
        assert("Y"@ =~= seq!['Y']);
    }
    if t.len() == 1 && (t[0] == 'y' || t[0] == 'Y') {
        proof {
            if t@[0] == 'y' {
                assert(t@ =~= "y"@);
            } else {
                assert(t@ =~= "Y"@);
            }
        }
        true
    } else {
        proof {
            assert(t@ != "y"@ && t@ != "Y"@);
        }
        false
    }
}

/// Every story in the document is done.
pub open spec fn all_done(p: Prd) -> bool {
    forall|i: int| 0 <= i < p.stories@.len() ==> (#[trigger] p.stories@[i]).passes
}

/// How many of the first `i` stories are done.
pub open spec fn passed_count(stories: Seq<Story>, i: int) -> int
    decreases i,
{
    if i <= 0 {
        0
    } else {
        passed_count(stories, i - 1) + (if stories[i - 1].passes {
            1int
        } else {
            0int
        })
    }
}

/// Counts the stories already done.
pub fn count_passed(prd: &Prd) -> (n: usize)
    ensures
        n == passed_count(prd.stories@, prd.stories@.len() as int),
{
    let mut n: usize = 0;
    let mut i: usize = 0;
    while i < prd.stories.len()
        invariant
            0 <= i <= prd.stories@.len(),
            n == passed_count(prd.stories@, i as int),
            n <= i,
        decreases prd.stories@.len() - i,
    {
        if prd.stories[i].passes {
            n = n + 1;
        }
        i = i + 1;
    }
    n
}

/// Why an execute-tasks run ended: every story done, or the iteration budget
/// spent.
#[derive(Debug, Clone, Copy, PartialEq, Eq, Structural)]
pub enum StopReason {
    AllComplete,
    Exhausted,
}

/// The outcome one session exchange handed back to the loop.
#[derive(Debug)]
pub enum IterationOutcome {
    Success,
    Failure { message: String },
}

/// What a bounded run did: how many exchanges ran, why it stopped, and the
/// journal entries it appended, in order.
#[derive(Debug)]
pub struct RunReport {
    pub invocations: usize,
    pub reason: StopReason,
    pub entries: Vec<String>,
}

/// The first index below `max` whose freshly read document has every story
/// done, or `None`: the iteration at which the run stops early.
pub open spec fn completed_before(docs: Seq<Prd>, i: int, max: int) -> Option<int>
    decreases max - i,
{
    if i < 0 || i >= max {
        None
    } else if all_done(docs[i]) {
        Some(i)
    } else {
        completed_before(docs, i + 1, max)
    }
}

/// How many session exchanges a run of at most `max` iterations performs.
pub open spec fn run_invocations(docs: Seq<Prd>, max: int) -> int {
    match completed_before(docs, 0, max) {
        Some(i) => i,
        None => max,
    }
}

/// Whether such a run stops because every story is done.
pub open spec fn run_completed(docs: Seq<Prd>, max: int) -> bool {
    completed_before(docs, 0, max) is Some
}

/// The journal entry iteration `i` appends: the scheduler's pick on the
/// fresh document, recorded as completed or failed.
pub open spec fn run_entry(doc: Prd, ts: Seq<char>, outcome: IterationOutcome) -> Seq<char> {
    let id = match sel_from(doc.stories@, 0) {
        Some(j) => doc.stories@[j].id@,
        None => Seq::empty(),
    };
    match outcome {
        IterationOutcome::Success => success_entry(ts, id),
        IterationOutcome::Failure { message } => failure_entry(ts, id, message@),
    }
}

/// Law: a run whose every fresh read still has a pending story performs
/// exactly `max` session exchanges and stops only by exhausting its budget.
pub proof fn lemma_run_exhausts_budget(docs: Seq<Prd>, max: int)
    requires
        0 <= max <= docs.len(),
        forall|i: int| 0 <= i < max ==> !all_done(#[trigger] docs[i]),
    ensures
        run_invocations(docs, max) == max,
        !run_completed(docs, max),
{
    lemma_completed_none(docs, 0, max);
}

proof fn lemma_completed_none(docs: Seq<Prd>, i: int, max: int)
    requires
        0 <= i <= max <= docs.len(),
        forall|k: int| i <= k < max ==> !all_done(#[trigger] docs[k]),
    ensures
        completed_before(docs, i, max) is None,
    decreases max - i,
{
    if i < max {
        lemma_completed_none(docs, i + 1, max);
    }
}

/// Law: when the first fresh read already shows every story done, the run
/// performs no session exchange and reports completion.
pub proof fn lemma_run_stops_at_once(docs: Seq<Prd>, max: int)
    requires
        1 <= max <= docs.len(),
        all_done(docs[0]),
    ensures
        run_invocations(docs, max) == 0,
        run_completed(docs, max),
{
}

/// Runs the execute-tasks loop over per-iteration inputs: `docs[i]` is the
/// document as freshly read at iteration `i`, `timestamps[i]` the wall-clock
/// label and `outcomes[i]` the session verdict of that iteration. Stops at
/// the first fresh read with every story done, or after `max_iterations`;
/// the report carries the exchange count, the stop reason, and the journal
/// entries appended in order.
pub fn run_execute_loop(
    max_iterations: usize,
    docs: &Vec<Prd>,
    timestamps: &Vec<String>,
    outcomes: &Vec<IterationOutcome>,
) -> (r: RunReport)
    requires
        docs@.len() >= max_iterations,
        timestamps@.len() >= max_iterations,
        outcomes@.len() >= max_iterations,
    ensures
        r.invocations == run_invocations(docs@, max_iterations as int),
        (r.reason == StopReason::AllComplete) == run_completed(docs@, max_iterations as int),
        r.entries@.len() == r.invocations,
        forall|i: int|
            0 <= i < r.invocations ==> (#[trigger] r.entries@[i])@ == run_entry(
                docs@[i],
                timestamps@[i]@,
                outcomes@[i],
            ),
{
    let mut entries: Vec<String> = Vec::new();
    let mut i: usize = 0;
    while i < max_iterations
        invariant
            0 <= i <= max_iterations,
            docs@.len() >= max_iterations,
            timestamps@.len() >= max_iterations,
            outcomes@.len() >= max_iterations,
            completed_before(docs@, 0, i as int) is None,
            forall|k: int| 0 <= k < i ==> !all_done(#[trigger] docs@[k]),
            entries@.len() == i,
            forall|k: int|
                0 <= k < i ==> (#[trigger] entries@[k])@ == run_entry(
                    docs@[k],
                    timestamps@[k]@,
                    outcomes@[k],
                ),
        decreases max_iterations - i,
    {
        let doc = &docs[i];
        match doc.next_story_index() {
            None => {
                proof {
                    lemma_completed_extend(docs@, i as int, max_iterations as int);
                }
                return RunReport { invocations: i, reason: StopReason::AllComplete, entries };
            },
            Some(j) => {
                let ts = &timestamps[i];
                let entry = match &outcomes[i] {
                    IterationOutcome::Success => journal_entry_success(
                        ts.as_str(),
                        doc.stories[j].id.as_str(),
                    ),
                    IterationOutcome::Failure { message } => journal_entry_failure(
                        ts.as_str(),
                        doc.stories[j].id.as_str(),
                        message.as_str(),
                    ),
                };
                proof {
                    assert(!all_done(docs@[i as int]));
                    lemma_completed_step(docs@, i as int);
                }
                entries.push(entry);
            },
        }
        i = i + 1;
    }
    proof {
        lemma_completed_none(docs@, 0, max_iterations as int);
    }
    RunReport { invocations: max_iterations, reason: StopReason::Exhausted, entries }
}

/// When no read in `[0, i)` was all done and read `i` is, the run stops at
/// `i` for any budget beyond it.
proof fn lemma_completed_extend(docs: Seq<Prd>, i: int, max: int)
    requires
        0 <= i < max <= docs.len(),
        forall|k: int| 0 <= k < i ==> !all_done(#[trigger] docs[k]),
        all_done(docs[i]),
    ensures
        completed_before(docs, 0, max) == Some(i),
{
    lemma_completed_from(docs, 0, i, max);
}

proof fn lemma_completed_from(docs: Seq<Prd>, lo: int, i: int, max: int)
    requires
        0 <= lo <= i < max <= docs.len(),
        forall|k: int| lo <= k < i ==> !all_done(#[trigger] docs[k]),
        all_done(docs[i]),
    ensures
        completed_before(docs, lo, max) == Some(i),
    decreases i - lo,
{
    if lo < i {
        lemma_completed_from(docs, lo + 1, i, max);
    }
}

/// Extending the horizon by one non-done read keeps the run unstopped.
proof fn lemma_completed_step(docs: Seq<Prd>, i: int)
    requires
        0 <= i < docs.len(),
        completed_before(docs, 0, i) is None,
        !all_done(docs[i]),
    ensures
        completed_before(docs, 0, i + 1) is None,
{
    lemma_completed_step_from(docs, 0, i);
}

proof fn lemma_completed_step_from(docs: Seq<Prd>, lo: int, i: int)
    requires
        0 <= lo <= i < docs.len(),
        completed_before(docs, lo, i) is None,
        !all_done(docs[i]),
    ensures
        completed_before(docs, lo, i + 1) is None,
    decreases i - lo,
{
    if lo < i {
        assert(!all_done(docs[lo]));
        lemma_completed_step_from(docs, lo + 1, i);
        assert(completed_before(docs, lo, i + 1) == completed_before(docs, lo + 1, i + 1));
    } else {
        assert(completed_before(docs, i + 1, i + 1) is None);
        assert(completed_before(docs, lo, i + 1) is None);
    }
}

} // verus!
