//! The session driver's decision core: one exchange with the agent service
//! is a stream of typed events, folded in arrival order into either the
//! accumulated response text or a failure.

use vstd::prelude::*;

verus! {

/// One event of a session stream, in the order the transport delivers them.
#[derive(Debug)]
pub enum SessionEvent {
    /// The session opened; a diagnostic signal only.
    Started { session_id: String },
    /// A piece of response text; concatenation order matters.
    AgentText { text: String },
    /// The agent invoked a tool; a diagnostic signal only.
    ToolInvoked { name: String },
    /// Terminal event for the session; `is_error` decides the outcome.
    Completed { duration_ms: u64, num_turns: u64, is_error: bool, error: Option<String> },
    /// A transport fault; logged and skipped, the stream keeps draining.
    TransportError { message: String },
}

/// A failed exchange: the agent-reported message, or empty when the terminal
/// event carried none.
#[derive(Debug)]
pub struct SessionError {
    pub message: String,
}

/// Whether an event ends the exchange as a failure.
pub open spec fn is_error_completion(e: SessionEvent) -> bool {
    match e {
        SessionEvent::Completed { is_error, .. } => is_error,
        _ => false,
    }
}

/// The message a failing terminal event carries, or empty.
pub open spec fn completion_message(e: SessionEvent) -> Seq<char> {
    match e {
        SessionEvent::Completed { error: Some(m), .. } => m@,
        _ => Seq::empty(),
    }
}

/// First index at or after `i` of an event that fails the exchange, or
/// `evs.len()` when none does.
pub open spec fn first_error_at(evs: Seq<SessionEvent>, i: int) -> int
    decreases evs.len() - i,
{
    if 0 <= i < evs.len() {
        if is_error_completion(evs[i]) {
            i
        } else {
            first_error_at(evs, i + 1)
        }
    } else {
        evs.len() as int
    }
}

/// The text accumulated from the first `upto` events: every `AgentText`
/// payload, concatenated in arrival order.
pub open spec fn accumulated_text(evs: Seq<SessionEvent>, upto: int) -> Seq<char>
    decreases upto,
{
    if upto <= 0 {
        Seq::empty()
    } else {
        accumulated_text(evs, upto - 1) + (match evs[upto - 1] {
            SessionEvent::AgentText { text } => text@,
            _ => Seq::empty(),
        })
    }
}

/// Whether an event ends the exchange as a failure; see `is_error_completion`.
pub fn is_fatal(ev: &SessionEvent) -> (r: bool)
    ensures
        r == is_error_completion(*ev),
{
    match ev {
        SessionEvent::Completed { is_error, .. } => *is_error,
        _ => false,
    }
}

/// Folds a recorded event stream into the exchange's outcome: the first
/// failing terminal event decides failure, with the text gathered so far
/// discarded; otherwise the exchange succeeds with every text fragment
/// concatenated in arrival order. Exactly one of the two is returned.
pub fn drive_session(events: &Vec<SessionEvent>) -> (r: Result<String, SessionError>)
    ensures
        ({
            let stop = first_error_at(events@, 0);
            match r {
                Ok(s) => stop == events@.len() && s@ == accumulated_text(
                    events@,
                    events@.len() as int,
                ),
                Err(e) => stop < events@.len() && e.message@ == completion_message(events@[stop]),
            }
        }),
{
    let mut acc = String::new();
    let n = events.len();
    let mut i: usize = 0;
    while i < n
        invariant
            0 <= i <= n == events@.len(),
            forall|k: int| 0 <= k < i ==> !is_error_completion(#[trigger] events@[k]),
            acc@ == accumulated_text(events@, i as int),
        decreases n - i,
    {
        match &events[i] {
            SessionEvent::AgentText { text } => {
                acc.append(text.as_str());
            },
            SessionEvent::Completed { is_error, error, .. } => {
                if *is_error {
                    let message = match error {
                        Some(m) => m.clone(),
                        None => String::new(),
                    };
                    proof {
                        lemma_first_error_skip(events@, 0, i as int);
                        assert(first_error_at(events@, i as int) == i as int);
                    }
                    return Err(SessionError { message });
                }
            },
            _ => {},
        }
        i = i + 1;
    }
    proof {
        lemma_first_error_skip(events@, 0, n as int);
    }
    Ok(acc)
}

/// When no event in `[i, j)` fails the exchange, the first failure at or
/// after `i` is the first at or after `j`.
proof fn lemma_first_error_skip(evs: Seq<SessionEvent>, i: int, j: int)
    requires
        0 <= i <= j <= evs.len(),
        forall|k: int| i <= k < j ==> !is_error_completion(#[trigger] evs[k]),
    ensures
        first_error_at(evs, i) == first_error_at(evs, j),
    decreases j - i,
{
    if i < j {
        assert(!is_error_completion(evs[i]));
        lemma_first_error_skip(evs, i + 1, j);
    }
}

} // verus!
