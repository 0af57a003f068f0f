use ramph::output::OutputMode;
use ramph::session::{drive_session, is_fatal, SessionEvent};
use ramph::types::{Prd, Story};
use ramph::workflows::{
    appended_journal, count_passed, is_affirmative, journal_entry_failure, journal_entry_success,
    run_execute_loop, IterationOutcome, StopReason,
};

fn story(id: &str, passes: bool) -> Story {
    Story {
        id: id.to_string(),
        title: "t".to_string(),
        description: "d".to_string(),
        priority: 1,
        passes,
        acceptance_criteria: vec!["c".to_string()],
    }
}

fn doc(stories: Vec<Story>) -> Prd {
    Prd { branch_name: "b".to_string(), stories }
}

#[test]
fn session_accumulates_text_in_order() {
    let events = vec![
        SessionEvent::Started { session_id: "s1".to_string() },
        SessionEvent::AgentText { text: "Hello ".to_string() },
        SessionEvent::ToolInvoked { name: "edit".to_string() },
        SessionEvent::AgentText { text: "world".to_string() },
        SessionEvent::Completed { duration_ms: 10, num_turns: 1, is_error: false, error: None },
    ];
    assert_eq!(drive_session(&events).unwrap(), "Hello world");
}

#[test]
fn session_failure_takes_precedence_over_text() {
    let events = vec![
        SessionEvent::AgentText { text: "partial".to_string() },
        SessionEvent::Completed {
            duration_ms: 5,
            num_turns: 1,
            is_error: true,
            error: Some("boom".to_string()),
        },
        SessionEvent::AgentText { text: "after".to_string() },
    ];
    let err = drive_session(&events).unwrap_err();
    assert_eq!(err.message, "boom");
}

#[test]
fn session_error_without_message_falls_back_to_empty() {
    let events = vec![
        SessionEvent::Completed { duration_ms: 5, num_turns: 1, is_error: true, error: None },
    ];
    assert_eq!(drive_session(&events).unwrap_err().message, "");
}

#[test]
fn session_transport_errors_are_drained_not_fatal() {
    let events = vec![
        SessionEvent::AgentText { text: "a".to_string() },
        SessionEvent::TransportError { message: "glitch".to_string() },
        SessionEvent::AgentText { text: "b".to_string() },
    ];
    assert_eq!(drive_session(&events).unwrap(), "ab");
    assert!(!is_fatal(&SessionEvent::TransportError { message: "x".to_string() }));
    assert!(is_fatal(&SessionEvent::Completed {
        duration_ms: 0,
        num_turns: 0,
        is_error: true,
        error: None,
    }));
}

#[test]
fn loop_exhausts_budget_when_no_story_ever_passes() {
    let n = 3;
    let docs = vec![
        doc(vec![story("A", false)]),
        doc(vec![story("A", false)]),
        doc(vec![story("A", false)]),
    ];
    let stamps = vec!["t1".to_string(), "t2".to_string(), "t3".to_string()];
    let outcomes = vec![
        IterationOutcome::Success,
        IterationOutcome::Success,
        IterationOutcome::Success,
    ];
    let report = run_execute_loop(n, &docs, &stamps, &outcomes);
    assert_eq!(report.invocations, 3);
    assert_eq!(report.reason, StopReason::Exhausted);
    assert_eq!(report.entries.len(), 3);
}

#[test]
fn loop_stops_at_once_when_everything_is_done() {
    let docs = vec![doc(vec![story("A", true)]), doc(vec![story("A", true)])];
    let stamps = vec!["t1".to_string(), "t2".to_string()];
    let outcomes = vec![IterationOutcome::Success, IterationOutcome::Success];
    let report = run_execute_loop(2, &docs, &stamps, &outcomes);
    assert_eq!(report.invocations, 0);
    assert_eq!(report.reason, StopReason::AllComplete);
    assert!(report.entries.is_empty());
}

#[test]
fn loop_records_success_and_failure_entries() {
    let docs = vec![
        doc(vec![story("A", false)]),
        doc(vec![story("A", false)]),
        doc(vec![story("A", true)]),
    ];
    let stamps = vec!["10:00".to_string(), "10:05".to_string(), "10:06".to_string()];
    let outcomes = vec![
        IterationOutcome::Success,
        IterationOutcome::Failure { message: "agent gave up".to_string() },
        IterationOutcome::Success,
    ];
    let report = run_execute_loop(3, &docs, &stamps, &outcomes);
    assert_eq!(report.invocations, 2);
    assert_eq!(report.reason, StopReason::AllComplete);
    assert_eq!(report.entries[0], "\n## [10:00] Completed: A\n");
    assert_eq!(report.entries[1], "\n## [10:05] Failed: A\nError: agent gave up\n");
}

#[test]
fn journal_entries_are_exact() {
    assert_eq!(journal_entry_success("2024-01-02 03:04:05", "S-1"), "\n## [2024-01-02 03:04:05] Completed: S-1\n");
    assert_eq!(
        journal_entry_failure("2024-01-02 03:04:05", "S-1", "oops"),
        "\n## [2024-01-02 03:04:05] Failed: S-1\nError: oops\n"
    );
    assert_eq!(appended_journal("old", "new entry"), "oldnew entry\n");
}

#[test]
fn confirmation_accepts_only_the_literal_affirmative() {
    assert!(is_affirmative("y"));
    assert!(is_affirmative("Y"));
    assert!(is_affirmative("  y\n"));
    assert!(is_affirmative(" y\u{00A0}"));
    assert!(!is_affirmative("yes"));
    assert!(!is_affirmative("n"));
    assert!(!is_affirmative(""));
    assert!(!is_affirmative("why"));
}

#[test]
fn passed_stories_are_counted() {
    let prd = doc(vec![story("A", true), story("B", false), story("C", true)]);
    assert_eq!(count_passed(&prd), 2);
}

#[test]
fn output_mode_flags() {
    assert!(OutputMode::Quiet.is_quiet());
    assert!(!OutputMode::Quiet.is_verbose());
    assert!(OutputMode::Verbose.is_verbose());
    assert!(!OutputMode::Normal.is_quiet() && !OutputMode::Normal.is_verbose());
}
