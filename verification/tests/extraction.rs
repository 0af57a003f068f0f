use ramph::prompts::{
    build_extraction_prompt, build_iteration_prompt, build_planning_prompt, clean_json_response,
};
use ramph::types::Story;

#[test]
fn extractor_strips_fences_before_boundary_search() {
    let input = "```json\n{\"a\": 1}\n```";
    assert_eq!(clean_json_response(input).unwrap(), "{\"a\": 1}");
}

#[test]
fn extractor_keeps_two_line_fenced_text() {
    // two lines only: the fence lines are not stripped, braces found inside
    let input = "```{\"a\":1}\n```";
    assert_eq!(clean_json_response(input).unwrap(), "{\"a\":1}");
}

#[test]
fn extractor_cuts_noise_around_braces() {
    let input = "noise {\"a\":1} trailing";
    assert_eq!(clean_json_response(input).unwrap(), "{\"a\":1}");
}

#[test]
fn extractor_reports_missing_opening_brace() {
    let err = clean_json_response("no braces here").unwrap_err();
    assert_eq!(err.message, "No opening brace found in response");
}

#[test]
fn extractor_reports_missing_closing_brace() {
    let err = clean_json_response("text { unclosed").unwrap_err();
    assert_eq!(err.message, "No closing brace found in response");
    let err = clean_json_response("} before {").unwrap_err();
    assert_eq!(err.message, "No closing brace found in response");
}

#[test]
fn extractor_trims_and_handles_crlf_fences() {
    let input = "  ```json\r\n{\"a\": 1}\r\n```  ";
    assert_eq!(clean_json_response(input).unwrap(), "{\"a\": 1}");
}

#[test]
fn iteration_prompt_renders_all_parts() {
    let story = Story {
        id: "S-9".to_string(),
        title: "Do it".to_string(),
        description: "All of it".to_string(),
        priority: 1,
        passes: false,
        acceptance_criteria: vec!["first".to_string(), "second".to_string()],
    };
    let got = build_iteration_prompt("BASE", &story, "prior notes");
    let expected = "BASE\n\n## Current Task\n\n**Story ID:** S-9\n**Title:** Do it\n**Description:** All of it\n\n### Acceptance Criteria\n- first\n- second\n\n## Previous Learnings\nprior notes\n\n## Instructions\n\n1. Implement this story\n2. Run typecheck and tests\n3. If passing, commit with message: \"feat(S-9): Do it\"\n4. Mark the story as done by setting `passes: true` in prd.json\n5. Append learnings to progress.txt\n6. If you discover reusable patterns, update AGENTS.md\n";
    assert_eq!(got, expected);
}

#[test]
fn iteration_prompt_uses_placeholder_for_empty_journal() {
    let story = Story {
        id: "S".to_string(),
        title: "T".to_string(),
        description: "D".to_string(),
        priority: 1,
        passes: false,
        acceptance_criteria: vec!["c".to_string()],
    };
    let got = build_iteration_prompt("B", &story, "");
    assert!(got.contains("## Previous Learnings\n(none yet)\n"));
}

#[test]
fn planning_prompt_embeds_initial_description() {
    let got = build_planning_prompt(Some("a web shop".to_string()));
    assert!(got.starts_with("You are an AI planning assistant"));
    assert!(got.contains("\n## Initial Project Description\n\na web shop\n\nStart by clarifying"));
    assert!(got.ends_with("\n\nBegin by understanding what the user wants to build."));
}

#[test]
fn planning_prompt_without_description_has_no_context_block() {
    let got = build_planning_prompt(None);
    assert!(!got.contains("Initial Project Description"));
    assert!(got.ends_with("\n\nBegin by understanding what the user wants to build."));
}

#[test]
fn extraction_prompt_ends_with_transcript() {
    let got = build_extraction_prompt("the whole talk");
    assert!(got.starts_with("You are a structured data extraction assistant"));
    assert!(got.ends_with("## Conversation History\n\nthe whole talk"));
}
