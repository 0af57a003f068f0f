use ramph::json::{parse_prd, serialize_prd};
use ramph::types::{check_output_file, validate_prd, Prd, Story};

fn story(id: &str, title: &str, desc: &str, priority: i32, passes: bool, criteria: &[&str]) -> Story {
    Story {
        id: id.to_string(),
        title: title.to_string(),
        description: desc.to_string(),
        priority,
        passes,
        acceptance_criteria: criteria.iter().map(|c| c.to_string()).collect(),
    }
}

fn sample_prd() -> Prd {
    Prd {
        branch_name: "feature/sample".to_string(),
        stories: vec![
            story("S-1", "First", "Do the first thing", 1, false, &["it works"]),
            story("S-2", "Second", "Do the second thing", 2, true, &["a", "b"]),
        ],
    }
}

#[test]
fn scheduler_picks_lowest_priority_pending() {
    let prd = Prd {
        branch_name: "x".to_string(),
        stories: vec![
            story("A", "t", "d", 2, false, &["c"]),
            story("B", "t2", "d2", 1, false, &["c2"]),
        ],
    };
    let next = prd.get_next_story().expect("a story is pending");
    assert_eq!(next.id, "B");
}

#[test]
fn scheduler_breaks_ties_by_first_occurrence() {
    let prd = Prd {
        branch_name: "x".to_string(),
        stories: vec![
            story("A", "t", "d", 3, true, &["c"]),
            story("B", "t", "d", 2, false, &["c"]),
            story("C", "t", "d", 2, false, &["c"]),
        ],
    };
    assert_eq!(prd.next_story_index(), Some(1));
    assert_eq!(prd.get_next_story().unwrap().id, "B");
}

#[test]
fn scheduler_returns_none_when_all_done() {
    let prd = Prd {
        branch_name: "x".to_string(),
        stories: vec![story("A", "t", "d", 1, true, &["c"])],
    };
    assert!(prd.get_next_story().is_none());
}

#[test]
fn validation_accepts_well_formed_document() {
    assert!(validate_prd(&sample_prd()).is_ok());
}

#[test]
fn validation_rejects_empty_branch_name() {
    let mut prd = sample_prd();
    prd.branch_name = String::new();
    let err = validate_prd(&prd).unwrap_err();
    assert_eq!(err.message, "Branch name cannot be empty");
}

#[test]
fn validation_rejects_empty_story_list() {
    let prd = Prd { branch_name: "x".to_string(), stories: vec![] };
    let err = validate_prd(&prd).unwrap_err();
    assert_eq!(err.message, "PRD must contain at least one story");
}

#[test]
fn validation_rejects_duplicate_ids() {
    let prd = Prd {
        branch_name: "x".to_string(),
        stories: vec![
            story("A", "t", "d", 1, false, &["c"]),
            story("A", "t2", "d2", 2, false, &["c"]),
        ],
    };
    let err = validate_prd(&prd).unwrap_err();
    assert_eq!(err.message, "Duplicate story ID: A");
}

#[test]
fn validation_rejects_zero_and_negative_priority() {
    let mut prd = sample_prd();
    prd.stories[0].priority = 0;
    let err = validate_prd(&prd).unwrap_err();
    assert_eq!(err.message, "Story S-1 has invalid priority: 0");
    prd.stories[0].priority = -3;
    let err = validate_prd(&prd).unwrap_err();
    assert_eq!(err.message, "Story S-1 has invalid priority: -3");
}

#[test]
fn validation_rejects_empty_criteria() {
    let mut prd = sample_prd();
    prd.stories[1].acceptance_criteria.clear();
    let err = validate_prd(&prd).unwrap_err();
    assert_eq!(err.message, "Story S-2 has no acceptance criteria");
}

#[test]
fn validation_rejects_empty_id_title_description() {
    let mut prd = sample_prd();
    prd.stories[1].id = String::new();
    assert_eq!(validate_prd(&prd).unwrap_err().message, "Story at index 1 has empty ID");
    let mut prd = sample_prd();
    prd.stories[0].title = String::new();
    assert_eq!(validate_prd(&prd).unwrap_err().message, "Story S-1 has empty title");
    let mut prd = sample_prd();
    prd.stories[0].description = String::new();
    assert_eq!(validate_prd(&prd).unwrap_err().message, "Story S-1 has empty description");
}

fn assert_prd_eq(a: &Prd, b: &Prd) {
    assert_eq!(a.branch_name, b.branch_name);
    assert_eq!(a.stories.len(), b.stories.len());
    for (x, y) in a.stories.iter().zip(b.stories.iter()) {
        assert_eq!(x.id, y.id);
        assert_eq!(x.title, y.title);
        assert_eq!(x.description, y.description);
        assert_eq!(x.priority, y.priority);
        assert_eq!(x.passes, y.passes);
        assert_eq!(x.acceptance_criteria, y.acceptance_criteria);
    }
}

#[test]
fn round_trip_preserves_document() {
    let prd = sample_prd();
    let text = serialize_prd(&prd);
    let back = parse_prd(&text).expect("rendered document parses");
    assert_prd_eq(&prd, &back);
}

#[test]
fn round_trip_preserves_awkward_strings() {
    let prd = Prd {
        branch_name: "line\nbreak \"quoted\" back\\slash\ttab \u{1F600} ctrl\u{0001}".to_string(),
        stories: vec![story("id/\u{00E9}", "t", "d", 2147483647, false, &["\u{0008}\u{000C}"])],
    };
    let text = serialize_prd(&prd);
    let back = parse_prd(&text).expect("rendered document parses");
    assert_prd_eq(&prd, &back);
}

#[test]
fn serializer_is_pretty_printed() {
    let prd = Prd {
        branch_name: "b".to_string(),
        stories: vec![story("A", "T", "D", 1, false, &["c1", "c2"])],
    };
    let expected = "{\n  \"branchName\": \"b\",\n  \"stories\": [\n    {\n      \"id\": \"A\",\n      \"title\": \"T\",\n      \"description\": \"D\",\n      \"priority\": 1,\n      \"passes\": false,\n      \"acceptance_criteria\": [\n        \"c1\",\n        \"c2\"\n      ]\n    }\n  ]\n}";
    assert_eq!(serialize_prd(&prd), expected);
}

#[test]
fn parser_accepts_any_member_order_and_whitespace() {
    let text = "  {\"stories\": [{\"passes\": true, \"id\": \"A\", \"description\": \"d\",\n \"acceptance_criteria\": [\"c\"], \"title\": \"t\", \"priority\": 3}],\n\"branchName\": \"b\"}  ";
    let prd = parse_prd(text).expect("valid document");
    assert_eq!(prd.branch_name, "b");
    assert_eq!(prd.stories[0].priority, 3);
    assert!(prd.stories[0].passes);
}

#[test]
fn parser_applies_defaults_for_optional_members() {
    let text = "{\"branchName\": \"b\", \"stories\": [{\"id\": \"A\", \"title\": \"t\", \"description\": \"d\"}]}";
    let prd = parse_prd(text).expect("defaults apply");
    assert_eq!(prd.stories[0].priority, 0);
    assert!(!prd.stories[0].passes);
    assert!(prd.stories[0].acceptance_criteria.is_empty());
    // the defaulted document then fails validation, as priority 0 is invalid
    assert!(validate_prd(&prd).is_err());
}

#[test]
fn parser_rejects_unknown_duplicate_and_missing_members() {
    assert!(parse_prd("{\"branchName\": \"b\", \"stories\": [], \"extra\": 1}").is_err());
    assert!(parse_prd("{\"branchName\": \"b\", \"branchName\": \"c\", \"stories\": []}").is_err());
    assert!(parse_prd("{\"branchName\": \"b\"}").is_err());
    assert!(parse_prd("{\"stories\": []}").is_err());
    assert!(
        parse_prd("{\"branchName\": \"b\", \"stories\": [{\"id\": \"A\", \"title\": \"t\"}]}")
            .is_err()
    );
}

#[test]
fn parser_rejects_trailing_text_and_bad_numbers() {
    assert!(parse_prd("{\"branchName\": \"b\", \"stories\": []} x").is_err());
    assert!(parse_prd(
        "{\"branchName\": \"b\", \"stories\": [{\"id\": \"A\", \"title\": \"t\", \"description\": \"d\", \"priority\": 1.5}]}"
    )
    .is_err());
    assert!(parse_prd(
        "{\"branchName\": \"b\", \"stories\": [{\"id\": \"A\", \"title\": \"t\", \"description\": \"d\", \"priority\": 99999999999}]}"
    )
    .is_err());
}

#[test]
fn parser_decodes_escapes() {
    let text = "{\"branchName\": \"\\u0041\\n\\\"\\\\\\t\\u00e9\", \"stories\": []}";
    let prd = parse_prd(text).expect("escapes decode");
    assert_eq!(prd.branch_name, "A\n\"\\\t\u{00e9}");
}

#[test]
fn parser_rejects_surrogate_escapes_and_raw_controls() {
    assert!(parse_prd("{\"branchName\": \"\\ud800\", \"stories\": []}").is_err());
    assert!(parse_prd("{\"branchName\": \"a\u{0001}b\", \"stories\": []}").is_err());
}

#[test]
fn output_file_check_blocks_existing_without_force() {
    assert!(check_output_file(true, false).is_err());
    assert!(check_output_file(true, true).is_ok());
    assert!(check_output_file(false, false).is_ok());
    assert!(check_output_file(false, true).is_ok());
}
