//! Deterministic prompt composition and the structured extractor that
//! recovers a candidate document from free-form agent text.

use vstd::prelude::*;

use crate::text::{chars_to_string, str_to_chars, trim_chars, trimmed};
use crate::types::Story;

verus! {

/// First index at or after `i` holding `c`, or `s.len()` when absent.
pub open spec fn find_char(s: Seq<char>, c: char, i: int) -> int
    decreases s.len() - i,
{
    if 0 <= i < s.len() {
        if s[i] == c {
            i
        } else {
            find_char(s, c, i + 1)
        }
    } else {
        s.len() as int
    }
}

pub proof fn lemma_find_char(s: Seq<char>, c: char, i: int)
    requires
        0 <= i <= s.len(),
    ensures
        i <= find_char(s, c, i) <= s.len(),
        find_char(s, c, i) < s.len() ==> s[find_char(s, c, i)] == c,
        forall|k: int| i <= k < find_char(s, c, i) ==> s[k] != c,
    decreases s.len() - i,
{
    if i < s.len() && s[i] != c {
        lemma_find_char(s, c, i + 1);
    }
}

/// Last index strictly below `j` holding `c`, or `-1` when absent.
pub open spec fn find_last(s: Seq<char>, c: char, j: int) -> int
    decreases j,
{
    if j <= 0 || j > s.len() {
        -1
    } else if s[j - 1] == c {
        j - 1
    } else {
        find_last(s, c, j - 1)
    }
}

/// A line with one trailing carriage return removed.
pub open spec fn strip_cr(l: Seq<char>) -> Seq<char> {
    if l.len() > 0 && l.last() == '\r' {
        l.drop_last()
    } else {
        l
    }
}

/// The lines of `s[i..]`: pieces split at newlines, each with a trailing
/// carriage return removed.
pub open spec fn split_lines_at(s: Seq<char>, i: int) -> Seq<Seq<char>>
    decreases s.len() - i,
    via split_lines_at_decreases
{
    let n = find_char(s, '\n', i);
    if n >= s.len() || i < 0 {
        seq![strip_cr(s.subrange(i, s.len() as int))]
    } else {
        seq![strip_cr(s.subrange(i, n))] + split_lines_at(s, n + 1)
    }
}

#[via_fn]
proof fn split_lines_at_decreases(s: Seq<char>, i: int) {
    if 0 <= i <= s.len() {
        lemma_find_char(s, '\n', i);
    }
}

pub open spec fn split_lines(s: Seq<char>) -> Seq<Seq<char>> {
    split_lines_at(s, 0)
}

/// The lines joined back with single newlines.
pub open spec fn join_lines(ls: Seq<Seq<char>>) -> Seq<char>
    decreases ls.len(),
{
    if ls.len() == 0 {
        Seq::empty()
    } else if ls.len() == 1 {
        ls[0]
    } else {
        join_lines(ls.drop_last()) + seq!['\n'] + ls.last()
    }
}

/// Whether `t` opens with a triple-backtick fence marker.
pub open spec fn has_fence(t: Seq<char>) -> bool {
    t.len() >= 3 && t[0] == '`' && t[1] == '`' && t[2] == '`'
}

/// Fence stripping: when the text opens with a fence marker and spans more
/// than two lines, the first and last lines are dropped; otherwise the text
/// is kept as it is.
pub open spec fn defenced(t: Seq<char>) -> Seq<char> {
    if has_fence(t) {
        let ls = split_lines(t);
        if ls.len() > 2 {
            join_lines(ls.subrange(1, ls.len() - 1))
        } else {
            t
        }
    } else {
        t
    }
}

/// A rejected extraction, with the reason spelled out.
#[derive(Debug)]
pub struct ExtractError {
    pub message: String,
}

fn find_char_exec(v: &Vec<char>, c: char, i: usize) -> (r: usize)
    requires
        i <= v@.len(),
    ensures
        r == find_char(v@, c, i as int),
{
    let mut k: usize = i;
    while k < v.len() && v[k] != c
        invariant
            i <= k <= v@.len(),
            forall|k2: int| i <= k2 < k ==> v@[k2] != c,
        decreases v@.len() - k,
    {
        k = k + 1;
    }
    proof {
        lemma_find_char_skip(v@, c, i as int, k as int);
    }
    k
}

proof fn lemma_find_char_skip(s: Seq<char>, c: char, i: int, k: int)
    requires
        0 <= i <= k <= s.len(),
        forall|k2: int| i <= k2 < k ==> s[k2] != c,
        k == s.len() || s[k] == c,
    ensures
        find_char(s, c, i) == k,
    decreases k - i,
{
    if i < k {
        lemma_find_char_skip(s, c, i + 1, k);
    }
}

proof fn lemma_find_last_skip(s: Seq<char>, c: char, j: int, k: int)
    requires
        -1 <= k < j <= s.len(),
        forall|k2: int| k < k2 < j ==> s[k2] != c,
        k == -1 || s[k] == c,
    ensures
        find_last(s, c, j) == k,
    decreases j - k,
{
    if k < j - 1 {
        lemma_find_last_skip(s, c, j - 1, k);
    }
}

/// Copy of `v[from..to]`.
fn copy_range(v: &Vec<char>, from: usize, to: usize) -> (r: Vec<char>)
    requires
        from <= to <= v@.len(),
    ensures
        r@ == v@.subrange(from as int, to as int),
{
    let mut r: Vec<char> = Vec::new();
    let mut i: usize = from;
    while i < to
        invariant
            from <= i <= to <= v@.len(),
            r@ == v@.subrange(from as int, i as int),
        decreases to - i,
    {
        r.push(v[i]);
        proof {
            assert(r@ =~= v@.subrange(from as int, i + 1 as int));
        }
        i = i + 1;
    }
    r
}

/// The lines of `v[i..]`, as `split_lines_at` gives them.
fn split_lines_exec(v: &Vec<char>, i: usize) -> (r: Vec<Vec<char>>)
    requires
        i <= v@.len(),
    ensures
        r@.map_values(|l: Vec<char>| l@) == split_lines_at(v@, i as int),
    decreases v@.len() - i,
{
    let n = find_char_exec(v, '\n', i);
    proof {
        lemma_find_char(v@, '\n', i as int);
    }
    if n >= v.len() {
        let mut piece = copy_range(v, i, v.len());
        if piece.len() > 0 && piece[piece.len() - 1] == '\r' {
            piece.pop();
            proof {
                assert(piece@ =~= strip_cr(v@.subrange(i as int, v@.len() as int)));
            }
        }
        let mut r: Vec<Vec<char>> = Vec::new();
        r.push(piece);
        proof {
            assert(r@.map_values(|l: Vec<char>| l@) =~= split_lines_at(v@, i as int));
        }
        r
    } else {
        let mut piece = copy_range(v, i, n);
        if piece.len() > 0 && piece[piece.len() - 1] == '\r' {
            piece.pop();
            proof {
                assert(piece@ =~= strip_cr(v@.subrange(i as int, n as int)));
            }
        }
        let rest = split_lines_exec(v, n + 1);
        let mut r: Vec<Vec<char>> = Vec::new();
        r.push(piece);
        let mut k: usize = 0;
        while k < rest.len()
            invariant
                0 <= k <= rest@.len(),
                r@.len() == k + 1,
                r@[0]@ == strip_cr(v@.subrange(i as int, n as int)),
                forall|k2: int| 0 <= k2 < k ==> (#[trigger] r@[k2 + 1])@ == rest@[k2]@,
            decreases rest@.len() - k,
        {
            let line = copy_range(&rest[k], 0, rest[k].len());
            proof {
                assert(line@ =~= rest@[k as int]@);
            }
            r.push(line);
            k = k + 1;
        }
        proof {
            let lhs = r@.map_values(|l: Vec<char>| l@);
            let rhs = split_lines_at(v@, i as int);
            let tail = split_lines_at(v@, n as int + 1);
            assert(rhs == seq![strip_cr(v@.subrange(i as int, n as int))] + tail);
            assert(tail == rest@.map_values(|l: Vec<char>| l@));
            assert(lhs.len() == rhs.len());
            assert forall|j: int| 0 <= j < lhs.len() implies lhs[j] == rhs[j] by {
                if j == 0 {
                    assert(lhs[0] == r@[0]@);
                } else {
                    assert(lhs[j] == r@[j]@);
                    assert((r@[(j - 1) + 1])@ == rest@[j - 1]@);
                    assert(rhs[j] == tail[j - 1]);
                    assert(tail[j - 1] == rest@[j - 1]@);
                }
            }
            assert(lhs =~= rhs);
        }
        r
    }
}

/// `ls[from..to]` joined with newlines.
fn join_lines_exec(ls: &Vec<Vec<char>>, from: usize, to: usize) -> (r: Vec<char>)
    requires
        from <= to <= ls@.len(),
    ensures
        r@ == join_lines(ls@.map_values(|l: Vec<char>| l@).subrange(from as int, to as int)),
{
    let ghost views = ls@.map_values(|l: Vec<char>| l@);
    let mut r: Vec<char> = Vec::new();
    let mut k: usize = from;
    while k < to
        invariant
            from <= k <= to <= ls@.len(),
            views == ls@.map_values(|l: Vec<char>| l@),
            r@ == join_lines(views.subrange(from as int, k as int)),
        decreases to - k,
    {
        if k > from {
            r.push('\n');
        }
        let mut j: usize = 0;
        let line = &ls[k];
        while j < line.len()
            invariant
                0 <= j <= line@.len(),
                line@ == ls@[k as int]@,
                k < ls@.len(),
                r@ == (if k > from {
                    join_lines(views.subrange(from as int, k as int)) + seq!['\n']
                } else {
                    join_lines(views.subrange(from as int, k as int))
                }) + line@.subrange(0, j as int),
                from <= k < to <= ls@.len(),
                views == ls@.map_values(|l: Vec<char>| l@),
            decreases line@.len() - j,
        {
            r.push(line[j]);
            proof {
                assert(line@.subrange(0, j as int).push(line@[j as int]) =~= line@.subrange(
                    0,
                    j + 1 as int,
                ));
            }
            j = j + 1;
        }
        proof {
            let pre = views.subrange(from as int, k as int);
            let cur = views.subrange(from as int, k + 1 as int);
            assert(cur.drop_last() =~= pre);
            assert(cur.last() == views[k as int]);
            assert(line@.subrange(0, line@.len() as int) =~= line@);
            if k > from {
                assert(join_lines(cur) == join_lines(pre) + seq!['\n'] + views[k as int]);
                assert(r@ =~= join_lines(cur));
            } else {
                assert(cur.len() == 1);
                assert(join_lines(cur) == cur[0]);
                assert(r@ =~= join_lines(cur));
            }
        }
        k = k + 1;
    }
    r
}

/// Recovers the extraction candidate from free-form text: after trimming and
/// fence stripping (see `defenced`), the substring from the first `{` to the
/// last `}`, both inclusive. Rejected when no `{` occurs, or when no `}`
/// occurs at or after the first `{`.
pub fn clean_json_response(response: &str) -> (r: Result<String, ExtractError>)
    ensures
        ({
            let u = defenced(trimmed(response@));
            let start = find_char(u, '{', 0);
            let end = find_last(u, '}', u.len() as int);
            match r {
                Ok(s) => start < u.len() && end >= start && s@ == u.subrange(start, end + 1),
                Err(e) => {
                    &&& (start == u.len() || end < start)
                    &&& e.message@ == (if start == u.len() {
                        "No opening brace found in response"@
                    } else {
                        "No closing brace found in response"@
                    })
                },
            }
        }),
{
    let v = str_to_chars(response);
    let t = trim_chars(&v);
    let fenced = t.len() >= 3 && t[0] == '`' && t[1] == '`' && t[2] == '`';
    let u: Vec<char> = if fenced {
        let ls = split_lines_exec(&t, 0);
        if ls.len() > 2 {
            join_lines_exec(&ls, 1, ls.len() - 1)
        } else {
            t
        }
    } else {
        t
    };
    proof {
        assert(u@ == defenced(trimmed(response@)));
    }
    let start = find_char_exec(&u, '{', 0);
    proof {
        lemma_find_char(u@, '{', 0);
    }
    if start >= u.len() {
        let mut m = String::new();
        m.append("No opening brace found in response");
        proof {
            assert(m@ =~= "No opening brace found in response"@);
        }
        return Err(ExtractError { message: m });
    }
    let mut k: usize = u.len();
    while k > 0 && u[k - 1] != '}'
        invariant
            0 <= k <= u@.len(),
            forall|k2: int| k <= k2 < u@.len() ==> u@[k2] != '}',
        decreases k,
    {
        k = k - 1;
    }
    proof {
        lemma_find_last_skip(u@, '}', u@.len() as int, k - 1);
    }
    if k == 0 || k - 1 < start {
        let mut m = String::new();
        m.append("No closing brace found in response");
        proof {
            assert(m@ =~= "No closing brace found in response"@);
        }
        return Err(ExtractError { message: m });
    }
    let body = copy_range(&u, start, k);
    Ok(chars_to_string(&body))
}

/// The bulleted rendering of the acceptance criteria.
pub open spec fn bullet_list(cs: Seq<Seq<char>>) -> Seq<char>
    decreases cs.len(),
{
    if cs.len() == 0 {
        Seq::empty()
    } else if cs.len() == 1 {
        "- "@ + cs[0]
    } else {
        bullet_list(cs.drop_last()) + "\n- "@ + cs.last()
    }
}

/// The views of a list of strings.
pub open spec fn string_views(v: Seq<String>) -> Seq<Seq<char>> {
    v.map_values(|s: String| s@)
}

/// The full prompt for one iteration: the base prompt, the selected story's
/// fields with its criteria as a bulleted list, the journal so far (or a
/// placeholder when empty), and the closing instructions.
pub open spec fn iteration_prompt(base: Seq<char>, s: Story, progress: Seq<char>) -> Seq<char> {
    base + "\n\n## Current Task\n\n**Story ID:** "@ + s.id@ + "\n**Title:** "@ + s.title@
        + "\n**Description:** "@ + s.description@ + "\n\n### Acceptance Criteria\n"@ + bullet_list(
        string_views(s.acceptance_criteria@),
    ) + "\n\n## Previous Learnings\n"@ + (if progress.len() == 0 {
        "(none yet)"@
    } else {
        progress
    })
        + "\n\n## Instructions\n\n1. Implement this story\n2. Run typecheck and tests\n3. If passing, commit with message: \"feat("@
        + s.id@ + "): "@ + s.title@
        + "\"\n4. Mark the story as done by setting `passes: true` in prd.json\n5. Append learnings to progress.txt\n6. If you discover reusable patterns, update AGENTS.md\n"@
}

/// Composes the prompt for one iteration; see `iteration_prompt`.
pub fn build_iteration_prompt(base_prompt: &str, story: &Story, progress: &str) -> (r: String)
    ensures
        r@ == iteration_prompt(base_prompt@, *story, progress@),
{
    let mut criteria = String::new();
    let n = story.acceptance_criteria.len();
    let mut k: usize = 0;
    while k < n
        invariant
            0 <= k <= n == story.acceptance_criteria@.len(),
            criteria@ == bullet_list(string_views(story.acceptance_criteria@.take(k as int))),
        decreases n - k,
    {
        if k > 0 {
            criteria.append("\n- ");
        } else {
            criteria.append("- ");
        }
        criteria.append(story.acceptance_criteria[k].as_str());
        proof {
            let pre = string_views(story.acceptance_criteria@.take(k as int));
            let cur = string_views(story.acceptance_criteria@.take(k + 1 as int));
            assert(cur.drop_last() =~= pre);
            assert(cur.last() == story.acceptance_criteria@[k as int]@);
            if k > 0 {
                assert(criteria@ =~= bullet_list(cur));
            } else {
                assert(cur.len() == 1);
                assert(criteria@ =~= "- "@ + cur[0]);
            }
        }
        k = k + 1;
    }
    proof {
        assert(story.acceptance_criteria@.take(n as int) =~= story.acceptance_criteria@);
    }
    let mut m = String::new();
    m.append(base_prompt);
    m.append("\n\n## Current Task\n\n**Story ID:** ");
    m.append(story.id.as_str());
    m.append("\n**Title:** ");
    m.append(story.title.as_str());
    m.append("\n**Description:** ");
    m.append(story.description.as_str());
    m.append("\n\n### Acceptance Criteria\n");
    m.append(criteria.as_str());
    m.append("\n\n## Previous Learnings\n");
    if progress.is_empty() {
        m.append("(none yet)");
    } else {
        m.append(progress);
    }
    m.append(
        "\n\n## Instructions\n\n1. Implement this story\n2. Run typecheck and tests\n3. If passing, commit with message: \"feat(",
    );
    m.append(story.id.as_str());
    m.append("): ");
    m.append(story.title.as_str());
    m.append(
        "\"\n4. Mark the story as done by setting `passes: true` in prd.json\n5. Append learnings to progress.txt\n6. If you discover reusable patterns, update AGENTS.md\n",
    );
    proof {
        assert(m@ =~= iteration_prompt(base_prompt@, *story, progress@));
    }
    m
}

/// The context block seeded from an initial free-text description, if any.
pub open spec fn initial_context(desc: Option<String>) -> Seq<char> {
    match desc {
        Some(d) => "\n## Initial Project Description\n\n"@ + d@
            + "\n\nStart by clarifying any questions about this description."@,
        None => Seq::empty(),
    }
}

/// The opener for the planning conversation, optionally seeded with an
/// initial project description.
pub open spec fn planning_prompt(desc: Option<String>) -> Seq<char> {
    "You are an AI planning assistant helping a developer break down their project into actionable user stories for a Product Requirements Document (PRD).\n\n## Your Role\n\n1. Have a natural conversation to understand what they want to build\n2. Ask clarifying questions about:\n   - Core functionality and features\n   - Technical constraints or preferences\n   - Success criteria\n   - Edge cases and error handling\n   - Testing requirements\n\n3. Propose a breakdown into stories with:\n   - Clear, focused scope (each story should be completable in one session)\n   - Specific acceptance criteria\n   - Logical priority ordering\n   - Unique story IDs (format: STORY-001, STORY-002, etc.)\n\n4. Refine based on their feedback\n\n## Guidelines\n\n- Keep stories small and focused (prefer 8-12 stories over 2-3 mega-stories)\n- Order by dependency (foundational work first)\n- Include setup/infrastructure stories\n- Include testing/validation stories\n- Be specific in acceptance criteria\n- Use technical language appropriate for developers\n\n## Conversation Style\n\n- Be concise but thorough\n- Ask one question at a time or group related questions\n- Confirm understanding before proposing stories\n- Be open to iteration and refinement\n\n"@
        + initial_context(desc) + "\n\nBegin by understanding what the user wants to build."@
}

/// Composes the planning-conversation opener; see `planning_prompt`.
pub fn build_planning_prompt(initial_description: Option<String>) -> (r: String)
    ensures
        r@ == planning_prompt(initial_description),
{
    let mut m = String::new();
    m.append(
        "You are an AI planning assistant helping a developer break down their project into actionable user stories for a Product Requirements Document (PRD).\n\n## Your Role\n\n1. Have a natural conversation to understand what they want to build\n2. Ask clarifying questions about:\n   - Core functionality and features\n   - Technical constraints or preferences\n   - Success criteria\n   - Edge cases and error handling\n   - Testing requirements\n\n3. Propose a breakdown into stories with:\n   - Clear, focused scope (each story should be completable in one session)\n   - Specific acceptance criteria\n   - Logical priority ordering\n   - Unique story IDs (format: STORY-001, STORY-002, etc.)\n\n4. Refine based on their feedback\n\n## Guidelines\n\n- Keep stories small and focused (prefer 8-12 stories over 2-3 mega-stories)\n- Order by dependency (foundational work first)\n- Include setup/infrastructure stories\n- Include testing/validation stories\n- Be specific in acceptance criteria\n- Use technical language appropriate for developers\n\n## Conversation Style\n\n- Be concise but thorough\n- Ask one question at a time or group related questions\n- Confirm understanding before proposing stories\n- Be open to iteration and refinement\n\n",
    );
    match &initial_description {
        Some(d) => {
            m.append("\n## Initial Project Description\n\n");
            m.append(d.as_str());
            m.append("\n\nStart by clarifying any questions about this description.");
        },
        None => {},
    }
    m.append("\n\nBegin by understanding what the user wants to build.");
    proof {
        assert(m@ =~= planning_prompt(initial_description));
    }
    m
}

/// The extraction instruction: the fixed schema and formatting rules,
/// followed by the embedded conversation transcript.
pub open spec fn extraction_prompt(conversation: Seq<char>) -> Seq<char> {
    "You are a structured data extraction assistant. Review the conversation history below and extract a valid PRD (Product Requirements Document) in JSON format.\n\n## Required JSON Structure\n\n{{\n  \"branchName\": \"feature/descriptive-name\",\n  \"stories\": [\n    {{\n      \"id\": \"STORY-001\",\n      \"title\": \"Brief title\",\n      \"description\": \"Detailed description of what needs to be done\",\n      \"priority\": 1,\n      \"passes\": false,\n      \"acceptance_criteria\": [\n        \"Specific criterion 1\",\n        \"Specific criterion 2\"\n      ]\n    }}\n  ]\n}}\n\n## Requirements\n\n1. Generate a meaningful branch name based on the project\n2. Extract all agreed-upon stories from the conversation\n3. Priority: number from 1 (highest) to N (lowest), ordered by implementation sequence\n4. Set all \"passes\" to false (work hasn't started yet)\n5. Acceptance criteria should be specific, testable conditions\n\n## Output Format\n\nOutput ONLY the JSON, no markdown fences, no explanation text.\nStart with {{ and end with }}\n\n## Conversation History\n\n"@
        + conversation
}

/// Composes the extraction instruction; see `extraction_prompt`.
pub fn build_extraction_prompt(conversation_history: &str) -> (r: String)
    ensures
        r@ == extraction_prompt(conversation_history@),
{
    let mut m = String::new();
    m.append(
        "You are a structured data extraction assistant. Review the conversation history below and extract a valid PRD (Product Requirements Document) in JSON format.\n\n## Required JSON Structure\n\n{{\n  \"branchName\": \"feature/descriptive-name\",\n  \"stories\": [\n    {{\n      \"id\": \"STORY-001\",\n      \"title\": \"Brief title\",\n      \"description\": \"Detailed description of what needs to be done\",\n      \"priority\": 1,\n      \"passes\": false,\n      \"acceptance_criteria\": [\n        \"Specific criterion 1\",\n        \"Specific criterion 2\"\n      ]\n    }}\n  ]\n}}\n\n## Requirements\n\n1. Generate a meaningful branch name based on the project\n2. Extract all agreed-upon stories from the conversation\n3. Priority: number from 1 (highest) to N (lowest), ordered by implementation sequence\n4. Set all \"passes\" to false (work hasn't started yet)\n5. Acceptance criteria should be specific, testable conditions\n\n## Output Format\n\nOutput ONLY the JSON, no markdown fences, no explanation text.\nStart with {{ and end with }}\n\n## Conversation History\n\n",
    );
    m.append(conversation_history);
    proof {
        assert(m@ =~= extraction_prompt(conversation_history@));
    }
    m
}

} // verus!
