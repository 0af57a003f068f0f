//! The document codec: a pretty-printed JSON rendering of the task document
//! and a strict schema-directed parser for it. The parser tolerates
//! whitespace and member order but rejects unknown members, duplicate
//! members, missing required members and out-of-range numbers; `priority`,
//! `passes` and `acceptance_criteria` default when absent.

use vstd::prelude::*;

use crate::text::{
    dec_rep,
    chars_to_string, digit_char, i32_to_string, int_rep, str_to_chars,
};
use crate::types::{Prd, Story};

verus! {

// ---------------------------------------------------------------------------
// The mathematical document: what a parse yields and a rendering consumes.
// ---------------------------------------------------------------------------

/// One story, by character content.
pub ghost struct StoryData {
    pub id: Seq<char>,
    pub title: Seq<char>,
    pub description: Seq<char>,
    pub priority: int,
    pub passes: bool,
    pub criteria: Seq<Seq<char>>,
}

/// One document, by character content.
pub ghost struct PrdData {
    pub branch: Seq<char>,
    pub stories: Seq<StoryData>,
}

pub open spec fn story_data(s: Story) -> StoryData {
    StoryData {
        id: s.id@,
        title: s.title@,
        description: s.description@,
        priority: s.priority as int,
        passes: s.passes,
        criteria: s.acceptance_criteria@.map_values(|c: String| c@),
    }
}

pub open spec fn prd_data(p: Prd) -> PrdData {
    PrdData {
        branch: p.branch_name@,
        stories: p.stories@.map_values(|s: Story| story_data(s)),
    }
}

// ---------------------------------------------------------------------------
// Characters.
// ---------------------------------------------------------------------------

/// JSON interstitial whitespace.
pub open spec fn is_ws(c: char) -> bool {
    c == ' ' || c == '\t' || c == '\n' || c == '\r'
}

/// First index at or after `i` holding no whitespace, or `s.len()`.
pub open spec fn skip_ws(s: Seq<char>, i: int) -> int
    decreases s.len() - i,
{
    if 0 <= i < s.len() && is_ws(s[i]) {
        skip_ws(s, i + 1)
    } else {
        i
    }
}

pub proof fn lemma_skip_ws(s: Seq<char>, i: int)
    ensures
        0 <= i <= s.len() ==> i <= skip_ws(s, i) <= s.len(),
        0 <= i <= s.len() && skip_ws(s, i) < s.len() ==> !is_ws(s[skip_ws(s, i)]),
    decreases s.len() - i,
{
    if 0 <= i < s.len() && is_ws(s[i]) {
        lemma_skip_ws(s, i + 1);
    }
}

pub proof fn lemma_skip_ws_pin(s: Seq<char>, i: int, j: int)
    requires
        0 <= i <= j <= s.len(),
        forall|k: int| i <= k < j ==> is_ws(s[k]),
        j == s.len() || !is_ws(s[j]),
    ensures
        skip_ws(s, i) == j,
    decreases j - i,
{
    if i < j {
        assert(is_ws(s[i]));
        lemma_skip_ws_pin(s, i + 1, j);
    }
}

pub open spec fn is_digit(c: char) -> bool {
    48 <= c as u32 <= 57
}

pub open spec fn digit_val(c: char) -> int {
    c as u32 - 48
}

/// Value of a hexadecimal digit, or `-1`.
pub open spec fn hex_val(c: char) -> int {
    let u = c as u32;
    if 48 <= u <= 57 {
        u - 48
    } else if 97 <= u <= 102 {
        u - 87
    } else if 65 <= u <= 70 {
        u - 55
    } else {
        -1
    }
}

/// Lowercase hexadecimal digit character.
pub open spec fn hex_digit(d: nat) -> char {
    if d < 10 {
        digit_char(d)
    } else if d == 10 {
        'a'
    } else if d == 11 {
        'b'
    } else if d == 12 {
        'c'
    } else if d == 13 {
        'd'
    } else if d == 14 {
        'e'
    } else {
        'f'
    }
}

/// The character with the given code point.
pub open spec fn char_of(code: u32) -> char {
    code as char
}

/// The character a single-letter escape denotes, or `None`.
pub open spec fn esc_char(e: char) -> Option<char> {
    if e == '"' {
        Some('"')
    } else if e == '\\' {
        Some('\\')
    } else if e == '/' {
        Some('/')
    } else if e == 'b' {
        Some('\u{0008}')
    } else if e == 'f' {
        Some('\u{000C}')
    } else if e == 'n' {
        Some('\n')
    } else if e == 'r' {
        Some('\r')
    } else if e == 't' {
        Some('\t')
    } else {
        None
    }
}

/// How the renderer writes one character inside a string: quotes and
/// backslashes escaped, control characters as letter or `\u00..` escapes,
/// everything else verbatim.
pub open spec fn escape_char(c: char) -> Seq<char> {
    if c == '"' {
        seq!['\\', '"']
    } else if c == '\\' {
        seq!['\\', '\\']
    } else if c == '\n' {
        seq!['\\', 'n']
    } else if c == '\r' {
        seq!['\\', 'r']
    } else if c == '\t' {
        seq!['\\', 't']
    } else if c == '\u{0008}' {
        seq!['\\', 'b']
    } else if c == '\u{000C}' {
        seq!['\\', 'f']
    } else if (c as u32) < 32 {
        seq!['\\', 'u', '0', '0', hex_digit((c as u32 / 16) as nat), hex_digit(
            (c as u32 % 16) as nat,
        )]
    } else {
        seq![c]
    }
}

/// A string's characters, each escaped.
pub open spec fn escape(v: Seq<char>) -> Seq<char>
    decreases v.len(),
{
    if v.len() == 0 {
        Seq::empty()
    } else {
        escape_char(v[0]) + escape(v.drop_first())
    }
}

// ---------------------------------------------------------------------------
// Parsing. Each function takes the text and a cursor and yields the value
// with the cursor just past it, or `None`.
// ---------------------------------------------------------------------------

/// The inside of a string, after the opening quote: characters and escapes
/// up to the closing quote. Raw control characters are rejected, as are
/// escapes of surrogate code points.
pub open spec fn parse_string_body(s: Seq<char>, i: int) -> Option<(Seq<char>, int)>
    decreases s.len() - i,
{
    if i < 0 || i >= s.len() {
        None
    } else if s[i] == '"' {
        Some((Seq::empty(), i + 1))
    } else if s[i] == '\\' {
        if i + 2 > s.len() {
            None
        } else if s[i + 1] == 'u' {
            if i + 6 <= s.len() && hex_val(s[i + 2]) >= 0 && hex_val(s[i + 3]) >= 0 && hex_val(
                s[i + 4],
            ) >= 0 && hex_val(s[i + 5]) >= 0 {
                let code = hex_val(s[i + 2]) * 4096 + hex_val(s[i + 3]) * 256 + hex_val(s[i + 4])
                    * 16 + hex_val(s[i + 5]);
                if 0xD800 <= code < 0xE000 {
                    None
                } else {
                    match parse_string_body(s, i + 6) {
                        Some((t, j)) => Some((seq![char_of(code as u32)] + t, j)),
                        None => None,
                    }
                }
            } else {
                None
            }
        } else {
            match esc_char(s[i + 1]) {
                Some(c) => match parse_string_body(s, i + 2) {
                    Some((t, j)) => Some((seq![c] + t, j)),
                    None => None,
                },
                None => None,
            }
        }
    } else if (s[i] as u32) < 32 {
        None
    } else {
        match parse_string_body(s, i + 1) {
            Some((t, j)) => Some((seq![s[i]] + t, j)),
            None => None,
        }
    }
}

/// A quoted string at `i`.
pub open spec fn parse_string(s: Seq<char>, i: int) -> Option<(Seq<char>, int)> {
    if 0 <= i < s.len() && s[i] == '"' {
        parse_string_body(s, i + 1)
    } else {
        None
    }
}

pub proof fn lemma_string_body_progress(s: Seq<char>, i: int)
    ensures
        parse_string_body(s, i) matches Some((t, j)) ==> i < j <= s.len(),
    decreases s.len() - i,
{
    if 0 <= i < s.len() {
        if s[i] == '"' {
        } else if s[i] == '\\' {
            if i + 2 <= s.len() {
                if s[i + 1] == 'u' {
                    if i + 6 <= s.len() {
                        lemma_string_body_progress(s, i + 6);
                    }
                } else {
                    lemma_string_body_progress(s, i + 2);
                }
            }
        } else {
            lemma_string_body_progress(s, i + 1);
        }
    }
}

pub proof fn lemma_string_progress(s: Seq<char>, i: int)
    ensures
        parse_string(s, i) matches Some((t, j)) ==> i < j <= s.len(),
{
    if 0 <= i < s.len() && s[i] == '"' {
        lemma_string_body_progress(s, i + 1);
    }
}

/// First index at or after `i` holding no decimal digit, or `s.len()`.
pub open spec fn digits_end(s: Seq<char>, i: int) -> int
    decreases s.len() - i,
{
    if 0 <= i < s.len() && is_digit(s[i]) {
        digits_end(s, i + 1)
    } else {
        i
    }
}

pub proof fn lemma_digits_end(s: Seq<char>, i: int)
    ensures
        0 <= i <= s.len() ==> i <= digits_end(s, i) <= s.len(),
        0 <= i <= s.len() && digits_end(s, i) < s.len() ==> !is_digit(s[digits_end(s, i)]),
        0 <= i < s.len() && is_digit(s[i]) ==> digits_end(s, i) > i,
    decreases s.len() - i,
{
    if 0 <= i < s.len() && is_digit(s[i]) {
        lemma_digits_end(s, i + 1);
    }
}

pub proof fn lemma_digits_end_pin(s: Seq<char>, i: int, j: int)
    requires
        0 <= i <= j <= s.len(),
        forall|k: int| i <= k < j ==> is_digit(s[k]),
        j == s.len() || !is_digit(s[j]),
    ensures
        digits_end(s, i) == j,
    decreases j - i,
{
    if i < j {
        assert(is_digit(s[i]));
        lemma_digits_end_pin(s, i + 1, j);
    }
}

/// Numeric value of the digits `s[i..j]`.
pub open spec fn digits_val(s: Seq<char>, i: int, j: int) -> int
    decreases j - i,
{
    if j <= i {
        0
    } else {
        digits_val(s, i, j - 1) * 10 + digit_val(s[j - 1])
    }
}

pub proof fn lemma_digits_val_nonneg(s: Seq<char>, i: int, j: int)
    requires
        forall|k: int| i <= k < j ==> is_digit(s[k]),
    ensures
        digits_val(s, i, j) >= 0,
    decreases j - i,
{
    if j > i {
        lemma_digits_val_nonneg(s, i, j - 1);
    }
}

/// An integer at `i`: an optional sign and digits, rejected on a leading
/// zero, a fraction or exponent marker, or a value outside the signed
/// 32-bit range.
pub open spec fn parse_int(s: Seq<char>, i: int) -> Option<(int, int)> {
    if 0 <= i < s.len() {
        let neg = s[i] == '-';
        let d0 = if neg {
            i + 1
        } else {
            i
        };
        if d0 < s.len() && is_digit(s[d0]) {
            let e = digits_end(s, d0);
            if s[d0] == '0' && e > d0 + 1 {
                None
            } else if e < s.len() && (s[e] == '.' || s[e] == 'e' || s[e] == 'E') {
                None
            } else {
                let mag = digits_val(s, d0, e);
                if mag > (if neg {
                    2147483648int
                } else {
                    2147483647int
                }) {
                    None
                } else {
                    Some(
                        (
                            if neg {
                                -mag
                            } else {
                                mag
                            },
                            e,
                        ),
                    )
                }
            }
        } else {
            None
        }
    } else {
        None
    }
}

pub proof fn lemma_int_progress(s: Seq<char>, i: int)
    ensures
        parse_int(s, i) matches Some((v, j)) ==> i < j <= s.len(),
{
    if 0 <= i < s.len() {
        let d0 = if s[i] == '-' {
            i + 1
        } else {
            i
        };
        if d0 < s.len() {
            lemma_digits_end(s, d0);
        }
    }
}

/// A boolean literal at `i`.
pub open spec fn parse_bool(s: Seq<char>, i: int) -> Option<(bool, int)> {
    if i >= 0 && i + 4 <= s.len() && s[i] == 't' && s[i + 1] == 'r' && s[i + 2] == 'u' && s[i + 3]
        == 'e' {
        Some((true, i + 4))
    } else if i >= 0 && i + 5 <= s.len() && s[i] == 'f' && s[i + 1] == 'a' && s[i + 2] == 'l' && s[i
        + 3] == 's' && s[i + 4] == 'e' {
        Some((false, i + 5))
    } else {
        None
    }
}

/// The elements of a non-empty string array, starting at the first element.
pub open spec fn parse_str_items(s: Seq<char>, i: int) -> Option<(Seq<Seq<char>>, int)>
    decreases s.len() - i,
    via parse_str_items_decreases
{
    match parse_string(s, i) {
        None => None,
        Some((v, p1)) => {
            let p2 = skip_ws(s, p1);
            if p2 < s.len() && s[p2] == ',' {
                match parse_str_items(s, skip_ws(s, p2 + 1)) {
                    Some((t, j)) => Some((seq![v] + t, j)),
                    None => None,
                }
            } else if p2 < s.len() && s[p2] == ']' {
                Some((seq![v], p2 + 1))
            } else {
                None
            }
        },
    }
}

#[via_fn]
proof fn parse_str_items_decreases(s: Seq<char>, i: int) {
    lemma_string_progress(s, i);
    match parse_string(s, i) {
        Some((v, p1)) => {
            lemma_skip_ws(s, p1);
            let p2 = skip_ws(s, p1);
            if 0 <= p2 + 1 <= s.len() {
                lemma_skip_ws(s, p2 + 1);
            }
        },
        None => {},
    }
}

pub proof fn lemma_str_items_progress(s: Seq<char>, i: int)
    ensures
        parse_str_items(s, i) matches Some((t, j)) ==> i < j <= s.len(),
    decreases s.len() - i,
{
    lemma_string_progress(s, i);
    match parse_string(s, i) {
        Some((v, p1)) => {
            lemma_skip_ws(s, p1);
            let p2 = skip_ws(s, p1);
            if p2 < s.len() && s[p2] == ',' {
                lemma_skip_ws(s, p2 + 1);
                lemma_str_items_progress(s, skip_ws(s, p2 + 1));
            }
        },
        None => {},
    }
}

/// A string array at `i`: empty brackets, or bracketed elements.
pub open spec fn parse_str_array(s: Seq<char>, i: int) -> Option<(Seq<Seq<char>>, int)> {
    if 0 <= i < s.len() && s[i] == '[' {
        let j = skip_ws(s, i + 1);
        if j < s.len() && s[j] == ']' {
            Some((Seq::empty(), j + 1))
        } else {
            parse_str_items(s, j)
        }
    } else {
        None
    }
}

pub proof fn lemma_str_array_progress(s: Seq<char>, i: int)
    ensures
        parse_str_array(s, i) matches Some((t, j)) ==> i < j <= s.len(),
{
    if 0 <= i < s.len() && s[i] == '[' {
        lemma_skip_ws(s, i + 1);
        lemma_str_items_progress(s, skip_ws(s, i + 1));
    }
}

// ---------------------------------------------------------------------------
// The story object.
// ---------------------------------------------------------------------------

/// Members gathered so far while reading one story object.
pub ghost struct StoryAcc {
    pub id: Option<Seq<char>>,
    pub title: Option<Seq<char>>,
    pub description: Option<Seq<char>>,
    pub priority: Option<int>,
    pub passes: Option<bool>,
    pub criteria: Option<Seq<Seq<char>>>,
}

pub open spec fn story_acc_empty() -> StoryAcc {
    StoryAcc { id: None, title: None, description: None, priority: None, passes: None, criteria: None }
}

/// Closes a story object: the three required members must be present; the
/// rest default.
pub open spec fn story_finish(acc: StoryAcc, p: int) -> Option<(StoryData, int)> {
    match (acc.id, acc.title, acc.description) {
        (Some(id), Some(title), Some(description)) => Some(
            (
                StoryData {
                    id,
                    title,
                    description,
                    priority: match acc.priority {
                        Some(v) => v,
                        None => 0,
                    },
                    passes: match acc.passes {
                        Some(v) => v,
                        None => false,
                    },
                    criteria: match acc.criteria {
                        Some(v) => v,
                        None => Seq::empty(),
                    },
                },
                p,
            ),
        ),
        _ => None,
    }
}

/// One member's value, dispatched on the key: rejected when the key is
/// unknown or repeated.
pub open spec fn story_member_value(s: Seq<char>, i: int, acc: StoryAcc, key: Seq<char>) -> Option<
    (StoryAcc, int),
> {
    if key == "id"@ {
        if acc.id is Some {
            None
        } else {
            match parse_string(s, i) {
                Some((v, p)) => Some((StoryAcc { id: Some(v), ..acc }, p)),
                None => None,
            }
        }
    } else if key == "title"@ {
        if acc.title is Some {
            None
        } else {
            match parse_string(s, i) {
                Some((v, p)) => Some((StoryAcc { title: Some(v), ..acc }, p)),
                None => None,
            }
        }
    } else if key == "description"@ {
        if acc.description is Some {
            None
        } else {
            match parse_string(s, i) {
                Some((v, p)) => Some((StoryAcc { description: Some(v), ..acc }, p)),
                None => None,
            }
        }
    } else if key == "priority"@ {
        if acc.priority is Some {
            None
        } else {
            match parse_int(s, i) {
                Some((v, p)) => Some((StoryAcc { priority: Some(v), ..acc }, p)),
                None => None,
            }
        }
    } else if key == "passes"@ {
        if acc.passes is Some {
            None
        } else {
            match parse_bool(s, i) {
                Some((v, p)) => Some((StoryAcc { passes: Some(v), ..acc }, p)),
                None => None,
            }
        }
    } else if key == "acceptance_criteria"@ {
        if acc.criteria is Some {
            None
        } else {
            match parse_str_array(s, i) {
                Some((v, p)) => Some((StoryAcc { criteria: Some(v), ..acc }, p)),
                None => None,
            }
        }
    } else {
        None
    }
}

pub proof fn lemma_story_member_value_progress(s: Seq<char>, i: int, acc: StoryAcc, key: Seq<char>)
    ensures
        story_member_value(s, i, acc, key) matches Some((a, j)) ==> i < j <= s.len(),
{
    lemma_string_progress(s, i);
    lemma_int_progress(s, i);
    lemma_str_array_progress(s, i);
}

/// The members of a story object, starting at a key, ending past the
/// closing brace.
pub open spec fn story_members(s: Seq<char>, i: int, acc: StoryAcc, fuel: nat) -> Option<
    (StoryData, int),
>
    decreases fuel,
{
    if fuel == 0 {
        None
    } else {
        match parse_string(s, i) {
            None => None,
            Some((key, p1)) => {
                let p2 = skip_ws(s, p1);
                if p2 < s.len() && s[p2] == ':' {
                    let p3 = skip_ws(s, p2 + 1);
                    match story_member_value(s, p3, acc, key) {
                        None => None,
                        Some((acc2, p4)) => {
                            let p5 = skip_ws(s, p4);
                            if p5 < s.len() && s[p5] == ',' {
                                story_members(s, skip_ws(s, p5 + 1), acc2, (fuel - 1) as nat)
                            } else if p5 < s.len() && s[p5] == '}' {
                                story_finish(acc2, p5 + 1)
                            } else {
                                None
                            }
                        },
                    }
                } else {
                    None
                }
            },
        }
    }
}

pub proof fn lemma_story_members_progress(s: Seq<char>, i: int, acc: StoryAcc, fuel: nat)
    ensures
        story_members(s, i, acc, fuel) matches Some((d, j)) ==> i < j <= s.len(),
    decreases fuel,
{
    if fuel > 0 {
        lemma_string_progress(s, i);
        match parse_string(s, i) {
            None => {},
            Some((key, p1)) => {
                lemma_skip_ws(s, p1);
                let p2 = skip_ws(s, p1);
                if p2 < s.len() && s[p2] == ':' {
                    lemma_skip_ws(s, p2 + 1);
                    let p3 = skip_ws(s, p2 + 1);
                    lemma_story_member_value_progress(s, p3, acc, key);
                    match story_member_value(s, p3, acc, key) {
                        None => {},
                        Some((acc2, p4)) => {
                            lemma_skip_ws(s, p4);
                            let p5 = skip_ws(s, p4);
                            if p5 < s.len() && s[p5] == ',' {
                                lemma_skip_ws(s, p5 + 1);
                                lemma_story_members_progress(
                                    s,
                                    skip_ws(s, p5 + 1),
                                    acc2,
                                    (fuel - 1) as nat,
                                );
                            }
                        },
                    }
                }
            },
        }
    }
}

/// A story object at `i`.
pub open spec fn parse_story_obj(s: Seq<char>, i: int) -> Option<(StoryData, int)> {
    if 0 <= i < s.len() && s[i] == '{' {
        let j = skip_ws(s, i + 1);
        if j < s.len() && s[j] == '}' {
            story_finish(story_acc_empty(), j + 1)
        } else {
            story_members(s, j, story_acc_empty(), 7)
        }
    } else {
        None
    }
}

pub proof fn lemma_story_obj_progress(s: Seq<char>, i: int)
    ensures
        parse_story_obj(s, i) matches Some((d, j)) ==> i < j <= s.len(),
{
    if 0 <= i < s.len() && s[i] == '{' {
        lemma_skip_ws(s, i + 1);
        lemma_story_members_progress(s, skip_ws(s, i + 1), story_acc_empty(), 7);
    }
}

/// The elements of a non-empty story array, starting at the first element.
pub open spec fn parse_story_items(s: Seq<char>, i: int) -> Option<(Seq<StoryData>, int)>
    decreases s.len() - i,
    via parse_story_items_decreases
{
    match parse_story_obj(s, i) {
        None => None,
        Some((d, p1)) => {
            let p2 = skip_ws(s, p1);
            if p2 < s.len() && s[p2] == ',' {
                match parse_story_items(s, skip_ws(s, p2 + 1)) {
                    Some((t, j)) => Some((seq![d] + t, j)),
                    None => None,
                }
            } else if p2 < s.len() && s[p2] == ']' {
                Some((seq![d], p2 + 1))
            } else {
                None
            }
        },
    }
}

#[via_fn]
proof fn parse_story_items_decreases(s: Seq<char>, i: int) {
    lemma_story_obj_progress(s, i);
    match parse_story_obj(s, i) {
        Some((d, p1)) => {
            lemma_skip_ws(s, p1);
            let p2 = skip_ws(s, p1);
            if 0 <= p2 + 1 <= s.len() {
                lemma_skip_ws(s, p2 + 1);
            }
        },
        None => {},
    }
}

pub proof fn lemma_story_items_progress(s: Seq<char>, i: int)
    ensures
        parse_story_items(s, i) matches Some((t, j)) ==> i < j <= s.len(),
    decreases s.len() - i,
{
    lemma_story_obj_progress(s, i);
    match parse_story_obj(s, i) {
        Some((d, p1)) => {
            lemma_skip_ws(s, p1);
            let p2 = skip_ws(s, p1);
            if p2 < s.len() && s[p2] == ',' {
                lemma_skip_ws(s, p2 + 1);
                lemma_story_items_progress(s, skip_ws(s, p2 + 1));
            }
        },
        None => {},
    }
}

/// A story array at `i`.
pub open spec fn parse_story_array(s: Seq<char>, i: int) -> Option<(Seq<StoryData>, int)> {
    if 0 <= i < s.len() && s[i] == '[' {
        let j = skip_ws(s, i + 1);
        if j < s.len() && s[j] == ']' {
            Some((Seq::empty(), j + 1))
        } else {
            parse_story_items(s, j)
        }
    } else {
        None
    }
}

pub proof fn lemma_story_array_progress(s: Seq<char>, i: int)
    ensures
        parse_story_array(s, i) matches Some((t, j)) ==> i < j <= s.len(),
{
    if 0 <= i < s.len() && s[i] == '[' {
        lemma_skip_ws(s, i + 1);
        lemma_story_items_progress(s, skip_ws(s, i + 1));
    }
}

// ---------------------------------------------------------------------------
// The document object.
// ---------------------------------------------------------------------------

/// Members gathered so far while reading the document object.
pub ghost struct PrdAcc {
    pub branch: Option<Seq<char>>,
    pub stories: Option<Seq<StoryData>>,
}

pub open spec fn prd_acc_empty() -> PrdAcc {
    PrdAcc { branch: None, stories: None }
}

/// Closes the document object: both members are required.
pub open spec fn prd_finish(acc: PrdAcc, p: int) -> Option<(PrdData, int)> {
    match (acc.branch, acc.stories) {
        (Some(branch), Some(stories)) => Some((PrdData { branch, stories }, p)),
        _ => None,
    }
}

/// One document member's value, dispatched on the key.
pub open spec fn prd_member_value(s: Seq<char>, i: int, acc: PrdAcc, key: Seq<char>) -> Option<
    (PrdAcc, int),
> {
    if key == "branchName"@ {
        if acc.branch is Some {
            None
        } else {
            match parse_string(s, i) {
                Some((v, p)) => Some((PrdAcc { branch: Some(v), ..acc }, p)),
                None => None,
            }
        }
    } else if key == "stories"@ {
        if acc.stories is Some {
            None
        } else {
            match parse_story_array(s, i) {
                Some((v, p)) => Some((PrdAcc { stories: Some(v), ..acc }, p)),
                None => None,
            }
        }
    } else {
        None
    }
}

/// The members of the document object, starting at a key, ending past the
/// closing brace.
pub open spec fn prd_members(s: Seq<char>, i: int, acc: PrdAcc, fuel: nat) -> Option<(PrdData, int)>
    decreases fuel,
{
    if fuel == 0 {
        None
    } else {
        match parse_string(s, i) {
            None => None,
            Some((key, p1)) => {
                let p2 = skip_ws(s, p1);
                if p2 < s.len() && s[p2] == ':' {
                    let p3 = skip_ws(s, p2 + 1);
                    match prd_member_value(s, p3, acc, key) {
                        None => None,
                        Some((acc2, p4)) => {
                            let p5 = skip_ws(s, p4);
                            if p5 < s.len() && s[p5] == ',' {
                                prd_members(s, skip_ws(s, p5 + 1), acc2, (fuel - 1) as nat)
                            } else if p5 < s.len() && s[p5] == '}' {
                                prd_finish(acc2, p5 + 1)
                            } else {
                                None
                            }
                        },
                    }
                } else {
                    None
                }
            },
        }
    }
}

/// The document object at `i`.
pub open spec fn parse_prd_obj(s: Seq<char>, i: int) -> Option<(PrdData, int)> {
    if 0 <= i < s.len() && s[i] == '{' {
        let j = skip_ws(s, i + 1);
        if j < s.len() && s[j] == '}' {
            prd_finish(prd_acc_empty(), j + 1)
        } else {
            prd_members(s, j, prd_acc_empty(), 3)
        }
    } else {
        None
    }
}

/// The whole text as one document: leading and trailing whitespace allowed,
/// nothing else before or after the object.
pub open spec fn parse_document(s: Seq<char>) -> Option<PrdData> {
    match parse_prd_obj(s, skip_ws(s, 0)) {
        Some((d, p)) => if 0 <= p <= s.len() && skip_ws(s, p) == s.len() {
            Some(d)
        } else {
            None
        },
        None => None,
    }
}

// ---------------------------------------------------------------------------
// Rendering.
// ---------------------------------------------------------------------------

/// `n` spaces.
pub open spec fn spaces(n: nat) -> Seq<char>
    decreases n,
{
    if n == 0 {
        Seq::empty()
    } else {
        spaces((n - 1) as nat).push(' ')
    }
}

/// A quoted, escaped string token.
pub open spec fn emit_string(v: Seq<char>) -> Seq<char> {
    seq!['"'] + escape(v) + seq!['"']
}

/// A quoted key followed by the member separator.
pub open spec fn emit_key(k: Seq<char>) -> Seq<char> {
    emit_string(k) + seq![':', ' ']
}

pub open spec fn emit_bool(b: bool) -> Seq<char> {
    if b {
        seq!['t', 'r', 'u', 'e']
    } else {
        seq!['f', 'a', 'l', 's', 'e']
    }
}

/// Non-empty string-array elements, separated by a comma, a line break and
/// the element indent.
pub open spec fn emit_str_elems(items: Seq<Seq<char>>, ind: nat) -> Seq<char>
    decreases items.len(),
{
    if items.len() <= 1 {
        emit_string(items[0])
    } else {
        emit_string(items[0]) + seq![',', '\n'] + spaces(ind) + emit_str_elems(
            items.drop_first(),
            ind,
        )
    }
}

/// A string array: `[]` when empty, else elements each on their own line.
pub open spec fn emit_str_array(items: Seq<Seq<char>>, ind: nat) -> Seq<char> {
    if items.len() == 0 {
        seq!['[', ']']
    } else {
        seq!['[', '\n'] + spaces((ind + 2) as nat) + emit_str_elems(items, (ind + 2) as nat)
            + seq!['\n'] + spaces(ind) + seq![']']
    }
}

/// One string-valued member on its own line, with the trailing comma.
pub open spec fn emit_str_member(ind: nat, key: Seq<char>, v: Seq<char>) -> Seq<char> {
    spaces(ind) + emit_key(key) + emit_string(v) + seq![',', '\n']
}

/// A story object, pretty-printed at the given indent.
#[verifier::opaque]
pub open spec fn emit_story(d: StoryData, ind: nat) -> Seq<char> {
    seq!['{', '\n'] + emit_str_member((ind + 2) as nat, "id"@, d.id) + emit_str_member(
        (ind + 2) as nat,
        "title"@,
        d.title,
    ) + emit_str_member((ind + 2) as nat, "description"@, d.description) + (spaces((ind + 2) as nat)
        + emit_key("priority"@) + int_rep(d.priority) + seq![',', '\n']) + (spaces(
        (ind + 2) as nat,
    ) + emit_key("passes"@) + emit_bool(d.passes) + seq![',', '\n']) + (spaces((ind + 2) as nat)
        + emit_key("acceptance_criteria"@) + emit_str_array(d.criteria, (ind + 2) as nat)) + (seq![
        '\n',
    ] + spaces(ind) + seq!['}'])
}

/// Non-empty story-array elements.
pub open spec fn emit_story_elems(items: Seq<StoryData>, ind: nat) -> Seq<char>
    decreases items.len(),
{
    if items.len() <= 1 {
        emit_story(items[0], ind)
    } else {
        emit_story(items[0], ind) + seq![',', '\n'] + spaces(ind) + emit_story_elems(
            items.drop_first(),
            ind,
        )
    }
}

/// A story array: `[]` when empty, else stories each starting on their own
/// line.
pub open spec fn emit_stories(items: Seq<StoryData>, ind: nat) -> Seq<char> {
    if items.len() == 0 {
        seq!['[', ']']
    } else {
        seq!['[', '\n'] + spaces((ind + 2) as nat) + emit_story_elems(items, (ind + 2) as nat)
            + seq!['\n'] + spaces(ind) + seq![']']
    }
}

/// The whole document, pretty-printed.
#[verifier::opaque]
pub open spec fn emit_doc(d: PrdData) -> Seq<char> {
    seq!['{', '\n'] + spaces(2) + emit_key("branchName"@) + emit_string(d.branch) + seq![',', '\n']
        + spaces(2) + emit_key("stories"@) + emit_stories(d.stories, 2) + seq!['\n', '}']
}

// ---------------------------------------------------------------------------
// The executable parser.
// ---------------------------------------------------------------------------

/// A rejected document text, with the reason spelled out.
#[derive(Debug)]
pub struct ParseError {
    pub message: String,
}

fn is_ws_exec(c: char) -> (r: bool)
    ensures
        r == is_ws(c),
{
    c == ' ' || c == '\t' || c == '\n' || c == '\r'
}

fn is_digit_exec(c: char) -> (r: bool)
    ensures
        r == is_digit(c),
{
    let u = c as u32;
    u >= 48 && u <= 57
}

fn skip_ws_exec(v: &Vec<char>, i: usize) -> (r: usize)
    requires
        i <= v@.len(),
    ensures
        r as int == skip_ws(v@, i as int),
        i <= r <= v@.len(),
{
    let mut k: usize = i;
    while k < v.len() && is_ws_exec(v[k])
        invariant
            i <= k <= v@.len(),
            forall|k2: int| i <= k2 < k ==> is_ws(v@[k2]),
        decreases v@.len() - k,
    {
        k = k + 1;
    }
    proof {
        lemma_skip_ws_pin(v@, i as int, k as int);
    }
    k
}

fn hex_val_exec(c: char) -> (r: i32)
    ensures
        r as int == hex_val(c),
{
    let u = c as u32;
    if u >= 48 && u <= 57 {
        (u - 48) as i32
    } else if u >= 97 && u <= 102 {
        (u - 87) as i32
    } else if u >= 65 && u <= 70 {
        (u - 55) as i32
    } else {
        -1
    }
}

/// Relies on char::from_u32: `Some` exactly for code points that are not
/// surrogates and not beyond the maximum scalar value, holding the
/// character with that code.
#[verifier::external_body]
fn char_from_u32(code: u32) -> (r: Option<char>)
    ensures
        r is Some <==> (code < 0xD800 || (0xE000 <= code && code <= 0x10FFFF)),
        r matches Some(c) ==> c as u32 == code,
{
    char::from_u32(code)
}

fn esc_char_exec(e: char) -> (r: Option<char>)
    ensures
        r == esc_char(e),
{
    if e == '"' {
        Some('"')
    } else if e == '\\' {
        Some('\\')
    } else if e == '/' {
        Some('/')
    } else if e == 'b' {
        Some('\u{0008}')
    } else if e == 'f' {
        Some('\u{000C}')
    } else if e == 'n' {
        Some('\n')
    } else if e == 'r' {
        Some('\r')
    } else if e == 't' {
        Some('\t')
    } else {
        None
    }
}

/// Whether the characters of `v` are exactly those of `s`.
fn eq_str_chars(v: &Vec<char>, s: &str) -> (r: bool)
    ensures
        r == (v@ == s@),
{
    let n = s.unicode_len();
    if v.len() != n {
        proof {
            assert(v@.len() != s@.len());
        }
        return false;
    }
    let mut k: usize = 0;
    while k < n
        invariant
            0 <= k <= n == s@.len(),
            v@.len() == n,
            forall|k2: int| 0 <= k2 < k ==> v@[k2] == s@[k2],
        decreases n - k,
    {
        if v[k] != s.get_char(k) {
            return false;
        }
        k = k + 1;
    }
    proof {
        assert(v@ =~= s@);
    }
    true
}

fn parse_string_body_exec(v: &Vec<char>, i: usize) -> (r: Option<(Vec<char>, usize)>)
    requires
        i <= v@.len(),
    ensures
        ({
            let g = parse_string_body(v@, i as int);
            match r {
                Some((w, j)) => g == Some((w@, j as int)) && i < j <= v@.len(),
                None => g is None,
            }
        }),
    decreases v@.len() - i,
{
    if i >= v.len() {
        return None;
    }
    let c = v[i];
    if c == '"' {
        let w: Vec<char> = Vec::new();
        return Some((w, i + 1));
    }
    if c == '\\' {
        if v.len() - i < 2 {
            return None;
        }
        let e = v[i + 1];
        if e == 'u' {
            if v.len() - i < 6 {
                return None;
            }
            let h1 = hex_val_exec(v[i + 2]);
            let h2 = hex_val_exec(v[i + 3]);
            let h3 = hex_val_exec(v[i + 4]);
            let h4 = hex_val_exec(v[i + 5]);
            if h1 < 0 || h2 < 0 || h3 < 0 || h4 < 0 {
                return None;
            }
            let code: u32 = (h1 as u32) * 4096 + (h2 as u32) * 256 + (h3 as u32) * 16 + (h4 as u32);
            if code >= 0xD800 && code < 0xE000 {
                return None;
            }
            match char_from_u32(code) {
                Some(ch) => {
                    match parse_string_body_exec(v, i + 6) {
                        Some((t, j)) => {
                            let ghost tview = t@;
                            let mut w = t;
                            w.insert(0, ch);
                            proof {
                                vstd::utf8::char_u32_cast(ch, code);
                                assert(char_of(code) == ch);
                                assert(w@ =~= seq![char_of(code)] + tview);
                            }
                            Some((w, j))
                        },
                        None => None,
                    }
                },
                None => {
                    proof {
                        assert(code <= 65535);
                        assert(false);
                    }
                    None
                },
            }
        } else {
            match esc_char_exec(e) {
                Some(c2) => {
                    match parse_string_body_exec(v, i + 2) {
                        Some((t, j)) => {
                            let ghost tview = t@;
                            let mut w = t;
                            w.insert(0, c2);
                            proof {
                                assert(w@ =~= seq![c2] + tview);
                            }
                            Some((w, j))
                        },
                        None => None,
                    }
                },
                None => None,
            }
        }
    } else if (c as u32) < 32 {
        None
    } else {
        match parse_string_body_exec(v, i + 1) {
            Some((t, j)) => {
                let ghost tview = t@;
                let mut w = t;
                w.insert(0, c);
                proof {
                    assert(w@ =~= seq![c] + tview);
                }
                Some((w, j))
            },
            None => None,
        }
    }
}

fn parse_string_exec(v: &Vec<char>, i: usize) -> (r: Option<(Vec<char>, usize)>)
    requires
        i <= v@.len(),
    ensures
        ({
            let g = parse_string(v@, i as int);
            match r {
                Some((w, j)) => g == Some((w@, j as int)) && i < j <= v@.len(),
                None => g is None,
            }
        }),
{
    if i < v.len() && v[i] == '"' {
        parse_string_body_exec(v, i + 1)
    } else {
        None
    }
}

fn parse_int_exec(v: &Vec<char>, i: usize) -> (r: Option<(i32, usize)>)
    requires
        i <= v@.len(),
    ensures
        ({
            let g = parse_int(v@, i as int);
            match r {
                Some((x, j)) => g == Some((x as int, j as int)) && i < j <= v@.len(),
                None => g is None,
            }
        }),
{
    if i >= v.len() {
        return None;
    }
    let neg = v[i] == '-';
    let d0 = if neg {
        i + 1
    } else {
        i
    };
    if d0 >= v.len() || !is_digit_exec(v[d0]) {
        return None;
    }
    let mut e: usize = d0;
    while e < v.len() && is_digit_exec(v[e])
        invariant
            d0 <= e <= v@.len(),
            forall|k2: int| d0 <= k2 < e ==> is_digit(v@[k2]),
        decreases v@.len() - e,
    {
        e = e + 1;
    }
    proof {
        lemma_digits_end_pin(v@, d0 as int, e as int);
    }
    if v[d0] == '0' && e > d0 + 1 {
        return None;
    }
    if e < v.len() && (v[e] == '.' || v[e] == 'e' || v[e] == 'E') {
        return None;
    }
    let mut acc: u64 = 0;
    let mut k: usize = d0;
    while k < e
        invariant
            d0 <= k <= e <= v@.len(),
            forall|k2: int| d0 <= k2 < e ==> is_digit(v@[k2]),
            digits_val(v@, d0 as int, k as int) <= 3000000000 ==> acc == digits_val(
                v@,
                d0 as int,
                k as int,
            ),
            digits_val(v@, d0 as int, k as int) > 3000000000 ==> acc > 3000000000,
            acc <= 30000000009,
        decreases e - k,
    {
        proof {
            lemma_digits_val_nonneg(v@, d0 as int, k as int);
            assert(is_digit(v@[k as int]));
        }
        let d: u32 = (v[k] as u32) - 48;
        if acc <= 3000000000 {
            acc = acc * 10 + (d as u64);
        }
        k = k + 1;
    }
    if neg {
        if acc > 2147483648 {
            return None;
        }
        let x: i32 = (-(acc as i64)) as i32;
        Some((x, e))
    } else {
        if acc > 2147483647 {
            return None;
        }
        Some((acc as i32, e))
    }
}

fn parse_bool_exec(v: &Vec<char>, i: usize) -> (r: Option<(bool, usize)>)
    requires
        i <= v@.len(),
    ensures
        ({
            let g = parse_bool(v@, i as int);
            match r {
                Some((b, j)) => g == Some((b, j as int)) && i < j <= v@.len(),
                None => g is None,
            }
        }),
{
    if v.len() - i >= 4 && v[i] == 't' && v[i + 1] == 'r' && v[i + 2] == 'u' && v[i + 3] == 'e' {
        Some((true, i + 4))
    } else if v.len() - i >= 5 && v[i] == 'f' && v[i + 1] == 'a' && v[i + 2] == 'l' && v[i + 3]
        == 's' && v[i + 4] == 'e' {
        Some((false, i + 5))
    } else {
        None
    }
}

fn parse_str_items_exec(v: &Vec<char>, i: usize) -> (r: Option<(Vec<String>, usize)>)
    requires
        i <= v@.len(),
    ensures
        ({
            let g = parse_str_items(v@, i as int);
            match r {
                Some((items, j)) => g == Some((items@.map_values(|s: String| s@), j as int)) && i
                    < j <= v@.len(),
                None => g is None,
            }
        }),
    decreases v@.len() - i,
{
    match parse_string_exec(v, i) {
        None => None,
        Some((w, p1)) => {
            let p2 = skip_ws_exec(v, p1);
            if p2 < v.len() && v[p2] == ',' {
                let nx = skip_ws_exec(v, p2 + 1);
                match parse_str_items_exec(v, nx) {
                    Some((t, j)) => {
                        let ghost tview = t@;
                        let mut items = t;
                        items.insert(0, chars_to_string(&w));
                        proof {
                            assert(items@.map_values(|s: String| s@) =~= seq![w@]
                                + tview.map_values(|s: String| s@));
                        }
                        Some((items, j))
                    },
                    None => None,
                }
            } else if p2 < v.len() && v[p2] == ']' {
                let mut items: Vec<String> = Vec::new();
                items.push(chars_to_string(&w));
                proof {
                    assert(items@.map_values(|s: String| s@) =~= seq![w@]);
                }
                Some((items, p2 + 1))
            } else {
                None
            }
        },
    }
}

fn parse_str_array_exec(v: &Vec<char>, i: usize) -> (r: Option<(Vec<String>, usize)>)
    requires
        i <= v@.len(),
    ensures
        ({
            let g = parse_str_array(v@, i as int);
            match r {
                Some((items, j)) => g == Some((items@.map_values(|s: String| s@), j as int)) && i
                    < j <= v@.len(),
                None => g is None,
            }
        }),
{
    if i < v.len() && v[i] == '[' {
        let j = skip_ws_exec(v, i + 1);
        if j < v.len() && v[j] == ']' {
            let items: Vec<String> = Vec::new();
            proof {
                assert(items@.map_values(|s: String| s@) =~= Seq::<Seq<char>>::empty());
            }
            Some((items, j + 1))
        } else {
            parse_str_items_exec(v, j)
        }
    } else {
        None
    }
}

/// Members gathered so far while reading one story object.
struct StoryPartial {
    id: Option<String>,
    title: Option<String>,
    description: Option<String>,
    priority: Option<i32>,
    passes: Option<bool>,
    criteria: Option<Vec<String>>,
}

spec fn partial_acc(p: StoryPartial) -> StoryAcc {
    StoryAcc {
        id: match p.id {
            Some(s) => Some(s@),
            None => None,
        },
        title: match p.title {
            Some(s) => Some(s@),
            None => None,
        },
        description: match p.description {
            Some(s) => Some(s@),
            None => None,
        },
        priority: match p.priority {
            Some(x) => Some(x as int),
            None => None,
        },
        passes: p.passes,
        criteria: match p.criteria {
            Some(c) => Some(c@.map_values(|s: String| s@)),
            None => None,
        },
    }
}

fn story_members_exec(v: &Vec<char>, i: usize, part: StoryPartial, fuel: u32) -> (r: Option<
    (Story, usize),
>)
    requires
        i <= v@.len(),
    ensures
        ({
            let g = story_members(v@, i as int, partial_acc(part), fuel as nat);
            match r {
                Some((story, j)) => g == Some((story_data(story), j as int)) && i < j <= v@.len(),
                None => g is None,
            }
        }),
    decreases fuel,
{
    if fuel == 0 {
        return None;
    }
    match parse_string_exec(v, i) {
        None => None,
        Some((key, p1)) => {
            let p2 = skip_ws_exec(v, p1);
            if p2 < v.len() && v[p2] == ':' {
                let p3 = skip_ws_exec(v, p2 + 1);
                let mut part2 = part;
                let taken: Option<(StoryPartial, usize)> = if eq_str_chars(&key, "id") {
                    if part2.id.is_some() {
                        None
                    } else {
                        match parse_string_exec(v, p3) {
                            Some((w, p)) => {
                                part2.id = Some(chars_to_string(&w));
                                Some((part2, p))
                            },
                            None => None,
                        }
                    }
                } else if eq_str_chars(&key, "title") {
                    if part2.title.is_some() {
                        None
                    } else {
                        match parse_string_exec(v, p3) {
                            Some((w, p)) => {
                                part2.title = Some(chars_to_string(&w));
                                Some((part2, p))
                            },
                            None => None,
                        }
                    }
                } else if eq_str_chars(&key, "description") {
                    if part2.description.is_some() {
                        None
                    } else {
                        match parse_string_exec(v, p3) {
                            Some((w, p)) => {
                                part2.description = Some(chars_to_string(&w));
                                Some((part2, p))
                            },
                            None => None,
                        }
                    }
                } else if eq_str_chars(&key, "priority") {
                    if part2.priority.is_some() {
                        None
                    } else {
                        match parse_int_exec(v, p3) {
                            Some((x, p)) => {
                                part2.priority = Some(x);
                                Some((part2, p))
                            },
                            None => None,
                        }
                    }
                } else if eq_str_chars(&key, "passes") {
                    if part2.passes.is_some() {
                        None
                    } else {
                        match parse_bool_exec(v, p3) {
                            Some((b, p)) => {
                                part2.passes = Some(b);
                                Some((part2, p))
                            },
                            None => None,
                        }
                    }
                } else if eq_str_chars(&key, "acceptance_criteria") {
                    if part2.criteria.is_some() {
                        None
                    } else {
                        match parse_str_array_exec(v, p3) {
                            Some((items, p)) => {
                                part2.criteria = Some(items);
                                Some((part2, p))
                            },
                            None => None,
                        }
                    }
                } else {
                    None
                };
                match taken {
                    None => None,
                    Some((part3, p4)) => {
                        let p5 = skip_ws_exec(v, p4);
                        if p5 < v.len() && v[p5] == ',' {
                            let nx = skip_ws_exec(v, p5 + 1);
                            story_members_exec(v, nx, part3, fuel - 1)
                        } else if p5 < v.len() && v[p5] == '}' {
                            story_finish_exec(part3, p5 + 1)
                        } else {
                            None
                        }
                    },
                }
            } else {
                None
            }
        },
    }
}

fn story_finish_exec(part: StoryPartial, p: usize) -> (r: Option<(Story, usize)>)
    ensures
        ({
            let g = story_finish(partial_acc(part), p as int);
            match r {
                Some((story, j)) => g == Some((story_data(story), j as int)) && j == p,
                None => g is None,
            }
        }),
{
    match (part.id, part.title, part.description) {
        (Some(id), Some(title), Some(description)) => {
            let story = Story {
                id,
                title,
                description,
                priority: match part.priority {
                    Some(x) => x,
                    None => 0,
                },
                passes: match part.passes {
                    Some(b) => b,
                    None => false,
                },
                acceptance_criteria: match part.criteria {
                    Some(c) => c,
                    None => Vec::new(),
                },
            };
            proof {
                assert(story_data(story).criteria =~= (match story_finish(
                    partial_acc(part),
                    p as int,
                ) {
                    Some((d, j)) => d.criteria,
                    None => Seq::<Seq<char>>::empty(),
                }));
            }
            Some((story, p))
        },
        _ => None,
    }
}

fn parse_story_obj_exec(v: &Vec<char>, i: usize) -> (r: Option<(Story, usize)>)
    requires
        i <= v@.len(),
    ensures
        ({
            let g = parse_story_obj(v@, i as int);
            match r {
                Some((story, j)) => g == Some((story_data(story), j as int)) && i < j <= v@.len(),
                None => g is None,
            }
        }),
{
    if i < v.len() && v[i] == '{' {
        let j = skip_ws_exec(v, i + 1);
        if j < v.len() && v[j] == '}' {
            None
        } else {
            let part = StoryPartial {
                id: None,
                title: None,
                description: None,
                priority: None,
                passes: None,
                criteria: None,
            };
            story_members_exec(v, j, part, 7)
        }
    } else {
        None
    }
}

fn parse_story_items_exec(v: &Vec<char>, i: usize) -> (r: Option<(Vec<Story>, usize)>)
    requires
        i <= v@.len(),
    ensures
        ({
            let g = parse_story_items(v@, i as int);
            match r {
                Some((items, j)) => g == Some(
                    (items@.map_values(|s: Story| story_data(s)), j as int),
                ) && i < j <= v@.len(),
                None => g is None,
            }
        }),
    decreases v@.len() - i,
{
    match parse_story_obj_exec(v, i) {
        None => None,
        Some((story, p1)) => {
            let p2 = skip_ws_exec(v, p1);
            if p2 < v.len() && v[p2] == ',' {
                let nx = skip_ws_exec(v, p2 + 1);
                match parse_story_items_exec(v, nx) {
                    Some((t, j)) => {
                        let ghost tview = t@;
                        let ghost sdata = story_data(story);
                        let mut items = t;
                        items.insert(0, story);
                        proof {
                            assert(items@.map_values(|s: Story| story_data(s)) =~= seq![sdata]
                                + tview.map_values(|s: Story| story_data(s)));
                        }
                        Some((items, j))
                    },
                    None => None,
                }
            } else if p2 < v.len() && v[p2] == ']' {
                let ghost sdata = story_data(story);
                let mut items: Vec<Story> = Vec::new();
                items.push(story);
                proof {
                    assert(items@.map_values(|s: Story| story_data(s)) =~= seq![sdata]);
                }
                Some((items, p2 + 1))
            } else {
                None
            }
        },
    }
}

fn parse_story_array_exec(v: &Vec<char>, i: usize) -> (r: Option<(Vec<Story>, usize)>)
    requires
        i <= v@.len(),
    ensures
        ({
            let g = parse_story_array(v@, i as int);
            match r {
                Some((items, j)) => g == Some(
                    (items@.map_values(|s: Story| story_data(s)), j as int),
                ) && i < j <= v@.len(),
                None => g is None,
            }
        }),
{
    if i < v.len() && v[i] == '[' {
        let j = skip_ws_exec(v, i + 1);
        if j < v.len() && v[j] == ']' {
            let items: Vec<Story> = Vec::new();
            proof {
                assert(items@.map_values(|s: Story| story_data(s)) =~= Seq::<StoryData>::empty());
            }
            Some((items, j + 1))
        } else {
            parse_story_items_exec(v, j)
        }
    } else {
        None
    }
}

/// Members gathered so far while reading the document object.
struct PrdPartial {
    branch: Option<String>,
    stories: Option<Vec<Story>>,
}

spec fn prd_partial_acc(p: PrdPartial) -> PrdAcc {
    PrdAcc {
        branch: match p.branch {
            Some(s) => Some(s@),
            None => None,
        },
        stories: match p.stories {
            Some(v) => Some(v@.map_values(|s: Story| story_data(s))),
            None => None,
        },
    }
}

fn prd_members_exec(v: &Vec<char>, i: usize, part: PrdPartial, fuel: u32) -> (r: Option<
    (Prd, usize),
>)
    requires
        i <= v@.len(),
    ensures
        ({
            let g = prd_members(v@, i as int, prd_partial_acc(part), fuel as nat);
            match r {
                Some((p, j)) => g == Some((prd_data(p), j as int)) && i < j <= v@.len(),
                None => g is None,
            }
        }),
    decreases fuel,
{
    if fuel == 0 {
        return None;
    }
    match parse_string_exec(v, i) {
        None => None,
        Some((key, p1)) => {
            let p2 = skip_ws_exec(v, p1);
            if p2 < v.len() && v[p2] == ':' {
                let p3 = skip_ws_exec(v, p2 + 1);
                let mut part2 = part;
                let taken: Option<(PrdPartial, usize)> = if eq_str_chars(&key, "branchName") {
                    if part2.branch.is_some() {
                        None
                    } else {
                        match parse_string_exec(v, p3) {
                            Some((w, p)) => {
                                part2.branch = Some(chars_to_string(&w));
                                Some((part2, p))
                            },
                            None => None,
                        }
                    }
                } else if eq_str_chars(&key, "stories") {
                    if part2.stories.is_some() {
                        None
                    } else {
                        match parse_story_array_exec(v, p3) {
                            Some((items, p)) => {
                                part2.stories = Some(items);
                                Some((part2, p))
                            },
                            None => None,
                        }
                    }
                } else {
                    None
                };
                match taken {
                    None => None,
                    Some((part3, p4)) => {
                        let p5 = skip_ws_exec(v, p4);
                        if p5 < v.len() && v[p5] == ',' {
                            let nx = skip_ws_exec(v, p5 + 1);
                            prd_members_exec(v, nx, part3, fuel - 1)
                        } else if p5 < v.len() && v[p5] == '}' {
                            match (part3.branch, part3.stories) {
                                (Some(branch), Some(stories)) => {
                                    let p = Prd { branch_name: branch, stories };
                                    Some((p, p5 + 1))
                                },
                                _ => None,
                            }
                        } else {
                            None
                        }
                    },
                }
            } else {
                None
            }
        },
    }
}

fn parse_prd_obj_exec(v: &Vec<char>, i: usize) -> (r: Option<(Prd, usize)>)
    requires
        i <= v@.len(),
    ensures
        ({
            let g = parse_prd_obj(v@, i as int);
            match r {
                Some((p, j)) => g == Some((prd_data(p), j as int)) && i < j <= v@.len(),
                None => g is None,
            }
        }),
{
    if i < v.len() && v[i] == '{' {
        let j = skip_ws_exec(v, i + 1);
        if j < v.len() && v[j] == '}' {
            None
        } else {
            let part = PrdPartial { branch: None, stories: None };
            prd_members_exec(v, j, part, 3)
        }
    } else {
        None
    }
}

// ---------------------------------------------------------------------------
// The executable renderer.
// ---------------------------------------------------------------------------

fn append_chars(dst: &mut Vec<char>, src: &Vec<char>)
    ensures
        final(dst)@ == old(dst)@ + src@,
{
    let mut k: usize = 0;
    while k < src.len()
        invariant
            0 <= k <= src@.len(),
            dst@ == old(dst)@ + src@.subrange(0, k as int),
        decreases src@.len() - k,
    {
        dst.push(src[k]);
        proof {
            assert(old(dst)@ + src@.subrange(0, k + 1 as int) =~= (old(dst)@ + src@.subrange(
                0,
                k as int,
            )).push(src@[k as int]));
        }
        k = k + 1;
    }
    proof {
        assert(src@.subrange(0, src@.len() as int) =~= src@);
    }
}

fn append_lit(dst: &mut Vec<char>, s: &str)
    ensures
        final(dst)@ == old(dst)@ + s@,
{
    let v = str_to_chars(s);
    append_chars(dst, &v);
}

fn append_spaces(dst: &mut Vec<char>, n: usize)
    ensures
        final(dst)@ == old(dst)@ + spaces(n as nat),
{
    let mut k: usize = 0;
    while k < n
        invariant
            0 <= k <= n,
            dst@ == old(dst)@ + spaces(k as nat),
        decreases n - k,
    {
        dst.push(' ');
        k = k + 1;
    }
}

fn hex_digit_exec(d: u32) -> (c: char)
    requires
        d < 16,
    ensures
        c == hex_digit(d as nat),
{
    if d == 0 {
        '0'
    } else if d == 1 {
        '1'
    } else if d == 2 {
        '2'
    } else if d == 3 {
        '3'
    } else if d == 4 {
        '4'
    } else if d == 5 {
        '5'
    } else if d == 6 {
        '6'
    } else if d == 7 {
        '7'
    } else if d == 8 {
        '8'
    } else if d == 9 {
        '9'
    } else if d == 10 {
        'a'
    } else if d == 11 {
        'b'
    } else if d == 12 {
        'c'
    } else if d == 13 {
        'd'
    } else if d == 14 {
        'e'
    } else {
        'f'
    }
}

fn append_escaped_char(dst: &mut Vec<char>, c: char)
    ensures
        final(dst)@ == old(dst)@ + escape_char(c),
{
    if c == '"' {
        dst.push('\\');
        dst.push('"');
    } else if c == '\\' {
        dst.push('\\');
        dst.push('\\');
    } else if c == '\n' {
        dst.push('\\');
        dst.push('n');
    } else if c == '\r' {
        dst.push('\\');
        dst.push('r');
    } else if c == '\t' {
        dst.push('\\');
        dst.push('t');
    } else if c == '\u{0008}' {
        dst.push('\\');
        dst.push('b');
    } else if c == '\u{000C}' {
        dst.push('\\');
        dst.push('f');
    } else if (c as u32) < 32 {
        dst.push('\\');
        dst.push('u');
        dst.push('0');
        dst.push('0');
        dst.push(hex_digit_exec((c as u32) / 16));
        dst.push(hex_digit_exec((c as u32) % 16));
    } else {
        dst.push(c);
    }
    proof {
        assert(dst@ =~= old(dst)@ + escape_char(c));
    }
}

proof fn lemma_escape_append(a: Seq<char>, b: Seq<char>)
    ensures
        escape(a + b) == escape(a) + escape(b),
    decreases a.len(),
{
    if a.len() == 0 {
        assert(a + b =~= b);
        assert(escape(a) + escape(b) =~= escape(b));
    } else {
        assert((a + b).drop_first() =~= a.drop_first() + b);
        assert((a + b).len() > 0);
        assert((a + b)[0] == a[0]);
        lemma_escape_append(a.drop_first(), b);
        assert(escape(a + b) =~= escape(a) + escape(b));
    }
}

fn append_escaped(dst: &mut Vec<char>, s: &str)
    ensures
        final(dst)@ == old(dst)@ + escape(s@),
{
    let v = str_to_chars(s);
    let mut k: usize = 0;
    while k < v.len()
        invariant
            0 <= k <= v@.len(),
            v@ == s@,
            dst@ == old(dst)@ + escape(s@.subrange(0, k as int)),
        decreases v@.len() - k,
    {
        append_escaped_char(dst, v[k]);
        proof {
            let pre = s@.subrange(0, k as int);
            let cur = s@.subrange(0, k + 1 as int);
            let one = seq![s@[k as int]];
            assert(cur =~= pre + one);
            lemma_escape_append(pre, one);
            assert(one.len() == 1 && one[0] == s@[k as int]);
            assert(one.drop_first() =~= Seq::<char>::empty());
            assert(escape(one) == escape_char(one[0]) + escape(Seq::<char>::empty()));
            assert(escape_char(one[0]) + Seq::<char>::empty() =~= escape_char(one[0]));
            assert(dst@ =~= old(dst)@ + escape(cur));
        }
        k = k + 1;
    }
    proof {
        assert(s@.subrange(0, s@.len() as int) =~= s@);
    }
}

fn append_string_tok(dst: &mut Vec<char>, s: &str)
    ensures
        final(dst)@ == old(dst)@ + emit_string(s@),
{
    dst.push('"');
    append_escaped(dst, s);
    dst.push('"');
    proof {
        assert(dst@ =~= old(dst)@ + emit_string(s@));
    }
}

fn append_criteria_elems(dst: &mut Vec<char>, items: &Vec<String>, from: usize, ind: usize)
    requires
        from < items@.len(),
        ind <= 100,
    ensures
        final(dst)@ == old(dst)@ + emit_str_elems(
            items@.map_values(|s: String| s@).skip(from as int),
            ind as nat,
        ),
    decreases items@.len() - from,
{
    let ghost views = items@.map_values(|s: String| s@);
    let n = items.len();
    append_string_tok(dst, items[from].as_str());
    if from + 1 < n {
        dst.push(',');
        dst.push('\n');
        append_spaces(dst, ind);
        append_criteria_elems(dst, items, from + 1, ind);
        proof {
            let cur = views.skip(from as int);
            assert(cur.drop_first() =~= views.skip(from as int + 1));
            assert(cur[0] == views[from as int]);
            assert(cur.len() > 1);
            assert(dst@ =~= old(dst)@ + emit_str_elems(cur, ind as nat));
        }
    } else {
        proof {
            let cur = views.skip(from as int);
            assert(cur.len() == 1);
            assert(cur[0] == views[from as int]);
            assert(dst@ =~= old(dst)@ + emit_str_elems(cur, ind as nat));
        }
    }
}

fn append_criteria(dst: &mut Vec<char>, items: &Vec<String>, ind: usize)
    requires
        ind <= 96,
    ensures
        final(dst)@ == old(dst)@ + emit_str_array(items@.map_values(|s: String| s@), ind as nat),
{
    let ghost views = items@.map_values(|s: String| s@);
    if items.len() == 0 {
        dst.push('[');
        dst.push(']');
        proof {
            assert(dst@ =~= old(dst)@ + emit_str_array(views, ind as nat));
        }
    } else {
        dst.push('[');
        dst.push('\n');
        append_spaces(dst, ind + 2);
        append_criteria_elems(dst, items, 0, ind + 2);
        dst.push('\n');
        append_spaces(dst, ind);
        dst.push(']');
        proof {
            assert(views.skip(0) =~= views);
            assert(dst@ =~= old(dst)@ + emit_str_array(views, ind as nat));
        }
    }
}

fn append_str_member(dst: &mut Vec<char>, ind: usize, key: &str, v: &str)
    requires
        ind <= 98,
    ensures
        final(dst)@ == old(dst)@ + emit_str_member(ind as nat, key@, v@),
{
    append_spaces(dst, ind);
    append_string_tok(dst, key);
    dst.push(':');
    dst.push(' ');
    append_string_tok(dst, v);
    dst.push(',');
    dst.push('\n');
    proof {
        assert(dst@ =~= old(dst)@ + emit_str_member(ind as nat, key@, v@));
    }
}

fn append_key(dst: &mut Vec<char>, ind: usize, key: &str)
    requires
        ind <= 98,
    ensures
        final(dst)@ == old(dst)@ + spaces(ind as nat) + emit_key(key@),
{
    append_spaces(dst, ind);
    append_string_tok(dst, key);
    dst.push(':');
    dst.push(' ');
    proof {
        assert(dst@ =~= old(dst)@ + spaces(ind as nat) + emit_key(key@));
    }
}

fn append_bool(dst: &mut Vec<char>, b: bool)
    ensures
        final(dst)@ == old(dst)@ + emit_bool(b),
{
    if b {
        dst.push('t');
        dst.push('r');
        dst.push('u');
        dst.push('e');
    } else {
        dst.push('f');
        dst.push('a');
        dst.push('l');
        dst.push('s');
        dst.push('e');
    }
    proof {
        assert(dst@ =~= old(dst)@ + emit_bool(b));
    }
}

#[verifier::rlimit(100)]
#[verifier::spinoff_prover]
fn append_story(dst: &mut Vec<char>, s: &Story, ind: usize)
    requires
        ind <= 90,
    ensures
        final(dst)@ == old(dst)@ + emit_story(story_data(*s), ind as nat),
{
    dst.push('{');
    dst.push('\n');
    append_str_member(dst, ind + 2, "id", s.id.as_str());
    append_str_member(dst, ind + 2, "title", s.title.as_str());
    append_str_member(dst, ind + 2, "description", s.description.as_str());
    append_key(dst, ind + 2, "priority");
    let pr = i32_to_string(s.priority);
    append_lit(dst, pr.as_str());
    dst.push(',');
    dst.push('\n');
    append_key(dst, ind + 2, "passes");
    append_bool(dst, s.passes);
    dst.push(',');
    dst.push('\n');
    append_key(dst, ind + 2, "acceptance_criteria");
    append_criteria(dst, &s.acceptance_criteria, ind + 2);
    dst.push('\n');
    append_spaces(dst, ind);
    dst.push('}');
    proof {
        reveal(emit_story);
        assert(dst@ =~= old(dst)@ + emit_story(story_data(*s), ind as nat));
    }
}

fn append_story_elems(dst: &mut Vec<char>, items: &Vec<Story>, from: usize, ind: usize)
    requires
        from < items@.len(),
        ind <= 80,
    ensures
        final(dst)@ == old(dst)@ + emit_story_elems(
            items@.map_values(|s: Story| story_data(s)).skip(from as int),
            ind as nat,
        ),
    decreases items@.len() - from,
{
    let ghost views = items@.map_values(|s: Story| story_data(s));
    let n = items.len();
    append_story(dst, &items[from], ind);
    if from + 1 < n {
        dst.push(',');
        dst.push('\n');
        append_spaces(dst, ind);
        append_story_elems(dst, items, from + 1, ind);
        proof {
            let cur = views.skip(from as int);
            assert(cur.drop_first() =~= views.skip(from as int + 1));
            assert(cur[0] == views[from as int]);
            assert(cur.len() > 1);
            assert(dst@ =~= old(dst)@ + emit_story_elems(cur, ind as nat));
        }
    } else {
        proof {
            let cur = views.skip(from as int);
            assert(cur.len() == 1);
            assert(cur[0] == views[from as int]);
            assert(dst@ =~= old(dst)@ + emit_story_elems(cur, ind as nat));
        }
    }
}

fn append_stories(dst: &mut Vec<char>, items: &Vec<Story>, ind: usize)
    requires
        ind <= 70,
    ensures
        final(dst)@ == old(dst)@ + emit_stories(items@.map_values(|s: Story| story_data(s)), ind as nat),
{
    let ghost views = items@.map_values(|s: Story| story_data(s));
    if items.len() == 0 {
        dst.push('[');
        dst.push(']');
        proof {
            assert(dst@ =~= old(dst)@ + emit_stories(views, ind as nat));
        }
    } else {
        dst.push('[');
        dst.push('\n');
        append_spaces(dst, ind + 2);
        append_story_elems(dst, items, 0, ind + 2);
        dst.push('\n');
        append_spaces(dst, ind);
        dst.push(']');
        proof {
            assert(views.skip(0) =~= views);
            assert(dst@ =~= old(dst)@ + emit_stories(views, ind as nat));
        }
    }
}

/// Renders the document as pretty-printed JSON: exactly `emit_doc` of its
/// content.
pub fn serialize_prd(p: &Prd) -> (r: String)
    ensures
        r@ == emit_doc(prd_data(*p)),
{
    let mut dst: Vec<char> = Vec::new();
    dst.push('{');
    dst.push('\n');
    append_spaces(&mut dst, 2);
    append_string_tok(&mut dst, "branchName");
    dst.push(':');
    dst.push(' ');
    append_string_tok(&mut dst, p.branch_name.as_str());
    dst.push(',');
    dst.push('\n');
    append_spaces(&mut dst, 2);
    append_string_tok(&mut dst, "stories");
    dst.push(':');
    dst.push(' ');
    append_stories(&mut dst, &p.stories, 2);
    dst.push('\n');
    dst.push('}');
    proof {
        reveal(emit_doc);
        assert(dst@ =~= emit_doc(prd_data(*p)));
    }
    chars_to_string(&dst)
}

// ---------------------------------------------------------------------------
// The round trip: parsing a rendered document yields the document.
// ---------------------------------------------------------------------------

/// Peels a known prefix off the suffix of `s` at `p`: the characters of the
/// prefix are pinned, and the rest of the suffix is the rest of the text.
proof fn lemma_peel(s: Seq<char>, p: int, a: Seq<char>, b: Seq<char>)
    requires
        0 <= p <= s.len(),
        s.subrange(p, s.len() as int) == a + b,
    ensures
        0 <= p + a.len() <= s.len(),
        s.subrange(p + a.len(), s.len() as int) == b,
        forall|k: int| 0 <= k < a.len() ==> s[p + k] == (#[trigger] a[k]),
{
    let suf = s.subrange(p, s.len() as int);
    assert(suf.len() == s.len() - p);
    assert((a + b).len() == a.len() + b.len());
    assert(s.len() - p == a.len() + b.len());
    assert forall|k: int| 0 <= k < a.len() implies s[p + k] == (#[trigger] a[k]) by {
        assert(suf[k] == s[p + k]);
        assert(suf[k] == (a + b)[k]);
        assert((a + b)[k] == a[k]);
    }
    assert forall|k: int| 0 <= k < b.len() implies s.subrange(
        p + a.len(),
        s.len() as int,
    )[k] == b[k] by {
        assert(s.subrange(p + a.len(), s.len() as int)[k] == s[p + a.len() + k]);
        assert(suf[a.len() + k] == s[p + a.len() + k]);
        assert(suf[a.len() + k] == (a + b)[a.len() + k]);
        assert((a + b)[a.len() + k] == b[k]);
    }
    assert(s.subrange(p + a.len(), s.len() as int) =~= b);
}

proof fn lemma_digit_char_val(d: nat)
    requires
        d < 10,
    ensures
        is_digit(digit_char(d)),
        digit_val(digit_char(d)) == d,
        d == 0 <==> digit_char(d) == '0',
{
}

proof fn lemma_hex_digit_val(d: nat)
    requires
        d < 16,
    ensures
        hex_val(hex_digit(d)) == d,
{
    if d < 10 {
        lemma_digit_char_val(d);
    }
}

/// Parsing the escaped rendering of `v` followed by a closing quote yields
/// `v`, leaving the cursor past the quote.
proof fn lemma_string_body_inverse(v: Seq<char>, s: Seq<char>, i: int, tail: Seq<char>)
    requires
        0 <= i <= s.len(),
        s.subrange(i, s.len() as int) == escape(v) + seq!['"'] + tail,
    ensures
        parse_string_body(s, i) == Some((v, i + escape(v).len() + 1)),
    decreases v.len(),
{
    if v.len() == 0 {
        assert(escape(v) + seq!['"'] + tail =~= seq!['"'] + tail);
        lemma_peel(s, i, seq!['"'], tail);
        assert(s[i + 0] == seq!['"'][0]);
        assert(s[i] == '"');
    } else {
        let c = v[0];
        let e0 = escape_char(c);
        let rest = escape(v.drop_first());
        assert(escape(v) == e0 + rest);
        let rtail = rest + seq!['"'] + tail;
        assert(escape(v) + seq!['"'] + tail =~= e0 + rtail);
        lemma_peel(s, i, e0, rtail);
        let j = i + e0.len();
        assert(s.subrange(j, s.len() as int) == rtail);
        assert(rtail =~= rest + seq!['"'] + tail);
        if c == '"' || c == '\\' {
            assert(s[i + 0] == e0[0] && s[i + 1] == e0[1]);
            assert(s[i] == '\\');
            assert(esc_char(s[i + 1]) == Some(c));
            lemma_string_body_inverse(v.drop_first(), s, i + 2, tail);
            assert(seq![c] + v.drop_first() =~= v);
        } else if c == '\n' || c == '\r' || c == '\t' || c == '\u{0008}' || c == '\u{000C}' {
            assert(s[i + 0] == e0[0] && s[i + 1] == e0[1]);
            assert(s[i] == '\\');
            assert(s[i + 1] != 'u');
            assert(esc_char(s[i + 1]) == Some(c));
            lemma_string_body_inverse(v.drop_first(), s, i + 2, tail);
            assert(seq![c] + v.drop_first() =~= v);
        } else if (c as u32) < 32 {
            let u = c as u32;
            assert(s[i + 0] == e0[0] && s[i + 1] == e0[1] && s[i + 2] == e0[2] && s[i + 3] == e0[3]
                && s[i + 4] == e0[4] && s[i + 5] == e0[5]);
            assert(s[i] == '\\' && s[i + 1] == 'u' && s[i + 2] == '0' && s[i + 3] == '0');
            assert(s[i + 4] == hex_digit((u / 16) as nat));
            assert(s[i + 5] == hex_digit((u % 16) as nat));
            lemma_hex_digit_val((u / 16) as nat);
            lemma_hex_digit_val((u % 16) as nat);
            assert(hex_val(s[i + 2]) == 0 && hex_val(s[i + 3]) == 0);
            let code = hex_val(s[i + 2]) * 4096 + hex_val(s[i + 3]) * 256 + hex_val(s[i + 4]) * 16
                + hex_val(s[i + 5]);
            assert(code == (u / 16) * 16 + (u % 16));
            assert(code == u);
            vstd::utf8::char_u32_cast(c, u);
            assert(char_of(code as u32) == c);
            lemma_string_body_inverse(v.drop_first(), s, i + 6, tail);
            assert(seq![c] + v.drop_first() =~= v);
        } else {
            assert(s[i + 0] == e0[0]);
            assert(s[i] == c);
            assert(c != '"' && c != '\\' && (c as u32) >= 32);
            lemma_string_body_inverse(v.drop_first(), s, i + 1, tail);
            assert(seq![c] + v.drop_first() =~= v);
        }
    }
}

/// Parsing the rendering of a string token yields the string.
proof fn lemma_string_inverse(v: Seq<char>, s: Seq<char>, i: int, tail: Seq<char>)
    requires
        0 <= i <= s.len(),
        s.subrange(i, s.len() as int) == emit_string(v) + tail,
    ensures
        parse_string(s, i) == Some((v, i + emit_string(v).len())),
{
    let body = escape(v) + seq!['"'] + tail;
    assert(emit_string(v) + tail =~= seq!['"'] + body);
    lemma_peel(s, i, seq!['"'], body);
    assert(s[i + 0] == seq!['"'][0]);
    assert(s[i] == '"');
    assert(s.subrange(i + 1, s.len() as int) =~= escape(v) + seq!['"'] + tail);
    lemma_string_body_inverse(v, s, i + 1, tail);
}

proof fn lemma_spaces(n: nat)
    ensures
        spaces(n).len() == n,
        forall|k: int| 0 <= k < n ==> (#[trigger] spaces(n)[k]) == ' ',
    decreases n,
{
    if n > 0 {
        lemma_spaces((n - 1) as nat);
    }
}

proof fn lemma_dec_rep_digits(n: nat)
    ensures
        dec_rep(n).len() >= 1,
        forall|k: int| 0 <= k < dec_rep(n).len() ==> is_digit(#[trigger] dec_rep(n)[k]),
        dec_rep(n)[0] == '0' ==> n == 0,
    decreases n,
{
    if n < 10 {
        lemma_digit_char_val(n);
        assert(dec_rep(n)[0] == digit_char(n));
    } else {
        lemma_dec_rep_digits(n / 10);
        lemma_digit_char_val(n % 10);
        let pre = dec_rep(n / 10);
        assert(dec_rep(n) == pre.push(digit_char(n % 10)));
        assert forall|k: int| 0 <= k < dec_rep(n).len() implies is_digit(
            #[trigger] dec_rep(n)[k],
        ) by {
            if k < pre.len() {
                assert(dec_rep(n)[k] == pre[k]);
            } else {
                assert(dec_rep(n)[k] == digit_char(n % 10));
            }
        }
        assert(dec_rep(n)[0] == pre[0]);
    }
}

proof fn lemma_digits_val_of_dec(n: nat, s: Seq<char>, i: int)
    requires
        0 <= i,
        i + dec_rep(n).len() <= s.len(),
        forall|k: int| 0 <= k < dec_rep(n).len() ==> s[i + k] == (#[trigger] dec_rep(n)[k]),
    ensures
        digits_val(s, i, i + dec_rep(n).len()) == n,
    decreases n,
{
    lemma_dec_rep_digits(n);
    let m = dec_rep(n).len() as int;
    if n < 10 {
        lemma_digit_char_val(n);
        assert(s[i + 0] == dec_rep(n)[0]);
        assert(digits_val(s, i, i + 1) == digits_val(s, i, i) * 10 + digit_val(s[i]));
    } else {
        let pre = dec_rep(n / 10);
        let mp = pre.len() as int;
        assert(dec_rep(n) == pre.push(digit_char(n % 10)));
        assert(m == mp + 1);
        assert forall|k: int| 0 <= k < mp implies s[i + k] == (#[trigger] pre[k]) by {
            assert(s[i + k] == dec_rep(n)[k]);
            assert(dec_rep(n)[k] == pre[k]);
        }
        lemma_digits_val_of_dec(n / 10, s, i);
        lemma_digit_char_val(n % 10);
        assert(s[i + (m - 1)] == dec_rep(n)[m - 1]);
        assert(dec_rep(n)[m - 1] == digit_char(n % 10));
        assert(digits_val(s, i, i + m) == digits_val(s, i, i + m - 1) * 10 + digit_val(
            s[i + m - 1],
        ));
        assert(digits_val(s, i, i + m) == (n / 10) * 10 + n % 10);
    }
}

/// Parsing the decimal rendering of an in-range integer, followed by
/// anything that cannot extend a number, yields the integer.
proof fn lemma_int_inverse(x: int, s: Seq<char>, i: int, tail: Seq<char>)
    requires
        0 <= i <= s.len(),
        -2147483648 <= x <= 2147483647,
        s.subrange(i, s.len() as int) == int_rep(x) + tail,
        tail.len() > 0,
        !is_digit(tail[0]),
        tail[0] != '.' && tail[0] != 'e' && tail[0] != 'E',
    ensures
        parse_int(s, i) == Some((x, i + int_rep(x).len())),
{
    if x < 0 {
        let mag = (-x) as nat;
        assert(int_rep(x) + tail =~= seq!['-'] + (dec_rep(mag) + tail));
        lemma_peel(s, i, seq!['-'], dec_rep(mag) + tail);
        assert(s[i + 0] == seq!['-'][0]);
        assert(s[i] == '-');
        let d0 = i + 1;
        lemma_peel(s, d0, dec_rep(mag), tail);
        lemma_dec_rep_digits(mag);
        let m = dec_rep(mag).len() as int;
        assert forall|k: int| d0 <= k < d0 + m implies is_digit(s[k]) by {
            assert(s[d0 + (k - d0)] == dec_rep(mag)[k - d0]);
        }
        assert(s.subrange(d0 + m, s.len() as int)[0] == tail[0]);
        assert(s[d0 + m] == tail[0]);
        lemma_digits_end_pin(s, d0, d0 + m);
        assert(s[d0 + 0] == dec_rep(mag)[0]);
        assert(is_digit(s[d0]));
        assert(s[d0] == '0' ==> mag == 0);
        lemma_digits_val_of_dec(mag, s, d0);
        assert(parse_int(s, i) == Some((x, d0 + m)));
        assert(int_rep(x).len() == 1 + m);
    } else {
        let mag = x as nat;
        assert(int_rep(x) == dec_rep(mag));
        lemma_peel(s, i, dec_rep(mag), tail);
        lemma_dec_rep_digits(mag);
        let m = dec_rep(mag).len() as int;
        assert forall|k: int| i <= k < i + m implies is_digit(s[k]) by {
            assert(s[i + (k - i)] == dec_rep(mag)[k - i]);
        }
        assert(s.subrange(i + m, s.len() as int)[0] == tail[0]);
        assert(s[i + m] == tail[0]);
        assert(s[i + 0] == dec_rep(mag)[0]);
        assert(is_digit(s[i]));
        assert(s[i] != '-');
        lemma_digits_end_pin(s, i, i + m);
        assert(s[i] == '0' ==> mag == 0);
        lemma_digits_val_of_dec(mag, s, i);
        assert(parse_int(s, i) == Some((x, i + m)));
    }
}

/// Parsing a rendered boolean literal yields the boolean.
proof fn lemma_bool_inverse(b: bool, s: Seq<char>, i: int, tail: Seq<char>)
    requires
        0 <= i <= s.len(),
        s.subrange(i, s.len() as int) == emit_bool(b) + tail,
    ensures
        parse_bool(s, i) == Some((b, i + emit_bool(b).len())),
{
    lemma_peel(s, i, emit_bool(b), tail);
    if b {
        assert(s[i + 0] == emit_bool(b)[0] && s[i + 1] == emit_bool(b)[1] && s[i + 2] == emit_bool(
            b,
        )[2] && s[i + 3] == emit_bool(b)[3]);
    } else {
        assert(s[i + 0] == emit_bool(b)[0] && s[i + 1] == emit_bool(b)[1] && s[i + 2] == emit_bool(
            b,
        )[2] && s[i + 3] == emit_bool(b)[3] && s[i + 4] == emit_bool(b)[4]);
    }
}

/// The first character of a rendered string-array element run is a quote.
proof fn lemma_str_elems_first(items: Seq<Seq<char>>, ind: nat)
    requires
        items.len() >= 1,
    ensures
        emit_str_elems(items, ind).len() >= 1,
        emit_str_elems(items, ind)[0] == '"',
{
    assert(emit_string(items[0])[0] == '"');
}

/// Parsing rendered string-array elements followed by the array close
/// yields the elements.
proof fn lemma_str_items_inverse(
    items: Seq<Seq<char>>,
    ind: nat,
    ws: nat,
    s: Seq<char>,
    i: int,
    tail: Seq<char>,
)
    requires
        items.len() >= 1,
        0 <= i <= s.len(),
        s.subrange(i, s.len() as int) == emit_str_elems(items, ind) + seq!['\n'] + spaces(ws)
            + seq![']'] + tail,
    ensures
        parse_str_items(s, i) == Some(
            (items, i + emit_str_elems(items, ind).len() + 1 + ws + 1),
        ),
    decreases items.len(),
{
    lemma_spaces(ws);
    if items.len() == 1 {
        let close = seq!['\n'] + spaces(ws) + seq![']'] + tail;
        assert(emit_str_elems(items, ind) + seq!['\n'] + spaces(ws) + seq![']'] + tail
            =~= emit_string(items[0]) + close);
        lemma_string_inverse(items[0], s, i, close);
        lemma_peel(s, i, emit_string(items[0]), close);
        let p1 = i + emit_string(items[0]).len();
        assert(close =~= (seq!['\n'] + spaces(ws)) + (seq![']'] + tail));
        lemma_peel(s, p1, seq!['\n'] + spaces(ws), seq![']'] + tail);
        assert forall|k: int| p1 <= k < p1 + 1 + ws implies is_ws(s[k]) by {
            assert(s[p1 + (k - p1)] == (seq!['\n'] + spaces(ws))[k - p1]);
            if k > p1 {
                assert((seq!['\n'] + spaces(ws))[k - p1] == spaces(ws)[k - p1 - 1]);
            }
        }
        let p2 = p1 + 1 + ws;
        assert(s.subrange(p2, s.len() as int)[0] == (seq![']'] + tail)[0]);
        assert(s[p2] == ']');
        lemma_skip_ws_pin(s, p1, p2);
        assert(seq![items[0]] =~= items);
    } else {
        lemma_spaces(ind);
        let rest_elems = emit_str_elems(items.drop_first(), ind);
        let close = seq!['\n'] + spaces(ws) + seq![']'] + tail;
        assert(emit_str_elems(items, ind) == emit_string(items[0]) + seq![',', '\n'] + spaces(ind)
            + rest_elems);
        let after0 = seq![',', '\n'] + spaces(ind) + rest_elems + close;
        assert(emit_str_elems(items, ind) + seq!['\n'] + spaces(ws) + seq![']'] + tail
            =~= emit_string(items[0]) + after0);
        lemma_string_inverse(items[0], s, i, after0);
        lemma_peel(s, i, emit_string(items[0]), after0);
        let p1 = i + emit_string(items[0]).len();
        assert(after0 =~= seq![','] + ((seq!['\n'] + spaces(ind)) + (rest_elems + close)));
        lemma_peel(s, p1, seq![','], (seq!['\n'] + spaces(ind)) + (rest_elems + close));
        assert(s[p1 + 0] == seq![','][0]);
        assert(s[p1] == ',');
        assert(!is_ws(s[p1]));
        lemma_skip_ws_pin(s, p1, p1);
        lemma_peel(s, p1 + 1, seq!['\n'] + spaces(ind), rest_elems + close);
        assert forall|k: int| p1 + 1 <= k < p1 + 2 + ind implies is_ws(s[k]) by {
            assert(s[p1 + 1 + (k - p1 - 1)] == (seq!['\n'] + spaces(ind))[k - p1 - 1]);
            if k > p1 + 1 {
                assert((seq!['\n'] + spaces(ind))[k - p1 - 1] == spaces(ind)[k - p1 - 2]);
            }
        }
        let nx = p1 + 2 + ind;
        lemma_str_elems_first(items.drop_first(), ind);
        assert(s.subrange(nx, s.len() as int)[0] == (rest_elems + close)[0]);
        assert(s[nx] == '"');
        assert(!is_ws(s[nx]));
        lemma_skip_ws_pin(s, p1 + 1, nx);
        assert(s.subrange(nx, s.len() as int) =~= rest_elems + seq!['\n'] + spaces(ws) + seq![']']
            + tail);
        lemma_str_items_inverse(items.drop_first(), ind, ws, s, nx, tail);
        assert(seq![items[0]] + items.drop_first() =~= items);
    }
}

/// Parsing a rendered string array yields the elements.
proof fn lemma_str_array_inverse(
    items: Seq<Seq<char>>,
    ind: nat,
    s: Seq<char>,
    i: int,
    tail: Seq<char>,
)
    requires
        0 <= i <= s.len(),
        s.subrange(i, s.len() as int) == emit_str_array(items, ind) + tail,
    ensures
        parse_str_array(s, i) == Some((items, i + emit_str_array(items, ind).len())),
{
    if items.len() == 0 {
        assert(emit_str_array(items, ind) + tail =~= seq!['[', ']'] + tail);
        lemma_peel(s, i, seq!['[', ']'], tail);
        assert(s[i + 0] == seq!['[', ']'][0] && s[i + 1] == seq!['[', ']'][1]);
        assert(s[i] == '[' && s[i + 1] == ']');
        assert(!is_ws(s[i + 1]));
        lemma_skip_ws_pin(s, i + 1, i + 1);
        assert(items =~= Seq::<Seq<char>>::empty());
    } else {
        lemma_spaces((ind + 2) as nat);
        lemma_spaces(ind);
        let elems = emit_str_elems(items, (ind + 2) as nat);
        let open = seq!['[', '\n'] + spaces((ind + 2) as nat);
        let close_tail = elems + seq!['\n'] + spaces(ind) + seq![']'] + tail;
        assert(emit_str_array(items, ind) + tail =~= open + close_tail);
        lemma_peel(s, i, open, close_tail);
        assert(s[i + 0] == open[0]);
        assert(s[i] == '[');
        assert forall|k: int| i + 1 <= k < i + 2 + ind + 2 implies is_ws(s[k]) by {
            assert(s[i + (k - i)] == open[k - i]);
            if k > i + 1 {
                assert(open[k - i] == spaces((ind + 2) as nat)[k - i - 2]);
            }
        }
        let j = i + 2 + ind + 2;
        lemma_str_elems_first(items, (ind + 2) as nat);
        assert(s.subrange(j, s.len() as int)[0] == close_tail[open.len() + 0 - open.len()]);
        assert(s.subrange(j, s.len() as int) == close_tail);
        assert(s[j] == elems[0]);
        assert(s[j] == '"');
        assert(!is_ws(s[j]));
        lemma_skip_ws_pin(s, i + 1, j);
        assert(s[j] != ']');
        assert(s.subrange(j, s.len() as int) =~= elems + seq!['\n'] + spaces(ind) + seq![']']
            + tail);
        lemma_str_items_inverse(items, (ind + 2) as nat, ind, s, j, tail);
        assert(emit_str_array(items, ind).len() == 2 + ind + 2 + elems.len() + 1 + ind + 1);
    }
}

/// One story member whose parsed value is already known: the run moves past
/// the member, its comma, and the indent of the next member.
#[verifier::rlimit(100)]
#[verifier::spinoff_prover]
proof fn lemma_story_member_step(
    s: Seq<char>,
    i: int,
    acc: StoryAcc,
    key: Seq<char>,
    vseq: Seq<char>,
    acc2: StoryAcc,
    ind: nat,
    rest: Seq<char>,
    fuel: nat,
)
    requires
        fuel >= 1,
        0 <= i <= s.len(),
        s.subrange(i, s.len() as int) == emit_key(key) + vseq + seq![',', '\n'] + spaces(ind)
            + rest,
        vseq.len() > 0,
        !is_ws(vseq[0]),
        rest.len() > 0,
        !is_ws(rest[0]),
        story_member_value(s, i + emit_key(key).len(), acc, key) == Some(
            (acc2, i + emit_key(key).len() + vseq.len()),
        ),
    ensures
        story_members(s, i, acc, fuel) == story_members(
            s,
            i + emit_key(key).len() + vseq.len() + 2 + ind,
            acc2,
            (fuel - 1) as nat,
        ),
{
    lemma_spaces(ind);
    let after_key = seq![':', ' '] + vseq + seq![',', '\n'] + spaces(ind) + rest;
    assert(emit_key(key) + vseq + seq![',', '\n'] + spaces(ind) + rest =~= emit_string(key)
        + after_key);
    lemma_string_inverse(key, s, i, after_key);
    lemma_peel(s, i, emit_string(key), after_key);
    let pk = i + emit_string(key).len();
    assert(after_key =~= seq![':', ' '] + (vseq + seq![',', '\n'] + spaces(ind) + rest));
    lemma_peel(s, pk, seq![':', ' '], vseq + seq![',', '\n'] + spaces(ind) + rest);
    assert(s[pk + 0] == seq![':', ' '][0] && s[pk + 1] == seq![':', ' '][1]);
    assert(s[pk] == ':' && !is_ws(s[pk]));
    lemma_skip_ws_pin(s, pk, pk);
    let p3 = pk + 2;
    assert(s.subrange(p3, s.len() as int)[0] == (vseq + seq![',', '\n'] + spaces(ind) + rest)[0]);
    assert(s[p3] == vseq[0] && !is_ws(s[p3]));
    assert(is_ws(s[pk + 1]));
    lemma_skip_ws_pin(s, pk + 1, p3);
    assert(p3 == i + emit_key(key).len());
    let p4 = p3 + vseq.len();
    assert(vseq + seq![',', '\n'] + spaces(ind) + rest =~= vseq + (seq![',', '\n'] + spaces(ind)
        + rest));
    lemma_peel(s, p3, vseq, seq![',', '\n'] + spaces(ind) + rest);
    assert(seq![',', '\n'] + spaces(ind) + rest =~= seq![','] + ((seq!['\n'] + spaces(ind))
        + rest));
    lemma_peel(s, p4, seq![','], (seq!['\n'] + spaces(ind)) + rest);
    assert(s[p4 + 0] == seq![','][0]);
    assert(s[p4] == ',' && !is_ws(s[p4]));
    lemma_skip_ws_pin(s, p4, p4);
    lemma_peel(s, p4 + 1, seq!['\n'] + spaces(ind), rest);
    assert forall|k: int| p4 + 1 <= k < p4 + 2 + ind implies is_ws(s[k]) by {
        assert(s[p4 + 1 + (k - p4 - 1)] == (seq!['\n'] + spaces(ind))[k - p4 - 1]);
        if k > p4 + 1 {
            assert((seq!['\n'] + spaces(ind))[k - p4 - 1] == spaces(ind)[k - p4 - 2]);
        }
    }
    let nx = p4 + 2 + ind;
    assert(s.subrange(nx, s.len() as int)[0] == rest[0]);
    assert(!is_ws(s[nx]));
    lemma_skip_ws_pin(s, p4 + 1, nx);
}

/// The last story member: after it come the closing line and brace, and the
/// members end in `story_finish`.
#[verifier::rlimit(100)]
#[verifier::spinoff_prover]
proof fn lemma_story_member_last(
    s: Seq<char>,
    i: int,
    acc: StoryAcc,
    key: Seq<char>,
    vseq: Seq<char>,
    acc2: StoryAcc,
    ind: nat,
    tail: Seq<char>,
    fuel: nat,
)
    requires
        fuel >= 1,
        0 <= i <= s.len(),
        s.subrange(i, s.len() as int) == emit_key(key) + vseq + seq!['\n'] + spaces(ind)
            + seq!['}'] + tail,
        vseq.len() > 0,
        !is_ws(vseq[0]),
        story_member_value(s, i + emit_key(key).len(), acc, key) == Some(
            (acc2, i + emit_key(key).len() + vseq.len()),
        ),
    ensures
        story_members(s, i, acc, fuel) == story_finish(
            acc2,
            i + emit_key(key).len() + vseq.len() + 1 + ind + 1,
        ),
{
    lemma_spaces(ind);
    let after_key = seq![':', ' '] + vseq + seq!['\n'] + spaces(ind) + seq!['}'] + tail;
    assert(emit_key(key) + vseq + seq!['\n'] + spaces(ind) + seq!['}'] + tail =~= emit_string(key)
        + after_key);
    lemma_string_inverse(key, s, i, after_key);
    lemma_peel(s, i, emit_string(key), after_key);
    let pk = i + emit_string(key).len();
    assert(after_key =~= seq![':', ' '] + (vseq + seq!['\n'] + spaces(ind) + seq!['}'] + tail));
    lemma_peel(s, pk, seq![':', ' '], vseq + seq!['\n'] + spaces(ind) + seq!['}'] + tail);
    assert(s[pk + 0] == seq![':', ' '][0] && s[pk + 1] == seq![':', ' '][1]);
    assert(s[pk] == ':' && !is_ws(s[pk]));
    lemma_skip_ws_pin(s, pk, pk);
    let p3 = pk + 2;
    assert(s.subrange(p3, s.len() as int)[0] == (vseq + seq!['\n'] + spaces(ind) + seq!['}']
        + tail)[0]);
    assert(s[p3] == vseq[0] && !is_ws(s[p3]));
    assert(is_ws(s[pk + 1]));
    lemma_skip_ws_pin(s, pk + 1, p3);
    assert(p3 == i + emit_key(key).len());
    let p4 = p3 + vseq.len();
    assert(vseq + seq!['\n'] + spaces(ind) + seq!['}'] + tail =~= vseq + ((seq!['\n'] + spaces(
        ind,
    )) + (seq!['}'] + tail)));
    lemma_peel(s, p3, vseq, (seq!['\n'] + spaces(ind)) + (seq!['}'] + tail));
    lemma_peel(s, p4, seq!['\n'] + spaces(ind), seq!['}'] + tail);
    assert forall|k: int| p4 <= k < p4 + 1 + ind implies is_ws(s[k]) by {
        assert(s[p4 + (k - p4)] == (seq!['\n'] + spaces(ind))[k - p4]);
        if k > p4 {
            assert((seq!['\n'] + spaces(ind))[k - p4] == spaces(ind)[k - p4 - 1]);
        }
    }
    let p5 = p4 + 1 + ind;
    assert(s.subrange(p5, s.len() as int)[0] == (seq!['}'] + tail)[0]);
    assert(s[p5] == '}' && !is_ws(s[p5]));
    lemma_skip_ws_pin(s, p4, p5);
    assert(s[p5] != ',');
}

/// The `priority` member taken whole: the number is parsed back, gathered,
/// and the run moves to the next key.
#[verifier::rlimit(100)]
proof fn lemma_story_int_member(
    s: Seq<char>,
    q: int,
    acc: StoryAcc,
    v: int,
    ind2: nat,
    rest: Seq<char>,
    fuel: nat,
)
    requires
        fuel >= 1,
        0 <= q <= s.len(),
        -2147483648 <= v <= 2147483647,
        acc.priority is None,
        s.subrange(q, s.len() as int) == emit_key("priority"@) + int_rep(v) + seq![',', '\n']
            + spaces(ind2) + rest,
        rest.len() > 0,
        !is_ws(rest[0]),
    ensures
        story_members(s, q, acc, fuel) == story_members(
            s,
            q + emit_key("priority"@).len() + int_rep(v).len() + 2 + ind2,
            StoryAcc { priority: Some(v), ..acc },
            (fuel - 1) as nat,
        ),
        s.subrange(q + emit_key("priority"@).len() + int_rep(v).len() + 2 + ind2, s.len() as int)
            == rest,
{
    reveal_strlit("id");
    reveal_strlit("title");
    reveal_strlit("description");
    reveal_strlit("priority");
    let key = "priority"@;
    let ev = int_rep(v);
    let pv = q + emit_key(key).len();
    assert(emit_key(key) + ev + seq![',', '\n'] + spaces(ind2) + rest =~= emit_key(key) + (ev
        + seq![',', '\n'] + spaces(ind2) + rest));
    lemma_peel(s, q, emit_key(key), ev + seq![',', '\n'] + spaces(ind2) + rest);
    assert(ev + seq![',', '\n'] + spaces(ind2) + rest =~= ev + (seq![',', '\n'] + spaces(ind2)
        + rest));
    lemma_dec_rep_digits((if v < 0 {
        -v
    } else {
        v
    }) as nat);
    let t4 = seq![',', '\n'] + spaces(ind2) + rest;
    assert(t4[0] == ',' && !is_digit(t4[0]) && t4[0] != '.' && t4[0] != 'e' && t4[0] != 'E');
    lemma_int_inverse(v, s, pv, t4);
    let acc2 = StoryAcc { priority: Some(v), ..acc };
    assert("id"@.len() == 2 && "title"@.len() == 5 && "description"@.len() == 11 && "priority"@.len()
        == 8);
    assert(key != "id"@ && key != "title"@ && key != "description"@);
    assert(story_member_value(s, pv, acc, key) == Some((acc2, pv + ev.len())));
    assert(!is_ws(ev[0])) by {
        if v < 0 {
            assert(ev[0] == '-');
        } else {
            assert(ev[0] == dec_rep(v as nat)[0]);
            assert(is_digit(ev[0]));
        }
    }
    lemma_story_member_step(s, q, acc, key, ev, acc2, ind2, rest, fuel);
    assert(emit_key(key) + ev + seq![',', '\n'] + spaces(ind2) + rest =~= (emit_key(key) + ev
        + seq![',', '\n'] + spaces(ind2)) + rest);
    lemma_peel(s, q, emit_key(key) + ev + seq![',', '\n'] + spaces(ind2), rest);
    lemma_spaces(ind2);
    assert((emit_key(key) + ev + seq![',', '\n'] + spaces(ind2)).len() == emit_key(key).len()
        + ev.len() + 2 + ind2);
}

/// The `passes` member taken whole: the boolean is parsed back, gathered,
/// and the run moves to the next key.
#[verifier::rlimit(100)]
proof fn lemma_story_bool_member(
    s: Seq<char>,
    q: int,
    acc: StoryAcc,
    v: bool,
    ind2: nat,
    rest: Seq<char>,
    fuel: nat,
)
    requires
        fuel >= 1,
        0 <= q <= s.len(),
        acc.passes is None,
        s.subrange(q, s.len() as int) == emit_key("passes"@) + emit_bool(v) + seq![',', '\n']
            + spaces(ind2) + rest,
        rest.len() > 0,
        !is_ws(rest[0]),
    ensures
        story_members(s, q, acc, fuel) == story_members(
            s,
            q + emit_key("passes"@).len() + emit_bool(v).len() + 2 + ind2,
            StoryAcc { passes: Some(v), ..acc },
            (fuel - 1) as nat,
        ),
        s.subrange(q + emit_key("passes"@).len() + emit_bool(v).len() + 2 + ind2, s.len() as int)
            == rest,
{
    reveal_strlit("id");
    reveal_strlit("title");
    reveal_strlit("description");
    reveal_strlit("priority");
    reveal_strlit("passes");
    let key = "passes"@;
    let ev = emit_bool(v);
    let pv = q + emit_key(key).len();
    assert(emit_key(key) + ev + seq![',', '\n'] + spaces(ind2) + rest =~= emit_key(key) + (ev
        + seq![',', '\n'] + spaces(ind2) + rest));
    lemma_peel(s, q, emit_key(key), ev + seq![',', '\n'] + spaces(ind2) + rest);
    assert(ev + seq![',', '\n'] + spaces(ind2) + rest =~= ev + (seq![',', '\n'] + spaces(ind2)
        + rest));
    lemma_bool_inverse(v, s, pv, seq![',', '\n'] + spaces(ind2) + rest);
    let acc2 = StoryAcc { passes: Some(v), ..acc };
    assert("id"@.len() == 2 && "title"@.len() == 5 && "description"@.len() == 11 && "priority"@.len()
        == 8 && "passes"@.len() == 6);
    assert(key != "id"@ && key != "title"@ && key != "description"@ && key != "priority"@);
    assert(story_member_value(s, pv, acc, key) == Some((acc2, pv + ev.len())));
    assert(!is_ws(ev[0]));
    lemma_story_member_step(s, q, acc, key, ev, acc2, ind2, rest, fuel);
    assert(emit_key(key) + ev + seq![',', '\n'] + spaces(ind2) + rest =~= (emit_key(key) + ev
        + seq![',', '\n'] + spaces(ind2)) + rest);
    lemma_peel(s, q, emit_key(key) + ev + seq![',', '\n'] + spaces(ind2), rest);
    lemma_spaces(ind2);
    assert((emit_key(key) + ev + seq![',', '\n'] + spaces(ind2)).len() == emit_key(key).len()
        + ev.len() + 2 + ind2);
}

/// The last three members of a rendered story object, starting at the
/// `priority` key with the three string members already gathered.
#[verifier::rlimit(100)]
proof fn lemma_story_tail(d: StoryData, ind: nat, s: Seq<char>, q4: int, tail: Seq<char>)
    requires
        0 <= q4 <= s.len(),
        -2147483648 <= d.priority <= 2147483647,
        s.subrange(q4, s.len() as int) == emit_key("priority"@) + int_rep(d.priority) + seq![
            ',',
            '\n',
        ] + spaces((ind + 2) as nat) + (emit_key("passes"@) + emit_bool(d.passes) + seq![',', '\n']
            + spaces((ind + 2) as nat) + (emit_key("acceptance_criteria"@) + emit_str_array(
            d.criteria,
            (ind + 2) as nat,
        ) + seq!['\n'] + spaces(ind) + seq!['}'] + tail)),
    ensures
        story_members(
            s,
            q4,
            StoryAcc {
                id: Some(d.id),
                title: Some(d.title),
                description: Some(d.description),
                priority: None,
                passes: None,
                criteria: None,
            },
            4,
        ) == Some((d, s.len() - tail.len())),
{
    reveal_strlit("acceptance_criteria");
    reveal_strlit("id");
    reveal_strlit("title");
    reveal_strlit("description");
    reveal_strlit("priority");
    reveal_strlit("passes");
    let ind2 = (ind + 2) as nat;
    lemma_spaces(ind2);
    lemma_spaces(ind);
    let acc3 = StoryAcc {
        id: Some(d.id),
        title: Some(d.title),
        description: Some(d.description),
        priority: None,
        passes: None,
        criteria: None,
    };
    let r6 = emit_key("acceptance_criteria"@) + emit_str_array(d.criteria, ind2) + seq!['\n']
        + spaces(ind) + seq!['}'] + tail;
    let r5 = emit_key("passes"@) + emit_bool(d.passes) + seq![',', '\n'] + spaces(ind2) + r6;
    let r4 = emit_key("priority"@) + int_rep(d.priority) + seq![',', '\n'] + spaces(ind2) + r5;
    assert(s.subrange(q4, s.len() as int) =~= r4);
    // member: priority
    assert(r5[0] == emit_key("passes"@)[0] && r5[0] == '"' && !is_ws(r5[0]));
    lemma_story_int_member(s, q4, acc3, d.priority, ind2, r5, 4);
    let acc4 = StoryAcc { priority: Some(d.priority), ..acc3 };
    let q5 = q4 + emit_key("priority"@).len() + int_rep(d.priority).len() + 2 + ind2;
    // member: passes
    assert(r6[0] == emit_key("acceptance_criteria"@)[0] && r6[0] == '"' && !is_ws(r6[0]));
    lemma_story_bool_member(s, q5, acc4, d.passes, ind2, r6, 3);
    let acc5 = StoryAcc { passes: Some(d.passes), ..acc4 };
    let q6 = q5 + emit_key("passes"@).len() + emit_bool(d.passes).len() + 2 + ind2;
    // member: acceptance_criteria, the last
    let v6 = emit_str_array(d.criteria, ind2);
    let pv6 = q6 + emit_key("acceptance_criteria"@).len();
    assert(r6 =~= emit_key("acceptance_criteria"@) + (v6 + seq!['\n'] + spaces(ind) + seq!['}']
        + tail));
    lemma_peel(s, q6, emit_key("acceptance_criteria"@), v6 + seq!['\n'] + spaces(ind) + seq!['}']
        + tail);
    assert(v6 + seq!['\n'] + spaces(ind) + seq!['}'] + tail =~= v6 + (seq!['\n'] + spaces(ind)
        + seq!['}'] + tail));
    lemma_str_array_inverse(d.criteria, ind2, s, pv6, seq!['\n'] + spaces(ind) + seq!['}'] + tail);
    let acc6 = StoryAcc { criteria: Some(d.criteria), ..acc5 };
    assert("id"@.len() == 2 && "title"@.len() == 5 && "description"@.len() == 11
        && "priority"@.len() == 8 && "passes"@.len() == 6 && "acceptance_criteria"@.len() == 19);
    assert("acceptance_criteria"@ != "id"@ && "acceptance_criteria"@ != "title"@
        && "acceptance_criteria"@ != "description"@ && "acceptance_criteria"@ != "priority"@
        && "acceptance_criteria"@ != "passes"@);
    assert(story_member_value(s, pv6, acc5, "acceptance_criteria"@) == Some(
        (acc6, pv6 + v6.len()),
    ));
    assert(v6[0] == '[') by {
        if d.criteria.len() == 0 {
            assert(v6[0] == seq!['[', ']'][0]);
        } else {
            assert(v6[0] == (seq!['[', '\n'] + spaces((ind2 + 2) as nat))[0]);
        }
    }
    assert(!is_ws(v6[0]));
    lemma_story_member_last(s, q6, acc5, "acceptance_criteria"@, v6, acc6, ind, tail, 2);
    let fin = q6 + emit_key("acceptance_criteria"@).len() + v6.len() + 1 + ind + 1;
    assert(story_members(s, q4, acc3, 4) == story_finish(acc6, fin));
    let dd = StoryData {
        id: d.id,
        title: d.title,
        description: d.description,
        priority: d.priority,
        passes: d.passes,
        criteria: d.criteria,
    };
    assert(story_finish(acc6, fin) == Some((dd, fin)));
    assert(dd == d);
    assert(fin == s.len() - tail.len());
}

proof fn lemma_assoc3(a: Seq<char>, b: Seq<char>, c: Seq<char>)
    ensures
        (a + b) + c == a + (b + c),
{
    assert((a + b) + c =~= a + (b + c));
}

proof fn lemma_shift2(x: Seq<char>, sp: Seq<char>, q: Seq<char>, rest: Seq<char>)
    ensures
        x + ((sp + q) + rest) == (x + sp) + (q + rest),
{
    assert(x + ((sp + q) + rest) =~= (x + sp) + (q + rest));
}

/// The rendered story followed by anything regroups into the walk's shape:
/// the opening line, then each member run, nested to the right.
#[verifier::rlimit(100)]
proof fn lemma_story_shape(d: StoryData, ind: nat, tail: Seq<char>)
    ensures
        emit_story(d, ind) + tail == (seq!['{', '\n'] + spaces((ind + 2) as nat)) + ((emit_key(
            "id"@,
        ) + emit_string(d.id) + seq![',', '\n'] + spaces((ind + 2) as nat)) + ((emit_key("title"@)
            + emit_string(d.title) + seq![',', '\n'] + spaces((ind + 2) as nat)) + ((emit_key(
            "description"@,
        ) + emit_string(d.description) + seq![',', '\n'] + spaces((ind + 2) as nat)) + ((emit_key(
            "priority"@,
        ) + int_rep(d.priority) + seq![',', '\n'] + spaces((ind + 2) as nat)) + ((emit_key(
            "passes"@,
        ) + emit_bool(d.passes) + seq![',', '\n'] + spaces((ind + 2) as nat)) + (emit_key(
            "acceptance_criteria"@,
        ) + emit_str_array(d.criteria, (ind + 2) as nat) + seq!['\n'] + spaces(ind) + seq!['}']
            + tail)))))),
{
    reveal(emit_story);
    let ind2 = (ind + 2) as nat;
    let sp2 = spaces(ind2);
    let a = seq!['{', '\n'];
    let q1 = emit_key("id"@) + emit_string(d.id) + seq![',', '\n'];
    let q2 = emit_key("title"@) + emit_string(d.title) + seq![',', '\n'];
    let q3 = emit_key("description"@) + emit_string(d.description) + seq![',', '\n'];
    let q4 = emit_key("priority"@) + int_rep(d.priority) + seq![',', '\n'];
    let q5 = emit_key("passes"@) + emit_bool(d.passes) + seq![',', '\n'];
    let q6 = emit_key("acceptance_criteria"@) + emit_str_array(d.criteria, ind2);
    let z = seq!['\n'] + spaces(ind) + seq!['}'];
    let m1 = emit_str_member(ind2, "id"@, d.id);
    let m2 = emit_str_member(ind2, "title"@, d.title);
    let m3 = emit_str_member(ind2, "description"@, d.description);
    let m4 = sp2 + emit_key("priority"@) + int_rep(d.priority) + seq![',', '\n'];
    let m5 = sp2 + emit_key("passes"@) + emit_bool(d.passes) + seq![',', '\n'];
    let m6 = sp2 + emit_key("acceptance_criteria"@) + emit_str_array(d.criteria, ind2);
    assert(m1 =~= sp2 + q1);
    assert(m2 =~= sp2 + q2);
    assert(m3 =~= sp2 + q3);
    assert(m4 =~= sp2 + q4);
    assert(m5 =~= sp2 + q5);
    assert(m6 =~= sp2 + q6);
    assert(emit_story(d, ind) == a + m1 + m2 + m3 + m4 + m5 + m6 + z);
    // nest the units to the right, suffix first
    lemma_assoc3(a + m1 + m2 + m3 + m4 + m5 + m6, z, tail);
    lemma_assoc3(a + m1 + m2 + m3 + m4 + m5, m6, z + tail);
    lemma_assoc3(a + m1 + m2 + m3 + m4, m5, m6 + (z + tail));
    lemma_assoc3(a + m1 + m2 + m3, m4, m5 + (m6 + (z + tail)));
    lemma_assoc3(a + m1 + m2, m3, m4 + (m5 + (m6 + (z + tail))));
    lemma_assoc3(a + m1, m2, m3 + (m4 + (m5 + (m6 + (z + tail)))));
    lemma_assoc3(a, m1, m2 + (m3 + (m4 + (m5 + (m6 + (z + tail))))));
    assert(emit_story(d, ind) + tail == a + ((sp2 + q1) + (m2 + (m3 + (m4 + (m5 + (m6 + (z
        + tail))))))));
    // shift each member's leading indent onto the run before it
    let t6 = z + tail;
    assert(q6 + t6 =~= emit_key("acceptance_criteria"@) + emit_str_array(d.criteria, ind2) + seq![
        '\n',
    ] + spaces(ind) + seq!['}'] + tail);
    let t5 = (sp2 + q6) + t6;
    lemma_shift2(q5, sp2, q6, t6);
    let t4 = (sp2 + q5) + t5;
    lemma_shift2(q4, sp2, q5, t5);
    let t3 = (sp2 + q4) + t4;
    lemma_shift2(q3, sp2, q4, t4);
    let t2 = (sp2 + q3) + t3;
    lemma_shift2(q2, sp2, q3, t3);
    let t1 = (sp2 + q2) + t2;
    lemma_shift2(q1, sp2, q2, t2);
    lemma_shift2(a, sp2, q1, t1);
    assert(m2 + (m3 + (m4 + (m5 + (m6 + t6)))) == t1);
    assert(emit_story(d, ind) + tail == (a + sp2) + (q1 + t1));
    assert(q1 + t1 == (q1 + sp2) + (q2 + t2));
    assert(q2 + t2 == (q2 + sp2) + (q3 + t3));
    assert(q3 + t3 == (q3 + sp2) + (q4 + t4));
    assert(q4 + t4 == (q4 + sp2) + (q5 + t5));
    assert(q5 + t5 == (q5 + sp2) + (q6 + t6));
}


/// One string-valued story member taken whole: the value is parsed back,
/// dispatched into the accumulator, and the run moves to the next key.
#[verifier::rlimit(100)]
proof fn lemma_story_str_member(
    s: Seq<char>,
    q: int,
    acc: StoryAcc,
    sel: int,
    key: Seq<char>,
    v: Seq<char>,
    ind2: nat,
    rest: Seq<char>,
    fuel: nat,
)
    requires
        fuel >= 1,
        0 <= q <= s.len(),
        s.subrange(q, s.len() as int) == emit_key(key) + emit_string(v) + seq![',', '\n'] + spaces(
            ind2,
        ) + rest,
        rest.len() > 0,
        !is_ws(rest[0]),
        sel == 0 || sel == 1 || sel == 2,
        sel == 0 ==> key == "id"@ && acc.id is None,
        sel == 1 ==> key == "title"@ && acc.title is None,
        sel == 2 ==> key == "description"@ && acc.description is None,
    ensures
        story_members(s, q, acc, fuel) == story_members(
            s,
            q + emit_key(key).len() + emit_string(v).len() + 2 + ind2,
            if sel == 0 {
                StoryAcc { id: Some(v), ..acc }
            } else if sel == 1 {
                StoryAcc { title: Some(v), ..acc }
            } else {
                StoryAcc { description: Some(v), ..acc }
            },
            (fuel - 1) as nat,
        ),
        s.subrange(q + emit_key(key).len() + emit_string(v).len() + 2 + ind2, s.len() as int)
            == rest,
{
    reveal_strlit("id");
    reveal_strlit("title");
    reveal_strlit("description");
    let ev = emit_string(v);
    let pv = q + emit_key(key).len();
    assert(emit_key(key) + ev + seq![',', '\n'] + spaces(ind2) + rest =~= emit_key(key) + (ev
        + seq![',', '\n'] + spaces(ind2) + rest));
    lemma_peel(s, q, emit_key(key), ev + seq![',', '\n'] + spaces(ind2) + rest);
    assert(ev + seq![',', '\n'] + spaces(ind2) + rest =~= ev + (seq![',', '\n'] + spaces(ind2)
        + rest));
    lemma_string_inverse(v, s, pv, seq![',', '\n'] + spaces(ind2) + rest);
    let acc2 = if sel == 0 {
        StoryAcc { id: Some(v), ..acc }
    } else if sel == 1 {
        StoryAcc { title: Some(v), ..acc }
    } else {
        StoryAcc { description: Some(v), ..acc }
    };
    assert("id"@.len() == 2 && "title"@.len() == 5 && "description"@.len() == 11);
    assert("title"@ != "id"@ && "description"@ != "id"@ && "description"@ != "title"@);
    assert(parse_string(s, pv) == Some((v, pv + ev.len())));
    if sel == 0 {
        assert(story_member_value(s, pv, acc, key) == Some((acc2, pv + ev.len())));
    } else if sel == 1 {
        assert(key != "id"@);
        assert(story_member_value(s, pv, acc, key) == Some((acc2, pv + ev.len())));
    } else {
        assert(key != "id"@ && key != "title"@);
        assert(story_member_value(s, pv, acc, key) == Some((acc2, pv + ev.len())));
    }
    assert(ev == seq!['"'] + escape(v) + seq!['"']);
    assert(ev[0] == (seq!['"'] + escape(v))[0]);
    assert(ev[0] == '"' && !is_ws(ev[0]));
    lemma_story_member_step(s, q, acc, key, ev, acc2, ind2, rest, fuel);
    assert(emit_key(key) + ev + seq![',', '\n'] + spaces(ind2) + rest =~= (emit_key(key) + ev
        + seq![',', '\n'] + spaces(ind2)) + rest);
    lemma_peel(s, q, emit_key(key) + ev + seq![',', '\n'] + spaces(ind2), rest);
    lemma_spaces(ind2);
    assert((emit_key(key) + ev + seq![',', '\n'] + spaces(ind2)).len() == emit_key(key).len()
        + ev.len() + 2 + ind2);
    assert(story_members(s, q, acc, fuel) == story_members(
        s,
        q + emit_key(key).len() + ev.len() + 2 + ind2,
        acc2,
        (fuel - 1) as nat,
    ));
}

/// Parsing a rendered story object yields the story.
#[verifier::rlimit(100)]
proof fn lemma_story_inverse(d: StoryData, ind: nat, s: Seq<char>, i: int, tail: Seq<char>)
    requires
        0 <= i <= s.len(),
        -2147483648 <= d.priority <= 2147483647,
        s.subrange(i, s.len() as int) == emit_story(d, ind) + tail,
    ensures
        parse_story_obj(s, i) == Some((d, i + emit_story(d, ind).len())),
{
    reveal_strlit("id");
    reveal_strlit("title");
    reveal_strlit("description");
    reveal_strlit("priority");
    reveal_strlit("passes");
    reveal_strlit("acceptance_criteria");
    let ind2 = (ind + 2) as nat;
    lemma_spaces(ind2);
    lemma_spaces(ind);
    let r6 = emit_key("acceptance_criteria"@) + emit_str_array(d.criteria, ind2) + seq!['\n']
        + spaces(ind) + seq!['}'] + tail;
    let r5 = emit_key("passes"@) + emit_bool(d.passes) + seq![',', '\n'] + spaces(ind2) + r6;
    let r4 = emit_key("priority"@) + int_rep(d.priority) + seq![',', '\n'] + spaces(ind2) + r5;
    let r3 = emit_key("description"@) + emit_string(d.description) + seq![',', '\n'] + spaces(ind2)
        + r4;
    let r2 = emit_key("title"@) + emit_string(d.title) + seq![',', '\n'] + spaces(ind2) + r3;
    let r1 = emit_key("id"@) + emit_string(d.id) + seq![',', '\n'] + spaces(ind2) + r2;
    lemma_story_shape(d, ind, tail);
    assert(emit_story(d, ind) + tail == (seq!['{', '\n'] + spaces(ind2)) + r1);
    lemma_peel(s, i, seq!['{', '\n'] + spaces(ind2), r1);
    assert(s[i + 0] == (seq!['{', '\n'] + spaces(ind2))[0]);
    assert(s[i] == '{');
    assert forall|k: int| i + 1 <= k < i + 2 + ind2 implies is_ws(s[k]) by {
        assert(s[i + (k - i)] == (seq!['{', '\n'] + spaces(ind2))[k - i]);
        if k > i + 1 {
            assert((seq!['{', '\n'] + spaces(ind2))[k - i] == spaces(ind2)[k - i - 2]);
        }
    }
    let q1 = i + 2 + ind2;
    assert(s.subrange(q1, s.len() as int)[0] == r1[0]);
    assert(r1[0] == emit_key("id"@)[0]);
    assert(emit_key("id"@)[0] == '"');
    assert(s[q1] == '"' && !is_ws(s[q1]) && s[q1] != '}');
    lemma_skip_ws_pin(s, i + 1, q1);
    let acc0 = story_acc_empty();
    assert(r2[0] == emit_key("title"@)[0] && r2[0] == '"' && !is_ws(r2[0]));
    lemma_story_str_member(s, q1, acc0, 0, "id"@, d.id, ind2, r2, 7);
    let acc1 = StoryAcc { id: Some(d.id), ..acc0 };
    let q2 = q1 + emit_key("id"@).len() + emit_string(d.id).len() + 2 + ind2;
    assert(r3[0] == emit_key("description"@)[0] && r3[0] == '"' && !is_ws(r3[0]));
    lemma_story_str_member(s, q2, acc1, 1, "title"@, d.title, ind2, r3, 6);
    let acc2 = StoryAcc { title: Some(d.title), ..acc1 };
    let q3 = q2 + emit_key("title"@).len() + emit_string(d.title).len() + 2 + ind2;
    assert(r4[0] == emit_key("priority"@)[0] && r4[0] == '"' && !is_ws(r4[0]));
    lemma_story_str_member(s, q3, acc2, 2, "description"@, d.description, ind2, r4, 5);
    let acc3 = StoryAcc { description: Some(d.description), ..acc2 };
    let q4 = q3 + emit_key("description"@).len() + emit_string(d.description).len() + 2 + ind2;
    // members: priority, passes, acceptance_criteria
    assert(s.subrange(q4, s.len() as int) == r4);
    assert(r4 =~= emit_key("priority"@) + int_rep(d.priority) + seq![',', '\n'] + spaces(ind2) + (
        emit_key("passes"@) + emit_bool(d.passes) + seq![',', '\n'] + spaces(ind2) + (emit_key(
            "acceptance_criteria"@,
        ) + emit_str_array(d.criteria, ind2) + seq!['\n'] + spaces(ind) + seq!['}'] + tail)));
    lemma_story_tail(d, ind, s, q4, tail);
    assert(acc3 == StoryAcc {
        id: Some(d.id),
        title: Some(d.title),
        description: Some(d.description),
        priority: None,
        passes: None,
        criteria: None,
    });
    assert(story_members(s, q1, acc0, 7) == Some((d, s.len() - tail.len())));
    assert(s.len() - tail.len() == i + emit_story(d, ind).len());
    assert(parse_story_obj(s, i) == Some((d, i + emit_story(d, ind).len())));
}

/// The first character of a rendered story-array element run is a brace.
proof fn lemma_story_elems_first(items: Seq<StoryData>, ind: nat)
    requires
        items.len() >= 1,
    ensures
        emit_story_elems(items, ind).len() >= 1,
        emit_story_elems(items, ind)[0] == '{',
{
    reveal(emit_story);
    assert(emit_story(items[0], ind)[0] == '{');
}

/// Parsing rendered story-array elements followed by the array close yields
/// the elements.
#[verifier::rlimit(100)]
proof fn lemma_story_items_inverse(
    items: Seq<StoryData>,
    ind: nat,
    ws: nat,
    s: Seq<char>,
    i: int,
    tail: Seq<char>,
)
    requires
        items.len() >= 1,
        0 <= i <= s.len(),
        forall|k: int|
            0 <= k < items.len() ==> -2147483648 <= (#[trigger] items[k]).priority <= 2147483647,
        s.subrange(i, s.len() as int) == emit_story_elems(items, ind) + seq!['\n'] + spaces(ws)
            + seq![']'] + tail,
    ensures
        parse_story_items(s, i) == Some(
            (items, i + emit_story_elems(items, ind).len() + 1 + ws + 1),
        ),
    decreases items.len(),
{
    lemma_spaces(ws);
    if items.len() == 1 {
        let close = seq!['\n'] + spaces(ws) + seq![']'] + tail;
        assert(emit_story_elems(items, ind) + seq!['\n'] + spaces(ws) + seq![']'] + tail
            =~= emit_story(items[0], ind) + close);
        lemma_story_inverse(items[0], ind, s, i, close);
        lemma_peel(s, i, emit_story(items[0], ind), close);
        let p1 = i + emit_story(items[0], ind).len();
        assert(close =~= (seq!['\n'] + spaces(ws)) + (seq![']'] + tail));
        lemma_peel(s, p1, seq!['\n'] + spaces(ws), seq![']'] + tail);
        assert forall|k: int| p1 <= k < p1 + 1 + ws implies is_ws(s[k]) by {
            assert(s[p1 + (k - p1)] == (seq!['\n'] + spaces(ws))[k - p1]);
            if k > p1 {
                assert((seq!['\n'] + spaces(ws))[k - p1] == spaces(ws)[k - p1 - 1]);
            }
        }
        let p2 = p1 + 1 + ws;
        assert(s.subrange(p2, s.len() as int)[0] == (seq![']'] + tail)[0]);
        assert(s[p2] == ']');
        lemma_skip_ws_pin(s, p1, p2);
        assert(seq![items[0]] =~= items);
    } else {
        lemma_spaces(ind);
        let rest_elems = emit_story_elems(items.drop_first(), ind);
        let close = seq!['\n'] + spaces(ws) + seq![']'] + tail;
        assert(emit_story_elems(items, ind) == emit_story(items[0], ind) + seq![',', '\n'] + spaces(
            ind,
        ) + rest_elems);
        let after0 = seq![',', '\n'] + spaces(ind) + rest_elems + close;
        assert(emit_story_elems(items, ind) + seq!['\n'] + spaces(ws) + seq![']'] + tail
            =~= emit_story(items[0], ind) + after0);
        lemma_story_inverse(items[0], ind, s, i, after0);
        lemma_peel(s, i, emit_story(items[0], ind), after0);
        let p1 = i + emit_story(items[0], ind).len();
        assert(after0 =~= seq![','] + ((seq!['\n'] + spaces(ind)) + (rest_elems + close)));
        lemma_peel(s, p1, seq![','], (seq!['\n'] + spaces(ind)) + (rest_elems + close));
        assert(s[p1 + 0] == seq![','][0]);
        assert(s[p1] == ',');
        assert(!is_ws(s[p1]));
        lemma_skip_ws_pin(s, p1, p1);
        lemma_peel(s, p1 + 1, seq!['\n'] + spaces(ind), rest_elems + close);
        assert forall|k: int| p1 + 1 <= k < p1 + 2 + ind implies is_ws(s[k]) by {
            assert(s[p1 + 1 + (k - p1 - 1)] == (seq!['\n'] + spaces(ind))[k - p1 - 1]);
            if k > p1 + 1 {
                assert((seq!['\n'] + spaces(ind))[k - p1 - 1] == spaces(ind)[k - p1 - 2]);
            }
        }
        let nx = p1 + 2 + ind;
        lemma_story_elems_first(items.drop_first(), ind);
        assert(s.subrange(nx, s.len() as int)[0] == (rest_elems + close)[0]);
        assert(s[nx] == '{');
        assert(!is_ws(s[nx]));
        lemma_skip_ws_pin(s, p1 + 1, nx);
        assert(s.subrange(nx, s.len() as int) =~= rest_elems + seq!['\n'] + spaces(ws) + seq![']']
            + tail);
        let dropped = items.drop_first();
        assert forall|k: int|
            0 <= k < dropped.len() implies -2147483648 <= (#[trigger] dropped[k]).priority
            <= 2147483647 by {
            assert(dropped[k] == items[k + 1]);
        }
        lemma_story_items_inverse(items.drop_first(), ind, ws, s, nx, tail);
        assert(seq![items[0]] + items.drop_first() =~= items);
    }
}

/// Parsing a rendered story array yields the stories.
#[verifier::rlimit(100)]
proof fn lemma_stories_inverse(
    items: Seq<StoryData>,
    ind: nat,
    s: Seq<char>,
    i: int,
    tail: Seq<char>,
)
    requires
        0 <= i <= s.len(),
        forall|k: int|
            0 <= k < items.len() ==> -2147483648 <= (#[trigger] items[k]).priority <= 2147483647,
        s.subrange(i, s.len() as int) == emit_stories(items, ind) + tail,
    ensures
        parse_story_array(s, i) == Some((items, i + emit_stories(items, ind).len())),
{
    if items.len() == 0 {
        assert(emit_stories(items, ind) + tail =~= seq!['[', ']'] + tail);
        lemma_peel(s, i, seq!['[', ']'], tail);
        assert(s[i + 0] == seq!['[', ']'][0] && s[i + 1] == seq!['[', ']'][1]);
        assert(s[i] == '[' && s[i + 1] == ']');
        assert(!is_ws(s[i + 1]));
        lemma_skip_ws_pin(s, i + 1, i + 1);
        assert(items =~= Seq::<StoryData>::empty());
    } else {
        lemma_spaces((ind + 2) as nat);
        lemma_spaces(ind);
        let elems = emit_story_elems(items, (ind + 2) as nat);
        let open = seq!['[', '\n'] + spaces((ind + 2) as nat);
        let close_tail = elems + seq!['\n'] + spaces(ind) + seq![']'] + tail;
        assert(emit_stories(items, ind) + tail =~= open + close_tail);
        lemma_peel(s, i, open, close_tail);
        assert(s[i + 0] == open[0]);
        assert(s[i] == '[');
        assert forall|k: int| i + 1 <= k < i + 2 + ind + 2 implies is_ws(s[k]) by {
            assert(s[i + (k - i)] == open[k - i]);
            if k > i + 1 {
                assert(open[k - i] == spaces((ind + 2) as nat)[k - i - 2]);
            }
        }
        let j = i + 2 + ind + 2;
        lemma_story_elems_first(items, (ind + 2) as nat);
        assert(s.subrange(j, s.len() as int) == close_tail);
        assert(s.subrange(j, s.len() as int)[0] == close_tail[0]);
        assert(s[j] == elems[0]);
        assert(s[j] == '{');
        assert(!is_ws(s[j]));
        lemma_skip_ws_pin(s, i + 1, j);
        assert(s[j] != ']');
        assert(s.subrange(j, s.len() as int) =~= elems + seq!['\n'] + spaces(ind) + seq![']']
            + tail);
        lemma_story_items_inverse(items, (ind + 2) as nat, ind, s, j, tail);
        assert(emit_stories(items, ind).len() == 2 + ind + 2 + elems.len() + 1 + ind + 1);
    }
}

/// The first document member, the workstream label: the run moves past it to
/// the second key.
#[verifier::rlimit(100)]
proof fn lemma_prd_branch_member(d: PrdData, s: Seq<char>, q: int, rest: Seq<char>, fuel: nat)
    requires
        fuel >= 1,
        0 <= q <= s.len(),
        s.subrange(q, s.len() as int) == emit_key("branchName"@) + emit_string(d.branch) + seq![
            ',',
            '\n',
        ] + spaces(2) + rest,
        rest.len() > 0,
        !is_ws(rest[0]),
    ensures
        prd_members(s, q, prd_acc_empty(), fuel) == prd_members(
            s,
            q + emit_key("branchName"@).len() + emit_string(d.branch).len() + 4,
            PrdAcc { branch: Some(d.branch), stories: None },
            (fuel - 1) as nat,
        ),
        s.subrange(
            q + emit_key("branchName"@).len() + emit_string(d.branch).len() + 4,
            s.len() as int,
        ) == rest,
{
    lemma_spaces(2);
    let key = "branchName"@;
    let ev = emit_string(d.branch);
    let pv = q + emit_key(key).len();
    assert(emit_key(key) + ev + seq![',', '\n'] + spaces(2) + rest =~= emit_string(key) + (seq![
        ':',
        ' ',
    ] + ev + seq![',', '\n'] + spaces(2) + rest));
    lemma_string_inverse(key, s, q, seq![':', ' '] + ev + seq![',', '\n'] + spaces(2) + rest);
    lemma_peel(s, q, emit_string(key), seq![':', ' '] + ev + seq![',', '\n'] + spaces(2) + rest);
    let pk = q + emit_string(key).len();
    assert(seq![':', ' '] + ev + seq![',', '\n'] + spaces(2) + rest =~= seq![':', ' '] + (ev
        + seq![',', '\n'] + spaces(2) + rest));
    lemma_peel(s, pk, seq![':', ' '], ev + seq![',', '\n'] + spaces(2) + rest);
    assert(s[pk + 0] == seq![':', ' '][0] && s[pk + 1] == seq![':', ' '][1]);
    assert(s[pk] == ':' && !is_ws(s[pk]) && is_ws(s[pk + 1]));
    lemma_skip_ws_pin(s, pk, pk);
    assert(ev + seq![',', '\n'] + spaces(2) + rest =~= ev + (seq![',', '\n'] + spaces(2) + rest));
    assert(s.subrange(pv, s.len() as int)[0] == (ev + (seq![',', '\n'] + spaces(2) + rest))[0]);
    assert(ev[0] == (seq!['"'] + escape(d.branch))[0]);
    assert(ev[0] == '"' && s[pv] == '"' && !is_ws(s[pv]));
    lemma_skip_ws_pin(s, pk + 1, pv);
    lemma_string_inverse(d.branch, s, pv, seq![',', '\n'] + spaces(2) + rest);
    let acc1 = PrdAcc { branch: Some(d.branch), stories: None };
    assert(prd_member_value(s, pv, prd_acc_empty(), key) == Some((acc1, pv + ev.len())));
    let p4 = pv + ev.len();
    lemma_peel(s, pv, ev, seq![',', '\n'] + spaces(2) + rest);
    assert(seq![',', '\n'] + spaces(2) + rest =~= seq![','] + ((seq!['\n'] + spaces(2)) + rest));
    lemma_peel(s, p4, seq![','], (seq!['\n'] + spaces(2)) + rest);
    assert(s[p4 + 0] == seq![','][0]);
    assert(s[p4] == ',' && !is_ws(s[p4]));
    lemma_skip_ws_pin(s, p4, p4);
    lemma_peel(s, p4 + 1, seq!['\n'] + spaces(2), rest);
    assert forall|k: int| p4 + 1 <= k < p4 + 4 implies is_ws(s[k]) by {
        assert(s[p4 + 1 + (k - p4 - 1)] == (seq!['\n'] + spaces(2))[k - p4 - 1]);
        if k > p4 + 1 {
            assert((seq!['\n'] + spaces(2))[k - p4 - 1] == spaces(2)[k - p4 - 2]);
        }
    }
    let nx = p4 + 4;
    assert(s.subrange(nx, s.len() as int)[0] == rest[0]);
    assert(!is_ws(s[nx]));
    lemma_skip_ws_pin(s, p4 + 1, nx);
    assert(prd_acc_empty().branch is None);
}

/// The second and last document member, the story list: the members end in
/// `prd_finish`.
#[verifier::rlimit(100)]
proof fn lemma_prd_stories_member(d: PrdData, s: Seq<char>, q: int, tail: Seq<char>, fuel: nat)
    requires
        fuel >= 1,
        0 <= q <= s.len(),
        forall|k: int|
            0 <= k < d.stories.len() ==> -2147483648 <= (#[trigger] d.stories[k]).priority
                <= 2147483647,
        s.subrange(q, s.len() as int) == emit_key("stories"@) + emit_stories(d.stories, 2) + seq![
            '\n',
            '}',
        ] + tail,
    ensures
        prd_members(s, q, PrdAcc { branch: Some(d.branch), stories: None }, fuel) == Some(
            (d, s.len() - tail.len()),
        ),
{
    reveal_strlit("branchName");
    reveal_strlit("stories");
    let acc1 = PrdAcc { branch: Some(d.branch), stories: None };
    let key = "stories"@;
    let ev = emit_stories(d.stories, 2);
    let pv = q + emit_key(key).len();
    assert(emit_key(key) + ev + seq!['\n', '}'] + tail =~= emit_string(key) + (seq![':', ' '] + ev
        + seq!['\n', '}'] + tail));
    lemma_string_inverse(key, s, q, seq![':', ' '] + ev + seq!['\n', '}'] + tail);
    lemma_peel(s, q, emit_string(key), seq![':', ' '] + ev + seq!['\n', '}'] + tail);
    let pk = q + emit_string(key).len();
    assert(seq![':', ' '] + ev + seq!['\n', '}'] + tail =~= seq![':', ' '] + (ev + seq!['\n', '}']
        + tail));
    lemma_peel(s, pk, seq![':', ' '], ev + seq!['\n', '}'] + tail);
    assert(s[pk + 0] == seq![':', ' '][0] && s[pk + 1] == seq![':', ' '][1]);
    assert(s[pk] == ':' && !is_ws(s[pk]) && is_ws(s[pk + 1]));
    lemma_skip_ws_pin(s, pk, pk);
    assert(ev + seq!['\n', '}'] + tail =~= ev + (seq!['\n', '}'] + tail));
    assert(s.subrange(pv, s.len() as int)[0] == (ev + (seq!['\n', '}'] + tail))[0]);
    assert(ev[0] == '[') by {
        if d.stories.len() == 0 {
            assert(ev[0] == seq!['[', ']'][0]);
        } else {
            assert(ev[0] == (seq!['[', '\n'] + spaces(4))[0]);
        }
    }
    assert(s[pv] == '[' && !is_ws(s[pv]));
    lemma_skip_ws_pin(s, pk + 1, pv);
    lemma_stories_inverse(d.stories, 2, s, pv, seq!['\n', '}'] + tail);
    let acc2 = PrdAcc { branch: Some(d.branch), stories: Some(d.stories) };
    assert("branchName"@.len() == 10 && "stories"@.len() == 7);
    assert(key != "branchName"@);
    assert(prd_member_value(s, pv, acc1, key) == Some((acc2, pv + ev.len())));
    let p4 = pv + ev.len();
    lemma_peel(s, pv, ev, seq!['\n', '}'] + tail);
    assert(seq!['\n', '}'] + tail =~= seq!['\n'] + (seq!['}'] + tail));
    lemma_peel(s, p4, seq!['\n'], seq!['}'] + tail);
    assert(s[p4 + 0] == seq!['\n'][0]);
    assert(is_ws(s[p4]));
    lemma_peel(s, p4 + 1, seq!['}'], tail);
    assert(s[p4 + 1 + 0] == seq!['}'][0]);
    assert(s[p4 + 1] == '}' && !is_ws(s[p4 + 1]) && s[p4 + 1] != ',');
    lemma_skip_ws_pin(s, p4, p4 + 1);
    let dd = PrdData { branch: d.branch, stories: d.stories };
    assert(prd_finish(acc2, p4 + 2) == Some((dd, p4 + 2)));
    assert(dd == d);
    assert(p4 + 2 == s.len() - tail.len());
}

/// The rendered document followed by anything regroups into the walk's
/// shape.
#[verifier::rlimit(100)]
proof fn lemma_doc_shape(d: PrdData, tail: Seq<char>)
    ensures
        emit_doc(d) + tail == (seq!['{', '\n'] + spaces(2)) + ((emit_key("branchName"@)
            + emit_string(d.branch) + seq![',', '\n'] + spaces(2)) + (emit_key("stories"@)
            + emit_stories(d.stories, 2) + seq!['\n', '}'] + tail)),
{
    reveal(emit_doc);
    assert(emit_doc(d) + tail =~= (seq!['{', '\n'] + spaces(2)) + ((emit_key("branchName"@)
        + emit_string(d.branch) + seq![',', '\n'] + spaces(2)) + (emit_key("stories"@)
        + emit_stories(d.stories, 2) + seq!['\n', '}'] + tail)));
}

/// Parsing a rendered document object yields the document.
#[verifier::rlimit(100)]
proof fn lemma_doc_inverse(d: PrdData, s: Seq<char>, i: int, tail: Seq<char>)
    requires
        0 <= i <= s.len(),
        forall|k: int|
            0 <= k < d.stories.len() ==> -2147483648 <= (#[trigger] d.stories[k]).priority
                <= 2147483647,
        s.subrange(i, s.len() as int) == emit_doc(d) + tail,
    ensures
        parse_prd_obj(s, i) == Some((d, i + emit_doc(d).len())),
{
    lemma_spaces(2);
    let r2 = emit_key("stories"@) + emit_stories(d.stories, 2) + seq!['\n', '}'] + tail;
    let r1 = (emit_key("branchName"@) + emit_string(d.branch) + seq![',', '\n'] + spaces(2)) + r2;
    lemma_doc_shape(d, tail);
    assert(emit_doc(d) + tail == (seq!['{', '\n'] + spaces(2)) + r1);
    lemma_peel(s, i, seq!['{', '\n'] + spaces(2), r1);
    assert(s[i + 0] == (seq!['{', '\n'] + spaces(2))[0]);
    assert(s[i] == '{');
    assert forall|k: int| i + 1 <= k < i + 4 implies is_ws(s[k]) by {
        assert(s[i + (k - i)] == (seq!['{', '\n'] + spaces(2))[k - i]);
        if k > i + 1 {
            assert((seq!['{', '\n'] + spaces(2))[k - i] == spaces(2)[k - i - 2]);
        }
    }
    let q1 = i + 4;
    assert(s.subrange(q1, s.len() as int)[0] == r1[0]);
    assert(r1[0] == emit_key("branchName"@)[0]);
    assert(emit_key("branchName"@)[0] == '"');
    assert(s[q1] == '"' && !is_ws(s[q1]) && s[q1] != '}');
    lemma_skip_ws_pin(s, i + 1, q1);
    assert(r1 =~= emit_key("branchName"@) + emit_string(d.branch) + seq![',', '\n'] + spaces(2)
        + r2);
    assert(r2[0] == emit_key("stories"@)[0] && r2[0] == '"' && !is_ws(r2[0]));
    lemma_prd_branch_member(d, s, q1, r2, 3);
    let q2 = q1 + emit_key("branchName"@).len() + emit_string(d.branch).len() + 4;
    lemma_prd_stories_member(d, s, q2, tail, 2);
    assert(prd_members(s, q1, prd_acc_empty(), 3) == Some((d, s.len() - tail.len())));
    assert(s.len() - tail.len() == i + emit_doc(d).len());
    assert(parse_prd_obj(s, i) == Some((d, i + emit_doc(d).len())));
}

/// Law (round trip): rendering a document and parsing the result yields the
/// document unchanged, whatever its content.
pub proof fn lemma_round_trip(d: PrdData)
    requires
        forall|k: int|
            0 <= k < d.stories.len() ==> -2147483648 <= (#[trigger] d.stories[k]).priority
                <= 2147483647,
    ensures
        parse_document(emit_doc(d)) == Some(d),
{
    let s = emit_doc(d);
    assert(s.subrange(0, s.len() as int) =~= emit_doc(d) + Seq::<char>::empty());
    lemma_doc_inverse(d, s, 0, Seq::empty());
    lemma_spaces(2);
    lemma_doc_shape(d, Seq::empty());
    let a = seq!['{', '\n'] + spaces(2);
    let b = (emit_key("branchName"@) + emit_string(d.branch) + seq![',', '\n'] + spaces(2)) + (
    emit_key("stories"@) + emit_stories(d.stories, 2) + seq!['\n', '}'] + Seq::<char>::empty());
    lemma_peel(s, 0, a, b);
    let z: int = 0;
    assert(s[z + 0] == a[0]);
    assert(s[z] == '{' && !is_ws(s[z]));
    lemma_skip_ws_pin(s, 0, 0);
    lemma_skip_ws_pin(s, s.len() as int, s.len() as int);
}

/// Law (round trip, at the executable types): when parsing the rendering of
/// document `p` yields document `q` — which `lemma_round_trip_prd` shows it
/// does — the two documents are equal field by field.
pub proof fn lemma_round_trip_like(p: Prd, q: Prd)
    requires
        parse_document(emit_doc(prd_data(p))) == Some(prd_data(q)),
    ensures
        crate::types::prd_like(p, q),
{
    lemma_round_trip_prd(p);
    let dp = prd_data(p);
    let dq = prd_data(q);
    assert(dp == dq);
    assert(dp.stories.len() == p.stories@.len());
    assert(dq.stories.len() == q.stories@.len());
    assert(p.stories@.len() == q.stories@.len());
    assert forall|i: int| 0 <= i < p.stories@.len() implies crate::types::story_like(
        #[trigger] p.stories@[i],
        q.stories@[i],
    ) by {
        assert(dp.stories[i] == story_data(p.stories@[i]));
        assert(dq.stories[i] == story_data(q.stories@[i]));
        let a = p.stories@[i];
        let b = q.stories@[i];
        assert(story_data(a) == story_data(b));
        let fa = a.acceptance_criteria@.map_values(|c: String| c@);
        let fb = b.acceptance_criteria@.map_values(|c: String| c@);
        assert(story_data(a).criteria == fa);
        assert(story_data(b).criteria == fb);
        assert(fa.len() == a.acceptance_criteria@.len());
        assert(fb.len() == b.acceptance_criteria@.len());
        assert forall|k: int|
            0 <= k < a.acceptance_criteria@.len() implies a.acceptance_criteria@[k]@
            == (#[trigger] b.acceptance_criteria@[k])@ by {
            assert(fa[k] == a.acceptance_criteria@[k]@);
            assert(fb[k] == b.acceptance_criteria@[k]@);
            assert(fa[k] == fb[k]);
        }
    }
}

/// Law (round trip): any task document value, rendered and parsed back, is
/// unchanged.
pub proof fn lemma_round_trip_prd(p: Prd)
    ensures
        parse_document(emit_doc(prd_data(p))) == Some(prd_data(p)),
{
    let d = prd_data(p);
    assert forall|k: int|
        0 <= k < d.stories.len() implies -2147483648 <= (#[trigger] d.stories[k]).priority
        <= 2147483647 by {
        assert(d.stories[k] == story_data(p.stories@[k]));
    }
    lemma_round_trip(d);
}

/// Parses the whole text as one task document, strictly against the schema:
/// `Ok` holds exactly when `parse_document` accepts the text, and the
/// returned document's content is exactly what it yields.
pub fn parse_prd(s: &str) -> (r: Result<Prd, ParseError>)
    ensures
        match r {
            Ok(p) => parse_document(s@) == Some(prd_data(p)),
            Err(e) => parse_document(s@) is None,
        },
{
    let v = str_to_chars(s);
    let start = skip_ws_exec(&v, 0);
    match parse_prd_obj_exec(&v, start) {
        None => {
            let mut m = String::new();
            m.append("text does not hold a task document object");
            Err(ParseError { message: m })
        },
        Some((p, pos)) => {
            let end = skip_ws_exec(&v, pos);
            if end == v.len() {
                Ok(p)
            } else {
                let mut m = String::new();
                m.append("trailing characters after the task document");
                Err(ParseError { message: m })
            }
        },
    }
}

} // verus!

