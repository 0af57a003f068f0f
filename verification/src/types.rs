//! The task document: an ordered list of stories with priorities and
//! completion flags, its validity invariants, and the scheduler that picks
//! the next story to work on.

use vstd::prelude::*;

use crate::text::{dec_rep, i32_to_string, int_rep, u64_to_string};

verus! {

/// One unit of work: a story with acceptance criteria and a completion flag.
#[derive(Debug, Clone)]
pub struct Story {
    pub id: String,
    pub title: String,
    pub description: String,
    pub priority: i32,
    pub passes: bool,
    pub acceptance_criteria: Vec<String>,
}

/// The persisted task document: a label naming the workstream, and at least
/// one story (when valid).
#[derive(Debug)]
pub struct Prd {
    pub branch_name: String,
    pub stories: Vec<Story>,
}

/// Field-by-field equality of stories, by character content.
pub open spec fn story_like(a: Story, b: Story) -> bool {
    &&& a.id@ == b.id@
    &&& a.title@ == b.title@
    &&& a.description@ == b.description@
    &&& a.priority == b.priority
    &&& a.passes == b.passes
    &&& a.acceptance_criteria@.len() == b.acceptance_criteria@.len()
    &&& forall|i: int|
        0 <= i < a.acceptance_criteria@.len() ==> a.acceptance_criteria@[i]@
            == #[trigger] b.acceptance_criteria@[i]@
}

/// Field-by-field equality of documents, by character content.
pub open spec fn prd_like(a: Prd, b: Prd) -> bool {
    &&& a.branch_name@ == b.branch_name@
    &&& a.stories@.len() == b.stories@.len()
    &&& forall|i: int| 0 <= i < a.stories@.len() ==> story_like(#[trigger] a.stories@[i], b.stories@[i])
}

/// A story meets the per-story invariants: non-empty id, title, description
/// and criteria, and a positive priority.
pub open spec fn story_wf(s: Story) -> bool {
    &&& s.id@.len() > 0
    &&& s.title@.len() > 0
    &&& s.description@.len() > 0
    &&& s.priority > 0
    &&& s.acceptance_criteria@.len() > 0
}

/// Story ids are pairwise distinct.
pub open spec fn unique_ids(stories: Seq<Story>) -> bool {
    forall|i: int, j: int|
        0 <= i < j < stories.len() ==> (#[trigger] stories[i].id)@ != (#[trigger] stories[j].id)@
}

/// The document invariants: non-empty label, at least one story, every story
/// well-formed, ids unique.
pub open spec fn prd_valid(p: Prd) -> bool {
    &&& p.branch_name@.len() > 0
    &&& p.stories@.len() > 0
    &&& forall|i: int| 0 <= i < p.stories@.len() ==> story_wf(#[trigger] p.stories@[i])
    &&& unique_ids(p.stories@)
}

/// The index the scheduler picks among `stories[i..]`: the first, in
/// document order, of minimum priority among those not yet done; `None`
/// exactly when every story in the range is done.
pub open spec fn sel_from(stories: Seq<Story>, i: int) -> Option<int>
    decreases stories.len() - i,
{
    if i < 0 || i >= stories.len() {
        None
    } else {
        let rest = sel_from(stories, i + 1);
        if !stories[i].passes {
            match rest {
                Some(j) => if stories[j].priority < stories[i].priority {
                    Some(j)
                } else {
                    Some(i)
                },
                None => Some(i),
            }
        } else {
            rest
        }
    }
}

/// What `sel_from` picks: a pending story of minimum priority, the first
/// such in document order; or nothing when all are done.
pub proof fn lemma_sel_from_props(stories: Seq<Story>, i: int)
    requires
        0 <= i <= stories.len(),
    ensures
        match sel_from(stories, i) {
            None => forall|k: int| i <= k < stories.len() ==> (#[trigger] stories[k]).passes,
            Some(j) => {
                &&& i <= j < stories.len()
                &&& !stories[j].passes
                &&& forall|k: int|
                    i <= k < stories.len() && !(#[trigger] stories[k]).passes
                        ==> stories[j].priority <= stories[k].priority
                &&& forall|k: int|
                    i <= k < j && !(#[trigger] stories[k]).passes
                        ==> stories[j].priority < stories[k].priority
            },
        },
    decreases stories.len() - i,
{
    if i < stories.len() {
        lemma_sel_from_props(stories, i + 1);
    }
}

impl Prd {
    /// Index of the story the scheduler picks: the first story, in document
    /// order, of minimum priority among those not yet done (that is,
    /// `sel_from` over the whole list); `None` exactly when every story is
    /// done.
    pub fn next_story_index(&self) -> (r: Option<usize>)
        ensures
            match r {
                None => forall|i: int| 0 <= i < self.stories@.len() ==> (#[trigger] self.stories@[i]).passes,
                Some(j) => {
                    &&& 0 <= j < self.stories@.len()
                    &&& !self.stories@[j as int].passes
                    &&& forall|i: int|
                        0 <= i < self.stories@.len() && !(#[trigger] self.stories@[i]).passes
                            ==> self.stories@[j as int].priority <= self.stories@[i].priority
                    &&& forall|i: int|
                        0 <= i < j && !(#[trigger] self.stories@[i]).passes
                            ==> self.stories@[j as int].priority < self.stories@[i].priority
                },
            },
            match r {
                None => sel_from(self.stories@, 0) is None,
                Some(j) => sel_from(self.stories@, 0) == Some(j as int),
            },
    {
        let n = self.stories.len();
        let mut best: Option<usize> = None;
        let mut i: usize = 0;
        while i < n
            invariant
                0 <= i <= n == self.stories@.len(),
                match best {
                    None => forall|k: int| 0 <= k < i ==> (#[trigger] self.stories@[k]).passes,
                    Some(j) => {
                        &&& 0 <= j < i
                        &&& !self.stories@[j as int].passes
                        &&& forall|k: int|
                            0 <= k < i && !(#[trigger] self.stories@[k]).passes
                                ==> self.stories@[j as int].priority <= self.stories@[k].priority
                        &&& forall|k: int|
                            0 <= k < j && !(#[trigger] self.stories@[k]).passes
                                ==> self.stories@[j as int].priority < self.stories@[k].priority
                    },
                },
            decreases n - i,
        {
            if !self.stories[i].passes {
                match best {
                    None => {
                        best = Some(i);
                    },
                    Some(j) => {
                        if self.stories[i].priority < self.stories[j].priority {
                            best = Some(i);
                        }
                    },
                }
            }
            i = i + 1;
        }
        proof {
            lemma_sel_from_props(self.stories@, 0);
            match best {
                None => {
                    match sel_from(self.stories@, 0) {
                        Some(j2) => {
                            assert(!self.stories@[j2].passes);
                            assert(false);
                        },
                        None => {},
                    }
                },
                Some(j) => {
                    match sel_from(self.stories@, 0) {
                        None => {
                            assert(self.stories@[j as int].passes);
                            assert(false);
                        },
                        Some(j2) => {
                            if j < j2 {
                                assert(self.stories@[j2].priority < self.stories@[j as int].priority);
                                assert(self.stories@[j as int].priority <= self.stories@[j2].priority);
                                assert(false);
                            } else if j2 < j {
                                assert(self.stories@[j as int].priority < self.stories@[j2].priority);
                                assert(self.stories@[j2].priority <= self.stories@[j as int].priority);
                                assert(false);
                            }
                        },
                    }
                },
            }
        }
        best
    }

    /// The story the scheduler picks (see `next_story_index`), or `None`
    /// exactly when every story is done.
    pub fn get_next_story(&self) -> (r: Option<&Story>)
        ensures
            match r {
                None => forall|i: int| 0 <= i < self.stories@.len() ==> (#[trigger] self.stories@[i]).passes,
                Some(s) => exists|j: int|
                    {
                        &&& 0 <= j < self.stories@.len()
                        &&& *s == self.stories@[j]
                        &&& !self.stories@[j].passes
                        &&& forall|i: int|
                            0 <= i < self.stories@.len() && !(#[trigger] self.stories@[i]).passes
                                ==> self.stories@[j].priority <= self.stories@[i].priority
                        &&& forall|i: int|
                            0 <= i < j && !(#[trigger] self.stories@[i]).passes
                                ==> self.stories@[j].priority < self.stories@[i].priority
                    },
            },
    {
        match self.next_story_index() {
            None => None,
            Some(j) => {
                let s = &self.stories[j];
                proof {
                    assert(0 <= j < self.stories@.len() && *s == self.stories@[j as int]
                        && !self.stories@[j as int].passes);
                }
                Some(s)
            },
        }
    }
}

/// A rejected document, with the reason spelled out.
#[derive(Debug)]
pub struct ValidationError {
    pub message: String,
}

/// The message for the first violation in story `s` at index `idx`, checked
/// in the same order the validator checks them; duplicates are reported at
/// the second occurrence.
pub open spec fn story_issue(s: Story, idx: int, earlier: Seq<Story>) -> Option<Seq<char>> {
    if s.id@.len() == 0 {
        Some("Story at index "@ + dec_rep(idx as nat) + " has empty ID"@)
    } else if s.title@.len() == 0 {
        Some("Story "@ + s.id@ + " has empty title"@)
    } else if s.description@.len() == 0 {
        Some("Story "@ + s.id@ + " has empty description"@)
    } else if s.priority <= 0 {
        Some("Story "@ + s.id@ + " has invalid priority: "@ + int_rep(s.priority as int))
    } else if s.acceptance_criteria@.len() == 0 {
        Some("Story "@ + s.id@ + " has no acceptance criteria"@)
    } else if exists|k: int| 0 <= k < earlier.len() && (#[trigger] earlier[k].id)@ == s.id@ {
        Some("Duplicate story ID: "@ + s.id@)
    } else {
        None
    }
}

/// The first violation among `stories[idx..]`, if any.
pub open spec fn stories_issue(stories: Seq<Story>, idx: int) -> Option<Seq<char>>
    decreases stories.len() - idx,
{
    if idx < 0 || idx >= stories.len() {
        None
    } else {
        match story_issue(stories[idx], idx, stories.take(idx)) {
            Some(m) => Some(m),
            None => stories_issue(stories, idx + 1),
        }
    }
}

/// The message `validate_prd` rejects `p` with, if any.
pub open spec fn validation_issue(p: Prd) -> Option<Seq<char>> {
    if p.branch_name@.len() == 0 {
        Some("Branch name cannot be empty"@)
    } else if p.stories@.len() == 0 {
        Some("PRD must contain at least one story"@)
    } else {
        stories_issue(p.stories@, 0)
    }
}

/// True of the ids seen in `stories[..idx]` and no others.
proof fn lemma_no_issue_so_far(stories: Seq<Story>, idx: int)
    requires
        0 <= idx <= stories.len(),
        forall|i: int| 0 <= i < idx ==> story_issue(#[trigger] stories[i], i, stories.take(i)) is None,
    ensures
        stories_issue(stories, 0) == stories_issue(stories, idx),
    decreases idx,
{
    if idx > 0 {
        lemma_no_issue_so_far(stories, idx - 1);
        assert(story_issue(stories[idx - 1], idx - 1, stories.take(idx - 1)) is None);
    }
}

/// Whether some story among `stories[..upto]` already carries `id`.
fn id_among(stories: &Vec<Story>, upto: usize, id: &String) -> (r: bool)
    requires
        upto <= stories@.len(),
    ensures
        r == exists|k: int| 0 <= k < upto && (#[trigger] stories@[k].id)@ == id@,
{
    let mut k: usize = 0;
    while k < upto
        invariant
            0 <= k <= upto <= stories@.len(),
            forall|k2: int| 0 <= k2 < k ==> (#[trigger] stories@[k2].id)@ != id@,
        decreases upto - k,
    {
        if stories[k].id.eq(id) {
            return true;
        }
        k = k + 1;
    }
    false
}

/// Checks the document invariants, reporting the first violation in document
/// order: accepted exactly when `prd_valid` holds.
pub fn validate_prd(prd: &Prd) -> (r: Result<(), ValidationError>)
    ensures
        r is Ok <==> prd_valid(*prd),
        r matches Err(e) ==> Some(e.message@) == validation_issue(*prd),
{
    if prd.branch_name.as_str().is_empty() {
        let mut m = String::new();
        m.append("Branch name cannot be empty");
        proof {
            assert(m@ =~= "Branch name cannot be empty"@);
        }
        return Err(ValidationError { message: m });
    }
    if prd.stories.len() == 0 {
        let mut m = String::new();
        m.append("PRD must contain at least one story");
        proof {
            assert(m@ =~= "PRD must contain at least one story"@);
        }
        return Err(ValidationError { message: m });
    }
    let n = prd.stories.len();
    let mut i: usize = 0;
    while i < n
        invariant
            0 <= i <= n == prd.stories@.len(),
            prd.branch_name@.len() > 0,
            prd.stories@.len() > 0,
            forall|k: int|
                0 <= k < i ==> story_issue(#[trigger] prd.stories@[k], k, prd.stories@.take(k)) is None,
            forall|k: int| 0 <= k < i ==> story_wf(#[trigger] prd.stories@[k]),
            forall|k1: int, k2: int|
                0 <= k1 < k2 < i ==> (#[trigger] prd.stories@[k1].id)@ != (#[trigger] prd.stories@[k2].id)@,
        decreases n - i,
    {
        let s = &prd.stories[i];
        if s.id.as_str().is_empty() {
            let mut m = String::new();
            m.append("Story at index ");
            let idx_str = u64_to_string(i as u64);
            m.append(idx_str.as_str());
            m.append(" has empty ID");
            proof {
                lemma_no_issue_so_far(prd.stories@, i as int);
                assert(m@ =~= "Story at index "@ + dec_rep(i as nat) + " has empty ID"@);
            }
            return Err(ValidationError { message: m });
        }
        if s.title.as_str().is_empty() {
            let mut m = String::new();
            m.append("Story ");
            m.append(s.id.as_str());
            m.append(" has empty title");
            proof {
                lemma_no_issue_so_far(prd.stories@, i as int);
                assert(m@ =~= "Story "@ + s.id@ + " has empty title"@);
            }
            return Err(ValidationError { message: m });
        }
        if s.description.as_str().is_empty() {
            let mut m = String::new();
            m.append("Story ");
            m.append(s.id.as_str());
            m.append(" has empty description");
            proof {
                lemma_no_issue_so_far(prd.stories@, i as int);
                assert(m@ =~= "Story "@ + s.id@ + " has empty description"@);
            }
            return Err(ValidationError { message: m });
        }
        if s.priority <= 0 {
            let mut m = String::new();
            m.append("Story ");
            m.append(s.id.as_str());
            m.append(" has invalid priority: ");
            let p_str = i32_to_string(s.priority);
            m.append(p_str.as_str());
            proof {
                lemma_no_issue_so_far(prd.stories@, i as int);
                assert(m@ =~= "Story "@ + s.id@ + " has invalid priority: "@ + int_rep(s.priority as int));
            }
            return Err(ValidationError { message: m });
        }
        if s.acceptance_criteria.len() == 0 {
            let mut m = String::new();
            m.append("Story ");
            m.append(s.id.as_str());
            m.append(" has no acceptance criteria");
            proof {
                lemma_no_issue_so_far(prd.stories@, i as int);
                assert(m@ =~= "Story "@ + s.id@ + " has no acceptance criteria"@);
            }
            return Err(ValidationError { message: m });
        }
        if id_among(&prd.stories, i, &s.id) {
            let mut m = String::new();
            m.append("Duplicate story ID: ");
            m.append(prd.stories[i].id.as_str());
            proof {
                lemma_no_issue_so_far(prd.stories@, i as int);
                let k = choose|k: int|
                    0 <= k < i && (#[trigger] prd.stories@[k].id)@ == prd.stories@[i as int].id@;
                assert(prd.stories@.take(i as int)[k] == prd.stories@[k]);
                assert(m@ =~= "Duplicate story ID: "@ + s.id@);
            }
            return Err(ValidationError { message: m });
        }
        proof {
            assert forall|kk: int| 0 <= kk < prd.stories@.take(i as int).len()
                implies (#[trigger] prd.stories@.take(i as int)[kk].id)@ != prd.stories@[i as int].id@ by {
                assert(prd.stories@.take(i as int)[kk] == prd.stories@[kk]);
            }
            assert(story_issue(prd.stories@[i as int], i as int, prd.stories@.take(i as int)) is None);
        }
        i = i + 1;
    }
    proof {
        lemma_no_issue_so_far(prd.stories@, n as int);
        assert(prd_valid(*prd));
    }
    Ok(())
}

/// An aborted plan run: the destination already holds a document.
#[derive(Debug)]
pub struct OutputFileError {
    pub message: String,
}

/// Decides whether writing the planned document may proceed: rejected exactly
/// when the destination already exists and overwriting was not requested.
/// The caller determines `exists` for the destination path and renders the
/// path into any user-facing message.
pub fn check_output_file(exists: bool, force: bool) -> (r: Result<(), OutputFileError>)
    ensures
        r is Err <==> (exists && !force),
        r matches Err(e) ==> e.message@
            == "PRD file already exists. Use --force to overwrite."@,
{
    if exists && !force {
        let mut m = String::new();
        m.append("PRD file already exists. Use --force to overwrite.");
        Err(OutputFileError { message: m })
    } else {
        Ok(())
    }
}

} // verus!
