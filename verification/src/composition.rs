//! Versioned editing of an outline, and its approval.

use vstd::prelude::*;
use vstd::string::StringExecFns;

use crate::findings::evidence_ids;
use crate::json::{field, member, member_models, nat_model, Json, JsonModel};
use crate::model::{Evidence, Outline, OutlineIssue, OutlineReview, Requirement};
use crate::planning::outline::{accepted_outline, check_outline, validate_outline, OutlineFault};
use crate::text::{blen, is_ascii_digit, is_ascii_letter, is_blank, same, to_chars, trim};

verus! {

/// Where a list of readings goes on.
pub struct Page {
    pub after: Option<String>,
}

/// An edit of an outline.
pub struct Revision {
    pub base_revision: u32,
    pub request_id: String,
    pub outline: Option<Outline>,
    pub feedback: Option<String>,
}

/// The approval of an outline.
pub struct Approval {
    pub revision: u32,
}

/// Why an outline is not edited.
#[derive(Clone, Copy, Debug, PartialEq, Eq, Structural)]
pub enum RevisionFault {
    /// The id of the request is not one.
    RequestId,
    /// The feedback is too long.
    Feedback,
    /// The run is active.
    Active,
    /// The outline has changed since.
    Stale,
    /// The passages that the outline rests on are gone.
    NoEvidence,
    /// The edited outline is not acceptable.
    Outline(OutlineFault),
    /// There is neither an outline nor feedback.
    Nothing,
}

/// The most bytes of feedback.
pub const FEEDBACK_MAX: usize = 16_000;

/// The id of a request: up to 64 letters, digits and hyphens.
pub open spec fn is_request_id(s: Seq<char>) -> bool {
    0 < s.len() && blen(s) <= 64 && forall|i: int|
        0 <= i < s.len() ==> is_ascii_letter(#[trigger] s[i]) || is_ascii_digit(s[i]) || s[i] == '-'
}

/// Whether a text is the id of a request.
fn valid_request_id(s: &str) -> (r: bool)
    ensures
        r == is_request_id(s@),
{
    let chars = to_chars(s);
    if chars.len() == 0 || s.as_bytes().len() > 64 {
        return false;
    }
    let mut i: usize = 0;
    while i < chars.len()
        invariant
            i <= chars@.len(),
            chars@ == s@,
            forall|k: int|
                0 <= k < i ==> is_ascii_letter(#[trigger] s@[k]) || is_ascii_digit(s@[k]) || s@[k]
                    == '-',
        decreases chars@.len() - i,
    {
        let c = chars[i];
        let fine = ('a' <= c && c <= 'z') || ('A' <= c && c <= 'Z') || ('0' <= c && c <= '9') || c
            == '-';
        if !fine {
            assert(!(is_ascii_letter(s@[i as int]) || is_ascii_digit(s@[i as int]) || s@[i as int]
                == '-'));
            return false;
        }
        i += 1;
    }
    true
}

/// What is wrong with an edit, before anything is looked up.
pub open spec fn request_fault(edit: Revision) -> Option<RevisionFault> {
    if !is_request_id(edit.request_id@) {
        Some(RevisionFault::RequestId)
    } else if edit.feedback is Some && blen(edit.feedback->0@) > FEEDBACK_MAX {
        Some(RevisionFault::Feedback)
    } else {
        None
    }
}

/// Whether an edit is well formed.
pub fn check_request(edit: &Revision) -> (r: Result<(), RevisionFault>)
    ensures
        match request_fault(*edit) {
            Some(f) => r == Err::<(), RevisionFault>(f),
            None => r is Ok,
        },
{
    if !valid_request_id(edit.request_id.as_str()) {
        return Err(RevisionFault::RequestId);
    }
    if let Some(feedback) = &edit.feedback {
        if feedback.as_str().as_bytes().len() > FEEDBACK_MAX {
            return Err(RevisionFault::Feedback);
        }
    }
    Ok(())
}

/// The outline of an edit as it is checked: with the requirements of the current
/// one, and the next revision.
pub open spec fn candidate_of(
    plan: Outline,
    requirements: Vec<Requirement>,
    revision: u32,
) -> Outline {
    Outline { requirements, revision, ..plan }
}

/// There is feedback.
pub open spec fn has_feedback(edit: Revision) -> bool {
    edit.feedback is Some && trim(edit.feedback->0@).len() > 0
}

/// An edit that was accepted.
pub struct Revised {
    /// The revision that comes of it.
    pub revision: u32,
    /// The outline that was edited; otherwise a new one is planned from the
    /// feedback.
    pub candidate: Option<Outline>,
    /// The revision that planning goes on from.
    pub state_revision: u32,
}

/// Accepts an edit of the current outline of a run that is not active, or says
/// why not.
pub fn revise(
    edit: Revision,
    active: bool,
    current: u32,
    requirements: Vec<Requirement>,
    evidence: Option<&Vec<Evidence>>,
    max_diagrams: Option<u32>,
) -> (r: Result<Revised, RevisionFault>)
    requires
        current < u32::MAX,
    ensures
        ({
            let next = (current + 1) as u32;
            if request_fault(edit) is Some {
                r == Err::<Revised, RevisionFault>(request_fault(edit)->0)
            } else if active {
                r == Err::<Revised, RevisionFault>(RevisionFault::Active)
            } else if edit.base_revision != current {
                r == Err::<Revised, RevisionFault>(RevisionFault::Stale)
            } else {
                match edit.outline {
                    Some(plan) => {
                        let checked = candidate_of(plan, requirements, next);
                        match evidence {
                            None => r == Err::<Revised, RevisionFault>(RevisionFault::NoEvidence),
                            Some(list) => match check_outline(
                                checked,
                                evidence_ids(list@),
                                max_diagrams,
                                None,
                            ) {
                                Ok(anchors) => {
                                    &&& r is Ok
                                    &&& r->Ok_0.revision == next
                                    &&& r->Ok_0.state_revision == next
                                    &&& r->Ok_0.candidate is Some
                                    &&& accepted_outline(
                                        checked,
                                        r->Ok_0.candidate->0,
                                        anchors,
                                    )
                                },
                                Err(f) => r == Err::<Revised, RevisionFault>(
                                    RevisionFault::Outline(f),
                                ),
                            },
                        }
                    },
                    None => if has_feedback(edit) {
                        r == Ok::<Revised, RevisionFault>(
                            Revised { revision: next, candidate: None, state_revision: current },
                        )
                    } else {
                        r == Err::<Revised, RevisionFault>(RevisionFault::Nothing)
                    },
                }
            }
        }),
{
    if let Err(f) = check_request(&edit) {
        return Err(f);
    }
    if active {
        return Err(RevisionFault::Active);
    }
    if edit.base_revision != current {
        return Err(RevisionFault::Stale);
    }
    let next: u32 = current + 1;
    match edit.outline {
        Some(plan) => {
            let mut candidate = plan;
            candidate.requirements = requirements;
            candidate.revision = next;
            let list = match evidence {
                Some(list) => list,
                None => {
                    return Err(RevisionFault::NoEvidence);
                },
            };
            match validate_outline(&mut candidate, list, max_diagrams, None) {
                Ok(()) => Ok(
                    Revised { revision: next, candidate: Some(candidate), state_revision: next },
                ),
                Err(f) => Err(RevisionFault::Outline(f)),
            }
        },
        None => {
            let given = match &edit.feedback {
                Some(feedback) => !is_blank(feedback.as_str()),
                None => false,
            };
            if given {
                Ok(Revised { revision: next, candidate: None, state_revision: current })
            } else {
                Err(RevisionFault::Nothing)
            }
        },
    }
}

/// What is stored of where planning goes on.
pub open spec fn state_view(revision: u32) -> JsonModel {
    JsonModel::Obj(
        seq![field("revision"@, nat_model(revision as nat)), field("round"@, nat_model(0))],
    )
}

/// What is stored of where planning goes on.
pub fn outline_state(revision: u32) -> (r: Json)
    ensures
        r@ == state_view(revision),
{
    let members = vec![
        member("revision", Json::count(revision as usize)),
        member("round", Json::count(0)),
    ];
    assert(member_models(members@) =~= state_view(revision)->Obj_0);
    Json::object(members)
}

/// Why an outline is not approved.
#[derive(Clone, Copy, Debug, PartialEq, Eq, Structural)]
pub enum ApprovalFault {
    /// The run is active.
    Active,
    /// No outline waits for approval.
    NoOutline,
    /// The outline has changed since.
    Stale,
    /// It was not reviewed.
    NoReview,
    /// A major issue is open.
    Major,
    /// The run does not wait for an outline.
    NotWaiting,
}

/// One of the issues is a major one.
pub open spec fn has_major(issues: Seq<OutlineIssue>) -> bool {
    exists|k: int| 0 <= k < issues.len() && (#[trigger] issues[k]).severity@ == "major"@
}

/// Why an outline is not approved.
pub open spec fn approval_fault(
    active: bool,
    revision: Option<u32>,
    approved: u32,
    review: Option<OutlineReview>,
    status: Seq<char>,
) -> Option<ApprovalFault> {
    if active {
        Some(ApprovalFault::Active)
    } else if revision is None {
        Some(ApprovalFault::NoOutline)
    } else if revision->0 != approved {
        Some(ApprovalFault::Stale)
    } else if review is None {
        Some(ApprovalFault::NoReview)
    } else if has_major(review->0.issues@) {
        Some(ApprovalFault::Major)
    } else if status != "awaiting_outline"@ {
        Some(ApprovalFault::NotWaiting)
    } else {
        None
    }
}

/// Whether an outline may be approved: it is the one that was seen, it was
/// reviewed without a major issue, and its run waits for it.
pub fn continue_outline(
    active: bool,
    revision: Option<u32>,
    approval: &Approval,
    review: Option<&OutlineReview>,
    status: &str,
) -> (r: Result<(), ApprovalFault>)
    ensures
        match approval_fault(
            active,
            revision,
            approval.revision,
            match review {
                Some(v) => Some(*v),
                None => None,
            },
            status@,
        ) {
            Some(f) => r == Err::<(), ApprovalFault>(f),
            None => r is Ok,
        },
{
    if active {
        return Err(ApprovalFault::Active);
    }
    match revision {
        Some(n) => {
            if n != approval.revision {
                return Err(ApprovalFault::Stale);
            }
        },
        None => {
            return Err(ApprovalFault::NoOutline);
        },
    }
    let issues = match review {
        Some(v) => &v.issues,
        None => {
            return Err(ApprovalFault::NoReview);
        },
    };
    let mut major = false;
    let mut k: usize = 0;
    while k < issues.len()
        invariant
            k <= issues@.len(),
            major == exists|j: int| 0 <= j < k && (#[trigger] issues@[j]).severity@ == "major"@,
        decreases issues@.len() - k,
    {
        if same(issues[k].severity.as_str(), "major") {
            assert(issues@[k as int].severity@ == "major"@);
            major = true;
        }
        k += 1;
    }
    if major {
        return Err(ApprovalFault::Major);
    }
    if !same(status, "awaiting_outline") {
        return Err(ApprovalFault::NotWaiting);
    }
    Ok(())
}

} // verus!
