//! Publishing a document: to its target where nobody else changed it, and
//! otherwise beside it.

use vstd::prelude::*;
use vstd::string::StringExecFns;
use vstd::utf8::encode_utf8;

use crate::json::{field, member, member_models, texts_json, texts_model, Json, JsonModel};
use crate::source::{digest, hash};
use crate::text::{has, is_blank, joined, same, texts, trim, trimmed, contains};

verus! {

/// A document that is published.
pub struct Publication {
    pub id: String,
    pub run_id: String,
    pub task_id: String,
    pub path: String,
    pub hash: String,
    pub markdown: String,
    pub warnings: Vec<String>,
    pub status: String,
}

/// What is added where a target was changed.
pub open spec fn conflict_warning() -> Seq<char> {
    "Target changed externally; result saved as a conflict copy"@
}

/// The text of a hash, where there is one.
pub open spec fn hash_text(h: Option<String>) -> Option<Seq<char>> {
    match h {
        Some(t) => Some(t@),
        None => None,
    }
}

/// Whether two hashes are the same, or both are missing.
fn same_hash(a: &Option<String>, b: &Option<String>) -> (r: bool)
    ensures
        r == (hash_text(*a) == hash_text(*b)),
{
    match (a, b) {
        (Some(x), Some(y)) => same(x.as_str(), y.as_str()),
        (None, None) => true,
        _ => false,
    }
}

/// Somebody else changed a target since a run started.
pub open spec fn conflicts(existing: Option<Seq<char>>, original: Option<Seq<char>>) -> bool {
    existing != original
}

/// The name of the copy that is written beside a target.
pub open spec fn copy_name(stem: Option<Seq<char>>, run: Seq<char>) -> Seq<char> {
    (match stem {
        Some(s) => s,
        None => "document"@,
    }) + ".conflict-"@ + run + ".md"@
}

/// The name of the copy that is written beside a target, from what the target's
/// name is without its ending.
pub fn conflict_name(stem: Option<&str>, run_id: &str) -> (r: String)
    ensures
        r@ == copy_name(
            match stem {
                Some(s) => Some(s@),
                None => None,
            },
            run_id@,
        ),
{
    let mut name = match stem {
        Some(s) => String::from_str(s),
        None => String::from_str("document"),
    };
    name.push_str(".conflict-");
    name.push_str(run_id);
    name.push_str(".md");
    name
}

/// What a publication is made of.
pub struct Draft {
    pub id: String,
    pub run_id: String,
    pub task_id: String,
    pub markdown: String,
    pub warnings: Vec<String>,
}

/// The warnings of a publication.
pub open spec fn all_warnings(warnings: Seq<Seq<char>>, conflict: bool) -> Seq<Seq<char>> {
    if conflict {
        warnings.push(conflict_warning())
    } else {
        warnings
    }
}

/// The status of a publication.
pub open spec fn status_of(warnings: Seq<Seq<char>>) -> Seq<char> {
    if warnings.len() == 0 {
        "completed"@
    } else {
        "completed_with_warnings"@
    }
}

/// Decides what is published, and where: at the target, or at the copy beside it
/// where somebody else changed the target.
pub fn save(
    draft: Draft,
    target: String,
    copy: String,
    existing: &Option<String>,
    original: &Option<String>,
) -> (r: Publication)
    ensures
        ({
            let conflict = conflicts(hash_text(*existing), hash_text(*original));
            let warnings = all_warnings(texts(draft.warnings@), conflict);
            &&& r.path == (if conflict {
                copy
            } else {
                target
            })
            &&& texts(r.warnings@) == warnings
            &&& r.status@ == status_of(warnings)
            &&& r.hash@ == digest(encode_utf8(draft.markdown@))
            &&& r.markdown == draft.markdown
            &&& r.id == draft.id
            &&& r.run_id == draft.run_id
            &&& r.task_id == draft.task_id
        }),
{
    let conflict = !same_hash(existing, original);
    let mut warnings = draft.warnings;
    let ghost given = texts(warnings@);
    if conflict {
        let warning = String::from_str("Target changed externally; result saved as a conflict copy");
        assert(texts(warnings@.push(warning)) =~= given.push(warning@));
        warnings.push(warning);
    }
    assert(texts(warnings@).len() == warnings@.len());
    let status = if warnings.len() == 0 {
        String::from_str("completed")
    } else {
        String::from_str("completed_with_warnings")
    };
    let sum = hash(draft.markdown.as_str().as_bytes());
    Publication {
        id: draft.id,
        run_id: draft.run_id,
        task_id: draft.task_id,
        path: if conflict {
            copy
        } else {
            target
        },
        hash: sum,
        markdown: draft.markdown,
        warnings,
        status,
    }
}

/// Why a document is not written.
#[derive(Clone, Copy, Debug, PartialEq, Eq, Structural)]
pub enum PublishFault {
    /// Somebody changed the target in the meantime.
    Changed,
    /// The run was cancelled.
    Cancelled,
}

/// Whether a document may be written now, as the last thing before it is: the
/// target is as it was found, and the run was not cancelled. A copy beside the
/// target replaces nothing.
pub fn may_replace(
    at_target: bool,
    now: &Option<String>,
    existing: &Option<String>,
    cancelled: bool,
) -> (r: Result<(), PublishFault>)
    ensures
        r == (if at_target && hash_text(*now) != hash_text(*existing) {
            Err::<(), PublishFault>(PublishFault::Changed)
        } else if cancelled {
            Err(PublishFault::Cancelled)
        } else {
            Ok(())
        }),
{
    if at_target && !same_hash(now, existing) {
        return Err(PublishFault::Changed);
    }
    if cancelled {
        return Err(PublishFault::Cancelled);
    }
    Ok(())
}

/// A document replaces its target only where that is as it was when the run
/// started: what somebody else wrote is never lost.
pub proof fn foreign_changes_are_never_replaced(
    existing: Option<Seq<char>>,
    original: Option<Seq<char>>,
    now: Option<Seq<char>>,
)
    requires
        !conflicts(existing, original),
        now == existing,
    ensures
        now == original,
{
}

/// Whether a publication that was interrupted had been written: what lies at its
/// path has its hash.
pub fn was_written(found: &Option<String>, p: &Publication) -> (r: bool)
    ensures
        r == (hash_text(*found) == Some(p.hash@)),
{
    match found {
        Some(h) => same(h.as_str(), p.hash.as_str()),
        None => false,
    }
}

/// What is shown of a run that is over.
pub open spec fn progress_view(path: Seq<char>, warnings: Seq<Seq<char>>) -> JsonModel {
    JsonModel::Obj(
        seq![
            field("path"@, JsonModel::Str(path)),
            field("stage"@, JsonModel::Str("finished"@)),
            field("warnings"@, texts_model(warnings)),
        ],
    )
}

/// The event that ends a run.
pub open spec fn terminal_view(status: Seq<char>, path: Seq<char>, warnings: Seq<Seq<char>>) -> JsonModel {
    JsonModel::Obj(
        seq![
            field("path"@, JsonModel::Str(path)),
            field("status"@, JsonModel::Str(status)),
            field("warnings"@, texts_model(warnings)),
        ],
    )
}

impl Publication {
    /// What is shown of the run.
    pub fn progress(&self) -> (r: Json)
        ensures
            r@ == progress_view(self.path@, texts(self.warnings@)),
    {
        let members = vec![
            member("path", Json::string(self.path.as_str())),
            member("stage", Json::string("finished")),
            member("warnings", texts_json(&self.warnings)),
        ];
        assert(member_models(members@) =~= progress_view(
            self.path@,
            texts(self.warnings@),
        )->Obj_0);
        Json::object(members)
    }

    /// The event that ends the run.
    pub fn terminal_event(&self) -> (r: Json)
        ensures
            r@ == terminal_view(self.status@, self.path@, texts(self.warnings@)),
    {
        let members = vec![
            member("path", Json::string(self.path.as_str())),
            member("status", Json::string(self.status.as_str())),
            member("warnings", texts_json(&self.warnings)),
        ];
        assert(member_models(members@) =~= terminal_view(
            self.status@,
            self.path@,
            texts(self.warnings@),
        )->Obj_0);
        Json::object(members)
    }
}

/// The most bytes of a diagnostic.
pub const DIAGNOSTIC_LIMIT: usize = 2048;

/// Whether a document has diagrams to be validated.
pub fn needs_validation(markdown: &str) -> (r: bool)
    ensures
        r == contains(markdown@, "```mermaid"@),
{
    has(markdown, "```mermaid")
}

/// What is reported of a diagram that is not valid.
pub open spec fn diagnosis(detail: Seq<char>) -> Seq<char> {
    if trim(detail).len() == 0 {
        "MERMAID_INVALID: diagram failed syntax validation"@
    } else {
        "MERMAID_INVALID: "@ + trim(detail)
    }
}

/// What is reported of a diagram that is not valid.
pub fn diagnose(detail: &str) -> (r: String)
    ensures
        r@ == diagnosis(detail@),
{
    if is_blank(detail) {
        String::from_str("MERMAID_INVALID: diagram failed syntax validation")
    } else {
        joined("MERMAID_INVALID: ", trimmed(detail).as_str())
    }
}

} // verus!
