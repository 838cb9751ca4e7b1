//! Reading answers: the briefs, verdicts, divisions and reviews that a response
//! holds, where every field has the form that was asked for. A record is written
//! as an object, or as an array of its fields in their order.

use vstd::prelude::*;
use vstd::string::StringExecFns;

use crate::audit::{assessment_models, Assessment, AssessmentModel, Response, Status};
use crate::findings::{finding_models, BriefModel, Finding, FindingKind, FindingModel, SourceBrief};
use crate::json::{
    choice, choice_of, json_value, lemma_arr, models, names_of, parse_json, positional, record, Json, JsonModel,
};
use crate::llm::repair::{candidates, readings};
use crate::model::{exclusion_models, ExclusionModel, OutlineIssue, OutlineReview};
use crate::planning::accounting::{issue_models, IssueModel};
use crate::planning::chapters::{ChapterDraft, ChaptersDraft};
use crate::planning::generated::{
    read_strings, read_text, read_texts, strings, text_member, texts_member,
};
use crate::planning::stored::{array_member, exclusions_stored, optional_items, stored_exclusions};
use crate::text::{same, texts};

verus! {

/// A list of texts that must be there.
pub open spec fn required_texts(value: JsonModel, name: Seq<char>) -> Option<Seq<Seq<char>>> {
    match value.get(name) {
        Some(JsonModel::Arr(items)) => strings(items, items.len()),
        _ => None,
    }
}

/// A list of texts that must be there.
fn texts_of(value: &Json, name: &str) -> (r: Option<Vec<String>>)
    ensures
        match required_texts(value@, name@) {
            Some(list) => r is Some && texts(r->0@) == list,
            None => r is None,
        },
{
    match value.items(name) {
        Some(items) => read_strings(items),
        None => None,
    }
}

// ---------------------------------------------------------------------------
// Briefs
// ---------------------------------------------------------------------------

/// The kind that a name stands for. The word for a class of sources counts as a
/// claim of execution, which is then held to evidence of that class.
pub open spec fn kind_named(name: Seq<char>) -> Option<FindingKind> {
    if name == "runtime"@ || name == "implementation"@ {
        Some(FindingKind::Runtime)
    } else if name == "context"@ {
        Some(FindingKind::Context)
    } else {
        None
    }
}

/// The kind that a name stands for.
pub fn finding_kind(name: &str) -> (r: Option<FindingKind>)
    ensures
        r == kind_named(name@),
{
    if same(name, "runtime") || same(name, "implementation") {
        Some(FindingKind::Runtime)
    } else if same(name, "context") {
        Some(FindingKind::Context)
    } else {
        None
    }
}

/// The finding that a value writes.
pub open spec fn finding_in(value: JsonModel) -> Option<FindingModel> {
    match record(value, seq!["topic"@, "observation"@, "kind"@, "evidence_ids"@]) {
        Some(members) => named_finding(members),
        None => None,
    }
}

/// The finding that some members say.
pub open spec fn named_finding(value: JsonModel) -> Option<FindingModel> {
    match (
        value.text("topic"@),
        value.text("observation"@),
        choice(value.get("kind"@)),
        required_texts(value, "evidence_ids"@),
    ) {
        (Some(topic), Some(observation), Some(kind), Some(evidence_ids)) => match kind_named(kind) {
            Some(kind) => Some(FindingModel { topic, observation, kind, evidence_ids }),
            None => None,
        },
        _ => None,
    }
}

/// The findings that the first `count` values write.
pub open spec fn findings_in(items: Seq<JsonModel>, count: nat) -> Option<Seq<FindingModel>>
    decreases count,
{
    if count == 0 {
        Some(Seq::empty())
    } else {
        match (findings_in(items, (count - 1) as nat), finding_in(items[count - 1])) {
            (Some(done), Some(f)) => Some(done.push(f)),
            _ => None,
        }
    }
}

/// The brief that a value writes.
pub open spec fn brief_in(value: JsonModel) -> Option<BriefModel> {
    match record(value, seq!["findings"@, "uncertainties"@, "followup_queries"@]) {
        Some(members) => named_brief(members),
        None => None,
    }
}

/// The brief that some members say.
pub open spec fn named_brief(value: JsonModel) -> Option<BriefModel> {
    match (
        value.get("findings"@),
        required_texts(value, "uncertainties"@),
        required_texts(value, "followup_queries"@),
    ) {
        (Some(JsonModel::Arr(items)), Some(uncertainties), Some(followup_queries)) =>
            match findings_in(items, items.len()) {
                Some(findings) => Some(BriefModel { findings, uncertainties, followup_queries }),
                None => None,
            },
        _ => None,
    }
}

proof fn lemma_findings_stop(items: Seq<JsonModel>, count: nat, all: nat)
    requires
        count <= all,
    ensures
        findings_in(items, count) is None ==> findings_in(items, all) is None,
    decreases all - count,
{
    if count < all {
        lemma_findings_stop(items, count, (all - 1) as nat);
    }
}

/// The finding that a value writes.
fn read_finding(value: &Json) -> (r: Option<Finding>)
    ensures
        match finding_in(value@) {
            Some(f) => r is Some && r->0@ == f,
            None => r is None,
        },
{
    match value {
        Json::Arr(items) => {
            let names = vec!["topic", "observation", "kind", "evidence_ids"];
            proof {
                lemma_arr(*items);
                assert(names_of(names@) =~= seq!["topic"@, "observation"@, "kind"@, "evidence_ids"@]);
            }
            match positional(items, names) {
                Some(members) => finding_by_name(&members),
                None => None,
            }
        },
        _ => finding_by_name(value),
    }
}

/// The finding that some members say.
fn finding_by_name(value: &Json) -> (r: Option<Finding>)
    ensures
        match named_finding(value@) {
            Some(f) => r is Some && r->0@ == f,
            None => r is None,
        },
{
    match (
        value.text("topic"),
        value.text("observation"),
        choice_of(value, "kind"),
        texts_of(value, "evidence_ids"),
    ) {
        (Some(topic), Some(observation), Some(kind), Some(evidence_ids)) => match finding_kind(
            kind,
        ) {
            Some(kind) => Some(
                Finding {
                    topic: String::from_str(topic),
                    observation: String::from_str(observation),
                    kind,
                    evidence_ids,
                },
            ),
            None => None,
        },
        _ => None,
    }
}

/// Reads a brief.
pub fn brief_from_json(value: &Json) -> (r: Option<SourceBrief>)
    ensures
        match brief_in(value@) {
            Some(brief) => r is Some && r->0@ == brief,
            None => r is None,
        },
{
    match value {
        Json::Arr(items) => {
            let names = vec!["findings", "uncertainties", "followup_queries"];
            proof {
                lemma_arr(*items);
                assert(names_of(names@) =~= seq!["findings"@, "uncertainties"@, "followup_queries"@]);
            }
            match positional(items, names) {
                Some(members) => brief_by_name(&members),
                None => None,
            }
        },
        _ => brief_by_name(value),
    }
}

/// The brief that some members say.
fn brief_by_name(value: &Json) -> (r: Option<SourceBrief>)
    ensures
        match named_brief(value@) {
            Some(brief) => r is Some && r->0@ == brief,
            None => r is None,
        },
{
    match (
        value.items("findings"),
        texts_of(value, "uncertainties"),
        texts_of(value, "followup_queries"),
    ) {
        (Some(items), Some(uncertainties), Some(followup_queries)) => {
            let ghost ms = models(items@);
            let mut findings: Vec<Finding> = Vec::new();
            let mut i: usize = 0;
            assert(finding_models(findings@) =~= Seq::empty());
            while i < items.len()
                invariant
                    i <= items@.len(),
                    ms == models(items@),
                    value@.get("findings"@) == Some(JsonModel::Arr(ms)),
                    findings_in(ms, i as nat) == Some(finding_models(findings@)),
                decreases items@.len() - i,
            {
                proof {
                    assert(ms[i as int] == items@[i as int]@);
                    lemma_findings_stop(ms, (i + 1) as nat, ms.len());
                }
                match read_finding(&items[i]) {
                    Some(f) => {
                        assert(finding_models(findings@.push(f)) =~= finding_models(findings@).push(
                            f@,
                        ));
                        findings.push(f);
                    },
                    None => {
                        return None;
                    },
                }
                i += 1;
            }
            Some(SourceBrief { findings, uncertainties, followup_queries })
        },
        _ => None,
    }
}

/// A brief, in the first of some readings from `i` on that holds one.
pub open spec fn first_brief(list: Seq<Seq<char>>, i: nat) -> Option<BriefModel>
    decreases list.len() - i,
{
    if i >= list.len() {
        None
    } else {
        match json_value(list[i as int]) {
            Ok(m) => match brief_in(m) {
                Some(found) => Some(found),
                None => first_brief(list, i + 1),
            },
            Err(_) => first_brief(list, i + 1),
        }
    }
}

/// Reads a brief out of a response: out of its text, or of what a repair makes
/// of it, or of the object that stands in either.
pub fn decode_brief(response: &str) -> (r: Option<SourceBrief>)
    ensures
        match first_brief(readings(response@), 0) {
            Some(found) => r is Some && r->0@ == found,
            None => r is None,
        },
{
    let list = candidates(response);
    let ghost all = texts(list@);
    let mut i: usize = 0;
    while i < list.len()
        invariant
            i <= list@.len(),
            all == texts(list@),
            all == readings(response@),
            first_brief(all, i as nat) == first_brief(all, 0),
        decreases list@.len() - i,
    {
        assert(all[i as int] == list@[i as int]@);
        if let Ok(value) = parse_json(list[i].as_str()) {
            if let Some(found) = brief_from_json(&value) {
                return Some(found);
            }
        }
        i += 1;
    }
    None
}

// ---------------------------------------------------------------------------
// Verdicts
// ---------------------------------------------------------------------------

/// The status that a name stands for.
pub open spec fn status_named(name: Seq<char>) -> Option<Status> {
    if name == "covered"@ {
        Some(Status::Covered)
    } else if name == "out_of_scope"@ {
        Some(Status::OutOfScope)
    } else if name == "missing"@ {
        Some(Status::Missing)
    } else {
        None
    }
}

/// The status that a name stands for.
fn read_status(name: &str) -> (r: Option<Status>)
    ensures
        r == status_named(name@),
{
    if same(name, "covered") {
        Some(Status::Covered)
    } else if same(name, "out_of_scope") {
        Some(Status::OutOfScope)
    } else if same(name, "missing") {
        Some(Status::Missing)
    } else {
        None
    }
}

/// A number that must be there, and fit.
pub open spec fn required_position(value: JsonModel, name: Seq<char>) -> Option<usize> {
    match value.get(name) {
        Some(m) => match m.natural() {
            Some(n) if n <= usize::MAX => Some(n as usize),
            _ => None,
        },
        None => None,
    }
}

/// A number that must be there, and fit.
fn position_of(value: &Json, name: &str) -> (r: Option<usize>)
    ensures
        r == required_position(value@, name@),
{
    match value.get(name) {
        Some(m) => match m.natural() {
            Some(n) => if n <= usize::MAX as u64 {
                Some(n as usize)
            } else {
                None
            },
            None => None,
        },
        None => None,
    }
}

/// The verdict that a value writes.
pub open spec fn verdict_in(value: JsonModel) -> Option<AssessmentModel> {
    match record(value, seq!["id"@, "status"@, "section"@, "quote"@, "reason"@]) {
        Some(members) => named_verdict(members),
        None => None,
    }
}

/// The verdict that some members say.
pub open spec fn named_verdict(value: JsonModel) -> Option<AssessmentModel> {
    match (
        value.text("id"@),
        choice(value.get("status"@)),
        required_position(value, "section"@),
        value.text("quote"@),
        value.text("reason"@),
    ) {
        (Some(id), Some(status), Some(section), Some(quote), Some(reason)) => match status_named(
            status,
        ) {
            Some(status) => Some(AssessmentModel { id, status, section, quote, reason }),
            None => None,
        },
        _ => None,
    }
}

/// The verdicts that the first `count` values write.
pub open spec fn verdicts_in(items: Seq<JsonModel>, count: nat) -> Option<Seq<AssessmentModel>>
    decreases count,
{
    if count == 0 {
        Some(Seq::empty())
    } else {
        match (verdicts_in(items, (count - 1) as nat), verdict_in(items[count - 1])) {
            (Some(done), Some(v)) => Some(done.push(v)),
            _ => None,
        }
    }
}

/// The verdicts that a value writes.
pub open spec fn response_in(value: JsonModel) -> Option<Seq<AssessmentModel>> {
    match record(value, seq!["assessments"@]) {
        Some(members) => named_response(members),
        None => None,
    }
}

/// The verdicts that some members say.
pub open spec fn named_response(value: JsonModel) -> Option<Seq<AssessmentModel>> {
    match value.get("assessments"@) {
        Some(JsonModel::Arr(items)) => verdicts_in(items, items.len()),
        _ => None,
    }
}

proof fn lemma_verdicts_stop(items: Seq<JsonModel>, count: nat, all: nat)
    requires
        count <= all,
    ensures
        verdicts_in(items, count) is None ==> verdicts_in(items, all) is None,
    decreases all - count,
{
    if count < all {
        lemma_verdicts_stop(items, count, (all - 1) as nat);
    }
}

/// The verdict that a value writes.
fn read_verdict(value: &Json) -> (r: Option<Assessment>)
    ensures
        match verdict_in(value@) {
            Some(v) => r is Some && r->0@ == v,
            None => r is None,
        },
{
    match value {
        Json::Arr(items) => {
            let names = vec!["id", "status", "section", "quote", "reason"];
            proof {
                lemma_arr(*items);
                assert(names_of(names@) =~= seq!["id"@, "status"@, "section"@, "quote"@, "reason"@]);
            }
            match positional(items, names) {
                Some(members) => verdict_by_name(&members),
                None => None,
            }
        },
        _ => verdict_by_name(value),
    }
}

/// The verdict that some members say.
fn verdict_by_name(value: &Json) -> (r: Option<Assessment>)
    ensures
        match named_verdict(value@) {
            Some(v) => r is Some && r->0@ == v,
            None => r is None,
        },
{
    match (
        value.text("id"),
        choice_of(value, "status"),
        position_of(value, "section"),
        value.text("quote"),
        value.text("reason"),
    ) {
        (Some(id), Some(status), Some(section), Some(quote), Some(reason)) => match read_status(
            status,
        ) {
            Some(status) => Some(
                Assessment {
                    id: String::from_str(id),
                    status,
                    section,
                    quote: String::from_str(quote),
                    reason: String::from_str(reason),
                },
            ),
            None => None,
        },
        _ => None,
    }
}

/// Reads the verdicts of an audit.
pub fn response_from_json(value: &Json) -> (r: Option<Response>)
    ensures
        match response_in(value@) {
            Some(list) => r is Some && assessment_models(r->0.assessments@) == list,
            None => r is None,
        },
{
    match value {
        Json::Arr(items) => {
            let names = vec!["assessments"];
            proof {
                lemma_arr(*items);
                assert(names_of(names@) =~= seq!["assessments"@]);
            }
            match positional(items, names) {
                Some(members) => response_by_name(&members),
                None => None,
            }
        },
        _ => response_by_name(value),
    }
}

/// The verdicts that some members say.
fn response_by_name(value: &Json) -> (r: Option<Response>)
    ensures
        match named_response(value@) {
            Some(list) => r is Some && assessment_models(r->0.assessments@) == list,
            None => r is None,
        },
{
    match value.items("assessments") {
        Some(items) => {
            let ghost ms = models(items@);
            let mut assessments: Vec<Assessment> = Vec::new();
            let mut i: usize = 0;
            assert(assessment_models(assessments@) =~= Seq::empty());
            while i < items.len()
                invariant
                    i <= items@.len(),
                    ms == models(items@),
                    value@.get("assessments"@) == Some(JsonModel::Arr(ms)),
                    verdicts_in(ms, i as nat) == Some(assessment_models(assessments@)),
                decreases items@.len() - i,
            {
                proof {
                    assert(ms[i as int] == items@[i as int]@);
                    lemma_verdicts_stop(ms, (i + 1) as nat, ms.len());
                }
                match read_verdict(&items[i]) {
                    Some(v) => {
                        assert(assessment_models(assessments@.push(v)) =~= assessment_models(
                            assessments@,
                        ).push(v@));
                        assessments.push(v);
                    },
                    None => {
                        return None;
                    },
                }
                i += 1;
            }
            Some(Response { assessments })
        },
        None => None,
    }
}

/// Verdicts, in the first of some readings from `i` on that holds one.
pub open spec fn first_response(list: Seq<Seq<char>>, i: nat) -> Option<Seq<AssessmentModel>>
    decreases list.len() - i,
{
    if i >= list.len() {
        None
    } else {
        match json_value(list[i as int]) {
            Ok(m) => match response_in(m) {
                Some(found) => Some(found),
                None => first_response(list, i + 1),
            },
            Err(_) => first_response(list, i + 1),
        }
    }
}

/// Reads the verdicts of an audit out of a response: out of its text, or of what a repair makes
/// of it, or of the object that stands in either.
pub fn decode_response(response: &str) -> (r: Option<Response>)
    ensures
        match first_response(readings(response@), 0) {
            Some(found) => r is Some && assessment_models(r->0.assessments@) == found,
            None => r is None,
        },
{
    let list = candidates(response);
    let ghost all = texts(list@);
    let mut i: usize = 0;
    while i < list.len()
        invariant
            i <= list@.len(),
            all == texts(list@),
            all == readings(response@),
            first_response(all, i as nat) == first_response(all, 0),
        decreases list@.len() - i,
    {
        assert(all[i as int] == list@[i as int]@);
        if let Ok(value) = parse_json(list[i].as_str()) {
            if let Some(found) = response_from_json(&value) {
                return Some(found);
            }
        }
        i += 1;
    }
    None
}

// ---------------------------------------------------------------------------
// Reviews
// ---------------------------------------------------------------------------

/// The issue that a value writes.
pub open spec fn issue_in(value: JsonModel) -> Option<IssueModel> {
    match record(value, seq!["severity"@, "code"@, "message"@, "section_ids"@, "requirement_ids"@, "query"@]) {
        Some(members) => named_issue(members),
        None => None,
    }
}

/// The issue that some members say.
pub open spec fn named_issue(value: JsonModel) -> Option<IssueModel> {
    match (
        value.text("severity"@),
        value.text("code"@),
        value.text("message"@),
        read_texts(value, "section_ids"@),
        read_texts(value, "requirement_ids"@),
        read_text(value, "query"@),
    ) {
        (
            Some(severity),
            Some(code),
            Some(message),
            Some(section_ids),
            Some(requirement_ids),
            Some(query),
        ) => Some(IssueModel { severity, code, message, section_ids, requirement_ids, query }),
        _ => None,
    }
}

/// The issues that the first `count` values write.
pub open spec fn issues_in(items: Seq<JsonModel>, count: nat) -> Option<Seq<IssueModel>>
    decreases count,
{
    if count == 0 {
        Some(Seq::empty())
    } else {
        match (issues_in(items, (count - 1) as nat), issue_in(items[count - 1])) {
            (Some(done), Some(v)) => Some(done.push(v)),
            _ => None,
        }
    }
}

/// The issues of the review that a value writes.
pub open spec fn review_in(value: JsonModel) -> Option<Seq<IssueModel>> {
    match record(value, seq!["issues"@]) {
        Some(members) => named_review(members),
        None => None,
    }
}

/// The issues that some members say.
pub open spec fn named_review(value: JsonModel) -> Option<Seq<IssueModel>> {
    match value.get("issues"@) {
        Some(JsonModel::Arr(items)) => issues_in(items, items.len()),
        _ => None,
    }
}

proof fn lemma_issues_stop(items: Seq<JsonModel>, count: nat, all: nat)
    requires
        count <= all,
    ensures
        issues_in(items, count) is None ==> issues_in(items, all) is None,
    decreases all - count,
{
    if count < all {
        lemma_issues_stop(items, count, (all - 1) as nat);
    }
}

/// The issue that a value writes.
fn read_issue(value: &Json) -> (r: Option<OutlineIssue>)
    ensures
        match issue_in(value@) {
            Some(v) => r is Some && r->0@ == v,
            None => r is None,
        },
{
    match value {
        Json::Arr(items) => {
            let names = vec!["severity", "code", "message", "section_ids", "requirement_ids", "query"];
            proof {
                lemma_arr(*items);
                assert(names_of(names@) =~= seq!["severity"@, "code"@, "message"@, "section_ids"@, "requirement_ids"@, "query"@]);
            }
            match positional(items, names) {
                Some(members) => issue_by_name(&members),
                None => None,
            }
        },
        _ => issue_by_name(value),
    }
}

/// The issue that some members say.
fn issue_by_name(value: &Json) -> (r: Option<OutlineIssue>)
    ensures
        match named_issue(value@) {
            Some(v) => r is Some && r->0@ == v,
            None => r is None,
        },
{
    match (
        value.text("severity"),
        value.text("code"),
        value.text("message"),
        texts_member(value, "section_ids"),
        texts_member(value, "requirement_ids"),
        text_member(value, "query"),
    ) {
        (
            Some(severity),
            Some(code),
            Some(message),
            Some(section_ids),
            Some(requirement_ids),
            Some(query),
        ) => Some(
            OutlineIssue {
                severity: String::from_str(severity),
                code: String::from_str(code),
                message: String::from_str(message),
                section_ids,
                requirement_ids,
                query,
            },
        ),
        _ => None,
    }
}

/// Reads the review of a plan.
pub fn review_from_json(value: &Json) -> (r: Option<OutlineReview>)
    ensures
        match review_in(value@) {
            Some(list) => r is Some && issue_models(r->0.issues@) == list,
            None => r is None,
        },
{
    match value {
        Json::Arr(items) => {
            let names = vec!["issues"];
            proof {
                lemma_arr(*items);
                assert(names_of(names@) =~= seq!["issues"@]);
            }
            match positional(items, names) {
                Some(members) => review_by_name(&members),
                None => None,
            }
        },
        _ => review_by_name(value),
    }
}

/// The review that some members say.
fn review_by_name(value: &Json) -> (r: Option<OutlineReview>)
    ensures
        match named_review(value@) {
            Some(list) => r is Some && issue_models(r->0.issues@) == list,
            None => r is None,
        },
{
    match value.items("issues") {
        Some(items) => {
            let ghost ms = models(items@);
            let mut issues: Vec<OutlineIssue> = Vec::new();
            let mut i: usize = 0;
            assert(issue_models(issues@) =~= Seq::empty());
            while i < items.len()
                invariant
                    i <= items@.len(),
                    ms == models(items@),
                    value@.get("issues"@) == Some(JsonModel::Arr(ms)),
                    issues_in(ms, i as nat) == Some(issue_models(issues@)),
                decreases items@.len() - i,
            {
                proof {
                    assert(ms[i as int] == items@[i as int]@);
                    lemma_issues_stop(ms, (i + 1) as nat, ms.len());
                }
                match read_issue(&items[i]) {
                    Some(v) => {
                        assert(issue_models(issues@.push(v)) =~= issue_models(issues@).push(v@));
                        issues.push(v);
                    },
                    None => {
                        return None;
                    },
                }
                i += 1;
            }
            Some(OutlineReview { issues })
        },
        None => None,
    }
}

/// A review, in the first of some readings from `i` on that holds one.
pub open spec fn first_review(list: Seq<Seq<char>>, i: nat) -> Option<Seq<IssueModel>>
    decreases list.len() - i,
{
    if i >= list.len() {
        None
    } else {
        match json_value(list[i as int]) {
            Ok(m) => match review_in(m) {
                Some(found) => Some(found),
                None => first_review(list, i + 1),
            },
            Err(_) => first_review(list, i + 1),
        }
    }
}

/// Reads the review of a plan out of a response: out of its text, or of what a repair makes
/// of it, or of the object that stands in either.
pub fn decode_review(response: &str) -> (r: Option<OutlineReview>)
    ensures
        match first_review(readings(response@), 0) {
            Some(found) => r is Some && issue_models(r->0.issues@) == found,
            None => r is None,
        },
{
    let list = candidates(response);
    let ghost all = texts(list@);
    let mut i: usize = 0;
    while i < list.len()
        invariant
            i <= list@.len(),
            all == texts(list@),
            all == readings(response@),
            first_review(all, i as nat) == first_review(all, 0),
        decreases list@.len() - i,
    {
        assert(all[i as int] == list@[i as int]@);
        if let Ok(value) = parse_json(list[i].as_str()) {
            if let Some(found) = review_from_json(&value) {
                return Some(found);
            }
        }
        i += 1;
    }
    None
}

// ---------------------------------------------------------------------------
// Divisions
// ---------------------------------------------------------------------------

/// The value of a chapter as it was proposed.
pub struct ProposedModel {
    pub title: Seq<char>,
    pub summary: Seq<char>,
    pub groups: Seq<Seq<char>>,
    pub branches: Seq<Seq<char>>,
}

impl View for ChapterDraft {
    type V = ProposedModel;

    open spec fn view(&self) -> ProposedModel {
        ProposedModel {
            title: self.title@,
            summary: self.summary@,
            groups: texts(self.groups@),
            branches: texts(self.branches@),
        }
    }
}

/// The values of chapters as they were proposed.
pub open spec fn proposed_models(v: Seq<ChapterDraft>) -> Seq<ProposedModel> {
    v.map_values(|c: ChapterDraft| c@)
}

/// The chapter that a value writes.
pub open spec fn chapter_in(value: JsonModel) -> Option<ProposedModel> {
    match record(value, seq!["title"@, "summary"@, "groups"@, "branches"@]) {
        Some(members) => named_chapter(members),
        None => None,
    }
}

/// The chapter that some members say.
pub open spec fn named_chapter(value: JsonModel) -> Option<ProposedModel> {
    match (
        value.text("title"@),
        value.text("summary"@),
        read_texts(value, "groups"@),
        read_texts(value, "branches"@),
    ) {
        (Some(title), Some(summary), Some(groups), Some(branches)) => Some(
            ProposedModel { title, summary, groups, branches },
        ),
        _ => None,
    }
}

/// The chapters that the first `count` values write.
pub open spec fn chapters_in(items: Seq<JsonModel>, count: nat) -> Option<Seq<ProposedModel>>
    decreases count,
{
    if count == 0 {
        Some(Seq::empty())
    } else {
        match (chapters_in(items, (count - 1) as nat), chapter_in(items[count - 1])) {
            (Some(done), Some(c)) => Some(done.push(c)),
            _ => None,
        }
    }
}

/// The value of a proposed division.
pub struct DivisionModel {
    pub chapters: Seq<ProposedModel>,
    pub excluded_branches: Seq<ExclusionModel>,
    pub reader_goal: Seq<char>,
    pub storyline: Seq<char>,
}

/// The division that a value writes.
pub open spec fn division_in(value: JsonModel) -> Option<DivisionModel> {
    match record(value, seq!["chapters"@, "excluded_branches"@, "reader_goal"@, "storyline"@]) {
        Some(members) => named_division(members),
        None => None,
    }
}

/// The division that some members say.
pub open spec fn named_division(value: JsonModel) -> Option<DivisionModel> {
    match (
        value.get("chapters"@),
        optional_items(value, "excluded_branches"@),
        value.text("reader_goal"@),
        value.text("storyline"@),
    ) {
        (Some(JsonModel::Arr(items)), Some(left_out), Some(reader_goal), Some(storyline)) => match (
            chapters_in(items, items.len()),
            stored_exclusions(left_out, left_out.len()),
        ) {
            (Some(chapters), Some(excluded_branches)) => Some(
                DivisionModel { chapters, excluded_branches, reader_goal, storyline },
            ),
            _ => None,
        },
        _ => None,
    }
}

proof fn lemma_chapters_stop(items: Seq<JsonModel>, count: nat, all: nat)
    requires
        count <= all,
    ensures
        chapters_in(items, count) is None ==> chapters_in(items, all) is None,
    decreases all - count,
{
    if count < all {
        lemma_chapters_stop(items, count, (all - 1) as nat);
    }
}

/// The chapter that a value writes.
fn read_chapter(value: &Json) -> (r: Option<ChapterDraft>)
    ensures
        match chapter_in(value@) {
            Some(c) => r is Some && r->0@ == c,
            None => r is None,
        },
{
    match value {
        Json::Arr(items) => {
            let names = vec!["title", "summary", "groups", "branches"];
            proof {
                lemma_arr(*items);
                assert(names_of(names@) =~= seq!["title"@, "summary"@, "groups"@, "branches"@]);
            }
            match positional(items, names) {
                Some(members) => chapter_by_name(&members),
                None => None,
            }
        },
        _ => chapter_by_name(value),
    }
}

/// The chapter that some members say.
fn chapter_by_name(value: &Json) -> (r: Option<ChapterDraft>)
    ensures
        match named_chapter(value@) {
            Some(c) => r is Some && r->0@ == c,
            None => r is None,
        },
{
    match (
        value.text("title"),
        value.text("summary"),
        texts_member(value, "groups"),
        texts_member(value, "branches"),
    ) {
        (Some(title), Some(summary), Some(groups), Some(branches)) => Some(
            ChapterDraft {
                title: String::from_str(title),
                summary: String::from_str(summary),
                groups,
                branches,
            },
        ),
        _ => None,
    }
}

/// The chapters that some values write.
fn read_chapters(items: &Vec<Json>) -> (r: Option<Vec<ChapterDraft>>)
    ensures
        match chapters_in(models(items@), items@.len()) {
            Some(list) => r is Some && proposed_models(r->0@) == list,
            None => r is None,
        },
{
    let ghost ms = models(items@);
    let mut chapters: Vec<ChapterDraft> = Vec::new();
    let mut i: usize = 0;
    assert(proposed_models(chapters@) =~= Seq::empty());
    while i < items.len()
        invariant
            i <= items@.len(),
            ms == models(items@),
            chapters_in(ms, i as nat) == Some(proposed_models(chapters@)),
        decreases items@.len() - i,
    {
        let value = &items[i];
        proof {
            assert(ms[i as int] == value@);
            lemma_chapters_stop(ms, (i + 1) as nat, ms.len());
        }
        match read_chapter(value) {
            Some(c) => {
                assert(proposed_models(chapters@.push(c)) =~= proposed_models(chapters@).push(c@));
                chapters.push(c);
            },
            None => {
                return None;
            },
        }
        i += 1;
    }
    Some(chapters)
}

/// A draft proposes a division.
pub open spec fn divides(draft: ChaptersDraft, d: DivisionModel) -> bool {
    &&& proposed_models(draft.chapters@) == d.chapters
    &&& exclusion_models(draft.excluded_branches@) == d.excluded_branches
    &&& draft.reader_goal@ == d.reader_goal
    &&& draft.storyline@ == d.storyline
}

/// Reads a proposed division.
pub fn division_from_json(value: &Json) -> (r: Option<ChaptersDraft>)
    ensures
        match division_in(value@) {
            Some(d) => r is Some && divides(r->0, d),
            None => r is None,
        },
{
    match value {
        Json::Arr(items) => {
            let names = vec!["chapters", "excluded_branches", "reader_goal", "storyline"];
            proof {
                lemma_arr(*items);
                assert(names_of(names@) =~= seq!["chapters"@, "excluded_branches"@, "reader_goal"@, "storyline"@]);
            }
            match positional(items, names) {
                Some(members) => division_by_name(&members),
                None => None,
            }
        },
        _ => division_by_name(value),
    }
}

/// The division that some members say.
fn division_by_name(value: &Json) -> (r: Option<ChaptersDraft>)
    ensures
        match named_division(value@) {
            Some(d) => r is Some && divides(r->0, d),
            None => r is None,
        },
{
    let empty: Vec<Json> = Vec::new();
    assert(models(empty@) =~= Seq::empty());
    match (
        value.items("chapters"),
        array_member(value, "excluded_branches"),
        value.text("reader_goal"),
        value.text("storyline"),
    ) {
        (Some(items), Some(excluded), Some(reader_goal), Some(storyline)) => {
            let left_out: &Vec<Json> = match excluded {
                Some(list) => list,
                None => &empty,
            };
            assert(models(left_out@) =~= optional_items(value@, "excluded_branches"@)->0);
            match (read_chapters(items), exclusions_stored(left_out)) {
                (Some(chapters), Some(excluded_branches)) => Some(
                    ChaptersDraft {
                        chapters,
                        excluded_branches,
                        reader_goal: String::from_str(reader_goal),
                        storyline: String::from_str(storyline),
                    },
                ),
                _ => None,
            }
        },
        _ => None,
    }
}

/// A division, in the first of some readings from `i` on that holds one.
pub open spec fn first_division(list: Seq<Seq<char>>, i: nat) -> Option<DivisionModel>
    decreases list.len() - i,
{
    if i >= list.len() {
        None
    } else {
        match json_value(list[i as int]) {
            Ok(m) => match division_in(m) {
                Some(found) => Some(found),
                None => first_division(list, i + 1),
            },
            Err(_) => first_division(list, i + 1),
        }
    }
}

/// Reads a proposed division out of a response: out of its text, or of what a repair makes
/// of it, or of the object that stands in either.
pub fn decode_division(response: &str) -> (r: Option<ChaptersDraft>)
    ensures
        match first_division(readings(response@), 0) {
            Some(found) => r is Some && divides(r->0, found),
            None => r is None,
        },
{
    let list = candidates(response);
    let ghost all = texts(list@);
    let mut i: usize = 0;
    while i < list.len()
        invariant
            i <= list@.len(),
            all == texts(list@),
            all == readings(response@),
            first_division(all, i as nat) == first_division(all, 0),
        decreases list@.len() - i,
    {
        assert(all[i as int] == list@[i as int]@);
        if let Ok(value) = parse_json(list[i].as_str()) {
            if let Some(found) = division_from_json(&value) {
                return Some(found);
            }
        }
        i += 1;
    }
    None
}

} // verus!
