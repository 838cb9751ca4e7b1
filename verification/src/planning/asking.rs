//! What planning asks for: a plan of the whole document, its chapters, a part of
//! a chapter, and a review; each with what the attempts before it came to.

use vstd::prelude::*;
use vstd::string::StringExecFns;

use crate::editorial::{excerpt, excerpt_of};
use crate::findings::{copy_texts, evidence_ids, Discovery, SourceBrief};
use crate::json::{
    field, json_value, lemma_arr, lemma_obj, member, member_models, models, nat_model, put, put_member,
    texts_json, texts_model, Json, JsonModel, Member, MemberModel,
};
use crate::leaves::{context, supporting_records};
use crate::llm::repair::{
    fault_text, first_value, readings, unfenced, with_repair, DecodeFault, JsonRepair,
};
use crate::model::{Evidence, Outline, OutlineModel};
use crate::planning::accounting::{coverage_shown, coverage_view, Coverage};
use crate::planning::branches::{all_labels, index_from, push_labels, Branch, BranchView, MAX_CHAPTERS};
use crate::planning::chapters::{Batch, Chapter};
use crate::planning::feedback::{
    feedback_shown, feedback_view, outline_shown, outline_view, scope_model, OUTLINE_VIEW_BYTES,
};
use crate::planning::generated::{
    decode_generated_outline, generated, label_models, GeneratedFault, Label, LabelModel,
};
use crate::planning::outline::{
    accepted_outline, ceiling, check_outline, section_ceiling, validate_outline, OutlineFault,
};
use crate::planning::requests::{bare_brief, dependency_repair_context, references_in, uncited};
use crate::planning::rounds::{after_attempt, Attempts, Next, Outcome};
use crate::planning::views::{branch_view, group_view, groups_shown, listed, view_of};
use crate::prompts::{
    chapters_instruction, filled, limits_in, plan_instruction, CHAPTERS_TEMPLATE, CHAPTER_NOTE, COVERAGE_RULES,
    PLAN_TEMPLATE, REVIEW,
};
use crate::reading::{brief_json, brief_record};
use crate::text::{contains, decimal, has, number, texts};

verus! {

// ---------------------------------------------------------------------------
// Attempts
// ---------------------------------------------------------------------------

/// A request that is asked until its answer is usable.
pub struct Asking {
    pub attempts: Attempts,
    /// What was wrong with the last answer.
    pub error: String,
    pub repair: JsonRepair,
}

impl Asking {
    /// A request before its first attempt.
    pub fn start() -> (r: Asking)
        ensures
            r.attempts == (Attempts { made: 0, reductions: 0 }),
            r.attempts.wf(),
            r.error@.len() == 0,
            r.repair.response is None,
    {
        Asking { attempts: Attempts::first(), error: String::new(), repair: JsonRepair::new() }
    }

    /// Takes in the failure of an attempt. The next one is told of it, in as many
    /// bytes as `room`, and packs less where there was no room.
    pub fn failed(&mut self, message: &str, room: usize) -> (r: Next)
        requires
            old(self).attempts.wf(),
        ensures
            ({
                let told = excerpt_of(message@, room as nat);
                let outcome = Outcome::Rejected {
                    context_budget: contains(told, "CONTEXT_BUDGET"@),
                };
                &&& final(self).error@ == told
                &&& (r, final(self).attempts) == after_attempt(old(self).attempts, outcome)
                &&& final(self).repair == old(self).repair
            }),
            r == Next::Retry ==> final(self).attempts.wf(),
    {
        self.error = excerpt(message, room);
        let context_budget = has(self.error.as_str(), "CONTEXT_BUDGET");
        self.attempts.settle(Outcome::Rejected { context_budget })
    }
}

/// A request with what the attempt before it answered; a plan also with every
/// section's references, which an excerpt of that answer may lack.
pub open spec fn repaired(
    members: Seq<MemberModel>,
    repair: JsonRepair,
    references: bool,
) -> Seq<MemberModel> {
    match repair.response {
        None => members,
        Some(response) => {
            let shown = with_repair(
                JsonModel::Obj(members),
                response@,
                repair.truncated,
            )->Obj_0;
            if references {
                put_member(
                    shown,
                    "previous_section_dependencies"@,
                    references_in(response@),
                )
            } else {
                shown
            }
        },
    }
}

/// Adds what the attempt before answered.
fn with_previous(members: Vec<Member>, repair: &JsonRepair, references: bool) -> (r: Vec<Member>)
    ensures
        member_models(r@) == repaired(member_models(members@), *repair, references),
{
    let mut input = Json::object(members);
    repair.apply(&mut input);
    let mut r: Vec<Member> = match input {
        Json::Obj(list) => {
            proof {
                lemma_obj(list);
            }
            list
        },
        Json::Arr(items) => {
            proof {
                lemma_arr(items);
            }
            Vec::new()
        },
        _ => Vec::new(),
    };
    if references {
        if let Some(response) = &repair.response {
            put(
                &mut r,
                "previous_section_dependencies",
                dependency_repair_context(response.as_str()),
            );
        }
    }
    r
}

/// What a document is written for.
pub struct Purpose<'a> {
    pub direction: &'a str,
    pub language: &'a str,
}

/// A number, or null.
pub open spec fn limit_model(limit: Option<u32>) -> JsonModel {
    match limit {
        Some(n) => nat_model(n as nat),
        None => JsonModel::Null,
    }
}

/// A number, or null.
fn limit_json(limit: Option<u32>) -> (r: Json)
    ensures
        r@ == limit_model(limit),
{
    match limit {
        Some(n) => Json::count(n as usize),
        None => Json::Null,
    }
}

// ---------------------------------------------------------------------------
// The whole document
// ---------------------------------------------------------------------------

/// How the plan of a document is asked for.
pub open spec fn whole_instruction(sections: nat) -> Seq<char> {
    limits_in(PLAN_TEMPLATE@) + " At most "@ + decimal(sections)
        + " sections for this document. Respect user feedback and preserve valid existing section IDs when supplied."@
}

/// A request for the plan of a document.
pub open spec fn whole_view(
    purpose: Purpose<'_>,
    discovery: Discovery,
    view: BranchView,
    feedback: JsonModel,
    revision: u32,
    max_diagrams: Option<u32>,
    attempt: nat,
    error: Seq<char>,
) -> Seq<MemberModel> {
    let count = if view.branches@.len() == 0 {
        None
    } else {
        Some(view.branches@.len() as usize)
    };
    seq![
        field("attempt"@, nat_model(attempt)),
        field("feedback"@, feedback_shown(feedback, view, None, OUTLINE_VIEW_BYTES as nat)),
        field("instruction"@, JsonModel::Str(whole_instruction(ceiling(count) as nat))),
        field("language"@, JsonModel::Str(purpose.language@)),
        field("max_diagrams"@, limit_model(max_diagrams)),
        field("previous_error"@, JsonModel::Str(error)),
        field("purpose"@, JsonModel::Str(purpose.direction@)),
        field("revision"@, nat_model(revision as nat)),
        field("source_branches"@, JsonModel::Arr(view_of(view.branches@))),
        field("source_brief"@, brief_record(discovery.brief@)),
        field(
            "supporting_findings"@,
            JsonModel::Arr(supporting_records(discovery.details@, true)),
        ),
    ]
}

/// Branches, borrowed.
fn borrowed<'a>(branches: &'a Vec<Branch>) -> (r: Vec<&'a Branch>)
    ensures
        listed(r@) == branches@,
{
    let mut r: Vec<&Branch> = Vec::new();
    let mut i: usize = 0;
    while i < branches.len()
        invariant
            i <= branches@.len(),
            r@.len() == i,
            forall|k: int| 0 <= k < i ==> *(#[trigger] r@[k]) == branches@[k],
        decreases branches@.len() - i,
    {
        r.push(&branches[i]);
        i += 1;
    }
    assert(listed(r@) =~= branches@);
    r
}

/// Asks for a plan of the whole document. What comes back lacks the passages,
/// which are packed into the room that it leaves.
pub fn plan_whole(
    asking: &Asking,
    purpose: &Purpose<'_>,
    discovery: &Discovery,
    view: &BranchView,
    feedback: &Json,
    revision: u32,
    max_diagrams: Option<u32>,
) -> (r: Vec<Member>)
    requires
        asking.attempts.wf(),
    ensures
        member_models(r@) == repaired(
            whole_view(
                *purpose,
                *discovery,
                *view,
                feedback@,
                revision,
                max_diagrams,
                (asking.attempts.made + 1) as nat,
                asking.error@,
            ),
            asking.repair,
            true,
        ),
{
    let ghost goal = whole_view(
        *purpose,
        *discovery,
        *view,
        feedback@,
        revision,
        max_diagrams,
        (asking.attempts.made + 1) as nat,
        asking.error@,
    );
    let mut instruction = plan_instruction();
    instruction.push_str(" At most ");
    instruction.push_str(number(section_ceiling(view.count()) as u64).as_str());
    instruction.push_str(
        " sections for this document. Respect user feedback and preserve valid existing section IDs when supplied.",
    );
    let branches = borrowed(&view.branches);
    let members = vec![
        member("attempt", Json::count(asking.attempts.made as usize + 1)),
        member("feedback", feedback_view(feedback, view, None, OUTLINE_VIEW_BYTES)),
        member("instruction", Json::Str(instruction)),
        member("language", Json::string(purpose.language)),
        member("max_diagrams", limit_json(max_diagrams)),
        member("previous_error", Json::string(asking.error.as_str())),
        member("purpose", Json::string(purpose.direction)),
        member("revision", Json::count(revision as usize)),
        member("source_branches", Json::array(branch_view(&branches))),
        member("source_brief", brief_json(&discovery.brief)),
        member("supporting_findings", Json::array(context(discovery, true))),
    ];
    assert(member_models(members@) =~= goal);
    with_previous(members, &asking.repair, true)
}

// ---------------------------------------------------------------------------
// Answers
// ---------------------------------------------------------------------------

/// Why the answer to a request for a plan is not usable.
pub enum RejectedPlan {
    /// It is no JSON.
    Unreadable(DecodeFault),
    /// It is no plan.
    Unresolved(GeneratedFault),
    /// The plan, which breaks a rule.
    Invalid(OutlineFault, Outline),
}

/// The plan in an answer, before its rules are checked.
pub open spec fn drafted(value: JsonModel, labels: Seq<LabelModel>, revision: u32, o: Outline) -> bool {
    match generated(value, labels) {
        Ok(plan) => o@ == (OutlineModel { revision, ..plan }),
        Err(_) => false,
    }
}

/// What a plan was drafted as, and was accepted as.
pub open spec fn accepted_as(
    draft: Outline,
    plan: Outline,
    known: Seq<Seq<char>>,
    max_diagrams: Option<u32>,
    branches: Option<usize>,
) -> bool {
    match check_outline(draft, known, max_diagrams, branches) {
        Ok(anchors) => accepted_outline(draft, plan, anchors),
        Err(_) => false,
    }
}

/// What becomes of the plan in an answer: it is accepted, or names the first
/// rule that it breaks.
pub open spec fn judged(
    value: JsonModel,
    labels: Seq<LabelModel>,
    known: Seq<Seq<char>>,
    max_diagrams: Option<u32>,
    branches: Option<usize>,
    revision: u32,
    r: Result<Outline, RejectedPlan>,
) -> bool {
    match r {
        Ok(plan) => exists|draft: Outline| #[trigger]
            drafted(value, labels, revision, draft) && accepted_as(
                draft,
                plan,
                known,
                max_diagrams,
                branches,
            ),
        Err(RejectedPlan::Unresolved(fault)) => generated(value, labels) == Err::<
            OutlineModel,
            GeneratedFault,
        >(fault),
        Err(RejectedPlan::Invalid(fault, draft)) => {
            &&& drafted(value, labels, revision, draft)
            &&& check_outline(draft, known, max_diagrams, branches) == Err::<
                Seq<Seq<Seq<char>>>,
                OutlineFault,
            >(fault)
        },
        Err(RejectedPlan::Unreadable(_)) => false,
    }
}

proof fn lemma_judged(
    value: JsonModel,
    labels: Seq<LabelModel>,
    known: Seq<Seq<char>>,
    max_diagrams: Option<u32>,
    branches: Option<usize>,
    revision: u32,
    draft: Outline,
    plan: Outline,
)
    requires
        drafted(value, labels, revision, draft),
        accepted_as(draft, plan, known, max_diagrams, branches),
    ensures
        judged(value, labels, known, max_diagrams, branches, revision, Ok(plan)),
{
}

/// Checks the plan in an answer.
#[verifier::rlimit(40)]
fn judge_plan(
    value: &Json,
    labels: &Vec<Label>,
    evidence: &Vec<Evidence>,
    max_diagrams: Option<u32>,
    branches: Option<usize>,
    revision: u32,
) -> (r: Result<Outline, RejectedPlan>)
    ensures
        judged(
            value@,
            label_models(labels@),
            evidence_ids(evidence@),
            max_diagrams,
            branches,
            revision,
            r,
        ),
{
    let mut plan = match decode_generated_outline(value, labels) {
        Ok(plan) => plan,
        Err(f) => {
            return Err(RejectedPlan::Unresolved(f));
        },
    };
    plan.revision = revision;
    let ghost draft = plan;
    assert(drafted(value@, label_models(labels@), revision, draft));
    match validate_outline(&mut plan, evidence, max_diagrams, branches) {
        Ok(()) => {
            assert(accepted_as(draft, plan, evidence_ids(evidence@), max_diagrams, branches));
            proof {
                lemma_judged(
                    value@,
                    label_models(labels@),
                    evidence_ids(evidence@),
                    max_diagrams,
                    branches,
                    revision,
                    draft,
                    plan,
                );
            }
            Ok(plan)
        },
        Err(f) => {
            assert(drafted(value@, label_models(labels@), revision, plan));
            Err(RejectedPlan::Invalid(f, plan))
        },
    }
}

/// Reads a plan out of an answer and checks it. The answer is kept for the next
/// attempt.
pub fn accept_plan(
    repair: &mut JsonRepair,
    response: &str,
    labels: &Vec<Label>,
    evidence: &Vec<Evidence>,
    max_diagrams: Option<u32>,
    branches: Option<usize>,
    revision: u32,
) -> (r: Result<Outline, RejectedPlan>)
    ensures
        final(repair).response is Some,
        final(repair).response->0@ == response@,
        match first_value(readings(response@), 0) {
            None => {
                &&& r matches Err(RejectedPlan::Unreadable(f))
                &&& json_value(unfenced(response@)) is Err
                &&& f.truncated == json_value(unfenced(response@))->Err_0.cut
                &&& f.message@ == fault_text(json_value(unfenced(response@))->Err_0)
                &&& final(repair).truncated == f.truncated
            },
            Some(value) => {
                &&& !final(repair).truncated
                &&& judged(
                    value,
                    label_models(labels@),
                    evidence_ids(evidence@),
                    max_diagrams,
                    branches,
                    revision,
                    r,
                )
            },
        },
{
    match repair.decode(response) {
        Ok(value) => judge_plan(&value, labels, evidence, max_diagrams, branches, revision),
        Err(f) => Err(RejectedPlan::Unreadable(f)),
    }
}

// ---------------------------------------------------------------------------
// Chapters
// ---------------------------------------------------------------------------

/// A request for the chapters of a document.
pub open spec fn chapters_view(
    purpose: Purpose<'_>,
    brief: SourceBrief,
    view: BranchView,
    feedback: JsonModel,
    attempt: nat,
    error: Seq<char>,
) -> Seq<MemberModel> {
    seq![
        field("attempt"@, nat_model(attempt)),
        field(
            "feedback"@,
            feedback_shown(feedback, view, None, (OUTLINE_VIEW_BYTES / 2) as nat),
        ),
        field(
            "instruction"@,
            JsonModel::Str(filled(CHAPTERS_TEMPLATE@, "{MAX_CHAPTERS}"@, MAX_CHAPTERS as nat)),
        ),
        field("language"@, JsonModel::Str(purpose.language@)),
        field("phase"@, JsonModel::Str("outline_chapters"@)),
        field("previous_error"@, JsonModel::Str(error)),
        field("purpose"@, JsonModel::Str(purpose.direction@)),
        field("source_brief"@, bare_brief(brief@)),
        field("source_groups"@, JsonModel::Arr(groups_shown(view, 0))),
    ]
}

/// Asks for the branches of a large source to be divided into chapters.
pub fn request_chapters(
    asking: &Asking,
    purpose: &Purpose<'_>,
    brief: &SourceBrief,
    view: &BranchView,
    feedback: &Json,
) -> (r: Json)
    requires
        asking.attempts.wf(),
        view.wf(),
    ensures
        r@ == JsonModel::Obj(
            repaired(
                chapters_view(
                    *purpose,
                    *brief,
                    *view,
                    feedback@,
                    (asking.attempts.made + 1) as nat,
                    asking.error@,
                ),
                asking.repair,
                false,
            ),
        ),
{
    let ghost goal = chapters_view(
        *purpose,
        *brief,
        *view,
        feedback@,
        (asking.attempts.made + 1) as nat,
        asking.error@,
    );
    let members = vec![
        member("attempt", Json::count(asking.attempts.made as usize + 1)),
        member("feedback", feedback_view(feedback, view, None, OUTLINE_VIEW_BYTES / 2)),
        member("instruction", Json::Str(chapters_instruction())),
        member("language", Json::string(purpose.language)),
        member("phase", Json::string("outline_chapters")),
        member("previous_error", Json::string(asking.error.as_str())),
        member("purpose", Json::string(purpose.direction)),
        member("source_brief", uncited(brief)),
        member("source_groups", Json::array(group_view(view))),
    ];
    assert(member_models(members@) =~= goal);
    Json::object(with_previous(members, &asking.repair, false))
}

// ---------------------------------------------------------------------------
// A part of a chapter
// ---------------------------------------------------------------------------

/// A chapter as the requests for its parts name it.
pub open spec fn chapter_record(c: Chapter, index: nat) -> JsonModel {
    JsonModel::Obj(
        seq![
            field("index"@, nat_model(index)),
            field("summary"@, JsonModel::Str(c.summary@)),
            field("title"@, JsonModel::Str(c.title@)),
        ],
    )
}

/// The chapters of a document, in reading order.
pub open spec fn chapter_records(chapters: Seq<Chapter>) -> Seq<JsonModel> {
    Seq::new(chapters.len(), |i: int| chapter_record(chapters[i], i as nat))
}

/// A chapter as the requests for its parts name it.
fn chapter_json(c: &Chapter, index: usize) -> (r: Json)
    ensures
        r@ == chapter_record(*c, index as nat),
{
    let members = vec![
        member("index", Json::count(index)),
        member("summary", Json::string(c.summary.as_str())),
        member("title", Json::string(c.title.as_str())),
    ];
    assert(member_models(members@) =~= chapter_record(*c, index as nat)->Obj_0);
    Json::object(members)
}

/// The chapters of a document, in reading order.
fn chapters_json(chapters: &Vec<Chapter>) -> (r: Vec<Json>)
    ensures
        models(r@) == chapter_records(chapters@),
{
    let ghost goal = chapter_records(chapters@);
    let mut r: Vec<Json> = Vec::new();
    let mut i: usize = 0;
    assert(models(r@) =~= goal.take(0));
    while i < chapters.len()
        invariant
            i <= chapters@.len(),
            goal == chapter_records(chapters@),
            models(r@) == goal.take(i as int),
        decreases chapters@.len() - i,
    {
        let item = chapter_json(&chapters[i], i);
        assert(models(r@.push(item)) =~= models(r@).push(item@));
        assert(goal.take(i + 1) =~= goal.take(i as int).push(item@));
        r.push(item);
        i += 1;
    }
    assert(goal.take(i as int) =~= goal);
    r
}

/// The branches that the first `count` keys name.
pub open spec fn branches_named(view: BranchView, keys: Seq<Seq<char>>, count: nat) -> Seq<Branch>
    decreases count,
{
    if count == 0 {
        Seq::empty()
    } else {
        let so_far = branches_named(view, keys, (count - 1) as nat);
        match index_from(view.branches@, keys[count - 1], 0) {
            Some(i) => so_far.push(view.branches@[i]),
            None => so_far,
        }
    }
}

/// The branches of a part.
pub open spec fn batch_branches(view: BranchView, batch: Batch) -> Seq<Branch> {
    branches_named(view, texts(batch.branches@), batch.branches@.len())
}

/// The files of the first `count` branches.
pub open spec fn files_of(branches: Seq<Branch>, count: nat) -> Seq<Seq<char>>
    decreases count,
{
    if count == 0 {
        Seq::empty()
    } else {
        files_of(branches, (count - 1) as nat) + texts(branches[count - 1].files@)
    }
}

/// The branches of a part.
fn branches_in<'a>(view: &'a BranchView, batch: &Batch) -> (r: Vec<&'a Branch>)
    ensures
        listed(r@) == batch_branches(*view, *batch),
{
    let ghost keys = texts(batch.branches@);
    let mut r: Vec<&Branch> = Vec::new();
    let mut i: usize = 0;
    assert(listed(r@) =~= Seq::empty());
    while i < batch.branches.len()
        invariant
            i <= batch.branches@.len(),
            keys == texts(batch.branches@),
            listed(r@) == branches_named(*view, keys, i as nat),
        decreases batch.branches@.len() - i,
    {
        assert(keys[i as int] == batch.branches@[i as int]@);
        if let Some(b) = view.get(batch.branches[i].as_str()) {
            assert(listed(r@.push(b)) =~= listed(r@).push(*b));
            r.push(b);
        }
        i += 1;
    }
    r
}

/// What the plan of a part may name and be grounded in.
pub struct PartScope {
    /// The labels of its branches, with their keys.
    pub labels: Vec<Label>,
    /// The files of its branches.
    pub files: Vec<String>,
}

/// The labels and the files of a part.
pub fn part_scope(view: &BranchView, batch: &Batch) -> (r: PartScope)
    ensures
        ({
            let branches = batch_branches(*view, *batch);
            &&& label_models(r.labels@) == all_labels(branches, branches.len())
            &&& texts(r.files@) == files_of(branches, branches.len())
        }),
{
    let members = branches_in(view, batch);
    let ghost branches = listed(members@);
    let mut labels: Vec<Label> = Vec::new();
    let mut files: Vec<String> = Vec::new();
    let mut i: usize = 0;
    assert(label_models(labels@) =~= Seq::empty());
    assert(texts(files@) =~= Seq::empty());
    while i < members.len()
        invariant
            i <= members@.len(),
            branches == listed(members@),
            label_models(labels@) == all_labels(branches, i as nat),
            texts(files@) == files_of(branches, i as nat),
        decreases members@.len() - i,
    {
        let b = members[i];
        assert(branches[i as int] == *b);
        push_labels(&mut labels, b);
        let mut own = copy_texts(&b.files);
        let ghost before = files@;
        let ghost added = own@;
        files.append(&mut own);
        assert(texts(files@) =~= texts(before) + texts(added));
        i += 1;
    }
    PartScope { labels, files }
}

/// How the plan of a part is asked for.
pub open spec fn part_instruction(sections: nat) -> Seq<char> {
    limits_in(PLAN_TEMPLATE@) + " "@ + CHAPTER_NOTE@ + " At most "@ + decimal(sections)
        + " sections for this part."@
}

/// What a part of a chapter may take of the document.
pub struct PartShare {
    pub sections: usize,
    pub diagrams: Option<u32>,
}

/// Which part of a chapter it is.
pub open spec fn part_record(batch: Batch) -> JsonModel {
    JsonModel::Obj(
        seq![
            field("part"@, nat_model((batch.part + 1) as nat)),
            field("parts"@, nat_model(batch.parts as nat)),
        ],
    )
}

/// A request for the plan of a part of a chapter.
pub open spec fn part_view(
    purpose: Purpose<'_>,
    scoped: Discovery,
    view: BranchView,
    chapters: Seq<Chapter>,
    batch: Batch,
    share: PartShare,
    earlier: Seq<Seq<char>>,
    feedback: JsonModel,
    revision: u32,
    attempt: nat,
    error: Seq<char>,
) -> Seq<MemberModel> {
    seq![
        field("attempt"@, nat_model(attempt)),
        field("chapter"@, chapter_records(chapters)[batch.chapter as int]),
        field("document_chapters"@, JsonModel::Arr(chapter_records(chapters))),
        field(
            "earlier_section_titles"@,
            texts_model(earlier.map_values(|t: Seq<char>| excerpt_of(t, 120))),
        ),
        field(
            "feedback"@,
            feedback_shown(
                feedback,
                view,
                Some(texts(batch.branches@)),
                (OUTLINE_VIEW_BYTES / 2) as nat,
            ),
        ),
        field("instruction"@, JsonModel::Str(part_instruction(share.sections as nat))),
        field("language"@, JsonModel::Str(purpose.language@)),
        field("max_diagrams"@, limit_model(share.diagrams)),
        field("part"@, part_record(batch)),
        field("previous_error"@, JsonModel::Str(error)),
        field("purpose"@, JsonModel::Str(purpose.direction@)),
        field("revision"@, nat_model(revision as nat)),
        field("source_branches"@, JsonModel::Arr(view_of(batch_branches(view, batch)))),
        field("source_brief"@, brief_record(scoped.brief@)),
        field("supporting_findings"@, JsonModel::Arr(supporting_records(scoped.details@, true))),
    ]
}

/// Titles, shortened.
fn shorten_titles(titles: &Vec<String>) -> (r: Vec<String>)
    ensures
        texts(r@) == texts(titles@).map_values(|t: Seq<char>| excerpt_of(t, 120)),
{
    let ghost goal = texts(titles@).map_values(|t: Seq<char>| excerpt_of(t, 120));
    let mut r: Vec<String> = Vec::new();
    let mut i: usize = 0;
    assert(texts(r@) =~= goal.take(0));
    while i < titles.len()
        invariant
            i <= titles@.len(),
            goal == texts(titles@).map_values(|t: Seq<char>| excerpt_of(t, 120)),
            texts(r@) == goal.take(i as int),
        decreases titles@.len() - i,
    {
        let t = excerpt(titles[i].as_str(), 120);
        assert(texts(r@.push(t)) =~= texts(r@).push(t@));
        assert(goal.take(i + 1) =~= goal.take(i as int).push(t@));
        r.push(t);
        i += 1;
    }
    assert(goal.take(i as int) =~= goal);
    r
}

/// Asks for the plan of a part of a chapter, from what was read of its files
/// alone. What comes back lacks the passages, which are packed into the room
/// that it leaves.
#[verifier::rlimit(40)]
pub fn plan_chapter(
    asking: &Asking,
    purpose: &Purpose<'_>,
    scoped: &Discovery,
    view: &BranchView,
    chapters: &Vec<Chapter>,
    batch: &Batch,
    share: &PartShare,
    earlier: &Vec<String>,
    feedback: &Json,
    revision: u32,
) -> (r: Vec<Member>)
    requires
        asking.attempts.wf(),
        batch.chapter < chapters@.len(),
        batch.part < usize::MAX,
    ensures
        member_models(r@) == repaired(
            part_view(
                *purpose,
                *scoped,
                *view,
                chapters@,
                *batch,
                *share,
                texts(earlier@),
                feedback@,
                revision,
                (asking.attempts.made + 1) as nat,
                asking.error@,
            ),
            asking.repair,
            true,
        ),
{
    let ghost goal = part_view(
        *purpose,
        *scoped,
        *view,
        chapters@,
        *batch,
        *share,
        texts(earlier@),
        feedback@,
        revision,
        (asking.attempts.made + 1) as nat,
        asking.error@,
    );
    let mut instruction = plan_instruction();
    instruction.push_str(" ");
    instruction.push_str(CHAPTER_NOTE);
    instruction.push_str(" At most ");
    instruction.push_str(number(share.sections as u64).as_str());
    instruction.push_str(" sections for this part.");
    let part = vec![
        member("part", Json::count(batch.part + 1)),
        member("parts", Json::count(batch.parts)),
    ];
    assert(member_models(part@) =~= part_record(*batch)->Obj_0);
    let branches = branches_in(view, batch);
    assert(scope_model(Some(&batch.branches)) == Some(texts(batch.branches@)));
    let members = vec![
        member("attempt", Json::count(asking.attempts.made as usize + 1)),
        member("chapter", chapter_json(&chapters[batch.chapter], batch.chapter)),
        member("document_chapters", Json::array(chapters_json(chapters))),
        member("earlier_section_titles", texts_json(&shorten_titles(earlier))),
        member(
            "feedback",
            feedback_view(feedback, view, Some(&batch.branches), OUTLINE_VIEW_BYTES / 2),
        ),
        member("instruction", Json::Str(instruction)),
        member("language", Json::string(purpose.language)),
        member("max_diagrams", limit_json(share.diagrams)),
        member("part", Json::object(part)),
        member("previous_error", Json::string(asking.error.as_str())),
        member("purpose", Json::string(purpose.direction)),
        member("revision", Json::count(revision as usize)),
        member("source_branches", Json::array(branch_view(&branches))),
        member("source_brief", brief_json(&scoped.brief)),
        member("supporting_findings", Json::array(context(scoped, true))),
    ];
    assert(member_models(members@) =~= goal);
    with_previous(members, &asking.repair, true)
}

// ---------------------------------------------------------------------------
// Reviews
// ---------------------------------------------------------------------------

/// A request for the review of a plan.
pub open spec fn review_view(
    purpose: Purpose<'_>,
    discovery: Discovery,
    view: BranchView,
    plan: Outline,
    attempt: nat,
    error: Seq<char>,
) -> Seq<MemberModel> {
    seq![
        field("attempt"@, nat_model(attempt)),
        field("instruction"@, JsonModel::Str(REVIEW@)),
        field("language"@, JsonModel::Str(purpose.language@)),
        field(
            "outline"@,
            outline_shown(
                plan@,
                Seq::new(plan.sections@.len(), |i: int| true),
                view.labels(),
                OUTLINE_VIEW_BYTES as nat,
                0,
            ),
        ),
        field("phase"@, JsonModel::Str("outline_review"@)),
        field("previous_error"@, JsonModel::Str(error)),
        field("purpose"@, JsonModel::Str(purpose.direction@)),
        field("source_brief"@, bare_brief(discovery.brief@)),
        field(
            "supporting_findings"@,
            JsonModel::Arr(supporting_records(discovery.details@, false)),
        ),
    ]
}

/// A request for a review with what the plan covers, where that is known.
pub open spec fn with_coverage(members: Seq<MemberModel>, coverage: Option<Coverage>) -> Seq<
    MemberModel,
> {
    match coverage {
        None => members,
        Some(c) => put_member(
            put_member(members, "branch_coverage"@, coverage_shown(c, 0)),
            "coverage_rules"@,
            JsonModel::Str(COVERAGE_RULES@),
        ),
    }
}

/// Asks for a review of a plan.
pub fn review_outline(
    asking: &Asking,
    purpose: &Purpose<'_>,
    discovery: &Discovery,
    view: &BranchView,
    plan: &Outline,
    coverage: &Option<Coverage>,
) -> (r: Json)
    ensures
        r@ == JsonModel::Obj(
            repaired(
                with_coverage(
                    review_view(
                        *purpose,
                        *discovery,
                        *view,
                        *plan,
                        asking.attempts.made as nat,
                        asking.error@,
                    ),
                    *coverage,
                ),
                asking.repair,
                false,
            ),
        ),
{
    let ghost goal = review_view(
        *purpose,
        *discovery,
        *view,
        *plan,
        asking.attempts.made as nat,
        asking.error@,
    );
    let ghost every = Seq::new(plan.sections@.len(), |i: int| true);
    let mut chosen: Vec<bool> = Vec::new();
    while chosen.len() < plan.sections.len()
        invariant
            chosen@.len() <= plan.sections@.len(),
            forall|k: int| 0 <= k < chosen@.len() ==> #[trigger] chosen@[k],
        decreases plan.sections@.len() - chosen@.len(),
    {
        chosen.push(true);
    }
    assert(chosen@ =~= every);
    let labels = view.keys_by_label();
    let mut members = vec![
        member("attempt", Json::count(asking.attempts.made as usize)),
        member("instruction", Json::string(REVIEW)),
        member("language", Json::string(purpose.language)),
        member("outline", outline_view(plan, &labels, &chosen, OUTLINE_VIEW_BYTES)),
        member("phase", Json::string("outline_review")),
        member("previous_error", Json::string(asking.error.as_str())),
        member("purpose", Json::string(purpose.direction)),
        member("source_brief", uncited(&discovery.brief)),
        member("supporting_findings", Json::array(context(discovery, false))),
    ];
    assert(member_models(members@) =~= goal);
    if let Some(c) = coverage {
        put(&mut members, "branch_coverage", coverage_view(c));
        put(&mut members, "coverage_rules", Json::string(COVERAGE_RULES));
    }
    Json::object(with_previous(members, &asking.repair, false))
}

} // verus!
