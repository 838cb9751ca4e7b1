//! A plan, and what was said of it, as review and correction requests carry
//! them.

use vstd::prelude::*;
use vstd::string::StringExecFns;

use crate::editorial::{excerpt, excerpt_of};
use crate::json::{
    field, lemma_obj, member, member_models, models, nat_model, text_of, texts_json, texts_model, Json,
    JsonModel, Member, MemberModel,
};
use crate::model::{
    exclusion_models, section_models, BranchExclusion, ExclusionModel, Outline, OutlineModel, SectionModel,
    SectionPlan,
};
use crate::planning::accounting::{labelled, labels_for, short, short_id};
use crate::planning::branches::{find_label, label_of, owner_from, BranchView};
use crate::planning::generated::{label_models, Label, LabelModel};
use crate::planning::stored::{outline_from_json, stored_plan};
use crate::text::{blen, list_has, same, texts};

verus! {

/// Bytes that a plan may take when a review or a correction round is shown it.
pub const OUTLINE_VIEW_BYTES: usize = 32_000;

/// How much of a plan a request tells: bytes of a key point (none where it is
/// zero), of the storyline and of a title.
pub struct OutlineDetail {
    pub points: usize,
    pub story: usize,
    pub title: usize,
}

/// The attempts at a view of a plan, from the most told to the least.
pub open spec fn outline_detail(attempt: int) -> OutlineDetail {
    if attempt == 0 {
        OutlineDetail { points: 400, story: 4000, title: 300 }
    } else if attempt == 1 {
        OutlineDetail { points: 200, story: 2000, title: 300 }
    } else if attempt == 2 {
        OutlineDetail { points: 100, story: 1000, title: 300 }
    } else if attempt == 3 {
        OutlineDetail { points: 0, story: 600, title: 300 }
    } else if attempt == 4 {
        OutlineDetail { points: 0, story: 300, title: 60 }
    } else {
        OutlineDetail { points: 0, story: 200, title: 36 }
    }
}

/// Texts, each shortened.
pub open spec fn cut(list: Seq<Seq<char>>, limit: nat) -> JsonModel {
    texts_model(list.map_values(|t: Seq<char>| excerpt_of(t, limit)))
}

/// The key points of a section, where any are told.
pub open spec fn points_member(section: SectionModel, d: OutlineDetail) -> Seq<MemberModel> {
    if d.points > 0 {
        seq![field("key_points"@, cut(section.key_points, d.points as nat))]
    } else {
        Seq::empty()
    }
}

/// How many diagrams a section plans.
pub open spec fn planned_diagrams(section: SectionModel) -> nat {
    match section.diagrams {
        Some(d) => d.len(),
        None => 0,
    }
}

/// The number of diagrams of a section, where there are some and titles are
/// not cut to the bone.
pub open spec fn diagrams_member(section: SectionModel, d: OutlineDetail) -> Seq<MemberModel> {
    if planned_diagrams(section) > 0 && d.title > 60 {
        seq![field("diagrams"@, nat_model(planned_diagrams(section)))]
    } else {
        Seq::empty()
    }
}

/// The numbers of a list.
pub open spec fn numbers_model(list: Seq<usize>) -> JsonModel {
    JsonModel::Arr(list.map_values(|n: usize| nat_model(n as nat)))
}

/// The prerequisites of a section, where there are some and titles are not cut
/// to the bone.
pub open spec fn depends_member(section: SectionModel, d: OutlineDetail) -> Seq<MemberModel> {
    if section.depends_on.len() > 0 && d.title > 60 {
        seq![field("depends_on"@, numbers_model(section.depends_on))]
    } else {
        Seq::empty()
    }
}

/// A section as a request tells it.
pub open spec fn section_record(
    section: SectionModel,
    index: nat,
    labels: Seq<LabelModel>,
    d: OutlineDetail,
) -> JsonModel {
    JsonModel::Obj(
        seq![field("branches"@, texts_model(labelled(labels, section.branches)))]
            + depends_member(section, d) + diagrams_member(section, d) + seq![
            field("id"@, JsonModel::Str(short(section.id))),
            field("index"@, nat_model(index)),
        ] + points_member(section, d) + seq![
            field("title"@, JsonModel::Str(excerpt_of(section.title, d.title as nat))),
        ],
    )
}

/// The included ones of the first `count` sections.
pub open spec fn section_records(
    sections: Seq<SectionModel>,
    chosen: Seq<bool>,
    labels: Seq<LabelModel>,
    d: OutlineDetail,
    count: nat,
) -> Seq<JsonModel>
    decreases count,
{
    if count == 0 {
        Seq::empty()
    } else {
        let before = section_records(sections, chosen, labels, d, (count - 1) as nat);
        if chosen[count - 1] {
            before.push(section_record(sections[count - 1], (count - 1) as nat, labels, d))
        } else {
            before
        }
    }
}

/// An exclusion as a request tells it.
pub open spec fn exclusion_record(e: ExclusionModel, labels: Seq<LabelModel>) -> JsonModel {
    JsonModel::Obj(
        seq![
            field(
                "branch"@,
                JsonModel::Str(
                    match label_of(labels, e.branch) {
                        Some(label) => label,
                        None => "unlisted"@,
                    },
                ),
            ),
            field("reason"@, JsonModel::Str(excerpt_of(e.reason, 300))),
        ],
    )
}

/// A plan at one attempt.
pub open spec fn outline_record(
    plan: OutlineModel,
    chosen: Seq<bool>,
    labels: Seq<LabelModel>,
    d: OutlineDetail,
) -> JsonModel {
    JsonModel::Obj(
        seq![
            field(
                "excluded_branches"@,
                JsonModel::Arr(
                    plan.excluded_branches.map_values(
                        |e: ExclusionModel| exclusion_record(e, labels),
                    ),
                ),
            ),
            field("reader_goal"@, JsonModel::Str(excerpt_of(plan.reader_goal, (d.story / 2) as nat))),
            field("revision"@, nat_model(plan.revision as nat)),
            field(
                "sections"@,
                JsonModel::Arr(
                    section_records(plan.sections, chosen, labels, d, plan.sections.len()),
                ),
            ),
            field("storyline"@, JsonModel::Str(excerpt_of(plan.storyline, d.story as nat))),
        ],
    )
}

/// The first attempt, from `attempt` on, that fits a budget, and the last where
/// none does.
pub open spec fn outline_shown(
    plan: OutlineModel,
    chosen: Seq<bool>,
    labels: Seq<LabelModel>,
    budget: nat,
    attempt: nat,
) -> JsonModel
    decreases 5 - attempt,
{
    let record = outline_record(plan, chosen, labels, outline_detail(attempt as int));
    if attempt >= 5 || blen(text_of(record)) <= budget {
        record
    } else {
        outline_shown(plan, chosen, labels, budget, attempt + 1)
    }
}

/// Texts, each shortened.
fn cut_texts(list: &Vec<String>, limit: usize) -> (r: Json)
    ensures
        r@ == cut(texts(list@), limit as nat),
{
    let ghost goal = texts(list@).map_values(|t: Seq<char>| excerpt_of(t, limit as nat));
    let mut r: Vec<String> = Vec::new();
    let mut i: usize = 0;
    assert(texts(r@) =~= goal.take(0));
    while i < list.len()
        invariant
            i <= list@.len(),
            goal == texts(list@).map_values(|t: Seq<char>| excerpt_of(t, limit as nat)),
            texts(r@) == goal.take(i as int),
        decreases list@.len() - i,
    {
        let t = excerpt(list[i].as_str(), limit);
        assert(texts(r@.push(t)) =~= texts(r@).push(t@));
        assert(goal.take(i + 1) =~= goal.take(i as int).push(t@));
        r.push(t);
        i += 1;
    }
    assert(goal.take(i as int) =~= goal);
    texts_json(&r)
}

/// The numbers of a list.
fn numbers_json(list: &Vec<usize>) -> (r: Json)
    ensures
        r@ == numbers_model(list@),
{
    let ghost goal = list@.map_values(|n: usize| nat_model(n as nat));
    let mut items: Vec<Json> = Vec::new();
    let mut i: usize = 0;
    assert(models(items@) =~= goal.take(0));
    while i < list.len()
        invariant
            i <= list@.len(),
            goal == list@.map_values(|n: usize| nat_model(n as nat)),
            models(items@) == goal.take(i as int),
        decreases list@.len() - i,
    {
        let item = Json::count(list[i]);
        assert(models(items@.push(item)) =~= models(items@).push(item@));
        assert(goal.take(i + 1) =~= goal.take(i as int).push(item@));
        items.push(item);
        i += 1;
    }
    assert(goal.take(i as int) =~= goal);
    Json::array(items)
}

/// A section as a request tells it.
fn section_json(section: &SectionPlan, index: usize, labels: &Vec<Label>, d: &OutlineDetail) -> (r:
    Json)
    ensures
        r@ == section_record(section@, index as nat, label_models(labels@), *d),
{
    let ghost m = section@;
    let ghost ls = label_models(labels@);
    let mut members = vec![member("branches", texts_json(&labels_for(labels, &section.branches)))];
    let ghost first = seq![field("branches"@, texts_model(labelled(ls, m.branches)))];
    assert(member_models(members@) =~= first);
    if section.depends_on.len() > 0 && d.title > 60 {
        let k = member("depends_on", numbers_json(&section.depends_on));
        assert(member_models(members@.push(k)) =~= first + depends_member(m, *d));
        members.push(k);
    }
    let ghost second = first + depends_member(m, *d);
    assert(member_models(members@) =~= second);
    let count: usize = match &section.diagrams {
        Some(list) => list.len(),
        None => 0,
    };
    assert(count == planned_diagrams(m));
    if count > 0 && d.title > 60 {
        let k = member("diagrams", Json::count(count));
        assert(member_models(members@.push(k)) =~= second + diagrams_member(m, *d));
        members.push(k);
    }
    let ghost third = second + diagrams_member(m, *d);
    assert(member_models(members@) =~= third);
    members.push(member("id", Json::string(short_id(section.id.as_str()).as_str())));
    members.push(member("index", Json::count(index)));
    let ghost fourth = third + seq![
        field("id"@, JsonModel::Str(short(m.id))),
        field("index"@, nat_model(index as nat)),
    ];
    assert(member_models(members@) =~= fourth);
    if d.points > 0 {
        let k = member("key_points", cut_texts(&section.key_points, d.points));
        assert(member_models(members@.push(k)) =~= fourth + points_member(m, *d));
        members.push(k);
    }
    let ghost fifth = fourth + points_member(m, *d);
    assert(member_models(members@) =~= fifth);
    members.push(
        member("title", Json::string(excerpt(section.title.as_str(), d.title).as_str())),
    );
    assert(member_models(members@) =~= fifth + seq![
        field("title"@, JsonModel::Str(excerpt_of(m.title, d.title as nat))),
    ]);
    Json::object(members)
}

/// Exclusions as a request tells them.
fn exclusions_json(list: &Vec<BranchExclusion>, labels: &Vec<Label>) -> (r: Json)
    ensures
        r@ == JsonModel::Arr(
            exclusion_models(list@).map_values(
                |e: ExclusionModel| exclusion_record(e, label_models(labels@)),
            ),
        ),
{
    let ghost ls = label_models(labels@);
    let ghost goal = exclusion_models(list@).map_values(
        |e: ExclusionModel| exclusion_record(e, ls),
    );
    let mut items: Vec<Json> = Vec::new();
    let mut i: usize = 0;
    assert(models(items@) =~= goal.take(0));
    while i < list.len()
        invariant
            i <= list@.len(),
            ls == label_models(labels@),
            goal == exclusion_models(list@).map_values(
                |e: ExclusionModel| exclusion_record(e, ls),
            ),
            models(items@) == goal.take(i as int),
        decreases list@.len() - i,
    {
        let e = &list[i];
        let label = match find_label(labels, e.branch.as_str()) {
            Some(label) => label.clone(),
            None => String::from_str("unlisted"),
        };
        let members = vec![
            member("branch", Json::Str(label)),
            member("reason", Json::string(excerpt(e.reason.as_str(), 300).as_str())),
        ];
        let item = Json::object(members);
        proof {
            assert(member_models(members@) =~= exclusion_record(e@, ls)->Obj_0);
            assert(goal[i as int] == item@);
            assert(models(items@.push(item)) =~= models(items@).push(item@));
            assert(goal.take(i + 1) =~= goal.take(i as int).push(item@));
        }
        items.push(item);
        i += 1;
    }
    assert(goal.take(i as int) =~= goal);
    Json::array(items)
}

/// One attempt at a view of a plan.
fn detail_of(attempt: usize) -> (r: OutlineDetail)
    ensures
        r == outline_detail(attempt as int),
{
    if attempt == 0 {
        OutlineDetail { points: 400, story: 4000, title: 300 }
    } else if attempt == 1 {
        OutlineDetail { points: 200, story: 2000, title: 300 }
    } else if attempt == 2 {
        OutlineDetail { points: 100, story: 1000, title: 300 }
    } else if attempt == 3 {
        OutlineDetail { points: 0, story: 600, title: 300 }
    } else if attempt == 4 {
        OutlineDetail { points: 0, story: 300, title: 60 }
    } else {
        OutlineDetail { points: 0, story: 200, title: 36 }
    }
}

/// A plan as a review or a correction round sees it: titles, key points, branch
/// labels and prerequisites of the included sections, shortened until it fits.
pub fn outline_view(plan: &Outline, labels: &Vec<Label>, chosen: &Vec<bool>, budget: usize) -> (r:
    Json)
    requires
        chosen@.len() == plan.sections@.len(),
    ensures
        r@ == outline_shown(plan@, chosen@, label_models(labels@), budget as nat, 0),
{
    let ghost m = plan@;
    let ghost ls = label_models(labels@);
    let mut attempt: usize = 0;
    loop
        invariant
            attempt <= 5,
            chosen@.len() == plan.sections@.len(),
            m == plan@,
            ls == label_models(labels@),
            outline_shown(m, chosen@, ls, budget as nat, attempt as nat) == outline_shown(
                m,
                chosen@,
                ls,
                budget as nat,
                0,
            ),
        decreases 5 - attempt,
    {
        let d = detail_of(attempt);
        let mut sections: Vec<Json> = Vec::new();
        let mut i: usize = 0;
        assert(models(sections@) =~= Seq::empty());
        while i < plan.sections.len()
            invariant
                i <= plan.sections@.len(),
                chosen@.len() == plan.sections@.len(),
                m == plan@,
                ls == label_models(labels@),
                models(sections@) == section_records(m.sections, chosen@, ls, d, i as nat),
            decreases plan.sections@.len() - i,
        {
            assert(m.sections[i as int] == plan.sections@[i as int]@);
            if chosen[i] {
                let item = section_json(&plan.sections[i], i, labels, &d);
                assert(models(sections@.push(item)) =~= models(sections@).push(item@));
                sections.push(item);
            }
            i += 1;
        }
        assert(m.sections.len() == plan.sections@.len());
        let goal_text = excerpt(plan.reader_goal.as_str(), d.story / 2);
        let story_text = excerpt(plan.storyline.as_str(), d.story);
        let members = vec![
            member("excluded_branches", exclusions_json(&plan.excluded_branches, labels)),
            member("reader_goal", Json::string(goal_text.as_str())),
            member("revision", Json::count(plan.revision as usize)),
            member("sections", Json::array(sections)),
            member("storyline", Json::string(story_text.as_str())),
        ];
        assert(member_models(members@) =~= outline_record(m, chosen@, ls, d)->Obj_0);
        let record = Json::object(members);
        if attempt >= 5 || record.size() <= budget {
            return record;
        }
        attempt += 1;
    }
}

// ---------------------------------------------------------------------------
// Feedback
// ---------------------------------------------------------------------------

/// A section took one of the branches in scope.
pub open spec fn in_scope(
    section: SectionModel,
    view: BranchView,
    scope: Option<Seq<Seq<char>>>,
) -> bool {
    match scope {
        None => true,
        Some(keys) => exists|b: int|
            0 <= b < section.branches.len() && (owner_from(
                view.branches@,
                #[trigger] section.branches[b],
                0,
            ) matches Some(o) && keys.contains(view.branches@[o].key@)),
    }
}

/// Which sections of a plan are in scope.
pub open spec fn scoped(
    sections: Seq<SectionModel>,
    view: BranchView,
    scope: Option<Seq<Seq<char>>>,
) -> Seq<bool> {
    sections.map_values(|s: SectionModel| in_scope(s, view, scope))
}

/// One of the texts is the id of a section in scope.
pub open spec fn names_chosen(
    items: Seq<JsonModel>,
    sections: Seq<SectionModel>,
    chosen: Seq<bool>,
) -> bool {
    exists|i: int, s: int|
        0 <= i < items.len() && 0 <= s < sections.len() && chosen[s] && #[trigger] items[i]
            == JsonModel::Str((#[trigger] sections[s]).id)
}

/// None of the values is a string.
pub open spec fn no_strings(items: Seq<JsonModel>) -> bool {
    forall|i: int| 0 <= i < items.len() ==> !(#[trigger] items[i] is Str)
}

/// An issue concerns the sections in scope: it names one, or none at all.
pub open spec fn issue_kept(
    issue: JsonModel,
    scope: Option<Seq<Seq<char>>>,
    sections: Seq<SectionModel>,
    chosen: Seq<bool>,
) -> bool {
    let ids = issue.items("section_ids"@);
    scope is None || no_strings(ids) || names_chosen(ids, sections, chosen)
}

/// The member with this name, and null where there is none.
pub open spec fn or_null(value: JsonModel, name: Seq<char>) -> JsonModel {
    match value.get(name) {
        Some(v) => v,
        None => JsonModel::Null,
    }
}

/// The text of the member with this name, and an empty one where there is none.
pub open spec fn or_empty(value: JsonModel, name: Seq<char>) -> Seq<char> {
    match value.text(name) {
        Some(s) => s,
        None => Seq::empty(),
    }
}

/// The strings among the first `count` values, shortened as ids.
pub open spec fn short_ids(items: Seq<JsonModel>, count: nat) -> Seq<Seq<char>>
    decreases count,
{
    if count == 0 {
        Seq::empty()
    } else {
        let before = short_ids(items, (count - 1) as nat);
        match items[count - 1] {
            JsonModel::Str(s) => before.push(short(s)),
            _ => before,
        }
    }
}

/// An issue as a planning request carries it.
pub open spec fn issue_record(issue: JsonModel) -> JsonModel {
    let ids = issue.items("section_ids"@);
    JsonModel::Obj(
        seq![
            field("code"@, or_null(issue, "code"@)),
            field("message"@, JsonModel::Str(excerpt_of(or_empty(issue, "message"@), 1000))),
            field("query"@, JsonModel::Str(excerpt_of(or_empty(issue, "query"@), 300))),
            field("section_ids"@, texts_model(short_ids(ids, ids.len()))),
            field("severity"@, or_null(issue, "severity"@)),
        ],
    )
}

/// Up to twelve of the first `count` issues, those that are kept.
pub open spec fn issue_records(
    issues: Seq<JsonModel>,
    scope: Option<Seq<Seq<char>>>,
    sections: Seq<SectionModel>,
    chosen: Seq<bool>,
    count: nat,
) -> Seq<JsonModel>
    decreases count,
{
    if count == 0 {
        Seq::empty()
    } else {
        let before = issue_records(issues, scope, sections, chosen, (count - 1) as nat);
        if before.len() < 12 && issue_kept(issues[count - 1], scope, sections, chosen) {
            before.push(issue_record(issues[count - 1]))
        } else {
            before
        }
    }
}

/// A draft note concerns a section in scope.
pub open spec fn note_kept(note: JsonModel, scope: Option<Seq<Seq<char>>>, chosen: Seq<bool>) -> bool {
    scope is None || (or_null(note, "section"@).natural() matches Some(n) && n < chosen.len()
        && chosen[n as int])
}

/// The kept ones of the first `count` draft notes.
pub open spec fn notes_kept(
    notes: Seq<JsonModel>,
    scope: Option<Seq<Seq<char>>>,
    chosen: Seq<bool>,
    count: nat,
) -> Seq<JsonModel>
    decreases count,
{
    if count == 0 {
        Seq::empty()
    } else {
        let before = notes_kept(notes, scope, chosen, (count - 1) as nat);
        if note_kept(notes[count - 1], scope, chosen) {
            before.push(notes[count - 1])
        } else {
            before
        }
    }
}

/// The sections of the previous plan, where it can be read.
pub open spec fn previous_sections(feedback: JsonModel) -> Seq<SectionModel> {
    match feedback.get("previous_plan"@) {
        Some(value) => match stored_plan(value) {
            Some(plan) => plan.sections,
            None => Seq::empty(),
        },
        None => Seq::empty(),
    }
}

/// The previous plan as a planning request carries it.
pub open spec fn previous_member(
    feedback: JsonModel,
    view: BranchView,
    scope: Option<Seq<Seq<char>>>,
    budget: nat,
) -> Seq<MemberModel> {
    match feedback.get("previous_plan"@) {
        None => Seq::empty(),
        Some(value) => seq![
            field(
                "previous_plan"@,
                match stored_plan(value) {
                    Some(plan) => outline_shown(
                        plan,
                        scoped(plan.sections, view, scope),
                        view.labels(),
                        budget,
                        0,
                    ),
                    None => JsonModel::Str(excerpt_of(text_of(value), budget / 4)),
                },
            ),
        ],
    }
}

/// The issues as a planning request carries them.
pub open spec fn issues_member(
    feedback: JsonModel,
    scope: Option<Seq<Seq<char>>>,
    sections: Seq<SectionModel>,
    chosen: Seq<bool>,
) -> Seq<MemberModel> {
    match feedback.get("issues"@) {
        Some(JsonModel::Arr(items)) => seq![
            field(
                "issues"@,
                JsonModel::Arr(issue_records(items, scope, sections, chosen, items.len())),
            ),
        ],
        _ => Seq::empty(),
    }
}

/// What the user said, as a planning request carries it.
pub open spec fn user_member(feedback: JsonModel) -> Seq<MemberModel> {
    match feedback.get("user_feedback"@) {
        Some(value) => seq![field("user_feedback"@, value)],
        None => Seq::empty(),
    }
}

/// The draft notes as a planning request carries them.
pub open spec fn notes_member(
    feedback: JsonModel,
    scope: Option<Seq<Seq<char>>>,
    chosen: Seq<bool>,
) -> Seq<MemberModel> {
    match feedback.get("draft_context"@) {
        Some(JsonModel::Arr(items)) => seq![
            field(
                "draft_context"@,
                JsonModel::Arr(notes_kept(items, scope, chosen, items.len())),
            ),
        ],
        _ => Seq::empty(),
    }
}

/// Feedback as a planning request carries it.
pub open spec fn feedback_shown(
    feedback: JsonModel,
    view: BranchView,
    scope: Option<Seq<Seq<char>>>,
    budget: nat,
) -> JsonModel {
    let sections = previous_sections(feedback);
    let chosen = scoped(sections, view, scope);
    if !(feedback is Obj) || feedback->Obj_0.len() == 0 {
        feedback
    } else {
        JsonModel::Obj(
            notes_member(feedback, scope, chosen) + issues_member(feedback, scope, sections, chosen)
                + previous_member(feedback, view, scope, budget) + user_member(feedback),
        )
    }
}

/// The value of a scope.
pub open spec fn scope_model(scope: Option<&Vec<String>>) -> Option<Seq<Seq<char>>> {
    match scope {
        Some(keys) => Some(texts(keys@)),
        None => None,
    }
}

/// Whether a section took one of the branches in scope.
fn took_scope(section: &SectionPlan, view: &BranchView, scope: Option<&Vec<String>>) -> (r: bool)
    ensures
        r == in_scope(section@, *view, scope_model(scope)),
{
    match scope {
        None => true,
        Some(keys) => {
            let ghost m = section@;
            let mut b: usize = 0;
            while b < section.branches.len()
                invariant
                    b <= section.branches@.len(),
                    scope == Some(keys),
                    m == section@,
                    forall|j: int|
                        0 <= j < b ==> !(owner_from(
                            view.branches@,
                            #[trigger] m.branches[j],
                            0,
                        ) matches Some(o) && texts(keys@).contains(view.branches@[o].key@)),
                decreases section.branches@.len() - b,
            {
                assert(m.branches[b as int] == section.branches@[b as int]@);
                if let Some(o) = view.owner(section.branches[b].as_str()) {
                    if list_has(keys, view.branches[o].key.as_str()) {
                        assert(in_scope(m, *view, scope_model(scope)));
                        return true;
                    }
                }
                b += 1;
            }
            false
        },
    }
}

/// Whether an issue concerns the sections in scope.
fn keeps_issue(
    issue: &Json,
    scoped_request: bool,
    sections: &Vec<SectionPlan>,
    chosen: &Vec<bool>,
    Ghost(scope): Ghost<Option<Seq<Seq<char>>>>,
) -> (r: bool)
    requires
        chosen@.len() == sections@.len(),
        scoped_request == (scope is Some),
    ensures
        r == issue_kept(issue@, scope, section_models(sections@), chosen@),
{
    if !scoped_request {
        return true;
    }
    let ghost ids = issue@.items("section_ids"@);
    let ghost ms = section_models(sections@);
    let items = match issue.items("section_ids") {
        Some(items) => items,
        None => {
            return true;
        },
    };
    let mut any = false;
    let mut i: usize = 0;
    while i < items.len()
        invariant
            i <= items@.len(),
            chosen@.len() == sections@.len(),
            scope is Some,
            ids == issue@.items("section_ids"@),
            ids == models(items@),
            ms == section_models(sections@),
            any ==> !no_strings(ids),
            !any ==> forall|j: int| 0 <= j < i ==> !(#[trigger] ids[j] is Str),
            forall|j: int, s: int|
                0 <= j < i && 0 <= s < ms.len() && chosen@[s] ==> #[trigger] ids[j]
                    != JsonModel::Str((#[trigger] ms[s]).id),
        decreases items@.len() - i,
    {
        assert(ids[i as int] == items@[i as int]@);
        if let Json::Str(id) = &items[i] {
            any = true;
            let mut s: usize = 0;
            while s < sections.len()
                invariant
                    s <= sections@.len(),
                    i < items@.len(),
                    chosen@.len() == sections@.len(),
                    scope is Some,
                    ids == issue@.items("section_ids"@),
                    ids == models(items@),
                    ms == section_models(sections@),
                    ids[i as int] == JsonModel::Str(id@),
                    forall|k: int|
                        0 <= k < s && chosen@[k] ==> ids[i as int] != JsonModel::Str(
                            (#[trigger] ms[k]).id,
                        ),
                decreases sections@.len() - s,
            {
                if chosen[s] && same(sections[s].id.as_str(), id.as_str()) {
                    assert(ids[i as int] == JsonModel::Str(ms[s as int].id));
                    return true;
                }
                s += 1;
            }
        }
        i += 1;
    }
    assert(!names_chosen(ids, ms, chosen@));
    !any
}

/// The strings among some values, shortened as ids.
fn shorten_ids(items: &Vec<Json>) -> (r: Vec<String>)
    ensures
        texts(r@) == short_ids(models(items@), items@.len()),
{
    let ghost ms = models(items@);
    let mut r: Vec<String> = Vec::new();
    let mut i: usize = 0;
    assert(texts(r@) =~= Seq::empty());
    while i < items.len()
        invariant
            i <= items@.len(),
            ms == models(items@),
            texts(r@) == short_ids(ms, i as nat),
        decreases items@.len() - i,
    {
        assert(ms[i as int] == items@[i as int]@);
        if let Json::Str(s) = &items[i] {
            let id = short_id(s.as_str());
            assert(texts(r@.push(id)) =~= texts(r@).push(id@));
            r.push(id);
        }
        i += 1;
    }
    r
}

/// The member with this name, and null where there is none.
fn member_or_null(value: &Json, name: &str) -> (r: Json)
    ensures
        r@ == or_null(value@, name@),
{
    match value.get(name) {
        Some(v) => v.copy(),
        None => Json::Null,
    }
}

/// An issue as a planning request carries it.
fn issue_json(issue: &Json) -> (r: Json)
    ensures
        r@ == issue_record(issue@),
{
    let message = match issue.text("message") {
        Some(s) => excerpt(s, 1000),
        None => excerpt("", 1000),
    };
    let query = match issue.text("query") {
        Some(s) => excerpt(s, 300),
        None => excerpt("", 300),
    };
    proof {
        reveal_strlit("");
        assert(""@ =~= Seq::empty());
    }
    let empty: Vec<Json> = Vec::new();
    assert(models(empty@) =~= Seq::empty());
    let ids: &Vec<Json> = match issue.items("section_ids") {
        Some(items) => items,
        None => &empty,
    };
    assert(models(ids@) =~= issue@.items("section_ids"@));
    let members = vec![
        member("code", member_or_null(issue, "code")),
        member("message", Json::Str(message)),
        member("query", Json::Str(query)),
        member("section_ids", texts_json(&shorten_ids(ids))),
        member("severity", member_or_null(issue, "severity")),
    ];
    assert(member_models(members@) =~= issue_record(issue@)->Obj_0);
    Json::object(members)
}

/// Correction feedback as a planning request carries it: a bounded view of the
/// previous plan and, of a chapter request, only the sections that took its
/// branches and the issues about them. `scope` holds the branch keys that a
/// chapter request plans; `None` is the whole document.
#[verifier::rlimit(60)]
pub fn feedback_view(
    feedback: &Json,
    view: &BranchView,
    scope: Option<&Vec<String>>,
    budget: usize,
) -> (r: Json)
    ensures
        r@ == feedback_shown(feedback@, *view, scope_model(scope), budget as nat),
{
    let ghost f = feedback@;
    let ghost sc = scope_model(scope);
    match feedback {
        Json::Obj(stored) => {
            proof {
                lemma_obj(*stored);
            }
            if stored.len() == 0 {
                return feedback.copy();
            }
        },
        _ => {
            return feedback.copy();
        },
    }
    let ghost sections = previous_sections(f);
    let ghost chosen = scoped(sections, *view, sc);
    let mut earlier: Vec<Member> = Vec::new();
    let mut previous: Vec<SectionPlan> = Vec::new();
    let mut flags: Vec<bool> = Vec::new();
    assert(member_models(earlier@) =~= Seq::empty());
    assert(section_models(previous@) =~= Seq::empty());
    if let Some(value) = feedback.get("previous_plan") {
        match outline_from_json(value) {
            Some(plan) => {
                let mut s: usize = 0;
                assert(flags@ =~= chosen.take(0));
                while s < plan.sections.len()
                    invariant
                        s <= plan.sections@.len(),
                        sections == section_models(plan.sections@),
                        sc == scope_model(scope),
                        chosen == scoped(sections, *view, sc),
                        flags@ == chosen.take(s as int),
                    decreases plan.sections@.len() - s,
                {
                    let kept = took_scope(&plan.sections[s], view, scope);
                    assert(sections[s as int] == plan.sections@[s as int]@);
                    assert(chosen.take(s + 1) =~= chosen.take(s as int).push(kept));
                    flags.push(kept);
                    s += 1;
                }
                assert(chosen.take(s as int) =~= chosen);
                let labels = view.keys_by_label();
                let m = member("previous_plan", outline_view(&plan, &labels, &flags, budget));
                assert(member_models(earlier@.push(m)) =~= previous_member(
                    f,
                    *view,
                    sc,
                    budget as nat,
                ));
                earlier.push(m);
                previous = plan.sections;
            },
            None => {
                let text = value.to_text();
                let m = member(
                    "previous_plan",
                    Json::string(excerpt(text.as_str(), budget / 4).as_str()),
                );
                assert(member_models(earlier@.push(m)) =~= previous_member(
                    f,
                    *view,
                    sc,
                    budget as nat,
                ));
                earlier.push(m);
            },
        }
    }
    assert(section_models(previous@) =~= sections);
    assert(flags@ =~= chosen);
    assert(sections.len() == previous@.len());
    assert(member_models(earlier@) =~= previous_member(f, *view, sc, budget as nat));
    let mut shown: Vec<Member> = Vec::new();
    assert(member_models(shown@) =~= Seq::empty());
    if let Some(notes) = feedback.items("draft_context") {
        let ghost all = models(notes@);
        let mut kept: Vec<Json> = Vec::new();
        let mut i: usize = 0;
        assert(models(kept@) =~= Seq::empty());
        while i < notes.len()
            invariant
                i <= notes@.len(),
                all == models(notes@),
                sc == scope_model(scope),
                flags@ == chosen,
                models(kept@) == notes_kept(all, sc, chosen, i as nat),
            decreases notes@.len() - i,
        {
            assert(all[i as int] == notes@[i as int]@);
            let keep = if scope.is_none() {
                true
            } else {
                match member_or_null(&notes[i], "section").natural() {
                    Some(n) => n < flags.len() as u64 && flags[n as usize],
                    None => false,
                }
            };
            if keep {
                let item = notes[i].copy();
                assert(models(kept@.push(item)) =~= models(kept@).push(item@));
                kept.push(item);
            }
            i += 1;
        }
        let m = member("draft_context", Json::array(kept));
        assert(member_models(shown@.push(m)) =~= notes_member(f, sc, chosen));
        shown.push(m);
    }
    let ghost first = notes_member(f, sc, chosen);
    assert(member_models(shown@) =~= first);
    if let Some(issues) = feedback.items("issues") {
        let ghost all = models(issues@);
        let mut kept: Vec<Json> = Vec::new();
        let mut i: usize = 0;
        assert(models(kept@) =~= Seq::empty());
        while i < issues.len()
            invariant
                i <= issues@.len(),
                all == models(issues@),
                sc == scope_model(scope),
                sections == section_models(previous@),
                flags@ == chosen,
                flags@.len() == previous@.len(),
                models(kept@) == issue_records(all, sc, sections, chosen, i as nat),
            decreases issues@.len() - i,
        {
            assert(all[i as int] == issues@[i as int]@);
            assert(models(kept@).len() == kept@.len());
            if kept.len() < 12 && keeps_issue(
                &issues[i],
                scope.is_some(),
                &previous,
                &flags,
                Ghost(sc),
            ) {
                let item = issue_json(&issues[i]);
                assert(models(kept@.push(item)) =~= models(kept@).push(item@));
                kept.push(item);
            }
            i += 1;
        }
        let m = member("issues", Json::array(kept));
        assert(member_models(shown@.push(m)) =~= first + issues_member(f, sc, sections, chosen));
        shown.push(m);
    }
    let ghost second = first + issues_member(f, sc, sections, chosen);
    assert(member_models(shown@) =~= second);
    let ghost told = earlier@;
    shown.append(&mut earlier);
    let ghost third = second + previous_member(f, *view, sc, budget as nat);
    assert(member_models(shown@) =~= second + member_models(told));
    if let Some(user) = feedback.get("user_feedback") {
        let m = member("user_feedback", user.copy());
        assert(member_models(shown@.push(m)) =~= third + user_member(f));
        shown.push(m);
    }
    assert(member_models(shown@) =~= third + user_member(f));
    Json::object(shown)
}

} // verus!
