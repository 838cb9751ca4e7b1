//! Plans as they are stored: every field in its form, by name or by position.

use vstd::prelude::*;
use vstd::string::StringExecFns;

use crate::json::{lemma_arr, models, names_of, positional, record, Json, JsonModel};
use crate::model::{
    exclusion_models, requirement_models, section_models, BranchExclusion, ExclusionModel, Outline,
    OutlineModel, Requirement, RequirementModel, SectionModel, SectionPlan,
};
use crate::planning::generated::{
    optional_texts_member, read_optional_texts, read_revision, read_text, read_texts, revision_of,
    text_member, texts_member,
};

verus! {

/// The numbers of an array of natural numbers.
pub open spec fn plain_naturals(items: Seq<JsonModel>, count: nat) -> Option<Seq<usize>>
    decreases count,
{
    if count == 0 {
        Some(Seq::empty())
    } else {
        match (plain_naturals(items, (count - 1) as nat), items[count - 1].natural()) {
            (Some(done), Some(n)) if n <= usize::MAX => Some(done.push(n as usize)),
            _ => None,
        }
    }
}

/// A list of positions that may be missing, and is then empty.
pub open spec fn stored_positions(value: JsonModel, name: Seq<char>) -> Option<Seq<usize>> {
    match value.get(name) {
        None => Some(Seq::empty()),
        Some(JsonModel::Arr(items)) => plain_naturals(items, items.len()),
        Some(_) => None,
    }
}

/// The fields of a section, in their order.
pub open spec fn section_fields() -> Seq<Seq<char>> {
    seq![
        "id"@,
        "title"@,
        "query"@,
        "reader_question"@,
        "handoff"@,
        "diagrams"@,
        "depends_on"@,
        "evidence_ids"@,
        "owns_requirement_ids"@,
        "key_points"@,
        "out_of_scope"@,
        "branches"@,
    ]
}

/// A stored section.
pub open spec fn stored_section(value: JsonModel) -> Option<SectionModel> {
    match record(value, section_fields()) {
        Some(members) => named_section(members),
        None => None,
    }
}

/// The section that some members say.
pub open spec fn named_section(value: JsonModel) -> Option<SectionModel> {
    match (
        value.text("title"@),
        value.text("query"@),
        read_text(value, "id"@),
        read_text(value, "reader_question"@),
        read_text(value, "handoff"@),
        read_optional_texts(value, "diagrams"@),
    ) {
        (
            Some(title),
            Some(query),
            Some(id),
            Some(reader_question),
            Some(handoff),
            Some(diagrams),
        ) => match (
            stored_positions(value, "depends_on"@),
            read_texts(value, "evidence_ids"@),
            read_texts(value, "owns_requirement_ids"@),
            read_texts(value, "key_points"@),
            read_texts(value, "out_of_scope"@),
            read_texts(value, "branches"@),
        ) {
            (
                Some(depends_on),
                Some(evidence_ids),
                Some(owns_requirement_ids),
                Some(key_points),
                Some(out_of_scope),
                Some(branches),
            ) => Some(
                SectionModel {
                    id,
                    title,
                    query,
                    reader_question,
                    handoff,
                    diagrams,
                    depends_on,
                    evidence_ids,
                    owns_requirement_ids,
                    key_points,
                    out_of_scope,
                    branches,
                },
            ),
            _ => None,
        },
        _ => None,
    }
}

/// The first `count` stored sections.
pub open spec fn stored_sections(items: Seq<JsonModel>, count: nat) -> Option<Seq<SectionModel>>
    decreases count,
{
    if count == 0 {
        Some(Seq::empty())
    } else {
        match (stored_sections(items, (count - 1) as nat), stored_section(items[count - 1])) {
            (Some(done), Some(section)) => Some(done.push(section)),
            _ => None,
        }
    }
}

/// A stored exclusion.
pub open spec fn stored_exclusion(value: JsonModel) -> Option<ExclusionModel> {
    match record(value, seq!["branch"@, "reason"@]) {
        Some(members) => match (members.text("branch"@), members.text("reason"@)) {
            (Some(branch), Some(reason)) => Some(ExclusionModel { branch, reason }),
            _ => None,
        },
        None => None,
    }
}

/// The first `count` stored exclusions.
pub open spec fn stored_exclusions(items: Seq<JsonModel>, count: nat) -> Option<Seq<ExclusionModel>>
    decreases count,
{
    if count == 0 {
        Some(Seq::empty())
    } else {
        match (stored_exclusions(items, (count - 1) as nat), stored_exclusion(items[count - 1])) {
            (Some(done), Some(exclusion)) => Some(done.push(exclusion)),
            _ => None,
        }
    }
}

/// A stored requirement.
pub open spec fn stored_requirement(value: JsonModel) -> Option<RequirementModel> {
    match record(value, seq!["id"@, "question"@]) {
        Some(members) => match (members.text("id"@), members.text("question"@)) {
            (Some(id), Some(question)) => Some(RequirementModel { id, question }),
            _ => None,
        },
        None => None,
    }
}

/// The first `count` stored requirements, where all are ones.
pub open spec fn stored_requirements(items: Seq<JsonModel>, count: nat) -> Option<
    Seq<RequirementModel>,
>
    decreases count,
{
    if count == 0 {
        Some(Seq::empty())
    } else {
        match (stored_requirements(items, (count - 1) as nat), stored_requirement(items[count - 1])) {
            (Some(done), Some(requirement)) => Some(done.push(requirement)),
            _ => None,
        }
    }
}

/// The items of a member that may be missing, where it is an array.
pub open spec fn optional_items(value: JsonModel, name: Seq<char>) -> Option<Seq<JsonModel>> {
    match value.get(name) {
        None => Some(Seq::empty()),
        Some(JsonModel::Arr(items)) => Some(items),
        Some(_) => None,
    }
}

/// The fields of a plan, in their order.
pub open spec fn plan_fields() -> Seq<Seq<char>> {
    seq![
        "sections"@,
        "reader_goal"@,
        "storyline"@,
        "terminology"@,
        "requirements"@,
        "revision"@,
        "excluded_branches"@,
    ]
}

/// A stored plan. It and the records in it may be written as arrays.
pub open spec fn stored_plan(value: JsonModel) -> Option<OutlineModel> {
    match record(value, plan_fields()) {
        Some(members) => named_plan(members),
        None => None,
    }
}

/// The plan that some members say.
pub open spec fn named_plan(value: JsonModel) -> Option<OutlineModel> {
    match (
        value.get("sections"@),
        read_text(value, "reader_goal"@),
        read_text(value, "storyline"@),
        read_texts(value, "terminology"@),
        read_revision(value),
        optional_items(value, "requirements"@),
        optional_items(value, "excluded_branches"@),
    ) {
        (
            Some(JsonModel::Arr(items)),
            Some(reader_goal),
            Some(storyline),
            Some(terminology),
            Some(revision),
            Some(wanted),
            Some(exclusions),
        ) => match (
            stored_sections(items, items.len()),
            stored_exclusions(exclusions, exclusions.len()),
            stored_requirements(wanted, wanted.len()),
        ) {
            (Some(sections), Some(excluded_branches), Some(requirements)) => Some(
                OutlineModel {
                    sections,
                    reader_goal,
                    storyline,
                    terminology,
                    requirements,
                    revision,
                    excluded_branches,
                },
            ),
            _ => None,
        },
        _ => None,
    }
}

proof fn lemma_plain_stop(items: Seq<JsonModel>, count: nat, all: nat)
    requires
        count <= all,
    ensures
        plain_naturals(items, count) is None ==> plain_naturals(items, all) is None,
        stored_sections(items, count) is None ==> stored_sections(items, all) is None,
        stored_exclusions(items, count) is None ==> stored_exclusions(items, all) is None,
        stored_requirements(items, count) is None ==> stored_requirements(items, all) is None,
    decreases all - count,
{
    if count < all {
        lemma_plain_stop(items, count, (all - 1) as nat);
    }
}

/// A list of positions that may be missing.
fn stored_numbers(value: &Json, name: &str) -> (r: Option<Vec<usize>>)
    ensures
        match stored_positions(value@, name@) {
            Some(list) => r is Some && r->0@ == list,
            None => r is None,
        },
{
    match value.get(name) {
        None => Some(Vec::new()),
        Some(Json::Arr(items)) => {
            proof {
                lemma_arr(*items);
            }
            let ghost ms = models(items@);
            let mut list: Vec<usize> = Vec::new();
            let mut i: usize = 0;
            while i < items.len()
                invariant
                    i <= items@.len(),
                    ms == models(items@),
                    stored_positions(value@, name@) == plain_naturals(ms, ms.len()),
                    plain_naturals(ms, i as nat) == Some(list@),
                decreases items@.len() - i,
            {
                proof {
                    lemma_plain_stop(ms, (i + 1) as nat, ms.len());
                    assert(ms[i as int] == items@[i as int]@);
                }
                match items[i].natural() {
                    Some(n) => {
                        if n > usize::MAX as u64 {
                            return None;
                        }
                        list.push(n as usize);
                    },
                    None => {
                        return None;
                    },
                }
                i += 1;
            }
            Some(list)
        },
        Some(_) => None,
    }
}

/// A stored section.
pub fn section_stored(value: &Json) -> (r: Option<SectionPlan>)
    ensures
        match stored_section(value@) {
            Some(m) => r is Some && r->0@ == m,
            None => r is None,
        },
{
    match value {
        Json::Arr(items) => {
            let names = vec![
                "id",
                "title",
                "query",
                "reader_question",
                "handoff",
                "diagrams",
                "depends_on",
                "evidence_ids",
                "owns_requirement_ids",
                "key_points",
                "out_of_scope",
                "branches",
            ];
            proof {
                lemma_arr(*items);
                assert(names_of(names@) =~= section_fields());
            }
            match positional(items, names) {
                Some(members) => section_named(&members),
                None => None,
            }
        },
        _ => section_named(value),
    }
}

/// The section that some members say.
fn section_named(value: &Json) -> (r: Option<SectionPlan>)
    ensures
        match named_section(value@) {
            Some(m) => r is Some && r->0@ == m,
            None => r is None,
        },
{
    match (
        value.text("title"),
        value.text("query"),
        text_member(value, "id"),
        text_member(value, "reader_question"),
        text_member(value, "handoff"),
        optional_texts_member(value, "diagrams"),
    ) {
        (
            Some(title),
            Some(query),
            Some(id),
            Some(reader_question),
            Some(handoff),
            Some(diagrams),
        ) => {
            match (
                stored_numbers(value, "depends_on"),
                texts_member(value, "evidence_ids"),
                texts_member(value, "owns_requirement_ids"),
                texts_member(value, "key_points"),
                texts_member(value, "out_of_scope"),
                texts_member(value, "branches"),
            ) {
                (
                    Some(depends_on),
                    Some(evidence_ids),
                    Some(owns_requirement_ids),
                    Some(key_points),
                    Some(out_of_scope),
                    Some(branches),
                ) => Some(
                    SectionPlan {
                        id,
                        title: String::from_str(title),
                        query: String::from_str(query),
                        reader_question,
                        handoff,
                        diagrams,
                        depends_on,
                        evidence_ids,
                        owns_requirement_ids,
                        key_points,
                        out_of_scope,
                        branches,
                    },
                ),
                _ => None,
            }
        },
        _ => None,
    }
}

/// The items of a member that may be missing, where it is an array.
pub fn array_member<'a>(value: &'a Json, name: &str) -> (r: Option<Option<&'a Vec<Json>>>)
    ensures
        match optional_items(value@, name@) {
            Some(items) => r is Some && match r->0 {
                Some(v) => models(v@) == items,
                None => items.len() == 0,
            },
            None => r is None,
        },
{
    match value.get(name) {
        None => Some(None),
        Some(Json::Arr(items)) => {
            proof {
                lemma_arr(*items);
            }
            Some(Some(items))
        },
        Some(_) => None,
    }
}

/// A stored record of two texts that must be there.
fn texts_stored(value: &Json, first: &str, second: &str) -> (r: Option<(String, String)>)
    ensures
        match record(value@, seq![first@, second@]) {
            Some(m) => match (m.text(first@), m.text(second@)) {
                (Some(a), Some(b)) => r matches Some((x, y)) && x@ == a && y@ == b,
                _ => r is None,
            },
            None => r is None,
        },
{
    match value {
        Json::Arr(items) => {
            let names = vec![first, second];
            proof {
                lemma_arr(*items);
                assert(names_of(names@) =~= seq![first@, second@]);
            }
            match positional(items, names) {
                Some(m) => match (m.text(first), m.text(second)) {
                    (Some(a), Some(b)) => Some((String::from_str(a), String::from_str(b))),
                    _ => None,
                },
                None => None,
            }
        },
        _ => match (value.text(first), value.text(second)) {
            (Some(a), Some(b)) => Some((String::from_str(a), String::from_str(b))),
            _ => None,
        },
    }
}

/// Stored requirements.
fn requirements_stored(items: &Vec<Json>) -> (r: Option<Vec<Requirement>>)
    ensures
        match stored_requirements(models(items@), items@.len()) {
            Some(list) => r is Some && requirement_models(r->0@) == list,
            None => r is None,
        },
{
    let ghost ms = models(items@);
    let mut list: Vec<Requirement> = Vec::new();
    let mut i: usize = 0;
    assert(requirement_models(list@) =~= Seq::empty());
    while i < items.len()
        invariant
            i <= items@.len(),
            ms == models(items@),
            stored_requirements(ms, i as nat) == Some(requirement_models(list@)),
        decreases items@.len() - i,
    {
        proof {
            lemma_plain_stop(ms, (i + 1) as nat, ms.len());
            assert(ms[i as int] == items@[i as int]@);
        }
        match texts_stored(&items[i], "id", "question") {
            Some((id, question)) => {
                let q = Requirement { id, question };
                assert(requirement_models(list@.push(q)) =~= requirement_models(list@).push(q@));
                list.push(q);
            },
            None => {
                return None;
            },
        }
        i += 1;
    }
    Some(list)
}

/// Stored exclusions.
pub fn exclusions_stored(items: &Vec<Json>) -> (r: Option<Vec<BranchExclusion>>)
    ensures
        match stored_exclusions(models(items@), items@.len()) {
            Some(list) => r is Some && exclusion_models(r->0@) == list,
            None => r is None,
        },
{
    let ghost ms = models(items@);
    let mut list: Vec<BranchExclusion> = Vec::new();
    let mut i: usize = 0;
    assert(exclusion_models(list@) =~= Seq::empty());
    while i < items.len()
        invariant
            i <= items@.len(),
            ms == models(items@),
            stored_exclusions(ms, i as nat) == Some(exclusion_models(list@)),
        decreases items@.len() - i,
    {
        proof {
            lemma_plain_stop(ms, (i + 1) as nat, ms.len());
            assert(ms[i as int] == items@[i as int]@);
        }
        match texts_stored(&items[i], "branch", "reason") {
            Some((branch, reason)) => {
                let e = BranchExclusion { branch, reason };
                assert(exclusion_models(list@.push(e)) =~= exclusion_models(list@).push(e@));
                list.push(e);
            },
            None => {
                return None;
            },
        }
        i += 1;
    }
    Some(list)
}

/// Stored sections.
fn sections_stored(items: &Vec<Json>) -> (r: Option<Vec<SectionPlan>>)
    ensures
        match stored_sections(models(items@), items@.len()) {
            Some(list) => r is Some && section_models(r->0@) == list,
            None => r is None,
        },
{
    let ghost ms = models(items@);
    let mut list: Vec<SectionPlan> = Vec::new();
    let mut i: usize = 0;
    assert(section_models(list@) =~= Seq::empty());
    while i < items.len()
        invariant
            i <= items@.len(),
            ms == models(items@),
            stored_sections(ms, i as nat) == Some(section_models(list@)),
        decreases items@.len() - i,
    {
        proof {
            lemma_plain_stop(ms, (i + 1) as nat, ms.len());
            assert(ms[i as int] == items@[i as int]@);
        }
        match section_stored(&items[i]) {
            Some(section) => {
                assert(section_models(list@.push(section)) =~= section_models(list@).push(
                    section@,
                ));
                list.push(section);
            },
            None => {
                return None;
            },
        }
        i += 1;
    }
    Some(list)
}

/// Reads a stored plan. Members that older plans lack are empty.
pub fn outline_from_json(value: &Json) -> (r: Option<Outline>)
    ensures
        match stored_plan(value@) {
            Some(plan) => r is Some && r->0@ == plan,
            None => r is None,
        },
{
    match value {
        Json::Arr(items) => {
            let names = vec![
                "sections",
                "reader_goal",
                "storyline",
                "terminology",
                "requirements",
                "revision",
                "excluded_branches",
            ];
            proof {
                lemma_arr(*items);
                assert(names_of(names@) =~= plan_fields());
            }
            match positional(items, names) {
                Some(members) => outline_named(&members),
                None => None,
            }
        },
        _ => outline_named(value),
    }
}

/// The plan that some members say.
fn outline_named(value: &Json) -> (r: Option<Outline>)
    ensures
        match named_plan(value@) {
            Some(plan) => r is Some && r->0@ == plan,
            None => r is None,
        },
{
    let empty: Vec<Json> = Vec::new();
    assert(models(empty@) =~= Seq::empty());
    let items = match value.get("sections") {
        Some(Json::Arr(items)) => {
            proof {
                lemma_arr(*items);
            }
            items
        },
        _ => {
            return None;
        },
    };
    match (
        text_member(value, "reader_goal"),
        text_member(value, "storyline"),
        texts_member(value, "terminology"),
        revision_of(value),
        array_member(value, "requirements"),
        array_member(value, "excluded_branches"),
    ) {
        (
            Some(reader_goal),
            Some(storyline),
            Some(terminology),
            Some(revision),
            Some(requirements),
            Some(exclusions),
        ) => {
            let wanted: &Vec<Json> = match requirements {
                Some(list) => list,
                None => &empty,
            };
            let left_out: &Vec<Json> = match exclusions {
                Some(list) => list,
                None => &empty,
            };
            assert(models(wanted@) =~= optional_items(value@, "requirements"@)->0);
            assert(models(left_out@) =~= optional_items(value@, "excluded_branches"@)->0);
            match (
                sections_stored(items),
                exclusions_stored(left_out),
                requirements_stored(wanted),
            ) {
                (Some(sections), Some(excluded_branches), Some(requirements)) => Some(
                    Outline {
                        sections,
                        reader_goal,
                        storyline,
                        terminology,
                        requirements,
                        revision,
                        excluded_branches,
                    },
                ),
                _ => None,
            }
        },
        _ => None,
    }
}

} // verus!
