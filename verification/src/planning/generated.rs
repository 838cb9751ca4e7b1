//! Reading a plan out of a response: labels become node keys, titles become
//! positions.

use vstd::prelude::*;
use vstd::string::StringExecFns;

use crate::json::{json_value, lemma_arr, lemma_obj, models, parse_json, text_of, Json, JsonModel};
use crate::llm::repair::{extract_json_object, first_object};
use crate::model::{
    exclusion_models, requirement_models, section_models, BranchExclusion, ExclusionModel, Outline,
    OutlineModel, Requirement, SectionModel, SectionPlan,
};
use crate::order::positions;
use crate::planning::stored::{outline_from_json, section_stored, stored_plan, stored_section};
use crate::text::{bounded, bounded_text, list_has, same, texts, trim, trimmed};

verus! {

/// A label that a request showed, and the node key that it stands for.
pub struct Label {
    pub label: String,
    pub key: String,
}

/// The value of a label.
pub struct LabelModel {
    pub label: Seq<char>,
    pub key: Seq<char>,
}

impl View for Label {
    type V = LabelModel;

    open spec fn view(&self) -> LabelModel {
        LabelModel { label: self.label@, key: self.key@ }
    }
}

/// The values of a list of labels.
pub open spec fn label_models(v: Seq<Label>) -> Seq<LabelModel> {
    v.map_values(|l: Label| l@)
}

/// The key that a label stands for; of two equal labels the later one counts.
pub open spec fn key_of(labels: Seq<LabelModel>, label: Seq<char>) -> Option<Seq<char>>
    decreases labels.len(),
{
    if labels.len() == 0 {
        None
    } else if labels.last().label == label {
        Some(labels.last().key)
    } else {
        key_of(labels.drop_last(), label)
    }
}

/// Why a generated plan is refused. Numbers are positions of sections and of
/// exclusions, and positions in their lists.
#[derive(Clone, Copy, Debug, PartialEq, Eq, Structural)]
pub enum GeneratedFault {
    /// The section's branches are no array.
    Branches(usize),
    /// A branch of the section is no string.
    BranchText(usize, usize),
    /// A branch of the section is no label of the request.
    BranchLabel(usize, usize),
    /// The exclusions are no array.
    Exclusions,
    /// The exclusion gives no usable reason.
    Reason(usize),
    /// The branch of the exclusion is no string.
    ExcludedText(usize),
    /// The branch of the exclusion is no label of the request.
    ExcludedLabel(usize),
    /// The excluded branch is covered by a section.
    Covered(usize, usize),
    /// The prerequisites of the section are no array of strings.
    Prerequisites(usize),
    /// A prerequisite of the section is not the title of exactly one section.
    PrerequisiteTitle(usize, usize),
    /// A prerequisite of the section is not an earlier section.
    PrerequisiteOrder(usize, usize),
    /// The value is not a plan.
    Shape,
}

/// What can be wrong with a list of labels.
#[derive(Clone, Copy, Debug, PartialEq, Eq, Structural)]
pub enum LabelFault {
    /// It is no array.
    NotAnArray,
    /// The item at this position is no string.
    NotText(usize),
    /// The item at this position is no label.
    Unknown(usize),
}

/// The keys of the first `count` labels, each once, or the first fault.
pub open spec fn resolve_items(
    items: Seq<JsonModel>,
    labels: Seq<LabelModel>,
    count: nat,
) -> Result<Seq<Seq<char>>, LabelFault>
    decreases count,
{
    if count == 0 {
        Ok(Seq::empty())
    } else {
        match resolve_items(items, labels, (count - 1) as nat) {
            Err(fault) => Err(fault),
            Ok(done) => match items[count - 1] {
                JsonModel::Str(label) => match key_of(labels, trim(label)) {
                    None => Err(LabelFault::Unknown((count - 1) as usize)),
                    Some(key) => if done.contains(key) {
                        Ok(done)
                    } else {
                        Ok(done.push(key))
                    },
                },
                _ => Err(LabelFault::NotText((count - 1) as usize)),
            },
        }
    }
}

/// The keys that a list of labels stands for.
pub open spec fn resolve_list(value: JsonModel, labels: Seq<LabelModel>) -> Result<
    Seq<Seq<char>>,
    LabelFault,
> {
    match value {
        JsonModel::Arr(items) => resolve_items(items, labels, items.len()),
        _ => Err(LabelFault::NotAnArray),
    }
}

/// The keys of the branches that a section names. Where the request showed no
/// labels, any branches are dropped.
pub open spec fn section_branches(
    section: JsonModel,
    index: usize,
    labels: Seq<LabelModel>,
) -> Result<Seq<Seq<char>>, GeneratedFault> {
    match section.get("branches"@) {
        None => Ok(Seq::empty()),
        Some(value) => if labels.len() == 0 || value is Null {
            Ok(Seq::empty())
        } else {
            match resolve_list(value, labels) {
                Ok(keys) => Ok(keys),
                Err(LabelFault::NotAnArray) => Err(GeneratedFault::Branches(index)),
                Err(LabelFault::NotText(at)) => Err(GeneratedFault::BranchText(index, at)),
                Err(LabelFault::Unknown(at)) => Err(GeneratedFault::BranchLabel(index, at)),
            }
        },
    }
}

/// The branches of the first `count` sections, or the first fault.
pub open spec fn all_branches(
    sections: Seq<JsonModel>,
    labels: Seq<LabelModel>,
    count: nat,
) -> Result<Seq<Seq<Seq<char>>>, GeneratedFault>
    decreases count,
{
    if count == 0 {
        Ok(Seq::empty())
    } else {
        match all_branches(sections, labels, (count - 1) as nat) {
            Err(fault) => Err(fault),
            Ok(done) => match section_branches(
                sections[count - 1],
                (count - 1) as usize,
                labels,
            ) {
                Err(fault) => Err(fault),
                Ok(keys) => Ok(done.push(keys)),
            },
        }
    }
}

/// One exclusion with the key of its branch, or what is wrong with it.
pub open spec fn read_exclusion(
    item: JsonModel,
    index: usize,
    labels: Seq<LabelModel>,
) -> Result<ExclusionModel, GeneratedFault> {
    match item.text("reason"@) {
        Some(reason) if bounded(reason, 1500) => match item.text("branch"@) {
            None => Err(GeneratedFault::ExcludedText(index)),
            Some(label) => match key_of(labels, trim(label)) {
                None => Err(GeneratedFault::ExcludedLabel(index)),
                Some(key) => Ok(ExclusionModel { branch: key, reason }),
            },
        },
        _ => Err(GeneratedFault::Reason(index)),
    }
}

/// The first `count` exclusions, or the first fault.
pub open spec fn read_exclusions(
    items: Seq<JsonModel>,
    labels: Seq<LabelModel>,
    count: nat,
) -> Result<Seq<ExclusionModel>, GeneratedFault>
    decreases count,
{
    if count == 0 {
        Ok(Seq::empty())
    } else {
        match read_exclusions(items, labels, (count - 1) as nat) {
            Err(fault) => Err(fault),
            Ok(done) => match read_exclusion(items[count - 1], (count - 1) as usize, labels) {
                Err(fault) => Err(fault),
                Ok(exclusion) => Ok(done.push(exclusion)),
            },
        }
    }
}

/// The exclusions of a plan. Where the request showed no labels, any are
/// dropped.
pub open spec fn all_exclusions(value: JsonModel, labels: Seq<LabelModel>) -> Result<
    Seq<ExclusionModel>,
    GeneratedFault,
> {
    match value.get("excluded_branches"@) {
        None => Ok(Seq::empty()),
        Some(list) => if labels.len() == 0 {
            Ok(Seq::empty())
        } else {
            match list {
                JsonModel::Arr(items) => read_exclusions(items, labels, items.len()),
                _ => Err(GeneratedFault::Exclusions),
            }
        },
    }
}

/// The last of the first `count` sections that covers a branch.
pub open spec fn coverer(
    branches: Seq<Seq<Seq<char>>>,
    key: Seq<char>,
    count: nat,
) -> Option<usize>
    decreases count,
{
    if count == 0 {
        None
    } else if branches[count - 1].contains(key) {
        Some((count - 1) as usize)
    } else {
        coverer(branches, key, (count - 1) as nat)
    }
}

/// The first exclusion, from position `from` on, whose branch a section covers.
pub open spec fn covered_exclusion(
    branches: Seq<Seq<Seq<char>>>,
    exclusions: Seq<ExclusionModel>,
    from: nat,
) -> Option<GeneratedFault>
    decreases exclusions.len() - from,
{
    if from >= exclusions.len() {
        None
    } else {
        match coverer(branches, exclusions[from as int].branch, branches.len()) {
            Some(section) => Some(GeneratedFault::Covered(from as usize, section)),
            None => covered_exclusion(branches, exclusions, from + 1),
        }
    }
}

/// The positions of the sections with this title.
pub open spec fn titled(sections: Seq<JsonModel>, title: Seq<char>) -> Seq<usize> {
    positions(|i: int| sections[i].text("title"@) == Some(title), sections.len())
}

/// The earlier sections that the first `count` titles name, each once, or the
/// first fault.
pub open spec fn resolve_titles(
    sections: Seq<JsonModel>,
    titles: Seq<Seq<char>>,
    index: usize,
    count: nat,
) -> Result<Seq<usize>, GeneratedFault>
    decreases count,
{
    if count == 0 {
        Ok(Seq::empty())
    } else {
        match resolve_titles(sections, titles, index, (count - 1) as nat) {
            Err(fault) => Err(fault),
            Ok(done) => {
                let at = (count - 1) as usize;
                let found = titled(sections, titles[count - 1]);
                if found.len() != 1 {
                    Err(GeneratedFault::PrerequisiteTitle(index, at))
                } else if found[0] >= index {
                    Err(GeneratedFault::PrerequisiteOrder(index, at))
                } else if done.contains(found[0]) {
                    Ok(done)
                } else {
                    Ok(done.push(found[0]))
                }
            },
        }
    }
}

/// The texts of an array of strings.
pub open spec fn strings(items: Seq<JsonModel>, count: nat) -> Option<Seq<Seq<char>>>
    decreases count,
{
    if count == 0 {
        Some(Seq::empty())
    } else {
        match (strings(items, (count - 1) as nat), items[count - 1]) {
            (Some(done), JsonModel::Str(s)) => Some(done.push(s)),
            _ => None,
        }
    }
}

/// The earlier sections that a section names as prerequisites, where it names
/// any.
pub open spec fn prerequisites(sections: Seq<JsonModel>, index: int) -> Result<
    Option<Seq<usize>>,
    GeneratedFault,
> {
    match sections[index].get("prerequisite_titles"@) {
        None => Ok(None),
        Some(JsonModel::Arr(items)) => match strings(items, items.len()) {
            None => Err(GeneratedFault::Prerequisites(index as usize)),
            Some(titles) => match resolve_titles(sections, titles, index as usize, titles.len()) {
                Err(fault) => Err(fault),
                Ok(deps) => Ok(Some(deps)),
            },
        },
        Some(_) => Err(GeneratedFault::Prerequisites(index as usize)),
    }
}

/// The prerequisites of the first `count` sections, or the first fault.
pub open spec fn all_prerequisites(sections: Seq<JsonModel>, count: nat) -> Result<
    Seq<Option<Seq<usize>>>,
    GeneratedFault,
>
    decreases count,
{
    if count == 0 {
        Ok(Seq::empty())
    } else {
        match all_prerequisites(sections, (count - 1) as nat) {
            Err(fault) => Err(fault),
            Ok(done) => match prerequisites(sections, count - 1) {
                Err(fault) => Err(fault),
                Ok(deps) => Ok(done.push(deps)),
            },
        }
    }
}

// ---------------------------------------------------------------------------
// Plain members
// ---------------------------------------------------------------------------

/// A text that may be missing, and is then empty.
pub open spec fn read_text(value: JsonModel, name: Seq<char>) -> Option<Seq<char>> {
    match value.get(name) {
        None => Some(Seq::empty()),
        Some(JsonModel::Str(s)) => Some(s),
        Some(_) => None,
    }
}

/// A list of texts that may be missing, and is then empty.
pub open spec fn read_texts(value: JsonModel, name: Seq<char>) -> Option<Seq<Seq<char>>> {
    match value.get(name) {
        None => Some(Seq::empty()),
        Some(JsonModel::Arr(items)) => strings(items, items.len()),
        Some(_) => None,
    }
}

/// A list of texts, `Some(None)` where it is missing or null.
pub open spec fn read_optional_texts(value: JsonModel, name: Seq<char>) -> Option<
    Option<Seq<Seq<char>>>,
> {
    match value.get(name) {
        None => Some(None),
        Some(JsonModel::Null) => Some(None),
        Some(JsonModel::Arr(items)) => match strings(items, items.len()) {
            Some(list) => Some(Some(list)),
            None => None,
        },
        Some(_) => None,
    }
}

/// The numbers of an array of natural numbers, each once.
pub open spec fn naturals(items: Seq<JsonModel>, count: nat) -> Option<Seq<usize>>
    decreases count,
{
    if count == 0 {
        Some(Seq::empty())
    } else {
        match (naturals(items, (count - 1) as nat), items[count - 1].natural()) {
            (Some(done), Some(n)) if n <= usize::MAX => if done.contains(n as usize) {
                Some(done)
            } else {
                Some(done.push(n as usize))
            },
            _ => None,
        }
    }
}

/// A list of positions that may be missing, and is then empty; each once.
pub open spec fn read_positions(value: JsonModel, name: Seq<char>) -> Option<Seq<usize>> {
    match value.get(name) {
        None => Some(Seq::empty()),
        Some(JsonModel::Arr(items)) => naturals(items, items.len()),
        Some(_) => None,
    }
}

/// The first `count` numbers, each where it comes first.
pub open spec fn distinct(list: Seq<usize>, count: nat) -> Seq<usize>
    decreases count,
{
    if count == 0 {
        Seq::empty()
    } else {
        let so_far = distinct(list, (count - 1) as nat);
        if so_far.contains(list[count - 1]) {
            so_far
        } else {
            so_far.push(list[count - 1])
        }
    }
}

/// A section as a generated plan keeps it: each prerequisite once, and no
/// ownership of requirements.
pub open spec fn tidied(s: SectionModel) -> SectionModel {
    SectionModel {
        depends_on: distinct(s.depends_on, s.depends_on.len()),
        owns_requirement_ids: Seq::empty(),
        ..s
    }
}

/// A section. Labels and titles are resolved by name, so where the section is
/// written as an array it stands as it was stored.
pub open spec fn read_section(
    section: JsonModel,
    branches: Seq<Seq<char>>,
    prerequisites: Option<Seq<usize>>,
) -> Option<SectionModel> {
    match section {
        JsonModel::Arr(_) => match stored_section(section) {
            Some(s) => Some(tidied(s)),
            None => None,
        },
        _ => resolved_section(section, branches, prerequisites),
    }
}

/// A section, with its branches and prerequisites as they were resolved. Named
/// prerequisites count before numbered ones.
pub open spec fn resolved_section(
    section: JsonModel,
    branches: Seq<Seq<char>>,
    prerequisites: Option<Seq<usize>>,
) -> Option<SectionModel> {
    let depends_on = match prerequisites {
        Some(deps) => Some(deps),
        None => read_positions(section, "depends_on"@),
    };
    match (
        section.text("title"@),
        section.text("query"@),
        read_text(section, "id"@),
        read_text(section, "reader_question"@),
        read_text(section, "handoff"@),
        read_optional_texts(section, "diagrams"@),
    ) {
        (
            Some(title),
            Some(query),
            Some(id),
            Some(reader_question),
            Some(handoff),
            Some(diagrams),
        ) => match (
            depends_on,
            read_texts(section, "evidence_ids"@),
            read_texts(section, "key_points"@),
            read_texts(section, "out_of_scope"@),
        ) {
            (Some(depends_on), Some(evidence_ids), Some(key_points), Some(out_of_scope)) => Some(
                SectionModel {
                    id,
                    title,
                    query,
                    reader_question,
                    handoff,
                    diagrams,
                    depends_on,
                    evidence_ids,
                    owns_requirement_ids: Seq::empty(),
                    key_points,
                    out_of_scope,
                    branches,
                },
            ),
            _ => None,
        },
        _ => None,
    }
}

/// The first `count` sections.
pub open spec fn read_sections(
    sections: Seq<JsonModel>,
    branches: Seq<Seq<Seq<char>>>,
    prerequisites: Seq<Option<Seq<usize>>>,
    count: nat,
) -> Option<Seq<SectionModel>>
    decreases count,
{
    if count == 0 {
        Some(Seq::empty())
    } else {
        match (
            read_sections(sections, branches, prerequisites, (count - 1) as nat),
            read_section(sections[count - 1], branches[count - 1], prerequisites[count - 1]),
        ) {
            (Some(done), Some(section)) => Some(done.push(section)),
            _ => None,
        }
    }
}

/// The revision, zero where it is missing.
pub open spec fn read_revision(value: JsonModel) -> Option<u32> {
    match value.get("revision"@) {
        None => Some(0),
        Some(v) => match v.natural() {
            Some(n) if n <= u32::MAX => Some(n as u32),
            _ => None,
        },
    }
}

/// The plan that a value holds.
pub open spec fn read_plan(
    value: JsonModel,
    branches: Seq<Seq<Seq<char>>>,
    exclusions: Seq<ExclusionModel>,
    prerequisites: Seq<Option<Seq<usize>>>,
) -> Option<OutlineModel> {
    let items = value.items("sections"@);
    if !(value.get("sections"@) is Some && value.get("sections"@)->0 is Arr) {
        None
    } else {
        match (
            read_sections(items, branches, prerequisites, items.len()),
            read_text(value, "reader_goal"@),
            read_text(value, "storyline"@),
            read_texts(value, "terminology"@),
            read_revision(value),
        ) {
            (
                Some(sections),
                Some(reader_goal),
                Some(storyline),
                Some(terminology),
                Some(revision),
            ) => Some(
                OutlineModel {
                    sections,
                    reader_goal,
                    storyline,
                    terminology,
                    requirements: Seq::empty(),
                    revision,
                    excluded_branches: exclusions,
                },
            ),
            _ => None,
        }
    }
}

/// The plan that a value says without a name for any member, as an array or
/// with the object in its text. There is nothing to resolve in it.
pub open spec fn unnamed_plan(value: JsonModel) -> Option<OutlineModel> {
    let stored = match stored_plan(value) {
        Some(plan) => Some(plan),
        None => match first_object(text_of(value)) {
            Some(object) => match json_value(object) {
                Ok(m) => stored_plan(m),
                Err(_) => None,
            },
            None => None,
        },
    };
    match stored {
        Some(plan) => Some(tidied_plan(plan)),
        None => None,
    }
}

/// A plan as it was stored, without requirements, its sections tidied.
pub open spec fn tidied_plan(plan: OutlineModel) -> OutlineModel {
    OutlineModel {
        sections: plan.sections.map_values(|s: SectionModel| tidied(s)),
        requirements: Seq::empty(),
        ..plan
    }
}

/// The plan that a response holds, with labels and titles resolved, or why it
/// is refused.
pub open spec fn generated(value: JsonModel, labels: Seq<LabelModel>) -> Result<
    OutlineModel,
    GeneratedFault,
> {
    match value {
        JsonModel::Obj(_) => resolved_plan(value, labels),
        _ => match unnamed_plan(value) {
            Some(plan) => Ok(plan),
            None => Err(GeneratedFault::Shape),
        },
    }
}

/// The plan that an object says, with labels and titles resolved, or why it is
/// refused.
pub open spec fn resolved_plan(value: JsonModel, labels: Seq<LabelModel>) -> Result<
    OutlineModel,
    GeneratedFault,
> {
    let items = value.items("sections"@);
    match all_branches(items, labels, items.len()) {
        Err(fault) => Err(fault),
        Ok(branches) => match all_exclusions(value, labels) {
            Err(fault) => Err(fault),
            Ok(exclusions) => match covered_exclusion(branches, exclusions, 0) {
                Some(fault) => Err(fault),
                None => match all_prerequisites(items, items.len()) {
                    Err(fault) => Err(fault),
                    Ok(prerequisites) => match read_plan(
                        value,
                        branches,
                        exclusions,
                        prerequisites,
                    ) {
                        None => Err(GeneratedFault::Shape),
                        Some(plan) => Ok(plan),
                    },
                },
            },
        },
    }
}

// ---------------------------------------------------------------------------
// Executable functions
// ---------------------------------------------------------------------------

/// The key that a label stands for.
pub fn find_key<'a>(labels: &'a Vec<Label>, label: &str) -> (r: Option<&'a String>)
    ensures
        match key_of(label_models(labels@), label@) {
            Some(key) => r is Some && r->0@ == key,
            None => r is None,
        },
{
    let ghost all = label_models(labels@);
    let mut i: usize = labels.len();
    assert(all.take(i as int) =~= all);
    while i > 0
        invariant
            i <= labels@.len(),
            all == label_models(labels@),
            key_of(all.take(i as int), label@) == key_of(all, label@),
        decreases i,
    {
        i -= 1;
        assert(all.take(i + 1).last() == labels@[i as int]@);
        assert(all.take(i + 1).drop_last() =~= all.take(i as int));
        if same(labels[i].label.as_str(), label) {
            return Some(&labels[i].key);
        }
    }
    None
}

proof fn lemma_items_stop(items: Seq<JsonModel>, labels: Seq<LabelModel>, count: nat, all: nat)
    requires
        count <= all,
    ensures
        resolve_items(items, labels, count) is Err ==> resolve_items(items, labels, all)
            == resolve_items(items, labels, count),
    decreases all - count,
{
    if count < all {
        lemma_items_stop(items, labels, count, (all - 1) as nat);
    }
}

/// The keys that a list of labels stands for.
pub fn resolve_labels(value: &Json, labels: &Vec<Label>) -> (r: Result<Vec<String>, LabelFault>)
    ensures
        match resolve_list(value@, label_models(labels@)) {
            Ok(keys) => r is Ok && texts(r->Ok_0@) == keys,
            Err(fault) => r == Err::<Vec<String>, LabelFault>(fault),
        },
{
    match value {
        Json::Arr(items) => {
            proof {
                lemma_arr(*items);
            }
            let ghost ms = models(items@);
            let ghost ls = label_models(labels@);
            let mut keys: Vec<String> = Vec::new();
            let mut i: usize = 0;
            assert(texts(keys@) =~= Seq::empty());
            while i < items.len()
                invariant
                    i <= items@.len(),
                    ms == models(items@),
                    value@ == JsonModel::Arr(ms),
                    ls == label_models(labels@),
                    resolve_items(ms, ls, i as nat) == Ok::<Seq<Seq<char>>, LabelFault>(
                        texts(keys@),
                    ),
                decreases items@.len() - i,
            {
                proof {
                    lemma_items_stop(ms, ls, (i + 1) as nat, ms.len());
                    assert(ms[i as int] == items@[i as int]@);
                }
                match &items[i] {
                    Json::Str(s) => {
                        let label = trimmed(s.as_str());
                        match find_key(labels, label.as_str()) {
                            None => {
                                return Err(LabelFault::Unknown(i));
                            },
                            Some(key) => {
                                if !list_has(&keys, key.as_str()) {
                                    let k = key.clone();
                                    assert(texts(keys@.push(k)) =~= texts(keys@).push(k@));
                                    keys.push(k);
                                }
                            },
                        }
                    },
                    _ => {
                        return Err(LabelFault::NotText(i));
                    },
                }
                i += 1;
            }
            Ok(keys)
        },
        _ => Err(LabelFault::NotAnArray),
    }
}

/// The keys of the branches that a section names.
fn branches_of(section: &Json, index: usize, labels: &Vec<Label>) -> (r: Result<
    Vec<String>,
    GeneratedFault,
>)
    ensures
        match section_branches(section@, index, label_models(labels@)) {
            Ok(keys) => r is Ok && texts(r->Ok_0@) == keys,
            Err(fault) => r == Err::<Vec<String>, GeneratedFault>(fault),
        },
{
    let none: Vec<String> = Vec::new();
    assert(texts(none@) =~= Seq::empty());
    assert(label_models(labels@).len() == labels@.len());
    match section.get("branches") {
        None => Ok(none),
        Some(value) => {
            if labels.len() == 0 {
                return Ok(none);
            }
            if let Json::Null = value {
                return Ok(none);
            }
            match resolve_labels(value, labels) {
                Ok(keys) => Ok(keys),
                Err(LabelFault::NotAnArray) => Err(GeneratedFault::Branches(index)),
                Err(LabelFault::NotText(at)) => Err(GeneratedFault::BranchText(index, at)),
                Err(LabelFault::Unknown(at)) => Err(GeneratedFault::BranchLabel(index, at)),
            }
        },
    }
}

/// The texts of lists of lists.
pub open spec fn text_lists(v: Seq<Vec<String>>) -> Seq<Seq<Seq<char>>> {
    v.map_values(|l: Vec<String>| texts(l@))
}

proof fn lemma_branches_stop(
    sections: Seq<JsonModel>,
    labels: Seq<LabelModel>,
    count: nat,
    all: nat,
)
    requires
        count <= all,
    ensures
        all_branches(sections, labels, count) is Err ==> all_branches(sections, labels, all)
            == all_branches(sections, labels, count),
    decreases all - count,
{
    if count < all {
        lemma_branches_stop(sections, labels, count, (all - 1) as nat);
    }
}

/// The branches of every section.
fn collect_branches(items: &Vec<Json>, labels: &Vec<Label>) -> (r: Result<
    Vec<Vec<String>>,
    GeneratedFault,
>)
    ensures
        match all_branches(models(items@), label_models(labels@), items@.len()) {
            Ok(lists) => r is Ok && text_lists(r->Ok_0@) == lists && r->Ok_0@.len() == items@.len(),
            Err(fault) => r == Err::<Vec<Vec<String>>, GeneratedFault>(fault),
        },
{
    let ghost ms = models(items@);
    let ghost ls = label_models(labels@);
    let mut lists: Vec<Vec<String>> = Vec::new();
    let mut i: usize = 0;
    assert(text_lists(lists@) =~= Seq::empty());
    while i < items.len()
        invariant
            i <= items@.len(),
            lists@.len() == i,
            ms == models(items@),
            ls == label_models(labels@),
            all_branches(ms, ls, i as nat) == Ok::<Seq<Seq<Seq<char>>>, GeneratedFault>(
                text_lists(lists@),
            ),
        decreases items@.len() - i,
    {
        proof {
            lemma_branches_stop(ms, ls, (i + 1) as nat, ms.len());
        }
        match branches_of(&items[i], i, labels) {
            Ok(keys) => {
                assert(text_lists(lists@.push(keys)) =~= text_lists(lists@).push(texts(keys@)));
                lists.push(keys);
            },
            Err(fault) => {
                return Err(fault);
            },
        }
        i += 1;
    }
    Ok(lists)
}

proof fn lemma_exclusions_stop(
    items: Seq<JsonModel>,
    labels: Seq<LabelModel>,
    count: nat,
    all: nat,
)
    requires
        count <= all,
    ensures
        read_exclusions(items, labels, count) is Err ==> read_exclusions(items, labels, all)
            == read_exclusions(items, labels, count),
    decreases all - count,
{
    if count < all {
        lemma_exclusions_stop(items, labels, count, (all - 1) as nat);
    }
}

/// The exclusions of a plan, with the keys of their branches.
fn resolve_exclusions(value: &Json, labels: &Vec<Label>) -> (r: Result<
    Vec<BranchExclusion>,
    GeneratedFault,
>)
    ensures
        match all_exclusions(value@, label_models(labels@)) {
            Ok(list) => r is Ok && exclusion_models(r->Ok_0@) == list,
            Err(fault) => r == Err::<Vec<BranchExclusion>, GeneratedFault>(fault),
        },
{
    let ghost ls = label_models(labels@);
    let mut list: Vec<BranchExclusion> = Vec::new();
    assert(exclusion_models(list@) =~= Seq::empty());
    assert(ls.len() == labels@.len());
    match value.get("excluded_branches") {
        None => Ok(list),
        Some(found) => {
            if labels.len() == 0 {
                return Ok(list);
            }
            match found {
                Json::Arr(items) => {
                    proof {
                        lemma_arr(*items);
                    }
                    let ghost ms = models(items@);
                    let mut i: usize = 0;
                    while i < items.len()
                        invariant
                            i <= items@.len(),
                            ms == models(items@),
                            ls == label_models(labels@),
                            all_exclusions(value@, ls) == read_exclusions(ms, ls, ms.len()),
                            read_exclusions(ms, ls, i as nat) == Ok::<
                                Seq<ExclusionModel>,
                                GeneratedFault,
                            >(exclusion_models(list@)),
                        decreases items@.len() - i,
                    {
                        proof {
                            lemma_exclusions_stop(ms, ls, (i + 1) as nat, ms.len());
                            assert(ms[i as int] == items@[i as int]@);
                        }
                        let reason = match items[i].text("reason") {
                            Some(reason) => reason,
                            None => {
                                return Err(GeneratedFault::Reason(i));
                            },
                        };
                        if !bounded_text(reason, 1500) {
                            return Err(GeneratedFault::Reason(i));
                        }
                        let label = match items[i].text("branch") {
                            Some(label) => trimmed(label),
                            None => {
                                return Err(GeneratedFault::ExcludedText(i));
                            },
                        };
                        match find_key(labels, label.as_str()) {
                            None => {
                                return Err(GeneratedFault::ExcludedLabel(i));
                            },
                            Some(key) => {
                                let e = BranchExclusion {
                                    branch: key.clone(),
                                    reason: String::from_str(reason),
                                };
                                assert(exclusion_models(list@.push(e)) =~= exclusion_models(
                                    list@,
                                ).push(e@));
                                list.push(e);
                            },
                        }
                        i += 1;
                    }
                    Ok(list)
                },
                _ => Err(GeneratedFault::Exclusions),
            }
        },
    }
}

/// The first exclusion whose branch a section covers.
fn reject_covered_exclusions(branches: &Vec<Vec<String>>, exclusions: &Vec<BranchExclusion>) -> (r:
    Option<GeneratedFault>)
    ensures
        r == covered_exclusion(text_lists(branches@), exclusion_models(exclusions@), 0),
{
    let ghost bs = text_lists(branches@);
    let ghost es = exclusion_models(exclusions@);
    let mut e: usize = 0;
    while e < exclusions.len()
        invariant
            e <= exclusions@.len(),
            bs == text_lists(branches@),
            es == exclusion_models(exclusions@),
            covered_exclusion(bs, es, e as nat) == covered_exclusion(bs, es, 0),
        decreases exclusions@.len() - e,
    {
        let ghost key = es[e as int].branch;
        let mut s: usize = branches.len();
        while s > 0
            invariant
                s <= branches@.len(),
                e < exclusions@.len(),
                bs == text_lists(branches@),
                es == exclusion_models(exclusions@),
                key == es[e as int].branch,
                covered_exclusion(bs, es, e as nat) == covered_exclusion(bs, es, 0),
                coverer(bs, key, s as nat) == coverer(bs, key, bs.len()),
            decreases s,
        {
            s -= 1;
            assert(bs[s as int] == texts(branches@[s as int]@));
            if list_has(&branches[s], exclusions[e].branch.as_str()) {
                return Some(GeneratedFault::Covered(e, s));
            }
        }
        e += 1;
    }
    None
}

proof fn lemma_strings_stop(items: Seq<JsonModel>, count: nat, all: nat)
    requires
        count <= all,
    ensures
        strings(items, count) is None ==> strings(items, all) is None,
    decreases all - count,
{
    if count < all {
        lemma_strings_stop(items, count, (all - 1) as nat);
    }
}

/// The texts of an array of strings.
pub fn read_strings(items: &Vec<Json>) -> (r: Option<Vec<String>>)
    ensures
        match strings(models(items@), items@.len()) {
            Some(list) => r is Some && texts(r->0@) == list,
            None => r is None,
        },
{
    let ghost ms = models(items@);
    let mut list: Vec<String> = Vec::new();
    let mut i: usize = 0;
    assert(texts(list@) =~= Seq::empty());
    while i < items.len()
        invariant
            i <= items@.len(),
            ms == models(items@),
            strings(ms, i as nat) == Some(texts(list@)),
        decreases items@.len() - i,
    {
        proof {
            lemma_strings_stop(ms, (i + 1) as nat, ms.len());
            assert(ms[i as int] == items@[i as int]@);
        }
        match &items[i] {
            Json::Str(s) => {
                let t = s.clone();
                assert(texts(list@.push(t)) =~= texts(list@).push(t@));
                list.push(t);
            },
            _ => {
                return None;
            },
        }
        i += 1;
    }
    Some(list)
}

proof fn lemma_titles_stop(
    sections: Seq<JsonModel>,
    titles: Seq<Seq<char>>,
    index: usize,
    count: nat,
    all: nat,
)
    requires
        count <= all,
    ensures
        resolve_titles(sections, titles, index, count) is Err ==> resolve_titles(
            sections,
            titles,
            index,
            all,
        ) == resolve_titles(sections, titles, index, count),
    decreases all - count,
{
    if count < all {
        lemma_titles_stop(sections, titles, index, count, (all - 1) as nat);
    }
}

/// The earlier sections that some titles name.
fn sections_titled(items: &Vec<Json>, titles: &Vec<String>, index: usize) -> (r: Result<
    Vec<usize>,
    GeneratedFault,
>)
    ensures
        match resolve_titles(models(items@), texts(titles@), index, titles@.len()) {
            Ok(deps) => r is Ok && r->Ok_0@ == deps,
            Err(fault) => r == Err::<Vec<usize>, GeneratedFault>(fault),
        },
{
    let ghost ms = models(items@);
    let ghost ts = texts(titles@);
    let mut deps: Vec<usize> = Vec::new();
    let mut at: usize = 0;
    while at < titles.len()
        invariant
            at <= titles@.len(),
            ms == models(items@),
            ts == texts(titles@),
            resolve_titles(ms, ts, index, at as nat) == Ok::<Seq<usize>, GeneratedFault>(deps@),
        decreases titles@.len() - at,
    {
        proof {
            lemma_titles_stop(ms, ts, index, (at + 1) as nat, ts.len());
        }
        let ghost keep = |i: int| ms[i].text("title"@) == Some(ts[at as int]);
        let mut matches: usize = 0;
        let mut last: usize = 0;
        let mut i: usize = 0;
        while i < items.len()
            invariant
                i <= items@.len(),
                at < titles@.len(),
                ms == models(items@),
                ts == texts(titles@),
                keep == (|i: int| ms[i].text("title"@) == Some(ts[at as int])),
                matches == positions(keep, i as nat).len(),
                matches <= i,
                matches > 0 ==> last == positions(keep, i as nat).last() && last < i,
            decreases items@.len() - i,
        {
            assert(ms[i as int] == items@[i as int]@);
            if let Some(title) = items[i].text("title") {
                if same(title, titles[at].as_str()) {
                    matches += 1;
                    last = i;
                }
            }
            i += 1;
        }
        if matches != 1 {
            return Err(GeneratedFault::PrerequisiteTitle(index, at));
        }
        if last >= index {
            return Err(GeneratedFault::PrerequisiteOrder(index, at));
        }
        if !has_position(&deps, last) {
            deps.push(last);
        }
        at += 1;
    }
    Ok(deps)
}

/// Whether a list holds a position.
fn has_position(list: &Vec<usize>, n: usize) -> (r: bool)
    ensures
        r == list@.contains(n),
{
    let mut i: usize = 0;
    while i < list.len()
        invariant
            i <= list@.len(),
            forall|k: int| 0 <= k < i ==> list@[k] != n,
        decreases list@.len() - i,
    {
        if list[i] == n {
            return true;
        }
        i += 1;
    }
    false
}

/// The value of resolved prerequisites.
pub open spec fn deps_model(d: Option<Vec<usize>>) -> Option<Seq<usize>> {
    match d {
        Some(v) => Some(v@),
        None => None,
    }
}

/// The earlier sections that a section names as prerequisites.
fn prerequisites_of(items: &Vec<Json>, index: usize) -> (r: Result<
    Option<Vec<usize>>,
    GeneratedFault,
>)
    requires
        index < items@.len(),
    ensures
        match prerequisites(models(items@), index as int) {
            Ok(deps) => r is Ok && deps_model(r->Ok_0) == deps,
            Err(fault) => r == Err::<Option<Vec<usize>>, GeneratedFault>(fault),
        },
{
    assert(models(items@)[index as int] == items@[index as int]@);
    match items[index].get("prerequisite_titles") {
        None => Ok(None),
        Some(Json::Arr(list)) => {
            proof {
                lemma_arr(*list);
            }
            match read_strings(list) {
                None => Err(GeneratedFault::Prerequisites(index)),
                Some(titles) => {
                    assert(texts(titles@).len() == titles@.len());
                    match sections_titled(items, &titles, index) {
                        Ok(deps) => Ok(Some(deps)),
                        Err(fault) => Err(fault),
                    }
                },
            }
        },
        Some(_) => Err(GeneratedFault::Prerequisites(index)),
    }
}

proof fn lemma_prerequisites_stop(sections: Seq<JsonModel>, count: nat, all: nat)
    requires
        count <= all,
    ensures
        all_prerequisites(sections, count) is Err ==> all_prerequisites(sections, all)
            == all_prerequisites(sections, count),
    decreases all - count,
{
    if count < all {
        lemma_prerequisites_stop(sections, count, (all - 1) as nat);
    }
}

/// The values of resolved prerequisites.
pub open spec fn deps_models(v: Seq<Option<Vec<usize>>>) -> Seq<Option<Seq<usize>>> {
    v.map_values(|d: Option<Vec<usize>>| deps_model(d))
}

/// The prerequisites of every section.
fn collect_prerequisites(items: &Vec<Json>) -> (r: Result<Vec<Option<Vec<usize>>>, GeneratedFault>)
    ensures
        match all_prerequisites(models(items@), items@.len()) {
            Ok(all) => r is Ok && deps_models(r->Ok_0@) == all && r->Ok_0@.len() == items@.len(),
            Err(fault) => r == Err::<Vec<Option<Vec<usize>>>, GeneratedFault>(fault),
        },
{
    let ghost ms = models(items@);
    let mut all: Vec<Option<Vec<usize>>> = Vec::new();
    let mut i: usize = 0;
    assert(deps_models(all@) =~= Seq::empty());
    while i < items.len()
        invariant
            i <= items@.len(),
            all@.len() == i,
            ms == models(items@),
            all_prerequisites(ms, i as nat) == Ok::<Seq<Option<Seq<usize>>>, GeneratedFault>(
                deps_models(all@),
            ),
        decreases items@.len() - i,
    {
        proof {
            lemma_prerequisites_stop(ms, (i + 1) as nat, ms.len());
        }
        match prerequisites_of(items, i) {
            Ok(deps) => {
                assert(deps_models(all@.push(deps)) =~= deps_models(all@).push(deps_model(deps)));
                all.push(deps);
            },
            Err(fault) => {
                return Err(fault);
            },
        }
        i += 1;
    }
    Ok(all)
}

/// A text that may be missing.
pub fn text_member(value: &Json, name: &str) -> (r: Option<String>)
    ensures
        match read_text(value@, name@) {
            Some(s) => r is Some && r->0@ == s,
            None => r is None,
        },
{
    match value.get(name) {
        None => Some(String::new()),
        Some(Json::Str(s)) => Some(s.clone()),
        Some(_) => None,
    }
}

/// A list of texts that may be missing.
pub fn texts_member(value: &Json, name: &str) -> (r: Option<Vec<String>>)
    ensures
        match read_texts(value@, name@) {
            Some(list) => r is Some && texts(r->0@) == list,
            None => r is None,
        },
{
    match value.get(name) {
        None => {
            let none: Vec<String> = Vec::new();
            assert(texts(none@) =~= Seq::empty());
            Some(none)
        },
        Some(Json::Arr(items)) => {
            proof {
                lemma_arr(*items);
            }
            read_strings(items)
        },
        Some(_) => None,
    }
}

/// A list of texts that may be missing or null.
pub fn optional_texts_member(value: &Json, name: &str) -> (r: Option<Option<Vec<String>>>)
    ensures
        match read_optional_texts(value@, name@) {
            Some(Some(list)) => r is Some && r->0 is Some && texts(r->0->0@) == list,
            Some(None) => r is Some && r->0 is None,
            None => r is None,
        },
{
    match value.get(name) {
        None => Some(None),
        Some(Json::Null) => Some(None),
        Some(Json::Arr(items)) => {
            proof {
                lemma_arr(*items);
            }
            match read_strings(items) {
                Some(list) => Some(Some(list)),
                None => None,
            }
        },
        Some(_) => None,
    }
}

proof fn lemma_naturals_stop(items: Seq<JsonModel>, count: nat, all: nat)
    requires
        count <= all,
    ensures
        naturals(items, count) is None ==> naturals(items, all) is None,
    decreases all - count,
{
    if count < all {
        lemma_naturals_stop(items, count, (all - 1) as nat);
    }
}

/// A list of positions that may be missing.
fn positions_member(value: &Json, name: &str) -> (r: Option<Vec<usize>>)
    ensures
        match read_positions(value@, name@) {
            Some(list) => r is Some && r->0@ == list,
            None => r is None,
        },
{
    match value.get(name) {
        None => Some(Vec::new()),
        Some(Json::Arr(items)) => {
            proof {
                lemma_arr(*items);
            }
            let ghost ms = models(items@);
            let mut list: Vec<usize> = Vec::new();
            let mut i: usize = 0;
            while i < items.len()
                invariant
                    i <= items@.len(),
                    ms == models(items@),
                    read_positions(value@, name@) == naturals(ms, ms.len()),
                    naturals(ms, i as nat) == Some(list@),
                decreases items@.len() - i,
            {
                proof {
                    lemma_naturals_stop(ms, (i + 1) as nat, ms.len());
                    assert(ms[i as int] == items@[i as int]@);
                }
                match items[i].natural() {
                    Some(n) => {
                        if n > usize::MAX as u64 {
                            return None;
                        }
                        let p: usize = n as usize;
                        if !has_position(&list, p) {
                            list.push(p);
                        }
                    },
                    None => {
                        return None;
                    },
                }
                i += 1;
            }
            Some(list)
        },
        Some(_) => None,
    }
}

/// A section as a generated plan keeps it.
fn tidy(section: SectionPlan) -> (r: SectionPlan)
    ensures
        r@ == tidied(section@),
{
    let ghost all = section.depends_on@;
    let mut kept: Vec<usize> = Vec::new();
    let mut i: usize = 0;
    while i < section.depends_on.len()
        invariant
            i <= section.depends_on@.len(),
            all == section.depends_on@,
            kept@ == distinct(all, i as nat),
        decreases section.depends_on@.len() - i,
    {
        let p: usize = section.depends_on[i];
        if !has_position(&kept, p) {
            kept.push(p);
        }
        i += 1;
    }
    let owns: Vec<String> = Vec::new();
    assert(texts(owns@) =~= Seq::empty());
    SectionPlan { depends_on: kept, owns_requirement_ids: owns, ..section }
}

/// A plan as it was stored, without requirements, its sections tidied.
fn tidy_plan(plan: Outline) -> (r: Outline)
    ensures
        r@ == tidied_plan(plan@),
{
    let ghost old = section_models(plan.sections@);
    let mut rest = plan.sections;
    let ghost given = rest@;
    let mut backwards: Vec<SectionPlan> = Vec::new();
    let mut sections: Vec<SectionPlan> = Vec::new();
    while rest.len() > 0
        invariant
            rest@.len() + backwards@.len() == given.len(),
            rest@ == given.take(rest@.len() as int),
            forall|k: int|
                0 <= k < backwards@.len() ==> #[trigger] backwards@[k] == given[given.len() - 1 - k],
        decreases rest@.len(),
    {
        if let Some(s) = rest.pop() {
            backwards.push(s);
        }
    }
    while backwards.len() > 0
        invariant
            sections@.len() + backwards@.len() == given.len(),
            forall|k: int|
                0 <= k < backwards@.len() ==> #[trigger] backwards@[k] == given[given.len() - 1 - k],
            forall|k: int|
                0 <= k < sections@.len() ==> (#[trigger] sections@[k])@ == tidied(given[k]@),
        decreases backwards@.len(),
    {
        if let Some(s) = backwards.pop() {
            sections.push(tidy(s));
        }
    }
    assert(section_models(sections@) =~= old.map_values(|s: SectionModel| tidied(s)));
    let requirements: Vec<Requirement> = Vec::new();
    assert(requirement_models(requirements@) =~= Seq::empty());
    Outline {
        sections,
        reader_goal: plan.reader_goal,
        storyline: plan.storyline,
        terminology: plan.terminology,
        requirements,
        revision: plan.revision,
        excluded_branches: plan.excluded_branches,
    }
}

/// A section, by name with its branches and prerequisites as they were resolved,
/// or by position.
fn section_from(section: &Json, branches: Vec<String>, prerequisites: Option<Vec<usize>>) -> (r:
    Option<SectionPlan>)
    ensures
        match read_section(section@, texts(branches@), deps_model(prerequisites)) {
            Some(m) => r is Some && r->0@ == m,
            None => r is None,
        },
{
    match section {
        Json::Arr(items) => {
            proof {
                lemma_arr(*items);
            }
            match section_stored(section) {
                Some(s) => Some(tidy(s)),
                None => None,
            }
        },
        _ => resolved_from(section, branches, prerequisites),
    }
}

/// A section, with its branches and prerequisites as they were resolved.
fn resolved_from(section: &Json, branches: Vec<String>, prerequisites: Option<Vec<usize>>) -> (r:
    Option<SectionPlan>)
    ensures
        match resolved_section(section@, texts(branches@), deps_model(prerequisites)) {
            Some(m) => r is Some && r->0@ == m,
            None => r is None,
        },
{
    let depends_on = match prerequisites {
        Some(deps) => Some(deps),
        None => positions_member(section, "depends_on"),
    };
    let owns: Vec<String> = Vec::new();
    assert(texts(owns@) =~= Seq::empty());
    match (
        section.text("title"),
        section.text("query"),
        text_member(section, "id"),
        text_member(section, "reader_question"),
        text_member(section, "handoff"),
        optional_texts_member(section, "diagrams"),
    ) {
        (
            Some(title),
            Some(query),
            Some(id),
            Some(reader_question),
            Some(handoff),
            Some(diagrams),
        ) => {
            match (
                depends_on,
                texts_member(section, "evidence_ids"),
                texts_member(section, "key_points"),
                texts_member(section, "out_of_scope"),
            ) {
                (Some(depends_on), Some(evidence_ids), Some(key_points), Some(out_of_scope)) => Some(
                    SectionPlan {
                        id,
                        title: String::from_str(title),
                        query: String::from_str(query),
                        reader_question,
                        handoff,
                        diagrams,
                        depends_on,
                        evidence_ids,
                        owns_requirement_ids: owns,
                        key_points,
                        out_of_scope,
                        branches,
                    },
                ),
                _ => None,
            }
        },
        _ => None,
    }
}

proof fn lemma_sections_stop(
    sections: Seq<JsonModel>,
    branches: Seq<Seq<Seq<char>>>,
    deps: Seq<Option<Seq<usize>>>,
    count: nat,
    all: nat,
)
    requires
        count <= all,
    ensures
        read_sections(sections, branches, deps, count) is None ==> read_sections(
            sections,
            branches,
            deps,
            all,
        ) is None,
    decreases all - count,
{
    if count < all {
        lemma_sections_stop(sections, branches, deps, count, (all - 1) as nat);
    }
}

/// Every section of a plan.
fn sections_from(
    items: &Vec<Json>,
    branches: Vec<Vec<String>>,
    prerequisites: Vec<Option<Vec<usize>>>,
) -> (r: Option<Vec<SectionPlan>>)
    requires
        branches@.len() == items@.len(),
        prerequisites@.len() == items@.len(),
    ensures
        match read_sections(
            models(items@),
            text_lists(branches@),
            deps_models(prerequisites@),
            items@.len(),
        ) {
            Some(list) => r is Some && section_models(r->0@) == list,
            None => r is None,
        },
{
    let ghost ms = models(items@);
    let ghost bs = text_lists(branches@);
    let ghost ds = deps_models(prerequisites@);
    let mut list: Vec<SectionPlan> = Vec::new();
    let mut branch_lists = branches;
    let mut dep_lists = prerequisites;
    let mut i: usize = 0;
    assert(section_models(list@) =~= Seq::empty());
    assert(branch_lists@ =~= branches@.skip(0));
    assert(dep_lists@ =~= prerequisites@.skip(0));
    while i < items.len()
        invariant
            i <= items@.len(),
            branches@.len() == items@.len(),
            prerequisites@.len() == items@.len(),
            ms == models(items@),
            bs == text_lists(branches@),
            ds == deps_models(prerequisites@),
            branch_lists@ == branches@.skip(i as int),
            dep_lists@ == prerequisites@.skip(i as int),
            read_sections(ms, bs, ds, i as nat) == Some(section_models(list@)),
        decreases items@.len() - i,
    {
        proof {
            lemma_sections_stop(ms, bs, ds, (i + 1) as nat, ms.len());
            assert(ms[i as int] == items@[i as int]@);
            assert(branch_lists@[0] == branches@[i as int]);
            assert(dep_lists@[0] == prerequisites@[i as int]);
            assert(branch_lists@.remove(0) =~= branches@.skip(i + 1));
            assert(dep_lists@.remove(0) =~= prerequisites@.skip(i + 1));
        }
        let keys = branch_lists.remove(0);
        let deps = dep_lists.remove(0);
        match section_from(&items[i], keys, deps) {
            Some(section) => {
                assert(section_models(list@.push(section)) =~= section_models(list@).push(
                    section@,
                ));
                list.push(section);
            },
            None => {
                return None;
            },
        }
        i += 1;
    }
    Some(list)
}

/// The revision, zero where it is missing.
pub fn revision_of(value: &Json) -> (r: Option<u32>)
    ensures
        r == read_revision(value@),
{
    match value.get("revision") {
        None => Some(0),
        Some(v) => match v.natural() {
            Some(n) => if n <= u32::MAX as u64 {
                Some(n as u32)
            } else {
                None
            },
            None => None,
        },
    }
}

/// Reads a plan that has no name for its members.
fn unnamed_from(value: &Json) -> (r: Option<Outline>)
    ensures
        match unnamed_plan(value@) {
            Some(plan) => r is Some && r->0@ == plan,
            None => r is None,
        },
{
    if let Some(plan) = outline_from_json(value) {
        return Some(tidy_plan(plan));
    }
    let text = value.to_text();
    match extract_json_object(text.as_str()) {
        Some(object) => match parse_json(object.as_str()) {
            Ok(inner) => match outline_from_json(&inner) {
                Some(plan) => Some(tidy_plan(plan)),
                None => None,
            },
            Err(_) => None,
        },
        None => None,
    }
}

/// Reads a plan out of a response. Labels become node keys, and titles that are
/// named as prerequisites become positions of earlier sections. A plan made
/// without labels has none to resolve, and any branches it names are dropped.
/// Ownership of requirements is no part of a generated plan. What is written as
/// an array, the plan or a section of it, has no names to resolve by.
pub fn decode_generated_outline(value: &Json, labels: &Vec<Label>) -> (r: Result<
    Outline,
    GeneratedFault,
>)
    ensures
        match generated(value@, label_models(labels@)) {
            Ok(plan) => r is Ok && r->Ok_0@ == plan,
            Err(fault) => r == Err::<Outline, GeneratedFault>(fault),
        },
{
    match value {
        Json::Obj(members) => {
            proof {
                lemma_obj(*members);
            }
            resolve_plan(value, labels)
        },
        _ => {
            proof {
                if let Json::Arr(items) = value {
                    lemma_arr(*items);
                }
            }
            match unnamed_from(value) {
                Some(plan) => Ok(plan),
                None => Err(GeneratedFault::Shape),
            }
        },
    }
}

/// Reads a plan out of an object.
fn resolve_plan(value: &Json, labels: &Vec<Label>) -> (r: Result<Outline, GeneratedFault>)
    ensures
        match resolved_plan(value@, label_models(labels@)) {
            Ok(plan) => r is Ok && r->Ok_0@ == plan,
            Err(fault) => r == Err::<Outline, GeneratedFault>(fault),
        },
{
    let empty: Vec<Json> = Vec::new();
    assert(models(empty@) =~= Seq::empty());
    let found = value.items("sections");
    let items: &Vec<Json> = match found {
        Some(items) => items,
        None => &empty,
    };
    assert(models(items@) =~= value@.items("sections"@));
    let branches = match collect_branches(items, labels) {
        Ok(branches) => branches,
        Err(fault) => {
            return Err(fault);
        },
    };
    let excluded_branches = match resolve_exclusions(value, labels) {
        Ok(list) => list,
        Err(fault) => {
            return Err(fault);
        },
    };
    if let Some(fault) = reject_covered_exclusions(&branches, &excluded_branches) {
        return Err(fault);
    }
    let prerequisites = match collect_prerequisites(items) {
        Ok(all) => all,
        Err(fault) => {
            return Err(fault);
        },
    };
    if found.is_none() {
        return Err(GeneratedFault::Shape);
    }
    match (
        sections_from(items, branches, prerequisites),
        text_member(value, "reader_goal"),
        text_member(value, "storyline"),
        texts_member(value, "terminology"),
        revision_of(value),
    ) {
        (
            Some(sections),
            Some(reader_goal),
            Some(storyline),
            Some(terminology),
            Some(revision),
        ) => {
            let requirements: Vec<Requirement> = Vec::new();
            assert(requirement_models(requirements@) =~= Seq::empty());
            Ok(
                Outline {
                    sections,
                    reader_goal,
                    storyline,
                    terminology,
                    requirements,
                    revision,
                    excluded_branches,
                },
            )
        },
        _ => Err(GeneratedFault::Shape),
    }
}

// ---------------------------------------------------------------------------
// Laws
// ---------------------------------------------------------------------------

/// A plan whose branches are resolved accounts for each one way only: what a
/// section covers by name is not excluded.
pub proof fn covered_branches_are_not_excluded(value: JsonModel, labels: Seq<LabelModel>)
    requires
        value is Obj,
        generated(value, labels) is Ok,
    ensures
        ({
            let plan = generated(value, labels)->Ok_0;
            forall|s: int, e: int|
                0 <= s < plan.sections.len() && 0 <= e < plan.excluded_branches.len()
                    && !(value.items("sections"@)[s] is Arr) ==> !(
                #[trigger] plan.sections[s]).branches.contains(
                    (#[trigger] plan.excluded_branches[e]).branch,
                )
        }),
{
    let plan = generated(value, labels)->Ok_0;
    let items = value.items("sections"@);
    let branches = all_branches(items, labels, items.len())->Ok_0;
    let exclusions = all_exclusions(value, labels)->Ok_0;
    let deps = all_prerequisites(items, items.len())->Ok_0;
    lemma_read_sections(items, branches, deps, items.len());
    lemma_all_branches_len(items, labels, items.len());
    assert forall|s: int, e: int|
        0 <= s < plan.sections.len() && 0 <= e < plan.excluded_branches.len() && !(
        items[s] is Arr) implies !(#[trigger] plan.sections[s]).branches.contains(
        (#[trigger] plan.excluded_branches[e]).branch,
    ) by {
        lemma_uncovered(branches, exclusions, 0, e as nat);
        lemma_coverer(branches, exclusions[e].branch, branches.len(), s);
    }
}

proof fn lemma_all_branches_len(items: Seq<JsonModel>, labels: Seq<LabelModel>, count: nat)
    requires
        all_branches(items, labels, count) is Ok,
    ensures
        all_branches(items, labels, count)->Ok_0.len() == count,
    decreases count,
{
    if count > 0 {
        lemma_all_branches_len(items, labels, (count - 1) as nat);
    }
}

proof fn lemma_read_sections(
    items: Seq<JsonModel>,
    branches: Seq<Seq<Seq<char>>>,
    deps: Seq<Option<Seq<usize>>>,
    count: nat,
)
    requires
        read_sections(items, branches, deps, count) is Some,
    ensures
        read_sections(items, branches, deps, count)->0.len() == count,
        forall|s: int|
            0 <= s < count && !(items[s] is Arr) ==> (#[trigger] read_sections(
                items,
                branches,
                deps,
                count,
            )->0[s]).branches == branches[s],
    decreases count,
{
    if count > 0 {
        lemma_read_sections(items, branches, deps, (count - 1) as nat);
        let before = read_sections(items, branches, deps, (count - 1) as nat)->0;
        let now = read_sections(items, branches, deps, count)->0;
        assert forall|s: int| 0 <= s < count && !(items[s] is Arr) implies (
        #[trigger] now[s]).branches == branches[s] by {
            if s < count - 1 {
                assert(now[s] == before[s]);
            }
        }
    }
}

proof fn lemma_uncovered(
    branches: Seq<Seq<Seq<char>>>,
    exclusions: Seq<ExclusionModel>,
    from: nat,
    e: nat,
)
    requires
        covered_exclusion(branches, exclusions, from) is None,
        from <= e < exclusions.len(),
    ensures
        coverer(branches, exclusions[e as int].branch, branches.len()) is None,
    decreases e - from,
{
    if from < e {
        lemma_uncovered(branches, exclusions, from + 1, e);
    }
}

proof fn lemma_coverer(branches: Seq<Seq<Seq<char>>>, key: Seq<char>, count: nat, s: int)
    requires
        coverer(branches, key, count) is None,
        0 <= s < count,
    ensures
        !branches[s].contains(key),
    decreases count,
{
    if s < count - 1 {
        lemma_coverer(branches, key, (count - 1) as nat, s);
    }
}

} // verus!
