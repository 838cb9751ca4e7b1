//! What planning owes: labels and citations resolve to what they name, a plan is
//! accepted just where it obeys every rule, and no part of a source, of a
//! chapter or of a limit is lost.

use vstd::prelude::*;

use super::lists::{
    firsts, has_key, is_first, lemma_firsts_push, upto,
};
use crate::findings::{named_by, resolve, resolve_all};
use crate::json::JsonModel;
use crate::model::{ExclusionModel, Outline, OutlineModel, SectionModel, SectionPlan};
use crate::order::{
    lemma_filter_none, lemma_filter_step, lemma_positions, lemma_sum_update, nats, sum,
};
use crate::planning::accounting::{
    counts_at, major, names_from, reported_label, reported_section, scope_message, scope_open,
    scopes_found, stands_alone, unassigned_found, unassigned_message, IssueModel, UnassignedModel,
};
use crate::planning::generated::{key_of, resolve_items, LabelFault, LabelModel};
use crate::planning::outline::{
    ceiling, check_outline, check_section, check_sections, dependency_fault, diagram_count, exclusions_ok,
    section_id, section_ids, section_titles,
};
use crate::planning::rounds::{joined_exclusions, joined_sections, shifted_sections};
use crate::planning::shares::{due, first_shares, largest, lemma_largest, take_back, weight};
use crate::text::{
    blen, first_at, is_ascii_digit, is_ascii_letter, is_hex_digit, lemma_first_at, occurs_at,
    starts_with, texts, title_key, trim,
};

verus! {

// ---------------------------------------------------------------------------
// Issues
// ---------------------------------------------------------------------------

/// No reported issue names the label of a part.
pub open spec fn unnamed(reported: Seq<IssueModel>) -> spec_fn(UnassignedModel) -> bool {
    |x: UnassignedModel|
        forall|i: int|
            0 <= i < reported.len() ==> !names_from((#[trigger] reported[i]).message, x.branch, 0)
}

/// The issue about a part that the plan does not account for.
pub open spec fn unaccounted() -> spec_fn(UnassignedModel) -> IssueModel {
    |x: UnassignedModel|
        IssueModel {
            severity: "major"@,
            code: "unassigned_branch"@,
            message: unassigned_message(x),
            section_ids: Seq::empty(),
            requirement_ids: Seq::empty(),
            query: Seq::empty(),
        }
}

/// Every part that the plan does not account for and that no review named is
/// reported, as a major issue and in the order of the coverage.
pub proof fn unaccounted_parts_are_reported(
    parts: Seq<UnassignedModel>,
    reported: Seq<IssueModel>,
    count: nat,
)
    requires
        count <= parts.len(),
    ensures
        unassigned_found(parts, reported, count) == parts.take(count as int).filter(
            unnamed(reported),
        ).map_values(unaccounted()),
    decreases count,
{
    let keep = unnamed(reported);
    lemma_filter_none(parts, keep);
    if count == 0 {
        assert(Seq::<UnassignedModel>::empty().map_values(unaccounted()) =~= Seq::empty());
    } else {
        let n = count - 1;
        unaccounted_parts_are_reported(parts, reported, n as nat);
        lemma_filter_step(parts, keep, n);
        let before = parts.take(n).filter(keep);
        assert(before.push(parts[n]).map_values(unaccounted()) =~= before.map_values(
            unaccounted(),
        ).push(unaccounted()(parts[n])));
        assert(reported_label(reported, parts[n].branch) == !keep(parts[n]));
    }
}

/// A section has branches, no reported issue is about it, and more of its scope
/// is left out than shown.
pub open spec fn hidden(
    sections: Seq<SectionPlan>,
    counts: Seq<(usize, usize)>,
    reported: Seq<IssueModel>,
) -> spec_fn(int) -> bool {
    |i: int|
        {
            &&& sections[i].branches@.len() > 0
            &&& forall|k: int|
                0 <= k < reported.len() ==> !(#[trigger] reported[k]).section_ids.contains(
                    sections[i].id@,
                )
            &&& i < counts.len()
            &&& counts[i].1 > counts[i].0
        }
}

/// The issue about a section whose scope does not reach its writer.
pub open spec fn hides(
    sections: Seq<SectionPlan>,
    counts: Seq<(usize, usize)>,
) -> spec_fn(int) -> IssueModel {
    |i: int|
        IssueModel {
            severity: "major"@,
            code: "section_scope_not_shown"@,
            message: scope_message(sections[i], counts[i].0 as nat, counts[i].1 as nat),
            section_ids: seq![sections[i].id@],
            requirement_ids: Seq::empty(),
            query: Seq::empty(),
        }
}

/// Every section most of whose scope stays behind is reported, unless a review
/// was about it.
pub proof fn hidden_scopes_are_reported(
    sections: Seq<SectionPlan>,
    counts: Seq<(usize, usize)>,
    reported: Seq<IssueModel>,
    count: nat,
)
    requires
        count <= sections.len(),
    ensures
        scopes_found(sections, counts, reported, count) == upto(sections.len()).take(
            count as int,
        ).filter(hidden(sections, counts, reported)).map_values(hides(sections, counts)),
    decreases count,
{
    let at = upto(sections.len());
    let keep = hidden(sections, counts, reported);
    let told = hides(sections, counts);
    lemma_filter_none(at, keep);
    if count == 0 {
        assert(Seq::<int>::empty().map_values(told) =~= Seq::empty());
    } else {
        let n = count - 1;
        hidden_scopes_are_reported(sections, counts, reported, n as nat);
        lemma_filter_step(at, keep, n);
        let before = at.take(n).filter(keep);
        assert(before.push(n).map_values(told) =~= before.map_values(told).push(told(n)));
        assert(reported_section(reported, sections[n].id@) == !(forall|k: int|
            0 <= k < reported.len() ==> !(#[trigger] reported[k]).section_ids.contains(
                sections[n].id@,
            )));
        let (shown, deferred) = counts_at(counts, n);
        assert(keep(n) == (scope_open(sections[n], reported) && deferred > shown));
        assert(at[n] == n);
    }
}

/// A message names a label where the label stands by itself in it: behind no
/// letter and no digit, and before no digit and no full stop that leads to one.
pub proof fn messages_name_what_stands_alone(message: Seq<char>, label: Seq<char>, from: int)
    requires
        0 <= from,
        label.len() > 0,
        forall|i: int| 0 < i < label.len() ==> #[trigger] label[i] != label[0],
    ensures
        names_from(message, label, from) <==> exists|at: int|
            {
                let end = at + label.len();
                &&& from <= at
                &&& #[trigger] occurs_at(message, label, at)
                &&& at > 0 ==> !is_ascii_letter(message[at - 1]) && !is_ascii_digit(
                    message[at - 1],
                )
                &&& end < message.len() ==> !is_ascii_digit(message[end])
                &&& end + 1 < message.len() && message[end] == '.' ==> !is_ascii_digit(
                    message[end + 1],
                )
            },
    decreases message.len() + 1 - from,
{
    lemma_first_at(message, label, from);
    if let Some(at) = first_at(message, label, from) {
        let next = at + label.len();
        messages_name_what_stands_alone(message, label, next);
        if stands_alone(message, label, at) {
            assert(occurs_at(message, label, at));
        }
        assert forall|p: int| from <= p && #[trigger] occurs_at(message, label, p) implies p == at
            || p >= next by {
            if at < p < next {
                assert(message.subrange(p, p + label.len())[0] == message[p]);
                assert(message.subrange(at, at + label.len())[p - at] == message[p]);
                assert(label[p - at] == label[0]);
            }
        }
    }
}

// ---------------------------------------------------------------------------
// Labels and citations
// ---------------------------------------------------------------------------

/// A label stands for a key: the one of the last label that is written so.
pub open spec fn stands_for(labels: Seq<LabelModel>, label: Seq<char>, key: Seq<char>) -> bool {
    exists|i: int|
        0 <= i < labels.len() && (#[trigger] labels[i]).label == label && labels[i].key == key
            && forall|j: int| i < j < labels.len() ==> (#[trigger] labels[j]).label != label
}

/// Nothing is labelled so.
pub open spec fn no_such_label(labels: Seq<LabelModel>, label: Seq<char>) -> bool {
    forall|i: int| 0 <= i < labels.len() ==> (#[trigger] labels[i]).label != label
}

/// A label is looked up among those that were shown.
pub proof fn labels_stand_for_their_keys(labels: Seq<LabelModel>, label: Seq<char>)
    ensures
        match key_of(labels, label) {
            Some(key) => stands_for(labels, label, key),
            None => no_such_label(labels, label),
        },
    decreases labels.len(),
{
    if labels.len() > 0 {
        let head = labels.drop_last();
        labels_stand_for_their_keys(head, label);
        if labels.last().label == label {
            assert(labels[labels.len() - 1].key == labels.last().key);
        } else if let Some(key) = key_of(labels, label) {
            let i = choose|i: int|
                0 <= i < head.len() && (#[trigger] head[i]).label == label && head[i].key == key
                    && forall|j: int| i < j < head.len() ==> (#[trigger] head[j]).label != label;
            assert(labels[i].label == label && labels[i].key == key);
            assert forall|j: int| i < j < labels.len() implies (#[trigger] labels[j]).label
                != label by {
                if j < head.len() {
                    assert(head[j] == labels[j]);
                }
            }
        } else {
            assert forall|i: int| 0 <= i < labels.len() implies (#[trigger] labels[i]).label
                != label by {
                if i < head.len() {
                    assert(head[i] == labels[i]);
                }
            }
        }
    }
}

/// The key that an item of a list of labels stands for.
pub open spec fn key_for(labels: Seq<LabelModel>) -> spec_fn(JsonModel) -> Seq<char> {
    |item: JsonModel| key_of(labels, trim(item->Str_0))->0
}

/// A key as what tells keys apart.
pub open spec fn itself() -> spec_fn(Seq<char>) -> Seq<char> {
    |key: Seq<char>| key
}

/// An item is a label that was shown, but for white space around it.
pub open spec fn is_label(labels: Seq<LabelModel>, item: JsonModel) -> bool {
    item is Str && !no_such_label(labels, trim(item->Str_0))
}

/// A list of labels resolves to the keys that they stand for, each once and in
/// their order, just where every item is a label that was shown; and otherwise
/// the first item that is none is at fault.
pub proof fn labels_resolve_to_their_keys(
    items: Seq<JsonModel>,
    labels: Seq<LabelModel>,
    count: nat,
)
    requires
        count <= items.len() <= usize::MAX,
    ensures
        match resolve_items(items, labels, count) {
            Ok(keys) => {
                &&& forall|i: int| 0 <= i < count ==> is_label(labels, #[trigger] items[i])
                &&& keys == firsts(
                    items.take(count as int).map_values(key_for(labels)),
                    itself(),
                )
            },
            Err(LabelFault::NotText(at)) => at < count && !(items[at as int] is Str) && forall|
                i: int,
            |
                0 <= i < at ==> is_label(labels, #[trigger] items[i]),
            Err(LabelFault::Unknown(at)) => at < count && items[at as int] is Str && no_such_label(
                labels,
                trim(items[at as int]->Str_0),
            ) && forall|i: int| 0 <= i < at ==> is_label(labels, #[trigger] items[i]),
            Err(LabelFault::NotAnArray) => false,
        },
    decreases count,
{
    let f = key_for(labels);
    if count == 0 {
        let none = Seq::<Seq<char>>::empty();
        assert(items.take(0).map_values(f) =~= none);
        lemma_filter_none(upto(0), is_first(none, itself()));
        assert(upto(0) =~= upto(0).take(0));
        assert(firsts(none, itself()) =~= none);
    } else {
        let n = count - 1;
        labels_resolve_to_their_keys(items, labels, n as nat);
        if items[n] is Str {
            labels_stand_for_their_keys(labels, trim(items[n]->Str_0));
            if let Some(key) = key_of(labels, trim(items[n]->Str_0)) {
                let i = choose|i: int|
                    0 <= i < labels.len() && (#[trigger] labels[i]).label == trim(items[n]->Str_0)
                        && labels[i].key == key && forall|j: int|
                        i < j < labels.len() ==> (#[trigger] labels[j]).label != trim(
                            items[n]->Str_0,
                        );
                assert(!no_such_label(labels, trim(items[n]->Str_0)));
            }
        }
        let before = items.take(n).map_values(f);
        assert(items.take(count as int).map_values(f) =~= before.push(f(items[n])));
        lemma_firsts_push(before, itself(), f(items[n]));
        let had = firsts(before, itself());
        let key = f(items[n]);
        if had.contains(key) {
            let k = choose|k: int| 0 <= k < had.len() && had[k] == key;
            assert(itself()(had[k]) == key);
        }
        if has_key(had, itself(), key) {
            let k = choose|k: int| 0 <= k < had.len() && itself()(#[trigger] had[k]) == key;
            assert(had[k] == key);
        }
    }
}

/// A citation names exactly one of the known ids, the one at a position.
pub open spec fn names_only(known: Seq<Seq<char>>, id: Seq<char>, k: int) -> bool {
    &&& 0 <= k < known.len()
    &&& starts_with(known[k], id)
    &&& forall|j: int| 0 <= j < known.len() && j != k ==> !starts_with(#[trigger] known[j], id)
}

/// A citation is eight to sixty-four hexadecimal digits and names exactly one of
/// the known ids, this one.
pub open spec fn is_citation_of(known: Seq<Seq<char>>, id: Seq<char>, full: Seq<char>) -> bool {
    &&& 8 <= id.len() <= 64
    &&& forall|i: int| 0 <= i < id.len() ==> is_hex_digit(#[trigger] id[i])
    &&& exists|k: int| #[trigger] names_only(known, id, k) && known[k] == full
}

proof fn lemma_named_once(known: Seq<Seq<char>>, id: Seq<char>)
    requires
        known.len() <= usize::MAX,
    ensures
        named_by(known, id).len() == 1 ==> names_only(known, id, named_by(known, id)[0] as int),
        forall|k: int| #[trigger]
            names_only(known, id, k) ==> named_by(known, id).len() == 1 && named_by(
                known,
                id,
            )[0] == k,
{
    let keep = |i: int| starts_with(known[i], id);
    lemma_positions(keep, known.len());
    let at = named_by(known, id);
    if at.len() == 1 {
        assert(keep(at[0] as int));
        assert forall|j: int| 0 <= j < known.len() && j != at[0] implies !starts_with(
            #[trigger] known[j],
            id,
        ) by {
            if starts_with(known[j], id) {
                assert(keep(j));
                assert(at.contains(j as usize));
            }
        }
    }
    assert forall|k: int| #[trigger] names_only(known, id, k) implies at.len() == 1 && at[0]
        == k by {
        assert(keep(k));
        assert(at.contains(k as usize));
        assert forall|j: int| 0 <= j < at.len() implies at[j] == k by {
            assert(keep(at[j] as int));
        }
        if at.len() > 1 {
            assert(at[0] < at[1]);
        }
    }
}

/// Citations resolve just where each names exactly one supplied passage and no
/// two the same, and then to those passages in their order.
pub proof fn unambiguous_citations_resolve(
    ids: Seq<Seq<char>>,
    known: Seq<Seq<char>>,
    count: nat,
    full: Seq<Seq<char>>,
)
    requires
        count <= ids.len() <= usize::MAX,
        known.len() <= usize::MAX,
    ensures
        resolve(ids, known, count) == Ok::<Seq<Seq<char>>, crate::findings::IdFault>(full) <==> {
            &&& full.len() == count
            &&& full.no_duplicates()
            &&& forall|i: int| 0 <= i < count ==> is_citation_of(known, ids[i], #[trigger] full[i])
        },
    decreases count,
{
    if count == 0 {
        if full.len() == 0 {
            assert(full =~= Seq::empty());
        }
    } else {
        let n = (count - 1) as nat;
        let id = ids[n as int];
        lemma_named_once(known, id);
        if full.len() == count {
            let head = full.drop_last();
            unambiguous_citations_resolve(ids, known, n, head);
            assert(full =~= head.push(full.last()));
            assert forall|i: int| 0 <= i < n implies head[i] == full[i] by {}
            if full.no_duplicates() {
                assert(head.no_duplicates());
                assert(!head.contains(full.last())) by {
                    if head.contains(full.last()) {
                        let k = choose|k: int| 0 <= k < head.len() && head[k] == full.last();
                        assert(full[k] == full[n as int]);
                    }
                }
            }
            if forall|i: int| 0 <= i < count ==> is_citation_of(known, ids[i], #[trigger] full[i]) {
                assert(is_citation_of(known, ids[n as int], full[n as int]));
                let k = choose|k: int|
                    #[trigger] names_only(known, id, k) && known[k] == full[n as int];
                assert forall|i: int| 0 <= i < n implies is_citation_of(
                    known,
                    ids[i],
                    #[trigger] head[i],
                ) by {
                    assert(is_citation_of(known, ids[i], full[i]));
                }
            }
            if resolve(ids, known, count) == Ok::<Seq<Seq<char>>, crate::findings::IdFault>(full) {
                let done = resolve(ids, known, n)->Ok_0;
                assert(done =~= head) by {
                    assert(full == done.push(full.last()));
                }
                assert(names_only(known, id, named_by(known, id)[0] as int));
                assert(is_citation_of(known, id, full[n as int]));
                assert forall|i: int| 0 <= i < count implies is_citation_of(
                    known,
                    ids[i],
                    #[trigger] full[i],
                ) by {
                    if i < n {
                        assert(is_citation_of(known, ids[i], head[i]));
                    }
                }
                assert(full.no_duplicates()) by {
                    assert forall|i: int, j: int|
                        0 <= i < full.len() && 0 <= j < full.len() && i != j implies full[i]
                        != full[j] by {
                        if i < n && j < n {
                            assert(head[i] != head[j]);
                        } else if i < n {
                            assert(head.contains(head[i]));
                        } else {
                            assert(head.contains(head[j]));
                        }
                    }
                }
            }
        } else {
            lemma_resolved_len(ids, known, count);
        }
    }
}

proof fn lemma_resolved_len(ids: Seq<Seq<char>>, known: Seq<Seq<char>>, count: nat)
    ensures
        resolve(ids, known, count) matches Ok(full) ==> full.len() == count,
    decreases count,
{
    if count > 0 {
        lemma_resolved_len(ids, known, (count - 1) as nat);
    }
}

// ---------------------------------------------------------------------------
// Rules of a plan
// ---------------------------------------------------------------------------

/// A text says something and fits in a number of bytes.
pub open spec fn says_within(s: Seq<char>, max: nat) -> bool {
    trim(s).len() > 0 && blen(s) <= max
}

/// Every text of a list says something and fits.
pub open spec fn all_say_within(list: Seq<String>, max: nat) -> bool {
    forall|i: int| 0 <= i < list.len() ==> says_within((#[trigger] list[i])@, max)
}

/// A section obeys the rules that look at nothing but the section.
pub open spec fn section_obeys(s: SectionPlan, index: int) -> bool {
    let id = section_id(s);
    &&& id.len() <= 64
    &&& forall|i: int|
        0 <= i < id.len() ==> is_ascii_letter(#[trigger] id[i]) || is_ascii_digit(id[i]) || id[i]
            == '-'
    &&& s.key_points@.len() <= 12
    &&& all_say_within(s.key_points@, 1500)
    &&& s.key_points@.len() > 0 || trim(s.reader_question@).len() > 0
    &&& says_within(s.title@, 299)
    &&& says_within(s.query@, 1999)
    &&& blen(s.reader_question@) <= 1500
    &&& blen(s.handoff@) <= 1500
    &&& s.out_of_scope@.len() <= 12
    &&& all_say_within(s.out_of_scope@, 1500)
    &&& forall|k: int| 0 <= k < s.depends_on@.len() ==> #[trigger] s.depends_on@[k] < index
    &&& s.depends_on@.no_duplicates()
    &&& s.diagrams is Some
    &&& s.diagrams->0@.len() <= 4
    &&& all_say_within(s.diagrams->0@, 1500)
    &&& s.branches@.len() <= 512
    &&& all_say_within(s.branches@, 200)
}

/// The anchors of a section resolve, where it has some or no branches carry it.
pub open spec fn anchors_resolve(s: SectionPlan, known: Seq<Seq<char>>) -> bool {
    (s.evidence_ids@.len() > 0 || s.branches@.len() == 0) ==> resolve_all(
        texts(s.evidence_ids@),
        known,
        8,
    ) is Ok
}

/// The first sections obey: each by itself, and no two have one id or one title.
pub open spec fn sections_obey(sections: Seq<SectionPlan>, known: Seq<Seq<char>>, count: nat) -> bool {
    &&& forall|i: int|
        0 <= i < count ==> section_obeys(#[trigger] sections[i], i) && anchors_resolve(
            sections[i],
            known,
        )
    &&& forall|i: int, j: int|
        0 <= i < j < count ==> section_id(#[trigger] sections[i]) != section_id(
            #[trigger] sections[j],
        ) && title_key(sections[i].title@) != title_key(sections[j].title@)
}

proof fn lemma_dependencies(deps: Seq<usize>, index: usize, from: nat)
    requires
        from <= deps.len(),
    ensures
        dependency_fault(deps, index, from) is None <==> forall|k: int|
            from <= k < deps.len() ==> #[trigger] deps[k] < index && !deps.take(k).contains(
                deps[k],
            ),
    decreases deps.len() - from,
{
    if from < deps.len() {
        lemma_dependencies(deps, index, from + 1);
    }
}

proof fn lemma_bounded(list: Seq<String>, max: nat)
    ensures
        crate::findings::all_bounded(texts(list), max) == all_say_within(list, max),
{
    if crate::findings::all_bounded(texts(list), max) {
        assert forall|i: int| 0 <= i < list.len() implies says_within(
            (#[trigger] list[i])@,
            max,
        ) by {
            assert(crate::text::bounded(texts(list)[i], max));
        }
    }
    if all_say_within(list, max) {
        assert forall|i: int| 0 <= i < texts(list).len() implies crate::text::bounded(
            #[trigger] texts(list)[i],
            max,
        ) by {
            assert(says_within(list[i]@, max));
        }
    }
}

proof fn lemma_section(sections: Seq<SectionPlan>, known: Seq<Seq<char>>, index: int)
    requires
        0 <= index < sections.len() <= usize::MAX,
    ensures
        check_section(sections, index, known) is Ok <==> {
            &&& section_obeys(sections[index], index)
            &&& anchors_resolve(sections[index], known)
            &&& forall|i: int|
                0 <= i < index ==> section_id(#[trigger] sections[i]) != section_id(sections[index])
                    && title_key(sections[i].title@) != title_key(sections[index].title@)
        },
{
    let s = sections[index];
    lemma_bounded(s.key_points@, 1500);
    lemma_bounded(s.out_of_scope@, 1500);
    if s.diagrams is Some {
        lemma_bounded(s.diagrams->0@, 1500);
    }
    lemma_bounded(s.branches@, 200);
    lemma_dependencies(s.depends_on@, index as usize, 0);
    let deps = s.depends_on@;
    assert((forall|k: int| 0 <= k < deps.len() ==> !deps.take(k).contains(#[trigger] deps[k]))
        <==> deps.no_duplicates()) by {
        if deps.no_duplicates() {
            assert forall|k: int| 0 <= k < deps.len() implies !deps.take(k).contains(
                #[trigger] deps[k],
            ) by {
                if deps.take(k).contains(deps[k]) {
                    let j = choose|j: int| 0 <= j < k && deps.take(k)[j] == deps[k];
                    assert(deps[j] == deps[k]);
                }
            }
        }
        if forall|k: int| 0 <= k < deps.len() ==> !deps.take(k).contains(#[trigger] deps[k]) {
            assert forall|i: int, j: int|
                0 <= i < deps.len() && 0 <= j < deps.len() && i != j implies deps[i] != deps[j] by {
                if deps[i] == deps[j] {
                    if i < j {
                        assert(deps.take(j)[i] == deps[j]);
                    } else {
                        assert(deps.take(i)[j] == deps[i]);
                    }
                }
            }
        }
    }
    let ids = section_ids(sections).take(index);
    let titles = section_titles(sections).take(index);
    assert(ids.contains(section_id(s)) <==> exists|i: int|
        0 <= i < index && section_id(#[trigger] sections[i]) == section_id(s)) by {
        if ids.contains(section_id(s)) {
            let i = choose|i: int| 0 <= i < ids.len() && ids[i] == section_id(s);
            assert(section_id(sections[i]) == section_id(s));
        }
        if exists|i: int| 0 <= i < index && section_id(#[trigger] sections[i]) == section_id(s) {
            let i = choose|i: int|
                0 <= i < index && section_id(#[trigger] sections[i]) == section_id(s);
            assert(ids[i] == section_id(s));
        }
    }
    assert(titles.contains(title_key(s.title@)) <==> exists|i: int|
        0 <= i < index && title_key((#[trigger] sections[i]).title@) == title_key(s.title@)) by {
        if titles.contains(title_key(s.title@)) {
            let i = choose|i: int| 0 <= i < titles.len() && titles[i] == title_key(s.title@);
            assert(title_key(sections[i].title@) == title_key(s.title@));
        }
        if exists|i: int|
            0 <= i < index && title_key((#[trigger] sections[i]).title@) == title_key(s.title@) {
            let i = choose|i: int|
                0 <= i < index && title_key((#[trigger] sections[i]).title@) == title_key(s.title@);
            assert(titles[i] == title_key(s.title@));
        }
    }
}

proof fn lemma_sections(sections: Seq<SectionPlan>, known: Seq<Seq<char>>, count: nat)
    requires
        count <= sections.len() <= usize::MAX,
    ensures
        check_sections(sections, known, count) is Ok <==> sections_obey(sections, known, count),
    decreases count,
{
    if count > 0 {
        let n = count - 1;
        lemma_sections(sections, known, n as nat);
        lemma_section(sections, known, n);
        if sections_obey(sections, known, count) {
            assert(sections_obey(sections, known, n as nat));
            assert(section_obeys(sections[n], n));
        }
    }
}

/// How many diagrams a section plans.
pub open spec fn planned_diagrams() -> spec_fn(SectionPlan) -> nat {
    |s: SectionPlan|
        match s.diagrams {
            Some(d) => d@.len(),
            None => 0,
        }
}

proof fn lemma_diagrams(sections: Seq<SectionPlan>, count: nat)
    requires
        count <= sections.len(),
    ensures
        diagram_count(sections, count) == sum(
            sections.take(count as int).map_values(planned_diagrams()),
        ),
    decreases count,
{
    if count > 0 {
        lemma_diagrams(sections, (count - 1) as nat);
        let now = sections.take(count as int).map_values(planned_diagrams());
        assert(now.drop_last() =~= sections.take(count - 1).map_values(planned_diagrams()));
        assert(now.last() == planned_diagrams()(sections[count - 1]));
    }
}

/// A plan is accepted just where it obeys every rule: some sections and no more
/// than the ceiling, framing and terms in bounds, every section by itself and
/// beside the others, exclusions with a branch and a reason, and no more
/// diagrams together than the document may have.
pub proof fn plans_are_accepted_by_the_rules(
    o: Outline,
    known: Seq<Seq<char>>,
    maximum: Option<u32>,
    branches: Option<usize>,
)
    requires
        o.sections@.len() <= usize::MAX,
    ensures
        check_outline(o, known, maximum, branches) is Ok <==> {
            &&& 0 < o.sections@.len() <= ceiling(branches)
            &&& says_within(o.reader_goal@, 2000)
            &&& says_within(o.storyline@, 4000)
            &&& o.terminology@.len() <= 12
            &&& all_say_within(o.terminology@, 500)
            &&& sections_obey(o.sections@, known, o.sections@.len())
            &&& o.excluded_branches@.len() <= 1024
            &&& forall|i: int|
                0 <= i < o.excluded_branches@.len() ==> says_within(
                    (#[trigger] o.excluded_branches@[i]).branch@,
                    200,
                ) && says_within(o.excluded_branches@[i].reason@, 1500)
            &&& maximum matches Some(m) ==> sum(o.sections@.map_values(planned_diagrams())) <= m
        },
{
    let sections = o.sections@;
    lemma_sections(sections, known, sections.len());
    lemma_diagrams(sections, sections.len());
    assert(sections.take(sections.len() as int) =~= sections);
    lemma_bounded(o.terminology@, 500);
    let out = o.excluded_branches@;
    assert(exclusions_ok(out) <==> out.len() <= 1024 && forall|i: int|
        0 <= i < out.len() ==> says_within((#[trigger] out[i]).branch@, 200) && says_within(
            out[i].reason@,
            1500,
        ));
}

// ---------------------------------------------------------------------------
// Chapters
// ---------------------------------------------------------------------------

/// The sections of a plan.
pub open spec fn its_sections() -> spec_fn(OutlineModel) -> Seq<SectionModel> {
    |p: OutlineModel| p.sections
}

/// The exclusions of a plan.
pub open spec fn its_exclusions() -> spec_fn(OutlineModel) -> Seq<ExclusionModel> {
    |p: OutlineModel| p.excluded_branches
}

/// A section of a document is this section of one of its parts, but that its
/// prerequisites are counted from the beginning of the document, where
/// `offset` sections stand before those of the part.
pub open spec fn is_moved(now: SectionModel, was: SectionModel, offset: nat) -> bool {
    &&& now == (SectionModel { depends_on: now.depends_on, ..was })
    &&& now.depends_on.len() == was.depends_on.len()
    &&& forall|k: int|
        0 <= k < was.depends_on.len() && was.depends_on[k] + offset <= usize::MAX
            ==> #[trigger] now.depends_on[k] == was.depends_on[k] + offset
}

/// How many sections stand before those of a part.
pub open spec fn sections_before(parts: Seq<OutlineModel>, p: int) -> nat {
    parts.take(p).flat_map(its_sections()).len()
}

/// Section `i` of part `p` stands in a document behind the sections of the parts
/// before it, with its prerequisites moved along.
pub open spec fn stands_behind(
    parts: Seq<OutlineModel>,
    joined: Seq<SectionModel>,
    p: int,
    i: int,
) -> bool {
    let at = sections_before(parts, p) + i;
    at < joined.len() && is_moved(joined[at], parts[p].sections[i], sections_before(parts, p))
}

/// Joining the parts of a document loses none of their sections and exclusions,
/// and keeps their order: section `i` of part `p` stands behind the sections of
/// the parts before it, with its prerequisites moved along.
pub proof fn joined_parts_lose_nothing(
    chapters: Seq<ExclusionModel>,
    parts: Seq<OutlineModel>,
    count: nat,
)
    requires
        count <= parts.len(),
    ensures
        joined_sections(parts, count).len() == sections_before(parts, count as int),
        forall|p: int, i: int|
            0 <= p < count && 0 <= i < parts[p].sections.len() ==> #[trigger] stands_behind(
                parts,
                joined_sections(parts, count),
                p,
                i,
            ),
        joined_exclusions(chapters, parts, count) == chapters + parts.take(count as int).flat_map(
            its_exclusions(),
        ),
    decreases count,
{
    if count == 0 {
        assert(parts.take(0).map_values(its_sections()) =~= Seq::empty());
        assert(parts.take(0).map_values(its_exclusions()) =~= Seq::empty());
        assert(chapters + Seq::<ExclusionModel>::empty() =~= chapters);
    } else {
        let n = count - 1;
        joined_parts_lose_nothing(chapters, parts, n as nat);
        parts.lemma_flat_map_take_append(its_sections(), n);
        parts.lemma_flat_map_take_append(its_exclusions(), n);
        let before = joined_sections(parts, n as nat);
        let now = joined_sections(parts, count);
        let own = shifted_sections(parts[n].sections, before.len());
        assert(joined_exclusions(chapters, parts, count) =~= chapters + parts.take(
            count as int,
        ).flat_map(its_exclusions()));
        assert forall|p: int, i: int|
            0 <= p < count && 0 <= i < parts[p].sections.len() implies #[trigger] stands_behind(
            parts,
            now,
            p,
            i,
        ) by {
            let at = sections_before(parts, p) + i;
            let was = parts[p].sections[i];
            if p < n {
                assert(stands_behind(parts, before, p, i));
                assert(now[at] == before[at]);
            } else {
                assert(p == n);
                assert(at == before.len() + i);
                assert(now[at] == own[i]);
                let moved = own[i];
                assert(moved.depends_on =~= was.depends_on.map_values(
                    |d: usize| (d + before.len()) as usize,
                ));
            }
        }
    }
}

/// What a part may have before anything is taken back: its due by weight, and at
/// least one.
pub open spec fn fair_share(total: nat, weights: Seq<usize>, i: int) -> nat {
    let all = if sum(nats(weights)) == 0 {
        1
    } else {
        sum(nats(weights))
    };
    if total * weights[i] as nat / all < 1 {
        1
    } else {
        total * weights[i] as nat / all
    }
}

proof fn lemma_take_back_tight(shares: Seq<usize>, total: nat)
    requires
        shares.len() <= total,
        shares.len() <= usize::MAX,
        forall|i: int| 0 <= i < shares.len() ==> #[trigger] shares[i] >= 1,
    ensures
        ({
            let r = take_back(shares, total);
            &&& r.len() == shares.len()
            &&& sum(nats(shares)) <= total ==> r == shares
            &&& sum(nats(shares)) > total ==> sum(nats(r)) == total
            &&& forall|i: int, j: int|
                0 <= i < r.len() && 0 <= j < r.len() && #[trigger] r[i] < shares[i]
                    ==> #[trigger] r[j] <= r[i] + 1
            &&& forall|i: int| 0 <= i < r.len() ==> #[trigger] r[i] <= shares[i]
        }),
    decreases sum(nats(shares)),
{
    lemma_largest(shares, shares.len());
    if sum(nats(shares)) > total {
        match largest(shares, shares.len()) {
            None => {
                lemma_ones(nats(shares));
            },
            Some(i) => {
                let i = i as int;
                let less = shares.update(i, (shares[i] - 1) as usize);
                lemma_sum_update(nats(shares), i, (shares[i] - 1) as nat);
                assert(nats(less) =~= nats(shares).update(i, (shares[i] - 1) as nat));
                lemma_take_back_tight(less, total);
                let r = take_back(less, total);
                assert(take_back(shares, total) == r);
                assert forall|a: int, b: int|
                    0 <= a < r.len() && 0 <= b < r.len() && #[trigger] r[a] < shares[a] implies (
                #[trigger] r[b]) <= r[a] + 1 by {
                    if a == i {
                        if r[i] == less[i] {
                            assert(r[b] <= less[b]);
                            assert(less[b] <= shares[b]);
                            assert(shares[b] <= shares[i]);
                        }
                    }
                }
            },
        }
    }
}

proof fn lemma_ones(s: Seq<nat>)
    requires
        forall|i: int| 0 <= i < s.len() ==> s[i] <= 1,
    ensures
        sum(s) <= s.len(),
    decreases s.len(),
{
    if s.len() > 0 {
        lemma_ones(s.drop_last());
    }
}

/// Sections are shared by weight: each part gets its fair share, unless they are
/// together too many; then exactly the total is handed out, and what is taken
/// back is taken from the largest shares.
pub proof fn shares_follow_weights(total: nat, weights: Seq<usize>)
    requires
        weights.len() <= total,
        total + weights.len() <= usize::MAX,
        forall|i: int| 0 <= i < weights.len() ==> #[trigger] fair_share(total, weights, i)
            <= usize::MAX,
    ensures
        ({
            let fair = Seq::new(weights.len(), |i: int| fair_share(total, weights, i));
            let r = take_back(first_shares(total, weights), total);
            &&& r.len() == weights.len()
            &&& sum(fair) <= total ==> nats(r) == fair
            &&& sum(fair) > total ==> sum(nats(r)) == total
            &&& forall|i: int| 0 <= i < r.len() ==> #[trigger] r[i] <= fair[i]
            &&& forall|i: int, j: int|
                0 <= i < r.len() && 0 <= j < r.len() && #[trigger] r[i] < fair[i]
                    ==> #[trigger] r[j] <= r[i] + 1
        }),
{
    let fair = Seq::new(weights.len(), |i: int| fair_share(total, weights, i));
    let first = first_shares(total, weights);
    assert forall|i: int| 0 <= i < weights.len() implies #[trigger] first[i] == fair[i]
        && first[i] >= 1 by {
        assert(fair_share(total, weights, i) <= usize::MAX);
        assert(weight(weights) == if sum(nats(weights)) == 0 { 1 } else { sum(nats(weights)) });
        assert(due(total, weights, i) == total * weights[i] as nat / weight(weights));
    }
    assert(nats(first) =~= fair);
    lemma_take_back_tight(first, total);
}

} // verus!
