//! What citations name: one supplied passage each, all of a list in full, and
//! nothing else of a text is touched.

use vstd::prelude::*;

use super::lists::{firsts, has_key, is_first, lemma_firsts_push, upto};
use super::planning::{itself, is_citation_of, unambiguous_citations_resolve};
use crate::citations::{citation_end, collect_ids, collect_items, collect_members, insert_text, passage_id};
use crate::code_blocks::{within, Extent};
use crate::findings::{
    accept_brief, add_missing, all_bounded, asked, check_finding, check_findings, BriefFault, BriefModel,
    FindingKind, FindingModel,
};
use crate::json::{JsonModel, MemberModel};
use crate::markdown::citing::{
    bare_part, citation_in_full, citations_of, cited_from, found_ids, named_ids, part_id, resolved,
    Found,
};
use crate::model::Evidence;
use crate::order::lemma_filter_none;
use crate::text::{
    blen, bounded, join, lemma_next_at, next_at, precedes, starts_with, texts_are_ordered,
    the_order_of_texts_is_transitive, trim,
};

verus! {

// ---------------------------------------------------------------------------
// Citations in a text
// ---------------------------------------------------------------------------

/// A candidate names an id: a supplied passage has it, it begins with the
/// candidate, and no supplied passage with another id does.
pub open spec fn names_one(evidence: Seq<Evidence>, candidate: Seq<char>, id: Seq<char>) -> bool {
    &&& exists|k: int| 0 <= k < evidence.len() && (#[trigger] evidence[k]).id@ == id
    &&& starts_with(id, candidate)
    &&& forall|k: int|
        0 <= k < evidence.len() && starts_with((#[trigger] evidence[k]).id@, candidate)
            ==> evidence[k].id@ == id
}

proof fn lemma_found(evidence: Seq<Evidence>, candidate: Seq<char>, count: nat)
    requires
        count <= evidence.len(),
    ensures
        match found_ids(evidence, candidate, count) {
            Found::Nothing => forall|k: int|
                0 <= k < count ==> !starts_with((#[trigger] evidence[k]).id@, candidate),
            Found::One(id) => (exists|k: int|
                0 <= k < count && (#[trigger] evidence[k]).id@ == id) && starts_with(id, candidate)
                && forall|k: int|
                0 <= k < count && starts_with((#[trigger] evidence[k]).id@, candidate)
                    ==> evidence[k].id@ == id,
            Found::Several => exists|j: int, k: int|
                0 <= j < count && 0 <= k < count && starts_with(
                    (#[trigger] evidence[j]).id@,
                    candidate,
                ) && starts_with((#[trigger] evidence[k]).id@, candidate) && evidence[j].id@
                    != evidence[k].id@,
        },
    decreases count,
{
    if count > 0 {
        let n = count - 1;
        lemma_found(evidence, candidate, n as nat);
        let e = evidence[n];
        match found_ids(evidence, candidate, n as nat) {
            Found::Nothing => {
                assert(e.id@ == evidence[n].id@);
            },
            Found::One(id) => {
                let k = choose|k: int| 0 <= k < n && (#[trigger] evidence[k]).id@ == id;
                assert(evidence[k].id@ == id && evidence[n].id@ == e.id@);
            },
            Found::Several => {
                let (j, k) = choose|j: int, k: int|
                    0 <= j < n && 0 <= k < n && starts_with(
                        (#[trigger] evidence[j]).id@,
                        candidate,
                    ) && starts_with((#[trigger] evidence[k]).id@, candidate) && evidence[j].id@
                        != evidence[k].id@;
                assert(evidence[j].id@ != evidence[k].id@);
            },
        }
    }
}

/// At least eight bytes of an id resolve to it just where they name one only.
pub proof fn citations_name_one_passage(
    evidence: Seq<Evidence>,
    candidate: Seq<char>,
    id: Seq<char>,
)
    ensures
        resolved(evidence, candidate) == Some(id) <==> blen(candidate) >= 8 && names_one(
            evidence,
            candidate,
            id,
        ),
{
    lemma_found(evidence, candidate, evidence.len());
    if names_one(evidence, candidate, id) {
        let k = choose|k: int| 0 <= k < evidence.len() && (#[trigger] evidence[k]).id@ == id;
        assert(starts_with(evidence[k].id@, candidate));
    }
}

/// The parts of a list are what stands between its commas.
pub open spec fn is_split(list: Seq<char>, parts: Seq<Seq<char>>) -> bool {
    &&& parts.len() > 0
    &&& join(parts, ","@) == list
    &&& forall|i: int| 0 <= i < parts.len() ==> !(#[trigger] parts[i]).contains(',')
}

/// The id that a part names.
pub open spec fn id_for(evidence: Seq<Evidence>) -> spec_fn(Seq<char>) -> Seq<char> {
    |part: Seq<char>| part_id(evidence, bare_part(part))->0
}

proof fn lemma_join_push(parts: Seq<Seq<char>>, last: Seq<char>)
    requires
        parts.len() > 0,
    ensures
        join(parts.push(last), ","@) == join(parts, ","@) + ","@ + last,
{
    assert(parts.push(last).drop_last() =~= parts);
}

proof fn lemma_named(
    evidence: Seq<Evidence>,
    list: Seq<char>,
    from: int,
    parts: Seq<Seq<char>>,
) -> (all: Seq<Seq<char>>)
    requires
        0 <= from <= list.len(),
        from == 0 ==> parts.len() == 0,
        from > 0 ==> parts.len() > 0 && list[from - 1] == ',' && join(parts, ","@) == list.take(
            from - 1,
        ),
        forall|i: int| 0 <= i < parts.len() ==> !(#[trigger] parts[i]).contains(','),
        forall|i: int|
            0 <= i < parts.len() ==> part_id(evidence, bare_part(#[trigger] parts[i])) is Some,
    ensures
        is_split(list, all),
        match named_ids(
            evidence,
            list,
            from,
            firsts(parts.map_values(id_for(evidence)), itself()),
        ) {
            Some(ids) => (forall|i: int|
                0 <= i < all.len() ==> part_id(evidence, bare_part(#[trigger] all[i])) is Some)
                && ids == firsts(all.map_values(id_for(evidence)), itself()),
            None => exists|i: int|
                0 <= i < all.len() && part_id(evidence, bare_part(#[trigger] all[i])) is None,
        },
    decreases list.len() - from,
{
    reveal_strlit(",");
    lemma_next_at(list, ',', from);
    let end = next_at(list, ',', from);
    let part = list.subrange(from, end);
    let more = parts.push(part);
    let f = id_for(evidence);
    let before = parts.map_values(f);
    assert(!part.contains(',')) by {
        if part.contains(',') {
            let k = choose|k: int| 0 <= k < part.len() && part[k] == ',';
            assert(list[from + k] == ',');
        }
    }
    assert(join(more, ","@) == list.take(end)) by {
        if from == 0 {
            assert(more =~= seq![part]);
            assert(part =~= list.take(end));
        } else {
            lemma_join_push(parts, part);
            assert(list.take(from - 1) + ","@ + part =~= list.take(end));
        }
    }
    assert forall|i: int| 0 <= i < more.len() implies !(#[trigger] more[i]).contains(',') by {
        if i < parts.len() {
            assert(more[i] == parts[i]);
        }
    }
    match part_id(evidence, bare_part(part)) {
        None => {
            if end < list.len() {
                let all = lemma_rest(list, end + 1, more);
                assert(all[parts.len() as int] == part);
                all
            } else {
                assert(list.take(end) =~= list);
                assert(more[parts.len() as int] == part);
                more
            }
        },
        Some(id) => {
            assert(more.map_values(f) =~= before.push(id));
            lemma_firsts_push(before, itself(), id);
            let had = firsts(before, itself());
            if had.contains(id) {
                let k = choose|k: int| 0 <= k < had.len() && had[k] == id;
                assert(itself()(had[k]) == id);
            }
            if has_key(had, itself(), id) {
                let k = choose|k: int| 0 <= k < had.len() && itself()(#[trigger] had[k]) == id;
                assert(had[k] == id);
            }
            assert forall|i: int| 0 <= i < more.len() implies part_id(
                evidence,
                bare_part(#[trigger] more[i]),
            ) is Some by {
                if i < parts.len() {
                    assert(more[i] == parts[i]);
                }
            }
            if end < list.len() {
                lemma_named(evidence, list, end + 1, more)
            } else {
                assert(list.take(end) =~= list);
                more
            }
        },
    }
}

/// The rest of a list is split at its commas.
proof fn lemma_rest(list: Seq<char>, from: int, parts: Seq<Seq<char>>) -> (all: Seq<Seq<char>>)
    requires
        0 < from <= list.len(),
        parts.len() > 0,
        list[from - 1] == ',',
        join(parts, ","@) == list.take(from - 1),
        forall|i: int| 0 <= i < parts.len() ==> !(#[trigger] parts[i]).contains(','),
    ensures
        is_split(list, all),
        all.len() >= parts.len(),
        forall|i: int| 0 <= i < parts.len() ==> #[trigger] all[i] == parts[i],
    decreases list.len() - from,
{
    reveal_strlit(",");
    lemma_next_at(list, ',', from);
    let end = next_at(list, ',', from);
    let part = list.subrange(from, end);
    let more = parts.push(part);
    assert(!part.contains(',')) by {
        if part.contains(',') {
            let k = choose|k: int| 0 <= k < part.len() && part[k] == ',';
            assert(list[from + k] == ',');
        }
    }
    lemma_join_push(parts, part);
    assert(list.take(from - 1) + ","@ + part =~= list.take(end));
    assert forall|i: int| 0 <= i < more.len() implies !(#[trigger] more[i]).contains(',') by {
        if i < parts.len() {
            assert(more[i] == parts[i]);
        }
    }
    if end < list.len() {
        let all = lemma_rest(list, end + 1, more);
        assert forall|i: int| 0 <= i < parts.len() implies #[trigger] all[i] == parts[i] by {
            assert(more[i] == parts[i]);
        }
        all
    } else {
        assert(list.take(end) =~= list);
        more
    }
}

/// A list of citations names the passages of all its parts, each once and in
/// their order, just where every part names one.
pub proof fn every_part_of_a_citation_is_named(evidence: Seq<Evidence>, list: Seq<char>)
    ensures
        exists|parts: Seq<Seq<char>>|
            {
                &&& #[trigger] is_split(list, parts)
                &&& match named_ids(evidence, list, 0, Seq::empty()) {
                    Some(ids) => (forall|i: int|
                        0 <= i < parts.len() ==> part_id(
                            evidence,
                            bare_part(#[trigger] parts[i]),
                        ) is Some) && ids == firsts(parts.map_values(id_for(evidence)), itself()),
                    None => exists|i: int|
                        0 <= i < parts.len() && part_id(
                            evidence,
                            bare_part(#[trigger] parts[i]),
                        ) is None,
                }
            },
{
    let none = Seq::<Seq<char>>::empty();
    lemma_filter_none(upto(0), is_first(none, itself()));
    assert(upto(0) =~= upto(0).take(0));
    assert(none.map_values(id_for(evidence)) =~= none);
    assert(firsts(none, itself()) =~= none);
    let all = lemma_named(evidence, list, 0, none);
    assert(is_split(list, all));
}

/// How a passage is cited.
pub open spec fn cited_as() -> spec_fn(Seq<char>) -> Seq<char> {
    |id: Seq<char>| "[E:"@ + id + "]"@
}

/// What stands for some passages is a citation of each, in their order.
pub proof fn each_passage_is_cited(ids: Seq<Seq<char>>, count: nat)
    requires
        count <= ids.len(),
    ensures
        citations_of(ids, count) == ids.take(count as int).flat_map(cited_as()),
    decreases count,
{
    if count == 0 {
        assert(ids.take(0).map_values(cited_as()) =~= Seq::empty());
    } else {
        each_passage_is_cited(ids, (count - 1) as nat);
        ids.lemma_flat_map_take_append(cited_as(), count - 1);
    }
}

/// A text stays as it is up to its first citation; that one is put in full
/// outside code and stays inside; and so on behind it.
pub proof fn only_citations_change(
    s: Seq<char>,
    literals: Seq<Extent>,
    evidence: Seq<Evidence>,
    from: int,
    at: int,
    end: int,
)
    requires
        0 <= from <= at < end <= s.len(),
        forall|p: int| from <= p < at ==> #[trigger] citation_end(s, p) is None,
        citation_end(s, at) == Some(end),
    ensures
        cited_from(s, literals, evidence, from) == s.subrange(from, at) + (if within(
            literals,
            at,
        ) {
            s.subrange(at, end)
        } else {
            match named_ids(evidence, s.subrange(at + 3, end - 1), 0, Seq::empty()) {
                Some(ids) => ids.flat_map(cited_as()),
                None => s.subrange(at, end),
            }
        }) + cited_from(s, literals, evidence, end),
    decreases at - from,
{
    if from < at {
        only_citations_change(s, literals, evidence, from + 1, at, end);
        assert(citation_end(s, from) is None);
        let rest = cited_from(s, literals, evidence, from + 1);
        let put = if within(literals, at) {
            s.subrange(at, end)
        } else {
            match named_ids(evidence, s.subrange(at + 3, end - 1), 0, Seq::empty()) {
                Some(ids) => ids.flat_map(cited_as()),
                None => s.subrange(at, end),
            }
        };
        let tail = cited_from(s, literals, evidence, end);
        assert(seq![s[from]] + (s.subrange(from + 1, at) + put + tail) =~= s.subrange(from, at)
            + put + tail);
    } else {
        if let Some(ids) = named_ids(evidence, s.subrange(at + 3, end - 1), 0, Seq::empty()) {
            each_passage_is_cited(ids, ids.len());
            assert(ids.take(ids.len() as int) =~= ids);
        }
        let now = cited_from(s, literals, evidence, from);
        assert(s.subrange(from, at) =~= Seq::<char>::empty());
        assert(now =~= s.subrange(from, at) + now);
        let put = if within(literals, at) {
            s.subrange(at, end)
        } else {
            citation_in_full(s, at, end, evidence)
        };
        assert(now == put + cited_from(s, literals, evidence, end));
        assert(s.subrange(from, at) + put =~= put);
    }
}

// ---------------------------------------------------------------------------
// Passages in a request
// ---------------------------------------------------------------------------

/// A value describes a passage with this id, at any depth.
pub open spec fn describes(m: JsonModel, id: Seq<char>) -> bool
    decreases m, 0nat,
{
    match m {
        JsonModel::Arr(items) => one_describes(items, items.len(), id),
        JsonModel::Obj(members) => passage_id(m) == Some(id) || member_describes(
            members,
            members.len(),
            id,
        ),
        _ => false,
    }
}

/// One of the first `count` items describes a passage with this id.
pub open spec fn one_describes(items: Seq<JsonModel>, count: nat, id: Seq<char>) -> bool
    decreases items, count,
{
    0 < count <= items.len() && (one_describes(items, (count - 1) as nat, id) || describes(
        items[count - 1],
        id,
    ))
}

/// One of the first `count` members describes a passage with this id.
pub open spec fn member_describes(members: Seq<MemberModel>, count: nat, id: Seq<char>) -> bool
    decreases members, count,
{
    0 < count <= members.len() && (member_describes(members, (count - 1) as nat, id) || describes(
        members[count - 1].value,
        id,
    ))
}

/// Texts are in order, and none is there twice.
pub open spec fn in_text_order(list: Seq<Seq<char>>) -> bool {
    forall|i: int, j: int|
        0 <= i < j < list.len() ==> precedes(#[trigger] list[i], #[trigger] list[j])
}

proof fn lemma_insert(list: Seq<Seq<char>>, s: Seq<char>)
    requires
        in_text_order(list),
    ensures
        in_text_order(insert_text(list, s)),
        forall|x: Seq<char>| #[trigger]
            insert_text(list, s).contains(x) <==> x == s || list.contains(x),
    decreases list.len(),
{
    let now = insert_text(list, s);
    if list.len() == 0 {
        assert(now[0] == s);
    } else {
        let head = list.drop_last();
        let last = list.last();
        let n = head.len() as int;
        assert(list[n] == last);
        assert(in_text_order(head)) by {
            assert forall|i: int, j: int| 0 <= i < j < head.len() implies precedes(
                #[trigger] head[i],
                #[trigger] head[j],
            ) by {
                assert(precedes(list[i], list[j]));
            }
        }
        texts_are_ordered(last, s);
        if last == s {
            assert forall|x: Seq<char>| #[trigger] now.contains(x) <==> x == s || list.contains(
                x,
            ) by {
                if x == s {
                    assert(list[n] == s);
                }
            }
        } else if precedes(last, s) {
            assert forall|i: int, j: int| 0 <= i < j < now.len() implies precedes(
                #[trigger] now[i],
                #[trigger] now[j],
            ) by {
                assert(now[i] == list[i]);
                if j < list.len() {
                    assert(now[j] == list[j]);
                } else if i < n {
                    assert(precedes(list[i], list[n]));
                    the_order_of_texts_is_transitive(list[i], last, s);
                }
            }
            assert forall|x: Seq<char>| #[trigger] now.contains(x) <==> x == s || list.contains(
                x,
            ) by {
                assert(now[n + 1] == s);
                if list.contains(x) {
                    let k = choose|k: int| 0 <= k < list.len() && list[k] == x;
                    assert(now[k] == x);
                }
                if now.contains(x) {
                    let k = choose|k: int| 0 <= k < now.len() && now[k] == x;
                    if k <= n {
                        assert(list[k] == x);
                    }
                }
            }
        } else {
            lemma_insert(head, s);
            let inner = insert_text(head, s);
            let m = inner.len() as int;
            assert(now == inner.push(last));
            assert forall|k: int| 0 <= k < m implies precedes(#[trigger] inner[k], last) by {
                assert(inner.contains(inner[k]));
                if inner[k] != s {
                    let j = choose|j: int| 0 <= j < head.len() && head[j] == inner[k];
                    assert(precedes(list[j], list[n]));
                }
            }
            assert forall|i: int, j: int| 0 <= i < j < now.len() implies precedes(
                #[trigger] now[i],
                #[trigger] now[j],
            ) by {
                assert(now[i] == inner[i]);
                if j < m {
                    assert(now[j] == inner[j]);
                }
            }
            assert forall|x: Seq<char>| #[trigger] now.contains(x) <==> x == s || list.contains(
                x,
            ) by {
                assert(inner.contains(x) <==> x == s || head.contains(x));
                assert(now[m] == last);
                if inner.contains(x) {
                    let k = choose|k: int| 0 <= k < m && inner[k] == x;
                    assert(now[k] == x);
                }
                if now.contains(x) {
                    let k = choose|k: int| 0 <= k < now.len() && now[k] == x;
                    if k < m {
                        assert(inner[k] == x);
                    }
                }
                if head.contains(x) {
                    let k = choose|k: int| 0 <= k < head.len() && head[k] == x;
                    assert(list[k] == x);
                }
                if list.contains(x) {
                    let k = choose|k: int| 0 <= k < list.len() && list[k] == x;
                    if k < n {
                        assert(head[k] == x);
                    }
                }
            }
        }
    }
}

/// The ids that are collected from a value are those of all passages that it
/// describes, at any depth, in order and each once.
pub proof fn described_passages_are_collected(m: JsonModel, found: Seq<Seq<char>>)
    requires
        in_text_order(found),
    ensures
        in_text_order(collect_ids(m, found)),
        forall|id: Seq<char>| #[trigger]
            collect_ids(m, found).contains(id) <==> found.contains(id) || describes(m, id),
    decreases m, 0nat,
{
    match m {
        JsonModel::Arr(items) => {
            lemma_collect_items(items, items.len(), found);
        },
        JsonModel::Obj(members) => {
            let here = match passage_id(m) {
                Some(id) => insert_text(found, id),
                None => found,
            };
            if let Some(id) = passage_id(m) {
                lemma_insert(found, id);
            }
            lemma_collect_members(members, members.len(), here);
        },
        _ => {},
    }
}

proof fn lemma_collect_items(items: Seq<JsonModel>, count: nat, found: Seq<Seq<char>>)
    requires
        in_text_order(found),
    ensures
        in_text_order(collect_items(items, count, found)),
        forall|id: Seq<char>| #[trigger]
            collect_items(items, count, found).contains(id) <==> found.contains(id)
                || one_describes(items, count, id),
    decreases items, count,
{
    if 0 < count <= items.len() {
        lemma_collect_items(items, (count - 1) as nat, found);
        described_passages_are_collected(
            items[count - 1],
            collect_items(items, (count - 1) as nat, found),
        );
    }
}

proof fn lemma_collect_members(members: Seq<MemberModel>, count: nat, found: Seq<Seq<char>>)
    requires
        in_text_order(found),
    ensures
        in_text_order(collect_members(members, count, found)),
        forall|id: Seq<char>| #[trigger]
            collect_members(members, count, found).contains(id) <==> found.contains(id)
                || member_describes(members, count, id),
    decreases members, count,
{
    if 0 < count <= members.len() {
        lemma_collect_members(members, (count - 1) as nat, found);
        described_passages_are_collected(
            members[count - 1].value,
            collect_members(members, (count - 1) as nat, found),
        );
    }
}

// ---------------------------------------------------------------------------
// Briefs
// ---------------------------------------------------------------------------

/// A finding is sound: topic and observation say something in bounds, its
/// citations are a few and each names one supplied passage, no two the same; and
/// one that claims execution cites implementation. `full` is what it cites.
pub open spec fn is_sound(
    f: FindingModel,
    known: Seq<Seq<char>>,
    implementation: Seq<bool>,
    full: Seq<Seq<char>>,
) -> bool {
    &&& trim(f.topic).len() > 0 && blen(f.topic) <= 300
    &&& trim(f.observation).len() > 0 && blen(f.observation) <= 4000
    &&& 0 < f.evidence_ids.len() <= 24
    &&& full.len() == f.evidence_ids.len()
    &&& full.no_duplicates()
    &&& forall|i: int|
        0 <= i < full.len() ==> is_citation_of(known, f.evidence_ids[i], #[trigger] full[i])
    &&& f.kind == FindingKind::Runtime ==> exists|i: int|
        0 <= i < known.len() && full.contains(#[trigger] known[i]) && implementation[i]
}

proof fn lemma_finding(
    f: FindingModel,
    index: usize,
    known: Seq<Seq<char>>,
    implementation: Seq<bool>,
    full: Seq<Seq<char>>,
)
    requires
        known.len() <= usize::MAX,
        f.evidence_ids.len() <= usize::MAX,
    ensures
        check_finding(f, index, known, implementation) == Ok::<Seq<Seq<char>>, BriefFault>(full)
            <==> is_sound(f, known, implementation, full),
{
    unambiguous_citations_resolve(f.evidence_ids, known, f.evidence_ids.len(), full);
}

/// Only sound findings are accepted, all of them with what they cite in full:
/// a brief is accepted just where every finding is sound and its uncertainties
/// and questions are in bounds.
pub proof fn accepted_findings_are_sound(
    findings: Seq<FindingModel>,
    known: Seq<Seq<char>>,
    implementation: Seq<bool>,
    count: nat,
    now: Seq<FindingModel>,
)
    requires
        count <= findings.len() <= usize::MAX,
        known.len() <= usize::MAX,
        forall|i: int| 0 <= i < findings.len() ==> (#[trigger] findings[i]).evidence_ids.len()
            <= usize::MAX,
    ensures
        check_findings(findings, known, implementation, count) == Ok::<
            Seq<FindingModel>,
            BriefFault,
        >(now) <==> {
            &&& now.len() == count
            &&& forall|i: int|
                0 <= i < count ==> is_sound(
                    findings[i],
                    known,
                    implementation,
                    (#[trigger] now[i]).evidence_ids,
                ) && now[i] == (FindingModel { evidence_ids: now[i].evidence_ids, ..findings[i] })
        },
    decreases count,
{
    if count == 0 {
        if now.len() == 0 {
            assert(now =~= Seq::empty());
        }
    } else {
        let n = (count - 1) as nat;
        if now.len() == count {
            let head = now.drop_last();
            let last = now.last();
            accepted_findings_are_sound(findings, known, implementation, n, head);
            lemma_finding(findings[n as int], n as usize, known, implementation, last.evidence_ids);
            assert(now =~= head.push(last));
            assert forall|i: int| 0 <= i < n implies #[trigger] now[i] == head[i] by {}
            if check_findings(findings, known, implementation, count) == Ok::<
                Seq<FindingModel>,
                BriefFault,
            >(now) {
                let done = check_findings(findings, known, implementation, n)->Ok_0;
                let full = check_finding(
                    findings[n as int],
                    n as usize,
                    known,
                    implementation,
                )->Ok_0;
                assert(now == done.push(
                    FindingModel { evidence_ids: full, ..findings[n as int] },
                ));
                assert(done =~= head);
            }
            if forall|i: int|
                0 <= i < count ==> is_sound(
                    findings[i],
                    known,
                    implementation,
                    (#[trigger] now[i]).evidence_ids,
                ) && now[i] == (FindingModel { evidence_ids: now[i].evidence_ids, ..findings[i] }) {
                assert(now[n as int] == last);
                assert forall|i: int| 0 <= i < n implies is_sound(
                    findings[i],
                    known,
                    implementation,
                    (#[trigger] head[i]).evidence_ids,
                ) && head[i] == (FindingModel {
                    evidence_ids: head[i].evidence_ids,
                    ..findings[i]
                }) by {
                    assert(now[i] == head[i]);
                }
            }
        } else {
            lemma_findings_len(findings, known, implementation, count);
        }
    }
}

proof fn lemma_findings_len(
    findings: Seq<FindingModel>,
    known: Seq<Seq<char>>,
    implementation: Seq<bool>,
    count: nat,
)
    ensures
        check_findings(findings, known, implementation, count) matches Ok(now) ==> now.len()
            == count,
    decreases count,
{
    if count > 0 {
        lemma_findings_len(findings, known, implementation, (count - 1) as nat);
    }
}

/// Texts that are added to a list stand behind it, each that it lacked, once,
/// and none is lost.
pub proof fn open_questions_are_kept(list: Seq<Seq<char>>, more: Seq<Seq<char>>, count: nat)
    requires
        count <= more.len(),
    ensures
        list.is_prefix_of(add_missing(list, more, count)),
        forall|x: Seq<char>| #[trigger]
            add_missing(list, more, count).contains(x) <==> list.contains(x) || more.take(
                count as int,
            ).contains(x),
        list.no_duplicates() ==> add_missing(list, more, count).no_duplicates(),
    decreases count,
{
    let now = add_missing(list, more, count);
    if count == 0 {
        assert(list =~= list.take(list.len() as int));
    } else {
        let n = count - 1;
        open_questions_are_kept(list, more, n as nat);
        let was = add_missing(list, more, n as nat);
        assert(list =~= now.take(list.len() as int));
        assert(more.take(count as int) =~= more.take(n).push(more[n]));
        assert forall|x: Seq<char>| #[trigger] now.contains(x) <==> list.contains(x) || more.take(
            count as int,
        ).contains(x) by {
            let head = more.take(n);
            let all = more.take(count as int);
            assert(was.contains(x) <==> list.contains(x) || head.contains(x));
            assert(all[n] == more[n]);
            if head.contains(x) {
                let k = choose|k: int| 0 <= k < head.len() && head[k] == x;
                assert(all[k] == x);
            }
            if all.contains(x) {
                let k = choose|k: int| 0 <= k < all.len() && all[k] == x;
                if k < n {
                    assert(head[k] == x);
                }
            }
            if was.contains(x) {
                let k = choose|k: int| 0 <= k < was.len() && was[k] == x;
                assert(now[k] == x);
            }
            if now.contains(x) {
                let k = choose|k: int| 0 <= k < now.len() && now[k] == x;
                if k < was.len() {
                    assert(was[k] == x);
                }
            }
            if now.len() > was.len() {
                assert(now[was.len() as int] == more[n]);
            }
        }
    }
}

/// A text says something.
pub open spec fn says_something() -> spec_fn(Seq<char>) -> bool {
    |q: Seq<char>| trim(q).len() > 0
}

/// Every text of a list says something and fits in 1500 bytes.
pub open spec fn all_short(list: Seq<Seq<char>>) -> bool {
    forall|i: int|
        0 <= i < list.len() ==> trim(#[trigger] list[i]).len() > 0 && blen(list[i]) <= 1500
}

/// A brief is accepted just where it has some findings and no more than allowed,
/// few and short uncertainties and questions, and only sound findings. A last
/// reading keeps its questions as uncertainties.
pub proof fn briefs_are_accepted_by_the_rules(
    brief: BriefModel,
    known: Seq<Seq<char>>,
    implementation: Seq<bool>,
    final_pass: bool,
)
    ensures
        ({
            let asks = brief.followup_queries.filter(says_something());
            match accept_brief(brief, known, implementation, final_pass) {
                Ok(now) => {
                    &&& 0 < brief.findings.len() <= 24
                    &&& brief.uncertainties.len() <= 16
                    &&& all_short(brief.uncertainties)
                    &&& all_short(asks)
                    &&& asks.len() <= if final_pass {
                        8int
                    } else {
                        3
                    }
                    &&& check_findings(
                        brief.findings,
                        known,
                        implementation,
                        brief.findings.len(),
                    ) == Ok::<Seq<FindingModel>, BriefFault>(now.findings)
                    &&& final_pass ==> now.followup_queries.len() == 0 && now.uncertainties
                        == add_missing(brief.uncertainties, asks, asks.len())
                    &&& !final_pass ==> now.followup_queries == asks && now.uncertainties
                        == brief.uncertainties
                },
                Err(_) => !{
                    &&& 0 < brief.findings.len() <= 24
                    &&& brief.uncertainties.len() <= 16
                    &&& all_short(brief.uncertainties)
                    &&& all_short(asks)
                    &&& asks.len() <= if final_pass {
                        8int
                    } else {
                        3
                    }
                    &&& check_findings(
                        brief.findings,
                        known,
                        implementation,
                        brief.findings.len(),
                    ) is Ok
                },
            }
        }),
{
    let q = |q: Seq<char>| trim(q).len() > 0;
    assert forall|i: int| 0 <= i < brief.followup_queries.len() implies q(
        #[trigger] brief.followup_queries[i],
    ) == says_something()(brief.followup_queries[i]) by {}
    super::lists::lemma_filters_agree(brief.followup_queries, q, says_something());
    let asks = brief.followup_queries.filter(says_something());
    assert(asked(brief.followup_queries) == asks);
    lemma_short(asks);
    lemma_short(brief.uncertainties);
}

proof fn lemma_short(list: Seq<Seq<char>>)
    ensures
        all_bounded(list, 1500) == all_short(list),
{
    if all_short(list) {
        assert forall|i: int| 0 <= i < list.len() implies bounded(#[trigger] list[i], 1500) by {
            assert(trim(list[i]).len() > 0);
        }
    }
    if all_bounded(list, 1500) {
        assert forall|i: int| 0 <= i < list.len() implies trim(#[trigger] list[i]).len() > 0
            && blen(list[i]) <= 1500 by {
            assert(bounded(list[i], 1500));
        }
    }
}

} // verus!
