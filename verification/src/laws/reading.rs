//! What reading for a purpose keeps: whole passages in fair turns, every finding
//! once, and the details that match best.

use vstd::prelude::*;

use super::lists::{firsts, has_key, lemma_firsts_push, lemma_flatten_take};
use crate::editorial::has_id;
use crate::findings::FindingModel;
use crate::model::Evidence;
use crate::order::{lemma_filter_none, lemma_filter_step};
use crate::packing::{
    by_path, group_of, merge_list, merged, packed_by_file, total_cost, what_fits_is_packed,
};
use crate::purpose::{
    add_findings, all_findings, cited_passages, detail_file, detail_text, details_of, has_detail,
    has_topic, lemma_ranked, not_replaced, of_file, outranks, ranked, retained, says,
    selected_details, term_score, thinned, DetailModel, DiscoveryModel,
};
use crate::text::{blen, contains};

verus! {

// ---------------------------------------------------------------------------
// Passages
// ---------------------------------------------------------------------------

/// What tells passages apart.
pub open spec fn passage_id() -> spec_fn(Evidence) -> Seq<char> {
    |e: Evidence| e.id@
}

proof fn lemma_has_id(list: Seq<Evidence>, id: Seq<char>)
    ensures
        has_id(list, id) == has_key(list, passage_id(), id),
{
    if has_id(list, id) {
        let k = choose|k: int| 0 <= k < list.len() && (#[trigger] list[k]).id@ == id;
        assert(passage_id()(list[k]) == id);
    }
    if has_key(list, passage_id(), id) {
        let k = choose|k: int| 0 <= k < list.len() && passage_id()(#[trigger] list[k]) == id;
        assert(list[k].id@ == id);
    }
}

proof fn lemma_merge_list(list: Seq<Evidence>, flat: Seq<Evidence>, count: nat)
    requires
        count <= list.len(),
    ensures
        merge_list(list, firsts(flat, passage_id()), count) == firsts(
            flat + list.take(count as int),
            passage_id(),
        ),
    decreases count,
{
    if count == 0 {
        assert(flat + list.take(0) =~= flat);
    } else {
        let n = count - 1;
        lemma_merge_list(list, flat, n as nat);
        let before = flat + list.take(n);
        assert(flat + list.take(count as int) =~= before.push(list[n]));
        lemma_firsts_push(before, passage_id(), list[n]);
        lemma_has_id(firsts(before, passage_id()), list[n].id@);
    }
}

/// A merge is the passages of all groups, one group behind the other, each id
/// once and where it comes first.
pub proof fn merging_keeps_first_passages(groups: Seq<Seq<Evidence>>, count: nat)
    requires
        count <= groups.len(),
    ensures
        merged(groups, count) == firsts(groups.take(count as int).flatten(), passage_id()),
    decreases count,
{
    if count == 0 {
        assert(groups.take(0) =~= Seq::empty());
        let none = Seq::<Evidence>::empty();
        lemma_filter_none(super::lists::upto(0), super::lists::is_first(none, passage_id()));
        assert(super::lists::upto(0) =~= super::lists::upto(0).take(0));
        assert(firsts(none, passage_id()) =~= none);
    } else {
        let n = count - 1;
        merging_keeps_first_passages(groups, n as nat);
        lemma_flatten_take(groups, n);
        lemma_merge_list(groups[n], groups.take(n).flatten(), groups[n].len());
        assert(groups[n].take(groups[n].len() as int) =~= groups[n]);
    }
}

/// A passage of this file.
pub open spec fn of_path(path: Seq<char>) -> spec_fn(Evidence) -> bool {
    |e: Evidence| e.path@ == path
}

/// The groups of a list are its files: each holds all passages of one file in
/// their order, and no two are of one file.
pub open spec fn grouped(list: Seq<Evidence>, groups: Seq<Seq<Evidence>>) -> bool {
    &&& forall|g: int|
        0 <= g < groups.len() ==> (#[trigger] groups[g]).len() > 0 && groups[g] == list.filter(
            of_path(groups[g][0].path@),
        )
    &&& forall|g: int, h: int|
        0 <= g < h < groups.len() ==> (#[trigger] groups[g])[0].path@ != (
        #[trigger] groups[h])[0].path@
    &&& forall|i: int|
        0 <= i < list.len() ==> has_group(groups, (#[trigger] list[i]).path@)
}

/// One of the groups is of this file.
pub open spec fn has_group(groups: Seq<Seq<Evidence>>, path: Seq<char>) -> bool {
    exists|g: int| 0 <= g < groups.len() && (#[trigger] groups[g])[0].path@ == path
}

proof fn lemma_group_of(groups: Seq<Seq<Evidence>>, path: Seq<char>, from: nat)
    requires
        forall|g: int| 0 <= g < groups.len() ==> (#[trigger] groups[g]).len() > 0,
    ensures
        match group_of(groups, path, from) {
            Some(g) => from <= g < groups.len() && groups[g][0].path@ == path,
            None => forall|g: int|
                from <= g < groups.len() ==> (#[trigger] groups[g])[0].path@ != path,
        },
    decreases groups.len() - from,
{
    if from < groups.len() && groups[from as int][0].path@ != path {
        lemma_group_of(groups, path, from + 1);
    }
}

proof fn lemma_by_path(list: Seq<Evidence>, count: nat)
    requires
        count <= list.len(),
    ensures
        grouped(list.take(count as int), by_path(list, count)),
    decreases count,
{
    if count > 0 {
        let n = count - 1;
        lemma_by_path(list, n as nat);
        let had = list.take(n);
        let all = list.take(count as int);
        let before = by_path(list, n as nat);
        let now = by_path(list, count);
        let e = list[n];
        assert(all =~= had.push(e));
        lemma_group_of(before, e.path@, 0);
        assert forall|path: Seq<char>| #[trigger] all.filter(of_path(path)) == (if path == e.path@ {
            had.filter(of_path(path)).push(e)
        } else {
            had.filter(of_path(path))
        }) by {
            lemma_filter_step(list, of_path(path), n);
        }
        match group_of(before, e.path@, 0) {
            Some(at) => {
                assert forall|g: int| 0 <= g < now.len() implies (#[trigger] now[g]).len() > 0
                    && now[g][0].path@ == before[g][0].path@ && now[g] == all.filter(
                    of_path(now[g][0].path@),
                ) by {
                    if g == at {
                        assert(now[g] == before[g].push(e));
                        assert(now[g][0] == before[g][0]);
                    } else {
                        assert(now[g] == before[g]);
                        if g < at {
                            assert(before[g][0].path@ != before[at][0].path@);
                        } else {
                            assert(before[at][0].path@ != before[g][0].path@);
                        }
                    }
                }
                assert forall|i: int| 0 <= i < all.len() implies has_group(
                    now,
                    (#[trigger] all[i]).path@,
                ) by {
                    if i < n {
                        assert(all[i] == had[i]);
                        assert(has_group(before, had[i].path@));
                        let g = choose|g: int|
                            0 <= g < before.len() && (#[trigger] before[g])[0].path@
                                == had[i].path@;
                        assert(now[g][0].path@ == had[i].path@);
                    } else {
                        assert(now[at][0].path@ == e.path@);
                    }
                }
                assert forall|g: int, h: int| 0 <= g < h < now.len() implies (
                #[trigger] now[g])[0].path@ != (#[trigger] now[h])[0].path@ by {
                    assert(before[g][0].path@ != before[h][0].path@);
                }
            },
            None => {
                let fresh = before.len() as int;
                assert(had.filter(of_path(e.path@)) =~= Seq::empty()) by {
                    lemma_none_of(had, before, e.path@);
                }
                assert(now[fresh] =~= all.filter(of_path(e.path@)));
                assert forall|g: int| 0 <= g < now.len() implies (#[trigger] now[g]).len() > 0
                    && now[g] == all.filter(of_path(now[g][0].path@)) by {
                    if g < fresh {
                        assert(now[g] == before[g]);
                        assert(before[g][0].path@ != e.path@);
                    }
                }
                assert forall|i: int| 0 <= i < all.len() implies has_group(
                    now,
                    (#[trigger] all[i]).path@,
                ) by {
                    if i < n {
                        assert(all[i] == had[i]);
                        assert(has_group(before, had[i].path@));
                        let g = choose|g: int|
                            0 <= g < before.len() && (#[trigger] before[g])[0].path@
                                == had[i].path@;
                        assert(now[g] == before[g]);
                    } else {
                        assert(now[fresh][0].path@ == e.path@);
                    }
                }
                assert forall|g: int, h: int| 0 <= g < h < now.len() implies (
                #[trigger] now[g])[0].path@ != (#[trigger] now[h])[0].path@ by {
                    assert(now[g] == before[g]);
                    if h < fresh {
                        assert(now[h] == before[h]);
                    }
                }
            },
        }
    }
}

proof fn lemma_none_of(list: Seq<Evidence>, groups: Seq<Seq<Evidence>>, path: Seq<char>)
    requires
        grouped(list, groups),
        forall|g: int| 0 <= g < groups.len() ==> (#[trigger] groups[g])[0].path@ != path,
    ensures
        list.filter(of_path(path)) == Seq::<Evidence>::empty(),
{
    let f = list.filter(of_path(path));
    if f.len() > 0 {
        list.lemma_filter_pred(of_path(path), 0);
        assert(f.contains(f[0]));
        super::lists::lemma_kept(list, of_path(path), f[0]);
        let i = choose|i: int| 0 <= i < list.len() && list[i] == f[0];
        assert(has_group(groups, list[i].path@));
    }
    assert(f =~= Seq::empty());
}

/// Passages take turns by file, and nothing that fits is left out: for every
/// passage of a list, one with its id is packed, or it does not fit beside those
/// that are.
pub proof fn files_take_turns(list: Seq<Evidence>, limit: nat)
    ensures
        grouped(list, by_path(list, list.len())),
        packed_by_file(list, limit) == crate::packing::packed(by_path(list, list.len()), limit),
        forall|i: int|
            0 <= i < list.len() ==> has_key(
                packed_by_file(list, limit),
                passage_id(),
                (#[trigger] list[i]).id@,
            ) || total_cost(packed_by_file(list, limit)) + blen(list[i].content@) + blen(
                list[i].path@,
            ) + 256 > limit,
{
    lemma_by_path(list, list.len());
    assert(list.take(list.len() as int) =~= list);
    let groups = by_path(list, list.len());
    let all = packed_by_file(list, limit);
    assert forall|i: int| 0 <= i < list.len() implies has_key(
        all,
        passage_id(),
        (#[trigger] list[i]).id@,
    ) || total_cost(all) + blen(list[i].content@) + blen(list[i].path@) + 256 > limit by {
        let path = list[i].path@;
        assert(has_group(groups, path));
        let g = choose|g: int| 0 <= g < groups.len() && (#[trigger] groups[g])[0].path@ == path;
        list.lemma_filter_contains(of_path(path), i);
        assert(groups[g].contains(list[i]));
        let k = choose|k: int| 0 <= k < groups[g].len() && groups[g][k] == list[i];
        what_fits_is_packed(groups, limit, g, k);
        lemma_has_id(all, list[i].id@);
    }
}

// ---------------------------------------------------------------------------
// Findings
// ---------------------------------------------------------------------------

/// What tells findings apart: topic, observation and citations.
pub open spec fn finding_key() -> spec_fn(FindingModel) -> (Seq<char>, Seq<char>, Seq<Seq<char>>) {
    |f: FindingModel| (f.topic, f.observation, f.evidence_ids)
}

proof fn lemma_says(list: Seq<FindingModel>, f: FindingModel)
    ensures
        says(list, f) == has_key(list, finding_key(), finding_key()(f)),
{
    let key = finding_key();
    if says(list, f) {
        let k = choose|k: int|
            0 <= k < list.len() && crate::purpose::same_finding(#[trigger] list[k], f);
        assert(key(list[k]) == key(f));
    }
    if has_key(list, key, key(f)) {
        let k = choose|k: int| 0 <= k < list.len() && key(#[trigger] list[k]) == key(f);
        assert(crate::purpose::same_finding(list[k], f));
    }
}

proof fn lemma_add_findings(list: Seq<FindingModel>, flat: Seq<FindingModel>, count: nat)
    requires
        count <= list.len(),
    ensures
        add_findings(list, firsts(flat, finding_key()), count) == firsts(
            flat + list.take(count as int),
            finding_key(),
        ),
    decreases count,
{
    if count == 0 {
        assert(flat + list.take(0) =~= flat);
    } else {
        let n = count - 1;
        lemma_add_findings(list, flat, n as nat);
        let before = flat + list.take(n);
        assert(flat + list.take(count as int) =~= before.push(list[n]));
        lemma_firsts_push(before, finding_key(), list[n]);
        lemma_says(firsts(before, finding_key()), list[n]);
    }
}

/// Merged findings are those of all groups, each once and where it comes first.
pub proof fn merging_keeps_first_findings(groups: Seq<Seq<FindingModel>>, count: nat)
    requires
        count <= groups.len(),
    ensures
        all_findings(groups, count) == firsts(groups.take(count as int).flatten(), finding_key()),
    decreases count,
{
    if count == 0 {
        assert(groups.take(0) =~= Seq::empty());
        let none = Seq::<FindingModel>::empty();
        lemma_filter_none(super::lists::upto(0), super::lists::is_first(none, finding_key()));
        assert(super::lists::upto(0) =~= super::lists::upto(0).take(0));
        assert(firsts(none, finding_key()) =~= none);
    } else {
        let n = count - 1;
        merging_keeps_first_findings(groups, n as nat);
        lemma_flatten_take(groups, n);
        lemma_add_findings(groups[n], groups.take(n).flatten(), groups[n].len());
        assert(groups[n].take(groups[n].len() as int) =~= groups[n]);
    }
}

/// None of these findings has the topic of a finding.
pub open spec fn not_taken_up(brief: Seq<FindingModel>) -> spec_fn(FindingModel) -> bool {
    |f: FindingModel|
        forall|k: int| 0 <= k < brief.len() ==> (#[trigger] brief[k]).topic != f.topic
}

proof fn lemma_not_replaced(findings: Seq<FindingModel>, brief: Seq<FindingModel>, count: nat)
    requires
        count <= findings.len(),
    ensures
        not_replaced(findings, brief, count) == findings.take(count as int).filter(
            not_taken_up(brief),
        ),
    decreases count,
{
    lemma_filter_none(findings, not_taken_up(brief));
    if count > 0 {
        lemma_not_replaced(findings, brief, (count - 1) as nat);
        lemma_filter_step(findings, not_taken_up(brief), count - 1);
        let f = findings[count - 1];
        assert(has_topic(brief, f.topic) == !not_taken_up(brief)(f));
    }
}

/// A new brief loses nothing that was known: the earlier findings and details
/// stay as details, each once, but for those whose topic the brief takes up
/// again.
pub proof fn earlier_findings_stay(
    prior: DiscoveryModel,
    brief: crate::findings::BriefModel,
    evidence: Seq<Evidence>,
)
    ensures
        retained(prior, brief, evidence).brief == brief,
        retained(prior, brief, evidence).evidence == evidence,
        retained(prior, brief, evidence).validation_unresolved == prior.validation_unresolved,
        retained(prior, brief, evidence).details == firsts(
            prior.brief.findings + prior.details,
            finding_key(),
        ).filter(not_taken_up(brief.findings)),
{
    let groups = seq![prior.brief.findings, prior.details];
    merging_keeps_first_findings(groups, 2);
    assert(groups.take(2) =~= groups);
    lemma_flatten_take(groups, 0);
    lemma_flatten_take(groups, 1);
    assert(groups.take(0) =~= Seq::empty());
    assert(groups.take(1).flatten() =~= prior.brief.findings);
    let known = all_findings(groups, 2);
    lemma_not_replaced(known, brief.findings, known.len());
    assert(known.take(known.len() as int) =~= known);
}

// ---------------------------------------------------------------------------
// Details
// ---------------------------------------------------------------------------

/// A passage is cited by one of these ids.
pub open spec fn cited_by_one(ids: Seq<Seq<char>>) -> spec_fn(Evidence) -> bool {
    |e: Evidence| exists|k: int| 0 <= k < ids.len() && #[trigger] ids[k] == e.id@
}

proof fn lemma_cited(evidence: Seq<Evidence>, ids: Seq<Seq<char>>, count: nat)
    requires
        count <= evidence.len(),
    ensures
        cited_passages(evidence, ids, count) == evidence.take(count as int).filter(
            cited_by_one(ids),
        ),
    decreases count,
{
    lemma_filter_none(evidence, cited_by_one(ids));
    if count > 0 {
        lemma_cited(evidence, ids, (count - 1) as nat);
        lemma_filter_step(evidence, cited_by_one(ids), count - 1);
        let id = evidence[count - 1].id@;
        if ids.contains(id) {
            let k = choose|k: int| 0 <= k < ids.len() && ids[k] == id;
            assert(ids[k] == id);
        }
    }
}

/// A term stands in a text.
pub open spec fn stands_in(text: Seq<char>) -> spec_fn(Seq<char>) -> bool {
    |term: Seq<char>| contains(text, term)
}

proof fn lemma_score(text: Seq<char>, terms: Seq<Seq<char>>, count: nat)
    requires
        count <= terms.len(),
    ensures
        term_score(text, terms, count) == terms.take(count as int).filter(stands_in(text)).len(),
    decreases count,
{
    lemma_filter_none(terms, stands_in(text));
    if count > 0 {
        lemma_score(text, terms, (count - 1) as nat);
        lemma_filter_step(terms, stands_in(text), count - 1);
    }
}

/// All passages of a finding are there.
pub open spec fn is_backed(evidence: Seq<Evidence>) -> spec_fn(FindingModel) -> bool {
    |f: FindingModel| evidence.filter(cited_by_one(f.evidence_ids)).len() == f.evidence_ids.len()
}

/// A finding with its passages, scored by how many terms its topic, its
/// observation or its paths hold.
pub open spec fn detail_for(evidence: Seq<Evidence>, terms: Seq<Seq<char>>) -> spec_fn(
    FindingModel,
) -> DetailModel {
    |f: FindingModel|
        DetailModel {
            score: terms.filter(
                stands_in(detail_text(f, evidence.filter(cited_by_one(f.evidence_ids)))),
            ).len() as usize,
            finding: f,
            evidence: evidence.filter(cited_by_one(f.evidence_ids)),
        }
}

/// The details of some findings are all those whose passages are there, each
/// with its passages and its score.
pub proof fn backed_findings_become_details(
    findings: Seq<FindingModel>,
    evidence: Seq<Evidence>,
    terms: Seq<Seq<char>>,
    count: nat,
)
    requires
        count <= findings.len(),
    ensures
        details_of(findings, evidence, terms, count) == findings.take(count as int).filter(
            is_backed(evidence),
        ).map_values(detail_for(evidence, terms)),
    decreases count,
{
    lemma_filter_none(findings, is_backed(evidence));
    if count == 0 {
        assert(Seq::<FindingModel>::empty().map_values(detail_for(evidence, terms))
            =~= Seq::empty());
    } else {
        let n = count - 1;
        backed_findings_become_details(findings, evidence, terms, n as nat);
        lemma_filter_step(findings, is_backed(evidence), n);
        let f = findings[n];
        lemma_cited(evidence, f.evidence_ids, evidence.len());
        assert(evidence.take(evidence.len() as int) =~= evidence);
        let cited = evidence.filter(cited_by_one(f.evidence_ids));
        lemma_score(detail_text(f, cited), terms, terms.len());
        assert(terms.take(terms.len() as int) =~= terms);
        let before = findings.take(n).filter(is_backed(evidence));
        assert(before.push(f).map_values(detail_for(evidence, terms)) =~= before.map_values(
            detail_for(evidence, terms),
        ).push(detail_for(evidence, terms)(f)));
    }
}

/// A detail that a selection passes over: one of the same topic and citations is
/// selected, or four of its file are, or twenty-four that it does not outrank.
pub open spec fn passed_over(chosen: Seq<DetailModel>, d: DetailModel) -> bool {
    ||| exists|k: int|
        0 <= k < chosen.len() && (#[trigger] chosen[k]).finding.topic == d.finding.topic
            && chosen[k].finding.evidence_ids == d.finding.evidence_ids
    ||| of_file(chosen, detail_file(d), chosen.len()) >= 4
    ||| chosen.len() == 24 && forall|k: int|
        0 <= k < chosen.len() ==> !outranks(d, #[trigger] chosen[k])
}

proof fn lemma_thinned_complete(list: Seq<DetailModel>, count: nat, i: int)
    requires
        0 <= i < count <= list.len(),
    ensures
        ({
            let t = thinned(list, count);
            has_detail(t, list[i]) || of_file(t, detail_file(list[i]), t.len()) >= 4
        }),
    decreases count,
{
    let was = thinned(list, (count - 1) as nat);
    let now = thinned(list, count);
    let d = list[count - 1];
    if i == count - 1 {
        if now.len() > was.len() {
            assert(now[was.len() as int].finding.topic == d.finding.topic);
        }
    } else {
        lemma_thinned_complete(list, (count - 1) as nat, i);
        if now.len() > was.len() {
            lemma_file_push(was, d, detail_file(list[i]), was.len());
            if has_detail(was, list[i]) {
                let k = choose|k: int|
                    0 <= k < was.len() && (#[trigger] was[k]).finding.topic == list[i].finding.topic
                        && was[k].finding.evidence_ids == list[i].finding.evidence_ids;
                assert(now[k].finding.topic == list[i].finding.topic);
            }
        }
    }
}

proof fn lemma_file_push(list: Seq<DetailModel>, d: DetailModel, file: Seq<char>, count: nat)
    requires
        count <= list.len(),
    ensures
        of_file(list.push(d), file, count) == of_file(list, file, count),
    decreases count,
{
    if count > 0 {
        lemma_file_push(list, d, file, (count - 1) as nat);
    }
}

/// Nothing is dropped from a selection without cause: every earlier detail, and
/// every backed finding of the discovery, is selected or passed over.
pub proof fn details_are_dropped_for_cause(
    best: Seq<DetailModel>,
    discovery: DiscoveryModel,
    terms: Seq<Seq<char>>,
    d: DetailModel,
)
    requires
        ({
            let findings = discovery.brief.findings + discovery.details;
            let new = findings.filter(is_backed(discovery.evidence)).map_values(
                detail_for(discovery.evidence, terms),
            );
            best.len() + new.len() <= usize::MAX && (best + new).contains(d)
        }),
    ensures
        selected_details(best, discovery, terms).contains(d) || passed_over(
            selected_details(best, discovery, terms),
            d,
        ),
{
    let findings = discovery.brief.findings + discovery.details;
    backed_findings_become_details(findings, discovery.evidence, terms, findings.len());
    assert(findings.take(findings.len() as int) =~= findings);
    let list = best + details_of(findings, discovery.evidence, terms, findings.len());
    let all = ranked(list);
    lemma_ranked(list);
    let i = lemma_ranked_holds(list, d);
    let thin = thinned(all, all.len());
    let r = selected_details(best, discovery, terms);
    lemma_thinned_complete(all, all.len(), i);
    if thin.len() <= 24 {
        if has_detail(thin, d) {
            let k = choose|k: int|
                0 <= k < thin.len() && (#[trigger] thin[k]).finding.topic == d.finding.topic
                    && thin[k].finding.evidence_ids == d.finding.evidence_ids;
            assert(r[k].finding.topic == d.finding.topic);
        }
    } else {
        if exists|k: int| 0 <= k < 24 && outranks(d, #[trigger] r[k]) {
            let k = choose|k: int| 0 <= k < 24 && outranks(d, #[trigger] r[k]);
            lemma_blockers_are_early(all, all.len(), i, k);
            if has_detail(thin.take(k), d) {
                let j = choose|j: int|
                    0 <= j < thin.take(k).len() && (#[trigger] thin.take(k)[j]).finding.topic
                        == d.finding.topic && thin.take(k)[j].finding.evidence_ids
                        == d.finding.evidence_ids;
                assert(r[j].finding.topic == d.finding.topic);
            } else {
                lemma_file_take(thin, detail_file(d), k, k as nat);
                lemma_file_take(thin, detail_file(d), 24, k as nat);
                lemma_file_more(r, detail_file(d), k as nat, 24);
            }
        }
    }
}

/// A ranking holds what it ranks.
proof fn lemma_ranked_holds(list: Seq<DetailModel>, d: DetailModel) -> (i: int)
    requires
        list.len() <= usize::MAX,
        list.contains(d),
    ensures
        0 <= i < ranked(list).len(),
        ranked(list)[i] == d,
{
    let less = crate::purpose::better(list);
    let order = crate::order::ordered(list.len(), less);
    crate::order::lemma_ordered(list.len(), less);
    let p = choose|p: int| 0 <= p < list.len() && list[p] == d;
    assert(order.contains(p as usize));
    let i = choose|i: int| 0 <= i < order.len() && order[i] == p as usize;
    assert(ranked(list)[i] == d);
    i
}

/// What keeps a detail out comes before all that it outranks.
proof fn lemma_blockers_are_early(list: Seq<DetailModel>, count: nat, i: int, k: int)
    requires
        crate::purpose::best_first(list),
        0 <= i < count <= list.len(),
        0 <= k < thinned(list, count).len(),
        outranks(list[i], thinned(list, count)[k]),
    ensures
        ({
            let t = thinned(list, count).take(k);
            has_detail(t, list[i]) || of_file(t, detail_file(list[i]), t.len()) >= 4
        }),
    decreases count,
{
    let was = thinned(list, (count - 1) as nat);
    let now = thinned(list, count);
    if k < was.len() {
        assert(now[k] == was[k]);
        assert(now.take(k) =~= was.take(k));
        if i < count - 1 {
            lemma_blockers_are_early(list, (count - 1) as nat, i, k);
        } else {
            crate::purpose::lemma_thinned_keeps(list, (count - 1) as nat);
            let head = list.take(count - 1);
            assert(head.contains(was[k]));
            let p = choose|p: int| 0 <= p < head.len() && head[p] == was[k];
            assert(list[p] == was[k]);
            assert(!outranks(list[i], list[p]));
        }
    } else {
        // What stands last is the item itself, which nothing before it outranks.
        assert(now[k] == list[count - 1]);
        assert(now.take(k) =~= was);
        if i < count - 1 {
            lemma_thinned_complete(list, (count - 1) as nat, i);
        } else {
            crate::purpose::lemma_outranks(list[i], list[i], list[i]);
        }
    }
}

proof fn lemma_file_take(list: Seq<DetailModel>, file: Seq<char>, to: int, count: nat)
    requires
        count <= to <= list.len(),
    ensures
        of_file(list.take(to), file, count) == of_file(list, file, count),
    decreases count,
{
    if count > 0 {
        lemma_file_take(list, file, to, (count - 1) as nat);
    }
}

proof fn lemma_file_more(list: Seq<DetailModel>, file: Seq<char>, a: nat, b: nat)
    requires
        a <= b,
    ensures
        of_file(list, file, a) <= of_file(list, file, b),
    decreases b - a,
{
    if a < b {
        lemma_file_more(list, file, a, (b - 1) as nat);
    }
}

} // verus!
