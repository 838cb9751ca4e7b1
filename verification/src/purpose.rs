//! One purpose-focused summary of a source over readings that are kept.

use vstd::prelude::*;
use vstd::string::StringExecFns;

use crate::findings::{
    copy_texts, finding_models, BriefModel, Discovery, Finding, FindingModel, SourceBrief,
};
use crate::model::Evidence;
use crate::order::{lemma_insert_at, lemma_ordered, ordered, orderings_are_in_order, weak_order};
use crate::packing::{evidence_lists, merge_evidence, merged, pack_by_file, packed_by_file};
use crate::planning::levels::copy_findings;
use crate::text::{
    before, contains, has, join, join_with, list_has, lowercase, precedes, same, texts, texts_are_ordered,
    the_order_of_texts_is_transitive, to_lowercase,
};

verus! {

// ---------------------------------------------------------------------------
// Models
// ---------------------------------------------------------------------------

/// The value of what was discovered.
pub struct DiscoveryModel {
    pub brief: BriefModel,
    pub evidence: Seq<Evidence>,
    pub details: Seq<FindingModel>,
    pub validation_unresolved: bool,
}

impl View for Discovery {
    type V = DiscoveryModel;

    open spec fn view(&self) -> DiscoveryModel {
        DiscoveryModel {
            brief: self.brief@,
            evidence: self.evidence@,
            details: finding_models(self.details@),
            validation_unresolved: self.validation_unresolved,
        }
    }
}

/// A copy of a list of passages.
pub fn copy_evidence(list: &Vec<Evidence>) -> (r: Vec<Evidence>)
    ensures
        r@ == list@,
{
    let mut r: Vec<Evidence> = Vec::new();
    let mut i: usize = 0;
    while i < list.len()
        invariant
            i <= list@.len(),
            r@ == list@.take(i as int),
        decreases list@.len() - i,
    {
        r.push(list[i].clone());
        assert(list@.take(i + 1) =~= list@.take(i as int).push(list@[i as int]));
        i += 1;
    }
    assert(list@.take(i as int) =~= list@);
    r
}

/// The lists of findings of several groups.
pub open spec fn finding_lists(groups: Seq<Vec<Finding>>) -> Seq<Seq<FindingModel>> {
    groups.map_values(|g: Vec<Finding>| finding_models(g@))
}

// ---------------------------------------------------------------------------
// Merging findings
// ---------------------------------------------------------------------------

/// Two findings say the same of the same passages.
pub open spec fn same_finding(a: FindingModel, b: FindingModel) -> bool {
    a.topic == b.topic && a.observation == b.observation && a.evidence_ids == b.evidence_ids
}

/// A list holds a finding that says the same.
pub open spec fn says(list: Seq<FindingModel>, f: FindingModel) -> bool {
    exists|k: int| 0 <= k < list.len() && same_finding(#[trigger] list[k], f)
}

/// What the first `count` findings add to those before them.
pub open spec fn add_findings(
    list: Seq<FindingModel>,
    before: Seq<FindingModel>,
    count: nat,
) -> Seq<FindingModel>
    decreases count,
{
    if count == 0 {
        before
    } else {
        let so_far = add_findings(list, before, (count - 1) as nat);
        if says(so_far, list[count - 1]) {
            so_far
        } else {
            so_far.push(list[count - 1])
        }
    }
}

/// The findings of the first `count` groups, each once.
pub open spec fn all_findings(groups: Seq<Seq<FindingModel>>, count: nat) -> Seq<FindingModel>
    decreases count,
{
    if count == 0 {
        Seq::empty()
    } else {
        add_findings(
            groups[count - 1],
            all_findings(groups, (count - 1) as nat),
            groups[count - 1].len(),
        )
    }
}

/// Whether two lists hold the same texts.
pub fn same_texts(a: &Vec<String>, b: &Vec<String>) -> (r: bool)
    ensures
        r == (texts(a@) == texts(b@)),
{
    if a.len() != b.len() {
        assert(texts(a@).len() != texts(b@).len());
        return false;
    }
    let mut i: usize = 0;
    while i < a.len()
        invariant
            i <= a@.len() == b@.len(),
            forall|k: int| 0 <= k < i ==> texts(a@)[k] == texts(b@)[k],
        decreases a@.len() - i,
    {
        if !same(a[i].as_str(), b[i].as_str()) {
            assert(texts(a@)[i as int] != texts(b@)[i as int]);
            return false;
        }
        i += 1;
    }
    assert(texts(a@) =~= texts(b@));
    true
}

/// Whether a list holds a finding that says the same.
fn is_said(list: &Vec<Finding>, f: &Finding) -> (r: bool)
    ensures
        r == says(finding_models(list@), f@),
{
    let ghost ms = finding_models(list@);
    let mut k: usize = 0;
    while k < list.len()
        invariant
            k <= list@.len(),
            ms == finding_models(list@),
            forall|j: int| 0 <= j < k ==> !same_finding(#[trigger] ms[j], f@),
        decreases list@.len() - k,
    {
        let g = &list[k];
        assert(ms[k as int] == g@);
        if same(g.topic.as_str(), f.topic.as_str()) && same(
            g.observation.as_str(),
            f.observation.as_str(),
        ) && same_texts(&g.evidence_ids, &f.evidence_ids) {
            assert(same_finding(ms[k as int], f@));
            return true;
        }
        k += 1;
    }
    false
}

/// The findings of some groups, each once.
pub fn merge_findings(groups: &Vec<Vec<Finding>>) -> (r: Vec<Finding>)
    ensures
        finding_models(r@) == all_findings(finding_lists(groups@), groups@.len()),
{
    let ghost lists = finding_lists(groups@);
    let mut r: Vec<Finding> = Vec::new();
    let mut g: usize = 0;
    assert(finding_models(r@) =~= Seq::empty());
    while g < groups.len()
        invariant
            g <= groups@.len(),
            lists == finding_lists(groups@),
            finding_models(r@) == all_findings(lists, g as nat),
        decreases groups@.len() - g,
    {
        let ghost so_far = finding_models(r@);
        let list = &groups[g];
        assert(lists[g as int] == finding_models(list@));
        let mut i: usize = 0;
        while i < list.len()
            invariant
                i <= list@.len(),
                finding_models(r@) == add_findings(finding_models(list@), so_far, i as nat),
            decreases list@.len() - i,
        {
            assert(finding_models(list@)[i as int] == list@[i as int]@);
            if !is_said(&r, &list[i]) {
                let f = list[i].clone();
                assert(finding_models(r@.push(f)) =~= finding_models(r@).push(f@));
                r.push(f);
            }
            i += 1;
        }
        assert(finding_models(list@).len() == list@.len());
        g += 1;
    }
    r
}

// ---------------------------------------------------------------------------
// Details
// ---------------------------------------------------------------------------

/// A finding that matches a purpose, with the passages that it rests on.
pub struct Detail {
    pub score: usize,
    pub finding: Finding,
    pub evidence: Vec<Evidence>,
}

/// The value of a detail.
pub struct DetailModel {
    pub score: usize,
    pub finding: FindingModel,
    pub evidence: Seq<Evidence>,
}

impl View for Detail {
    type V = DetailModel;

    open spec fn view(&self) -> DetailModel {
        DetailModel { score: self.score, finding: self.finding@, evidence: self.evidence@ }
    }
}

/// The values of a list of details.
pub open spec fn detail_models(v: Seq<Detail>) -> Seq<DetailModel> {
    v.map_values(|d: Detail| d@)
}

/// The cited ones of the first `count` passages.
pub open spec fn cited_passages(
    evidence: Seq<Evidence>,
    ids: Seq<Seq<char>>,
    count: nat,
) -> Seq<Evidence>
    decreases count,
{
    if count == 0 {
        Seq::empty()
    } else {
        let so_far = cited_passages(evidence, ids, (count - 1) as nat);
        if ids.contains(evidence[count - 1].id@) {
            so_far.push(evidence[count - 1])
        } else {
            so_far
        }
    }
}

/// The paths of some passages.
pub open spec fn paths_of(list: Seq<Evidence>) -> Seq<Seq<char>> {
    list.map_values(|e: Evidence| e.path@)
}

/// What is searched for the terms of a purpose.
pub open spec fn detail_text(finding: FindingModel, evidence: Seq<Evidence>) -> Seq<char> {
    lowercase(
        finding.topic + " "@ + finding.observation + " "@ + join(paths_of(evidence), " "@),
    )
}

/// How many of the first `count` terms stand in a text.
pub open spec fn term_score(text: Seq<char>, terms: Seq<Seq<char>>, count: nat) -> nat
    decreases count,
{
    if count == 0 {
        0
    } else {
        term_score(text, terms, (count - 1) as nat) + if contains(text, terms[count - 1]) {
            1nat
        } else {
            0nat
        }
    }
}

/// The details of the first `count` findings, those whose passages are all
/// there.
pub open spec fn details_of(
    findings: Seq<FindingModel>,
    evidence: Seq<Evidence>,
    terms: Seq<Seq<char>>,
    count: nat,
) -> Seq<DetailModel>
    decreases count,
{
    if count == 0 {
        Seq::empty()
    } else {
        let so_far = details_of(findings, evidence, terms, (count - 1) as nat);
        let finding = findings[count - 1];
        let cited = cited_passages(evidence, finding.evidence_ids, evidence.len());
        if cited.len() != finding.evidence_ids.len() {
            so_far
        } else {
            so_far.push(
                DetailModel {
                    score: term_score(
                        detail_text(finding, cited),
                        terms,
                        terms.len(),
                    ) as usize,
                    finding,
                    evidence: cited,
                },
            )
        }
    }
}

/// Lists of texts compared by their first difference.
pub open spec fn lists_precede(a: Seq<Seq<char>>, b: Seq<Seq<char>>) -> bool
    decreases a.len(),
{
    if b.len() == 0 {
        false
    } else if a.len() == 0 {
        true
    } else if a[0] != b[0] {
        precedes(a[0], b[0])
    } else {
        lists_precede(a.skip(1), b.skip(1))
    }
}

/// A detail comes before another: by a higher score, and by its citations where
/// the scores are equal.
pub open spec fn outranks(a: DetailModel, b: DetailModel) -> bool {
    a.score > b.score || (a.score == b.score && lists_precede(
        a.finding.evidence_ids,
        b.finding.evidence_ids,
    ))
}

/// The order of details.
pub open spec fn better(list: Seq<DetailModel>) -> spec_fn(usize, usize) -> bool {
    |a: usize, b: usize| outranks(list[a as int], list[b as int])
}

/// No detail stands behind one that it outranks.
pub open spec fn best_first(list: Seq<DetailModel>) -> bool {
    forall|j: int, k: int| 0 <= j < k < list.len() ==> !outranks(#[trigger] list[k], #[trigger] list[j])
}

/// No two details have the same topic and the same citations.
pub open spec fn all_differ(list: Seq<DetailModel>) -> bool {
    forall|j: int, k: int|
        0 <= j < k < list.len() ==> !((#[trigger] list[j]).finding.topic == (
        #[trigger] list[k]).finding.topic && list[j].finding.evidence_ids
            == list[k].finding.evidence_ids)
}

/// At most twenty-four details, the best first, at most four of one file, and no
/// two of the same topic and citations.
pub open spec fn selection(list: Seq<DetailModel>) -> bool {
    &&& list.len() <= 24
    &&& best_first(list)
    &&& forall|file: Seq<char>| #[trigger] of_file(list, file, list.len()) <= 4
    &&& all_differ(list)
}

/// Every detail has one passage for each of its citations.
pub open spec fn backed(list: Seq<DetailModel>) -> bool {
    forall|k: int|
        0 <= k < list.len() ==> (#[trigger] list[k]).evidence.len()
            == list[k].finding.evidence_ids.len()
}

/// Details in order.
pub open spec fn ranked(list: Seq<DetailModel>) -> Seq<DetailModel> {
    ordered(list.len(), better(list)).map_values(|i: usize| list[i as int])
}

/// The file of a detail: that of its first passage.
pub open spec fn detail_file(d: DetailModel) -> Seq<char> {
    if d.evidence.len() > 0 {
        d.evidence[0].path@
    } else {
        Seq::empty()
    }
}

/// How many of the first `count` details are of a file.
pub open spec fn of_file(list: Seq<DetailModel>, file: Seq<char>, count: nat) -> nat
    decreases count,
{
    if count == 0 {
        0
    } else {
        of_file(list, file, (count - 1) as nat) + if detail_file(list[count - 1]) == file {
            1nat
        } else {
            0nat
        }
    }
}

/// A list holds a detail with the same topic and citations.
pub open spec fn has_detail(list: Seq<DetailModel>, d: DetailModel) -> bool {
    exists|k: int|
        0 <= k < list.len() && (#[trigger] list[k]).finding.topic == d.finding.topic
            && list[k].finding.evidence_ids == d.finding.evidence_ids
}

/// The first `count` details without repetition, at most four of a file.
pub open spec fn thinned(list: Seq<DetailModel>, count: nat) -> Seq<DetailModel>
    decreases count,
{
    if count == 0 {
        Seq::empty()
    } else {
        let so_far = thinned(list, (count - 1) as nat);
        let d = list[count - 1];
        if of_file(so_far, detail_file(d), so_far.len()) >= 4 || has_detail(so_far, d) {
            so_far
        } else {
            so_far.push(d)
        }
    }
}

/// The best details so far and those of a discovery, thinned to twenty-four.
pub open spec fn selected_details(
    best: Seq<DetailModel>,
    discovery: DiscoveryModel,
    terms: Seq<Seq<char>>,
) -> Seq<DetailModel> {
    let findings = discovery.brief.findings + discovery.details;
    let all = ranked(best + details_of(findings, discovery.evidence, terms, findings.len()));
    let thin = thinned(all, all.len());
    if thin.len() <= 24 {
        thin
    } else {
        thin.take(24)
    }
}

proof fn lemma_of_file_push(list: Seq<DetailModel>, d: DetailModel, file: Seq<char>, count: nat)
    requires
        count <= list.len(),
    ensures
        of_file(list.push(d), file, count) == of_file(list, file, count),
    decreases count,
{
    if count > 0 {
        lemma_of_file_push(list, d, file, (count - 1) as nat);
    }
}

proof fn lemma_lists_ordered(a: Seq<Seq<char>>, b: Seq<Seq<char>>)
    ensures
        lists_precede(a, b) ==> !lists_precede(b, a) && a != b,
        a != b ==> lists_precede(a, b) || lists_precede(b, a),
    decreases a.len(),
{
    if a.len() > 0 && b.len() > 0 {
        texts_are_ordered(a[0], b[0]);
        if a[0] == b[0] {
            lemma_lists_ordered(a.skip(1), b.skip(1));
            if a.skip(1) == b.skip(1) {
                assert(a =~= seq![a[0]] + a.skip(1));
                assert(b =~= seq![b[0]] + b.skip(1));
            }
        }
    } else if a.len() == 0 && b.len() == 0 {
        assert(a =~= b);
    }
}

proof fn lemma_lists_transitive(a: Seq<Seq<char>>, b: Seq<Seq<char>>, c: Seq<Seq<char>>)
    requires
        lists_precede(a, b),
        lists_precede(b, c),
    ensures
        lists_precede(a, c),
    decreases a.len(),
{
    if a.len() > 0 {
        texts_are_ordered(a[0], b[0]);
        texts_are_ordered(b[0], c[0]);
        if a[0] == b[0] && b[0] == c[0] {
            lemma_lists_transitive(a.skip(1), b.skip(1), c.skip(1));
        } else if a[0] != b[0] && b[0] != c[0] {
            the_order_of_texts_is_transitive(a[0], b[0], c[0]);
            texts_are_ordered(a[0], c[0]);
        }
    }
}

pub proof fn lemma_outranks(a: DetailModel, b: DetailModel, c: DetailModel)
    ensures
        outranks(a, b) ==> !outranks(b, a),
        !outranks(b, a) && !outranks(c, b) ==> !outranks(c, a),
{
    let (x, y, z) = (a.finding.evidence_ids, b.finding.evidence_ids, c.finding.evidence_ids);
    lemma_lists_ordered(x, y);
    lemma_lists_ordered(y, z);
    lemma_lists_ordered(x, z);
    if lists_precede(x, y) && lists_precede(y, z) {
        lemma_lists_transitive(x, y, z);
    }
}

pub proof fn lemma_ranked(list: Seq<DetailModel>)
    requires
        list.len() <= usize::MAX,
    ensures
        ranked(list).len() == list.len(),
        best_first(ranked(list)),
        forall|k: int| 0 <= k < ranked(list).len() ==> list.contains(#[trigger] ranked(list)[k]),
{
    let less = better(list);
    let order = ordered(list.len(), less);
    let r = ranked(list);
    assert(weak_order(list.len(), less)) by {
        assert forall|a: usize, b: usize| #[trigger] less(a, b) implies !less(b, a) by {
            lemma_outranks(list[a as int], list[b as int], list[b as int]);
        }
        assert forall|a: usize, b: usize, c: usize|
            !(#[trigger] less(b, a)) && !(#[trigger] less(c, b)) implies !less(c, a) by {
            lemma_outranks(list[a as int], list[b as int], list[c as int]);
        }
    }
    orderings_are_in_order(list.len(), less);
    lemma_ordered(list.len(), less);
    assert forall|j: int, k: int| 0 <= j < k < r.len() implies !outranks(
        #[trigger] r[k],
        #[trigger] r[j],
    ) by {
        assert(!less(order[k], order[j]));
    }
    assert forall|k: int| 0 <= k < r.len() implies list.contains(#[trigger] r[k]) by {
        assert(order.contains(order[k]));
        assert(r[k] == list[order[k] as int]);
    }
}

pub proof fn lemma_thinned_keeps(list: Seq<DetailModel>, count: nat)
    requires
        count <= list.len(),
    ensures
        forall|k: int|
            0 <= k < thinned(list, count).len() ==> list.take(count as int).contains(
                #[trigger] thinned(list, count)[k],
            ),
        best_first(list) ==> best_first(thinned(list, count)),
    decreases count,
{
    if count > 0 {
        lemma_thinned_keeps(list, (count - 1) as nat);
        let so_far = thinned(list, (count - 1) as nat);
        let now = thinned(list, count);
        let before = list.take(count - 1);
        let here = list.take(count as int);
        assert forall|k: int| 0 <= k < now.len() implies here.contains(#[trigger] now[k]) by {
            if k < so_far.len() {
                assert(now[k] == so_far[k]);
                let p = choose|p: int| 0 <= p < before.len() && before[p] == so_far[k];
                assert(here[p] == now[k]);
            } else {
                assert(here[count - 1] == now[k]);
            }
        }
        if best_first(list) {
            assert forall|j: int, k: int| 0 <= j < k < now.len() implies !outranks(
                #[trigger] now[k],
                #[trigger] now[j],
            ) by {
                assert(now[j] == so_far[j]);
                if k < so_far.len() {
                    assert(now[k] == so_far[k]);
                } else {
                    let p = choose|p: int| 0 <= p < before.len() && before[p] == so_far[j];
                    assert(list[p] == now[j]);
                    assert(list[count - 1] == now[k]);
                }
            }
        }
    }
}

proof fn lemma_details_backed(
    findings: Seq<FindingModel>,
    evidence: Seq<Evidence>,
    terms: Seq<Seq<char>>,
    count: nat,
)
    requires
        count <= findings.len(),
    ensures
        backed(details_of(findings, evidence, terms, count)),
        details_of(findings, evidence, terms, count).len() <= count,
    decreases count,
{
    if count > 0 {
        lemma_details_backed(findings, evidence, terms, (count - 1) as nat);
    }
}

/// Whatever was selected before, a selection is at most twenty-four details,
/// the best first, at most four of one file, no two of the same topic and
/// citations. Where the earlier details have a passage for each citation, as at
/// the start and after every selection, so have the details of the new one.
pub proof fn selections_are_ranked(
    best: Seq<DetailModel>,
    discovery: DiscoveryModel,
    terms: Seq<Seq<char>>,
)
    requires
        best.len() + details_of(
            discovery.brief.findings + discovery.details,
            discovery.evidence,
            terms,
            (discovery.brief.findings + discovery.details).len(),
        ).len() <= usize::MAX,
    ensures
        selection(selected_details(best, discovery, terms)),
        backed(best) ==> backed(selected_details(best, discovery, terms)),
{
    let findings = discovery.brief.findings + discovery.details;
    let more = details_of(findings, discovery.evidence, terms, findings.len());
    let list = best + more;
    lemma_details_backed(findings, discovery.evidence, terms, findings.len());
    lemma_ranked(list);
    let all = ranked(list);
    let thin = thinned(all, all.len());
    lemma_thinned_keeps(all, all.len());
    lemma_thinned(all, all.len(), Seq::empty());
    let r = selected_details(best, discovery, terms);
    assert forall|file: Seq<char>| #[trigger] of_file(r, file, r.len()) <= 4 by {
        selections_are_bounded(best, discovery, terms, file);
    }
    assert forall|k: int| 0 <= k < r.len() implies r[k] == thin[k] by {}
    if backed(best) {
        assert forall|k: int| 0 <= k < r.len() implies (#[trigger] r[k]).evidence.len()
            == r[k].finding.evidence_ids.len() by {
            assert(r[k] == thin[k]);
            assert(all.take(all.len() as int) =~= all);
            let p = choose|p: int| 0 <= p < all.len() && all[p] == thin[k];
            assert(list.contains(all[p]));
            let q = choose|q: int| 0 <= q < list.len() && list[q] == all[p];
            if q >= best.len() {
                assert(list[q] == more[q - best.len()]);
            }
        }
    }
}

proof fn lemma_thinned(list: Seq<DetailModel>, count: nat, file: Seq<char>)
    requires
        count <= list.len(),
    ensures
        of_file(thinned(list, count), file, thinned(list, count).len()) <= 4,
        all_differ(thinned(list, count)),
    decreases count,
{
    if count > 0 {
        lemma_thinned(list, (count - 1) as nat, file);
        let so_far = thinned(list, (count - 1) as nat);
        let d = list[count - 1];
        lemma_of_file_push(so_far, d, file, so_far.len());
        let now = thinned(list, count);
        if now.len() > so_far.len() {
            assert forall|j: int, k: int| 0 <= j < k < now.len() implies !((
            #[trigger] now[j]).finding.topic == (#[trigger] now[k]).finding.topic
                && now[j].finding.evidence_ids == now[k].finding.evidence_ids) by {
                assert(now[j] == so_far[j]);
                if k < so_far.len() {
                    assert(now[k] == so_far[k]);
                }
            }
        }
    }
}

/// A selection holds at most twenty-four details, at most four of one file.
pub proof fn selections_are_bounded(
    best: Seq<DetailModel>,
    discovery: DiscoveryModel,
    terms: Seq<Seq<char>>,
    file: Seq<char>,
)
    ensures
        selected_details(best, discovery, terms).len() <= 24,
        of_file(
            selected_details(best, discovery, terms),
            file,
            selected_details(best, discovery, terms).len(),
        ) <= 4,
{
    let findings = discovery.brief.findings + discovery.details;
    let all = ranked(best + details_of(findings, discovery.evidence, terms, findings.len()));
    let thin = thinned(all, all.len());
    lemma_thinned(all, all.len(), file);
    if thin.len() > 24 {
        lemma_of_file_take(thin, file, 24, 24);
        lemma_of_file_monotone(thin, file, 24, thin.len());
    }
}

proof fn lemma_of_file_take(list: Seq<DetailModel>, file: Seq<char>, to: int, count: nat)
    requires
        count <= to <= list.len(),
    ensures
        of_file(list.take(to), file, count) == of_file(list, file, count),
    decreases count,
{
    if count > 0 {
        lemma_of_file_take(list, file, to, (count - 1) as nat);
    }
}

proof fn lemma_of_file_monotone(list: Seq<DetailModel>, file: Seq<char>, a: nat, b: nat)
    requires
        a <= b,
    ensures
        of_file(list, file, a) <= of_file(list, file, b),
    decreases b - a,
{
    if a < b {
        lemma_of_file_monotone(list, file, a, (b - 1) as nat);
    }
}

/// The cited ones of some passages.
pub fn passages_cited(evidence: &Vec<Evidence>, ids: &Vec<String>) -> (r: Vec<Evidence>)
    ensures
        r@ == cited_passages(evidence@, texts(ids@), evidence@.len()),
{
    let mut r: Vec<Evidence> = Vec::new();
    let mut i: usize = 0;
    while i < evidence.len()
        invariant
            i <= evidence@.len(),
            r@ == cited_passages(evidence@, texts(ids@), i as nat),
        decreases evidence@.len() - i,
    {
        if list_has(ids, evidence[i].id.as_str()) {
            r.push(evidence[i].clone());
        }
        i += 1;
    }
    r
}

/// How many terms stand in a text.
pub fn count_terms(text: &str, terms: &Vec<String>) -> (r: usize)
    ensures
        r == term_score(text@, texts(terms@), terms@.len()),
{
    let ghost ts = texts(terms@);
    let mut score: usize = 0;
    let mut i: usize = 0;
    while i < terms.len()
        invariant
            i <= terms@.len(),
            ts == texts(terms@),
            score <= i,
            score == term_score(text@, ts, i as nat),
        decreases terms@.len() - i,
    {
        assert(ts[i as int] == terms@[i as int]@);
        if has(text, terms[i].as_str()) {
            score += 1;
        }
        i += 1;
    }
    score
}

/// The paths of some passages.
fn list_paths(list: &Vec<Evidence>) -> (r: Vec<String>)
    ensures
        texts(r@) == paths_of(list@),
{
    let ghost goal = paths_of(list@);
    let mut r: Vec<String> = Vec::new();
    let mut i: usize = 0;
    assert(texts(r@) =~= goal.take(0));
    while i < list.len()
        invariant
            i <= list@.len(),
            goal == paths_of(list@),
            texts(r@) == goal.take(i as int),
        decreases list@.len() - i,
    {
        let p = list[i].path.clone();
        assert(texts(r@.push(p)) =~= texts(r@).push(p@));
        assert(goal.take(i + 1) =~= goal.take(i as int).push(p@));
        r.push(p);
        i += 1;
    }
    assert(goal.take(i as int) =~= goal);
    r
}

/// Adds the details of some findings.
fn add_details(
    best: &mut Vec<Detail>,
    findings: &Vec<Finding>,
    evidence: &Vec<Evidence>,
    terms: &Vec<String>,
)
    ensures
        detail_models(final(best)@) == detail_models(old(best)@) + details_of(
            finding_models(findings@),
            evidence@,
            texts(terms@),
            findings@.len(),
        ),
{
    let ghost start = detail_models(best@);
    let ghost fs = finding_models(findings@);
    let ghost ts = texts(terms@);
    let mut i: usize = 0;
    assert(start + details_of(fs, evidence@, ts, 0) =~= start);
    while i < findings.len()
        invariant
            i <= findings@.len(),
            fs == finding_models(findings@),
            ts == texts(terms@),
            detail_models(best@) == start + details_of(fs, evidence@, ts, i as nat),
        decreases findings@.len() - i,
    {
        let finding = &findings[i];
        assert(fs[i as int] == finding@);
        let cited = passages_cited(evidence, &finding.evidence_ids);
        assert(texts(finding.evidence_ids@).len() == finding.evidence_ids@.len());
        if cited.len() == finding.evidence_ids.len() {
            let mut text = finding.topic.clone();
            text.push_str(" ");
            text.push_str(finding.observation.as_str());
            text.push_str(" ");
            text.push_str(join_with(&list_paths(&cited), " ").as_str());
            let lower = to_lowercase(text.as_str());
            let d = Detail {
                score: count_terms(lower.as_str(), terms),
                finding: finding.clone(),
                evidence: cited,
            };
            proof {
                assert(ts.len() == terms@.len());
                assert(detail_models(best@.push(d)) =~= detail_models(best@).push(d@));
                assert(start + details_of(fs, evidence@, ts, (i + 1) as nat) =~= (start
                    + details_of(fs, evidence@, ts, i as nat)).push(d@));
            }
            best.push(d);
        }
        i += 1;
    }
}

/// Whether one list of texts comes before another.
fn lists_before(a: &Vec<String>, b: &Vec<String>) -> (r: bool)
    ensures
        r == lists_precede(texts(a@), texts(b@)),
{
    let ghost x = texts(a@);
    let ghost y = texts(b@);
    let mut i: usize = 0;
    assert(x.skip(0) =~= x);
    assert(y.skip(0) =~= y);
    loop
        invariant
            i <= a@.len(),
            i <= b@.len(),
            x == texts(a@),
            y == texts(b@),
            lists_precede(x.skip(i as int), y.skip(i as int)) == lists_precede(x, y),
        decreases a@.len() - i,
    {
        if i == b.len() {
            return false;
        }
        if i == a.len() {
            return true;
        }
        assert(x[i as int] == a@[i as int]@);
        assert(y[i as int] == b@[i as int]@);
        if !same(a[i].as_str(), b[i].as_str()) {
            return before(a[i].as_str(), b[i].as_str());
        }
        assert(x.skip(i as int).skip(1) =~= x.skip(i + 1));
        assert(y.skip(i as int).skip(1) =~= y.skip(i + 1));
        i += 1;
    }
}

/// Whether one detail comes before another.
fn is_better(list: &Vec<Detail>, a: usize, b: usize) -> (r: bool)
    requires
        a < list@.len(),
        b < list@.len(),
    ensures
        r == better(detail_models(list@))(a, b),
{
    list[a].score > list[b].score || (list[a].score == list[b].score && lists_before(
        &list[a].finding.evidence_ids,
        &list[b].finding.evidence_ids,
    ))
}

/// The order of details.
fn rank_details(list: &Vec<Detail>) -> (r: Vec<usize>)
    ensures
        r@ == ordered(list@.len(), better(detail_models(list@))),
        forall|k: int| 0 <= k < r@.len() ==> (#[trigger] r@[k]) < list@.len(),
        r@.len() == list@.len(),
{
    let ghost less = better(detail_models(list@));
    let count: usize = list.len();
    let mut r: Vec<usize> = Vec::new();
    let mut x: usize = 0;
    while x < count
        invariant
            x <= count == list@.len(),
            less == better(detail_models(list@)),
            r@ == ordered(x as nat, less),
        decreases count - x,
    {
        proof {
            lemma_ordered(x as nat, less);
            assert forall|k: int| 0 <= k < r@.len() implies #[trigger] r@[k] < count by {
                assert(r@.contains(r@[k]));
            }
        }
        let mut at: usize = r.len();
        while at > 0 && is_better(list, x, r[at - 1])
            invariant
                at <= r@.len(),
                x < count == list@.len(),
                less == better(detail_models(list@)),
                forall|k: int| 0 <= k < r@.len() ==> #[trigger] r@[k] < count,
                forall|k: int| at <= k < r@.len() ==> less(x, #[trigger] r@[k]),
            decreases at,
        {
            at -= 1;
        }
        proof {
            lemma_insert_at(r@, x, less, at as int);
        }
        r.insert(at, x);
        x += 1;
    }
    proof {
        lemma_ordered(count as nat, less);
        assert forall|k: int| 0 <= k < r@.len() implies #[trigger] r@[k] < count by {
            assert(r@.contains(r@[k]));
        }
    }
    r
}

/// A copy of a detail.
fn copy_detail(d: &Detail) -> (r: Detail)
    ensures
        r@ == d@,
{
    Detail { score: d.score, finding: d.finding.clone(), evidence: copy_evidence(&d.evidence) }
}

/// The file of a detail.
fn file_of(d: &Detail) -> (r: String)
    ensures
        r@ == detail_file(d@),
{
    if d.evidence.len() > 0 {
        d.evidence[0].path.clone()
    } else {
        String::new()
    }
}

/// Whether a list has room for a detail: fewer than four of its file, and none
/// with the same topic and citations.
fn has_room(list: &Vec<Detail>, d: &Detail) -> (r: bool)
    ensures
        r == !(of_file(detail_models(list@), detail_file(d@), list@.len()) >= 4 || has_detail(
            detail_models(list@),
            d@,
        )),
{
    let ghost ms = detail_models(list@);
    let file = file_of(d);
    let mut count: usize = 0;
    let mut k: usize = 0;
    while k < list.len()
        invariant
            k <= list@.len(),
            ms == detail_models(list@),
            file@ == detail_file(d@),
            count <= k,
            count == of_file(ms, file@, k as nat),
            forall|j: int|
                0 <= j < k ==> !((#[trigger] ms[j]).finding.topic == d@.finding.topic
                    && ms[j].finding.evidence_ids == d@.finding.evidence_ids),
        decreases list@.len() - k,
    {
        let other = &list[k];
        assert(ms[k as int] == other@);
        let own = file_of(other);
        if same(own.as_str(), file.as_str()) {
            count += 1;
        }
        if same(other.finding.topic.as_str(), d.finding.topic.as_str()) && same_texts(
            &other.finding.evidence_ids,
            &d.finding.evidence_ids,
        ) {
            assert(ms[k as int].finding.topic == d@.finding.topic);
            return false;
        }
        k += 1;
    }
    assert(!has_detail(ms, d@));
    count < 4
}

/// Adds the findings of a reading that match the terms of a purpose, and keeps
/// the best: at most four of a file, and twenty-four in all. From an empty list
/// on, every detail has a passage for each of its citations.
pub fn select_details(best: &mut Vec<Detail>, discovery: &Discovery, terms: &Vec<String>)
    ensures
        detail_models(final(best)@) == selected_details(
            detail_models(old(best)@),
            discovery@,
            texts(terms@),
        ),
        selection(detail_models(final(best)@)),
        backed(detail_models(old(best)@)) ==> backed(detail_models(final(best)@)),
        old(best)@.len() == 0 ==> backed(detail_models(final(best)@)),
{
    let ghost start = detail_models(best@);
    let ghost ts = texts(terms@);
    let ghost a = finding_models(discovery.brief.findings@);
    let ghost b = finding_models(discovery.details@);
    add_details(best, &discovery.brief.findings, &discovery.evidence, terms);
    add_details(best, &discovery.details, &discovery.evidence, terms);
    let ghost all = detail_models(best@);
    proof {
        lemma_details_concat(a, b, discovery.evidence@, ts, b.len());
        lemma_details_prefix(a, b, discovery.evidence@, ts, a.len());
        assert(all =~= start + details_of(a + b, discovery.evidence@, ts, (a + b).len()));
    }
    let count: usize = best.len();
    proof {
        assert(all.len() == count);
        selections_are_ranked(start, discovery@, ts);
    }
    let order = rank_details(best);
    let ghost sorted = ranked(all);
    let mut kept: Vec<Detail> = Vec::new();
    let mut k: usize = 0;
    assert(detail_models(kept@) =~= Seq::empty());
    while k < order.len()
        invariant
            k <= order@.len(),
            order@.len() == best@.len(),
            all == detail_models(best@),
            sorted == order@.map_values(|i: usize| all[i as int]),
            forall|k: int| 0 <= k < order@.len() ==> (#[trigger] order@[k]) < best@.len(),
            detail_models(kept@) == thinned(sorted, k as nat),
        decreases order@.len() - k,
    {
        let d = &best[order[k]];
        assert(sorted[k as int] == d@);
        assert(detail_models(kept@).len() == kept@.len());
        if has_room(&kept, d) {
            let copy = copy_detail(d);
            assert(detail_models(kept@.push(copy)) =~= detail_models(kept@).push(copy@));
            kept.push(copy);
        }
        k += 1;
    }
    assert(detail_models(kept@).len() == kept@.len());
    if kept.len() > 24 {
        let ghost whole = detail_models(kept@);
        kept.truncate(24);
        assert(detail_models(kept@) =~= whole.take(24));
    }
    *best = kept;
}

proof fn lemma_details_prefix(
    a: Seq<FindingModel>,
    b: Seq<FindingModel>,
    evidence: Seq<Evidence>,
    terms: Seq<Seq<char>>,
    count: nat,
)
    requires
        count <= a.len(),
    ensures
        details_of(a + b, evidence, terms, count) == details_of(a, evidence, terms, count),
    decreases count,
{
    if count > 0 {
        lemma_details_prefix(a, b, evidence, terms, (count - 1) as nat);
        assert((a + b)[count - 1] == a[count - 1]);
    }
}

proof fn lemma_details_concat(
    a: Seq<FindingModel>,
    b: Seq<FindingModel>,
    evidence: Seq<Evidence>,
    terms: Seq<Seq<char>>,
    count: nat,
)
    requires
        count <= b.len(),
    ensures
        details_of(a + b, evidence, terms, a.len() + count) == details_of(
            a,
            evidence,
            terms,
            a.len(),
        ) + details_of(b, evidence, terms, count),
    decreases count,
{
    if count == 0 {
        lemma_details_prefix(a, b, evidence, terms, a.len());
        assert(details_of(a, evidence, terms, a.len()) + details_of(b, evidence, terms, 0)
            =~= details_of(a, evidence, terms, a.len()));
    } else {
        lemma_details_concat(a, b, evidence, terms, (count - 1) as nat);
        assert((a + b)[a.len() + count - 1] == b[count - 1]);
        let before_a = details_of(a, evidence, terms, a.len());
        let before_b = details_of(b, evidence, terms, (count - 1) as nat);
        let now_b = details_of(b, evidence, terms, count);
        if now_b.len() > before_b.len() {
            assert(before_a + now_b =~= (before_a + before_b).push(now_b.last()));
        }
        assert(details_of(a + b, evidence, terms, a.len() + count) =~= before_a + now_b);
    }
}

// ---------------------------------------------------------------------------
// Discoveries
// ---------------------------------------------------------------------------

/// What is said of a purpose that could not be summed up.
pub open spec fn unresolved_note() -> Seq<char> {
    "목적별 추가 요약을 검증하지 못했습니다. 보존한 소스 관찰로 진행하며 미확인 연결은 본문 작성에서 다시 확인합니다."@
}

/// A discovery that goes on with what was read before: its open questions
/// become uncertainties, seven at most, and a note says why.
pub open spec fn recovered(prior: DiscoveryModel) -> DiscoveryModel {
    let open = prior.brief.uncertainties + prior.brief.followup_queries;
    let kept = if open.len() > 7 {
        open.take(7)
    } else {
        open
    };
    DiscoveryModel {
        brief: BriefModel {
            findings: prior.brief.findings,
            uncertainties: kept.push(unresolved_note()),
            followup_queries: Seq::empty(),
        },
        evidence: prior.evidence,
        details: prior.details,
        validation_unresolved: true,
    }
}

/// Goes on with what was read before.
pub fn recover(prior: &Discovery) -> (r: Discovery)
    ensures
        r@ == recovered(prior@),
{
    let mut open = copy_texts(&prior.brief.uncertainties);
    let ghost first = texts(prior.brief.uncertainties@);
    let ghost more = texts(prior.brief.followup_queries@);
    let mut i: usize = 0;
    assert(texts(open@) =~= first + more.take(0));
    while i < prior.brief.followup_queries.len()
        invariant
            i <= prior.brief.followup_queries@.len(),
            more == texts(prior.brief.followup_queries@),
            texts(open@) == first + more.take(i as int),
        decreases prior.brief.followup_queries@.len() - i,
    {
        let q = prior.brief.followup_queries[i].clone();
        assert(texts(open@.push(q)) =~= texts(open@).push(q@));
        assert(first + more.take(i + 1) =~= (first + more.take(i as int)).push(q@));
        open.push(q);
        i += 1;
    }
    assert(more.take(i as int) =~= more);
    assert(texts(open@).len() == open@.len());
    if open.len() > 7 {
        let ghost whole = texts(open@);
        open.truncate(7);
        assert(texts(open@) =~= whole.take(7));
    }
    let note = String::from_str(
        "목적별 추가 요약을 검증하지 못했습니다. 보존한 소스 관찰로 진행하며 미확인 연결은 본문 작성에서 다시 확인합니다.",
    );
    assert(texts(open@.push(note)) =~= texts(open@).push(note@));
    open.push(note);
    let none: Vec<String> = Vec::new();
    assert(texts(none@) =~= Seq::empty());
    Discovery {
        brief: SourceBrief {
            findings: copy_findings(&prior.brief.findings),
            uncertainties: open,
            followup_queries: none,
        },
        evidence: copy_evidence(&prior.evidence),
        details: copy_findings(&prior.details),
        validation_unresolved: true,
    }
}

/// A finding of the brief has this topic.
pub open spec fn has_topic(findings: Seq<FindingModel>, topic: Seq<char>) -> bool {
    exists|k: int| 0 <= k < findings.len() && (#[trigger] findings[k]).topic == topic
}

/// The first `count` findings whose topic the brief does not take up again.
pub open spec fn not_replaced(
    findings: Seq<FindingModel>,
    brief: Seq<FindingModel>,
    count: nat,
) -> Seq<FindingModel>
    decreases count,
{
    if count == 0 {
        Seq::empty()
    } else {
        let so_far = not_replaced(findings, brief, (count - 1) as nat);
        if has_topic(brief, findings[count - 1].topic) {
            so_far
        } else {
            so_far.push(findings[count - 1])
        }
    }
}

/// A new brief over what was known: earlier findings stay as details unless the
/// brief takes up their topic again.
pub open spec fn retained(
    prior: DiscoveryModel,
    brief: BriefModel,
    evidence: Seq<Evidence>,
) -> DiscoveryModel {
    let known = all_findings(seq![prior.brief.findings, prior.details], 2);
    DiscoveryModel {
        brief,
        evidence,
        details: not_replaced(known, brief.findings, known.len()),
        validation_unresolved: prior.validation_unresolved,
    }
}

/// Whether a finding of the brief has this topic.
fn takes_up(findings: &Vec<Finding>, topic: &str) -> (r: bool)
    ensures
        r == has_topic(finding_models(findings@), topic@),
{
    let ghost ms = finding_models(findings@);
    let mut k: usize = 0;
    while k < findings.len()
        invariant
            k <= findings@.len(),
            ms == finding_models(findings@),
            forall|j: int| 0 <= j < k ==> (#[trigger] ms[j]).topic != topic@,
        decreases findings@.len() - k,
    {
        if same(findings[k].topic.as_str(), topic) {
            assert(ms[k as int].topic == topic@);
            return true;
        }
        k += 1;
    }
    false
}

/// Puts a new brief over what was known.
pub fn retain_details(prior: &Discovery, brief: SourceBrief, evidence: Vec<Evidence>) -> (r: Discovery)
    ensures
        r@ == retained(prior@, brief@, evidence@),
{
    let mut groups: Vec<Vec<Finding>> = Vec::new();
    groups.push(copy_findings(&prior.brief.findings));
    groups.push(copy_findings(&prior.details));
    assert(finding_lists(groups@) =~= seq![
        finding_models(prior.brief.findings@),
        finding_models(prior.details@),
    ]);
    let known = merge_findings(&groups);
    let ghost ks = finding_models(known@);
    let ghost bs = finding_models(brief.findings@);
    let mut details: Vec<Finding> = Vec::new();
    let mut i: usize = 0;
    assert(finding_models(details@) =~= Seq::empty());
    while i < known.len()
        invariant
            i <= known@.len(),
            ks == finding_models(known@),
            bs == finding_models(brief.findings@),
            finding_models(details@) == not_replaced(ks, bs, i as nat),
        decreases known@.len() - i,
    {
        assert(ks[i as int] == known@[i as int]@);
        if !takes_up(&brief.findings, known[i].topic.as_str()) {
            let f = known[i].clone();
            assert(finding_models(details@.push(f)) =~= finding_models(details@).push(f@));
            details.push(f);
        }
        i += 1;
    }
    Discovery { brief, evidence, details, validation_unresolved: prior.validation_unresolved }
}

/// The passages of a discovery that fit in a limit, in turns of the files.
pub fn pack(discovery: &Discovery, limit: usize) -> (r: Vec<Evidence>)
    ensures
        r@ == packed_by_file(discovery@.evidence, limit as nat),
{
    pack_by_file(&discovery.evidence, limit)
}

/// The findings of a root and the details of the leaves, with the passages that
/// they rest on.
pub open spec fn seeded(whole: DiscoveryModel, best: Seq<DetailModel>) -> DiscoveryModel {
    let groups = seq![whole.evidence] + best.map_values(|d: DetailModel| d.evidence);
    DiscoveryModel {
        brief: whole.brief,
        details: best.map_values(|d: DetailModel| d.finding),
        evidence: merged(groups, groups.len()),
        validation_unresolved: false,
    }
}

/// A copy of a brief.
pub fn copy_brief(brief: &SourceBrief) -> (r: SourceBrief)
    ensures
        r@ == brief@,
{
    SourceBrief {
        findings: copy_findings(&brief.findings),
        uncertainties: copy_texts(&brief.uncertainties),
        followup_queries: copy_texts(&brief.followup_queries),
    }
}

/// What a purpose reading starts from: the brief of the whole source, with the
/// best details of its leaves.
pub fn seed(whole: &Discovery, best: &Vec<Detail>) -> (r: Discovery)
    ensures
        r@ == seeded(whole@, detail_models(best@)),
{
    let ghost bs = detail_models(best@);
    let ghost found = bs.map_values(|d: DetailModel| d.finding);
    let ghost goal = seq![whole.evidence@] + bs.map_values(|d: DetailModel| d.evidence);
    let mut groups: Vec<Vec<Evidence>> = Vec::new();
    let mut details: Vec<Finding> = Vec::new();
    groups.push(copy_evidence(&whole.evidence));
    let mut i: usize = 0;
    assert(evidence_lists(groups@) =~= goal.take(1));
    assert(finding_models(details@) =~= found.take(0));
    while i < best.len()
        invariant
            i <= best@.len(),
            bs == detail_models(best@),
            found == bs.map_values(|d: DetailModel| d.finding),
            goal == seq![whole.evidence@] + bs.map_values(|d: DetailModel| d.evidence),
            groups@.len() == i + 1,
            evidence_lists(groups@) == goal.take(i + 1),
            finding_models(details@) == found.take(i as int),
        decreases best@.len() - i,
    {
        assert(bs[i as int] == best@[i as int]@);
        let list = copy_evidence(&best[i].evidence);
        let f = best[i].finding.clone();
        proof {
            assert(goal[i + 1] == list@);
            assert(evidence_lists(groups@.push(list)) =~= evidence_lists(groups@).push(list@));
            assert(goal.take(i + 2) =~= goal.take(i + 1).push(list@));
            assert(finding_models(details@.push(f)) =~= finding_models(details@).push(f@));
            assert(found.take(i + 1) =~= found.take(i as int).push(f@));
        }
        groups.push(list);
        details.push(f);
        i += 1;
    }
    proof {
        assert(goal.take(i + 1) =~= goal);
        assert(found.take(i as int) =~= found);
        assert(goal.len() == groups@.len());
    }
    Discovery {
        brief: copy_brief(&whole.brief),
        evidence: merge_evidence(&groups),
        details,
        validation_unresolved: false,
    }
}

} // verus!
