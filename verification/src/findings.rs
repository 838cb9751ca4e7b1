//! What a reading of source passages found, and the rules for accepting it.

use vstd::prelude::*;

use crate::model::Evidence;
use crate::order::{lemma_positions, positions};
use crate::text::{
    bounded, bounded_text, has_prefix, is_blank, is_hex_digit, list_has, starts_with, texts, to_chars, trim,
};

verus! {

/// How many findings a reading is asked for.
pub const MAX_FINDINGS: usize = 12;

/// How many passages one finding is asked to cite.
pub const MAX_EVIDENCE_IDS: usize = 12;

/// How many findings are still taken: the count is a target, and what a brief
/// must fit is its budget in bytes.
pub const ACCEPTED_FINDINGS: usize = 24;

/// How many citations of one finding are still taken.
pub const ACCEPTED_EVIDENCE_IDS: usize = 24;

/// How many unresolved links a reading is asked to record.
pub const MAX_UNCERTAINTIES: usize = 8;

/// How many unresolved links are still taken.
pub const ACCEPTED_UNCERTAINTIES: usize = 16;

/// How many source anchors one planned section may carry.
pub const MAX_SECTION_ANCHORS: usize = 8;

/// Whether a finding claims something of execution, or only of intent.
#[derive(Clone, Copy, Debug, PartialEq, Eq, Structural)]
pub enum FindingKind {
    Runtime,
    Context,
}

/// One observation with the passages that it rests on.
pub struct Finding {
    pub topic: String,
    pub observation: String,
    pub kind: FindingKind,
    pub evidence_ids: Vec<String>,
}

/// What one reading found.
pub struct SourceBrief {
    pub findings: Vec<Finding>,
    pub uncertainties: Vec<String>,
    pub followup_queries: Vec<String>,
}

/// What reading the whole source for a purpose found.
pub struct Discovery {
    pub brief: SourceBrief,
    pub evidence: Vec<Evidence>,
    pub details: Vec<Finding>,
    pub validation_unresolved: bool,
}

/// The value of a finding.
pub struct FindingModel {
    pub topic: Seq<char>,
    pub observation: Seq<char>,
    pub kind: FindingKind,
    pub evidence_ids: Seq<Seq<char>>,
}

impl View for Finding {
    type V = FindingModel;

    open spec fn view(&self) -> FindingModel {
        FindingModel {
            topic: self.topic@,
            observation: self.observation@,
            kind: self.kind,
            evidence_ids: texts(self.evidence_ids@),
        }
    }
}

impl Clone for Finding {
    fn clone(&self) -> (r: Self)
        ensures
            r@ == self@,
    {
        Finding {
            topic: self.topic.clone(),
            observation: self.observation.clone(),
            kind: self.kind,
            evidence_ids: copy_texts(&self.evidence_ids),
        }
    }
}

/// The values of a list of findings.
pub open spec fn finding_models(v: Seq<Finding>) -> Seq<FindingModel> {
    v.map_values(|f: Finding| f@)
}

/// A copy of a list of texts.
pub fn copy_texts(list: &Vec<String>) -> (r: Vec<String>)
    ensures
        r@ == list@,
{
    let mut r: Vec<String> = Vec::new();
    let mut i: usize = 0;
    while i < list.len()
        invariant
            i <= list@.len(),
            r@ == list@.take(i as int),
        decreases list@.len() - i,
    {
        r.push(list[i].clone());
        assert(list@.take(i + 1) =~= list@.take(i as int).push(list@[i as int]));
        i += 1;
    }
    assert(list@.take(i as int) =~= list@);
    r
}

// ---------------------------------------------------------------------------
// Citations
// ---------------------------------------------------------------------------

/// Why a list of citations is refused. Numbers are positions in the list.
#[derive(Clone, Copy, Debug, PartialEq, Eq, Structural)]
pub enum IdFault {
    /// The list is empty, or too long.
    Count,
    /// This is not the beginning of a hash.
    NotAnId(usize),
    /// This names no supplied passage, or several.
    Unknown(usize),
    /// This names a passage that an earlier one names.
    Repeated(usize),
}

/// The ids of a list of passages.
pub open spec fn evidence_ids(evidence: Seq<Evidence>) -> Seq<Seq<char>> {
    evidence.map_values(|e: Evidence| e.id@)
}

/// Between eight and sixty-four hexadecimal digits.
pub open spec fn is_id(id: Seq<char>) -> bool {
    8 <= id.len() <= 64 && forall|i: int| 0 <= i < id.len() ==> is_hex_digit(#[trigger] id[i])
}

/// The positions of the passages whose id begins with `id`.
pub open spec fn named_by(known: Seq<Seq<char>>, id: Seq<char>) -> Seq<usize> {
    positions(|i: int| starts_with(known[i], id), known.len())
}

/// The passages that the first `count` citations name, or the first fault.
pub open spec fn resolve(
    ids: Seq<Seq<char>>,
    known: Seq<Seq<char>>,
    count: nat,
) -> Result<Seq<Seq<char>>, IdFault>
    decreases count,
{
    if count == 0 {
        Ok(Seq::empty())
    } else {
        match resolve(ids, known, (count - 1) as nat) {
            Err(fault) => Err(fault),
            Ok(done) => {
                let at = (count - 1) as usize;
                let id = ids[count - 1];
                let named = named_by(known, id);
                if !is_id(id) {
                    Err(IdFault::NotAnId(at))
                } else if named.len() != 1 {
                    Err(IdFault::Unknown(at))
                } else if done.contains(known[named[0] as int]) {
                    Err(IdFault::Repeated(at))
                } else {
                    Ok(done.push(known[named[0] as int]))
                }
            },
        }
    }
}

/// The passages that a list of at most `accepted` citations names in full.
pub open spec fn resolve_all(
    ids: Seq<Seq<char>>,
    known: Seq<Seq<char>>,
    accepted: nat,
) -> Result<Seq<Seq<char>>, IdFault> {
    if ids.len() == 0 || ids.len() > accepted {
        Err(IdFault::Count)
    } else {
        resolve(ids, known, ids.len())
    }
}

/// A fault among the first citations is the fault of all of them.
proof fn lemma_resolve_stops(ids: Seq<Seq<char>>, known: Seq<Seq<char>>, count: nat, all: nat)
    requires
        count <= all,
    ensures
        resolve(ids, known, count) is Err ==> resolve(ids, known, all) == resolve(
            ids,
            known,
            count,
        ),
    decreases all - count,
{
    if count < all {
        lemma_resolve_stops(ids, known, count, (all - 1) as nat);
    }
}

/// Resolved citations are distinct ids of supplied passages, one for each
/// citation and beginning with it.
pub proof fn resolved_ids_are_distinct(ids: Seq<Seq<char>>, known: Seq<Seq<char>>, count: nat)
    requires
        count <= ids.len() <= usize::MAX,
        known.len() <= usize::MAX,
    ensures
        resolve(ids, known, count) matches Ok(full) ==> {
            &&& full.len() == count
            &&& full.no_duplicates()
            &&& forall|i: int|
                0 <= i < count ==> known.contains(#[trigger] full[i]) && starts_with(
                    full[i],
                    ids[i],
                )
        },
    decreases count,
{
    if count > 0 {
        resolved_ids_are_distinct(ids, known, (count - 1) as nat);
        let id = ids[count - 1];
        let keep = |i: int| starts_with(known[i], id);
        lemma_positions(keep, known.len());
        if named_by(known, id).len() == 1 {
            assert(keep(named_by(known, id)[0] as int));
        }
    }
}

/// Whether a text is between eight and sixty-four hexadecimal digits.
fn is_id_text(id: &str) -> (r: bool)
    ensures
        r == is_id(id@),
{
    let chars = to_chars(id);
    if chars.len() < 8 || chars.len() > 64 {
        return false;
    }
    let mut i: usize = 0;
    while i < chars.len()
        invariant
            i <= chars@.len(),
            chars@ == id@,
            forall|k: int| 0 <= k < i ==> is_hex_digit(#[trigger] chars@[k]),
        decreases chars@.len() - i,
    {
        let c = chars[i];
        if !(('0' <= c && c <= '9') || ('a' <= c && c <= 'f') || ('A' <= c && c <= 'F')) {
            assert(!is_hex_digit(id@[i as int]));
            return false;
        }
        i += 1;
    }
    true
}

/// Resolves citations by unambiguous beginnings to the full ids of the supplied
/// passages.
pub fn resolve_ids(ids: &Vec<String>, evidence: &Vec<Evidence>, accepted: usize) -> (r: Result<
    Vec<String>,
    IdFault,
>)
    ensures
        match resolve_all(texts(ids@), evidence_ids(evidence@), accepted as nat) {
            Ok(full) => r is Ok && texts(r->Ok_0@) == full,
            Err(fault) => r == Err::<Vec<String>, IdFault>(fault),
        },
{
    if ids.len() == 0 || ids.len() > accepted {
        return Err(IdFault::Count);
    }
    let ghost known = evidence_ids(evidence@);
    let ghost given = texts(ids@);
    let mut full: Vec<String> = Vec::new();
    let mut at: usize = 0;
    assert(texts(full@) =~= Seq::empty());
    while at < ids.len()
        invariant
            at <= ids@.len(),
            known == evidence_ids(evidence@),
            given == texts(ids@),
            resolve(given, known, at as nat) == Ok::<Seq<Seq<char>>, IdFault>(texts(full@)),
            0 < ids@.len() <= accepted,
        decreases ids@.len() - at,
    {
        proof {
            lemma_resolve_stops(given, known, (at + 1) as nat, given.len());
            assert(given[at as int] == ids@[at as int]@);
        }
        if !is_id_text(ids[at].as_str()) {
            return Err(IdFault::NotAnId(at));
        }
        let ghost keep = |i: int| starts_with(known[i], given[at as int]);
        let mut matches: usize = 0;
        let mut last: usize = 0;
        let mut i: usize = 0;
        while i < evidence.len()
            invariant
                i <= evidence@.len(),
                at < ids@.len(),
                known == evidence_ids(evidence@),
                given == texts(ids@),
                keep == (|i: int| starts_with(known[i], given[at as int])),
                matches == positions(keep, i as nat).len(),
                matches <= i,
                matches > 0 ==> last == positions(keep, i as nat).last() && last < i,
            decreases evidence@.len() - i,
        {
            if has_prefix(evidence[i].id.as_str(), ids[at].as_str()) {
                matches += 1;
                last = i;
            }
            i += 1;
        }
        if matches != 1 {
            return Err(IdFault::Unknown(at));
        }
        if list_has(&full, evidence[last].id.as_str()) {
            return Err(IdFault::Repeated(at));
        }
        let id = evidence[last].id.clone();
        assert(texts(full@.push(id)) =~= texts(full@).push(id@));
        full.push(id);
        at += 1;
    }
    Ok(full)
}

// ---------------------------------------------------------------------------
// Briefs
// ---------------------------------------------------------------------------

/// Why a brief is refused. Numbers are positions of findings.
#[derive(Clone, Copy, Debug, PartialEq, Eq, Structural)]
pub enum BriefFault {
    /// There are no findings, or too many.
    Findings,
    /// There are too many uncertainties, or one is empty or too long.
    Uncertainties,
    /// There are too many follow-up queries, or one is too long.
    Queries,
    /// The topic or the observation is empty or too long.
    Text(usize),
    /// The citations do not resolve.
    Citations(usize, IdFault),
    /// A claim of execution cites no implementation.
    NotImplementation(usize),
}

/// Every text of a list says something and fits in `max` bytes.
pub open spec fn all_bounded(list: Seq<Seq<char>>, max: nat) -> bool {
    forall|i: int| 0 <= i < list.len() ==> bounded(#[trigger] list[i], max)
}

/// The queries that say something.
pub open spec fn asked(queries: Seq<Seq<char>>) -> Seq<Seq<char>> {
    queries.filter(|q: Seq<char>| trim(q).len() > 0)
}

/// How many follow-up queries are taken.
pub open spec fn query_limit(final_pass: bool) -> nat {
    if final_pass {
        8
    } else {
        3
    }
}

/// A list with the first `count` of some texts added, each unless it is there.
pub open spec fn add_missing(
    list: Seq<Seq<char>>,
    more: Seq<Seq<char>>,
    count: nat,
) -> Seq<Seq<char>>
    decreases count,
{
    if count == 0 {
        list
    } else {
        let before = add_missing(list, more, (count - 1) as nat);
        if before.contains(more[count - 1]) {
            before
        } else {
            before.push(more[count - 1])
        }
    }
}

/// One of the cited passages is implementation.
pub open spec fn cites_implementation(
    cited: Seq<Seq<char>>,
    known: Seq<Seq<char>>,
    implementation: Seq<bool>,
) -> bool {
    exists|i: int|
        0 <= i < known.len() && cited.contains(#[trigger] known[i]) && implementation[i]
}

/// The full citations of a finding, or what is wrong with it.
pub open spec fn check_finding(
    finding: FindingModel,
    index: usize,
    known: Seq<Seq<char>>,
    implementation: Seq<bool>,
) -> Result<Seq<Seq<char>>, BriefFault> {
    if !(bounded(finding.topic, 300) && bounded(finding.observation, 4000)) {
        Err(BriefFault::Text(index))
    } else {
        match resolve_all(finding.evidence_ids, known, ACCEPTED_EVIDENCE_IDS as nat) {
            Err(fault) => Err(BriefFault::Citations(index, fault)),
            Ok(full) => if finding.kind == FindingKind::Runtime && !cites_implementation(
                full,
                known,
                implementation,
            ) {
                Err(BriefFault::NotImplementation(index))
            } else {
                Ok(full)
            },
        }
    }
}

/// The first `count` findings with their citations in full, or the first fault.
pub open spec fn check_findings(
    findings: Seq<FindingModel>,
    known: Seq<Seq<char>>,
    implementation: Seq<bool>,
    count: nat,
) -> Result<Seq<FindingModel>, BriefFault>
    decreases count,
{
    if count == 0 {
        Ok(Seq::empty())
    } else {
        match check_findings(findings, known, implementation, (count - 1) as nat) {
            Err(fault) => Err(fault),
            Ok(done) => {
                let finding = findings[count - 1];
                match check_finding(finding, (count - 1) as usize, known, implementation) {
                    Err(fault) => Err(fault),
                    Ok(full) => Ok(done.push(FindingModel { evidence_ids: full, ..finding })),
                }
            },
        }
    }
}

/// The value of a brief.
pub struct BriefModel {
    pub findings: Seq<FindingModel>,
    pub uncertainties: Seq<Seq<char>>,
    pub followup_queries: Seq<Seq<char>>,
}

impl View for SourceBrief {
    type V = BriefModel;

    open spec fn view(&self) -> BriefModel {
        BriefModel {
            findings: finding_models(self.findings@),
            uncertainties: texts(self.uncertainties@),
            followup_queries: texts(self.followup_queries@),
        }
    }
}

/// The brief that is accepted in place of the one given, or why none is. A
/// final reading keeps its open questions as uncertainties.
pub open spec fn accept_brief(
    brief: BriefModel,
    known: Seq<Seq<char>>,
    implementation: Seq<bool>,
    final_pass: bool,
) -> Result<BriefModel, BriefFault> {
    let queries = asked(brief.followup_queries);
    if brief.findings.len() == 0 || brief.findings.len() > ACCEPTED_FINDINGS {
        Err(BriefFault::Findings)
    } else if brief.uncertainties.len() > ACCEPTED_UNCERTAINTIES || !all_bounded(
        brief.uncertainties,
        1500,
    ) {
        Err(BriefFault::Uncertainties)
    } else if queries.len() > query_limit(final_pass) || !all_bounded(queries, 1500) {
        Err(BriefFault::Queries)
    } else {
        match check_findings(brief.findings, known, implementation, brief.findings.len()) {
            Err(fault) => Err(fault),
            Ok(findings) => Ok(
                BriefModel {
                    findings,
                    uncertainties: if final_pass {
                        add_missing(brief.uncertainties, queries, queries.len())
                    } else {
                        brief.uncertainties
                    },
                    followup_queries: if final_pass {
                        Seq::empty()
                    } else {
                        queries
                    },
                },
            ),
        }
    }
}

/// A fault among the first findings is the fault of all of them.
proof fn lemma_findings_stop(
    findings: Seq<FindingModel>,
    known: Seq<Seq<char>>,
    implementation: Seq<bool>,
    count: nat,
    all: nat,
)
    requires
        count <= all,
    ensures
        check_findings(findings, known, implementation, count) is Err ==> check_findings(
            findings,
            known,
            implementation,
            all,
        ) == check_findings(findings, known, implementation, count),
    decreases all - count,
{
    if count < all {
        lemma_findings_stop(findings, known, implementation, count, (all - 1) as nat);
    }
}

/// Whether every text of a list says something and fits in `max` bytes.
pub fn every_bounded(list: &Vec<String>, max: usize) -> (r: bool)
    ensures
        r == all_bounded(texts(list@), max as nat),
{
    let mut i: usize = 0;
    while i < list.len()
        invariant
            i <= list@.len(),
            forall|k: int| 0 <= k < i ==> bounded(#[trigger] texts(list@)[k], max as nat),
        decreases list@.len() - i,
    {
        if !bounded_text(list[i].as_str(), max) {
            assert(!bounded(texts(list@)[i as int], max as nat));
            return false;
        }
        i += 1;
    }
    true
}

/// Whether one of the cited passages is implementation.
fn cites_code(cited: &Vec<String>, evidence: &Vec<Evidence>, implementation: &Vec<bool>) -> (r: bool)
    requires
        implementation@.len() == evidence@.len(),
    ensures
        r == cites_implementation(texts(cited@), evidence_ids(evidence@), implementation@),
{
    let ghost known = evidence_ids(evidence@);
    let mut i: usize = 0;
    while i < evidence.len()
        invariant
            i <= evidence@.len() == implementation@.len(),
            known == evidence_ids(evidence@),
            forall|k: int|
                0 <= k < i ==> !(texts(cited@).contains(#[trigger] known[k]) && implementation@[k]),
        decreases evidence@.len() - i,
    {
        if implementation[i] && list_has(cited, evidence[i].id.as_str()) {
            assert(texts(cited@).contains(known[i as int]));
            return true;
        }
        i += 1;
    }
    false
}

/// The queries that say something.
fn asked_queries(queries: &Vec<String>) -> (r: Vec<String>)
    ensures
        texts(r@) == asked(texts(queries@)),
{
    let ghost p = |q: Seq<char>| trim(q).len() > 0;
    let mut r: Vec<String> = Vec::new();
    let mut i: usize = 0;
    assert(texts(r@) =~= texts(queries@).take(0).filter(p));
    while i < queries.len()
        invariant
            i <= queries@.len(),
            p == (|q: Seq<char>| trim(q).len() > 0),
            texts(r@) == texts(queries@).take(i as int).filter(p),
        decreases queries@.len() - i,
    {
        proof {
            let head = texts(queries@).take(i + 1);
            assert(head.drop_last() =~= texts(queries@).take(i as int));
            reveal(Seq::filter);
        }
        if !is_blank(queries[i].as_str()) {
            let q = queries[i].clone();
            assert(texts(r@.push(q)) =~= texts(r@).push(q@));
            r.push(q);
        }
        i += 1;
    }
    assert(texts(queries@).take(i as int) =~= texts(queries@));
    r
}

/// Accepts a brief, with its citations in full, or says what is wrong with it.
/// `implementation` tells of each passage whether it is implementation.
pub fn validate_brief(
    brief: &SourceBrief,
    evidence: &Vec<Evidence>,
    implementation: &Vec<bool>,
    final_pass: bool,
) -> (r: Result<SourceBrief, BriefFault>)
    requires
        implementation@.len() == evidence@.len(),
    ensures
        match accept_brief(brief@, evidence_ids(evidence@), implementation@, final_pass) {
            Ok(accepted) => r is Ok && r->Ok_0@ == accepted,
            Err(fault) => r == Err::<SourceBrief, BriefFault>(fault),
        },
{
    let ghost known = evidence_ids(evidence@);
    let ghost models = finding_models(brief.findings@);
    if brief.findings.len() == 0 || brief.findings.len() > ACCEPTED_FINDINGS {
        return Err(BriefFault::Findings);
    }
    if brief.uncertainties.len() > ACCEPTED_UNCERTAINTIES || !every_bounded(
        &brief.uncertainties,
        1500,
    ) {
        return Err(BriefFault::Uncertainties);
    }
    let queries = asked_queries(&brief.followup_queries);
    assert(texts(queries@).len() == queries@.len());
    let limit: usize = if final_pass {
        8
    } else {
        3
    };
    if queries.len() > limit || !every_bounded(&queries, 1500) {
        return Err(BriefFault::Queries);
    }
    let mut findings: Vec<Finding> = Vec::new();
    let mut i: usize = 0;
    assert(finding_models(findings@) =~= Seq::empty());
    while i < brief.findings.len()
        invariant
            i <= brief.findings@.len(),
            implementation@.len() == evidence@.len(),
            known == evidence_ids(evidence@),
            models == finding_models(brief.findings@),
            check_findings(models, known, implementation@, i as nat) == Ok::<
                Seq<FindingModel>,
                BriefFault,
            >(finding_models(findings@)),
            match check_findings(models, known, implementation@, models.len()) {
                Err(fault) => accept_brief(brief@, known, implementation@, final_pass) == Err::<
                    BriefModel,
                    BriefFault,
                >(fault),
                Ok(_) => true,
            },
        decreases brief.findings@.len() - i,
    {
        let finding = &brief.findings[i];
        proof {
            lemma_findings_stop(models, known, implementation@, (i + 1) as nat, models.len());
            assert(models[i as int] == finding@);
        }
        if !bounded_text(finding.topic.as_str(), 300) || !bounded_text(
            finding.observation.as_str(),
            4000,
        ) {
            return Err(BriefFault::Text(i));
        }
        let full = match resolve_ids(&finding.evidence_ids, evidence, ACCEPTED_EVIDENCE_IDS) {
            Ok(full) => full,
            Err(fault) => {
                return Err(BriefFault::Citations(i, fault));
            },
        };
        if finding.kind == FindingKind::Runtime && !cites_code(&full, evidence, implementation) {
            return Err(BriefFault::NotImplementation(i));
        }
        let resolved = Finding {
            topic: finding.topic.clone(),
            observation: finding.observation.clone(),
            kind: finding.kind,
            evidence_ids: full,
        };
        assert(finding_models(findings@.push(resolved)) =~= finding_models(findings@).push(
            resolved@,
        ));
        findings.push(resolved);
        i += 1;
    }
    let mut uncertainties = copy_texts(&brief.uncertainties);
    if final_pass {
        let mut k: usize = 0;
        while k < queries.len()
            invariant
                k <= queries@.len(),
                texts(uncertainties@) == add_missing(
                    texts(brief.uncertainties@),
                    texts(queries@),
                    k as nat,
                ),
            decreases queries@.len() - k,
        {
            assert(texts(queries@)[k as int] == queries@[k as int]@);
            if !list_has(&uncertainties, queries[k].as_str()) {
                let q = queries[k].clone();
                assert(texts(uncertainties@.push(q)) =~= texts(uncertainties@).push(q@));
                uncertainties.push(q);
            }
            k += 1;
        }
        let none: Vec<String> = Vec::new();
        assert(texts(none@) =~= Seq::empty());
        return Ok(SourceBrief { findings, uncertainties, followup_queries: none });
    }
    Ok(SourceBrief { findings, uncertainties, followup_queries: queries })
}

} // verus!
