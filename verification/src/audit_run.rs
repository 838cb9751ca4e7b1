//! One audit from its first file to its last: what it is known by, which file
//! comes next, what of a file is asked about, and what is reported.

use vstd::prelude::*;
use vstd::string::StringExecFns;
use vstd::utf8::encode_utf8;

use crate::audit::{
    assessment_models, draft_issues, missing_issues, sum64, tallied, tally, Assessment, Ledger, Passage, Unit,
};
use crate::code_graph::{CodeGraph, GraphModel};
use crate::comparison::{obligation_json, obligation_record};
use crate::coverage::{
    audited, audited_obligations, last_line, obligation_models, obligations_of, Obligation, ObligationModel,
};
use crate::json::{
    field, member, member_models, models, nat_model, text_of, texts_json, texts_model, Json, JsonModel,
};
use crate::model::{Evidence, Issue, LlmConfig};
use crate::parser::VERSION;
use crate::prompts::AUDIT;
use crate::source::{digest, hash};
use crate::text::{blen, number, texts};

verus! {

/// Why an audit could not be completed.
#[derive(Clone, Copy, Debug, PartialEq, Eq, Structural)]
pub enum AuditFault {
    /// There is no section.
    NoDocument,
    /// The sections hold no text.
    EmptyDocument,
    /// A request would have too little room.
    NoRoom,
    /// A verdict is about none of the obligations.
    StaleObligation,
    /// No verdict was given at all.
    NothingInspected,
}

impl AuditFault {
    /// What is told of the fault.
    pub open spec fn text(self) -> Seq<char> {
        match self {
            AuditFault::NoDocument => "COVERAGE_AUDIT_INCOMPLETE: no document to inspect"@,
            AuditFault::EmptyDocument => "COVERAGE_AUDIT_INCOMPLETE: empty document"@,
            AuditFault::NoRoom =>
                "COVERAGE_AUDIT_INCOMPLETE: insufficient context for original-source omission audit"@,
            AuditFault::StaleObligation => "COVERAGE_AUDIT_INCOMPLETE: stale obligation"@,
            AuditFault::NothingInspected =>
                "COVERAGE_AUDIT_INCOMPLETE: no source obligations inspected"@,
        }
    }

    /// What is told of the fault.
    pub fn message(&self) -> (r: &'static str)
        ensures
            r@ == self.text(),
    {
        match self {
            AuditFault::NoDocument => "COVERAGE_AUDIT_INCOMPLETE: no document to inspect",
            AuditFault::EmptyDocument => "COVERAGE_AUDIT_INCOMPLETE: empty document",
            AuditFault::NoRoom =>
                "COVERAGE_AUDIT_INCOMPLETE: insufficient context for original-source omission audit",
            AuditFault::StaleObligation => "COVERAGE_AUDIT_INCOMPLETE: stale obligation",
            AuditFault::NothingInspected =>
                "COVERAGE_AUDIT_INCOMPLETE: no source obligations inspected",
        }
    }
}

// ---------------------------------------------------------------------------
// What an audit is known by
// ---------------------------------------------------------------------------

/// Everything that a verdict depends on. After any repair of the prose it is
/// something else.
pub open spec fn scope_view(
    c: LlmConfig,
    outline: JsonModel,
    sections: JsonModel,
    source: JsonModel,
    direction: Seq<char>,
    language: Seq<char>,
    system: Seq<char>,
) -> JsonModel {
    JsonModel::Obj(
        seq![
            field("context"@, nat_model(c.context_limit as nat)),
            field("effort"@, JsonModel::Str(c.effort@)),
            field("endpoint"@, JsonModel::Str(c.base_url@)),
            field("graph"@, JsonModel::Str(VERSION@)),
            field("instruction"@, JsonModel::Str(AUDIT@)),
            field("language"@, JsonModel::Str(language)),
            field("model"@, JsonModel::Str(c.model@)),
            field("model_context"@, nat_model(c.model_context_limit as nat)),
            field("outline"@, outline),
            field("output"@, nat_model(c.max_output_tokens as nat)),
            field("purpose"@, JsonModel::Str(direction)),
            field("reasoning"@, JsonModel::Str(c.reasoning@)),
            field("safety"@, nat_model(c.safety_percent as nat)),
            field("sections"@, sections),
            field("source"@, source),
            field("system"@, JsonModel::Str(system)),
            field("version"@, nat_model(1)),
        ],
    )
}

/// What the verdicts on a document are kept under.
pub fn audit_scope(
    c: &LlmConfig,
    outline: Json,
    sections: Json,
    source: Json,
    direction: &str,
    language: &str,
    system: &str,
) -> (r: String)
    ensures
        r@ == digest(
            encode_utf8(
                text_of(
                    scope_view(*c, outline@, sections@, source@, direction@, language@, system@),
                ),
            ),
        ),
{
    let ghost goal = scope_view(
        *c,
        outline@,
        sections@,
        source@,
        direction@,
        language@,
        system@,
    );
    let members = vec![
        member("context", Json::count(c.context_limit as usize)),
        member("effort", Json::string(c.effort.as_str())),
        member("endpoint", Json::string(c.base_url.as_str())),
        member("graph", Json::string(VERSION)),
        member("instruction", Json::string(AUDIT)),
        member("language", Json::string(language)),
        member("model", Json::string(c.model.as_str())),
        member("model_context", Json::count(c.model_context_limit as usize)),
        member("outline", outline),
        member("output", Json::count(c.max_output_tokens as usize)),
        member("purpose", Json::string(direction)),
        member("reasoning", Json::string(c.reasoning.as_str())),
        member("safety", Json::count(c.safety_percent as usize)),
        member("sections", sections),
        member("source", source),
        member("system", Json::string(system)),
        member("version", Json::count(1)),
    ];
    assert(member_models(members@) =~= goal->Obj_0);
    let text = Json::object(members).to_text();
    hash(text.as_str().as_bytes())
}

/// The ids of some passages.
pub open spec fn passage_ids(passages: Seq<Passage>) -> Seq<Seq<char>> {
    passages.map_values(|p: Passage| p.evidence.id@)
}

/// The ids of some passages.
fn ids_of(passages: &Vec<Passage>) -> (r: Vec<String>)
    ensures
        texts(r@) == passage_ids(passages@),
{
    let mut r: Vec<String> = Vec::new();
    let mut i: usize = 0;
    assert(texts(r@) =~= passage_ids(passages@).take(0));
    while i < passages.len()
        invariant
            i <= passages@.len(),
            texts(r@) == passage_ids(passages@).take(i as int),
        decreases passages@.len() - i,
    {
        let id = passages[i].evidence.id.clone();
        assert(texts(r@.push(id)) =~= texts(r@).push(id@));
        assert(passage_ids(passages@).take(i + 1) =~= passage_ids(passages@).take(i as int).push(
            id@,
        ));
        r.push(id);
        i += 1;
    }
    assert(passage_ids(passages@).take(i as int) =~= passage_ids(passages@));
    r
}

/// The records of some obligations.
pub open spec fn obligation_records(list: Seq<ObligationModel>) -> Seq<JsonModel> {
    list.map_values(|o: ObligationModel| obligation_record(o))
}

/// The records of some obligations.
fn records_of(group: &Vec<Obligation>) -> (r: Vec<Json>)
    ensures
        models(r@) == obligation_records(obligation_models(group@)),
{
    let ghost goal = obligation_records(obligation_models(group@));
    let mut r: Vec<Json> = Vec::new();
    let mut i: usize = 0;
    assert(models(r@) =~= goal.take(0));
    while i < group.len()
        invariant
            i <= group@.len(),
            goal == obligation_records(obligation_models(group@)),
            models(r@) == goal.take(i as int),
        decreases group@.len() - i,
    {
        let item = obligation_json(&group[i]);
        assert(models(r@.push(item)) =~= models(r@).push(item@));
        assert(goal.take(i + 1) =~= goal.take(i as int).push(item@));
        r.push(item);
        i += 1;
    }
    assert(goal.take(i as int) =~= goal);
    r
}

/// What a request of an audit is known by.
pub open spec fn batch_view(
    scope: Seq<char>,
    passages: Seq<Passage>,
    group: Seq<ObligationModel>,
) -> JsonModel {
    JsonModel::Obj(
        seq![
            field("items"@, JsonModel::Arr(obligation_records(group))),
            field("passages"@, texts_model(passage_ids(passages))),
            field("scope"@, JsonModel::Str(scope)),
        ],
    )
}

/// What the verdicts on one request are kept under.
pub fn batch_key(scope: &str, passages: &Vec<Passage>, group: &Vec<Obligation>) -> (r: String)
    ensures
        r@ == "coverage:batch:"@ + digest(
            encode_utf8(
                text_of(batch_view(scope@, passages@, obligation_models(group@))),
            ),
        ),
{
    let ghost goal = batch_view(scope@, passages@, obligation_models(group@));
    let members = vec![
        member("items", Json::array(records_of(group))),
        member("passages", texts_json(&ids_of(passages))),
        member("scope", Json::string(scope)),
    ];
    assert(member_models(members@) =~= goal->Obj_0);
    let text = Json::object(members).to_text();
    let mut key = String::from_str("coverage:batch:");
    key.push_str(hash(text.as_str().as_bytes()).as_str());
    key
}

/// An obligation as the ledger names it.
pub open spec fn ledger_record(o: ObligationModel) -> JsonModel {
    JsonModel::Obj(
        seq![
            field("id"@, JsonModel::Str(o.id)),
            field("path"@, JsonModel::Str(o.path)),
            field("subject"@, JsonModel::Str(o.subject)),
            field("kind"@, JsonModel::Str(o.kind)),
            field(
                "span"@,
                JsonModel::Obj(
                    seq![
                        field("start_byte"@, nat_model(o.span.start_byte as nat)),
                        field("end_byte"@, nat_model(o.span.end_byte as nat)),
                        field("start"@, nat_model(o.span.start as nat)),
                        field("end"@, nat_model(o.span.end as nat)),
                    ],
                ),
            ),
        ],
    )
}

/// Obligations as the ledger names them.
pub open spec fn ledger_records(list: Seq<ObligationModel>) -> Seq<JsonModel> {
    list.map_values(|o: ObligationModel| ledger_record(o))
}

/// An obligation as the ledger names it.
fn ledger_json(o: &Obligation) -> (r: Json)
    ensures
        r@ == ledger_record(o@),
{
    let span = vec![
        member("start_byte", Json::count(o.span.start_byte)),
        member("end_byte", Json::count(o.span.end_byte)),
        member("start", Json::count(o.span.start as usize)),
        member("end", Json::count(o.span.end as usize)),
    ];
    assert(member_models(span@) =~= ledger_record(o@)->Obj_0[4].value->Obj_0);
    let members = vec![
        member("id", Json::string(o.id.as_str())),
        member("path", Json::string(o.path.as_str())),
        member("subject", Json::string(o.subject.as_str())),
        member("kind", Json::string(o.kind.as_str())),
        member("span", Json::object(span)),
    ];
    assert(member_models(members@) =~= ledger_record(o@)->Obj_0);
    Json::object(members)
}

/// What the ledger keeps the verdicts on some obligations under.
pub fn item_key(group: &Vec<Obligation>) -> (r: String)
    ensures
        r@ == "coverage:item:"@ + digest(
            encode_utf8(text_of(JsonModel::Arr(ledger_records(obligation_models(group@))))),
        ),
{
    let ghost goal = ledger_records(obligation_models(group@));
    let mut records: Vec<Json> = Vec::new();
    let mut i: usize = 0;
    assert(models(records@) =~= goal.take(0));
    while i < group.len()
        invariant
            i <= group@.len(),
            goal == ledger_records(obligation_models(group@)),
            models(records@) == goal.take(i as int),
        decreases group@.len() - i,
    {
        let item = ledger_json(&group[i]);
        assert(models(records@.push(item)) =~= models(records@).push(item@));
        assert(goal.take(i + 1) =~= goal.take(i as int).push(item@));
        records.push(item);
        i += 1;
    }
    assert(goal.take(i as int) =~= goal);
    let text = Json::array(records).to_text();
    let mut key = String::from_str("coverage:item:");
    key.push_str(hash(text.as_str().as_bytes()).as_str());
    key
}

// ---------------------------------------------------------------------------
// What an audit asks about
// ---------------------------------------------------------------------------

/// The paths of the first `count` records that have one.
pub open spec fn record_paths(records: Seq<JsonModel>, count: nat) -> Seq<Seq<char>>
    decreases count,
{
    if count == 0 {
        Seq::empty()
    } else {
        let so_far = record_paths(records, (count - 1) as nat);
        match records[count - 1].text("path"@) {
            Some(path) => so_far.push(path),
            None => so_far,
        }
    }
}

/// The files that the analysis considered.
pub fn considered_paths(analysis: &Json) -> (r: Vec<String>)
    ensures
        texts(r@) == record_paths(
            analysis@.items("evidence"@),
            analysis@.items("evidence"@).len(),
        ),
{
    let ghost all = analysis@.items("evidence"@);
    let mut r: Vec<String> = Vec::new();
    assert(texts(r@) =~= Seq::empty());
    if let Some(records) = analysis.items("evidence") {
        let mut i: usize = 0;
        while i < records.len()
            invariant
                i <= records@.len(),
                all == models(records@),
                texts(r@) == record_paths(all, i as nat),
            decreases records@.len() - i,
        {
            assert(all[i as int] == records@[i as int]@);
            if let Some(path) = records[i].text("path") {
                let p = String::from_str(path);
                assert(texts(r@.push(p)) =~= texts(r@).push(p@));
                r.push(p);
            }
            i += 1;
        }
    }
    r
}

/// The bytes of the first `count` passages.
pub open spec fn bytes_of(segments: Seq<Evidence>, count: nat) -> nat
    decreases count,
{
    if count == 0 {
        0
    } else {
        bytes_of(segments, (count - 1) as nat) + blen(segments[count - 1].content@)
    }
}

/// The value of a unit.
pub struct UnitModel {
    pub evidence: Evidence,
    pub start_byte: usize,
    pub items: Seq<ObligationModel>,
}

impl View for Unit {
    type V = UnitModel;

    open spec fn view(&self) -> UnitModel {
        UnitModel {
            evidence: self.evidence,
            start_byte: self.start_byte,
            items: obligation_models(self.items@),
        }
    }
}

/// The values of a list of units.
pub open spec fn unit_models(v: Seq<Unit>) -> Seq<UnitModel> {
    v.map_values(|u: Unit| u@)
}

/// What an audit asks about the first `count` passages of a file, in order, each
/// with where it begins in the file. A passage with nothing to ask is left out.
pub open spec fn units_of(segments: Seq<Evidence>, g: GraphModel, count: nat) -> Seq<UnitModel>
    decreases count,
{
    if count == 0 {
        Seq::empty()
    } else {
        let so_far = units_of(segments, g, (count - 1) as nat);
        let e = segments[count - 1];
        let start = bytes_of(segments, (count - 1) as nat);
        let all = obligations_of(e, g.symbols, g.edges, start as int);
        let items = audited(all, all.len());
        if items.len() == 0 {
            so_far
        } else {
            so_far.push(UnitModel { evidence: e, start_byte: start as usize, items })
        }
    }
}

proof fn lemma_bytes_of(segments: Seq<Evidence>, count: nat, all: nat)
    requires
        count <= all,
    ensures
        bytes_of(segments, count) <= bytes_of(segments, all),
    decreases all - count,
{
    if count < all {
        lemma_bytes_of(segments, count, (all - 1) as nat);
    }
}

/// What an audit asks about the passages of a file.
pub fn file_units(segments: &Vec<Evidence>, g: &CodeGraph) -> (r: Vec<Unit>)
    requires
        bytes_of(segments@, segments@.len()) <= usize::MAX,
        forall|i: int|
            0 <= i < segments@.len() ==> last_line(#[trigger] segments@[i]) <= u32::MAX,
    ensures
        unit_models(r@) == units_of(segments@, g@, segments@.len()),
{
    let mut r: Vec<Unit> = Vec::new();
    let mut start: usize = 0;
    let mut i: usize = 0;
    assert(unit_models(r@) =~= Seq::empty());
    while i < segments.len()
        invariant
            i <= segments@.len(),
            bytes_of(segments@, segments@.len()) <= usize::MAX,
            forall|i: int|
                0 <= i < segments@.len() ==> last_line(#[trigger] segments@[i]) <= u32::MAX,
            start == bytes_of(segments@, i as nat),
            unit_models(r@) == units_of(segments@, g@, i as nat),
        decreases segments@.len() - i,
    {
        let e = &segments[i];
        proof {
            lemma_bytes_of(segments@, (i + 1) as nat, segments@.len());
        }
        let size: usize = e.content.as_str().as_bytes().len();
        let items = audited_obligations(e, g, start);
        assert(obligation_models(items@).len() == items@.len());
        if items.len() > 0 {
            let u = Unit { evidence: e.clone(), start_byte: start, items };
            assert(unit_models(r@.push(u)) =~= unit_models(r@).push(u@));
            r.push(u);
        }
        start += size;
        i += 1;
    }
    r
}

// ---------------------------------------------------------------------------
// How far an audit got
// ---------------------------------------------------------------------------

/// What a report of an audit says.
#[derive(Clone, Copy, Debug, PartialEq, Eq, Structural)]
pub struct AuditReport {
    pub complete: bool,
    pub ledger: Ledger,
    pub passages: u64,
    pub chunks: u64,
    pub total_chunks: u64,
    pub audited_files: usize,
    pub unaudited_files: usize,
    pub excluded_files: usize,
}

/// An audit on its way through the files.
pub struct AuditRun {
    /// How many files it is to walk.
    pub files: usize,
    /// How many of them it is through with.
    pub audited: usize,
    pub ledger: Ledger,
    pub passages: u64,
    pub chunks: u64,
    /// What was last reported.
    pub report: AuditReport,
    pub issues: Vec<Issue>,
}

/// A ledger with nothing in it.
pub open spec fn empty_ledger() -> Ledger {
    Ledger { checked: 0, covered: 0, out_of_scope: 0, missing: 0, unresolved: 0 }
}

impl AuditRun {
    /// Every file of the audit is behind it or ahead of it, in every report too.
    pub open spec fn wf(self) -> bool {
        &&& self.audited <= self.files
        &&& self.report.audited_files <= self.audited
        &&& self.report.audited_files + self.report.unaudited_files == self.files
    }

    /// An audit before its first file.
    pub fn start(files: usize, excluded: usize, total_chunks: u64) -> (r: AuditRun)
        ensures
            r.wf(),
            r.files == files,
            r.audited == 0,
            r.ledger == empty_ledger(),
            r.passages == 0,
            r.chunks == 0,
            r.report == (AuditReport {
                complete: false,
                ledger: empty_ledger(),
                passages: 0,
                chunks: 0,
                total_chunks,
                audited_files: 0,
                unaudited_files: files,
                excluded_files: excluded,
            }),
            r.issues@.len() == 0,
    {
        let ledger = Ledger {
            checked: 0,
            covered: 0,
            out_of_scope: 0,
            missing: 0,
            unresolved: 0,
        };
        AuditRun {
            files,
            audited: 0,
            ledger,
            passages: 0,
            chunks: 0,
            report: AuditReport {
                complete: false,
                ledger,
                passages: 0,
                chunks: 0,
                total_chunks,
                audited_files: 0,
                unaudited_files: files,
                excluded_files: excluded,
            },
            issues: Vec::new(),
        }
    }

    /// The file that comes next. Once one file is through, an audit stops where
    /// its share of the budget is spent, while there is still enough to finish
    /// the document.
    pub fn next_file(&self, spent: bool) -> (r: Option<usize>)
        ensures
            r == (if self.audited < self.files && (self.audited == 0 || !spent) {
                Some(self.audited)
            } else {
                None
            }),
    {
        if self.audited < self.files && (self.audited == 0 || !spent) {
            Some(self.audited)
        } else {
            None
        }
    }

    /// Notes what was read of the file.
    pub fn read(&mut self, chunks: usize, passages: usize)
        requires
            old(self).wf(),
        ensures
            final(self).wf(),
            *final(self) == (AuditRun {
                chunks: sum64(old(self).chunks, chunks as nat),
                passages: sum64(old(self).passages, passages as nat),
                ..*old(self)
            }),
    {
        self.chunks = self.chunks.saturating_add(chunks as u64);
        self.passages = self.passages.saturating_add(passages as u64);
    }

    /// Enters the verdicts on one request, and reports.
    pub fn record(&mut self, group: &Vec<Obligation>, results: &Vec<Assessment>) -> (r: Result<
        (),
        AuditFault,
    >)
        requires
            old(self).wf(),
        ensures
            final(self).wf(),
            match missing_issues(
                obligation_models(group@),
                assessment_models(results@),
                results@.len(),
            ) {
                Some(found) => {
                    let ledger = tallied(
                        old(self).ledger,
                        group@.len(),
                        assessment_models(results@),
                    );
                    &&& r is Ok
                    &&& draft_issues(final(self).issues@) == draft_issues(old(self).issues@)
                        + found
                    &&& *final(self) == (AuditRun {
                        ledger,
                        report: AuditReport {
                            complete: false,
                            ledger,
                            passages: old(self).passages,
                            chunks: old(self).chunks,
                            audited_files: old(self).audited,
                            unaudited_files: (old(self).files - old(self).audited) as usize,
                            ..old(self).report
                        },
                        issues: final(self).issues,
                        ..*old(self)
                    })
                },
                None => r == Err::<(), AuditFault>(AuditFault::StaleObligation) && *final(self)
                    == *old(self),
            },
    {
        let mut ledger = self.ledger;
        match tally(&mut ledger, group, results) {
            Err(_) => Err(AuditFault::StaleObligation),
            Ok(found) => {
                let ghost before = draft_issues(self.issues@);
                let mut found = found;
                let ghost added = found@;
                self.issues.append(&mut found);
                assert(draft_issues(self.issues@) =~= before + draft_issues(added));
                self.ledger = ledger;
                self.report =
                AuditReport {
                    complete: false,
                    ledger,
                    passages: self.passages,
                    chunks: self.chunks,
                    total_chunks: self.report.total_chunks,
                    audited_files: self.audited,
                    unaudited_files: self.files - self.audited,
                    excluded_files: self.report.excluded_files,
                };
                Ok(())
            },
        }
    }

    /// Notes that the file is through.
    pub fn file_done(&mut self)
        requires
            old(self).wf(),
            old(self).audited < old(self).files,
        ensures
            final(self).wf(),
            *final(self) == (AuditRun {
                audited: (old(self).audited + 1) as usize,
                ..*old(self)
            }),
    {
        self.audited = self.audited + 1;
    }

    /// Ends the audit. Complete means that it finished what it set out to walk,
    /// which is not always every file.
    pub fn finish(&mut self) -> (r: Result<(), AuditFault>)
        requires
            old(self).wf(),
        ensures
            final(self).wf(),
            old(self).ledger.checked == 0 ==> {
                &&& r == Err::<(), AuditFault>(AuditFault::NothingInspected)
                &&& *final(self) == *old(self)
            },
            old(self).ledger.checked > 0 ==> {
                &&& r is Ok
                &&& *final(self) == (AuditRun {
                    report: AuditReport {
                        complete: true,
                        audited_files: old(self).audited,
                        unaudited_files: (old(self).files - old(self).audited) as usize,
                        ..old(self).report
                    },
                    ..*old(self)
                })
            },
    {
        if self.ledger.checked == 0 {
            return Err(AuditFault::NothingInspected);
        }
        self.report.complete = true;
        self.report.audited_files = self.audited;
        self.report.unaudited_files = self.files - self.audited;
        Ok(())
    }
}

/// What is kept of an audit under its scope.
pub open spec fn report_view(r: AuditReport, scope: Seq<char>) -> JsonModel {
    JsonModel::Obj(
        seq![
            field("audited_files"@, nat_model(r.audited_files as nat)),
            field("checked"@, nat_model(r.ledger.checked as nat)),
            field("chunks"@, nat_model(r.chunks as nat)),
            field("complete"@, JsonModel::Bool(r.complete)),
            field("covered"@, nat_model(r.ledger.covered as nat)),
            field("excluded_files"@, nat_model(r.excluded_files as nat)),
            field("missing"@, nat_model(r.ledger.missing as nat)),
            field("out_of_scope"@, nat_model(r.ledger.out_of_scope as nat)),
            field("passages"@, nat_model(r.passages as nat)),
            field("scope"@, JsonModel::Str(scope)),
            field("total_chunks"@, nat_model(r.total_chunks as nat)),
            field("unaudited_files"@, nat_model(r.unaudited_files as nat)),
            field("unresolved"@, nat_model(r.ledger.unresolved as nat)),
        ],
    )
}

/// A number.
fn number_json(n: u64) -> (r: Json)
    ensures
        r@ == nat_model(n as nat),
{
    Json::Num(number(n))
}

impl AuditReport {
    /// What is kept of the audit under its scope.
    pub fn to_json(&self, scope: &str) -> (r: Json)
        ensures
            r@ == report_view(*self, scope@),
    {
        let members = vec![
            member("audited_files", Json::count(self.audited_files)),
            member("checked", number_json(self.ledger.checked)),
            member("chunks", number_json(self.chunks)),
            member("complete", Json::Bool(self.complete)),
            member("covered", number_json(self.ledger.covered)),
            member("excluded_files", Json::count(self.excluded_files)),
            member("missing", number_json(self.ledger.missing)),
            member("out_of_scope", number_json(self.ledger.out_of_scope)),
            member("passages", number_json(self.passages)),
            member("scope", Json::string(scope)),
            member("total_chunks", number_json(self.total_chunks)),
            member("unaudited_files", Json::count(self.unaudited_files)),
            member("unresolved", number_json(self.ledger.unresolved)),
        ];
        assert(member_models(members@) =~= report_view(*self, scope@)->Obj_0);
        Json::object(members)
    }
}

} // verus!
