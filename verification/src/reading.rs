//! Reading source for a purpose: what one request shows, what becomes of its
//! answer, and when to ask again.

use vstd::prelude::*;
use vstd::string::StringExecFns;
use vstd::utf8::encode_utf8;

use crate::editorial::{excerpt, excerpt_of};
use crate::findings::{
    accept_brief, evidence_ids, validate_brief, BriefFault, BriefModel, Discovery, FindingModel,
    SourceBrief,
};
use crate::json::{
    field, member, member_models, models, nat_model, text_of, texts_json, texts_model, Json, JsonModel,
};
use crate::leaves::{context, finding_json, finding_record, supporting_records};
use crate::llm::repair::{with_repair, JsonRepair};
use crate::model::{Evidence, LlmConfig};
use crate::packing::{evidence_lists, merge_evidence, merged, pack_evidence, packed, packed_by_file};
use crate::planning::requests::{anchor_records, anchors, classified, classified_record};
use crate::prompts::{limits_in, read_instruction, FINDING_KIND_POLICY, READ_TEMPLATE};
use crate::purpose::{copy_evidence, pack, retain_details, retained};
use crate::source::{digest, hash};
use crate::text::{contains, has, same, texts};

verus! {

// ---------------------------------------------------------------------------
// Keys
// ---------------------------------------------------------------------------

/// What a document is for, as it is compared.
pub open spec fn intent_view(direction: Seq<char>, language: Seq<char>) -> JsonModel {
    JsonModel::Obj(
        seq![
            field("language"@, JsonModel::Str(language)),
            field("purpose"@, JsonModel::Str(direction)),
            field("version"@, nat_model(1)),
        ],
    )
}

/// The key of what a document is for.
pub open spec fn intent_of(direction: Seq<char>, language: Seq<char>) -> Seq<char> {
    digest(encode_utf8(text_of(intent_view(direction, language))))
}

/// The key of what a document is for: its direction and its language.
pub fn intent_key(direction: &str, language: &str) -> (r: String)
    ensures
        r@ == intent_of(direction@, language@),
{
    let members = vec![
        member("language", Json::string(language)),
        member("purpose", Json::string(direction)),
        member("version", Json::count(1)),
    ];
    assert(member_models(members@) =~= intent_view(direction@, language@)->Obj_0);
    hash(Json::object(members).to_text().as_str().as_bytes())
}

/// What a reading rests on, as it is compared: the purpose, the source, the
/// model and how it is asked.
pub open spec fn scope_view(
    intent: Seq<char>,
    source: JsonModel,
    root: JsonModel,
    c: LlmConfig,
    system: Seq<char>,
) -> JsonModel {
    JsonModel::Obj(
        seq![
            field("context"@, nat_model(c.context_limit as nat)),
            field("effort"@, JsonModel::Str(c.effort@)),
            field("endpoint"@, JsonModel::Str(c.base_url@)),
            field("instruction"@, JsonModel::Str(limits_in(READ_TEMPLATE@))),
            field("intent"@, JsonModel::Str(intent)),
            field("model"@, JsonModel::Str(c.model@)),
            field("model_context"@, nat_model(c.model_context_limit as nat)),
            field("output"@, nat_model(c.max_output_tokens as nat)),
            field("reasoning"@, JsonModel::Str(c.reasoning@)),
            field("root"@, root),
            field("safety"@, nat_model(c.safety_percent as nat)),
            field("source"@, source),
            field("system"@, JsonModel::Str(system)),
            field("version"@, nat_model(2)),
        ],
    )
}

/// The key of what a reading rests on. One that was kept under another key is
/// not used.
pub fn reading_scope(intent: &str, source: Json, root: Json, c: &LlmConfig, system: &str) -> (r: String)
    ensures
        r@ == digest(encode_utf8(text_of(scope_view(intent@, source@, root@, *c, system@)))),
{
    let ghost sm = source@;
    let ghost rm = root@;
    let members = vec![
        member("context", Json::count(c.context_limit as usize)),
        member("effort", Json::string(c.effort.as_str())),
        member("endpoint", Json::string(c.base_url.as_str())),
        member("instruction", Json::Str(read_instruction())),
        member("intent", Json::string(intent)),
        member("model", Json::string(c.model.as_str())),
        member("model_context", Json::count(c.model_context_limit as usize)),
        member("output", Json::count(c.max_output_tokens as usize)),
        member("reasoning", Json::string(c.reasoning.as_str())),
        member("root", root),
        member("safety", Json::count(c.safety_percent as usize)),
        member("source", source),
        member("system", Json::string(system)),
        member("version", Json::count(2)),
    ];
    assert(member_models(members@) =~= scope_view(intent@, sm, rm, *c, system@)->Obj_0);
    hash(Json::object(members).to_text().as_str().as_bytes())
}

/// Whether plans and drafts are dropped, because what the document is for has
/// changed since.
pub fn scope_changed(previous: Option<&str>, scope: &str) -> (r: bool)
    ensures
        r == (match previous {
            Some(p) => p@ != scope@,
            None => false,
        }),
{
    match previous {
        Some(p) => !same(p, scope),
        None => false,
    }
}

/// Whether a second pass follows the first: it was validated, and it asks for
/// more source.
pub fn needs_second_pass(first: &Discovery) -> (r: bool)
    ensures
        r == (!first.validation_unresolved && first.brief.followup_queries@.len() > 0),
{
    !first.validation_unresolved && first.brief.followup_queries.len() > 0
}

// ---------------------------------------------------------------------------
// What a request shows
// ---------------------------------------------------------------------------

/// The most bytes of passages that a reading shows.
pub const READING_BYTES: usize = 32_000;

/// The least bytes that a reading is worth asking for.
pub const READING_BYTES_MIN: usize = 1024;

/// How often a reading is asked for.
pub const READING_ATTEMPTS: u32 = 3;

/// How many follow-up queries are searched for.
pub const READING_QUERIES: usize = 3;

/// What each of some queries may bring.
pub open spec fn query_share(limit: nat, queries: nat) -> nat {
    let parts = if queries < 1 {
        1
    } else if queries > 3 {
        3
    } else {
        queries
    };
    let share = limit / 2 / parts;
    if share < 512 {
        512
    } else {
        share
    }
}

/// The bytes that each of some queries may bring.
pub fn query_bytes(limit: usize, queries: usize) -> (r: usize)
    ensures
        r == query_share(limit as nat, queries as nat),
{
    let parts: usize = if queries < 1 {
        1
    } else if queries > READING_QUERIES {
        READING_QUERIES
    } else {
        queries
    };
    let share: usize = limit / 2 / parts;
    if share < 512 {
        512
    } else {
        share
    }
}

/// The passages of a reading: what was read before, in half of the room, and
/// what the queries bring.
pub open spec fn reading_groups(before: Seq<Evidence>, retrieved: Seq<Seq<Evidence>>) -> Seq<
    Seq<Evidence>,
> {
    seq![before] + retrieved
}

/// What a reading shows, and what its answer may cite.
pub struct Shown {
    /// The passages that are sent.
    pub evidence: Vec<Evidence>,
    /// Those, and the ones that were read before.
    pub available: Vec<Evidence>,
}

/// Gathers the passages of a reading.
pub fn gather(prior: &Discovery, retrieved: &Vec<Vec<Evidence>>, limit: usize) -> (r: Shown)
    ensures
        r.evidence@ == packed(
            reading_groups(
                packed_by_file(prior.evidence@, limit as nat / 2),
                evidence_lists(retrieved@),
            ),
            limit as nat,
        ),
        r.available@ == merged(seq![r.evidence@, prior.evidence@], 2),
{
    let before = pack(prior, limit / 2);
    let mut groups: Vec<Vec<Evidence>> = vec![copy_evidence(&before)];
    let mut i: usize = 0;
    assert(evidence_lists(groups@) =~= seq![before@] + evidence_lists(retrieved@).take(0));
    while i < retrieved.len()
        invariant
            i <= retrieved@.len(),
            evidence_lists(groups@) == seq![before@] + evidence_lists(retrieved@).take(i as int),
        decreases retrieved@.len() - i,
    {
        let g = copy_evidence(&retrieved[i]);
        proof {
            let all = evidence_lists(retrieved@);
            assert(all[i as int] == g@);
            assert(evidence_lists(groups@.push(g)) =~= evidence_lists(groups@).push(g@));
            assert(all.take(i + 1) =~= all.take(i as int).push(g@));
            assert(seq![before@] + all.take(i + 1) =~= (seq![before@] + all.take(i as int)).push(
                g@,
            ));
        }
        groups.push(g);
        i += 1;
    }
    assert(evidence_lists(retrieved@).take(i as int) =~= evidence_lists(retrieved@));
    let evidence = pack_evidence(&groups, limit);
    let both: Vec<Vec<Evidence>> = vec![copy_evidence(&evidence), copy_evidence(&prior.evidence)];
    assert(evidence_lists(both@) =~= seq![evidence@, prior.evidence@]);
    let available = merge_evidence(&both);
    Shown { evidence, available }
}

/// A brief as a request shows it.
pub open spec fn brief_record(b: BriefModel) -> JsonModel {
    JsonModel::Obj(
        seq![
            field(
                "findings"@,
                JsonModel::Arr(b.findings.map_values(|f: FindingModel| finding_record(f))),
            ),
            field("followup_queries"@, texts_model(b.followup_queries)),
            field("uncertainties"@, texts_model(b.uncertainties)),
        ],
    )
}

/// A brief as a request shows it.
pub fn brief_json(brief: &SourceBrief) -> (r: Json)
    ensures
        r@ == brief_record(brief@),
{
    let ghost goal = brief@.findings.map_values(|f: FindingModel| finding_record(f));
    let mut items: Vec<Json> = Vec::new();
    let mut i: usize = 0;
    assert(models(items@) =~= goal.take(0));
    assert(goal.len() == brief.findings@.len());
    while i < brief.findings.len()
        invariant
            i <= brief.findings@.len(),
            goal == brief@.findings.map_values(|f: FindingModel| finding_record(f)),
            goal.len() == brief.findings@.len(),
            models(items@) == goal.take(i as int),
        decreases brief.findings@.len() - i,
    {
        let item = finding_json(&brief.findings[i]);
        assert(brief@.findings[i as int] == brief.findings@[i as int]@);
        assert(goal[i as int] == item@);
        assert(models(items@.push(item)) =~= models(items@).push(item@));
        assert(goal.take(i + 1) =~= goal.take(i as int).push(item@));
        items.push(item);
        i += 1;
    }
    assert(goal.take(i as int) =~= goal);
    let members = vec![
        member("findings", Json::array(items)),
        member("followup_queries", texts_json(&brief.followup_queries)),
        member("uncertainties", texts_json(&brief.uncertainties)),
    ];
    assert(member_models(members@) =~= brief_record(brief@)->Obj_0);
    Json::object(members)
}

/// What a reading is asked with besides its passages.
pub struct Asked<'a> {
    pub direction: &'a str,
    pub language: &'a str,
    pub final_pass: bool,
}

/// The passages of a request, each with whether it may carry a claim of
/// execution.
pub open spec fn classified_all(evidence: Seq<Evidence>, implementation: Seq<bool>) -> Seq<JsonModel> {
    Seq::new(evidence.len(), |i: int| classified_record(evidence[i], implementation[i]))
}

/// A request for a reading.
pub open spec fn reading_view(
    prior: Discovery,
    prior_implementation: Seq<bool>,
    evidence: Seq<Evidence>,
    implementation: Seq<bool>,
    direction: Seq<char>,
    language: Seq<char>,
    final_pass: bool,
    attempt: nat,
    error: Seq<char>,
) -> JsonModel {
    JsonModel::Obj(
        seq![
            field("attempt"@, nat_model(attempt)),
            field("evidence"@, JsonModel::Arr(classified_all(evidence, implementation))),
            field("final_pass"@, JsonModel::Bool(final_pass)),
            field("finding_kind_policy"@, JsonModel::Str(FINDING_KIND_POLICY@)),
            field("instruction"@, JsonModel::Str(limits_in(READ_TEMPLATE@))),
            field("language"@, JsonModel::Str(language)),
            field("open_questions"@, texts_model(texts(prior.brief.uncertainties@))),
            field("phase"@, JsonModel::Str("purpose_reading"@)),
            field("previous_error"@, JsonModel::Str(error)),
            field("purpose"@, JsonModel::Str(direction)),
            field(
                "source_anchors"@,
                JsonModel::Arr(
                    anchor_records(
                        prior.evidence@,
                        prior_implementation,
                        evidence,
                        prior.evidence@.len(),
                    ),
                ),
            ),
            field("supporting_findings"@, JsonModel::Arr(supporting_records(prior.details@, true))),
            field("verified_overview"@, brief_record(prior.brief@)),
        ],
    )
}

// ---------------------------------------------------------------------------
// Attempts
// ---------------------------------------------------------------------------

/// A reading that is being asked for.
pub struct Reading {
    pub attempt: u32,
    pub limit: usize,
    pub error: String,
    pub repair: JsonRepair,
}

/// What a reading does next.
#[derive(Clone, Copy, Debug, PartialEq, Eq, Structural)]
pub enum Turn {
    Ask,
    GiveUp,
}

impl Reading {
    /// A reading before its first attempt.
    pub fn start(budget: usize) -> (r: Reading)
        ensures
            r.attempt == 0,
            r.limit == (if budget < READING_BYTES {
                budget
            } else {
                READING_BYTES
            }),
            r.error@.len() == 0,
            r.repair.response is None,
            !r.repair.truncated,
    {
        Reading {
            attempt: 0,
            limit: if budget < READING_BYTES {
                budget
            } else {
                READING_BYTES
            },
            error: String::new(),
            repair: JsonRepair::new(),
        }
    }

    /// Whether there is another attempt. Without room there is none.
    pub fn turn(&mut self) -> (r: Turn)
        ensures
            r is Ask <==> old(self).attempt < READING_ATTEMPTS && old(self).limit
                >= READING_BYTES_MIN,
            final(self).attempt == old(self).attempt,
            final(self).limit == old(self).limit,
            final(self).repair == old(self).repair,
            final(self).error@ == (if old(self).attempt < READING_ATTEMPTS && old(self).limit
                < READING_BYTES_MIN {
                "CONTEXT_BUDGET: insufficient room for source summary"@
            } else {
                old(self).error@
            }),
    {
        if self.attempt >= READING_ATTEMPTS {
            return Turn::GiveUp;
        }
        if self.limit < READING_BYTES_MIN {
            self.error = String::from_str("CONTEXT_BUDGET: insufficient room for source summary");
            return Turn::GiveUp;
        }
        Turn::Ask
    }

    /// Takes in the failure of an attempt: the next one is told, and asks for
    /// less where there was no room.
    pub fn failed(&mut self, message: &str)
        requires
            old(self).attempt < READING_ATTEMPTS,
        ensures
            final(self).attempt == old(self).attempt + 1,
            final(self).error@ == excerpt_of(message@, 1500),
            final(self).limit == (if contains(excerpt_of(message@, 1500), "CONTEXT_BUDGET"@) {
                old(self).limit / 2
            } else {
                old(self).limit
            }),
            final(self).repair == old(self).repair,
    {
        self.error = excerpt(message, 1500);
        if has(self.error.as_str(), "CONTEXT_BUDGET") {
            self.limit = self.limit / 2;
        }
        self.attempt = self.attempt + 1;
    }

    /// The request of an attempt.
    pub fn request(
        &self,
        asked: &Asked<'_>,
        prior: &Discovery,
        prior_implementation: &Vec<bool>,
        evidence: &Vec<Evidence>,
        implementation: &Vec<bool>,
    ) -> (r: Json)
        requires
            self.attempt < READING_ATTEMPTS,
            prior_implementation@.len() == prior.evidence@.len(),
            implementation@.len() == evidence@.len(),
        ensures
            ({
                let plain = reading_view(
                    *prior,
                    prior_implementation@,
                    evidence@,
                    implementation@,
                    asked.direction@,
                    asked.language@,
                    asked.final_pass,
                    (self.attempt + 1) as nat,
                    self.error@,
                );
                r@ == (match self.repair.response {
                    Some(response) => with_repair(plain, response@, self.repair.truncated),
                    None => plain,
                })
            }),
    {
        let passages = classified(evidence, implementation);
        let supporting = context(prior, true);
        let known = anchors(&prior.evidence, prior_implementation, evidence);
        proof {
            assert(models(passages@) =~= classified_all(evidence@, implementation@));
        }
        let members = vec![
            member("attempt", Json::count(self.attempt as usize + 1)),
            member("evidence", Json::array(passages)),
            member("final_pass", Json::Bool(asked.final_pass)),
            member("finding_kind_policy", Json::string(FINDING_KIND_POLICY)),
            member("instruction", Json::Str(read_instruction())),
            member("language", Json::string(asked.language)),
            member("open_questions", texts_json(&prior.brief.uncertainties)),
            member("phase", Json::string("purpose_reading")),
            member("previous_error", Json::string(self.error.as_str())),
            member("purpose", Json::string(asked.direction)),
            member("source_anchors", Json::array(known)),
            member("supporting_findings", Json::array(supporting)),
            member("verified_overview", brief_json(&prior.brief)),
        ];
        proof {
            let plain = reading_view(
                *prior,
                prior_implementation@,
                evidence@,
                implementation@,
                asked.direction@,
                asked.language@,
                asked.final_pass,
                (self.attempt + 1) as nat,
                self.error@,
            );
            assert(member_models(members@) =~= plain->Obj_0);
        }
        let mut input = Json::object(members);
        self.repair.apply(&mut input);
        input
    }
}

/// Takes in the answer of an attempt: a brief whose claims are cited, and the
/// earlier observations that it does not replace.
pub fn accept_reading(
    prior: &Discovery,
    brief: &SourceBrief,
    available: Vec<Evidence>,
    implementation: &Vec<bool>,
    final_pass: bool,
) -> (r: Result<Discovery, BriefFault>)
    requires
        implementation@.len() == available@.len(),
    ensures
        match accept_brief(brief@, evidence_ids(available@), implementation@, final_pass) {
            Ok(accepted) => r is Ok && r->Ok_0@ == retained(prior@, accepted, available@),
            Err(f) => r == Err::<Discovery, BriefFault>(f),
        },
{
    match validate_brief(brief, &available, implementation, final_pass) {
        Ok(accepted) => Ok(retain_details(prior, accepted, available)),
        Err(f) => Err(f),
    }
}

} // verus!
