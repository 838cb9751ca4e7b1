//! Comparing one page of a document with some obligations: what the request
//! shows, and how its answers settle them.

use vstd::prelude::*;
use vstd::string::StringExecFns;

use crate::audit::{
    assessed, assessment_models, retain_pending, screen, screened, still_pending, Assessment,
    AssessmentModel, Passage, Response,
};
use crate::code_graph::Span;
use crate::coverage::{obligation_models, Obligation, ObligationModel};
use crate::editorial::{excerpt, excerpt_of};
use crate::json::{field, member, member_models, models, nat_model, texts_json, texts_model, Json, JsonModel};
use crate::llm::repair::{with_repair, JsonRepair};
use crate::model::{Section, SectionPlan};
use crate::pages::{prose_of, Page};
use crate::prompts::AUDIT;
use crate::text::{join, texts};

verus! {

/// How often a page is asked about.
pub const COMPARISON_ATTEMPTS: u32 = 3;

/// A comparison: what is settled, what is not, and what the next attempt is
/// told.
pub struct Comparison {
    pub accepted: Vec<Assessment>,
    pub pending: Vec<Obligation>,
    pub attempt: u32,
    pub error: String,
    pub repair: JsonRepair,
}

/// What the next attempt is told of the verdicts that were not accepted.
pub open spec fn reassess_text(problems: Seq<char>) -> Seq<char> {
    excerpt_of("Reassess only the supplied obligations. "@ + problems, 1500)
}

impl Comparison {
    /// A comparison before its first attempt.
    pub fn start(items: &Vec<Obligation>) -> (r: Comparison)
        ensures
            r.accepted@.len() == 0,
            obligation_models(r.pending@) == obligation_models(items@),
            r.attempt == 0,
            r.error@.len() == 0,
            r.repair.response is None,
    {
        let ghost goal = obligation_models(items@);
        let mut pending: Vec<Obligation> = Vec::new();
        let mut i: usize = 0;
        assert(obligation_models(pending@) =~= goal.take(0));
        while i < items.len()
            invariant
                i <= items@.len(),
                goal == obligation_models(items@),
                obligation_models(pending@) == goal.take(i as int),
            decreases items@.len() - i,
        {
            let o = items[i].clone();
            assert(obligation_models(pending@.push(o)) =~= obligation_models(pending@).push(o@));
            assert(goal.take(i + 1) =~= goal.take(i as int).push(o@));
            pending.push(o);
            i += 1;
        }
        assert(goal.take(i as int) =~= goal);
        Comparison {
            accepted: Vec::new(),
            pending,
            attempt: 0,
            error: String::new(),
            repair: JsonRepair::new(),
        }
    }

    /// Whether the page is asked about once more: something is not settled, and
    /// attempts are left.
    pub fn asks(&self) -> (r: bool)
        ensures
            r == (self.attempt < COMPARISON_ATTEMPTS && self.pending@.len() > 0),
    {
        self.attempt < COMPARISON_ATTEMPTS && self.pending.len() > 0
    }

    /// Takes in an answer: the verdicts that the page stands behind are kept, and
    /// only the rest is asked about again.
    pub fn answered(&mut self, response: &Response, page: &Page, sections: &[Section])
        requires
            old(self).attempt < COMPARISON_ATTEMPTS,
        ensures
            ({
                let s = screened(
                    assessment_models(response.assessments@),
                    obligation_models(old(self).pending@),
                    page.section,
                    prose_of(page@, sections@),
                    sections@.len(),
                    response.assessments@.len(),
                );
                &&& assessment_models(final(self).accepted@) == assessment_models(
                    old(self).accepted@,
                ) + s.accepted
                &&& obligation_models(final(self).pending@) == still_pending(
                    obligation_models(old(self).pending@),
                    s.accepted,
                    old(self).pending@.len(),
                )
                &&& final(self).error@ == reassess_text(join(s.problems, "; "@))
                &&& final(self).attempt == old(self).attempt + 1
                &&& final(self).repair == old(self).repair
            }),
    {
        let (mut good, problems) = screen(response, &self.pending, page, sections);
        self.pending = retain_pending(&self.pending, &good);
        let ghost was = assessment_models(self.accepted@);
        let ghost more = assessment_models(good@);
        self.accepted.append(&mut good);
        assert(assessment_models(self.accepted@) =~= was + more);
        let mut text = String::from_str("Reassess only the supplied obligations. ");
        text.push_str(problems.as_str());
        self.error = excerpt(text.as_str(), 1500);
        self.attempt = self.attempt + 1;
    }

    /// Takes in a failure.
    pub fn failed(&mut self, message: &str)
        requires
            old(self).attempt < COMPARISON_ATTEMPTS,
        ensures
            final(self).accepted == old(self).accepted,
            final(self).pending == old(self).pending,
            final(self).error@ == excerpt_of(message@, 1500),
            final(self).attempt == old(self).attempt + 1,
            final(self).repair == old(self).repair,
    {
        self.error = excerpt(message, 1500);
        self.attempt = self.attempt + 1;
    }
}

proof fn lemma_still_pending(items: Seq<ObligationModel>, list: Seq<AssessmentModel>, count: nat)
    requires
        count <= items.len(),
    ensures
        still_pending(items, list, count).len() <= count,
        forall|k: int|
            0 <= k < still_pending(items, list, count).len() ==> items.contains(
                #[trigger] still_pending(items, list, count)[k],
            ) && !assessed(list, still_pending(items, list, count)[k].id),
    decreases count,
{
    if count > 0 {
        lemma_still_pending(items, list, (count - 1) as nat);
        assert(items.contains(items[count - 1]));
    }
}

/// What is asked about again was asked about before and is not settled: a
/// comparison never asks about more, nor about what it has settled.
pub proof fn comparisons_only_narrow(
    items: Seq<ObligationModel>,
    settled: Seq<AssessmentModel>,
    k: int,
)
    requires
        0 <= k < still_pending(items, settled, items.len()).len(),
    ensures
        still_pending(items, settled, items.len()).len() <= items.len(),
        items.contains(still_pending(items, settled, items.len())[k]),
        !assessed(settled, still_pending(items, settled, items.len())[k].id),
{
    lemma_still_pending(items, settled, items.len());
}

// ---------------------------------------------------------------------------
// The request
// ---------------------------------------------------------------------------

/// A span as a request shows it.
pub open spec fn span_record(s: Span) -> JsonModel {
    JsonModel::Obj(
        seq![
            field("end"@, nat_model(s.end as nat)),
            field("end_byte"@, nat_model(s.end_byte as nat)),
            field("start"@, nat_model(s.start as nat)),
            field("start_byte"@, nat_model(s.start_byte as nat)),
        ],
    )
}

/// An obligation as a request shows it.
pub open spec fn obligation_record(o: ObligationModel) -> JsonModel {
    JsonModel::Obj(
        seq![
            field("id"@, JsonModel::Str(o.id)),
            field("kind"@, JsonModel::Str(o.kind)),
            field("path"@, JsonModel::Str(o.path)),
            field("span"@, span_record(o.span)),
            field("subject"@, JsonModel::Str(o.subject)),
        ],
    )
}

/// A passage as a request shows it.
pub open spec fn passage_record(p: Passage, implementation: bool) -> JsonModel {
    JsonModel::Obj(
        seq![
            field("content"@, JsonModel::Str(p.evidence.content@)),
            field("end"@, nat_model(p.evidence.end as nat)),
            field("id"@, JsonModel::Str(p.evidence.id@)),
            field("path"@, JsonModel::Str(p.evidence.path@)),
            field("runtime_allowed"@, JsonModel::Bool(implementation)),
            field("source_start_byte"@, nat_model(p.start_byte as nat)),
            field("start"@, nat_model(p.evidence.start as nat)),
        ],
    )
}

/// A planned section as a request shows it.
pub open spec fn plan_record(s: SectionPlan, index: nat) -> JsonModel {
    JsonModel::Obj(
        seq![
            field("key_points"@, texts_model(texts(s.key_points@))),
            field("section"@, nat_model(index)),
            field("title"@, JsonModel::Str(s.title@)),
        ],
    )
}

/// A request to compare a page with obligations.
pub open spec fn comparison_view(
    direction: Seq<char>,
    language: Seq<char>,
    plan: Seq<SectionPlan>,
    page: Page,
    passages: Seq<Passage>,
    implementation: Seq<bool>,
    pending: Seq<ObligationModel>,
    attempt: nat,
    error: Seq<char>,
) -> JsonModel {
    JsonModel::Obj(
        seq![
            field("attempt"@, nat_model(attempt)),
            field(
                "document"@,
                JsonModel::Obj(
                    seq![
                        field("content"@, JsonModel::Str(page.content@)),
                        field("offset"@, nat_model(page.offset as nat)),
                        field("section"@, nat_model(page.section as nat)),
                    ],
                ),
            ),
            field(
                "evidence"@,
                JsonModel::Arr(
                    Seq::new(
                        passages.len(),
                        |i: int| passage_record(passages[i], implementation[i]),
                    ),
                ),
            ),
            field("instruction"@, JsonModel::Str(AUDIT@)),
            field("language"@, JsonModel::Str(language)),
            field(
                "obligations"@,
                JsonModel::Arr(pending.map_values(|o: ObligationModel| obligation_record(o))),
            ),
            field(
                "outline"@,
                JsonModel::Arr(Seq::new(plan.len(), |i: int| plan_record(plan[i], i as nat))),
            ),
            field("phase"@, JsonModel::Str("coverage_audit"@)),
            field("previous_error"@, JsonModel::Str(error)),
            field("purpose"@, JsonModel::Str(direction)),
        ],
    )
}

/// An obligation as a request shows it.
pub fn obligation_json(o: &Obligation) -> (r: Json)
    ensures
        r@ == obligation_record(o@),
{
    let span = vec![
        member("end", Json::count(o.span.end as usize)),
        member("end_byte", Json::count(o.span.end_byte)),
        member("start", Json::count(o.span.start as usize)),
        member("start_byte", Json::count(o.span.start_byte)),
    ];
    assert(member_models(span@) =~= span_record(o.span)->Obj_0);
    let members = vec![
        member("id", Json::string(o.id.as_str())),
        member("kind", Json::string(o.kind.as_str())),
        member("path", Json::string(o.path.as_str())),
        member("span", Json::object(span)),
        member("subject", Json::string(o.subject.as_str())),
    ];
    assert(member_models(members@) =~= obligation_record(o@)->Obj_0);
    Json::object(members)
}

/// A passage as a request shows it.
fn passage_json(p: &Passage, implementation: bool) -> (r: Json)
    ensures
        r@ == passage_record(*p, implementation),
{
    let members = vec![
        member("content", Json::string(p.evidence.content.as_str())),
        member("end", Json::count(p.evidence.end as usize)),
        member("id", Json::string(p.evidence.id.as_str())),
        member("path", Json::string(p.evidence.path.as_str())),
        member("runtime_allowed", Json::Bool(implementation)),
        member("source_start_byte", Json::count(p.start_byte)),
        member("start", Json::count(p.evidence.start as usize)),
    ];
    assert(member_models(members@) =~= passage_record(*p, implementation)->Obj_0);
    Json::object(members)
}

/// A planned section as a request shows it.
fn plan_json(s: &SectionPlan, index: usize) -> (r: Json)
    ensures
        r@ == plan_record(*s, index as nat),
{
    let members = vec![
        member("key_points", texts_json(&s.key_points)),
        member("section", Json::count(index)),
        member("title", Json::string(s.title.as_str())),
    ];
    assert(member_models(members@) =~= plan_record(*s, index as nat)->Obj_0);
    Json::object(members)
}

/// The request of an attempt. `implementation` says of each passage whether it
/// may carry a claim of execution.
pub fn comparison_request(
    c: &Comparison,
    direction: &str,
    language: &str,
    plan: &Vec<SectionPlan>,
    page: &Page,
    passages: &Vec<Passage>,
    implementation: &Vec<bool>,
) -> (r: Json)
    requires
        implementation@.len() == passages@.len(),
    ensures
        ({
            let plain = comparison_view(
                direction@,
                language@,
                plan@,
                *page,
                passages@,
                implementation@,
                obligation_models(c.pending@),
                c.attempt as nat,
                c.error@,
            );
            r@ == (match c.repair.response {
                Some(response) => with_repair(plain, response@, c.repair.truncated),
                None => plain,
            })
        }),
{
    let ghost plain = comparison_view(
        direction@,
        language@,
        plan@,
        *page,
        passages@,
        implementation@,
        obligation_models(c.pending@),
        c.attempt as nat,
        c.error@,
    );
    let ghost shown = Seq::new(
        passages@.len(),
        |i: int| passage_record(passages@[i], implementation@[i]),
    );
    let mut evidence: Vec<Json> = Vec::new();
    let mut i: usize = 0;
    assert(models(evidence@) =~= shown.take(0));
    while i < passages.len()
        invariant
            i <= passages@.len(),
            implementation@.len() == passages@.len(),
            shown == Seq::new(
                passages@.len(),
                |i: int| passage_record(passages@[i], implementation@[i]),
            ),
            models(evidence@) == shown.take(i as int),
        decreases passages@.len() - i,
    {
        let item = passage_json(&passages[i], implementation[i]);
        assert(models(evidence@.push(item)) =~= models(evidence@).push(item@));
        assert(shown.take(i + 1) =~= shown.take(i as int).push(item@));
        evidence.push(item);
        i += 1;
    }
    assert(shown.take(i as int) =~= shown);
    let ghost owed = obligation_models(c.pending@).map_values(
        |o: ObligationModel| obligation_record(o),
    );
    let mut obligations: Vec<Json> = Vec::new();
    let mut k: usize = 0;
    assert(models(obligations@) =~= owed.take(0));
    while k < c.pending.len()
        invariant
            k <= c.pending@.len(),
            owed == obligation_models(c.pending@).map_values(
                |o: ObligationModel| obligation_record(o),
            ),
            models(obligations@) == owed.take(k as int),
        decreases c.pending@.len() - k,
    {
        let item = obligation_json(&c.pending[k]);
        assert(models(obligations@.push(item)) =~= models(obligations@).push(item@));
        assert(owed.take(k + 1) =~= owed.take(k as int).push(item@));
        obligations.push(item);
        k += 1;
    }
    assert(owed.take(k as int) =~= owed);
    let ghost planned = Seq::new(plan@.len(), |i: int| plan_record(plan@[i], i as nat));
    let mut outline: Vec<Json> = Vec::new();
    let mut j: usize = 0;
    assert(models(outline@) =~= planned.take(0));
    while j < plan.len()
        invariant
            j <= plan@.len(),
            planned == Seq::new(plan@.len(), |i: int| plan_record(plan@[i], i as nat)),
            models(outline@) == planned.take(j as int),
        decreases plan@.len() - j,
    {
        let item = plan_json(&plan[j], j);
        assert(models(outline@.push(item)) =~= models(outline@).push(item@));
        assert(planned.take(j + 1) =~= planned.take(j as int).push(item@));
        outline.push(item);
        j += 1;
    }
    assert(planned.take(j as int) =~= planned);
    let document = vec![
        member("content", Json::string(page.content.as_str())),
        member("offset", Json::count(page.offset)),
        member("section", Json::count(page.section)),
    ];
    assert(member_models(document@) =~= plain->Obj_0[1].value->Obj_0);
    let members = vec![
        member("attempt", Json::count(c.attempt as usize)),
        member("document", Json::object(document)),
        member("evidence", Json::array(evidence)),
        member("instruction", Json::string(AUDIT)),
        member("language", Json::string(language)),
        member("obligations", Json::array(obligations)),
        member("outline", Json::array(outline)),
        member("phase", Json::string("coverage_audit")),
        member("previous_error", Json::string(c.error.as_str())),
        member("purpose", Json::string(direction)),
    ];
    assert(member_models(members@) =~= plain->Obj_0);
    let mut input = Json::object(members);
    c.repair.apply(&mut input);
    input
}

} // verus!
