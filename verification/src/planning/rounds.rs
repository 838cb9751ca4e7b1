//! The rounds of planning: attempts at one request, chapters joined into a plan,
//! and reviews that accept a plan, wait for a person or ask for another.

use vstd::prelude::*;
use vstd::string::StringExecFns;

use crate::findings::copy_texts;
use crate::json::{field, lookup, member, member_models, nat_model, numbers_come_back, Json, JsonModel};
use crate::model::{
    exclusion_models, requirement_models, section_models, BranchExclusion, Evidence, ExclusionModel,
    Outline, OutlineIssue, OutlineModel, OutlineReview, Requirement, SectionModel, SectionPlan,
};
use crate::order::positions;
use crate::planning::accounting::{full_ids, issue_models, resolve_section_ids, IssueModel};
use crate::planning::chapters::Chapters;
use crate::purpose::{cited_passages, passages_cited};
use crate::text::{
    blen, bounded, bounded_text, comparable_title, is_blank, list_has, number, same, texts, title_key, trim,
};

verus! {

// ---------------------------------------------------------------------------
// Attempts
// ---------------------------------------------------------------------------

/// How many times a request is attempted.
pub const ATTEMPTS: u32 = 3;

/// What came of an attempt.
#[derive(Clone, Copy, Debug, PartialEq, Eq, Structural)]
pub enum Outcome {
    /// The answer is usable.
    Accepted,
    /// The run cannot go on: it was stopped or its budget is spent.
    Fatal,
    /// The answer is not usable; `context_budget` says whether the request was
    /// too large.
    Rejected { context_budget: bool },
}

/// What to do next.
#[derive(Clone, Copy, Debug, PartialEq, Eq, Structural)]
pub enum Next {
    /// Take the answer.
    Take,
    /// Give the fault on.
    Fail,
    /// Ask again, with the fault and less evidence where it was too large.
    Retry,
    /// Wait for a person: the last attempt failed.
    GiveUp,
}

/// The attempts at a request so far.
#[derive(Clone, Copy, Debug, PartialEq, Eq, Structural)]
pub struct Attempts {
    pub made: u32,
    pub reductions: u32,
}

/// What follows an attempt.
pub open spec fn after_attempt(a: Attempts, outcome: Outcome) -> (Next, Attempts) {
    let made = Attempts { made: (a.made + 1) as u32, ..a };
    match outcome {
        Outcome::Accepted => (Next::Take, made),
        Outcome::Fatal => (Next::Fail, made),
        Outcome::Rejected { context_budget } => {
            let lowered = if context_budget {
                Attempts { reductions: (a.reductions + 1) as u32, ..made }
            } else {
                made
            };
            if a.made + 1 >= ATTEMPTS {
                (Next::GiveUp, lowered)
            } else {
                (Next::Retry, lowered)
            }
        },
    }
}

impl Attempts {
    /// Fewer attempts were made than are allowed, and none reduced a request
    /// more than once.
    pub open spec fn wf(self) -> bool {
        self.made < ATTEMPTS && self.reductions <= self.made
    }

    /// No attempt yet.
    pub fn first() -> (r: Attempts)
        ensures
            r == (Attempts { made: 0, reductions: 0 }),
            r.wf(),
    {
        Attempts { made: 0, reductions: 0 }
    }

    /// Takes note of what came of an attempt, and says what to do next.
    pub fn settle(&mut self, outcome: Outcome) -> (r: Next)
        requires
            old(self).wf(),
        ensures
            (r, *final(self)) == after_attempt(*old(self), outcome),
            r == Next::Retry ==> final(self).wf(),
    {
        self.made = self.made + 1;
        match outcome {
            Outcome::Accepted => Next::Take,
            Outcome::Fatal => Next::Fail,
            Outcome::Rejected { context_budget } => {
                if context_budget {
                    self.reductions = self.reductions + 1;
                }
                if self.made >= ATTEMPTS {
                    Next::GiveUp
                } else {
                    Next::Retry
                }
            },
        }
    }
}

/// A request is attempted at most three times.
pub proof fn attempts_end(a: Attempts, outcome: Outcome)
    requires
        a.wf(),
    ensures
        after_attempt(a, outcome).1.made <= ATTEMPTS,
        after_attempt(a, outcome).0 == Next::Retry ==> after_attempt(a, outcome).1.wf(),
        a.made + 1 == ATTEMPTS ==> after_attempt(a, outcome).0 != Next::Retry,
{
}

// ---------------------------------------------------------------------------
// Parts of chapters
// ---------------------------------------------------------------------------

/// Why the plan of a part is refused.
#[derive(Debug)]
pub enum PartFault {
    /// It has more sections than its share.
    Sections,
    /// The titles of the sections at these positions are used by earlier
    /// chapters.
    Reused(Vec<usize>),
}

/// The positions of sections whose title an earlier chapter uses.
pub open spec fn reused_titles(sections: Seq<SectionPlan>, earlier: Seq<Seq<char>>) -> Seq<usize> {
    let used = earlier.map_values(|t: Seq<char>| title_key(t));
    positions(|i: int| used.contains(title_key(sections[i].title@)), sections.len())
}

/// Checks the plan of a part against its share of sections and the titles of
/// earlier chapters.
pub fn check_part(part: &Outline, share: usize, earlier: &Vec<String>) -> (r: Result<(), PartFault>)
    ensures
        ({
            let reused = reused_titles(part.sections@, texts(earlier@));
            if part.sections@.len() > share {
                r matches Err(PartFault::Sections)
            } else if reused.len() > 0 {
                r matches Err(PartFault::Reused(at)) && at@ == reused
            } else {
                r is Ok
            }
        }),
{
    if part.sections.len() > share {
        return Err(PartFault::Sections);
    }
    let ghost used = texts(earlier@).map_values(|t: Seq<char>| title_key(t));
    let mut titles: Vec<String> = Vec::new();
    let mut e: usize = 0;
    assert(texts(titles@) =~= used.take(0));
    while e < earlier.len()
        invariant
            e <= earlier@.len(),
            used == texts(earlier@).map_values(|t: Seq<char>| title_key(t)),
            texts(titles@) == used.take(e as int),
        decreases earlier@.len() - e,
    {
        let t = comparable_title(earlier[e].as_str());
        assert(texts(titles@.push(t)) =~= texts(titles@).push(t@));
        assert(used.take(e + 1) =~= used.take(e as int).push(t@));
        titles.push(t);
        e += 1;
    }
    assert(used.take(e as int) =~= used);
    let ghost keep = |i: int| used.contains(title_key(part.sections@[i].title@));
    let mut reused: Vec<usize> = Vec::new();
    let mut i: usize = 0;
    while i < part.sections.len()
        invariant
            i <= part.sections@.len(),
            texts(titles@) == used,
            keep == (|i: int| used.contains(title_key(part.sections@[i].title@))),
            reused@ == positions(keep, i as nat),
        decreases part.sections@.len() - i,
    {
        let t = comparable_title(part.sections[i].title.as_str());
        if list_has(&titles, t.as_str()) {
            reused.push(i);
        }
        i += 1;
    }
    if reused.len() > 0 {
        return Err(PartFault::Reused(reused));
    }
    Ok(())
}

/// A section whose prerequisites are counted from the beginning of the whole
/// document.
pub open spec fn shifted(section: SectionModel, offset: nat) -> SectionModel {
    SectionModel {
        depends_on: section.depends_on.map_values(|d: usize| (d + offset) as usize),
        ..section
    }
}

/// The sections of a part, shifted.
pub open spec fn shifted_sections(sections: Seq<SectionModel>, offset: nat) -> Seq<SectionModel> {
    sections.map_values(|s: SectionModel| shifted(s, offset))
}

/// The values of a list of plans.
pub open spec fn outline_models(v: Seq<Outline>) -> Seq<OutlineModel> {
    v.map_values(|o: Outline| o@)
}

/// The sections of the first `count` parts, one behind the other.
pub open spec fn joined_sections(parts: Seq<OutlineModel>, count: nat) -> Seq<SectionModel>
    decreases count,
{
    if count == 0 {
        Seq::empty()
    } else {
        let before = joined_sections(parts, (count - 1) as nat);
        before + shifted_sections(parts[count - 1].sections, before.len())
    }
}

/// The exclusions of the chapters and of the first `count` parts.
pub open spec fn joined_exclusions(
    chapters: Seq<ExclusionModel>,
    parts: Seq<OutlineModel>,
    count: nat,
) -> Seq<ExclusionModel>
    decreases count,
{
    if count == 0 {
        chapters
    } else {
        joined_exclusions(chapters, parts, (count - 1) as nat) + parts[count - 1].excluded_branches
    }
}

/// Every section of a plan depends on earlier sections only.
pub open spec fn reads_forward(sections: Seq<SectionModel>) -> bool {
    forall|i: int, k: int|
        0 <= i < sections.len() && 0 <= k < sections[i].depends_on.len() ==> (
        #[trigger] sections[i].depends_on[k]) < i
}

/// Parts that read forward make a document that reads forward.
pub proof fn joined_plans_read_forward(parts: Seq<OutlineModel>, count: nat)
    requires
        count <= parts.len(),
        forall|p: int| 0 <= p < parts.len() ==> reads_forward((#[trigger] parts[p]).sections),
        joined_sections(parts, count).len() <= usize::MAX,
    ensures
        reads_forward(joined_sections(parts, count)),
    decreases count,
{
    if count > 0 {
        let before = joined_sections(parts, (count - 1) as nat);
        let own = parts[count - 1].sections;
        let now = joined_sections(parts, count);
        assert(now.len() == before.len() + own.len());
        joined_plans_read_forward(parts, (count - 1) as nat);
        assert(reads_forward(own));
        assert forall|i: int, k: int|
            0 <= i < now.len() && 0 <= k < now[i].depends_on.len() implies (
        #[trigger] now[i].depends_on[k]) < i by {
            if i < before.len() {
                assert(now[i] == before[i]);
                assert(before[i].depends_on[k] < i);
            } else {
                let j = i - before.len();
                assert(now[i] == shifted(own[j], before.len()));
                assert(own[j].depends_on[k] < j);
            }
        }
    }
}

/// A section with its prerequisites counted from the beginning of the document.
fn shift_section(section: &SectionPlan, offset: usize) -> (r: SectionPlan)
    requires
        forall|k: int|
            0 <= k < section.depends_on@.len() ==> (#[trigger] section.depends_on@[k]) + offset
                <= usize::MAX,
    ensures
        r@ == shifted(section@, offset as nat),
{
    let ghost goal = shifted(section@, offset as nat).depends_on;
    let mut depends_on: Vec<usize> = Vec::new();
    let mut k: usize = 0;
    while k < section.depends_on.len()
        invariant
            k <= section.depends_on@.len(),
            forall|k: int|
                0 <= k < section.depends_on@.len() ==> (#[trigger] section.depends_on@[k]) + offset
                    <= usize::MAX,
            goal == section.depends_on@.map_values(|d: usize| (d + offset as nat) as usize),
            depends_on@ == goal.take(k as int),
        decreases section.depends_on@.len() - k,
    {
        let d: usize = section.depends_on[k] + offset;
        assert(goal.take(k + 1) =~= goal.take(k as int).push(d));
        depends_on.push(d);
        k += 1;
    }
    assert(goal.take(k as int) =~= goal);
    SectionPlan {
        id: section.id.clone(),
        title: section.title.clone(),
        query: section.query.clone(),
        reader_question: section.reader_question.clone(),
        handoff: section.handoff.clone(),
        diagrams: match &section.diagrams {
            Some(d) => Some(copy_texts(d)),
            None => None,
        },
        depends_on,
        evidence_ids: copy_texts(&section.evidence_ids),
        owns_requirement_ids: copy_texts(&section.owns_requirement_ids),
        key_points: copy_texts(&section.key_points),
        out_of_scope: copy_texts(&section.out_of_scope),
        branches: copy_texts(&section.branches),
    }
}

proof fn lemma_joined_len(parts: Seq<OutlineModel>, count: nat, all: nat)
    requires
        count <= all <= parts.len(),
    ensures
        joined_sections(parts, count).len() <= joined_sections(parts, all).len(),
    decreases all - count,
{
    if count < all {
        lemma_joined_len(parts, count, (all - 1) as nat);
    }
}

/// Joins the plans of all parts into the plan of the document, under the goal
/// and the storyline of its chapters.
#[verifier::rlimit(30)]
pub fn join_chapters(chapters: &Chapters, parts: &Vec<Outline>, revision: u32) -> (r: Outline)
    requires
        forall|p: int|
            0 <= p < parts@.len() ==> reads_forward((#[trigger] outline_models(
                parts@,
            )[p]).sections),
        joined_sections(outline_models(parts@), parts@.len()).len() <= usize::MAX,
    ensures
        r@ == (OutlineModel {
            sections: joined_sections(outline_models(parts@), parts@.len()),
            reader_goal: chapters.reader_goal@,
            storyline: chapters.storyline@,
            terminology: Seq::empty(),
            requirements: Seq::empty(),
            revision,
            excluded_branches: joined_exclusions(
                exclusion_models(chapters.excluded_branches@),
                outline_models(parts@),
                parts@.len(),
            ),
        }),
        reads_forward(r@.sections),
{
    let ghost ps = outline_models(parts@);
    let ghost ce = exclusion_models(chapters.excluded_branches@);
    let mut sections: Vec<SectionPlan> = Vec::new();
    let mut excluded: Vec<BranchExclusion> = Vec::new();
    let mut e: usize = 0;
    assert(exclusion_models(excluded@) =~= ce.take(0));
    while e < chapters.excluded_branches.len()
        invariant
            e <= chapters.excluded_branches@.len(),
            ce == exclusion_models(chapters.excluded_branches@),
            exclusion_models(excluded@) == ce.take(e as int),
        decreases chapters.excluded_branches@.len() - e,
    {
        let x = chapters.excluded_branches[e].clone();
        assert(exclusion_models(excluded@.push(x)) =~= exclusion_models(excluded@).push(x@));
        assert(ce.take(e + 1) =~= ce.take(e as int).push(x@));
        excluded.push(x);
        e += 1;
    }
    assert(ce.take(e as int) =~= ce);
    let mut p: usize = 0;
    assert(section_models(sections@) =~= Seq::empty());
    while p < parts.len()
        invariant
            p <= parts@.len(),
            ps == outline_models(parts@),
            ce == exclusion_models(chapters.excluded_branches@),
            forall|p: int| 0 <= p < ps.len() ==> reads_forward((#[trigger] ps[p]).sections),
            joined_sections(ps, ps.len()).len() <= usize::MAX,
            section_models(sections@) == joined_sections(ps, p as nat),
            exclusion_models(excluded@) == joined_exclusions(ce, ps, p as nat),
        decreases parts@.len() - p,
    {
        let part = &parts[p];
        let ghost own = ps[p as int].sections;
        let ghost start = section_models(sections@);
        let ghost out = exclusion_models(excluded@);
        let offset: usize = sections.len();
        proof {
            lemma_joined_len(ps, (p + 1) as nat, ps.len());
            assert(start.len() == offset);
            assert(own == section_models(part.sections@));
            assert(reads_forward(ps[p as int].sections));
        }
        let ghost moved = shifted_sections(own, offset as nat);
        let mut s: usize = 0;
        assert(start + moved.take(0) =~= start);
        while s < part.sections.len()
            invariant
                s <= part.sections@.len(),
                own == section_models(part.sections@),
                reads_forward(own),
                offset + own.len() <= usize::MAX,
                moved == shifted_sections(own, offset as nat),
                section_models(sections@) == start + moved.take(s as int),
            decreases part.sections@.len() - s,
        {
            proof {
                assert(own[s as int] == part.sections@[s as int]@);
                assert forall|k: int| 0 <= k < part.sections@[s as int].depends_on@.len() implies (
                #[trigger] part.sections@[s as int].depends_on@[k]) + offset <= usize::MAX by {
                    assert(own[s as int].depends_on[k] < s);
                }
            }
            let section = shift_section(&part.sections[s], offset);
            proof {
                assert(moved[s as int] == section@);
                assert(section_models(sections@.push(section)) =~= section_models(sections@).push(
                    section@,
                ));
                assert(start + moved.take(s + 1) =~= (start + moved.take(s as int)).push(
                    section@,
                ));
            }
            sections.push(section);
            s += 1;
        }
        assert(moved.take(s as int) =~= moved);
        let ghost more = exclusion_models(part.excluded_branches@);
        let mut x: usize = 0;
        assert(out + more.take(0) =~= out);
        while x < part.excluded_branches.len()
            invariant
                x <= part.excluded_branches@.len(),
                more == exclusion_models(part.excluded_branches@),
                exclusion_models(excluded@) == out + more.take(x as int),
            decreases part.excluded_branches@.len() - x,
        {
            let item = part.excluded_branches[x].clone();
            assert(exclusion_models(excluded@.push(item)) =~= exclusion_models(excluded@).push(
                item@,
            ));
            assert(out + more.take(x + 1) =~= (out + more.take(x as int)).push(item@));
            excluded.push(item);
            x += 1;
        }
        assert(more.take(x as int) =~= more);
        p += 1;
    }
    proof {
        joined_plans_read_forward(ps, ps.len());
    }
    let terminology: Vec<String> = Vec::new();
    assert(texts(terminology@) =~= Seq::empty());
    let requirements: Vec<Requirement> = Vec::new();
    assert(requirement_models(requirements@) =~= Seq::empty());
    Outline {
        sections,
        reader_goal: chapters.reader_goal.clone(),
        storyline: chapters.storyline.clone(),
        terminology,
        requirements,
        revision,
        excluded_branches: excluded,
    }
}

// ---------------------------------------------------------------------------
// Reviews
// ---------------------------------------------------------------------------

/// An issue of a review is usable.
pub open spec fn issue_ok(i: IssueModel) -> bool {
    &&& i.severity == "major"@ || i.severity == "minor"@
    &&& bounded(i.message, 4000)
    &&& bounded(i.code, 100)
    &&& blen(i.query) <= 2000
}

/// The issues of a review with the sections that they name in full, where each
/// names sections of the plan and is usable, and there are at most eight.
pub open spec fn reviewed(issues: Seq<IssueModel>, plan: Outline, count: nat) -> Option<
    Seq<IssueModel>,
>
    decreases count,
{
    if count == 0 {
        Some(Seq::empty())
    } else {
        let i = issues[count - 1];
        match (
            reviewed(issues, plan, (count - 1) as nat),
            full_ids(i.section_ids, plan, i.section_ids.len()),
        ) {
            (Some(done), Some(ids)) if issue_ok(i) => Some(
                done.push(IssueModel { section_ids: ids, ..i }),
            ),
            _ => None,
        }
    }
}

proof fn lemma_reviewed_stop(issues: Seq<IssueModel>, plan: Outline, count: nat, all: nat)
    requires
        count <= all,
    ensures
        reviewed(issues, plan, count) is None ==> reviewed(issues, plan, all) is None,
    decreases all - count,
{
    if count < all {
        lemma_reviewed_stop(issues, plan, count, (all - 1) as nat);
    }
}

/// Checks a review of a plan, and completes the section ids that its issues
/// name. `None` where an issue is unusable, names a section that the plan does
/// not have, or there are more than eight.
pub fn check_review(review: &OutlineReview, plan: &Outline) -> (r: Option<OutlineReview>)
    ensures
        if review.issues@.len() > 8 {
            r is None
        } else {
            match reviewed(issue_models(review.issues@), *plan, review.issues@.len()) {
                Some(issues) => r is Some && issue_models(r->0.issues@) == issues,
                None => r is None,
            }
        },
{
    if review.issues.len() > 8 {
        return None;
    }
    let ghost all = issue_models(review.issues@);
    let mut issues: Vec<OutlineIssue> = Vec::new();
    let mut k: usize = 0;
    assert(issue_models(issues@) =~= Seq::empty());
    while k < review.issues.len()
        invariant
            k <= review.issues@.len() <= 8,
            all == issue_models(review.issues@),
            reviewed(all, *plan, k as nat) == Some(issue_models(issues@)),
        decreases review.issues@.len() - k,
    {
        let i = &review.issues[k];
        proof {
            lemma_reviewed_stop(all, *plan, (k + 1) as nat, all.len());
            assert(all[k as int] == i@);
            assert(texts(i.section_ids@).len() == i.section_ids@.len());
        }
        let ids = match resolve_section_ids(&i.section_ids, plan) {
            Some(ids) => ids,
            None => {
                return None;
            },
        };
        if !(same(i.severity.as_str(), "major") || same(i.severity.as_str(), "minor"))
            || !bounded_text(i.message.as_str(), 4000) || !bounded_text(i.code.as_str(), 100)
            || i.query.as_str().as_bytes().len() > 2000 {
            return None;
        }
        let issue = OutlineIssue {
            severity: i.severity.clone(),
            code: i.code.clone(),
            message: i.message.clone(),
            section_ids: ids,
            requirement_ids: copy_texts(&i.requirement_ids),
            query: i.query.clone(),
        };
        assert(issue_models(issues@.push(issue)) =~= issue_models(issues@).push(issue@));
        issues.push(issue);
        k += 1;
    }
    Some(OutlineReview { issues })
}

// ---------------------------------------------------------------------------
// Rounds
// ---------------------------------------------------------------------------

/// How far the planning of an outline has come.
#[derive(Clone, Copy, Debug, PartialEq, Eq, Structural)]
pub struct OutlineState {
    pub revision: u32,
    pub round: u64,
    pub extra_queries: usize,
}

/// The number under a name, and zero where there is none.
pub open spec fn number_in(value: JsonModel, name: Seq<char>) -> u64 {
    match value.get(name) {
        Some(m) => match m.natural() {
            Some(n) => n,
            None => 0,
        },
        None => 0,
    }
}

/// The state that is stored, in as many bits as its parts have.
pub open spec fn stored_state(value: JsonModel) -> OutlineState {
    OutlineState {
        revision: (number_in(value, "revision"@) % 0x1_0000_0000) as u32,
        round: number_in(value, "round"@),
        extra_queries: if number_in(value, "extra_queries"@) > usize::MAX {
            usize::MAX
        } else {
            number_in(value, "extra_queries"@) as usize
        },
    }
}

/// What is stored of a state.
pub open spec fn state_record(state: OutlineState) -> JsonModel {
    JsonModel::Obj(
        seq![
            field("extra_queries"@, nat_model(state.extra_queries as nat)),
            field("revision"@, nat_model(state.revision as nat)),
            field("round"@, nat_model(state.round as nat)),
        ],
    )
}

/// What is stored of a state reads as that state, so that planning goes on where
/// it stopped.
pub proof fn stored_states_come_back(state: OutlineState)
    ensures
        stored_state(state_record(state)) == state,
{
    reveal_strlit("extra_queries");
    reveal_strlit("revision");
    reveal_strlit("round");
    assert("extra_queries"@.len() == 13 && "revision"@.len() == 8 && "round"@.len() == 5);
    let members = state_record(state)->Obj_0;
    reveal_with_fuel(lookup, 4);
    assert(members.skip(1)[0] == members[1]);
    assert(members.skip(1).skip(1)[0] == members[2]);
    numbers_come_back(state.extra_queries as u64);
    numbers_come_back(state.revision as u64);
    numbers_come_back(state.round);
}

/// The number under a name, and zero where there is none.
fn number_at(value: &Json, name: &str) -> (r: u64)
    ensures
        r == number_in(value@, name@),
{
    match value.get(name) {
        Some(m) => match m.natural() {
            Some(n) => n,
            None => 0,
        },
        None => 0,
    }
}

impl OutlineState {
    /// Reads the state of planning. What is missing is zero.
    pub fn from_json(value: &Json) -> (r: OutlineState)
        ensures
            r == stored_state(value@),
    {
        let queries: u64 = number_at(value, "extra_queries");
        OutlineState {
            revision: (number_at(value, "revision") % 0x1_0000_0000) as u32,
            round: number_at(value, "round"),
            extra_queries: if queries > usize::MAX as u64 {
                usize::MAX
            } else {
                queries as usize
            },
        }
    }

    /// What is stored of the state.
    pub fn to_json(&self) -> (r: Json)
        ensures
            r@ == state_record(*self),
    {
        let members = vec![
            member("extra_queries", Json::count(self.extra_queries)),
            member("revision", Json::count(self.revision as usize)),
            member("round", Json::Num(number(self.round))),
        ];
        assert(member_models(members@) =~= state_record(*self)->Obj_0);
        Json::object(members)
    }

    /// Begins a round: where no candidate is pending, the next revision is
    /// planned. `None` where there is none.
    pub fn begin(&self, pending: bool) -> (r: Option<OutlineState>)
        ensures
            pending ==> r == Some(*self),
            !pending && self.revision < u32::MAX ==> r == Some(
                OutlineState { revision: (self.revision + 1) as u32, ..*self },
            ),
            !pending && self.revision == u32::MAX ==> r is None,
    {
        if pending {
            return Some(*self);
        }
        if self.revision == u32::MAX {
            return None;
        }
        Some(OutlineState { revision: self.revision + 1, ..*self })
    }
}

/// What follows the review of a plan.
pub enum OutlineStep {
    /// The plan is accepted.
    Accept,
    /// A person has to approve the plan first.
    AwaitApproval,
    /// Two corrections left major issues; a person has to decide.
    AwaitDecision,
    /// Another plan is made, once the sources that these issues ask for are
    /// read.
    Revise(Vec<usize>),
}

/// None of the issues is major.
pub open spec fn no_major(issues: Seq<OutlineIssue>) -> bool {
    forall|i: int| 0 <= i < issues.len() ==> (#[trigger] issues[i]).severity@ != "major"@
}

/// The first `room` issues that ask for sources.
pub open spec fn asking(issues: Seq<OutlineIssue>, room: nat) -> Seq<usize> {
    let all = positions(|i: int| trim(issues[i].query@).len() > 0, issues.len());
    if all.len() <= room {
        all
    } else {
        all.take(room as int)
    }
}

/// How many more sources may be asked for.
pub open spec fn query_room(state: OutlineState) -> nat {
    if state.extra_queries >= 3 {
        0
    } else {
        (3 - state.extra_queries) as nat
    }
}

/// Whether none of the issues is major.
fn settles(issues: &Vec<OutlineIssue>) -> (r: bool)
    ensures
        r == no_major(issues@),
{
    let mut i: usize = 0;
    while i < issues.len()
        invariant
            i <= issues@.len(),
            forall|k: int| 0 <= k < i ==> (#[trigger] issues@[k]).severity@ != "major"@,
        decreases issues@.len() - i,
    {
        if same(issues[i].severity.as_str(), "major") {
            return false;
        }
        i += 1;
    }
    true
}

/// Judges the review of a plan. A plan without major issues is accepted, once it
/// is approved where that was asked for; one with major issues is planned again,
/// twice at most. Returns the next step and the state that goes with it.
pub fn judge_review(
    state: OutlineState,
    plan_revision: u32,
    issues: &Vec<OutlineIssue>,
    preview: bool,
    approved: Option<u64>,
) -> (r: (OutlineStep, OutlineState))
    ensures
        no_major(issues@) && preview && approved != Some(plan_revision as u64)
            ==> r.0 is AwaitApproval && r.1 == state,
        no_major(issues@) && !(preview && approved != Some(plan_revision as u64)) ==> r.0 is Accept
            && r.1 == state,
        !no_major(issues@) && state.round >= 2 ==> r.0 is AwaitDecision && r.1 == state,
        !no_major(issues@) && state.round < 2 ==> {
            &&& r.0 is Revise
            &&& r.0->Revise_0@ == asking(issues@, query_room(state))
            &&& r.1 == (OutlineState {
                revision: state.revision,
                round: (state.round + 1) as u64,
                extra_queries: (state.extra_queries + r.0->Revise_0@.len()) as usize,
            })
            &&& state.extra_queries <= 3 ==> r.1.extra_queries <= 3
        },
{
    if settles(issues) {
        let given = match approved {
            Some(n) => n == plan_revision as u64,
            None => false,
        };
        if preview && !given {
            return (OutlineStep::AwaitApproval, state);
        }
        return (OutlineStep::Accept, state);
    }
    if state.round >= 2 {
        return (OutlineStep::AwaitDecision, state);
    }
    let room: usize = if state.extra_queries >= 3 {
        0
    } else {
        3 - state.extra_queries
    };
    let ghost keep = |i: int| trim(issues@[i].query@).len() > 0;
    let mut all: Vec<usize> = Vec::new();
    let mut i: usize = 0;
    while i < issues.len()
        invariant
            i <= issues@.len(),
            keep == (|i: int| trim(issues@[i].query@).len() > 0),
            all@ == positions(keep, i as nat),
        decreases issues@.len() - i,
    {
        if !is_blank(issues[i].query.as_str()) {
            all.push(i);
        }
        i += 1;
    }
    if all.len() > room {
        all.truncate(room);
    }
    assert(all@ =~= asking(issues@, query_room(state)));
    let asked: usize = all.len();
    (
        OutlineStep::Revise(all),
        OutlineState {
            revision: state.revision,
            round: state.round + 1,
            extra_queries: state.extra_queries + asked,
        },
    )
}

/// Planned passages are missing.
#[derive(Clone, Copy, Debug, PartialEq, Eq, Structural)]
pub struct MissingEvidence;

/// The passages that a section was planned with, all of them.
pub fn section_evidence(evidence: &Vec<Evidence>, ids: &Vec<String>) -> (r: Result<
    Vec<Evidence>,
    MissingEvidence,
>)
    ensures
        ({
            let found = cited_passages(evidence@, texts(ids@), evidence@.len());
            if found.len() == ids@.len() {
                r is Ok && r->Ok_0@ == found
            } else {
                r is Err
            }
        }),
{
    let found = passages_cited(evidence, ids);
    if found.len() == ids.len() {
        Ok(found)
    } else {
        Err(MissingEvidence)
    }
}

} // verus!
