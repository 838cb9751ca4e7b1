//! What planning requests carry, and what is made of their answers.

use vstd::prelude::*;
use vstd::string::StringExecFns;

use crate::budget::{lesser, packing_room};
use crate::context::Density;
use crate::editorial::{at_most, has_id};
use crate::findings::{finding_models, BriefModel, Discovery, Finding, FindingModel, SourceBrief};
use crate::json::{
    field, lemma_arr, lemma_obj, member, member_models, models, nat_model, put, put_member, text_of, texts_json,
    texts_model, Json, JsonModel, Member, MemberModel,
};
use crate::leaves::{kind_name, kind_text};
use crate::llm::repair::{decode, first_value, readings};
use crate::model::{Evidence, LlmConfig};
use crate::packing::{contains_id, packed_by_file};
use crate::planning::feedback::or_null;
use crate::planning::places::{relative, relative_to};
use crate::purpose::{pack, DiscoveryModel};
use crate::text::{blen, list_has, number, same, texts};

verus! {

/// Bytes of evidence that a planning request carries at most.
pub const PLANNING_EVIDENCE_BYTES: usize = 48_000;

/// What rides along with the packed evidence of a planning request: the brief,
/// supporting findings, anchors, feedback, the instruction and the branch view.
pub const PLAN_REQUEST_OVERHEAD_BYTES: usize = 56_000;

// ---------------------------------------------------------------------------
// Passages
// ---------------------------------------------------------------------------

/// A passage as it is stored.
pub open spec fn evidence_record(e: Evidence) -> JsonModel {
    JsonModel::Obj(
        seq![
            field("content"@, JsonModel::Str(e.content@)),
            field("end"@, nat_model(e.end as nat)),
            field("id"@, JsonModel::Str(e.id@)),
            field("path"@, JsonModel::Str(e.path@)),
            field("start"@, nat_model(e.start as nat)),
        ],
    )
}

/// Passages as they are stored.
pub open spec fn evidence_records(list: Seq<Evidence>) -> JsonModel {
    JsonModel::Arr(list.map_values(|e: Evidence| evidence_record(e)))
}

/// A passage with its runtime class.
pub open spec fn classified_record(e: Evidence, implementation: bool) -> JsonModel {
    JsonModel::Obj(
        seq![
            field("content"@, JsonModel::Str(e.content@)),
            field("end"@, nat_model(e.end as nat)),
            field("id"@, JsonModel::Str(e.id@)),
            field("path"@, JsonModel::Str(e.path@)),
            field("runtime_allowed"@, JsonModel::Bool(implementation)),
            field("start"@, nat_model(e.start as nat)),
        ],
    )
}

/// A passage that may be cited without its text.
pub open spec fn anchor_record(e: Evidence, implementation: bool) -> JsonModel {
    JsonModel::Obj(
        seq![
            field("id"@, JsonModel::Str(e.id@)),
            field("path"@, JsonModel::Str(e.path@)),
            field("previously_read"@, JsonModel::Bool(true)),
            field("runtime_allowed"@, JsonModel::Bool(implementation)),
        ],
    )
}

/// One of the first `count` passages has this id.
pub open spec fn seen_before(list: Seq<Evidence>, count: int, id: Seq<char>) -> bool {
    has_id(list.take(count), id)
}

/// The first `count` passages that are not shown, each once, as anchors.
pub open spec fn anchor_records(
    retained: Seq<Evidence>,
    implementation: Seq<bool>,
    shown: Seq<Evidence>,
    count: nat,
) -> Seq<JsonModel>
    decreases count,
{
    if count == 0 {
        Seq::empty()
    } else {
        let before = anchor_records(retained, implementation, shown, (count - 1) as nat);
        let e = retained[count - 1];
        if has_id(shown, e.id@) || seen_before(retained, count - 1, e.id@) {
            before
        } else {
            before.push(anchor_record(e, implementation[count - 1]))
        }
    }
}

/// A 32-bit number.
fn number_json(n: u32) -> (r: Json)
    ensures
        r@ == nat_model(n as nat),
{
    Json::Num(number(n as u64))
}

/// Passages as they are stored.
pub fn evidence_json(list: &Vec<Evidence>) -> (r: Json)
    ensures
        r@ == evidence_records(list@),
{
    let ghost goal = list@.map_values(|e: Evidence| evidence_record(e));
    let mut items: Vec<Json> = Vec::new();
    let mut i: usize = 0;
    assert(models(items@) =~= goal.take(0));
    while i < list.len()
        invariant
            i <= list@.len(),
            goal == list@.map_values(|e: Evidence| evidence_record(e)),
            models(items@) == goal.take(i as int),
        decreases list@.len() - i,
    {
        let e = &list[i];
        let members = vec![
            member("content", Json::string(e.content.as_str())),
            member("end", number_json(e.end)),
            member("id", Json::string(e.id.as_str())),
            member("path", Json::string(e.path.as_str())),
            member("start", number_json(e.start)),
        ];
        let item = Json::object(members);
        proof {
            assert(member_models(members@) =~= evidence_record(*e)->Obj_0);
            assert(goal[i as int] == item@);
            assert(models(items@.push(item)) =~= models(items@).push(item@));
            assert(goal.take(i + 1) =~= goal.take(i as int).push(item@));
        }
        items.push(item);
        i += 1;
    }
    assert(goal.take(i as int) =~= goal);
    Json::array(items)
}

/// Supplied passages with their runtime class. `implementation` tells of each
/// passage whether it is implementation.
pub fn classified(evidence: &Vec<Evidence>, implementation: &Vec<bool>) -> (r: Vec<Json>)
    requires
        implementation@.len() == evidence@.len(),
    ensures
        r@.len() == evidence@.len(),
        forall|i: int|
            0 <= i < r@.len() ==> (#[trigger] r@[i])@ == classified_record(
                evidence@[i],
                implementation@[i],
            ),
{
    let mut r: Vec<Json> = Vec::new();
    let mut i: usize = 0;
    while i < evidence.len()
        invariant
            i <= evidence@.len() == implementation@.len(),
            r@.len() == i,
            forall|k: int|
                0 <= k < i ==> (#[trigger] r@[k])@ == classified_record(
                    evidence@[k],
                    implementation@[k],
                ),
        decreases evidence@.len() - i,
    {
        let e = &evidence[i];
        let members = vec![
            member("content", Json::string(e.content.as_str())),
            member("end", number_json(e.end)),
            member("id", Json::string(e.id.as_str())),
            member("path", Json::string(e.path.as_str())),
            member("runtime_allowed", Json::Bool(implementation[i])),
            member("start", number_json(e.start)),
        ];
        assert(member_models(members@) =~= classified_record(
            *e,
            implementation@[i as int],
        )->Obj_0);
        r.push(Json::object(members));
        i += 1;
    }
    r
}

/// Whether one of the first `count` passages has this id.
fn is_seen(list: &Vec<Evidence>, count: usize, id: &str) -> (r: bool)
    requires
        count <= list@.len(),
    ensures
        r == seen_before(list@, count as int, id@),
{
    let ghost head = list@.take(count as int);
    let mut k: usize = 0;
    while k < count
        invariant
            k <= count <= list@.len(),
            head == list@.take(count as int),
            forall|j: int| 0 <= j < k ==> (#[trigger] head[j]).id@ != id@,
        decreases count - k,
    {
        if same(list[k].id.as_str(), id) {
            assert(head[k as int].id@ == id@);
            return true;
        }
        k += 1;
    }
    false
}

/// Previously read passages that a request may cite without their text, without
/// those whose text it carries.
pub fn anchors(retained: &Vec<Evidence>, implementation: &Vec<bool>, shown: &Vec<Evidence>) -> (r: Vec<
    Json,
>)
    requires
        implementation@.len() == retained@.len(),
    ensures
        models(r@) == anchor_records(retained@, implementation@, shown@, retained@.len()),
{
    let mut r: Vec<Json> = Vec::new();
    let mut i: usize = 0;
    assert(models(r@) =~= Seq::empty());
    while i < retained.len()
        invariant
            i <= retained@.len() == implementation@.len(),
            models(r@) == anchor_records(retained@, implementation@, shown@, i as nat),
        decreases retained@.len() - i,
    {
        let e = &retained[i];
        if !contains_id(shown, e.id.as_str()) && !is_seen(retained, i, e.id.as_str()) {
            let members = vec![
                member("id", Json::string(e.id.as_str())),
                member("path", Json::string(e.path.as_str())),
                member("previously_read", Json::Bool(true)),
                member("runtime_allowed", Json::Bool(implementation[i])),
            ];
            assert(member_models(members@) =~= anchor_record(
                *e,
                implementation@[i as int],
            )->Obj_0);
            let item = Json::object(members);
            assert(models(r@.push(item)) =~= models(r@).push(item@));
            r.push(item);
        }
        i += 1;
    }
    r
}

/// A finding without its citations.
pub open spec fn bare_finding(f: FindingModel) -> JsonModel {
    JsonModel::Obj(
        seq![
            field("kind"@, JsonModel::Str(kind_name(f.kind))),
            field("observation"@, JsonModel::Str(f.observation)),
            field("topic"@, JsonModel::Str(f.topic)),
        ],
    )
}

/// A brief without its citations.
pub open spec fn bare_brief(brief: BriefModel) -> JsonModel {
    JsonModel::Obj(
        seq![
            field(
                "findings"@,
                JsonModel::Arr(brief.findings.map_values(|f: FindingModel| bare_finding(f))),
            ),
            field("uncertainties"@, texts_model(brief.uncertainties)),
        ],
    )
}

/// A brief without its citations, for a request that judges structure and never
/// cites a passage.
pub fn uncited(brief: &SourceBrief) -> (r: Json)
    ensures
        r@ == bare_brief(brief@),
{
    let ghost goal = brief@.findings.map_values(|f: FindingModel| bare_finding(f));
    let mut items: Vec<Json> = Vec::new();
    let mut i: usize = 0;
    assert(models(items@) =~= goal.take(0));
    while i < brief.findings.len()
        invariant
            i <= brief.findings@.len(),
            goal == brief@.findings.map_values(|f: FindingModel| bare_finding(f)),
            models(items@) == goal.take(i as int),
        decreases brief.findings@.len() - i,
    {
        let f = &brief.findings[i];
        let members = vec![
            member("kind", Json::string(kind_text(f.kind))),
            member("observation", Json::string(f.observation.as_str())),
            member("topic", Json::string(f.topic.as_str())),
        ];
        let item = Json::object(members);
        proof {
            assert(member_models(members@) =~= bare_finding(f@)->Obj_0);
            assert(goal[i as int] == item@);
            assert(models(items@.push(item)) =~= models(items@).push(item@));
            assert(goal.take(i + 1) =~= goal.take(i as int).push(item@));
        }
        items.push(item);
        i += 1;
    }
    assert(goal.take(i as int) =~= goal);
    let members = vec![
        member("findings", Json::array(items)),
        member("uncertainties", texts_json(&brief.uncertainties)),
    ];
    assert(member_models(members@) =~= bare_brief(brief@)->Obj_0);
    Json::object(members)
}

// ---------------------------------------------------------------------------
// Narrowing to a chapter
// ---------------------------------------------------------------------------

/// The first `count` passages whose file is one of those listed.
pub open spec fn passages_of_files(
    evidence: Seq<Evidence>,
    files: Seq<Seq<char>>,
    roots: Seq<Seq<char>>,
    count: nat,
) -> Seq<Evidence>
    decreases count,
{
    if count == 0 {
        Seq::empty()
    } else {
        let before = passages_of_files(evidence, files, roots, (count - 1) as nat);
        if files.contains(relative_to(evidence[count - 1].path@, roots)) {
            before.push(evidence[count - 1])
        } else {
            before
        }
    }
}

/// A finding cites one of the passages.
pub open spec fn cites_one(f: FindingModel, evidence: Seq<Evidence>) -> bool {
    exists|i: int| 0 <= i < f.evidence_ids.len() && has_id(evidence, #[trigger] f.evidence_ids[i])
}

/// The first `count` findings that cite one of the passages.
pub open spec fn findings_citing(
    findings: Seq<FindingModel>,
    evidence: Seq<Evidence>,
    count: nat,
) -> Seq<FindingModel>
    decreases count,
{
    if count == 0 {
        Seq::empty()
    } else {
        let before = findings_citing(findings, evidence, (count - 1) as nat);
        if cites_one(findings[count - 1], evidence) {
            before.push(findings[count - 1])
        } else {
            before
        }
    }
}

/// What was discovered, narrowed to some files.
pub open spec fn narrowed(
    d: DiscoveryModel,
    files: Seq<Seq<char>>,
    roots: Seq<Seq<char>>,
) -> DiscoveryModel {
    let evidence = passages_of_files(d.evidence, files, roots, d.evidence.len());
    DiscoveryModel {
        brief: BriefModel {
            findings: findings_citing(d.brief.findings, evidence, d.brief.findings.len()),
            uncertainties: Seq::empty(),
            followup_queries: Seq::empty(),
        },
        evidence,
        details: findings_citing(d.details, evidence, d.details.len()),
        validation_unresolved: d.validation_unresolved,
    }
}

/// Whether a finding cites one of the passages.
fn cites_any(f: &Finding, evidence: &Vec<Evidence>) -> (r: bool)
    ensures
        r == cites_one(f@, evidence@),
{
    let ghost ids = f@.evidence_ids;
    let mut i: usize = 0;
    while i < f.evidence_ids.len()
        invariant
            i <= f.evidence_ids@.len(),
            ids == texts(f.evidence_ids@),
            ids == f@.evidence_ids,
            forall|k: int| 0 <= k < i ==> !has_id(evidence@, #[trigger] ids[k]),
        decreases f.evidence_ids@.len() - i,
    {
        if contains_id(evidence, f.evidence_ids[i].as_str()) {
            assert(has_id(evidence@, f@.evidence_ids[i as int]));
            return true;
        }
        i += 1;
    }
    false
}

/// The findings that cite one of the passages.
fn keep_citing(findings: &Vec<Finding>, evidence: &Vec<Evidence>) -> (r: Vec<Finding>)
    ensures
        finding_models(r@) == findings_citing(
            finding_models(findings@),
            evidence@,
            findings@.len(),
        ),
{
    let ghost all = finding_models(findings@);
    let mut r: Vec<Finding> = Vec::new();
    let mut i: usize = 0;
    assert(finding_models(r@) =~= Seq::empty());
    while i < findings.len()
        invariant
            i <= findings@.len(),
            all == finding_models(findings@),
            finding_models(r@) == findings_citing(all, evidence@, i as nat),
        decreases findings@.len() - i,
    {
        assert(all[i as int] == findings@[i as int]@);
        if cites_any(&findings[i], evidence) {
            let f = findings[i].clone();
            assert(finding_models(r@.push(f)) =~= finding_models(r@).push(f@));
            r.push(f);
        }
        i += 1;
    }
    r
}

/// The purpose reading narrowed to the files that a chapter covers.
pub fn scope_discovery(discovery: &Discovery, files: &Vec<String>, roots: &Vec<String>) -> (r: Discovery)
    ensures
        r@ == narrowed(discovery@, texts(files@), texts(roots@)),
{
    let ghost fs = texts(files@);
    let ghost rs = texts(roots@);
    let mut evidence: Vec<Evidence> = Vec::new();
    let mut i: usize = 0;
    while i < discovery.evidence.len()
        invariant
            i <= discovery.evidence@.len(),
            fs == texts(files@),
            rs == texts(roots@),
            evidence@ == passages_of_files(discovery.evidence@, fs, rs, i as nat),
        decreases discovery.evidence@.len() - i,
    {
        let path = relative(discovery.evidence[i].path.as_str(), roots);
        if list_has(files, path.as_str()) {
            evidence.push(discovery.evidence[i].clone());
        }
        i += 1;
    }
    let none: Vec<String> = Vec::new();
    let nothing: Vec<String> = Vec::new();
    assert(texts(none@) =~= Seq::empty());
    assert(texts(nothing@) =~= Seq::empty());
    assert(finding_models(discovery.brief.findings@).len() == discovery.brief.findings@.len());
    assert(finding_models(discovery.details@).len() == discovery.details@.len());
    Discovery {
        brief: SourceBrief {
            findings: keep_citing(&discovery.brief.findings, &evidence),
            uncertainties: none,
            followup_queries: nothing,
        },
        details: keep_citing(&discovery.details, &evidence),
        evidence,
        validation_unresolved: discovery.validation_unresolved,
    }
}

proof fn lemma_passages_of_files(
    evidence: Seq<Evidence>,
    files: Seq<Seq<char>>,
    roots: Seq<Seq<char>>,
    count: nat,
)
    requires
        count <= evidence.len(),
    ensures
        forall|k: int|
            0 <= k < passages_of_files(evidence, files, roots, count).len() ==> files.contains(
                relative_to(
                    (#[trigger] passages_of_files(evidence, files, roots, count)[k]).path@,
                    roots,
                ),
            ),
    decreases count,
{
    if count > 0 {
        lemma_passages_of_files(evidence, files, roots, (count - 1) as nat);
        let before = passages_of_files(evidence, files, roots, (count - 1) as nat);
        let now = passages_of_files(evidence, files, roots, count);
        assert forall|k: int| 0 <= k < now.len() implies files.contains(
            relative_to((#[trigger] now[k]).path@, roots),
        ) by {
            if k < before.len() {
                assert(now[k] == before[k]);
            }
        }
    }
}

/// A chapter request carries only passages of its own files.
pub proof fn chapters_carry_only_their_files(
    d: DiscoveryModel,
    files: Seq<Seq<char>>,
    roots: Seq<Seq<char>>,
    k: int,
)
    requires
        0 <= k < narrowed(d, files, roots).evidence.len(),
    ensures
        files.contains(relative_to(narrowed(d, files, roots).evidence[k].path@, roots)),
{
    lemma_passages_of_files(d.evidence, files, roots, d.evidence.len());
}

// ---------------------------------------------------------------------------
// Evidence of a planning request
// ---------------------------------------------------------------------------

/// A number halved some times.
pub open spec fn halved(n: nat, times: nat) -> nat
    decreases times,
{
    if times == 0 {
        n
    } else {
        halved(n, (times - 1) as nat) / 2
    }
}

/// The bytes of evidence that a planning request may pack beside what it
/// carries, halved for each time that it came out too large.
pub open spec fn planning_room(
    c: LlmConfig,
    extra_margin: u32,
    density: Density,
    carried: usize,
    reductions: u32,
) -> nat {
    halved(
        lesser(
            packing_room(c, extra_margin, density.value(), carried),
            PLANNING_EVIDENCE_BYTES as nat,
        ),
        lesser(reductions as nat, 16),
    )
}

/// The bytes of evidence that a planning request may pack.
pub fn planning_limit(
    c: &LlmConfig,
    extra_margin: u32,
    density: &Density,
    carried: usize,
    reductions: u32,
) -> (r: usize)
    ensures
        r == planning_room(*c, extra_margin, *density, carried, reductions),
{
    let room = density.packing_limit(c, extra_margin, carried);
    let mut limit: usize = if room < PLANNING_EVIDENCE_BYTES {
        room
    } else {
        PLANNING_EVIDENCE_BYTES
    };
    let ghost start = limit as nat;
    let times: u32 = if reductions < 16 {
        reductions
    } else {
        16
    };
    let mut done: u32 = 0;
    while done < times
        invariant
            done <= times,
            limit == halved(start, done as nat),
        decreases times - done,
    {
        limit = limit / 2;
        done += 1;
    }
    limit
}

/// How much evidence a planning request for a direction of so many bytes
/// budgets.
pub fn evidence_budget(c: &LlmConfig, extra_margin: u32, density: &Density, direction: usize) -> (r:
    usize)
    ensures
        r == lesser(
            packing_room(
                *c,
                extra_margin,
                density.value(),
                lesser(
                    (PLAN_REQUEST_OVERHEAD_BYTES + direction) as nat,
                    usize::MAX as nat,
                ) as usize,
            ),
            PLANNING_EVIDENCE_BYTES as nat,
        ),
{
    let overhead: usize = PLAN_REQUEST_OVERHEAD_BYTES.saturating_add(direction);
    let room = density.packing_limit(c, extra_margin, overhead);
    if room < PLANNING_EVIDENCE_BYTES {
        room
    } else {
        PLANNING_EVIDENCE_BYTES
    }
}

/// A planning request has no room for grounded evidence.
#[derive(Clone, Copy, Debug, PartialEq, Eq, Structural)]
pub struct NoRoom;

/// The members of a request with its anchors and its passages.
pub open spec fn with_evidence(
    rest: Seq<MemberModel>,
    anchors: Seq<JsonModel>,
    evidence: Seq<Evidence>,
) -> Seq<MemberModel> {
    put_member(
        put_member(rest, "source_anchors"@, JsonModel::Arr(anchors)),
        "evidence"@,
        evidence_records(evidence),
    )
}

/// The size of a request with every anchor and no passage: its largest shape
/// without passages.
pub open spec fn carried_size(
    rest: Seq<MemberModel>,
    retained: Seq<Evidence>,
    implementation: Seq<bool>,
) -> nat {
    blen(
        text_of(
            JsonModel::Obj(
                with_evidence(
                    rest,
                    anchor_records(retained, implementation, Seq::empty(), retained.len()),
                    Seq::empty(),
                ),
            ),
        ),
    )
}

/// The passages that a planning request packs.
pub open spec fn planned_evidence(
    d: DiscoveryModel,
    rest: Seq<MemberModel>,
    implementation: Seq<bool>,
    c: LlmConfig,
    extra_margin: u32,
    density: Density,
    reductions: u32,
) -> Seq<Evidence> {
    packed_by_file(
        d.evidence,
        planning_room(
            c,
            extra_margin,
            density,
            carried_size(rest, d.evidence, implementation) as usize,
            reductions,
        ),
    )
}

/// The members of an object.
fn members_of(value: Json) -> (r: Vec<Member>)
    requires
        value@ is Obj,
    ensures
        member_models(r@) == value@->Obj_0,
{
    match value {
        Json::Obj(list) => {
            proof {
                lemma_obj(list);
            }
            list
        },
        Json::Arr(items) => {
            proof {
                lemma_arr(items);
            }
            Vec::new()
        },
        _ => Vec::new(),
    }
}

/// Completes a planning request with the passages that fit in the room that the
/// rest of it leaves, and with anchors for the others. Returns how many passages
/// were packed. A request that requires passages is refused where none fits.
pub fn pack_planning_evidence(
    discovery: &Discovery,
    implementation: &Vec<bool>,
    rest: Vec<Member>,
    c: &LlmConfig,
    extra_margin: u32,
    density: &Density,
    reductions: u32,
    required: bool,
) -> (r: Result<(Json, usize), NoRoom>)
    requires
        implementation@.len() == discovery.evidence@.len(),
    ensures
        ({
            let evidence = planned_evidence(
                discovery@,
                member_models(rest@),
                implementation@,
                *c,
                extra_margin,
                *density,
                reductions,
            );
            if required && evidence.len() == 0 {
                r is Err
            } else {
                &&& r is Ok
                &&& r->Ok_0.1 == evidence.len()
                &&& r->Ok_0.0@ == JsonModel::Obj(
                    with_evidence(
                        member_models(rest@),
                        anchor_records(
                            discovery.evidence@,
                            implementation@,
                            evidence,
                            discovery.evidence@.len(),
                        ),
                        evidence,
                    ),
                )
            }
        }),
{
    let ghost ms = member_models(rest@);
    let none: Vec<Evidence> = Vec::new();
    let all = anchors(&discovery.evidence, implementation, &none);
    let ghost every = models(all@);
    assert(none@ =~= Seq::empty());
    let base = Json::object(rest);
    let mut members = members_of(base.copy());
    put(&mut members, "source_anchors", Json::array(all));
    put(&mut members, "evidence", evidence_json(&none));
    assert(member_models(members@) == with_evidence(ms, every, Seq::empty()));
    let carried = Json::object(members).size();
    let limit = planning_limit(c, extra_margin, density, carried, reductions);
    let evidence = pack(discovery, limit);
    if required && evidence.len() == 0 {
        return Err(NoRoom);
    }
    let left = anchors(&discovery.evidence, implementation, &evidence);
    let mut members = members_of(base);
    put(&mut members, "source_anchors", Json::array(left));
    put(&mut members, "evidence", evidence_json(&evidence));
    Ok((Json::object(members), evidence.len()))
}

// ---------------------------------------------------------------------------
// Repairs
// ---------------------------------------------------------------------------

/// What a repair is told of a section's references.
pub open spec fn reference_record(section: JsonModel, index: nat) -> JsonModel {
    JsonModel::Obj(
        seq![
            field("depends_on"@, or_null(section, "depends_on"@)),
            field("index"@, nat_model(index)),
            field("owns_requirement_ids"@, or_null(section, "owns_requirement_ids"@)),
            field("prerequisite_titles"@, or_null(section, "prerequisite_titles"@)),
            field("title"@, or_null(section, "title"@)),
        ],
    )
}

/// What a repair is told of the first sections' references.
pub open spec fn reference_records(value: JsonModel) -> JsonModel {
    let sections = at_most(value.items("sections"@), 64);
    JsonModel::Arr(
        Seq::new(sections.len(), |i: int| reference_record(sections[i], i as nat)),
    )
}

/// The member with this name, and null where there is none.
fn copy_or_null(value: &Json, name: &str) -> (r: Json)
    ensures
        r@ == or_null(value@, name@),
{
    match value.get(name) {
        Some(v) => v.copy(),
        None => Json::Null,
    }
}

/// What a repair is told of the references in a response: nothing where it is no
/// JSON.
pub open spec fn references_in(response: Seq<char>) -> JsonModel {
    match first_value(readings(response), 0) {
        Some(value) => reference_records(value),
        None => JsonModel::Arr(Seq::empty()),
    }
}

/// Keeps every section's references in a repair, even when the response itself
/// is excerpted.
pub fn dependency_repair_context(response: &str) -> (r: Json)
    ensures
        r@ == references_in(response@),
{
    match decode(response) {
        Ok(value) => references_json(&value),
        Err(_) => {
            let none: Vec<Json> = Vec::new();
            assert(models(none@) =~= Seq::empty());
            Json::array(none)
        },
    }
}

/// The references of the first sections.
fn references_json(response: &Json) -> (r: Json)
    ensures
        r@ == reference_records(response@),
{
    let ghost sections = at_most(response@.items("sections"@), 64);
    let ghost goal = reference_records(response@)->Arr_0;
    let mut items: Vec<Json> = Vec::new();
    assert(models(items@) =~= goal.take(0));
    if let Some(list) = response.items("sections") {
        let n: usize = if list.len() < 64 {
            list.len()
        } else {
            64
        };
        let mut i: usize = 0;
        while i < n
            invariant
                i <= n <= list@.len(),
                n == sections.len() == goal.len(),
                sections == at_most(models(list@), 64),
                goal == Seq::new(sections.len(), |i: int| reference_record(sections[i], i as nat)),
                models(items@) == goal.take(i as int),
            decreases n - i,
        {
            let section = &list[i];
            assert(sections[i as int] == section@);
            let members = vec![
                member("depends_on", copy_or_null(section, "depends_on")),
                member("index", Json::count(i)),
                member("owns_requirement_ids", copy_or_null(section, "owns_requirement_ids")),
                member("prerequisite_titles", copy_or_null(section, "prerequisite_titles")),
                member("title", copy_or_null(section, "title")),
            ];
            let item = Json::object(members);
            proof {
                assert(member_models(members@) =~= reference_record(section@, i as nat)->Obj_0);
                assert(goal[i as int] == item@);
                assert(models(items@.push(item)) =~= models(items@).push(item@));
                assert(goal.take(i + 1) =~= goal.take(i as int).push(item@));
            }
            items.push(item);
            i += 1;
        }
    }
    assert(models(items@) =~= goal);
    Json::array(items)
}

} // verus!
