//! What an attempt is told of an answer that was refused: which item broke which
//! rule, so that the next attempt knows what to change.

use vstd::prelude::*;
use vstd::string::StringExecFns;

use super::branches::{BranchView, MAX_CHAPTERS};
use super::chapters::{ChapterError, ChaptersDraft};
use super::generated::{label_models, GeneratedFault, Label, LabelModel};
use super::outline::{ceiling, section_ceiling, OutlineFault};
use crate::findings::{
    evidence_ids, BriefFault, IdFault, SourceBrief, ACCEPTED_EVIDENCE_IDS, ACCEPTED_FINDINGS,
    ACCEPTED_UNCERTAINTIES, MAX_EVIDENCE_IDS, MAX_FINDINGS, MAX_SECTION_ANCHORS, MAX_UNCERTAINTIES,
};
use crate::json::{lemma_arr, lemma_obj, models, Json, JsonModel};
use crate::model::{Evidence, Outline, SectionPlan};
use crate::order::{sort_texts, sorted_texts};
use crate::text::{
    blen, debug_form, decimal, has_prefix, is_blank, join, join_with, number, same, starts_with, texts, to_debug,
    trim, trimmed,
};

verus! {

// ---------------------------------------------------------------------------
// Pieces
// ---------------------------------------------------------------------------

/// A text of a list, and nothing where there is none.
pub open spec fn nth(list: Seq<Seq<char>>, i: int) -> Seq<char> {
    if 0 <= i < list.len() {
        list[i]
    } else {
        Seq::empty()
    }
}

/// A text of a list, and nothing where there is none.
fn pick(list: &Vec<String>, i: usize) -> (r: String)
    ensures
        r@ == nth(texts(list@), i as int),
{
    if i < list.len() {
        assert(texts(list@)[i as int] == list@[i as int]@);
        list[i].clone()
    } else {
        String::new()
    }
}

/// A list of texts, each in quotes.
pub open spec fn quoted_list(list: Seq<Seq<char>>) -> Seq<char> {
    "["@ + join(list.map_values(|t: Seq<char>| debug_form(t)), ", "@) + "]"@
}

/// A list of texts, each in quotes.
fn write_list(list: &Vec<String>) -> (r: String)
    ensures
        r@ == quoted_list(texts(list@)),
{
    let ghost goal = texts(list@).map_values(|t: Seq<char>| debug_form(t));
    let mut parts: Vec<String> = Vec::new();
    let mut i: usize = 0;
    assert(texts(parts@) =~= goal.take(0));
    while i < list.len()
        invariant
            i <= list@.len(),
            goal == texts(list@).map_values(|t: Seq<char>| debug_form(t)),
            texts(parts@) == goal.take(i as int),
        decreases list@.len() - i,
    {
        let part = to_debug(list[i].as_str());
        assert(texts(parts@.push(part)) =~= texts(parts@).push(part@));
        assert(goal.take(i + 1) =~= goal.take(i as int).push(part@));
        parts.push(part);
        i += 1;
    }
    assert(goal.take(i as int) =~= goal);
    let mut s = String::from_str("[");
    s.push_str(join_with(&parts, ", ").as_str());
    s.push_str("]");
    s
}

/// A list of numbers.
pub open spec fn number_list(list: Seq<nat>) -> Seq<char> {
    "["@ + join(list.map_values(|n: nat| decimal(n)), ", "@) + "]"@
}

/// The sizes of texts in bytes.
pub open spec fn sizes(list: Seq<Seq<char>>) -> Seq<nat> {
    list.map_values(|t: Seq<char>| blen(t))
}

/// The numbers of a list.
pub open spec fn as_nats(list: Seq<usize>) -> Seq<nat> {
    list.map_values(|n: usize| n as nat)
}

/// A list of numbers.
fn write_numbers(list: &Vec<usize>) -> (r: String)
    ensures
        r@ == number_list(as_nats(list@)),
{
    let ghost goal = as_nats(list@).map_values(|n: nat| decimal(n));
    let mut parts: Vec<String> = Vec::new();
    let mut i: usize = 0;
    assert(texts(parts@) =~= goal.take(0));
    while i < list.len()
        invariant
            i <= list@.len(),
            goal == as_nats(list@).map_values(|n: nat| decimal(n)),
            texts(parts@) == goal.take(i as int),
        decreases list@.len() - i,
    {
        let part = number(list[i] as u64);
        assert(as_nats(list@)[i as int] == list@[i as int] as nat);
        assert(texts(parts@.push(part)) =~= texts(parts@).push(part@));
        assert(goal.take(i + 1) =~= goal.take(i as int).push(part@));
        parts.push(part);
        i += 1;
    }
    assert(goal.take(i as int) =~= goal);
    let mut s = String::from_str("[");
    s.push_str(join_with(&parts, ", ").as_str());
    s.push_str("]");
    s
}

/// The sizes of texts, as a list of numbers.
fn write_sizes(list: &Vec<String>) -> (r: String)
    ensures
        r@ == number_list(sizes(texts(list@))),
{
    let mut counts: Vec<usize> = Vec::new();
    let mut i: usize = 0;
    while i < list.len()
        invariant
            i <= list@.len(),
            counts@.len() == i,
            forall|k: int| 0 <= k < i ==> #[trigger] counts@[k] == blen(list@[k]@),
        decreases list@.len() - i,
    {
        counts.push(list[i].as_str().as_bytes().len());
        i += 1;
    }
    assert(as_nats(counts@) =~= sizes(texts(list@)));
    write_numbers(&counts)
}

// ---------------------------------------------------------------------------
// Citations
// ---------------------------------------------------------------------------

/// The first of some ids, from position `from` on, that begins with a text.
pub open spec fn id_beginning(known: Seq<Seq<char>>, prefix: Seq<char>, from: nat) -> Seq<char>
    decreases known.len() - from,
{
    if from >= known.len() {
        Seq::empty()
    } else if starts_with(known[from as int], prefix) {
        known[from as int]
    } else {
        id_beginning(known, prefix, from + 1)
    }
}

/// What is told of citations that were refused.
pub open spec fn id_text(
    f: IdFault,
    subject: Seq<char>,
    ids: Seq<Seq<char>>,
    known: Seq<Seq<char>>,
    requested: nat,
    accepted: nat,
) -> Seq<char> {
    match f {
        IdFault::Count => debug_form(subject) + " supplied "@ + decimal(ids.len())
            + " evidence_ids; cite 1-"@ + decimal(accepted)
            + " of the evidence IDs in this request"@ + (if accepted > requested {
            " (it asks for at most "@ + decimal(requested)
                + ", so passages supporting a different claim belong in their own item)"@
        } else {
            Seq::empty()
        })
            + ", or drop the item when nothing supplied supports it. Names and line numbers from source_graph are not evidence IDs"@,
        IdFault::NotAnId(i) => debug_form(subject) + " cites "@ + debug_form(nth(ids, i as int))
            + ", which is not a supplied evidence ID"@,
        IdFault::Unknown(i) => "Unknown or ambiguous evidence ID: "@ + nth(ids, i as int),
        IdFault::Repeated(i) => debug_form(subject) + " repeats evidence ID "@ + debug_form(
            id_beginning(known, nth(ids, i as int), 0),
        ),
    }
}

/// What is told of citations that were refused.
pub fn id_message(
    f: &IdFault,
    subject: &str,
    ids: &Vec<String>,
    evidence: &Vec<Evidence>,
    requested: usize,
    accepted: usize,
) -> (r: String)
    ensures
        r@ == id_text(
            *f,
            subject@,
            texts(ids@),
            evidence_ids(evidence@),
            requested as nat,
            accepted as nat,
        ),
{
    let ghost known = evidence_ids(evidence@);
    match f {
        IdFault::Count => {
            assert(texts(ids@).len() == ids@.len());
            let mut s = to_debug(subject);
            s.push_str(" supplied ");
            s.push_str(number(ids.len() as u64).as_str());
            s.push_str(" evidence_ids; cite 1-");
            s.push_str(number(accepted as u64).as_str());
            s.push_str(" of the evidence IDs in this request");
            let mut extra = String::new();
            if accepted > requested {
                extra = String::from_str(" (it asks for at most ");
                extra.push_str(number(requested as u64).as_str());
                extra.push_str(
                    ", so passages supporting a different claim belong in their own item)",
                );
            }
            s.push_str(extra.as_str());
            s.push_str(
                ", or drop the item when nothing supplied supports it. Names and line numbers from source_graph are not evidence IDs",
            );
            s
        },
        IdFault::NotAnId(i) => {
            let mut s = to_debug(subject);
            s.push_str(" cites ");
            s.push_str(to_debug(pick(ids, *i).as_str()).as_str());
            s.push_str(", which is not a supplied evidence ID");
            s
        },
        IdFault::Unknown(i) => {
            let mut s = String::from_str("Unknown or ambiguous evidence ID: ");
            s.push_str(pick(ids, *i).as_str());
            s
        },
        IdFault::Repeated(i) => {
            let prefix = pick(ids, *i);
            let mut k: usize = 0;
            assert(known.len() == evidence@.len());
            while k < evidence.len() && !has_prefix(evidence[k].id.as_str(), prefix.as_str())
                invariant
                    k <= evidence@.len(),
                    known == evidence_ids(evidence@),
                    known.len() == evidence@.len(),
                    id_beginning(known, prefix@, 0) == id_beginning(known, prefix@, k as nat),
                decreases evidence@.len() - k,
            {
                assert(known[k as int] == evidence@[k as int].id@);
                k += 1;
            }
            let full = if k < evidence.len() {
                assert(known[k as int] == evidence@[k as int].id@);
                evidence[k].id.clone()
            } else {
                String::new()
            };
            let mut s = to_debug(subject);
            s.push_str(" repeats evidence ID ");
            s.push_str(to_debug(full.as_str()).as_str());
            s
        },
    }
}

// ---------------------------------------------------------------------------
// Briefs
// ---------------------------------------------------------------------------

/// The first `count` texts that are not blank.
pub open spec fn not_blank(list: Seq<Seq<char>>, count: nat) -> Seq<Seq<char>>
    decreases count,
{
    if count == 0 {
        Seq::empty()
    } else {
        let so_far = not_blank(list, (count - 1) as nat);
        if trim(list[count - 1]).len() == 0 {
            so_far
        } else {
            so_far.push(list[count - 1])
        }
    }
}

/// One of some ids begins a text.
pub open spec fn begun_by(id: Seq<char>, ids: Seq<Seq<char>>) -> bool {
    exists|k: int| 0 <= k < ids.len() && starts_with(id, #[trigger] ids[k])
}

/// The paths of the first `count` passages that some ids name.
pub open spec fn paths_named(evidence: Seq<Evidence>, ids: Seq<Seq<char>>, count: nat) -> Seq<
    Seq<char>,
>
    decreases count,
{
    if count == 0 {
        Seq::empty()
    } else {
        let so_far = paths_named(evidence, ids, (count - 1) as nat);
        if begun_by(evidence[count - 1].id@, ids) {
            so_far.push(evidence[count - 1].path@)
        } else {
            so_far
        }
    }
}

/// The topic of a finding, and nothing where there is none.
pub open spec fn topic_of(brief: SourceBrief, i: int) -> Seq<char> {
    if 0 <= i < brief.findings@.len() {
        brief.findings@[i].topic@
    } else {
        Seq::empty()
    }
}

/// The citations of a finding, and none where there is no finding.
pub open spec fn ids_of(brief: SourceBrief, i: int) -> Seq<Seq<char>> {
    if 0 <= i < brief.findings@.len() {
        texts(brief.findings@[i].evidence_ids@)
    } else {
        Seq::empty()
    }
}

/// What is told of a brief that was refused.
pub open spec fn brief_text(
    f: BriefFault,
    brief: SourceBrief,
    evidence: Seq<Evidence>,
    final_pass: bool,
) -> Seq<char> {
    let gaps = texts(brief.uncertainties@);
    let all = texts(brief.followup_queries@);
    let queries = not_blank(all, all.len());
    match f {
        BriefFault::Findings => "Supply 1-"@ + decimal(ACCEPTED_FINDINGS as nat)
            + " source findings; the request asks for at most "@ + decimal(MAX_FINDINGS as nat)
            + ", so group related passages under one observation rather than listing "@ + decimal(
            brief.findings@.len(),
        ) + " of them"@,
        BriefFault::Uncertainties => "Supply at most "@ + decimal(ACCEPTED_UNCERTAINTIES as nat)
            + " nonempty uncertainties of at most 1500 bytes each; the request asks for "@
            + decimal(MAX_UNCERTAINTIES as nat) + " (received "@ + decimal(gaps.len())
            + " items; lengths "@ + number_list(sizes(gaps)) + ")"@,
        BriefFault::Queries => "Supply at most "@ + (if final_pass {
            "8"@
        } else {
            "3"@
        }) + " nonempty followup_queries, each at most 1500 bytes (received "@ + decimal(
            queries.len(),
        ) + " queries; lengths "@ + number_list(sizes(queries)) + ")"@,
        BriefFault::Text(_) => "Invalid source finding text"@,
        BriefFault::Citations(i, inner) => id_text(
            inner,
            topic_of(brief, i as int),
            ids_of(brief, i as int),
            evidence_ids(evidence),
            MAX_EVIDENCE_IDS as nat,
            ACCEPTED_EVIDENCE_IDS as nat,
        ),
        BriefFault::NotImplementation(i) => "Finding "@ + debug_form(topic_of(brief, i as int))
            + " cites only context evidence ("@ + quoted_list(
            paths_named(evidence, ids_of(brief, i as int), evidence.len()),
        )
            + "); classify it as context and describe documented/test intent, or cite an actual supplied implementation passage. Runtime finding must cite implementation evidence"@,
    }
}

/// The paths of the passages that some ids name.
fn find_paths(evidence: &Vec<Evidence>, ids: &Vec<String>) -> (r: Vec<String>)
    ensures
        texts(r@) == paths_named(evidence@, texts(ids@), evidence@.len()),
{
    let ghost all = texts(ids@);
    let mut r: Vec<String> = Vec::new();
    let mut i: usize = 0;
    assert(texts(r@) =~= Seq::empty());
    while i < evidence.len()
        invariant
            i <= evidence@.len(),
            all == texts(ids@),
            texts(r@) == paths_named(evidence@, all, i as nat),
        decreases evidence@.len() - i,
    {
        let id = evidence[i].id.as_str();
        let mut named = false;
        let mut k: usize = 0;
        while k < ids.len()
            invariant
                k <= ids@.len(),
                all == texts(ids@),
                named == exists|j: int| 0 <= j < k && starts_with(id@, #[trigger] all[j]),
            decreases ids@.len() - k,
        {
            assert(all[k as int] == ids@[k as int]@);
            if has_prefix(id, ids[k].as_str()) {
                named = true;
            }
            k += 1;
        }
        assert(all.len() == ids@.len());
        if named {
            let path = evidence[i].path.clone();
            assert(texts(r@.push(path)) =~= texts(r@).push(path@));
            r.push(path);
        }
        i += 1;
    }
    r
}

/// What is told of a brief that was refused.
pub fn brief_message(f: &BriefFault, brief: &SourceBrief, evidence: &Vec<Evidence>, final_pass: bool) -> (r:
    String)
    ensures
        r@ == brief_text(*f, *brief, evidence@, final_pass),
{
    match f {
        BriefFault::Findings => {
            let mut s = String::from_str("Supply 1-");
            s.push_str(number(ACCEPTED_FINDINGS as u64).as_str());
            s.push_str(" source findings; the request asks for at most ");
            s.push_str(number(MAX_FINDINGS as u64).as_str());
            s.push_str(", so group related passages under one observation rather than listing ");
            s.push_str(number(brief.findings.len() as u64).as_str());
            s.push_str(" of them");
            s
        },
        BriefFault::Uncertainties => {
            assert(texts(brief.uncertainties@).len() == brief.uncertainties@.len());
            let mut s = String::from_str("Supply at most ");
            s.push_str(number(ACCEPTED_UNCERTAINTIES as u64).as_str());
            s.push_str(" nonempty uncertainties of at most 1500 bytes each; the request asks for ");
            s.push_str(number(MAX_UNCERTAINTIES as u64).as_str());
            s.push_str(" (received ");
            s.push_str(number(brief.uncertainties.len() as u64).as_str());
            s.push_str(" items; lengths ");
            s.push_str(write_sizes(&brief.uncertainties).as_str());
            s.push_str(")");
            s
        },
        BriefFault::Queries => {
            let ghost all = texts(brief.followup_queries@);
            let mut queries: Vec<String> = Vec::new();
            let mut i: usize = 0;
            assert(texts(queries@) =~= Seq::empty());
            while i < brief.followup_queries.len()
                invariant
                    i <= brief.followup_queries@.len(),
                    all == texts(brief.followup_queries@),
                    texts(queries@) == not_blank(all, i as nat),
                decreases brief.followup_queries@.len() - i,
            {
                assert(all[i as int] == brief.followup_queries@[i as int]@);
                if !is_blank(brief.followup_queries[i].as_str()) {
                    let q = brief.followup_queries[i].clone();
                    assert(texts(queries@.push(q)) =~= texts(queries@).push(q@));
                    queries.push(q);
                }
                i += 1;
            }
            assert(all.len() == brief.followup_queries@.len());
            assert(texts(queries@).len() == queries@.len());
            let mut s = String::from_str("Supply at most ");
            s.push_str(
                if final_pass {
                    "8"
                } else {
                    "3"
                },
            );
            s.push_str(" nonempty followup_queries, each at most 1500 bytes (received ");
            s.push_str(number(queries.len() as u64).as_str());
            s.push_str(" queries; lengths ");
            s.push_str(write_sizes(&queries).as_str());
            s.push_str(")");
            s
        },
        BriefFault::Text(_) => String::from_str("Invalid source finding text"),
        BriefFault::Citations(i, inner) => {
            if *i < brief.findings.len() {
                let finding = &brief.findings[*i];
                id_message(
                    inner,
                    finding.topic.as_str(),
                    &finding.evidence_ids,
                    evidence,
                    MAX_EVIDENCE_IDS,
                    ACCEPTED_EVIDENCE_IDS,
                )
            } else {
                let none: Vec<String> = Vec::new();
                assert(texts(none@) =~= Seq::empty());
                id_message(
                    inner,
                    String::new().as_str(),
                    &none,
                    evidence,
                    MAX_EVIDENCE_IDS,
                    ACCEPTED_EVIDENCE_IDS,
                )
            }
        },
        BriefFault::NotImplementation(i) => {
            let none: Vec<String> = Vec::new();
            assert(texts(none@) =~= Seq::empty());
            let mut topic = String::new();
            let mut paths = find_paths(evidence, &none);
            if *i < brief.findings.len() {
                topic = brief.findings[*i].topic.clone();
                paths = find_paths(evidence, &brief.findings[*i].evidence_ids);
            }
            let mut s = String::from_str("Finding ");
            s.push_str(to_debug(topic.as_str()).as_str());
            s.push_str(" cites only context evidence (");
            s.push_str(write_list(&paths).as_str());
            s.push_str(
                "); classify it as context and describe documented/test intent, or cite an actual supplied implementation passage. Runtime finding must cite implementation evidence",
            );
            s
        },
    }
}

// ---------------------------------------------------------------------------
// Outlines
// ---------------------------------------------------------------------------

/// A section of a plan, where there is one.
pub open spec fn section_of(outline: Outline, i: int) -> Option<SectionPlan> {
    if 0 <= i < outline.sections@.len() {
        Some(outline.sections@[i])
    } else {
        None
    }
}

/// The title of a section, and nothing where there is none.
pub open spec fn title_of(s: Option<SectionPlan>) -> Seq<char> {
    match s {
        Some(s) => s.title@,
        None => Seq::empty(),
    }
}

/// The prerequisites of a section, and none where there is no section.
pub open spec fn needs_of(s: Option<SectionPlan>) -> Seq<usize> {
    match s {
        Some(s) => s.depends_on@,
        None => Seq::empty(),
    }
}

/// A prerequisite of a section, and the first section where there is none.
pub open spec fn need(list: Seq<usize>, k: int) -> nat {
    if 0 <= k < list.len() {
        list[k] as nat
    } else {
        0
    }
}

/// How a message about the prerequisites of a section begins.
pub open spec fn needs_text(i: nat, title: Seq<char>, needs: Seq<usize>) -> Seq<char> {
    "sections["@ + decimal(i) + "] ("@ + debug_form(title) + ").depends_on="@ + number_list(
        as_nats(needs),
    )
}

/// What is told of a plan that was refused.
pub open spec fn outline_text(
    f: OutlineFault,
    outline: Outline,
    evidence: Seq<Evidence>,
    branches: Option<usize>,
) -> Seq<char> {
    match f {
        OutlineFault::Sections => "Supply 1-"@ + decimal(ceiling(branches))
            + " sections"@,
        OutlineFault::Framing => "Supply a bounded reader_goal and storyline"@,
        OutlineFault::Terminology => "Invalid terminology"@,
        OutlineFault::Id(_) => "Invalid or repeated section ID"@,
        OutlineFault::KeyPoints(_) => "Each section needs concrete key_points"@,
        OutlineFault::Title(_) => "Each section needs a bounded title and source query"@,
        OutlineFault::Context(_) => "Invalid optional section context"@,
        OutlineFault::RepeatedTitle(_) => "Sections must have distinct titles"@,
        OutlineFault::Dependency(i, k) => {
            let s = section_of(outline, i as int);
            let at = need(needs_of(s), k as int);
            needs_text(i as nat, title_of(s), needs_of(s)) + ": index "@ + decimal(at) + " is "@ + (
            if at >= outline.sections@.len() {
                "outside the section array"@
            } else if at == i {
                "a self-reference"@
            } else {
                "a forward reference"@
            }) + "; only indices below "@ + decimal(i as nat)
                + " are allowed (the first section must use []). Use prerequisite_titles with exact earlier titles when generating an outline. Move a real prerequisite before use and update handoffs/storyline; do not guess a different index"@
        },
        OutlineFault::RepeatedDependency(i, k) => {
            let s = section_of(outline, i as int);
            needs_text(i as nat, title_of(s), needs_of(s)) + ": repeated index "@ + decimal(
                need(needs_of(s), k as int),
            ) + "; include each prerequisite only once"@
        },
        OutlineFault::Diagrams(_) => "Every section needs a bounded diagrams array"@,
        OutlineFault::Branches(_) => "Invalid section branches"@,
        OutlineFault::Anchors(i, inner) => id_text(
            inner,
            title_of(section_of(outline, i as int)),
            match section_of(outline, i as int) {
                Some(s) => texts(s.evidence_ids@),
                None => Seq::empty(),
            },
            evidence_ids(evidence),
            MAX_SECTION_ANCHORS as nat,
            MAX_SECTION_ANCHORS as nat,
        ),
        OutlineFault::Exclusions => "Invalid excluded_branches"@,
        OutlineFault::DiagramLimit => "The plan has more diagrams than the document may have"@,
    }
}

/// How a message about the prerequisites of a section begins.
fn write_needs(i: usize, title: &str, needs: &Vec<usize>) -> (r: String)
    ensures
        r@ == needs_text(i as nat, title@, needs@),
{
    let mut s = String::from_str("sections[");
    s.push_str(number(i as u64).as_str());
    s.push_str("] (");
    s.push_str(to_debug(title).as_str());
    s.push_str(").depends_on=");
    s.push_str(write_numbers(needs).as_str());
    s
}

/// What is told of a plan that was refused.
pub fn outline_message(
    f: &OutlineFault,
    outline: &Outline,
    evidence: &Vec<Evidence>,
    branches: Option<usize>,
) -> (r: String)
    ensures
        r@ == outline_text(*f, *outline, evidence@, branches),
{
    match f {
        OutlineFault::Sections => {
            let mut s = String::from_str("Supply 1-");
            s.push_str(number(section_ceiling(branches) as u64).as_str());
            s.push_str(" sections");
            s
        },
        OutlineFault::Framing => String::from_str("Supply a bounded reader_goal and storyline"),
        OutlineFault::Terminology => String::from_str("Invalid terminology"),
        OutlineFault::Id(_) => String::from_str("Invalid or repeated section ID"),
        OutlineFault::KeyPoints(_) => String::from_str("Each section needs concrete key_points"),
        OutlineFault::Title(_) => String::from_str(
            "Each section needs a bounded title and source query",
        ),
        OutlineFault::Context(_) => String::from_str("Invalid optional section context"),
        OutlineFault::RepeatedTitle(_) => String::from_str("Sections must have distinct titles"),
        OutlineFault::Dependency(i, k) => {
            let count: usize = outline.sections.len();
            let mut head = write_needs(*i, String::new().as_str(), &Vec::new());
            let mut at: usize = 0;
            if *i < count {
                let section = &outline.sections[*i];
                head = write_needs(*i, section.title.as_str(), &section.depends_on);
                if *k < section.depends_on.len() {
                    at = section.depends_on[*k];
                }
            }
            head.push_str(": index ");
            head.push_str(number(at as u64).as_str());
            head.push_str(" is ");
            head.push_str(
                if at >= count {
                    "outside the section array"
                } else if at == *i {
                    "a self-reference"
                } else {
                    "a forward reference"
                },
            );
            head.push_str("; only indices below ");
            head.push_str(number(*i as u64).as_str());
            head.push_str(
                " are allowed (the first section must use []). Use prerequisite_titles with exact earlier titles when generating an outline. Move a real prerequisite before use and update handoffs/storyline; do not guess a different index",
            );
            head
        },
        OutlineFault::RepeatedDependency(i, k) => {
            let mut head = write_needs(*i, String::new().as_str(), &Vec::new());
            let mut at: usize = 0;
            if *i < outline.sections.len() {
                let section = &outline.sections[*i];
                head = write_needs(*i, section.title.as_str(), &section.depends_on);
                if *k < section.depends_on.len() {
                    at = section.depends_on[*k];
                }
            }
            head.push_str(": repeated index ");
            head.push_str(number(at as u64).as_str());
            head.push_str("; include each prerequisite only once");
            head
        },
        OutlineFault::Diagrams(_) => String::from_str("Every section needs a bounded diagrams array"),
        OutlineFault::Branches(_) => String::from_str("Invalid section branches"),
        OutlineFault::Anchors(i, inner) => {
            if *i < outline.sections.len() {
                let section = &outline.sections[*i];
                id_message(
                    inner,
                    section.title.as_str(),
                    &section.evidence_ids,
                    evidence,
                    MAX_SECTION_ANCHORS,
                    MAX_SECTION_ANCHORS,
                )
            } else {
                let none: Vec<String> = Vec::new();
                assert(texts(none@) =~= Seq::empty());
                id_message(
                    inner,
                    String::new().as_str(),
                    &none,
                    evidence,
                    MAX_SECTION_ANCHORS,
                    MAX_SECTION_ANCHORS,
                )
            }
        },
        OutlineFault::Exclusions => String::from_str("Invalid excluded_branches"),
        OutlineFault::DiagramLimit => String::from_str(
            "The plan has more diagrams than the document may have",
        ),
    }
}

// ---------------------------------------------------------------------------
// Chapters
// ---------------------------------------------------------------------------

/// The title of a chapter, and nothing where there is none.
pub open spec fn chapter_title(draft: ChaptersDraft, i: int) -> Seq<char> {
    if 0 <= i < draft.chapters@.len() {
        draft.chapters@[i].title@
    } else {
        Seq::empty()
    }
}

/// The label of a branch in a chapter.
pub open spec fn branch_label(draft: ChaptersDraft, i: int, k: int) -> Seq<char> {
    if 0 <= i < draft.chapters@.len() {
        nth(texts(draft.chapters@[i].branches@), k)
    } else {
        Seq::empty()
    }
}

/// The label of a group in a chapter.
pub open spec fn group_label(draft: ChaptersDraft, i: int, k: int) -> Seq<char> {
    if 0 <= i < draft.chapters@.len() {
        nth(texts(draft.chapters@[i].groups@), k)
    } else {
        Seq::empty()
    }
}

/// The label of an exclusion.
pub open spec fn excluded_label(draft: ChaptersDraft, i: int) -> Seq<char> {
    if 0 <= i < draft.excluded_branches@.len() {
        trim(draft.excluded_branches@[i].branch@)
    } else {
        Seq::empty()
    }
}

/// The labels of branches at some positions.
pub open spec fn labels_at(view: BranchView, list: Seq<usize>) -> Seq<Seq<char>> {
    list.map_values(
        |i: usize|
            if i < view.branches@.len() {
                view.branches@[i as int].label@
            } else {
                Seq::<char>::empty()
            },
    )
}

/// At most so many of a list.
pub open spec fn first_few(list: Seq<Seq<char>>, count: int) -> Seq<Seq<char>> {
    if list.len() <= count {
        list
    } else {
        list.take(count)
    }
}

/// What is told of a label that is none.
pub open spec fn unknown_text(subject: Seq<char>, label: Seq<char>) -> Seq<char> {
    subject + " names "@ + debug_form(label)
        + ", which is neither a group nor a branch label in source_groups"@
}

/// What is told of a division that was refused.
pub open spec fn chapter_text(e: ChapterError, draft: ChaptersDraft, view: BranchView) -> Seq<char> {
    match e {
        ChapterError::Count => "Supply 1-"@ + decimal(MAX_CHAPTERS as nat) + " chapters"@,
        ChapterError::Framing => "Supply a bounded reader_goal and storyline"@,
        ChapterError::Heading { chapter } => "chapters["@ + decimal(chapter as nat)
            + "] needs a distinct title under 300 bytes and a summary under 1500 bytes"@,
        ChapterError::UnknownBranch { chapter, at } => unknown_text(
            "chapters["@ + decimal(chapter as nat) + "].branches"@,
            branch_label(draft, chapter as int, at as int),
        ),
        ChapterError::BranchTwice { chapter, at, first } => "Branch "@ + branch_label(
            draft,
            chapter as int,
            at as int,
        ) + " is named in both "@ + debug_form(chapter_title(draft, first as int)) + " and "@
            + debug_form(chapter_title(draft, chapter as int))
            + "; name each branch in one chapter"@,
        ChapterError::UnknownGroup { chapter, at } => unknown_text(
            "chapters["@ + decimal(chapter as nat) + "].groups"@,
            group_label(draft, chapter as int, at as int),
        ),
        ChapterError::GroupTwice { chapter, at, first } => "Group "@ + group_label(
            draft,
            chapter as int,
            at as int,
        ) + " is taken by both "@ + debug_form(chapter_title(draft, first as int)) + " and "@
            + debug_form(chapter_title(draft, chapter as int))
            + "; give each group to one chapter and name single branches to move them"@,
        ChapterError::Reason { exclusion } => "excluded_branches["@ + decimal(exclusion as nat)
            + "] needs a short reason tied to the purpose"@,
        ChapterError::ExcludedGroup { exclusion, chapter } => "Group "@ + excluded_label(
            draft,
            exclusion as int,
        ) + " is taken by "@ + debug_form(chapter_title(draft, chapter as int))
            + " and excluded; choose one, or exclude single branches of it"@,
        ChapterError::ExcludedBranch { exclusion, chapter } => "Branch "@ + excluded_label(
            draft,
            exclusion as int,
        ) + " is named in "@ + debug_form(chapter_title(draft, chapter as int))
            + " and excluded; choose one"@,
        ChapterError::UnknownExclusion { exclusion } => unknown_text(
            "excluded_branches["@ + decimal(exclusion as nat) + "]"@,
            excluded_label(draft, exclusion as int),
        ),
        ChapterError::Missing { branches } => decimal(branches@.len())
            + " branches are in no chapter and not excluded: "@ + join(
            first_few(labels_at(view, branches@), 24),
            ", "@,
        )
            + ". Give each to a chapter, by group or by label, or exclude it with a reason"@,
        ChapterError::Empty { chapter } => "chapters["@ + decimal(chapter as nat) + "] ("@
            + debug_form(chapter_title(draft, chapter as int))
            + ") ends up with no branch; give it groups or branches, or remove it"@,
    }
}

/// The title of a chapter.
fn get_title(draft: &ChaptersDraft, i: usize) -> (r: String)
    ensures
        r@ == chapter_title(*draft, i as int),
{
    if i < draft.chapters.len() {
        draft.chapters[i].title.clone()
    } else {
        String::new()
    }
}

/// The label of a branch or a group in a chapter.
fn get_label(draft: &ChaptersDraft, i: usize, k: usize, group: bool) -> (r: String)
    ensures
        r@ == (if group {
            group_label(*draft, i as int, k as int)
        } else {
            branch_label(*draft, i as int, k as int)
        }),
{
    if i < draft.chapters.len() {
        if group {
            pick(&draft.chapters[i].groups, k)
        } else {
            pick(&draft.chapters[i].branches, k)
        }
    } else {
        String::new()
    }
}

/// The label of an exclusion.
fn get_excluded(draft: &ChaptersDraft, i: usize) -> (r: String)
    ensures
        r@ == excluded_label(*draft, i as int),
{
    if i < draft.excluded_branches.len() {
        trimmed(draft.excluded_branches[i].branch.as_str())
    } else {
        String::new()
    }
}

/// A place in a list, as messages name it.
fn place(list: &str, i: usize, rest: &str) -> (r: String)
    ensures
        r@ == list@ + decimal(i as nat) + rest@,
{
    let mut s = String::from_str(list);
    s.push_str(number(i as u64).as_str());
    s.push_str(rest);
    s
}

/// What is told of a label that is none.
fn write_unknown(subject: &str, label: &str) -> (r: String)
    ensures
        r@ == unknown_text(subject@, label@),
{
    let mut s = String::from_str(subject);
    s.push_str(" names ");
    s.push_str(to_debug(label).as_str());
    s.push_str(", which is neither a group nor a branch label in source_groups");
    s
}

/// What is told of a division that was refused.
pub fn chapter_message(e: &ChapterError, draft: &ChaptersDraft, view: &BranchView) -> (r: String)
    ensures
        r@ == chapter_text(*e, *draft, *view),
{
    match e {
        ChapterError::Count => place("Supply 1-", MAX_CHAPTERS, " chapters"),
        ChapterError::Framing => String::from_str("Supply a bounded reader_goal and storyline"),
        ChapterError::Heading { chapter } => place(
            "chapters[",
            *chapter,
            "] needs a distinct title under 300 bytes and a summary under 1500 bytes",
        ),
        ChapterError::UnknownBranch { chapter, at } => write_unknown(
            place("chapters[", *chapter, "].branches").as_str(),
            get_label(draft, *chapter, *at, false).as_str(),
        ),
        ChapterError::BranchTwice { chapter, at, first } => {
            let mut s = String::from_str("Branch ");
            s.push_str(get_label(draft, *chapter, *at, false).as_str());
            s.push_str(" is named in both ");
            s.push_str(to_debug(get_title(draft, *first).as_str()).as_str());
            s.push_str(" and ");
            s.push_str(to_debug(get_title(draft, *chapter).as_str()).as_str());
            s.push_str("; name each branch in one chapter");
            s
        },
        ChapterError::UnknownGroup { chapter, at } => write_unknown(
            place("chapters[", *chapter, "].groups").as_str(),
            get_label(draft, *chapter, *at, true).as_str(),
        ),
        ChapterError::GroupTwice { chapter, at, first } => {
            let mut s = String::from_str("Group ");
            s.push_str(get_label(draft, *chapter, *at, true).as_str());
            s.push_str(" is taken by both ");
            s.push_str(to_debug(get_title(draft, *first).as_str()).as_str());
            s.push_str(" and ");
            s.push_str(to_debug(get_title(draft, *chapter).as_str()).as_str());
            s.push_str("; give each group to one chapter and name single branches to move them");
            s
        },
        ChapterError::Reason { exclusion } => place(
            "excluded_branches[",
            *exclusion,
            "] needs a short reason tied to the purpose",
        ),
        ChapterError::ExcludedGroup { exclusion, chapter } => {
            let mut s = String::from_str("Group ");
            s.push_str(get_excluded(draft, *exclusion).as_str());
            s.push_str(" is taken by ");
            s.push_str(to_debug(get_title(draft, *chapter).as_str()).as_str());
            s.push_str(" and excluded; choose one, or exclude single branches of it");
            s
        },
        ChapterError::ExcludedBranch { exclusion, chapter } => {
            let mut s = String::from_str("Branch ");
            s.push_str(get_excluded(draft, *exclusion).as_str());
            s.push_str(" is named in ");
            s.push_str(to_debug(get_title(draft, *chapter).as_str()).as_str());
            s.push_str(" and excluded; choose one");
            s
        },
        ChapterError::UnknownExclusion { exclusion } => write_unknown(
            place("excluded_branches[", *exclusion, "]").as_str(),
            get_excluded(draft, *exclusion).as_str(),
        ),
        ChapterError::Missing { branches } => {
            let ghost goal = first_few(labels_at(*view, branches@), 24);
            let n: usize = if branches.len() <= 24 {
                branches.len()
            } else {
                24
            };
            let mut labels: Vec<String> = Vec::new();
            let mut i: usize = 0;
            assert(labels_at(*view, branches@).len() == branches@.len());
            assert(texts(labels@) =~= goal.take(0));
            while i < n
                invariant
                    i <= n <= branches@.len(),
                    goal.len() == n,
                    forall|k: int|
                        0 <= k < n ==> #[trigger] goal[k] == labels_at(*view, branches@)[k],
                    texts(labels@) == goal.take(i as int),
                decreases n - i,
            {
                let at: usize = branches[i];
                let label = if at < view.branches.len() {
                    view.branches[at].label.clone()
                } else {
                    String::new()
                };
                assert(goal[i as int] =~= label@);
                assert(texts(labels@.push(label)) =~= texts(labels@).push(label@));
                assert(goal.take(i + 1) =~= goal.take(i as int).push(goal[i as int]));
                labels.push(label);
                i += 1;
            }
            assert(goal.take(n as int) =~= goal);
            let mut s = number(branches.len() as u64);
            s.push_str(" branches are in no chapter and not excluded: ");
            s.push_str(join_with(&labels, ", ").as_str());
            s.push_str(
                ". Give each to a chapter, by group or by label, or exclude it with a reason",
            );
            s
        },
        ChapterError::Empty { chapter } => {
            let mut s = place("chapters[", *chapter, "] (");
            s.push_str(to_debug(get_title(draft, *chapter).as_str()).as_str());
            s.push_str(") ends up with no branch; give it groups or branches, or remove it");
            s
        },
    }
}

// ---------------------------------------------------------------------------
// Generated plans
// ---------------------------------------------------------------------------

/// A value of a list, where there is one.
pub open spec fn item_at(list: Seq<JsonModel>, i: int) -> JsonModel {
    if 0 <= i < list.len() {
        list[i]
    } else {
        JsonModel::Null
    }
}

/// A section of a response.
pub open spec fn response_section(m: JsonModel, i: int) -> JsonModel {
    item_at(m.items("sections"@), i)
}

/// The text of a member, and nothing where there is none.
pub open spec fn member_text(m: JsonModel, name: Seq<char>) -> Seq<char> {
    match m.text(name) {
        Some(t) => t,
        None => Seq::empty(),
    }
}

/// The text of a value, and nothing where it is none.
pub open spec fn plain_text(m: JsonModel) -> Seq<char> {
    match m.string() {
        Some(t) => t,
        None => Seq::empty(),
    }
}

/// How a section of a response is named.
pub open spec fn section_name(m: JsonModel, i: nat) -> Seq<char> {
    "sections["@ + decimal(i) + "] ("@ + debug_form(
        member_text(response_section(m, i as int), "title"@),
    ) + ")"@
}

/// The labels of a request, in order.
pub open spec fn known_labels(labels: Seq<LabelModel>) -> Seq<Seq<char>> {
    sorted_texts(labels.map_values(|l: LabelModel| l.label))
}

/// What is told of a label that the request did not show.
pub open spec fn label_text(subject: Seq<char>, label: Seq<char>, labels: Seq<LabelModel>) -> Seq<char> {
    subject + " names branch "@ + debug_form(label)
        + ", which is not a label in source_branches; use labels such as "@ + quoted_list(
        first_few(known_labels(labels), 8),
    )
}

/// The title of a section as a message shows it.
pub open spec fn title_shown(m: JsonModel) -> Seq<char> {
    match m.text("title"@) {
        Some(t) => "Some("@ + debug_form(t) + ")"@,
        None => "None"@,
    }
}

/// The titles of the first `count` sections as a message shows them.
pub open spec fn titles_shown(m: JsonModel, count: nat) -> Seq<char> {
    "["@ + join(
        Seq::new(count, |i: int| title_shown(response_section(m, i))),
        ", "@,
    ) + "]"@
}

/// How many of the first `count` sections have a title.
pub open spec fn titled(m: JsonModel, title: Seq<char>, count: nat) -> nat
    decreases count,
{
    if count == 0 {
        0
    } else {
        titled(m, title, (count - 1) as nat) + if response_section(m, count - 1).text("title"@)
            == Some(title) {
            1nat
        } else {
            0nat
        }
    }
}

/// The first section, from position `from` on, that has a title.
pub open spec fn section_titled(m: JsonModel, title: Seq<char>, from: nat) -> nat
    decreases m.items("sections"@).len() - from,
{
    if from >= m.items("sections"@).len() || response_section(m, from as int).text("title"@)
        == Some(title) {
        from
    } else {
        section_titled(m, title, from + 1)
    }
}

/// A prerequisite of a section, as it is written.
pub open spec fn prerequisite(m: JsonModel, i: int, k: int) -> Seq<char> {
    plain_text(item_at(response_section(m, i).items("prerequisite_titles"@), k))
}

/// How a message about a prerequisite begins.
pub open spec fn prerequisite_text(m: JsonModel, i: nat, k: int) -> Seq<char> {
    "sections["@ + decimal(i) + "] ("@ + title_shown(response_section(m, i as int))
        + ").prerequisite_titles: "@ + debug_form(prerequisite(m, i as int, k))
}

/// An exclusion of a response.
pub open spec fn response_exclusion(m: JsonModel, i: int) -> JsonModel {
    item_at(m.items("excluded_branches"@), i)
}

/// What is told of a generated plan that was refused.
pub open spec fn generated_text(f: GeneratedFault, m: JsonModel, labels: Seq<LabelModel>) -> Seq<char> {
    match f {
        GeneratedFault::Branches(i) => section_name(m, i as nat)
            + ".branches must be an array of branch labels; use [] when empty"@,
        GeneratedFault::BranchText(i, _) => section_name(m, i as nat)
            + ".branches must hold branch label strings"@,
        GeneratedFault::BranchLabel(i, k) => label_text(
            section_name(m, i as nat),
            trim(plain_text(item_at(response_section(m, i as int).items("branches"@), k as int))),
            labels,
        ),
        GeneratedFault::Exclusions =>
            "excluded_branches must be an array of {branch, reason} objects; use [] when empty"@,
        GeneratedFault::Reason(i) => "excluded_branches["@ + decimal(i as nat)
            + "] needs a short reason tied to the purpose"@,
        GeneratedFault::ExcludedText(i) => "excluded_branches["@ + decimal(i as nat)
            + "].branches must hold branch label strings"@,
        GeneratedFault::ExcludedLabel(i) => label_text(
            "excluded_branches["@ + decimal(i as nat) + "]"@,
            trim(member_text(response_exclusion(m, i as int), "branch"@)),
            labels,
        ),
        GeneratedFault::Covered(i, s) => "Branch "@ + debug_form(
            trim(member_text(response_exclusion(m, i as int), "branch"@)),
        ) + " is both covered by section "@ + debug_form(
            member_text(response_section(m, s as int), "title"@),
        )
            + " and listed in excluded_branches; account for a branch one way only - keep it in that section and drop the exclusion, or drop it from that section's branches and keep the reason"@,
        GeneratedFault::Prerequisites(i) => "sections["@ + decimal(i as nat)
            + "].prerequisite_titles must be an array of exact title strings; use [] when empty"@,
        GeneratedFault::PrerequisiteTitle(i, k) => prerequisite_text(m, i as nat, k as int)
            + " matches "@ + decimal(
            titled(m, prerequisite(m, i as int, k as int), m.items("sections"@).len()),
        ) + " sections; use an exact unique section title. Available earlier titles: "@
            + titles_shown(m, i as nat),
        GeneratedFault::PrerequisiteOrder(i, k) => {
            let at = section_titled(m, prerequisite(m, i as int, k as int), 0);
            prerequisite_text(m, i as nat, k as int) + " refers to sections["@ + decimal(at)
                + "], "@ + (if at == i {
                "the current section"@
            } else {
                "a later section"@
            }) + "; available earlier titles: "@ + titles_shown(m, i as nat)
                + ". Move a real prerequisite before use and update storyline and handoffs; do not drop it or guess another title"@
        },
        GeneratedFault::Shape => "LLM output does not match required JSON schema: outline"@,
    }
}

/// A value of a named list of an object, where there is one.
fn list_item<'a>(value: &'a Json, name: &str, i: usize) -> (r: Option<&'a Json>)
    ensures
        match r {
            Some(v) => i < value@.items(name@).len() && v@ == value@.items(name@)[i as int],
            None => i >= value@.items(name@).len(),
        },
{
    match value.items(name) {
        Some(list) => {
            assert(models_len(list@) == list@.len());
            if i < list.len() {
                assert(models(list@)[i as int] == list@[i as int]@);
                Some(&list[i])
            } else {
                None
            }
        },
        None => None,
    }
}

/// The number of values.
spec fn models_len(v: Seq<Json>) -> nat {
    models(v).len()
}

/// The text of a member of an item of a list.
fn item_text(value: &Json, list: &str, i: usize, name: &str) -> (r: Option<String>)
    ensures
        match item_at(value@.items(list@), i as int).text(name@) {
            Some(t) => r is Some && r->0@ == t,
            None => r is None,
        },
{
    match list_item(value, list, i) {
        Some(item) => match item.text(name) {
            Some(t) => Some(String::from_str(t)),
            None => None,
        },
        None => None,
    }
}

/// A text, and nothing where there is none.
fn or_nothing(t: Option<String>) -> (r: String)
    ensures
        r@ == (match t {
            Some(t) => t@,
            None => Seq::<char>::empty(),
        }),
{
    match t {
        Some(t) => t,
        None => String::new(),
    }
}

/// An item of a list in a section, as a text.
fn section_text(value: &Json, i: usize, list: &str, k: usize) -> (r: String)
    ensures
        r@ == plain_text(item_at(response_section(value@, i as int).items(list@), k as int)),
{
    match list_item(value, "sections", i) {
        Some(section) => match list_item(section, list, k) {
            Some(Json::Str(s)) => s.clone(),
            Some(Json::Arr(items)) => {
                proof {
                    lemma_arr(*items);
                }
                String::new()
            },
            Some(Json::Obj(members)) => {
                proof {
                    lemma_obj(*members);
                }
                String::new()
            },
            _ => String::new(),
        },
        None => String::new(),
    }
}

/// How a section of a response is named.
fn name_section(value: &Json, i: usize) -> (r: String)
    ensures
        r@ == section_name(value@, i as nat),
{
    let title = or_nothing(item_text(value, "sections", i, "title"));
    let mut s = place("sections[", i, "] (");
    s.push_str(to_debug(title.as_str()).as_str());
    s.push_str(")");
    s
}

/// What is told of a label that the request did not show.
fn write_label(subject: &str, label: &str, labels: &Vec<Label>) -> (r: String)
    ensures
        r@ == label_text(subject@, label@, label_models(labels@)),
{
    let ghost names = label_models(labels@).map_values(|l: LabelModel| l.label);
    let mut all: Vec<String> = Vec::new();
    let mut i: usize = 0;
    assert(texts(all@) =~= names.take(0));
    while i < labels.len()
        invariant
            i <= labels@.len(),
            names == label_models(labels@).map_values(|l: LabelModel| l.label),
            texts(all@) == names.take(i as int),
        decreases labels@.len() - i,
    {
        let l = labels[i].label.clone();
        assert(texts(all@.push(l)) =~= texts(all@).push(l@));
        assert(names.take(i + 1) =~= names.take(i as int).push(l@));
        all.push(l);
        i += 1;
    }
    assert(names.take(i as int) =~= names);
    let sorted = sort_texts(&all);
    let ghost goal = first_few(texts(sorted@), 8);
    let n: usize = if sorted.len() <= 8 {
        sorted.len()
    } else {
        8
    };
    let mut few: Vec<String> = Vec::new();
    let mut k: usize = 0;
    assert(texts(sorted@).len() == sorted@.len());
    assert(texts(few@) =~= goal.take(0));
    while k < n
        invariant
            k <= n <= sorted@.len(),
            goal.len() == n,
            forall|j: int| 0 <= j < n ==> #[trigger] goal[j] == sorted@[j]@,
            texts(few@) == goal.take(k as int),
        decreases n - k,
    {
        let l = sorted[k].clone();
        assert(texts(few@.push(l)) =~= texts(few@).push(l@));
        assert(goal.take(k + 1) =~= goal.take(k as int).push(goal[k as int]));
        few.push(l);
        k += 1;
    }
    assert(goal.take(n as int) =~= goal);
    let mut s = String::from_str(subject);
    s.push_str(" names branch ");
    s.push_str(to_debug(label).as_str());
    s.push_str(", which is not a label in source_branches; use labels such as ");
    s.push_str(write_list(&few).as_str());
    s
}

/// The title of a section as a message shows it.
fn show_title(value: &Json, i: usize) -> (r: String)
    ensures
        r@ == title_shown(response_section(value@, i as int)),
{
    match item_text(value, "sections", i, "title") {
        Some(t) => {
            let mut s = String::from_str("Some(");
            s.push_str(to_debug(t.as_str()).as_str());
            s.push_str(")");
            s
        },
        None => String::from_str("None"),
    }
}

/// The titles of the first sections as a message shows them.
fn show_titles(value: &Json, count: usize) -> (r: String)
    ensures
        r@ == titles_shown(value@, count as nat),
{
    let ghost goal = Seq::new(
        count as nat,
        |i: int| title_shown(response_section(value@, i)),
    );
    let mut list: Vec<String> = Vec::new();
    let mut i: usize = 0;
    assert(texts(list@) =~= goal.take(0));
    while i < count
        invariant
            i <= count,
            goal == Seq::new(count as nat, |i: int| title_shown(response_section(value@, i))),
            texts(list@) == goal.take(i as int),
        decreases count - i,
    {
        let t = show_title(value, i);
        assert(texts(list@.push(t)) =~= texts(list@).push(t@));
        assert(goal.take(i + 1) =~= goal.take(i as int).push(t@));
        list.push(t);
        i += 1;
    }
    assert(goal.take(count as int) =~= goal);
    let mut s = String::from_str("[");
    s.push_str(join_with(&list, ", ").as_str());
    s.push_str("]");
    s
}

/// How a message about a prerequisite begins.
fn write_prerequisite(value: &Json, i: usize, title: &str) -> (r: String)
    ensures
        forall|k: int|
            title@ == prerequisite(value@, i as int, k) ==> r@ == #[trigger] prerequisite_text(
                value@,
                i as nat,
                k,
            ),
{
    let mut s = place("sections[", i, "] (");
    s.push_str(show_title(value, i).as_str());
    s.push_str(").prerequisite_titles: ");
    s.push_str(to_debug(title).as_str());
    s
}

/// Whether a section of a response has a title.
fn has_title(value: &Json, i: usize, title: &str) -> (r: bool)
    ensures
        r == (response_section(value@, i as int).text("title"@) == Some(title@)),
{
    match item_text(value, "sections", i, "title") {
        Some(t) => same(t.as_str(), title),
        None => false,
    }
}

/// The number of sections of a response.
fn count_sections(value: &Json) -> (r: usize)
    ensures
        r == value@.items("sections"@).len(),
{
    match value.items("sections") {
        Some(list) => {
            assert(models_len(list@) == list@.len());
            list.len()
        },
        None => 0,
    }
}

/// What is told of a generated plan that was refused.
pub fn generated_message(f: &GeneratedFault, value: &Json, labels: &Vec<Label>) -> (r: String)
    ensures
        r@ == generated_text(*f, value@, label_models(labels@)),
{
    match f {
        GeneratedFault::Branches(i) => {
            let mut s = name_section(value, *i);
            s.push_str(".branches must be an array of branch labels; use [] when empty");
            s
        },
        GeneratedFault::BranchText(i, _) => {
            let mut s = name_section(value, *i);
            s.push_str(".branches must hold branch label strings");
            s
        },
        GeneratedFault::BranchLabel(i, k) => {
            let label = trimmed(section_text(value, *i, "branches", *k).as_str());
            write_label(name_section(value, *i).as_str(), label.as_str(), labels)
        },
        GeneratedFault::Exclusions => String::from_str(
            "excluded_branches must be an array of {branch, reason} objects; use [] when empty",
        ),
        GeneratedFault::Reason(i) => place(
            "excluded_branches[",
            *i,
            "] needs a short reason tied to the purpose",
        ),
        GeneratedFault::ExcludedText(i) => place(
            "excluded_branches[",
            *i,
            "].branches must hold branch label strings",
        ),
        GeneratedFault::ExcludedLabel(i) => {
            let branch = or_nothing(item_text(value, "excluded_branches", *i, "branch"));
            let label = trimmed(branch.as_str());
            write_label(
                place("excluded_branches[", *i, "]").as_str(),
                label.as_str(),
                labels,
            )
        },
        GeneratedFault::Covered(i, at) => {
            let branch = or_nothing(item_text(value, "excluded_branches", *i, "branch"));
            let title = or_nothing(item_text(value, "sections", *at, "title"));
            let mut s = String::from_str("Branch ");
            s.push_str(to_debug(trimmed(branch.as_str()).as_str()).as_str());
            s.push_str(" is both covered by section ");
            s.push_str(to_debug(title.as_str()).as_str());
            s.push_str(
                " and listed in excluded_branches; account for a branch one way only - keep it in that section and drop the exclusion, or drop it from that section's branches and keep the reason",
            );
            s
        },
        GeneratedFault::Prerequisites(i) => place(
            "sections[",
            *i,
            "].prerequisite_titles must be an array of exact title strings; use [] when empty",
        ),
        GeneratedFault::PrerequisiteTitle(i, k) => {
            let title = section_text(value, *i, "prerequisite_titles", *k);
            let n: usize = count_sections(value);
            let mut found: usize = 0;
            let mut j: usize = 0;
            while j < n
                invariant
                    j <= n,
                    found == titled(value@, title@, j as nat),
                    found <= j,
                decreases n - j,
            {
                if has_title(value, j, title.as_str()) {
                    found += 1;
                }
                j += 1;
            }
            let mut s = write_prerequisite(value, *i, title.as_str());
            assert(s@ == prerequisite_text(value@, *i as nat, *k as int));
            s.push_str(" matches ");
            s.push_str(number(found as u64).as_str());
            s.push_str(" sections; use an exact unique section title. Available earlier titles: ");
            s.push_str(show_titles(value, *i).as_str());
            s
        },
        GeneratedFault::PrerequisiteOrder(i, k) => {
            let title = section_text(value, *i, "prerequisite_titles", *k);
            let n: usize = count_sections(value);
            let mut at: usize = 0;
            while at < n && !has_title(value, at, title.as_str())
                invariant
                    at <= n,
                    n == value@.items("sections"@).len(),
                    section_titled(value@, title@, 0) == section_titled(value@, title@, at as nat),
                decreases n - at,
            {
                at += 1;
            }
            let mut s = write_prerequisite(value, *i, title.as_str());
            assert(s@ == prerequisite_text(value@, *i as nat, *k as int));
            s.push_str(" refers to sections[");
            s.push_str(number(at as u64).as_str());
            s.push_str("], ");
            s.push_str(
                if at == *i {
                    "the current section"
                } else {
                    "a later section"
                },
            );
            s.push_str("; available earlier titles: ");
            s.push_str(show_titles(value, *i).as_str());
            s.push_str(
                ". Move a real prerequisite before use and update storyline and handoffs; do not drop it or guess another title",
            );
            s
        },
        GeneratedFault::Shape => String::from_str(
            "LLM output does not match required JSON schema: outline",
        ),
    }
}

} // verus!
