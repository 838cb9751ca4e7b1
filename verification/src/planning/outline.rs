//! The rules that a plan must meet before anything is written from it.

use vstd::prelude::*;
use vstd::utf8::encode_utf8;

use crate::findings::{
    all_bounded, every_bounded, evidence_ids, resolve_all, resolve_ids, IdFault,
    MAX_SECTION_ANCHORS,
};
use crate::model::{BranchExclusion, Evidence, Outline, SectionPlan};
use crate::source::{digest, hash};
use crate::text::{
    blen, bounded, bounded_text, comparable_title, is_ascii_digit, is_ascii_letter, is_blank,
    joined, list_has, texts, title_key, to_chars, trim,
};

verus! {

/// The most sections one document may hold, however large the source.
pub const SECTIONS_MAX: usize = 256;

/// The ceiling where nothing is known to raise it.
pub const SECTIONS_WITHOUT_BRANCHES: usize = 32;

/// The most branches or parts that one section may name.
pub const SECTION_BRANCHES_MAX: usize = 512;

/// Three sections for each branch, no fewer than a small source is allowed and
/// no more than a document may hold; the most where the branches are not known.
pub open spec fn ceiling(branches: Option<usize>) -> nat {
    match branches {
        Some(n) => if 3 * n < SECTIONS_WITHOUT_BRANCHES {
            SECTIONS_WITHOUT_BRANCHES as nat
        } else if 3 * n > SECTIONS_MAX {
            SECTIONS_MAX as nat
        } else {
            (3 * n) as nat
        },
        None => SECTIONS_MAX as nat,
    }
}

/// How many sections this document may hold.
pub fn section_ceiling(branches: Option<usize>) -> (r: usize)
    ensures
        r == ceiling(branches),
        SECTIONS_WITHOUT_BRANCHES <= r <= SECTIONS_MAX,
{
    match branches {
        Some(n) => {
            if n > SECTIONS_MAX {
                SECTIONS_MAX
            } else if 3 * n < SECTIONS_WITHOUT_BRANCHES {
                SECTIONS_WITHOUT_BRANCHES
            } else if 3 * n > SECTIONS_MAX {
                SECTIONS_MAX
            } else {
                3 * n
            }
        },
        None => SECTIONS_MAX,
    }
}

/// More branches never lower the ceiling.
pub proof fn more_branches_never_lower_the_ceiling(fewer: usize, more: usize)
    requires
        fewer <= more,
    ensures
        ceiling(Some(fewer)) <= ceiling(Some(more)) <= ceiling(None),
{
}

/// Why a plan is refused. Numbers are positions of sections, and positions in
/// their lists.
#[derive(Clone, Copy, Debug, PartialEq, Eq, Structural)]
pub enum OutlineFault {
    /// There are no sections, or more than the ceiling.
    Sections,
    /// The reader goal or the storyline is empty or too long.
    Framing,
    /// There are too many terms, or one is empty or too long.
    Terminology,
    /// The section's id is malformed or repeated.
    Id(usize),
    /// The section has no usable key points.
    KeyPoints(usize),
    /// The title or the source query is empty or too long.
    Title(usize),
    /// Optional context is too long.
    Context(usize),
    /// The title is one of an earlier section.
    RepeatedTitle(usize),
    /// The prerequisite is not an earlier section.
    Dependency(usize, usize),
    /// The prerequisite was named before.
    RepeatedDependency(usize, usize),
    /// The list of diagrams is missing, too long or has an unusable item.
    Diagrams(usize),
    /// The list of branches is too long or has an unusable item.
    Branches(usize),
    /// The source anchors do not resolve.
    Anchors(usize, IdFault),
    /// The exclusions are too many, or one is unusable.
    Exclusions,
    /// More diagrams are planned than the document may have.
    DiagramLimit,
}

/// The id of a section: its own, or the hash of its title and question.
pub open spec fn section_id(section: SectionPlan) -> Seq<char> {
    if section.id@.len() == 0 {
        digest(encode_utf8(section.title@ + seq![':'] + section.reader_question@))
    } else {
        section.id@
    }
}

/// The ids of a list of sections.
pub open spec fn section_ids(sections: Seq<SectionPlan>) -> Seq<Seq<char>> {
    sections.map_values(|s: SectionPlan| section_id(s))
}

/// The compared titles of a list of sections.
pub open spec fn section_titles(sections: Seq<SectionPlan>) -> Seq<Seq<char>> {
    sections.map_values(|s: SectionPlan| title_key(s.title@))
}

/// At most sixty-four ASCII letters, digits and hyphens.
pub open spec fn is_section_id(id: Seq<char>) -> bool {
    id.len() <= 64 && forall|i: int|
        0 <= i < id.len() ==> is_ascii_letter(#[trigger] id[i]) || is_ascii_digit(id[i]) || id[i]
            == '-'
}

/// The first fault among prerequisites, from position `from` on.
pub open spec fn dependency_fault(deps: Seq<usize>, index: usize, from: nat) -> Option<OutlineFault>
    decreases deps.len() - from,
{
    if from >= deps.len() {
        None
    } else if deps[from as int] >= index {
        Some(OutlineFault::Dependency(index, from as usize))
    } else if deps.take(from as int).contains(deps[from as int]) {
        Some(OutlineFault::RepeatedDependency(index, from as usize))
    } else {
        dependency_fault(deps, index, from + 1)
    }
}

/// The key points of a section are usable: at most twelve, each bounded, and
/// some, unless a question stands in for them.
pub open spec fn key_points_ok(section: SectionPlan) -> bool {
    &&& section.key_points@.len() <= 12
    &&& all_bounded(texts(section.key_points@), 1500)
    &&& section.key_points@.len() > 0 || trim(section.reader_question@).len() > 0
}

/// The optional context of a section fits.
pub open spec fn context_ok(section: SectionPlan) -> bool {
    &&& blen(section.reader_question@) <= 1500
    &&& blen(section.handoff@) <= 1500
    &&& section.out_of_scope@.len() <= 12
    &&& all_bounded(texts(section.out_of_scope@), 1500)
}

/// The diagrams of a section are planned: at most four, each bounded.
pub open spec fn diagrams_ok(section: SectionPlan) -> bool {
    &&& section.diagrams is Some
    &&& section.diagrams->0@.len() <= 4
    &&& all_bounded(texts(section.diagrams->0@), 1500)
}

/// A section needs anchors that resolve, unless it has none and its branches
/// carry it.
pub open spec fn needs_anchors(section: SectionPlan) -> bool {
    section.evidence_ids@.len() > 0 || section.branches@.len() == 0
}

/// The anchors of a section in full, or what is wrong with the section.
pub open spec fn check_section(
    sections: Seq<SectionPlan>,
    index: int,
    known: Seq<Seq<char>>,
) -> Result<Seq<Seq<char>>, OutlineFault> {
    let section = sections[index];
    let at = index as usize;
    if !is_section_id(section_id(section)) || section_ids(sections).take(index).contains(
        section_id(section),
    ) {
        Err(OutlineFault::Id(at))
    } else if !key_points_ok(section) {
        Err(OutlineFault::KeyPoints(at))
    } else if !(bounded(section.title@, 299) && bounded(section.query@, 1999)) {
        Err(OutlineFault::Title(at))
    } else if !context_ok(section) {
        Err(OutlineFault::Context(at))
    } else if section_titles(sections).take(index).contains(title_key(section.title@)) {
        Err(OutlineFault::RepeatedTitle(at))
    } else if let Some(fault) = dependency_fault(section.depends_on@, at, 0) {
        Err(fault)
    } else if !diagrams_ok(section) {
        Err(OutlineFault::Diagrams(at))
    } else if section.branches@.len() > SECTION_BRANCHES_MAX || !all_bounded(
        texts(section.branches@),
        200,
    ) {
        Err(OutlineFault::Branches(at))
    } else if !needs_anchors(section) {
        Ok(Seq::empty())
    } else {
        match resolve_all(texts(section.evidence_ids@), known, MAX_SECTION_ANCHORS as nat) {
            Ok(full) => Ok(full),
            Err(fault) => Err(OutlineFault::Anchors(at, fault)),
        }
    }
}

/// The anchors of the first `count` sections in full, or the first fault.
pub open spec fn check_sections(
    sections: Seq<SectionPlan>,
    known: Seq<Seq<char>>,
    count: nat,
) -> Result<Seq<Seq<Seq<char>>>, OutlineFault>
    decreases count,
{
    if count == 0 {
        Ok(Seq::empty())
    } else {
        match check_sections(sections, known, (count - 1) as nat) {
            Err(fault) => Err(fault),
            Ok(done) => match check_section(sections, count - 1, known) {
                Err(fault) => Err(fault),
                Ok(full) => Ok(done.push(full)),
            },
        }
    }
}

/// Every exclusion names a branch and gives a reason.
pub open spec fn exclusions_ok(exclusions: Seq<BranchExclusion>) -> bool {
    exclusions.len() <= 1024 && forall|i: int|
        0 <= i < exclusions.len() ==> bounded((#[trigger] exclusions[i]).branch@, 200) && bounded(
            exclusions[i].reason@,
            1500,
        )
}

/// How many diagrams the first `count` sections plan.
pub open spec fn diagram_count(sections: Seq<SectionPlan>, count: nat) -> nat
    decreases count,
{
    if count == 0 {
        0
    } else {
        let here = match sections[count - 1].diagrams {
            Some(d) => d@.len(),
            None => 0,
        };
        diagram_count(sections, (count - 1) as nat) + here
    }
}

/// The anchors of every section in full, or why the plan is refused.
pub open spec fn check_outline(
    outline: Outline,
    known: Seq<Seq<char>>,
    maximum: Option<u32>,
    branches: Option<usize>,
) -> Result<Seq<Seq<Seq<char>>>, OutlineFault> {
    let sections = outline.sections@;
    if sections.len() == 0 || sections.len() > ceiling(branches) {
        Err(OutlineFault::Sections)
    } else if !(bounded(outline.reader_goal@, 2000) && bounded(outline.storyline@, 4000)) {
        Err(OutlineFault::Framing)
    } else if outline.terminology@.len() > 12 || !all_bounded(texts(outline.terminology@), 500) {
        Err(OutlineFault::Terminology)
    } else {
        match check_sections(sections, known, sections.len()) {
            Err(fault) => Err(fault),
            Ok(anchors) => if !exclusions_ok(outline.excluded_branches@) {
                Err(OutlineFault::Exclusions)
            } else if maximum is Some && diagram_count(sections, sections.len()) > maximum->0 {
                Err(OutlineFault::DiagramLimit)
            } else {
                Ok(anchors)
            },
        }
    }
}

/// A section as an accepted plan holds it: with its id, and with its anchors in
/// full.
pub open spec fn accepted_section(
    before: SectionPlan,
    after: SectionPlan,
    anchors: Seq<Seq<char>>,
) -> bool {
    &&& after.id@ == section_id(before)
    &&& after.id@.len() > 0
    &&& needs_anchors(before) ==> texts(after.evidence_ids@) == anchors
    &&& !needs_anchors(before) ==> after.evidence_ids == before.evidence_ids
    &&& after == (SectionPlan { id: after.id, evidence_ids: after.evidence_ids, ..before })
}

/// An accepted plan: every section as it was, with its id, and with its anchors
/// in full; everything else unchanged.
pub open spec fn accepted_outline(
    before: Outline,
    after: Outline,
    anchors: Seq<Seq<Seq<char>>>,
) -> bool {
    &&& after == (Outline { sections: after.sections, ..before })
    &&& after.sections@.len() == before.sections@.len()
    &&& forall|i: int|
        0 <= i < after.sections@.len() ==> accepted_section(
            before.sections@[i],
            #[trigger] after.sections@[i],
            anchors[i],
        )
}

/// A fault among the first sections is the fault of all of them.
proof fn lemma_sections_stop(
    sections: Seq<SectionPlan>,
    known: Seq<Seq<char>>,
    count: nat,
    all: nat,
)
    requires
        count <= all,
    ensures
        check_sections(sections, known, count) is Err ==> check_sections(sections, known, all)
            == check_sections(sections, known, count),
        check_sections(sections, known, all) is Ok ==> check_sections(sections, known, count) is Ok,
    decreases all - count,
{
    if count < all {
        lemma_sections_stop(sections, known, count, (all - 1) as nat);
    }
}

/// Without a fault, every prerequisite is an earlier section, named once.
proof fn lemma_dependencies(deps: Seq<usize>, index: usize, from: nat)
    requires
        dependency_fault(deps, index, from) is None,
        forall|k: int| 0 <= k < from && k < deps.len() ==> deps[k] < index,
        forall|j: int, k: int|
            0 <= j < k < from && k < deps.len() ==> deps[j] != deps[k],
    ensures
        forall|k: int| 0 <= k < deps.len() ==> deps[k] < index,
        deps.no_duplicates(),
    decreases deps.len() - from,
{
    if from < deps.len() {
        assert forall|j: int, k: int| 0 <= j < k < from + 1 && k < deps.len() implies deps[j]
            != deps[k] by {
            if k == from {
                assert(deps.take(from as int)[j] == deps[j]);
            }
        }
        lemma_dependencies(deps, index, from + 1);
    }
}

/// In an accepted plan sections have distinct ids and distinct titles, and each
/// depends only on earlier sections, on none of them twice.
pub proof fn accepted_plans_read_forward(
    outline: Outline,
    known: Seq<Seq<char>>,
    maximum: Option<u32>,
    branches: Option<usize>,
)
    requires
        outline.sections@.len() <= usize::MAX,
        check_outline(outline, known, maximum, branches) is Ok,
    ensures
        section_ids(outline.sections@).no_duplicates(),
        section_titles(outline.sections@).no_duplicates(),
        forall|i: int, k: int|
            0 <= i < outline.sections@.len() && 0 <= k < outline.sections@[i].depends_on@.len()
                ==> (#[trigger] outline.sections@[i].depends_on@[k]) < i,
        forall|i: int|
            0 <= i < outline.sections@.len() ==> (
            #[trigger] outline.sections@[i]).depends_on@.no_duplicates(),
{
    let sections = outline.sections@;
    assert forall|i: int| 0 <= i < sections.len() implies check_section(sections, i, known) is Ok by {
        lemma_sections_stop(sections, known, (i + 1) as nat, sections.len());
    }
    let ids = section_ids(sections);
    let titles = section_titles(sections);
    assert forall|i: int, j: int| 0 <= i < sections.len() && 0 <= j < sections.len() && i != j
        implies ids[i] != ids[j] && titles[i] != titles[j] by {
        let (a, b) = if i < j {
            (i, j)
        } else {
            (j, i)
        };
        assert(check_section(sections, b, known) is Ok);
        assert(ids.take(b)[a] == ids[a]);
        assert(titles.take(b)[a] == titles[a]);
        assert(!ids.take(b).contains(ids[b]));
        assert(!titles.take(b).contains(titles[b]));
    }
    assert forall|i: int| 0 <= i < sections.len() implies {
        &&& (#[trigger] sections[i]).depends_on@.no_duplicates()
        &&& forall|k: int|
            0 <= k < sections[i].depends_on@.len() ==> sections[i].depends_on@[k] < i
    } by {
        assert(check_section(sections, i, known) is Ok);
        lemma_dependencies(sections[i].depends_on@, i as usize, 0);
    }
}

// ---------------------------------------------------------------------------
// Executable functions
// ---------------------------------------------------------------------------

/// The id of a section: its own, or the hash of its title and question.
pub fn own_or_hashed_id(section: &SectionPlan) -> (r: String)
    ensures
        r@ == section_id(*section),
        r@.len() > 0,
{
    if section.id.as_str().is_empty() {
        proof {
            reveal_strlit(":");
            assert(":"@ =~= seq![':']);
        }
        let named = joined(
            joined(section.title.as_str(), ":").as_str(),
            section.reader_question.as_str(),
        );
        hash(named.as_str().as_bytes())
    } else {
        section.id.clone()
    }
}

/// Whether a text is at most sixty-four ASCII letters, digits and hyphens.
fn usable_id(id: &str) -> (r: bool)
    ensures
        r == is_section_id(id@),
{
    let chars = to_chars(id);
    if chars.len() > 64 {
        return false;
    }
    let mut i: usize = 0;
    while i < chars.len()
        invariant
            i <= chars@.len(),
            chars@ == id@,
            forall|k: int|
                0 <= k < i ==> is_ascii_letter(#[trigger] chars@[k]) || is_ascii_digit(chars@[k])
                    || chars@[k] == '-',
        decreases chars@.len() - i,
    {
        let c = chars[i];
        if !(('0' <= c && c <= '9') || ('a' <= c && c <= 'z') || ('A' <= c && c <= 'Z') || c
            == '-') {
            assert(!(is_ascii_letter(id@[i as int]) || is_ascii_digit(id@[i as int]) || id@[i as int]
                == '-'));
            return false;
        }
        i += 1;
    }
    true
}

/// The first fault among prerequisites.
fn check_dependencies(deps: &Vec<usize>, index: usize) -> (r: Option<OutlineFault>)
    ensures
        r == dependency_fault(deps@, index, 0),
{
    let mut at: usize = 0;
    while at < deps.len()
        invariant
            at <= deps@.len(),
            dependency_fault(deps@, index, at as nat) == dependency_fault(deps@, index, 0),
        decreases deps@.len() - at,
    {
        if deps[at] >= index {
            return Some(OutlineFault::Dependency(index, at));
        }
        let mut k: usize = 0;
        while k < at
            invariant
                k <= at < deps@.len(),
                dependency_fault(deps@, index, at as nat) == dependency_fault(deps@, index, 0),
                deps@[at as int] < index,
                forall|j: int| 0 <= j < k ==> deps@[j] != deps@[at as int],
            decreases at - k,
        {
            if deps[k] == deps[at] {
                assert(deps@.take(at as int)[k as int] == deps@[at as int]);
                return Some(OutlineFault::RepeatedDependency(index, at));
            }
            k += 1;
        }
        assert(!deps@.take(at as int).contains(deps@[at as int]));
        at += 1;
    }
    None
}

/// The anchors of a section in full, or what is wrong with the section. `ids`
/// and `titles` hold those of the sections before it, and then its own too.
fn check_one(
    sections: &Vec<SectionPlan>,
    index: usize,
    evidence: &Vec<Evidence>,
    ids: &mut Vec<String>,
    titles: &mut Vec<String>,
) -> (r: Result<Vec<String>, OutlineFault>)
    requires
        index < sections@.len(),
        texts(old(ids)@) == section_ids(sections@).take(index as int),
        texts(old(titles)@) == section_titles(sections@).take(index as int),
    ensures
        match check_section(sections@, index as int, evidence_ids(evidence@)) {
            Ok(full) => {
                &&& r is Ok
                &&& texts(r->Ok_0@) == full
                &&& section_id(sections@[index as int]).len() > 0
                &&& texts(final(ids)@) == section_ids(sections@).take(index + 1)
                &&& texts(final(titles)@) == section_titles(sections@).take(index + 1)
            },
            Err(fault) => r == Err::<Vec<String>, OutlineFault>(fault),
        },
{
    let section = &sections[index];
    let id = own_or_hashed_id(section);
    if !usable_id(id.as_str()) || list_has(ids, id.as_str()) {
        return Err(OutlineFault::Id(index));
    }
    proof {
        assert(texts(ids@.push(id)) =~= texts(ids@).push(id@));
        assert(section_ids(sections@).take(index + 1) =~= section_ids(sections@).take(
            index as int,
        ).push(id@));
    }
    ids.push(id);
    if section.key_points.len() > 12 || !every_bounded(&section.key_points, 1500) || (
    section.key_points.len() == 0 && is_blank(section.reader_question.as_str())) {
        return Err(OutlineFault::KeyPoints(index));
    }
    if !bounded_text(section.title.as_str(), 299) || !bounded_text(section.query.as_str(), 1999) {
        return Err(OutlineFault::Title(index));
    }
    if section.reader_question.as_str().as_bytes().len() > 1500
        || section.handoff.as_str().as_bytes().len() > 1500 || section.out_of_scope.len() > 12
        || !every_bounded(&section.out_of_scope, 1500) {
        return Err(OutlineFault::Context(index));
    }
    let title = comparable_title(section.title.as_str());
    if list_has(titles, title.as_str()) {
        return Err(OutlineFault::RepeatedTitle(index));
    }
    proof {
        assert(texts(titles@.push(title)) =~= texts(titles@).push(title@));
        assert(section_titles(sections@).take(index + 1) =~= section_titles(sections@).take(
            index as int,
        ).push(title@));
    }
    titles.push(title);
    if let Some(fault) = check_dependencies(&section.depends_on, index) {
        return Err(fault);
    }
    match &section.diagrams {
        None => {
            return Err(OutlineFault::Diagrams(index));
        },
        Some(d) => {
            if d.len() > 4 || !every_bounded(d, 1500) {
                return Err(OutlineFault::Diagrams(index));
            }
        },
    }
    if section.branches.len() > SECTION_BRANCHES_MAX || !every_bounded(&section.branches, 200) {
        return Err(OutlineFault::Branches(index));
    }
    if section.evidence_ids.len() == 0 && section.branches.len() > 0 {
        let none: Vec<String> = Vec::new();
        assert(texts(none@) =~= Seq::empty());
        return Ok(none);
    }
    match resolve_ids(&section.evidence_ids, evidence, MAX_SECTION_ANCHORS) {
        Ok(full) => Ok(full),
        Err(fault) => Err(OutlineFault::Anchors(index, fault)),
    }
}

/// Whether every exclusion names a branch and gives a reason.
fn check_exclusions(exclusions: &Vec<BranchExclusion>) -> (r: bool)
    ensures
        r == exclusions_ok(exclusions@),
{
    if exclusions.len() > 1024 {
        return false;
    }
    let mut i: usize = 0;
    while i < exclusions.len()
        invariant
            i <= exclusions@.len() <= 1024,
            forall|k: int|
                0 <= k < i ==> bounded((#[trigger] exclusions@[k]).branch@, 200) && bounded(
                    exclusions@[k].reason@,
                    1500,
                ),
        decreases exclusions@.len() - i,
    {
        if !bounded_text(exclusions[i].branch.as_str(), 200) || !bounded_text(
            exclusions[i].reason.as_str(),
            1500,
        ) {
            return false;
        }
        i += 1;
    }
    true
}

/// Whether the sections plan more diagrams than `maximum`.
fn too_many_diagrams(sections: &Vec<SectionPlan>, maximum: u32) -> (r: bool)
    requires
        forall|i: int|
            0 <= i < sections@.len() ==> (#[trigger] sections@[i]).diagrams is Some
                && sections@[i].diagrams->0@.len() <= 4,
        sections@.len() <= SECTIONS_MAX,
    ensures
        r == (diagram_count(sections@, sections@.len()) > maximum),
{
    let mut planned: usize = 0;
    let mut i: usize = 0;
    while i < sections.len()
        invariant
            i <= sections@.len() <= SECTIONS_MAX,
            forall|i: int|
                0 <= i < sections@.len() ==> (#[trigger] sections@[i]).diagrams is Some
                    && sections@[i].diagrams->0@.len() <= 4,
            planned == diagram_count(sections@, i as nat),
            planned <= 4 * i,
        decreases sections@.len() - i,
    {
        if let Some(d) = &sections[i].diagrams {
            planned += d.len();
        }
        i += 1;
    }
    planned > maximum as usize
}

/// Checks a plan and completes it: every section gets its id, and its anchors
/// in full. A plan that is refused stays as it is.
pub fn validate_outline(
    outline: &mut Outline,
    evidence: &Vec<Evidence>,
    maximum: Option<u32>,
    branches: Option<usize>,
) -> (r: Result<(), OutlineFault>)
    ensures
        match check_outline(*old(outline), evidence_ids(evidence@), maximum, branches) {
            Ok(anchors) => r is Ok && accepted_outline(*old(outline), *final(outline), anchors),
            Err(fault) => r == Err::<(), OutlineFault>(fault) && *final(outline) == *old(outline),
        },
        r is Ok ==> forall|i: int|
            0 <= i < final(outline).sections@.len()
                ==> (#[trigger] final(outline).sections@[i]).id@.len() > 0,
{
    let ghost known = evidence_ids(evidence@);
    let ghost before = *outline;
    let count: usize = outline.sections.len();
    if count == 0 || count > section_ceiling(branches) {
        return Err(OutlineFault::Sections);
    }
    if !bounded_text(outline.reader_goal.as_str(), 2000) || !bounded_text(
        outline.storyline.as_str(),
        4000,
    ) {
        return Err(OutlineFault::Framing);
    }
    if outline.terminology.len() > 12 || !every_bounded(&outline.terminology, 500) {
        return Err(OutlineFault::Terminology);
    }
    let ghost sections = outline.sections@;
    let mut ids: Vec<String> = Vec::new();
    let mut titles: Vec<String> = Vec::new();
    let mut anchors: Vec<Vec<String>> = Vec::new();
    let ghost full = check_sections(sections, known, sections.len());
    let mut i: usize = 0;
    proof {
        assert(texts(ids@) =~= section_ids(sections).take(0));
        assert(texts(titles@) =~= section_titles(sections).take(0));
        assert(anchors@.map_values(|a: Vec<String>| texts(a@)) =~= Seq::empty());
    }
    while i < count
        invariant
            i <= count == sections.len(),
            anchors@.len() == i,
            *outline == before,
            *old(outline) == before,
            sections == before.sections@,
            known == evidence_ids(evidence@),
            texts(ids@) == section_ids(sections).take(i as int),
            texts(titles@) == section_titles(sections).take(i as int),
            forall|j: int| 0 <= j < i ==> section_id(#[trigger] sections[j]).len() > 0,
            full == check_sections(sections, known, sections.len()),
            check_sections(sections, known, i as nat) == Ok::<
                Seq<Seq<Seq<char>>>,
                OutlineFault,
            >(anchors@.map_values(|a: Vec<String>| texts(a@))),
            full matches Err(fault) ==> check_outline(before, known, maximum, branches) == Err::<
                Seq<Seq<Seq<char>>>,
                OutlineFault,
            >(fault),
        decreases count - i,
    {
        proof {
            lemma_sections_stop(sections, known, (i + 1) as nat, sections.len());
        }
        match check_one(&outline.sections, i, evidence, &mut ids, &mut titles) {
            Ok(a) => {
                assert(anchors@.push(a).map_values(|a: Vec<String>| texts(a@))
                    =~= anchors@.map_values(|a: Vec<String>| texts(a@)).push(texts(a@)));
                anchors.push(a);
            },
            Err(fault) => {
                return Err(fault);
            },
        }
        i += 1;
    }
    if !check_exclusions(&outline.excluded_branches) {
        return Err(OutlineFault::Exclusions);
    }
    if let Some(maximum) = maximum {
        proof {
            assert forall|i: int| 0 <= i < sections.len() implies (
            #[trigger] sections[i]).diagrams is Some && sections[i].diagrams->0@.len() <= 4 by {
                lemma_sections_stop(sections, known, (i + 1) as nat, sections.len());
                assert(check_section(sections, i, known) is Ok);
            }
        }
        if too_many_diagrams(&outline.sections, maximum) {
            return Err(OutlineFault::DiagramLimit);
        }
    }
    let ghost done = anchors@.map_values(|a: Vec<String>| texts(a@));
    assert(check_outline(before, known, maximum, branches) == Ok::<
        Seq<Seq<Seq<char>>>,
        OutlineFault,
    >(done));
    assert(done.take(count as int) =~= done);
    assert(texts(ids@).len() == ids@.len());
    let mut k: usize = count;
    while k > 0
        invariant
            k <= count == sections.len(),
            outline.sections@.len() == count,
            *outline == (Outline { sections: outline.sections, ..before }),
            sections == before.sections@,
            ids@.len() == k,
            anchors@.len() == k,
            texts(ids@) == section_ids(sections).take(k as int),
            anchors@.map_values(|a: Vec<String>| texts(a@)) == done.take(k as int),
            done.len() == count,
            forall|j: int| 0 <= j < k ==> outline.sections@[j] == sections[j],
            forall|j: int| 0 <= j < count ==> section_id(#[trigger] sections[j]).len() > 0,
            forall|j: int|
                k <= j < count ==> accepted_section(
                    sections[j],
                    #[trigger] outline.sections@[j],
                    done[j],
                ),
        decreases k,
    {
        let ghost all_ids = texts(ids@);
        let ghost all_anchors = anchors@.map_values(|a: Vec<String>| texts(a@));
        proof {
            assert(all_ids.last() == section_ids(sections)[k - 1]);
            assert(all_anchors.last() == done[k - 1]);
            assert(all_ids.last() == ids@.last()@);
            assert(all_anchors.last() == texts(anchors@.last()@));
        }
        k -= 1;
        if let (Some(id), Some(full)) = (ids.pop(), anchors.pop()) {
            outline.sections[k].id = id;
            if outline.sections[k].evidence_ids.len() > 0 || outline.sections[k].branches.len()
                == 0 {
                outline.sections[k].evidence_ids = full;
            }
        }
        proof {
            assert(texts(ids@) =~= section_ids(sections).take(k as int));
            assert(anchors@.map_values(|a: Vec<String>| texts(a@)) =~= done.take(k as int));
        }
    }
    Ok(())
}

} // verus!
