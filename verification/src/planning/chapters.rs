//! Dividing the branches of a large source into chapters, and chapters into
//! planning requests.

use vstd::prelude::*;

use crate::model::BranchExclusion;
use crate::order::{
    ascending, lemma_ordered, lemma_positions, lemma_positions_same, order_ascending, ordered,
    positions,
};
use crate::planning::branches::{BranchView, CHAPTER_BRANCHES, MAX_CHAPTERS};
use crate::text::{
    bounded, bounded_text, comparable_title, last_index, lemma_last_index, list_has, same, texts, title_key,
    trim, trimmed,
};

verus! {

/// A chapter as it was proposed, with labels.
pub struct ChapterDraft {
    pub title: String,
    pub summary: String,
    pub groups: Vec<String>,
    pub branches: Vec<String>,
}

/// A division of the document as it was proposed.
pub struct ChaptersDraft {
    pub chapters: Vec<ChapterDraft>,
    pub excluded_branches: Vec<BranchExclusion>,
    pub reader_goal: String,
    pub storyline: String,
}

/// A chapter with the node keys of its branches, in reading order.
pub struct Chapter {
    pub title: String,
    pub summary: String,
    pub branches: Vec<String>,
}

/// A division of the document into chapters.
pub struct Chapters {
    pub chapters: Vec<Chapter>,
    pub excluded_branches: Vec<BranchExclusion>,
    pub reader_goal: String,
    pub storyline: String,
}

/// Why a proposed division is refused. Numbers are positions in the draft.
#[derive(Debug)]
pub enum ChapterError {
    /// There are no chapters, or too many.
    Count,
    /// The reader goal or the storyline is empty or too long.
    Framing,
    /// The chapter's title or summary is empty, too long, or the title repeats
    /// an earlier one.
    Heading { chapter: usize },
    /// The label names no branch.
    UnknownBranch { chapter: usize, at: usize },
    /// The branch was named by an earlier chapter.
    BranchTwice { chapter: usize, at: usize, first: usize },
    /// The label names no group.
    UnknownGroup { chapter: usize, at: usize },
    /// The group was taken by an earlier chapter.
    GroupTwice { chapter: usize, at: usize, first: usize },
    /// The exclusion gives no usable reason.
    Reason { exclusion: usize },
    /// The excluded group is taken by a chapter.
    ExcludedGroup { exclusion: usize, chapter: usize },
    /// The excluded branch is named by a chapter.
    ExcludedBranch { exclusion: usize, chapter: usize },
    /// The exclusion names neither a branch nor a group.
    UnknownExclusion { exclusion: usize },
    /// Branches that are in no chapter and not excluded.
    Missing { branches: Vec<usize> },
    /// The chapter ends up without a branch.
    Empty { chapter: usize },
}

// ---------------------------------------------------------------------------
// What a division is
// ---------------------------------------------------------------------------

/// How a list of labels can fail to be claimed.
pub enum ClaimFault {
    /// The label at this position names nothing.
    Unknown(usize),
    /// The label at this position names something that another chapter has.
    Taken(usize, usize),
}

/// A chapter claims the things that its labels name, from the label at `from`
/// on. `owners` says which chapter has each thing so far.
pub open spec fn claim(
    owners: Seq<Option<usize>>,
    names: Seq<Seq<char>>,
    labels: Seq<Seq<char>>,
    chapter: usize,
    from: nat,
) -> Result<Seq<Option<usize>>, ClaimFault>
    decreases labels.len() - from,
{
    if from >= labels.len() {
        Ok(owners)
    } else {
        match last_index(names, trim(labels[from as int])) {
            None => Err(ClaimFault::Unknown(from as usize)),
            Some(i) => match owners[i as int] {
                Some(first) if first != chapter => Err(ClaimFault::Taken(from as usize, first)),
                _ => claim(owners.update(i as int, Some(chapter)), names, labels, chapter, from + 1),
            },
        }
    }
}

/// Which chapter named each branch, and which took each group.
pub struct Claims {
    pub branches: Seq<Option<usize>>,
    pub groups: Seq<Option<usize>>,
}

/// The titles of a draft, as they are compared.
pub open spec fn title_keys(chapters: Seq<ChapterDraft>) -> Seq<Seq<char>> {
    chapters.map_values(|c: ChapterDraft| title_key(c.title@))
}

/// The heading of a chapter is usable: bounded, and its title is not one of an
/// earlier chapter.
pub open spec fn heading_ok(chapters: Seq<ChapterDraft>, index: int) -> bool {
    &&& bounded(chapters[index].title@, 299)
    &&& bounded(chapters[index].summary@, 1500)
    &&& !title_keys(chapters).take(index).contains(title_key(chapters[index].title@))
}

/// What one chapter adds to the claims.
pub open spec fn claim_chapter(
    view: BranchView,
    chapters: Seq<ChapterDraft>,
    index: int,
    claims: Claims,
) -> Result<Claims, ChapterError> {
    let chapter = index as usize;
    if !heading_ok(chapters, index) {
        Err(ChapterError::Heading { chapter })
    } else {
        match claim(
            claims.branches,
            view.branch_labels(),
            texts(chapters[index].branches@),
            chapter,
            0,
        ) {
            Err(ClaimFault::Unknown(at)) => Err(ChapterError::UnknownBranch { chapter, at }),
            Err(ClaimFault::Taken(at, first)) => Err(
                ChapterError::BranchTwice { chapter, at, first },
            ),
            Ok(branches) => match claim(
                claims.groups,
                view.group_labels(),
                texts(chapters[index].groups@),
                chapter,
                0,
            ) {
                Err(ClaimFault::Unknown(at)) => Err(ChapterError::UnknownGroup { chapter, at }),
                Err(ClaimFault::Taken(at, first)) => Err(
                    ChapterError::GroupTwice { chapter, at, first },
                ),
                Ok(groups) => Ok(Claims { branches, groups }),
            },
        }
    }
}

/// No branch named and no group taken.
pub open spec fn no_claims(view: BranchView) -> Claims {
    Claims {
        branches: Seq::new(view.branches@.len(), |i: int| None),
        groups: Seq::new(view.groups@.len(), |i: int| None),
    }
}

/// The claims of the first `count` chapters, or the first fault among them.
pub open spec fn claim_chapters(
    view: BranchView,
    chapters: Seq<ChapterDraft>,
    count: nat,
) -> Result<Claims, ChapterError>
    decreases count,
{
    if count == 0 {
        Ok(no_claims(view))
    } else {
        match claim_chapters(view, chapters, (count - 1) as nat) {
            Err(e) => Err(e),
            Ok(claims) => claim_chapter(view, chapters, count - 1, claims),
        }
    }
}

/// Marks the branches in `members` as left out by exclusion `index`.
pub open spec fn exclude_members(
    excluded: Seq<Option<usize>>,
    members: Seq<usize>,
    index: usize,
) -> Seq<Option<usize>> {
    Seq::new(
        excluded.len(),
        |b: int| if members.contains(b as usize) { Some(index) } else { excluded[b] },
    )
}

/// What one exclusion adds to the branches left out.
pub open spec fn exclude_one(
    view: BranchView,
    claims: Claims,
    exclusions: Seq<BranchExclusion>,
    index: int,
    excluded: Seq<Option<usize>>,
) -> Result<Seq<Option<usize>>, ChapterError> {
    let exclusion = index as usize;
    let label = trim(exclusions[index].branch@);
    if !bounded(exclusions[index].reason@, 1500) {
        Err(ChapterError::Reason { exclusion })
    } else {
        match (last_index(view.branch_labels(), label), last_index(view.group_labels(), label)) {
            (Some(branch), _) => match claims.branches[branch as int] {
                Some(chapter) => Err(ChapterError::ExcludedBranch { exclusion, chapter }),
                None => Ok(excluded.update(branch as int, Some(exclusion))),
            },
            (None, Some(group)) => match claims.groups[group as int] {
                Some(chapter) => Err(ChapterError::ExcludedGroup { exclusion, chapter }),
                None => Ok(
                    exclude_members(excluded, view.groups@[group as int].members@, exclusion),
                ),
            },
            (None, None) => Err(ChapterError::UnknownExclusion { exclusion }),
        }
    }
}

/// The branches that the first `count` exclusions leave out, each with the last
/// exclusion that names it, or the first fault among them.
pub open spec fn exclude(
    view: BranchView,
    claims: Claims,
    exclusions: Seq<BranchExclusion>,
    count: nat,
) -> Result<Seq<Option<usize>>, ChapterError>
    decreases count,
{
    if count == 0 {
        Ok(Seq::new(view.branches@.len(), |i: int| None))
    } else {
        match exclude(view, claims, exclusions, (count - 1) as nat) {
            Err(e) => Err(e),
            Ok(excluded) => exclude_one(view, claims, exclusions, count - 1, excluded),
        }
    }
}

/// The chapter that brings a branch in by one of its first `count` groups.
pub open spec fn group_owner(
    view: BranchView,
    groups: Seq<Option<usize>>,
    branch: usize,
    count: nat,
) -> Option<usize>
    decreases count,
{
    if count == 0 {
        None
    } else if groups[count - 1] is Some && view.groups@[count - 1].members@.contains(branch) {
        groups[count - 1]
    } else {
        group_owner(view, groups, branch, (count - 1) as nat)
    }
}

/// The chapter that a branch belongs to. A branch named on its own belongs to
/// the chapter that names it; an exclusion takes a branch out of the group that
/// brought it in.
pub open spec fn owner_of(
    view: BranchView,
    claims: Claims,
    excluded: Seq<Option<usize>>,
    branch: int,
) -> Option<usize> {
    if claims.branches[branch] is Some {
        claims.branches[branch]
    } else if excluded[branch] is Some {
        None
    } else {
        group_owner(view, claims.groups, branch as usize, view.groups@.len())
    }
}

/// A division: the chapter of each branch, and the exclusion of each branch
/// that one names.
pub struct Division {
    pub owner: Seq<Option<usize>>,
    pub excluded: Seq<Option<usize>>,
}

impl Division {
    /// The branches of a chapter, in reading order.
    pub open spec fn of_chapter(self, chapter: int) -> Seq<usize> {
        positions(|b: int| self.owner[b] == Some(chapter as usize), self.owner.len())
    }

    /// The branches that are left out, in reading order.
    pub open spec fn left_out(self) -> Seq<usize> {
        positions(|b: int| self.owner[b] is None && self.excluded[b] is Some, self.owner.len())
    }

    /// The branches that nothing accounts for.
    pub open spec fn unaccounted(self) -> Seq<usize> {
        positions(|b: int| self.owner[b] is None && self.excluded[b] is None, self.owner.len())
    }
}

/// The first of `count` chapters that has no branch, or `count`.
pub open spec fn first_empty(division: Division, from: nat, count: nat) -> nat
    decreases count - from,
{
    if from >= count || division.of_chapter(from as int).len() == 0 {
        from
    } else {
        first_empty(division, from + 1, count)
    }
}

/// The division that claims and exclusions amount to.
pub open spec fn settle(view: BranchView, claims: Claims, excluded: Seq<Option<usize>>) -> Division {
    Division {
        owner: Seq::new(view.branches@.len(), |b: int| owner_of(view, claims, excluded, b)),
        excluded,
    }
}

/// What a draft divides the branches of a view into, or what is wrong with it.
pub open spec fn divide(draft: ChaptersDraft, view: BranchView) -> Result<Division, ChapterFault> {
    let count = draft.chapters@.len();
    if !(1 <= count <= MAX_CHAPTERS) {
        Err(ChapterFault::Error(ChapterError::Count))
    } else if !(bounded(draft.reader_goal@, 2000) && bounded(draft.storyline@, 4000)) {
        Err(ChapterFault::Error(ChapterError::Framing))
    } else {
        match claim_chapters(view, draft.chapters@, count) {
            Err(e) => Err(ChapterFault::Error(e)),
            Ok(claims) => match exclude(
                view,
                claims,
                draft.excluded_branches@,
                draft.excluded_branches@.len(),
            ) {
                Err(e) => Err(ChapterFault::Error(e)),
                Ok(excluded) => {
                    let division = settle(view, claims, excluded);
                    let empty = first_empty(division, 0, count);
                    if division.unaccounted().len() > 0 {
                        Err(ChapterFault::Missing(division.unaccounted()))
                    } else if empty < count {
                        Err(ChapterFault::Error(ChapterError::Empty { chapter: empty as usize }))
                    } else {
                        Ok(division)
                    }
                },
            },
        }
    }
}

/// A `ChapterError`, with the missing branches as a sequence.
pub enum ChapterFault {
    Missing(Seq<usize>),
    Error(ChapterError),
}

/// An error says what a fault is.
pub open spec fn tells(error: ChapterError, fault: ChapterFault) -> bool {
    match error {
        ChapterError::Missing { branches } => fault == ChapterFault::Missing(branches@),
        _ => fault == ChapterFault::Error(error),
    }
}

/// Chapters hold what a division gives them.
pub open spec fn chapters_hold(
    chapters: Chapters,
    draft: ChaptersDraft,
    view: BranchView,
    division: Division,
) -> bool {
    &&& chapters.reader_goal == draft.reader_goal
    &&& chapters.storyline == draft.storyline
    &&& chapters.chapters@.len() == draft.chapters@.len()
    &&& forall|c: int|
        0 <= c < chapters.chapters@.len() ==> {
            &&& (#[trigger] chapters.chapters@[c]).title == draft.chapters@[c].title
            &&& chapters.chapters@[c].summary == draft.chapters@[c].summary
            &&& texts(chapters.chapters@[c].branches@) == at_positions(
                view.branch_keys(),
                division.of_chapter(c),
            )
        }
    &&& chapters.excluded_branches@.len() == division.left_out().len()
    &&& forall|k: int|
        0 <= k < chapters.excluded_branches@.len() ==> {
            let branch = division.left_out()[k];
            let exclusion = division.excluded[branch as int]->0;
            &&& (#[trigger] chapters.excluded_branches@[k]).branch
                == view.branches@[branch as int].key
            &&& chapters.excluded_branches@[k].reason
                == draft.excluded_branches@[exclusion as int].reason
        }
}

/// The items of a list at the given positions.
pub open spec fn at_positions(items: Seq<Seq<char>>, at: Seq<usize>) -> Seq<Seq<char>> {
    at.map_values(|i: usize| items[i as int])
}

// ---------------------------------------------------------------------------
// Facts
// ---------------------------------------------------------------------------

/// Claiming keeps the number of things and gives them to chapters up to this
/// one.
proof fn lemma_claim(
    owners: Seq<Option<usize>>,
    names: Seq<Seq<char>>,
    labels: Seq<Seq<char>>,
    chapter: usize,
    from: nat,
)
    requires
        names.len() == owners.len() <= usize::MAX,
        forall|b: int| 0 <= b < owners.len() && owners[b] is Some ==> owners[b]->0 <= chapter,
    ensures
        claim(owners, names, labels, chapter, from) matches Ok(now) ==> now.len() == owners.len()
            && forall|b: int| 0 <= b < now.len() && now[b] is Some ==> now[b]->0 <= chapter,
        claim(owners, names, labels, chapter, from) matches Err(ClaimFault::Taken(_, first))
            ==> first < chapter,
    decreases labels.len() - from,
{
    if from < labels.len() {
        let found = last_index(names, trim(labels[from as int]));
        lemma_last_index(names, trim(labels[from as int]));
        if let Some(i) = found {
            if owners[i as int] is Some && owners[i as int]->0 != chapter {
            } else {
                lemma_claim(owners.update(i as int, Some(chapter)), names, labels, chapter, from + 1);
            }
        }
    }
}

// ---------------------------------------------------------------------------
// Executable functions
// ---------------------------------------------------------------------------

/// The position of the last branch with this label.
fn branch_position(view: &BranchView, label: &str) -> (r: Option<usize>)
    ensures
        r == last_index(view.branch_labels(), label@),
        r matches Some(i) ==> i < view.branches@.len(),
{
    let ghost names = view.branch_labels();
    let mut i: usize = view.branches.len();
    proof {
        assert(names.take(i as int) =~= names);
    }
    while i > 0
        invariant
            i <= view.branches@.len() == names.len(),
            names == view.branch_labels(),
            last_index(names.take(i as int), label@) == last_index(names, label@),
        decreases i,
    {
        i -= 1;
        proof {
            assert(names.take(i + 1).last() == view.branches@[i as int].label@);
            assert(names.take(i + 1).drop_last() =~= names.take(i as int));
        }
        if same(view.branches[i].label.as_str(), label) {
            return Some(i);
        }
    }
    None
}

/// The position of the last group with this label.
fn group_position(view: &BranchView, label: &str) -> (r: Option<usize>)
    ensures
        r == last_index(view.group_labels(), label@),
        r matches Some(i) ==> i < view.groups@.len(),
{
    let ghost names = view.group_labels();
    let mut i: usize = view.groups.len();
    proof {
        assert(names.take(i as int) =~= names);
    }
    while i > 0
        invariant
            i <= view.groups@.len() == names.len(),
            names == view.group_labels(),
            last_index(names.take(i as int), label@) == last_index(names, label@),
        decreases i,
    {
        i -= 1;
        proof {
            assert(names.take(i + 1).last() == view.groups@[i as int].label@);
            assert(names.take(i + 1).drop_last() =~= names.take(i as int));
        }
        if same(view.groups[i].label.as_str(), label) {
            return Some(i);
        }
    }
    None
}

/// Claims the branches (or, with `groups`, the groups) that a chapter's labels
/// name.
fn claim_labels(
    view: &BranchView,
    owners: &mut Vec<Option<usize>>,
    groups: bool,
    labels: &Vec<String>,
    chapter: usize,
) -> (r: Result<(), ClaimFault>)
    requires
        old(owners)@.len() == (if groups {
            view.groups@.len()
        } else {
            view.branches@.len()
        }),
    ensures
        ({
            let names = if groups {
                view.group_labels()
            } else {
                view.branch_labels()
            };
            match claim(old(owners)@, names, texts(labels@), chapter, 0) {
                Ok(now) => r == Ok::<(), ClaimFault>(()) && final(owners)@ == now,
                Err(fault) => r == Err::<(), ClaimFault>(fault),
            }
        }),
        final(owners)@.len() == old(owners)@.len(),
{
    let ghost names = if groups {
        view.group_labels()
    } else {
        view.branch_labels()
    };
    let ghost whole = claim(owners@, names, texts(labels@), chapter, 0);
    let mut at: usize = 0;
    while at < labels.len()
        invariant
            at <= labels@.len(),
            names == (if groups {
                view.group_labels()
            } else {
                view.branch_labels()
            }),
            owners@.len() == names.len(),
            old(owners)@.len() == names.len(),
            whole == claim(old(owners)@, names, texts(labels@), chapter, 0),
            claim(owners@, names, texts(labels@), chapter, at as nat) == whole,
        decreases labels@.len() - at,
    {
        let label = trimmed(labels[at].as_str());
        let found = if groups {
            group_position(view, label.as_str())
        } else {
            branch_position(view, label.as_str())
        };
        assert(texts(labels@)[at as int] == labels@[at as int]@);
        match found {
            None => {
                return Err(ClaimFault::Unknown(at));
            },
            Some(i) => {
                if let Some(first) = owners[i] {
                    if first != chapter {
                        return Err(ClaimFault::Taken(at, first));
                    }
                }
                owners.set(i, Some(chapter));
            },
        }
        at += 1;
    }
    Ok(())
}

/// Whether a chapter's heading is usable. `seen` holds the compared titles of
/// the chapters before it, and then its own too.
fn check_heading(chapters: &Vec<ChapterDraft>, index: usize, seen: &mut Vec<String>) -> (r: bool)
    requires
        index < chapters@.len(),
        texts(old(seen)@) == title_keys(chapters@).take(index as int),
    ensures
        r == heading_ok(chapters@, index as int),
        r ==> texts(final(seen)@) == title_keys(chapters@).take(index + 1),
{
    let chapter = &chapters[index];
    if !bounded_text(chapter.title.as_str(), 299) || !bounded_text(chapter.summary.as_str(), 1500) {
        return false;
    }
    let key = comparable_title(chapter.title.as_str());
    if list_has(seen, key.as_str()) {
        return false;
    }
    proof {
        assert(texts(seen@.push(key)) =~= texts(seen@).push(key@));
        assert(title_keys(chapters@).take(index + 1) =~= title_keys(chapters@).take(
            index as int,
        ).push(key@));
    }
    seen.push(key);
    true
}

/// The claims of all chapters of a draft.
fn collect_claims(view: &BranchView, chapters: &Vec<ChapterDraft>) -> (r: Result<
    (Vec<Option<usize>>, Vec<Option<usize>>),
    ChapterError,
>)
    ensures
        match claim_chapters(*view, chapters@, chapters@.len()) {
            Ok(claims) => r is Ok && r->Ok_0.0@ == claims.branches && r->Ok_0.1@ == claims.groups,
            Err(e) => r == Err::<(Vec<Option<usize>>, Vec<Option<usize>>), ChapterError>(e),
        },
        r matches Ok(c) ==> c.0@.len() == view.branches@.len() && c.1@.len() == view.groups@.len()
            && forall|b: int|
            0 <= b < c.0@.len() && c.0@[b] is Some ==> c.0@[b]->0 < chapters@.len(),
        r matches Ok(c) ==> forall|b: int|
            0 <= b < c.1@.len() && c.1@[b] is Some ==> c.1@[b]->0 < chapters@.len(),
        r matches Err(e) ==> !(e is Missing),
{
    let branch_count: usize = view.branches.len();
    let group_count: usize = view.groups.len();
    let mut named: Vec<Option<usize>> = no_owners(branch_count);
    let mut taken: Vec<Option<usize>> = no_owners(group_count);
    let mut seen: Vec<String> = Vec::new();
    let mut index: usize = 0;
    proof {
        assert(named@ =~= no_claims(*view).branches);
        assert(taken@ =~= no_claims(*view).groups);
        assert(texts(seen@) =~= title_keys(chapters@).take(0));
    }
    while index < chapters.len()
        invariant
            index <= chapters@.len(),
            named@.len() == view.branches@.len() == branch_count,
            taken@.len() == view.groups@.len() == group_count,
            texts(seen@) == title_keys(chapters@).take(index as int),
            claim_chapters(*view, chapters@, index as nat) == Ok::<Claims, ChapterError>(
                Claims { branches: named@, groups: taken@ },
            ),
            forall|b: int| 0 <= b < named@.len() && named@[b] is Some ==> named@[b]->0 < index,
            forall|b: int| 0 <= b < taken@.len() && taken@[b] is Some ==> taken@[b]->0 < index,
        decreases chapters@.len() - index,
    {
        let ghost now = claim_chapters(*view, chapters@, (index + 1) as nat);
        proof {
            assert(now == claim_chapter(
                *view,
                chapters@,
                index as int,
                Claims { branches: named@, groups: taken@ },
            ));
            lemma_chapters_stop(*view, chapters@, (index + 1) as nat, chapters@.len());
            lemma_claim(
                named@,
                view.branch_labels(),
                texts(chapters@[index as int].branches@),
                index,
                0,
            );
            lemma_claim(
                taken@,
                view.group_labels(),
                texts(chapters@[index as int].groups@),
                index,
                0,
            );
        }
        if !check_heading(chapters, index, &mut seen) {
            return Err(ChapterError::Heading { chapter: index });
        }
        match claim_labels(view, &mut named, false, &chapters[index].branches, index) {
            Ok(_) => {},
            Err(ClaimFault::Unknown(at)) => {
                return Err(ChapterError::UnknownBranch { chapter: index, at });
            },
            Err(ClaimFault::Taken(at, first)) => {
                return Err(ChapterError::BranchTwice { chapter: index, at, first });
            },
        }
        match claim_labels(view, &mut taken, true, &chapters[index].groups, index) {
            Ok(_) => {},
            Err(ClaimFault::Unknown(at)) => {
                return Err(ChapterError::UnknownGroup { chapter: index, at });
            },
            Err(ClaimFault::Taken(at, first)) => {
                return Err(ChapterError::GroupTwice { chapter: index, at, first });
            },
        }
        index += 1;
    }
    Ok((named, taken))
}

/// A fault among the first chapters is the fault of all of them.
proof fn lemma_chapters_stop(view: BranchView, chapters: Seq<ChapterDraft>, count: nat, all: nat)
    requires
        count <= all,
    ensures
        claim_chapters(view, chapters, count) is Err ==> claim_chapters(view, chapters, all)
            == claim_chapters(view, chapters, count),
    decreases all - count,
{
    if count < all {
        lemma_chapters_stop(view, chapters, count, (all - 1) as nat);
    }
}

/// A fault among the first exclusions is the fault of all of them.
proof fn lemma_exclude_stop(
    view: BranchView,
    claims: Claims,
    exclusions: Seq<BranchExclusion>,
    count: nat,
    all: nat,
)
    requires
        count <= all,
    ensures
        exclude(view, claims, exclusions, count) is Err ==> exclude(view, claims, exclusions, all)
            == exclude(view, claims, exclusions, count),
    decreases all - count,
{
    if count < all {
        lemma_exclude_stop(view, claims, exclusions, count, (all - 1) as nat);
    }
}

/// `count` things that no chapter has.
fn no_owners(count: usize) -> (r: Vec<Option<usize>>)
    ensures
        r@.len() == count,
        forall|i: int| 0 <= i < count ==> r@[i] == None::<usize>,
{
    let mut r: Vec<Option<usize>> = Vec::new();
    while r.len() < count
        invariant
            r@.len() <= count,
            forall|i: int| 0 <= i < r@.len() ==> r@[i] == None::<usize>,
        decreases count - r@.len(),
    {
        r.push(None);
    }
    r
}

/// The branches that the exclusions of a draft leave out.
fn collect_exclusions(
    view: &BranchView,
    named: &Vec<Option<usize>>,
    taken: &Vec<Option<usize>>,
    exclusions: &Vec<BranchExclusion>,
) -> (r: Result<Vec<Option<usize>>, ChapterError>)
    requires
        view.wf(),
        named@.len() == view.branches@.len(),
        taken@.len() == view.groups@.len(),
    ensures
        match exclude(
            *view,
            Claims { branches: named@, groups: taken@ },
            exclusions@,
            exclusions@.len(),
        ) {
            Ok(excluded) => r is Ok && r->Ok_0@ == excluded,
            Err(e) => r == Err::<Vec<Option<usize>>, ChapterError>(e),
        },
        r matches Ok(x) ==> x@.len() == view.branches@.len() && forall|b: int|
            0 <= b < x@.len() && x@[b] is Some ==> x@[b]->0 < exclusions@.len(),
        r matches Err(e) ==> !(e is Missing),
{
    let ghost claims = Claims { branches: named@, groups: taken@ };
    let branch_count: usize = view.branches.len();
    let mut excluded: Vec<Option<usize>> = no_owners(branch_count);
    let mut index: usize = 0;
    proof {
        assert(excluded@ =~= Seq::new(view.branches@.len(), |i: int| None::<usize>));
    }
    while index < exclusions.len()
        invariant
            view.wf(),
            index <= exclusions@.len(),
            named@.len() == view.branches@.len(),
            taken@.len() == view.groups@.len(),
            claims == (Claims { branches: named@, groups: taken@ }),
            excluded@.len() == view.branches@.len() == branch_count,
            exclude(*view, claims, exclusions@, index as nat) == Ok::<
                Seq<Option<usize>>,
                ChapterError,
            >(excluded@),
            forall|b: int|
                0 <= b < excluded@.len() && excluded@[b] is Some ==> excluded@[b]->0 < index,
        decreases exclusions@.len() - index,
    {
        let ghost before = excluded@;
        proof {
            assert(exclude(*view, claims, exclusions@, (index + 1) as nat) == exclude_one(
                *view,
                claims,
                exclusions@,
                index as int,
                before,
            ));
            lemma_exclude_stop(*view, claims, exclusions@, (index + 1) as nat, exclusions@.len());
        }
        if !bounded_text(exclusions[index].reason.as_str(), 1500) {
            return Err(ChapterError::Reason { exclusion: index });
        }
        let label = trimmed(exclusions[index].branch.as_str());
        match branch_position(view, label.as_str()) {
            Some(branch) => {
                if let Some(chapter) = named[branch] {
                    return Err(ChapterError::ExcludedBranch { exclusion: index, chapter });
                }
                excluded.set(branch, Some(index));
            },
            None => {
                match group_position(view, label.as_str()) {
                    Some(group) => {
                        if let Some(chapter) = taken[group] {
                            return Err(ChapterError::ExcludedGroup { exclusion: index, chapter });
                        }
                        let members = &view.groups[group].members;
                        let mut m: usize = 0;
                        assert(excluded@ =~= exclude_members(before, members@.take(0), index));
                        while m < members.len()
                            invariant
                                view.wf(),
                                group < view.groups@.len(),
                                members == view.groups@[group as int].members,
                                m <= members@.len(),
                                before.len() == view.branches@.len() == branch_count,
                                excluded@ == exclude_members(before, members@.take(m as int), index),
                            decreases members@.len() - m,
                        {
                            let branch: usize = members[m];
                            assert(view.groups@[group as int].members@[m as int]
                                < view.branches@.len());
                            excluded.set(branch, Some(index));
                            proof {
                                let done = members@.take(m + 1);
                                assert(done =~= members@.take(m as int).push(branch));
                                assert forall|b: int| 0 <= b < before.len() implies excluded@[b]
                                    == exclude_members(before, done, index)[b] by {
                                    if b == branch {
                                        assert(done.last() == b as usize);
                                    } else if members@.take(m as int).contains(b as usize) {
                                        let k = choose|k: int|
                                            0 <= k < m && members@.take(m as int)[k] == b as usize;
                                        assert(done[k] == b as usize);
                                    } else if done.contains(b as usize) {
                                        let k = choose|k: int|
                                            0 <= k < done.len() && done[k] == b as usize;
                                        assert(members@.take(m as int)[k] == b as usize);
                                    }
                                }
                                assert(excluded@ =~= exclude_members(before, done, index));
                            }
                            m += 1;
                        }
                        assert(members@.take(m as int) =~= members@);
                    },
                    None => {
                        return Err(ChapterError::UnknownExclusion { exclusion: index });
                    },
                }
            },
        }
        index += 1;
    }
    Ok(excluded)
}

/// The chapter of each branch.
fn settle_owners(
    view: &BranchView,
    named: &Vec<Option<usize>>,
    taken: &Vec<Option<usize>>,
    excluded: &Vec<Option<usize>>,
) -> (r: Vec<Option<usize>>)
    requires
        view.wf(),
        named@.len() == view.branches@.len(),
        taken@.len() == view.groups@.len(),
        excluded@.len() == view.branches@.len(),
    ensures
        r@ == settle(*view, Claims { branches: named@, groups: taken@ }, excluded@).owner,
{
    let ghost claims = Claims { branches: named@, groups: taken@ };
    let count: usize = view.branches.len();
    // What the groups bring in, a later group before an earlier one.
    let mut owner: Vec<Option<usize>> = no_owners(count);
    let mut g: usize = 0;
    while g < view.groups.len()
        invariant
            view.wf(),
            g <= view.groups@.len(),
            count == view.branches@.len(),
            taken@.len() == view.groups@.len(),
            owner@.len() == count,
            forall|b: int|
                0 <= b < count ==> #[trigger] owner@[b] == group_owner(
                    *view,
                    taken@,
                    b as usize,
                    g as nat,
                ),
        decreases view.groups@.len() - g,
    {
        if let Some(chapter) = taken[g] {
            let members = &view.groups[g].members;
            let ghost before = owner@;
            let mut m: usize = 0;
            while m < members.len()
                invariant
                    view.wf(),
                    g < view.groups@.len(),
                    members == view.groups@[g as int].members,
                    m <= members@.len(),
                    count == view.branches@.len(),
                    before.len() == count,
                    owner@.len() == count,
                    forall|b: int|
                        0 <= b < count ==> #[trigger] owner@[b] == (if members@.take(
                            m as int,
                        ).contains(b as usize) {
                            Some(chapter)
                        } else {
                            before[b]
                        }),
                decreases members@.len() - m,
            {
                let branch: usize = members[m];
                assert(view.groups@[g as int].members@[m as int] < view.branches@.len());
                let ghost prior = owner@;
                owner.set(branch, Some(chapter));
                proof {
                    let done = members@.take(m as int);
                    let next = members@.take(m + 1);
                    assert(next =~= done.push(branch));
                    assert forall|b: int| 0 <= b < count implies #[trigger] owner@[b] == (
                    if next.contains(b as usize) {
                        Some(chapter)
                    } else {
                        before[b]
                    }) by {
                        assert(prior[b] == (if done.contains(b as usize) {
                            Some(chapter)
                        } else {
                            before[b]
                        }));
                        if b == branch {
                            assert(next.last() == b as usize);
                        } else if done.contains(b as usize) {
                            let k = choose|k: int| 0 <= k < m && done[k] == b as usize;
                            assert(next[k] == b as usize);
                        } else if next.contains(b as usize) {
                            let k = choose|k: int| 0 <= k < next.len() && next[k] == b as usize;
                            assert(done[k] == b as usize);
                        }
                    }
                }
                m += 1;
            }
            assert(members@.take(m as int) =~= members@);
        }
        g += 1;
    }
    let mut b: usize = 0;
    while b < count
        invariant
            b <= count == view.branches@.len(),
            claims == (Claims { branches: named@, groups: taken@ }),
            named@.len() == count,
            excluded@.len() == count,
            owner@.len() == count,
            forall|k: int|
                0 <= k < b ==> #[trigger] owner@[k] == owner_of(*view, claims, excluded@, k),
            forall|k: int|
                b <= k < count ==> #[trigger] owner@[k] == group_owner(
                    *view,
                    taken@,
                    k as usize,
                    view.groups@.len(),
                ),
        decreases count - b,
    {
        if named[b].is_some() {
            owner.set(b, named[b]);
        } else if excluded[b].is_some() {
            owner.set(b, None);
        }
        b += 1;
    }
    assert(owner@ =~= settle(*view, claims, excluded@).owner);
    owner
}

/// The branches of one chapter, as node keys.
fn keys_of_chapter(view: &BranchView, owner: &Vec<Option<usize>>, chapter: usize) -> (r: Vec<
    String,
>)
    requires
        owner@.len() == view.branches@.len(),
    ensures
        texts(r@) == at_positions(
            view.branch_keys(),
            positions(|b: int| owner@[b] == Some(chapter), owner@.len()),
        ),
{
    let ghost keep = |b: int| owner@[b] == Some(chapter);
    let mut r: Vec<String> = Vec::new();
    let mut b: usize = 0;
    assert(texts(r@) =~= at_positions(view.branch_keys(), positions(keep, 0)));
    while b < owner.len()
        invariant
            b <= owner@.len() == view.branches@.len(),
            keep == (|b: int| owner@[b] == Some(chapter)),
            texts(r@) == at_positions(view.branch_keys(), positions(keep, b as nat)),
        decreases owner@.len() - b,
    {
        let ghost before = positions(keep, b as nat);
        let mine = match owner[b] {
            Some(c) => c == chapter,
            None => false,
        };
        if mine {
            let key = view.branches[b].key.clone();
            proof {
                assert(texts(r@.push(key)) =~= texts(r@).push(key@));
                assert(at_positions(view.branch_keys(), before.push(b)) =~= at_positions(
                    view.branch_keys(),
                    before,
                ).push(view.branch_keys()[b as int]));
            }
            r.push(key);
        }
        b += 1;
    }
    r
}

/// The positions of branches that no chapter has, either those that an
/// exclusion names or those that none does.
fn unowned(owner: &Vec<Option<usize>>, excluded: &Vec<Option<usize>>, named: bool) -> (r: Vec<usize>)
    requires
        owner@.len() == excluded@.len(),
    ensures
        r@ == positions(
            |b: int| owner@[b] is None && (excluded@[b] is Some) == named,
            owner@.len(),
        ),
{
    let ghost keep = |b: int| owner@[b] is None && (excluded@[b] is Some) == named;
    let mut r: Vec<usize> = Vec::new();
    let mut b: usize = 0;
    while b < owner.len()
        invariant
            b <= owner@.len() == excluded@.len(),
            keep == (|b: int| owner@[b] is None && (excluded@[b] is Some) == named),
            r@ == positions(keep, b as nat),
        decreases owner@.len() - b,
    {
        if owner[b].is_none() && excluded[b].is_some() == named {
            r.push(b);
        }
        b += 1;
    }
    r
}

/// Where the search for a chapter without branches ends.
proof fn lemma_first_empty(division: Division, from: nat, at: nat, count: nat)
    requires
        from <= at <= count,
        forall|c: int| from <= c < at ==> (#[trigger] division.of_chapter(c)).len() > 0,
        at < count ==> division.of_chapter(at as int).len() == 0,
    ensures
        first_empty(division, from, count) == at,
    decreases at - from,
{
    if from < at {
        assert(division.of_chapter(from as int).len() > 0);
        lemma_first_empty(division, from + 1, at, count);
    }
}

/// Resolves a proposed division, so that every branch lands in exactly one
/// chapter or one exclusion. A branch named on its own wins over the group that
/// holds it. A group taken twice, a branch named twice and a branch left out
/// are errors that name what to mend.
pub fn decode_chapters(draft: &ChaptersDraft, view: &BranchView) -> (r: Result<
    Chapters,
    ChapterError,
>)
    requires
        view.wf(),
    ensures
        match divide(*draft, *view) {
            Ok(division) => r is Ok && chapters_hold(r->Ok_0, *draft, *view, division),
            Err(fault) => r is Err && tells(r->Err_0, fault),
        },
{
    let count: usize = draft.chapters.len();
    if count < 1 || count > MAX_CHAPTERS {
        return Err(ChapterError::Count);
    }
    if !bounded_text(draft.reader_goal.as_str(), 2000) || !bounded_text(
        draft.storyline.as_str(),
        4000,
    ) {
        return Err(ChapterError::Framing);
    }
    let (named, taken) = match collect_claims(view, &draft.chapters) {
        Ok(claims) => claims,
        Err(e) => {
            return Err(e);
        },
    };
    let ghost claims = Claims { branches: named@, groups: taken@ };
    let excluded = match collect_exclusions(view, &named, &taken, &draft.excluded_branches) {
        Ok(excluded) => excluded,
        Err(e) => {
            return Err(e);
        },
    };
    let owner = settle_owners(view, &named, &taken, &excluded);
    let ghost division = settle(*view, claims, excluded@);
    let branch_count: usize = view.branches.len();
    let missing = unowned(&owner, &excluded, false);
    proof {
        lemma_positions_same(
            |b: int| owner@[b] is None && (excluded@[b] is Some) == false,
            |b: int| division.owner[b] is None && division.excluded[b] is None,
            owner@.len(),
        );
        assert(missing@ == division.unaccounted());
    }
    if missing.len() > 0 {
        return Err(ChapterError::Missing { branches: missing });
    }
    let mut chapters: Vec<Chapter> = Vec::new();
    let mut c: usize = 0;
    while c < count
        invariant
            c <= count == draft.chapters@.len(),
            owner@.len() == view.branches@.len(),
            division.owner == owner@,
            division == settle(*view, claims, excluded@),
            division.unaccounted().len() == 0,
            divide(*draft, *view) == (if first_empty(division, 0, count as nat) < count {
                Err(
                    ChapterFault::Error(
                        ChapterError::Empty {
                            chapter: first_empty(division, 0, count as nat) as usize,
                        },
                    ),
                )
            } else {
                Ok(division)
            }),
            chapters@.len() == c,
            forall|k: int| 0 <= k < c ==> (#[trigger] division.of_chapter(k)).len() > 0,
            forall|k: int|
                0 <= k < c ==> {
                    &&& (#[trigger] chapters@[k]).title == draft.chapters@[k].title
                    &&& chapters@[k].summary == draft.chapters@[k].summary
                    &&& texts(chapters@[k].branches@) == at_positions(
                        view.branch_keys(),
                        division.of_chapter(k),
                    )
                },
        decreases count - c,
    {
        let branches = keys_of_chapter(view, &owner, c);
        proof {
            lemma_positions_same(
                |b: int| owner@[b] == Some(c),
                |b: int| division.owner[b] == Some((c as int) as usize),
                owner@.len(),
            );
            assert(texts(branches@) == at_positions(
                view.branch_keys(),
                division.of_chapter(c as int),
            ));
            assert(texts(branches@).len() == branches@.len());
        }
        if branches.len() == 0 {
            proof {
                lemma_first_empty(division, 0, c as nat, count as nat);
            }
            return Err(ChapterError::Empty { chapter: c });
        }
        chapters.push(
            Chapter {
                title: draft.chapters[c].title.clone(),
                summary: draft.chapters[c].summary.clone(),
                branches,
            },
        );
        c += 1;
    }
    let left = unowned(&owner, &excluded, true);
    proof {
        lemma_first_empty(division, 0, count as nat, count as nat);
        let keep = |b: int| division.owner[b] is None && division.excluded[b] is Some;
        lemma_positions_same(
            |b: int| owner@[b] is None && (excluded@[b] is Some) == true,
            keep,
            owner@.len(),
        );
        lemma_positions(keep, owner@.len());
        assert(left@ == division.left_out());
    }
    let mut excluded_branches: Vec<BranchExclusion> = Vec::new();
    let mut k: usize = 0;
    while k < left.len()
        invariant
            k <= left@.len(),
            left@ == division.left_out(),
            division.excluded == excluded@,
            excluded@.len() == view.branches@.len(),
            forall|j: int|
                0 <= j < left@.len() ==> (#[trigger] left@[j]) < excluded@.len()
                    && excluded@[left@[j] as int] is Some,
            forall|b: int|
                0 <= b < excluded@.len() && excluded@[b] is Some ==> excluded@[b]->0
                    < draft.excluded_branches@.len(),
            excluded_branches@.len() == k,
            forall|j: int|
                0 <= j < k ==> {
                    let branch = division.left_out()[j];
                    let exclusion = division.excluded[branch as int]->0;
                    &&& (#[trigger] excluded_branches@[j]).branch
                        == view.branches@[branch as int].key
                    &&& excluded_branches@[j].reason
                        == draft.excluded_branches@[exclusion as int].reason
                },
        decreases left@.len() - k,
    {
        let branch: usize = left[k];
        assert(excluded@[left@[k as int] as int] is Some);
        if let Some(exclusion) = excluded[branch] {
            excluded_branches.push(
                BranchExclusion {
                    branch: view.branches[branch].key.clone(),
                    reason: draft.excluded_branches[exclusion].reason.clone(),
                },
            );
        }
        k += 1;
    }
    Ok(
        Chapters {
            chapters,
            excluded_branches,
            reader_goal: draft.reader_goal.clone(),
            storyline: draft.storyline.clone(),
        },
    )
}

// ---------------------------------------------------------------------------
// Laws
// ---------------------------------------------------------------------------

/// In an accepted division every branch is accounted for exactly once: it
/// stands in the branches of one chapter of the draft and of no other, or in
/// the branches left out, and never in both.
pub proof fn every_branch_is_accounted_for_once(draft: ChaptersDraft, view: BranchView, branch: int)
    requires
        view.wf(),
        view.branches@.len() <= usize::MAX,
        view.groups@.len() <= usize::MAX,
        divide(draft, view) is Ok,
        0 <= branch < view.branches@.len(),
    ensures
        ({
            let division = divide(draft, view)->Ok_0;
            let b = branch as usize;
            &&& division.left_out().contains(b) <==> !exists|c: int|
                0 <= c < draft.chapters@.len() && (#[trigger] division.of_chapter(c)).contains(b)
            &&& forall|c: int, d: int|
                0 <= c < draft.chapters@.len() && 0 <= d < draft.chapters@.len() && (
                #[trigger] division.of_chapter(c)).contains(b) && (#[trigger] division.of_chapter(
                    d,
                )).contains(b) ==> c == d
        }),
{
    let division = divide(draft, view)->Ok_0;
    let count = view.branches@.len();
    let b = branch as usize;
    let chapters = draft.chapters@;
    let claims = claim_chapters(view, chapters, chapters.len())->Ok_0;
    lemma_claims_in_range(view, chapters, chapters.len());
    let out = |b: int| division.owner[b] is None && division.excluded[b] is Some;
    let lost = |b: int| division.owner[b] is None && division.excluded[b] is None;
    lemma_positions(out, count);
    lemma_positions(lost, count);
    assert(lost(branch) ==> division.unaccounted().contains(b));
    assert(!lost(branch));
    assert forall|c: int| 0 <= c < chapters.len() implies (#[trigger] division.of_chapter(
        c,
    )).contains(b) == (division.owner[branch] == Some(c as usize)) by {
        let mine = |b: int| division.owner[b] == Some(c as usize);
        lemma_positions(mine, count);
        if division.of_chapter(c).contains(b) {
            let k = choose|k: int|
                0 <= k < division.of_chapter(c).len() && division.of_chapter(c)[k] == b;
            assert(mine(division.of_chapter(c)[k] as int));
        }
        if division.owner[branch] == Some(c as usize) {
            assert(mine(branch));
        }
    }
    if division.left_out().contains(b) {
        let k = choose|k: int| 0 <= k < division.left_out().len() && division.left_out()[k] == b;
        assert(out(division.left_out()[k] as int));
    } else {
        assert(!out(branch));
        lemma_group_owner_in_range(view, claims.groups, b, view.groups@.len(), chapters.len());
        let c = division.owner[branch]->0 as int;
        assert(division.of_chapter(c).contains(b));
    }
}

/// Chapters that claims name are chapters of the draft.
proof fn lemma_claims_in_range(view: BranchView, chapters: Seq<ChapterDraft>, count: nat)
    requires
        count <= chapters.len() <= usize::MAX,
        view.branches@.len() <= usize::MAX,
        view.groups@.len() <= usize::MAX,
    ensures
        claim_chapters(view, chapters, count) matches Ok(claims) ==> {
            &&& claims.branches.len() == view.branches@.len()
            &&& claims.groups.len() == view.groups@.len()
            &&& forall|b: int|
                0 <= b < claims.branches.len() && claims.branches[b] is Some
                    ==> claims.branches[b]->0 < count
            &&& forall|g: int|
                0 <= g < claims.groups.len() && claims.groups[g] is Some ==> claims.groups[g]->0
                    < count
        },
    decreases count,
{
    if count > 0 {
        lemma_claims_in_range(view, chapters, (count - 1) as nat);
        if let Ok(claims) = claim_chapters(view, chapters, (count - 1) as nat) {
            let c = (count - 1) as usize;
            lemma_claim(
                claims.branches,
                view.branch_labels(),
                texts(chapters[count - 1].branches@),
                c,
                0,
            );
            lemma_claim(
                claims.groups,
                view.group_labels(),
                texts(chapters[count - 1].groups@),
                c,
                0,
            );
        }
    }
}

/// A chapter that brings a branch in by a group is a chapter of the draft.
proof fn lemma_group_owner_in_range(
    view: BranchView,
    groups: Seq<Option<usize>>,
    branch: usize,
    count: nat,
    chapters: nat,
)
    requires
        count <= groups.len(),
        forall|g: int| 0 <= g < groups.len() && groups[g] is Some ==> groups[g]->0 < chapters,
    ensures
        group_owner(view, groups, branch, count) matches Some(c) ==> c < chapters,
    decreases count,
{
    if count > 0 {
        lemma_group_owner_in_range(view, groups, branch, (count - 1) as nat, chapters);
    }
}

// ---------------------------------------------------------------------------
// Requests of a chapter
// ---------------------------------------------------------------------------

/// One planning request of a chapter: some of its branches.
pub struct Batch {
    pub chapter: usize,
    pub part: usize,
    pub parts: usize,
    pub branches: Vec<String>,
}

/// The value of a planning request.
pub struct BatchModel {
    pub chapter: usize,
    pub part: usize,
    pub parts: usize,
    pub branches: Seq<Seq<char>>,
}

impl View for Batch {
    type V = BatchModel;

    open spec fn view(&self) -> BatchModel {
        BatchModel {
            chapter: self.chapter,
            part: self.part,
            parts: self.parts,
            branches: texts(self.branches@),
        }
    }
}

/// The values of a list of planning requests.
pub open spec fn batch_models(v: Seq<Batch>) -> Seq<BatchModel> {
    v.map_values(|b: Batch| b@)
}

/// The reading positions of some keys.
pub open spec fn ranks(view: BranchView, keys: Seq<Seq<char>>) -> Seq<usize> {
    keys.map_values(|k: Seq<char>| view.rank(k))
}

/// Keys in reading order.
pub open spec fn in_reading_order(view: BranchView, keys: Seq<Seq<char>>) -> Seq<Seq<char>> {
    at_positions(keys, ordered(keys.len(), ascending(ranks(view, keys))))
}

/// How many requests a chapter of so many branches takes.
pub open spec fn part_count(branches: nat) -> nat {
    ((branches + CHAPTER_BRANCHES - 1) / CHAPTER_BRANCHES as int) as nat
}

/// The branches of one request: a run of the chapter's.
pub open spec fn run(keys: Seq<Seq<char>>, part: int) -> Seq<Seq<char>> {
    let start = CHAPTER_BRANCHES * part;
    let end = if start + CHAPTER_BRANCHES <= keys.len() {
        start + CHAPTER_BRANCHES
    } else {
        keys.len() as int
    };
    keys.subrange(start, end)
}

/// The requests of a chapter.
pub open spec fn chapter_parts(chapter: usize, keys: Seq<Seq<char>>) -> Seq<BatchModel> {
    Seq::new(
        part_count(keys.len()),
        |p: int|
            BatchModel {
                chapter,
                part: p as usize,
                parts: part_count(keys.len()) as usize,
                branches: run(keys, p),
            },
    )
}

/// The requests of the first `count` chapters.
pub open spec fn batches(view: BranchView, chapters: Seq<Chapter>, count: nat) -> Seq<BatchModel>
    decreases count,
{
    if count == 0 {
        Seq::empty()
    } else {
        batches(view, chapters, (count - 1) as nat) + chapter_parts(
            (count - 1) as usize,
            in_reading_order(view, texts(chapters[count - 1].branches@)),
        )
    }
}

/// Runs laid end to end.
pub open spec fn end_to_end(keys: Seq<Seq<char>>, count: nat) -> Seq<Seq<char>>
    decreases count,
{
    if count == 0 {
        Seq::empty()
    } else {
        end_to_end(keys, (count - 1) as nat) + run(keys, count - 1)
    }
}

/// The requests of a chapter hold its branches in reading order, none left out
/// and none twice, and each holds between one and sixteen.
pub proof fn chapter_requests_cover_the_chapter(keys: Seq<Seq<char>>)
    ensures
        end_to_end(keys, part_count(keys.len())) == keys,
        forall|p: int|
            0 <= p < part_count(keys.len()) ==> 1 <= (#[trigger] run(keys, p)).len()
                <= CHAPTER_BRANCHES,
{
    let n = part_count(keys.len());
    lemma_end_to_end(keys, n);
    if n > 0 {
        assert(keys.take(keys.len() as int) =~= keys);
    } else {
        assert(keys =~= Seq::empty());
    }
}

proof fn lemma_end_to_end(keys: Seq<Seq<char>>, count: nat)
    requires
        count <= part_count(keys.len()),
    ensures
        end_to_end(keys, count) == keys.take(
            if CHAPTER_BRANCHES * count <= keys.len() {
                CHAPTER_BRANCHES * count
            } else {
                keys.len() as int
            },
        ),
    decreases count,
{
    if count > 0 {
        lemma_end_to_end(keys, (count - 1) as nat);
        let start = CHAPTER_BRANCHES * (count - 1);
        assert(start < keys.len());
        let end = if CHAPTER_BRANCHES * count <= keys.len() {
            CHAPTER_BRANCHES * count
        } else {
            keys.len() as int
        };
        assert(run(keys, count - 1) == keys.subrange(start, end));
        assert(keys.take(start) + keys.subrange(start, end) =~= keys.take(end));
    } else {
        assert(keys.take(0) =~= Seq::empty());
    }
}

/// A chapter's branches in reading order.
fn sort_branches(view: &BranchView, keys: &Vec<String>) -> (r: Vec<String>)
    ensures
        texts(r@) == in_reading_order(*view, texts(keys@)),
        r@.len() == keys@.len(),
{
    let ghost all = texts(keys@);
    let ghost rs = ranks(*view, all);
    let mut places: Vec<usize> = Vec::new();
    let mut i: usize = 0;
    assert(places@ =~= rs.take(0));
    while i < keys.len()
        invariant
            i <= keys@.len(),
            all == texts(keys@),
            rs == ranks(*view, all),
            places@ == rs.take(i as int),
        decreases keys@.len() - i,
    {
        let at = view.index(keys[i].as_str());
        assert(all[i as int] == keys@[i as int]@);
        assert(rs.take(i + 1) =~= rs.take(i as int).push(at));
        places.push(at);
        i += 1;
    }
    assert(rs.take(i as int) =~= rs);
    let order = order_ascending(&places);
    let ghost goal = in_reading_order(*view, all);
    proof {
        lemma_ordered(all.len(), ascending(rs));
        assert forall|k: int| 0 <= k < order@.len() implies #[trigger] order@[k] < keys@.len() by {
            assert(order@.contains(order@[k]));
        }
    }
    let mut r: Vec<String> = Vec::new();
    let mut k: usize = 0;
    assert(texts(r@) =~= goal.take(0));
    while k < order.len()
        invariant
            k <= order@.len(),
            order@.len() == keys@.len(),
            r@.len() == k,
            all == texts(keys@),
            goal == at_positions(all, order@),
            forall|k: int| 0 <= k < order@.len() ==> #[trigger] order@[k] < keys@.len(),
            texts(r@) == goal.take(k as int),
        decreases order@.len() - k,
    {
        let key = keys[order[k]].clone();
        assert(texts(r@.push(key)) =~= texts(r@).push(key@));
        assert(goal.take(k + 1) =~= goal.take(k as int).push(key@));
        r.push(key);
        k += 1;
    }
    assert(goal.take(k as int) =~= goal);
    r
}

/// Cuts each chapter into requests of at most sixteen branches, in reading
/// order.
pub fn chapter_batches(chapters: &Chapters, view: &BranchView) -> (r: Vec<Batch>)
    ensures
        batch_models(r@) == batches(*view, chapters.chapters@, chapters.chapters@.len()),
{
    let mut r: Vec<Batch> = Vec::new();
    let mut c: usize = 0;
    assert(batch_models(r@) =~= Seq::empty());
    while c < chapters.chapters.len()
        invariant
            c <= chapters.chapters@.len(),
            batch_models(r@) == batches(*view, chapters.chapters@, c as nat),
        decreases chapters.chapters@.len() - c,
    {
        let sorted = sort_branches(view, &chapters.chapters[c].branches);
        let n: usize = sorted.len();
        let ghost keys = texts(sorted@);
        let ghost before = batch_models(r@);
        let ghost goal = chapter_parts(c, keys);
        let full: usize = n / CHAPTER_BRANCHES;
        let parts: usize = if n % CHAPTER_BRANCHES == 0 {
            full
        } else {
            full + 1
        };
        assert(parts == part_count(keys.len()));
        let mut part: usize = 0;
        assert(before + goal.take(0) =~= before);
        while part < parts
            invariant
                part <= parts == part_count(n as nat),
                n == sorted@.len(),
                keys == texts(sorted@),
                goal == chapter_parts(c, keys),
                batch_models(r@) == before + goal.take(part as int),
            decreases parts - part,
        {
            let start: usize = part * CHAPTER_BRANCHES;
            let end: usize = if n - start >= CHAPTER_BRANCHES {
                start + CHAPTER_BRANCHES
            } else {
                n
            };
            let mut branches: Vec<String> = Vec::new();
            let mut i: usize = start;
            assert(texts(branches@) =~= keys.subrange(start as int, start as int));
            while i < end
                invariant
                    start <= i <= end <= sorted@.len(),
                    keys == texts(sorted@),
                    texts(branches@) == keys.subrange(start as int, i as int),
                decreases end - i,
            {
                let key = sorted[i].clone();
                assert(texts(branches@.push(key)) =~= texts(branches@).push(key@));
                assert(keys.subrange(start as int, i + 1) =~= keys.subrange(
                    start as int,
                    i as int,
                ).push(key@));
                branches.push(key);
                i += 1;
            }
            let batch = Batch { chapter: c, part, parts, branches };
            proof {
                assert(batch@ == goal[part as int]);
                assert(batch_models(r@.push(batch)) =~= batch_models(r@).push(batch@));
                assert(before + goal.take(part + 1) =~= (before + goal.take(part as int)).push(
                    batch@,
                ));
            }
            r.push(batch);
            part += 1;
        }
        assert(goal.take(part as int) =~= goal);
        c += 1;
    }
    r
}

} // verus!
