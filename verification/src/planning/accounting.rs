//! Which parts of the source a plan covers, excludes, or leaves in neither, and
//! the issues that follow from it.

use vstd::prelude::*;
use vstd::string::StringExecFns;

use crate::editorial::{at_most, excerpt, excerpt_of};
use crate::json::{
    field, member, member_models, models, nat_model, text_of, texts_json, texts_model, Json, JsonModel,
};
use crate::model::{BranchExclusion, Outline, OutlineIssue, OutlineReview, SectionPlan};
use crate::order::positions;
use crate::planning::branches::{
    find_label, label_of, owner_from, Branch, BranchView, Part,
};
use crate::planning::generated::{label_models, Label, LabelModel};
use crate::planning::places::{shared_dir, shared_root};
use crate::planning::views::{finding_topics, first_texts, topics_list};
use crate::text::{
    blen, byte_offsets, debug_form, decimal, find_from, first_at, has_prefix, is_ascii_digit,
    is_ascii_letter, join, join_with, lemma_first_at, lemma_prefix_within, list_has, number, occurs_at,
    prefix_within, same, slice, starts_with, texts, to_chars, to_debug, trim, trimmed,
};

verus! {

/// How many branches or parts one section may name before review is asked
/// whether it should be split.
pub const CROWDED_BRANCHES: usize = 4;

/// Bytes that branch coverage may take in an outline review.
pub const COVERAGE_VIEW_BYTES: usize = 12_000;

/// Bytes of a section id that a view shows.
pub const SHORT_ID: usize = 12;

/// A part of the source that the plan leaves out.
pub struct ExcludedPart {
    pub branch: String,
    pub place: String,
    pub reason: String,
}

/// A part of the source that the plan does not account for.
pub struct UnassignedPart {
    pub branch: String,
    pub place: String,
    pub file_count: usize,
    pub topics: Vec<String>,
}

/// A section that took many parts at once.
pub struct CrowdedSection {
    pub id: String,
    pub title: String,
    pub branches: Vec<String>,
    pub file_count: usize,
}

/// How a plan accounts for the branches of a source.
pub struct Coverage {
    pub branches: usize,
    pub covered: usize,
    pub excluded: Vec<ExcludedPart>,
    pub unassigned: Vec<UnassignedPart>,
    pub crowded_sections: Vec<CrowdedSection>,
}

/// The value of an excluded part.
pub struct ExcludedModel {
    pub branch: Seq<char>,
    pub place: Seq<char>,
    pub reason: Seq<char>,
}

impl View for ExcludedPart {
    type V = ExcludedModel;

    open spec fn view(&self) -> ExcludedModel {
        ExcludedModel { branch: self.branch@, place: self.place@, reason: self.reason@ }
    }
}

/// The value of an unassigned part.
pub struct UnassignedModel {
    pub branch: Seq<char>,
    pub place: Seq<char>,
    pub file_count: usize,
    pub topics: Seq<Seq<char>>,
}

impl View for UnassignedPart {
    type V = UnassignedModel;

    open spec fn view(&self) -> UnassignedModel {
        UnassignedModel {
            branch: self.branch@,
            place: self.place@,
            file_count: self.file_count,
            topics: texts(self.topics@),
        }
    }
}

/// The value of a crowded section.
pub struct CrowdedModel {
    pub id: Seq<char>,
    pub title: Seq<char>,
    pub branches: Seq<Seq<char>>,
    pub file_count: usize,
}

impl View for CrowdedSection {
    type V = CrowdedModel;

    open spec fn view(&self) -> CrowdedModel {
        CrowdedModel {
            id: self.id@,
            title: self.title@,
            branches: texts(self.branches@),
            file_count: self.file_count,
        }
    }
}

/// The values of excluded parts.
pub open spec fn excluded_models(v: Seq<ExcludedPart>) -> Seq<ExcludedModel> {
    v.map_values(|x: ExcludedPart| x@)
}

/// The values of unassigned parts.
pub open spec fn unassigned_models(v: Seq<UnassignedPart>) -> Seq<UnassignedModel> {
    v.map_values(|x: UnassignedPart| x@)
}

/// The values of crowded sections.
pub open spec fn crowded_models(v: Seq<CrowdedSection>) -> Seq<CrowdedModel> {
    v.map_values(|x: CrowdedSection| x@)
}

// ---------------------------------------------------------------------------
// Coverage
// ---------------------------------------------------------------------------

/// A section names this key.
pub open spec fn covered_key(plan: Outline, key: Seq<char>) -> bool {
    exists|s: int|
        0 <= s < plan.sections@.len() && texts(
            (#[trigger] plan.sections@[s]).branches@,
        ).contains(key)
}

/// The reason of the last of the first `count` exclusions that names a key.
pub open spec fn reason_of(
    exclusions: Seq<BranchExclusion>,
    key: Seq<char>,
    count: nat,
) -> Option<Seq<char>>
    decreases count,
{
    if count == 0 {
        None
    } else if exclusions[count - 1].branch@ == key {
        Some(exclusions[count - 1].reason@)
    } else {
        reason_of(exclusions, key, (count - 1) as nat)
    }
}

/// The reason for which a plan excludes a key.
pub open spec fn excluded_key(plan: Outline, key: Seq<char>) -> Option<Seq<char>> {
    reason_of(plan.excluded_branches@, key, plan.excluded_branches@.len())
}

/// The first six topics of a part, shortened.
pub open spec fn six_topics(topics: Seq<Seq<char>>) -> Seq<Seq<char>> {
    at_most(topics, 6).map_values(|t: Seq<char>| excerpt_of(t, 120))
}

/// What the plan says of the parts of the source.
pub struct Ledger {
    pub covered: nat,
    pub excluded: Seq<ExcludedModel>,
    pub unassigned: Seq<UnassignedModel>,
}

/// Adds what the plan says of the first `count` parts of a branch.
pub open spec fn account_parts(
    plan: Outline,
    parts: Seq<Part>,
    place: Seq<char>,
    ledger: Ledger,
    count: nat,
) -> Ledger
    decreases count,
{
    if count == 0 {
        ledger
    } else {
        let before = account_parts(plan, parts, place, ledger, (count - 1) as nat);
        let part = parts[count - 1];
        if covered_key(plan, part.key@) {
            before
        } else {
            match excluded_key(plan, part.key@) {
                Some(reason) => Ledger {
                    excluded: before.excluded.push(
                        ExcludedModel { branch: part.label@, place, reason },
                    ),
                    ..before
                },
                None => Ledger {
                    unassigned: before.unassigned.push(
                        UnassignedModel {
                            branch: part.label@,
                            place,
                            file_count: part.files,
                            topics: six_topics(texts(part.topics@)),
                        },
                    ),
                    ..before
                },
            }
        }
    }
}

/// The plan names one of the parts of a branch.
pub open spec fn covers_part(plan: Outline, parts: Seq<Part>) -> bool {
    exists|p: int| 0 <= p < parts.len() && covered_key(plan, (#[trigger] parts[p]).key@)
}

/// The plan names or excludes one of the parts of a branch.
pub open spec fn judged_by_parts(plan: Outline, parts: Seq<Part>) -> bool {
    exists|p: int|
        0 <= p < parts.len() && (covered_key(plan, (#[trigger] parts[p]).key@) || excluded_key(
            plan,
            parts[p].key@,
        ) is Some)
}

/// Adds what the plan says of a branch. One whose parts the plan names is
/// judged part by part.
pub open spec fn account_branch(plan: Outline, branch: Branch, ledger: Ledger) -> Ledger {
    let place = shared_dir(texts(branch.files@), branch.files@.len());
    if covered_key(plan, branch.key@) {
        Ledger { covered: ledger.covered + 1, ..ledger }
    } else if judged_by_parts(plan, branch.parts@) {
        let counted = if covers_part(plan, branch.parts@) {
            Ledger { covered: ledger.covered + 1, ..ledger }
        } else {
            ledger
        };
        account_parts(plan, branch.parts@, place, counted, branch.parts@.len())
    } else {
        match excluded_key(plan, branch.key@) {
            Some(reason) => Ledger {
                excluded: ledger.excluded.push(
                    ExcludedModel { branch: branch.label@, place, reason },
                ),
                ..ledger
            },
            None => Ledger {
                unassigned: ledger.unassigned.push(
                    UnassignedModel {
                        branch: branch.label@,
                        place,
                        file_count: branch.files@.len() as usize,
                        topics: six_topics(finding_topics(branch.findings@)),
                    },
                ),
                ..ledger
            },
        }
    }
}

/// What the plan says of the first `count` branches.
pub open spec fn account(plan: Outline, branches: Seq<Branch>, count: nat) -> Ledger
    decreases count,
{
    if count == 0 {
        Ledger { covered: 0, excluded: Seq::empty(), unassigned: Seq::empty() }
    } else {
        account_branch(
            plan,
            branches[count - 1],
            account(plan, branches, (count - 1) as nat),
        )
    }
}

/// A position put into a list of owners: in place of the one with the same key,
/// or behind them.
pub open spec fn add_owner(branches: Seq<Branch>, owners: Seq<usize>, owner: usize) -> Seq<usize>
    decreases owners.len(),
{
    if owners.len() == 0 {
        seq![owner]
    } else if branches[owners.last() as int].key@ == branches[owner as int].key@ {
        owners.drop_last().push(owner)
    } else {
        add_owner(branches, owners.drop_last(), owner).push(owners.last())
    }
}

/// The branches that the first `count` keys name, each once.
pub open spec fn owners_of(branches: Seq<Branch>, keys: Seq<Seq<char>>, count: nat) -> Seq<usize>
    decreases count,
{
    if count == 0 {
        Seq::empty()
    } else {
        let before = owners_of(branches, keys, (count - 1) as nat);
        match owner_from(branches, keys[count - 1], 0) {
            Some(i) => add_owner(branches, before, i as usize),
            None => before,
        }
    }
}

/// The files of the first `count` owners, as far as a number holds.
pub open spec fn owned_files(branches: Seq<Branch>, owners: Seq<usize>, count: nat) -> usize
    decreases count,
{
    if count == 0 {
        0
    } else {
        let all = owned_files(branches, owners, (count - 1) as nat) + branches[owners[count
            - 1] as int].files@.len();
        if all > usize::MAX {
            usize::MAX
        } else {
            all as usize
        }
    }
}

/// The labels of some keys.
pub open spec fn labelled(labels: Seq<LabelModel>, keys: Seq<Seq<char>>) -> Seq<Seq<char>> {
    keys.map_values(
        |k: Seq<char>|
            match label_of(labels, k) {
                Some(label) => label,
                None => "unlisted"@,
            },
    )
}

/// The beginning of an id that a view shows.
pub open spec fn short(id: Seq<char>) -> Seq<char> {
    let head = prefix_within(id, SHORT_ID as nat);
    if blen(head) == SHORT_ID {
        head
    } else {
        id
    }
}

/// A section that took many parts, as review is shown it.
pub open spec fn crowded_section(view: BranchView, section: SectionPlan) -> CrowdedModel {
    let keys = texts(section.branches@);
    let owners = owners_of(view.branches@, keys, keys.len());
    CrowdedModel {
        id: short(section.id@),
        title: section.title@,
        branches: labelled(view.labels(), keys),
        file_count: owned_files(view.branches@, owners, owners.len()),
    }
}

/// The crowded ones of the first `count` sections.
pub open spec fn crowded(view: BranchView, sections: Seq<SectionPlan>, count: nat) -> Seq<CrowdedModel>
    decreases count,
{
    if count == 0 {
        Seq::empty()
    } else {
        let before = crowded(view, sections, (count - 1) as nat);
        if sections[count - 1].branches@.len() >= CROWDED_BRANCHES {
            before.push(crowded_section(view, sections[count - 1]))
        } else {
            before
        }
    }
}

/// The coverage of a plan.
pub open spec fn is_coverage(plan: Outline, view: BranchView, c: Coverage) -> bool {
    let ledger = account(plan, view.branches@, view.branches@.len());
    &&& c.branches == view.branches@.len()
    &&& c.covered == ledger.covered
    &&& excluded_models(c.excluded@) == ledger.excluded
    &&& unassigned_models(c.unassigned@) == ledger.unassigned
    &&& crowded_models(c.crowded_sections@) == crowded(view, plan.sections@, plan.sections@.len())
}

proof fn lemma_account_parts_covered(
    plan: Outline,
    parts: Seq<Part>,
    place: Seq<char>,
    ledger: Ledger,
    count: nat,
)
    ensures
        account_parts(plan, parts, place, ledger, count).covered == ledger.covered,
    decreases count,
{
    if count > 0 {
        lemma_account_parts_covered(plan, parts, place, ledger, (count - 1) as nat);
    }
}

/// A branch is not counted twice.
pub proof fn covered_branches_are_branches(plan: Outline, branches: Seq<Branch>, count: nat)
    ensures
        account(plan, branches, count).covered <= count,
    decreases count,
{
    if count > 0 {
        covered_branches_are_branches(plan, branches, (count - 1) as nat);
        let before = account(plan, branches, (count - 1) as nat);
        let b = branches[count - 1];
        let place = shared_dir(texts(b.files@), b.files@.len());
        let counted = Ledger { covered: before.covered + 1, ..before };
        lemma_account_parts_covered(plan, b.parts@, place, before, b.parts@.len());
        lemma_account_parts_covered(plan, b.parts@, place, counted, b.parts@.len());
    }
}

/// A branch that the plan names nowhere, neither whole nor by a part, neither
/// as covered nor as excluded, is listed as unassigned.
pub proof fn forgotten_branches_are_listed(plan: Outline, branches: Seq<Branch>, count: nat, b: int)
    requires
        0 <= b < count <= branches.len(),
        !covered_key(plan, branches[b].key@),
        !judged_by_parts(plan, branches[b].parts@),
        excluded_key(plan, branches[b].key@) is None,
    ensures
        exists|u: int|
            0 <= u < account(plan, branches, count).unassigned.len() && (#[trigger] account(
                plan,
                branches,
                count,
            ).unassigned[u]).branch == branches[b].label@,
    decreases count,
{
    let now = account(plan, branches, count);
    let before = account(plan, branches, (count - 1) as nat);
    if b == count - 1 {
        assert(now.unassigned.last().branch == branches[b].label@);
    } else {
        forgotten_branches_are_listed(plan, branches, (count - 1) as nat, b);
        let u = choose|u: int|
            0 <= u < before.unassigned.len() && (#[trigger] before.unassigned[u]).branch
                == branches[b].label@;
        lemma_account_keeps(plan, branches[count - 1], before, u);
        assert(now.unassigned[u].branch == branches[b].label@);
    }
}

proof fn lemma_account_keeps(plan: Outline, branch: Branch, ledger: Ledger, u: int)
    requires
        0 <= u < ledger.unassigned.len(),
    ensures
        u < account_branch(plan, branch, ledger).unassigned.len(),
        account_branch(plan, branch, ledger).unassigned[u] == ledger.unassigned[u],
{
    let place = shared_dir(texts(branch.files@), branch.files@.len());
    let counted = Ledger { covered: ledger.covered + 1, ..ledger };
    lemma_account_parts_keep(plan, branch.parts@, place, ledger, branch.parts@.len(), u);
    lemma_account_parts_keep(plan, branch.parts@, place, counted, branch.parts@.len(), u);
}

proof fn lemma_account_parts_keep(
    plan: Outline,
    parts: Seq<Part>,
    place: Seq<char>,
    ledger: Ledger,
    count: nat,
    u: int,
)
    requires
        0 <= u < ledger.unassigned.len(),
    ensures
        u < account_parts(plan, parts, place, ledger, count).unassigned.len(),
        account_parts(plan, parts, place, ledger, count).unassigned[u] == ledger.unassigned[u],
    decreases count,
{
    if count > 0 {
        lemma_account_parts_keep(plan, parts, place, ledger, (count - 1) as nat, u);
    }
}

/// Whether a section names this key.
fn covers(plan: &Outline, key: &str) -> (r: bool)
    ensures
        r == covered_key(*plan, key@),
{
    let mut s: usize = 0;
    while s < plan.sections.len()
        invariant
            s <= plan.sections@.len(),
            forall|k: int|
                0 <= k < s ==> !texts((#[trigger] plan.sections@[k]).branches@).contains(key@),
        decreases plan.sections@.len() - s,
    {
        if list_has(&plan.sections[s].branches, key) {
            assert(texts(plan.sections@[s as int].branches@).contains(key@));
            return true;
        }
        s += 1;
    }
    false
}

/// The reason for which a plan excludes a key.
fn exclusion<'a>(plan: &'a Outline, key: &str) -> (r: Option<&'a String>)
    ensures
        match excluded_key(*plan, key@) {
            Some(reason) => r is Some && r->0@ == reason,
            None => r is None,
        },
{
    let mut e: usize = plan.excluded_branches.len();
    while e > 0
        invariant
            e <= plan.excluded_branches@.len(),
            reason_of(plan.excluded_branches@, key@, e as nat) == excluded_key(*plan, key@),
        decreases e,
    {
        e -= 1;
        if same(plan.excluded_branches[e].branch.as_str(), key) {
            return Some(&plan.excluded_branches[e].reason);
        }
    }
    None
}

/// The first six topics of a part, shortened.
fn shown_topics(topics: &Vec<String>) -> (r: Vec<String>)
    ensures
        texts(r@) == six_topics(texts(topics@)),
{
    let first = first_texts(topics, 6);
    let ghost goal = six_topics(texts(topics@));
    let mut r: Vec<String> = Vec::new();
    let mut i: usize = 0;
    assert(texts(first@).len() == first@.len());
    assert(texts(r@) =~= goal.take(0));
    while i < first.len()
        invariant
            i <= first@.len(),
            goal == texts(first@).map_values(|t: Seq<char>| excerpt_of(t, 120)),
            texts(r@) == goal.take(i as int),
        decreases first@.len() - i,
    {
        let t = excerpt(first[i].as_str(), 120);
        assert(texts(r@.push(t)) =~= texts(r@).push(t@));
        assert(goal.take(i + 1) =~= goal.take(i as int).push(t@));
        r.push(t);
        i += 1;
    }
    assert(goal.take(i as int) =~= goal);
    r
}

/// The beginning of an id that a view shows.
pub fn short_id(id: &str) -> (r: String)
    ensures
        r@ == short(id@),
{
    let chars = to_chars(id);
    let offsets = byte_offsets(id);
    let n: usize = chars.len();
    let ghost s = id@;
    let mut at: usize = 0;
    proof {
        assert(s.take(0) =~= Seq::<char>::empty());
        assert(vstd::utf8::encode_utf8(s.take(0)) =~= Seq::<u8>::empty());
        assert(s.take(n as int) =~= s);
    }
    while at < n && offsets[at + 1] <= SHORT_ID
        invariant
            at <= n == s.len(),
            offsets@.len() == n + 1,
            forall|i: int| 0 <= i <= n ==> #[trigger] offsets@[i] == blen(s.take(i)),
            blen(s.take(at as int)) <= SHORT_ID,
        decreases n - at,
    {
        at += 1;
    }
    proof {
        if at < n {
            assert(offsets@[at + 1] == blen(s.take(at + 1)));
        }
        lemma_prefix_within(s, SHORT_ID as nat, at as int);
        assert(offsets@[at as int] == blen(s.take(at as int)));
    }
    if offsets[at] == SHORT_ID {
        let r = slice(chars.as_slice(), 0, at);
        assert(r@ =~= s.take(at as int));
        r
    } else {
        String::from_str(id)
    }
}

/// The place at which an owner goes into a list.
proof fn lemma_add_owner(branches: Seq<Branch>, owners: Seq<usize>, owner: usize, at: int)
    requires
        0 <= at <= owners.len(),
        forall|k: int|
            at <= k < owners.len() ==> branches[#[trigger] owners[k] as int].key@
                != branches[owner as int].key@,
        at > 0 ==> branches[owners[at - 1] as int].key@ == branches[owner as int].key@,
    ensures
        add_owner(branches, owners, owner) == (if at > 0 {
            owners.update(at - 1, owner)
        } else {
            seq![owner] + owners
        }),
    decreases owners.len(),
{
    if owners.len() > 0 {
        let t = owners.drop_last();
        if at == owners.len() {
            assert(t.push(owner) =~= owners.update(at - 1, owner));
        } else {
            assert(branches[owners[owners.len() - 1] as int].key@ != branches[owner as int].key@);
            lemma_add_owner(branches, t, owner, at);
            if at > 0 {
                assert(t.update(at - 1, owner).push(owners.last()) =~= owners.update(
                    at - 1,
                    owner,
                ));
            } else {
                assert((seq![owner] + t).push(owners.last()) =~= seq![owner] + owners);
            }
        }
    } else {
        assert(seq![owner] + owners =~= seq![owner]);
    }
}

/// The files under the branches that a section names, each branch once.
fn section_files(view: &BranchView, section: &SectionPlan) -> (r: usize)
    ensures
        r == crowded_section(*view, *section).file_count,
{
    let ghost keys = texts(section.branches@);
    let ghost all = view.branches@;
    let mut owners: Vec<usize> = Vec::new();
    let mut i: usize = 0;
    while i < section.branches.len()
        invariant
            i <= section.branches@.len(),
            keys == texts(section.branches@),
            all == view.branches@,
            owners@ == owners_of(all, keys, i as nat),
            forall|k: int| 0 <= k < owners@.len() ==> (#[trigger] owners@[k]) < all.len(),
        decreases section.branches@.len() - i,
    {
        assert(keys[i as int] == section.branches@[i as int]@);
        if let Some(owner) = view.owner(section.branches[i].as_str()) {
            let mut at: usize = owners.len();
            while at > 0 && !same(
                view.branches[owners[at - 1]].key.as_str(),
                view.branches[owner].key.as_str(),
            )
                invariant
                    at <= owners@.len(),
                    all == view.branches@,
                    owner < all.len(),
                    forall|k: int| 0 <= k < owners@.len() ==> (#[trigger] owners@[k]) < all.len(),
                    forall|k: int|
                        at <= k < owners@.len() ==> all[#[trigger] owners@[k] as int].key@
                            != all[owner as int].key@,
                decreases at,
            {
                at -= 1;
            }
            proof {
                lemma_add_owner(all, owners@, owner, at as int);
            }
            if at > 0 {
                owners.set(at - 1, owner);
            } else {
                assert(owners@.insert(0, owner) =~= seq![owner] + owners@);
                owners.insert(0, owner);
            }
        }
        i += 1;
    }
    let mut files: usize = 0;
    let mut k: usize = 0;
    while k < owners.len()
        invariant
            k <= owners@.len(),
            all == view.branches@,
            forall|k: int| 0 <= k < owners@.len() ==> (#[trigger] owners@[k]) < all.len(),
            files == owned_files(all, owners@, k as nat),
        decreases owners@.len() - k,
    {
        let more: usize = view.branches[owners[k]].files.len();
        files = if more > usize::MAX - files {
            usize::MAX
        } else {
            files + more
        };
        k += 1;
    }
    files
}

/// The labels of some keys.
pub fn labels_for(labels: &Vec<Label>, keys: &Vec<String>) -> (r: Vec<String>)
    ensures
        texts(r@) == labelled(label_models(labels@), texts(keys@)),
{
    let ghost ls = label_models(labels@);
    let ghost goal = labelled(ls, texts(keys@));
    let mut r: Vec<String> = Vec::new();
    let mut i: usize = 0;
    assert(texts(r@) =~= goal.take(0));
    while i < keys.len()
        invariant
            i <= keys@.len(),
            ls == label_models(labels@),
            goal == labelled(ls, texts(keys@)),
            texts(r@) == goal.take(i as int),
        decreases keys@.len() - i,
    {
        assert(texts(keys@)[i as int] == keys@[i as int]@);
        let label = match find_label(labels, keys[i].as_str()) {
            Some(label) => label.clone(),
            None => String::from_str("unlisted"),
        };
        assert(texts(r@.push(label)) =~= texts(r@).push(label@));
        assert(goal.take(i + 1) =~= goal.take(i as int).push(label@));
        r.push(label);
        i += 1;
    }
    assert(goal.take(i as int) =~= goal);
    r
}

/// Which branches the plan covers, excludes, or leaves in neither. A branch
/// whose parts the plan names part by part is judged part by part. `None` where
/// no branches are known.
#[verifier::rlimit(40)]
pub fn branch_coverage(plan: &Outline, view: &BranchView) -> (r: Option<Coverage>)
    ensures
        view.branches@.len() == 0 ==> r is None,
        view.branches@.len() > 0 ==> r is Some && is_coverage(*plan, *view, r->0),
{
    if view.branches.len() == 0 {
        return None;
    }
    let ghost all = view.branches@;
    let mut covered: usize = 0;
    let mut excluded: Vec<ExcludedPart> = Vec::new();
    let mut unassigned: Vec<UnassignedPart> = Vec::new();
    let mut b: usize = 0;
    assert(excluded_models(excluded@) =~= Seq::empty());
    assert(unassigned_models(unassigned@) =~= Seq::empty());
    while b < view.branches.len()
        invariant
            b <= view.branches@.len(),
            all == view.branches@,
            covered <= b,
            account(*plan, all, b as nat) == (Ledger {
                covered: covered as nat,
                excluded: excluded_models(excluded@),
                unassigned: unassigned_models(unassigned@),
            }),
        decreases view.branches@.len() - b,
    {
        let branch = &view.branches[b];
        let ghost before = account(*plan, all, b as nat);
        proof {
            covered_branches_are_branches(*plan, all, (b + 1) as nat);
        }
        let place = shared_root(&branch.files);
        if covers(plan, branch.key.as_str()) {
            covered += 1;
        } else {
            let mut named = false;
            let mut judged = false;
            let mut p: usize = 0;
            while p < branch.parts.len()
                invariant
                    p <= branch.parts@.len(),
                    named ==> covers_part(*plan, branch.parts@),
                    judged ==> judged_by_parts(*plan, branch.parts@),
                    !named ==> forall|j: int|
                        0 <= j < p ==> !covered_key(*plan, (#[trigger] branch.parts@[j]).key@),
                    !judged ==> forall|j: int|
                        0 <= j < p ==> !(covered_key(*plan, (#[trigger] branch.parts@[j]).key@)
                            || excluded_key(*plan, branch.parts@[j].key@) is Some),
                decreases branch.parts@.len() - p,
            {
                let key = branch.parts[p].key.as_str();
                let part_covered = covers(plan, key);
                let part_excluded = exclusion(plan, key).is_some();
                if part_covered {
                    assert(covered_key(*plan, branch.parts@[p as int].key@));
                    named = true;
                }
                if part_covered || part_excluded {
                    assert(covered_key(*plan, branch.parts@[p as int].key@) || excluded_key(
                        *plan,
                        branch.parts@[p as int].key@,
                    ) is Some);
                    judged = true;
                }
                p += 1;
            }
            assert(named == covers_part(*plan, branch.parts@));
            assert(judged == judged_by_parts(*plan, branch.parts@));
            if judged {
                let ghost counted = if named {
                    Ledger { covered: before.covered + 1, ..before }
                } else {
                    before
                };
                if named {
                    covered += 1;
                }
                proof {
                    lemma_account_parts_covered(
                        *plan,
                        branch.parts@,
                        place@,
                        counted,
                        branch.parts@.len(),
                    );
                }
                let mut q: usize = 0;
                while q < branch.parts.len()
                    invariant
                        q <= branch.parts@.len(),
                        account_parts(*plan, branch.parts@, place@, counted, q as nat) == (Ledger {
                            covered: covered as nat,
                            excluded: excluded_models(excluded@),
                            unassigned: unassigned_models(unassigned@),
                        }),
                    decreases branch.parts@.len() - q,
                {
                    let part = &branch.parts[q];
                    if !covers(plan, part.key.as_str()) {
                        match exclusion(plan, part.key.as_str()) {
                            Some(reason) => {
                                let item = ExcludedPart {
                                    branch: part.label.clone(),
                                    place: place.clone(),
                                    reason: reason.clone(),
                                };
                                assert(excluded_models(excluded@.push(item)) =~= excluded_models(
                                    excluded@,
                                ).push(item@));
                                excluded.push(item);
                            },
                            None => {
                                let item = UnassignedPart {
                                    branch: part.label.clone(),
                                    place: place.clone(),
                                    file_count: part.files,
                                    topics: shown_topics(&part.topics),
                                };
                                assert(unassigned_models(unassigned@.push(item))
                                    =~= unassigned_models(unassigned@).push(item@));
                                unassigned.push(item);
                            },
                        }
                    }
                    q += 1;
                }
            } else {
                match exclusion(plan, branch.key.as_str()) {
                    Some(reason) => {
                        let item = ExcludedPart {
                            branch: branch.label.clone(),
                            place: place.clone(),
                            reason: reason.clone(),
                        };
                        assert(excluded_models(excluded@.push(item)) =~= excluded_models(
                            excluded@,
                        ).push(item@));
                        excluded.push(item);
                    },
                    None => {
                        let item = UnassignedPart {
                            branch: branch.label.clone(),
                            place: place.clone(),
                            file_count: branch.files.len(),
                            topics: shown_topics(&topics_list(&branch.findings)),
                        };
                        assert(unassigned_models(unassigned@.push(item)) =~= unassigned_models(
                            unassigned@,
                        ).push(item@));
                        unassigned.push(item);
                    },
                }
            }
        }
        b += 1;
    }
    let labels = view.keys_by_label();
    let mut crowded_sections: Vec<CrowdedSection> = Vec::new();
    let mut s: usize = 0;
    assert(crowded_models(crowded_sections@) =~= Seq::empty());
    while s < plan.sections.len()
        invariant
            s <= plan.sections@.len(),
            label_models(labels@) == view.labels(),
            crowded_models(crowded_sections@) == crowded(*view, plan.sections@, s as nat),
        decreases plan.sections@.len() - s,
    {
        let section = &plan.sections[s];
        if section.branches.len() >= CROWDED_BRANCHES {
            let item = CrowdedSection {
                id: short_id(section.id.as_str()),
                title: section.title.clone(),
                branches: labels_for(&labels, &section.branches),
                file_count: section_files(view, section),
            };
            assert(item@ == crowded_section(*view, *section));
            assert(crowded_models(crowded_sections@.push(item)) =~= crowded_models(
                crowded_sections@,
            ).push(item@));
            crowded_sections.push(item);
        }
        s += 1;
    }
    Some(
        Coverage {
            branches: view.branches.len(),
            covered,
            excluded,
            unassigned,
            crowded_sections,
        },
    )
}

// ---------------------------------------------------------------------------
// Coverage in a request
// ---------------------------------------------------------------------------

/// How much of coverage a request tells: topics of an unassigned part, and bytes
/// of a reason.
pub open spec fn coverage_detail(attempt: int) -> (nat, nat) {
    if attempt == 0 {
        (6, 400)
    } else if attempt == 1 {
        (3, 200)
    } else if attempt == 2 {
        (1, 120)
    } else {
        (0, 60)
    }
}

/// An excluded part as a request tells it.
pub open spec fn excluded_record(x: ExcludedModel, reason: nat) -> JsonModel {
    JsonModel::Obj(
        seq![
            field("branch"@, JsonModel::Str(x.branch)),
            field("reason"@, JsonModel::Str(excerpt_of(x.reason, reason))),
            field("where"@, JsonModel::Str(x.place)),
        ],
    )
}

/// An unassigned part as a request tells it.
pub open spec fn unassigned_record(x: UnassignedModel, topics: nat) -> JsonModel {
    JsonModel::Obj(
        seq![
            field("branch"@, JsonModel::Str(x.branch)),
            field("file_count"@, nat_model(x.file_count as nat)),
            field("topics"@, texts_model(at_most(x.topics, topics as int))),
            field("where"@, JsonModel::Str(x.place)),
        ],
    )
}

/// A crowded section as a request tells it.
pub open spec fn crowded_record(x: CrowdedModel) -> JsonModel {
    JsonModel::Obj(
        seq![
            field("branches"@, texts_model(x.branches)),
            field("file_count"@, nat_model(x.file_count as nat)),
            field("id"@, JsonModel::Str(x.id)),
            field("title"@, JsonModel::Str(x.title)),
        ],
    )
}

/// Coverage at one attempt.
pub open spec fn coverage_record(c: Coverage, attempt: int) -> JsonModel {
    let (topics, reason) = coverage_detail(attempt);
    JsonModel::Obj(
        seq![
            field("branches"@, nat_model(c.branches as nat)),
            field("covered"@, nat_model(c.covered as nat)),
            field(
                "crowded_sections"@,
                JsonModel::Arr(
                    crowded_models(c.crowded_sections@).map_values(
                        |x: CrowdedModel| crowded_record(x),
                    ),
                ),
            ),
            field(
                "excluded"@,
                JsonModel::Arr(
                    excluded_models(c.excluded@).map_values(
                        |x: ExcludedModel| excluded_record(x, reason),
                    ),
                ),
            ),
            field(
                "unassigned"@,
                JsonModel::Arr(
                    unassigned_models(c.unassigned@).map_values(
                        |x: UnassignedModel| unassigned_record(x, topics),
                    ),
                ),
            ),
        ],
    )
}

/// The first attempt, from `attempt` on, that fits, and the last where none
/// does.
pub open spec fn coverage_shown(c: Coverage, attempt: nat) -> JsonModel
    decreases 3 - attempt,
{
    let record = coverage_record(c, attempt as int);
    if attempt >= 3 || blen(text_of(record)) <= COVERAGE_VIEW_BYTES {
        record
    } else {
        coverage_shown(c, attempt + 1)
    }
}

/// The excluded parts as a request tells them.
fn excluded_json(list: &Vec<ExcludedPart>, reason: usize) -> (r: Json)
    ensures
        r@ == JsonModel::Arr(
            excluded_models(list@).map_values(
                |x: ExcludedModel| excluded_record(x, reason as nat),
            ),
        ),
{
    let ghost goal = excluded_models(list@).map_values(
        |x: ExcludedModel| excluded_record(x, reason as nat),
    );
    let mut items: Vec<Json> = Vec::new();
    let mut i: usize = 0;
    assert(models(items@) =~= goal.take(0));
    while i < list.len()
        invariant
            i <= list@.len(),
            goal == excluded_models(list@).map_values(
                |x: ExcludedModel| excluded_record(x, reason as nat),
            ),
            models(items@) == goal.take(i as int),
        decreases list@.len() - i,
    {
        let x = &list[i];
        let members = vec![
            member("branch", Json::string(x.branch.as_str())),
            member("reason", Json::string(excerpt(x.reason.as_str(), reason).as_str())),
            member("where", Json::string(x.place.as_str())),
        ];
        let item = Json::object(members);
        proof {
            assert(member_models(members@) =~= excluded_record(x@, reason as nat)->Obj_0);
            assert(goal[i as int] == item@);
            assert(models(items@.push(item)) =~= models(items@).push(item@));
            assert(goal.take(i + 1) =~= goal.take(i as int).push(item@));
        }
        items.push(item);
        i += 1;
    }
    assert(goal.take(i as int) =~= goal);
    Json::array(items)
}

/// The unassigned parts as a request tells them.
fn unassigned_json(list: &Vec<UnassignedPart>, topics: usize) -> (r: Json)
    ensures
        r@ == JsonModel::Arr(
            unassigned_models(list@).map_values(
                |x: UnassignedModel| unassigned_record(x, topics as nat),
            ),
        ),
{
    let ghost goal = unassigned_models(list@).map_values(
        |x: UnassignedModel| unassigned_record(x, topics as nat),
    );
    let mut items: Vec<Json> = Vec::new();
    let mut i: usize = 0;
    assert(models(items@) =~= goal.take(0));
    while i < list.len()
        invariant
            i <= list@.len(),
            goal == unassigned_models(list@).map_values(
                |x: UnassignedModel| unassigned_record(x, topics as nat),
            ),
            models(items@) == goal.take(i as int),
        decreases list@.len() - i,
    {
        let x = &list[i];
        let members = vec![
            member("branch", Json::string(x.branch.as_str())),
            member("file_count", Json::count(x.file_count)),
            member("topics", texts_json(&first_texts(&x.topics, topics))),
            member("where", Json::string(x.place.as_str())),
        ];
        let item = Json::object(members);
        proof {
            assert(member_models(members@) =~= unassigned_record(x@, topics as nat)->Obj_0);
            assert(goal[i as int] == item@);
            assert(models(items@.push(item)) =~= models(items@).push(item@));
            assert(goal.take(i + 1) =~= goal.take(i as int).push(item@));
        }
        items.push(item);
        i += 1;
    }
    assert(goal.take(i as int) =~= goal);
    Json::array(items)
}

/// The crowded sections as a request tells them.
fn crowded_json(list: &Vec<CrowdedSection>) -> (r: Json)
    ensures
        r@ == JsonModel::Arr(
            crowded_models(list@).map_values(|x: CrowdedModel| crowded_record(x)),
        ),
{
    let ghost goal = crowded_models(list@).map_values(|x: CrowdedModel| crowded_record(x));
    let mut items: Vec<Json> = Vec::new();
    let mut i: usize = 0;
    assert(models(items@) =~= goal.take(0));
    while i < list.len()
        invariant
            i <= list@.len(),
            goal == crowded_models(list@).map_values(|x: CrowdedModel| crowded_record(x)),
            models(items@) == goal.take(i as int),
        decreases list@.len() - i,
    {
        let x = &list[i];
        let members = vec![
            member("branches", texts_json(&x.branches)),
            member("file_count", Json::count(x.file_count)),
            member("id", Json::string(x.id.as_str())),
            member("title", Json::string(x.title.as_str())),
        ];
        let item = Json::object(members);
        proof {
            assert(member_models(members@) =~= crowded_record(x@)->Obj_0);
            assert(goal[i as int] == item@);
            assert(models(items@.push(item)) =~= models(items@).push(item@));
            assert(goal.take(i + 1) =~= goal.take(i as int).push(item@));
        }
        items.push(item);
        i += 1;
    }
    assert(goal.take(i as int) =~= goal);
    Json::array(items)
}

/// Coverage as a review request carries it: every unassigned or excluded part
/// is still named, with fewer topics and shorter reasons as the list grows.
pub fn coverage_view(c: &Coverage) -> (r: Json)
    ensures
        r@ == coverage_shown(*c, 0),
{
    let mut attempt: usize = 0;
    loop
        invariant
            attempt <= 3,
            coverage_shown(*c, attempt as nat) == coverage_shown(*c, 0),
        decreases 3 - attempt,
    {
        let (topics, reason): (usize, usize) = if attempt == 0 {
            (6, 400)
        } else if attempt == 1 {
            (3, 200)
        } else if attempt == 2 {
            (1, 120)
        } else {
            (0, 60)
        };
        let members = vec![
            member("branches", Json::count(c.branches)),
            member("covered", Json::count(c.covered)),
            member("crowded_sections", crowded_json(&c.crowded_sections)),
            member("excluded", excluded_json(&c.excluded, reason)),
            member("unassigned", unassigned_json(&c.unassigned, topics)),
        ];
        assert(member_models(members@) =~= coverage_record(*c, attempt as int)->Obj_0);
        let record = Json::object(members);
        if attempt >= 3 || record.size() <= COVERAGE_VIEW_BYTES {
            return record;
        }
        attempt += 1;
    }
}

// ---------------------------------------------------------------------------
// Issues
// ---------------------------------------------------------------------------

/// The value of an issue.
pub struct IssueModel {
    pub severity: Seq<char>,
    pub code: Seq<char>,
    pub message: Seq<char>,
    pub section_ids: Seq<Seq<char>>,
    pub requirement_ids: Seq<Seq<char>>,
    pub query: Seq<char>,
}

impl View for OutlineIssue {
    type V = IssueModel;

    open spec fn view(&self) -> IssueModel {
        IssueModel {
            severity: self.severity@,
            code: self.code@,
            message: self.message@,
            section_ids: texts(self.section_ids@),
            requirement_ids: texts(self.requirement_ids@),
            query: self.query@,
        }
    }
}

/// The values of a list of issues.
pub open spec fn issue_models(v: Seq<OutlineIssue>) -> Seq<IssueModel> {
    v.map_values(|i: OutlineIssue| i@)
}

/// At this position a label stands by itself: no letter or digit before it, and
/// behind it no digit, nor a full stop that leads to one. `B3` stands by itself
/// where a sentence ends with it, but not at the start of `B3.2`.
pub open spec fn stands_alone(message: Seq<char>, label: Seq<char>, at: int) -> bool {
    let end = at + label.len();
    &&& at > 0 ==> !is_ascii_letter(message[at - 1]) && !is_ascii_digit(message[at - 1])
    &&& end < message.len() ==> !is_ascii_digit(message[end])
    &&& end + 1 < message.len() && message[end] == '.' ==> !is_ascii_digit(message[end + 1])
}

/// A message names a label, from position `from` on.
pub open spec fn names_from(message: Seq<char>, label: Seq<char>, from: int) -> bool
    decreases message.len() + 1 - from,
{
    match first_at(message, label, from) {
        Some(at) if from <= at && at + label.len() <= message.len() => stands_alone(
            message,
            label,
            at,
        ) || names_from(
            message,
            label,
            at + if label.len() == 0 {
                1
            } else {
                label.len() as int
            },
        ),
        _ => false,
    }
}

/// Whether a message names this label, and not the start of a longer one.
pub fn names_label(message: &str, label: &str) -> (r: bool)
    ensures
        r == names_from(message@, label@, 0),
{
    let text = to_chars(message);
    let part = to_chars(label);
    let n: usize = text.len();
    let ghost s = message@;
    let ghost l = label@;
    let mut from: usize = 0;
    loop
        invariant
            from <= n == text@.len(),
            text@ == s,
            part@ == l,
            s == message@,
            l == label@,
            names_from(s, l, from as int) == names_from(s, l, 0),
        decreases n + 1 - from,
    {
        match find_from(text.as_slice(), part.as_slice(), from) {
            None => {
                return false;
            },
            Some(at) => {
                let end: usize = at + part.len();
                let before_ok = at == 0 || {
                    let c = text[at - 1];
                    !(('a' <= c && c <= 'z') || ('A' <= c && c <= 'Z') || ('0' <= c && c <= '9'))
                };
                let after_ok = end == n || {
                    let c = text[end];
                    if c == '.' && end + 1 < n {
                        let d = text[end + 1];
                        !('0' <= d && d <= '9')
                    } else {
                        !('0' <= c && c <= '9')
                    }
                };
                if before_ok && after_ok {
                    return true;
                }
                if part.len() == 0 {
                    if at == n {
                        assert(!names_from(s, l, n + 1));
                        return false;
                    }
                    from = at + 1;
                } else {
                    from = end;
                }
            },
        }
    }
}

/// A label that a message names stands in it.
pub proof fn named_labels_occur(message: Seq<char>, label: Seq<char>, from: int)
    requires
        0 <= from,
        names_from(message, label, from),
    ensures
        exists|at: int|
            from <= at && #[trigger] occurs_at(message, label, at) && stands_alone(
                message,
                label,
                at,
            ),
    decreases message.len() + 1 - from,
{
    lemma_first_at(message, label, from);
    let at = first_at(message, label, from)->0;
    if !stands_alone(message, label, at) {
        let next = at + if label.len() == 0 {
            1
        } else {
            label.len() as int
        };
        named_labels_occur(message, label, next);
        let found = choose|found: int|
            next <= found && #[trigger] occurs_at(message, label, found)
                && stands_alone(message, label, found);
        assert(from <= found && occurs_at(message, label, found));
    } else {
        assert(from <= at && occurs_at(message, label, at));
    }
}

/// The message of an issue about a part that the plan does not account for.
pub open spec fn unassigned_message(x: UnassignedModel) -> Seq<char> {
    "Branch "@ + x.branch + " ("@ + decimal(x.file_count as nat)
        + " files) is covered by no section and named in no exclusion, so the plan does not say whether the document explains it. Its topics are: "@
        + join(x.topics, "; "@)
        + ". Name it in the branches of the section that explains it, add a section for it, or list it once in excluded_branches with a reason tied to the purpose."@
}

/// A major issue.
pub open spec fn major(code: Seq<char>, message: Seq<char>, section_ids: Seq<Seq<char>>) -> IssueModel {
    IssueModel {
        severity: "major"@,
        code,
        message,
        section_ids,
        requirement_ids: Seq::empty(),
        query: Seq::empty(),
    }
}

/// One of the reported issues names this label.
pub open spec fn reported_label(reported: Seq<IssueModel>, label: Seq<char>) -> bool {
    exists|i: int|
        0 <= i < reported.len() && names_from((#[trigger] reported[i]).message, label, 0)
}

/// The issues about the first `count` unassigned parts that no reported issue
/// names.
pub open spec fn unassigned_found(
    parts: Seq<UnassignedModel>,
    reported: Seq<IssueModel>,
    count: nat,
) -> Seq<IssueModel>
    decreases count,
{
    if count == 0 {
        Seq::empty()
    } else {
        let before = unassigned_found(parts, reported, (count - 1) as nat);
        let x = parts[count - 1];
        if reported_label(reported, x.branch) {
            before
        } else {
            before.push(major("unassigned_branch"@, unassigned_message(x), Seq::empty()))
        }
    }
}

/// A major issue.
fn major_issue(code: &str, message: String, section_ids: Vec<String>) -> (r: OutlineIssue)
    ensures
        r@ == major(code@, message@, texts(section_ids@)),
{
    let none: Vec<String> = Vec::new();
    assert(texts(none@) =~= Seq::empty());
    OutlineIssue {
        severity: String::from_str("major"),
        code: String::from_str(code),
        message,
        section_ids,
        requirement_ids: none,
        query: String::new(),
    }
}

/// The branches that the plan accounts for in neither way, as issues of their
/// own. One that a reported issue names already was judged.
pub fn unassigned_issues(coverage: &Coverage, reported: &Vec<OutlineIssue>) -> (r: Vec<OutlineIssue>)
    ensures
        issue_models(r@) == unassigned_found(
            unassigned_models(coverage.unassigned@),
            issue_models(reported@),
            coverage.unassigned@.len(),
        ),
{
    let ghost parts = unassigned_models(coverage.unassigned@);
    let ghost told = issue_models(reported@);
    let mut r: Vec<OutlineIssue> = Vec::new();
    let mut i: usize = 0;
    assert(issue_models(r@) =~= Seq::empty());
    while i < coverage.unassigned.len()
        invariant
            i <= coverage.unassigned@.len(),
            parts == unassigned_models(coverage.unassigned@),
            told == issue_models(reported@),
            issue_models(r@) == unassigned_found(parts, told, i as nat),
        decreases coverage.unassigned@.len() - i,
    {
        let x = &coverage.unassigned[i];
        assert(parts[i as int] == x@);
        let mut known = false;
        let mut k: usize = 0;
        while k < reported.len()
            invariant
                k <= reported@.len(),
                told == issue_models(reported@),
                known ==> reported_label(told, x.branch@),
                !known ==> forall|j: int|
                    0 <= j < k ==> !names_from((#[trigger] told[j]).message, x.branch@, 0),
            decreases reported@.len() - k,
        {
            assert(told[k as int] == reported@[k as int]@);
            if names_label(reported[k].message.as_str(), x.branch.as_str()) {
                assert(names_from(told[k as int].message, x.branch@, 0));
                known = true;
            }
            k += 1;
        }
        if !known {
            let mut message = String::from_str("Branch ");
            message.push_str(x.branch.as_str());
            message.push_str(" (");
            message.push_str(number(x.file_count as u64).as_str());
            message.push_str(
                " files) is covered by no section and named in no exclusion, so the plan does not say whether the document explains it. Its topics are: ",
            );
            message.push_str(join_with(&x.topics, "; ").as_str());
            message.push_str(
                ". Name it in the branches of the section that explains it, add a section for it, or list it once in excluded_branches with a reason tied to the purpose.",
            );
            let none: Vec<String> = Vec::new();
            assert(texts(none@) =~= Seq::empty());
            let issue = major_issue("unassigned_branch", message, none);
            assert(issue_models(r@.push(issue)) =~= issue_models(r@).push(issue@));
            r.push(issue);
        }
        i += 1;
    }
    r
}

/// The message of an issue about a section whose scope does not reach its
/// writer.
pub open spec fn scope_message(section: SectionPlan, shown: nat, deferred: nat) -> Seq<char> {
    "Section "@ + short(section.id@) + " ("@ + debug_form(section.title@)
        + ") covers "@ + decimal(section.branches@.len())
        + " branches, and the reading found more in its scope than its writer can be shown: "@
        + decimal(shown) + " observations fit the checklist a section is written from and "@
        + decimal(deferred)
        + " are left out. Split it so that each section carries a scope that fits, or give some of its branches to the sections that explain them."@
}

/// The issue that a section earns when most of its own scope stays behind.
pub fn scope_issue(section: &SectionPlan, shown: usize, deferred: usize) -> (r: Option<OutlineIssue>)
    ensures
        deferred <= shown ==> r is None,
        deferred > shown ==> r is Some && r->0@ == major(
            "section_scope_not_shown"@,
            scope_message(*section, shown as nat, deferred as nat),
            seq![section.id@],
        ),
{
    if deferred <= shown {
        return None;
    }
    let mut message = String::from_str("Section ");
    message.push_str(short_id(section.id.as_str()).as_str());
    message.push_str(" (");
    message.push_str(to_debug(section.title.as_str()).as_str());
    message.push_str(") covers ");
    message.push_str(number(section.branches.len() as u64).as_str());
    message.push_str(
        " branches, and the reading found more in its scope than its writer can be shown: ",
    );
    message.push_str(number(shown as u64).as_str());
    message.push_str(" observations fit the checklist a section is written from and ");
    message.push_str(number(deferred as u64).as_str());
    message.push_str(
        " are left out. Split it so that each section carries a scope that fits, or give some of its branches to the sections that explain them.",
    );
    let ids = vec![section.id.clone()];
    assert(texts(ids@) =~= seq![section.id@]);
    Some(major_issue("section_scope_not_shown", message, ids))
}

/// One of the reported issues is about this section.
pub open spec fn reported_section(reported: Seq<IssueModel>, id: Seq<char>) -> bool {
    exists|i: int|
        0 <= i < reported.len() && (#[trigger] reported[i]).section_ids.contains(id)
}

/// A section has branches, and no reported issue is about it.
pub open spec fn scope_open(section: SectionPlan, reported: Seq<IssueModel>) -> bool {
    section.branches@.len() > 0 && !reported_section(reported, section.id@)
}

/// How many observations of a section are shown and how many deferred; none
/// where it was not counted.
pub open spec fn counts_at(counts: Seq<(usize, usize)>, index: int) -> (usize, usize) {
    if index < counts.len() {
        counts[index]
    } else {
        (0, 0)
    }
}

/// The issues that the first `count` sections earn.
pub open spec fn scopes_found(
    sections: Seq<SectionPlan>,
    counts: Seq<(usize, usize)>,
    reported: Seq<IssueModel>,
    count: nat,
) -> Seq<IssueModel>
    decreases count,
{
    if count == 0 {
        Seq::empty()
    } else {
        let before = scopes_found(sections, counts, reported, (count - 1) as nat);
        let section = sections[count - 1];
        let (shown, deferred) = counts_at(counts, count - 1);
        if scope_open(section, reported) && deferred > shown {
            before.push(
                major(
                    "section_scope_not_shown"@,
                    scope_message(section, shown as nat, deferred as nat),
                    seq![section.id@],
                ),
            )
        } else {
            before
        }
    }
}

/// Whether one of the reported issues is about this section.
fn is_reported(reported: &Vec<OutlineIssue>, id: &str) -> (r: bool)
    ensures
        r == reported_section(issue_models(reported@), id@),
{
    let ghost told = issue_models(reported@);
    let mut i: usize = 0;
    while i < reported.len()
        invariant
            i <= reported@.len(),
            told == issue_models(reported@),
            forall|j: int| 0 <= j < i ==> !(#[trigger] told[j]).section_ids.contains(id@),
        decreases reported@.len() - i,
    {
        assert(told[i as int] == reported@[i as int]@);
        if list_has(&reported[i].section_ids, id) {
            assert(told[i as int].section_ids.contains(id@));
            return true;
        }
        i += 1;
    }
    false
}

/// Sections that hold more than their writer can be shown. `counts` tells of
/// each section how many observations of its scope fit and how many do not.
pub fn unshowable_sections(
    plan: &Outline,
    counts: &Vec<(usize, usize)>,
    reported: &Vec<OutlineIssue>,
) -> (r: Vec<OutlineIssue>)
    ensures
        issue_models(r@) == scopes_found(
            plan.sections@,
            counts@,
            issue_models(reported@),
            plan.sections@.len(),
        ),
{
    let mut r: Vec<OutlineIssue> = Vec::new();
    let mut i: usize = 0;
    assert(issue_models(r@) =~= Seq::empty());
    while i < plan.sections.len()
        invariant
            i <= plan.sections@.len(),
            issue_models(r@) == scopes_found(
                plan.sections@,
                counts@,
                issue_models(reported@),
                i as nat,
            ),
        decreases plan.sections@.len() - i,
    {
        let section = &plan.sections[i];
        if section.branches.len() > 0 && !is_reported(reported, section.id.as_str()) {
            let (shown, deferred): (usize, usize) = if i < counts.len() {
                counts[i]
            } else {
                (0, 0)
            };
            if let Some(issue) = scope_issue(section, shown, deferred) {
                assert(issue_models(r@.push(issue)) =~= issue_models(r@).push(issue@));
                r.push(issue);
            }
        }
        i += 1;
    }
    r
}

/// The issues of a review, with what the review does not say itself: parts that
/// the plan does not account for, and sections that hold more than can be shown.
pub open spec fn completed(
    issues: Seq<IssueModel>,
    parts: Seq<UnassignedModel>,
    sections: Seq<SectionPlan>,
    counts: Seq<(usize, usize)>,
) -> Seq<IssueModel> {
    let first = issues + unassigned_found(parts, issues, parts.len());
    first + scopes_found(sections, counts, first, sections.len())
}

/// Completes a review, and says whether that added anything.
pub fn complete_review(
    review: OutlineReview,
    coverage: &Option<Coverage>,
    plan: &Outline,
    counts: &Vec<(usize, usize)>,
) -> (r: (OutlineReview, bool))
    ensures
        ({
            let parts = match coverage {
                Some(c) => unassigned_models(c.unassigned@),
                None => Seq::empty(),
            };
            let all = completed(issue_models(review.issues@), parts, plan.sections@, counts@);
            issue_models(r.0.issues@) == all && r.1 == (all.len() != review.issues@.len())
        }),
{
    let before: usize = review.issues.len();
    let ghost told = issue_models(review.issues@);
    let mut issues = review.issues;
    let ghost parts = match coverage {
        Some(c) => unassigned_models(c.unassigned@),
        None => Seq::empty(),
    };
    if let Some(c) = coverage {
        let mut more = unassigned_issues(c, &issues);
        let ghost added = more@;
        let ghost was = issues@;
        assert(unassigned_models(c.unassigned@).len() == c.unassigned@.len());
        issues.append(&mut more);
        assert(issue_models(issues@) =~= issue_models(was) + issue_models(added));
    } else {
        assert(told + unassigned_found(parts, told, 0) =~= told);
    }
    let ghost first = told + unassigned_found(parts, told, parts.len());
    assert(issue_models(issues@) == first);
    let mut more = unshowable_sections(plan, counts, &issues);
    let ghost added = more@;
    let ghost was = issues@;
    issues.append(&mut more);
    assert(issue_models(issues@) =~= issue_models(was) + issue_models(added));
    assert(issue_models(issues@).len() == issues@.len());
    let grew = issues.len() != before;
    (OutlineReview { issues }, grew)
}

/// A label of a branch or of one of its parts.
pub open spec fn is_branch_label(label: Seq<char>) -> bool {
    label.len() >= 2 && label[0] == 'B' && is_ascii_digit(label[1])
}

/// The issue about a part names it.
proof fn lemma_message_names(x: UnassignedModel)
    requires
        is_branch_label(x.branch),
    ensures
        names_from(unassigned_message(x), x.branch, 0),
{
    reveal_strlit("Branch ");
    reveal_strlit(" (");
    let message = unassigned_message(x);
    let label = x.branch;
    let n = label.len() as int;
    assert(message.subrange(7, 7 + n) =~= label);
    assert(occurs_at(message, label, 7));
    lemma_first_at(message, label, 0);
    let at = first_at(message, label, 0)->0;
    assert(at == 7) by {
        if at < 7 {
            assert(message.subrange(at, at + n)[0] == message[at]);
            assert(message.subrange(at, at + n)[1] == message[at + 1]);
            assert(message[at] == "Branch "@[at]);
        }
    }
    assert(message[6] == ' ');
    assert(message[7 + n] == ' ');
    assert(stands_alone(message, label, 7));
}

proof fn lemma_label_kept(a: Seq<IssueModel>, b: Seq<IssueModel>, label: Seq<char>)
    requires
        reported_label(a, label),
    ensures
        reported_label(a + b, label),
{
    let i = choose|i: int| 0 <= i < a.len() && names_from((#[trigger] a[i]).message, label, 0);
    assert((a + b)[i] == a[i]);
}

proof fn lemma_section_kept(a: Seq<IssueModel>, b: Seq<IssueModel>, id: Seq<char>)
    requires
        reported_section(a, id),
    ensures
        reported_section(a + b, id),
{
    let i = choose|i: int| 0 <= i < a.len() && (#[trigger] a[i]).section_ids.contains(id);
    assert((a + b)[i] == a[i]);
}

/// Every unassigned part is named once the issues about them are there.
proof fn lemma_parts_named(parts: Seq<UnassignedModel>, issues: Seq<IssueModel>, at: int, count: nat)
    requires
        0 <= at < count <= parts.len(),
        is_branch_label(parts[at].branch),
    ensures
        reported_label(issues + unassigned_found(parts, issues, count), parts[at].branch),
    decreases count,
{
    let x = parts[at];
    let found = unassigned_found(parts, issues, count);
    if reported_label(issues, x.branch) {
        lemma_label_kept(issues, found, x.branch);
    } else if at == count - 1 {
        let all = issues + found;
        lemma_message_names(x);
        assert(found.last().message == unassigned_message(x));
        assert(all[all.len() - 1] == found.last());
        assert(names_from(all[all.len() - 1].message, x.branch, 0));
    } else {
        let before = unassigned_found(parts, issues, (count - 1) as nat);
        lemma_parts_named(parts, issues, at, (count - 1) as nat);
        let rest = found.skip(before.len() as int);
        assert(found =~= before + rest);
        lemma_label_kept(issues + before, rest, x.branch);
        assert(issues + before + rest =~= issues + found);
    }
}

proof fn lemma_nothing_unassigned(parts: Seq<UnassignedModel>, issues: Seq<IssueModel>, count: nat)
    requires
        count <= parts.len(),
        forall|k: int|
            0 <= k < parts.len() ==> reported_label(issues, (#[trigger] parts[k]).branch),
    ensures
        unassigned_found(parts, issues, count).len() == 0,
    decreases count,
{
    if count > 0 {
        lemma_nothing_unassigned(parts, issues, (count - 1) as nat);
        assert(reported_label(issues, parts[count - 1].branch));
    }
}

/// Every section that holds too much is reported once the issues about them are
/// there.
proof fn lemma_scopes_reported(
    sections: Seq<SectionPlan>,
    counts: Seq<(usize, usize)>,
    issues: Seq<IssueModel>,
    at: int,
    count: nat,
)
    requires
        0 <= at < count <= sections.len(),
        scope_open(sections[at], issues),
        counts_at(counts, at).1 > counts_at(counts, at).0,
    ensures
        reported_section(
            issues + scopes_found(sections, counts, issues, count),
            sections[at].id@,
        ),
    decreases count,
{
    let id = sections[at].id@;
    let found = scopes_found(sections, counts, issues, count);
    let all = issues + found;
    if at == count - 1 {
        let last = found.last();
        assert(last.section_ids =~= seq![id]);
        assert(last.section_ids[0] == id);
        assert(all[all.len() - 1] == last);
        assert(all[all.len() - 1].section_ids.contains(id));
    } else {
        let before = scopes_found(sections, counts, issues, (count - 1) as nat);
        lemma_scopes_reported(sections, counts, issues, at, (count - 1) as nat);
        let rest = found.skip(before.len() as int);
        assert(found =~= before + rest);
        lemma_section_kept(issues + before, rest, id);
        assert(issues + before + rest =~= all);
    }
}

proof fn lemma_no_more_scopes(
    sections: Seq<SectionPlan>,
    counts: Seq<(usize, usize)>,
    issues: Seq<IssueModel>,
    count: nat,
)
    requires
        count <= sections.len(),
        forall|k: int|
            0 <= k < sections.len() && counts_at(counts, k).1 > counts_at(counts, k).0
                ==> !scope_open(#[trigger] sections[k], issues),
    ensures
        scopes_found(sections, counts, issues, count).len() == 0,
    decreases count,
{
    if count > 0 {
        lemma_no_more_scopes(sections, counts, issues, (count - 1) as nat);
        assert(counts_at(counts, count - 1).1 > counts_at(counts, count - 1).0 ==> !scope_open(
            sections[count - 1],
            issues,
        ));
    }
}

/// Completing a review that was completed adds nothing: what was found is not
/// found again.
pub proof fn completed_reviews_stay(
    issues: Seq<IssueModel>,
    parts: Seq<UnassignedModel>,
    sections: Seq<SectionPlan>,
    counts: Seq<(usize, usize)>,
)
    requires
        forall|k: int| 0 <= k < parts.len() ==> is_branch_label((#[trigger] parts[k]).branch),
    ensures
        ({
            let all = completed(issues, parts, sections, counts);
            completed(all, parts, sections, counts) == all
        }),
{
    let first = issues + unassigned_found(parts, issues, parts.len());
    let scopes = scopes_found(sections, counts, first, sections.len());
    let all = first + scopes;
    assert forall|k: int| 0 <= k < parts.len() implies reported_label(
        all,
        (#[trigger] parts[k]).branch,
    ) by {
        lemma_parts_named(parts, issues, k, parts.len());
        lemma_label_kept(first, scopes, parts[k].branch);
    }
    lemma_nothing_unassigned(parts, all, parts.len());
    assert(all + unassigned_found(parts, all, parts.len()) =~= all);
    assert forall|k: int|
        0 <= k < sections.len() && counts_at(counts, k).1 > counts_at(
            counts,
            k,
        ).0 implies !scope_open(#[trigger] sections[k], all) by {
        if scope_open(sections[k], first) {
            lemma_scopes_reported(sections, counts, first, k, sections.len());
        } else if sections[k].branches@.len() > 0 {
            lemma_section_kept(first, scopes, sections[k].id@);
        }
    }
    lemma_no_more_scopes(sections, counts, all, sections.len());
    assert(all + scopes_found(sections, counts, all, sections.len()) =~= all);
}

/// The ids of a plan's sections.
pub open spec fn plan_ids(plan: Outline) -> Seq<Seq<char>> {
    plan.sections@.map_values(|s: SectionPlan| s.id@)
}

/// The positions of the sections whose id begins with this.
pub open spec fn sections_named(plan: Outline, wanted: Seq<char>) -> Seq<usize> {
    positions(
        |i: int| wanted.len() > 0 && starts_with(plan_ids(plan)[i], wanted),
        plan.sections@.len(),
    )
}

/// The full ids that the first `count` shortened ones name, where each names
/// exactly one section.
pub open spec fn full_ids(ids: Seq<Seq<char>>, plan: Outline, count: nat) -> Option<Seq<Seq<char>>>
    decreases count,
{
    if count == 0 {
        Some(Seq::empty())
    } else {
        let named = sections_named(plan, trim(ids[count - 1]));
        match full_ids(ids, plan, (count - 1) as nat) {
            Some(done) if named.len() == 1 => Some(done.push(plan_ids(plan)[named[0] as int])),
            _ => None,
        }
    }
}

proof fn lemma_full_ids_stop(ids: Seq<Seq<char>>, plan: Outline, count: nat, all: nat)
    requires
        count <= all,
    ensures
        full_ids(ids, plan, count) is None ==> full_ids(ids, plan, all) is None,
    decreases all - count,
{
    if count < all {
        lemma_full_ids_stop(ids, plan, count, (all - 1) as nat);
    }
}

/// Resolves section ids that were returned from a view that shortened them.
/// `None` when any names no section or more than one.
pub fn resolve_section_ids(ids: &Vec<String>, plan: &Outline) -> (r: Option<Vec<String>>)
    ensures
        match full_ids(texts(ids@), *plan, ids@.len()) {
            Some(full) => r is Some && texts(r->0@) == full,
            None => r is None,
        },
{
    let ghost given = texts(ids@);
    let mut full: Vec<String> = Vec::new();
    let mut at: usize = 0;
    assert(texts(full@) =~= Seq::empty());
    while at < ids.len()
        invariant
            at <= ids@.len(),
            given == texts(ids@),
            full_ids(given, *plan, at as nat) == Some(texts(full@)),
        decreases ids@.len() - at,
    {
        proof {
            lemma_full_ids_stop(given, *plan, (at + 1) as nat, given.len());
            assert(given[at as int] == ids@[at as int]@);
        }
        let wanted = trimmed(ids[at].as_str());
        let ghost keep = |i: int|
            wanted@.len() > 0 && starts_with(plan_ids(*plan)[i], wanted@);
        let mut matches: usize = 0;
        let mut last: usize = 0;
        let mut i: usize = 0;
        while i < plan.sections.len()
            invariant
                i <= plan.sections@.len(),
                keep == (|i: int| wanted@.len() > 0 && starts_with(plan_ids(*plan)[i], wanted@)),
                matches == positions(keep, i as nat).len(),
                matches <= i,
                matches > 0 ==> last == positions(keep, i as nat).last() && last < i,
            decreases plan.sections@.len() - i,
        {
            if !wanted.as_str().is_empty() && has_prefix(
                plan.sections[i].id.as_str(),
                wanted.as_str(),
            ) {
                matches += 1;
                last = i;
            }
            i += 1;
        }
        if matches != 1 {
            return None;
        }
        let id = plan.sections[last].id.clone();
        assert(texts(full@.push(id)) =~= texts(full@).push(id@));
        full.push(id);
        at += 1;
    }
    Some(full)
}

} // verus!
