//! What a coverage of a plan says: every branch and every part of the source is
//! covered, excluded or left unassigned, and nothing is passed over.

use vstd::prelude::*;

use crate::model::Outline;
use crate::order::{lemma_filter_none, lemma_filter_step};
use crate::planning::accounting::{
    account, account_branch, account_parts, covered_key, covers_part, excluded_key, excluded_models,
    is_coverage, judged_by_parts, reason_of, six_topics, unassigned_models, Coverage, ExcludedModel,
    Ledger, UnassignedModel,
};
use crate::planning::branches::{Branch, BranchView, Part};
use crate::planning::places::shared_dir;
use crate::planning::views::finding_topics;
use crate::text::texts;

verus! {

/// A section of the plan names a key among its branches.
pub open spec fn takes(plan: Outline, key: Seq<char>) -> bool {
    exists|s: int, i: int|
        0 <= s < plan.sections@.len() && 0 <= i < plan.sections@[s].branches@.len() && (
        #[trigger] plan.sections@[s].branches@[i])@ == key
}

/// The plan excludes a key for a reason: the one that its last exclusion of the
/// key gives.
pub open spec fn leaves_out(plan: Outline, key: Seq<char>, reason: Seq<char>) -> bool {
    exists|e: int|
        0 <= e < plan.excluded_branches@.len() && (
        #[trigger] plan.excluded_branches@[e]).branch@ == key && plan.excluded_branches@[e].reason@
            == reason && forall|later: int|
            e < later < plan.excluded_branches@.len() ==> (
            #[trigger] plan.excluded_branches@[later]).branch@ != key
}

/// No exclusion of the plan names a key.
pub open spec fn keeps_in(plan: Outline, key: Seq<char>) -> bool {
    forall|e: int|
        0 <= e < plan.excluded_branches@.len() ==> (
        #[trigger] plan.excluded_branches@[e]).branch@ != key
}

/// The plan speaks of a branch part by part: it does not name the branch, and
/// names or excludes one of its parts.
pub open spec fn divided(plan: Outline, branch: Branch) -> bool {
    !takes(plan, branch.key@) && exists|p: int|
        0 <= p < branch.parts@.len() && (takes(plan, (#[trigger] branch.parts@[p]).key@)
            || !keeps_in(plan, branch.parts@[p].key@))
}

proof fn lemma_takes(plan: Outline, key: Seq<char>)
    ensures
        covered_key(plan, key) == takes(plan, key),
{
    if covered_key(plan, key) {
        let s = choose|s: int|
            0 <= s < plan.sections@.len() && texts(
                (#[trigger] plan.sections@[s]).branches@,
            ).contains(key);
        let names = texts(plan.sections@[s].branches@);
        let i = choose|i: int| 0 <= i < names.len() && names[i] == key;
        assert(plan.sections@[s].branches@[i]@ == key);
    }
    if takes(plan, key) {
        let (s, i) = choose|s: int, i: int|
            0 <= s < plan.sections@.len() && 0 <= i < plan.sections@[s].branches@.len() && (
            #[trigger] plan.sections@[s].branches@[i])@ == key;
        assert(texts(plan.sections@[s].branches@)[i] == key);
        assert(texts(plan.sections@[s].branches@).contains(key));
    }
}

proof fn lemma_reason(plan: Outline, key: Seq<char>, count: nat)
    requires
        count <= plan.excluded_branches@.len(),
    ensures
        match reason_of(plan.excluded_branches@, key, count) {
            None => forall|e: int|
                0 <= e < count ==> (#[trigger] plan.excluded_branches@[e]).branch@ != key,
            Some(reason) => exists|e: int|
                0 <= e < count && (#[trigger] plan.excluded_branches@[e]).branch@ == key
                    && plan.excluded_branches@[e].reason@ == reason && forall|later: int|
                    e < later < count ==> (#[trigger] plan.excluded_branches@[later]).branch@
                        != key,
        },
    decreases count,
{
    let all = plan.excluded_branches@;
    if count > 0 {
        lemma_reason(plan, key, (count - 1) as nat);
        if all[count - 1].branch@ == key {
            assert(all[count - 1].reason@ == reason_of(all, key, count)->0);
        } else if reason_of(all, key, count) is Some {
            let e = choose|e: int|
                0 <= e < count - 1 && (#[trigger] all[e]).branch@ == key && all[e].reason@
                    == reason_of(all, key, count)->0 && forall|later: int|
                    e < later < count - 1 ==> (#[trigger] all[later]).branch@ != key;
            assert(all[e].branch@ == key);
        }
    }
}

proof fn lemma_leaves_out(plan: Outline, key: Seq<char>)
    ensures
        excluded_key(plan, key) is None <==> keeps_in(plan, key),
        excluded_key(plan, key) matches Some(reason) ==> leaves_out(plan, key, reason),
        forall|reason: Seq<char>| #[trigger]
            leaves_out(plan, key, reason) ==> excluded_key(plan, key) == Some(reason),
{
    let all = plan.excluded_branches@;
    lemma_reason(plan, key, all.len());
    assert forall|reason: Seq<char>| #[trigger] leaves_out(plan, key, reason) implies excluded_key(
        plan,
        key,
    ) == Some(reason) by {
        let e = choose|e: int|
            0 <= e < all.len() && (#[trigger] all[e]).branch@ == key && all[e].reason@ == reason
                && forall|later: int|
                e < later < all.len() ==> (#[trigger] all[later]).branch@ != key;
        assert(all[e].branch@ == key);
        let found = excluded_key(plan, key)->0;
        let f = choose|f: int|
            0 <= f < all.len() && (#[trigger] all[f]).branch@ == key && all[f].reason@ == found
                && forall|later: int|
                f < later < all.len() ==> (#[trigger] all[later]).branch@ != key;
        assert(all[f].branch@ == key);
        assert(e == f);
    }
}

proof fn lemma_divided(plan: Outline, branch: Branch)
    requires
        !takes(plan, branch.key@),
    ensures
        judged_by_parts(plan, branch.parts@) == divided(plan, branch),
        covers_part(plan, branch.parts@) == (exists|p: int|
            0 <= p < branch.parts@.len() && takes(plan, (#[trigger] branch.parts@[p]).key@)),
{
    assert forall|p: int| 0 <= p < branch.parts@.len() implies covered_key(
        plan,
        (#[trigger] branch.parts@[p]).key@,
    ) == takes(plan, branch.parts@[p].key@) && (excluded_key(
        plan,
        branch.parts@[p].key@,
    ) is None) == keeps_in(plan, branch.parts@[p].key@) by {
        lemma_takes(plan, branch.parts@[p].key@);
        lemma_leaves_out(plan, branch.parts@[p].key@);
    }
}

// ---------------------------------------------------------------------------
// What is listed
// ---------------------------------------------------------------------------

/// A part that no section names and no exclusion names.
pub open spec fn forgotten(plan: Outline) -> spec_fn(Part) -> bool {
    |p: Part| !takes(plan, p.key@) && keeps_in(plan, p.key@)
}

/// A part that an exclusion names and no section does.
pub open spec fn left_out(plan: Outline) -> spec_fn(Part) -> bool {
    |p: Part| !takes(plan, p.key@) && !keeps_in(plan, p.key@)
}

/// How a part that nobody took is listed.
pub open spec fn part_entry(branch: Branch) -> spec_fn(Part) -> UnassignedModel {
    |p: Part|
        UnassignedModel {
            branch: p.label@,
            place: shared_dir(texts(branch.files@), branch.files@.len()),
            file_count: p.files,
            topics: six_topics(texts(p.topics@)),
        }
}

/// How a part that is excluded is listed.
pub open spec fn part_exclusion(plan: Outline, branch: Branch) -> spec_fn(Part) -> ExcludedModel {
    |p: Part|
        ExcludedModel {
            branch: p.label@,
            place: shared_dir(texts(branch.files@), branch.files@.len()),
            reason: choose|reason: Seq<char>| leaves_out(plan, p.key@, reason),
        }
}

/// What a coverage lists of a branch as taken by nobody: all parts that nobody
/// speaks of where the plan goes part by part, or the branch where nobody speaks
/// of it at all.
pub open spec fn open_entries(plan: Outline) -> spec_fn(Branch) -> Seq<UnassignedModel> {
    |b: Branch|
        if takes(plan, b.key@) {
            Seq::empty()
        } else if divided(plan, b) {
            b.parts@.filter(forgotten(plan)).map_values(part_entry(b))
        } else if keeps_in(plan, b.key@) {
            seq![
                UnassignedModel {
                    branch: b.label@,
                    place: shared_dir(texts(b.files@), b.files@.len()),
                    file_count: b.files@.len() as usize,
                    topics: six_topics(finding_topics(b.findings@)),
                },
            ]
        } else {
            Seq::empty()
        }
}

/// What a coverage lists of a branch as excluded.
pub open spec fn excluded_entries(plan: Outline) -> spec_fn(Branch) -> Seq<ExcludedModel> {
    |b: Branch|
        if takes(plan, b.key@) {
            Seq::empty()
        } else if divided(plan, b) {
            b.parts@.filter(left_out(plan)).map_values(part_exclusion(plan, b))
        } else if keeps_in(plan, b.key@) {
            Seq::empty()
        } else {
            seq![
                ExcludedModel {
                    branch: b.label@,
                    place: shared_dir(texts(b.files@), b.files@.len()),
                    reason: choose|reason: Seq<char>| leaves_out(plan, b.key@, reason),
                },
            ]
        }
}

/// A section names a branch or one of its parts.
pub open spec fn explained(plan: Outline) -> spec_fn(Branch) -> bool {
    |b: Branch|
        takes(plan, b.key@) || exists|p: int|
            0 <= p < b.parts@.len() && takes(plan, (#[trigger] b.parts@[p]).key@)
}

proof fn lemma_parts(
    plan: Outline,
    branch: Branch,
    place: Seq<char>,
    ledger: Ledger,
    count: nat,
)
    requires
        count <= branch.parts@.len(),
        place == shared_dir(texts(branch.files@), branch.files@.len()),
    ensures
        ({
            let now = account_parts(plan, branch.parts@, place, ledger, count);
            let parts = branch.parts@.take(count as int);
            &&& now.covered == ledger.covered
            &&& now.unassigned == ledger.unassigned + parts.filter(forgotten(plan)).map_values(
                part_entry(branch),
            )
            &&& now.excluded == ledger.excluded + parts.filter(left_out(plan)).map_values(
                part_exclusion(plan, branch),
            )
        }),
    decreases count,
{
    let all = branch.parts@;
    lemma_filter_none(all, forgotten(plan));
    lemma_filter_none(all, left_out(plan));
    if count == 0 {
        assert(ledger.unassigned + Seq::<Part>::empty().map_values(part_entry(branch))
            =~= ledger.unassigned);
        assert(ledger.excluded + Seq::<Part>::empty().map_values(part_exclusion(plan, branch))
            =~= ledger.excluded);
    } else {
        let i = count - 1;
        lemma_parts(plan, branch, place, ledger, i as nat);
        lemma_filter_step(all, forgotten(plan), i);
        lemma_filter_step(all, left_out(plan), i);
        let key = all[i].key@;
        lemma_takes(plan, key);
        lemma_leaves_out(plan, key);
        let now = account_parts(plan, all, place, ledger, count);
        let open = all.take(i).filter(forgotten(plan));
        let out = all.take(i).filter(left_out(plan));
        assert(open.push(all[i]).map_values(part_entry(branch)) =~= open.map_values(
            part_entry(branch),
        ).push(part_entry(branch)(all[i])));
        assert(out.push(all[i]).map_values(part_exclusion(plan, branch)) =~= out.map_values(
            part_exclusion(plan, branch),
        ).push(part_exclusion(plan, branch)(all[i])));
        if !takes(plan, key) && !keeps_in(plan, key) {
            let reason = excluded_key(plan, key)->0;
            assert(leaves_out(plan, key, reason));
            let chosen = choose|reason: Seq<char>| leaves_out(plan, key, reason);
            assert(leaves_out(plan, key, chosen));
            assert(chosen == reason);
        }
        assert(now.unassigned =~= ledger.unassigned + all.take(count as int).filter(
            forgotten(plan),
        ).map_values(part_entry(branch)));
        assert(now.excluded =~= ledger.excluded + all.take(count as int).filter(
            left_out(plan),
        ).map_values(part_exclusion(plan, branch)));
    }
}

proof fn lemma_branch(plan: Outline, branch: Branch, ledger: Ledger)
    ensures
        ({
            let now = account_branch(plan, branch, ledger);
            &&& now.unassigned == ledger.unassigned + open_entries(plan)(branch)
            &&& now.excluded == ledger.excluded + excluded_entries(plan)(branch)
            &&& now.covered == ledger.covered + if explained(plan)(branch) {
                1nat
            } else {
                0nat
            }
        }),
{
    let place = shared_dir(texts(branch.files@), branch.files@.len());
    let counted = Ledger { covered: ledger.covered + 1, ..ledger };
    let now = account_branch(plan, branch, ledger);
    let key = branch.key@;
    lemma_takes(plan, key);
    lemma_leaves_out(plan, key);
    if !takes(plan, key) {
        lemma_divided(plan, branch);
        lemma_parts(plan, branch, place, ledger, branch.parts@.len());
        lemma_parts(plan, branch, place, counted, branch.parts@.len());
        assert(branch.parts@.take(branch.parts@.len() as int) =~= branch.parts@);
        if !divided(plan, branch) && !keeps_in(plan, key) {
            let reason = excluded_key(plan, key)->0;
            assert(leaves_out(plan, key, reason));
            let chosen = choose|reason: Seq<char>| leaves_out(plan, key, reason);
            assert(leaves_out(plan, key, chosen));
            assert(chosen == reason);
        }
    }
    assert(now.unassigned =~= ledger.unassigned + open_entries(plan)(branch));
    assert(now.excluded =~= ledger.excluded + excluded_entries(plan)(branch));
}

proof fn lemma_account(plan: Outline, branches: Seq<Branch>, count: nat)
    requires
        count <= branches.len(),
    ensures
        ({
            let now = account(plan, branches, count);
            let seen = branches.take(count as int);
            &&& now.unassigned == seen.flat_map(open_entries(plan))
            &&& now.excluded == seen.flat_map(excluded_entries(plan))
            &&& now.covered == seen.filter(explained(plan)).len()
        }),
    decreases count,
{
    lemma_filter_none(branches, explained(plan));
    if count == 0 {
        assert(branches.take(0) =~= Seq::empty());
        assert(Seq::<Branch>::empty().map_values(open_entries(plan)) =~= Seq::empty());
        assert(Seq::<Branch>::empty().map_values(excluded_entries(plan)) =~= Seq::empty());
    } else {
        let i = count - 1;
        lemma_account(plan, branches, i as nat);
        lemma_branch(plan, branches[i], account(plan, branches, i as nat));
        branches.lemma_flat_map_take_append(open_entries(plan), i);
        branches.lemma_flat_map_take_append(excluded_entries(plan), i);
        lemma_filter_step(branches, explained(plan), i);
    }
}

/// A coverage accounts for the whole source, in its order: it counts the
/// branches that a section explains, whole or in part, and lists everything that
/// nobody took and everything that is excluded, with the reason.
pub proof fn everything_is_accounted_for(plan: Outline, view: BranchView, c: Coverage)
    requires
        is_coverage(plan, view, c),
    ensures
        c.branches == view.branches@.len(),
        c.covered == view.branches@.filter(explained(plan)).len(),
        unassigned_models(c.unassigned@) == view.branches@.flat_map(open_entries(plan)),
        excluded_models(c.excluded@) == view.branches@.flat_map(excluded_entries(plan)),
{
    lemma_account(plan, view.branches@, view.branches@.len());
    assert(view.branches@.take(view.branches@.len() as int) =~= view.branches@);
}

proof fn lemma_in_flat_map<A, B>(s: Seq<A>, f: spec_fn(A) -> Seq<B>, i: int, x: B)
    requires
        0 <= i < s.len(),
        f(s[i]).contains(x),
    ensures
        s.flat_map(f).contains(x),
    decreases s.len(),
{
    let n = s.len() - 1;
    s.lemma_flat_map_take_append(f, n);
    assert(s.take(n + 1) =~= s);
    let head = s.take(n).flat_map(f);
    if i == n {
        let last = f(s[n]);
        let k = choose|k: int| 0 <= k < last.len() && last[k] == x;
        assert((head + last)[head.len() + k] == x);
    } else {
        lemma_in_flat_map(s.take(n), f, i, x);
        let k = choose|k: int| 0 <= k < head.len() && head[k] == x;
        assert((head + f(s[n]))[k] == x);
    }
}

/// Where the plan speaks of some part of a branch and not of the branch, every
/// part that it does not speak of is listed as unassigned, with what it holds.
pub proof fn parts_nobody_took_are_listed(
    plan: Outline,
    view: BranchView,
    c: Coverage,
    b: int,
    p: int,
)
    requires
        is_coverage(plan, view, c),
        0 <= b < view.branches@.len(),
        divided(plan, view.branches@[b]),
        0 <= p < view.branches@[b].parts@.len(),
        !takes(plan, view.branches@[b].parts@[p].key@),
        keeps_in(plan, view.branches@[b].parts@[p].key@),
    ensures
        exists|u: int|
            0 <= u < c.unassigned@.len() && (#[trigger] c.unassigned@[u]).branch@
                == view.branches@[b].parts@[p].label@ && c.unassigned@[u].file_count
                == view.branches@[b].parts@[p].files,
{
    everything_is_accounted_for(plan, view, c);
    let branch = view.branches@[b];
    let part = branch.parts@[p];
    let entries = open_entries(plan)(branch);
    let kept = branch.parts@.filter(forgotten(plan));
    branch.parts@.lemma_filter_contains(forgotten(plan), p);
    let k = choose|k: int| 0 <= k < kept.len() && kept[k] == part;
    let entry = part_entry(branch)(part);
    assert(entries[k] == entry);
    lemma_in_flat_map(view.branches@, open_entries(plan), b, entry);
    let all = unassigned_models(c.unassigned@);
    let u = choose|u: int| 0 <= u < all.len() && all[u] == entry;
    assert(c.unassigned@[u]@ == entry);
}

/// Where the plan speaks of a branch part by part, every part that it excludes
/// and no section names is listed as excluded, with the reason.
pub proof fn excluded_parts_are_listed(
    plan: Outline,
    view: BranchView,
    c: Coverage,
    b: int,
    p: int,
    reason: Seq<char>,
)
    requires
        is_coverage(plan, view, c),
        0 <= b < view.branches@.len(),
        !takes(plan, view.branches@[b].key@),
        0 <= p < view.branches@[b].parts@.len(),
        !takes(plan, view.branches@[b].parts@[p].key@),
        leaves_out(plan, view.branches@[b].parts@[p].key@, reason),
    ensures
        exists|x: int|
            0 <= x < c.excluded@.len() && (#[trigger] c.excluded@[x]).branch@
                == view.branches@[b].parts@[p].label@ && c.excluded@[x].reason@ == reason,
{
    everything_is_accounted_for(plan, view, c);
    let branch = view.branches@[b];
    let part = branch.parts@[p];
    lemma_leaves_out(plan, part.key@);
    assert(!keeps_in(plan, part.key@));
    assert(divided(plan, branch));
    let entries = excluded_entries(plan)(branch);
    let kept = branch.parts@.filter(left_out(plan));
    branch.parts@.lemma_filter_contains(left_out(plan), p);
    let k = choose|k: int| 0 <= k < kept.len() && kept[k] == part;
    let entry = part_exclusion(plan, branch)(part);
    assert(entries[k] == entry);
    let chosen = choose|reason: Seq<char>| leaves_out(plan, part.key@, reason);
    assert(leaves_out(plan, part.key@, chosen));
    assert(chosen == reason);
    lemma_in_flat_map(view.branches@, excluded_entries(plan), b, entry);
    let all = excluded_models(c.excluded@);
    let x = choose|x: int| 0 <= x < all.len() && all[x] == entry;
    assert(c.excluded@[x]@ == entry);
}

} // verus!
