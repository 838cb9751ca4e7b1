//! How work is divided: the level that a planner sees, the chapters that take
//! the branches, the diagrams that go round, and the passages that are opened.

use vstd::prelude::*;

use super::lists::upto;
use crate::editorial::has_id;
use crate::leaves::{first_with_id, gathered, opened_passage, CitedModel, OpenedLeaf};
use crate::model::{BranchExclusion, Evidence};
use crate::order::{lemma_filter_none, lemma_filter_step};
use crate::planning::branches::{BranchView, MAX_CHAPTERS};
use crate::planning::chapters::{claim, claim_chapters, exclude, group_owner, ChapterDraft, Claims};
use crate::planning::levels::{
    group_label, group_level, groups_under, members_under, node_topics, parent_in, settle_level,
    stands_above, GroupModel,
};
use crate::planning::shares::hand_out;
use crate::planning::tree::TreeIndex;
use crate::text::{bounded, last_index, lemma_last_index, texts, trim};

verus! {

// ---------------------------------------------------------------------------
// Levels
// ---------------------------------------------------------------------------

/// Going down from a level is worth it: it is too narrow, and the next one does
/// not overshoot by more than this one falls short.
pub open spec fn worth_descending(widths: Seq<nat>, target: nat, at: int) -> bool {
    &&& at + 1 < widths.len()
    &&& widths[at] < target
    &&& widths[at + 1] <= target || widths[at + 1] - target <= target - widths[at]
}

/// A planner sees the first level from which going down is not worth it.
pub proof fn planners_see_the_best_level(widths: Seq<nat>, target: nat, from: nat)
    ensures
        settle_level(widths, target, from) >= from,
        forall|at: int|
            from <= at < settle_level(widths, target, from) ==> #[trigger] worth_descending(
                widths,
                target,
                at,
            ),
        !worth_descending(widths, target, settle_level(widths, target, from) as int),
    decreases widths.len() - from,
{
    if worth_descending(widths, target, from as int) {
        planners_see_the_best_level(widths, target, from + 1);
    }
}

/// Chapters are planned from the deepest level that is narrow enough.
pub proof fn chapters_come_from_the_deepest_level(widths: Seq<nat>, count: nat)
    requires
        count <= widths.len(),
    ensures
        match group_level(widths, count) {
            Some(at) => {
                &&& 0 <= at < count
                &&& 2 <= widths[at] <= MAX_CHAPTERS
                &&& forall|k: int|
                    at < k < count ==> !(2 <= #[trigger] widths[k] <= MAX_CHAPTERS)
            },
            None => forall|k: int| 0 <= k < count ==> !(2 <= #[trigger] widths[k] <= MAX_CHAPTERS),
        },
    decreases count,
{
    if count > 0 {
        chapters_come_from_the_deepest_level(widths, (count - 1) as nat);
    }
}

// ---------------------------------------------------------------------------
// Chapters
// ---------------------------------------------------------------------------

/// One of some labels names the item at a position.
pub open spec fn names_item(
    names: Seq<Seq<char>>,
    labels: Seq<Seq<char>>,
    i: int,
    from: int,
) -> bool {
    exists|k: int|
        from <= k < labels.len() && last_index(names, trim(#[trigger] labels[k])) == Some(
            i as usize,
        )
}


proof fn lemma_claim(
    owners: Seq<Option<usize>>,
    names: Seq<Seq<char>>,
    labels: Seq<Seq<char>>,
    chapter: usize,
    from: nat,
)
    requires
        from <= labels.len(),
        names.len() == owners.len() <= usize::MAX,
    ensures
        claim(owners, names, labels, chapter, from) matches Ok(r) ==> {
            &&& r.len() == owners.len()
            &&& forall|i: int|
                0 <= i < owners.len() ==> #[trigger] r[i] == (if names_item(
                    names,
                    labels,
                    i,
                    from as int,
                ) {
                    Some(chapter)
                } else {
                    owners[i]
                })
            &&& forall|i: int|
                0 <= i < owners.len() && names_item(names, labels, i, from as int) ==> #[trigger]
                owners[i] is None || owners[i] == Some(chapter)
        },
    decreases labels.len() - from,
{
    if from < labels.len() {
        let name = trim(labels[from as int]);
        lemma_last_index(names, name);
        if let Some(at) = last_index(names, name) {
            let next = owners.update(at as int, Some(chapter));
            lemma_claim(next, names, labels, chapter, from + 1);
            if let Ok(r) = claim(owners, names, labels, chapter, from) {
                assert forall|i: int| 0 <= i < owners.len() implies names_item(
                    names,
                    labels,
                    i,
                    from as int,
                ) == (i == at || #[trigger] names_item(names, labels, i, from as int + 1)) by {
                    if i == at {
                        assert(last_index(names, trim(labels[from as int])) == Some(i as usize));
                    }
                    if names_item(names, labels, i, from as int + 1) {
                        let k = choose|k: int|
                            from as int + 1 <= k < labels.len() && last_index(
                                names,
                                trim(#[trigger] labels[k]),
                            ) == Some(i as usize);
                        assert(from <= k < labels.len() && last_index(names, trim(labels[k]))
                            == Some(i as usize));
                    }
                }
                assert forall|i: int| 0 <= i < owners.len() implies #[trigger] r[i] == (
                if names_item(names, labels, i, from as int) {
                    Some(chapter)
                } else {
                    owners[i]
                }) by {
                    assert(names_item(names, labels, i, from as int) == (i == at || names_item(
                        names,
                        labels,
                        i,
                        from as int + 1,
                    )));
                    assert(next[i] == if i == at {
                        Some(chapter)
                    } else {
                        owners[i]
                    });
                }
                assert forall|i: int|
                    0 <= i < owners.len() && names_item(
                        names,
                        labels,
                        i,
                        from as int,
                    ) implies #[trigger] owners[i] is None || owners[i] == Some(chapter) by {
                    assert(names_item(names, labels, i, from as int) == (i == at || names_item(
                        names,
                        labels,
                        i,
                        from as int + 1,
                    )));
                    if i != at {
                        assert(next[i] == owners[i]);
                    }
                }
            }
        }
    }
}

/// A chapter names a branch on its own.
pub open spec fn names_branch(
    view: BranchView,
    chapters: Seq<ChapterDraft>,
    c: int,
    b: int,
) -> bool {
    names_item(view.branch_labels(), texts(chapters[c].branches@), b, 0)
}

/// A chapter takes a group.
pub open spec fn takes_group(
    view: BranchView,
    chapters: Seq<ChapterDraft>,
    c: int,
    g: int,
) -> bool {
    names_item(view.group_labels(), texts(chapters[c].groups@), g, 0)
}

/// Where a division is accepted, a branch or a group belongs to the one chapter
/// that names it, and to none where no chapter does.
pub proof fn chapters_get_what_they_name(
    view: BranchView,
    chapters: Seq<ChapterDraft>,
    count: nat,
)
    requires
        count <= chapters.len() <= usize::MAX,
        view.branch_labels().len() == view.branches@.len() <= usize::MAX,
        view.group_labels().len() == view.groups@.len() <= usize::MAX,
    ensures
        claim_chapters(view, chapters, count) matches Ok(claims) ==> {
            &&& claims.branches.len() == view.branches@.len()
            &&& claims.groups.len() == view.groups@.len()
            &&& forall|c: int, b: int|
                0 <= c < count && 0 <= b < view.branches@.len() ==> (claims.branches[b] == Some(
                    c as usize,
                ) <==> #[trigger] names_branch(view, chapters, c, b))
            &&& forall|b: int|
                0 <= b < view.branches@.len() && #[trigger] claims.branches[b] is Some
                    ==> claims.branches[b]->0 < count
            &&& forall|c: int, g: int|
                0 <= c < count && 0 <= g < view.groups@.len() ==> (claims.groups[g] == Some(
                    c as usize,
                ) <==> #[trigger] takes_group(view, chapters, c, g))
            &&& forall|g: int|
                0 <= g < view.groups@.len() && #[trigger] claims.groups[g] is Some
                    ==> claims.groups[g]->0 < count
        },
    decreases count,
{
    if count > 0 {
        let n = count - 1;
        chapters_get_what_they_name(view, chapters, n as nat);
        if let Ok(was) = claim_chapters(view, chapters, n as nat) {
            lemma_claim(
                was.branches,
                view.branch_labels(),
                texts(chapters[n].branches@),
                n as usize,
                0,
            );
            lemma_claim(
                was.groups,
                view.group_labels(),
                texts(chapters[n].groups@),
                n as usize,
                0,
            );
            if let Ok(claims) = claim_chapters(view, chapters, count) {
                assert forall|c: int, b: int|
                    0 <= c < count && 0 <= b < view.branches@.len() implies (claims.branches[b]
                    == Some(c as usize) <==> #[trigger] names_branch(view, chapters, c, b)) by {
                    assert(was.branches[b] is Some || was.branches[b] is None);
                    assert(names_branch(view, chapters, n, b) || claims.branches[b]
                        == was.branches[b]);
                }
                assert forall|c: int, g: int|
                    0 <= c < count && 0 <= g < view.groups@.len() implies (claims.groups[g] == Some(
                    c as usize,
                ) <==> #[trigger] takes_group(view, chapters, c, g)) by {
                    assert(was.groups[g] is Some || was.groups[g] is None);
                    assert(takes_group(view, chapters, n, g) || claims.groups[g] == was.groups[g]);
                }
            }
        }
    }
}

/// A branch comes in by a group just where some group that was taken holds it.
pub proof fn groups_bring_their_branches_in(
    view: BranchView,
    groups: Seq<Option<usize>>,
    branch: usize,
    count: nat,
)
    requires
        count <= groups.len(),
        groups.len() == view.groups@.len(),
    ensures
        group_owner(view, groups, branch, count) is None <==> forall|g: int|
            0 <= g < count && #[trigger] groups[g] is Some
                ==> !view.groups@[g].members@.contains(branch),
        group_owner(view, groups, branch, count) matches Some(c) ==> exists|g: int|
            0 <= g < count && #[trigger] groups[g] == Some(c)
                && view.groups@[g].members@.contains(branch),
    decreases count,
{
    if count > 0 {
        groups_bring_their_branches_in(view, groups, branch, (count - 1) as nat);
        assert(groups[count - 1] == groups[count - 1]);
    }
}

/// An exclusion names a branch: by its label, or by that of a group that holds it.
pub open spec fn leaves_out(
    view: BranchView,
    exclusions: Seq<BranchExclusion>,
    x: int,
    b: int,
) -> bool {
    let label = trim(exclusions[x].branch@);
    match last_index(view.branch_labels(), label) {
        Some(i) => i == b,
        None => last_index(view.group_labels(), label) matches Some(g) && view.groups@[g as int].members@.contains(
            b as usize,
        ),
    }
}

/// Where exclusions are accepted, a branch is left out by the last exclusion that
/// names it, and stays where none does. Each gives a reason, and none names a
/// branch that a chapter names.
pub proof fn exclusions_leave_out_what_they_name(
    view: BranchView,
    claims: Claims,
    exclusions: Seq<BranchExclusion>,
    count: nat,
)
    requires
        count <= exclusions.len() <= usize::MAX,
        view.branch_labels().len() == view.branches@.len() <= usize::MAX,
    ensures
        exclude(view, claims, exclusions, count) matches Ok(excluded) ==> {
            &&& excluded.len() == view.branches@.len()
            &&& forall|b: int|
                0 <= b < excluded.len() ==> match #[trigger] excluded[b] {
                    Some(x) => x < count && leaves_out(view, exclusions, x as int, b) && forall|
                        y: int,
                    |
                        x < y < count ==> !(#[trigger] leaves_out(view, exclusions, y, b)),
                    None => forall|y: int|
                        0 <= y < count ==> !(#[trigger] leaves_out(view, exclusions, y, b)),
                }
            &&& forall|x: int|
                0 <= x < count ==> bounded((#[trigger] exclusions[x]).reason@, 1500) && (last_index(
                    view.branch_labels(),
                    trim(exclusions[x].branch@),
                ) matches Some(i) ==> claims.branches[i as int] is None)
        },
    decreases count,
{
    if count > 0 {
        let n = count - 1;
        exclusions_leave_out_what_they_name(view, claims, exclusions, n as nat);
        if let Ok(now) = exclude(view, claims, exclusions, count) {
            let was = exclude(view, claims, exclusions, n as nat)->Ok_0;
            let label = trim(exclusions[n].branch@);
            lemma_last_index(view.branch_labels(), label);
            assert forall|b: int| 0 <= b < now.len() implies match #[trigger] now[b] {
                Some(x) => x < count && leaves_out(view, exclusions, x as int, b) && forall|y: int|
                    x < y < count ==> !(#[trigger] leaves_out(view, exclusions, y, b)),
                None => forall|y: int|
                    0 <= y < count ==> !(#[trigger] leaves_out(view, exclusions, y, b)),
            } by {
                assert(was[b] is Some || was[b] is None);
                if leaves_out(view, exclusions, n, b) {
                    assert(now[b] == Some(n as usize));
                } else {
                    assert(now[b] == was[b]);
                }
            }
        }
    }
}

/// The node at a position of the level of groups has branches under it.
pub open spec fn has_branches(
    tree: TreeIndex,
    levels: Seq<Vec<String>>,
    chosen: int,
    above: int,
    keys: Seq<Seq<char>>,
) -> spec_fn(int) -> bool {
    |g: int| members_under(tree, levels, chosen, above, keys, levels[above]@[g]@).len() > 0
}

/// The group at a position.
pub open spec fn group_at(
    tree: TreeIndex,
    levels: Seq<Vec<String>>,
    chosen: int,
    above: int,
    keys: Seq<Seq<char>>,
) -> spec_fn(int) -> GroupModel {
    |g: int|
        GroupModel {
            label: group_label(g as nat),
            topics: node_topics(tree, levels[above]@[g]@),
            members: members_under(tree, levels, chosen, above, keys, levels[above]@[g]@),
        }
}

/// Every node of the level of groups that has branches under it is a group.
pub proof fn nodes_with_branches_are_groups(
    tree: TreeIndex,
    levels: Seq<Vec<String>>,
    chosen: int,
    above: int,
    keys: Seq<Seq<char>>,
    count: nat,
)
    ensures
        groups_under(tree, levels, chosen, above, keys, count) == upto(count).filter(
            has_branches(tree, levels, chosen, above, keys),
        ).map_values(group_at(tree, levels, chosen, above, keys)),
    decreases count,
{
    let keep = has_branches(tree, levels, chosen, above, keys);
    let f = group_at(tree, levels, chosen, above, keys);
    let all = upto(count);
    lemma_filter_none(all, keep);
    if count == 0 {
        assert(all =~= all.take(0));
        assert(Seq::<int>::empty().map_values(f) =~= Seq::empty());
    } else {
        let n = count - 1;
        nodes_with_branches_are_groups(tree, levels, chosen, above, keys, n as nat);
        lemma_filter_step(all, keep, n);
        assert(all.take(n) =~= upto(n as nat));
        assert(all.take(n + 1) =~= all);
        let before = upto(n as nat).filter(keep);
        assert(before.push(n).map_values(f) =~= before.map_values(f).push(f(n)));
    }
}

/// A node stands above a key where the level has one that does, and it is the
/// last of those; a key with none above it stands for itself.
pub proof fn keys_hang_under_their_parents(
    tree: TreeIndex,
    level: Seq<Seq<char>>,
    key: Seq<char>,
    count: nat,
)
    requires
        count <= level.len(),
    ensures
        ({
            let up = parent_in(tree, level, key, count);
            ||| exists|k: int|
                0 <= k < count && up == #[trigger] level[k] && stands_above(tree, level[k], key)
                    && forall|j: int| k < j < count ==> !stands_above(tree, #[trigger] level[j], key)
            ||| up == key && forall|j: int|
                0 <= j < count ==> !stands_above(tree, #[trigger] level[j], key)
        }),
    decreases count,
{
    if count > 0 {
        keys_hang_under_their_parents(tree, level, key, (count - 1) as nat);
        if stands_above(tree, level[count - 1], key) {
            assert(level[count - 1] == parent_in(tree, level, key, count));
        }
    }
}

// ---------------------------------------------------------------------------
// Shares
// ---------------------------------------------------------------------------

/// A turn falls to a place of a round.
pub open spec fn falls_to(round: nat, k: int) -> spec_fn(int) -> bool {
    |turn: int| turn % round as int == k
}

/// What is handed out goes round: each place of the order gets one for every turn
/// that falls to it.
pub proof fn what_is_left_goes_round(shares: Seq<nat>, order: Seq<usize>, count: nat, k: int)
    requires
        0 <= k < order.len(),
        order.no_duplicates(),
        forall|j: int| 0 <= j < order.len() ==> (#[trigger] order[j]) < shares.len(),
    ensures
        hand_out(shares, order, count).len() == shares.len(),
        hand_out(shares, order, count)[order[k] as int] == shares[order[k] as int] + upto(
            count,
        ).filter(falls_to(order.len(), k)).len(),
    decreases count,
{
    let keep = falls_to(order.len(), k);
    lemma_filter_none(upto(count), keep);
    if count == 0 {
        assert(upto(0) =~= upto(0).take(0));
    } else {
        let n = count - 1;
        what_is_left_goes_round(shares, order, n as nat, k);
        lemma_filter_step(upto(count), keep, n);
        assert(upto(count).take(n) =~= upto(n as nat));
        assert(upto(count).take(n + 1) =~= upto(count));
        let at = n % order.len() as int;
        assert(0 <= at < order.len());
        assert(upto(count)[n] == n);
        if at != k {
            assert(order[at] != order[k]);
        }
    }
}

// ---------------------------------------------------------------------------
// Passages
// ---------------------------------------------------------------------------

/// A passage is the one that a citation stands for: the first with its id in the
/// first opened leaf with its key.
pub open spec fn stands_for(
    opened: Seq<OpenedLeaf>,
    leaf: Seq<char>,
    id: Seq<char>,
    l: int,
    p: int,
) -> bool {
    &&& 0 <= l < opened.len()
    &&& opened[l].key@ == leaf
    &&& forall|j: int| 0 <= j < l ==> (#[trigger] opened[j]).key@ != leaf
    &&& 0 <= p < opened[l].passages@.len()
    &&& opened[l].passages@[p].id@ == id
    &&& forall|j: int| 0 <= j < p ==> (#[trigger] opened[l].passages@[j]).id@ != id
}

proof fn lemma_first_with_id(list: Seq<Evidence>, id: Seq<char>, p: int, from: nat)
    requires
        from <= p < list.len(),
        list[p].id@ == id,
        forall|j: int| 0 <= j < p ==> (#[trigger] list[j]).id@ != id,
    ensures
        first_with_id(list, id, from) == Some(list[p]),
    decreases list.len() - from,
{
    if from < p {
        assert(list[from as int].id@ != id);
        lemma_first_with_id(list, id, p, from + 1);
    }
}

proof fn lemma_opened_passage(
    opened: Seq<OpenedLeaf>,
    leaf: Seq<char>,
    id: Seq<char>,
    l: int,
    p: int,
    from: nat,
)
    requires
        stands_for(opened, leaf, id, l, p),
        from <= l,
    ensures
        opened_passage(opened, leaf, id, from) == Some(opened[l].passages@[p]),
    decreases opened.len() - from,
{
    if from < l {
        assert(opened[from as int].key@ != leaf);
        lemma_opened_passage(opened, leaf, id, l, p, from + 1);
    } else {
        lemma_first_with_id(opened[l].passages@, id, p, 0);
    }
}

/// The passage that a citation stands for is gathered, once for its id.
pub proof fn cited_passages_are_gathered(
    cited: Seq<CitedModel>,
    opened: Seq<OpenedLeaf>,
    count: nat,
)
    requires
        count <= cited.len(),
    ensures
        forall|c: int, l: int, p: int|
            0 <= c < count && #[trigger] stands_for(opened, cited[c].leaf, cited[c].id, l, p)
                ==> has_id(gathered(cited, opened, count), cited[c].id),
        forall|i: int, j: int|
            0 <= i < j < gathered(cited, opened, count).len() ==> (#[trigger] gathered(
                cited,
                opened,
                count,
            )[i]).id@ != (#[trigger] gathered(cited, opened, count)[j]).id@,
    decreases count,
{
    if count > 0 {
        let n = count - 1;
        cited_passages_are_gathered(cited, opened, n as nat);
        let was = gathered(cited, opened, n as nat);
        let now = gathered(cited, opened, count);
        assert forall|c: int, l: int, p: int|
            0 <= c < count && #[trigger] stands_for(
                opened,
                cited[c].leaf,
                cited[c].id,
                l,
                p,
            ) implies has_id(now, cited[c].id) by {
            if c < n {
                assert(has_id(was, cited[c].id));
                let k = choose|k: int| 0 <= k < was.len() && (#[trigger] was[k]).id@ == cited[c].id;
                assert(now[k].id@ == cited[c].id);
            } else {
                lemma_opened_passage(opened, cited[c].leaf, cited[c].id, l, p, 0);
                let e = opened[l].passages@[p];
                if has_id(was, e.id@) {
                    assert(now == was);
                } else {
                    assert(now[was.len() as int].id@ == cited[c].id);
                }
            }
        }
        assert forall|i: int, j: int| 0 <= i < j < now.len() implies (#[trigger] now[i]).id@ != (
        #[trigger] now[j]).id@ by {
            if j == was.len() {
                assert(now[i] == was[i]);
            }
        }
    }
}

} // verus!
