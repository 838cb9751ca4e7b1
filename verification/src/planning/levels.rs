//! Which level of the reading tree a planner is shown, and how its branches are
//! grouped.

use vstd::prelude::*;
use vstd::string::StringExecFns;

use crate::findings::{finding_models, Finding};
use crate::order::{lemma_positions, positions};
use crate::planning::branches::{
    Branch, BranchView, Group, Part, CHAPTER_BRANCHES, MAX_CHAPTERS,
};
use crate::planning::tree::{covered_files, shows_files, whole_under, TreeIndex};
use crate::text::{decimal, list_has, number, same, texts};

verus! {

/// The widest level of the reading tree that a planner is shown as branches.
pub const BRANCHES_MAX: usize = 256;

/// How many branches a planner should be shown: a quarter of the leaves, within
/// bounds.
pub open spec fn target_branches(leaves: nat) -> nat {
    if leaves / 4 < 8 {
        8
    } else if leaves / 4 > BRANCHES_MAX {
        BRANCHES_MAX as nat
    } else {
        leaves / 4
    }
}

/// How many branches a planner should be shown.
pub fn branch_target(leaves: usize) -> (r: usize)
    ensures
        r == target_branches(leaves as nat),
        8 <= r <= BRANCHES_MAX,
{
    let quarter: usize = leaves / 4;
    if quarter < 8 {
        8
    } else if quarter > BRANCHES_MAX {
        BRANCHES_MAX
    } else {
        quarter
    }
}

/// More leaves never lower the number of branches.
pub proof fn more_leaves_never_lower_the_target(fewer: nat, more: nat)
    requires
        fewer <= more,
    ensures
        target_branches(fewer) <= target_branches(more),
{
}

/// Descending from `here` to `next` does not overshoot `target` by more than
/// staying falls short of it.
pub open spec fn closer(here: nat, next: nat, target: nat) -> bool {
    next <= target || next - target <= (if here < target {
        target - here
    } else {
        0
    })
}

/// Whether descending from `here` to `next` lands closer to `target`.
pub fn closer_level(here: usize, next: usize, target: usize) -> (r: bool)
    ensures
        r == closer(here as nat, next as nat, target as nat),
{
    next <= target || next - target <= (if here < target {
        target - here
    } else {
        0
    })
}

/// How wide the levels are.
pub open spec fn widths(levels: Seq<Vec<String>>) -> Seq<nat> {
    levels.map_values(|l: Vec<String>| l@.len())
}

/// The level at which descending from level `at` ends.
pub open spec fn settle_level(widths: Seq<nat>, target: nat, at: nat) -> nat
    decreases widths.len() - at,
{
    if at + 1 < widths.len() && widths[at as int] < target && closer(
        widths[at as int],
        widths[at as int + 1],
        target,
    ) {
        settle_level(widths, target, at + 1)
    } else {
        at
    }
}

/// The level that a planner is shown, where it has at least two nodes.
pub open spec fn shown_level(widths: Seq<nat>, target: nat) -> Option<usize> {
    let at = settle_level(widths, target, 0);
    if at < widths.len() && widths[at as int] >= 2 {
        Some(at as usize)
    } else {
        None
    }
}

/// The position of the level that a planner is shown, or `None` when no level
/// has at least two nodes.
pub fn branch_level(levels: &Vec<Vec<String>>, target: usize) -> (r: Option<usize>)
    ensures
        r == shown_level(widths(levels@), target as nat),
        r matches Some(i) ==> i < levels@.len(),
{
    let ghost ws = widths(levels@);
    let mut chosen: usize = 0;
    while chosen < levels.len() && chosen + 1 < levels.len() && levels[chosen].len() < target
        && closer_level(levels[chosen].len(), levels[chosen + 1].len(), target)
        invariant
            chosen <= levels@.len(),
            ws == widths(levels@),
            settle_level(ws, target as nat, chosen as nat) == settle_level(ws, target as nat, 0),
        decreases levels@.len() - chosen,
    {
        chosen += 1;
    }
    if chosen < levels.len() && levels[chosen].len() >= 2 {
        Some(chosen)
    } else {
        None
    }
}

// ---------------------------------------------------------------------------
// Groups
// ---------------------------------------------------------------------------

/// A node of a level stands above a key of the next one: the key is one of its
/// children, or it has none and passed through.
pub open spec fn stands_above(tree: TreeIndex, node: Seq<char>, key: Seq<char>) -> bool {
    match tree.node(node) {
        Some(n) if n.children@.len() > 0 => texts(n.children@).contains(key),
        _ => node == key,
    }
}

/// The last of the first `count` nodes of a level that stands above a key, and
/// the key itself where none does.
pub open spec fn parent_in(
    tree: TreeIndex,
    level: Seq<Seq<char>>,
    key: Seq<char>,
    count: nat,
) -> Seq<char>
    decreases count,
{
    if count == 0 {
        key
    } else if stands_above(tree, level[count - 1], key) {
        level[count - 1]
    } else {
        parent_in(tree, level, key, (count - 1) as nat)
    }
}

/// What stands above a key `steps` levels higher than the level `at`.
pub open spec fn ancestor(
    tree: TreeIndex,
    levels: Seq<Vec<String>>,
    at: int,
    steps: nat,
    key: Seq<char>,
) -> Seq<char>
    decreases steps,
{
    if steps == 0 {
        key
    } else {
        let level = texts(levels[at - 1]@);
        ancestor(
            tree,
            levels,
            at - 1,
            (steps - 1) as nat,
            parent_in(tree, level, key, level.len()),
        )
    }
}

/// The deepest of the first `count` levels that is narrow enough to plan
/// chapters from.
pub open spec fn group_level(widths: Seq<nat>, count: nat) -> Option<int>
    decreases count,
{
    if count == 0 {
        None
    } else if 2 <= widths[count - 1] <= MAX_CHAPTERS {
        Some(count - 1)
    } else {
        group_level(widths, (count - 1) as nat)
    }
}

/// The value of a group.
pub struct GroupModel {
    pub label: Seq<char>,
    pub topics: Seq<Seq<char>>,
    pub members: Seq<usize>,
}

impl View for Group {
    type V = GroupModel;

    open spec fn view(&self) -> GroupModel {
        GroupModel { label: self.label@, topics: texts(self.topics@), members: self.members@ }
    }
}

/// The values of a list of groups.
pub open spec fn group_models(v: Seq<Group>) -> Seq<GroupModel> {
    v.map_values(|g: Group| g@)
}

/// The label of the group at a position.
pub open spec fn group_label(index: nat) -> Seq<char> {
    "G"@ + decimal(index + 1)
}

/// The topics of the findings of a node.
pub open spec fn node_topics(tree: TreeIndex, key: Seq<char>) -> Seq<Seq<char>> {
    match tree.node(key) {
        Some(n) => n.findings@.map_values(|f: Finding| f.topic@),
        None => Seq::empty(),
    }
}

/// The branches under a node of the level of groups.
pub open spec fn members_under(
    tree: TreeIndex,
    levels: Seq<Vec<String>>,
    chosen: int,
    above: int,
    keys: Seq<Seq<char>>,
    group: Seq<char>,
) -> Seq<usize> {
    positions(
        |i: int| ancestor(tree, levels, chosen, (chosen - above) as nat, keys[i]) == group,
        keys.len(),
    )
}

/// The groups under the first `count` nodes of the level of groups; those
/// without branches are left out.
pub open spec fn groups_under(
    tree: TreeIndex,
    levels: Seq<Vec<String>>,
    chosen: int,
    above: int,
    keys: Seq<Seq<char>>,
    count: nat,
) -> Seq<GroupModel>
    decreases count,
{
    if count == 0 {
        Seq::empty()
    } else {
        let before = groups_under(tree, levels, chosen, above, keys, (count - 1) as nat);
        let group = levels[above]@[count - 1]@;
        let members = members_under(tree, levels, chosen, above, keys, group);
        if members.len() == 0 {
            before
        } else {
            before.push(
                GroupModel {
                    label: group_label((count - 1) as nat),
                    topics: node_topics(tree, group),
                    members,
                },
            )
        }
    }
}

/// The position of the first of some keys that equals the one at `i`.
pub open spec fn first_same(keys: Seq<Seq<char>>, i: int, from: nat) -> usize
    decreases keys.len() - from,
{
    if from >= keys.len() || keys[from as int] == keys[i] {
        from as usize
    } else {
        first_same(keys, i, from + 1)
    }
}

/// Runs of eight branches.
pub open spec fn runs(keys: Seq<Seq<char>>) -> Seq<GroupModel> {
    Seq::new(
        ((keys.len() + 7) / 8) as nat,
        |g: int|
            GroupModel {
                label: group_label(g as nat),
                topics: Seq::empty(),
                members: Seq::new(
                    (if 8 * g + 8 <= keys.len() {
                        8
                    } else {
                        keys.len() - 8 * g
                    }) as nat,
                    |k: int| first_same(keys, 8 * g + k, 0),
                ),
            },
    )
}

/// The groups of the branches at the chosen level.
pub open spec fn grouped(
    tree: TreeIndex,
    levels: Seq<Vec<String>>,
    chosen: int,
    keys: Seq<Seq<char>>,
) -> Seq<GroupModel> {
    match group_level(widths(levels), chosen as nat) {
        None => runs(keys),
        Some(above) => groups_under(tree, levels, chosen, above, keys, levels[above]@.len()),
    }
}

/// The keys of a list of branches.
pub open spec fn keys_of(branches: Seq<Branch>) -> Seq<Seq<char>> {
    branches.map_values(|b: Branch| b.key@)
}

/// Whether a node of a level stands above a key.
fn is_above(tree: &TreeIndex, node: &str, key: &str) -> (r: bool)
    ensures
        r == stands_above(*tree, node@, key@),
{
    match tree.find(node) {
        Some(i) => {
            if tree.nodes[i].children.len() > 0 {
                list_has(&tree.nodes[i].children, key)
            } else {
                same(node, key)
            }
        },
        None => same(node, key),
    }
}

/// What stands above a key at a higher level.
fn ancestor_of(tree: &TreeIndex, levels: &Vec<Vec<String>>, chosen: usize, above: usize, key: &str) -> (r:
    String)
    requires
        above <= chosen <= levels@.len(),
    ensures
        r@ == ancestor(*tree, levels@, chosen as int, (chosen - above) as nat, key@),
{
    let mut at: usize = chosen;
    let mut current = String::from_str(key);
    while at > above
        invariant
            above <= at <= chosen <= levels@.len(),
            ancestor(*tree, levels@, at as int, (at - above) as nat, current@) == ancestor(
                *tree,
                levels@,
                chosen as int,
                (chosen - above) as nat,
                key@,
            ),
        decreases at - above,
    {
        let level = &levels[at - 1];
        let ghost names = texts(level@);
        let mut k: usize = level.len();
        while k > 0 && !is_above(tree, level[k - 1].as_str(), current.as_str())
            invariant
                k <= level@.len(),
                names == texts(level@),
                parent_in(*tree, names, current@, k as nat) == parent_in(
                    *tree,
                    names,
                    current@,
                    names.len(),
                ),
            decreases k,
        {
            assert(names[k - 1] == level@[k - 1]@);
            k -= 1;
        }
        if k > 0 {
            assert(names[k - 1] == level@[k - 1]@);
            current = level[k - 1].clone();
        }
        at -= 1;
    }
    current
}

/// The topics of some findings.
fn topics_of(findings: &Vec<Finding>) -> (r: Vec<String>)
    ensures
        texts(r@) == findings@.map_values(|f: Finding| f.topic@),
{
    let ghost goal = findings@.map_values(|f: Finding| f.topic@);
    let mut r: Vec<String> = Vec::new();
    let mut i: usize = 0;
    assert(texts(r@) =~= goal.take(0));
    while i < findings.len()
        invariant
            i <= findings@.len(),
            goal == findings@.map_values(|f: Finding| f.topic@),
            texts(r@) == goal.take(i as int),
        decreases findings@.len() - i,
    {
        let t = findings[i].topic.clone();
        assert(texts(r@.push(t)) =~= texts(r@).push(t@));
        assert(goal.take(i + 1) =~= goal.take(i as int).push(t@));
        r.push(t);
        i += 1;
    }
    assert(goal.take(i as int) =~= goal);
    r
}

/// The label of the group at a position.
fn group_name(index: usize) -> (r: String)
    requires
        index < usize::MAX,
    ensures
        r@ == group_label(index as nat),
{
    let mut s = String::from_str("G");
    s.push_str(number(index as u64 + 1).as_str());
    s
}

/// Runs of eight branches.
fn run_groups(branches: &Vec<Branch>) -> (r: Vec<Group>)
    ensures
        group_models(r@) == runs(keys_of(branches@)),
        forall|g: int, m: int|
            0 <= g < r@.len() && 0 <= m < r@[g].members@.len() ==> (
            #[trigger] r@[g].members@[m]) < branches@.len(),
{
    let ghost keys = keys_of(branches@);
    let n: usize = branches.len();
    let ghost goal = runs(keys);
    let mut r: Vec<Group> = Vec::new();
    let mut start: usize = 0;
    assert(group_models(r@) =~= goal.take(0));
    while start < n
        invariant
            start <= n == branches@.len(),
            start < n ==> start == 8 * r@.len(),
            start == n ==> r@.len() == (n + 7) / 8,
            keys == keys_of(branches@),
            goal == runs(keys),
            group_models(r@) == goal.take(r@.len() as int),
            forall|g: int, m: int|
                0 <= g < r@.len() && 0 <= m < r@[g].members@.len() ==> (
                #[trigger] r@[g].members@[m]) < branches@.len(),
        decreases n - start,
    {
        let end: usize = if n - start > 8 {
            start + 8
        } else {
            n
        };
        let ghost g = r@.len() as int;
        let mut members: Vec<usize> = Vec::new();
        let mut i: usize = start;
        while i < end
            invariant
                start <= i <= end <= n == branches@.len(),
                keys == keys_of(branches@),
                members@.len() == i - start,
                forall|k: int|
                    0 <= k < i - start ==> #[trigger] members@[k] == first_same(
                        keys,
                        start + k,
                        0,
                    ),
                forall|k: int| 0 <= k < members@.len() ==> #[trigger] members@[k] < n,
            decreases end - i,
        {
            let mut p: usize = 0;
            while !same(branches[p].key.as_str(), branches[i].key.as_str())
                invariant
                    p <= i < n == branches@.len(),
                    keys == keys_of(branches@),
                    first_same(keys, i as int, p as nat) == first_same(keys, i as int, 0),
                decreases i - p,
            {
                assert(p != i);
                p += 1;
            }
            members.push(p);
            i += 1;
        }
        let index: usize = r.len();
        let group = Group { label: group_name(index), topics: Vec::new(), members };
        proof {
            assert(texts(group.topics@) =~= Seq::empty());
            assert(group.members@ =~= goal[g].members);
            assert(group@ == goal[g]);
            assert(group_models(r@.push(group)) =~= group_models(r@).push(group@));
            assert(goal.take(g + 1) =~= goal.take(g).push(goal[g]));
        }
        r.push(group);
        start = end;
    }
    assert(goal.take(r@.len() as int) =~= goal);
    r
}

/// Groups the chosen branches under the deepest level above them that is narrow
/// enough to plan chapters from; runs of eight when no such level exists.
pub fn branch_groups(
    tree: &TreeIndex,
    levels: &Vec<Vec<String>>,
    chosen: usize,
    branches: &Vec<Branch>,
) -> (r: Vec<Group>)
    requires
        chosen <= levels@.len(),
    ensures
        group_models(r@) == grouped(*tree, levels@, chosen as int, keys_of(branches@)),
        forall|g: int, m: int|
            0 <= g < r@.len() && 0 <= m < r@[g].members@.len() ==> (
            #[trigger] r@[g].members@[m]) < branches@.len(),
{
    let ghost keys = keys_of(branches@);
    let ghost ws = widths(levels@);
    let mut above: usize = chosen;
    while above > 0 && !(2 <= levels[above - 1].len() && levels[above - 1].len() <= MAX_CHAPTERS)
        invariant
            above <= chosen <= levels@.len(),
            ws == widths(levels@),
            group_level(ws, above as nat) == group_level(ws, chosen as nat),
        decreases above,
    {
        above -= 1;
    }
    if above == 0 {
        return run_groups(branches);
    }
    above -= 1;
    let n: usize = branches.len();
    let mut r: Vec<Group> = Vec::new();
    let mut index: usize = 0;
    assert(group_models(r@) =~= Seq::empty());
    while index < levels[above].len()
        invariant
            above < chosen <= levels@.len(),
            index <= levels@[above as int]@.len(),
            n == branches@.len(),
            keys == keys_of(branches@),
            group_models(r@) == groups_under(
                *tree,
                levels@,
                chosen as int,
                above as int,
                keys,
                index as nat,
            ),
            forall|g: int, m: int|
                0 <= g < r@.len() && 0 <= m < r@[g].members@.len() ==> (
                #[trigger] r@[g].members@[m]) < branches@.len(),
        decreases levels@[above as int]@.len() - index,
    {
        let group = &levels[above][index];
        let ghost keep = |i: int|
            ancestor(*tree, levels@, chosen as int, (chosen - above) as nat, keys[i]) == group@;
        let mut members: Vec<usize> = Vec::new();
        let mut i: usize = 0;
        while i < n
            invariant
                i <= n == branches@.len(),
                above < chosen <= levels@.len(),
                keys == keys_of(branches@),
                keep == (|i: int|
                    ancestor(*tree, levels@, chosen as int, (chosen - above) as nat, keys[i])
                        == group@),
                members@ == positions(keep, i as nat),
            decreases n - i,
        {
            let top = ancestor_of(tree, levels, chosen, above, branches[i].key.as_str());
            if same(top.as_str(), group.as_str()) {
                members.push(i);
            }
            i += 1;
        }
        proof {
            lemma_positions(keep, n as nat);
        }
        if members.len() > 0 {
            let topics = match tree.find(group.as_str()) {
                Some(i) => topics_of(&tree.nodes[i].findings),
                None => {
                    let none: Vec<String> = Vec::new();
                    assert(texts(none@) =~= Seq::empty());
                    none
                },
            };
            let made = Group { label: group_name(index), topics, members };
            proof {
                assert(group_models(r@.push(made)) =~= group_models(r@).push(made@));
            }
            r.push(made);
        }
        index += 1;
    }
    r
}

// ---------------------------------------------------------------------------
// Branches
// ---------------------------------------------------------------------------

/// The label of the branch at a position.
pub open spec fn branch_label(index: nat) -> Seq<char> {
    "B"@ + decimal(index + 1)
}

/// The label of a part of the branch at a position.
pub open spec fn part_label(index: nat, part: nat) -> Seq<char> {
    branch_label(index) + "."@ + decimal(part + 1)
}

/// A part is the one that a child of a branch makes.
pub open spec fn is_part(
    tree: TreeIndex,
    roots: Seq<Seq<char>>,
    part: Part,
    index: nat,
    child: nat,
    key: Seq<char>,
) -> bool {
    &&& part.label@ == part_label(index, child)
    &&& part.key@ == key
    &&& texts(part.topics@) == node_topics(tree, key)
    &&& exists|files: Seq<Seq<char>>| #[trigger]
        shows_files(tree, key, roots, files) && part.files == files.len()
}

/// The children of a node that have nodes of their own, by position.
pub open spec fn present(tree: TreeIndex, keys: Seq<Seq<char>>) -> Seq<usize> {
    positions(|i: int| tree.node(keys[i]) is Some, keys.len())
}

/// A branch is the one that the key at a position of a level makes. It has
/// parts where its node has at least two children.
pub open spec fn is_branch(
    tree: TreeIndex,
    roots: Seq<Seq<char>>,
    branch: Branch,
    index: nat,
    key: Seq<char>,
) -> bool {
    let node = tree.node(key)->0;
    let children = texts(node.children@);
    let with_nodes = present(tree, children);
    &&& branch.label@ == branch_label(index)
    &&& branch.key@ == key
    &&& finding_models(branch.findings@) == finding_models(node.findings@)
    &&& shows_files(tree, key, roots, texts(branch.files@))
    &&& branch.whole == whole_under(tree, key)
    &&& children.len() < 2 ==> branch.parts@.len() == 0
    &&& children.len() >= 2 ==> {
        &&& branch.parts@.len() == with_nodes.len()
        &&& forall|p: int|
            0 <= p < branch.parts@.len() ==> is_part(
                tree,
                roots,
                #[trigger] branch.parts@[p],
                index,
                with_nodes[p] as nat,
                children[with_nodes[p] as int],
            )
    }
}

/// The branches of a level are those that its keys with nodes make.
pub open spec fn are_branches(
    tree: TreeIndex,
    roots: Seq<Seq<char>>,
    level: Seq<Seq<char>>,
    branches: Seq<Branch>,
) -> bool {
    let at = present(tree, level);
    branches.len() == at.len() && forall|b: int|
        0 <= b < branches.len() ==> is_branch(
            tree,
            roots,
            #[trigger] branches[b],
            at[b] as nat,
            level[at[b] as int],
        )
}

/// The branches and groups that a planner is shown of a tree.
pub open spec fn is_view(
    tree: TreeIndex,
    levels: Seq<Vec<String>>,
    roots: Seq<Seq<char>>,
    view: BranchView,
) -> bool {
    match shown_level(widths(levels), target_branches(tree.leaves@.len())) {
        None => view.branches@.len() == 0 && view.groups@.len() == 0,
        Some(chosen) => {
            &&& are_branches(tree, roots, texts(levels[chosen as int]@), view.branches@)
            &&& if view.branches@.len() > CHAPTER_BRANCHES {
                group_models(view.groups@) == grouped(
                    tree,
                    levels,
                    chosen as int,
                    keys_of(view.branches@),
                )
            } else {
                view.groups@.len() == 0
            }
        },
    }
}

/// A copy of a list of findings.
pub fn copy_findings(list: &Vec<Finding>) -> (r: Vec<Finding>)
    ensures
        finding_models(r@) == finding_models(list@),
{
    let ghost goal = finding_models(list@);
    let mut r: Vec<Finding> = Vec::new();
    let mut i: usize = 0;
    assert(finding_models(r@) =~= goal.take(0));
    while i < list.len()
        invariant
            i <= list@.len(),
            goal == finding_models(list@),
            finding_models(r@) == goal.take(i as int),
        decreases list@.len() - i,
    {
        let f = list[i].clone();
        assert(finding_models(r@.push(f)) =~= finding_models(r@).push(f@));
        assert(goal.take(i + 1) =~= goal.take(i as int).push(f@));
        r.push(f);
        i += 1;
    }
    assert(goal.take(i as int) =~= goal);
    r
}

/// The label of the branch at a position.
fn branch_name(index: usize) -> (r: String)
    requires
        index < usize::MAX,
    ensures
        r@ == branch_label(index as nat),
{
    let mut s = String::from_str("B");
    s.push_str(number(index as u64 + 1).as_str());
    s
}

/// The parts of a branch: its children that have nodes of their own.
fn parts_of(tree: &TreeIndex, roots: &Vec<String>, index: usize, children: &Vec<String>) -> (r: Vec<
    Part,
>)
    requires
        index < usize::MAX,
    ensures
        ({
            let keys = texts(children@);
            let at = present(*tree, keys);
            &&& r@.len() == at.len()
            &&& forall|p: int|
                0 <= p < r@.len() ==> is_part(
                    *tree,
                    texts(roots@),
                    #[trigger] r@[p],
                    index as nat,
                    at[p] as nat,
                    keys[at[p] as int],
                )
        }),
{
    let ghost keys = texts(children@);
    let ghost keep = |i: int| tree.node(keys[i]) is Some;
    let mut r: Vec<Part> = Vec::new();
    let mut c: usize = 0;
    while c < children.len()
        invariant
            c <= children@.len(),
            index < usize::MAX,
            keys == texts(children@),
            keep == (|i: int| tree.node(keys[i]) is Some),
            r@.len() == positions(keep, c as nat).len(),
            forall|p: int|
                0 <= p < r@.len() ==> is_part(
                    *tree,
                    texts(roots@),
                    #[trigger] r@[p],
                    index as nat,
                    positions(keep, c as nat)[p] as nat,
                    keys[positions(keep, c as nat)[p] as int],
                ),
        decreases children@.len() - c,
    {
        let key = &children[c];
        assert(keys[c as int] == key@);
        if let Some(at) = tree.find(key.as_str()) {
            let mut label = branch_name(index);
            label.push_str(".");
            label.push_str(number(c as u64 + 1).as_str());
            let found = covered_files(tree, key.as_str(), roots);
            let part = Part {
                label,
                key: key.clone(),
                topics: topics_of(&tree.nodes[at].findings),
                files: found.0.len(),
            };
            proof {
                assert(texts(found.0@).len() == part.files);
                assert(is_part(*tree, texts(roots@), part, index as nat, c as nat, keys[c as int]));
            }
            r.push(part);
        }
        c += 1;
    }
    r
}

/// The branches of a reading tree, as the topics that each one covers, and the
/// groups that they sit in where they are many. `levels` holds the keys of each
/// level of the tree, from the root down.
pub fn branch_topics(tree: &TreeIndex, levels: &Vec<Vec<String>>, roots: &Vec<String>) -> (r:
    BranchView)
    ensures
        is_view(*tree, levels@, texts(roots@), r),
        r.wf(),
{
    let mut branches: Vec<Branch> = Vec::new();
    let chosen = match branch_level(levels, branch_target(tree.leaves.len())) {
        Some(chosen) => chosen,
        None => {
            return BranchView { branches, groups: Vec::new() };
        },
    };
    let level = &levels[chosen];
    let ghost keys = texts(level@);
    let ghost keep = |i: int| tree.node(keys[i]) is Some;
    let mut index: usize = 0;
    while index < level.len()
        invariant
            index <= level@.len(),
            keys == texts(level@),
            keep == (|i: int| tree.node(keys[i]) is Some),
            branches@.len() == positions(keep, index as nat).len(),
            forall|b: int|
                0 <= b < branches@.len() ==> is_branch(
                    *tree,
                    texts(roots@),
                    #[trigger] branches@[b],
                    positions(keep, index as nat)[b] as nat,
                    keys[positions(keep, index as nat)[b] as int],
                ),
        decreases level@.len() - index,
    {
        let key = &level[index];
        assert(keys[index as int] == key@);
        if let Some(at) = tree.find(key.as_str()) {
            let node = &tree.nodes[at];
            let (files, whole) = covered_files(tree, key.as_str(), roots);
            let parts = if node.children.len() >= 2 {
                parts_of(tree, roots, index, &node.children)
            } else {
                Vec::new()
            };
            let branch = Branch {
                label: branch_name(index),
                key: key.clone(),
                findings: copy_findings(&node.findings),
                files,
                whole,
                parts,
            };
            assert(texts(node.children@).len() == node.children@.len());
            assert(is_branch(*tree, texts(roots@), branch, index as nat, keys[index as int]));
            branches.push(branch);
        }
        index += 1;
    }
    let groups = if branches.len() > CHAPTER_BRANCHES {
        branch_groups(tree, levels, chosen, &branches)
    } else {
        Vec::new()
    };
    BranchView { branches, groups }
}

} // verus!
