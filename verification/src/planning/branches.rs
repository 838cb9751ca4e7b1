//! The parts of the source as the reading tree grouped them.

use vstd::prelude::*;

use crate::findings::Finding;
use crate::planning::generated::{label_models, Label, LabelModel};
use crate::text::same;

verus! {

/// Past this many branches a document is planned in chapters, and a chapter in
/// requests of at most this many branches.
pub const CHAPTER_BRANCHES: usize = 16;

/// The most chapters a document is divided into.
pub const MAX_CHAPTERS: usize = 16;

/// A child of a large branch, which a section may take on its own.
pub struct Part {
    pub label: String,
    pub key: String,
    pub topics: Vec<String>,
    pub files: usize,
}

/// One part of the source as the reading tree grouped it.
pub struct Branch {
    /// What requests call it.
    pub label: String,
    pub key: String,
    pub findings: Vec<Finding>,
    pub files: Vec<String>,
    /// False when the walk could not reach every leaf, so that the number of
    /// files is a floor.
    pub whole: bool,
    pub parts: Vec<Part>,
}

/// A run of branches under one node above them.
pub struct Group {
    pub label: String,
    pub topics: Vec<String>,
    pub members: Vec<usize>,
}

/// The branches of a reading tree, as the planner is shown them.
pub struct BranchView {
    pub branches: Vec<Branch>,
    pub groups: Vec<Group>,
}

impl BranchView {
    /// The groups hold positions of branches.
    pub open spec fn wf(self) -> bool {
        forall|g: int, m: int|
            0 <= g < self.groups@.len() && 0 <= m < self.groups@[g].members@.len() ==> (
            #[trigger] self.groups@[g].members@[m]) < self.branches@.len()
    }

    /// The labels of the branches, in order.
    pub open spec fn branch_labels(self) -> Seq<Seq<char>> {
        self.branches@.map_values(|b: Branch| b.label@)
    }

    /// The labels of the groups, in order.
    pub open spec fn group_labels(self) -> Seq<Seq<char>> {
        self.groups@.map_values(|g: Group| g.label@)
    }

    /// The keys of the branches, in order.
    pub open spec fn branch_keys(self) -> Seq<Seq<char>> {
        self.branches@.map_values(|b: Branch| b.key@)
    }
}

/// The labels of the first `count` parts of a branch.
pub open spec fn part_labels(parts: Seq<Part>, count: nat) -> Seq<LabelModel> {
    Seq::new(count, |i: int| LabelModel { label: parts[i].label@, key: parts[i].key@ })
}

/// The label of a branch, and then those of its parts.
pub open spec fn labels_of(branch: Branch) -> Seq<LabelModel> {
    seq![LabelModel { label: branch.label@, key: branch.key@ }] + part_labels(
        branch.parts@,
        branch.parts@.len(),
    )
}

/// Every label of the first `count` branches and of their parts.
pub open spec fn all_labels(branches: Seq<Branch>, count: nat) -> Seq<LabelModel>
    decreases count,
{
    if count == 0 {
        Seq::empty()
    } else {
        all_labels(branches, (count - 1) as nat) + labels_of(branches[count - 1])
    }
}

/// A key names a branch: the branch itself or one of its parts.
pub open spec fn names_branch(branch: Branch, key: Seq<char>) -> bool {
    branch.key@ == key || exists|p: int|
        0 <= p < branch.parts@.len() && (#[trigger] branch.parts@[p]).key@ == key
}

/// The first branch, from position `from` on, that a key names.
pub open spec fn owner_from(branches: Seq<Branch>, key: Seq<char>, from: nat) -> Option<int>
    decreases branches.len() - from,
{
    if from >= branches.len() {
        None
    } else if names_branch(branches[from as int], key) {
        Some(from as int)
    } else {
        owner_from(branches, key, from + 1)
    }
}

/// The first branch with this key, from position `from` on.
pub open spec fn index_from(branches: Seq<Branch>, key: Seq<char>, from: nat) -> Option<int>
    decreases branches.len() - from,
{
    if from >= branches.len() {
        None
    } else if branches[from as int].key@ == key {
        Some(from as int)
    } else {
        index_from(branches, key, from + 1)
    }
}

/// The label of a key; of two equal keys the later one counts.
pub open spec fn label_of(labels: Seq<LabelModel>, key: Seq<char>) -> Option<Seq<char>>
    decreases labels.len(),
{
    if labels.len() == 0 {
        None
    } else if labels.last().key == key {
        Some(labels.last().label)
    } else {
        label_of(labels.drop_last(), key)
    }
}

/// The label of a key.
pub fn find_label<'a>(labels: &'a Vec<Label>, key: &str) -> (r: Option<&'a String>)
    ensures
        match label_of(label_models(labels@), key@) {
            Some(label) => r is Some && r->0@ == label,
            None => r is None,
        },
{
    let ghost all = label_models(labels@);
    let mut i: usize = labels.len();
    assert(all.take(i as int) =~= all);
    while i > 0
        invariant
            i <= labels@.len(),
            all == label_models(labels@),
            label_of(all.take(i as int), key@) == label_of(all, key@),
        decreases i,
    {
        i -= 1;
        assert(all.take(i + 1).last() == labels@[i as int]@);
        assert(all.take(i + 1).drop_last() =~= all.take(i as int));
        if same(labels[i].key.as_str(), key) {
            return Some(&labels[i].label);
        }
    }
    None
}

/// Adds the labels of a branch and of its parts.
pub fn push_labels(labels: &mut Vec<Label>, branch: &Branch)
    ensures
        label_models(final(labels)@) == label_models(old(labels)@) + labels_of(*branch),
{
    let ghost start = label_models(labels@);
    let own = Label { label: branch.label.clone(), key: branch.key.clone() };
    assert(label_models(labels@.push(own)) =~= start.push(own@));
    labels.push(own);
    let mut p: usize = 0;
    assert(label_models(labels@) =~= start + (seq![own@] + part_labels(branch.parts@, 0)));
    while p < branch.parts.len()
        invariant
            p <= branch.parts@.len(),
            own@ == (LabelModel { label: branch.label@, key: branch.key@ }),
            label_models(labels@) == start + (seq![own@] + part_labels(branch.parts@, p as nat)),
        decreases branch.parts@.len() - p,
    {
        let part = Label {
            label: branch.parts[p].label.clone(),
            key: branch.parts[p].key.clone(),
        };
        proof {
            let listed = part_labels(branch.parts@, p as nat);
            assert(part_labels(branch.parts@, (p + 1) as nat) =~= listed.push(part@));
            assert(label_models(labels@.push(part)) =~= label_models(labels@).push(part@));
            assert((start + (seq![own@] + listed)).push(part@) =~= start + (seq![own@]
                + listed.push(part@)));
        }
        labels.push(part);
        p += 1;
    }
}

impl BranchView {
    /// How many branches there are, where the tree could be read.
    pub fn count(&self) -> (r: Option<usize>)
        ensures
            r == (if self.branches@.len() == 0 {
                None
            } else {
                Some(self.branches@.len() as usize)
            }),
    {
        if self.branches.len() == 0 {
            None
        } else {
            Some(self.branches.len())
        }
    }

    /// The document is planned in chapters.
    pub open spec fn needs_chapters(self) -> bool {
        self.branches@.len() > CHAPTER_BRANCHES && self.groups@.len() > 0
    }

    /// Whether the document is planned in chapters.
    pub fn chapters_needed(&self) -> (r: bool)
        ensures
            r == self.needs_chapters(),
    {
        self.branches.len() > CHAPTER_BRANCHES && self.groups.len() > 0
    }

    /// Every label that a plan may name, with its node key.
    pub open spec fn labels(self) -> Seq<LabelModel> {
        all_labels(self.branches@, self.branches@.len())
    }

    /// Every label that a plan may name, with its node key: those of branches
    /// and of their parts.
    pub fn keys_by_label(&self) -> (r: Vec<Label>)
        ensures
            label_models(r@) == self.labels(),
    {
        let mut r: Vec<Label> = Vec::new();
        let mut b: usize = 0;
        assert(label_models(r@) =~= Seq::empty());
        while b < self.branches.len()
            invariant
                b <= self.branches@.len(),
                label_models(r@) == all_labels(self.branches@, b as nat),
            decreases self.branches@.len() - b,
        {
            push_labels(&mut r, &self.branches[b]);
            b += 1;
        }
        r
    }

    /// The branch with this key.
    pub fn get(&self, key: &str) -> (r: Option<&Branch>)
        ensures
            match index_from(self.branches@, key@, 0) {
                Some(i) => r == Some(&self.branches@[i]),
                None => r is None,
            },
    {
        let mut i: usize = 0;
        while i < self.branches.len()
            invariant
                i <= self.branches@.len(),
                index_from(self.branches@, key@, i as nat) == index_from(self.branches@, key@, 0),
            decreases self.branches@.len() - i,
        {
            if same(self.branches[i].key.as_str(), key) {
                return Some(&self.branches[i]);
            }
            i += 1;
        }
        None
    }

    /// The position of the branch that a key names: the branch itself or one of
    /// its parts.
    pub fn owner(&self, key: &str) -> (r: Option<usize>)
        ensures
            match owner_from(self.branches@, key@, 0) {
                Some(i) => r is Some && r->0 == i,
                None => r is None,
            },
            r matches Some(i) ==> i < self.branches@.len(),
    {
        let mut i: usize = 0;
        while i < self.branches.len()
            invariant
                i <= self.branches@.len(),
                owner_from(self.branches@, key@, i as nat) == owner_from(self.branches@, key@, 0),
            decreases self.branches@.len() - i,
        {
            let branch = &self.branches[i];
            if same(branch.key.as_str(), key) {
                return Some(i);
            }
            let mut p: usize = 0;
            while p < branch.parts.len()
                invariant
                    p <= branch.parts@.len(),
                    i < self.branches@.len(),
                    *branch == self.branches@[i as int],
                    owner_from(self.branches@, key@, i as nat) == owner_from(
                        self.branches@,
                        key@,
                        0,
                    ),
                    forall|j: int| 0 <= j < p ==> (#[trigger] branch.parts@[j]).key@ != key@,
                decreases branch.parts@.len() - p,
            {
                if same(branch.parts[p].key.as_str(), key) {
                    assert(branch.parts@[p as int].key@ == key@);
                    assert(names_branch(*branch, key@));
                    return Some(i);
                }
                p += 1;
            }
            assert(!names_branch(*branch, key@));
            i += 1;
        }
        None
    }

    /// The reading position of a key; the largest number where no branch has
    /// it.
    pub open spec fn rank(self, key: Seq<char>) -> usize {
        match index_from(self.branches@, key, 0) {
            Some(i) => i as usize,
            None => usize::MAX,
        }
    }

    /// The reading position of a key; the largest number where no branch has
    /// it.
    pub fn index(&self, key: &str) -> (r: usize)
        ensures
            r == self.rank(key@),
    {
        let mut i: usize = 0;
        while i < self.branches.len()
            invariant
                i <= self.branches@.len(),
                index_from(self.branches@, key@, i as nat) == index_from(self.branches@, key@, 0),
            decreases self.branches@.len() - i,
        {
            if same(self.branches[i].key.as_str(), key) {
                return i;
            }
            i += 1;
        }
        usize::MAX
    }
}

} // verus!
