//! The tree that a source was read in, and the branches that a planner is shown
//! of it.

use vstd::prelude::*;
use vstd::string::StringExecFns;

use crate::findings::Finding;
use crate::order::{sort_texts, sorted_texts};
use crate::planning::places::{relative, relative_to};
use crate::text::{list_has, same, texts};

verus! {

/// Where a passage stands.
pub struct PassageSpan {
    pub id: String,
    pub path: String,
    pub start: u32,
    pub end: u32,
}

/// One reading of the tree: a leaf read files, any other node summed up its
/// children.
pub struct TreeNode {
    pub key: String,
    pub files: Vec<String>,
    pub children: Vec<String>,
    pub findings: Vec<Finding>,
    pub details: Vec<Finding>,
    pub spans: Vec<PassageSpan>,
}

/// The readings of a source.
pub struct TreeIndex {
    pub root: Option<String>,
    pub leaves: Vec<String>,
    pub nodes: Vec<TreeNode>,
}

/// The position of the first node with this key.
pub open spec fn node_position(nodes: Seq<TreeNode>, key: Seq<char>) -> Option<int>
    decreases nodes.len(),
{
    if nodes.len() == 0 {
        None
    } else {
        match node_position(nodes.drop_last(), key) {
            Some(i) => Some(i),
            None => if nodes.last().key@ == key {
                Some(nodes.len() - 1)
            } else {
                None
            },
        }
    }
}

proof fn lemma_node_position(nodes: Seq<TreeNode>, key: Seq<char>)
    ensures
        match node_position(nodes, key) {
            Some(i) => 0 <= i < nodes.len() && nodes[i].key@ == key,
            None => forall|i: int| 0 <= i < nodes.len() ==> (#[trigger] nodes[i]).key@ != key,
        },
    decreases nodes.len(),
{
    if nodes.len() > 0 {
        lemma_node_position(nodes.drop_last(), key);
        if node_position(nodes, key) is None {
            assert forall|i: int| 0 <= i < nodes.len() implies (#[trigger] nodes[i]).key@ != key by {
                if i < nodes.len() - 1 {
                    assert(nodes.drop_last()[i] == nodes[i]);
                }
            }
        }
    }
}

impl TreeIndex {
    /// The position of the node with this key.
    pub open spec fn position(self, key: Seq<char>) -> Option<int> {
        node_position(self.nodes@, key)
    }

    /// The node with this key.
    pub open spec fn node(self, key: Seq<char>) -> Option<TreeNode> {
        match self.position(key) {
            Some(i) => Some(self.nodes@[i]),
            None => None,
        }
    }

    /// The position of the node with this key.
    pub fn find(&self, key: &str) -> (r: Option<usize>)
        ensures
            match self.position(key@) {
                Some(i) => r is Some && r->0 == i,
                None => r is None,
            },
            r matches Some(i) ==> i < self.nodes@.len(),
    {
        let ghost all = self.nodes@;
        let mut i: usize = 0;
        while i < self.nodes.len()
            invariant
                i <= self.nodes@.len(),
                all == self.nodes@,
                node_position(all.take(i as int), key@) is None,
            decreases self.nodes@.len() - i,
        {
            proof {
                assert(all.take(i + 1).drop_last() =~= all.take(i as int));
                assert(all.take(i + 1).last() == all[i as int]);
            }
            if same(self.nodes[i].key.as_str(), key) {
                proof {
                    lemma_position_extends(all, key@, i + 1);
                }
                return Some(i);
            }
            i += 1;
        }
        assert(all.take(i as int) =~= all);
        None
    }
}

/// A position found among the first nodes is the position.
proof fn lemma_position_extends(nodes: Seq<TreeNode>, key: Seq<char>, count: int)
    requires
        0 <= count <= nodes.len(),
        node_position(nodes.take(count), key) is Some,
    ensures
        node_position(nodes, key) == node_position(nodes.take(count), key),
    decreases nodes.len() - count,
{
    if count == nodes.len() {
        assert(nodes.take(count) =~= nodes);
    } else {
        assert(nodes.take(count + 1).drop_last() =~= nodes.take(count));
        lemma_position_extends(nodes, key, count + 1);
    }
}

// ---------------------------------------------------------------------------
// Files under a node
// ---------------------------------------------------------------------------

/// One key is a child of another's node.
pub open spec fn child_of(tree: TreeIndex, key: Seq<char>, child: Seq<char>) -> bool {
    tree.node(key) matches Some(node) && texts(node.children@).contains(child)
}

/// A way down the tree: every key is a child of the one before it.
pub open spec fn descends(tree: TreeIndex, path: Seq<Seq<char>>) -> bool {
    path.len() > 0 && forall|i: int|
        0 <= i < path.len() - 1 ==> child_of(tree, #[trigger] path[i], path[i + 1])
}

/// A way down leads from one key to another.
pub open spec fn reaches(tree: TreeIndex, from: Seq<char>, to: Seq<char>) -> bool {
    exists|path: Seq<Seq<char>>|
        #[trigger] descends(tree, path) && path.first() == from && path.last() == to
}

/// A file was read by a leaf under a key.
pub open spec fn read_under(tree: TreeIndex, key: Seq<char>, file: Seq<char>) -> bool {
    exists|leaf: Seq<char>| #[trigger]
        reaches(tree, key, leaf) && leaf_file(tree, leaf, file)
}

/// A leaf read a file.
pub open spec fn leaf_file(tree: TreeIndex, leaf: Seq<char>, file: Seq<char>) -> bool {
    tree.node(leaf) matches Some(node) && node.children@.len() == 0 && texts(
        node.files@,
    ).contains(file)
}

/// Every key under a key has its node.
pub open spec fn whole_under(tree: TreeIndex, key: Seq<char>) -> bool {
    forall|k: Seq<char>| #[trigger] reaches(tree, key, k) ==> tree.node(k) is Some
}

/// The files under a key, each once and in any order.
pub open spec fn lists_files(tree: TreeIndex, key: Seq<char>, files: Seq<Seq<char>>) -> bool {
    &&& files.no_duplicates()
    &&& forall|f: Seq<char>| #[trigger] files.contains(f) <==> read_under(tree, key, f)
}

/// Some list of the files under a key, shown against the sources, is in order.
pub open spec fn shows_files(
    tree: TreeIndex,
    key: Seq<char>,
    roots: Seq<Seq<char>>,
    shown: Seq<Seq<char>>,
) -> bool {
    exists|files: Seq<Seq<char>>| #[trigger]
        lists_files(tree, key, files) && shown == sorted_texts(
            files.map_values(|f: Seq<char>| relative_to(f, roots)),
        )
}

proof fn lemma_reaches_self(tree: TreeIndex, key: Seq<char>)
    ensures
        reaches(tree, key, key),
{
    let path = seq![key];
    assert(descends(tree, path));
}

proof fn lemma_reaches_child(tree: TreeIndex, key: Seq<char>, at: Seq<char>, child: Seq<char>)
    requires
        reaches(tree, key, at),
        child_of(tree, at, child),
    ensures
        reaches(tree, key, child),
{
    let path = choose|path: Seq<Seq<char>>|
        #[trigger] descends(tree, path) && path.first() == key && path.last() == at;
    let longer = path.push(child);
    assert forall|i: int| 0 <= i < longer.len() - 1 implies child_of(
        tree,
        #[trigger] longer[i],
        longer[i + 1],
    ) by {
        if i < path.len() - 1 {
            assert(child_of(tree, path[i], path[i + 1]));
        }
    }
    assert(descends(tree, longer));
    assert(longer.first() == key);
}

/// How many nodes are still to be visited.
spec fn unvisited(visited: Seq<bool>) -> nat
    decreases visited.len(),
{
    if visited.len() == 0 {
        0
    } else {
        unvisited(visited.drop_last()) + if visited.last() {
            0nat
        } else {
            1nat
        }
    }
}

proof fn lemma_visit(visited: Seq<bool>, i: int)
    requires
        0 <= i < visited.len(),
        !visited[i],
    ensures
        unvisited(visited.update(i, true)) + 1 == unvisited(visited),
    decreases visited.len(),
{
    let now = visited.update(i, true);
    if i == visited.len() - 1 {
        assert(now.drop_last() =~= visited.drop_last());
    } else {
        lemma_visit(visited.drop_last(), i);
        assert(now.drop_last() =~= visited.drop_last().update(i, true));
    }
}

/// A key was dealt with: it waits, its node was visited, or it has none.
spec fn dealt_with(
    tree: TreeIndex,
    pending: Seq<Seq<char>>,
    visited: Seq<bool>,
    key: Seq<char>,
) -> bool {
    pending.contains(key) || match tree.position(key) {
        Some(i) => visited[i],
        None => true,
    }
}

/// Where nothing waits, everything under the key was visited.
proof fn lemma_all_visited(
    tree: TreeIndex,
    visited: Seq<bool>,
    key: Seq<char>,
    path: Seq<Seq<char>>,
)
    requires
        visited.len() == tree.nodes@.len(),
        descends(tree, path),
        path.first() == key,
        dealt_with(tree, Seq::empty(), visited, key),
        forall|i: int, c: Seq<char>|
            0 <= i < visited.len() && visited[i] && #[trigger] texts(
                tree.nodes@[i].children@,
            ).contains(c) ==> dealt_with(tree, Seq::empty(), visited, c),
    ensures
        dealt_with(tree, Seq::empty(), visited, path.last()),
    decreases path.len(),
{
    if path.len() > 1 {
        let shorter = path.drop_last();
        assert(descends(tree, shorter)) by {
            assert forall|i: int| 0 <= i < shorter.len() - 1 implies child_of(
                tree,
                #[trigger] shorter[i],
                shorter[i + 1],
            ) by {
                assert(child_of(tree, path[i], path[i + 1]));
            }
        }
        lemma_all_visited(tree, visited, key, shorter);
        let at = path[path.len() - 2];
        assert(shorter.last() == at);
        assert(child_of(tree, at, path[path.len() - 2 + 1]));
        lemma_node_position(tree.nodes@, at);
        let i = tree.position(at)->0;
        assert(visited[i]);
        assert(texts(tree.nodes@[i].children@).contains(path.last()));
    }
}

/// Every file that a branch was read from, shown against the sources, and
/// whether the walk saw all of them.
#[verifier::rlimit(40)]
pub fn covered_files(tree: &TreeIndex, key: &str, roots: &Vec<String>) -> (r: (Vec<String>, bool))
    ensures
        shows_files(*tree, key@, texts(roots@), texts(r.0@)),
        r.1 == whole_under(*tree, key@),
{
    let count: usize = tree.nodes.len();
    let mut visited: Vec<bool> = Vec::new();
    while visited.len() < count
        invariant
            visited@.len() <= count,
            forall|i: int| 0 <= i < visited@.len() ==> !visited@[i],
        decreases count - visited@.len(),
    {
        visited.push(false);
    }
    let mut pending: Vec<String> = Vec::new();
    let mut seen: Vec<String> = Vec::new();
    let mut whole = true;
    pending.push(String::from_str(key));
    proof {
        lemma_reaches_self(*tree, key@);
        assert(texts(pending@) =~= seq![key@]);
        assert(texts(pending@).contains(key@)) by {
            assert(texts(pending@)[0] == key@);
        }
        assert(texts(seen@) =~= Seq::empty());
    }
    loop
        invariant
            count == tree.nodes@.len() == visited@.len(),
            forall|k: Seq<char>|
                #[trigger] texts(pending@).contains(k) ==> reaches(*tree, key@, k),
            forall|i: int|
                0 <= i < count && #[trigger] visited@[i] ==> tree.position(tree.nodes@[i].key@)
                    == Some(i) && reaches(*tree, key@, tree.nodes@[i].key@),
            dealt_with(*tree, texts(pending@), visited@, key@),
            forall|i: int, c: Seq<char>|
                0 <= i < count && visited@[i] && #[trigger] texts(
                    tree.nodes@[i].children@,
                ).contains(c) ==> dealt_with(*tree, texts(pending@), visited@, c),
            texts(seen@).no_duplicates(),
            forall|f: Seq<char>|
                #[trigger] texts(seen@).contains(f) ==> read_under(*tree, key@, f),
            forall|i: int, f: Seq<char>|
                0 <= i < count && visited@[i] && tree.nodes@[i].children@.len() == 0
                    && #[trigger] texts(tree.nodes@[i].files@).contains(f) ==> texts(
                    seen@,
                ).contains(f),
            !whole ==> !whole_under(*tree, key@),
            whole ==> forall|k: Seq<char>|
                #[trigger] reaches(*tree, key@, k) && tree.position(k) is None ==> !(k == key@
                    && !texts(pending@).contains(k)),
            whole ==> forall|i: int, c: Seq<char>|
                0 <= i < count && visited@[i] && #[trigger] texts(
                    tree.nodes@[i].children@,
                ).contains(c) && tree.position(c) is None ==> texts(pending@).contains(c),
        ensures
            pending@.len() == 0,
        decreases unvisited(visited@), pending@.len(),
    {
        let ghost before = texts(pending@);
        let ghost was = visited@;
        let at = match pending.pop() {
            None => {
                break;
            },
            Some(at) => at,
        };
        proof {
            assert(before.drop_last() =~= texts(pending@));
            assert(before.last() == at@);
            assert(before.contains(at@));
            assert forall|k: Seq<char>| before.contains(k) && k != at@ implies #[trigger] texts(
                pending@,
            ).contains(k) by {
                let j = choose|j: int| 0 <= j < before.len() && before[j] == k;
                assert(texts(pending@)[j] == k);
            }
            assert forall|k: Seq<char>| #[trigger] texts(pending@).contains(k) implies reaches(
                *tree,
                key@,
                k,
            ) by {
                let j = choose|j: int| 0 <= j < texts(pending@).len() && texts(pending@)[j] == k;
                assert(before[j] == k);
                assert(before.contains(k));
            }
            lemma_node_position(tree.nodes@, at@);
        }
        match tree.find(at.as_str()) {
            None => {
                proof {
                    assert(tree.node(at@) is None);
                    assert(reaches(*tree, key@, at@));
                }
                whole = false;
            },
            Some(i) => {
                if !visited[i] {
                    let node = &tree.nodes[i];
                    visited.set(i, true);
                    proof {
                        lemma_visit(was, i as int);
                        assert(tree.node(at@) == Some(*node));
                    }
                    if node.children.len() == 0 {
                        let mut f: usize = 0;
                        while f < node.files.len()
                            invariant
                                f <= node.files@.len(),
                                tree.node(at@) == Some(*node),
                                node.children@.len() == 0,
                                reaches(*tree, key@, at@),
                                texts(seen@).no_duplicates(),
                                forall|p: Seq<char>|
                                    #[trigger] texts(seen@).contains(p) ==> read_under(
                                        *tree,
                                        key@,
                                        p,
                                    ),
                                forall|j: int|
                                    0 <= j < f ==> texts(seen@).contains(
                                        #[trigger] texts(node.files@)[j],
                                    ),
                                forall|j: int, p: Seq<char>|
                                    0 <= j < count && was[j] && tree.nodes@[j].children@.len() == 0
                                        && #[trigger] texts(tree.nodes@[j].files@).contains(p)
                                        ==> texts(seen@).contains(p),
                            decreases node.files@.len() - f,
                        {
                            if !list_has(&seen, node.files[f].as_str()) {
                                let p = node.files[f].clone();
                                proof {
                                    let old_seen = texts(seen@);
                                    let new_seen = texts(seen@.push(p));
                                    assert(new_seen =~= old_seen.push(p@));
                                    assert(texts(node.files@)[f as int] == p@);
                                    assert(texts(node.files@).contains(p@));
                                    assert(leaf_file(*tree, at@, p@));
                                    assert(read_under(*tree, key@, p@));
                                    assert forall|q: Seq<char>| old_seen.contains(
                                        q,
                                    ) implies #[trigger] new_seen.contains(q) by {
                                        let j = choose|j: int|
                                            0 <= j < old_seen.len() && old_seen[j] == q;
                                        assert(new_seen[j] == q);
                                    }
                                    assert(new_seen.contains(p@)) by {
                                        assert(new_seen[old_seen.len() as int] == p@);
                                    }
                                    assert forall|q: Seq<char>| #[trigger]
                                        new_seen.contains(q) implies read_under(
                                        *tree,
                                        key@,
                                        q,
                                    ) by {
                                        if q != p@ {
                                            let j = choose|j: int|
                                                0 <= j < new_seen.len() && new_seen[j] == q;
                                            assert(old_seen[j] == q);
                                            assert(old_seen.contains(q));
                                        }
                                    }
                                }
                                seen.push(p);
                            }
                            f += 1;
                        }
                        proof {
                            assert forall|p: Seq<char>| #[trigger]
                                texts(node.files@).contains(p) implies texts(seen@).contains(
                                p,
                            ) by {
                                let j = choose|j: int|
                                    0 <= j < texts(node.files@).len() && texts(node.files@)[j]
                                        == p;
                                assert(texts(seen@).contains(texts(node.files@)[j]));
                            }
                        }
                    } else {
                        let ghost rest = texts(pending@);
                        let mut c: usize = 0;
                        assert(rest + texts(node.children@).take(0) =~= rest);
                        while c < node.children.len()
                            invariant
                                c <= node.children@.len(),
                                texts(pending@) == rest + texts(node.children@).take(c as int),
                            decreases node.children@.len() - c,
                        {
                            let child = node.children[c].clone();
                            proof {
                                assert(texts(pending@.push(child)) =~= texts(pending@).push(
                                    child@,
                                ));
                                assert(rest + texts(node.children@).take(c + 1) =~= (rest + texts(
                                    node.children@,
                                ).take(c as int)).push(child@));
                            }
                            pending.push(child);
                            c += 1;
                        }
                        proof {
                            let kids = texts(node.children@);
                            assert(kids.take(c as int) =~= kids);
                            assert forall|k: Seq<char>| #[trigger]
                                texts(pending@).contains(k) implies reaches(*tree, key@, k) by {
                                let j = choose|j: int|
                                    0 <= j < texts(pending@).len() && texts(pending@)[j] == k;
                                if j < rest.len() {
                                    assert(rest[j] == k);
                                    assert(rest.contains(k));
                                } else {
                                    assert(kids[j - rest.len()] == k);
                                    assert(kids.contains(k));
                                    lemma_reaches_child(*tree, key@, at@, k);
                                }
                            }
                            assert forall|k: Seq<char>|
                                rest.contains(k) || kids.contains(k) implies #[trigger] texts(
                                pending@,
                            ).contains(k) by {
                                if rest.contains(k) {
                                    let j = choose|j: int| 0 <= j < rest.len() && rest[j] == k;
                                    assert(texts(pending@)[j] == k);
                                } else {
                                    let j = choose|j: int| 0 <= j < kids.len() && kids[j] == k;
                                    assert(texts(pending@)[rest.len() + j] == k);
                                }
                            }
                        }
                    }
                }
            },
        }
        proof {
            let now = texts(pending@);
            assert forall|k: Seq<char>| dealt_with(*tree, before, was, k) implies #[trigger] dealt_with(
                *tree,
                now,
                visited@,
                k,
            ) by {
                if before.contains(k) && k != at@ {
                    assert(now.contains(k));
                }
                lemma_node_position(tree.nodes@, k);
            }
            assert forall|i: int, c: Seq<char>|
                0 <= i < count && visited@[i] && #[trigger] texts(
                    tree.nodes@[i].children@,
                ).contains(c) implies dealt_with(*tree, now, visited@, c) by {
                if was[i] {
                    assert(dealt_with(*tree, before, was, c));
                }
            }
        }
    }
    let ghost found = texts(seen@);
    proof {
        assert(texts(pending@) =~= Seq::empty());
        assert forall|k: Seq<char>| #[trigger] reaches(*tree, key@, k) implies dealt_with(
            *tree,
            Seq::empty(),
            visited@,
            k,
        ) by {
            let path = choose|path: Seq<Seq<char>>|
                #[trigger] descends(*tree, path) && path.first() == key@ && path.last() == k;
            lemma_all_visited(*tree, visited@, key@, path);
        }
        assert forall|f: Seq<char>| read_under(*tree, key@, f) implies #[trigger] found.contains(
            f,
        ) by {
            let leaf = choose|leaf: Seq<char>| #[trigger]
                reaches(*tree, key@, leaf) && leaf_file(*tree, leaf, f);
            lemma_node_position(tree.nodes@, leaf);
            let i = tree.position(leaf)->0;
            assert(visited@[i]);
            assert(texts(tree.nodes@[i].files@).contains(f));
        }
        assert(lists_files(*tree, key@, found));
        if whole {
            assert forall|k: Seq<char>| #[trigger] reaches(*tree, key@, k) implies tree.node(
                k,
            ) is Some by {
                if tree.position(k) is None {
                    let path = choose|path: Seq<Seq<char>>|
                        #[trigger] descends(*tree, path) && path.first() == key@ && path.last()
                            == k;
                    if path.len() == 1 {
                        assert(k == key@);
                    } else {
                        let at = path[path.len() - 2];
                        assert(child_of(*tree, at, path[path.len() - 2 + 1]));
                        let shorter = path.drop_last();
                        assert(descends(*tree, shorter)) by {
                            assert forall|i: int| 0 <= i < shorter.len() - 1 implies child_of(
                                *tree,
                                #[trigger] shorter[i],
                                shorter[i + 1],
                            ) by {
                                assert(child_of(*tree, path[i], path[i + 1]));
                            }
                        }
                        assert(shorter.last() == at);
                        assert(reaches(*tree, key@, at));
                        lemma_node_position(tree.nodes@, at);
                        let i = tree.position(at)->0;
                        assert(visited@[i]);
                        assert(texts(tree.nodes@[i].children@).contains(k));
                    }
                }
            }
        }
    }
    let mut shown: Vec<String> = Vec::new();
    let ghost goal = found.map_values(|f: Seq<char>| relative_to(f, texts(roots@)));
    let mut i: usize = 0;
    assert(texts(shown@) =~= goal.take(0));
    while i < seen.len()
        invariant
            i <= seen@.len(),
            found == texts(seen@),
            goal == found.map_values(|f: Seq<char>| relative_to(f, texts(roots@))),
            texts(shown@) == goal.take(i as int),
        decreases seen@.len() - i,
    {
        let path = relative(seen[i].as_str(), roots);
        assert(found[i as int] == seen@[i as int]@);
        assert(texts(shown@.push(path)) =~= texts(shown@).push(path@));
        assert(goal.take(i + 1) =~= goal.take(i as int).push(path@));
        shown.push(path);
        i += 1;
    }
    assert(goal.take(i as int) =~= goal);
    (sort_texts(&shown), whole)
}

} // verus!
