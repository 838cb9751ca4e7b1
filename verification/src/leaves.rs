//! What the leaves of a reading tree tell the writers of sections.

use vstd::prelude::*;
use vstd::string::StringExecFns;
use vstd::utf8::encode_utf8;

use crate::editorial::{excerpt, excerpt_of, has_id};
use crate::findings::{finding_models, Discovery, Finding, FindingKind, FindingModel};
use crate::json::{
    field, member, member_models, models, nat_model, put, put_member, text_of, texts_json, texts_model,
    Json, JsonModel, Member, MemberModel,
};
use crate::model::Evidence;
use crate::order::{descending, lemma_ordered, lemma_positions, order_descending, ordered, positions};
use crate::packing::contains_id;
use crate::planning::places::{relative, relative_to};
use crate::planning::tree::{PassageSpan, TreeIndex, TreeNode};
use crate::purpose::{count_terms, term_score};
use crate::source::{digest, hash};
use crate::text::{
    blen, decimal, join, join_with, list_has, lowercase, number, same, texts, to_lowercase,
};

verus! {

/// What a leaf observed: its findings, and then its details.
pub open spec fn observations(node: TreeNode) -> Seq<FindingModel> {
    finding_models(node.findings@) + finding_models(node.details@)
}

/// The observation of a leaf at a position.
pub fn observation(node: &TreeNode, at: usize) -> (r: Option<&Finding>)
    ensures
        at < observations(*node).len() ==> r is Some && r->0@ == observations(*node)[at as int],
        at >= observations(*node).len() ==> r is None,
{
    let n: usize = node.findings.len();
    if at < n {
        Some(&node.findings[at])
    } else if at - n < node.details.len() {
        Some(&node.details[at - n])
    } else {
        None
    }
}

// ---------------------------------------------------------------------------
// Which section explains which leaf
// ---------------------------------------------------------------------------

/// The lists of texts of several sections.
pub open spec fn lists(v: Seq<Vec<String>>) -> Seq<Seq<Seq<char>>> {
    v.map_values(|l: Vec<String>| texts(l@))
}

/// What is searched in a leaf for the terms of a section.
pub open spec fn leaf_parts(node: TreeNode) -> Seq<Seq<char>> {
    observations(node).map_values(|f: FindingModel| f.topic + " "@ + f.observation)
        + node.spans@.map_values(|s: PassageSpan| s.path@)
}

/// The text of a leaf, empty where it has no node.
pub open spec fn leaf_text(tree: TreeIndex, leaf: Seq<char>) -> Seq<char> {
    match tree.node(leaf) {
        Some(node) => lowercase(join(leaf_parts(node), " "@)),
        None => Seq::empty(),
    }
}

/// How well a leaf matches the terms of a section.
pub open spec fn leaf_score(tree: TreeIndex, leaf: Seq<char>, terms: Seq<Seq<char>>) -> usize {
    term_score(leaf_text(tree, leaf), terms, terms.len()) as usize
}

/// The sections that reach a leaf.
pub open spec fn candidates(reached: Seq<Seq<Seq<char>>>, leaf: Seq<char>) -> Seq<usize> {
    positions(|s: int| reached[s].contains(leaf), reached.len())
}

/// One candidate takes a leaf before another: it matches better, or equally and
/// has won fewer leaves, or comes first.
pub open spec fn takes_before(scores: Seq<usize>, won: Seq<usize>, a: usize, b: usize) -> bool {
    ||| scores[a as int] > scores[b as int]
    ||| scores[a as int] == scores[b as int] && won[a as int] < won[b as int]
    ||| scores[a as int] == scores[b as int] && won[a as int] == won[b as int] && a < b
}

/// The candidate, among the first `count`, that takes a leaf.
pub open spec fn taker(
    found: Seq<usize>,
    scores: Seq<usize>,
    won: Seq<usize>,
    count: nat,
) -> usize
    decreases count,
{
    if count <= 1 {
        found[0]
    } else {
        let best = taker(found, scores, won, (count - 1) as nat);
        if takes_before(scores, won, found[count - 1], best) {
            found[count - 1]
        } else {
            best
        }
    }
}

/// A leaf and the section that explains it.
pub struct Claim {
    pub leaf: Seq<char>,
    pub section: usize,
}

/// The leaves that were given out, and how many each section won.
pub struct Assignment {
    pub claims: Seq<Claim>,
    pub won: Seq<usize>,
}

/// How well every section matches a leaf.
pub open spec fn leaf_scores(
    tree: TreeIndex,
    leaf: Seq<char>,
    terms: Seq<Seq<Seq<char>>>,
) -> Seq<usize> {
    terms.map_values(|t: Seq<Seq<char>>| leaf_score(tree, leaf, t))
}

/// What the first `count` leaves of a tree add to the assignment. Only a leaf
/// that several sections reach is given out.
pub open spec fn assign(
    tree: TreeIndex,
    reached: Seq<Seq<Seq<char>>>,
    terms: Seq<Seq<Seq<char>>>,
    count: nat,
) -> Assignment
    decreases count,
{
    if count == 0 {
        Assignment { claims: Seq::empty(), won: Seq::new(reached.len(), |s: int| 0usize) }
    } else {
        let before = assign(tree, reached, terms, (count - 1) as nat);
        let leaf = tree.leaves@[count - 1]@;
        let found = candidates(reached, leaf);
        if found.len() < 2 {
            before
        } else {
            let section = taker(
                found,
                leaf_scores(tree, leaf, terms),
                before.won,
                found.len(),
            );
            Assignment {
                claims: before.claims.push(Claim { leaf, section }),
                won: before.won.update(section as int, (before.won[section as int] + 1) as usize),
            }
        }
    }
}

/// The section that the last of the claims on a leaf gives it to.
pub open spec fn claimed(claims: Seq<Claim>, leaf: Seq<char>) -> Option<usize>
    decreases claims.len(),
{
    if claims.len() == 0 {
        None
    } else if claims.last().leaf == leaf {
        Some(claims.last().section)
    } else {
        claimed(claims.drop_last(), leaf)
    }
}

/// The section that explains a leaf, where several reach it.
pub open spec fn owner(
    tree: TreeIndex,
    reached: Seq<Seq<Seq<char>>>,
    terms: Seq<Seq<Seq<char>>>,
    leaf: Seq<char>,
) -> Option<usize> {
    claimed(assign(tree, reached, terms, tree.leaves@.len()).claims, leaf)
}

/// A section explains a leaf that it reaches: no other section was given it.
pub open spec fn explains(
    tree: TreeIndex,
    reached: Seq<Seq<Seq<char>>>,
    terms: Seq<Seq<Seq<char>>>,
    section: usize,
    leaf: Seq<char>,
) -> bool {
    match owner(tree, reached, terms, leaf) {
        Some(o) => o == section,
        None => true,
    }
}

/// The positions of the leaves that a section explains.
pub open spec fn kept(
    tree: TreeIndex,
    reached: Seq<Seq<Seq<char>>>,
    terms: Seq<Seq<Seq<char>>>,
    section: usize,
    mine: Seq<Seq<char>>,
) -> Seq<usize> {
    positions(|i: int| explains(tree, reached, terms, section, mine[i]), mine.len())
}

/// The leaves that a section explains, the best matching first.
pub open spec fn ranked_leaves(
    tree: TreeIndex,
    reached: Seq<Seq<Seq<char>>>,
    terms: Seq<Seq<Seq<char>>>,
    section: usize,
    mine: Seq<Seq<char>>,
) -> Seq<Seq<char>> {
    let own = kept(tree, reached, terms, section, mine);
    let leaves = own.map_values(|i: usize| mine[i as int]);
    let scores = leaves.map_values(
        |leaf: Seq<char>| leaf_score(tree, leaf, terms[section as int]),
    );
    ordered(leaves.len(), descending(scores)).map_values(|i: usize| leaves[i as int])
}

proof fn lemma_candidates(reached: Seq<Seq<Seq<char>>>, leaf: Seq<char>)
    requires
        reached.len() <= usize::MAX,
    ensures
        forall|s: usize| #[trigger] candidates(reached, leaf).contains(s) ==> s < reached.len(),
{
    let keep = |s: int| reached[s].contains(leaf);
    lemma_positions(keep, reached.len());
}

proof fn lemma_taker(found: Seq<usize>, scores: Seq<usize>, won: Seq<usize>, count: nat)
    requires
        1 <= count <= found.len(),
    ensures
        found.contains(taker(found, scores, won, count)),
    decreases count,
{
    if count == 1 {
        assert(found.contains(found[0]));
    } else {
        lemma_taker(found, scores, won, (count - 1) as nat);
        assert(found.contains(found[count - 1]));
    }
}

/// What was given out went to a section that reaches it, and every leaf that
/// several sections reach was given out.
proof fn lemma_assign(
    tree: TreeIndex,
    reached: Seq<Seq<Seq<char>>>,
    terms: Seq<Seq<Seq<char>>>,
    count: nat,
)
    requires
        count <= tree.leaves@.len(),
        reached.len() <= usize::MAX,
    ensures
        ({
            let a = assign(tree, reached, terms, count);
            &&& a.won.len() == reached.len()
            &&& forall|c: int|
                0 <= c < a.claims.len() ==> candidates(reached, (#[trigger] a.claims[c]).leaf).len()
                    >= 2 && candidates(reached, a.claims[c].leaf).contains(a.claims[c].section)
            &&& forall|k: int|
                0 <= k < count && candidates(reached, (#[trigger] tree.leaves@[k])@).len() >= 2
                    ==> exists|c: int|
                    0 <= c < a.claims.len() && (#[trigger] a.claims[c]).leaf == tree.leaves@[k]@
        }),
    decreases count,
{
    if count > 0 {
        lemma_assign(tree, reached, terms, (count - 1) as nat);
        let before = assign(tree, reached, terms, (count - 1) as nat);
        let now = assign(tree, reached, terms, count);
        let leaf = tree.leaves@[count - 1]@;
        let found = candidates(reached, leaf);
        if found.len() >= 2 {
            lemma_taker(found, leaf_scores(tree, leaf, terms), before.won, found.len());
            lemma_candidates(reached, leaf);
            assert(now.claims[before.claims.len() as int].leaf == leaf);
        }
        assert forall|k: int|
            0 <= k < count && candidates(reached, (#[trigger] tree.leaves@[k])@).len()
                >= 2 implies exists|c: int|
            0 <= c < now.claims.len() && (#[trigger] now.claims[c]).leaf == tree.leaves@[k]@ by {
            if k < count - 1 {
                let c = choose|c: int|
                    0 <= c < before.claims.len() && (#[trigger] before.claims[c]).leaf
                        == tree.leaves@[k]@;
                assert(now.claims[c].leaf == tree.leaves@[k]@);
            }
        }
        assert forall|c: int| 0 <= c < now.claims.len() implies candidates(
            reached,
            (#[trigger] now.claims[c]).leaf,
        ).len() >= 2 && candidates(reached, now.claims[c].leaf).contains(
            now.claims[c].section,
        ) by {
            if c < before.claims.len() {
                assert(now.claims[c] == before.claims[c]);
            }
        }
    }
}

proof fn lemma_claimed(claims: Seq<Claim>, leaf: Seq<char>)
    ensures
        match claimed(claims, leaf) {
            Some(s) => exists|c: int|
                0 <= c < claims.len() && (#[trigger] claims[c]).leaf == leaf && claims[c].section
                    == s,
            None => forall|c: int| 0 <= c < claims.len() ==> (#[trigger] claims[c]).leaf != leaf,
        },
    decreases claims.len(),
{
    if claims.len() > 0 {
        let t = claims.drop_last();
        lemma_claimed(t, leaf);
        if claims.last().leaf == leaf {
            assert(claims[claims.len() - 1].leaf == leaf);
        } else if claimed(t, leaf) is Some {
            let c = choose|c: int|
                0 <= c < t.len() && (#[trigger] t[c]).leaf == leaf && t[c].section == claimed(
                    t,
                    leaf,
                )->0;
            assert(claims[c].leaf == leaf);
        } else {
            assert forall|c: int| 0 <= c < claims.len() implies (#[trigger] claims[c]).leaf
                != leaf by {
                if c < t.len() {
                    assert(t[c] == claims[c]);
                }
            }
        }
    }
}

/// Each leaf has exactly one owner: of the sections that reach a leaf of the
/// tree, one and only one explains it.
pub proof fn each_leaf_has_one_owner(
    tree: TreeIndex,
    reached: Seq<Seq<Seq<char>>>,
    terms: Seq<Seq<Seq<char>>>,
    at: int,
)
    requires
        0 <= at < tree.leaves@.len(),
        reached.len() <= usize::MAX,
        candidates(reached, tree.leaves@[at]@).len() >= 1,
    ensures
        exists|s: usize|
            candidates(reached, tree.leaves@[at]@).contains(s) && #[trigger] explains(
                tree,
                reached,
                terms,
                s,
                tree.leaves@[at]@,
            ),
        forall|s: usize, t: usize|
            candidates(reached, tree.leaves@[at]@).contains(s) && candidates(
                reached,
                tree.leaves@[at]@,
            ).contains(t) && #[trigger] explains(tree, reached, terms, s, tree.leaves@[at]@)
                && #[trigger] explains(tree, reached, terms, t, tree.leaves@[at]@) ==> s == t,
{
    let leaf = tree.leaves@[at]@;
    let found = candidates(reached, leaf);
    let claims = assign(tree, reached, terms, tree.leaves@.len()).claims;
    lemma_assign(tree, reached, terms, tree.leaves@.len());
    lemma_claimed(claims, leaf);
    if found.len() >= 2 {
        assert(tree.leaves@[at]@ == leaf);
        let s = claimed(claims, leaf)->0;
        let c = choose|c: int|
            0 <= c < claims.len() && (#[trigger] claims[c]).leaf == leaf && claims[c].section == s;
        assert(found.contains(s));
        assert(explains(tree, reached, terms, s, leaf));
    } else {
        assert(claimed(claims, leaf) is None) by {
            if claimed(claims, leaf) is Some {
                let c = choose|c: int|
                    0 <= c < claims.len() && (#[trigger] claims[c]).leaf == leaf
                        && claims[c].section == claimed(claims, leaf)->0;
                assert(candidates(reached, claims[c].leaf).len() >= 2);
            }
        }
        assert(found.contains(found[0]));
        assert(explains(tree, reached, terms, found[0], leaf));
    }
}

/// Adds the topics and observations of some findings.
fn push_observations(parts: &mut Vec<String>, findings: &Vec<Finding>)
    ensures
        texts(final(parts)@) == texts(old(parts)@) + finding_models(findings@).map_values(
            |f: FindingModel| f.topic + " "@ + f.observation,
        ),
{
    let ghost start = texts(parts@);
    let ghost more = finding_models(findings@).map_values(
        |f: FindingModel| f.topic + " "@ + f.observation,
    );
    let mut i: usize = 0;
    assert(start + more.take(0) =~= start);
    while i < findings.len()
        invariant
            i <= findings@.len(),
            more == finding_models(findings@).map_values(
                |f: FindingModel| f.topic + " "@ + f.observation,
            ),
            texts(parts@) == start + more.take(i as int),
        decreases findings@.len() - i,
    {
        let f = &findings[i];
        let mut t = f.topic.clone();
        t.push_str(" ");
        t.push_str(f.observation.as_str());
        proof {
            assert(more[i as int] == t@);
            assert(texts(parts@.push(t)) =~= texts(parts@).push(t@));
            assert(start + more.take(i + 1) =~= (start + more.take(i as int)).push(t@));
        }
        parts.push(t);
        i += 1;
    }
    assert(more.take(i as int) =~= more);
}

/// The text of a leaf.
fn text_of_leaf(tree: &TreeIndex, leaf: &str) -> (r: String)
    ensures
        r@ == leaf_text(*tree, leaf@),
{
    let at = match tree.find(leaf) {
        Some(at) => at,
        None => {
            return String::new();
        },
    };
    let node = &tree.nodes[at];
    let ghost goal = leaf_parts(*node);
    let ghost first = observations(*node).map_values(
        |f: FindingModel| f.topic + " "@ + f.observation,
    );
    let mut parts: Vec<String> = Vec::new();
    push_observations(&mut parts, &node.findings);
    push_observations(&mut parts, &node.details);
    proof {
        assert(texts(parts@) =~= first);
        assert(goal.take(first.len() as int) =~= first);
    }
    let mut s: usize = 0;
    while s < node.spans.len()
        invariant
            s <= node.spans@.len(),
            goal == leaf_parts(*node),
            goal.len() == first.len() + node.spans@.len(),
            first.len() == observations(*node).len(),
            texts(parts@) == goal.take(first.len() + s),
        decreases node.spans@.len() - s,
    {
        let p = node.spans[s].path.clone();
        proof {
            assert(goal[first.len() + s] == p@);
            assert(texts(parts@.push(p)) =~= texts(parts@).push(p@));
            assert(goal.take(first.len() + s + 1) =~= goal.take(first.len() + s).push(p@));
        }
        parts.push(p);
        s += 1;
    }
    assert(goal.take(first.len() + s) =~= goal);
    let whole = join_with(&parts, " ");
    to_lowercase(whole.as_str())
}

/// The sections that reach a leaf.
fn find_candidates(reached: &Vec<Vec<String>>, leaf: &str) -> (r: Vec<usize>)
    ensures
        r@ == candidates(lists(reached@), leaf@),
        forall|k: int| 0 <= k < r@.len() ==> (#[trigger] r@[k]) < reached@.len(),
{
    let ghost all = lists(reached@);
    let ghost keep = |s: int| all[s].contains(leaf@);
    let mut r: Vec<usize> = Vec::new();
    let mut s: usize = 0;
    while s < reached.len()
        invariant
            s <= reached@.len(),
            all == lists(reached@),
            keep == (|s: int| all[s].contains(leaf@)),
            r@ == positions(keep, s as nat),
            forall|k: int| 0 <= k < r@.len() ==> (#[trigger] r@[k]) < reached@.len(),
        decreases reached@.len() - s,
    {
        assert(all[s as int] == texts(reached@[s as int]@));
        if list_has(&reached[s], leaf) {
            r.push(s);
        }
        s += 1;
    }
    r
}

/// A leaf that was given out, and the section that got it.
struct Given {
    leaf: String,
    section: usize,
}

/// The values of the leaves that were given out.
closed spec fn given_models(v: Seq<Given>) -> Seq<Claim> {
    v.map_values(|g: Given| Claim { leaf: g.leaf@, section: g.section })
}

proof fn lemma_won(
    tree: TreeIndex,
    reached: Seq<Seq<Seq<char>>>,
    terms: Seq<Seq<Seq<char>>>,
    count: nat,
)
    requires
        count <= tree.leaves@.len() <= usize::MAX,
        reached.len() <= usize::MAX,
    ensures
        forall|s: int|
            0 <= s < reached.len() ==> #[trigger] assign(tree, reached, terms, count).won[s]
                <= count,
    decreases count,
{
    lemma_assign(tree, reached, terms, count);
    if count > 0 {
        lemma_won(tree, reached, terms, (count - 1) as nat);
        lemma_assign(tree, reached, terms, (count - 1) as nat);
        let before = assign(tree, reached, terms, (count - 1) as nat);
        let leaf = tree.leaves@[count - 1]@;
        let found = candidates(reached, leaf);
        lemma_candidates(reached, leaf);
        if found.len() >= 2 {
            lemma_taker(found, leaf_scores(tree, leaf, terms), before.won, found.len());
        }
        assert forall|s: int| 0 <= s < reached.len() implies #[trigger] assign(
            tree,
            reached,
            terms,
            count,
        ).won[s] <= count by {
            assert(before.won[s] <= count - 1);
        }
    }
}

/// Gives out the leaves that several sections reach.
fn give_out(tree: &TreeIndex, reached: &Vec<Vec<String>>, terms: &Vec<Vec<String>>) -> (r: Vec<Given>)
    requires
        terms@.len() == reached@.len(),
    ensures
        given_models(r@) == assign(
            *tree,
            lists(reached@),
            lists(terms@),
            tree.leaves@.len(),
        ).claims,
{
    let ghost rs = lists(reached@);
    let ghost ts = lists(terms@);
    let sections: usize = reached.len();
    let leaves: usize = tree.leaves.len();
    let mut won: Vec<usize> = Vec::new();
    while won.len() < sections
        invariant
            won@.len() <= sections,
            forall|s: int| 0 <= s < won@.len() ==> won@[s] == 0,
        decreases sections - won@.len(),
    {
        won.push(0);
    }
    let mut given: Vec<Given> = Vec::new();
    let mut i: usize = 0;
    proof {
        assert(given_models(given@) =~= Seq::empty());
        assert(won@ =~= assign(*tree, rs, ts, 0).won);
    }
    while i < leaves
        invariant
            i <= leaves == tree.leaves@.len(),
            sections == reached@.len() == terms@.len() == won@.len(),
            rs == lists(reached@),
            ts == lists(terms@),
            given_models(given@) == assign(*tree, rs, ts, i as nat).claims,
            won@ == assign(*tree, rs, ts, i as nat).won,
        decreases leaves - i,
    {
        let leaf = &tree.leaves[i];
        let found = find_candidates(reached, leaf.as_str());
        proof {
            lemma_won(*tree, rs, ts, i as nat);
        }
        if found.len() >= 2 {
            let text = text_of_leaf(tree, leaf.as_str());
            let ghost scores = leaf_scores(*tree, leaf@, ts);
            let mut best: usize = found[0];
            let mut best_score: usize = count_terms(text.as_str(), &terms[best]);
            assert(ts[best as int] == texts(terms@[best as int]@));
            let mut k: usize = 1;
            while k < found.len()
                invariant
                    1 <= k <= found@.len(),
                    sections == reached@.len() == terms@.len() == won@.len(),
                    ts == lists(terms@),
                    scores == leaf_scores(*tree, leaf@, ts),
                    text@ == leaf_text(*tree, leaf@),
                    forall|k: int| 0 <= k < found@.len() ==> (#[trigger] found@[k]) < sections,
                    best < sections,
                    best == taker(found@, scores, won@, k as nat),
                    best_score == scores[best as int],
                decreases found@.len() - k,
            {
                let c: usize = found[k];
                assert(ts[c as int] == texts(terms@[c as int]@));
                let score = count_terms(text.as_str(), &terms[c]);
                assert(score == scores[c as int]);
                if score > best_score || (score == best_score && (won[c] < won[best] || (won[c]
                    == won[best] && c < best))) {
                    best = c;
                    best_score = score;
                }
                k += 1;
            }
            let more: usize = won[best] + 1;
            won.set(best, more);
            let g = Given { leaf: leaf.clone(), section: best };
            assert(given_models(given@.push(g)) =~= given_models(given@).push(
                Claim { leaf: leaf@, section: best },
            ));
            given.push(g);
        }
        i += 1;
    }
    given
}

/// The section that a leaf was given to.
fn given_to(given: &Vec<Given>, leaf: &str) -> (r: Option<usize>)
    ensures
        r == claimed(given_models(given@), leaf@),
{
    let ghost all = given_models(given@);
    let mut i: usize = given.len();
    assert(all.take(i as int) =~= all);
    while i > 0
        invariant
            i <= given@.len(),
            all == given_models(given@),
            claimed(all.take(i as int), leaf@) == claimed(all, leaf@),
        decreases i,
    {
        i -= 1;
        assert(all.take(i + 1).last() == all[i as int]);
        assert(all.take(i + 1).drop_last() =~= all.take(i as int));
        if same(given[i].leaf.as_str(), leaf) {
            return Some(given[i].section);
        }
    }
    None
}

/// The leaves of a section's branches that it explains, the best matching
/// first, and how many it leaves to other sections. `reached` holds the leaves
/// that each section reaches, `terms` the words that its title, key points and
/// query search for, and `mine` the leaves of the section at `index`.
pub fn assign_leaves(
    tree: &TreeIndex,
    reached: &Vec<Vec<String>>,
    terms: &Vec<Vec<String>>,
    index: usize,
    mine: &Vec<String>,
) -> (r: (Vec<String>, usize))
    requires
        terms@.len() == reached@.len(),
        index < reached@.len(),
    ensures
        texts(r.0@) == ranked_leaves(
            *tree,
            lists(reached@),
            lists(terms@),
            index,
            texts(mine@),
        ),
        r.1 == mine@.len() - kept(
            *tree,
            lists(reached@),
            lists(terms@),
            index,
            texts(mine@),
        ).len(),
{
    let ghost rs = lists(reached@);
    let ghost ts = lists(terms@);
    let ghost ms = texts(mine@);
    let given = give_out(tree, reached, terms);
    let ghost keep = |i: int| explains(*tree, rs, ts, index, ms[i]);
    let mut own: Vec<String> = Vec::new();
    let mut scores: Vec<usize> = Vec::new();
    let mut elsewhere: usize = 0;
    let mut i: usize = 0;
    assert(ts[index as int] == texts(terms@[index as int]@));
    while i < mine.len()
        invariant
            i <= mine@.len(),
            index < terms@.len(),
            rs == lists(reached@),
            ts == lists(terms@),
            ms == texts(mine@),
            ts[index as int] == texts(terms@[index as int]@),
            given_models(given@) == assign(*tree, rs, ts, tree.leaves@.len()).claims,
            keep == (|i: int| explains(*tree, rs, ts, index, ms[i])),
            elsewhere == i - positions(keep, i as nat).len(),
            own@.len() == positions(keep, i as nat).len(),
            scores@.len() == own@.len(),
            texts(own@) == positions(keep, i as nat).map_values(|k: usize| ms[k as int]),
            scores@ == texts(own@).map_values(
                |leaf: Seq<char>| leaf_score(*tree, leaf, ts[index as int]),
            ),
        decreases mine@.len() - i,
    {
        let leaf = &mine[i];
        assert(ms[i as int] == leaf@);
        let other = match given_to(&given, leaf.as_str()) {
            Some(o) => o != index,
            None => false,
        };
        if other {
            elsewhere += 1;
        } else {
            let text = text_of_leaf(tree, leaf.as_str());
            let score = count_terms(text.as_str(), &terms[index]);
            let l = leaf.clone();
            proof {
                let at = positions(keep, i as nat);
                assert(keep(i as int));
                assert(texts(own@.push(l)) =~= texts(own@).push(l@));
                assert(at.push(i).map_values(|k: usize| ms[k as int]) =~= at.map_values(
                    |k: usize| ms[k as int],
                ).push(l@));
                assert(scores@.push(score) =~= texts(own@.push(l)).map_values(
                    |leaf: Seq<char>| leaf_score(*tree, leaf, ts[index as int]),
                ));
            }
            scores.push(score);
            own.push(l);
        }
        i += 1;
    }
    let order = order_descending(&scores);
    let ghost leaves = texts(own@);
    let ghost goal = ranked_leaves(*tree, rs, ts, index, ms);
    proof {
        assert(kept(*tree, rs, ts, index, ms) == positions(keep, ms.len()));
        lemma_ordered(scores@.len(), descending(scores@));
        assert forall|k: int| 0 <= k < order@.len() implies #[trigger] order@[k] < own@.len() by {
            assert(order@.contains(order@[k]));
        }
        assert(goal == order@.map_values(|i: usize| leaves[i as int]));
    }
    let mut r: Vec<String> = Vec::new();
    let mut k: usize = 0;
    assert(texts(r@) =~= goal.take(0));
    while k < order.len()
        invariant
            k <= order@.len(),
            leaves == texts(own@),
            goal == order@.map_values(|i: usize| leaves[i as int]),
            forall|k: int| 0 <= k < order@.len() ==> #[trigger] order@[k] < own@.len(),
            texts(r@) == goal.take(k as int),
        decreases order@.len() - k,
    {
        let leaf = own[order[k]].clone();
        assert(texts(r@.push(leaf)) =~= texts(r@).push(leaf@));
        assert(goal.take(k + 1) =~= goal.take(k as int).push(leaf@));
        r.push(leaf);
        k += 1;
    }
    assert(goal.take(k as int) =~= goal);
    (r, elsewhere)
}

// ---------------------------------------------------------------------------
// Observations in requests
// ---------------------------------------------------------------------------

/// The name of a kind of finding.
pub open spec fn kind_name(kind: FindingKind) -> Seq<char> {
    match kind {
        FindingKind::Runtime => "runtime"@,
        FindingKind::Context => "context"@,
    }
}

/// The name of a kind of finding.
pub fn kind_text(kind: FindingKind) -> (r: &'static str)
    ensures
        r@ == kind_name(kind),
{
    match kind {
        FindingKind::Runtime => "runtime",
        FindingKind::Context => "context",
    }
}

/// A finding as it is stored.
pub open spec fn finding_record(f: FindingModel) -> JsonModel {
    JsonModel::Obj(
        seq![
            field("evidence_ids"@, texts_model(f.evidence_ids)),
            field("kind"@, JsonModel::Str(kind_name(f.kind))),
            field("observation"@, JsonModel::Str(f.observation)),
            field("topic"@, JsonModel::Str(f.topic)),
        ],
    )
}

/// A finding as it is stored.
pub fn finding_json(f: &Finding) -> (r: Json)
    ensures
        r@ == finding_record(f@),
{
    let members = vec![
        member("evidence_ids", texts_json(&f.evidence_ids)),
        member("kind", Json::string(kind_text(f.kind))),
        member("observation", Json::string(f.observation.as_str())),
        member("topic", Json::string(f.topic.as_str())),
    ];
    assert(member_models(members@) =~= finding_record(f@)->Obj_0);
    Json::object(members)
}

/// One more, as far as a number holds.
pub open spec fn one_more(n: usize) -> usize {
    if n == usize::MAX {
        n
    } else {
        (n + 1) as usize
    }
}

/// What fits of a view, and how much does not.
pub struct Shown {
    pub records: Seq<JsonModel>,
    pub used: nat,
    pub deferred: usize,
}

/// A record is shown where it still fits in the limit, and counted where not.
pub open spec fn show(state: Shown, record: JsonModel, limit: nat) -> Shown {
    let size = blen(text_of(record));
    if state.used + size > limit {
        Shown { deferred: one_more(state.deferred), ..state }
    } else {
        Shown { records: state.records.push(record), used: state.used + size, ..state }
    }
}

/// Nothing shown yet.
pub open spec fn nothing_shown() -> Shown {
    Shown { records: Seq::empty(), used: 0, deferred: 0 }
}

/// Where a span stands, shown against the sources.
pub open spec fn span_place(span: PassageSpan, roots: Seq<Seq<char>>) -> Seq<char> {
    relative_to(span.path@, roots) + ":"@ + decimal(span.start as nat) + "-"@ + decimal(
        span.end as nat,
    )
}

/// Where the cited ones of the first `count` spans stand.
pub open spec fn cited_places(
    spans: Seq<PassageSpan>,
    ids: Seq<Seq<char>>,
    roots: Seq<Seq<char>>,
    count: nat,
) -> Seq<Seq<char>>
    decreases count,
{
    if count == 0 {
        Seq::empty()
    } else {
        let so_far = cited_places(spans, ids, roots, (count - 1) as nat);
        if ids.contains(spans[count - 1].id@) {
            so_far.push(span_place(spans[count - 1], roots))
        } else {
            so_far
        }
    }
}

/// An observation of a leaf as a writer is shown it.
pub open spec fn observation_record(
    node: TreeNode,
    f: FindingModel,
    roots: Seq<Seq<char>>,
) -> JsonModel {
    JsonModel::Obj(
        seq![
            field("kind"@, JsonModel::Str(kind_name(f.kind))),
            field("observation"@, JsonModel::Str(excerpt_of(f.observation, 900))),
            field(
                "sources"@,
                texts_model(cited_places(node.spans@, f.evidence_ids, roots, node.spans@.len())),
            ),
            field("topic"@, JsonModel::Str(f.topic)),
        ],
    )
}

/// A passage that a shown observation of a leaf rests on.
pub struct CitedModel {
    pub leaf: Seq<char>,
    pub id: Seq<char>,
}

/// What a writer is shown of some leaves, and the passages behind it.
pub struct Memory {
    pub shown: Shown,
    pub cited: Seq<CitedModel>,
}

/// The passages that an observation of a leaf rests on.
pub open spec fn citations_of(leaf: Seq<char>, f: FindingModel) -> Seq<CitedModel> {
    f.evidence_ids.map_values(|id: Seq<char>| CitedModel { leaf, id })
}

/// What the observation of a leaf at position `round` adds.
pub open spec fn remember(
    tree: TreeIndex,
    roots: Seq<Seq<char>>,
    leaf: Seq<char>,
    round: nat,
    memory: Memory,
    limit: nat,
) -> Memory {
    match tree.node(leaf) {
        Some(node) if round < observations(node).len() => {
            let f = observations(node)[round as int];
            let shown = show(memory.shown, observation_record(node, f, roots), limit);
            if shown.records.len() > memory.shown.records.len() {
                Memory { shown, cited: memory.cited + citations_of(leaf, f) }
            } else {
                Memory { shown, ..memory }
            }
        },
        _ => memory,
    }
}

/// What the first `count` leaves add in one round.
pub open spec fn remember_round(
    tree: TreeIndex,
    roots: Seq<Seq<char>>,
    leaves: Seq<Seq<char>>,
    round: nat,
    memory: Memory,
    limit: nat,
    count: nat,
) -> Memory
    decreases count,
{
    if count == 0 {
        memory
    } else {
        remember(
            tree,
            roots,
            leaves[count - 1],
            round,
            remember_round(tree, roots, leaves, round, memory, limit, (count - 1) as nat),
            limit,
        )
    }
}

/// What the leaves add in the first `rounds` rounds: one observation from every
/// leaf before a second from any.
pub open spec fn remember_rounds(
    tree: TreeIndex,
    roots: Seq<Seq<char>>,
    leaves: Seq<Seq<char>>,
    limit: nat,
    rounds: nat,
) -> Memory
    decreases rounds,
{
    if rounds == 0 {
        Memory { shown: nothing_shown(), cited: Seq::empty() }
    } else {
        remember_round(
            tree,
            roots,
            leaves,
            (rounds - 1) as nat,
            remember_rounds(tree, roots, leaves, limit, (rounds - 1) as nat),
            limit,
            leaves.len(),
        )
    }
}

/// The most observations that one of the first `count` leaves made.
pub open spec fn deepest(tree: TreeIndex, leaves: Seq<Seq<char>>, count: nat) -> nat
    decreases count,
{
    if count == 0 {
        0
    } else {
        let so_far = deepest(tree, leaves, (count - 1) as nat);
        let here = match tree.node(leaves[count - 1]) {
            Some(node) => observations(node).len(),
            None => 0,
        };
        if here > so_far {
            here
        } else {
            so_far
        }
    }
}

/// What a writer is shown of the leaves that its section explains.
pub open spec fn memory_of(
    tree: TreeIndex,
    roots: Seq<Seq<char>>,
    leaves: Seq<Seq<char>>,
    limit: nat,
) -> Memory {
    remember_rounds(tree, roots, leaves, limit, deepest(tree, leaves, leaves.len()))
}

/// The observations of every node can be counted.
pub open spec fn countable(tree: TreeIndex) -> bool {
    forall|i: int|
        0 <= i < tree.nodes@.len() ==> observations(#[trigger] tree.nodes@[i]).len() <= usize::MAX
}

/// What is said with the observations in a section's scope.
pub open spec fn memory_policy() -> Seq<char> {
    "What the whole-source reading found in the parts of the source this section covers, one observation per leaf before a second from any. It is the checklist of behavior in scope, not evidence: cite supplied passages."@
}

/// The memory of a section as its request carries it.
pub open spec fn memory_record(memory: Memory, leaves: nat, elsewhere: nat) -> JsonModel {
    JsonModel::Obj(
        seq![
            field("deferred_findings"@, nat_model(memory.shown.deferred as nat)),
            field("findings"@, JsonModel::Arr(memory.shown.records)),
            field("leaves"@, nat_model(leaves)),
            field("leaves_left_to_other_sections"@, nat_model(elsewhere)),
            field("policy"@, JsonModel::Str(memory_policy())),
        ],
    )
}

proof fn lemma_round_fits(
    tree: TreeIndex,
    roots: Seq<Seq<char>>,
    leaves: Seq<Seq<char>>,
    round: nat,
    memory: Memory,
    limit: nat,
    count: nat,
)
    requires
        memory.shown.used <= limit,
    ensures
        remember_round(tree, roots, leaves, round, memory, limit, count).shown.used <= limit,
    decreases count,
{
    if count > 0 {
        lemma_round_fits(tree, roots, leaves, round, memory, limit, (count - 1) as nat);
    }
}

/// What a writer is shown fits in the limit.
pub proof fn memories_fit(
    tree: TreeIndex,
    roots: Seq<Seq<char>>,
    leaves: Seq<Seq<char>>,
    limit: nat,
    rounds: nat,
)
    ensures
        remember_rounds(tree, roots, leaves, limit, rounds).shown.used <= limit,
    decreases rounds,
{
    if rounds > 0 {
        memories_fit(tree, roots, leaves, limit, (rounds - 1) as nat);
        lemma_round_fits(
            tree,
            roots,
            leaves,
            (rounds - 1) as nat,
            remember_rounds(tree, roots, leaves, limit, (rounds - 1) as nat),
            limit,
            leaves.len(),
        );
    }
}

/// A passage that a shown observation of a leaf rests on.
pub struct CitedPassage {
    pub leaf: String,
    pub id: String,
}

/// The values of a list of cited passages.
pub open spec fn cited_models(v: Seq<CitedPassage>) -> Seq<CitedModel> {
    v.map_values(|c: CitedPassage| CitedModel { leaf: c.leaf@, id: c.id@ })
}

/// Where the cited spans of a node stand.
fn places_cited(spans: &Vec<PassageSpan>, ids: &Vec<String>, roots: &Vec<String>) -> (r: Vec<String>)
    ensures
        texts(r@) == cited_places(spans@, texts(ids@), texts(roots@), spans@.len()),
{
    let mut r: Vec<String> = Vec::new();
    let mut i: usize = 0;
    assert(texts(r@) =~= Seq::empty());
    while i < spans.len()
        invariant
            i <= spans@.len(),
            texts(r@) == cited_places(spans@, texts(ids@), texts(roots@), i as nat),
        decreases spans@.len() - i,
    {
        let span = &spans[i];
        if list_has(ids, span.id.as_str()) {
            let mut place = relative(span.path.as_str(), roots);
            place.push_str(":");
            place.push_str(number(span.start as u64).as_str());
            place.push_str("-");
            place.push_str(number(span.end as u64).as_str());
            assert(texts(r@.push(place)) =~= texts(r@).push(place@));
            r.push(place);
        }
        i += 1;
    }
    r
}

/// How deep the observations of some leaves go.
fn find_deepest(tree: &TreeIndex, leaves: &Vec<String>) -> (r: usize)
    requires
        countable(*tree),
    ensures
        r == deepest(*tree, texts(leaves@), leaves@.len()),
{
    let ghost ls = texts(leaves@);
    let mut best: usize = 0;
    let mut i: usize = 0;
    while i < leaves.len()
        invariant
            i <= leaves@.len(),
            countable(*tree),
            ls == texts(leaves@),
            best == deepest(*tree, ls, i as nat),
        decreases leaves@.len() - i,
    {
        assert(ls[i as int] == leaves@[i as int]@);
        if let Some(at) = tree.find(leaves[i].as_str()) {
            assert(observations(tree.nodes@[at as int]).len() <= usize::MAX);
            let here: usize = tree.nodes[at].findings.len() + tree.nodes[at].details.len();
            if here > best {
                best = here;
            }
        }
        i += 1;
    }
    best
}

/// What is remembered of some leaves: the observations that fit, what they cite,
/// and how many did not fit.
struct Remembered {
    records: Vec<Json>,
    cited: Vec<CitedPassage>,
    deferred: usize,
}

/// What a writer is shown of the leaves that its section explains.
#[verifier::rlimit(40)]
fn remember_leaves(tree: &TreeIndex, leaves: &Vec<String>, roots: &Vec<String>, limit: usize) -> (r:
    Remembered)
    requires
        countable(*tree),
    ensures
        ({
            let memory = memory_of(*tree, texts(roots@), texts(leaves@), limit as nat);
            &&& models(r.records@) == memory.shown.records
            &&& cited_models(r.cited@) == memory.cited
            &&& r.deferred == memory.shown.deferred
        }),
{
    let ghost ls = texts(leaves@);
    let ghost rs = texts(roots@);
    let rounds = find_deepest(tree, leaves);
    let mut records: Vec<Json> = Vec::new();
    let mut cited: Vec<CitedPassage> = Vec::new();
    let mut used: usize = 0;
    let mut deferred: usize = 0;
    let mut round: usize = 0;
    proof {
        assert(models(records@) =~= Seq::empty());
        assert(cited_models(cited@) =~= Seq::empty());
    }
    while round < rounds
        invariant
            round <= rounds,
            ls == texts(leaves@),
            rs == texts(roots@),
            used <= limit,
            remember_rounds(*tree, rs, ls, limit as nat, round as nat) == (Memory {
                shown: Shown { records: models(records@), used: used as nat, deferred },
                cited: cited_models(cited@),
            }),
        decreases rounds - round,
    {
        let ghost start = remember_rounds(*tree, rs, ls, limit as nat, round as nat);
        let mut i: usize = 0;
        while i < leaves.len()
            invariant
                i <= leaves@.len(),
                ls == texts(leaves@),
                rs == texts(roots@),
                used <= limit,
                remember_round(*tree, rs, ls, round as nat, start, limit as nat, i as nat) == (
                Memory {
                    shown: Shown { records: models(records@), used: used as nat, deferred },
                    cited: cited_models(cited@),
                }),
            decreases leaves@.len() - i,
        {
            let leaf = &leaves[i];
            assert(ls[i as int] == leaf@);
            if let Some(at) = tree.find(leaf.as_str()) {
                let node = &tree.nodes[at];
                if let Some(f) = observation(node, round) {
                    let sources = places_cited(&node.spans, &f.evidence_ids, roots);
                    let members = vec![
                        member("kind", Json::string(kind_text(f.kind))),
                        member(
                            "observation",
                            Json::string(excerpt(f.observation.as_str(), 900).as_str()),
                        ),
                        member("sources", texts_json(&sources)),
                        member("topic", Json::string(f.topic.as_str())),
                    ];
                    assert(member_models(members@) =~= observation_record(*node, f@, rs)->Obj_0);
                    let record = Json::object(members);
                    let size = record.size();
                    if size > limit - used {
                        if deferred < usize::MAX {
                            deferred += 1;
                        }
                    } else {
                        used += size;
                        assert(models(records@.push(record)) =~= models(records@).push(record@));
                        records.push(record);
                        let ghost before = cited_models(cited@);
                        let ghost more = citations_of(leaf@, f@);
                        let mut k: usize = 0;
                        assert(before + more.take(0) =~= before);
                        while k < f.evidence_ids.len()
                            invariant
                                k <= f.evidence_ids@.len(),
                                more == citations_of(leaf@, f@),
                                cited_models(cited@) == before + more.take(k as int),
                            decreases f.evidence_ids@.len() - k,
                        {
                            let c = CitedPassage {
                                leaf: leaf.clone(),
                                id: f.evidence_ids[k].clone(),
                            };
                            proof {
                                let m = CitedModel { leaf: c.leaf@, id: c.id@ };
                                assert(more[k as int] == m);
                                assert(cited_models(cited@.push(c)) =~= cited_models(cited@).push(
                                    m,
                                ));
                                assert(before + more.take(k + 1) =~= (before + more.take(
                                    k as int,
                                )).push(m));
                            }
                            cited.push(c);
                            k += 1;
                        }
                        assert(more.take(k as int) =~= more);
                    }
                }
            }
            i += 1;
        }
        round += 1;
    }
    Remembered { records, cited, deferred }
}

/// How many observations of a section's scope its writer is shown, and how many
/// are left out.
pub open spec fn scope_count(
    tree: TreeIndex,
    reached: Seq<Seq<Seq<char>>>,
    terms: Seq<Seq<Seq<char>>>,
    roots: Seq<Seq<char>>,
    limit: nat,
    section: usize,
) -> (nat, usize) {
    let leaves = ranked_leaves(tree, reached, terms, section, reached[section as int]);
    let shown = memory_of(tree, roots, leaves, limit).shown;
    (shown.records.len(), shown.deferred)
}

/// For every section, how many observations of its scope its writer is shown,
/// and how many are left out.
pub fn scope_counts(
    tree: &TreeIndex,
    reached: &Vec<Vec<String>>,
    terms: &Vec<Vec<String>>,
    roots: &Vec<String>,
    limit: usize,
) -> (r: Vec<(usize, usize)>)
    requires
        countable(*tree),
        terms@.len() == reached@.len(),
    ensures
        r@.len() == reached@.len(),
        forall|i: int|
            0 <= i < r@.len() ==> (((#[trigger] r@[i]).0 as nat, r@[i].1) == scope_count(
                *tree,
                lists(reached@),
                lists(terms@),
                texts(roots@),
                limit as nat,
                i as usize,
            )),
{
    let ghost rs = lists(reached@);
    let ghost ts = lists(terms@);
    let mut r: Vec<(usize, usize)> = Vec::new();
    let mut i: usize = 0;
    while i < reached.len()
        invariant
            i <= reached@.len(),
            countable(*tree),
            terms@.len() == reached@.len(),
            rs == lists(reached@),
            ts == lists(terms@),
            r@.len() == i,
            forall|k: int|
                0 <= k < i ==> (((#[trigger] r@[k]).0 as nat, r@[k].1) == scope_count(
                    *tree,
                    rs,
                    ts,
                    texts(roots@),
                    limit as nat,
                    k as usize,
                )),
        decreases reached@.len() - i,
    {
        assert(rs[i as int] == texts(reached@[i as int]@));
        let (leaves, _) = assign_leaves(tree, reached, terms, i, &reached[i]);
        let memory = remember_leaves(tree, &leaves, roots, limit);
        assert(models(memory.records@).len() == memory.records@.len());
        r.push((memory.records.len(), memory.deferred));
        i += 1;
    }
    r
}

/// The readings of the source that a section was planned to cover, and the
/// passages that they rest on. `leaves` are those that the section explains, and
/// `elsewhere` is how many it leaves to other sections.
pub fn branch_memory(
    tree: &TreeIndex,
    leaves: &Vec<String>,
    elsewhere: usize,
    roots: &Vec<String>,
    limit: usize,
) -> (r: (Json, Vec<CitedPassage>))
    requires
        countable(*tree),
    ensures
        ({
            let memory = memory_of(*tree, texts(roots@), texts(leaves@), limit as nat);
            &&& r.0@ == memory_record(memory, leaves@.len(), elsewhere as nat)
            &&& cited_models(r.1@) == memory.cited
        }),
{
    let found = remember_leaves(tree, leaves, roots, limit);
    let members = vec![
        member("deferred_findings", Json::count(found.deferred)),
        member("findings", Json::array(found.records)),
        member("leaves", Json::count(leaves.len())),
        member("leaves_left_to_other_sections", Json::count(elsewhere)),
        member(
            "policy",
            Json::string(
                "What the whole-source reading found in the parts of the source this section covers, one observation per leaf before a second from any. It is the checklist of behavior in scope, not evidence: cite supplied passages.",
            ),
        ),
    ];
    proof {
        let memory = memory_of(*tree, texts(roots@), texts(leaves@), limit as nat);
        assert(member_models(members@) =~= memory_record(
            memory,
            leaves@.len(),
            elsewhere as nat,
        )->Obj_0);
    }
    (Json::object(members), found.cited)
}

/// The passages of a leaf that was opened.
pub struct OpenedLeaf {
    pub key: String,
    pub passages: Vec<Evidence>,
}

/// The passage with an id, in the first opened leaf with a key.
pub open spec fn opened_passage(
    opened: Seq<OpenedLeaf>,
    leaf: Seq<char>,
    id: Seq<char>,
    from: nat,
) -> Option<Evidence>
    decreases opened.len() - from,
{
    if from >= opened.len() {
        None
    } else if opened[from as int].key@ == leaf {
        first_with_id(opened[from as int].passages@, id, 0)
    } else {
        opened_passage(opened, leaf, id, from + 1)
    }
}

/// The first passage with an id.
pub open spec fn first_with_id(list: Seq<Evidence>, id: Seq<char>, from: nat) -> Option<Evidence>
    decreases list.len() - from,
{
    if from >= list.len() {
        None
    } else if list[from as int].id@ == id {
        Some(list[from as int])
    } else {
        first_with_id(list, id, from + 1)
    }
}

/// The passages behind the first `count` citations, each once.
pub open spec fn gathered(
    cited: Seq<CitedModel>,
    opened: Seq<OpenedLeaf>,
    count: nat,
) -> Seq<Evidence>
    decreases count,
{
    if count == 0 {
        Seq::empty()
    } else {
        let so_far = gathered(cited, opened, (count - 1) as nat);
        match opened_passage(opened, cited[count - 1].leaf, cited[count - 1].id, 0) {
            Some(e) if !has_id(so_far, e.id@) => so_far.push(e),
            _ => so_far,
        }
    }
}

/// The passages behind the shown observations, each once.
pub fn gather_passages(cited: &Vec<CitedPassage>, opened: &Vec<OpenedLeaf>) -> (r: Vec<Evidence>)
    ensures
        r@ == gathered(cited_models(cited@), opened@, cited@.len()),
{
    let ghost cs = cited_models(cited@);
    let mut r: Vec<Evidence> = Vec::new();
    let mut i: usize = 0;
    while i < cited.len()
        invariant
            i <= cited@.len(),
            cs == cited_models(cited@),
            r@ == gathered(cs, opened@, i as nat),
        decreases cited@.len() - i,
    {
        let leaf = &cited[i].leaf;
        let id = &cited[i].id;
        assert(cs[i as int].leaf == leaf@ && cs[i as int].id == id@);
        let mut o: usize = 0;
        while o < opened.len() && !same(opened[o].key.as_str(), leaf.as_str())
            invariant
                o <= opened@.len(),
                opened_passage(opened@, leaf@, id@, o as nat) == opened_passage(
                    opened@,
                    leaf@,
                    id@,
                    0,
                ),
            decreases opened@.len() - o,
        {
            o += 1;
        }
        if o < opened.len() {
            let list = &opened[o].passages;
            let mut p: usize = 0;
            while p < list.len() && !same(list[p].id.as_str(), id.as_str())
                invariant
                    p <= list@.len(),
                    first_with_id(list@, id@, p as nat) == first_with_id(list@, id@, 0),
                decreases list@.len() - p,
            {
                p += 1;
            }
            if p < list.len() && !contains_id(&r, list[p].id.as_str()) {
                r.push(list[p].clone());
            }
        }
        i += 1;
    }
    r
}

// ---------------------------------------------------------------------------
// Observations behind supplied passages
// ---------------------------------------------------------------------------

/// A passage overlaps a span of the same file.
pub open spec fn overlaps_span(e: Evidence, span: PassageSpan) -> bool {
    e.path@ == span.path@ && e.start <= span.end && e.end >= span.start
}

/// An observation of a node rests on a span that a supplied passage overlaps.
pub open spec fn rests_on(node: TreeNode, f: FindingModel, evidence: Seq<Evidence>) -> bool {
    exists|s: int, e: int|
        0 <= s < node.spans@.len() && 0 <= e < evidence.len() && f.evidence_ids.contains(
            (#[trigger] node.spans@[s]).id@,
        ) && overlaps_span(#[trigger] evidence[e], node.spans@[s])
}

/// What was seen and shown of observations.
pub struct SeenShown {
    pub shown: Shown,
    pub seen: Seq<Seq<char>>,
}

/// The hash of a stored finding.
pub open spec fn finding_hash(f: FindingModel) -> Seq<char> {
    digest(encode_utf8(text_of(finding_record(f))))
}

/// What an observation adds: one that rests on supplied passages, and that was
/// not seen before.
pub open spec fn recall(
    node: TreeNode,
    f: FindingModel,
    evidence: Seq<Evidence>,
    state: SeenShown,
    limit: nat,
) -> SeenShown {
    if !rests_on(node, f, evidence) || state.seen.contains(finding_hash(f)) {
        state
    } else {
        SeenShown {
            shown: show(state.shown, finding_record(f), limit),
            seen: state.seen.push(finding_hash(f)),
        }
    }
}

/// What the first `count` of some observations of a node add.
pub open spec fn recall_list(
    node: TreeNode,
    list: Seq<FindingModel>,
    evidence: Seq<Evidence>,
    state: SeenShown,
    limit: nat,
    count: nat,
) -> SeenShown
    decreases count,
{
    if count == 0 {
        state
    } else {
        recall(
            node,
            list[count - 1],
            evidence,
            recall_list(node, list, evidence, state, limit, (count - 1) as nat),
            limit,
        )
    }
}

/// What a leaf adds: its findings, and then its details.
pub open spec fn recall_leaf(
    tree: TreeIndex,
    leaf: Seq<char>,
    evidence: Seq<Evidence>,
    state: SeenShown,
    limit: nat,
) -> SeenShown {
    match tree.node(leaf) {
        None => state,
        Some(node) => {
            let a = finding_models(node.findings@);
            let b = finding_models(node.details@);
            recall_list(
                node,
                b,
                evidence,
                recall_list(node, a, evidence, state, limit, a.len()),
                limit,
                b.len(),
            )
        },
    }
}

/// What the first `count` leaves of a tree add.
pub open spec fn recalled(
    tree: TreeIndex,
    evidence: Seq<Evidence>,
    limit: nat,
    count: nat,
) -> SeenShown
    decreases count,
{
    if count == 0 {
        SeenShown { shown: nothing_shown(), seen: Seq::empty() }
    } else {
        recall_leaf(
            tree,
            tree.leaves@[count - 1]@,
            evidence,
            recalled(tree, evidence, limit, (count - 1) as nat),
            limit,
        )
    }
}

/// What is said with observations behind supplied passages.
pub open spec fn recall_policy() -> Seq<char> {
    "Preserved observations for navigation. Cite only original evidence supplied to this writing request after verifying each claim."@
}

/// Observations behind supplied passages, as a request carries them.
pub open spec fn recall_record(shown: Shown) -> JsonModel {
    JsonModel::Obj(
        seq![
            field("deferred_findings"@, nat_model(shown.deferred as nat)),
            field("findings"@, JsonModel::Arr(shown.records)),
            field("policy"@, JsonModel::Str(recall_policy())),
        ],
    )
}

/// Whether an observation rests on a span that a supplied passage overlaps.
fn is_supplied(node: &TreeNode, f: &Finding, evidence: &Vec<Evidence>) -> (r: bool)
    ensures
        r == rests_on(*node, f@, evidence@),
{
    let mut s: usize = 0;
    while s < node.spans.len()
        invariant
            s <= node.spans@.len(),
            forall|i: int, e: int|
                0 <= i < s && 0 <= e < evidence@.len() ==> !(f@.evidence_ids.contains(
                    (#[trigger] node.spans@[i]).id@,
                ) && overlaps_span(#[trigger] evidence@[e], node.spans@[i])),
        decreases node.spans@.len() - s,
    {
        let span = &node.spans[s];
        if list_has(&f.evidence_ids, span.id.as_str()) {
            let mut e: usize = 0;
            while e < evidence.len()
                invariant
                    e <= evidence@.len(),
                    s < node.spans@.len(),
                    *span == node.spans@[s as int],
                    f@.evidence_ids.contains(span.id@),
                    forall|k: int|
                        0 <= k < e ==> !overlaps_span(#[trigger] evidence@[k], *span),
                decreases evidence@.len() - e,
            {
                let p = &evidence[e];
                if same(p.path.as_str(), span.path.as_str()) && p.start <= span.end && p.end
                    >= span.start {
                    assert(overlaps_span(evidence@[e as int], node.spans@[s as int]));
                    return true;
                }
                e += 1;
            }
        }
        s += 1;
    }
    false
}

/// What is shown so far of observations behind supplied passages.
struct Recall {
    records: Vec<Json>,
    seen: Vec<String>,
    used: usize,
    deferred: usize,
}

impl Recall {
    closed spec fn state(self) -> SeenShown {
        SeenShown {
            shown: Shown {
                records: models(self.records@),
                used: self.used as nat,
                deferred: self.deferred,
            },
            seen: texts(self.seen@),
        }
    }

    /// Adds some observations of a node.
    fn add(&mut self, node: &TreeNode, list: &Vec<Finding>, evidence: &Vec<Evidence>, limit: usize)
        requires
            old(self).used <= limit,
        ensures
            final(self).used <= limit,
            final(self).state() == recall_list(
                *node,
                finding_models(list@),
                evidence@,
                old(self).state(),
                limit as nat,
                list@.len(),
            ),
    {
        let ghost start = self.state();
        let ghost fs = finding_models(list@);
        let mut i: usize = 0;
        while i < list.len()
            invariant
                i <= list@.len(),
                fs == finding_models(list@),
                self.used <= limit,
                self.state() == recall_list(*node, fs, evidence@, start, limit as nat, i as nat),
            decreases list@.len() - i,
        {
            let f = &list[i];
            assert(fs[i as int] == f@);
            if is_supplied(node, f, evidence) {
                let record = finding_json(f);
                let text = record.to_text();
                let mark = hash(text.as_str().as_bytes());
                if !list_has(&self.seen, mark.as_str()) {
                    let size: usize = text.as_str().as_bytes().len();
                    assert(texts(self.seen@.push(mark)) =~= texts(self.seen@).push(mark@));
                    self.seen.push(mark);
                    if size > limit - self.used {
                        if self.deferred < usize::MAX {
                            self.deferred = self.deferred + 1;
                        }
                    } else {
                        self.used = self.used + size;
                        assert(models(self.records@.push(record)) =~= models(self.records@).push(
                            record@,
                        ));
                        self.records.push(record);
                    }
                }
            }
            i += 1;
        }
    }
}

/// The leaf observations that rest on supplied passages, those that fit in the
/// limit, and how many do not.
pub fn section_memory(tree: &TreeIndex, evidence: &Vec<Evidence>, limit: usize) -> (r: Json)
    ensures
        r@ == recall_record(
            recalled(*tree, evidence@, limit as nat, tree.leaves@.len()).shown,
        ),
{
    let mut recall = Recall { records: Vec::new(), seen: Vec::new(), used: 0, deferred: 0 };
    let mut i: usize = 0;
    proof {
        assert(models(recall.records@) =~= Seq::empty());
        assert(texts(recall.seen@) =~= Seq::empty());
    }
    while i < tree.leaves.len()
        invariant
            i <= tree.leaves@.len(),
            recall.used <= limit,
            recall.state() == recalled(*tree, evidence@, limit as nat, i as nat),
        decreases tree.leaves@.len() - i,
    {
        if let Some(at) = tree.find(tree.leaves[i].as_str()) {
            let node = &tree.nodes[at];
            assert(finding_models(node.findings@).len() == node.findings@.len());
            assert(finding_models(node.details@).len() == node.details@.len());
            recall.add(node, &node.findings, evidence, limit);
            recall.add(node, &node.details, evidence, limit);
        }
        i += 1;
    }
    let members = vec![
        member("deferred_findings", Json::count(recall.deferred)),
        member("findings", Json::array(recall.records)),
        member(
            "policy",
            Json::string(
                "Preserved observations for navigation. Cite only original evidence supplied to this writing request after verifying each claim.",
            ),
        ),
    ];
    proof {
        let shown = recalled(*tree, evidence@, limit as nat, tree.leaves@.len()).shown;
        assert(member_models(members@) =~= recall_record(shown)->Obj_0);
    }
    Json::object(members)
}

// ---------------------------------------------------------------------------
// Supporting findings
// ---------------------------------------------------------------------------

/// The citations of a finding, where they are carried.
pub open spec fn ids_member(f: FindingModel, with_ids: bool) -> Seq<MemberModel> {
    if with_ids {
        seq![field("evidence_ids"@, texts_model(f.evidence_ids))]
    } else {
        Seq::empty()
    }
}

/// Findings in equal shares of a budget.
pub open spec fn supporting_records(details: Seq<Finding>, with_ids: bool) -> Seq<JsonModel> {
    Seq::new(
        details.len(),
        |i: int| supporting_record(details[i]@, with_ids, supporting_share(details.len())),
    )
}

/// A supporting finding with an observation of its own.
pub open spec fn supporting(f: FindingModel, with_ids: bool, text: Seq<char>) -> Seq<MemberModel> {
    ids_member(f, with_ids) + seq![
        field("kind"@, JsonModel::Str(kind_name(f.kind))),
        field("observation"@, JsonModel::Str(text)),
        field("topic"@, JsonModel::Str(f.topic)),
    ]
}

/// The difference of two numbers, and zero where it is none.
pub open spec fn less(a: nat, b: nat) -> nat {
    if a < b {
        0
    } else {
        (a - b) as nat
    }
}

/// How many bytes of an observation a share leaves room for.
pub open spec fn observation_room(f: FindingModel, with_ids: bool, per: nat) -> nat {
    let whole = blen(text_of(JsonModel::Obj(supporting(f, with_ids, f.observation))));
    less(per, less(whole, blen(f.observation)) + 40)
}

/// A supporting finding as a request carries it.
pub open spec fn supporting_record(f: FindingModel, with_ids: bool, per: nat) -> JsonModel {
    let room = observation_room(f, with_ids, per);
    JsonModel::Obj(
        put_member(
            supporting(f, with_ids, excerpt_of(f.observation, room)),
            "excerpted"@,
            JsonModel::Bool(blen(f.observation) > room),
        ),
    )
}

/// The share of each of so many findings.
pub open spec fn supporting_share(count: nat) -> nat {
    20_000nat / if count == 0 {
        1nat
    } else {
        count
    }
}

/// A supporting finding with an observation of its own.
fn supporting_members(f: &Finding, with_ids: bool, text: &str) -> (r: Vec<Member>)
    ensures
        member_models(r@) == supporting(f@, with_ids, text@),
{
    let mut r: Vec<Member> = Vec::new();
    if with_ids {
        r.push(member("evidence_ids", texts_json(&f.evidence_ids)));
    }
    assert(member_models(r@) =~= ids_member(f@, with_ids));
    r.push(member("kind", Json::string(kind_text(f.kind))));
    r.push(member("observation", Json::string(text)));
    r.push(member("topic", Json::string(f.topic.as_str())));
    assert(member_models(r@) =~= supporting(f@, with_ids, text@));
    r
}

/// The details of a discovery in equal shares of a budget. A request that never
/// cites a passage is sent the observations without ids.
pub fn context(discovery: &Discovery, with_ids: bool) -> (r: Vec<Json>)
    ensures
        models(r@) == supporting_records(discovery.details@, with_ids),
{
    let count: usize = discovery.details.len();
    let per: usize = 20_000 / (if count == 0 {
        1
    } else {
        count
    });
    let ghost share = supporting_share(discovery.details@.len());
    let mut r: Vec<Json> = Vec::new();
    let mut i: usize = 0;
    while i < count
        invariant
            i <= count == discovery.details@.len(),
            per == share,
            r@.len() == i,
            forall|k: int|
                0 <= k < i ==> (#[trigger] r@[k])@ == supporting_record(
                    discovery.details@[k]@,
                    with_ids,
                    share,
                ),
        decreases count - i,
    {
        let f = &discovery.details[i];
        let plain = supporting_members(f, with_ids, f.observation.as_str());
        let whole: usize = Json::object(plain).size();
        let bytes: usize = f.observation.as_str().as_bytes().len();
        let rest: usize = if whole < bytes {
            0
        } else {
            whole - bytes
        };
        let room: usize = if per < 40 || per - 40 < rest {
            0
        } else {
            per - 40 - rest
        };
        assert(room == observation_room(f@, with_ids, share));
        let text = excerpt(f.observation.as_str(), room);
        let mut members = supporting_members(f, with_ids, text.as_str());
        put(&mut members, "excerpted", Json::Bool(bytes > room));
        r.push(Json::object(members));
        i += 1;
    }
    assert(models(r@) =~= supporting_records(discovery.details@, with_ids));
    r
}

} // verus!
