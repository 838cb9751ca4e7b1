//! What a writer is shown: every observation of its scope that fits, one of each
//! leaf before a second of any, and how many are left out.

use vstd::prelude::*;

use super::lists::{
    cost_at, firsts, has_key, lemma_firsts_push, lemma_take_none, lemma_take_one, takes_what_fits, upto,
};
use crate::findings::{finding_models, FindingModel};
use crate::json::{text_of, JsonModel};
use crate::leaves::{
    citations_of, cited_places, deepest, finding_hash, finding_record, memory_of, observation_record,
    observations, recall, recall_list, recalled, remember, remember_round, remember_rounds, rests_on,
    span_place, CitedModel, Memory, SeenShown, Shown,
};
use crate::model::Evidence;
use crate::order::{lemma_filter_none, lemma_filter_step};
use crate::planning::tree::{PassageSpan, TreeIndex, TreeNode};
use crate::text::blen;

verus! {

/// One observation of a leaf: the key of the leaf and the position.
pub type Noted = (Seq<char>, int);

/// A leaf made an observation at a position.
pub open spec fn noted(tree: TreeIndex, round: int) -> spec_fn(Seq<char>) -> bool {
    |leaf: Seq<char>| tree.node(leaf) is Some && round < observations(tree.node(leaf)->0).len()
}

/// The observations that some leaves made at a position, in the order of the
/// leaves.
pub open spec fn notes_of_round(tree: TreeIndex, leaves: Seq<Seq<char>>) -> spec_fn(int) -> Seq<
    Noted,
> {
    |round: int|
        leaves.filter(noted(tree, round)).map_values(|leaf: Seq<char>| (leaf, round))
}

/// All observations of some leaves: the first of each, then the second of each,
/// and so on.
pub open spec fn notes(tree: TreeIndex, leaves: Seq<Seq<char>>, rounds: nat) -> Seq<Noted> {
    upto(rounds).flat_map(notes_of_round(tree, leaves))
}

/// An observation as a writer is shown it.
pub open spec fn note_record(tree: TreeIndex, roots: Seq<Seq<char>>) -> spec_fn(
    Noted,
) -> JsonModel {
    |n: Noted|
        observation_record(tree.node(n.0)->0, observations(tree.node(n.0)->0)[n.1], roots)
}

/// What an observation takes.
pub open spec fn note_cost(tree: TreeIndex, roots: Seq<Seq<char>>) -> spec_fn(Noted) -> nat {
    |n: Noted| blen(text_of(note_record(tree, roots)(n)))
}

/// What an observation rests on.
pub open spec fn note_citations(tree: TreeIndex) -> spec_fn(Noted) -> Seq<CitedModel> {
    |n: Noted|
        observations(tree.node(n.0)->0)[n.1].evidence_ids.map_values(
            |id: Seq<char>| CitedModel { leaf: n.0, id },
        )
}

/// The items at some positions.
pub open spec fn picked<A>(all: Seq<A>, at: Seq<int>) -> Seq<A> {
    at.map_values(|i: int| all[i])
}

/// A memory holds of some observations what fits, in their order, with all that
/// it rests on, and counts the rest.
pub open spec fn remembers(
    tree: TreeIndex,
    roots: Seq<Seq<char>>,
    limit: nat,
    all: Seq<Noted>,
    at: Seq<int>,
    memory: Memory,
) -> bool {
    &&& takes_what_fits(all, note_cost(tree, roots), limit, at)
    &&& memory.shown.records == picked(all, at).map_values(note_record(tree, roots))
    &&& memory.cited == picked(all, at).flat_map(note_citations(tree))
    &&& memory.shown.used == cost_at(all, note_cost(tree, roots), at)
    &&& all.len() <= usize::MAX ==> memory.shown.deferred == all.len() - at.len()
    &&& at.len() <= all.len()
}

proof fn lemma_note(
    tree: TreeIndex,
    roots: Seq<Seq<char>>,
    limit: nat,
    all: Seq<Noted>,
    at: Seq<int>,
    memory: Memory,
    n: Noted,
) -> (now: Seq<int>)
    requires
        remembers(tree, roots, limit, all, at, memory),
        0 <= n.1,
        noted(tree, n.1)(n.0),
    ensures
        remembers(
            tree,
            roots,
            limit,
            all.push(n),
            now,
            remember(tree, roots, n.0, n.1 as nat, memory, limit),
        ),
{
    let cost = note_cost(tree, roots);
    lemma_take_one(all, n, cost, limit, at);
    let node = tree.node(n.0)->0;
    let f = observations(node)[n.1];
    let record = observation_record(node, f, roots);
    assert(note_record(tree, roots)(n) == record);
    assert(cost(n) == blen(text_of(record)));
    let more = all.push(n);
    let after = remember(tree, roots, n.0, n.1 as nat, memory, limit);
    assert forall|k: int| 0 <= k < at.len() implies all[#[trigger] at[k]] == more[at[k]] by {
        assert(0 <= at[k] < all.len());
    }
    if cost_at(all, cost, at) + cost(n) <= limit {
        let now = at.push(all.len() as int);
        let kept = picked(all, at);
        assert(picked(more, now) =~= kept.push(n));
        assert(kept.push(n).map_values(note_record(tree, roots)) =~= kept.map_values(
            note_record(tree, roots),
        ).push(record));
        kept.lemma_flat_map_push(note_citations(tree), n);
        assert(citations_of(n.0, f) =~= note_citations(tree)(n));
        now
    } else {
        assert(picked(more, at) =~= picked(all, at));
        at
    }
}

proof fn lemma_round(
    tree: TreeIndex,
    roots: Seq<Seq<char>>,
    limit: nat,
    leaves: Seq<Seq<char>>,
    round: nat,
    all: Seq<Noted>,
    at: Seq<int>,
    memory: Memory,
    count: nat,
) -> (now: Seq<int>)
    requires
        count <= leaves.len(),
        remembers(tree, roots, limit, all, at, memory),
    ensures
        remembers(
            tree,
            roots,
            limit,
            all + leaves.take(count as int).filter(noted(tree, round as int)).map_values(
                |leaf: Seq<char>| (leaf, round as int),
            ),
            now,
            remember_round(tree, roots, leaves, round, memory, limit, count),
        ),
    decreases count,
{
    let keep = noted(tree, round as int);
    let pair = |leaf: Seq<char>| (leaf, round as int);
    lemma_filter_none(leaves, keep);
    if count == 0 {
        assert(all + Seq::<Seq<char>>::empty().map_values(pair) =~= all);
        at
    } else {
        let n = count - 1;
        let old = lemma_round(tree, roots, limit, leaves, round, all, at, memory, n as nat);
        lemma_filter_step(leaves, keep, n);
        let before = leaves.take(n).filter(keep);
        let had = all + before.map_values(pair);
        let leaf = leaves[n];
        let was = remember_round(tree, roots, leaves, round, memory, limit, n as nat);
        if keep(leaf) {
            assert(all + before.push(leaf).map_values(pair) =~= had.push((leaf, round as int)));
            lemma_note(tree, roots, limit, had, old, was, (leaf, round as int))
        } else {
            old
        }
    }
}

proof fn lemma_rounds(
    tree: TreeIndex,
    roots: Seq<Seq<char>>,
    limit: nat,
    leaves: Seq<Seq<char>>,
    rounds: nat,
) -> (at: Seq<int>)
    ensures
        remembers(
            tree,
            roots,
            limit,
            notes(tree, leaves, rounds),
            at,
            remember_rounds(tree, roots, leaves, limit, rounds),
        ),
    decreases rounds,
{
    let f = notes_of_round(tree, leaves);
    if rounds == 0 {
        lemma_take_none(note_cost(tree, roots), limit);
        assert(upto(0).map_values(f) =~= Seq::empty());
        assert(notes(tree, leaves, 0) =~= Seq::empty());
        let none = Seq::<int>::empty();
        let nothing = Seq::<Noted>::empty();
        assert(picked(nothing, none) =~= Seq::empty());
        assert(Seq::<Noted>::empty().map_values(note_record(tree, roots)) =~= Seq::empty());
        assert(Seq::<Noted>::empty().map_values(note_citations(tree)) =~= Seq::empty());
        none
    } else {
        let n = (rounds - 1) as nat;
        let old = lemma_rounds(tree, roots, limit, leaves, n);
        upto(rounds).lemma_flat_map_take_append(f, n as int);
        assert(upto(rounds).take(n as int) =~= upto(n));
        assert(upto(rounds).take(n as int + 1) =~= upto(rounds));
        assert(leaves.take(leaves.len() as int) =~= leaves);
        lemma_round(
            tree,
            roots,
            limit,
            leaves,
            n,
            notes(tree, leaves, n),
            old,
            remember_rounds(tree, roots, leaves, limit, n),
            leaves.len(),
        )
    }
}

proof fn lemma_deepest(tree: TreeIndex, leaves: Seq<Seq<char>>, count: nat, i: int)
    requires
        0 <= i < count <= leaves.len(),
    ensures
        tree.node(leaves[i]) matches Some(node) ==> observations(node).len() <= deepest(
            tree,
            leaves,
            count,
        ),
    decreases count,
{
    if i < count - 1 {
        lemma_deepest(tree, leaves, (count - 1) as nat, i);
    }
}

/// A writer is shown every observation of its leaves that fits, the first of
/// each leaf before the second of any, with all the passages behind it; and is
/// told how many are left out.
pub proof fn observations_that_fit_are_shown(
    tree: TreeIndex,
    roots: Seq<Seq<char>>,
    leaves: Seq<Seq<char>>,
    limit: nat,
)
    ensures
        exists|rounds: nat, at: Seq<int>|
            {
                &&& #[trigger] remembers(
                    tree,
                    roots,
                    limit,
                    notes(tree, leaves, rounds),
                    at,
                    memory_of(tree, roots, leaves, limit),
                )
                &&& forall|i: int|
                    0 <= i < leaves.len() ==> (tree.node(#[trigger] leaves[i]) matches Some(node)
                        ==> observations(node).len() <= rounds)
            },
{
    let rounds = deepest(tree, leaves, leaves.len());
    let at = lemma_rounds(tree, roots, limit, leaves, rounds);
    assert forall|i: int| 0 <= i < leaves.len() implies (tree.node(
        #[trigger] leaves[i],
    ) matches Some(node) ==> observations(node).len() <= rounds) by {
        lemma_deepest(tree, leaves, leaves.len(), i);
    }
    assert(remembers(
        tree,
        roots,
        limit,
        notes(tree, leaves, rounds),
        at,
        memory_of(tree, roots, leaves, limit),
    ));
}

/// A span is cited by one of these ids.
pub open spec fn span_cited(ids: Seq<Seq<char>>) -> spec_fn(PassageSpan) -> bool {
    |s: PassageSpan| exists|k: int| 0 <= k < ids.len() && #[trigger] ids[k] == s.id@
}

/// The sources of an observation are the places of all spans that it cites, in
/// their order.
pub proof fn sources_are_the_cited_spans(
    spans: Seq<PassageSpan>,
    ids: Seq<Seq<char>>,
    roots: Seq<Seq<char>>,
    count: nat,
)
    requires
        count <= spans.len(),
    ensures
        cited_places(spans, ids, roots, count) == spans.take(count as int).filter(
            span_cited(ids),
        ).map_values(|s: PassageSpan| span_place(s, roots)),
    decreases count,
{
    let keep = span_cited(ids);
    let place = |s: PassageSpan| span_place(s, roots);
    lemma_filter_none(spans, keep);
    if count == 0 {
        assert(Seq::<PassageSpan>::empty().map_values(place) =~= Seq::empty());
    } else {
        let n = count - 1;
        sources_are_the_cited_spans(spans, ids, roots, n as nat);
        lemma_filter_step(spans, keep, n);
        let before = spans.take(n).filter(keep);
        assert(before.push(spans[n]).map_values(place) =~= before.map_values(place).push(
            place(spans[n]),
        ));
        if ids.contains(spans[n].id@) {
            let k = choose|k: int| 0 <= k < ids.len() && ids[k] == spans[n].id@;
            assert(ids[k] == spans[n].id@);
        }
    }
}

// ---------------------------------------------------------------------------
// Observations behind supplied passages
// ---------------------------------------------------------------------------

/// An observation of a node rests on a supplied passage.
pub open spec fn supplied(evidence: Seq<Evidence>, node: TreeNode) -> spec_fn(FindingModel) -> bool {
    |f: FindingModel| rests_on(node, f, evidence)
}

/// The observations of a leaf that rest on supplied passages, findings before
/// details.
pub open spec fn supplied_by(tree: TreeIndex, evidence: Seq<Evidence>) -> spec_fn(
    String,
) -> Seq<FindingModel> {
    |leaf: String|
        match tree.node(leaf@) {
            Some(node) => (finding_models(node.findings@) + finding_models(node.details@)).filter(
                supplied(evidence, node),
            ),
            None => Seq::empty(),
        }
}

/// What tells stored findings apart.
pub open spec fn stored_hash() -> spec_fn(FindingModel) -> Seq<char> {
    |f: FindingModel| finding_hash(f)
}

/// A finding as a request carries it.
pub open spec fn stored_record() -> spec_fn(FindingModel) -> JsonModel {
    |f: FindingModel| finding_record(f)
}

/// What a finding takes in a request.
pub open spec fn stored_cost() -> spec_fn(FindingModel) -> nat {
    |f: FindingModel| blen(text_of(finding_record(f)))
}

/// What was recalled of some observations: of those with different records,
/// each where it comes first, all that fit, and how many do not.
pub open spec fn recalls(flat: Seq<FindingModel>, limit: nat, at: Seq<int>, shown: Shown) -> bool {
    let all = firsts(flat, stored_hash());
    &&& takes_what_fits(all, stored_cost(), limit, at)
    &&& shown.records == picked(all, at).map_values(stored_record())
    &&& shown.used == cost_at(all, stored_cost(), at)
    &&& all.len() <= usize::MAX ==> shown.deferred == all.len() - at.len()
    &&& at.len() <= all.len()
}

spec fn recall_state(flat: Seq<FindingModel>, limit: nat, at: Seq<int>, s: SeenShown) -> bool {
    &&& recalls(flat, limit, at, s.shown)
    &&& s.seen == firsts(flat, stored_hash()).map_values(stored_hash())
}

proof fn lemma_recall(
    node: TreeNode,
    f: FindingModel,
    evidence: Seq<Evidence>,
    flat: Seq<FindingModel>,
    limit: nat,
    at: Seq<int>,
    s: SeenShown,
) -> (now: Seq<int>)
    requires
        recall_state(flat, limit, at, s),
    ensures
        recall_state(
            if rests_on(node, f, evidence) {
                flat.push(f)
            } else {
                flat
            },
            limit,
            now,
            recall(node, f, evidence, s, limit),
        ),
{
    let key = stored_hash();
    let all = firsts(flat, key);
    if !rests_on(node, f, evidence) {
        at
    } else {
        lemma_firsts_push(flat, key, f);
        if s.seen.contains(key(f)) {
            let k = choose|k: int| 0 <= k < s.seen.len() && s.seen[k] == key(f);
            assert(key(all[k]) == key(f));
            assert(has_key(all, key, key(f)));
            at
        } else {
            if has_key(all, key, key(f)) {
                let k = choose|k: int| 0 <= k < all.len() && key(#[trigger] all[k]) == key(f);
                assert(s.seen[k] == key(f));
            }
            let more = all.push(f);
            let cost = stored_cost();
            lemma_take_one(all, f, cost, limit, at);
            assert forall|k: int| 0 <= k < at.len() implies all[#[trigger] at[k]] == more[at[k]] by {
                assert(0 <= at[k] < all.len());
            }
            assert(more.map_values(key) =~= all.map_values(key).push(key(f)));
            if cost_at(all, cost, at) + cost(f) <= limit {
                let now = at.push(all.len() as int);
                let kept = picked(all, at);
                assert(picked(more, now) =~= kept.push(f));
                assert(kept.push(f).map_values(stored_record()) =~= kept.map_values(
                    stored_record(),
                ).push(finding_record(f)));
                now
            } else {
                assert(picked(more, at) =~= picked(all, at));
                at
            }
        }
    }
}

proof fn lemma_recall_list(
    node: TreeNode,
    list: Seq<FindingModel>,
    evidence: Seq<Evidence>,
    flat: Seq<FindingModel>,
    limit: nat,
    at: Seq<int>,
    s: SeenShown,
    count: nat,
) -> (now: Seq<int>)
    requires
        count <= list.len(),
        recall_state(flat, limit, at, s),
    ensures
        recall_state(
            flat + list.take(count as int).filter(supplied(evidence, node)),
            limit,
            now,
            recall_list(node, list, evidence, s, limit, count),
        ),
    decreases count,
{
    let keep = supplied(evidence, node);
    lemma_filter_none(list, keep);
    if count == 0 {
        assert(flat + Seq::<FindingModel>::empty() =~= flat);
        at
    } else {
        let n = count - 1;
        let old = lemma_recall_list(node, list, evidence, flat, limit, at, s, n as nat);
        lemma_filter_step(list, keep, n);
        let had = flat + list.take(n).filter(keep);
        let was = recall_list(node, list, evidence, s, limit, n as nat);
        assert(flat + list.take(n).filter(keep).push(list[n]) =~= had.push(list[n]));
        lemma_recall(node, list[n], evidence, had, limit, old, was)
    }
}

proof fn lemma_recalled(tree: TreeIndex, evidence: Seq<Evidence>, limit: nat, count: nat) -> (at: Seq<
    int,
>)
    requires
        count <= tree.leaves@.len(),
    ensures
        recall_state(
            tree.leaves@.take(count as int).flat_map(supplied_by(tree, evidence)),
            limit,
            at,
            recalled(tree, evidence, limit, count),
        ),
    decreases count,
{
    let f = supplied_by(tree, evidence);
    let leaves = tree.leaves@;
    if count == 0 {
        lemma_take_none(stored_cost(), limit);
        assert(leaves.take(0).map_values(f) =~= Seq::empty());
        let none = Seq::<FindingModel>::empty();
        assert(leaves.take(0).flat_map(f) =~= none);
        lemma_filter_none(upto(0), super::lists::is_first(none, stored_hash()));
        assert(upto(0) =~= upto(0).take(0));
        assert(firsts(none, stored_hash()) =~= none);
        assert(none.map_values(stored_hash()) =~= Seq::empty());
        assert(picked(none, Seq::<int>::empty()) =~= none);
        assert(none.map_values(stored_record()) =~= Seq::empty());
        Seq::empty()
    } else {
        let n = count - 1;
        let old = lemma_recalled(tree, evidence, limit, n as nat);
        leaves.lemma_flat_map_take_append(f, n);
        let flat = leaves.take(n).flat_map(f);
        let was = recalled(tree, evidence, limit, n as nat);
        match tree.node(leaves[n]@) {
            None => {
                assert(flat + Seq::<FindingModel>::empty() =~= flat);
                old
            },
            Some(node) => {
                let a = finding_models(node.findings@);
                let b = finding_models(node.details@);
                let keep = supplied(evidence, node);
                let mid = lemma_recall_list(node, a, evidence, flat, limit, old, was, a.len());
                assert(a.take(a.len() as int) =~= a);
                assert(b.take(b.len() as int) =~= b);
                let had = flat + a.filter(keep);
                Seq::filter_distributes_over_add(a, b, keep);
                assert(flat + (a.filter(keep) + b.filter(keep)) =~= had + b.filter(keep));
                lemma_recall_list(
                    node,
                    b,
                    evidence,
                    had,
                    limit,
                    mid,
                    recall_list(node, a, evidence, was, limit, a.len()),
                    b.len(),
                )
            },
        }
    }
}

/// What is recalled for some passages is every observation of the leaves that
/// rests on one of them and that fits, each once; and the others are counted.
pub proof fn observations_behind_passages_are_recalled(
    tree: TreeIndex,
    evidence: Seq<Evidence>,
    limit: nat,
)
    ensures
        exists|at: Seq<int>|
            recalls(
                tree.leaves@.flat_map(supplied_by(tree, evidence)),
                limit,
                at,
                recalled(tree, evidence, limit, tree.leaves@.len()).shown,
            ),
{
    let at = lemma_recalled(tree, evidence, limit, tree.leaves@.len());
    assert(tree.leaves@.take(tree.leaves@.len() as int) =~= tree.leaves@);
    assert(recalls(
        tree.leaves@.flat_map(supplied_by(tree, evidence)),
        limit,
        at,
        recalled(tree, evidence, limit, tree.leaves@.len()).shown,
    ));
}

} // verus!
