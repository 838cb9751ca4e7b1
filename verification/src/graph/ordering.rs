//! The order in which passages are read: those that a graph connects stand
//! together, and every one is read exactly once.

use vstd::prelude::*;

use super::neighborhood::{placed_models, Placed};
use super::{file_models, tail, tail_of, FileGraph, FileModel};
use crate::code_graph::{Span, Symbol};
use crate::order::{lemma_insert_at, lemma_ordered, ordered, positions};
use crate::text::{lowercase, same, to_lowercase};

verus! {

/// The lines of a file that a passage holds.
pub struct ChunkSpan {
    pub path: String,
    pub start: u32,
    pub end: u32,
}

/// The value of a passage's place.
pub struct ChunkPlace {
    pub path: Seq<char>,
    pub start: u32,
    pub end: u32,
}

impl View for ChunkSpan {
    type V = ChunkPlace;

    open spec fn view(&self) -> ChunkPlace {
        ChunkPlace { path: self.path@, start: self.start, end: self.end }
    }
}

/// The values of a list of places.
pub open spec fn chunk_places(v: Seq<ChunkSpan>) -> Seq<ChunkPlace> {
    v.map_values(|c: ChunkSpan| c@)
}

// ---------------------------------------------------------------------------
// Weighted neighbors
// ---------------------------------------------------------------------------

/// A neighbor of a passage, and how strongly the two are connected.
#[derive(Clone, Copy, Debug, PartialEq, Eq, Structural)]
pub struct Neighbor {
    pub chunk: usize,
    pub weight: u32,
}

/// A sum, as far as 32 bits hold it.
pub open spec fn heavier(a: u32, b: u32) -> u32 {
    if a + b > u32::MAX {
        u32::MAX
    } else {
        (a + b) as u32
    }
}

/// The neighbors with more weight for one of them.
pub open spec fn with_weight(list: Seq<Neighbor>, chunk: usize, weight: u32) -> Seq<Neighbor>
    decreases list.len(),
{
    if list.len() == 0 {
        seq![Neighbor { chunk, weight }]
    } else if list[0].chunk == chunk {
        list.update(0, Neighbor { chunk, weight: heavier(list[0].weight, weight) })
    } else {
        seq![list[0]] + with_weight(list.skip(1), chunk, weight)
    }
}

/// The neighbors of each passage.
pub open spec fn neighbor_lists(v: Seq<Vec<Neighbor>>) -> Seq<Seq<Neighbor>> {
    v.map_values(|n: Vec<Neighbor>| n@)
}

/// Two passages connected more strongly, in both directions.
pub open spec fn linked(
    lists: Seq<Seq<Neighbor>>,
    left: usize,
    right: usize,
    weight: u32,
) -> Seq<Seq<Neighbor>> {
    if left == right {
        lists
    } else {
        let once = lists.update(left as int, with_weight(lists[left as int], right, weight));
        once.update(right as int, with_weight(once[right as int], left, weight))
    }
}

proof fn lemma_with_weight(list: Seq<Neighbor>, chunk: usize, weight: u32, at: int)
    requires
        0 <= at <= list.len(),
        forall|k: int| 0 <= k < at ==> (#[trigger] list[k]).chunk != chunk,
        at < list.len() ==> list[at].chunk == chunk,
    ensures
        with_weight(list, chunk, weight) == (if at < list.len() {
            list.update(at, Neighbor { chunk, weight: heavier(list[at].weight, weight) })
        } else {
            list.push(Neighbor { chunk, weight })
        }),
    decreases at,
{
    if at == 0 {
        if list.len() == 0 {
            assert(list.push(Neighbor { chunk, weight }) =~= seq![Neighbor { chunk, weight }]);
        }
    } else {
        let rest = list.skip(1);
        assert forall|k: int| 0 <= k < at - 1 implies (#[trigger] rest[k]).chunk != chunk by {
            assert(rest[k] == list[k + 1]);
        }
        lemma_with_weight(rest, chunk, weight, at - 1);
        if at < list.len() {
            let n = Neighbor { chunk, weight: heavier(list[at].weight, weight) };
            assert(seq![list[0]] + rest.update(at - 1, n) =~= list.update(at, n));
        } else {
            let n = Neighbor { chunk, weight };
            assert(seq![list[0]] + rest.push(n) =~= list.push(n));
        }
    }
}

/// Gives one neighbor more weight.
fn bump(list: &mut Vec<Neighbor>, chunk: usize, weight: u32)
    ensures
        final(list)@ == with_weight(old(list)@, chunk, weight),
{
    let ghost all = list@;
    let mut k: usize = 0;
    while k < list.len() && list[k].chunk != chunk
        invariant
            k <= list@.len(),
            list@ == all,
            forall|j: int| 0 <= j < k ==> (#[trigger] all[j]).chunk != chunk,
        decreases list@.len() - k,
    {
        k += 1;
    }
    proof {
        lemma_with_weight(all, chunk, weight, k as int);
    }
    if k < list.len() {
        let more: u32 = list[k].weight.saturating_add(weight);
        list.set(k, Neighbor { chunk, weight: more });
    } else {
        list.push(Neighbor { chunk, weight });
    }
}

/// Connects two passages more strongly, in both directions. A passage is not
/// connected with itself.
pub fn link(adjacency: &mut Vec<Vec<Neighbor>>, left: usize, right: usize, weight: u32)
    requires
        left < old(adjacency)@.len(),
        right < old(adjacency)@.len(),
    ensures
        neighbor_lists(final(adjacency)@) == linked(
            neighbor_lists(old(adjacency)@),
            left,
            right,
            weight,
        ),
        final(adjacency)@.len() == old(adjacency)@.len(),
{
    if left == right {
        return;
    }
    let ghost lists = neighbor_lists(adjacency@);
    bump(&mut adjacency[left], right, weight);
    assert(neighbor_lists(adjacency@) =~= lists.update(
        left as int,
        with_weight(lists[left as int], right, weight),
    ));
    let ghost once = neighbor_lists(adjacency@);
    bump(&mut adjacency[right], left, weight);
    assert(neighbor_lists(adjacency@) =~= once.update(
        right as int,
        with_weight(once[right as int], left, weight),
    ));
}

// ---------------------------------------------------------------------------
// The walk
// ---------------------------------------------------------------------------

/// A walk over the passages: what was met, what is still to be visited, the next
/// one last, and what was visited.
pub struct Walk {
    pub seen: Seq<bool>,
    pub pending: Seq<usize>,
    pub order: Seq<usize>,
}

/// The order of neighbors: the stronger first, and of two equally strong ones
/// the earlier passage.
pub open spec fn stronger(list: Seq<Neighbor>) -> spec_fn(usize, usize) -> bool {
    |a: usize, b: usize|
        list[a as int].weight > list[b as int].weight || (list[a as int].weight
            == list[b as int].weight && list[a as int].chunk < list[b as int].chunk)
}

/// A neighbor is put on the pile where it was not met yet.
pub open spec fn meet(w: Walk, chunk: usize) -> Walk {
    if chunk < w.seen.len() && !w.seen[chunk as int] {
        Walk {
            seen: w.seen.update(chunk as int, true),
            pending: w.pending.push(chunk),
            order: w.order,
        }
    } else {
        w
    }
}

/// The walk once the neighbors behind the first `left` of an order were met,
/// from the last one on.
pub open spec fn meet_from(w: Walk, list: Seq<Neighbor>, order: Seq<usize>, left: nat) -> Walk
    decreases order.len() - left,
{
    if left >= order.len() {
        w
    } else {
        meet(meet_from(w, list, order, left + 1), list[order[left as int] as int].chunk)
    }
}

/// The first passage, from `from` on, that was not met.
pub open spec fn first_unmet(seen: Seq<bool>, from: nat) -> nat
    decreases seen.len() - from,
{
    if from >= seen.len() || !seen[from as int] {
        from
    } else {
        first_unmet(seen, from + 1)
    }
}

/// Where nothing is pending, the walk goes on at the first passage that was not
/// met.
pub open spec fn seeded(w: Walk) -> Walk {
    if w.pending.len() == 0 {
        meet(w, first_unmet(w.seen, 0) as usize)
    } else {
        w
    }
}

/// Visits the passage on top of the pile, and puts the neighbors that were not
/// met on it, the strongest last.
pub open spec fn visit(lists: Seq<Seq<Neighbor>>, w: Walk) -> Walk {
    let s = seeded(w);
    let current = s.pending.last();
    let list = lists[current as int];
    meet_from(
        Walk { seen: s.seen, pending: s.pending.drop_last(), order: s.order.push(current) },
        list,
        ordered(list.len(), stronger(list)),
        0,
    )
}

/// The walk after `count` visits.
pub open spec fn walked(lists: Seq<Seq<Neighbor>>, count: nat) -> Walk
    decreases count,
{
    if count == 0 {
        Walk {
            seen: Seq::new(lists.len(), |i: int| false),
            pending: Seq::empty(),
            order: Seq::empty(),
        }
    } else {
        visit(lists, walked(lists, (count - 1) as nat))
    }
}

/// What was met is either pending or was visited, and nothing twice.
pub open spec fn walk_ok(w: Walk, count: nat) -> bool {
    let all = w.order + w.pending;
    &&& w.seen.len() == count
    &&& all.no_duplicates()
    &&& forall|c: usize| #[trigger] all.contains(c) <==> (c < count && w.seen[c as int])
}

proof fn lemma_meet(w: Walk, chunk: usize, count: nat)
    requires
        walk_ok(w, count),
    ensures
        walk_ok(meet(w, chunk), count),
        meet(w, chunk).order == w.order,
        meet(w, chunk).pending.len() >= w.pending.len(),
{
    let n = meet(w, chunk);
    if chunk < w.seen.len() && !w.seen[chunk as int] {
        let was = w.order + w.pending;
        let now = n.order + n.pending;
        assert(now =~= was.push(chunk));
        assert(!was.contains(chunk));
        assert forall|c: usize| #[trigger] now.contains(c) <==> (c < count && n.seen[c as int]) by {
            if now.contains(c) {
                let k = choose|k: int| 0 <= k < now.len() && now[k] == c;
                if k < was.len() {
                    assert(was[k] == c);
                    assert(was.contains(c));
                }
            }
            if c < count && n.seen[c as int] {
                if c == chunk {
                    assert(now[was.len() as int] == c);
                } else {
                    assert(was.contains(c));
                    let k = choose|k: int| 0 <= k < was.len() && was[k] == c;
                    assert(now[k] == c);
                }
            }
        }
        assert forall|i: int, j: int| 0 <= i < now.len() && 0 <= j < now.len() && i != j implies now[i]
            != now[j] by {
            if i == was.len() {
                assert(was[j] == now[j]);
                assert(was.contains(was[j]));
            } else if j == was.len() {
                assert(was[i] == now[i]);
                assert(was.contains(was[i]));
            } else {
                assert(was[i] == now[i] && was[j] == now[j]);
            }
        }
    }
}

proof fn lemma_meet_from(w: Walk, list: Seq<Neighbor>, order: Seq<usize>, left: nat, count: nat)
    requires
        walk_ok(w, count),
    ensures
        walk_ok(meet_from(w, list, order, left), count),
        meet_from(w, list, order, left).order == w.order,
    decreases order.len() - left,
{
    if left < order.len() {
        lemma_meet_from(w, list, order, left + 1, count);
        lemma_meet(
            meet_from(w, list, order, left + 1),
            list[order[left as int] as int].chunk,
            count,
        );
    }
}

proof fn lemma_first_unmet(seen: Seq<bool>, from: nat)
    requires
        from <= seen.len(),
    ensures
        from <= first_unmet(seen, from) <= seen.len(),
        forall|k: int| from <= k < first_unmet(seen, from) ==> seen[k],
        first_unmet(seen, from) < seen.len() ==> !seen[first_unmet(seen, from) as int],
    decreases seen.len() - from,
{
    if from < seen.len() && seen[from as int] {
        lemma_first_unmet(seen, from + 1);
    }
}

/// A list without repetition of numbers below `count` has at most `count` of
/// them, and all of them where it has `count`.
proof fn lemma_distinct_below(s: Seq<usize>, count: nat)
    requires
        s.no_duplicates(),
        forall|k: int| 0 <= k < s.len() ==> (#[trigger] s[k]) < count,
    ensures
        s.len() <= count,
        s.len() == count ==> forall|c: usize| c < count ==> s.contains(c),
{
    let ints = s.map_values(|c: usize| c as int);
    assert(ints.no_duplicates());
    ints.unique_seq_to_set();
    let whole = vstd::set_lib::set_int_range(0, count as int);
    vstd::set_lib::lemma_int_range(0, count as int);
    assert(ints.to_set().subset_of(whole)) by {
        assert forall|c: int| ints.to_set().contains(c) implies whole.contains(c) by {
            let k = choose|k: int| 0 <= k < ints.len() && ints[k] == c;
            assert(s[k] == c);
        }
    }
    vstd::set_lib::lemma_len_subset(ints.to_set(), whole);
    if s.len() == count {
        vstd::set_lib::lemma_subset_equality(ints.to_set(), whole);
        assert forall|c: usize| c < count implies s.contains(c) by {
            assert(whole.contains(c as int));
            assert(ints.to_set().contains(c as int));
            let k = choose|k: int| 0 <= k < ints.len() && ints[k] == c as int;
            assert(s[k] == c);
        }
    }
}

/// While not every passage was visited there is one to visit.
proof fn lemma_seeded(w: Walk, count: nat)
    requires
        walk_ok(w, count),
        w.order.len() < count,
        count <= usize::MAX,
    ensures
        walk_ok(seeded(w), count),
        seeded(w).pending.len() > 0,
        seeded(w).order == w.order,
        seeded(w).pending.last() < count,
        w.pending.len() == 0 ==> first_unmet(w.seen, 0) < count,
{
    if w.pending.len() == 0 {
        lemma_first_unmet(w.seen, 0);
        let all = w.order + w.pending;
        assert(all =~= w.order);
        let at = first_unmet(w.seen, 0);
        if at >= count {
            assert forall|c: usize| c < count implies w.order.contains(c) by {
                assert(w.seen[c as int]);
                assert(all.contains(c));
            }
            lemma_missing_one(w.order, count);
        }
        lemma_meet(w, at as usize, count);
    }
    let s = seeded(w);
    let all = s.order + s.pending;
    assert(all[all.len() - 1] == s.pending.last());
    assert(all.contains(s.pending.last()));
}

/// A list that holds every number below `count` has at least `count` numbers.
proof fn lemma_missing_one(s: Seq<usize>, count: nat)
    requires
        forall|c: usize| c < count ==> s.contains(c),
        count <= usize::MAX,
    ensures
        s.len() >= count,
{
    let every = Seq::new(count, |i: int| i as usize);
    assert(every.no_duplicates());
    every.unique_seq_to_set();
    s.lemma_cardinality_of_set();
    assert(every.to_set().subset_of(s.to_set())) by {
        assert forall|c: usize| every.to_set().contains(c) implies s.to_set().contains(c) by {
            let k = choose|k: int| 0 <= k < every.len() && every[k] == c;
            assert(s.contains(c));
        }
    }
    vstd::set_lib::lemma_len_subset(every.to_set(), s.to_set());
}

proof fn lemma_walked(lists: Seq<Seq<Neighbor>>, count: nat)
    requires
        count <= lists.len() <= usize::MAX,
    ensures
        walk_ok(walked(lists, count), lists.len()),
        walked(lists, count).order.len() == count,
    decreases count,
{
    let n = lists.len();
    if count == 0 {
        let w = walked(lists, 0);
        assert(w.order + w.pending =~= Seq::empty());
    } else {
        lemma_walked(lists, (count - 1) as nat);
        let w = walked(lists, (count - 1) as nat);
        lemma_seeded(w, n);
        lemma_visit(lists, w);
    }
}

proof fn lemma_visit(lists: Seq<Seq<Neighbor>>, w: Walk)
    requires
        walk_ok(w, lists.len()),
        w.order.len() < lists.len() <= usize::MAX,
    ensures
        walk_ok(visit(lists, w), lists.len()),
        visit(lists, w).order == w.order.push(seeded(w).pending.last()),
{
    let n = lists.len();
    lemma_seeded(w, n);
    let s = seeded(w);
    let current = s.pending.last();
    let t = Walk { seen: s.seen, pending: s.pending.drop_last(), order: s.order.push(current) };
    let was = s.order + s.pending;
    let now = t.order + t.pending;
    let at = s.order.len();
    assert(now.len() == was.len());
    assert forall|c: usize| now.contains(c) == was.contains(c) by {
        if was.contains(c) {
            let k = choose|k: int| 0 <= k < was.len() && was[k] == c;
            if k < at {
                assert(now[k] == c);
            } else if k == was.len() - 1 {
                assert(now[at as int] == c);
            } else {
                assert(now[k + 1] == c);
            }
        }
        if now.contains(c) {
            let k = choose|k: int| 0 <= k < now.len() && now[k] == c;
            if k < at {
                assert(was[k] == c);
            } else if k == at {
                assert(was[was.len() - 1] == c);
            } else {
                assert(was[k - 1] == c);
            }
        }
    }
    assert forall|i: int, j: int| 0 <= i < now.len() && 0 <= j < now.len() && i != j implies now[i]
        != now[j] by {
        let oi = if i < at {
            i
        } else if i == at {
            was.len() - 1
        } else {
            i - 1
        };
        let oj = if j < at {
            j
        } else if j == at {
            was.len() - 1
        } else {
            j - 1
        };
        assert(now[i] == was[oi]);
        assert(now[j] == was[oj]);
        assert(oi != oj);
    }
    let list = lists[current as int];
    lemma_meet_from(t, list, ordered(list.len(), stronger(list)), 0, n);
}

/// Ordering is no filter: every passage is visited exactly once.
pub proof fn every_passage_is_visited_once(lists: Seq<Seq<Neighbor>>)
    requires
        lists.len() <= usize::MAX,
    ensures
        ({
            let order = walked(lists, lists.len()).order;
            &&& order.len() == lists.len()
            &&& order.no_duplicates()
            &&& forall|c: usize| #[trigger] order.contains(c) <==> c < lists.len()
        }),
{
    let n = lists.len();
    lemma_walked(lists, n);
    let w = walked(lists, n);
    let all = w.order + w.pending;
    assert forall|k: int| 0 <= k < all.len() implies (#[trigger] all[k]) < n by {
        assert(all.contains(all[k]));
    }
    lemma_distinct_below(all, n);
    assert(w.pending.len() == 0);
    assert(all =~= w.order);
}

/// The neighbors of a passage, the strongest first.
fn sort_neighbors(list: &Vec<Neighbor>) -> (r: Vec<usize>)
    ensures
        r@ == ordered(list@.len(), stronger(list@)),
{
    let ghost less = stronger(list@);
    let mut r: Vec<usize> = Vec::new();
    let mut i: usize = 0;
    while i < list.len()
        invariant
            i <= list@.len(),
            less == stronger(list@),
            r@ == ordered(i as nat, less),
        decreases list@.len() - i,
    {
        proof {
            lemma_ordered(i as nat, less);
            assert forall|k: int| 0 <= k < r@.len() implies (#[trigger] r@[k]) < i by {
                assert(r@.contains(r@[k]));
            }
        }
        let mut at: usize = r.len();
        let mine = list[i];
        while at > 0 && (mine.weight > list[r[at - 1]].weight || (mine.weight
            == list[r[at - 1]].weight && mine.chunk < list[r[at - 1]].chunk))
            invariant
                at <= r@.len(),
                i < list@.len(),
                mine == list@[i as int],
                less == stronger(list@),
                forall|k: int| 0 <= k < r@.len() ==> (#[trigger] r@[k]) < i,
                forall|k: int| at <= k < r@.len() ==> less(i, #[trigger] r@[k]),
            decreases at,
        {
            at -= 1;
        }
        proof {
            lemma_insert_at(r@, i, less, at as int);
        }
        r.insert(at, i);
        i += 1;
    }
    r
}

/// Orders passages so that connected ones are read together.
pub fn graph_order(adjacency: &Vec<Vec<Neighbor>>) -> (r: Vec<usize>)
    ensures
        r@ == walked(neighbor_lists(adjacency@), adjacency@.len()).order,
        r@.len() == adjacency@.len(),
        r@.no_duplicates(),
        forall|c: usize| #[trigger] r@.contains(c) <==> c < adjacency@.len(),
{
    let ghost lists = neighbor_lists(adjacency@);
    let n: usize = adjacency.len();
    assert(lists.len() == n);
    let mut seen: Vec<bool> = Vec::new();
    let mut j: usize = 0;
    while j < n
        invariant
            j <= n,
            seen@ == Seq::new(j as nat, |i: int| false),
        decreases n - j,
    {
        assert(seen@.push(false) =~= Seq::new((j + 1) as nat, |i: int| false));
        seen.push(false);
        j += 1;
    }
    let mut pending: Vec<usize> = Vec::new();
    let mut order: Vec<usize> = Vec::new();
    let mut i: usize = 0;
    proof {
        assert(walked(lists, 0).seen =~= seen@);
        assert(walked(lists, 0).pending =~= pending@);
        assert(walked(lists, 0).order =~= order@);
    }
    while i < n
        invariant
            i <= n,
            n == adjacency@.len(),
            lists == neighbor_lists(adjacency@),
            lists.len() == n,
            walked(lists, i as nat) == (Walk { seen: seen@, pending: pending@, order: order@ }),
        decreases n - i,
    {
        let ghost w = walked(lists, i as nat);
        proof {
            lemma_walked(lists, i as nat);
            lemma_seeded(w, n as nat);
        }
        if pending.len() == 0 {
            let mut seed: usize = 0;
            proof {
                lemma_first_unmet(seen@, 0);
            }
            while seen[seed]
                invariant
                    seed < n,
                    seen@.len() == n,
                    first_unmet(seen@, 0) == first_unmet(seen@, seed as nat),
                    first_unmet(seen@, 0) < n,
                decreases n - seed,
            {
                proof {
                    lemma_first_unmet(seen@, seed as nat);
                    lemma_first_unmet(seen@, (seed + 1) as nat);
                }
                seed += 1;
            }
            seen.set(seed, true);
            pending.push(seed);
        }
        let ghost s = seeded(w);
        assert(s == (Walk { seen: seen@, pending: pending@, order: order@ }));
        let current: usize = match pending.pop() {
            Some(c) => c,
            None => 0,
        };
        order.push(current);
        let list = &adjacency[current];
        assert(lists[current as int] == list@);
        let sorted = sort_neighbors(list);
        let ghost base = Walk { seen: seen@, pending: pending@, order: order@ };
        proof {
            assert(list.len() == list@.len());
            lemma_ordered(list@.len(), stronger(list@));
            assert(base.pending =~= s.pending.drop_last());
        }
        let mut left: usize = sorted.len();
        while left > 0
            invariant
                left <= sorted@.len(),
                seen@.len() == n,
                sorted@.len() == list@.len(),
                forall|c: usize| #[trigger] sorted@.contains(c) <==> c < list@.len(),
                meet_from(base, list@, sorted@, left as nat) == (Walk {
                    seen: seen@,
                    pending: pending@,
                    order: order@,
                }),
            decreases left,
        {
            left -= 1;
            assert(sorted@.contains(sorted@[left as int]));
            let chunk: usize = list[sorted[left]].chunk;
            if chunk < seen.len() && !seen[chunk] {
                seen.set(chunk, true);
                pending.push(chunk);
            }
        }
        proof {
            lemma_visit(lists, w);
        }
        i += 1;
    }
    proof {
        every_passage_is_visited_once(lists);
    }
    order
}

// ---------------------------------------------------------------------------
// Connections
// ---------------------------------------------------------------------------

/// The first passage of a file's, from `from` on, that does not end before a
/// line.
pub open spec fn first_reaching(
    chunks: Seq<ChunkPlace>,
    file_chunks: Seq<usize>,
    line: u32,
    from: nat,
) -> nat
    decreases file_chunks.len() - from,
{
    if from >= file_chunks.len() || chunks[file_chunks[from as int] as int].end >= line {
        from
    } else {
        first_reaching(chunks, file_chunks, line, from + 1)
    }
}

/// The passage that holds a site, of the passages of a file in line order.
pub open spec fn holder(chunks: Seq<ChunkPlace>, file_chunks: Seq<usize>, span: Span) -> Option<
    usize,
> {
    let at = first_reaching(chunks, file_chunks, span.start, 0);
    if at < file_chunks.len() && span.reaches(
        chunks[file_chunks[at as int] as int].start,
        chunks[file_chunks[at as int] as int].end,
    ) {
        Some(file_chunks[at as int])
    } else {
        None
    }
}

/// The passage that holds a site, found by line.
pub fn chunk_at(chunks: &Vec<ChunkSpan>, file_chunks: &Vec<usize>, span: &Span) -> (r: Option<usize>)
    requires
        forall|k: int| 0 <= k < file_chunks@.len() ==> (#[trigger] file_chunks@[k]) < chunks@.len(),
    ensures
        r == holder(chunk_places(chunks@), file_chunks@, *span),
{
    let ghost cs = chunk_places(chunks@);
    let mut at: usize = 0;
    while at < file_chunks.len() && chunks[file_chunks[at]].end < span.start
        invariant
            at <= file_chunks@.len(),
            cs == chunk_places(chunks@),
            forall|k: int| 0 <= k < file_chunks@.len() ==> (#[trigger] file_chunks@[k]) < chunks@.len(),
            first_reaching(cs, file_chunks@, span.start, 0) == first_reaching(
                cs,
                file_chunks@,
                span.start,
                at as nat,
            ),
        decreases file_chunks@.len() - at,
    {
        assert(cs[file_chunks@[at as int] as int] == chunks@[file_chunks@[at as int] as int]@);
        at += 1;
    }
    if at == file_chunks.len() {
        return None;
    }
    let index: usize = file_chunks[at];
    assert(cs[index as int] == chunks@[index as int]@);
    if span.overlaps(chunks[index].start, chunks[index].end) {
        Some(index)
    } else {
        None
    }
}

/// The passages of a file.
pub open spec fn chunks_in(chunks: Seq<ChunkPlace>, path: Seq<char>) -> Seq<usize> {
    positions(|i: int| chunks[i].path == path, chunks.len())
}

/// The passages of a file that a span reaches.
pub open spec fn chunks_under(chunks: Seq<ChunkPlace>, path: Seq<char>, span: Span) -> Seq<usize> {
    positions(
        |i: int| chunks[i].path == path && span.reaches(chunks[i].start, chunks[i].end),
        chunks.len(),
    )
}

/// The first `count` symbols of a file that are declarations.
pub open spec fn declared_in(f: FileModel, count: nat) -> Seq<Placed>
    decreases count,
{
    if count == 0 {
        Seq::empty()
    } else {
        let so_far = declared_in(f, (count - 1) as nat);
        let s = f.graph.symbols[count - 1];
        if s.kind == "file"@ {
            so_far
        } else {
            so_far.push(Placed { path: f.path, symbol: s })
        }
    }
}

/// The declarations of the first `count` files, as far as there are passages of
/// these files.
pub open spec fn declared(files: Seq<FileModel>, chunks: Seq<ChunkPlace>, count: nat) -> Seq<Placed>
    decreases count,
{
    if count == 0 {
        Seq::empty()
    } else {
        let so_far = declared(files, chunks, (count - 1) as nat);
        let f = files[count - 1];
        if chunks_in(chunks, f.path).len() == 0 {
            so_far
        } else {
            so_far + declared_in(f, f.graph.symbols.len())
        }
    }
}

/// The passages that a declaration reaches.
pub open spec fn covered(chunks: Seq<ChunkPlace>, p: Placed) -> Seq<usize> {
    chunks_under(chunks, p.path, p.symbol.span)
}

/// The passages that the last of the first `count` declarations with an id
/// reaches, of those that reach any.
pub open spec fn chunks_of(
    chunks: Seq<ChunkPlace>,
    all: Seq<Placed>,
    id: Seq<char>,
    count: nat,
) -> Seq<usize>
    decreases count,
{
    if count == 0 {
        Seq::empty()
    } else if all[count - 1].symbol.id == id && covered(chunks, all[count - 1]).len() > 0 {
        covered(chunks, all[count - 1])
    } else {
        chunks_of(chunks, all, id, (count - 1) as nat)
    }
}

/// One passage connected with the first `count` of some passages.
pub open spec fn link_row(
    lists: Seq<Seq<Neighbor>>,
    left: usize,
    right: Seq<usize>,
    weight: u32,
    count: nat,
) -> Seq<Seq<Neighbor>>
    decreases count,
{
    if count == 0 {
        lists
    } else {
        linked(
            link_row(lists, left, right, weight, (count - 1) as nat),
            left,
            right[count - 1],
            weight,
        )
    }
}

/// The first `count` of some passages each connected with some others.
pub open spec fn link_all(
    lists: Seq<Seq<Neighbor>>,
    left: Seq<usize>,
    right: Seq<usize>,
    weight: u32,
    count: nat,
) -> Seq<Seq<Neighbor>>
    decreases count,
{
    if count == 0 {
        lists
    } else {
        link_row(
            link_all(lists, left, right, weight, (count - 1) as nat),
            left[count - 1],
            right,
            weight,
            right.len(),
        )
    }
}

/// How strongly a declaration and its parent are connected.
pub const PARENT_WEIGHT: u32 = 3;

/// How strongly a call and what it may call are connected.
pub const CALL_WEIGHT: u32 = 5;

/// How many declarations a name may stand for. One common name cannot join a
/// whole project.
pub const CALL_FANOUT: usize = 8;

/// The first `count` declarations connected with their parents, as far as these
/// were declared before.
pub open spec fn linked_before(
    chunks: Seq<ChunkPlace>,
    all: Seq<Placed>,
    lists: Seq<Seq<Neighbor>>,
    count: nat,
) -> Seq<Seq<Neighbor>>
    decreases count,
{
    if count == 0 {
        lists
    } else {
        let so_far = linked_before(chunks, all, lists, (count - 1) as nat);
        let p = all[count - 1];
        let mine = covered(chunks, p);
        match p.symbol.parent {
            Some(parent) => link_all(
                so_far,
                mine,
                chunks_of(chunks, all, parent, count),
                PARENT_WEIGHT,
                mine.len(),
            ),
            None => so_far,
        }
    }
}

/// No later declaration has the id of this one.
pub open spec fn last_of_id(all: Seq<Placed>, at: int) -> bool {
    forall|k: int| at < k < all.len() ==> (#[trigger] all[k]).symbol.id != all[at].symbol.id
}

/// The first `count` declarations connected with their parents, wherever these
/// are declared.
pub open spec fn linked_anywhere(
    chunks: Seq<ChunkPlace>,
    all: Seq<Placed>,
    lists: Seq<Seq<Neighbor>>,
    count: nat,
) -> Seq<Seq<Neighbor>>
    decreases count,
{
    if count == 0 {
        lists
    } else {
        let so_far = linked_anywhere(chunks, all, lists, (count - 1) as nat);
        let p = all[count - 1];
        let mine = chunks_of(chunks, all, p.symbol.id, all.len());
        match p.symbol.parent {
            Some(parent) => if last_of_id(all, count - 1) {
                link_all(
                    so_far,
                    mine,
                    chunks_of(chunks, all, parent, all.len()),
                    PARENT_WEIGHT,
                    mine.len(),
                )
            } else {
                so_far
            },
            None => so_far,
        }
    }
}

/// The first of `count` declarations that bear a name, whatever its case, as far
/// as the fan-out goes.
pub open spec fn bearers(all: Seq<Placed>, name: Seq<char>, count: nat) -> Seq<usize>
    decreases count,
{
    if count == 0 {
        Seq::empty()
    } else {
        let so_far = bearers(all, name, (count - 1) as nat);
        if so_far.len() < CALL_FANOUT && lowercase(all[count - 1].symbol.name) == name {
            so_far.push((count - 1) as usize)
        } else {
            so_far
        }
    }
}

/// A site connected with the first passages of the first `count` of some
/// declarations.
pub open spec fn link_bearers(
    chunks: Seq<ChunkPlace>,
    all: Seq<Placed>,
    lists: Seq<Seq<Neighbor>>,
    site: usize,
    named: Seq<usize>,
    count: nat,
) -> Seq<Seq<Neighbor>>
    decreases count,
{
    if count == 0 {
        lists
    } else {
        let so_far = link_bearers(chunks, all, lists, site, named, (count - 1) as nat);
        let there = chunks_of(
            chunks,
            all,
            all[named[count - 1] as int].symbol.id,
            all.len(),
        );
        if there.len() > 0 {
            linked(so_far, site, there[0], CALL_WEIGHT)
        } else {
            so_far
        }
    }
}

/// The sites of the first `count` calls of a file connected with what they may
/// call.
pub open spec fn linked_calls(
    chunks: Seq<ChunkPlace>,
    all: Seq<Placed>,
    lists: Seq<Seq<Neighbor>>,
    f: FileModel,
    count: nat,
) -> Seq<Seq<Neighbor>>
    decreases count,
{
    if count == 0 {
        lists
    } else {
        let so_far = linked_calls(chunks, all, lists, f, (count - 1) as nat);
        let e = f.graph.edges[count - 1];
        match holder(chunks, chunks_in(chunks, f.path), e.span) {
            Some(site) => if e.kind == "calls"@ {
                let named = bearers(all, lowercase(tail_of(e.target)), all.len());
                link_bearers(chunks, all, so_far, site, named, named.len())
            } else {
                so_far
            },
            None => so_far,
        }
    }
}

/// The calls of the first `count` files connected with what they may call.
pub open spec fn linked_files(
    chunks: Seq<ChunkPlace>,
    all: Seq<Placed>,
    lists: Seq<Seq<Neighbor>>,
    files: Seq<FileModel>,
    count: nat,
) -> Seq<Seq<Neighbor>>
    decreases count,
{
    if count == 0 {
        lists
    } else {
        let f = files[count - 1];
        linked_calls(
            chunks,
            all,
            linked_files(chunks, all, lists, files, (count - 1) as nat),
            f,
            f.graph.edges.len(),
        )
    }
}

/// How passages are connected: declarations with their parents, and calls with
/// what they may call.
pub open spec fn connections(files: Seq<FileModel>, chunks: Seq<ChunkPlace>) -> Seq<Seq<Neighbor>> {
    let all = declared(files, chunks, files.len());
    let none = Seq::new(chunks.len(), |i: int| Seq::<Neighbor>::empty());
    linked_files(
        chunks,
        all,
        linked_anywhere(
            chunks,
            all,
            linked_before(chunks, all, none, all.len()),
            all.len(),
        ),
        files,
        files.len(),
    )
}

/// The passages of a file.
fn find_chunks(chunks: &Vec<ChunkSpan>, path: &str) -> (r: Vec<usize>)
    ensures
        r@ == chunks_in(chunk_places(chunks@), path@),
        forall|k: int| 0 <= k < r@.len() ==> (#[trigger] r@[k]) < chunks@.len(),
{
    let ghost cs = chunk_places(chunks@);
    let ghost keep = |i: int| cs[i].path == path@;
    let mut r: Vec<usize> = Vec::new();
    let mut i: usize = 0;
    while i < chunks.len()
        invariant
            i <= chunks@.len(),
            cs == chunk_places(chunks@),
            keep == (|i: int| cs[i].path == path@),
            r@ == positions(keep, i as nat),
            forall|k: int| 0 <= k < r@.len() ==> (#[trigger] r@[k]) < chunks@.len(),
        decreases chunks@.len() - i,
    {
        assert(cs[i as int] == chunks@[i as int]@);
        assert(keep(i as int) == (cs[i as int].path == path@));
        if same(chunks[i].path.as_str(), path) {
            r.push(i);
        }
        i += 1;
    }
    assert(cs.len() == chunks@.len());
    r
}

/// The passages of a file that a span reaches.
fn find_covered(chunks: &Vec<ChunkSpan>, path: &str, span: &Span) -> (r: Vec<usize>)
    ensures
        r@ == chunks_under(chunk_places(chunks@), path@, *span),
        forall|k: int| 0 <= k < r@.len() ==> (#[trigger] r@[k]) < chunks@.len(),
{
    let ghost cs = chunk_places(chunks@);
    let ghost keep = |i: int| cs[i].path == path@ && span.reaches(cs[i].start, cs[i].end);
    let mut r: Vec<usize> = Vec::new();
    let mut i: usize = 0;
    while i < chunks.len()
        invariant
            i <= chunks@.len(),
            cs == chunk_places(chunks@),
            keep == (|i: int| cs[i].path == path@ && span.reaches(cs[i].start, cs[i].end)),
            r@ == positions(keep, i as nat),
            forall|k: int| 0 <= k < r@.len() ==> (#[trigger] r@[k]) < chunks@.len(),
        decreases chunks@.len() - i,
    {
        assert(cs[i as int] == chunks@[i as int]@);
        assert(keep(i as int) == (cs[i as int].path == path@ && span.reaches(
            cs[i as int].start,
            cs[i as int].end,
        )));
        if span.overlaps(chunks[i].start, chunks[i].end) && same(chunks[i].path.as_str(), path) {
            r.push(i);
        }
        i += 1;
    }
    assert(cs.len() == chunks@.len());
    r
}

/// The declarations of a project, their names in lower case, and the passages
/// that they reach.
struct Declared<'a> {
    symbols: Vec<(&'a str, &'a Symbol)>,
    lower: Vec<String>,
    covered: Vec<Vec<usize>>,
}

impl<'a> Declared<'a> {
    spec fn placed(self) -> Seq<Placed> {
        placed_models(self.symbols@)
    }

    spec fn wf(self, chunks: Seq<ChunkPlace>) -> bool {
        &&& self.lower@.len() == self.symbols@.len()
        &&& self.covered@.len() == self.symbols@.len()
        &&& forall|k: int|
            0 <= k < self.symbols@.len() ==> (#[trigger] self.lower@[k])@ == lowercase(
                self.symbols@[k].1@.name,
            )
        &&& forall|k: int|
            0 <= k < self.symbols@.len() ==> (#[trigger] self.covered@[k])@ == covered(
                chunks,
                self.placed()[k],
            )
        &&& forall|k: int, j: int|
            0 <= k < self.covered@.len() && 0 <= j < self.covered@[k]@.len() ==> (
            #[trigger] self.covered@[k]@[j]) < chunks.len()
    }

    /// The declarations of the files that there are passages of.
    fn collect(files: &'a [FileGraph], chunks: &Vec<ChunkSpan>) -> (r: Declared<'a>)
        ensures
            r.wf(chunk_places(chunks@)),
            r.placed() == declared(file_models(files@), chunk_places(chunks@), files@.len()),
    {
        let ghost fs = file_models(files@);
        let ghost cs = chunk_places(chunks@);
        let mut r = Declared { symbols: Vec::new(), lower: Vec::new(), covered: Vec::new() };
        let mut i: usize = 0;
        assert(r.placed() =~= Seq::empty());
        while i < files.len()
            invariant
                i <= files@.len(),
                fs == file_models(files@),
                cs == chunk_places(chunks@),
                r.wf(cs),
                r.placed() == declared(fs, cs, i as nat),
            decreases files@.len() - i,
        {
            let f = &files[i];
            assert(fs[i as int] == f@);
            let own = find_chunks(chunks, f.path.as_str());
            if own.len() > 0 {
                let ghost start = r.placed();
                let mut k: usize = 0;
                assert(start + declared_in(f@, 0) =~= start);
                while k < f.graph.symbols.len()
                    invariant
                        k <= f.graph.symbols@.len(),
                        cs == chunk_places(chunks@),
                        r.wf(cs),
                        r.placed() == start + declared_in(f@, k as nat),
                    decreases f.graph.symbols@.len() - k,
                {
                    let s = &f.graph.symbols[k];
                    assert(f@.graph.symbols[k as int] == s@);
                    if !same(s.kind.as_str(), "file") {
                        let reached = find_covered(chunks, f.path.as_str(), &s.span);
                        let item = (f.path.as_str(), s);
                        let ghost p = Placed { path: item.0@, symbol: item.1@ };
                        let ghost was = r;
                        let small = to_lowercase(s.name.as_str());
                        r.symbols.push(item);
                        r.lower.push(small);
                        r.covered.push(reached);
                        proof {
                            assert(r.placed() =~= was.placed().push(p));
                            assert(start + declared_in(f@, (k + 1) as nat) =~= (start
                                + declared_in(f@, k as nat)).push(p));
                            assert forall|j: int| 0 <= j < r.symbols@.len() implies (
                            #[trigger] r.covered@[j])@ == covered(cs, r.placed()[j]) by {
                                if j < was.symbols@.len() {
                                    assert(r.covered@[j] == was.covered@[j]);
                                    assert(r.placed()[j] == was.placed()[j]);
                                }
                            }
                            assert forall|j: int| 0 <= j < r.symbols@.len() implies (
                            #[trigger] r.lower@[j])@ == lowercase(r.symbols@[j].1@.name) by {
                                if j < was.symbols@.len() {
                                    assert(r.lower@[j] == was.lower@[j]);
                                }
                            }
                            assert forall|a: int, j: int|
                                0 <= a < r.covered@.len() && 0 <= j < r.covered@[a]@.len() implies (
                            #[trigger] r.covered@[a]@[j]) < cs.len() by {
                                if a < was.symbols@.len() {
                                    assert(r.covered@[a] == was.covered@[a]);
                                    assert(was.covered@[a]@[j] < cs.len());
                                }
                            }
                        }
                    }
                    k += 1;
                }
                assert(f@.graph.symbols.len() == f.graph.symbols@.len());
            }
            i += 1;
        }
        r
    }

    /// The passages that the last declaration with an id reaches.
    fn reached(&self, chunks: &Vec<ChunkSpan>, id: &str, count: usize) -> (r: Vec<usize>)
        requires
            self.wf(chunk_places(chunks@)),
            count <= self.symbols@.len(),
        ensures
            r@ == chunks_of(chunk_places(chunks@), self.placed(), id@, count as nat),
            forall|k: int| 0 <= k < r@.len() ==> (#[trigger] r@[k]) < chunks@.len(),
    {
        let ghost cs = chunk_places(chunks@);
        let ghost all = self.placed();
        let mut at: usize = count;
        while at > 0
            invariant
                at <= count <= self.symbols@.len(),
                cs == chunk_places(chunks@),
                all == self.placed(),
                self.wf(cs),
                chunks_of(cs, all, id@, count as nat) == chunks_of(cs, all, id@, at as nat),
            decreases at,
        {
            at -= 1;
            assert(all[at as int].symbol == self.symbols@[at as int].1@);
            assert(self.covered@[at as int]@ == covered(cs, all[at as int]));
            if self.covered[at].len() > 0 && same(self.symbols[at].1.id.as_str(), id) {
                let r = self.covered[at].clone();
                assert(r@ =~= self.covered@[at as int]@);
                assert forall|k: int| 0 <= k < r@.len() implies (#[trigger] r@[k])
                    < chunks@.len() by {
                    assert(self.covered@[at as int]@[k] < cs.len());
                }
                return r;
            }
        }
        Vec::new()
    }

    /// Whether no later declaration has the id of this one.
    fn is_last(&self, at: usize) -> (r: bool)
        requires
            at < self.symbols@.len(),
        ensures
            r == last_of_id(self.placed(), at as int),
    {
        let ghost all = self.placed();
        let total: usize = self.symbols.len();
        assert(at < total);
        let mut k: usize = at + 1;
        while k < self.symbols.len()
            invariant
                at < k <= self.symbols@.len(),
                all == self.placed(),
                forall|j: int| at < j < k ==> (#[trigger] all[j]).symbol.id != all[at as int].symbol.id,
            decreases self.symbols@.len() - k,
        {
            assert(all[k as int].symbol == self.symbols@[k as int].1@);
            assert(all[at as int].symbol == self.symbols@[at as int].1@);
            if same(self.symbols[k].1.id.as_str(), self.symbols[at].1.id.as_str()) {
                return false;
            }
            k += 1;
        }
        true
    }

    /// The declarations that bear a name.
    fn find_bearers(&self, chunks: Ghost<Seq<ChunkPlace>>, name: &str) -> (r: Vec<usize>)
        requires
            self.wf(chunks@),
        ensures
            r@ == bearers(self.placed(), name@, self.placed().len()),
            forall|k: int| 0 <= k < r@.len() ==> (#[trigger] r@[k]) < self.symbols@.len(),
    {
        let ghost all = self.placed();
        let mut r: Vec<usize> = Vec::new();
        let mut k: usize = 0;
        while k < self.symbols.len()
            invariant
                k <= self.symbols@.len(),
                all == self.placed(),
                self.wf(chunks@),
                r@ == bearers(all, name@, k as nat),
                forall|j: int| 0 <= j < r@.len() ==> (#[trigger] r@[j]) < self.symbols@.len(),
            decreases self.symbols@.len() - k,
        {
            assert(all[k as int].symbol == self.symbols@[k as int].1@);
            assert(self.lower@[k as int]@ == lowercase(all[k as int].symbol.name));
            if r.len() < CALL_FANOUT && same(self.lower[k].as_str(), name) {
                r.push(k);
            }
            k += 1;
        }
        assert(all.len() == self.symbols@.len());
        r
    }
}

/// Connects each of some passages with some others.
fn link_every(adjacency: &mut Vec<Vec<Neighbor>>, left: &Vec<usize>, right: &Vec<usize>, weight: u32)
    requires
        forall|k: int| 0 <= k < left@.len() ==> (#[trigger] left@[k]) < old(adjacency)@.len(),
        forall|k: int| 0 <= k < right@.len() ==> (#[trigger] right@[k]) < old(adjacency)@.len(),
    ensures
        neighbor_lists(final(adjacency)@) == link_all(
            neighbor_lists(old(adjacency)@),
            left@,
            right@,
            weight,
            left@.len(),
        ),
        final(adjacency)@.len() == old(adjacency)@.len(),
{
    let ghost start = neighbor_lists(adjacency@);
    let mut i: usize = 0;
    while i < left.len()
        invariant
            i <= left@.len(),
            adjacency@.len() == old(adjacency)@.len(),
            forall|k: int| 0 <= k < left@.len() ==> (#[trigger] left@[k]) < adjacency@.len(),
            forall|k: int| 0 <= k < right@.len() ==> (#[trigger] right@[k]) < adjacency@.len(),
            neighbor_lists(adjacency@) == link_all(start, left@, right@, weight, i as nat),
        decreases left@.len() - i,
    {
        let ghost row = neighbor_lists(adjacency@);
        let at: usize = left[i];
        let mut k: usize = 0;
        while k < right.len()
            invariant
                k <= right@.len(),
                at < adjacency@.len(),
                adjacency@.len() == old(adjacency)@.len(),
                forall|k: int| 0 <= k < right@.len() ==> (#[trigger] right@[k]) < adjacency@.len(),
                neighbor_lists(adjacency@) == link_row(row, at, right@, weight, k as nat),
            decreases right@.len() - k,
        {
            link(adjacency, at, right[k], weight);
            k += 1;
        }
        i += 1;
    }
}

/// Connects the calls of a file with what they may call.
fn link_calls(
    adjacency: &mut Vec<Vec<Neighbor>>,
    all: &Declared<'_>,
    chunks: &Vec<ChunkSpan>,
    f: &FileGraph,
)
    requires
        old(adjacency)@.len() == chunks@.len(),
        all.wf(chunk_places(chunks@)),
    ensures
        final(adjacency)@.len() == chunks@.len(),
        neighbor_lists(final(adjacency)@) == linked_calls(
            chunk_places(chunks@),
            all.placed(),
            neighbor_lists(old(adjacency)@),
            f@,
            f@.graph.edges.len(),
        ),
{
    let ghost cs = chunk_places(chunks@);
    let ghost ps = all.placed();
    let ghost start = neighbor_lists(adjacency@);
    let own = find_chunks(chunks, f.path.as_str());
    let mut i: usize = 0;
    assert(f@.graph.edges.len() == f.graph.edges@.len());
    while i < f.graph.edges.len()
        invariant
            i <= f.graph.edges@.len(),
            f@.graph.edges.len() == f.graph.edges@.len(),
            cs == chunk_places(chunks@),
            ps == all.placed(),
            all.wf(cs),
            own@ == chunks_in(cs, f@.path),
            forall|k: int| 0 <= k < own@.len() ==> (#[trigger] own@[k]) < chunks@.len(),
            adjacency@.len() == chunks@.len(),
            neighbor_lists(adjacency@) == linked_calls(cs, ps, start, f@, i as nat),
        decreases f.graph.edges@.len() - i,
    {
        let e = &f.graph.edges[i];
        assert(f@.graph.edges[i as int] == e@);
        if same(e.kind.as_str(), "calls") {
            if let Some(site) = chunk_at(chunks, &own, &e.span) {
                proof {
                    let at = first_reaching(cs, own@, e.span.start, 0);
                    assert(own@[at as int] < chunks@.len());
                }
                let name = to_lowercase(tail(e.target.as_str()).as_str());
                let named = all.find_bearers(Ghost(cs), name.as_str());
                let ghost row = neighbor_lists(adjacency@);
                let total: usize = all.symbols.len();
                let mut k: usize = 0;
                assert(ps.len() == total);
                while k < named.len()
                    invariant
                        k <= named@.len(),
                        site < chunks@.len(),
                        cs == chunk_places(chunks@),
                        ps == all.placed(),
                        all.wf(cs),
                        total == all.symbols@.len(),
                        ps.len() == total,
                        adjacency@.len() == chunks@.len(),
                        forall|j: int|
                            0 <= j < named@.len() ==> (#[trigger] named@[j]) < all.symbols@.len(),
                        neighbor_lists(adjacency@) == link_bearers(
                            cs,
                            ps,
                            row,
                            site,
                            named@,
                            k as nat,
                        ),
                    decreases named@.len() - k,
                {
                    let at: usize = named[k];
                    assert(ps[at as int].symbol == all.symbols@[at as int].1@);
                    let there = all.reached(chunks, all.symbols[at].1.id.as_str(), total);
                    if there.len() > 0 {
                        link(adjacency, site, there[0], CALL_WEIGHT);
                    }
                    k += 1;
                }
            }
        }
        i += 1;
    }
}

/// Orders passages so that those that a graph connects are read together. This
/// is no filter: every passage is returned exactly once. Call targets are hints
/// for reading, never proof of what runs.
pub fn order_chunks(files: &[FileGraph], chunks: &Vec<ChunkSpan>) -> (r: Vec<usize>)
    ensures
        chunks@.len() < 2 ==> r@ == Seq::new(chunks@.len(), |i: int| i as usize),
        chunks@.len() >= 2 ==> r@ == walked(
            connections(file_models(files@), chunk_places(chunks@)),
            chunks@.len(),
        ).order,
        r@.len() == chunks@.len(),
        r@.no_duplicates(),
        forall|c: usize| #[trigger] r@.contains(c) <==> c < chunks@.len(),
{
    let n: usize = chunks.len();
    if n < 2 {
        let mut r: Vec<usize> = Vec::new();
        if n == 1 {
            r.push(0);
            assert(r@[0] == 0);
        }
        assert(r@ =~= Seq::new(chunks@.len(), |i: int| i as usize));
        return r;
    }
    let ghost fs = file_models(files@);
    let ghost cs = chunk_places(chunks@);
    let all = Declared::collect(files, chunks);
    let ghost ps = all.placed();
    let mut adjacency: Vec<Vec<Neighbor>> = Vec::new();
    let ghost none = Seq::new(n as nat, |i: int| Seq::<Neighbor>::empty());
    let mut j: usize = 0;
    assert(neighbor_lists(adjacency@) =~= none.take(0));
    while j < n
        invariant
            j <= n,
            none == Seq::new(n as nat, |i: int| Seq::<Neighbor>::empty()),
            adjacency@.len() == j,
            neighbor_lists(adjacency@) == none.take(j as int),
        decreases n - j,
    {
        let empty: Vec<Neighbor> = Vec::new();
        assert(neighbor_lists(adjacency@.push(empty)) =~= none.take(j + 1));
        adjacency.push(empty);
        j += 1;
    }
    assert(none.take(n as int) =~= none);
    assert(cs.len() == n);
    assert(none =~= Seq::new(cs.len(), |i: int| Seq::<Neighbor>::empty()));
    let total: usize = all.symbols.len();
    assert(ps.len() == total);
    let mut i: usize = 0;
    while i < total
        invariant
            i <= total,
            total == all.symbols@.len(),
            ps.len() == total,
            cs == chunk_places(chunks@),
            cs.len() == n,
            n == chunks@.len(),
            ps == all.placed(),
            all.wf(cs),
            adjacency@.len() == n,
            neighbor_lists(adjacency@) == linked_before(cs, ps, none, i as nat),
        decreases total - i,
    {
        let s = all.symbols[i].1;
        assert(ps[i as int].symbol == s@);
        if let Some(parent) = &s.parent {
            let there = all.reached(chunks, parent.as_str(), i + 1);
            assert(all.covered@[i as int]@ == covered(cs, ps[i as int]));
            assert forall|k: int| 0 <= k < all.covered@[i as int]@.len() implies (
            #[trigger] all.covered@[i as int]@[k]) < adjacency@.len() by {
                assert(all.covered@[i as int]@[k] < cs.len());
            }
            link_every(&mut adjacency, &all.covered[i], &there, PARENT_WEIGHT);
        }
        i += 1;
    }
    let ghost first = neighbor_lists(adjacency@);
    let mut k: usize = 0;
    while k < total
        invariant
            k <= total,
            total == all.symbols@.len(),
            ps.len() == total,
            cs == chunk_places(chunks@),
            cs.len() == n,
            n == chunks@.len(),
            ps == all.placed(),
            all.wf(cs),
            adjacency@.len() == n,
            neighbor_lists(adjacency@) == linked_anywhere(cs, ps, first, k as nat),
        decreases total - k,
    {
        let s = all.symbols[k].1;
        assert(ps[k as int].symbol == s@);
        if let Some(parent) = &s.parent {
            if all.is_last(k) {
                let mine = all.reached(chunks, s.id.as_str(), total);
                let there = all.reached(chunks, parent.as_str(), total);
                link_every(&mut adjacency, &mine, &there, PARENT_WEIGHT);
            }
        }
        k += 1;
    }
    let ghost second = neighbor_lists(adjacency@);
    let mut m: usize = 0;
    while m < files.len()
        invariant
            m <= files@.len(),
            fs == file_models(files@),
            cs == chunk_places(chunks@),
            n == chunks@.len(),
            ps == all.placed(),
            all.wf(cs),
            adjacency@.len() == n,
            neighbor_lists(adjacency@) == linked_files(cs, ps, second, fs, m as nat),
        decreases files@.len() - m,
    {
        assert(fs[m as int] == files@[m as int]@);
        link_calls(&mut adjacency, &all, chunks, &files[m]);
        m += 1;
    }
    assert(fs.len() == files@.len());
    graph_order(&adjacency)
}

} // verus!
