//! Stable orderings of positions, and sums.

use vstd::prelude::*;

use crate::text::{before, list_has, precedes, texts};

verus! {

// ---------------------------------------------------------------------------
// Sums
// ---------------------------------------------------------------------------

/// The sum of a list of numbers.
pub open spec fn sum(s: Seq<nat>) -> nat
    decreases s.len(),
{
    if s.len() == 0 {
        0
    } else {
        sum(s.drop_last()) + s.last()
    }
}

/// The numbers of a list.
pub open spec fn nats(s: Seq<usize>) -> Seq<nat> {
    s.map_values(|n: usize| n as nat)
}

/// Replacing one number changes the sum by the difference.
pub proof fn lemma_sum_update(s: Seq<nat>, at: int, n: nat)
    requires
        0 <= at < s.len(),
    ensures
        sum(s.update(at, n)) == sum(s) - s[at] + n,
        s[at] <= sum(s),
    decreases s.len(),
{
    let t = s.update(at, n);
    if at == s.len() - 1 {
        assert(t.drop_last() =~= s.drop_last());
    } else {
        lemma_sum_update(s.drop_last(), at, n);
        assert(t.drop_last() =~= s.drop_last().update(at, n));
    }
}

/// The sum of a shorter prefix is no larger.
pub proof fn lemma_sum_take(s: Seq<nat>, i: int)
    requires
        0 <= i < s.len(),
    ensures
        sum(s.take(i + 1)) == sum(s.take(i)) + s[i],
        sum(s.take(i + 1)) <= sum(s),
    decreases s.len() - i,
{
    assert(s.take(i + 1).drop_last() =~= s.take(i));
    if i + 1 == s.len() {
        assert(s.take(i + 1) =~= s);
    } else {
        lemma_sum_take(s, i + 1);
    }
}

/// The sum of a list is at least each of its numbers.
pub proof fn lemma_sum_at_least(s: Seq<nat>, i: int)
    requires
        0 <= i < s.len(),
    ensures
        s[i] <= sum(s),
{
    lemma_sum_update(s, i, 0);
}

/// The sum of a list of numbers that fits.
pub fn total_of(list: &Vec<usize>) -> (r: usize)
    requires
        sum(nats(list@)) <= usize::MAX,
    ensures
        r == sum(nats(list@)),
{
    let mut r: usize = 0;
    let mut i: usize = 0;
    while i < list.len()
        invariant
            i <= list@.len(),
            sum(nats(list@)) <= usize::MAX,
            r == sum(nats(list@).take(i as int)),
        decreases list@.len() - i,
    {
        proof {
            lemma_sum_take(nats(list@), i as int);
        }
        r += list[i];
        i += 1;
    }
    assert(nats(list@).take(i as int) =~= nats(list@));
    r
}

// ---------------------------------------------------------------------------
// Positions
// ---------------------------------------------------------------------------

/// The positions below `count` at which `keep` holds, in order.
pub open spec fn positions(keep: spec_fn(int) -> bool, count: nat) -> Seq<usize>
    decreases count,
{
    if count == 0 {
        Seq::empty()
    } else if keep(count - 1) {
        positions(keep, (count - 1) as nat).push((count - 1) as usize)
    } else {
        positions(keep, (count - 1) as nat)
    }
}

/// Positions are the numbers below `count` that are kept, in order.
pub proof fn lemma_positions(keep: spec_fn(int) -> bool, count: nat)
    requires
        count <= usize::MAX,
    ensures
        positions(keep, count).len() <= count,
        forall|k: int|
            0 <= k < positions(keep, count).len() ==> (#[trigger] positions(keep, count)[k]) < count
                && keep(positions(keep, count)[k] as int),
        forall|b: int|
            0 <= b < count && #[trigger] keep(b) ==> positions(keep, count).contains(b as usize),
        forall|j: int, k: int|
            0 <= j < k < positions(keep, count).len() ==> positions(keep, count)[j] < positions(
                keep,
                count,
            )[k],
    decreases count,
{
    if count > 0 {
        let before = positions(keep, (count - 1) as nat);
        lemma_positions(keep, (count - 1) as nat);
        let now = positions(keep, count);
        assert forall|b: int| 0 <= b < count && #[trigger] keep(b) implies now.contains(b as usize) by {
            if b == count - 1 {
                assert(now.last() == b as usize);
            } else {
                let k = choose|k: int| 0 <= k < before.len() && before[k] == b as usize;
                assert(now[k] == b as usize);
            }
        }
    }
}

/// Where one position is kept, the list of positions is that one.
pub proof fn lemma_one_position(keep: spec_fn(int) -> bool, count: nat, at: int)
    requires
        0 <= at < count <= usize::MAX,
        keep(at),
        forall|k: int| 0 <= k < count && #[trigger] keep(k) ==> k == at,
    ensures
        positions(keep, count) == seq![at as usize],
    decreases count,
{
    if at == count - 1 {
        lemma_no_position(keep, (count - 1) as nat);
        assert(positions(keep, count) =~= seq![at as usize]);
    } else {
        assert(!keep(count - 1));
        lemma_one_position(keep, (count - 1) as nat, at);
    }
}

proof fn lemma_no_position(keep: spec_fn(int) -> bool, count: nat)
    requires
        forall|k: int| 0 <= k < count ==> !#[trigger] keep(k),
    ensures
        positions(keep, count) == Seq::<usize>::empty(),
    decreases count,
{
    if count > 0 {
        assert(!keep(count - 1));
        lemma_no_position(keep, (count - 1) as nat);
    }
}

/// Positions depend only on what is kept.
pub proof fn lemma_positions_same(p: spec_fn(int) -> bool, q: spec_fn(int) -> bool, count: nat)
    requires
        forall|b: int| 0 <= b < count ==> #[trigger] p(b) == q(b),
    ensures
        positions(p, count) == positions(q, count),
    decreases count,
{
    if count > 0 {
        lemma_positions_same(p, q, (count - 1) as nat);
        assert(p(count - 1) == q(count - 1));
    }
}

// ---------------------------------------------------------------------------
// Stable orderings
// ---------------------------------------------------------------------------

/// Puts `x` into an ordered list of positions, behind everything that it does
/// not precede.
pub open spec fn insert_ordered(
    s: Seq<usize>,
    x: usize,
    less: spec_fn(usize, usize) -> bool,
) -> Seq<usize>
    decreases s.len(),
{
    if s.len() > 0 && less(x, s.last()) {
        insert_ordered(s.drop_last(), x, less).push(s.last())
    } else {
        s.push(x)
    }
}

/// The positions below `count` in the order of `less`; of two that neither
/// precedes the other, the earlier one first.
pub open spec fn ordered(count: nat, less: spec_fn(usize, usize) -> bool) -> Seq<usize>
    decreases count,
{
    if count == 0 {
        Seq::empty()
    } else {
        insert_ordered(ordered((count - 1) as nat, less), (count - 1) as usize, less)
    }
}

/// The order in which larger ranks come first.
pub open spec fn descending(ranks: Seq<usize>) -> spec_fn(usize, usize) -> bool {
    |a: usize, b: usize| ranks[a as int] > ranks[b as int]
}

/// The order in which smaller ranks come first.
pub open spec fn ascending(ranks: Seq<usize>) -> spec_fn(usize, usize) -> bool {
    |a: usize, b: usize| ranks[a as int] < ranks[b as int]
}

/// The order of texts.
pub open spec fn textual(names: Seq<Seq<char>>) -> spec_fn(usize, usize) -> bool {
    |a: usize, b: usize| precedes(names[a as int], names[b as int])
}

/// Inserting adds one item and keeps the others.
pub proof fn lemma_insert_ordered(
    s: Seq<usize>,
    x: usize,
    less: spec_fn(usize, usize) -> bool,
)
    ensures
        insert_ordered(s, x, less).len() == s.len() + 1,
        insert_ordered(s, x, less).to_multiset() == s.to_multiset().insert(x),
        forall|y: usize| #[trigger]
            insert_ordered(s, x, less).contains(y) <==> (s.contains(y) || y == x),
    decreases s.len(),
{
    broadcast use vstd::seq_lib::group_to_multiset_ensures;

    let r = insert_ordered(s, x, less);
    if s.len() > 0 && less(x, s.last()) {
        let t = s.drop_last();
        lemma_insert_ordered(t, x, less);
        assert(s =~= t.push(s.last()));
        assert(r.to_multiset() =~= s.to_multiset().insert(x));
    } else {
        assert(r.to_multiset() =~= s.to_multiset().insert(x));
    }
    assert forall|y: usize| #[trigger] r.contains(y) <==> (s.contains(y) || y == x) by {
        assert(r.contains(y) <==> r.to_multiset().count(y) > 0);
        assert(s.contains(y) <==> s.to_multiset().count(y) > 0);
    }
}

/// An ordering lists every position exactly once.
pub proof fn lemma_ordered(count: nat, less: spec_fn(usize, usize) -> bool)
    requires
        count <= usize::MAX + 1,
    ensures
        ordered(count, less).len() == count,
        forall|y: usize| #[trigger] ordered(count, less).contains(y) <==> y < count,
        ordered(count, less).no_duplicates(),
    decreases count,
{
    if count > 0 {
        let s = ordered((count - 1) as nat, less);
        let x = (count - 1) as usize;
        lemma_ordered((count - 1) as nat, less);
        lemma_insert_ordered(s, x, less);
        assert(!s.contains(x));
        lemma_insert_distinct(s, x, less);
    }
}

/// Inserting something new keeps a list free of repetition.
proof fn lemma_insert_distinct(s: Seq<usize>, x: usize, less: spec_fn(usize, usize) -> bool)
    requires
        s.no_duplicates(),
        !s.contains(x),
    ensures
        insert_ordered(s, x, less).no_duplicates(),
    decreases s.len(),
{
    if s.len() > 0 && less(x, s.last()) {
        let t = s.drop_last();
        assert(!t.contains(x)) by {
            if t.contains(x) {
                let k = choose|k: int| 0 <= k < t.len() && t[k] == x;
                assert(s[k] == x);
            }
        }
        lemma_insert_distinct(t, x, less);
        lemma_insert_ordered(t, x, less);
        let r = insert_ordered(t, x, less);
        assert(!r.contains(s.last())) by {
            if t.contains(s.last()) {
                let k = choose|k: int| 0 <= k < t.len() && t[k] == s.last();
                assert(s[k] == s.last());
            }
            assert(s.last() != x);
        }
        assert forall|i: int, j: int|
            0 <= i < r.push(s.last()).len() && 0 <= j < r.push(s.last()).len() && i != j implies r.push(
            s.last(),
        )[i] != r.push(s.last())[j] by {
            if i == r.len() {
                assert(r.contains(r[j]));
            } else if j == r.len() {
                assert(r.contains(r[i]));
            }
        }
    }
}

/// A list is in the order of `less`: nothing stands behind what it precedes.
pub open spec fn in_order(s: Seq<usize>, less: spec_fn(usize, usize) -> bool) -> bool {
    forall|i: int, j: int| 0 <= i < j < s.len() ==> !(#[trigger] less(s[j], s[i]))
}

/// `less` is the strict part of an order in which any two are comparable.
pub open spec fn weak_order(count: nat, less: spec_fn(usize, usize) -> bool) -> bool {
    &&& forall|a: usize, b: usize| a < count && b < count && #[trigger] less(a, b) ==> !less(b, a)
    &&& forall|a: usize, b: usize, c: usize|
        a < count && b < count && c < count && !(#[trigger] less(b, a)) && !(#[trigger] less(c, b))
            ==> !less(c, a)
}

/// Orderings by a weak order are in that order.
pub proof fn orderings_are_in_order(count: nat, less: spec_fn(usize, usize) -> bool)
    requires
        count <= usize::MAX + 1,
        weak_order(count, less),
    ensures
        in_order(ordered(count, less), less),
    decreases count,
{
    if count > 0 {
        let s = ordered((count - 1) as nat, less);
        orderings_are_in_order((count - 1) as nat, less);
        lemma_ordered((count - 1) as nat, less);
        assert forall|k: int| 0 <= k < s.len() implies s[k] < count by {
            assert(s.contains(s[k]));
        }
        lemma_insert_sorted(s, (count - 1) as usize, count, less);
    }
}

proof fn lemma_insert_sorted(
    s: Seq<usize>,
    x: usize,
    count: nat,
    less: spec_fn(usize, usize) -> bool,
)
    requires
        weak_order(count, less),
        in_order(s, less),
        x < count,
        forall|k: int| 0 <= k < s.len() ==> s[k] < count,
    ensures
        in_order(insert_ordered(s, x, less), less),
    decreases s.len(),
{
    let r = insert_ordered(s, x, less);
    if s.len() > 0 && less(x, s.last()) {
        let t = s.drop_last();
        assert(in_order(t, less)) by {
            assert forall|i: int, j: int| 0 <= i < j < t.len() implies !(#[trigger] less(
                t[j],
                t[i],
            )) by {
                assert(!less(s[j], s[i]));
            }
        }
        lemma_insert_sorted(t, x, count, less);
        lemma_insert_ordered(t, x, less);
        let q = insert_ordered(t, x, less);
        assert forall|i: int, j: int| 0 <= i < j < r.len() implies !(#[trigger] less(r[j], r[i])) by {
            if j == q.len() {
                assert(q.contains(q[i]));
                if q[i] == x {
                    assert(!less(s.last(), x));
                } else {
                    assert(t.contains(q[i]));
                    let k = choose|k: int| 0 <= k < t.len() && t[k] == q[i];
                    assert(!less(s[s.len() - 1], s[k]));
                }
            } else {
                assert(!less(q[j], q[i]));
            }
        }
    } else {
        assert forall|i: int, j: int| 0 <= i < j < r.len() implies !(#[trigger] less(r[j], r[i])) by {
            if j == s.len() {
                if i < s.len() - 1 {
                    assert(!less(s[s.len() - 1], s[i]));
                    assert(!less(x, s[s.len() - 1]));
                }
            } else {
                assert(!less(s[j], s[i]));
            }
        }
    }
}

/// The place at which an item goes into an ordered list.
pub proof fn lemma_insert_at(
    s: Seq<usize>,
    x: usize,
    less: spec_fn(usize, usize) -> bool,
    at: int,
)
    requires
        0 <= at <= s.len(),
        forall|k: int| at <= k < s.len() ==> less(x, #[trigger] s[k]),
        at > 0 ==> !less(x, s[at - 1]),
    ensures
        insert_ordered(s, x, less) == s.insert(at, x),
    decreases s.len(),
{
    if at < s.len() {
        assert(less(x, s[s.len() - 1]));
        lemma_insert_at(s.drop_last(), x, less, at);
        assert(s.drop_last().insert(at, x).push(s.last()) =~= s.insert(at, x));
    } else {
        if s.len() > 0 {
            assert(!less(x, s[at - 1]));
        }
        assert(s.insert(at, x) =~= s.push(x));
    }
}

/// Positions ordered by their ranks come in the order of the ranks, both ways.
pub proof fn ranks_are_in_order(ranks: Seq<usize>)
    requires
        ranks.len() <= usize::MAX,
    ensures
        in_order(ordered(ranks.len(), ascending(ranks)), ascending(ranks)),
        in_order(ordered(ranks.len(), descending(ranks)), descending(ranks)),
{
    orderings_are_in_order(ranks.len(), ascending(ranks));
    orderings_are_in_order(ranks.len(), descending(ranks));
}

/// The positions of a list of ranks, larger ranks first.
pub fn order_descending(ranks: &Vec<usize>) -> (r: Vec<usize>)
    ensures
        r@ == ordered(ranks@.len(), descending(ranks@)),
{
    let ghost less = descending(ranks@);
    let mut r: Vec<usize> = Vec::new();
    let mut x: usize = 0;
    while x < ranks.len()
        invariant
            x <= ranks@.len(),
            less == descending(ranks@),
            r@ == ordered(x as nat, less),
        decreases ranks@.len() - x,
    {
        proof {
            lemma_ordered(x as nat, less);
            assert forall|k: int| 0 <= k < r@.len() implies #[trigger] r@[k] < ranks@.len() by {
                assert(r@.contains(r@[k]));
            }
        }
        let mut at: usize = r.len();
        while at > 0 && ranks[x] > ranks[r[at - 1]]
            invariant
                at <= r@.len(),
                x < ranks@.len(),
                less == descending(ranks@),
                forall|k: int| 0 <= k < r@.len() ==> #[trigger] r@[k] < ranks@.len(),
                forall|k: int| at <= k < r@.len() ==> less(x, #[trigger] r@[k]),
            decreases at,
        {
            at -= 1;
        }
        proof {
            lemma_insert_at(r@, x, less, at as int);
        }
        r.insert(at, x);
        x += 1;
    }
    r
}

/// The positions of a list of ranks, smaller ranks first.
pub fn order_ascending(ranks: &Vec<usize>) -> (r: Vec<usize>)
    ensures
        r@ == ordered(ranks@.len(), ascending(ranks@)),
{
    let ghost less = ascending(ranks@);
    let mut r: Vec<usize> = Vec::new();
    let mut x: usize = 0;
    while x < ranks.len()
        invariant
            x <= ranks@.len(),
            less == ascending(ranks@),
            r@ == ordered(x as nat, less),
        decreases ranks@.len() - x,
    {
        proof {
            lemma_ordered(x as nat, less);
            assert forall|k: int| 0 <= k < r@.len() implies #[trigger] r@[k] < ranks@.len() by {
                assert(r@.contains(r@[k]));
            }
        }
        let mut at: usize = r.len();
        while at > 0 && ranks[x] < ranks[r[at - 1]]
            invariant
                at <= r@.len(),
                x < ranks@.len(),
                less == ascending(ranks@),
                forall|k: int| 0 <= k < r@.len() ==> #[trigger] r@[k] < ranks@.len(),
                forall|k: int| at <= k < r@.len() ==> less(x, #[trigger] r@[k]),
            decreases at,
        {
            at -= 1;
        }
        proof {
            lemma_insert_at(r@, x, less, at as int);
        }
        r.insert(at, x);
        x += 1;
    }
    r
}

/// The positions of a list of texts, in the order of the texts.
pub fn order_texts(names: &Vec<String>) -> (r: Vec<usize>)
    ensures
        r@ == ordered(names@.len(), textual(texts(names@))),
{
    let ghost less = textual(texts(names@));
    let mut r: Vec<usize> = Vec::new();
    let mut x: usize = 0;
    while x < names.len()
        invariant
            x <= names@.len(),
            less == textual(texts(names@)),
            r@ == ordered(x as nat, less),
        decreases names@.len() - x,
    {
        proof {
            lemma_ordered(x as nat, less);
            assert forall|k: int| 0 <= k < r@.len() implies #[trigger] r@[k] < names@.len() by {
                assert(r@.contains(r@[k]));
            }
        }
        let mut at: usize = r.len();
        while at > 0 && before(names[x].as_str(), names[r[at - 1]].as_str())
            invariant
                at <= r@.len(),
                x < names@.len(),
                less == textual(texts(names@)),
                forall|k: int| 0 <= k < r@.len() ==> #[trigger] r@[k] < names@.len(),
                forall|k: int| at <= k < r@.len() ==> less(x, #[trigger] r@[k]),
            decreases at,
        {
            at -= 1;
        }
        proof {
            lemma_insert_at(r@, x, less, at as int);
        }
        r.insert(at, x);
        x += 1;
    }
    r
}

/// A list of texts in order.
pub open spec fn sorted_texts(s: Seq<Seq<char>>) -> Seq<Seq<char>> {
    ordered(s.len(), textual(s)).map_values(|i: usize| s[i as int])
}

/// A list of texts in order.
pub fn sort_texts(list: &Vec<String>) -> (r: Vec<String>)
    ensures
        texts(r@) == sorted_texts(texts(list@)),
        r@.len() == list@.len(),
{
    let order = order_texts(list);
    let ghost all = texts(list@);
    let ghost goal = sorted_texts(all);
    proof {
        assert(list.len() == list@.len());
        lemma_ordered(list@.len(), textual(all));
        assert forall|k: int| 0 <= k < order@.len() implies #[trigger] order@[k] < list@.len() by {
            assert(order@.contains(order@[k]));
        }
    }
    let mut r: Vec<String> = Vec::new();
    let mut k: usize = 0;
    assert(texts(r@) =~= goal.take(0));
    while k < order.len()
        invariant
            k <= order@.len(),
            order@.len() == list@.len(),
            r@.len() == k,
            forall|k: int| 0 <= k < order@.len() ==> #[trigger] order@[k] < list@.len(),
            all == texts(list@),
            goal == order@.map_values(|i: usize| all[i as int]),
            texts(r@) == goal.take(k as int),
        decreases order@.len() - k,
    {
        let item = list[order[k]].clone();
        assert(texts(r@.push(item)) =~= texts(r@).push(item@));
        assert(goal.take(k + 1) =~= goal.take(k as int).push(item@));
        r.push(item);
        k += 1;
    }
    assert(goal.take(k as int) =~= goal);
    r
}

/// The first `count` texts, each where it first occurs.
pub open spec fn first_occurrences(s: Seq<Seq<char>>, count: nat) -> Seq<Seq<char>>
    decreases count,
{
    if count == 0 {
        Seq::empty()
    } else {
        let so_far = first_occurrences(s, (count - 1) as nat);
        if so_far.contains(s[count - 1]) {
            so_far
        } else {
            so_far.push(s[count - 1])
        }
    }
}

/// The texts of a list, in order and each once.
pub open spec fn sorted_distinct(s: Seq<Seq<char>>) -> Seq<Seq<char>> {
    sorted_texts(first_occurrences(s, s.len()))
}

/// Orders texts and leaves out repetitions.
pub fn sort_distinct(list: &Vec<String>) -> (r: Vec<String>)
    ensures
        texts(r@) == sorted_distinct(texts(list@)),
{
    let ghost all = texts(list@);
    let mut r: Vec<String> = Vec::new();
    let mut i: usize = 0;
    assert(texts(r@) =~= Seq::empty());
    while i < list.len()
        invariant
            i <= list@.len(),
            all == texts(list@),
            texts(r@) == first_occurrences(all, i as nat),
        decreases list@.len() - i,
    {
        assert(all[i as int] == list@[i as int]@);
        if !list_has(&r, list[i].as_str()) {
            let t = list[i].clone();
            assert(texts(r@.push(t)) =~= texts(r@).push(t@));
            r.push(t);
        }
        i += 1;
    }
    assert(all.len() == list@.len());
    sort_texts(&r)
}

/// Filtering one item more.
pub proof fn lemma_filter_step<A>(s: Seq<A>, keep: spec_fn(A) -> bool, i: int)
    requires
        0 <= i < s.len(),
    ensures
        s.take(i + 1).filter(keep) == (if keep(s[i]) {
            s.take(i).filter(keep).push(s[i])
        } else {
            s.take(i).filter(keep)
        }),
{
    reveal(Seq::filter);
    assert(s.take(i + 1).drop_last() =~= s.take(i));
    assert(s.take(i + 1).last() == s[i]);
}

/// Filtering nothing.
pub proof fn lemma_filter_none<A>(s: Seq<A>, keep: spec_fn(A) -> bool)
    ensures
        s.take(0).filter(keep) == Seq::<A>::empty(),
        s.take(s.len() as int) == s,
{
    reveal(Seq::filter);
    assert(s.take(0) =~= Seq::empty());
    assert(s.take(s.len() as int) =~= s);
}

} // verus!
