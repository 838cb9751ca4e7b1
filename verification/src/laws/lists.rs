//! Lists without repetition.

use vstd::prelude::*;

use crate::order::{lemma_filter_none, lemma_filter_step};

verus! {

/// The numbers from zero on, below a limit.
pub open spec fn upto(n: nat) -> Seq<int> {
    Seq::new(n, |i: int| i)
}

/// The item at a position is the first with its key.
pub open spec fn is_first<A, K>(s: Seq<A>, key: spec_fn(A) -> K) -> spec_fn(int) -> bool {
    |i: int| forall|j: int| 0 <= j < i ==> key(#[trigger] s[j]) != key(s[i])
}

/// The items of a list, each key once and where it comes first.
pub open spec fn firsts<A, K>(s: Seq<A>, key: spec_fn(A) -> K) -> Seq<A> {
    upto(s.len()).filter(is_first(s, key)).map_values(|i: int| s[i])
}

/// A list holds an item with this key.
pub open spec fn has_key<A, K>(s: Seq<A>, key: spec_fn(A) -> K, k: K) -> bool {
    exists|i: int| 0 <= i < s.len() && key(#[trigger] s[i]) == k
}

/// Filters that agree on the items of a list keep the same ones.
pub proof fn lemma_filters_agree<A>(s: Seq<A>, p: spec_fn(A) -> bool, q: spec_fn(A) -> bool)
    requires
        forall|i: int| 0 <= i < s.len() ==> p(#[trigger] s[i]) == q(s[i]),
    ensures
        s.filter(p) == s.filter(q),
    decreases s.len(),
{
    reveal(Seq::filter);
    if s.len() > 0 {
        let t = s.drop_last();
        assert forall|i: int| 0 <= i < t.len() implies p(#[trigger] t[i]) == q(t[i]) by {
            assert(t[i] == s[i]);
        }
        lemma_filters_agree(t, p, q);
    }
}

pub proof fn lemma_kept<A>(s: Seq<A>, p: spec_fn(A) -> bool, x: A)
    ensures
        s.filter(p).contains(x) <==> s.contains(x) && p(x),
    decreases s.len(),
{
    reveal(Seq::filter);
    let f = s.filter(p);
    if s.len() > 0 {
        let t = s.drop_last();
        lemma_kept(t, p, x);
        let g = t.filter(p);
        if f.contains(x) {
            let i = choose|i: int| 0 <= i < f.len() && f[i] == x;
            if i < g.len() {
                assert(g[i] == x);
                assert(t.contains(x));
                let k = choose|k: int| 0 <= k < t.len() && t[k] == x;
                assert(s[k] == x);
            } else {
                assert(s[s.len() - 1] == x);
            }
        }
        if s.contains(x) && p(x) {
            let k = choose|k: int| 0 <= k < s.len() && s[k] == x;
            if k < t.len() {
                assert(t[k] == x);
                let i = choose|i: int| 0 <= i < g.len() && g[i] == x;
                assert(f[i] == x);
            } else {
                assert(f[f.len() - 1] == x);
            }
        }
    }
}

/// Every key of a list is among the first ones.
pub proof fn lemma_firsts_keep_keys<A, K>(s: Seq<A>, key: spec_fn(A) -> K, i: int)
    requires
        0 <= i < s.len(),
    ensures
        has_key(firsts(s, key), key, key(s[i])),
    decreases i,
{
    let at = upto(s.len()).filter(is_first(s, key));
    if is_first(s, key)(i) {
        lemma_kept(upto(s.len()), is_first(s, key), i);
        assert(upto(s.len())[i] == i);
        let k = choose|k: int| 0 <= k < at.len() && at[k] == i;
        assert(firsts(s, key)[k] == s[i]);
    } else {
        let j = choose|j: int| 0 <= j < i && key(#[trigger] s[j]) == key(s[i]);
        lemma_firsts_keep_keys(s, key, j);
    }
}

/// The first ones are items of the list.
pub proof fn lemma_firsts_are_items<A, K>(s: Seq<A>, key: spec_fn(A) -> K, k: int)
    requires
        0 <= k < firsts(s, key).len(),
    ensures
        exists|i: int|
            0 <= i < s.len() && #[trigger] s[i] == firsts(s, key)[k] && is_first(s, key)(i),
{
    let all = upto(s.len());
    let at = all.filter(is_first(s, key));
    assert(at.contains(at[k]));
    lemma_kept(all, is_first(s, key), at[k]);
    let i = choose|i: int| 0 <= i < all.len() && all[i] == at[k];
    assert(s[i] == firsts(s, key)[k]);
}

/// One item more is kept where its key is new.
pub proof fn lemma_firsts_push<A, K>(s: Seq<A>, key: spec_fn(A) -> K, x: A)
    ensures
        has_key(firsts(s, key), key, key(x)) <==> has_key(s, key, key(x)),
        firsts(s.push(x), key) == (if has_key(firsts(s, key), key, key(x)) {
            firsts(s, key)
        } else {
            firsts(s, key).push(x)
        }),
{
    let t = s.push(x);
    let n = s.len() as int;
    let old = firsts(s, key);
    if has_key(old, key, key(x)) {
        let k = choose|k: int| 0 <= k < old.len() && key(#[trigger] old[k]) == key(x);
        lemma_firsts_are_items(s, key, k);
        let i = choose|i: int|
            0 <= i < s.len() && #[trigger] s[i] == old[k] && is_first(s, key)(i);
        assert(key(s[i]) == key(x));
    }
    if has_key(s, key, key(x)) {
        let i = choose|i: int| 0 <= i < s.len() && key(#[trigger] s[i]) == key(x);
        lemma_firsts_keep_keys(s, key, i);
    }
    let all = upto(t.len());
    lemma_filter_none(all, is_first(t, key));
    lemma_filter_step(all, is_first(t, key), n);
    assert(all.take(n) =~= upto(s.len()));
    let few = upto(s.len());
    assert forall|i: int| 0 <= i < few.len() implies is_first(t, key)(#[trigger] few[i])
        == is_first(s, key)(few[i]) by {
        if is_first(t, key)(i) {
            assert forall|j: int| 0 <= j < i implies key(#[trigger] s[j]) != key(s[i]) by {
                assert(t[j] == s[j]);
            }
        }
        if is_first(s, key)(i) {
            assert forall|j: int| 0 <= j < i implies key(#[trigger] t[j]) != key(t[i]) by {
                assert(t[j] == s[j]);
            }
        }
    }
    lemma_filters_agree(few, is_first(t, key), is_first(s, key));
    let kept = few.filter(is_first(s, key));
    assert forall|k: int| 0 <= k < kept.len() implies s[#[trigger] kept[k]] == t[kept[k]] by {
        assert(kept.contains(kept[k]));
        lemma_kept(few, is_first(s, key), kept[k]);
        let i = choose|i: int| 0 <= i < few.len() && few[i] == kept[k];
        assert(0 <= kept[k] < s.len());
    }
    assert(is_first(t, key)(n) == !has_key(s, key, key(x))) by {
        if has_key(s, key, key(x)) {
            let i = choose|i: int| 0 <= i < s.len() && key(#[trigger] s[i]) == key(x);
            assert(key(t[i]) == key(t[n]));
        } else {
            assert forall|j: int| 0 <= j < n implies key(#[trigger] t[j]) != key(t[n]) by {
                assert(key(s[j]) == key(t[j]));
            }
        }
    }
    assert(kept.map_values(|i: int| t[i]) =~= old);
    assert(kept.push(n).map_values(|i: int| t[i]) =~= old.push(x));
}

/// Joining one list more.
pub proof fn lemma_flatten_take<A>(lists: Seq<Seq<A>>, i: int)
    requires
        0 <= i < lists.len(),
    ensures
        lists.take(i + 1).flatten() == lists.take(i).flatten() + lists[i],
{
    assert(lists.take(i + 1) =~= lists.take(i).push(lists[i]));
    lists.take(i).lemma_flatten_push(lists[i]);
}

// ---------------------------------------------------------------------------
// Taking what fits
// ---------------------------------------------------------------------------

/// What the items at some positions cost together.
pub open spec fn cost_at<A>(all: Seq<A>, cost: spec_fn(A) -> nat, at: Seq<int>) -> nat
    decreases at.len(),
{
    if at.len() == 0 {
        0
    } else {
        cost_at(all, cost, at.drop_last()) + cost(all[at.last()])
    }
}

/// The item at a position was taken just where it fitted beside those taken
/// before it, the first `turn` of the positions.
pub open spec fn fair<A>(
    all: Seq<A>,
    cost: spec_fn(A) -> nat,
    limit: nat,
    at: Seq<int>,
    i: int,
    turn: int,
) -> bool {
    &&& 0 <= turn <= at.len()
    &&& forall|k: int| 0 <= k < turn ==> #[trigger] at[k] < i
    &&& forall|k: int| turn <= k < at.len() ==> #[trigger] at[k] >= i
    &&& (turn < at.len() && at[turn] == i) <==> cost_at(all, cost, at.take(turn)) + cost(all[i])
        <= limit
}

/// The item at a position was taken just where it fitted.
pub open spec fn fairly_taken<A>(
    all: Seq<A>,
    cost: spec_fn(A) -> nat,
    limit: nat,
    at: Seq<int>,
    i: int,
) -> bool {
    exists|turn: int| fair(all, cost, limit, at, i, turn)
}

/// The positions of the items that are taken from a list, in its order: every
/// item that fits beside those taken before it, and no other.
pub open spec fn takes_what_fits<A>(
    all: Seq<A>,
    cost: spec_fn(A) -> nat,
    limit: nat,
    at: Seq<int>,
) -> bool {
    &&& forall|k: int| 0 <= k < at.len() ==> 0 <= #[trigger] at[k] < all.len()
    &&& forall|j: int, k: int| 0 <= j < k < at.len() ==> #[trigger] at[j] < #[trigger] at[k]
    &&& forall|i: int| 0 <= i < all.len() ==> #[trigger] fairly_taken(all, cost, limit, at, i)
}

proof fn lemma_cost_prefix<A>(all: Seq<A>, x: A, cost: spec_fn(A) -> nat, at: Seq<int>)
    requires
        forall|k: int| 0 <= k < at.len() ==> 0 <= #[trigger] at[k] < all.len(),
    ensures
        cost_at(all.push(x), cost, at) == cost_at(all, cost, at),
    decreases at.len(),
{
    if at.len() > 0 {
        let t = at.drop_last();
        assert forall|k: int| 0 <= k < t.len() implies 0 <= #[trigger] t[k] < all.len() by {
            assert(t[k] == at[k]);
        }
        lemma_cost_prefix(all, x, cost, t);
        assert(0 <= at[at.len() - 1] < all.len());
    }
}

/// One item more is taken where it fits.
pub proof fn lemma_take_one<A>(
    all: Seq<A>,
    x: A,
    cost: spec_fn(A) -> nat,
    limit: nat,
    at: Seq<int>,
)
    requires
        takes_what_fits(all, cost, limit, at),
    ensures
        ({
            let fits = cost_at(all, cost, at) + cost(x) <= limit;
            let now = if fits {
                at.push(all.len() as int)
            } else {
                at
            };
            &&& takes_what_fits(all.push(x), cost, limit, now)
            &&& cost_at(all.push(x), cost, now) == cost_at(all, cost, at) + (if fits {
                cost(x)
            } else {
                0
            })
        }),
{
    let n = all.len() as int;
    let more = all.push(x);
    let fits = cost_at(all, cost, at) + cost(x) <= limit;
    let now = if fits {
        at.push(n)
    } else {
        at
    };
    lemma_cost_prefix(all, x, cost, at);
    if fits {
        assert(now.drop_last() =~= at);
        assert(more[n] == x);
    }
    assert forall|k: int| 0 <= k < now.len() implies 0 <= #[trigger] now[k] < more.len() by {
        if k < at.len() {
            assert(now[k] == at[k]);
        }
    }
    assert forall|j: int, k: int| 0 <= j < k < now.len() implies #[trigger] now[j]
        < #[trigger] now[k] by {
        assert(now[j] == at[j]);
        if k < at.len() {
            assert(now[k] == at[k]);
        }
    }
    assert forall|i: int| 0 <= i < more.len() implies #[trigger] fairly_taken(
        more,
        cost,
        limit,
        now,
        i,
    ) by {
        if i < n {
            assert(fairly_taken(all, cost, limit, at, i));
            let turn = choose|turn: int| fair(all, cost, limit, at, i, turn);
            let head = at.take(turn);
            assert(now.take(turn) =~= head);
            assert forall|k: int| 0 <= k < head.len() implies 0 <= #[trigger] head[k]
                < all.len() by {
                assert(head[k] == at[k]);
            }
            lemma_cost_prefix(all, x, cost, head);
            assert forall|k: int| 0 <= k < turn implies #[trigger] now[k] < i by {
                assert(now[k] == at[k]);
            }
            assert forall|k: int| turn <= k < now.len() implies #[trigger] now[k] >= i by {
                if k < at.len() {
                    assert(now[k] == at[k]);
                }
            }
            assert(fair(more, cost, limit, now, i, turn));
        } else {
            let turn = at.len() as int;
            assert(now.take(turn) =~= at);
            assert forall|k: int| 0 <= k < turn implies #[trigger] now[k] < i by {
                assert(now[k] == at[k]);
            }
            assert(fair(more, cost, limit, now, i, turn));
        }
    }
}

/// Nothing is taken from nothing.
pub proof fn lemma_take_none<A>(cost: spec_fn(A) -> nat, limit: nat)
    ensures
        takes_what_fits(Seq::<A>::empty(), cost, limit, Seq::<int>::empty()),
        cost_at(Seq::<A>::empty(), cost, Seq::<int>::empty()) == 0,
{
}

} // verus!
