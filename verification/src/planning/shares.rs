//! Dividing limits of a document among its planning requests.

use vstd::arithmetic::div_mod::{lemma_div_is_ordered, lemma_fundamental_div_mod};
use vstd::arithmetic::mul::lemma_mul_inequality;
use vstd::prelude::*;

use crate::order::{
    descending, lemma_ordered, lemma_sum_at_least, lemma_sum_take, lemma_sum_update, nats,
    order_descending, ordered, sum, total_of,
};

verus! {

/// The sum of the weights, and one where they add up to nothing.
pub open spec fn weight(weights: Seq<usize>) -> nat {
    if sum(nats(weights)) == 0 {
        1
    } else {
        sum(nats(weights))
    }
}

/// What is due to a part by its weight, rounded down.
pub open spec fn due(total: nat, weights: Seq<usize>, i: int) -> nat {
    total * weights[i] as nat / weight(weights)
}

/// The shares before anything is taken back: what is due, and at least one.
pub open spec fn first_shares(total: nat, weights: Seq<usize>) -> Seq<usize> {
    Seq::new(
        weights.len(),
        |i: int|
            if due(total, weights, i) < 1 {
                1usize
            } else {
                due(total, weights, i) as usize
            },
    )
}

/// The last of the largest shares above one, among the first `count`.
pub open spec fn largest(shares: Seq<usize>, count: nat) -> Option<usize>
    decreases count,
{
    if count == 0 {
        None
    } else {
        let before = largest(shares, (count - 1) as nat);
        let here = (count - 1) as usize;
        if shares[count - 1] <= 1 {
            before
        } else {
            match before {
                Some(best) if shares[best as int] > shares[count - 1] => before,
                _ => Some(here),
            }
        }
    }
}

/// Takes one back from the largest share until the shares fit or each is one.
pub open spec fn take_back(shares: Seq<usize>, total: nat) -> Seq<usize>
    decreases sum(nats(shares)),
{
    match largest(shares, shares.len()) {
        Some(i) if sum(nats(shares)) > total && i < shares.len() && shares[i as int] > 1 && sum(
            nats(shares.update(i as int, (shares[i as int] - 1) as usize)),
        ) < sum(nats(shares)) => take_back(
            shares.update(i as int, (shares[i as int] - 1) as usize),
            total,
        ),
        _ => shares,
    }
}

/// The largest share is one of them, above one, and no other exceeds it.
pub proof fn lemma_largest(shares: Seq<usize>, count: nat)
    requires
        count <= shares.len() <= usize::MAX,
    ensures
        match largest(shares, count) {
            Some(i) => i < count && shares[i as int] > 1 && forall|k: int|
                0 <= k < count ==> shares[k] <= shares[i as int],
            None => forall|k: int| 0 <= k < count ==> shares[k] <= 1,
        },
    decreases count,
{
    if count > 0 {
        lemma_largest(shares, (count - 1) as nat);
    }
}

/// Taking one back lowers the sum by one.
proof fn lemma_take_one(shares: Seq<usize>, i: int)
    requires
        0 <= i < shares.len(),
        shares[i] >= 1,
    ensures
        sum(nats(shares.update(i, (shares[i] - 1) as usize))) == sum(nats(shares)) - 1,
{
    lemma_sum_update(nats(shares), i, (shares[i] - 1) as nat);
    assert(nats(shares.update(i, (shares[i] - 1) as usize)) =~= nats(shares).update(
        i,
        (shares[i] - 1) as nat,
    ));
}

/// What the parts are due adds up to no more than there is.
proof fn lemma_due_fits(total: nat, weights: Seq<usize>, floors: Seq<nat>, count: int)
    requires
        0 <= count <= weights.len(),
        floors.len() == weights.len(),
        forall|i: int| 0 <= i < weights.len() ==> floors[i] == due(total, weights, i),
    ensures
        sum(floors.take(count)) * weight(weights) <= total * sum(nats(weights).take(count)),
    decreases count,
{
    let w = weight(weights);
    if count == 0 {
        assert(floors.take(0).len() == 0);
        assert(nats(weights).take(0).len() == 0);
        assert(sum(floors.take(0)) * w == 0) by (nonlinear_arith)
            requires
                sum(floors.take(0)) == 0,
        ;
        assert(total * sum(nats(weights).take(0)) >= 0);
    } else {
        lemma_due_fits(total, weights, floors, count - 1);
        lemma_sum_take(floors, count - 1);
        lemma_sum_take(nats(weights), count - 1);
        let n = total * weights[count - 1] as nat;
        lemma_fundamental_div_mod(n as int, w as int);
        assert(floors[count - 1] * w <= n) by (nonlinear_arith)
            requires
                n == w * (n / w) + n % w,
                floors[count - 1] == n / w,
                w > 0,
        ;
        let a = sum(floors.take(count - 1));
        let b = sum(nats(weights).take(count - 1));
        let f = floors[count - 1];
        let v = weights[count - 1] as nat;
        assert((a + f) * w <= total * (b + v)) by (nonlinear_arith)
            requires
                a * w <= total * b,
                f * w <= n,
                n == total * v,
        ;
    }
}

/// What the parts are due adds up to at most the total.
proof fn lemma_due_total(total: nat, weights: Seq<usize>, floors: Seq<nat>)
    requires
        floors.len() == weights.len(),
        forall|i: int| 0 <= i < weights.len() ==> floors[i] == due(total, weights, i),
    ensures
        sum(floors) <= total,
{
    let count = weights.len() as int;
    lemma_due_fits(total, weights, floors, count);
    assert(floors.take(count) =~= floors);
    assert(nats(weights).take(count) =~= nats(weights));
    let w = weight(weights);
    let s = sum(nats(weights));
    let f = sum(floors);
    assert(f <= total) by (nonlinear_arith)
        requires
            f * w <= total * s,
            s <= w,
            w > 0,
    ;
}

/// One part is due at most the total.
proof fn lemma_due_one(total: nat, weights: Seq<usize>, i: int)
    requires
        0 <= i < weights.len(),
    ensures
        due(total, weights, i) <= total,
        total * weights[i] as nat <= total * weight(weights),
{
    let w = weight(weights);
    lemma_sum_at_least(nats(weights), i);
    lemma_mul_inequality(weights[i] as int, w as int, total as int);
    lemma_div_is_ordered(total * weights[i] as int, total * w as int, w as int);
    assert(total * w as int / w as int == total) by (nonlinear_arith)
        requires
            w > 0,
    ;
    assert(total * weights[i] as nat <= total * w) by (nonlinear_arith)
        requires
            weights[i] <= w,
    ;
}

/// One more for some parts adds at most their number.
proof fn lemma_first_sum(floors: Seq<nat>, shares: Seq<nat>)
    requires
        floors.len() == shares.len(),
        forall|i: int| 0 <= i < floors.len() ==> shares[i] <= floors[i] + 1,
    ensures
        sum(shares) <= sum(floors) + shares.len(),
    decreases shares.len(),
{
    if shares.len() > 0 {
        lemma_first_sum(floors.drop_last(), shares.drop_last());
    }
}

/// The sum of the first shares exceeds the total by at most their number.
proof fn lemma_first_shares(total: nat, weights: Seq<usize>)
    requires
        total + weights.len() <= usize::MAX,
    ensures
        sum(nats(first_shares(total, weights))) <= total + weights.len(),
{
    let floors = Seq::new(weights.len(), |i: int| due(total, weights, i));
    let shares = nats(first_shares(total, weights));
    assert forall|i: int| 0 <= i < floors.len() implies shares[i] <= floors[i] + 1 by {
        lemma_due_one(total, weights, i);
    }
    lemma_due_total(total, weights, floors);
    lemma_first_sum(floors, shares);
}

/// Divides `total` across parts by their weights: at least one each, and never
/// more than `total` together where there are no more parts than that.
pub fn chapter_shares(total: usize, weights: &Vec<usize>) -> (r: Vec<usize>)
    requires
        total * weight(weights@) <= usize::MAX,
        total + weights@.len() <= usize::MAX,
        sum(nats(weights@)) <= usize::MAX,
    ensures
        r@ == take_back(first_shares(total as nat, weights@), total as nat),
{
    let plain: usize = total_of(weights);
    let all: usize = if plain == 0 {
        1
    } else {
        plain
    };
    let mut shares: Vec<usize> = Vec::new();
    let ghost first = first_shares(total as nat, weights@);
    let mut i: usize = 0;
    while i < weights.len()
        invariant
            i <= weights@.len(),
            all == weight(weights@),
            total * weight(weights@) <= usize::MAX,
            first == first_shares(total as nat, weights@),
            shares@ == first.take(i as int),
        decreases weights@.len() - i,
    {
        proof {
            lemma_due_one(total as nat, weights@, i as int);
        }
        let part: usize = total * weights[i] / all;
        let share: usize = if part < 1 {
            1
        } else {
            part
        };
        proof {
            assert(first.take(i + 1) =~= first.take(i as int).push(share));
        }
        shares.push(share);
        i += 1;
    }
    proof {
        assert(first.take(i as int) =~= first);
        lemma_first_shares(total as nat, weights@);
    }
    let count: usize = shares.len();
    loop
        invariant
            count == shares@.len(),
            sum(nats(shares@)) <= usize::MAX,
            take_back(shares@, total as nat) == take_back(first, total as nat),
        ensures
            shares@ == take_back(first, total as nat),
        decreases sum(nats(shares@)),
    {
        let now: usize = total_of(&shares);
        if now <= total {
            break;
        }
        let mut best: Option<usize> = None;
        let mut k: usize = 0;
        while k < count
            invariant
                k <= count == shares@.len(),
                best == largest(shares@, k as nat),
                best matches Some(b) ==> b < k,
            decreases count - k,
        {
            if shares[k] > 1 {
                match best {
                    Some(b) if shares[b] > shares[k] => {},
                    _ => {
                        best = Some(k);
                    },
                }
            }
            k += 1;
        }
        proof {
            lemma_largest(shares@, count as nat);
        }
        match best {
            None => {
                break;
            },
            Some(b) => {
                proof {
                    lemma_take_one(shares@, b as int);
                }
                let less: usize = shares[b] - 1;
                shares.set(b, less);
            },
        }
    }
    shares
}

/// Every share is at least one, and together the shares fit in `total` wherever
/// there is one for each part.
pub proof fn chapter_shares_fit(total: nat, weights: Seq<usize>)
    requires
        weights.len() <= total,
        total + weights.len() <= usize::MAX,
    ensures
        take_back(first_shares(total, weights), total).len() == weights.len(),
        sum(nats(take_back(first_shares(total, weights), total))) <= total,
        forall|i: int|
            0 <= i < weights.len() ==> 1 <= #[trigger] take_back(
                first_shares(total, weights),
                total,
            )[i] <= first_shares(total, weights)[i],
{
    assert forall|i: int| 0 <= i < weights.len() implies first_shares(total, weights)[i] >= 1 by {
        lemma_due_one(total, weights, i);
    }
    lemma_take_back(first_shares(total, weights), total);
}

proof fn lemma_take_back(shares: Seq<usize>, total: nat)
    requires
        shares.len() <= total,
        shares.len() <= usize::MAX,
        forall|i: int| 0 <= i < shares.len() ==> shares[i] >= 1,
    ensures
        take_back(shares, total).len() == shares.len(),
        sum(nats(take_back(shares, total))) <= total,
        forall|i: int|
            0 <= i < shares.len() ==> 1 <= #[trigger] take_back(shares, total)[i] <= shares[i],
    decreases sum(nats(shares)),
{
    lemma_largest(shares, shares.len());
    match largest(shares, shares.len()) {
        Some(i) => {
            lemma_take_one(shares, i as int);
            if sum(nats(shares)) > total {
                lemma_take_back(shares.update(i as int, (shares[i as int] - 1) as usize), total);
            }
        },
        None => {
            lemma_all_ones(nats(shares));
        },
    }
}

proof fn lemma_all_ones(s: Seq<nat>)
    requires
        forall|i: int| 0 <= i < s.len() ==> s[i] <= 1,
    ensures
        sum(s) <= s.len(),
    decreases s.len(),
{
    if s.len() > 0 {
        lemma_all_ones(s.drop_last());
    }
}

// ---------------------------------------------------------------------------
// Diagrams
// ---------------------------------------------------------------------------

/// What the parts are due, rounded down.
pub open spec fn floors(total: nat, weights: Seq<usize>) -> Seq<nat> {
    Seq::new(weights.len(), |i: int| due(total, weights, i))
}

/// Hands out `count` one at a time, going round in `order`.
pub open spec fn hand_out(shares: Seq<nat>, order: Seq<usize>, count: nat) -> Seq<nat>
    decreases count,
{
    if count == 0 || order.len() == 0 {
        shares
    } else {
        let before = hand_out(shares, order, (count - 1) as nat);
        let i = order[(count - 1) % order.len() as int] as int;
        before.update(i, before[i] + 1)
    }
}

/// The share of each part: what it is due, and the rest handed out one at a
/// time, the parts of most weight first.
pub open spec fn exact_shares(total: nat, weights: Seq<usize>) -> Seq<nat> {
    hand_out(
        floors(total, weights),
        ordered(weights.len(), descending(weights)),
        (total - sum(floors(total, weights))) as nat,
    )
}

/// The numbers of a list of 32-bit integers.
pub open spec fn nats32(s: Seq<u32>) -> Seq<nat> {
    s.map_values(|n: u32| n as nat)
}

/// Handing out adds what was handed out.
proof fn lemma_hand_out(shares: Seq<nat>, order: Seq<usize>, count: nat)
    requires
        order.len() > 0,
        forall|k: int| 0 <= k < order.len() ==> order[k] < shares.len(),
    ensures
        hand_out(shares, order, count).len() == shares.len(),
        sum(hand_out(shares, order, count)) == sum(shares) + count,
        forall|i: int|
            0 <= i < shares.len() ==> shares[i] <= #[trigger] hand_out(shares, order, count)[i],
    decreases count,
{
    if count > 0 {
        lemma_hand_out(shares, order, (count - 1) as nat);
        let before = hand_out(shares, order, (count - 1) as nat);
        let at = (count - 1) % order.len() as int;
        assert(0 <= at < order.len());
        let i = order[at] as int;
        lemma_sum_update(before, i, before[i] + 1);
    }
}

/// A document's diagrams are divided exactly: together the parts get `total`,
/// and each gets at least what it is due by its weight.
pub proof fn diagram_shares_are_exact(total: nat, weights: Seq<usize>)
    requires
        0 < weights.len() <= usize::MAX,
    ensures
        exact_shares(total, weights).len() == weights.len(),
        sum(exact_shares(total, weights)) == total,
        forall|i: int|
            0 <= i < weights.len() ==> due(total, weights, i) <= #[trigger] exact_shares(
                total,
                weights,
            )[i],
{
    let f = floors(total, weights);
    let order = ordered(weights.len(), descending(weights));
    lemma_ordered(weights.len(), descending(weights));
    lemma_due_total(total, weights, f);
    assert forall|k: int| 0 <= k < order.len() implies order[k] < f.len() by {
        assert(order.contains(order[k]));
    }
    lemma_hand_out(f, order, (total - sum(f)) as nat);
    assert forall|i: int| 0 <= i < weights.len() implies due(total, weights, i)
        <= #[trigger] exact_shares(total, weights)[i] by {
        assert(f[i] <= hand_out(f, order, (total - sum(f)) as nat)[i]);
    }
}

/// Divides a document's diagram limit across parts by their weights, exactly: a
/// part may get none.
pub fn diagram_shares(total: u32, weights: &Vec<usize>) -> (r: Vec<u32>)
    requires
        total * weight(weights@) <= u64::MAX,
        sum(nats(weights@)) <= usize::MAX,
    ensures
        nats32(r@) == exact_shares(total as nat, weights@),
{
    let plain: usize = total_of(weights);
    let all: u64 = if plain == 0 {
        1
    } else {
        plain as u64
    };
    let ghost f = floors(total as nat, weights@);
    let order = order_descending(weights);
    let count: usize = weights.len();
    proof {
        lemma_ordered(count as nat, descending(weights@));
        assert forall|k: int| 0 <= k < order@.len() implies #[trigger] order@[k] < count by {
            assert(order@.contains(order@[k]));
        }
        lemma_due_total(total as nat, weights@, f);
    }
    let mut shares: Vec<u32> = Vec::new();
    let mut given: u32 = 0;
    let mut i: usize = 0;
    while i < count
        invariant
            i <= count == weights@.len(),
            all == weight(weights@),
            total * weight(weights@) <= u64::MAX,
            f == floors(total as nat, weights@),
            sum(f) <= total,
            nats32(shares@) == f.take(i as int),
            given == sum(f.take(i as int)),
        decreases count - i,
    {
        proof {
            lemma_due_one(total as nat, weights@, i as int);
            lemma_sum_take(f, i as int);
        }
        let part: u64 = total as u64 * weights[i] as u64 / all;
        let share: u32 = part as u32;
        proof {
            assert(nats32(shares@.push(share)) =~= nats32(shares@).push(share as nat));
            assert(f.take(i + 1) =~= f.take(i as int).push(f[i as int]));
        }
        shares.push(share);
        given += share;
        i += 1;
    }
    assert(f.take(i as int) =~= f);
    let remaining: u32 = total - given;
    if count == 0 {
        return shares;
    }
    let mut done: u32 = 0;
    let mut next: usize = 0;
    while done < remaining
        invariant
            done <= remaining,
            remaining == total - sum(f),
            count > 0,
            order@.len() == count == shares@.len() == f.len(),
            forall|k: int| 0 <= k < order@.len() ==> #[trigger] order@[k] < count,
            next == done as int % count as int,
            nats32(shares@) == hand_out(f, order@, done as nat),
        decreases remaining - done,
    {
        let at: usize = order[next];
        proof {
            lemma_hand_out(f, order@, done as nat);
            lemma_sum_at_least(nats32(shares@), at as int);
            assert(nats32(shares@)[at as int] == shares@[at as int] as nat);
        }
        let more: u32 = shares[at] + 1;
        proof {
            assert(nats32(shares@.update(at as int, more)) =~= nats32(shares@).update(
                at as int,
                more as nat,
            ));
            lemma_next_turn(done as int, next as int, count as int);
        }
        shares.set(at, more);
        done += 1;
        next = if next + 1 == count {
            0
        } else {
            next + 1
        };
    }
    shares
}

/// The turn after the `done`-th.
proof fn lemma_next_turn(done: int, next: int, count: int)
    requires
        0 <= done,
        0 < count,
        next == done % count,
    ensures
        (done + 1) % count == (if next + 1 == count {
            0
        } else {
            next + 1
        }),
{
    lemma_fundamental_div_mod(done, count);
    vstd::arithmetic::div_mod::lemma_mod_bound(done, count);
    let q = done / count;
    assert(done == q * count + next) by (nonlinear_arith)
        requires
            done == count * q + next,
    ;
    if next + 1 == count {
        assert(done + 1 == (q + 1) * count + 0) by (nonlinear_arith)
            requires
                done == q * count + next,
                next + 1 == count,
        ;
        vstd::arithmetic::div_mod::lemma_fundamental_div_mod_converse(done + 1, count, q + 1, 0);
    } else {
        vstd::arithmetic::div_mod::lemma_fundamental_div_mod_converse(
            done + 1,
            count,
            q,
            next + 1,
        );
    }
}

} // verus!
