//! What an exchange with a provider keeps to: its rate, its patience, and the
//! tokens that it owes back.

use vstd::arithmetic::power2::pow2;
use vstd::prelude::*;

use super::lists::upto;
use crate::json::Json;
use crate::llm::exchange::{
    age, context_exceeded, error_code, error_message, next_move, quota_exhausted, still_counting, tokens_of,
    Attempt, Failure, Next, Reply, Sent,
};
use crate::order::{lemma_filter_none, lemma_filter_step, sum};
use crate::resume::{confirmed, released, reserved_by, TokenEventModel};

verus! {

/// A request was sent less than a minute ago.
pub open spec fn is_recent(now: u64) -> spec_fn(Sent) -> bool {
    |s: Sent| now < s.at + 60_000
}

/// The tokens of a request.
pub open spec fn its_tokens() -> spec_fn(Sent) -> nat {
    |s: Sent| s.tokens as nat
}

/// Requests are in the order in which they were sent.
pub open spec fn in_time(window: Seq<Sent>) -> bool {
    forall|i: int, j: int| 0 <= i < j < window.len() ==> (#[trigger] window[i]).at <= (
    #[trigger] window[j]).at
}

proof fn lemma_all_recent(window: Seq<Sent>, now: u64)
    requires
        forall|i: int| 0 <= i < window.len() ==> is_recent(now)(#[trigger] window[i]),
    ensures
        window.filter(is_recent(now)) == window,
    decreases window.len(),
{
    reveal(Seq::filter);
    if window.len() > 0 {
        let t = window.drop_last();
        assert forall|i: int| 0 <= i < t.len() implies is_recent(now)(#[trigger] t[i]) by {
            assert(t[i] == window[i]);
        }
        lemma_all_recent(t, now);
        assert(is_recent(now)(window[window.len() - 1]));
        assert(window =~= t.push(window.last()));
    }
}

/// The requests that count are those of the last minute, all of them.
pub proof fn the_last_minute_counts(window: Seq<Sent>, now: u64)
    requires
        in_time(window),
    ensures
        still_counting(window, now) == window.filter(is_recent(now)),
        tokens_of(window) == sum(window.map_values(its_tokens())),
    decreases window.len(),
{
    lemma_tokens(window);
    if window.len() > 0 && age(now, window[0].at) >= 60_000 {
        let rest = window.skip(1);
        assert(in_time(rest)) by {
            assert forall|i: int, j: int| 0 <= i < j < rest.len() implies (#[trigger] rest[i]).at
                <= (#[trigger] rest[j]).at by {
                assert(window[i + 1].at <= window[j + 1].at);
            }
        }
        the_last_minute_counts(rest, now);
        let first = seq![window[0]];
        assert(window =~= first + rest);
        Seq::filter_distributes_over_add(first, rest, is_recent(now));
        lemma_filter_none(first, is_recent(now));
        lemma_filter_step(first, is_recent(now), 0);
        assert(first.take(1) =~= first);
        assert(Seq::<Sent>::empty() + rest.filter(is_recent(now)) =~= rest.filter(is_recent(now)));
    } else {
        assert forall|i: int| 0 <= i < window.len() implies is_recent(now)(#[trigger] window[i]) by {
            if i > 0 {
                assert(window[0].at <= window[i].at);
            }
        }
        lemma_all_recent(window, now);
    }
}

proof fn lemma_tokens(window: Seq<Sent>)
    ensures
        tokens_of(window) == sum(window.map_values(its_tokens())),
    decreases window.len(),
{
    if window.len() > 0 {
        lemma_tokens(window.drop_last());
        let all = window.map_values(its_tokens());
        assert(all.drop_last() =~= window.drop_last().map_values(its_tokens()));
        assert(all.last() == window.last().tokens);
    }
}

/// A reply settles an exchange just where its status is a success and it carries
/// no error.
pub proof fn successes_settle(a: Attempt, reply: Reply)
    ensures
        next_move(a, reply) is Settle <==> (reply matches Reply::Body(status, body) && 200
            <= status <= 299 && body@.get("error"@) is None),
{
}

/// What may pass is tried again while attempts are left: a connection that
/// failed, a body that was lost, too many requests, and a failure of the server
/// that is neither a used up quota nor a request that is too large. Each attempt
/// waits twice as long as the one before, and never less than the server asks.
pub proof fn what_may_pass_is_tried_again(a: Attempt, reply: Reply)
    requires
        a.number < a.last,
        a.number <= 40,
        a.retry_after <= 60,
        match reply {
            Reply::Unreachable => true,
            Reply::BodyLost => true,
            Reply::NotJson(status) => status == 429 || 500 <= status <= 599,
            Reply::Body(status, body) => (status == 429 || 500 <= status <= 599)
                && !quota_exhausted(error_code(body@), error_message(body@)) && !context_exceeded(
                error_code(body@),
                error_message(body@),
            ),
        },
    ensures
        next_move(a, reply) matches Next::Again(wait, _) && wait >= 1000 * pow2(a.number as nat) && (
        (reply is Body || reply is NotJson) ==> wait >= 1000 * a.retry_after) && wait <= 1000
            * pow2(a.number as nat) + 60_255,
{
    vstd::arithmetic::power2::lemma2_to64_rest();
    vstd::arithmetic::power2::lemma2_to64();
    if a.number < 40 {
        vstd::arithmetic::power2::lemma_pow2_strictly_increases(a.number as nat, 40);
    }
    vstd::arithmetic::power2::lemma_pow2_pos(a.number as nat);
}

/// What cannot pass is not tried again: a refusal of the request, a used up
/// quota, and a request that is too large; but a refused request that asked for
/// JSON is sent once more without asking.
pub proof fn what_cannot_pass_is_given_up(a: Attempt, status: u16, body: Json)
    requires
        !(200 <= status <= 299),
    ensures
        quota_exhausted(error_code(body@), error_message(body@)) ==> next_move(
            a,
            Reply::Body(status, body),
        ) == Next::Fail(Failure::QuotaOfAccount),
        !quota_exhausted(error_code(body@), error_message(body@)) && context_exceeded(
            error_code(body@),
            error_message(body@),
        ) ==> next_move(a, Reply::Body(status, body)) == Next::Fail(Failure::TooLarge),
        !quota_exhausted(error_code(body@), error_message(body@)) && !context_exceeded(
            error_code(body@),
            error_message(body@),
        ) && status != 429 && !(500 <= status <= 599) ==> next_move(a, Reply::Body(status, body))
            == (if !a.asked_json {
            Next::Fail(Failure::Rejected(status))
        } else if a.number == a.last {
            Next::Fail(Failure::JsonModeRejected(status))
        } else {
            Next::AgainWithoutJson
        }),
{
}

// ---------------------------------------------------------------------------
// Tokens that are given back
// ---------------------------------------------------------------------------

/// What a response gives back of the request right before it: the tokens that
/// were reserved and that it confirms were not used.
pub open spec fn gives_back(events: Seq<TokenEventModel>) -> spec_fn(int) -> nat {
    |i: int|
        if events[i].request || i == 0 || !events[i - 1].request {
            0
        } else {
            match confirmed(events[i].data) {
                Some(used) => if used <= reserved_by(events[i - 1].data) {
                    (reserved_by(events[i - 1].data) - used) as nat
                } else {
                    0
                },
                None => 0,
            }
        }
}

proof fn lemma_released(events: Seq<TokenEventModel>, count: nat)
    requires
        count <= events.len(),
        sum(upto(count).map_values(gives_back(events))) <= u64::MAX,
    ensures
        released(events, count).1 == sum(upto(count).map_values(gives_back(events))),
        released(events, count).0 == (if count > 0 && events[count - 1].request {
            reserved_by(events[count - 1].data)
        } else {
            0
        }),
    decreases count,
{
    let f = gives_back(events);
    let now = upto(count).map_values(f);
    if count > 0 {
        let n = (count - 1) as nat;
        assert(now.drop_last() =~= upto(n).map_values(f));
        assert(now.last() == f(n as int));
        lemma_released(events, n);
    }
}

/// What is given back is, for every response that confirms its usage, what the
/// request right before it had reserved and did not use; and nothing else.
pub proof fn unused_reservations_are_given_back(events: Seq<TokenEventModel>)
    requires
        sum(upto(events.len()).map_values(gives_back(events))) <= u64::MAX,
    ensures
        released(events, events.len()).1 == sum(upto(events.len()).map_values(gives_back(events))),
{
    lemma_released(events, events.len());
}

} // verus!
