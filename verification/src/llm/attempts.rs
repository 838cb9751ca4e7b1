//! One exchange with a provider over all its attempts, and what a run learns
//! from it: how dense its requests are, how wide its margins, what it has
//! reserved, and whether the provider can be asked for JSON.

use vstd::prelude::*;

use super::exchange::{
    after_attempt, judge_completion, learn, next_move, plan_request, request_tokens, reserved, usage_of,
    usage_view, worth, Attempt, Completion, Failure, Next, PlanFault, Reason, Reply, Usage, ATTEMPTS_MAX,
};
use super::request::{ask_for_json, json_mode};
use crate::budget::{
    self, estimate, estimated, passes, safety_margin, usable_context, Budget, UNCALIBRATED_DENSITY,
};
use crate::context::{saturated, Density, Reserved};
use crate::json::{field, lemma_arr, lemma_obj, lookup, member_models, Json, JsonModel, Member, MemberModel};
use crate::model::LlmConfig;
use crate::text::same;

verus! {

/// What a run has learnt from the provider, and what it has reserved.
#[derive(Clone, Copy, Debug, PartialEq, Eq, Structural)]
pub struct Learned {
    pub density: Density,
    /// What margins have widened by, in percent.
    pub extra_margin: u32,
    /// The provider has refused to be asked for JSON.
    pub json_off: bool,
    pub reserved: Reserved,
}

/// An exchange.
pub struct Exchange {
    /// What is sent.
    pub request: Json,
    /// Its size, with what travels around it.
    pub bytes: u64,
    pub budget: Budget,
    /// The tokens that each attempt reserves.
    pub reservation: u64,
    /// The number of the attempt, from 0 on, and of the last one.
    pub attempt: u32,
    pub last: u32,
    /// Tokens are counted by the server.
    pub by_server: bool,
}

/// What came of an attempt.
pub enum Outcome {
    /// A completion, what it cost, and the reserved tokens that it released.
    Finished(Completion, Usage, u64),
    /// Another attempt after some milliseconds.
    Again(u64, Reason),
    /// Another attempt at once, without asking for JSON.
    AgainWithoutJson,
    Failed(Failure),
}

/// The first `count` members, without the ones of a name.
pub open spec fn without(members: Seq<MemberModel>, name: Seq<char>, count: nat) -> Seq<MemberModel>
    decreases count,
{
    if count == 0 {
        Seq::empty()
    } else {
        let so_far = without(members, name, (count - 1) as nat);
        if members[count - 1].name == name {
            so_far
        } else {
            so_far.push(members[count - 1])
        }
    }
}

/// A request that does not ask for JSON.
pub open spec fn plain_mode(request: JsonModel) -> JsonModel {
    match request {
        JsonModel::Obj(members) => JsonModel::Obj(
            without(members, "response_format"@, members.len()),
        ),
        other => other,
    }
}

/// A request asks for JSON.
pub open spec fn asks_json(request: JsonModel) -> bool {
    request.get("response_format"@) is Some
}

proof fn lemma_without(members: Seq<MemberModel>, name: Seq<char>, count: nat)
    requires
        count <= members.len(),
    ensures
        forall|k: int|
            0 <= k < without(members, name, count).len() ==> (#[trigger] without(
                members,
                name,
                count,
            )[k]).name != name,
    decreases count,
{
    if count > 0 {
        lemma_without(members, name, (count - 1) as nat);
    }
}

proof fn lemma_not_found(members: Seq<MemberModel>, name: Seq<char>)
    requires
        forall|k: int| 0 <= k < members.len() ==> (#[trigger] members[k]).name != name,
    ensures
        lookup(members, name) is None,
    decreases members.len(),
{
    if members.len() > 0 {
        assert forall|k: int| 0 <= k < members.skip(1).len() implies (
        #[trigger] members.skip(1)[k]).name != name by {
            assert(members.skip(1)[k] == members[k + 1]);
        }
        lemma_not_found(members.skip(1), name);
    }
}

/// Once JSON is given up, a request no longer asks for it.
pub proof fn plain_requests_ask_for_no_json(request: JsonModel)
    ensures
        !asks_json(plain_mode(request)),
{
    if let JsonModel::Obj(members) = request {
        lemma_without(members, "response_format"@, members.len());
        lemma_not_found(
            without(members, "response_format"@, members.len()),
            "response_format"@,
        );
    }
}

/// A request that does not ask for JSON.
fn without_json(request: &Json) -> (r: Json)
    ensures
        r@ == plain_mode(request@),
{
    match request {
        Json::Obj(members) => {
            proof {
                lemma_obj(*members);
            }
            let ghost ms = member_models(members@);
            let mut kept: Vec<Member> = Vec::new();
            let mut i: usize = 0;
            assert(member_models(kept@) =~= Seq::empty());
            while i < members.len()
                invariant
                    i <= members@.len(),
                    ms == member_models(members@),
                    member_models(kept@) == without(ms, "response_format"@, i as nat),
                decreases members@.len() - i,
            {
                assert(ms[i as int] == field(members@[i as int].name@, members@[i as int].value@));
                if !same(members[i].name.as_str(), "response_format") {
                    let m = Member { name: members[i].name.clone(), value: members[i].value.copy() };
                    assert(member_models(kept@.push(m)) =~= member_models(kept@).push(ms[i as int]));
                    kept.push(m);
                }
                i += 1;
            }
            Json::object(kept)
        },
        Json::Arr(items) => {
            proof {
                lemma_arr(*items);
            }
            request.copy()
        },
        _ => request.copy(),
    }
}

/// What a run has reserved once a completion has come: where the provider
/// reported both counts, what was used replaces what was reserved.
pub open spec fn settled_reserve(r: Reserved, reservation: u64, usage: Usage) -> Reserved {
    if usage.input_reported && usage.output_reported {
        Reserved {
            tokens: saturated(
                if r.tokens < reservation {
                    0
                } else {
                    (r.tokens - reservation) as nat
                },
                saturated(usage.input as nat, usage.output as nat) as nat,
            ),
            cost: r.cost,
        }
    } else {
        r
    }
}

/// The reserved tokens that a completion releases.
pub open spec fn released_by(reservation: u64, usage: Usage) -> u64 {
    let used = saturated(usage.input as nat, usage.output as nat);
    if usage.input_reported && usage.output_reported && used < reservation {
        (reservation - used) as u64
    } else {
        0
    }
}

/// The margin of later requests, widened, in 32 bits.
pub open spec fn widened(margin: u32, by: u32) -> u32 {
    if margin + by > u32::MAX {
        (margin + by - u32::MAX - 1) as u32
    } else {
        (margin + by) as u32
    }
}

impl Exchange {
    /// What the attempt is, for the decision about its reply.
    pub open spec fn now(self, retry_after: u64, jitter: u8) -> Attempt {
        Attempt {
            number: self.attempt,
            last: self.last,
            retry_after,
            jitter,
            asked_json: asks_json(self.request@),
        }
    }

    /// The attempts are within what waits are computed for.
    pub open spec fn wf(self) -> bool {
        self.attempt <= self.last <= ATTEMPTS_MAX
    }

    /// What the run learns from a completion.
    pub open spec fn learnt(self, l: Learned, usage: Usage) -> Learned {
        let learns = !self.by_server && usage.input_reported;
        let sample = learns && !l.density.distrusted() && budget::sampled(
            self.bytes,
            usage.input,
        ) is Some;
        Learned {
            density: if learns {
                l.density.recorded(self.bytes, usage.input)
            } else {
                l.density
            },
            extra_margin: if usage.input > self.budget.input && !(l.density.value()
                > UNCALIBRATED_DENSITY && sample) {
                widened(l.extra_margin, 5)
            } else {
                l.extra_margin
            },
            json_off: l.json_off,
            reserved: settled_reserve(l.reserved, self.reservation, usage),
        }
    }

    /// Opens an exchange: asks for JSON where that is wanted and the provider
    /// has not refused it, and checks that the request may be sent. `counted` is
    /// what the server counted, where it counts.
    pub fn open(
        c: &LlmConfig,
        request: Json,
        wants_json: bool,
        learned: &Learned,
        counted: Option<u64>,
    ) -> (r: Result<Exchange, PlanFault>)
        requires
            request@ is Obj,
            c.retries <= ATTEMPTS_MAX,
        ensures
            ({
                let sent = if wants_json && !learned.json_off {
                    json_mode(request@)
                } else {
                    request@
                };
                let input = request_tokens(sent, learned.density.value(), counted);
                let total = reserved(input, c.max_output_tokens);
                match r {
                    Ok(e) => {
                        &&& passes(*c, input, learned.extra_margin)
                        &&& total <= c.tpm
                        &&& e.wf()
                        &&& e.request@ == sent
                        &&& e.bytes == estimated(sent)
                        &&& e.budget.input == input
                        &&& e.budget.output == c.max_output_tokens
                        &&& e.budget.margin == safety_margin(*c, learned.extra_margin)
                        &&& e.budget.context == usable_context(*c)
                        &&& e.budget.method@ == c.token_mode@
                        &&& e.reservation == total
                        &&& e.attempt == 0
                        &&& e.last == c.retries
                        &&& e.by_server == (c.token_mode@ == "server"@)
                    },
                    Err(PlanFault::Context(_)) => !passes(*c, input, learned.extra_margin),
                    Err(PlanFault::Rate) => passes(*c, input, learned.extra_margin) && total
                        > c.tpm,
                }
            }),
    {
        let request = if wants_json && !learned.json_off {
            ask_for_json(request)
        } else {
            request
        };
        let bytes = estimate(&request);
        match plan_request(c, &request, learned.density.density(), learned.extra_margin, counted) {
            Err(f) => Err(f),
            Ok((budget, reservation)) => Ok(
                Exchange {
                    request,
                    bytes,
                    budget,
                    reservation,
                    attempt: 0,
                    last: c.retries,
                    by_server: same(c.token_mode.as_str(), "server"),
                },
            ),
        }
    }

    /// Takes the reply to an attempt: what comes of it, and what the run learns.
    /// `retry_after` is what the server asks to wait in seconds, `jitter` some
    /// milliseconds of chance.
    pub fn replied(
        &mut self,
        learned: &mut Learned,
        reply: &Reply,
        retry_after: u64,
        jitter: u8,
    ) -> (r: Outcome)
        requires
            old(self).wf(),
            retry_after <= 60,
        ensures
            final(self).wf(),
            final(self).last == old(self).last,
            match next_move(old(self).now(retry_after, jitter), *reply) {
                Next::Settle => {
                    let body = (*reply)->Body_1@;
                    let usage = usage_view(body, old(self).budget.input, old(self).budget.output);
                    &&& r matches Outcome::Finished(completion, cost, released)
                    &&& cost == usage
                    &&& worth(body, usage, old(self).budget.output, completion)
                    &&& released == released_by(old(self).reservation, usage)
                    &&& *final(learned) == old(self).learnt(*old(learned), usage)
                    &&& *final(self) == *old(self)
                },
                Next::Again(wait, reason) => {
                    &&& r == Outcome::Again(wait, reason)
                    &&& *final(learned) == *old(learned)
                    &&& *final(self) == (Exchange {
                        attempt: (old(self).attempt + 1) as u32,
                        ..*old(self)
                    })
                },
                Next::AgainWithoutJson => {
                    &&& r == Outcome::AgainWithoutJson
                    &&& *final(learned) == (Learned { json_off: true, ..*old(learned) })
                    &&& final(self).request@ == plain_mode(old(self).request@)
                    &&& !asks_json(final(self).request@)
                    &&& *final(self) == (Exchange {
                        attempt: (old(self).attempt + 1) as u32,
                        request: final(self).request,
                        ..*old(self)
                    })
                },
                Next::Fail(failure) => {
                    &&& r == Outcome::Failed(failure)
                    &&& *final(self) == *old(self)
                    &&& *final(learned) == (if failure is TooLarge {
                        Learned {
                            density: Density { samples: u32::MAX, ..old(learned).density },
                            extra_margin: widened(old(learned).extra_margin, 10),
                            ..*old(learned)
                        }
                    } else if failure is JsonModeRejected {
                        Learned { json_off: true, ..*old(learned) }
                    } else {
                        *old(learned)
                    })
                },
            },
    {
        let a = Attempt {
            number: self.attempt,
            last: self.last,
            retry_after,
            jitter,
            asked_json: self.request.get("response_format").is_some(),
        };
        let next = after_attempt(&a, reply);
        match next {
            Next::Again(wait, reason) => {
                proof {
                    if self.attempt == self.last {
                        super::exchange::last_attempts_are_final(a, *reply);
                    }
                }
                self.attempt = self.attempt + 1;
                Outcome::Again(wait, reason)
            },
            Next::AgainWithoutJson => {
                proof {
                    if self.attempt == self.last {
                        super::exchange::last_attempts_are_final(a, *reply);
                    }
                    plain_requests_ask_for_no_json(self.request@);
                }
                self.attempt = self.attempt + 1;
                self.request = without_json(&self.request);
                learned.json_off = true;
                Outcome::AgainWithoutJson
            },
            Next::Fail(failure) => {
                match failure {
                    Failure::TooLarge => {
                        learned.extra_margin = learned.extra_margin.wrapping_add(10);
                        learned.density.distrust_density();
                    },
                    Failure::JsonModeRejected(_) => {
                        learned.json_off = true;
                    },
                    _ => {},
                }
                Outcome::Failed(failure)
            },
            Next::Settle => {
                match reply {
                    Reply::Body(_, body) => {
                        let usage = usage_of(body, self.budget.input, self.budget.output);
                        let released: u64 = if usage.input_reported && usage.output_reported {
                            learned.reserved.reconcile_tokens(
                                self.reservation,
                                usage.input.saturating_add(usage.output),
                            )
                        } else {
                            0
                        };
                        if learn(
                            &mut learned.density,
                            &usage,
                            self.bytes,
                            self.budget.input,
                            self.by_server,
                        ) {
                            learned.extra_margin = learned.extra_margin.wrapping_add(5);
                        }
                        let completion = judge_completion(body, &usage, self.budget.output);
                        Outcome::Finished(completion, usage, released)
                    },
                    _ => Outcome::Failed(Failure::NotJson),
                }
            },
        }
    }
}

} // verus!
