//! How an exchange with a provider goes: what may be sent and when, what a reply
//! means, and when to ask again.

use vstd::arithmetic::power2::{lemma_pow2_pos, lemma_pow2_unfold, pow2};
use vstd::prelude::*;
use vstd::string::StringExecFns;
use vstd::utf8::{decode_utf8, valid_utf8};

use super::request::{message, message_view, payload, payload_view};
use crate::budget::{
    self, estimate, estimate_at, estimated, estimated_at, passes, safety_margin, usable_context, Budget, BudgetFault,
    UNCALIBRATED_DENSITY,
};
use crate::context::Density;
use crate::json::{
    json_value, lemma_arr, lemma_obj, models, parse_natural, read_json, text_of, FaultModel, Json, JsonModel,
};
use crate::model::LlmConfig;
use crate::text::{
    blen, contains, decimal, has, is_blank, lowercase, number, same, slice, to_chars, to_lowercase, trim,
    utf8_text,
};

verus! {

// ---------------------------------------------------------------------------
// Reading a reply
// ---------------------------------------------------------------------------

/// What stands under a name, or at the first position of a list.
pub open spec fn step_model(m: Option<JsonModel>, name: Seq<char>) -> Option<JsonModel> {
    match m {
        Some(JsonModel::Obj(members)) => JsonModel::Obj(members).get(name),
        Some(JsonModel::Arr(items)) => if name == "0"@ && items.len() > 0 {
            Some(items[0])
        } else {
            None
        },
        _ => None,
    }
}

/// A text, where there is one.
pub open spec fn string_of(m: Option<JsonModel>) -> Option<Seq<char>> {
    match m {
        Some(JsonModel::Str(s)) => Some(s),
        _ => None,
    }
}

/// A natural number, where there is one.
pub open spec fn natural_of(m: Option<JsonModel>) -> Option<u64> {
    match m {
        Some(v) => v.natural(),
        None => None,
    }
}

/// A text, or nothing written.
pub open spec fn string_or_empty(m: Option<JsonModel>) -> Seq<char> {
    match string_of(m) {
        Some(s) => s,
        None => Seq::empty(),
    }
}

/// What stands under a name, or at the first position of a list.
pub fn step<'a>(value: Option<&'a Json>, name: &str) -> (r: Option<&'a Json>)
    ensures
        match step_model(
            match value {
                Some(v) => Some(v@),
                None => None,
            },
            name@,
        ) {
            Some(m) => r is Some && r->0@ == m,
            None => r is None,
        },
{
    match value {
        Some(v) => match v {
            Json::Obj(members) => {
                proof {
                    lemma_obj(*members);
                }
                v.get(name)
            },
            Json::Arr(items) => {
                proof {
                    lemma_arr(*items);
                    assert(models(items@).len() == items@.len());
                }
                if same(name, "0") && items.len() > 0 {
                    assert(models(items@)[0] == items@[0]@);
                    Some(&items[0])
                } else {
                    None
                }
            },
            _ => None,
        },
        None => None,
    }
}

/// A text, where there is one.
pub fn as_string(value: Option<&Json>) -> (r: Option<String>)
    ensures
        match string_of(
            match value {
                Some(v) => Some(v@),
                None => None,
            },
        ) {
            Some(s) => r is Some && r->0@ == s,
            None => r is None,
        },
{
    match value {
        Some(v) => match v {
            Json::Str(s) => Some(s.clone()),
            Json::Arr(items) => {
                proof {
                    lemma_arr(*items);
                }
                None
            },
            Json::Obj(members) => {
                proof {
                    lemma_obj(*members);
                }
                None
            },
            _ => None,
        },
        None => None,
    }
}

/// A text, or nothing written.
pub fn or_empty(value: Option<String>) -> (r: String)
    ensures
        r@ == (match value {
            Some(s) => s@,
            None => Seq::<char>::empty(),
        }),
{
    match value {
        Some(s) => s,
        None => String::new(),
    }
}

/// A natural number, where there is one.
pub fn as_natural(value: Option<&Json>) -> (r: Option<u64>)
    ensures
        r == natural_of(
            match value {
                Some(v) => Some(v@),
                None => None,
            },
        ),
{
    match value {
        Some(v) => v.natural(),
        None => None,
    }
}

/// The code of an error in a reply.
pub open spec fn error_code(body: JsonModel) -> Seq<char> {
    string_or_empty(step_model(step_model(Some(body), "error"@), "code"@))
}

/// The message of an error in a reply, in lower case.
pub open spec fn error_message(body: JsonModel) -> Seq<char> {
    lowercase(string_or_empty(step_model(step_model(Some(body), "error"@), "message"@)))
}

/// The first completion of a reply.
pub open spec fn choice(body: JsonModel) -> Option<JsonModel> {
    step_model(step_model(Some(body), "choices"@), "0"@)
}

/// The text of the first completion of a reply.
pub open spec fn content_of(body: JsonModel) -> Option<Seq<char>> {
    string_of(step_model(step_model(choice(body), "message"@), "content"@))
}

// ---------------------------------------------------------------------------
// Judgements
// ---------------------------------------------------------------------------

/// A status says that a request succeeded.
pub open spec fn success(status: u16) -> bool {
    200 <= status < 300
}

/// A status that another attempt may change: too many requests, or a failure of
/// the server.
pub open spec fn retryable(status: u16) -> bool {
    status == 429 || 500 <= status < 600
}

/// Whether another attempt may change a status.
pub fn retryable_status(status: u16) -> (r: bool)
    ensures
        r == retryable(status),
{
    status == 429 || (500 <= status && status < 600)
}

/// A product, as far as 64 bits hold it.
fn capped_times(n: u64, k: u64) -> (r: u64)
    requires
        k <= 100,
    ensures
        r == budget::capped((n * k) as nat),
{
    proof {
        assert(n as u128 * k as u128 <= 0xffff_ffff_ffff_ffff * 100) by (nonlinear_arith)
            requires
                n <= 0xffff_ffff_ffff_ffff,
                k <= 100,
        ;
    }
    let product: u128 = n as u128 * k as u128;
    if product > u64::MAX as u128 {
        u64::MAX
    } else {
        product as u64
    }
}

/// A finished response lost most of its visible text: far less than a byte for
/// each token that was billed as visible. It is judged only where reasoning is
/// reported apart.
pub open spec fn lost_text(visible_bytes: nat, output_tokens: u64, reasoning: Option<u64>) -> bool {
    match reasoning {
        Some(r) => {
            let visible = if output_tokens < r {
                0
            } else {
                output_tokens - r
            };
            visible >= 1000 && budget::capped(visible_bytes * 10) < budget::capped(
                (visible * 12) as nat,
            )
        },
        None => false,
    }
}

/// Whether a finished response lost most of its visible text on the way.
pub fn content_dropped(visible_bytes: usize, output_tokens: u64, reasoning: Option<u64>) -> (r: bool)
    ensures
        r == lost_text(visible_bytes as nat, output_tokens, reasoning),
{
    match reasoning {
        Some(hidden) => {
            let visible: u64 = output_tokens.saturating_sub(hidden);
            visible >= 1_000 && capped_times(visible_bytes as u64, 10) < capped_times(visible, 12)
        },
        None => false,
    }
}

/// Reasoning took three quarters of an output or more.
pub open spec fn mostly_reasoning(output: u64, reasoning: Option<u64>) -> bool {
    match reasoning {
        Some(r) => output > 0 && budget::capped((r * 100) as nat) / output as nat >= 75,
        None => false,
    }
}

/// Whether reasoning took most of an output.
pub fn reasoning_dominated(output: u64, reasoning: Option<u64>) -> (r: bool)
    ensures
        r == mostly_reasoning(output, reasoning),
{
    match reasoning {
        Some(r) => output > 0 && capped_times(r, 100) / output >= 75,
        None => false,
    }
}

/// An error says that a quota or credits are used up, and not only that requests
/// come too fast.
pub open spec fn quota_exhausted(code: Seq<char>, message: Seq<char>) -> bool {
    code == "insufficient_quota"@ || contains(message, "free-models-per-day"@) || contains(
        message,
        "daily quota"@,
    ) || contains(message, "insufficient credits"@)
}

/// Whether an error says that a quota or credits are used up.
pub fn provider_quota_exhausted(code: &str, message: &str) -> (r: bool)
    ensures
        r == quota_exhausted(code@, message@),
{
    same(code, "insufficient_quota") || has(message, "free-models-per-day") || has(
        message,
        "daily quota",
    ) || has(message, "insufficient credits")
}

/// An error says that a request is too large for the context.
pub open spec fn context_exceeded(code: Seq<char>, message: Seq<char>) -> bool {
    contains(code, "context"@) || contains(message, "context length"@) || contains(
        message,
        "maximum context"@,
    )
}

// ---------------------------------------------------------------------------
// Sending
// ---------------------------------------------------------------------------

/// Why a request is not sent.
#[derive(Clone, Copy, Debug, PartialEq, Eq, Structural)]
pub enum PlanFault {
    /// It does not fit in the context.
    Context(BudgetFault),
    /// It exceeds the tokens of a minute.
    Rate,
}

/// What a request costs, as the server counted it or by estimate.
pub open spec fn request_tokens(request: JsonModel, density: u32, counted: Option<u64>) -> u64 {
    match counted {
        Some(n) => n,
        None => estimated_at(request, density) as u64,
    }
}

/// The tokens that a request reserves.
pub open spec fn reserved(input: u64, output: u32) -> nat {
    budget::capped((input + output) as nat)
}

/// Whether a request may be sent, what it takes, and what it reserves.
pub fn plan_request(
    c: &LlmConfig,
    request: &Json,
    density: u32,
    extra_margin: u32,
    counted: Option<u64>,
) -> (r: Result<(Budget, u64), PlanFault>)
    ensures
        ({
            let input = request_tokens(request@, density, counted);
            let total = reserved(input, c.max_output_tokens);
            match r {
                Ok((b, reservation)) => {
                    &&& passes(*c, input, extra_margin)
                    &&& total <= c.tpm
                    &&& b.input == input
                    &&& b.output == c.max_output_tokens
                    &&& b.margin == safety_margin(*c, extra_margin)
                    &&& b.context == usable_context(*c)
                    &&& b.method@ == c.token_mode@
                    &&& reservation == total
                },
                Err(PlanFault::Context(_)) => !passes(*c, input, extra_margin),
                Err(PlanFault::Rate) => passes(*c, input, extra_margin) && total > c.tpm,
            }
        }),
{
    let input: u64 = match counted {
        Some(n) => n,
        None => estimate_at(request, density),
    };
    let b = match budget::check(c, input, extra_margin) {
        Ok(b) => b,
        Err(f) => {
            return Err(PlanFault::Context(f));
        },
    };
    let reservation: u64 = b.input.saturating_add(b.output);
    if reservation > c.tpm as u64 {
        return Err(PlanFault::Rate);
    }
    Ok((b, reservation))
}

/// A request that was sent: when, in milliseconds, and for how many tokens.
#[derive(Clone, Copy, Debug, PartialEq, Eq, Structural)]
pub struct Sent {
    pub at: u64,
    pub tokens: u64,
}

/// How long a request counts, in milliseconds.
pub const RATE_WINDOW_MS: u64 = 60_000;

/// How long ago something was, at least nothing.
pub open spec fn age(now: u64, at: u64) -> u64 {
    if now < at {
        0
    } else {
        (now - at) as u64
    }
}

/// The requests that still count: the oldest ones leave first.
pub open spec fn still_counting(window: Seq<Sent>, now: u64) -> Seq<Sent>
    decreases window.len(),
{
    if window.len() > 0 && age(now, window[0].at) >= RATE_WINDOW_MS {
        still_counting(window.skip(1), now)
    } else {
        window
    }
}

/// The tokens of some requests.
pub open spec fn tokens_of(window: Seq<Sent>) -> nat
    decreases window.len(),
{
    if window.len() == 0 {
        0
    } else {
        tokens_of(window.drop_last()) + window.last().tokens as nat
    }
}

/// Whether a request may be sent now: `None` where it may, and it then counts;
/// otherwise how many milliseconds to wait.
pub fn enter_window(window: &mut Vec<Sent>, now: u64, tokens: u64, rpm: u32, tpm: u32) -> (r: Option<u64>)
    ensures
        ({
            let counting = still_counting(old(window)@, now);
            let free = counting.len() < rpm && tokens_of(counting) + tokens <= tpm;
            &&& free ==> r is None && final(window)@ == counting.push(Sent { at: now, tokens })
            &&& !free ==> final(window)@ == counting && r == Some(
                if counting.len() > 0 {
                    (RATE_WINDOW_MS - age(now, counting[0].at)) as u64
                } else {
                    1000u64
                },
            )
        }),
        r is None ==> final(window)@.len() <= rpm && tokens_of(final(window)@) <= tpm,
{
    let ghost start = window@;
    let mut gone: usize = 0;
    assert(start.skip(0) =~= start);
    while gone < window.len() && now.saturating_sub(window[gone].at) >= RATE_WINDOW_MS
        invariant
            gone <= window@.len(),
            window@ == start,
            still_counting(start.skip(gone as int), now) == still_counting(start, now),
        decreases window@.len() - gone,
    {
        assert(start.skip(gone as int).skip(1) =~= start.skip(gone + 1));
        gone += 1;
    }
    let mut kept: Vec<Sent> = Vec::new();
    let mut total: u64 = 0;
    let mut i: usize = gone;
    assert(start.subrange(gone as int, gone as int) =~= Seq::empty());
    while i < window.len()
        invariant
            gone <= i <= window@.len(),
            window@ == start,
            kept@ == start.subrange(gone as int, i as int),
            total == budget::capped(tokens_of(kept@)),
        decreases window@.len() - i,
    {
        let s = window[i];
        assert(start.subrange(gone as int, i + 1) =~= kept@.push(s));
        assert(kept@.push(s).drop_last() =~= kept@);
        kept.push(s);
        total = total.saturating_add(s.tokens);
        i += 1;
    }
    let ghost counting = still_counting(start, now);
    assert(kept@ =~= start.skip(gone as int));
    assert(kept@ == counting);
    if kept.len() < rpm as usize && total.saturating_add(tokens) <= tpm as u64 {
        let s = Sent { at: now, tokens };
        assert(kept@.push(s).drop_last() =~= kept@);
        kept.push(s);
        *window = kept;
        None
    } else {
        let wait: u64 = if kept.len() > 0 {
            RATE_WINDOW_MS - now.saturating_sub(kept[0].at)
        } else {
            1000
        };
        *window = kept;
        Some(wait)
    }
}

/// The most bytes of a reply.
pub const RESPONSE_LIMIT: usize = 4 * 1024 * 1024;

/// Whether a reply of which some bytes have come may go on with some more.
pub fn within_response_limit(have: usize, more: usize) -> (r: bool)
    ensures
        r == (have + more <= RESPONSE_LIMIT),
{
    have.saturating_add(more) <= RESPONSE_LIMIT
}

/// The value that the bytes of a reply write, where they are a text that is
/// JSON.
pub fn reply_body(bytes: Vec<u8>) -> (r: Option<Json>)
    ensures
        match r {
            Some(v) => valid_utf8(bytes@) && json_value(decode_utf8(bytes@)) == Ok::<
                JsonModel,
                FaultModel,
            >(v@),
            None => !valid_utf8(bytes@) || json_value(decode_utf8(bytes@)) is Err,
        },
{
    match utf8_text(bytes) {
        Some(text) => read_json(text.as_str()),
        None => None,
    }
}

/// Why there is no count of tokens.
#[derive(Clone, Copy, Debug, PartialEq, Eq, Structural)]
pub enum CountFault {
    /// The counting service failed.
    Failed,
    /// Its reply holds no count.
    NoCount,
}

/// The tokens that a counting service reports.
pub fn counted_tokens(status: u16, body: &Json) -> (r: Result<u64, CountFault>)
    ensures
        match natural_of(body@.get("input_tokens"@)) {
            Some(n) => r == (if success(status) {
                Ok::<u64, CountFault>(n)
            } else {
                Err(CountFault::Failed)
            }),
            None => r == Err::<u64, CountFault>(
                if success(status) {
                    CountFault::NoCount
                } else {
                    CountFault::Failed
                },
            ),
        },
{
    if !(200 <= status && status < 300) {
        return Err(CountFault::Failed);
    }
    match as_natural(body.get("input_tokens")) {
        Some(n) => Ok(n),
        None => Err(CountFault::NoCount),
    }
}

// ---------------------------------------------------------------------------
// Asking again
// ---------------------------------------------------------------------------

/// What came of an attempt.
pub enum Reply {
    /// Nothing: the connection failed or took too long.
    Unreachable,
    /// A status, and then the connection failed or took too long.
    BodyLost,
    /// A status and something that is no JSON.
    NotJson(u16),
    /// A status and a reply.
    Body(u16, Json),
}

/// Why there is another attempt.
#[derive(Clone, Copy, Debug, PartialEq, Eq, Structural)]
pub enum Reason {
    Connection,
    BodyConnection,
    InvalidErrorResponse,
    ProviderError,
    Status,
}

/// Why an exchange failed.
#[derive(Clone, Copy, Debug, PartialEq, Eq, Structural)]
pub enum Failure {
    Unreachable,
    BodyLost,
    InvalidErrorResponse(u16),
    ProviderError,
    Status(u16),
    Rejected(u16),
    /// Rejected while asking for JSON, which is off from now on.
    JsonModeRejected(u16),
    NotJson,
    Quota,
    QuotaOfAccount,
    /// The request is too large: margins widen, and measured density is no
    /// longer trusted.
    TooLarge,
}

/// What to do after an attempt.
#[derive(Clone, Copy, Debug, PartialEq, Eq, Structural)]
pub enum Next {
    /// The reply is a completion.
    Settle,
    /// Another attempt after some milliseconds.
    Again(u64, Reason),
    /// Another attempt at once, without asking for JSON.
    AgainWithoutJson,
    /// The exchange failed.
    Fail(Failure),
}

/// An attempt: its number from 0 on, the last one, what the server asks to wait
/// in seconds, some milliseconds of chance, and whether the request asked for
/// JSON.
#[derive(Clone, Copy, Debug, PartialEq, Eq, Structural)]
pub struct Attempt {
    pub number: u32,
    pub last: u32,
    pub retry_after: u64,
    pub jitter: u8,
    pub asked_json: bool,
}

/// The most attempts that waits are computed for.
pub const ATTEMPTS_MAX: u32 = 40;

/// The larger of two numbers.
pub open spec fn larger(a: nat, b: nat) -> nat {
    if a < b {
        b
    } else {
        a
    }
}

/// Another attempt after some seconds, or the failure where this was the last.
pub open spec fn again_or(a: Attempt, seconds: nat, reason: Reason, failure: Failure) -> Next {
    if a.number == a.last {
        Next::Fail(failure)
    } else {
        Next::Again((seconds * 1000) as u64, reason)
    }
}

/// What to do after an attempt.
pub open spec fn next_move(a: Attempt, reply: Reply) -> Next {
    let doubled = pow2(a.number as nat);
    let patient = larger(a.retry_after as nat, doubled);
    match reply {
        Reply::Unreachable => if a.number == a.last {
            Next::Fail(Failure::Unreachable)
        } else {
            Next::Again((1000 * doubled + a.jitter) as u64, Reason::Connection)
        },
        Reply::BodyLost => again_or(a, doubled, Reason::BodyConnection, Failure::BodyLost),
        Reply::NotJson(status) => if retryable(status) {
            again_or(
                a,
                patient,
                Reason::InvalidErrorResponse,
                Failure::InvalidErrorResponse(status),
            )
        } else if !success(status) {
            Next::Fail(Failure::Rejected(status))
        } else {
            Next::Fail(Failure::NotJson)
        },
        Reply::Body(status, body) => {
            let code = error_code(body@);
            let message = error_message(body@);
            if success(status) {
                if body@.get("error"@) is None {
                    Next::Settle
                } else if quota_exhausted(code, message) {
                    Next::Fail(Failure::Quota)
                } else {
                    again_or(a, doubled, Reason::ProviderError, Failure::ProviderError)
                }
            } else if quota_exhausted(code, message) {
                Next::Fail(Failure::QuotaOfAccount)
            } else if context_exceeded(code, message) {
                Next::Fail(Failure::TooLarge)
            } else if retryable(status) {
                again_or(a, patient, Reason::Status, Failure::Status(status))
            } else if !a.asked_json {
                Next::Fail(Failure::Rejected(status))
            } else if a.number == a.last {
                Next::Fail(Failure::JsonModeRejected(status))
            } else {
                Next::AgainWithoutJson
            }
        },
    }
}

/// The last attempt ends an exchange: it succeeds or fails.
pub proof fn last_attempts_are_final(a: Attempt, reply: Reply)
    requires
        a.number == a.last,
    ensures
        next_move(a, reply) is Settle || next_move(a, reply) is Fail,
{
}

/// A quota that is used up ends an exchange at once, whatever the status and
/// however many attempts are left.
pub proof fn exhausted_quota_is_final(a: Attempt, status: u16, body: Json)
    requires
        quota_exhausted(error_code(body@), error_message(body@)),
        success(status) ==> body@.get("error"@) is Some,
    ensures
        next_move(a, Reply::Body(status, body)) is Fail,
{
}

/// JSON is given up at most once: a request that does not ask for it is not
/// asked again without it.
pub proof fn json_mode_is_dropped_once(a: Attempt, reply: Reply)
    requires
        !a.asked_json,
    ensures
        !(next_move(a, reply) is AgainWithoutJson),
{
}

/// Two to the power of an attempt's number.
fn doubled_seconds(number: u32) -> (r: u64)
    requires
        number <= ATTEMPTS_MAX,
    ensures
        r == pow2(number as nat),
        1 <= r <= 0x100_0000_0000,
{
    let mut r: u64 = 1;
    let mut i: u32 = 0;
    proof {
        vstd::arithmetic::power2::lemma2_to64();
    }
    while i < number
        invariant
            i <= number <= 40,
            r == pow2(i as nat),
        decreases number - i,
    {
        proof {
            lemma_pow2_unfold((i + 1) as nat);
            lemma_pow2_bound(i as nat);
        }
        r = r * 2;
        i += 1;
    }
    proof {
        lemma_pow2_bound(number as nat);
        lemma_pow2_pos(number as nat);
    }
    r
}

/// Powers of two up to the fortieth fit well.
proof fn lemma_pow2_bound(n: nat)
    requires
        n <= 40,
    ensures
        pow2(n) <= 0x100_0000_0000,
{
    vstd::arithmetic::power2::lemma2_to64_rest();
    vstd::arithmetic::power2::lemma2_to64();
    if n < 40 {
        vstd::arithmetic::power2::lemma_pow2_strictly_increases(n, 40);
    }
}

/// Another attempt, or the failure.
fn retry(a: &Attempt, seconds: u64, reason: Reason, failure: Failure) -> (r: Next)
    requires
        seconds <= 0x100_0000_0000,
    ensures
        r == again_or(*a, seconds as nat, reason, failure),
{
    if a.number == a.last {
        Next::Fail(failure)
    } else {
        Next::Again(seconds * 1000, reason)
    }
}

/// Decides what to do after an attempt. What the server asks to wait is a minute
/// at most.
pub fn after_attempt(a: &Attempt, reply: &Reply) -> (r: Next)
    requires
        a.number <= ATTEMPTS_MAX,
        a.retry_after <= 60,
    ensures
        r == next_move(*a, *reply),
{
    let doubled: u64 = doubled_seconds(a.number);
    let patient: u64 = if a.retry_after < doubled {
        doubled
    } else {
        a.retry_after
    };
    match reply {
        Reply::Unreachable => {
            if a.number == a.last {
                Next::Fail(Failure::Unreachable)
            } else {
                Next::Again(1000 * doubled + a.jitter as u64, Reason::Connection)
            }
        },
        Reply::BodyLost => retry(a, doubled, Reason::BodyConnection, Failure::BodyLost),
        Reply::NotJson(status) => {
            if retryable_status(*status) {
                retry(
                    a,
                    patient,
                    Reason::InvalidErrorResponse,
                    Failure::InvalidErrorResponse(*status),
                )
            } else if !(200 <= *status && *status < 300) {
                Next::Fail(Failure::Rejected(*status))
            } else {
                Next::Fail(Failure::NotJson)
            }
        },
        Reply::Body(status, body) => {
            let ok = 200 <= *status && *status < 300;
            let error = step(Some(body), "error");
            if ok && body.get("error").is_none() {
                return Next::Settle;
            }
            let code = or_empty(as_string(step(error, "code")));
            let message = to_lowercase(or_empty(as_string(step(error, "message"))).as_str());
            if provider_quota_exhausted(code.as_str(), message.as_str()) {
                return if ok {
                    Next::Fail(Failure::Quota)
                } else {
                    Next::Fail(Failure::QuotaOfAccount)
                };
            }
            if ok {
                return retry(a, doubled, Reason::ProviderError, Failure::ProviderError);
            }
            if has(code.as_str(), "context") || has(message.as_str(), "context length") || has(
                message.as_str(),
                "maximum context",
            ) {
                return Next::Fail(Failure::TooLarge);
            }
            if retryable_status(*status) {
                retry(a, patient, Reason::Status, Failure::Status(*status))
            } else if !a.asked_json {
                Next::Fail(Failure::Rejected(*status))
            } else if a.number == a.last {
                Next::Fail(Failure::JsonModeRejected(*status))
            } else {
                Next::AgainWithoutJson
            }
        },
    }
}

// ---------------------------------------------------------------------------
// Completions
// ---------------------------------------------------------------------------

/// What a completion cost.
#[derive(Clone, Copy, Debug, PartialEq, Eq, Structural)]
pub struct Usage {
    pub input: u64,
    pub output: u64,
    pub reasoning: Option<u64>,
    /// The provider reported the input.
    pub input_reported: bool,
    /// The provider reported the output.
    pub output_reported: bool,
}

/// A number, or what stands in for it.
pub open spec fn or_else(n: Option<u64>, other: u64) -> u64 {
    match n {
        Some(n) => n,
        None => other,
    }
}

/// What a completion cost; where the provider does not say, what was reserved.
pub open spec fn usage_view(body: JsonModel, input: u64, output: u64) -> Usage {
    let usage = body.get("usage"@);
    let prompt = natural_of(step_model(usage, "prompt_tokens"@));
    let completion = natural_of(step_model(usage, "completion_tokens"@));
    Usage {
        input: or_else(prompt, input),
        output: or_else(completion, output),
        reasoning: natural_of(
            step_model(step_model(usage, "completion_tokens_details"@), "reasoning_tokens"@),
        ),
        input_reported: prompt is Some,
        output_reported: completion is Some,
    }
}

/// What a completion cost.
pub fn usage_of(body: &Json, input: u64, output: u64) -> (r: Usage)
    ensures
        r == usage_view(body@, input, output),
{
    let usage = body.get("usage");
    let prompt = as_natural(step(usage, "prompt_tokens"));
    let completion = as_natural(step(usage, "completion_tokens"));
    let reasoning = as_natural(
        step(step(usage, "completion_tokens_details"), "reasoning_tokens"),
    );
    Usage {
        input: match prompt {
            Some(n) => n,
            None => input,
        },
        output: match completion {
            Some(n) => n,
            None => output,
        },
        reasoning,
        input_reported: prompt.is_some(),
        output_reported: completion.is_some(),
    }
}

/// Learns from what a completion cost how dense requests are. Returns whether
/// the margins of later requests widen: the input was underestimated, and not
/// because a calibrated run has just learnt better.
pub fn learn(density: &mut Density, usage: &Usage, request_bytes: u64, allowed: u64, by_server: bool) -> (r:
    bool)
    ensures
        ({
            let learns = !by_server && usage.input_reported;
            let sample = learns && !old(density).distrusted() && budget::sampled(
                request_bytes,
                usage.input,
            ) is Some;
            &&& *final(density) == (if learns {
                old(density).recorded(request_bytes, usage.input)
            } else {
                *old(density)
            })
            &&& r == (usage.input > allowed && !(old(density).value() > UNCALIBRATED_DENSITY
                && sample))
        }),
{
    let calibrated = density.density() > UNCALIBRATED_DENSITY;
    let sampled = if !by_server && usage.input_reported {
        density.record_density(request_bytes, usage.input)
    } else {
        false
    };
    usage.input > allowed && !(calibrated && sampled)
}

/// What a completion is worth.
pub enum Completion {
    /// The server ignored the limit of the output.
    OverLimit,
    /// The output reached its limit; what there is of it.
    Truncated(String),
    /// It did not finish as it should.
    Unfinished,
    /// It holds no text.
    NoText,
    /// Its text is blank.
    Blank,
    /// Most of its text was lost on the way: the tokens billed for it, and what
    /// came.
    Dropped(u64, String),
    /// Its text.
    Text(String),
}

/// A completion is worth what its usage, the reason for its end and its text
/// say, in this order.
pub open spec fn worth(body: JsonModel, usage: Usage, limit: u64, r: Completion) -> bool {
    let finish = string_or_empty(step_model(choice(body), "finish_reason"@));
    let content = content_of(body);
    if usage.output > limit {
        r is OverLimit
    } else if finish == "length"@ {
        r is Truncated && r->Truncated_0@ == (match content {
            Some(c) => c,
            None => Seq::empty(),
        })
    } else if finish != "stop"@ {
        r is Unfinished
    } else {
        match content {
            None => r is NoText,
            Some(c) => if trim(c).len() == 0 {
                r is Blank
            } else if usage.output_reported && lost_text(blen(c), usage.output, usage.reasoning) {
                r is Dropped && r->Dropped_1@ == c && r->Dropped_0 == (if or_else(
                    usage.reasoning,
                    0,
                ) > usage.output {
                    0
                } else {
                    usage.output - or_else(usage.reasoning, 0)
                })
            } else {
                r is Text && r->Text_0@ == c
            },
        }
    }
}

/// What a completion is worth. Only its text may be kept in a cache.
pub fn judge_completion(body: &Json, usage: &Usage, limit: u64) -> (r: Completion)
    ensures
        worth(body@, *usage, limit, r),
{
    if usage.output > limit {
        return Completion::OverLimit;
    }
    let choice = step(step(Some(body), "choices"), "0");
    let finish = or_empty(as_string(step(choice, "finish_reason")));
    let content = as_string(step(step(choice, "message"), "content"));
    if same(finish.as_str(), "length") {
        return Completion::Truncated(or_empty(content));
    }
    if !same(finish.as_str(), "stop") {
        return Completion::Unfinished;
    }
    match content {
        None => Completion::NoText,
        Some(text) => {
            if is_blank(text.as_str()) {
                return Completion::Blank;
            }
            let bytes: usize = text.as_str().as_bytes().len();
            if usage.output_reported && content_dropped(bytes, usage.output, usage.reasoning) {
                let hidden: u64 = match usage.reasoning {
                    Some(n) => n,
                    None => 0,
                };
                return Completion::Dropped(usage.output.saturating_sub(hidden), text);
            }
            Completion::Text(text)
        },
    }
}

// ---------------------------------------------------------------------------
// Probing
// ---------------------------------------------------------------------------

/// Why a provider is not probed.
#[derive(Clone, Copy, Debug, PartialEq, Eq, Structural)]
pub enum ProbeFault {
    ModelRequired,
    Budget(BudgetFault),
}

/// The settings of a probe: an output of 256 tokens is enough.
pub open spec fn probe_settings(c: LlmConfig) -> LlmConfig {
    LlmConfig {
        max_output_tokens: if c.max_output_tokens < 256 {
            c.max_output_tokens
        } else {
            256
        },
        ..c
    }
}

/// The request of a probe.
pub open spec fn probe_view(c: LlmConfig) -> JsonModel {
    payload_view(
        probe_settings(c),
        JsonModel::Arr(seq![message_view("user"@, "Reply with OK only."@)]),
    )
}

/// The request that probes a provider.
pub fn probe_request(c: &LlmConfig) -> (r: Result<Json, ProbeFault>)
    ensures
        match r {
            Ok(request) => {
                &&& c.model@.len() > 0
                &&& request@ == probe_view(*c)
                &&& passes(probe_settings(*c), estimated(request@) as u64, 0)
            },
            Err(ProbeFault::ModelRequired) => c.model@.len() == 0,
            Err(ProbeFault::Budget(_)) => c.model@.len() > 0 && !passes(
                probe_settings(*c),
                estimated(probe_view(*c)) as u64,
                0,
            ),
        },
{
    if c.model.as_str().unicode_len() == 0 {
        return Err(ProbeFault::ModelRequired);
    }
    let mut probe = c.clone();
    if probe.max_output_tokens > 256 {
        probe.max_output_tokens = 256;
    }
    assert(probe == probe_settings(*c));
    let messages = vec![message("user", "Reply with OK only.")];
    assert(models(messages@) =~= seq![message_view("user"@, "Reply with OK only."@)]);
    let request = payload(&probe, Json::array(messages));
    match budget::check(&probe, estimate(&request), 0) {
        Ok(_) => Ok(request),
        Err(f) => Err(ProbeFault::Budget(f)),
    }
}

/// What a probe shows.
pub enum ProbeResult {
    /// The provider answers.
    Answers,
    /// It rejected the request.
    Rejected(u16),
    /// Its reply holds no completion; the code of its error, as JSON.
    NoCompletion(String),
}

/// What a probe shows. A status of success alone is no answer.
pub fn judge_probe(status: u16, body: &Json) -> (r: ProbeResult)
    ensures
        ({
            let code = step_model(step_model(Some(body@), "error"@), "code"@);
            if !success(status) {
                r == ProbeResult::Rejected(status)
            } else if step_model(choice(body@), "message"@) is Some {
                r is Answers
            } else {
                r is NoCompletion && r->NoCompletion_0@ == (match code {
                    Some(m) => text_of(m),
                    None => "unknown"@,
                })
            }
        }),
{
    if !(200 <= status && status < 300) {
        return ProbeResult::Rejected(status);
    }
    if step(step(step(Some(body), "choices"), "0"), "message").is_some() {
        return ProbeResult::Answers;
    }
    match step(step(Some(body), "error"), "code") {
        Some(code) => ProbeResult::NoCompletion(code.to_text()),
        None => ProbeResult::NoCompletion(String::from_str("unknown")),
    }
}

// ---------------------------------------------------------------------------
// Headers and messages
// ---------------------------------------------------------------------------

/// The seconds that a server asks to wait: the number in the header, a minute at
/// most, and nothing where there is no number.
pub open spec fn wait_asked(header: Option<Seq<char>>) -> u64 {
    match header {
        Some(h) => {
            let digits = if h.len() > 0 && h[0] == '+' {
                h.skip(1)
            } else {
                h
            };
            match JsonModel::Num(digits).natural() {
                Some(n) => if n > 60 {
                    60
                } else {
                    n
                },
                None => 0,
            }
        },
        None => 0,
    }
}

/// The seconds that a server asks to wait.
pub fn retry_after(header: Option<&str>) -> (r: u64)
    ensures
        r == wait_asked(
            match header {
                Some(h) => Some(h@),
                None => None,
            },
        ),
        r <= 60,
{
    match header {
        Some(h) => {
            let chars = to_chars(h);
            let from: usize = if chars.len() > 0 && chars[0] == '+' {
                1
            } else {
                0
            };
            let digits = slice(chars.as_slice(), from, chars.len());
            assert(from == 1 ==> digits@ =~= h@.skip(1));
            assert(from == 0 ==> digits@ =~= h@);
            match parse_natural(digits.as_str()) {
                Some(n) => if n > 60 {
                    60
                } else {
                    n
                },
                None => 0,
            }
        },
        None => 0,
    }
}

/// A text with a number in it.
fn around(before: &str, n: u64, after: &str) -> (r: String)
    ensures
        r@ == before@ + decimal(n as nat) + after@,
{
    let mut s = String::from_str(before);
    s.push_str(number(n).as_str());
    s.push_str(after);
    s
}

/// What a failure is reported as.
pub open spec fn failure_text(f: Failure) -> Seq<char> {
    match f {
        Failure::Unreachable => "API_RETRIES_EXHAUSTED: connection or timeout"@,
        Failure::BodyLost => "API_RETRIES_EXHAUSTED: response body connection or timeout"@,
        Failure::InvalidErrorResponse(status) => "API_RETRIES_EXHAUSTED: HTTP "@ + decimal(
            status as nat,
        ) + " returned invalid JSON"@,
        Failure::ProviderError =>
            "API_RETRIES_EXHAUSTED: provider returned an error instead of a completion"@,
        Failure::Status(status) => "API_RETRIES_EXHAUSTED: HTTP "@ + decimal(status as nat) + ""@,
        Failure::Rejected(status) => "API rejected request (HTTP "@ + decimal(status as nat)
            + "); verify authentication, model and reasoning parameter support"@,
        Failure::JsonModeRejected(status) => "API rejected request (HTTP "@ + decimal(
            status as nat,
        )
            + ") while asking for JSON output; JSON mode is now off for this run, so resuming it will not ask again"@,
        Failure::NotJson => "API returned invalid JSON"@,
        Failure::Quota => "PROVIDER_BUDGET: provider daily quota or credits exhausted"@,
        Failure::QuotaOfAccount =>
            "PROVIDER_BUDGET: provider daily quota or credits exhausted; retry after quota reset or update the configured provider account"@,
        Failure::TooLarge => "CONTEXT_BUDGET: server requires smaller input"@,
    }
}

impl Failure {
    /// What the failure is reported as.
    pub fn message(&self) -> (r: String)
        ensures
            r@ == failure_text(*self),
    {
        match self {
            Failure::Unreachable => String::from_str("API_RETRIES_EXHAUSTED: connection or timeout"),
            Failure::BodyLost => String::from_str(
                "API_RETRIES_EXHAUSTED: response body connection or timeout",
            ),
            Failure::InvalidErrorResponse(status) => around(
                "API_RETRIES_EXHAUSTED: HTTP ",
                *status as u64,
                " returned invalid JSON",
            ),
            Failure::ProviderError => String::from_str(
                "API_RETRIES_EXHAUSTED: provider returned an error instead of a completion",
            ),
            Failure::Status(status) => around("API_RETRIES_EXHAUSTED: HTTP ", *status as u64, ""),
            Failure::Rejected(status) => around(
                "API rejected request (HTTP ",
                *status as u64,
                "); verify authentication, model and reasoning parameter support",
            ),
            Failure::JsonModeRejected(status) => around(
                "API rejected request (HTTP ",
                *status as u64,
                ") while asking for JSON output; JSON mode is now off for this run, so resuming it will not ask again",
            ),
            Failure::NotJson => String::from_str("API returned invalid JSON"),
            Failure::Quota => String::from_str(
                "PROVIDER_BUDGET: provider daily quota or credits exhausted",
            ),
            Failure::QuotaOfAccount => String::from_str(
                "PROVIDER_BUDGET: provider daily quota or credits exhausted; retry after quota reset or update the configured provider account",
            ),
            Failure::TooLarge => String::from_str("CONTEXT_BUDGET: server requires smaller input"),
        }
    }
}

/// A response that reached the limit of its output: the text that there is of
/// it, which is not kept as complete.
pub struct TruncatedOutput {
    pub content: String,
}

impl TruncatedOutput {
    /// What the truncation is reported as.
    pub fn message(&self) -> (r: String)
        ensures
            r@ == "OUTPUT_TRUNCATED: response reached its output token limit"@,
    {
        String::from_str("OUTPUT_TRUNCATED: response reached its output token limit")
    }
}

/// What a completion that is worth nothing is reported as.
pub open spec fn completion_fault(c: Completion) -> Option<Seq<char>> {
    match c {
        Completion::OverLimit => Some(
            "API_OUTPUT_CONTRACT: server ignored the configured output limit"@,
        ),
        Completion::Truncated(_) => Some(
            "OUTPUT_TRUNCATED: response reached its output token limit"@,
        ),
        Completion::Unfinished => Some("API response did not finish normally"@),
        Completion::NoText => Some("API returned no visible output"@),
        Completion::Blank => Some("API returned empty output"@),
        Completion::Dropped(tokens, text) => Some(
            "PROVIDER_CONTENT_DROPPED: the provider billed "@ + decimal(tokens as nat)
                + " visible output tokens but delivered only "@ + decimal(blen(text@))
                + " bytes, so part of the previous response was removed before it arrived - it stops where the text wrote a literal angle bracket around a tag. Backticks do not protect it and neither does a code fence. Write the tag escaped as &lt;think&gt;, which arrives intact, or name it in words without brackets, such as the think tag - for reasoning and chat-template tags (think, /think, im_start) and markup tags (div, script, xml) alike, even while describing code that parses them."@,
        ),
        Completion::Text(_) => None,
    }
}

impl Completion {
    /// What a completion that is worth nothing is reported as.
    pub fn fault(&self) -> (r: Option<String>)
        ensures
            match completion_fault(*self) {
                Some(t) => r is Some && r->0@ == t,
                None => r is None,
            },
    {
        match self {
            Completion::OverLimit => Some(
                String::from_str("API_OUTPUT_CONTRACT: server ignored the configured output limit"),
            ),
            Completion::Truncated(_) => Some(
                String::from_str("OUTPUT_TRUNCATED: response reached its output token limit"),
            ),
            Completion::Unfinished => Some(String::from_str("API response did not finish normally")),
            Completion::NoText => Some(String::from_str("API returned no visible output")),
            Completion::Blank => Some(String::from_str("API returned empty output")),
            Completion::Dropped(tokens, text) => {
                let mut s = around(
                    "PROVIDER_CONTENT_DROPPED: the provider billed ",
                    *tokens,
                    " visible output tokens but delivered only ",
                );
                s.push_str(number(text.as_str().as_bytes().len() as u64).as_str());
                s.push_str(
                    " bytes, so part of the previous response was removed before it arrived - it stops where the text wrote a literal angle bracket around a tag. Backticks do not protect it and neither does a code fence. Write the tag escaped as &lt;think&gt;, which arrives intact, or name it in words without brackets, such as the think tag - for reasoning and chat-template tags (think, /think, im_start) and markup tags (div, script, xml) alike, even while describing code that parses them.",
                );
                Some(s)
            },
            Completion::Text(_) => None,
        }
    }
}

} // verus!
