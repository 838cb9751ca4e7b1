//! How much a request may carry: tokens are estimated from bytes, and room is
//! kept for the answer and for a margin.

use vstd::arithmetic::div_mod::{lemma_fundamental_div_mod, lemma_mod_bound};
use vstd::prelude::*;

use crate::json::{holds_text, text_of, Json, JsonModel};
use crate::model::LlmConfig;
use crate::text::blen;

verus! {

/// What a request that may be sent takes.
pub struct Budget {
    pub input: u64,
    pub output: u64,
    pub margin: u64,
    pub context: u64,
    pub method: String,
}

/// A request is serialized twice: once into the input and again into the
/// message that carries it.
pub const ESCAPE_EXPANSION_PERCENT: u64 = 125;

/// Bytes per token, in hundredths, before any usage was reported.
pub const UNCALIBRATED_DENSITY: u32 = 100;

/// Samples needed before measured usage replaces the uncalibrated assumption.
pub const DENSITY_SAMPLES: u32 = 3;

/// The densest assumption that calibration may reach.
pub const DENSITY_CEILING: u32 = 300;

/// The widest context that is used, whatever a model offers.
pub const CONTEXT_CEILING: u32 = 200_000;

/// Why a request may not be sent.
#[derive(Clone, Copy, Debug, PartialEq, Eq, Structural)]
pub enum BudgetFault {
    /// It must be split before sending.
    Split,
}

/// A number, as far as 64 bits hold it.
pub open spec fn capped(n: nat) -> nat {
    if n > u64::MAX {
        u64::MAX as nat
    } else {
        n
    }
}

/// The quotient rounded up.
pub open spec fn div_up(n: nat, d: nat) -> nat {
    if n % d == 0 {
        n / d
    } else {
        n / d + 1
    }
}

/// The difference of two numbers, and zero where it is none.
pub open spec fn minus(a: nat, b: nat) -> nat {
    if a < b {
        0
    } else {
        (a - b) as nat
    }
}

/// The smaller of two numbers.
pub open spec fn lesser(a: nat, b: nat) -> nat {
    if a < b {
        a
    } else {
        b
    }
}

/// The larger of two numbers.
pub open spec fn greater(a: nat, b: nat) -> nat {
    if a < b {
        b
    } else {
        a
    }
}

// ---------------------------------------------------------------------------
// Estimates
// ---------------------------------------------------------------------------

/// The tokens of a request at one byte a token, with its framing.
pub open spec fn estimated(value: JsonModel) -> nat {
    capped(blen(text_of(value)) + 256)
}

/// The tokens of a request at a density.
pub open spec fn estimated_at(value: JsonModel, density: u32) -> nat {
    div_up(capped(estimated(value) * 100), greater(density as nat, UNCALIBRATED_DENSITY as nat))
}

/// The product of a number and a hundred, as far as 64 bits hold it.
fn hundredfold(n: u64) -> (r: u64)
    ensures
        r == capped((n * 100) as nat),
{
    if n > u64::MAX / 100 {
        u64::MAX
    } else {
        n * 100
    }
}

/// The quotient rounded up.
fn divide_up(n: u64, d: u64) -> (r: u64)
    requires
        d > 0,
    ensures
        r == div_up(n as nat, d as nat),
{
    proof {
        assert(n as nat / d as nat <= n) by (nonlinear_arith)
            requires
                d >= 1,
        ;
        if n % d != 0 {
            lemma_fundamental_div_mod(n as int, d as int);
            assert(n as nat / d as nat + 1 <= n) by (nonlinear_arith)
                requires
                    n as int == d as int * (n as int / d as int) + (n as int % d as int),
                    n as int % d as int >= 1,
                    d >= 1,
                    n as int / d as int >= 0,
            ;
        }
    }
    if n % d == 0 {
        n / d
    } else {
        n / d + 1
    }
}

/// The tokens of a request at one byte a token: deliberately more than any
/// tokenizer counts.
pub fn estimate(value: &Json) -> (r: u64)
    ensures
        r == estimated(value@),
        forall|s: Seq<char>| #[trigger] holds_text(value@, s) ==> r >= capped(blen(s)),
{
    let bytes: u64 = value.size() as u64;
    bytes.saturating_add(256)
}

/// The tokens of a request at a density.
pub fn estimate_at(value: &Json, density: u32) -> (r: u64)
    ensures
        r == estimated_at(value@, density),
{
    let bytes = estimate(value);
    let floor: u32 = if density < UNCALIBRATED_DENSITY {
        UNCALIBRATED_DENSITY
    } else {
        density
    };
    divide_up(hundredfold(bytes), floor as u64)
}

/// Without calibration a token is a byte.
pub proof fn uncalibrated_estimates_count_bytes(value: JsonModel)
    requires
        estimated(value) * 100 <= u64::MAX,
    ensures
        estimated_at(value, UNCALIBRATED_DENSITY) == estimated(value),
{
    let n = estimated(value);
    assert(n * 100 / 100 == n && (n * 100) % 100 == 0) by (nonlinear_arith);
}

/// A denser assumption never raises an estimate.
pub proof fn denser_estimates_are_lower(value: JsonModel, a: u32, b: u32)
    requires
        UNCALIBRATED_DENSITY <= a <= b,
    ensures
        estimated_at(value, b) <= estimated_at(value, a),
{
    let n = capped(estimated(value) * 100);
    lemma_div_up(n, a as nat);
    lemma_div_up(n, b as nat);
    let x = div_up(n, a as nat);
    let y = div_up(n, b as nat);
    let an = a as nat;
    let bn = b as nat;
    if y > x {
        assert(false) by (nonlinear_arith)
            requires
                x * an >= n,
                y > x,
                100 <= an <= bn,
                (y - 1) * bn < n,
        ;
    }
}

/// The quotient rounded up is the least whose product is enough.
proof fn lemma_div_up(n: nat, d: nat)
    requires
        d > 0,
    ensures
        div_up(n, d) * d >= n,
        div_up(n, d) > 0 ==> (div_up(n, d) - 1) * d < n,
{
    lemma_fundamental_div_mod(n as int, d as int);
    lemma_mod_bound(n as int, d as int);
    let q = n / d;
    let m = n % d;
    assert(n == d * q + m);
    if m == 0 {
        assert(q * d >= n) by (nonlinear_arith)
            requires
                n == d * q + m,
                m == 0,
        ;
        if q > 0 {
            assert((q - 1) * d < n) by (nonlinear_arith)
                requires
                    n == d * q,
                    d > 0,
            ;
        }
    } else {
        assert((q + 1) * d >= n) by (nonlinear_arith)
            requires
                n == d * q + m,
                m < d,
        ;
        assert(q * d < n) by (nonlinear_arith)
            requires
                n == d * q + m,
                m > 0,
        ;
    }
}

// ---------------------------------------------------------------------------
// Density
// ---------------------------------------------------------------------------

/// A usage report is a density sample where a request of some size was counted,
/// at one to six bytes a token.
pub open spec fn sampled(request_bytes: u64, prompt_tokens: u64) -> Option<u32> {
    let density = capped((request_bytes * 100) as nat) / prompt_tokens as nat;
    if prompt_tokens == 0 || request_bytes < 4_096 {
        None
    } else if UNCALIBRATED_DENSITY <= density <= 600 {
        Some(density as u32)
    } else {
        None
    }
}

/// One usage report as a density sample, or nothing when it cannot be one.
pub fn density_sample(request_bytes: u64, prompt_tokens: u64) -> (r: Option<u32>)
    ensures
        r == sampled(request_bytes, prompt_tokens),
{
    if prompt_tokens == 0 || request_bytes < 4_096 {
        return None;
    }
    let density: u64 = hundredfold(request_bytes) / prompt_tokens;
    if UNCALIBRATED_DENSITY as u64 <= density && density <= 600 {
        Some(density as u32)
    } else {
        None
    }
}

/// The density that a run packs at: the densest sample, discounted and within
/// bounds, once there are enough.
pub open spec fn calibrated(samples: u32, densest: u32) -> u32 {
    let discounted = lesser((densest * 85) as nat, u32::MAX as nat) / 100;
    if samples < DENSITY_SAMPLES || densest == 0 {
        UNCALIBRATED_DENSITY
    } else if discounted < UNCALIBRATED_DENSITY {
        UNCALIBRATED_DENSITY
    } else if discounted > DENSITY_CEILING {
        DENSITY_CEILING
    } else {
        discounted as u32
    }
}

/// The density that a run packs requests at, from the densest sample it has
/// seen.
pub fn calibrated_density(samples: u32, densest: u32) -> (r: u32)
    ensures
        r == calibrated(samples, densest),
        UNCALIBRATED_DENSITY <= r <= DENSITY_CEILING,
{
    if samples < DENSITY_SAMPLES || densest == 0 {
        return UNCALIBRATED_DENSITY;
    }
    let product: u64 = densest as u64 * 85;
    let discounted: u64 = (if product > u32::MAX as u64 {
        u32::MAX as u64
    } else {
        product
    }) / 100;
    if discounted < UNCALIBRATED_DENSITY as u64 {
        UNCALIBRATED_DENSITY
    } else if discounted > DENSITY_CEILING as u64 {
        DENSITY_CEILING
    } else {
        discounted as u32
    }
}

// ---------------------------------------------------------------------------
// What may be sent
// ---------------------------------------------------------------------------

/// The context that is used of a model.
pub open spec fn usable_context(c: LlmConfig) -> nat {
    lesser(
        lesser(c.context_limit as nat, c.model_context_limit as nat),
        CONTEXT_CEILING as nat,
    )
}

/// The part of the context that is kept free.
pub open spec fn safety_margin(c: LlmConfig, extra_margin: u32) -> nat {
    div_up(
        usable_context(c) * lesser((c.safety_percent + extra_margin) as nat, 90),
        100,
    )
}

/// A request with this input may be sent.
pub open spec fn passes(c: LlmConfig, input: u64, extra_margin: u32) -> bool {
    &&& c.max_output_tokens <= c.model_max_output
    &&& input + c.max_output_tokens + safety_margin(c, extra_margin) <= usable_context(c)
}

/// The tokens that remain for input.
pub open spec fn input_room(c: LlmConfig, extra_margin: u32) -> nat {
    minus(
        minus(usable_context(c), safety_margin(c, extra_margin)),
        c.max_output_tokens as nat,
    )
}

/// The bytes that a request may hold at a density, before it is escaped.
pub open spec fn byte_room(c: LlmConfig, extra_margin: u32, density: u32) -> nat {
    let bytes = input_room(c, extra_margin) * greater(
        density as nat,
        UNCALIBRATED_DENSITY as nat,
    ) / 100;
    bytes * 100 / ESCAPE_EXPANSION_PERCENT as nat
}

/// The bytes that a request may pack alongside an overhead.
pub open spec fn packing_room(c: LlmConfig, extra_margin: u32, density: u32, overhead: usize) -> nat {
    lesser(minus(byte_room(c, extra_margin, density), overhead as nat), usize::MAX as nat)
}

/// The context that is used of a model.
fn context_of(c: &LlmConfig) -> (r: u64)
    ensures
        r == usable_context(*c),
        r <= CONTEXT_CEILING,
{
    let smaller: u32 = if c.context_limit < c.model_context_limit {
        c.context_limit
    } else {
        c.model_context_limit
    };
    (if smaller < CONTEXT_CEILING {
        smaller
    } else {
        CONTEXT_CEILING
    }) as u64
}

/// The part of the context that is kept free.
fn margin_of(c: &LlmConfig, extra_margin: u32) -> (r: u64)
    ensures
        r == safety_margin(*c, extra_margin),
        r <= usable_context(*c),
{
    let context = context_of(c);
    let asked: u64 = c.safety_percent as u64 + extra_margin as u64;
    let percent: u64 = if asked < 90 {
        asked
    } else {
        90
    };
    proof {
        assert(context * percent <= 200_000 * 90) by (nonlinear_arith)
            requires
                context <= 200_000,
                percent <= 90,
        ;
        lemma_div_up((context * percent) as nat, 100);
        let m = div_up((context * percent) as nat, 100);
        assert(m <= context) by (nonlinear_arith)
            requires
                m > 0 ==> (m - 1) * 100 < context * percent,
                percent <= 90,
                context >= 0,
        ;
    }
    divide_up(context * percent, 100)
}

/// Bytes that a request may pack alongside `overhead`, so that callers never
/// build a request that may then not be sent.
pub fn packing_limit(c: &LlmConfig, extra_margin: u32, overhead: usize) -> (r: usize)
    ensures
        r == packing_room(*c, extra_margin, UNCALIBRATED_DENSITY, overhead),
{
    packing_limit_at(c, extra_margin, UNCALIBRATED_DENSITY, overhead)
}

/// `packing_limit` for a run whose provider has reported how dense its requests
/// are.
pub fn packing_limit_at(c: &LlmConfig, extra_margin: u32, density: u32, overhead: usize) -> (r: usize)
    ensures
        r == packing_room(*c, extra_margin, density, overhead),
{
    let context = context_of(c);
    let margin = margin_of(c, extra_margin);
    let kept: u64 = context - margin;
    let output: u64 = c.max_output_tokens as u64;
    let allowed: u64 = if kept < output {
        0
    } else {
        kept - output
    };
    let floor: u64 = if density < UNCALIBRATED_DENSITY {
        UNCALIBRATED_DENSITY as u64
    } else {
        density as u64
    };
    proof {
        assert(allowed * floor <= 200_000 * 0x1_0000_0000) by (nonlinear_arith)
            requires
                allowed <= 200_000,
                floor <= 0x1_0000_0000,
        ;
    }
    let bytes: u64 = allowed * floor / 100;
    let room: u64 = bytes * 100 / ESCAPE_EXPANSION_PERCENT;
    let over: u64 = overhead as u64;
    let left: u64 = if room < over {
        0
    } else {
        room - over
    };
    if left > usize::MAX as u64 {
        usize::MAX
    } else {
        left as usize
    }
}

/// Whether a request with this input may be sent, and what it takes.
pub fn check(c: &LlmConfig, input: u64, extra_margin: u32) -> (r: Result<Budget, BudgetFault>)
    ensures
        r is Ok <==> passes(*c, input, extra_margin),
        r matches Ok(b) ==> {
            &&& b.input == input
            &&& b.output == c.max_output_tokens
            &&& b.margin == safety_margin(*c, extra_margin)
            &&& b.context == usable_context(*c)
            &&& b.method == c.token_mode
        },
{
    let context = context_of(c);
    let margin = margin_of(c, extra_margin);
    let output: u64 = c.max_output_tokens as u64;
    if output > c.model_max_output as u64 || input > context || input + output + margin > context {
        return Err(BudgetFault::Split);
    }
    Ok(Budget { input, output, margin, context, method: c.token_mode.clone() })
}

// ---------------------------------------------------------------------------
// Laws
// ---------------------------------------------------------------------------

/// A request that may be sent never exceeds the context: input, answer and
/// margin fit in it together.
pub proof fn accepted_requests_fit_the_context(c: LlmConfig, input: u64, extra_margin: u32)
    requires
        passes(c, input, extra_margin),
    ensures
        input + c.max_output_tokens + safety_margin(c, extra_margin) <= usable_context(c)
            <= CONTEXT_CEILING,
{
}

/// The tokens of some bytes, once they are escaped, at a density.
pub open spec fn escaped_tokens(held: nat, density: u32) -> nat {
    held * ESCAPE_EXPANSION_PERCENT as nat / 100 * 100 / greater(
        density as nat,
        UNCALIBRATED_DENSITY as nat,
    )
}

/// A request packed to the limit may be sent: where anything may be packed,
/// the packed bytes and the overhead, escaped and counted at the density that
/// they were packed at, may be sent.
pub proof fn packed_requests_may_be_sent(
    c: LlmConfig,
    extra_margin: u32,
    density: u32,
    overhead: usize,
    tokens: u64,
)
    requires
        c.max_output_tokens <= c.model_max_output,
        packing_room(c, extra_margin, density, overhead) > 0,
        tokens <= escaped_tokens(
            packing_room(c, extra_margin, density, overhead) + overhead as nat,
            density,
        ),
    ensures
        passes(c, tokens, extra_margin),
{
    let d = greater(density as nat, UNCALIBRATED_DENSITY as nat);
    let allowed = input_room(c, extra_margin);
    let product = allowed * d;
    let bytes = product / 100;
    let room = bytes * 100 / 125;
    let held = packing_room(c, extra_margin, density, overhead) + overhead as nat;
    assert(held <= room);
    lemma_scaled(held, room, bytes);
    let escaped = held * 125 / 100;
    assert(escaped <= bytes);
    lemma_scaled_back(escaped, bytes, product, d, allowed);
    assert(tokens <= allowed);
    assert(allowed > 0) by {
        if allowed == 0 {
            assert(product == 0) by (nonlinear_arith)
                requires
                    product == allowed * d,
                    allowed == 0,
            ;
        }
    }
}

proof fn lemma_scaled(held: nat, room: nat, bytes: nat)
    requires
        held <= room,
        room == bytes * 100 / 125,
    ensures
        held * 125 / 100 <= bytes,
{
    assert(room * 125 <= bytes * 100);
    assert(held * 125 <= bytes * 100);
}

proof fn lemma_scaled_back(escaped: nat, bytes: nat, product: nat, d: nat, allowed: nat)
    requires
        escaped <= bytes,
        bytes == product / 100,
        product == allowed * d,
        d > 0,
    ensures
        escaped * 100 / d <= allowed,
{
    assert(escaped * 100 <= product);
    let q = escaped * 100 / d;
    lemma_fundamental_div_mod(escaped as int * 100, d as int);
    lemma_mod_bound(escaped as int * 100, d as int);
    assert(q <= allowed) by (nonlinear_arith)
        requires
            escaped * 100 == d * q + (escaped * 100) % d,
            (escaped * 100) % d >= 0,
            escaped * 100 <= allowed * d,
            d > 0,
    ;
}

} // verus!
