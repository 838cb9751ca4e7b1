//! What a run may still spend: tokens, cost and time, and how densely its
//! requests are packed.

use vstd::prelude::*;

use crate::budget::{
    calibrated, calibrated_density, density_sample, packing_limit_at, packing_room, sampled,
    UNCALIBRATED_DENSITY,
};
use crate::model::LlmConfig;

verus! {

/// What the usage reports of a run say of its density.
#[derive(Clone, Copy, Debug, PartialEq, Eq, Structural)]
pub struct Density {
    /// How many reports were usable, or the largest number once the provider
    /// has refused a request that calibration packed.
    pub samples: u32,
    /// The densest of them, in hundredths of a byte per token.
    pub floor: u32,
}

impl Density {
    /// Calibration is no longer trusted.
    pub open spec fn distrusted(self) -> bool {
        self.samples == u32::MAX
    }

    /// Bytes per token, in hundredths.
    pub open spec fn value(self) -> u32 {
        if self.distrusted() {
            UNCALIBRATED_DENSITY
        } else {
            calibrated(self.samples, self.floor)
        }
    }

    /// What a usage report adds.
    pub open spec fn recorded(self, request_bytes: u64, prompt_tokens: u64) -> Density {
        match sampled(request_bytes, prompt_tokens) {
            Some(sample) if !self.distrusted() => Density {
                samples: if self.samples < u32::MAX - 1 {
                    (self.samples + 1) as u32
                } else {
                    self.samples
                },
                floor: if self.floor == 0 || sample < self.floor {
                    sample
                } else {
                    self.floor
                },
            },
            _ => self,
        }
    }

    /// Bytes per token, in hundredths, that a run packs and estimates at.
    pub fn density(&self) -> (r: u32)
        ensures
            r == self.value(),
    {
        if self.samples == u32::MAX {
            return UNCALIBRATED_DENSITY;
        }
        calibrated_density(self.samples, self.floor)
    }

    /// Bytes that a request may pack alongside `overhead` at this density.
    pub fn packing_limit(&self, c: &LlmConfig, extra_margin: u32, overhead: usize) -> (r: usize)
        ensures
            r == packing_room(*c, extra_margin, self.value(), overhead),
    {
        packing_limit_at(c, extra_margin, self.density(), overhead)
    }

    /// Learns from one usage report; returns whether it was a usable sample.
    pub fn record_density(&mut self, request_bytes: u64, prompt_tokens: u64) -> (r: bool)
        ensures
            *final(self) == old(self).recorded(request_bytes, prompt_tokens),
            r == (!old(self).distrusted() && sampled(request_bytes, prompt_tokens) is Some),
    {
        if self.samples == u32::MAX {
            return false;
        }
        match density_sample(request_bytes, prompt_tokens) {
            None => false,
            Some(sample) => {
                if self.floor == 0 || sample < self.floor {
                    self.floor = sample;
                }
                if self.samples < u32::MAX - 1 {
                    self.samples = self.samples + 1;
                }
                true
            },
        }
    }

    /// Stops trusting calibration after the provider refused a request for its
    /// size.
    pub fn distrust_density(&mut self)
        ensures
            final(self).distrusted(),
            final(self).floor == old(self).floor,
    {
        self.samples = u32::MAX;
    }
}

/// Distrust is final: no later report changes what a run packs at.
pub proof fn distrust_is_final(density: Density, request_bytes: u64, prompt_tokens: u64)
    requires
        density.distrusted(),
    ensures
        density.recorded(request_bytes, prompt_tokens) == density,
        density.value() == UNCALIBRATED_DENSITY,
{
}

/// Reports never make a run distrust its density, and never raise its densest
/// sample.
pub proof fn reports_only_lower_the_floor(density: Density, request_bytes: u64, prompt_tokens: u64)
    requires
        !density.distrusted(),
    ensures
        !density.recorded(request_bytes, prompt_tokens).distrusted(),
        density.floor > 0 ==> density.recorded(request_bytes, prompt_tokens).floor
            <= density.floor,
{
}

/// Why a run stops.
#[derive(Clone, Copy, Debug, PartialEq, Eq, Structural)]
pub enum Stop {
    Cancelled,
    /// The deadline is reached.
    Time,
    /// The token budget is exhausted.
    Tokens,
    /// The cost budget is exhausted.
    Cost,
}

/// A run stops when it is cancelled or, unless it is being completed, when its
/// time is up.
pub open spec fn stopped(
    cancelled: bool,
    finalizing: bool,
    elapsed_before: u64,
    elapsed: u64,
    max_seconds: u64,
) -> Option<Stop> {
    if cancelled {
        Some(Stop::Cancelled)
    } else if !finalizing && elapsed_before + elapsed >= max_seconds {
        Some(Stop::Time)
    } else {
        None
    }
}

/// Whether a run may go on.
pub fn check(
    cancelled: bool,
    finalizing: bool,
    elapsed_before: u64,
    elapsed: u64,
    max_seconds: u64,
) -> (r: Result<(), Stop>)
    ensures
        match stopped(cancelled, finalizing, elapsed_before, elapsed, max_seconds) {
            Some(stop) => r == Err::<(), Stop>(stop),
            None => r == Ok::<(), Stop>(()),
        },
{
    if cancelled {
        return Err(Stop::Cancelled);
    }
    if !finalizing && elapsed_before.saturating_add(elapsed) >= max_seconds {
        return Err(Stop::Time);
    }
    Ok(())
}

/// What a run has set aside: tokens, and cost in millionths.
#[derive(Clone, Copy, Debug, PartialEq, Eq, Structural)]
pub struct Reserved {
    pub tokens: u64,
    pub cost: u64,
}

/// A sum, as far as 64 bits hold it.
pub open spec fn saturated(a: nat, b: nat) -> u64 {
    if a + b > u64::MAX {
        u64::MAX
    } else {
        (a + b) as u64
    }
}

impl Reserved {
    /// What the cost would come to with this much more.
    pub fn projected_cost(&self, cost: u64) -> (r: u64)
        ensures
            r == saturated(self.cost as nat, cost as nat),
    {
        self.cost.saturating_add(cost)
    }

    /// Sets tokens and cost aside. `over_cost` says whether the projected cost
    /// exceeds what the run may cost.
    pub fn reserve(&mut self, tokens: u64, cost: u64, max_tokens: u64, over_cost: bool) -> (r: Result<
        (),
        Stop,
    >)
        ensures
            if old(self).tokens + tokens > max_tokens {
                r == Err::<(), Stop>(Stop::Tokens) && *final(self) == *old(self)
            } else if over_cost {
                r == Err::<(), Stop>(Stop::Cost) && *final(self) == *old(self)
            } else {
                &&& r == Ok::<(), Stop>(())
                &&& final(self).tokens == old(self).tokens + tokens
                &&& final(self).cost == saturated(old(self).cost as nat, cost as nat)
            },
    {
        match self.tokens.checked_add(tokens) {
            None => {
                return Err(Stop::Tokens);
            },
            Some(total) => {
                if total > max_tokens {
                    return Err(Stop::Tokens);
                }
                if over_cost {
                    return Err(Stop::Cost);
                }
                self.tokens = total;
            },
        }
        self.cost = self.cost.saturating_add(cost);
        Ok(())
    }

    /// Replaces a reservation by what was used; returns what is released.
    pub fn reconcile_tokens(&mut self, reservation: u64, used: u64) -> (r: u64)
        ensures
            r == (if reservation < used {
                0
            } else {
                reservation - used
            }),
            final(self).tokens == saturated(
                if old(self).tokens < reservation {
                    0
                } else {
                    (old(self).tokens - reservation) as nat
                },
                used as nat,
            ),
            final(self).cost == old(self).cost,
    {
        self.tokens = self.tokens.saturating_sub(reservation).saturating_add(used);
        reservation.saturating_sub(used)
    }
}

/// What a run has reserved and then used is what it spent: reserving tokens and
/// reconciling them with what was used adds just what was used.
pub proof fn reconciling_leaves_what_was_used(before: u64, reservation: u64, used: u64)
    requires
        before + reservation <= u64::MAX,
        before + used <= u64::MAX,
    ensures
        saturated(((before + reservation) - reservation) as nat, used as nat) == before + used,
{
}

/// How long to wait before an event is written again, in seconds, for each of
/// six attempts.
pub fn event_backoff(attempt: u32) -> (r: Option<u64>)
    ensures
        attempt >= 6 ==> r is None,
        attempt == 0 ==> r == Some(1u64),
        attempt == 1 ==> r == Some(2u64),
        attempt == 2 ==> r == Some(4u64),
        attempt == 3 ==> r == Some(8u64),
        4 <= attempt < 6 ==> r == Some(10u64),
{
    if attempt == 0 {
        Some(1)
    } else if attempt == 1 {
        Some(2)
    } else if attempt == 2 {
        Some(4)
    } else if attempt == 3 {
        Some(8)
    } else if attempt < 6 {
        Some(10)
    } else {
        None
    }
}

} // verus!
