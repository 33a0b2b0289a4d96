//! The tuning of a lease set, and the answers the tier gives.

use crate::ids::NodeId;
use core::time::Duration;
use vstd::prelude::*;

verus! {

/// The capability a node advertises to declare that it takes part in the
/// coherence-lease tier: that it grants readers' leases, and that it blocks
/// its own coherent writes on them.
pub const CAP_LEASE: &'static str = "leases";

/// The tuning of one lease set: how long a lease lasts, how often it is
/// renewed, and how much of it the reader gives back for clock-rate skew.
#[derive(Debug, Clone, Copy, PartialEq, Eq)]
pub struct LeaseConfig {
    /// How long a granted serve-lease lasts: the writer's worst-case stall on
    /// a silent peer, and the reader's window between confirmations.
    pub duration: Duration,
    /// How often the reader republishes its renewal.
    pub renew_every: Duration,
    /// Reader-side safety margin taken off every serve window.
    pub rate_margin: Duration,
}

/// Why a [`LeaseConfig`] cannot be honoured as written.
#[derive(Debug, Clone, Copy, PartialEq, Eq, Structural)]
pub enum LeaseConfigError {
    /// `duration` rounds to zero milliseconds.
    DurationTooShort,
    /// `renew_every` is zero, or past half of `duration`.
    RenewalCadence,
    /// `rate_margin` is at or past `duration`: no serve window can ever open.
    MarginTooLarge,
}

impl LeaseConfigError {
    /// What is wrong, in words.
    pub open spec fn text(self) -> Seq<char> {
        match self {
            LeaseConfigError::DurationTooShort => "lease duration rounds to zero milliseconds"@,
            LeaseConfigError::RenewalCadence =>
                "renew_every must be non-zero and at most half the lease duration"@,
            LeaseConfigError::MarginTooLarge => "rate_margin leaves no serve window"@,
        }
    }

    /// What is wrong, in words.
    pub fn message(&self) -> (r: String)
        ensures
            r@ == self.text(),
    {
        match self {
            LeaseConfigError::DurationTooShort =>
                "lease duration rounds to zero milliseconds".to_owned(),
            LeaseConfigError::RenewalCadence =>
                "renew_every must be non-zero and at most half the lease duration".to_owned(),
            LeaseConfigError::MarginTooLarge => "rate_margin leaves no serve window".to_owned(),
        }
    }
}

/// Milliseconds, raised off zero: a zero life would mean "never expires".
pub open spec fn at_least_one(ms: u64) -> u64 {
    if ms == 0 {
        1
    } else {
        ms
    }
}

/// The verdict on a tuning, over its three spans in nanoseconds.
pub open spec fn verdict(duration: nat, renew_every: nat, rate_margin: nat) -> Result<
    (),
    LeaseConfigError,
> {
    if duration / 1_000_000 == 0 {
        Err(LeaseConfigError::DurationTooShort)
    } else if renew_every == 0 || renew_every * 2 > duration {
        Err(LeaseConfigError::RenewalCadence)
    } else if rate_margin >= duration {
        Err(LeaseConfigError::MarginTooLarge)
    } else {
        Ok(())
    }
}

impl Default for LeaseConfig {
    /// A two-second lease renewed every 666 ms with a 20 ms margin.
    fn default() -> (r: LeaseConfig)
        ensures
            crate::span::span_nanos(r.duration) == 2_000_000_000,
            crate::span::span_nanos(r.renew_every) == 666_666_666,
            crate::span::span_nanos(r.rate_margin) == 20_000_000,
    {
        LeaseConfig::for_duration(crate::span::from_ms(2_000))
    }
}

impl LeaseConfig {
    /// The derived tuning for a lease of `duration`: renewed every third of
    /// it, with a margin of a hundredth, at least five milliseconds.
    pub fn for_duration(duration: Duration) -> (r: LeaseConfig)
        ensures
            r.duration == duration,
            crate::span::span_nanos(r.renew_every) == crate::span::span_nanos(duration) / 3,
            crate::span::span_nanos(r.rate_margin) == (if crate::span::span_nanos(duration) / 100
                >= 5_000_000 {
                crate::span::span_nanos(duration) / 100
            } else {
                5_000_000
            }),
    {
        let hundredth: Duration = crate::span::divided(duration, 100);
        let least: Duration = crate::span::from_ms(5);
        LeaseConfig {
            duration,
            renew_every: crate::span::divided(duration, 3),
            rate_margin: if crate::span::as_nanos(hundredth) >= crate::span::as_nanos(least) {
                hundredth
            } else {
                least
            },
        }
    }

    /// Whether this tuning is inside the envelope the tier can honour. One
    /// outside of it still runs, in the fail-closed direction.
    pub fn validate(&self) -> (r: Result<(), LeaseConfigError>)
        ensures
            r == verdict(
                crate::span::span_nanos(self.duration),
                crate::span::span_nanos(self.renew_every),
                crate::span::span_nanos(self.rate_margin),
            ),
    {
        let duration: u128 = crate::span::as_nanos(self.duration);
        let renew_every: u128 = crate::span::as_nanos(self.renew_every);
        let rate_margin: u128 = crate::span::as_nanos(self.rate_margin);
        if duration / 1_000_000 == 0 {
            return Err(LeaseConfigError::DurationTooShort);
        }
        if renew_every == 0 || renew_every > duration || renew_every > duration - renew_every {
            return Err(LeaseConfigError::RenewalCadence);
        }
        if rate_margin >= duration {
            return Err(LeaseConfigError::MarginTooLarge);
        }
        Ok(())
    }

    /// The lease duration in milliseconds.
    pub open spec fn duration_in_ms(self) -> u64 {
        at_least_one(crate::span::clamp(crate::span::span_ms(self.duration)))
    }

    /// The rate margin in milliseconds.
    pub open spec fn margin_in_ms(self) -> u64 {
        crate::span::clamp(crate::span::span_ms(self.rate_margin))
    }

    /// The lease duration in milliseconds, never zero.
    pub fn duration_ms(&self) -> (r: u64)
        ensures
            r == self.duration_in_ms(),
    {
        let ms: u64 = crate::span::clamp_ms(self.duration);
        if ms == 0 {
            1
        } else {
            ms
        }
    }

    /// The renewal interval in milliseconds, never zero.
    pub fn renew_every_ms(&self) -> (r: u64)
        ensures
            r == at_least_one(crate::span::clamp(crate::span::span_ms(self.renew_every))),
    {
        let ms: u64 = crate::span::clamp_ms(self.renew_every);
        if ms == 0 {
            1
        } else {
            ms
        }
    }

    /// The rate margin in milliseconds. Zero is allowed.
    pub fn rate_margin_ms(&self) -> (r: u64)
        ensures
            r == self.margin_in_ms(),
    {
        crate::span::clamp_ms(self.rate_margin)
    }
}

/// The tuning derived for any duration of more than five milliseconds, the
/// least margin, is inside its own envelope.
pub proof fn derived_tunings_are_valid(duration: nat)
    requires
        duration > 5_000_000,
    ensures
        verdict(
            duration,
            duration / 3,
            if duration / 100 >= 5_000_000 {
                duration / 100
            } else {
                5_000_000
            },
        ) == Ok::<(), LeaseConfigError>(()),
{
}

/// A tuning can be honoured exactly when the lease lasts a whole millisecond,
/// is renewed at least twice within its duration and keeps some of it after
/// the margin. Of several faults the first of these is told.
pub proof fn what_a_tuning_must_meet(duration: nat, renew_every: nat, rate_margin: nat)
    ensures
        ({
            let lasts = duration >= 1_000_000;
            let renews = renew_every > 0 && renew_every + renew_every <= duration;
            let opens = rate_margin < duration;
            let r = verdict(duration, renew_every, rate_margin);
            &&& r is Ok <==> lasts && renews && opens
            &&& r == Err::<(), LeaseConfigError>(LeaseConfigError::DurationTooShort) <==> !lasts
            &&& r == Err::<(), LeaseConfigError>(LeaseConfigError::RenewalCadence) <==> lasts
                && !renews
            &&& r == Err::<(), LeaseConfigError>(LeaseConfigError::MarginTooLarge) <==> lasts
                && renews && !opens
        }),
{
}

/// Spans are counted in whole milliseconds, the rest dropped; a duration is
/// never none.
pub proof fn spans_are_whole_milliseconds(cfg: LeaseConfig, ms: u64)
    ensures
        ms * 1_000_000 <= crate::span::span_nanos(cfg.duration) < (ms + 1) * 1_000_000 && ms >= 1
            ==> cfg.duration_in_ms() == ms,
        crate::span::span_nanos(cfg.duration) < 1_000_000 ==> cfg.duration_in_ms() == 1,
        ms * 1_000_000 <= crate::span::span_nanos(cfg.rate_margin) < (ms + 1) * 1_000_000
            ==> cfg.margin_in_ms() == ms,
{
}

/// Whether a reader may serve cached state, and why not when it may not.
#[derive(Debug, Clone, Copy, PartialEq, Eq, Structural, Hash)]
pub enum LeaseState {
    /// A confirmed lease covers this instant and the consumer is caught up.
    Serving,
    /// The serve window ran out: told once per lapse, as an alarm edge.
    Lapsed,
    /// Not serving until the consumer re-synchronizes and affirms it.
    NeedsResync,
}

/// How a coherent write ended.
#[derive(Debug, Clone, PartialEq, Eq)]
pub enum CoherenceOutcome {
    /// Every lease-holder applied the write.
    AllApplied,
    /// Some members never acknowledged, but their serve-leases have expired:
    /// they are out of service until they re-synchronize.
    LeaseLapsed {
        /// The members excused by lapse rather than acknowledgement.
        stragglers: Vec<NodeId>,
    },
    /// The caller's deadline passed while lease-holders were still live and
    /// still behind. No coherence guarantee holds.
    TimedOut {
        /// The members still being waited on when the deadline passed.
        waiting_on: Vec<NodeId>,
    },
}

impl CoherenceOutcome {
    /// Whether the tier's guarantee holds for this write.
    pub fn is_coherent(&self) -> (r: bool)
        ensures
            r == !(self is TimedOut),
    {
        match self {
            CoherenceOutcome::TimedOut { .. } => false,
            _ => true,
        }
    }
}

} // verus!
