//! Coherence leases: a reader serves cached state only while every granter
//! has confirmed its lease, and a writer waits only for live leases.

pub mod coherence;
pub mod config;
pub mod reader;
pub mod safety;
pub mod shell;
pub mod wire;

pub use coherence::{CoherenceCore, CoherenceStep, WaitMember};
pub use config::{CoherenceOutcome, LeaseConfig, LeaseConfigError, LeaseState, CAP_LEASE};
pub use reader::{ClockMs, LeaseCore};
pub use shell::{LeaseView, Leases};
pub use wire::{
    decode_grants, decode_renewal, encode_grants, encode_renewal, GrantMap, RenewalId,
};
