//! Snapshot handoff: how a host that the feeds cannot catch up pulls a
//! covering image from a peer, and what is verified before any of it counts.
//!
//! One exchange on one stream: the requester asks for a set of watermarks,
//! the donor offers an image that covers them or refuses, streams it in
//! chunks and ends with the counts. The requester judges the offer for
//! staleness and coverage, and the end for the counts and, again, staleness.
//! Only then is the image installed.
//!
//! A staleness verdict proves that a donor is superseded. Its absence proves
//! nothing: two nodes inside one stale partition agree perfectly.

pub mod stream;
pub mod types;
pub mod verdicts;
pub mod wire;

pub use stream::{Handoff, Offered};
pub use types::{HandoffError, HandoffReceipt, RefusalCode};
pub use verdicts::{
    Coverage, DoneCheck, DoneCounts, HandoffCore, HandoffPhase, HandoffStep, Staleness,
};
pub use wire::is_request;
