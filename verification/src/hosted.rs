//! The hosted write path: one host per leadership epoch, writes acknowledged
//! at a chosen level, and a recovery rule between migrations.

pub mod commit;
pub mod delivery;
pub mod handoff;
pub mod ledger;
pub mod lineage;
pub mod reads;
pub mod recovery;
pub mod types;
pub mod writes;

pub use commit::{CommitCore, CommitVerdict};
pub use ledger::{
    commit_applied_by, commit_reading, commit_reading_named, CommitLedger, LedgerView, Reading,
};
pub use lineage::HostedRead;
pub use reads::HostedReads;
pub use recovery::{Completeness, CompletenessCore};
pub use types::{Commit, CommitOutcome, CommitReceipt, Fence, HostedError, CAP_HOSTED};
pub use writes::{hosted_feed_name, HostedSetupError, HostedWrites};

pub use crate::watermarks::Watermarks;
