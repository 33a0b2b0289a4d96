//! Consistency for applications that ride on group gossip.
//!
//! Every node publishes small entries that gossip carries to the others. On
//! top of that sit, from the weakest promise to the strongest:
//!
//! - [`WriteFeed`] and [`PeerWrites`]: a bounded window of recent writes per
//!   node, followed by its peers in order, with an explicit gap wherever the
//!   window has moved on.
//! - [`Frontier`]: what has been applied, for read-your-writes barriers.
//! - [`acks`]: what every peer has applied, for writes that wait for all.
//! - [`floor`]: per-node sequence floors that gossip can only raise.
//! - [`lease`]: reads served from a cache while a lease is confirmed, and
//!   writes that wait for the holders of live leases.
//! - [`hosted`]: one host per leadership epoch, acknowledged writes that
//!   survive a migration, and snapshot handoff between hosts.
//!
//! The library performs no input or output and keeps no clock. It is given
//! what the group shows, what time it is and what has arrived, and it answers
//! with what to publish and what to do.

pub mod acks;
pub mod blob;
pub mod codec;
pub mod feed;
pub mod floor;
pub mod frontier;
pub mod group;
pub mod hosted;
pub mod idmap;
pub mod ids;
pub mod lease;
pub mod peers;
pub mod records;
pub mod session;
pub mod span;
pub mod text;
pub mod token;
pub mod watermarks;
pub mod wire;

pub use feed::WriteFeed;
pub use frontier::{Frontier, FrontierView};
pub use ids::{GroupId, NodeId};
pub use peers::{PeerWrite, PeerWrites};
pub use token::WriteToken;
