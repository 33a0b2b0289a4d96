//! The vocabulary of the hosted write path.

use crate::ids::NodeId;
use crate::token::WriteToken;
use core::cmp::Ordering;
use vstd::prelude::*;

verus! {

/// The capability a node advertises to declare that it takes part in the
/// hosted write path: that it runs the follower loop and publishes a commit
/// ledger.
pub const CAP_HOSTED: &'static str = "hosted";

/// When a hosted write may be acknowledged.
#[derive(Debug, Clone, Copy, PartialEq, Eq, Structural, Hash)]
pub enum Commit {
    /// Once the host applied it. A migration may lose the acknowledged tail.
    Local,
    /// Once a majority of the static voter roster has applied it: the commit
    /// majority and any later recovery majority intersect, so no write
    /// acknowledged at this level is lost across a migration.
    QuorumApplied,
    /// Once every selected member believed alive has applied it.
    AllApplied,
}

/// The fencing token: the `(epoch, host)` pair that names one hostship. Fences
/// compare epoch-major; the host is the name.
#[derive(Debug, Hash)]
pub struct Fence {
    /// The leadership epoch this hostship was activated at.
    pub epoch: u64,
    /// The node hosting at that epoch.
    pub host: NodeId,
}

impl Fence {
    /// Whether this fence stands strictly below `other`: an older epoch, or
    /// the same with a smaller host name.
    pub open spec fn below(self, other: Fence) -> bool {
        self.epoch < other.epoch || (self.epoch == other.epoch && crate::ids::id_below(
            self.host@,
            other.host@,
        ))
    }

    /// `epoch:host`, a compact form for a header, a lock record or a log line.
    pub fn message(&self) -> (r: String)
        ensures
            r@ == crate::text::decimal(self.epoch as nat) + seq![':'] + self.host@,
    {
        let mut out: String = String::new();
        crate::text::put_decimal(&mut out, self.epoch);
        proof {
            reveal_strlit(":");
        }
        out.append(":");
        out.append(self.host.as_str());
        proof {
            assert(out@ =~= crate::text::decimal(self.epoch as nat) + seq![':'] + self.host@);
        }
        out
    }
}

impl Clone for Fence {
    fn clone(&self) -> (r: Fence)
        ensures
            r == *self,
    {
        Fence { epoch: self.epoch, host: self.host.clone() }
    }
}

impl PartialEq for Fence {
    fn eq(&self, other: &Fence) -> (r: bool) {
        self.epoch == other.epoch && self.host == other.host
    }
}

impl vstd::std_specs::cmp::PartialEqSpecImpl for Fence {
    open spec fn obeys_eq_spec() -> bool {
        true
    }

    open spec fn eq_spec(&self, other: &Fence) -> bool {
        self.epoch == other.epoch && self.host@ == other.host@
    }
}

impl Eq for Fence {

}

impl PartialOrd for Fence {
    fn partial_cmp(&self, other: &Fence) -> (r: Option<Ordering>) {
        if self.epoch < other.epoch {
            Some(Ordering::Less)
        } else if self.epoch > other.epoch {
            Some(Ordering::Greater)
        } else if self.host.precedes(&other.host) {
            Some(Ordering::Less)
        } else if other.host.precedes(&self.host) {
            Some(Ordering::Greater)
        } else {
            Some(Ordering::Equal)
        }
    }
}

impl vstd::std_specs::cmp::PartialOrdSpecImpl for Fence {
    open spec fn obeys_partial_cmp_spec() -> bool {
        true
    }

    open spec fn partial_cmp_spec(&self, other: &Fence) -> Option<Ordering> {
        if self.epoch < other.epoch {
            Some(Ordering::Less)
        } else if self.epoch > other.epoch {
            Some(Ordering::Greater)
        } else if crate::ids::id_below(self.host@, other.host@) {
            Some(Ordering::Less)
        } else if crate::ids::id_below(other.host@, self.host@) {
            Some(Ordering::Greater)
        } else {
            Some(Ordering::Equal)
        }
    }
}

/// Fences are totally ordered, epoch first.
pub proof fn fences_are_totally_ordered(a: Fence, b: Fence, c: Fence)
    ensures
        a.epoch < b.epoch ==> a.below(b),
        a.epoch == b.epoch ==> (a.below(b) <==> crate::ids::id_below(a.host@, b.host@)),
        !a.below(a),
        a.below(b) && b.below(c) ==> a.below(c),
        a.below(b) || b.below(a) || (a.epoch == b.epoch && a.host@ == b.host@),
{
    crate::ids::nodes_are_totally_ordered(a.host@, b.host@, c.host@);
}

/// Comparing two fences compares the epochs first and the hosts' names second.
pub proof fn comparing_fences_is_epoch_major(a: Fence, b: Fence)
    ensures
        vstd::std_specs::cmp::PartialOrdSpec::partial_cmp_spec(&a, &b) == Some(Ordering::Less)
            <==> a.epoch < b.epoch || (a.epoch == b.epoch && crate::ids::id_below(
            a.host@,
            b.host@,
        )),
        vstd::std_specs::cmp::PartialOrdSpec::partial_cmp_spec(&a, &b) == Some(Ordering::Equal)
            <==> a.epoch == b.epoch && a.host@ == b.host@,
{
    crate::ids::nodes_are_totally_ordered(a.host@, b.host@, a.host@);
    crate::ids::nodes_are_totally_ordered(b.host@, a.host@, b.host@);
}

/// Why a hosted write could not be attempted. Every variant is a refusal
/// before the write entered the feed.
#[derive(Debug, Clone, PartialEq, Eq)]
pub enum HostedError {
    /// This node is not the host of `epoch`. `host` is where to redirect the
    /// caller; with no host the group is believed hostless at this epoch.
    NotHost {
        /// The epoch this node has adopted.
        epoch: u64,
        /// The host of that epoch, when there is one.
        host: Option<NodeId>,
    },
    /// This node was the host and has been fenced out.
    Deposed {
        /// The epoch this node was deposed from.
        epoch: u64,
    },
    /// This node is the host and is not serving yet.
    Recovering,
    /// The group's inbox refused the write.
    Rejected,
}

impl HostedError {
    /// What went wrong, in words.
    pub open spec fn text(self) -> Seq<char> {
        match self {
            HostedError::NotHost { epoch, host } => match host {
                Some(host) => "not the host at epoch "@ + crate::text::decimal(epoch as nat)
                    + ": "@ + host@ + " is"@,
                None => "no host at epoch "@ + crate::text::decimal(epoch as nat),
            },
            HostedError::Deposed { epoch } => "deposed from epoch "@ + crate::text::decimal(
                epoch as nat,
            ),
            HostedError::Recovering => "host is recovering: not serving at this epoch yet"@,
            HostedError::Rejected => "the group actor's inbox refused the write"@,
        }
    }

    /// What went wrong, in words.
    pub fn message(&self) -> (r: String)
        ensures
            r@ == self.text(),
    {
        match self {
            HostedError::NotHost { epoch, host } => match host {
                Some(host) => {
                    let mut out: String = "not the host at epoch ".to_owned();
                    crate::text::put_decimal(&mut out, *epoch);
                    out.append(": ");
                    out.append(host.as_str());
                    out.append(" is");
                    out
                },
                None => {
                    let mut out: String = "no host at epoch ".to_owned();
                    crate::text::put_decimal(&mut out, *epoch);
                    out
                },
            },
            HostedError::Deposed { epoch } => {
                let mut out: String = "deposed from epoch ".to_owned();
                crate::text::put_decimal(&mut out, *epoch);
                out
            },
            HostedError::Recovering =>
                "host is recovering: not serving at this epoch yet".to_owned(),
            HostedError::Rejected => "the group actor's inbox refused the write".to_owned(),
        }
    }
}

/// How a hosted write ended, once it was published.
#[derive(Debug, Clone, PartialEq, Eq)]
pub enum CommitOutcome {
    /// The level's threshold was met.
    Committed,
    /// The caller's deadline passed with the threshold unmet: no commit
    /// guarantee holds.
    TimedOut {
        /// The members still being waited on when the deadline passed, in
        /// node order.
        waiting_on: Vec<NodeId>,
    },
    /// The host was fenced out before the threshold was met: treat it as not
    /// committed.
    Deposed {
        /// The epoch the write was published under.
        epoch: u64,
    },
}

impl CommitOutcome {
    /// Whether the write's commit level was honoured.
    pub fn is_committed(&self) -> (r: bool)
        ensures
            r == (self is Committed),
    {
        match self {
            CommitOutcome::Committed => true,
            _ => false,
        }
    }
}

/// What a hosted write returns: the token it was published under, and how it
/// ended.
#[derive(Debug, Clone, PartialEq, Eq)]
pub struct CommitReceipt {
    /// The write's position in the host's feed; its epoch is the leadership
    /// epoch.
    pub token: WriteToken,
    /// How the write ended.
    pub outcome: CommitOutcome,
}

impl CommitReceipt {
    /// Whether the write's commit level was honoured.
    pub fn is_committed(&self) -> (r: bool)
        ensures
            r == (self.outcome is Committed),
    {
        self.outcome.is_committed()
    }
}

} // verus!
