//! The `(epoch, seq)` write token: a write's place in one writer's feed.

use core::cmp::Ordering;
use vstd::prelude::*;

verus! {

/// A write's position in one writer's feed: the feed life (`epoch`) and the
/// sequence number within it. The ordering is epoch-major, so any token from
/// a newer life compares above every token from an older one.
#[derive(Debug, Clone, Copy, PartialEq, Eq, Structural, Ord, Hash)]
pub struct WriteToken {
    /// The feed life this write belongs to.
    pub epoch: u64,
    /// The write's sequence number within the epoch, starting at 1.
    pub seq: u64,
}

impl WriteToken {
    /// Whether this token stands strictly below `other` in the epoch-major
    /// order.
    pub open spec fn below(self, other: WriteToken) -> bool {
        self.epoch < other.epoch || (self.epoch == other.epoch && self.seq < other.seq)
    }

    /// Whether this token stands at or above `other`: the comparison every
    /// watermark makes.
    pub open spec fn covers(self, other: WriteToken) -> bool {
        !self.below(other)
    }

    /// The token below every other one.
    pub open spec fn origin() -> WriteToken {
        WriteToken { epoch: 0, seq: 0 }
    }
}

impl PartialOrd for WriteToken {
    fn partial_cmp(&self, other: &WriteToken) -> (r: Option<Ordering>) {
        if self.epoch < other.epoch {
            Some(Ordering::Less)
        } else if self.epoch > other.epoch {
            Some(Ordering::Greater)
        } else if self.seq < other.seq {
            Some(Ordering::Less)
        } else if self.seq > other.seq {
            Some(Ordering::Greater)
        } else {
            Some(Ordering::Equal)
        }
    }
}

impl vstd::std_specs::cmp::PartialOrdSpecImpl for WriteToken {
    open spec fn obeys_partial_cmp_spec() -> bool {
        true
    }

    open spec fn partial_cmp_spec(&self, other: &WriteToken) -> Option<Ordering> {
        if self.below(*other) {
            Some(Ordering::Less)
        } else if other.below(*self) {
            Some(Ordering::Greater)
        } else {
            Some(Ordering::Equal)
        }
    }
}

/// The later of two watermarks.
pub open spec fn later(a: WriteToken, b: WriteToken) -> WriteToken {
    if a.below(b) {
        b
    } else {
        a
    }
}

/// Tokens are totally ordered, epoch first: the newer life always wins, and
/// within one life the sequence number decides.
pub proof fn tokens_are_totally_ordered(a: WriteToken, b: WriteToken, c: WriteToken)
    ensures
        a.epoch < b.epoch ==> a.below(b),
        a.epoch == b.epoch ==> (a.below(b) <==> a.seq < b.seq),
        !a.below(a),
        a.below(b) && b.below(c) ==> a.below(c),
        a.below(b) || a == b || b.below(a),
        a.below(b) ==> !b.below(a),
{
}

/// One token covers another exactly when it is of a newer life, or of the same
/// life with a number no lower; and of two tokens the later one is one of
/// them, and covers both.
pub proof fn covering_is_the_order(a: WriteToken, b: WriteToken)
    ensures
        a.covers(b) <==> a.epoch > b.epoch || (a.epoch == b.epoch && a.seq >= b.seq),
        a.below(b) <==> a.epoch < b.epoch || (a.epoch == b.epoch && a.seq < b.seq),
        later(a, b) == a || later(a, b) == b,
        later(a, b).epoch >= a.epoch && later(a, b).epoch >= b.epoch,
        later(a, b).epoch == a.epoch ==> later(a, b).seq >= a.seq,
        later(a, b).epoch == b.epoch ==> later(a, b).seq >= b.seq,
{
}

/// Comparing two tokens compares the lives first and the numbers second.
pub proof fn comparing_is_epoch_major(a: WriteToken, b: WriteToken)
    ensures
        vstd::std_specs::cmp::PartialOrdSpec::partial_cmp_spec(&a, &b) == Some(Ordering::Less)
            <==> a.epoch < b.epoch || (a.epoch == b.epoch && a.seq < b.seq),
        vstd::std_specs::cmp::PartialOrdSpec::partial_cmp_spec(&a, &b) == Some(Ordering::Greater)
            <==> a.epoch > b.epoch || (a.epoch == b.epoch && a.seq > b.seq),
        vstd::std_specs::cmp::PartialOrdSpec::partial_cmp_spec(&a, &b) == Some(Ordering::Equal)
            <==> a.epoch == b.epoch && a.seq == b.seq,
        WriteToken::origin().epoch == 0 && WriteToken::origin().seq == 0,
        a.covers(WriteToken::origin()),
{
}

} // verus!
