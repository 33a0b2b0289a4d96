//! Applied-write watermarks and the read-your-writes barrier they enable.

use crate::idmap::IdMap;
use crate::ids::NodeId;
use crate::token::WriteToken;
use crate::watermarks::Watermarks;
use vstd::prelude::*;

verus! {

/// The writer half of the applied-write frontier.
///
/// The apply loop calls [`Frontier::advance`] after each peer write has
/// actually been applied. A barrier on a [`FrontierView`] taken from it then
/// means *applied*, not merely delivered.
#[derive(Debug)]
pub struct Frontier {
    applied: Watermarks,
}

/// The reader half: what had been applied at the instant it was taken.
#[derive(Debug)]
pub struct FrontierView {
    applied: Watermarks,
}

impl View for Frontier {
    type V = Map<Seq<char>, WriteToken>;

    closed spec fn view(&self) -> Map<Seq<char>, WriteToken> {
        self.applied@
    }
}

impl View for FrontierView {
    type V = Map<Seq<char>, WriteToken>;

    closed spec fn view(&self) -> Map<Seq<char>, WriteToken> {
        self.applied@
    }
}

/// Whether `peer`'s writes through `token` have been applied. A watermark of
/// a newer life reaches every token of an older one.
pub open spec fn reached(
    applied: Map<Seq<char>, WriteToken>,
    peer: Seq<char>,
    token: WriteToken,
) -> bool {
    applied.contains_key(peer) && applied[peer].covers(token)
}

/// Once a token is reached it stays reached, whatever is applied after; and
/// applying a token reaches it, with every token below it.
pub proof fn reached_stays_reached(
    applied: Map<Seq<char>, WriteToken>,
    peer: Seq<char>,
    token: WriteToken,
    other: Seq<char>,
    next: WriteToken,
)
    ensures
        reached(applied, peer, token) ==> reached(
            crate::watermarks::raised(applied, other, next),
            peer,
            token,
        ),
        next.covers(token) ==> reached(
            crate::watermarks::raised(applied, other, next),
            other,
            token,
        ),
{
}

/// What has been applied once the frontier has been advanced to each of
/// `advances` in turn.
pub open spec fn advanced(advances: Seq<(Seq<char>, WriteToken)>) -> Map<Seq<char>, WriteToken>
    decreases advances.len(),
{
    if advances.len() == 0 {
        Map::empty()
    } else {
        crate::watermarks::raised(
            advanced(advances.drop_last()),
            advances.last().0,
            advances.last().1,
        )
    }
}

/// A barrier is met once the frontier has been advanced, for that very peer,
/// to a token that covers it, and never before; advances of other peers and
/// lower tokens have no effect on it.
pub proof fn a_barrier_is_met_by_what_covers_it(
    advances: Seq<(Seq<char>, WriteToken)>,
    peer: Seq<char>,
    token: WriteToken,
)
    ensures
        reached(advanced(advances), peer, token) <==> exists|i: int|
            0 <= i < advances.len() && (#[trigger] advances[i]).0 == peer && advances[i].1.covers(
                token,
            ),
    decreases advances.len(),
{
    if advances.len() > 0 {
        let init = advances.drop_last();
        let n = advances.len() - 1;
        a_barrier_is_met_by_what_covers_it(init, peer, token);
        assert(advances[n] == advances.last());
        if exists|i: int|
            0 <= i < init.len() && (#[trigger] init[i]).0 == peer && init[i].1.covers(token) {
            let i = choose|i: int|
                0 <= i < init.len() && (#[trigger] init[i]).0 == peer && init[i].1.covers(token);
            assert(advances[i].0 == peer && advances[i].1.covers(token));
        }
        if exists|i: int|
            0 <= i < advances.len() && (#[trigger] advances[i]).0 == peer && advances[i].1.covers(
                token,
            ) {
            let i = choose|i: int|
                0 <= i < advances.len() && (#[trigger] advances[i]).0 == peer
                    && advances[i].1.covers(token);
            if i < n {
                assert(init[i].0 == peer && init[i].1.covers(token));
            }
        }
    }
}

impl Frontier {
    /// A fresh frontier, with nothing applied. Its readers take a
    /// [`snapshot`](Self::snapshot) whenever it has moved.
    pub fn new() -> (r: Frontier)
        ensures
            r@ == Map::<Seq<char>, WriteToken>::empty(),
    {
        Frontier { applied: IdMap::new() }
    }

    /// Marks `peer`'s writes as applied through `token`. Lower tokens are
    /// ignored.
    pub fn advance(&mut self, peer: &NodeId, token: WriteToken)
        ensures
            final(self)@ == crate::watermarks::raised(old(self)@, peer@, token),
    {
        let _moved: bool = crate::watermarks::raise(&mut self.applied, peer, token);
    }

    /// Marks as applied everything that `more` names.
    pub(crate) fn absorb(&mut self, more: &Watermarks)
        ensures
            final(self)@ == crate::watermarks::merged(old(self)@, more@),
    {
        crate::watermarks::merge(&mut self.applied, more);
    }

    /// What has been applied by now.
    pub fn snapshot(&self) -> (r: FrontierView)
        ensures
            r@ == self@,
    {
        FrontierView { applied: self.applied.clone() }
    }
}

impl FrontierView {
    /// Whether `peer`'s writes through `token` have been applied. A watermark
    /// of a newer epoch satisfies older-epoch tokens: the frontier only
    /// enters a new epoch through gap remediation, which covered the previous
    /// life.
    pub fn reached(&self, peer: &NodeId, token: WriteToken) -> (r: bool)
        ensures
            r == reached(self@, peer@, token),
    {
        match self.applied.get_copy(peer) {
            Some(t) => t >= token,
            None => false,
        }
    }

    /// One look of a barrier that waits: `Some(true)` once `peer`'s writes
    /// through `token` have been applied, `Some(false)` when they have not and
    /// the frontier is gone, and `None` while the wait goes on.
    pub fn awaited(&self, peer: &NodeId, token: WriteToken, gone: bool) -> (r: Option<bool>)
        ensures
            r == (if reached(self@, peer@, token) {
                Some(true)
            } else if gone {
                Some(false)
            } else {
                None
            }),
    {
        if self.reached(peer, token) {
            Some(true)
        } else if gone {
            Some(false)
        } else {
            None
        }
    }
}

impl Clone for FrontierView {
    fn clone(&self) -> (r: FrontierView)
        ensures
            r@ == self@,
    {
        FrontierView { applied: self.applied.clone() }
    }
}

/// A token is reached exactly when something of its writer has been applied
/// that is of a later life, or of the same life and no lower.
pub proof fn reaching_is_standing_no_lower(
    applied: Map<Seq<char>, WriteToken>,
    peer: Seq<char>,
    token: WriteToken,
)
    ensures
        reached(applied, peer, token) <==> applied.contains_key(peer) && (applied[peer].epoch
            > token.epoch || (applied[peer].epoch == token.epoch && applied[peer].seq
            >= token.seq)),
{
}

} // verus!
