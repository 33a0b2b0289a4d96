//! The read half: [`HostedReads`], a subscriber to the group's hosted lineage
//! rather than to a peer.

use crate::group::{GroupView, Leadership};
use crate::hosted::lineage::{HostedRead, Lineage, LineageState};
use crate::ids::NodeId;
use crate::peers::{PeerWrite, PeerWrites, PeersView, Signal, Wake};
use vstd::prelude::*;

verus! {

/// What one turn of the subscriber comes to.
#[derive(Debug, PartialEq, Eq)]
pub enum Turn<K> {
    /// A notification of the lineage.
    Event(HostedRead<K>),
    /// Nothing to tell yet: wait for a peer write or a leadership signal.
    Wait,
    /// The group is gone and everything queued has been handed out.
    Gone,
}

/// Whether a signal asks the subscriber to read the leadership anew
/// (`Some(true)`), tells it that the group is gone (`Some(false)`), or is
/// none of its business.
pub fn leadership_signal(signal: &Signal) -> (r: Option<bool>)
    ensures
        r == (match *signal {
            Signal::LeadershipChanged => Some(true),
            Signal::Lagged => Some(true),
            Signal::Closed => Some(false),
            _ => None::<bool>,
        }),
{
    match signal {
        Signal::LeadershipChanged => Some(true),
        Signal::Lagged => Some(true),
        Signal::Closed => Some(false),
        _ => None,
    }
}

/// Subscriber half of a hosted write path: the group's authority as one
/// ordered stream, with migrations named.
#[verifier::reject_recursive_types(K)]
pub struct HostedReads<K, F: Fn(&[u8]) -> Option<K>> {
    inner: PeerWrites<K, F>,
    lineage: Lineage<K>,
    bound: bool,
    closed: bool,
}

/// What the subscriber knows.
pub struct ReadsView<K> {
    /// Where it stands in its peers' feeds.
    pub peers: PeersView<K>,
    /// The lineage.
    pub lineage: LineageState<K>,
    /// Whether it is bound to a write path, whose service cuts its lineage.
    pub bound: bool,
    /// Whether the group is gone.
    pub closed: bool,
}

impl<K> ReadsView<K> {
    /// The lineage once the leadership has been read and the service of this
    /// node, at `serving`, has cut what it outlived. Only a bound subscriber
    /// is cut.
    pub open spec fn settled(self, lead: Leadership, serving: u64) -> LineageState<K> {
        let adopted = self.lineage.adopted(lead.epoch, lead.host);
        if self.bound {
            adopted.cut(serving)
        } else {
            adopted
        }
    }

    /// Whether one turn tells `turn` and leaves the subscriber as `after`.
    pub open spec fn turned(
        self,
        lead: Leadership,
        serving: u64,
        turn: Turn<K>,
        after: ReadsView<K>,
    ) -> bool {
        let settled = self.settled(lead, serving);
        match turn {
            Turn::Event(read) => {
                &&& settled.pending.len() > 0
                &&& read == settled.pending[0]
                &&& after == (ReadsView {
                    lineage: LineageState {
                        pending: settled.pending.subrange(1, settled.pending.len() as int),
                        ..settled
                    },
                    ..self
                })
            },
            Turn::Gone => settled.pending.len() == 0 && self.closed && after == (ReadsView {
                lineage: settled,
                ..self
            }),
            Turn::Wait => settled.pending.len() == 0 && !self.closed && after == (ReadsView {
                lineage: settled,
                ..self
            }),
        }
    }
}

/// A turn hands out what was decided first: what is queued and not cut comes
/// before anything else, then the news of a new leadership. Only when there is
/// neither is there nothing to tell, and then the group is gone exactly when
/// it was closed.
pub proof fn a_turn_tells_what_was_decided_first<K>(
    reads: ReadsView<K>,
    lead: Leadership,
    serving: u64,
    turn: Turn<K>,
    after: ReadsView<K>,
)
    requires
        reads.lineage.wf(),
        reads.turned(lead, serving, turn, after),
    ensures
        ({
            let s = reads.lineage;
            let news = lead.epoch != s.adopted_epoch || !crate::hosted::lineage::same_host(
                lead.host,
                s.adopted_host,
            );
            let first = HostedRead::<K>::Migrated { epoch: lead.epoch, host: lead.host };
            &&& s.pending.len() > 0 && (!reads.bound || (crate::hosted::lineage::position_of(
                s.pending[0],
            ) matches Some(token) ==> token.epoch >= serving)) ==> turn == Turn::Event(s.pending[0])
            &&& s.pending.len() == 0 && news ==> turn == Turn::Event(first)
            &&& s.pending.len() == 0 && !news ==> turn == (if reads.closed {
                Turn::<K>::Gone
            } else {
                Turn::<K>::Wait
            })
            &&& turn is Gone ==> reads.closed
            &&& turn is Wait ==> !reads.closed
            &&& after.lineage.adopted_epoch == lead.epoch
            &&& crate::hosted::lineage::same_host(after.lineage.adopted_host, lead.host)
            &&& after.peers == reads.peers
            &&& after.bound == reads.bound
            &&& after.closed == reads.closed
            &&& reads.bound ==> after.lineage.floor >= serving
        }),
{
    let s = reads.lineage;
    crate::hosted::lineage::adoption_keeps_the_cut(s, lead.epoch, lead.host);
    let adopted = s.adopted(lead.epoch, lead.host);
    let settled = reads.settled(lead, serving);
    let first = HostedRead::<K>::Migrated { epoch: lead.epoch, host: lead.host };
    if s.pending.len() > 0 {
        assert(adopted.pending.subrange(0, s.pending.len() as int)[0] == adopted.pending[0]);
        if reads.bound && serving > s.floor && (crate::hosted::lineage::position_of(
            s.pending[0],
        ) matches Some(token) ==> token.epoch >= serving) {
            crate::hosted::lineage::a_cut_keeps_the_first(adopted.pending, serving);
        }
    } else if lead.epoch != s.adopted_epoch || !crate::hosted::lineage::same_host(
        lead.host,
        s.adopted_host,
    ) {
        let told = s.pending.push(first);
        assert(adopted.pending.subrange(0, told.len() as int)[0] == adopted.pending[0]);
        assert(told[0] == first);
        if reads.bound && serving > s.floor {
            crate::hosted::lineage::a_cut_keeps_the_first(adopted.pending, serving);
        }
    } else {
        crate::hosted::lineage::nothing_is_cut_from_nothing(adopted, serving);
    }
}

impl<K, F: Fn(&[u8]) -> Option<K>> View for HostedReads<K, F> {
    type V = ReadsView<K>;

    closed spec fn view(&self) -> ReadsView<K> {
        ReadsView {
            peers: self.inner@,
            lineage: self.lineage@,
            bound: self.bound,
            closed: self.closed,
        }
    }
}

impl<K, F: Fn(&[u8]) -> Option<K>> HostedReads<K, F> {
    /// How the subscriber reads a key.
    pub closed spec fn decoder(&self) -> F {
        self.inner.decoder()
    }

    /// Subscribes to the default hosted write path as `me`, whose own feed is
    /// ignored.
    pub fn new(group: &GroupView, me: NodeId, decode: F) -> (r: HostedReads<K, F>)
        requires
            forall|peer: Seq<char>| #[trigger]
                crate::peers::countable(
                    *group,
                    peer,
                    crate::hosted::writes::feed_key(Seq::empty()),
                ),
        ensures
            r.decoder() == decode,
            r@ == fresh_reads::<K>(*group, me@, Seq::empty()),
    {
        proof {
            reveal_strlit("");
            assert(""@ =~= Seq::<char>::empty());
        }
        HostedReads::named("", group, me, decode)
    }

    /// [`new`](Self::new) for a named write path.
    pub fn named(name: &str, group: &GroupView, me: NodeId, decode: F) -> (r: HostedReads<K, F>)
        requires
            forall|peer: Seq<char>| #[trigger]
                crate::peers::countable(*group, peer, crate::hosted::writes::feed_key(name@)),
        ensures
            r.decoder() == decode,
            r@ == fresh_reads::<K>(*group, me@, name@),
    {
        let feed: String = crate::hosted::writes::hosted_feed_name(name);
        HostedReads {
            inner: PeerWrites::named(feed.as_str(), group, me, decode),
            lineage: Lineage::new(),
            bound: false,
            closed: false,
        }
    }

    /// Closes every lineage below `epoch`: nothing authored under an earlier
    /// hostship is delivered again, and whatever was queued from one is
    /// dropped unread.
    pub fn cut_below(&mut self, epoch: u64)
        ensures
            final(self).decoder() == old(self).decoder(),
            final(self)@ == (ReadsView {
                lineage: old(self)@.lineage.cut(epoch),
                ..old(self)@
            }),
    {
        self.lineage.cut(epoch);
    }

    /// Binds this subscriber to a write path: from now on its turns are taken
    /// next to that path, whose service cuts them.
    pub(crate) fn bind_service(&mut self)
        ensures
            final(self).decoder() == old(self).decoder(),
            final(self)@ == (ReadsView { bound: true, ..old(self)@ }),
    {
        self.bound = true;
    }

    /// The `(epoch, host)` pair this subscriber has adopted.
    pub fn adopted(&self) -> (r: (u64, Option<NodeId>))
        ensures
            r == (self@.lineage.adopted_epoch, self@.lineage.adopted_host),
    {
        self.lineage.adopted()
    }

    /// How many gaps this subscriber has told.
    pub fn gaps_seen(&self) -> (r: u64)
        ensures
            r == self@.lineage.gaps,
    {
        self.lineage.gaps_seen()
    }

    /// How many gaps its peers' feeds have shown.
    pub fn peer_gaps_seen(&self) -> (r: u64)
        ensures
            r == self@.peers.gaps_seen,
    {
        self.inner.gaps_seen()
    }

    /// One turn of a subscriber that is bound to no write path: the leadership
    /// is adopted before anything is handed out. One that is bound takes its
    /// turns through [`HostedWrites::turn`](crate::hosted::HostedWrites::turn).
    pub fn next(&mut self, lead: &Leadership) -> (r: Turn<K>)
        requires
            !old(self)@.bound,
            old(self)@.lineage.gaps + old(self)@.lineage.held.len() <= u64::MAX,
        ensures
            final(self).decoder() == old(self).decoder(),
            old(self)@.turned(*lead, 0, r, final(self)@),
    {
        self.turn_at(lead, 0)
    }

    /// One turn next to a write path that serves at `serving`: the leadership
    /// is adopted, and a bound subscriber is cut, before anything is handed
    /// out.
    pub(crate) fn turn_at(&mut self, lead: &Leadership, serving: u64) -> (r: Turn<K>)
        requires
            old(self)@.lineage.gaps + old(self)@.lineage.held.len() <= u64::MAX,
        ensures
            final(self).decoder() == old(self).decoder(),
            old(self)@.turned(*lead, serving, r, final(self)@),
    {
        self.lineage.adopt(lead.epoch, crate::group::copied_host(&lead.host));
        if self.bound {
            self.lineage.cut(serving);
        }
        match self.lineage.pop() {
            Some(read) => Turn::Event(read),
            None => if self.closed {
                Turn::Gone
            } else {
                Turn::Wait
            },
        }
    }

    /// Takes one peer-write, when there is one, and judges it.
    pub fn take_peer_write(&mut self) -> (r: bool)
        requires
            old(self)@.lineage.gaps < u64::MAX,
        ensures
            final(self).decoder() == old(self).decoder(),
            final(self)@.bound == old(self)@.bound,
            final(self)@.closed == old(self)@.closed,
            r == (old(self)@.peers.pending.len() > 0),
            r ==> {
                &&& final(self)@.lineage == old(self)@.lineage.admitted(
                    old(self)@.peers.pending[0],
                )
                &&& final(self)@.peers == (PeersView {
                    pending: old(self)@.peers.pending.subrange(
                        1,
                        old(self)@.peers.pending.len() as int,
                    ),
                    ..old(self)@.peers
                })
            },
            !r ==> final(self)@ == old(self)@,
    {
        match self.inner.next() {
            Some(event) => {
                self.lineage.judge(event);
                true
            },
            None => false,
        }
    }

    /// What `signal` asks of the peer-write half.
    pub fn wake(&self, signal: &Signal) -> (r: Wake)
        ensures
            r == crate::peers::wake_for(self@.peers.me, self@.peers.key, *signal),
    {
        self.inner.wake(signal)
    }

    /// Looks at what one node publishes.
    pub fn scan(&mut self, group: &GroupView, node: &NodeId)
        requires
            forall|s: &[u8]| call_requires(old(self).decoder(), (s,)),
            crate::peers::countable(*group, node@, old(self)@.peers.key),
            old(self)@.peers.gaps_seen < u64::MAX,
        ensures
            final(self).decoder() == old(self).decoder(),
            final(self)@ == (ReadsView { peers: final(self)@.peers, ..old(self)@ }),
            crate::peers::scan_step(
                old(self).decoder(),
                *group,
                *node,
                old(self)@.peers,
                final(self)@.peers,
            ),
    {
        self.inner.scan(group, node);
    }

    /// Looks at what every member publishes.
    pub fn scan_all(&mut self, group: &GroupView)
        requires
            forall|s: &[u8]| call_requires(old(self).decoder(), (s,)),
            forall|i: int|
                0 <= i < group.members@.len() ==> crate::peers::countable(
                    *group,
                    (#[trigger] group.members@[i])@,
                    old(self)@.peers.key,
                ),
            old(self)@.peers.gaps_seen + group.members@.len() <= u64::MAX,
        ensures
            final(self).decoder() == old(self).decoder(),
            final(self)@ == (ReadsView { peers: final(self)@.peers, ..old(self)@ }),
            exists|trail: Seq<PeersView<K>>| #[trigger]
                crate::peers::scan_trail(old(self).decoder(), *group, group.members@, trail)
                    && trail[0] == old(self)@.peers && trail.last() == final(self)@.peers,
    {
        let ghost decode = self.inner.decoder();
        proof {
            assert(self.decoder() == decode);
            assert forall|s: &[u8]| call_requires(decode, (s,)) by {
                assert(call_requires(self.decoder(), (s,)));
            }
        }
        self.inner.scan_all(group);
    }

    /// The group is gone: what is queued is still handed out first.
    pub fn close(&mut self)
        ensures
            final(self).decoder() == old(self).decoder(),
            final(self)@ == (ReadsView { closed: true, ..old(self)@ }),
    {
        self.closed = true;
    }
}

/// A subscriber that has just been made.
pub open spec fn fresh_reads<K>(group: GroupView, me: Seq<char>, name: Seq<char>) -> ReadsView<K> {
    let key = crate::hosted::writes::feed_key(name);
    ReadsView {
        peers: PeersView {
            me,
            key,
            cursors: crate::peers::starting_cursors(group, me, key),
            pending: Seq::empty(),
            gaps_seen: 0,
        },
        lineage: LineageState::fresh(),
        bound: false,
        closed: false,
    }
}

/// A bound subscriber of a node that serves at an epoch is never handed an
/// event of an older hostship: its service cuts before every hand-out. What
/// the lineage promises of its cut is kept.
pub proof fn a_serving_host_never_reads_its_predecessor<K>(
    reads: ReadsView<K>,
    lead: Leadership,
    serving: u64,
    turn: Turn<K>,
    after: ReadsView<K>,
)
    requires
        reads.lineage.wf(),
        reads.turned(lead, serving, turn, after),
    ensures
        after.lineage.wf(),
        reads.bound ==> after.lineage.floor >= serving,
        reads.bound ==> (turn matches Turn::Event(read)
            ==> crate::hosted::lineage::position_of(read) matches Some(token) ==> token.epoch
            >= serving),
{
    let adopted = reads.lineage.adopted(lead.epoch, lead.host);
    crate::hosted::lineage::adoption_keeps_the_cut(reads.lineage, lead.epoch, lead.host);
    let event = PeerWrite::<K>::Gap {
        peer: arbitrary(),
        missed_through: arbitrary(),
    };
    crate::hosted::lineage::a_cut_is_final(adopted, serving, serving, event);
    let settled = reads.settled(lead, serving);
    assert forall|i: int| 0 <= i < after.lineage.pending.len() implies (
    crate::hosted::lineage::position_of(#[trigger] after.lineage.pending[i]) matches Some(token)
        ==> token.epoch >= after.lineage.floor) by {
        if turn is Event {
            assert(after.lineage.pending[i] == settled.pending[i + 1]);
        }
    }
}

/// A fresh subscriber first hears who leads, if anyone ever has; it reads the
/// entry that a write path of the same name publishes under.
pub proof fn a_fresh_subscriber_hears_who_leads<K>(
    group: GroupView,
    me: Seq<char>,
    name: Seq<char>,
    lead: Leadership,
    turn: Turn<K>,
    after: ReadsView<K>,
)
    requires
        fresh_reads::<K>(group, me, name).turned(lead, 0, turn, after),
    ensures
        fresh_reads::<K>(group, me, name).peers.key == crate::wire::scoped_key(
            crate::wire::ENTRY_KEY@,
            crate::wire::scoped_key(crate::hosted::writes::FEED_NAME@, name),
        ),
        fresh_reads::<K>(group, me, name).peers.me == me,
        lead.epoch == 0 && lead.host is None ==> turn == Turn::<K>::Wait,
        lead.epoch > 0 || lead.host is Some ==> turn == Turn::Event(
            HostedRead::<K>::Migrated { epoch: lead.epoch, host: lead.host },
        ),
{
    a_turn_tells_what_was_decided_first(fresh_reads::<K>(group, me, name), lead, 0, turn, after);
}

} // verus!
