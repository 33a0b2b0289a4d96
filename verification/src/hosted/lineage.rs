//! The lineage state machine: one ordered stream of the authority's writes
//! out of many peers' feeds.
//!
//! Two positions are kept apart: the adopted pair, who this node believes may
//! write now, and the cursor, the lineage epoch this subscriber has actually
//! delivered from and how far into it. A write below the cut or below the
//! cursor is dropped; one at the cursor is delivered if it comes from that
//! epoch's host; one above it opens a new lineage if it comes from the adopted
//! pair, is held if it is above the adopted epoch, and is dropped otherwise.

use crate::ids::NodeId;
use crate::peers::PeerWrite;
use crate::token::WriteToken;
use std::collections::VecDeque;
use vstd::prelude::*;

verus! {

/// How many above-the-watch events are held before the oldest is discarded. A
/// discarded one is covered by the gap that opens its lineage.
pub const HELD_CAP: usize = 1024;

/// One notification of a hosted group's write stream, with its hand-overs
/// named.
#[allow(inconsistent_fields)]
#[derive(Debug, Clone, PartialEq, Eq)]
pub enum HostedRead<K> {
    /// The lineage's host wrote `key` at `token`, whose epoch is the
    /// leadership epoch it was authored under.
    Wrote {
        /// The host that authored the write.
        host: NodeId,
        /// The write's position in that hostship's feed.
        token: WriteToken,
        /// The written key.
        key: K,
    },
    /// Writes of the lineage up to `missed_through` are not being delivered
    /// one by one. Remediate coarsely, then advance to `missed_through`.
    Gap {
        /// Every write of the lineage up to and with this token is covered by
        /// the remediation.
        missed_through: WriteToken,
    },
    /// This subscriber adopted a new `(epoch, host)` pair.
    Migrated {
        /// The leadership epoch now adopted.
        epoch: u64,
        /// Its host, or `None` when the group is believed hostless at it.
        host: Option<NodeId>,
    },
}

/// The lineage epoch this subscriber has actually delivered from.
#[derive(Debug)]
pub struct Open {
    /// The lineage's epoch.
    pub epoch: u64,
    /// Its host.
    pub host: NodeId,
    /// The next undelivered sequence within the epoch.
    pub next: u64,
}

/// What a lineage knows.
pub struct LineageState<K> {
    /// The leadership epoch adopted.
    pub adopted_epoch: u64,
    /// Its host.
    pub adopted_host: Option<NodeId>,
    /// The lineage delivered from.
    pub open: Option<Open>,
    /// What is decided and not yet taken.
    pub pending: Seq<HostedRead<K>>,
    /// What was authored above the adopted epoch.
    pub held: Seq<PeerWrite<K>>,
    /// How many gaps have been told.
    pub gaps: nat,
    /// Nothing authored below this epoch is delivered.
    pub floor: u64,
}

/// The next number after `seq`, at most the largest.
pub open spec fn after(seq: u64) -> u64 {
    if seq < u64::MAX {
        (seq + 1) as u64
    } else {
        u64::MAX
    }
}

/// The number before `seq`, at least zero.
pub open spec fn before(seq: u64) -> u64 {
    if seq > 0 {
        (seq - 1) as u64
    } else {
        0
    }
}

/// The peer an event is about.
pub open spec fn peer_of<K>(event: PeerWrite<K>) -> NodeId {
    match event {
        PeerWrite::Wrote { peer, token, key } => peer,
        PeerWrite::Gap { peer, missed_through } => peer,
    }
}

/// The position an event is about.
pub open spec fn token_of<K>(event: PeerWrite<K>) -> WriteToken {
    match event {
        PeerWrite::Wrote { peer, token, key } => token,
        PeerWrite::Gap { peer, missed_through } => missed_through,
    }
}

/// The position a notification is about, when it belongs to a lineage.
pub open spec fn position_of<K>(read: HostedRead<K>) -> Option<WriteToken> {
    match read {
        HostedRead::Wrote { host, token, key } => Some(token),
        HostedRead::Gap { missed_through } => Some(missed_through),
        HostedRead::Migrated { epoch, host } => None,
    }
}

/// The notifications that survive a cut at `epoch`: those of lineages from it
/// on, and every migration.
pub open spec fn reads_from<K>(reads: Seq<HostedRead<K>>, epoch: u64) -> Seq<HostedRead<K>>
    decreases reads.len(),
{
    if reads.len() == 0 {
        Seq::empty()
    } else {
        let init = reads_from(reads.drop_last(), epoch);
        let lives = match position_of(reads.last()) {
            Some(token) => token.epoch >= epoch,
            None => true,
        };
        if lives {
            init.push(reads.last())
        } else {
            init
        }
    }
}

/// The held events that survive a cut at `epoch`.
pub open spec fn events_from<K>(events: Seq<PeerWrite<K>>, epoch: u64) -> Seq<PeerWrite<K>>
    decreases events.len(),
{
    if events.len() == 0 {
        Seq::empty()
    } else {
        let init = events_from(events.drop_last(), epoch);
        if token_of(events.last()).epoch >= epoch {
            init.push(events.last())
        } else {
            init
        }
    }
}

/// Whether two beliefs about the host are the same.
pub open spec fn same_host(a: Option<NodeId>, b: Option<NodeId>) -> bool {
    match (a, b) {
        (Some(x), Some(y)) => x@ == y@,
        (None, None) => true,
        _ => false,
    }
}

impl<K> LineageState<K> {
    /// A subscriber that has adopted nothing.
    pub open spec fn fresh() -> LineageState<K> {
        LineageState {
            adopted_epoch: 0,
            adopted_host: None,
            open: None,
            pending: Seq::empty(),
            held: Seq::empty(),
            gaps: 0,
            floor: 0,
        }
    }

    /// With a gap told.
    pub open spec fn told_gap(self, missed_through: WriteToken) -> LineageState<K> {
        LineageState {
            pending: self.pending.push(HostedRead::Gap { missed_through }),
            gaps: self.gaps + 1,
            ..self
        }
    }

    /// With the cursor of the open lineage at `next`.
    pub open spec fn moved_to(self, next: u64) -> LineageState<K> {
        LineageState {
            open: match self.open {
                Some(open) => Some(Open { next, ..open }),
                None => None,
            },
            ..self
        }
    }

    /// After an event of the open lineage: a write already delivered and a
    /// gap already covered change nothing; a write past the cursor is
    /// preceded by the gap that covers what lies between.
    pub open spec fn delivered(self, event: PeerWrite<K>) -> LineageState<K> {
        match self.open {
            None => self,
            Some(open) => match event {
                PeerWrite::Wrote { peer, token, key } => if token.seq < open.next {
                    self
                } else {
                    let told = if token.seq > open.next {
                        self.told_gap(WriteToken { epoch: token.epoch, seq: before(token.seq) })
                    } else {
                        self
                    };
                    LineageState {
                        pending: told.pending.push(HostedRead::Wrote { host: peer, token, key }),
                        ..told
                    }.moved_to(after(token.seq))
                },
                PeerWrite::Gap { peer, missed_through } => if missed_through.seq < open.next {
                    self
                } else {
                    self.told_gap(missed_through).moved_to(after(missed_through.seq))
                },
            },
        }
    }

    /// After opening a lineage with its first visible event: one gap that
    /// covers everything below it, then the write itself.
    pub open spec fn opened_with(self, event: PeerWrite<K>) -> LineageState<K> {
        let first = match event {
            PeerWrite::Wrote { peer, token, key } => token.seq,
            PeerWrite::Gap { peer, missed_through } => after(missed_through.seq),
        };
        let epoch = token_of(event).epoch;
        let told = self.told_gap(WriteToken { epoch, seq: before(first) });
        let opened = LineageState {
            open: Some(Open { epoch, host: peer_of(event), next: first }),
            ..told
        };
        match event {
            PeerWrite::Wrote { peer, token, key } => opened.delivered(event),
            PeerWrite::Gap { peer, missed_through } => opened,
        }
    }

    /// With an event held, the oldest going when there is no room.
    pub open spec fn with_held(self, event: PeerWrite<K>) -> LineageState<K> {
        let kept = if self.held.len() >= HELD_CAP {
            self.held.subrange(1, self.held.len() as int)
        } else {
            self.held
        };
        LineageState { held: kept.push(event), ..self }
    }

    /// After judging one peer-write against the cut, the cursor and the
    /// adopted pair.
    pub open spec fn admitted(self, event: PeerWrite<K>) -> LineageState<K> {
        let epoch = token_of(event).epoch;
        let peer = peer_of(event);
        if epoch < self.floor {
            self
        } else if self.open is Some && epoch < (self.open->0).epoch {
            self
        } else if self.open is Some && epoch == (self.open->0).epoch {
            if peer@ == (self.open->0).host@ {
                self.delivered(event)
            } else {
                self
            }
        } else if epoch < self.adopted_epoch {
            self
        } else if epoch > self.adopted_epoch {
            self.with_held(event)
        } else if self.adopted_host is Some && (self.adopted_host->0)@ == peer@ {
            self.opened_with(event)
        } else {
            self
        }
    }

    /// After judging several, in order.
    pub open spec fn admitted_all(self, events: Seq<PeerWrite<K>>) -> LineageState<K>
        decreases events.len(),
    {
        if events.len() == 0 {
            self
        } else {
            self.admitted_all(events.drop_last()).admitted(events.last())
        }
    }

    /// After adopting a pair: nothing when it is the one already held; else it
    /// is announced and everything held is judged anew.
    pub open spec fn adopted(self, epoch: u64, host: Option<NodeId>) -> LineageState<K> {
        if epoch == self.adopted_epoch && same_host(host, self.adopted_host) {
            self
        } else {
            LineageState {
                adopted_epoch: epoch,
                adopted_host: host,
                pending: self.pending.push(HostedRead::Migrated { epoch, host }),
                held: Seq::empty(),
                ..self
            }.admitted_all(self.held)
        }
    }

    /// After closing every lineage below `epoch`.
    pub open spec fn cut(self, epoch: u64) -> LineageState<K> {
        if epoch <= self.floor {
            self
        } else {
            LineageState {
                floor: epoch,
                open: if self.open is Some && (self.open->0).epoch < epoch {
                    None
                } else {
                    self.open
                },
                pending: reads_from(self.pending, epoch),
                held: events_from(self.held, epoch),
                ..self
            }
        }
    }

    /// The position below which nothing is delivered any more: the cursor of
    /// the open lineage, or the cut.
    pub open spec fn edge(self) -> WriteToken {
        match self.open {
            Some(open) => WriteToken { epoch: open.epoch, seq: open.next },
            None => WriteToken { epoch: self.floor, seq: 0 },
        }
    }

    /// Whether the cut has been carried through: nothing open, queued or held
    /// stands below it, and no more is held than there is room for.
    pub open spec fn wf(self) -> bool {
        &&& self.open matches Some(open) ==> open.epoch >= self.floor
        &&& forall|i: int|
            0 <= i < self.pending.len() ==> (position_of(#[trigger] self.pending[i]) matches Some(
                token,
            ) ==> token.epoch >= self.floor)
        &&& forall|i: int|
            0 <= i < self.held.len() ==> token_of(#[trigger] self.held[i]).epoch >= self.floor
        &&& self.held.len() <= HELD_CAP
    }
}

/// Judging an event keeps what the cut promises, only ever appends to what is
/// queued, and tells at most one more gap.
pub proof fn admission_keeps_the_cut<K>(s: LineageState<K>, event: PeerWrite<K>)
    requires
        s.wf(),
    ensures
        s.admitted(event).wf(),
        s.admitted(event).floor == s.floor,
        s.admitted(event).gaps <= s.gaps + 1,
        s.pending.len() <= s.admitted(event).pending.len() <= s.pending.len() + 2,
        s.admitted(event).pending.subrange(0, s.pending.len() as int) == s.pending,
{
    let n = s.admitted(event);
    assert(n.pending.subrange(0, s.pending.len() as int) =~= s.pending);
    assert forall|i: int| 0 <= i < n.pending.len() implies (position_of(
        #[trigger] n.pending[i],
    ) matches Some(token) ==> token.epoch >= n.floor) by {
        if i < s.pending.len() {
            assert(n.pending[i] == s.pending[i]);
        }
    }
    assert forall|i: int| 0 <= i < n.held.len() implies token_of(#[trigger] n.held[i]).epoch
        >= n.floor by {
        if n.held != s.held {
            if s.held.len() >= HELD_CAP {
                if i < n.held.len() - 1 {
                    assert(n.held[i] == s.held[i + 1]);
                }
            } else if i < s.held.len() {
                assert(n.held[i] == s.held[i]);
            }
        }
    }
}

/// Writes are delivered in one strictly ascending epoch-major order, whoever
/// hosts: everything an event adds stands at or above the edge, the edge
/// never falls, and a delivered write stands below the edge it leaves behind.
pub proof fn delivery_only_ascends<K>(s: LineageState<K>, event: PeerWrite<K>, i: int)
    requires
        s.wf(),
        s.pending.len() <= i < s.admitted(event).pending.len(),
        token_of(event).seq < u64::MAX,
    ensures
        s.admitted(event).edge().covers(s.edge()),
        position_of(s.admitted(event).pending[i]) is Some,
        (s.admitted(event).pending[i] is Wrote) ==> (position_of(
            s.admitted(event).pending[i],
        )->0).covers(s.edge()),
        (position_of(s.admitted(event).pending[i])->0).below(s.admitted(event).edge()),
{
}

/// Judging and cutting never move the edge back.
pub proof fn the_edge_never_falls<K>(s: LineageState<K>, event: PeerWrite<K>, epoch: u64)
    requires
        s.wf(),
    ensures
        s.admitted(event).edge().covers(s.edge()),
        s.cut(epoch).edge().covers(s.edge()),
        s.cut(epoch).floor >= s.floor,
{
}

/// Every lineage opens with exactly one gap: whenever the open epoch changes,
/// the first thing told is a gap of the new epoch, which covers every token of
/// every earlier epoch, and what follows it is at most the lineage's first
/// write.
pub proof fn one_gap_opens_every_lineage<K>(s: LineageState<K>, event: PeerWrite<K>)
    requires
        s.admitted(event).open is Some,
        s.open is None || (s.open->0).epoch != (s.admitted(event).open->0).epoch,
    ensures
        s.admitted(event).gaps == s.gaps + 1,
        s.pending.len() < s.admitted(event).pending.len() <= s.pending.len() + 2,
        s.admitted(event).pending[s.pending.len() as int] matches HostedRead::Gap { missed_through }
            && missed_through.epoch == (s.admitted(event).open->0).epoch && (forall|t: WriteToken|
            t.epoch < (s.admitted(event).open->0).epoch ==> #[trigger] missed_through.covers(t)),
        s.admitted(event).pending.len() == s.pending.len() + 2 ==> s.admitted(
            event,
        ).pending[(s.pending.len() + 1) as int] is Wrote,
{
}

/// Only the adopted pair opens a lineage.
pub proof fn only_the_adopted_pair_opens<K>(s: LineageState<K>, event: PeerWrite<K>)
    requires
        s.admitted(event).open is Some,
        s.open is None || (s.open->0).epoch != (s.admitted(event).open->0).epoch,
    ensures
        (s.admitted(event).open->0).epoch == s.adopted_epoch,
        s.adopted_host is Some,
        (s.admitted(event).open->0).host@ == (s.adopted_host->0)@,
{
}

/// No hole is silent: a write delivered past the cursor of its lineage is
/// told right after the gap that covers everything between.
pub proof fn no_hole_is_silent<K>(s: LineageState<K>, peer: NodeId, token: WriteToken, key: K)
    requires
        s.open is Some,
        (s.open->0).epoch == token.epoch,
        (s.open->0).host@ == peer@,
        s.floor <= token.epoch,
        (s.open->0).next < token.seq,
    ensures
        ({
            let n = s.admitted(PeerWrite::Wrote { peer, token, key });
            &&& n.pending.len() == s.pending.len() + 2
            &&& n.pending[s.pending.len() as int] == HostedRead::<K>::Gap {
                missed_through: WriteToken { epoch: token.epoch, seq: (token.seq - 1) as u64 },
            }
            &&& n.pending[(s.pending.len() + 1) as int] == HostedRead::Wrote { host: peer, token, key }
        }),
{
}

/// The open lineage is told write by write: its next write as it is, with no
/// gap before it; one already told not again; and nobody's writes of its epoch
/// but its host's.
pub proof fn the_open_lineage_is_told_in_turn<K>(
    s: LineageState<K>,
    peer: NodeId,
    token: WriteToken,
    key: K,
)
    requires
        s.open is Some,
        (s.open->0).epoch == token.epoch,
        s.floor <= token.epoch,
        token.seq < u64::MAX,
    ensures
        ({
            let n = s.admitted(PeerWrite::Wrote { peer, token, key });
            let ours = (s.open->0).host@ == peer@;
            &&& ours && token.seq == (s.open->0).next ==> {
                &&& n.pending == s.pending.push(HostedRead::Wrote { host: peer, token, key })
                &&& n.gaps == s.gaps
            }
            &&& ours && token.seq >= (s.open->0).next ==> {
                &&& n.open is Some
                &&& (n.open->0).next == token.seq + 1
                &&& (n.open->0).epoch == (s.open->0).epoch
                &&& (n.open->0).host == (s.open->0).host
                &&& n.held == s.held
                &&& n.adopted_epoch == s.adopted_epoch
                &&& n.adopted_host == s.adopted_host
                &&& n.floor == s.floor
            }
            &&& !ours || token.seq < (s.open->0).next ==> n == s
        }),
{
}

/// A gap of the open lineage is passed on as it is and moves the cursor past
/// it, unless everything it covers was told already.
pub proof fn a_gap_is_passed_on<K>(s: LineageState<K>, peer: NodeId, missed_through: WriteToken)
    requires
        s.open is Some,
        (s.open->0).epoch == missed_through.epoch,
        (s.open->0).host@ == peer@,
        s.floor <= missed_through.epoch,
        missed_through.seq < u64::MAX,
    ensures
        ({
            let n = s.admitted(PeerWrite::Gap { peer, missed_through });
            &&& missed_through.seq >= (s.open->0).next ==> {
                &&& n.pending == s.pending.push(HostedRead::Gap { missed_through })
                &&& n.gaps == s.gaps + 1
                &&& n.open is Some
                &&& (n.open->0).next == missed_through.seq + 1
                &&& (n.open->0).epoch == missed_through.epoch
                &&& (n.open->0).host == (s.open->0).host
                &&& n.held == s.held
            }
            &&& missed_through.seq < (s.open->0).next ==> n == s
        }),
{
}

/// The adopted host's first write above the cursor opens its lineage: a gap up
/// to just before it, then the write, and the cursor after it. Nobody else
/// opens the adopted epoch.
pub proof fn the_adopted_host_opens_its_lineage<K>(
    s: LineageState<K>,
    peer: NodeId,
    token: WriteToken,
    key: K,
)
    requires
        s.open matches Some(open) ==> open.epoch < token.epoch,
        token.epoch == s.adopted_epoch,
        s.floor <= token.epoch,
        1 <= token.seq < u64::MAX,
    ensures
        ({
            let n = s.admitted(PeerWrite::Wrote { peer, token, key });
            if s.adopted_host is Some && (s.adopted_host->0)@ == peer@ {
                &&& n.pending == s.pending.push(
                    HostedRead::Gap {
                        missed_through: WriteToken {
                            epoch: token.epoch,
                            seq: (token.seq - 1) as u64,
                        },
                    },
                ).push(HostedRead::Wrote { host: peer, token, key })
                &&& n.gaps == s.gaps + 1
                &&& n.open == Some(
                    Open { epoch: token.epoch, host: peer, next: (token.seq + 1) as u64 },
                )
                &&& n.held == s.held
            } else {
                n == s
            }
        }),
{
}

/// The adopted host's gap above the cursor opens its lineage as well: the gap
/// is told, and the cursor stands after it.
pub proof fn a_gap_opens_its_lineage<K>(s: LineageState<K>, peer: NodeId, missed_through: WriteToken)
    requires
        s.open matches Some(open) ==> open.epoch < missed_through.epoch,
        missed_through.epoch == s.adopted_epoch,
        s.floor <= missed_through.epoch,
        missed_through.seq < u64::MAX,
        s.adopted_host is Some && (s.adopted_host->0)@ == peer@,
    ensures
        ({
            let n = s.admitted(PeerWrite::Gap { peer, missed_through });
            &&& n.pending == s.pending.push(HostedRead::Gap { missed_through })
            &&& n.gaps == s.gaps + 1
            &&& n.open == Some(
                Open {
                    epoch: missed_through.epoch,
                    host: peer,
                    next: (missed_through.seq + 1) as u64,
                },
            )
        }),
{
}

/// An event from above the adopted epoch waits for its pair: it is held last,
/// nothing is told, and only for want of room does the oldest one go.
pub proof fn what_is_ahead_is_held<K>(s: LineageState<K>, event: PeerWrite<K>)
    requires
        token_of(event).epoch > s.adopted_epoch,
        token_of(event).epoch >= s.floor,
        s.open matches Some(open) ==> open.epoch < token_of(event).epoch,
    ensures
        ({
            let n = s.admitted(event);
            &&& s.held.len() < 1024 ==> n.held == s.held.push(event)
            &&& s.held.len() == 1024 ==> n.held == s.held.subrange(1, 1024).push(event)
            &&& n == (LineageState { held: n.held, ..s })
        }),
{
}

/// The position an event is about is the write's own, or the last one a gap
/// covers; and it is about the peer that it comes from.
pub proof fn an_event_is_about_its_own_position<K>(peer: NodeId, token: WriteToken, key: K)
    ensures
        token_of(PeerWrite::Wrote { peer, token, key }) == token,
        peer_of(PeerWrite::Wrote { peer, token, key }) == peer,
        token_of(PeerWrite::<K>::Gap { peer, missed_through: token }) == token,
        peer_of(PeerWrite::<K>::Gap { peer, missed_through: token }) == peer,
        position_of(HostedRead::Wrote { host: peer, token, key }) == Some(token),
        position_of(HostedRead::<K>::Gap { missed_through: token }) == Some(token),
        position_of(HostedRead::<K>::Migrated { epoch: token.epoch, host: Some(peer) }) is None,
{
}

/// The gap count goes up by one with each gap that is told, and with nothing
/// else.
pub proof fn gaps_are_counted<K>(s: LineageState<K>, event: PeerWrite<K>)
    ensures
        ({
            let n = s.admitted(event);
            let first = s.pending.len() as int;
            &&& n.gaps == s.gaps + (if n.pending.len() > first && n.pending[first] is Gap {
                1int
            } else {
                0int
            })
            &&& forall|i: int|
                first < i < n.pending.len() ==> !((#[trigger] n.pending[i]) is Gap)
        }),
{
}

/// Adopting a new pair announces it and then judges what was held, each event
/// as if it came now and in the order it came in.
pub proof fn adoption_judges_what_was_held<K>(
    s: LineageState<K>,
    epoch: u64,
    host: Option<NodeId>,
    event: PeerWrite<K>,
)
    requires
        epoch != s.adopted_epoch || !same_host(host, s.adopted_host),
    ensures
        s.held.len() == 0 ==> s.adopted(epoch, host) == (LineageState {
            adopted_epoch: epoch,
            adopted_host: host,
            pending: s.pending.push(HostedRead::Migrated { epoch, host }),
            ..s
        }),
        (LineageState { held: s.held.push(event), ..s }).adopted(epoch, host) == s.adopted(
            epoch,
            host,
        ).admitted(event),
{
    assert(s.held.push(event).drop_last() =~= s.held);
    if s.held.len() == 0 {
        assert(s.held =~= Seq::<PeerWrite<K>>::empty());
    }
}

/// Two beliefs about the host differ when one names a host and the other does
/// not, or when they name different ones.
pub proof fn beliefs_differ_by_name(a: Option<NodeId>, b: Option<NodeId>)
    ensures
        same_host(None, None),
        a is Some && b is None ==> !same_host(a, b) && !same_host(b, a),
        a is Some && b is Some ==> (same_host(a, b) <==> (a->0)@ == (b->0)@),
{
}

/// A deposed host's late publish is dropped: nothing below the cursor's epoch,
/// below the cut, or of a hostship that was skipped, changes anything.
pub proof fn late_writes_die<K>(s: LineageState<K>, event: PeerWrite<K>)
    requires
        ({
            let epoch = token_of(event).epoch;
            ||| epoch < s.floor
            ||| s.open matches Some(open) && epoch < open.epoch
            ||| s.open is None && epoch < s.adopted_epoch
            ||| s.open matches Some(open) && open.epoch < epoch && epoch < s.adopted_epoch
        }),
    ensures
        s.admitted(event) == s,
{
}

/// A cut holds for good: it is monotone and idempotent, nothing queued or held
/// from below it survives, every migration does, and no event from below it
/// changes anything afterwards.
pub proof fn a_cut_is_final<K>(s: LineageState<K>, epoch: u64, again: u64, event: PeerWrite<K>)
    requires
        s.wf(),
    ensures
        s.cut(epoch).wf(),
        again <= epoch ==> s.cut(epoch).cut(again) == s.cut(epoch),
        s.cut(epoch).floor >= epoch,
        token_of(event).epoch < epoch ==> s.cut(epoch).admitted(event) == s.cut(epoch),
        migrations(s.cut(epoch).pending) == migrations(s.pending),
{
    lemma_reads_from(s.pending, epoch);
    lemma_events_from(s.held, epoch);
}

/// A cut takes exactly what stands below it: of the notifications queued those
/// of older lineages, of the events held the older ones, and the open lineage
/// if it is older. What stays keeps its order, and a cut at or below an
/// earlier one changes nothing.
pub proof fn a_cut_takes_what_stands_below<K>(
    s: LineageState<K>,
    epoch: u64,
    read: HostedRead<K>,
    event: PeerWrite<K>,
)
    ensures
        epoch <= s.floor ==> s.cut(epoch) == s,
        epoch > s.floor ==> {
            let longer = LineageState {
                pending: s.pending.push(read),
                held: s.held.push(event),
                ..s
            };
            let lives = match read {
                HostedRead::Wrote { host, token, key } => token.epoch >= epoch,
                HostedRead::Gap { missed_through } => missed_through.epoch >= epoch,
                HostedRead::Migrated { .. } => true,
            };
            &&& longer.cut(epoch).pending == (if lives {
                s.cut(epoch).pending.push(read)
            } else {
                s.cut(epoch).pending
            })
            &&& longer.cut(epoch).held == (if token_of(event).epoch >= epoch {
                s.cut(epoch).held.push(event)
            } else {
                s.cut(epoch).held
            })
            &&& s.pending.len() == 0 ==> s.cut(epoch).pending.len() == 0
            &&& s.held.len() == 0 ==> s.cut(epoch).held.len() == 0
            &&& s.cut(epoch).open == (if s.open is Some && (s.open->0).epoch >= epoch {
                s.open
            } else {
                None
            })
            &&& s.cut(epoch).floor == epoch
            &&& s.cut(epoch).gaps == s.gaps
            &&& s.cut(epoch).adopted_epoch == s.adopted_epoch
            &&& s.cut(epoch).adopted_host == s.adopted_host
        },
{
    assert(s.pending.push(read).drop_last() =~= s.pending);
    assert(s.held.push(event).drop_last() =~= s.held);
}

/// A cut tells nothing by itself.
pub proof fn nothing_is_cut_from_nothing<K>(s: LineageState<K>, epoch: u64)
    requires
        s.pending.len() == 0,
    ensures
        s.cut(epoch).pending.len() == 0,
{
}

/// What stands first and survives a cut still stands first.
pub proof fn a_cut_keeps_the_first<K>(reads: Seq<HostedRead<K>>, epoch: u64)
    requires
        reads.len() > 0,
        position_of(reads[0]) matches Some(token) ==> token.epoch >= epoch,
    ensures
        reads_from(reads, epoch).len() > 0,
        reads_from(reads, epoch)[0] == reads[0],
    decreases reads.len(),
{
    if reads.len() > 1 {
        a_cut_keeps_the_first(reads.drop_last(), epoch);
    } else {
        assert(reads_from(reads.drop_last(), epoch).len() == 0);
    }
}

/// The migrations among some notifications, in order.
pub open spec fn migrations<K>(reads: Seq<HostedRead<K>>) -> Seq<HostedRead<K>>
    decreases reads.len(),
{
    if reads.len() == 0 {
        Seq::empty()
    } else if reads.last() is Migrated {
        migrations(reads.drop_last()).push(reads.last())
    } else {
        migrations(reads.drop_last())
    }
}

proof fn lemma_reads_from<K>(reads: Seq<HostedRead<K>>, epoch: u64)
    ensures
        forall|i: int|
            0 <= i < reads_from(reads, epoch).len() ==> (position_of(
                #[trigger] reads_from(reads, epoch)[i],
            ) matches Some(token) ==> token.epoch >= epoch),
        migrations(reads_from(reads, epoch)) == migrations(reads),
    decreases reads.len(),
{
    if reads.len() > 0 {
        let init = reads.drop_last();
        lemma_reads_from(init, epoch);
        let kept = reads_from(init, epoch);
        let all = reads_from(reads, epoch);
        assert forall|i: int| 0 <= i < all.len() implies (position_of(
            #[trigger] all[i],
        ) matches Some(token) ==> token.epoch >= epoch) by {
            if i < kept.len() {
                assert(all[i] == kept[i]);
            }
        }
        if all.len() > kept.len() {
            assert(all.drop_last() =~= kept);
        }
    }
}

proof fn lemma_events_from<K>(events: Seq<PeerWrite<K>>, epoch: u64)
    ensures
        forall|i: int|
            0 <= i < events_from(events, epoch).len() ==> token_of(
                #[trigger] events_from(events, epoch)[i],
            ).epoch >= epoch,
        events_from(events, epoch).len() <= events.len(),
    decreases events.len(),
{
    if events.len() > 0 {
        let init = events.drop_last();
        lemma_events_from(init, epoch);
        let kept = events_from(init, epoch);
        let all = events_from(events, epoch);
        assert forall|i: int| 0 <= i < all.len() implies token_of(#[trigger] all[i]).epoch
            >= epoch by {
            if i < kept.len() {
                assert(all[i] == kept[i]);
            }
        }
    }
}

/// Adopting a pair keeps what the cut promises and only ever appends. A pair
/// that was not held already is announced ahead of everything it lets
/// through; one that was changes nothing.
pub proof fn adoption_keeps_the_cut<K>(s: LineageState<K>, epoch: u64, host: Option<NodeId>)
    requires
        s.wf(),
    ensures
        s.adopted(epoch, host).wf(),
        s.adopted(epoch, host).floor == s.floor,
        s.adopted(epoch, host).gaps <= s.gaps + s.held.len(),
        s.adopted(epoch, host).adopted_epoch == epoch,
        same_host(s.adopted(epoch, host).adopted_host, host),
        s.pending.is_prefix_of(s.adopted(epoch, host).pending),
        if epoch == s.adopted_epoch && same_host(host, s.adopted_host) {
            s.adopted(epoch, host) == s
        } else {
            s.pending.push(HostedRead::Migrated { epoch, host }).is_prefix_of(
                s.adopted(epoch, host).pending,
            )
        },
{
    if epoch == s.adopted_epoch && same_host(host, s.adopted_host) {
    } else {
        let start = LineageState {
            adopted_epoch: epoch,
            adopted_host: host,
            pending: s.pending.push(HostedRead::Migrated { epoch, host }),
            held: Seq::empty(),
            ..s
        };
        assert forall|i: int| 0 <= i < start.pending.len() implies (position_of(
            #[trigger] start.pending[i],
        ) matches Some(token) ==> token.epoch >= start.floor) by {
            if i < s.pending.len() {
                assert(start.pending[i] == s.pending[i]);
            }
        }
        lemma_all_admitted(start, s.held);
        assert(s.pending =~= s.adopted(epoch, host).pending.subrange(0, s.pending.len() as int)) by {
            let told = s.adopted(epoch, host).pending;
            assert forall|i: int| 0 <= i < s.pending.len() implies s.pending[i] == told[i] by {
                assert(start.pending[i] == told.subrange(0, start.pending.len() as int)[i]);
            }
        }
    }
}

proof fn lemma_all_admitted<K>(s: LineageState<K>, events: Seq<PeerWrite<K>>)
    requires
        s.wf(),
    ensures
        s.admitted_all(events).wf(),
        s.admitted_all(events).floor == s.floor,
        s.admitted_all(events).gaps <= s.gaps + events.len(),
        s.admitted_all(events).adopted_epoch == s.adopted_epoch,
        s.admitted_all(events).adopted_host == s.adopted_host,
        s.pending.is_prefix_of(s.admitted_all(events).pending),
    decreases events.len(),
{
    if events.len() > 0 {
        let before = s.admitted_all(events.drop_last());
        lemma_all_admitted(s, events.drop_last());
        admission_keeps_the_cut(before, events.last());
        let told = s.admitted_all(events).pending;
        assert(s.pending =~= told.subrange(0, s.pending.len() as int)) by {
            assert forall|i: int| 0 <= i < s.pending.len() implies s.pending[i] == told[i] by {
                assert(before.pending.subrange(0, s.pending.len() as int)[i] == before.pending[i]);
                assert(told.subrange(0, before.pending.len() as int)[i] == told[i]);
            }
        }
    } else {
        assert(s.pending =~= s.pending.subrange(0, s.pending.len() as int));
    }
}

/// Adopting a pair never moves the edge back, and adopting alone never closes
/// the lineage delivered from: a recovering host still drains its
/// predecessor's tail.
pub proof fn adoption_keeps_draining<K>(s: LineageState<K>, epoch: u64, host: Option<NodeId>)
    requires
        s.wf(),
    ensures
        s.adopted(epoch, host).edge().covers(s.edge()),
        s.held.len() == 0 ==> s.adopted(epoch, host).open == s.open,
{
    let start = LineageState {
        adopted_epoch: epoch,
        adopted_host: host,
        pending: s.pending.push(HostedRead::Migrated { epoch, host }),
        held: Seq::empty(),
        ..s
    };
    assert forall|i: int| 0 <= i < start.pending.len() implies (position_of(
        #[trigger] start.pending[i],
    ) matches Some(token) ==> token.epoch >= start.floor) by {
        if i < s.pending.len() {
            assert(start.pending[i] == s.pending[i]);
        }
    }
    lemma_all_edges(start, s.held);
}

proof fn lemma_all_edges<K>(s: LineageState<K>, events: Seq<PeerWrite<K>>)
    requires
        s.wf(),
    ensures
        s.admitted_all(events).edge().covers(s.edge()),
    decreases events.len(),
{
    if events.len() > 0 {
        let init = events.drop_last();
        lemma_all_edges(s, init);
        lemma_all_admitted(s, init);
        the_edge_never_falls(s.admitted_all(init), events.last(), 0);
    }
}

proof fn lemma_gaps_bound<K>(s: LineageState<K>, events: Seq<PeerWrite<K>>)
    ensures
        s.admitted_all(events).gaps <= s.gaps + events.len(),
    decreases events.len(),
{
    if events.len() > 0 {
        lemma_gaps_bound(s, events.drop_last());
    }
}

/// The lineage state machine: adopted pair, cursor, and the two queues.
#[derive(Debug)]
pub struct Lineage<K> {
    adopted_epoch: u64,
    adopted_host: Option<NodeId>,
    open: Option<Open>,
    pending: VecDeque<HostedRead<K>>,
    held: VecDeque<PeerWrite<K>>,
    gaps: u64,
    floor: u64,
}

impl<K> View for Lineage<K> {
    type V = LineageState<K>;

    closed spec fn view(&self) -> LineageState<K> {
        LineageState {
            adopted_epoch: self.adopted_epoch,
            adopted_host: self.adopted_host,
            open: self.open,
            pending: self.pending@,
            held: self.held@,
            gaps: self.gaps as nat,
            floor: self.floor,
        }
    }
}

impl<K> Lineage<K> {
    /// A subscriber that has adopted nothing, the belief every group starts
    /// with. One that has already elected is announced at the first adoption.
    pub fn new() -> (r: Lineage<K>)
        ensures
            r@ == LineageState::<K>::fresh(),
    {
        Lineage {
            adopted_epoch: 0,
            adopted_host: None,
            open: None,
            pending: VecDeque::new(),
            held: VecDeque::new(),
            gaps: 0,
            floor: 0,
        }
    }

    /// The next notification not yet taken.
    pub fn pop(&mut self) -> (r: Option<HostedRead<K>>)
        ensures
            match r {
                Some(read) => {
                    &&& old(self)@.pending.len() > 0
                    &&& read == old(self)@.pending[0]
                    &&& final(self)@ == (LineageState {
                        pending: old(self)@.pending.subrange(
                            1,
                            old(self)@.pending.len() as int,
                        ),
                        ..old(self)@
                    })
                },
                None => old(self)@.pending.len() == 0 && final(self)@ == old(self)@,
            },
    {
        self.pending.pop_front()
    }

    /// The `(epoch, host)` pair currently adopted.
    pub fn adopted(&self) -> (r: (u64, Option<NodeId>))
        ensures
            r == (self@.adopted_epoch, self@.adopted_host),
    {
        (self.adopted_epoch, crate::group::copied_host(&self.adopted_host))
    }

    /// How many gaps have been told.
    pub fn gaps_seen(&self) -> (r: u64)
        ensures
            r == self@.gaps,
    {
        self.gaps
    }

    /// How many events are held until their pair is adopted.
    pub fn held_len(&self) -> (r: usize)
        ensures
            r == self@.held.len(),
    {
        self.held.len()
    }

    /// Whether a lineage is open.
    pub fn is_open(&self) -> (r: bool)
        ensures
            r == (self@.open is Some),
    {
        self.open.is_some()
    }

    /// The epoch the last cut left behind.
    pub fn cut_at(&self) -> (r: u64)
        ensures
            r == self@.floor,
    {
        self.floor
    }

    /// Closes every lineage below `epoch`, telling nothing.
    pub fn cut(&mut self, epoch: u64)
        ensures
            final(self)@ == old(self)@.cut(epoch),
    {
        if epoch <= self.floor {
            return;
        }
        self.floor = epoch;
        let dead: bool = match &self.open {
            Some(open) => open.epoch < epoch,
            None => false,
        };
        if dead {
            self.open = None;
        }
        let mut pending: VecDeque<HostedRead<K>> = VecDeque::new();
        std::mem::swap(&mut pending, &mut self.pending);
        self.pending = retain_reads(pending, epoch);
        let mut held: VecDeque<PeerWrite<K>> = VecDeque::new();
        std::mem::swap(&mut held, &mut self.held);
        self.held = retain_events(held, epoch);
    }

    /// Adopts `(epoch, host)` if it differs from the pair already held,
    /// announcing it and judging everything that was waiting for it anew.
    pub fn adopt(&mut self, epoch: u64, host: Option<NodeId>)
        requires
            old(self)@.gaps + old(self)@.held.len() <= u64::MAX,
        ensures
            final(self)@ == old(self)@.adopted(epoch, host),
    {
        let same: bool = match (&host, &self.adopted_host) {
            (Some(a), Some(b)) => *a == *b,
            (None, None) => true,
            _ => false,
        };
        if epoch == self.adopted_epoch && same {
            return;
        }
        let ghost was = self@;
        self.adopted_epoch = epoch;
        self.adopted_host = crate::group::copied_host(&host);
        self.pending.push_back(HostedRead::Migrated { epoch, host });
        let mut held: VecDeque<PeerWrite<K>> = VecDeque::new();
        std::mem::swap(&mut held, &mut self.held);
        let ghost start = self@;
        let ghost events = held@;
        let ghost mut done: int = 0;
        proof {
            assert(start.held =~= Seq::empty());
            assert(events.subrange(0, 0) =~= Seq::empty());
            assert(events.subrange(0, events.len() as int) =~= events);
        }
        while held.len() > 0
            invariant
                0 <= done <= events.len(),
                held@ == events.subrange(done, events.len() as int),
                self@ == start.admitted_all(events.subrange(0, done)),
                start.gaps + events.len() <= u64::MAX,
            decreases held@.len(),
        {
            match held.pop_front() {
                Some(event) => {
                    proof {
                        lemma_gaps_bound(start, events.subrange(0, done));
                        let longer = events.subrange(0, done + 1);
                        assert(longer.drop_last() =~= events.subrange(0, done));
                        assert(longer.last() == event);
                    }
                    self.judge(event);
                    proof {
                        done = done + 1;
                        assert(held@ =~= events.subrange(done, events.len() as int));
                    }
                },
                None => {},
            }
        }
        proof {
            assert(events.subrange(0, done) =~= events);
        }
    }

    /// Judges one peer-write against the cut, the cursor and the adopted
    /// pair.
    pub fn judge(&mut self, event: PeerWrite<K>)
        requires
            old(self)@.gaps < u64::MAX,
        ensures
            final(self)@ == old(self)@.admitted(event),
    {
        let (peer, epoch): (NodeId, u64) = match &event {
            PeerWrite::Wrote { peer, token, key } => (peer.clone(), token.epoch),
            PeerWrite::Gap { peer, missed_through } => (peer.clone(), missed_through.epoch),
        };
        if epoch < self.floor {
            // This node serves above it: the whole lineage is dead.
            return;
        }
        if let Some(open) = &self.open {
            if epoch < open.epoch {
                // The deposed host's late publish dies here.
                return;
            }
            if epoch == open.epoch {
                if peer == open.host {
                    self.deliver(event);
                }
                return;
            }
        }
        // Above the cursor, or nothing delivered yet: only the adopted pair
        // may open a lineage, and only from the epoch the watch is at.
        if epoch < self.adopted_epoch {
            return;
        }
        if epoch > self.adopted_epoch {
            self.hold(event);
            return;
        }
        let from_host: bool = match &self.adopted_host {
            Some(host) => *host == peer,
            None => false,
        };
        if from_host {
            self.open_with(peer, epoch, event);
        }
    }

    fn open_with(&mut self, peer: NodeId, epoch: u64, event: PeerWrite<K>)
        requires
            old(self)@.gaps < u64::MAX,
            peer == peer_of(event),
            epoch == token_of(event).epoch,
        ensures
            final(self)@ == old(self)@.opened_with(event),
    {
        let first: u64 = match &event {
            PeerWrite::Wrote { peer, token, key } => token.seq,
            // A ring that has already overflowed: the first visible write is
            // the one after what was missed.
            PeerWrite::Gap { peer, missed_through } => missed_through.seq.saturating_add(1),
        };
        let missed_through = WriteToken { epoch, seq: first.saturating_sub(1) };
        self.pending.push_back(HostedRead::Gap { missed_through });
        self.gaps = self.gaps + 1;
        self.open = Some(Open { epoch, host: peer, next: first });
        // The opening gap already subsumes an inner one; a write is the
        // lineage's first.
        let is_write: bool = match &event {
            PeerWrite::Wrote { .. } => true,
            PeerWrite::Gap { .. } => false,
        };
        if is_write {
            self.deliver(event);
        }
    }

    fn deliver(&mut self, event: PeerWrite<K>)
        requires
            old(self)@.gaps < u64::MAX || (old(self)@.open matches Some(open) && event is Wrote
                && token_of(event).seq == open.next),
        ensures
            final(self)@ == old(self)@.delivered(event),
    {
        let next: u64 = match &self.open {
            Some(open) => open.next,
            None => return,
        };
        let advanced: u64 = match event {
            PeerWrite::Wrote { peer, token, key } => {
                if token.seq < next {
                    // Already delivered; the entry is state, not a log.
                    return;
                }
                if token.seq > next {
                    // A silent hole is the one thing that must never come out.
                    self.pending.push_back(
                        HostedRead::Gap {
                            missed_through: WriteToken { epoch: token.epoch, seq: token.seq - 1 },
                        },
                    );
                    self.gaps = self.gaps + 1;
                }
                self.pending.push_back(HostedRead::Wrote { host: peer, token, key });
                token.seq.saturating_add(1)
            },
            PeerWrite::Gap { peer, missed_through } => {
                if missed_through.seq < next {
                    // Covered by what has already been delivered.
                    return;
                }
                self.pending.push_back(HostedRead::Gap { missed_through });
                self.gaps = self.gaps + 1;
                missed_through.seq.saturating_add(1)
            },
        };
        let mut open: Option<Open> = None;
        std::mem::swap(&mut open, &mut self.open);
        self.open = match open {
            Some(o) => Some(Open { epoch: o.epoch, host: o.host, next: advanced }),
            None => None,
        };
    }

    fn hold(&mut self, event: PeerWrite<K>)
        ensures
            final(self)@ == old(self)@.with_held(event),
    {
        if self.held.len() >= HELD_CAP {
            let _oldest: Option<PeerWrite<K>> = self.held.pop_front();
        }
        self.held.push_back(event);
    }
}

fn retain_reads<K>(reads: VecDeque<HostedRead<K>>, epoch: u64) -> (r: VecDeque<HostedRead<K>>)
    ensures
        r@ == reads_from(reads@, epoch),
{
    let ghost all = reads@;
    let mut rest: VecDeque<HostedRead<K>> = reads;
    let mut out: VecDeque<HostedRead<K>> = VecDeque::new();
    let ghost mut done: int = 0;
    proof {
        assert(all.subrange(0, 0) =~= Seq::empty());
        assert(all.subrange(0, all.len() as int) =~= all);
    }
    while rest.len() > 0
        invariant
            0 <= done <= all.len(),
            rest@ == all.subrange(done, all.len() as int),
            out@ == reads_from(all.subrange(0, done), epoch),
        decreases rest@.len(),
    {
        match rest.pop_front() {
            Some(read) => {
                proof {
                    let longer = all.subrange(0, done + 1);
                    assert(longer.drop_last() =~= all.subrange(0, done));
                    assert(longer.last() == read);
                }
                let lives: bool = match &read {
                    HostedRead::Wrote { host, token, key } => token.epoch >= epoch,
                    HostedRead::Gap { missed_through } => missed_through.epoch >= epoch,
                    HostedRead::Migrated { epoch, host } => true,
                };
                if lives {
                    out.push_back(read);
                }
                proof {
                    done = done + 1;
                    assert(rest@ =~= all.subrange(done, all.len() as int));
                }
            },
            None => {},
        }
    }
    proof {
        assert(all.subrange(0, done) =~= all);
    }
    out
}

fn retain_events<K>(events: VecDeque<PeerWrite<K>>, epoch: u64) -> (r: VecDeque<PeerWrite<K>>)
    ensures
        r@ == events_from(events@, epoch),
{
    let ghost all = events@;
    let mut rest: VecDeque<PeerWrite<K>> = events;
    let mut out: VecDeque<PeerWrite<K>> = VecDeque::new();
    let ghost mut done: int = 0;
    proof {
        assert(all.subrange(0, 0) =~= Seq::empty());
        assert(all.subrange(0, all.len() as int) =~= all);
    }
    while rest.len() > 0
        invariant
            0 <= done <= all.len(),
            rest@ == all.subrange(done, all.len() as int),
            out@ == events_from(all.subrange(0, done), epoch),
        decreases rest@.len(),
    {
        match rest.pop_front() {
            Some(event) => {
                proof {
                    let longer = all.subrange(0, done + 1);
                    assert(longer.drop_last() =~= all.subrange(0, done));
                    assert(longer.last() == event);
                }
                let lives: bool = match &event {
                    PeerWrite::Wrote { peer, token, key } => token.epoch >= epoch,
                    PeerWrite::Gap { peer, missed_through } => missed_through.epoch >= epoch,
                };
                if lives {
                    out.push_back(event);
                }
                proof {
                    done = done + 1;
                    assert(rest@ =~= all.subrange(done, all.len() as int));
                }
            },
            None => {},
        }
    }
    proof {
        assert(all.subrange(0, done) =~= all);
    }
    out
}

} // verus!
