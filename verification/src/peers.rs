//! Subscriber half: [`PeerWrites`], turning peers' feed changes into ordered
//! [`PeerWrite`] events.

use crate::group::GroupView;
use crate::idmap::IdMap;
use crate::ids::NodeId;
use crate::token::WriteToken;
use crate::wire::{Frame, FrameView};
use std::collections::VecDeque;
use vstd::prelude::*;

verus! {

/// The head a frame advertises: the token of its last key.
pub open spec fn head_of(frame: Option<FrameView>) -> Option<WriteToken> {
    match frame {
        None => None,
        Some(f) => if f.keys.len() == 0 {
            None
        } else {
            Some(WriteToken { epoch: f.epoch, seq: (f.end() - 1) as u64 })
        },
    }
}

/// The frame `peer` publishes under `key`, when one can be read.
pub open spec fn frame_of(group: GroupView, peer: Seq<char>, key: Seq<char>) -> Option<FrameView> {
    match group.entry(peer, key) {
        None => None,
        Some(bytes) => crate::wire::parse_frame(bytes),
    }
}

/// Whether the sequence numbers of the frame that `peer` publishes under
/// `key` can all be counted.
pub open spec fn countable(group: GroupView, peer: Seq<char>, key: Seq<char>) -> bool {
    frame_of(group, peer, key) matches Some(f) ==> f.end() <= u64::MAX
}

fn read_frame(group: &GroupView, peer: &NodeId, key: &str) -> (r: Option<Frame>)
    ensures
        match r {
            Some(f) => frame_of(*group, peer@, key@) == Some(f@),
            None => frame_of(*group, peer@, key@) is None,
        },
{
    match group.node_entry(peer, key) {
        None => None,
        Some(bytes) => Frame::decode(bytes),
    }
}

/// Tests whether the numbers of the frame that `peer` publishes under `key`
/// can all be counted: what every reader of the frame asks for.
pub fn is_countable(group: &GroupView, peer: &NodeId, key: &str) -> (r: bool)
    ensures
        r == countable(*group, peer@, key@),
{
    match read_frame(group, peer, key) {
        None => true,
        Some(f) => {
            let room: u64 = u64::MAX - f.first_seq;
            f.keys.len() as u64 <= room
        },
    }
}

/// The head token `peer`'s default feed currently advertises: its most
/// recently published write, or `None` when the peer has no readable feed or
/// none yet.
pub fn advertised_head(group: &GroupView, peer: &NodeId) -> (r: Option<WriteToken>)
    requires
        countable(*group, peer@, crate::wire::ENTRY_KEY@),
    ensures
        r == head_of(frame_of(*group, peer@, crate::wire::ENTRY_KEY@)),
{
    proof {
        reveal_strlit("");
    }
    advertised_head_named("", group, peer)
}

/// [`advertised_head`] for a named feed.
pub fn advertised_head_named(name: &str, group: &GroupView, peer: &NodeId) -> (r: Option<WriteToken>)
    requires
        countable(*group, peer@, crate::wire::scoped_key(crate::wire::ENTRY_KEY@, name@)),
    ensures
        r == head_of(
            frame_of(*group, peer@, crate::wire::scoped_key(crate::wire::ENTRY_KEY@, name@)),
        ),
{
    let key: String = crate::wire::entry_key(name);
    match read_frame(group, peer, key.as_str()) {
        None => None,
        Some(frame) => {
            let end: u64 = frame.end();
            if end > frame.first_seq {
                Some(WriteToken { epoch: frame.epoch, seq: end - 1 })
            } else {
                None
            }
        },
    }
}

/// One peer-write notification from [`PeerWrites::next`].
#[derive(Debug, Clone, PartialEq, Eq)]
pub enum PeerWrite<K> {
    /// `peer` wrote `key` at `token`. Apply it, then advance the frontier to
    /// `token`.
    Wrote {
        /// The node that performed the write.
        peer: NodeId,
        /// The write's position in `peer`'s feed.
        token: WriteToken,
        /// The written key.
        key: K,
    },
    /// Writes of `peer` up to `missed_through` were provably missed: its ring
    /// advanced past this subscriber, or it restarted into a new epoch.
    /// Remediate coarsely, then advance the frontier to `missed_through`.
    Gap {
        /// The node whose writes were missed.
        peer: NodeId,
        /// Every write of `peer` up to and with this token is covered by the
        /// remediation.
        missed_through: WriteToken,
    },
}

/// A subscriber's position in one peer's feed.
#[derive(Debug, Clone, Copy)]
pub struct Cursor {
    /// The feed life.
    pub epoch: u64,
    /// The next unseen sequence number within `epoch`.
    pub next: u64,
}

/// How a subscriber catches up with a frame.
pub struct CatchUp {
    /// What was missed, when something was.
    pub gap: Option<WriteToken>,
    /// The first sequence number to deliver.
    pub from: u64,
    /// Where the subscriber stands afterwards.
    pub cursor: Cursor,
}

/// How a subscriber at `cursor` catches up with `f`; not at all with a frame
/// of an older life. A peer never seen before starts at the front of its
/// window.
pub open spec fn catch_up(cursor: Option<Cursor>, f: FrameView) -> Option<CatchUp> {
    let at = match cursor {
        Some(c) => c,
        None => Cursor { epoch: f.epoch, next: f.first_seq },
    };
    if f.epoch < at.epoch {
        None
    } else {
        let missed = f.epoch > at.epoch || at.next < f.first_seq;
        let from = if missed {
            f.first_seq
        } else {
            at.next
        };
        Some(
            CatchUp {
                gap: if missed {
                    Some(
                        WriteToken {
                            epoch: f.epoch,
                            seq: if f.first_seq == 0 {
                                0
                            } else {
                                (f.first_seq - 1) as u64
                            },
                        },
                    )
                } else {
                    None
                },
                from,
                cursor: Cursor {
                    epoch: f.epoch,
                    next: if from < f.end() {
                        f.end() as u64
                    } else {
                        from
                    },
                },
            },
        )
    }
}

/// The keys of `f` from the sequence number `from` on.
pub open spec fn keys_from(f: FrameView, from: u64) -> Seq<Seq<u8>> {
    if from < f.end() {
        f.keys.subrange(from - f.first_seq, f.keys.len() as int)
    } else {
        Seq::empty()
    }
}

/// The events for keys that decoded as `decoded`, numbered from `from` on: one
/// for each that decoded, in order.
pub open spec fn wrote<K>(peer: NodeId, epoch: u64, from: int, decoded: Seq<Option<K>>) -> Seq<
    PeerWrite<K>,
>
    decreases decoded.len(),
{
    if decoded.len() == 0 {
        Seq::empty()
    } else {
        let init = wrote(peer, epoch, from, decoded.drop_last());
        match decoded.last() {
            Some(key) => init.push(
                PeerWrite::Wrote {
                    peer,
                    token: WriteToken { epoch, seq: (from + decoded.len() - 1) as u64 },
                    key,
                },
            ),
            None => init,
        }
    }
}

/// Whether `out` is what `decode` makes of `key`.
pub open spec fn decodes_one<K, F: Fn(&[u8]) -> Option<K>>(
    decode: F,
    key: Seq<u8>,
    out: Option<K>,
) -> bool {
    exists|s: &[u8]| #![trigger s@] s@ == key && call_ensures(decode, (s,), out)
}

/// Whether `decoded` is what `decode` makes of `keys`, one by one.
pub open spec fn decodes<K, F: Fn(&[u8]) -> Option<K>>(
    decode: F,
    keys: Seq<Seq<u8>>,
    decoded: Seq<Option<K>>,
) -> bool {
    &&& decoded.len() == keys.len()
    &&& forall|i: int|
        0 <= i < keys.len() ==> decodes_one(decode, keys[i], #[trigger] decoded[i])
}

/// No write is silently skipped: everything the writer advertises at or past
/// the cursor, of the cursor's life, of the frame's or of any between, is
/// delivered or covered by the gap that is told.
pub proof fn no_write_is_silently_skipped(cursor: Cursor, f: FrameView, t: WriteToken)
    requires
        f.end() <= u64::MAX,
        catch_up(Some(cursor), f) is Some,
        t.covers((WriteToken { epoch: cursor.epoch, seq: cursor.next })),
        t.epoch < f.epoch || (t.epoch == f.epoch && t.seq < f.end()),
    ensures
        ({
            let c = catch_up(Some(cursor), f)->0;
            ||| c.gap matches Some(missed) && missed.covers(t)
            ||| t.epoch == f.epoch && c.from <= t.seq && t.seq - c.from < keys_from(f, c.from).len()
                && keys_from(f, c.from)[t.seq - c.from] == f.keys[t.seq - f.first_seq]
        }),
{
}

/// Catching up never moves a subscriber backwards, and catching up with the
/// same frame again tells nothing and moves nothing.
pub proof fn catching_up_is_monotone_and_settles(cursor: Option<Cursor>, f: FrameView)
    requires
        f.end() <= u64::MAX,
        catch_up(cursor, f) is Some,
    ensures
        ({
            let c = catch_up(cursor, f)->0;
            &&& cursor matches Some(was) ==> (WriteToken {
                epoch: c.cursor.epoch,
                seq: c.cursor.next,
            }).covers((WriteToken { epoch: was.epoch, seq: was.next }))
            &&& catch_up(Some(c.cursor), f) == Some(
                CatchUp { gap: None, from: c.cursor.next, cursor: c.cursor },
            )
            &&& keys_from(f, c.cursor.next).len() == 0
        }),
{
}

/// History is not replayed: a subscriber that starts at the end of the feed it
/// finds is told nothing of what stands in it, and it starts so in the feed of
/// every peer that shows one. A feed that appears later is told from the front
/// of its window, with no gap before it.
pub proof fn history_is_not_replayed(
    group: GroupView,
    me: Seq<char>,
    key: Seq<char>,
    peer: Seq<char>,
    f: FrameView,
)
    requires
        f.end() <= u64::MAX,
    ensures
        starting_cursors(group, me, key).contains_key(peer) <==> peer != me && frame_of(
            group,
            peer,
            key,
        ) is Some,
        starting_cursors(group, me, key).contains_key(peer) && frame_of(group, peer, key) == Some(f)
            ==> ({
            let c = catch_up(Some(starting_cursors(group, me, key)[peer]), f)->0;
            &&& catch_up(Some(starting_cursors(group, me, key)[peer]), f) is Some
            &&& c.gap is None
            &&& keys_from(f, c.from).len() == 0
        }),
        catch_up(None, f) is Some,
        (catch_up(None, f)->0).gap is None,
        keys_from(f, (catch_up(None, f)->0).from) == f.keys,
{
    assert(keys_from(f, f.first_seq) =~= f.keys);
}

/// A frame of an older life than the subscriber has entered changes nothing.
pub proof fn stale_lives_are_ignored(cursor: Cursor, f: FrameView)
    ensures
        f.epoch < cursor.epoch <==> catch_up(Some(cursor), f) is None,
{
}

/// Every key that decodes is told, under its own sequence number; and nothing
/// else is.
pub proof fn every_readable_key_is_told<K>(
    peer: NodeId,
    epoch: u64,
    from: int,
    decoded: Seq<Option<K>>,
)
    requires
        0 <= from,
        from + decoded.len() <= u64::MAX,
    ensures
        forall|i: int|
            0 <= i < decoded.len() && (#[trigger] decoded[i]) is Some ==> wrote(
                peer,
                epoch,
                from,
                decoded,
            ).contains(
                PeerWrite::Wrote {
                    peer,
                    token: WriteToken { epoch, seq: (from + i) as u64 },
                    key: decoded[i]->0,
                },
            ),
        forall|j: int|
            0 <= j < wrote(peer, epoch, from, decoded).len() ==> {
                let event = #[trigger] wrote(peer, epoch, from, decoded)[j];
                &&& event matches PeerWrite::Wrote { peer: p, token, key }
                &&& p == peer && token.epoch == epoch && from <= token.seq < from + decoded.len()
                &&& decoded[token.seq - from] == Some(key)
            },
    decreases decoded.len(),
{
    if decoded.len() > 0 {
        let init = decoded.drop_last();
        let n = init.len() as int;
        every_readable_key_is_told(peer, epoch, from, init);
        let old_events = wrote(peer, epoch, from, init);
        let events = wrote(peer, epoch, from, decoded);
        assert forall|i: int|
            0 <= i < decoded.len() && (#[trigger] decoded[i]) is Some implies events.contains(
            PeerWrite::Wrote {
                peer,
                token: WriteToken { epoch, seq: (from + i) as u64 },
                key: decoded[i]->0,
            },
        ) by {
            if i < n {
                assert(init[i] == decoded[i]);
                let event = PeerWrite::Wrote {
                    peer,
                    token: WriteToken { epoch, seq: (from + i) as u64 },
                    key: decoded[i]->0,
                };
                let j = choose|j: int| 0 <= j < old_events.len() && old_events[j] == event;
                assert(events[j] == event);
            } else {
                assert(events[events.len() - 1] == (PeerWrite::Wrote {
                    peer,
                    token: WriteToken { epoch, seq: (from + i) as u64 },
                    key: decoded[i]->0,
                }));
            }
        }
        assert forall|j: int| 0 <= j < events.len() implies {
            let event = #[trigger] events[j];
            &&& event matches PeerWrite::Wrote { peer: p, token, key }
            &&& p == peer && token.epoch == epoch && from <= token.seq < from + decoded.len()
            &&& decoded[token.seq - from] == Some(key)
        } by {
            if j < old_events.len() {
                assert(events[j] == old_events[j]);
                let event = old_events[j];
                let token = event->token;
                assert(init[token.seq - from] == decoded[token.seq - from]);
            }
        }
    }
}

/// A subscriber sees of a peer's feed what the peer put there, whatever
/// membership believes of the peer: the whole frame, or nothing where nothing
/// stands.
pub proof fn a_peer_shows_what_it_put_there(
    group: GroupView,
    peer: Seq<char>,
    key: Seq<char>,
    f: FrameView,
)
    requires
        f.fits(),
    ensures
        group.entry(peer, key) == Some(f.bytes()) ==> frame_of(group, peer, key) == Some(f),
        group.entry(peer, key) is None ==> frame_of(group, peer, key) is None,
        countable(group, peer, key) <==> (frame_of(group, peer, key) matches Some(seen)
            ==> seen.first_seq + seen.keys.len() <= u64::MAX),
{
    crate::wire::frames_read_back(f, Seq::empty());
    assert(f.bytes() + Seq::<u8>::empty() =~= f.bytes());
}

/// What a write feed advertises is what its subscribers look at: a ring whose
/// advertisement stands under its key is seen with every one of its writes
/// under its own number.
pub proof fn an_advertisement_is_what_is_seen(
    group: GroupView,
    peer: Seq<char>,
    feed: crate::feed::FeedView,
    w: crate::group::EntryWrite,
    seq: u64,
)
    requires
        crate::feed::advertises(w, feed),
        feed.ring.frame().fits(),
        1 <= feed.ring.first_seq,
        feed.ring.first_seq + feed.ring.keys.len() <= u64::MAX,
        group.entry(peer, w.key@) == Some(w.value@),
    ensures
        frame_of(group, peer, feed.key) matches Some(f) && {
            &&& f.epoch == feed.ring.epoch
            &&& f.first_seq == feed.ring.first_seq
            &&& f.keys.len() == feed.ring.keys.len()
            &&& feed.ring.first_seq <= seq < feed.ring.first_seq + feed.ring.keys.len()
                ==> f.keys[seq - f.first_seq] == feed.ring.keys[seq - feed.ring.first_seq]
        },
{
    a_peer_shows_what_it_put_there(group, peer, feed.key, feed.ring.frame());
}

/// The head a feed advertises is a write of its window, and none of the window
/// is past it; a window without keys advertises none.
pub proof fn the_head_is_the_last_write(f: FrameView, seq: u64)
    requires
        f.end() <= u64::MAX,
        1 <= f.first_seq,
    ensures
        head_of(None) is None,
        head_of(Some(f)) is None <==> f.keys.len() == 0,
        head_of(Some(f)) matches Some(head) ==> {
            &&& head.epoch == f.epoch
            &&& f.first_seq <= head.seq < f.first_seq + f.keys.len()
            &&& f.first_seq <= seq < f.first_seq + f.keys.len() ==> seq <= head.seq
        },
{
}

/// The events of one catch-up stand in the writer's own order: each write's
/// token above the one before, and all of them above what the gap covers.
pub proof fn writes_are_told_in_order<K>(
    cursor: Option<Cursor>,
    f: FrameView,
    peer: NodeId,
    decoded: Seq<Option<K>>,
)
    requires
        f.end() <= u64::MAX,
        catch_up(cursor, f) is Some,
        decoded.len() == keys_from(f, (catch_up(cursor, f)->0).from).len(),
    ensures
        ({
            let c = catch_up(cursor, f)->0;
            let events = wrote(peer, f.epoch, c.from as int, decoded);
            &&& forall|i: int, j: int|
                #![trigger events[i], events[j]]
                0 <= i < j < events.len() ==> events[i]->token.below(events[j]->token)
            &&& c.gap matches Some(missed) ==> forall|i: int|
                0 <= i < events.len() && c.from > 0 ==> missed.below((#[trigger] events[i])->token)
        }),
{
    let c = catch_up(cursor, f)->0;
    every_readable_key_is_told(peer, f.epoch, c.from as int, decoded);
    lemma_wrote_ascends(peer, f.epoch, c.from as int, decoded);
}

proof fn lemma_wrote_ascends<K>(peer: NodeId, epoch: u64, from: int, decoded: Seq<Option<K>>)
    requires
        0 <= from,
        from + decoded.len() <= u64::MAX,
    ensures
        ({
            let events = wrote(peer, epoch, from, decoded);
            forall|i: int, j: int|
                #![trigger events[i], events[j]]
                0 <= i < j < events.len() ==> events[i]->token.below(events[j]->token)
        }),
    decreases decoded.len(),
{
    if decoded.len() > 0 {
        let init = decoded.drop_last();
        lemma_wrote_ascends(peer, epoch, from, init);
        every_readable_key_is_told(peer, epoch, from, init);
        let old_events = wrote(peer, epoch, from, init);
        let events = wrote(peer, epoch, from, decoded);
        assert forall|i: int, j: int|
            #![trigger events[i], events[j]]
            0 <= i < j < events.len() implies events[i]->token.below(events[j]->token) by {
            assert(events[i] == old_events[i]);
            if j < old_events.len() {
                assert(events[j] == old_events[j]);
            }
        }
    }
}

/// A gap is told exactly when something was missed: the writer restarted, or
/// its window has moved past the cursor. It never covers a write that the
/// window still holds.
pub proof fn a_gap_is_told_only_for_a_loss(cursor: Option<Cursor>, f: FrameView, seq: u64)
    requires
        f.end() <= u64::MAX,
    ensures
        cursor is None ==> (catch_up(cursor, f) matches Some(c) && c.gap is None && c.from
            == f.first_seq),
        cursor matches Some(at) ==> {
            &&& catch_up(cursor, f) is None <==> f.epoch < at.epoch
            &&& catch_up(cursor, f) matches Some(c) ==> {
                &&& c.gap is Some <==> f.epoch > at.epoch || at.next < f.first_seq
                &&& c.gap matches Some(missed) ==> missed.epoch == f.epoch && (1 <= f.first_seq
                    <= seq ==> missed.seq < seq)
            }
        },
{
}

/// A look delivers from where the subscriber stood, or from the front of the
/// window when that has moved past it, and leaves it behind everything the
/// frame shows: nothing already seen is delivered again, and nothing new is
/// left for later.
pub proof fn a_look_delivers_what_is_new(cursor: Cursor, f: FrameView)
    requires
        f.end() <= u64::MAX,
        f.epoch >= cursor.epoch,
    ensures
        catch_up(Some(cursor), f) matches Some(c) && {
            &&& c.cursor.epoch == f.epoch
            &&& f.epoch == cursor.epoch ==> c.from >= cursor.next && c.from >= f.first_seq && (
            c.from == cursor.next || c.from == f.first_seq)
            &&& f.epoch == cursor.epoch ==> c.cursor.next == (if cursor.next >= f.end() {
                cursor.next as int
            } else {
                f.end()
            })
            &&& f.epoch > cursor.epoch ==> c.from == f.first_seq && c.cursor.next == f.end()
        },
{
}

/// The keys delivered from a number on are the frame's own, under their own
/// numbers, up to its end.
pub proof fn keys_keep_their_numbers(f: FrameView, from: u64, seq: u64)
    requires
        f.first_seq <= from,
    ensures
        keys_from(f, from).len() == (if from < f.end() {
            f.end() - from
        } else {
            0
        }),
        from <= seq < f.end() ==> keys_from(f, from)[seq - from] == f.keys[seq - f.first_seq],
{
}

/// A signal wakes a subscriber for its peers' feed and never for its own: one
/// look when a peer's feed changed, a look at everyone when the membership did
/// or signals were lost, and none for anything else.
pub proof fn signals_wake_for_peers(me: Seq<char>, key: Seq<char>, node: NodeId, changed: String)
    ensures
        wake_for(me, key, (Signal::NodeStateChanged { node, key: changed })) == Wake::One
            <==> node@ != me && changed@ == key,
        node@ == me || changed@ != key ==> wake_for(
            me,
            key,
            (Signal::NodeStateChanged { node, key: changed }),
        ) == Wake::Ignore,
        wake_for(me, key, Signal::MembershipChanged) == Wake::All,
        wake_for(me, key, Signal::Lagged) == Wake::All,
        wake_for(me, key, Signal::Closed) == Wake::Stop,
        wake_for(me, key, Signal::LeadershipChanged) == Wake::Ignore,
        wake_for(me, key, Signal::Other) == Wake::Ignore,
{
}

/// What a subscriber knows: whose feeds it follows under which key, where it
/// stands in each, the events not yet taken, and how many gaps it has told.
pub struct PeersView<K> {
    pub me: Seq<char>,
    pub key: Seq<char>,
    pub cursors: Map<Seq<char>, Cursor>,
    pub pending: Seq<PeerWrite<K>>,
    pub gaps_seen: u64,
}

impl<K> PeersView<K> {
    /// Where the subscriber stands in `peer`'s feed.
    pub open spec fn cursor(self, peer: Seq<char>) -> Option<Cursor> {
        if self.cursors.contains_key(peer) {
            Some(self.cursors[peer])
        } else {
            None
        }
    }

    /// The subscriber after reconciling `frame` of `peer`, its unseen keys
    /// decoding as `decoded`.
    pub open spec fn scanned(
        self,
        peer: NodeId,
        frame: Option<FrameView>,
        decoded: Seq<Option<K>>,
    ) -> PeersView<K> {
        match frame {
            None => self,
            Some(f) => match catch_up(self.cursor(peer@), f) {
                None => self,
                Some(c) => {
                    let told = match c.gap {
                        Some(missed_through) => self.pending.push(
                            PeerWrite::Gap { peer, missed_through },
                        ),
                        None => self.pending,
                    };
                    PeersView {
                        cursors: self.cursors.insert(peer@, c.cursor),
                        pending: told + wrote(peer, f.epoch, c.from as int, decoded),
                        gaps_seen: if c.gap is Some {
                            (self.gaps_seen + 1) as u64
                        } else {
                            self.gaps_seen
                        },
                        ..self
                    }
                },
            },
        }
    }

    /// The keys of `frame` that the subscriber has not seen from `peer`.
    pub open spec fn unseen(self, peer: Seq<char>, frame: Option<FrameView>) -> Seq<Seq<u8>> {
        match frame {
            None => Seq::empty(),
            Some(f) => match catch_up(self.cursor(peer), f) {
                None => Seq::empty(),
                Some(c) => keys_from(f, c.from),
            },
        }
    }
}

/// Whether one look at what `peer` publishes turns `before` into `after`.
pub open spec fn scan_step<K, F: Fn(&[u8]) -> Option<K>>(
    decode: F,
    group: GroupView,
    peer: NodeId,
    before: PeersView<K>,
    after: PeersView<K>,
) -> bool {
    let frame = frame_of(group, peer@, before.key);
    exists|decoded: Seq<Option<K>>| #[trigger]
        decodes(decode, before.unseen(peer@, frame), decoded) && after == before.scanned(
            peer,
            frame,
            decoded,
        )
}

/// Whether looking at each of `nodes` but the subscriber itself, in turn,
/// turns the first state of `trail` into the last.
pub open spec fn scan_trail<K, F: Fn(&[u8]) -> Option<K>>(
    decode: F,
    group: GroupView,
    nodes: Seq<NodeId>,
    trail: Seq<PeersView<K>>,
) -> bool {
    &&& trail.len() == nodes.len() + 1
    &&& forall|i: int|
        0 <= i < nodes.len() ==> if (#[trigger] nodes[i])@ == trail[i].me {
            trail[i + 1] == trail[i]
        } else {
            scan_step(decode, group, nodes[i], trail[i], trail[i + 1])
        }
}

/// What woke a subscriber.
#[derive(Debug)]
pub enum Signal {
    /// `node` changed its entry `key`.
    NodeStateChanged {
        /// The node.
        node: NodeId,
        /// The key.
        key: String,
    },
    /// The membership changed.
    MembershipChanged,
    /// The leadership changed.
    LeadershipChanged,
    /// Signals were lost. State never is: the entries are current.
    Lagged,
    /// Anything else.
    Other,
    /// The group is gone.
    Closed,
}

/// What a signal asks of a subscriber.
#[derive(Debug, Clone, Copy, PartialEq, Eq, Structural)]
pub enum Wake {
    /// Look at the one node that changed.
    One,
    /// Look at every member.
    All,
    /// Nothing.
    Ignore,
    /// Stop.
    Stop,
}

/// What `signal` asks of the subscriber `me` of the entry `key`.
pub open spec fn wake_for(me: Seq<char>, key: Seq<char>, signal: Signal) -> Wake {
    match signal {
        Signal::NodeStateChanged { node, key: changed } => if changed@ == key && node@ != me {
            Wake::One
        } else {
            Wake::Ignore
        },
        Signal::MembershipChanged => Wake::All,
        Signal::LeadershipChanged => Wake::Ignore,
        Signal::Lagged => Wake::All,
        Signal::Other => Wake::Ignore,
        Signal::Closed => Wake::Stop,
    }
}

/// Subscriber half: turns peers' feed changes into [`PeerWrite`] events. No
/// write is ever silently skipped.
#[verifier::reject_recursive_types(K)]
pub struct PeerWrites<K, F: Fn(&[u8]) -> Option<K>> {
    me: NodeId,
    key: String,
    cursors: IdMap<Cursor>,
    pending: VecDeque<PeerWrite<K>>,
    gaps_seen: u64,
    decode: F,
}

impl<K, F: Fn(&[u8]) -> Option<K>> View for PeerWrites<K, F> {
    type V = PeersView<K>;

    closed spec fn view(&self) -> PeersView<K> {
        PeersView {
            me: self.me@,
            key: self.key@,
            cursors: self.cursors@,
            pending: self.pending@,
            gaps_seen: self.gaps_seen,
        }
    }
}

/// Where a new subscriber starts in the feeds it finds: at their current end.
pub open spec fn starting_cursors(group: GroupView, me: Seq<char>, key: Seq<char>) -> Map<
    Seq<char>,
    Cursor,
> {
    Map::new(
        |peer: Seq<char>|
            peer != me && group.entries@.contains_key(peer) && frame_of(group, peer, key) is Some,
        |peer: Seq<char>|
            Cursor {
                epoch: frame_of(group, peer, key)->0.epoch,
                next: frame_of(group, peer, key)->0.end() as u64,
            },
    )
}

impl<K, F: Fn(&[u8]) -> Option<K>> PeerWrites<K, F> {
    /// How the subscriber reads a key.
    pub closed spec fn decoder(&self) -> F {
        self.decode
    }

    /// Subscribes to the default feed as `me`, whose own feed is ignored.
    /// Existing feeds start at their current end: history is not replayed.
    pub fn new(group: &GroupView, me: NodeId, decode: F) -> (r: PeerWrites<K, F>)
        requires
            forall|peer: Seq<char>| #[trigger] countable(*group, peer, crate::wire::ENTRY_KEY@),
        ensures
            r.decoder() == decode,
            r@ == (PeersView::<K> {
                me: me@,
                key: crate::wire::ENTRY_KEY@,
                cursors: starting_cursors(*group, me@, crate::wire::ENTRY_KEY@),
                pending: Seq::empty(),
                gaps_seen: 0,
            }),
    {
        proof {
            reveal_strlit("");
        }
        PeerWrites::named("", group, me, decode)
    }

    /// Subscribes to the feed named `name`.
    pub fn named(name: &str, group: &GroupView, me: NodeId, decode: F) -> (r: PeerWrites<K, F>)
        requires
            forall|peer: Seq<char>| #[trigger]
                countable(
                    *group,
                    peer,
                    crate::wire::scoped_key(crate::wire::ENTRY_KEY@, name@),
                ),
        ensures
            r.decoder() == decode,
            r@ == (PeersView::<K> {
                me: me@,
                key: crate::wire::scoped_key(crate::wire::ENTRY_KEY@, name@),
                cursors: starting_cursors(
                    *group,
                    me@,
                    crate::wire::scoped_key(crate::wire::ENTRY_KEY@, name@),
                ),
                pending: Seq::empty(),
                gaps_seen: 0,
            }),
    {
        let key: String = crate::wire::entry_key(name);
        let mut cursors: IdMap<Cursor> = IdMap::new();
        let n: usize = group.entries.len();
        let ghost rows = group.entries.records();
        let ghost want = starting_cursors(*group, me@, key@);
        proof {
            crate::idmap::lemma_map_of(rows);
        }
        let mut i: usize = 0;
        while i < n
            invariant
                i <= n,
                n == rows.len(),
                rows == group.entries.records(),
                key@ == crate::wire::scoped_key(crate::wire::ENTRY_KEY@, name@),
                want == starting_cursors(*group, me@, key@),
                forall|peer: Seq<char>| #[trigger]
                    countable(
                        *group,
                        peer,
                        crate::wire::scoped_key(crate::wire::ENTRY_KEY@, name@),
                    ),
                forall|p: Seq<char>| #[trigger]
                    cursors@.contains_key(p) ==> want.contains_key(p) && cursors@[p] == want[p],
                forall|j: int|
                    0 <= j < i && want.contains_key((#[trigger] rows[j]).0)
                        ==> cursors@.contains_key(rows[j].0),
                forall|j: int|
                    0 <= j < n ==> group.entries@.contains_key((#[trigger] rows[j]).0),
            decreases n - i,
        {
            let node: &NodeId = group.entries.key_at(i);
            if *node != me {
                proof {
                    assert(countable(*group, node@, key@));
                }
                if let Some(frame) = read_frame(group, node, key.as_str()) {
                    cursors.insert(
                        node.clone(),
                        Cursor { epoch: frame.epoch, next: frame.end() },
                    );
                }
            }
            i = i + 1;
        }
        proof {
            assert(cursors@ =~= want) by {
                assert forall|p: Seq<char>| #[trigger] want.contains_key(p) implies cursors@.contains_key(
                p) by {
                    let j = choose|j: int| 0 <= j < rows.len() && (#[trigger] rows[j]).0 == p;
                    assert(want.contains_key(rows[j].0));
                }
            }
        }
        let pending: VecDeque<PeerWrite<K>> = VecDeque::new();
        PeerWrites { me, key, cursors, pending, gaps_seen: 0, decode }
    }

    /// How many [`PeerWrite::Gap`]s this subscriber has told: a rising count
    /// means the ring is undersized for the write rate, or writers keep
    /// restarting.
    pub fn gaps_seen(&self) -> (r: u64)
        ensures
            r == self@.gaps_seen,
    {
        self.gaps_seen
    }

    /// How far this subscriber lags behind `peer`'s advertised feed, in
    /// writes. An epoch not entered yet counts as the peer's whole window.
    pub fn lag(&self, group: &GroupView, peer: &NodeId) -> (r: Option<u64>)
        requires
            countable(*group, peer@, self@.key),
        ensures
            r == (match frame_of(*group, peer@, self@.key) {
                None => None::<u64>,
                Some(f) => match self@.cursor(peer@) {
                    Some(c) if c.epoch == f.epoch => Some(
                        if c.next < f.end() {
                            (f.end() - c.next) as u64
                        } else {
                            0
                        },
                    ),
                    _ => Some(f.keys.len() as u64),
                },
            }),
            r matches Some(n) ==> self@.unseen(
                peer@,
                frame_of(*group, peer@, self@.key),
            ).len() <= n,
    {
        match read_frame(group, peer, self.key.as_str()) {
            None => None,
            Some(frame) => {
                let end: u64 = frame.end();
                let from: u64 = match self.cursors.get_copy(peer) {
                    Some(c) => if c.epoch == frame.epoch {
                        c.next
                    } else {
                        frame.first_seq
                    },
                    None => frame.first_seq,
                };
                Some(
                    if from < end {
                        end - from
                    } else {
                        0
                    },
                )
            },
        }
    }

    /// The next event not yet taken.
    pub fn next(&mut self) -> (r: Option<PeerWrite<K>>)
        ensures
            final(self).decoder() == old(self).decoder(),
            match r {
                Some(event) => {
                    &&& old(self)@.pending.len() > 0
                    &&& event == old(self)@.pending[0]
                    &&& final(self)@ == (PeersView {
                        pending: old(self)@.pending.subrange(
                            1,
                            old(self)@.pending.len() as int,
                        ),
                        ..old(self)@
                    })
                },
                None => old(self)@.pending.len() == 0 && final(self)@ == old(self)@,
            },
    {
        self.pending.pop_front()
    }

    /// What `signal` asks of this subscriber.
    pub fn wake(&self, signal: &Signal) -> (r: Wake)
        ensures
            r == wake_for(self@.me, self@.key, *signal),
    {
        match signal {
            Signal::NodeStateChanged { node, key } => if *key == self.key && *node != self.me {
                Wake::One
            } else {
                Wake::Ignore
            },
            Signal::MembershipChanged => Wake::All,
            Signal::LeadershipChanged => Wake::Ignore,
            Signal::Lagged => Wake::All,
            Signal::Other => Wake::Ignore,
            Signal::Closed => Wake::Stop,
        }
    }

    /// Reconciles every member's feed but our own, in member order.
    pub fn scan_all(&mut self, group: &GroupView)
        requires
            forall|s: &[u8]| call_requires(old(self).decoder(), (s,)),
            forall|i: int|
                0 <= i < group.members@.len() ==> countable(
                    *group,
                    (#[trigger] group.members@[i])@,
                    old(self)@.key,
                ),
            old(self)@.gaps_seen + group.members@.len() <= u64::MAX,
        ensures
            final(self).decoder() == old(self).decoder(),
            exists|trail: Seq<PeersView<K>>| #[trigger]
                scan_trail(old(self).decoder(), *group, group.members@, trail) && trail[0] == old(
                    self,
                )@ && trail.last() == final(self)@,
    {
        let ghost mut trail: Seq<PeersView<K>> = seq![self@];
        let ghost first = self@;
        let ghost f = self.decoder();
        let mut i: usize = 0;
        while i < group.members.len()
            invariant
                i <= group.members@.len(),
                self.decoder() == f,
                self@.key == first.key,
                self@.me == first.me,
                self@.gaps_seen <= first.gaps_seen + i,
                first.gaps_seen + group.members@.len() <= u64::MAX,
                forall|s: &[u8]| call_requires(f, (s,)),
                forall|j: int|
                    0 <= j < group.members@.len() ==> countable(
                        *group,
                        (#[trigger] group.members@[j])@,
                        first.key,
                    ),
                scan_trail(f, *group, group.members@.subrange(0, i as int), trail),
                trail[0] == first,
                trail.last() == self@,
            decreases group.members@.len() - i,
        {
            let node: &NodeId = &group.members[i];
            let ghost was = self@;
            let ghost done = group.members@.subrange(0, i as int);
            if *node != self.me {
                self.scan(group, node);
            }
            proof {
                let now = group.members@.subrange(0, i + 1);
                let longer = trail.push(self@);
                assert(scan_trail(f, *group, now, longer)) by {
                    assert forall|j: int| 0 <= j < now.len() implies if (#[trigger] now[j])@
                        == longer[j].me {
                        longer[j + 1] == longer[j]
                    } else {
                        scan_step(f, *group, now[j], longer[j], longer[j + 1])
                    } by {
                        if j < i {
                            assert(now[j] == done[j]);
                            assert(longer[j] == trail[j] && longer[j + 1] == trail[j + 1]);
                        } else {
                            assert(longer[j] == was);
                        }
                    }
                }
                trail = longer;
            }
            i = i + 1;
        }
        proof {
            assert(group.members@.subrange(0, i as int) =~= group.members@);
        }
    }

    /// Reconciles one peer's feed against our cursor, queueing events.
    pub fn scan(&mut self, group: &GroupView, node: &NodeId)
        requires
            forall|s: &[u8]| call_requires(old(self).decoder(), (s,)),
            countable(*group, node@, old(self)@.key),
            old(self)@.gaps_seen < u64::MAX,
        ensures
            final(self).decoder() == old(self).decoder(),
            final(self)@.key == old(self)@.key,
            final(self)@.me == old(self)@.me,
            final(self)@.gaps_seen <= old(self)@.gaps_seen + 1,
            scan_step(old(self).decoder(), *group, *node, old(self)@, final(self)@),
    {
        let ghost before = self@;
        let ghost f = self.decoder();
        let ghost seen = frame_of(*group, node@, self@.key);
        let frame: Frame = match read_frame(group, node, self.key.as_str()) {
            Some(frame) => frame,
            None => {
                proof {
                    assert(decodes(f, before.unseen(node@, seen), Seq::<Option<K>>::empty()));
                }
                return;
            },
        };
        let at: Cursor = match self.cursors.get_copy(node) {
            Some(c) => c,
            None => Cursor { epoch: frame.epoch, next: frame.first_seq },
        };
        if frame.epoch < at.epoch {
            // A stale frame from a previous life.
            proof {
                assert(decodes(f, before.unseen(node@, seen), Seq::<Option<K>>::empty()));
            }
            return;
        }
        let mut next: u64 = at.next;
        if frame.epoch > at.epoch || at.next < frame.first_seq {
            // The writer restarted, or its ring advanced past us.
            self.pending.push_back(
                PeerWrite::Gap {
                    peer: node.clone(),
                    missed_through: WriteToken {
                        epoch: frame.epoch,
                        seq: if frame.first_seq == 0 {
                            0
                        } else {
                            frame.first_seq - 1
                        },
                    },
                },
            );
            self.gaps_seen = self.gaps_seen + 1;
            next = frame.first_seq;
        }
        let ghost from = next;
        let ghost told = self.pending@;
        let ghost keys = keys_from(frame@, from);
        let ghost mut decoded: Seq<Option<K>> = Seq::empty();
        let end: u64 = frame.end();
        proof {
            assert(told + wrote(*node, frame.epoch, from as int, decoded) =~= told);
        }
        while next < end
            invariant
                self.decode == f,
                forall|s: &[u8]| call_requires(f, (s,)),
                end == frame@.end(),
                frame.first_seq <= from <= next,
                next <= end || next == from,
                keys == keys_from(frame@, from),
                decoded.len() == next - from,
                forall|i: int|
                    0 <= i < decoded.len() ==> decodes_one(f, keys[i], #[trigger] decoded[i]),
                self.pending@ == told + wrote(*node, frame.epoch, from as int, decoded),
                self.me@ == before.me,
                self.key@ == before.key,
                self.cursors@ == before.cursors,
                self.gaps_seen == (if told.len() > before.pending.len() {
                    (before.gaps_seen + 1) as u64
                } else {
                    before.gaps_seen
                }),
            decreases end - next,
        {
            let index: usize = (next - frame.first_seq) as usize;
            let bytes: &[u8] = frame.keys[index].as_slice();
            let out: Option<K> = (self.decode)(bytes);
            let ghost result = out;
            let ghost was = decoded;
            let ghost queued = self.pending@;
            proof {
                assert(bytes@ == keys[next - from]);
                decoded = decoded.push(result);
                assert(decoded.drop_last() =~= was);
                assert(decodes_one(f, bytes@, result));
            }
            if let Some(key) = out {
                self.pending.push_back(
                    PeerWrite::Wrote {
                        peer: node.clone(),
                        token: WriteToken { epoch: frame.epoch, seq: next },
                        key,
                    },
                );
            }
            proof {
                assert(self.pending@ =~= told + wrote(*node, frame.epoch, from as int, decoded));
            }
            next = next + 1;
        }
        self.cursors.insert(node.clone(), Cursor { epoch: frame.epoch, next });
        proof {
            assert(decodes(f, before.unseen(node@, seen), decoded));
            let after = before.scanned(*node, seen, decoded);
            assert(self@.cursors =~= after.cursors);
            assert(self@ == after);
        }
    }
}

/// Whether `cursor` stands behind everything `f` shows.
pub open spec fn stands_behind(cursor: Cursor, f: FrameView) -> bool {
    cursor.epoch > f.epoch || (cursor.epoch == f.epoch && cursor.next >= f.end())
}

proof fn lemma_scan_step<K, F: Fn(&[u8]) -> Option<K>>(
    decode: F,
    group: GroupView,
    peer: NodeId,
    before: PeersView<K>,
    after: PeersView<K>,
    other: Seq<char>,
)
    requires
        countable(group, peer@, before.key),
        scan_step(decode, group, peer, before, after),
    ensures
        after.me == before.me,
        after.key == before.key,
        before.pending.is_prefix_of(after.pending),
        other != peer@ ==> after.cursor(other) == before.cursor(other),
        frame_of(group, peer@, before.key) matches Some(f) ==> (after.cursor(peer@) matches Some(
            c,
        ) && stands_behind(c, f)),
        frame_of(group, peer@, before.key) is None ==> after == before,
        before.cursor(peer@) matches Some(was) ==> (after.cursor(peer@) matches Some(c) && (c.epoch
            > was.epoch || (c.epoch == was.epoch && c.next >= was.next))),
        forall|i: int|
            before.pending.len() <= i < after.pending.len() ==> (#[trigger] after.pending[i]
                matches PeerWrite::Wrote { peer: p, .. } ==> p == peer) && (after.pending[i]
                matches PeerWrite::Gap { peer: p, .. } ==> p == peer),
{
    let frame = frame_of(group, peer@, before.key);
    let decoded = choose|decoded: Seq<Option<K>>| #[trigger]
        decodes(decode, before.unseen(peer@, frame), decoded) && after == before.scanned(
            peer,
            frame,
            decoded,
        );
    assert(before.pending =~= after.pending.subrange(0, before.pending.len() as int));
    if let Some(f) = frame {
        if let Some(c) = catch_up(before.cursor(peer@), f) {
            let told = wrote(peer, f.epoch, c.from as int, decoded);
            every_readable_key_is_told(peer, f.epoch, c.from as int, decoded);
            assert forall|i: int| before.pending.len() <= i < after.pending.len() implies (
            #[trigger] after.pending[i] matches PeerWrite::Wrote { peer: p, .. } ==> p == peer) && (
            after.pending[i] matches PeerWrite::Gap { peer: p, .. } ==> p == peer) by {
                let shift = after.pending.len() - told.len();
                if i >= shift {
                    assert(after.pending[i] == told[i - shift]);
                }
            }
        }
    }
}

/// A scan of everyone leaves nobody out and tells nothing of this node's own
/// feed: afterwards the subscriber stands behind everything that each member
/// but itself shows, what was queued is still queued first, and whatever was
/// added is about another node.
pub proof fn a_full_scan_reaches_every_peer<K, F: Fn(&[u8]) -> Option<K>>(
    decode: F,
    group: GroupView,
    nodes: Seq<NodeId>,
    trail: Seq<PeersView<K>>,
    k: int,
)
    requires
        scan_trail(decode, group, nodes, trail),
        forall|i: int| 0 <= i < nodes.len() ==> countable(group, (#[trigger] nodes[i])@, trail[0].key),
        0 <= k <= nodes.len(),
    ensures
        trail[k].me == trail[0].me,
        trail[k].key == trail[0].key,
        trail[0].pending.is_prefix_of(trail[k].pending),
        forall|i: int|
            0 <= i < k && (#[trigger] nodes[i])@ != trail[0].me ==> (frame_of(
                group,
                nodes[i]@,
                trail[0].key,
            ) matches Some(f) ==> (trail[k].cursor(nodes[i]@) matches Some(c) && stands_behind(
                c,
                f,
            ))),
        trail[k].cursor(trail[0].me) == trail[0].cursor(trail[0].me),
        forall|i: int|
            trail[0].pending.len() <= i < trail[k].pending.len() ==> (#[trigger] trail[k].pending[i]
                matches PeerWrite::Wrote { peer, .. } ==> peer@ != trail[0].me) && (
            trail[k].pending[i] matches PeerWrite::Gap { peer, .. } ==> peer@ != trail[0].me),
    decreases k,
{
    if k == 0 {
        assert(trail[0].pending =~= trail[0].pending.subrange(0, trail[0].pending.len() as int));
    } else {
        let first = trail[0];
        let was = trail[k - 1];
        let now = trail[k];
        let node = nodes[k - 1];
        a_full_scan_reaches_every_peer(decode, group, nodes, trail, k - 1);
        if node@ != was.me {
            lemma_scan_step(decode, group, node, was, now, first.me);
            assert(first.pending =~= now.pending.subrange(0, first.pending.len() as int)) by {
                assert forall|i: int| 0 <= i < first.pending.len() implies first.pending[i]
                    == now.pending[i] by {
                    assert(was.pending.subrange(0, first.pending.len() as int)[i]
                        == was.pending[i]);
                    assert(now.pending.subrange(0, was.pending.len() as int)[i] == now.pending[i]);
                }
            }
            assert forall|i: int|
                0 <= i < k && (#[trigger] nodes[i])@ != first.me implies (frame_of(
                group,
                nodes[i]@,
                first.key,
            ) matches Some(f) ==> (now.cursor(nodes[i]@) matches Some(c) && stands_behind(
                c,
                f,
            ))) by {
                lemma_scan_step(decode, group, node, was, now, nodes[i]@);
            }
            assert forall|i: int|
                first.pending.len() <= i < now.pending.len() implies (#[trigger] now.pending[i]
                matches PeerWrite::Wrote { peer, .. } ==> peer@ != first.me) && (now.pending[i]
                matches PeerWrite::Gap { peer, .. } ==> peer@ != first.me) by {
                if i < was.pending.len() {
                    assert(now.pending.subrange(0, was.pending.len() as int)[i] == now.pending[i]);
                    assert(was.pending[i] == now.pending[i]);
                }
            }
        }
    }
}

/// One scan of a peer counts the gaps it tells, leaves what was queued and
/// every other peer's cursor alone, and never moves its own cursor back.
pub proof fn a_scan_touches_one_peer<K, F: Fn(&[u8]) -> Option<K>>(
    decode: F,
    group: GroupView,
    peer: NodeId,
    before: PeersView<K>,
    after: PeersView<K>,
    other: Seq<char>,
)
    requires
        countable(group, peer@, before.key),
        before.gaps_seen < u64::MAX,
        scan_step(decode, group, peer, before, after),
    ensures
        before.pending.is_prefix_of(after.pending),
        other != peer@ ==> after.cursor(other) == before.cursor(other),
        frame_of(group, peer@, before.key) matches Some(f) ==> (after.cursor(peer@) matches Some(
            c,
        ) && stands_behind(c, f)),
        before.cursor(peer@) matches Some(was) ==> (after.cursor(peer@) matches Some(c) && (c.epoch
            > was.epoch || (c.epoch == was.epoch && c.next >= was.next))),
        after.gaps_seen == before.gaps_seen + (if after.pending.len() > before.pending.len()
            && after.pending[before.pending.len() as int] is Gap {
            1int
        } else {
            0int
        }),
        forall|i: int|
            before.pending.len() < i < after.pending.len() ==> (#[trigger] after.pending[i]) is Wrote,
{
    lemma_scan_step(decode, group, peer, before, after, other);
    let frame = frame_of(group, peer@, before.key);
    let decoded = choose|decoded: Seq<Option<K>>| #[trigger]
        decodes(decode, before.unseen(peer@, frame), decoded) && after == before.scanned(
            peer,
            frame,
            decoded,
        );
    if let Some(f) = frame {
        if let Some(c) = catch_up(before.cursor(peer@), f) {
            let told = wrote(peer, f.epoch, c.from as int, decoded);
            every_readable_key_is_told(peer, f.epoch, c.from as int, decoded);
            let shift = after.pending.len() - told.len();
            assert forall|i: int| shift <= i < after.pending.len() implies (
            #[trigger] after.pending[i]) is Wrote by {
                assert(after.pending[i] == told[i - shift]);
            }
        }
    }
}

proof fn lemma_scan_tells<K, F: Fn(&[u8]) -> Option<K>>(
    decode: F,
    group: GroupView,
    peer: NodeId,
    before: PeersView<K>,
    after: PeersView<K>,
    i: int,
)
    requires
        countable(group, peer@, before.key),
        scan_step(decode, group, peer, before, after),
        before.pending.len() <= i < after.pending.len(),
        after.pending[i] is Wrote,
    ensures
        ({
            let token = after.pending[i]->token;
            &&& before.cursor(peer@) matches Some(at) ==> token.epoch > at.epoch || (token.epoch
                == at.epoch && token.seq >= at.next)
            &&& after.cursor(peer@) matches Some(at) && token.epoch == at.epoch && token.seq
                < at.next
        }),
        forall|j: int|
            i < j < after.pending.len() ==> (#[trigger] after.pending[j]) is Wrote
                && after.pending[j]->token.epoch == after.pending[i]->token.epoch
                && after.pending[j]->token.seq > after.pending[i]->token.seq,
{
    let f = frame_of(group, peer@, before.key)->0;
    let c = catch_up(before.cursor(peer@), f)->0;
    let decoded = choose|decoded: Seq<Option<K>>| #[trigger]
        decodes(decode, before.unseen(peer@, Some(f)), decoded) && after == before.scanned(
            peer,
            Some(f),
            decoded,
        );
    let writes = wrote(peer, f.epoch, c.from as int, decoded);
    let shift = after.pending.len() - writes.len();
    every_readable_key_is_told(peer, f.epoch, c.from as int, decoded);
    writes_are_told_in_order(before.cursor(peer@), f, peer, decoded);
    assert(after.pending[i] == writes[i - shift]);
    assert forall|j: int| i < j < after.pending.len() implies (#[trigger] after.pending[j]) is Wrote
        && after.pending[j]->token.epoch == after.pending[i]->token.epoch
        && after.pending[j]->token.seq > after.pending[i]->token.seq by {
        assert(after.pending[j] == writes[j - shift]);
        assert(writes[i - shift]->token.below(writes[j - shift]->token));
    }
}

/// A run of looks at one peer, each taking up its feed where the one before
/// left it. Between two looks other peers may be looked at and events taken.
pub open spec fn looks_at<K, F: Fn(&[u8]) -> Option<K>>(
    decode: F,
    peer: NodeId,
    groups: Seq<GroupView>,
    before: Seq<PeersView<K>>,
    after: Seq<PeersView<K>>,
) -> bool {
    &&& before.len() == groups.len()
    &&& after.len() == groups.len()
    &&& forall|k: int|
        0 <= k < groups.len() ==> countable(#[trigger] groups[k], peer@, before[k].key)
            && scan_step(decode, groups[k], peer, before[k], after[k])
    &&& forall|k: int|
        1 <= k < groups.len() ==> (#[trigger] before[k]).cursor(peer@) == after[k - 1].cursor(peer@)
}

proof fn lemma_looks_move_on<K, F: Fn(&[u8]) -> Option<K>>(
    decode: F,
    peer: NodeId,
    groups: Seq<GroupView>,
    before: Seq<PeersView<K>>,
    after: Seq<PeersView<K>>,
    k: int,
    l: int,
)
    requires
        looks_at(decode, peer, groups, before, after),
        0 <= k <= l < groups.len(),
        before[k].cursor(peer@) is Some,
    ensures
        before[l].cursor(peer@) matches Some(now) && (now.epoch > before[k].cursor(peer@)->0.epoch
            || (now.epoch == before[k].cursor(peer@)->0.epoch && now.next >= before[k].cursor(
            peer@,
        )->0.next)),
    decreases l - k,
{
    if k < l {
        lemma_looks_move_on(decode, peer, groups, before, after, k, l - 1);
        assert(countable(groups[l - 1], peer@, before[l - 1].key));
        lemma_scan_step(decode, groups[l - 1], peer, before[l - 1], after[l - 1], peer@);
    }
}

/// No write is told twice: over any run of looks at one peer, whatever its
/// feed showed in between, the writes told carry strictly ascending tokens,
/// and each stands at or past where the subscriber stood before its look.
pub proof fn no_write_is_told_twice<K, F: Fn(&[u8]) -> Option<K>>(
    decode: F,
    peer: NodeId,
    groups: Seq<GroupView>,
    before: Seq<PeersView<K>>,
    after: Seq<PeersView<K>>,
    k: int,
    i: int,
    l: int,
    j: int,
)
    requires
        looks_at(decode, peer, groups, before, after),
        0 <= k <= l < groups.len(),
        before[k].pending.len() <= i < after[k].pending.len(),
        before[l].pending.len() <= j < after[l].pending.len(),
        k < l || i < j,
        after[k].pending[i] is Wrote,
        after[l].pending[j] is Wrote,
    ensures
        ({
            let first = after[k].pending[i]->token;
            let later = after[l].pending[j]->token;
            &&& later.epoch > first.epoch || (later.epoch == first.epoch && later.seq > first.seq)
            &&& before[l].cursor(peer@) matches Some(at) ==> later.epoch > at.epoch || (later.epoch
                == at.epoch && later.seq >= at.next)
        }),
{
    assert(countable(groups[k], peer@, before[k].key));
    assert(countable(groups[l], peer@, before[l].key));
    lemma_scan_tells(decode, groups[k], peer, before[k], after[k], i);
    lemma_scan_tells(decode, groups[l], peer, before[l], after[l], j);
    if k < l {
        assert(before[k + 1].cursor(peer@) == after[k].cursor(peer@));
        lemma_looks_move_on(decode, peer, groups, before, after, k + 1, l);
    }
}

} // verus!
