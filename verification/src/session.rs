//! What the feed, the subscriber and the frontier promise together: a client
//! that carries a write's token is never served state that lacks it.

use crate::ids::NodeId;
use crate::peers::{Cursor, PeerWrite, PeersView};
use crate::token::WriteToken;
use crate::wire::FrameView;
use vstd::prelude::*;

verus! {

/// One look at a peer's feed: the frame it showed, and what its unseen keys
/// decoded to.
pub struct Look<K> {
    pub frame: FrameView,
    pub decoded: Seq<Option<K>>,
}

/// Where a subscriber at `cursor` stands after a look.
pub open spec fn moved(cursor: Cursor, frame: FrameView) -> Cursor {
    match crate::peers::catch_up(Some(cursor), frame) {
        None => cursor,
        Some(c) => c.cursor,
    }
}

/// Where a subscriber at `start` stands after some looks.
pub open spec fn stands<K>(start: Cursor, looks: Seq<Look<K>>) -> Cursor
    decreases looks.len(),
{
    if looks.len() == 0 {
        start
    } else {
        moved(stands(start, looks.drop_last()), looks.last().frame)
    }
}

/// What one look tells a subscriber at `cursor`: the gap first, when there is
/// one, then the writes.
pub open spec fn told_by<K>(peer: NodeId, cursor: Cursor, look: Look<K>) -> Seq<PeerWrite<K>> {
    match crate::peers::catch_up(Some(cursor), look.frame) {
        None => Seq::empty(),
        Some(c) => (match c.gap {
            Some(missed_through) => seq![PeerWrite::Gap { peer, missed_through }],
            None => Seq::empty(),
        }) + crate::peers::wrote(peer, look.frame.epoch, c.from as int, look.decoded),
    }
}

/// Everything some looks tell a subscriber that started at `start`.
pub open spec fn told<K>(peer: NodeId, start: Cursor, looks: Seq<Look<K>>) -> Seq<PeerWrite<K>>
    decreases looks.len(),
{
    if looks.len() == 0 {
        Seq::empty()
    } else {
        let init = looks.drop_last();
        told(peer, start, init) + told_by(peer, stands(start, init), looks.last())
    }
}

/// Whether each look decoded exactly the keys it had not seen, and every
/// frame's numbers can be counted.
pub open spec fn followed<K>(start: Cursor, looks: Seq<Look<K>>) -> bool
    decreases looks.len(),
{
    looks.len() > 0 ==> {
        let init = looks.drop_last();
        let frame = looks.last().frame;
        &&& followed(start, init)
        &&& frame.end() <= u64::MAX
        &&& crate::peers::catch_up(Some(stands(start, init)), frame) matches Some(c)
            ==> looks.last().decoded.len() == crate::peers::keys_from(frame, c.from).len()
    }
}

/// Whether the key of the write `w` came in a look and could not be decoded.
pub open spec fn unreadable<K>(start: Cursor, looks: Seq<Look<K>>, w: WriteToken) -> bool
    decreases looks.len(),
{
    looks.len() > 0 && ({
        let init = looks.drop_last();
        let last = looks.last();
        ||| unreadable(start, init, w)
        ||| crate::peers::catch_up(Some(stands(start, init)), last.frame) matches Some(c)
            && w.epoch == last.frame.epoch && c.from <= w.seq < c.from + last.decoded.len()
            && last.decoded[w.seq - c.from] is None
    })
}

/// The token an event carries the frontier to once it is applied.
pub open spec fn carries_to<K>(event: PeerWrite<K>) -> WriteToken {
    match event {
        PeerWrite::Wrote { token, .. } => token,
        PeerWrite::Gap { missed_through, .. } => missed_through,
    }
}

/// Whether applying `event` takes care of the write `w`: it is that write, or
/// a gap that covers it.
pub open spec fn settles<K>(event: PeerWrite<K>, w: WriteToken) -> bool {
    match event {
        PeerWrite::Wrote { token, .. } => token == w,
        PeerWrite::Gap { missed_through, .. } => missed_through.covers(w),
    }
}

/// Whether one of the first `n` events takes care of `w`.
pub open spec fn settled<K>(events: Seq<PeerWrite<K>>, n: int, w: WriteToken) -> bool {
    exists|i: int| 0 <= i < n && settles(#[trigger] events[i], w)
}

/// The frontier once the first `n` events have been applied in order, each
/// advancing it to its token.
pub open spec fn applied<K>(peer: NodeId, events: Seq<PeerWrite<K>>, n: nat) -> Map<
    Seq<char>,
    WriteToken,
>
    decreases n,
{
    if n == 0 {
        Map::empty()
    } else {
        crate::watermarks::raised(
            applied(peer, events, (n - 1) as nat),
            peer@,
            carries_to(events[n - 1]),
        )
    }
}

/// Whether `w` stands at or past where the subscriber started.
pub open spec fn since(start: Cursor, w: WriteToken) -> bool {
    w.covers((WriteToken { epoch: start.epoch, seq: start.next }))
}

/// Read-your-writes: when the apply loop advances the frontier event by
/// event, a token is reached only once every write up to it, from where the
/// subscriber started, has been applied or is covered by an applied gap; only
/// a write whose key cannot be decoded is passed over. It holds however many
/// events have been applied, whatever the peer's feed showed in between, and
/// across the peer's restarts.
pub proof fn reached_means_applied<K>(
    peer: NodeId,
    start: Cursor,
    looks: Seq<Look<K>>,
    n: nat,
    token: WriteToken,
    w: WriteToken,
)
    requires
        followed(start, looks),
        n <= told(peer, start, looks).len(),
        crate::frontier::reached(applied(peer, told(peer, start, looks), n), peer@, token),
        token.covers(w),
        since(start, w),
    ensures
        settled(told(peer, start, looks), n as int, w) || unreadable(start, looks, w),
{
    let events = told(peer, start, looks);
    let i = lemma_reached_by(peer, events, n, token);
    lemma_settled_by(peer, start, looks, i, w);
    if settled(events, i + 1, w) {
        let j = choose|j: int| 0 <= j < i + 1 && settles(#[trigger] events[j], w);
        assert(settles(events[j], w));
    }
}

/// Nothing the peer published is lost: once everything told has been applied,
/// every write the subscriber has moved past was applied or is covered by an
/// applied gap, or its key cannot be decoded; and a barrier on any that was
/// applied or covered is met, also after the peer has restarted.
pub proof fn nothing_published_is_lost<K>(
    peer: NodeId,
    start: Cursor,
    looks: Seq<Look<K>>,
    w: WriteToken,
)
    requires
        followed(start, looks),
        since(start, w),
        w.below(
            (WriteToken { epoch: stands(start, looks).epoch, seq: stands(start, looks).next }),
        ),
    ensures
        settled(told(peer, start, looks), told(peer, start, looks).len() as int, w) || unreadable(
            start,
            looks,
            w,
        ),
        settled(told(peer, start, looks), told(peer, start, looks).len() as int, w)
            ==> crate::frontier::reached(
            applied(peer, told(peer, start, looks), told(peer, start, looks).len()),
            peer@,
            w,
        ),
    decreases looks.len(),
{
    let events = told(peer, start, looks);
    if looks.len() > 0 {
        let init = looks.drop_last();
        let at = stands(start, init);
        let before = told(peer, start, init);
        let last = looks.last();
        if w.below((WriteToken { epoch: at.epoch, seq: at.next })) {
            nothing_published_is_lost(peer, start, init, w);
            if settled(before, before.len() as int, w) {
                let i = choose|i: int| 0 <= i < before.len() && settles(#[trigger] before[i], w);
                assert(events[i] == before[i]);
            }
        } else {
            lemma_window(peer, at, last, w);
            let now = told_by(peer, at, last);
            if settled(now, now.len() as int, w) {
                let i = choose|i: int| 0 <= i < now.len() && settles(#[trigger] now[i], w);
                assert(events[before.len() + i] == now[i]);
            }
        }
    }
    if settled(events, events.len() as int, w) {
        let i = choose|i: int| 0 <= i < events.len() && settles(#[trigger] events[i], w);
        lemma_applied_covers(peer, events, events.len(), i);
    }
}

/// No write comes twice: among everything some looks tell, each write's token
/// stands above every token of a write told before it, at or past where the
/// subscriber started and behind where it ends up.
pub proof fn told_writes_ascend<K>(
    peer: NodeId,
    start: Cursor,
    looks: Seq<Look<K>>,
    i: int,
    j: int,
)
    requires
        followed(start, looks),
        0 <= i < told(peer, start, looks).len(),
        told(peer, start, looks)[i] is Wrote,
    ensures
        ({
            let events = told(peer, start, looks);
            let token = events[i]->token;
            let end = stands(start, looks);
            &&& token.epoch > start.epoch || (token.epoch == start.epoch && token.seq >= start.next)
            &&& token.epoch < end.epoch || (token.epoch == end.epoch && token.seq < end.next)
            &&& i < j < events.len() && events[j] is Wrote ==> events[j]->token.epoch > token.epoch
                || (events[j]->token.epoch == token.epoch && events[j]->token.seq > token.seq)
        }),
    decreases looks.len(),
{
    let events = told(peer, start, looks);
    let init = looks.drop_last();
    let earlier = told(peer, start, init);
    let at = stands(start, init);
    let last = looks.last();
    let now = told_by(peer, at, last);
    lemma_stands_on(start, init);
    if i < earlier.len() {
        assert(events[i] == earlier[i]);
        told_writes_ascend(peer, start, init, i, j);
        if j < earlier.len() {
            if i < j {
                assert(events[j] == earlier[j]);
            }
        } else if j < events.len() && events[j] is Wrote {
            assert(events[j] == now[j - earlier.len()]);
            lemma_told_by(peer, at, last, j - earlier.len());
        }
    } else {
        assert(events[i] == now[i - earlier.len()]);
        lemma_told_by(peer, at, last, i - earlier.len());
        if i < j < events.len() {
            assert(events[j] == now[j - earlier.len()]);
        }
    }
}

proof fn lemma_stands_on<K>(start: Cursor, looks: Seq<Look<K>>)
    requires
        followed(start, looks),
    ensures
        stands(start, looks).epoch > start.epoch || (stands(start, looks).epoch == start.epoch
            && stands(start, looks).next >= start.next),
    decreases looks.len(),
{
    if looks.len() > 0 {
        lemma_stands_on(start, looks.drop_last());
    }
}

proof fn lemma_told_by<K>(peer: NodeId, at: Cursor, look: Look<K>, i: int)
    requires
        look.frame.end() <= u64::MAX,
        crate::peers::catch_up(Some(at), look.frame) matches Some(c) ==> look.decoded.len()
            == crate::peers::keys_from(look.frame, c.from).len(),
        0 <= i < told_by(peer, at, look).len(),
        told_by(peer, at, look)[i] is Wrote,
    ensures
        ({
            let now = told_by(peer, at, look);
            let token = now[i]->token;
            let end = moved(at, look.frame);
            &&& token.epoch > at.epoch || (token.epoch == at.epoch && token.seq >= at.next)
            &&& token.epoch == end.epoch && token.seq < end.next
            &&& forall|j: int|
                i < j < now.len() ==> (#[trigger] now[j]) is Wrote && now[j]->token.epoch
                    == token.epoch && now[j]->token.seq > token.seq
        }),
{
    let f = look.frame;
    let c = crate::peers::catch_up(Some(at), f)->0;
    let now = told_by(peer, at, look);
    let writes = crate::peers::wrote(peer, f.epoch, c.from as int, look.decoded);
    let shift = now.len() - writes.len();
    crate::peers::every_readable_key_is_told(peer, f.epoch, c.from as int, look.decoded);
    crate::peers::writes_are_told_in_order(Some(at), f, peer, look.decoded);
    assert(now[i] == writes[i - shift]);
    assert forall|j: int| i < j < now.len() implies (#[trigger] now[j]) is Wrote
        && now[j]->token.epoch == now[i]->token.epoch && now[j]->token.seq > now[i]->token.seq by {
        assert(now[j] == writes[j - shift]);
        assert(writes[i - shift]->token.below(writes[j - shift]->token));
    }
}

/// A scan is a look: it queues what the look tells, moves the subscriber as
/// the look does, and leaves it where it stands in every other feed. A peer
/// seen for the first time is looked at from the front of its window.
pub proof fn a_scan_is_a_look<K>(
    peers: PeersView<K>,
    peer: NodeId,
    look: Look<K>,
    other: Seq<char>,
)
    requires
        other != peer@,
    ensures
        ({
            let at = match peers.cursor(peer@) {
                Some(cursor) => cursor,
                None => Cursor { epoch: look.frame.epoch, next: look.frame.first_seq },
            };
            let scanned = peers.scanned(peer, Some(look.frame), look.decoded);
            &&& scanned.pending == peers.pending + told_by(peer, at, look)
            &&& scanned.cursor(peer@) == Some(moved(at, look.frame))
            &&& scanned.cursor(other) == peers.cursor(other)
        }),
{
    let at = match peers.cursor(peer@) {
        Some(cursor) => cursor,
        None => Cursor { epoch: look.frame.epoch, next: look.frame.first_seq },
    };
    let scanned = peers.scanned(peer, Some(look.frame), look.decoded);
    assert(scanned.pending =~= peers.pending + told_by(peer, at, look));
}

proof fn lemma_applied_covers<K>(peer: NodeId, events: Seq<PeerWrite<K>>, n: nat, i: int)
    requires
        0 <= i < n <= events.len(),
    ensures
        applied(peer, events, n).contains_key(peer@),
        applied(peer, events, n)[peer@].covers(carries_to(events[i])),
    decreases n,
{
    if i < n - 1 {
        lemma_applied_covers(peer, events, (n - 1) as nat, i);
    }
}

proof fn lemma_reached_by<K>(
    peer: NodeId,
    events: Seq<PeerWrite<K>>,
    n: nat,
    token: WriteToken,
) -> (i: int)
    requires
        n <= events.len(),
        crate::frontier::reached(applied(peer, events, n), peer@, token),
    ensures
        0 <= i < n,
        carries_to(events[i]).covers(token),
    decreases n,
{
    let before = applied(peer, events, (n - 1) as nat);
    if n > 0 && !carries_to(events[n - 1]).covers(token) && before.contains_key(peer@) {
        lemma_reached_by(peer, events, (n - 1) as nat, token)
    } else {
        n - 1
    }
}

/// One look takes care of everything from the cursor up to where it moves.
proof fn lemma_window<K>(peer: NodeId, at: Cursor, look: Look<K>, w: WriteToken)
    requires
        look.frame.end() <= u64::MAX,
        since(at, w),
        w.below(
            (WriteToken {
                epoch: moved(at, look.frame).epoch,
                seq: moved(at, look.frame).next,
            }),
        ),
        crate::peers::catch_up(Some(at), look.frame) matches Some(c) ==> look.decoded.len()
            == crate::peers::keys_from(look.frame, c.from).len(),
    ensures
        crate::peers::catch_up(Some(at), look.frame) is Some,
        ({
            let c = crate::peers::catch_up(Some(at), look.frame)->0;
            let now = told_by(peer, at, look);
            ||| settled(now, now.len() as int, w)
            ||| w.epoch == look.frame.epoch && c.from <= w.seq < c.from + look.decoded.len()
                && look.decoded[w.seq - c.from] is None
        }),
{
    let f = look.frame;
    let c = crate::peers::catch_up(Some(at), f)->0;
    let now = told_by(peer, at, look);
    crate::peers::no_write_is_silently_skipped(at, f, w);
    if c.gap matches Some(missed) && missed.covers(w) {
        assert(settles(now[0], w));
    } else if look.decoded[w.seq - c.from] is Some {
        let writes = crate::peers::wrote(peer, f.epoch, c.from as int, look.decoded);
        crate::peers::every_readable_key_is_told(peer, f.epoch, c.from as int, look.decoded);
        let k = w.seq - c.from;
        let event = PeerWrite::Wrote { peer, token: w, key: look.decoded[k]->0 };
        assert(writes.contains(event));
        let i = choose|i: int| 0 <= i < writes.len() && writes[i] == event;
        let shift = now.len() - writes.len();
        assert(now[shift + i] == writes[i]);
        assert(settles(now[shift + i], w));
    }
}

/// By the time an event is applied, everything up to its token has been taken
/// care of.
proof fn lemma_settled_by<K>(
    peer: NodeId,
    start: Cursor,
    looks: Seq<Look<K>>,
    i: int,
    w: WriteToken,
)
    requires
        followed(start, looks),
        0 <= i < told(peer, start, looks).len(),
        carries_to(told(peer, start, looks)[i]).covers(w),
        since(start, w),
    ensures
        settled(told(peer, start, looks), i + 1, w) || unreadable(start, looks, w),
    decreases looks.len(),
{
    let events = told(peer, start, looks);
    let init = looks.drop_last();
    let before = told(peer, start, init);
    let at = stands(start, init);
    let last = looks.last();
    if i < before.len() {
        assert(events[i] == before[i]);
        lemma_settled_by(peer, start, init, i, w);
        if settled(before, i + 1, w) {
            let j = choose|j: int| 0 <= j < i + 1 && settles(#[trigger] before[j], w);
            assert(events[j] == before[j]);
        }
    } else if w.below((WriteToken { epoch: at.epoch, seq: at.next })) {
        nothing_published_is_lost(peer, start, init, w);
        if settled(before, before.len() as int, w) {
            let j = choose|j: int| 0 <= j < before.len() && settles(#[trigger] before[j], w);
            assert(events[j] == before[j]);
        }
    } else {
        let now = told_by(peer, at, last);
        let k = i - before.len();
        assert(events[i] == now[k]);
        lemma_settled_within(peer, at, last, k, w);
        if settled(now, k + 1, w) {
            let j = choose|j: int| 0 <= j < k + 1 && settles(#[trigger] now[j], w);
            assert(events[before.len() + j] == now[j]);
        }
    }
}

proof fn lemma_settled_within<K>(peer: NodeId, at: Cursor, look: Look<K>, k: int, w: WriteToken)
    requires
        look.frame.end() <= u64::MAX,
        crate::peers::catch_up(Some(at), look.frame) matches Some(c) ==> look.decoded.len()
            == crate::peers::keys_from(look.frame, c.from).len(),
        0 <= k < told_by(peer, at, look).len(),
        carries_to(told_by(peer, at, look)[k]).covers(w),
        since(at, w),
    ensures
        crate::peers::catch_up(Some(at), look.frame) is Some,
        ({
            let c = crate::peers::catch_up(Some(at), look.frame)->0;
            ||| settled(told_by(peer, at, look), k + 1, w)
            ||| w.epoch == look.frame.epoch && c.from <= w.seq < c.from + look.decoded.len()
                && look.decoded[w.seq - c.from] is None
        }),
{
    let f = look.frame;
    let c = crate::peers::catch_up(Some(at), f)->0;
    let now = told_by(peer, at, look);
    let writes = crate::peers::wrote(peer, f.epoch, c.from as int, look.decoded);
    let shift = now.len() - writes.len();
    crate::peers::every_readable_key_is_told(peer, f.epoch, c.from as int, look.decoded);
    crate::peers::writes_are_told_in_order(Some(at), f, peer, look.decoded);
    if k < shift {
        assert(settles(now[k], w));
    } else {
        assert(now[k] == writes[k - shift]);
        crate::peers::no_write_is_silently_skipped(at, f, w);
        if c.gap matches Some(missed) && missed.covers(w) {
            assert(settles(now[0], w));
        } else if look.decoded[w.seq - c.from] is Some {
            let event = PeerWrite::Wrote { peer, token: w, key: look.decoded[w.seq - c.from]->0 };
            assert(writes.contains(event));
            let j = choose|j: int| 0 <= j < writes.len() && writes[j] == event;
            if j > k - shift {
                assert(writes[k - shift]->token.below(writes[j]->token));
            }
            assert(now[shift + j] == writes[j]);
            assert(settles(now[shift + j], w));
        }
    }
}

} // verus!
