//! Publisher half: [`WriteFeed`] and its ring of recent writes.

use crate::group::EntryWrite;
use crate::token::WriteToken;
use crate::wire::{Frame, FrameView};
use std::collections::VecDeque;
use vstd::prelude::*;

verus! {

/// Ring of the last N encoded writes; `first_seq` is always the sequence
/// number of the front element.
#[derive(Debug)]
pub struct Ring {
    epoch: u64,
    first_seq: u64,
    keys: VecDeque<Vec<u8>>,
    capacity: usize,
    max_frame_bytes: usize,
    encoded_keys_bytes: usize,
}

/// What a ring holds.
pub struct RingView {
    pub epoch: u64,
    pub first_seq: int,
    pub keys: Seq<Seq<u8>>,
    pub capacity: nat,
    pub max_frame_bytes: nat,
}

/// The length of the frame that advertises `keys`, at most the largest that
/// can be counted.
pub open spec fn frame_len(keys: Seq<Seq<u8>>) -> int {
    if 20 + crate::wire::keys_size(keys) <= usize::MAX {
        20int + crate::wire::keys_size(keys)
    } else {
        usize::MAX as int
    }
}

impl RingView {
    /// The sequence number the next write gets.
    pub open spec fn end(self) -> int {
        self.first_seq + self.keys.len()
    }

    /// Whether a window of writes may stand in the ring: no more than its
    /// capacity, and within the frame budget unless it is a single write.
    pub open spec fn admits(self, keys: Seq<Seq<u8>>) -> bool {
        keys.len() <= self.capacity && (keys.len() <= 1 || frame_len(keys) <= self.max_frame_bytes)
    }

    /// How many of the oldest writes must go before the rest may stand.
    pub open spec fn surplus(self, keys: Seq<Seq<u8>>) -> nat
        decreases keys.len(),
    {
        if keys.len() == 0 || self.admits(keys) {
            0
        } else {
            1 + self.surplus(keys.subrange(1, keys.len() as int))
        }
    }

    /// The ring without its `n` oldest writes.
    pub open spec fn without(self, n: int) -> RingView {
        RingView {
            first_seq: self.first_seq + n,
            keys: self.keys.subrange(n, self.keys.len() as int),
            ..self
        }
    }

    /// The ring after one more write: the newest writes that may stand.
    pub open spec fn pushed(self, key: Seq<u8>) -> RingView {
        let all = RingView { keys: self.keys.push(key), ..self };
        all.without(self.surplus(all.keys) as int)
    }

    /// How many of the oldest writes `token` retires: those of this life at
    /// or below it, never the newest.
    pub open spec fn retired(self, token: WriteToken) -> int {
        if token.epoch != self.epoch || self.keys.len() <= 1 || token.seq < self.first_seq {
            0
        } else if token.seq - self.first_seq + 1 < self.keys.len() - 1 {
            token.seq - self.first_seq + 1
        } else {
            self.keys.len() - 1
        }
    }

    /// The frame that advertises the ring.
    pub open spec fn frame(self) -> FrameView {
        FrameView { epoch: self.epoch, first_seq: self.first_seq as u64, keys: self.keys }
    }

    /// The token of the newest write.
    pub open spec fn last(self) -> Option<WriteToken> {
        if self.keys.len() == 0 {
            None
        } else {
            Some(WriteToken { epoch: self.epoch, seq: (self.end() - 1) as u64 })
        }
    }
}

impl View for Ring {
    type V = RingView;

    closed spec fn view(&self) -> RingView {
        RingView {
            epoch: self.epoch,
            first_seq: self.first_seq as int,
            keys: crate::wire::contents(self.keys@),
            capacity: self.capacity as nat,
            max_frame_bytes: self.max_frame_bytes as nat,
        }
    }
}

proof fn lemma_size_push(keys: Seq<Seq<u8>>, key: Seq<u8>)
    ensures
        crate::wire::keys_size(keys.push(key)) == crate::wire::keys_size(keys) + 4 + key.len(),
    decreases keys.len(),
{
    let all = keys.push(key);
    if keys.len() > 0 {
        let rest = keys.subrange(1, keys.len() as int);
        lemma_size_push(rest, key);
        assert(all.subrange(1, all.len() as int) =~= rest.push(key));
    } else {
        assert(all.subrange(1, all.len() as int) =~= keys);
    }
}

proof fn lemma_surplus(ring: RingView, keys: Seq<Seq<u8>>)
    ensures
        ring.surplus(keys) <= keys.len(),
        ring.admits(keys.subrange(ring.surplus(keys) as int, keys.len() as int)),
        forall|d: int|
            0 <= d < ring.surplus(keys) ==> !ring.admits(
                #[trigger] keys.subrange(d, keys.len() as int),
            ),
    decreases keys.len(),
{
    assert(keys.subrange(0, keys.len() as int) =~= keys);
    if keys.len() != 0 && !ring.admits(keys) {
        let rest = keys.subrange(1, keys.len() as int);
        lemma_surplus(ring, rest);
        let n = ring.surplus(rest) as int;
        assert(rest.subrange(n, rest.len() as int) =~= keys.subrange(n + 1, keys.len() as int));
        assert forall|d: int| 0 <= d < ring.surplus(keys) implies !ring.admits(
            #[trigger] keys.subrange(d, keys.len() as int),
        ) by {
            if d > 0 {
                assert(rest.subrange(d - 1, rest.len() as int) =~= keys.subrange(
                    d,
                    keys.len() as int,
                ));
            }
        }
    }
}

/// A push keeps the longest run of newest writes that may stand, and with it
/// the number of every write in it; the new write's number is the one after
/// the last.
pub proof fn a_push_keeps_the_newest_window(ring: RingView, key: Seq<u8>)
    ensures
        ring.admits(ring.pushed(key).keys),
        ring.pushed(key).first_seq >= ring.first_seq,
        ring.pushed(key).end() == ring.end() + 1,
        forall|s: int|
            ring.pushed(key).first_seq <= s < ring.end() ==> #[trigger] ring.pushed(key).keys[s
                - ring.pushed(key).first_seq] == ring.keys[s - ring.first_seq],
        ring.capacity >= 1 ==> ring.pushed(key).keys.len() >= 1 && ring.pushed(key).keys.last()
            == key,
        forall|d: int|
            0 <= d < ring.pushed(key).first_seq - ring.first_seq ==> !ring.admits(
                #[trigger] ring.keys.push(key).subrange(d, (ring.keys.len() + 1) as int),
            ),
{
    let all = ring.keys.push(key);
    lemma_surplus(ring, all);
    if ring.capacity >= 1 {
        let last = all.subrange(all.len() - 1, all.len() as int);
        assert(last.len() == 1);
        assert(ring.surplus(all) < all.len()) by {
            if ring.surplus(all) == all.len() {
                assert(!ring.admits(all.subrange(all.len() - 1, all.len() as int)));
            }
        }
    }
}

/// What a push leaves in the ring is within its capacity and its frame budget,
/// and nothing went that could have stayed: with the next older write the
/// window would be too long or, on the wire, too large.
pub proof fn a_push_drops_only_what_cannot_stay(ring: RingView, key: Seq<u8>)
    requires
        ring.capacity >= 1,
        ring.max_frame_bytes < usize::MAX,
    ensures
        ({
            let now = ring.pushed(key);
            let all = ring.keys.push(key);
            let gone = now.first_seq - ring.first_seq;
            &&& now.epoch == ring.epoch
            &&& now.capacity == ring.capacity
            &&& now.max_frame_bytes == ring.max_frame_bytes
            &&& 0 <= gone <= ring.keys.len()
            &&& now.keys == all.subrange(gone, all.len() as int)
            &&& now.keys.len() <= ring.capacity
            &&& now.keys.len() > 1 ==> 20 + crate::wire::keys_size(now.keys)
                <= ring.max_frame_bytes
            &&& gone > 0 ==> {
                let longer = all.subrange(gone - 1, all.len() as int);
                longer.len() > ring.capacity || 20 + crate::wire::keys_size(longer)
                    > ring.max_frame_bytes
            }
        }),
{
    let now = ring.pushed(key);
    let all = ring.keys.push(key);
    let gone = now.first_seq - ring.first_seq;
    lemma_surplus(ring, all);
    a_push_keeps_the_newest_window(ring, key);
    if gone > 0 {
        assert(!ring.admits(all.subrange(gone - 1, all.len() as int)));
    }
}

/// What a window takes on the wire is what each of its writes takes.
pub proof fn a_window_takes_what_its_writes_take(keys: Seq<Seq<u8>>, key: Seq<u8>)
    ensures
        crate::wire::keys_size(Seq::empty()) == 0,
        crate::wire::keys_size(keys.push(key)) == crate::wire::keys_size(keys) + 4 + key.len(),
{
    lemma_size_push(keys, key);
}

/// A ring that holds more than one write after a push fits its frame budget:
/// the advertised frame is never longer than the budget, unless one write
/// alone is.
pub proof fn a_push_keeps_the_frame_within_budget(ring: RingView, key: Seq<u8>)
    ensures
        ring.pushed(key).keys.len() > 1 && ring.pushed(key).frame().bytes().len() <= usize::MAX
            ==> ring.pushed(key).frame().bytes().len() <= ring.max_frame_bytes,
{
    a_push_keeps_the_newest_window(ring, key);
    crate::wire::lemma_frame_size(ring.pushed(key).frame());
}

/// Retirement never drops the newest write, never moves a number and never
/// moves the window backwards; retiring the same token, or an older one,
/// again changes nothing.
pub proof fn retirement_keeps_the_head(ring: RingView, token: WriteToken, older: WriteToken)
    ensures
        ring.without(ring.retired(token)).end() == ring.end(),
        ring.without(ring.retired(token)).first_seq >= ring.first_seq,
        ring.without(ring.retired(token)).last() == ring.last(),
        ring.keys.len() > 0 ==> ring.without(ring.retired(token)).keys.last() == ring.keys.last(),
        older.epoch == token.epoch && older.seq <= token.seq ==> ring.without(
            ring.retired(token),
        ).retired(older) == 0,
{
}

/// A token retires the writes of its own life that it covers, all of them but
/// the newest of the ring, and no other write.
pub proof fn what_a_token_retires(ring: RingView, token: WriteToken, s: int)
    requires
        ring.first_seq <= s < ring.end(),
        1 <= ring.first_seq,
    ensures
        ({
            let now = ring.without(ring.retired(token));
            &&& now.first_seq <= s <==> !(token.epoch == ring.epoch && s <= token.seq && s
                < ring.end() - 1)
            &&& now.first_seq <= s ==> now.keys[s - now.first_seq] == ring.keys[s - ring.first_seq]
            &&& now.end() == ring.end()
            &&& now.epoch == ring.epoch
        }),
{
}

/// One thing that is done to a feed.
pub enum FeedStep {
    /// A key is published.
    Publish(Seq<u8>),
    /// Writes through a token are retired.
    Retire(WriteToken),
    /// The feed is advertised again.
    Republish,
}

/// The ring of a feed that has been through some steps.
pub open spec fn lived(fresh: RingView, steps: Seq<FeedStep>) -> RingView
    decreases steps.len(),
{
    if steps.len() == 0 {
        fresh
    } else {
        let ring = lived(fresh, steps.drop_last());
        match steps.last() {
            FeedStep::Publish(key) => ring.pushed(key),
            FeedStep::Retire(token) => ring.without(ring.retired(token)),
            FeedStep::Republish => ring,
        }
    }
}

/// How many keys have been published in some steps.
pub open spec fn publishes(steps: Seq<FeedStep>) -> nat
    decreases steps.len(),
{
    if steps.len() == 0 {
        0
    } else {
        publishes(steps.drop_last()) + if steps.last() is Publish {
            1nat
        } else {
            0nat
        }
    }
}

/// The tokens of one feed life start at 1 and rise by exactly one with each
/// publish, whatever the ring has dropped or retired in between: after `n`
/// publishes the next write gets the number `n + 1`, and the last token is the
/// one numbered `n`.
pub proof fn tokens_count_the_publishes(fresh: RingView, steps: Seq<FeedStep>)
    requires
        fresh.first_seq == 1,
        fresh.keys.len() == 0,
        fresh.capacity >= 1,
    ensures
        lived(fresh, steps).end() == publishes(steps) + 1,
        lived(fresh, steps).epoch == fresh.epoch,
        lived(fresh, steps).last() == (if publishes(steps) > 0 {
            Some(WriteToken { epoch: fresh.epoch, seq: publishes(steps) as u64 })
        } else {
            None
        }),
        lived(fresh, steps).capacity == fresh.capacity,
        lived(fresh, steps).max_frame_bytes == fresh.max_frame_bytes,
        lived(fresh, steps).first_seq >= 1,
    decreases steps.len(),
{
    if steps.len() > 0 {
        let init = steps.drop_last();
        let ring = lived(fresh, init);
        tokens_count_the_publishes(fresh, init);
        match steps.last() {
            FeedStep::Publish(key) => a_push_keeps_the_newest_window(ring, key),
            FeedStep::Retire(token) => retirement_keeps_the_head(ring, token, token),
            FeedStep::Republish => {},
        }
    }
}

/// Peers that read the advertised frame see the newest write as its head,
/// and each key in the window under the number it was published with.
pub proof fn the_advertised_frame_is_the_ring(ring: RingView)
    requires
        ring.frame().fits(),
        1 <= ring.first_seq,
        ring.end() <= u64::MAX,
    ensures
        crate::wire::parse_frame(ring.frame().bytes()) == Some(ring.frame()),
        crate::peers::head_of(crate::wire::parse_frame(ring.frame().bytes())) == ring.last(),
{
    crate::wire::frames_read_back(ring.frame(), Seq::empty());
    assert(ring.frame().bytes() + Seq::<u8>::empty() =~= ring.frame().bytes());
}

impl Ring {
    /// The accounting the ring keeps: its byte count is what its keys take on
    /// the wire, and the next number can be counted.
    pub closed spec fn wf(&self) -> bool {
        &&& self.encoded_keys_bytes == crate::wire::keys_size(self@.keys)
        &&& self@.end() <= u64::MAX
        &&& self@.first_seq >= 1
    }

    /// An empty ring of the feed life `epoch`, counting from 1.
    pub fn new(epoch: u64, capacity: usize, max_frame_bytes: usize) -> (r: Ring)
        ensures
            r.wf(),
            r@ == (RingView {
                epoch,
                first_seq: 1,
                keys: Seq::empty(),
                capacity: capacity as nat,
                max_frame_bytes: max_frame_bytes as nat,
            }),
    {
        let r = Ring {
            epoch,
            first_seq: 1,
            keys: VecDeque::new(),
            capacity,
            max_frame_bytes,
            encoded_keys_bytes: 0,
        };
        proof {
            assert(r@.keys =~= Seq::<Seq<u8>>::empty());
        }
        r
    }

    /// What a well-formed ring guarantees of its numbers.
    pub proof fn lemma_wf(&self)
        requires
            self.wf(),
        ensures
            1 <= self@.first_seq,
            self@.end() <= u64::MAX,
    {
    }

    fn drop_front(&mut self)
        requires
            old(self).wf(),
            old(self)@.keys.len() > 0,
        ensures
            final(self).wf(),
            final(self)@ == old(self)@.without(1),
    {
        let ghost before = self@;
        let ghost held = self.keys@;
        match self.keys.pop_front() {
            Some(removed) => {
                proof {
                    assert(removed@ == before.keys[0]);
                    assert(crate::wire::contents(self.keys@) =~= before.keys.subrange(
                        1,
                        before.keys.len() as int,
                    ));
                }
                self.encoded_keys_bytes = self.encoded_keys_bytes - (4 + removed.len());
                self.first_seq = self.first_seq + 1;
            },
            None => {},
        }
        proof {
            assert(self@.keys =~= before.without(1).keys);
        }
    }

    /// Appends a write, then drops the oldest ones until the rest may stand.
    pub fn push(&mut self, key: Vec<u8>)
        requires
            old(self).wf(),
            old(self)@.end() < u64::MAX,
            4 + crate::wire::keys_size(old(self)@.keys) + key@.len() <= usize::MAX,
        ensures
            final(self).wf(),
            final(self)@ == old(self)@.pushed(key@),
    {
        let ghost before = self@;
        let ghost all = RingView { keys: before.keys.push(key@), ..before };
        proof {
            lemma_size_push(before.keys, key@);
        }
        self.encoded_keys_bytes = self.encoded_keys_bytes + (4 + key.len());
        self.keys.push_back(key);
        proof {
            assert(self@.keys =~= all.keys);
            assert(all.without(0).keys =~= all.keys);
            lemma_surplus(before, all.keys);
        }
        let ghost mut dropped: int = 0;
        while self.keys.len() > self.capacity || (self.keys.len() > 1 && self.encoded_len()
            > self.max_frame_bytes)
            invariant
                self.wf(),
                0 <= dropped <= all.keys.len(),
                self@ == all.without(dropped),
                before.capacity == all.capacity,
                before.max_frame_bytes == all.max_frame_bytes,
                before.surplus(all.keys) == dropped + before.surplus(self@.keys),
            decreases self@.keys.len(),
        {
            let ghost now = self@;
            self.drop_front();
            proof {
                assert(self@.keys =~= all.without(dropped + 1).keys);
                assert(!before.admits(now.keys));
                dropped = dropped + 1;
            }
        }
        proof {
            assert(before.admits(self@.keys));
        }
    }

    /// The length of the frame that advertises the ring, at most the largest
    /// that can be counted.
    pub fn encoded_len(&self) -> (r: usize)
        requires
            self.wf(),
        ensures
            r == frame_len(self@.keys),
            r < usize::MAX ==> r == self@.frame().bytes().len(),
    {
        proof {
            crate::wire::lemma_frame_size(self@.frame());
        }
        let header: usize = 20;
        header.saturating_add(self.encoded_keys_bytes)
    }

    /// Retires the acknowledged prefix while keeping the newest write as a
    /// sequence anchor for subscribers, telling whether anything went.
    pub fn retire_through(&mut self, token: WriteToken) -> (changed: bool)
        requires
            old(self).wf(),
        ensures
            final(self).wf(),
            final(self)@ == old(self)@.without(old(self)@.retired(token)),
            changed == (old(self)@.retired(token) > 0),
    {
        let ghost before = self@;
        let ghost target = before.retired(token);
        proof {
            assert(before.without(0).keys =~= before.keys);
        }
        if token.epoch != self.epoch || self.keys.len() <= 1 || token.seq < self.first_seq {
            return false;
        }
        let mut changed: bool = false;
        let ghost mut gone: int = 0;
        while self.keys.len() > 1 && self.first_seq <= token.seq
            invariant
                self.wf(),
                0 <= gone <= target,
                target == before.retired(token),
                before.keys.len() > 1,
                token.epoch == before.epoch,
                token.seq >= before.first_seq,
                self@ == before.without(gone),
                changed == (gone > 0),
            decreases self@.keys.len(),
        {
            self.drop_front();
            changed = true;
            proof {
                gone = gone + 1;
                assert(self@.keys =~= before.without(gone).keys);
            }
        }
        changed
    }

    /// The frame that advertises the ring.
    pub fn frame(&self) -> (r: Frame)
        requires
            self.wf(),
        ensures
            r@ == self@.frame(),
    {
        let mut keys: Vec<Vec<u8>> = Vec::new();
        let mut i: usize = 0;
        while i < self.keys.len()
            invariant
                i <= self.keys@.len(),
                keys@.len() == i,
                forall|j: int| 0 <= j < i ==> (#[trigger] keys@[j])@ == self.keys@[j]@,
            decreases self.keys@.len() - i,
        {
            keys.push(vstd::slice::slice_to_vec(self.keys[i].as_slice()));
            i = i + 1;
        }
        proof {
            assert(crate::wire::contents(keys@) =~= crate::wire::contents(self.keys@));
        }
        Frame { epoch: self.epoch, first_seq: self.first_seq, keys }
    }
}

/// Publisher half: advertises this node's writes to the group.
///
/// The feed is state, not a log: an advertisement that never reached the
/// group is carried again by the next one.
#[derive(Debug)]
pub struct WriteFeed {
    key: String,
    ring: Ring,
}

/// What a feed is: its entry key, and its ring.
pub struct FeedView {
    pub key: Seq<char>,
    pub ring: RingView,
}

impl View for WriteFeed {
    type V = FeedView;

    closed spec fn view(&self) -> FeedView {
        FeedView { key: self.key@, ring: self.ring@ }
    }
}

/// What advertises a feed: its whole frame under its key, never expiring.
pub open spec fn advertises(w: EntryWrite, feed: FeedView) -> bool {
    &&& w.key@ == feed.key
    &&& w.value@ == feed.ring.frame().bytes()
    &&& w.ttl_ms is None
}

impl WriteFeed {
    /// The feed's ring keeps its accounting.
    pub closed spec fn wf(&self) -> bool {
        self.ring.wf()
    }

    /// What a well-formed feed guarantees of its numbers.
    pub proof fn lemma_wf(&self)
        requires
            self.wf(),
        ensures
            1 <= self@.ring.first_seq,
            self@.ring.end() <= u64::MAX,
    {
    }

    /// The default feed, remembering the last `capacity` writes, in the feed
    /// life `epoch`.
    pub fn new(capacity: usize, max_frame_bytes: usize, epoch: u64) -> (r: WriteFeed)
        requires
            capacity >= 1,
        ensures
            r.wf(),
            r@.key == crate::wire::ENTRY_KEY@,
            r@.ring == (RingView {
                epoch,
                first_seq: 1,
                keys: Seq::empty(),
                capacity: capacity as nat,
                max_frame_bytes: max_frame_bytes as nat,
            }),
    {
        proof {
            reveal_strlit("");
        }
        WriteFeed::named("", capacity, max_frame_bytes, epoch)
    }

    /// A named feed: independent subsystems sharing one group name their
    /// feeds so they occupy distinct entries.
    ///
    /// `capacity` is an upper bound: the ring is also trimmed to the frame
    /// budget, so large keys shorten the replay window.
    pub fn named(name: &str, capacity: usize, max_frame_bytes: usize, epoch: u64) -> (r: WriteFeed)
        requires
            capacity >= 1,
        ensures
            r.wf(),
            r@.key == crate::wire::scoped_key(crate::wire::ENTRY_KEY@, name@),
            r@.ring == (RingView {
                epoch,
                first_seq: 1,
                keys: Seq::empty(),
                capacity: capacity as nat,
                max_frame_bytes: max_frame_bytes as nat,
            }),
    {
        WriteFeed {
            key: crate::wire::entry_key(name),
            ring: Ring::new(epoch, capacity, max_frame_bytes),
        }
    }

    /// Replaces the epoch: to be called before the first publish.
    pub fn with_epoch(self, epoch: u64) -> (r: WriteFeed)
        requires
            self.wf(),
        ensures
            r.wf(),
            r@ == (FeedView { ring: (RingView { epoch, ..self@.ring }), ..self@ }),
    {
        let mut feed = self;
        feed.ring.epoch = epoch;
        feed
    }

    /// This feed life's epoch, the `epoch` half of every token it issues.
    pub fn epoch(&self) -> (r: u64)
        ensures
            r == self@.ring.epoch,
    {
        self.ring.epoch
    }

    /// The token of the most recent publish this life.
    pub fn last_token(&self) -> (r: Option<WriteToken>)
        requires
            self.wf(),
        ensures
            r == self@.ring.last(),
    {
        let len: u64 = self.ring.keys.len() as u64;
        if len > 0 {
            Some(WriteToken { epoch: self.ring.epoch, seq: self.ring.first_seq + (len - 1) })
        } else {
            None
        }
    }

    /// Whether the feed can take one more write of `len` bytes: its numbers
    /// and its byte count must not run out.
    pub fn takes(&self, len: usize) -> (r: bool)
        requires
            self.wf(),
        ensures
            r == (self@.ring.end() < u64::MAX && 4 + crate::wire::keys_size(self@.ring.keys) + len
                <= usize::MAX),
    {
        let room: usize = usize::MAX - self.ring.encoded_keys_bytes;
        let used: u64 = self.ring.keys.len() as u64;
        self.ring.first_seq < u64::MAX - used && room >= 4 && len <= room - 4
    }

    /// Records an encoded key as written, handing back the write's token and
    /// the advertisement of the updated feed.
    pub fn publish(&mut self, key: Vec<u8>) -> (r: (WriteToken, EntryWrite))
        requires
            old(self).wf(),
            old(self)@.ring.end() < u64::MAX,
            4 + crate::wire::keys_size(old(self)@.ring.keys) + key@.len() <= usize::MAX,
        ensures
            final(self).wf(),
            r.0 == (WriteToken {
                epoch: old(self)@.ring.epoch,
                seq: old(self)@.ring.end() as u64,
            }),
            final(self)@ == (FeedView { ring: old(self)@.ring.pushed(key@), ..old(self)@ }),
            advertises(r.1, final(self)@),
    {
        let token = WriteToken {
            epoch: self.ring.epoch,
            seq: self.ring.first_seq + self.ring.keys.len() as u64,
        };
        self.ring.push(key);
        (token, self.republish())
    }

    /// Retires writes through `token` from the advertised history, handing
    /// back the shortened advertisement when anything went.
    ///
    /// The newest write of this life is always kept as the advertised head.
    /// A token of another life, one older than the window, an empty feed and
    /// a retirement already made change nothing.
    pub fn retire_through(&mut self, token: WriteToken) -> (r: Option<EntryWrite>)
        requires
            old(self).wf(),
        ensures
            final(self).wf(),
            final(self)@ == (FeedView {
                ring: old(self)@.ring.without(old(self)@.ring.retired(token)),
                ..old(self)@
            }),
            match r {
                Some(w) => old(self)@.ring.retired(token) > 0 && advertises(w, final(self)@),
                None => old(self)@.ring.retired(token) == 0,
            },
    {
        if self.ring.retire_through(token) {
            Some(self.republish())
        } else {
            None
        }
    }

    /// The advertisement of the feed as it stands, recording no new write.
    pub fn republish(&self) -> (r: EntryWrite)
        requires
            self.wf(),
        ensures
            advertises(r, self@),
    {
        EntryWrite { key: self.key.clone(), value: self.ring.frame().encode(), ttl_ms: None }
    }
}

} // verus!
