//! One node's participation in a lease set: renewing its own right to serve,
//! granting every other reader's, and holding coherent writes until every
//! lease-holder has either applied them or lapsed.
//!
//! Nothing here waits or writes: each step takes what the node sees and what
//! the clock says, and hands back what to write.

use crate::group::{EntryWrite, GroupView};
use crate::idmap::{IdMap, IdSet};
use crate::ids::NodeId;
use crate::lease::coherence::{CoherenceCore, CoherenceStep, Progress, WaitMember};
use crate::lease::config::{CoherenceOutcome, LeaseConfig, LeaseState, CAP_LEASE};
use crate::lease::reader::{ClockMs, LeaseCore, LeaseModel};
use crate::lease::wire::{GrantMap, RenewalId};
use crate::peers::{Signal, Wake};
use crate::token::WriteToken;
use core::time::Duration;
use vstd::prelude::*;

verus! {

/// The serve deadline to publish at `now`: the end of the window while the
/// reader may serve and has warmed up, and nothing otherwise.
pub open spec fn deadline(core: LeaseModel, warmed: bool, now: ClockMs) -> Option<ClockMs> {
    if warmed && core.state(now) == LeaseState::Serving {
        core.until()
    } else {
        None
    }
}

/// The warm-up window in milliseconds: one failure-detection window and two
/// anti-entropy rounds, saturating.
pub open spec fn warmup_ms(detection_window_ms: u64, anti_entropy_interval_ms: u64) -> u64 {
    crate::span::clamp((detection_window_ms + 2 * anti_entropy_interval_ms) as nat)
}

/// The interval a node must have participated before "nobody here holds a
/// lease" is a fact rather than an artefact of not having looked long enough.
pub fn warmup_window(detection_window_ms: u64, anti_entropy_interval_ms: u64) -> (r: Duration)
    ensures
        crate::span::span_nanos(r) == warmup_ms(detection_window_ms, anti_entropy_interval_ms)
            * 1_000_000,
{
    let two_rounds: u64 = anti_entropy_interval_ms.saturating_add(anti_entropy_interval_ms);
    crate::span::from_ms(detection_window_ms.saturating_add(two_rounds))
}

/// The renewal `node` publishes under `key`.
pub open spec fn renewal_of(group: GroupView, node: Seq<char>, key: Seq<char>) -> Option<
    RenewalId,
> {
    match group.entry(node, key) {
        None => None,
        Some(bytes) => crate::lease::wire::parse_renewal(bytes),
    }
}

/// The other nodes that hold a live renewal under `key`.
pub open spec fn holder_set(group: GroupView, me: Seq<char>, key: Seq<char>) -> Set<Seq<char>> {
    group.entries@.dom().filter(
        |node: Seq<char>| node != me && renewal_of(group, node, key) is Some,
    )
}

/// What a granter grants: the renewal of every other node that publishes one.
pub open spec fn grants_for(group: GroupView, me: Seq<char>, key: Seq<char>) -> Map<
    Seq<char>,
    RenewalId,
> {
    Map::new(
        |node: Seq<char>| holder_set(group, me, key).contains(node),
        |node: Seq<char>| renewal_of(group, node, key)->0,
    )
}

/// The granters that must confirm: every other member this node still knows
/// about, whatever its status, that advertises the capability.
pub open spec fn granter_set(group: GroupView, me: Seq<char>) -> Set<Seq<char>> {
    group.statuses@.dom().filter(
        |node: Seq<char>| node != me && group.capable(node, CAP_LEASE@),
    )
}

/// The renewal of this life that `granter` grants `me` under `key`.
pub open spec fn grant_of(
    group: GroupView,
    granter: Seq<char>,
    key: Seq<char>,
    me: Seq<char>,
    epoch: u64,
) -> Option<u64> {
    match group.entry(granter, key) {
        None => None,
        Some(bytes) => {
            let grants = crate::lease::wire::parse_grants(bytes);
            if grants.contains_key(me) && grants[me].epoch == epoch {
                Some(grants[me].seq)
            } else {
                None
            }
        },
    }
}

/// The core once the roster and every granter's map have been read anew.
pub open spec fn ingested(core: LeaseModel, group: GroupView, key: Seq<char>) -> LeaseModel {
    let roster = granter_set(group, core.me);
    LeaseModel {
        roster,
        granters: Map::new(
            |g: Seq<char>|
                if roster.contains(g) {
                    grant_of(group, g, key, core.me, core.epoch) is Some
                } else {
                    core.granters.contains_key(g)
                },
            |g: Seq<char>|
                if roster.contains(g) {
                    grant_of(group, g, key, core.me, core.epoch)->0
                } else {
                    core.granters[g]
                },
        ),
        ..core
    }
}

/// Whether `snapshot` lists the lease-holders the writer sees, in node order,
/// each with what it advertises having applied of `writer`'s feed.
pub open spec fn is_snapshot(
    snapshot: Seq<WaitMember>,
    group: GroupView,
    me: Seq<char>,
    key: Seq<char>,
    writer: Seq<char>,
) -> bool {
    &&& forall|m: Seq<char>| #[trigger]
        crate::lease::coherence::present(snapshot, m) <==> holder_set(group, me, key).contains(m)
    &&& forall|i: int, j: int|
        #![trigger snapshot[i], snapshot[j]]
        0 <= i < j < snapshot.len() ==> crate::ids::id_below(
            snapshot[i].member@,
            snapshot[j].member@,
        )
    &&& forall|i: int|
        0 <= i < snapshot.len() ==> (#[trigger] snapshot[i]).applied == crate::acks::ack_of(
            group,
            snapshot[i].member@,
            writer,
        )
}

/// The live advertisers whose lease has not been seen yet.
pub open spec fn unseen(
    group: GroupView,
    me: Seq<char>,
    writer: Seq<char>,
    snapshot: Seq<WaitMember>,
) -> Set<Seq<char>> {
    crate::ids::names(group.members@).to_set().filter(
        |node: Seq<char>|
            group.capable(node, CAP_LEASE@) && node != me && node != writer
                && !crate::lease::coherence::present(snapshot, node),
    )
}

/// Whether the warm-up guard holds a write: the node has not warmed up, and
/// it has seen no holder at all or misses some advertiser's lease.
pub open spec fn is_held(
    warm: bool,
    group: GroupView,
    me: Seq<char>,
    writer: Seq<char>,
    snapshot: Seq<WaitMember>,
) -> bool {
    !warm && (snapshot.len() == 0 || unseen(group, me, writer, snapshot) != Set::<
        Seq<char>,
    >::empty())
}

/// Whether one look at a coherent write, with its wait going from `before` to
/// `after`, comes to `outcome`. `held` names who is missing while the warm-up
/// guard holds.
pub open spec fn coherent_turn(
    before: Option<Progress>,
    after: Option<Progress>,
    writer: Seq<char>,
    token: WriteToken,
    snapshot: Seq<WaitMember>,
    held: Option<Set<Seq<char>>>,
    expired: bool,
    outcome: Option<CoherenceOutcome>,
) -> bool {
    let start = match before {
        Some(p) => p,
        None => Progress::fresh(),
    };
    match held {
        None => {
            let p = start.after(writer, token, snapshot);
            if p.waiting != Set::<Seq<char>>::empty() {
                if expired {
                    &&& after is None
                    &&& outcome matches Some(CoherenceOutcome::TimedOut { waiting_on })
                        && crate::lease::coherence::lists(waiting_on@, p.waiting)
                } else {
                    after == Some(p) && outcome is None
                }
            } else if p.lapsed == Set::<Seq<char>>::empty() {
                after is None && outcome == Some(CoherenceOutcome::AllApplied)
            } else {
                &&& after is None
                &&& outcome matches Some(CoherenceOutcome::LeaseLapsed { stragglers })
                    && crate::lease::coherence::lists(stragglers@, p.lapsed)
            }
        },
        Some(missing) => if expired {
            &&& after is None
            &&& outcome matches Some(CoherenceOutcome::TimedOut { waiting_on })
                && crate::lease::coherence::lists(waiting_on@, start.waiting + missing)
        } else {
            after == before && outcome is None
        },
    }
}

/// While the node has not warmed up, a write never resolves on an empty wait
/// set, nor while an advertiser's lease is unseen: it finds its holders, or
/// it times out.
pub proof fn a_cold_writer_never_resolves_blindly(
    group: GroupView,
    me: Seq<char>,
    writer: Seq<char>,
    token: WriteToken,
    snapshot: Seq<WaitMember>,
    before: Option<Progress>,
    after: Option<Progress>,
    expired: bool,
    outcome: Option<CoherenceOutcome>,
)
    requires
        is_held(false, group, me, writer, snapshot),
        coherent_turn(
            before,
            after,
            writer,
            token,
            snapshot,
            Some(unseen(group, me, writer, snapshot)),
            expired,
            outcome,
        ),
    ensures
        outcome is None || outcome->0 is TimedOut,
{
}

/// Every node but this one that stands in the member table, whatever
/// membership believes of it, and that advertises the tier must confirm. While
/// the grant map of any of them lacks a renewal of this life, nothing is
/// confirmed and no view is valid.
pub proof fn every_known_granter_must_confirm(
    core: LeaseModel,
    group: GroupView,
    key: Seq<char>,
    g: Seq<char>,
    warmed: bool,
    now: ClockMs,
)
    ensures
        ({
            let read = ingested(core, group, key);
            &&& read.roster.contains(g) <==> g != core.me && group.statuses@.contains_key(g)
                && group.capabilities@.contains_key(g) && exists|i: int|
                0 <= i < group.capabilities@[g]@.len() && (#[trigger] group.capabilities@[g]@[i])@
                    == CAP_LEASE@
            &&& g != core.me && group.statuses@.contains_key(g) && group.capable(g, CAP_LEASE@) && (
            group.entry(g, key) matches Some(bytes) ==> {
                let grants = crate::lease::wire::parse_grants(bytes);
                !grants.contains_key(core.me) || grants[core.me].epoch != core.epoch
            }) ==> {
                &&& read.confirmed_seq() is None
                &&& !read.live(now)
                &&& read.state(now) != LeaseState::Serving
                &&& deadline(read, warmed, now) is None
            }
        }),
{
    let read = ingested(core, group, key);
    crate::group::the_tables_say_who_is_alive_and_able(group, g, CAP_LEASE@);
    if read.roster.contains(g) && !read.granters.contains_key(g) {
        crate::lease::reader::a_silent_granter_freezes_the_lease(read, g, now);
    }
}

/// Reading the group anew takes each granter at its word: what its published
/// map holds for this life of this node, or nothing. What was known of a node
/// that is no granter stays, and so does everything else.
pub proof fn granters_are_taken_at_their_word(
    core: LeaseModel,
    group: GroupView,
    key: Seq<char>,
    g: Seq<char>,
)
    ensures
        ({
            let read = ingested(core, group, key);
            &&& read.roster.contains(g) ==> match group.entry(g, key) {
                Some(bytes) => {
                    let grants = crate::lease::wire::parse_grants(bytes);
                    &&& read.granters.contains_key(g) <==> grants.contains_key(core.me)
                        && grants[core.me].epoch == core.epoch
                    &&& read.granters.contains_key(g) ==> read.granters[g] == grants[core.me].seq
                },
                None => !read.granters.contains_key(g),
            }
            &&& !read.roster.contains(g) ==> (read.granters.contains_key(g)
                <==> core.granters.contains_key(g))
            &&& !read.roster.contains(g) && core.granters.contains_key(g) ==> read.granters[g]
                == core.granters[g]
            &&& !read.roster.contains(core.me)
            &&& read == (LeaseModel { roster: read.roster, granters: read.granters, ..core })
        }),
{
}

/// A deadline is published exactly when the boot guard was released, the
/// consumer has caught up and the window is open, and it is the window's end.
pub proof fn a_deadline_is_the_open_windows_end(core: LeaseModel, warmed: bool, now: ClockMs)
    ensures
        deadline(core, warmed, now) is Some <==> warmed && core.caught_up && (
        core.until() matches Some(until) && now.0 < until.0),
        deadline(core, warmed, now) matches Some(at) ==> core.until() == Some(at) && now.0 < at.0,
{
}

/// A reader that has just started serves nothing, whatever its granters say.
pub proof fn a_fresh_reader_serves_nothing(
    me: Seq<char>,
    cfg: LeaseConfig,
    epoch: u64,
    group: GroupView,
    key: Seq<char>,
    warmed: bool,
    now: ClockMs,
)
    ensures
        ({
            let read = ingested(fresh_core(me, cfg, epoch), group, key);
            &&& read.me == me
            &&& read.epoch == epoch
            &&& read.confirmed_seq() is None
            &&& read.state(now) == LeaseState::NeedsResync
            &&& deadline(read, warmed, now) is None
        }),
{
    crate::lease::reader::the_least_confirmation_counts(
        ingested(fresh_core(me, cfg, epoch), group, key),
    );
}

/// A node holds a lease when it publishes a renewal that can be read, whoever
/// it is but this node itself; and what this node grants it is that renewal.
pub proof fn every_readable_renewal_is_granted(
    group: GroupView,
    me: Seq<char>,
    key: Seq<char>,
    node: Seq<char>,
)
    ensures
        holder_set(group, me, key).contains(node) <==> node != me && (
        group.entry(node, key) matches Some(bytes) && crate::lease::wire::parse_renewal(
            bytes,
        ) is Some),
        grants_for(group, me, key).contains_key(node) <==> node != me && (
        group.entry(node, key) matches Some(bytes) && crate::lease::wire::parse_renewal(
            bytes,
        ) is Some),
        grants_for(group, me, key).contains_key(node) ==> Some(grants_for(group, me, key)[node])
            == crate::lease::wire::parse_renewal(group.entry(node, key)->0),
{
}

/// Whoever a snapshot is of, it shows every holder once, with the token the
/// holder advertises for the writer.
pub proof fn a_snapshot_shows_every_holder(
    snapshot: Seq<WaitMember>,
    group: GroupView,
    me: Seq<char>,
    key: Seq<char>,
    writer: Seq<char>,
    node: Seq<char>,
)
    requires
        is_snapshot(snapshot, group, me, key, writer),
    ensures
        (exists|i: int| 0 <= i < snapshot.len() && (#[trigger] snapshot[i]).member@ == node)
            <==> node != me && (group.entry(node, key) matches Some(bytes)
            && crate::lease::wire::parse_renewal(bytes) is Some),
        forall|i: int|
            0 <= i < snapshot.len() ==> (#[trigger] snapshot[i]).applied == crate::acks::ack_of(
                group,
                snapshot[i].member@,
                writer,
            ),
        forall|i: int, j: int|
            #![trigger snapshot[i], snapshot[j]]
            0 <= i < j < snapshot.len() ==> snapshot[i].member@ != snapshot[j].member@,
{
    assert(crate::lease::coherence::present(snapshot, node) <==> holder_set(
        group,
        me,
        key,
    ).contains(node));
    assert forall|i: int, j: int|
        #![trigger snapshot[i], snapshot[j]]
        0 <= i < j < snapshot.len() implies snapshot[i].member@ != snapshot[j].member@ by {
        crate::ids::nodes_are_totally_ordered(
            snapshot[i].member@,
            snapshot[j].member@,
            snapshot[i].member@,
        );
    }
}

/// A cold writer is held for every live member that advertises the tier and
/// whose lease it has not seen, and for want of any lease at all; a warm one
/// never is.
pub proof fn who_holds_a_cold_writer(
    group: GroupView,
    me: Seq<char>,
    writer: Seq<char>,
    snapshot: Seq<WaitMember>,
    i: int,
)
    requires
        0 <= i < group.members@.len(),
    ensures
        !is_held(true, group, me, writer, snapshot),
        snapshot.len() == 0 ==> is_held(false, group, me, writer, snapshot),
        ({
            let node = group.members@[i]@;
            let lacking = node != me && node != writer && group.capable(node, CAP_LEASE@)
                && forall|j: int|
                0 <= j < snapshot.len() ==> (#[trigger] snapshot[j]).member@ != node;
            &&& unseen(group, me, writer, snapshot).contains(node) <==> lacking
            &&& lacking ==> is_held(false, group, me, writer, snapshot)
        }),
        forall|node: Seq<char>| #[trigger]
            unseen(group, me, writer, snapshot).contains(node) ==> exists|j: int|
                0 <= j < group.members@.len() && (#[trigger] group.members@[j])@ == node,
{
    let all = crate::ids::names(group.members@);
    assert(all[i] == group.members@[i]@);
    assert forall|node: Seq<char>| #[trigger]
        unseen(group, me, writer, snapshot).contains(node) implies exists|j: int|
        0 <= j < group.members@.len() && (#[trigger] group.members@[j])@ == node by {
        let j = choose|j: int| 0 <= j < all.len() && all[j] == node;
        assert(group.members@[j]@ == node);
    }
}

/// A writer that is held by nobody is told the truth of its write: it resolves
/// only once every holder has applied it or was excused, it is applied by all
/// only when nobody was excused, and it goes on or times out only while some
/// holder has not applied it.
pub proof fn a_coherent_write_waits_for_every_holder(
    group: GroupView,
    me: Seq<char>,
    key: Seq<char>,
    writer: Seq<char>,
    token: WriteToken,
    snapshot: Seq<WaitMember>,
    before: Option<Progress>,
    after: Option<Progress>,
    expired: bool,
    outcome: Option<CoherenceOutcome>,
    m: Seq<char>,
)
    requires
        is_snapshot(snapshot, group, me, key, writer),
        before matches Some(p) ==> p.wf(writer),
        coherent_turn(before, after, writer, token, snapshot, None, expired, outcome),
    ensures
        outcome is None ==> !expired && after is Some,
        outcome is Some ==> after is None,
        outcome matches Some(CoherenceOutcome::TimedOut { .. }) ==> expired,
        outcome == Some(CoherenceOutcome::AllApplied) && m != me && m != writer && (
        group.entry(m, key) matches Some(bytes) && crate::lease::wire::parse_renewal(
            bytes,
        ) is Some) ==> (crate::acks::ack_of(group, m, writer) matches Some(acked) && (acked.epoch
            > token.epoch || (acked.epoch == token.epoch && acked.seq >= token.seq))),
        outcome matches Some(CoherenceOutcome::LeaseLapsed { stragglers }) ==> {
            &&& m != me && m != writer && (group.entry(m, key) matches Some(bytes)
                && crate::lease::wire::parse_renewal(bytes) is Some) ==> crate::ids::names(
                stragglers@,
            ).contains(m) || (crate::acks::ack_of(group, m, writer) matches Some(acked) && (
            acked.epoch > token.epoch || (acked.epoch == token.epoch && acked.seq >= token.seq)))
            &&& crate::ids::names(stragglers@).contains(m) ==> (before matches Some(p) && (
            p.lapsed.contains(m) || (p.waiting.contains(m) && !holder_set(group, me, key).contains(
                m,
            ))))
        },
        outcome is None || outcome->0 is TimedOut ==> exists|i: int|
            0 <= i < snapshot.len() && (#[trigger] snapshot[i]).member@ != writer
                && !crate::lease::coherence::has_applied(snapshot[i], token),
{
    let start = match before {
        Some(p) => p,
        None => Progress::fresh(),
    };
    let p = start.after(writer, token, snapshot);
    assert(crate::lease::coherence::present(snapshot, m) <==> holder_set(group, me, key).contains(
        m,
    ));
    if p.waiting == Set::<Seq<char>>::empty() {
        if holder_set(group, me, key).contains(m) && m != writer {
            crate::lease::coherence::terminal_verdicts_leave_nobody_behind(
                start,
                writer,
                token,
                snapshot,
                m,
            );
        }
        if p.lapsed.contains(m) {
            crate::lease::coherence::who_is_excused(start, writer, token, snapshot, m);
        }
        if let Some(CoherenceOutcome::LeaseLapsed { stragglers }) = outcome {
            assert(crate::ids::names(stragglers@).contains(m) <==> crate::ids::names(
                stragglers@,
            ).to_set().contains(m));
        }
    } else {
        assert(exists|w: Seq<char>| p.waiting.contains(w)) by {
            if forall|w: Seq<char>| !p.waiting.contains(w) {
                assert(p.waiting =~= Set::<Seq<char>>::empty());
            }
        }
        let w = choose|w: Seq<char>| p.waiting.contains(w);
        crate::lease::coherence::who_is_waited_on(start, writer, token, snapshot, w);
    }
}

/// The warm-up lasts one detection window and two rounds of anti-entropy.
pub proof fn the_warm_up_spans_detection_and_two_rounds(detection: u64, interval: u64)
    ensures
        detection + interval + interval <= u64::MAX ==> warmup_ms(detection, interval) == detection
            + interval + interval,
        detection + interval + interval > u64::MAX ==> warmup_ms(detection, interval) == u64::MAX,
{
}

/// The read half of a lease set: "may I serve this from cache?"
#[derive(Debug)]
pub struct LeaseView {
    core: LeaseCore,
    serve: Option<ClockMs>,
    warmed: bool,
}

impl LeaseView {
    /// What the reader core knows.
    pub closed spec fn model(&self) -> LeaseModel {
        self.core@
    }

    /// The published serve deadline.
    pub closed spec fn serve(&self) -> Option<ClockMs> {
        self.serve
    }

    /// Whether the boot guard has been released.
    pub closed spec fn warmed(&self) -> bool {
        self.warmed
    }

    fn publish_serve(&mut self, now: ClockMs)
        ensures
            final(self).model() == old(self).model(),
            final(self).warmed() == old(self).warmed(),
            final(self).serve() == deadline(old(self).model(), old(self).warmed(), now),
    {
        self.serve = if self.warmed && self.core.peek(now) == LeaseState::Serving {
            self.core.serve_until()
        } else {
            None
        };
    }

    /// Whether this node may serve cached state at `now`: the published
    /// deadline has not passed.
    pub fn valid(&self, now: ClockMs) -> (r: bool)
        ensures
            r == (self.serve() matches Some(until) && now.0 < until.0),
    {
        match self.serve {
            Some(until) => now < until,
            None => false,
        }
    }

    /// The lease state at `now`, consuming the lapse edge, with the deadline
    /// published anew.
    pub fn state(&mut self, now: ClockMs) -> (r: LeaseState)
        requires
            old(self).model().lapses < u64::MAX,
        ensures
            r == old(self).model().state(now),
            final(self).model() == old(self).model().polled(now),
            final(self).warmed() == old(self).warmed(),
            final(self).serve() == deadline(final(self).model(), final(self).warmed(), now),
    {
        let state: LeaseState = self.core.poll(now);
        self.publish_serve(now);
        state
    }

    /// Affirms that the consumer has re-synchronized, telling whether the
    /// affirmation took: it does only after the warm-up window, and while a
    /// lease is live.
    pub fn mark_caught_up(&mut self, now: ClockMs) -> (r: bool)
        ensures
            r == (old(self).warmed() && old(self).model().live(now)),
            final(self).model() == (LeaseModel {
                caught_up: old(self).model().caught_up || r,
                ..old(self).model()
            }),
            final(self).warmed() == old(self).warmed(),
            final(self).serve() == deadline(final(self).model(), final(self).warmed(), now),
    {
        let took: bool = if self.warmed {
            self.core.mark_caught_up(now)
        } else {
            false
        };
        self.publish_serve(now);
        took
    }

    /// Forces a resync and closes the serve window at once.
    pub fn require_resync(&mut self, now: ClockMs)
        ensures
            final(self).model() == (LeaseModel { caught_up: false, ..old(self).model() }),
            final(self).warmed() == old(self).warmed(),
            final(self).serve() is None,
    {
        self.core.require_resync();
        self.publish_serve(now);
    }

    /// How much of the serve window is left, or `None` when this node may not
    /// serve at all.
    pub fn remaining(&self, now: ClockMs) -> (r: Option<Duration>)
        ensures
            match r {
                Some(left) => self.serve() matches Some(until) && now.0 < until.0
                    && crate::span::span_nanos(left) == (until.0 - now.0) * 1_000_000,
                None => !(self.serve() matches Some(until) && now.0 < until.0),
            },
    {
        match self.serve {
            Some(until) => if now < until {
                Some(crate::span::from_ms(until.since(now)))
            } else {
                None
            },
            None => None,
        }
    }

    /// How many times this node's lease has lapsed.
    pub fn lapses(&self) -> (r: u64)
        ensures
            r == self.model().lapses,
    {
        self.core.lapses()
    }
}

/// This node's participation in one lease set.
#[derive(Debug)]
pub struct Leases {
    cfg: LeaseConfig,
    renewal_key: String,
    grant_key: String,
    view: LeaseView,
    left: bool,
}

impl Leases {
    /// This node's name.
    pub open spec fn me(&self) -> Seq<char> {
        self.model().me
    }

    /// The tuning.
    pub closed spec fn cfg(&self) -> LeaseConfig {
        self.cfg
    }

    /// The entry this node's own renewals occupy.
    pub closed spec fn renewal_key(&self) -> Seq<char> {
        self.renewal_key@
    }

    /// The entry this node's grant map occupies.
    pub closed spec fn grant_key(&self) -> Seq<char> {
        self.grant_key@
    }

    /// The read half.
    pub closed spec fn half(&self) -> LeaseView {
        self.view
    }

    /// What the reader core knows.
    pub open spec fn model(&self) -> LeaseModel {
        self.half().model()
    }

    /// Whether this node has left the set.
    pub closed spec fn left(&self) -> bool {
        self.left
    }

    /// Whether everything but the read half is as in `other`.
    pub open spec fn same_set(&self, other: &Leases) -> bool {
        &&& self.me() == other.me()
        &&& self.cfg() == other.cfg()
        &&& self.renewal_key() == other.renewal_key()
        &&& self.grant_key() == other.grant_key()
        &&& self.left() == other.left()
    }

    /// Joins the default lease set as `me`, under `cfg`, in lease life
    /// `epoch`.
    pub fn new(me: NodeId, cfg: LeaseConfig, epoch: u64) -> (r: Leases)
        ensures
            r.me() == me@,
            r.cfg() == cfg,
            r.renewal_key() == crate::lease::wire::LEASE_KEY@,
            r.grant_key() == crate::lease::wire::GRANT_KEY@,
            r.model() == fresh_core(me@, cfg, epoch),
            !r.half().warmed(),
            r.half().serve() is None,
            !r.left(),
    {
        proof {
            reveal_strlit("");
            reveal_strlit("g");
        }
        Leases::named("", me, cfg, epoch)
    }

    /// A named lease set. The node starts cold and needing a resync: one that
    /// has just booted has missed every invalidation issued while it was
    /// down. A tuning outside its envelope still runs, in the fail-closed
    /// direction.
    pub fn named(name: &str, me: NodeId, cfg: LeaseConfig, epoch: u64) -> (r: Leases)
        requires
            crate::lease::wire::legal_name(name@),
        ensures
            r.me() == me@,
            r.cfg() == cfg,
            r.renewal_key() == crate::wire::scoped_key(crate::lease::wire::LEASE_KEY@, name@),
            r.grant_key() == crate::wire::scoped_key(crate::lease::wire::GRANT_KEY@, name@),
            r.model() == fresh_core(me@, cfg, epoch),
            !r.half().warmed(),
            r.half().serve() is None,
            !r.left(),
    {
        crate::lease::wire::validate_name(name);
        let core: LeaseCore = LeaseCore::new(me, &cfg, epoch);
        Leases {
            cfg,
            renewal_key: crate::lease::wire::renewal_entry_key(name),
            grant_key: crate::lease::wire::grant_entry_key(name),
            view: LeaseView { core, serve: None, warmed: false },
            left: false,
        }
    }

    /// Replaces the lease life's epoch: the core starts over, and a renewal of
    /// the new epoch is handed back to publish at once.
    pub fn with_epoch(self, epoch: u64, now: ClockMs) -> (r: (Leases, EntryWrite))
        ensures
            r.0.same_set(&self),
            r.0.half().warmed() == self.half().warmed(),
            r.0.model() == (LeaseModel {
                next_seq: 2,
                published: seq![(1u64, now)],
                ..fresh_core(self.me(), self.cfg(), epoch)
            }),
            r.0.half().serve() is None,
            is_renewal(r.1, self, (RenewalId { epoch, seq: 1 })),
    {
        let mut leases = self;
        leases.view.core = LeaseCore::new(leases.node().clone(), &leases.cfg, epoch);
        let write: EntryWrite = leases.renew(now);
        leases.view.publish_serve(now);
        proof {
            assert(crate::lease::reader::recorded(Seq::empty(), 1, now) =~= seq![(1u64, now)]);
        }
        (leases, write)
    }

    /// This node.
    fn node(&self) -> (r: &NodeId)
        ensures
            r@ == self.me(),
    {
        self.view.core.node()
    }

    /// This lease set's tuning.
    pub fn config(&self) -> (r: &LeaseConfig)
        ensures
            *r == self.cfg(),
    {
        &self.cfg
    }

    /// This lease life's epoch.
    pub fn epoch(&self) -> (r: u64)
        ensures
            r == self.model().epoch,
    {
        self.view.core.epoch()
    }

    /// The read half, for whatever serves reads.
    pub fn view(&self) -> (r: &LeaseView)
        ensures
            *r == self.half(),
    {
        &self.view
    }

    /// Whether this node may serve cached state at `now`.
    pub fn valid(&self, now: ClockMs) -> (r: bool)
        ensures
            r == (self.half().serve() matches Some(until) && now.0 < until.0),
    {
        self.view.valid(now)
    }

    /// This node's lease state at `now`, consuming the lapse edge.
    pub fn state(&mut self, now: ClockMs) -> (r: LeaseState)
        requires
            old(self).model().lapses < u64::MAX,
        ensures
            final(self).same_set(old(self)),
            r == old(self).model().state(now),
            final(self).model() == old(self).model().polled(now),
            final(self).half().warmed() == old(self).half().warmed(),
            final(self).half().serve() == deadline(
                final(self).model(),
                final(self).half().warmed(),
                now,
            ),
    {
        self.view.state(now)
    }

    /// Affirms that the consumer has re-synchronized.
    pub fn mark_caught_up(&mut self, now: ClockMs) -> (r: bool)
        ensures
            final(self).same_set(old(self)),
            r == (old(self).half().warmed() && old(self).model().live(now)),
            final(self).model() == (LeaseModel {
                caught_up: old(self).model().caught_up || r,
                ..old(self).model()
            }),
            final(self).half().warmed() == old(self).half().warmed(),
            final(self).half().serve() == deadline(
                final(self).model(),
                final(self).half().warmed(),
                now,
            ),
    {
        self.view.mark_caught_up(now)
    }

    /// Forces a resync.
    pub fn require_resync(&mut self, now: ClockMs)
        ensures
            final(self).same_set(old(self)),
            final(self).model() == (LeaseModel { caught_up: false, ..old(self).model() }),
            final(self).half().warmed() == old(self).half().warmed(),
            final(self).half().serve() is None,
    {
        self.view.require_resync(now);
    }

    /// The newest renewal of this node's confirmed by every granter in its
    /// roster.
    pub fn confirmed(&self) -> (r: Option<RenewalId>)
        ensures
            r == (match self.model().confirmed_seq() {
                Some(seq) => Some(RenewalId { epoch: self.model().epoch, seq }),
                None => None,
            }),
    {
        self.view.core.confirmed()
    }

    /// The newest renewal of this node's that `granter` advertises having
    /// adopted, whatever its epoch.
    pub fn granted_by(&self, group: &GroupView, granter: &NodeId) -> (r: Option<RenewalId>)
        ensures
            r == (match group.entry(granter@, self.grant_key()) {
                None => None::<RenewalId>,
                Some(bytes) => {
                    let grants = crate::lease::wire::parse_grants(bytes);
                    if grants.contains_key(self.me()) {
                        Some(grants[self.me()])
                    } else {
                        None
                    }
                },
            }),
    {
        match group.node_entry(granter, self.grant_key.as_str()) {
            None => None,
            Some(bytes) => crate::lease::wire::decode_grants(bytes).get_copy(self.node()),
        }
    }

    /// Every other node holding a live renewal entry in this node's view, in
    /// node order: the wait set of a coherent write.
    pub fn holders(&self, group: &GroupView) -> (r: Vec<NodeId>)
        ensures
            crate::lease::coherence::lists(
                r@,
                holder_set(*group, self.me(), self.renewal_key()),
            ),
    {
        let mut out: IdSet = IdSet::new();
        let n: usize = group.entries.len();
        let ghost rows = group.entries.records();
        let ghost want = holder_set(*group, self.me(), self.renewal_key());
        proof {
            crate::idmap::lemma_map_of(rows);
        }
        let mut i: usize = 0;
        while i < n
            invariant
                i <= n,
                n == rows.len(),
                rows == group.entries.records(),
                want == holder_set(*group, self.me(), self.renewal_key()),
                forall|j: int|
                    0 <= j < n ==> group.entries@.contains_key((#[trigger] rows[j]).0),
                out@.subset_of(want),
                forall|j: int|
                    0 <= j < i && want.contains((#[trigger] rows[j]).0) ==> out@.contains(
                        rows[j].0,
                    ),
            decreases n - i,
        {
            let node: &NodeId = group.entries.key_at(i);
            if *node != *self.node() {
                if let Some(bytes) = group.node_entry(node, self.renewal_key.as_str()) {
                    if crate::lease::wire::decode_renewal(bytes).is_some() {
                        out.insert(node.clone());
                    }
                }
            }
            i = i + 1;
        }
        proof {
            assert(out@ =~= want) by {
                assert forall|k: Seq<char>| want.contains(k) implies out@.contains(k) by {
                    assert(group.entries@.contains_key(k));
                    let j = choose|j: int| 0 <= j < rows.len() && (#[trigger] rows[j]).0 == k;
                    assert(want.contains(rows[j].0));
                }
            }
        }
        out.to_vec()
    }

    /// One turn of the renewal ticker: the instant is recorded, and the
    /// renewal is handed back to publish under a life of one lease duration.
    pub fn renew(&mut self, now: ClockMs) -> (r: EntryWrite)
        ensures
            final(self).same_set(old(self)),
            final(self).half().warmed() == old(self).half().warmed(),
            final(self).half().serve() == old(self).half().serve(),
            final(self).model() == old(self).model().renewed(now),
            is_renewal(
                r,
                *old(self),
                (RenewalId { epoch: old(self).model().epoch, seq: old(self).model().next_seq }),
            ),
    {
        let id: RenewalId = self.view.core.on_renew(now);
        EntryWrite {
            key: self.renewal_key.clone(),
            value: crate::lease::wire::encode_renewal(id),
            ttl_ms: Some(self.cfg.duration_ms()),
        }
    }

    /// Every renewal this node can currently see, folded into one grant map.
    pub fn grant_map(&self, group: &GroupView) -> (r: GrantMap)
        ensures
            r@ == grants_for(*group, self.me(), self.renewal_key()),
    {
        let mut out: GrantMap = IdMap::new();
        let n: usize = group.entries.len();
        let ghost rows = group.entries.records();
        let ghost want = grants_for(*group, self.me(), self.renewal_key());
        proof {
            crate::idmap::lemma_map_of(rows);
        }
        let mut i: usize = 0;
        while i < n
            invariant
                i <= n,
                n == rows.len(),
                rows == group.entries.records(),
                want == grants_for(*group, self.me(), self.renewal_key()),
                forall|j: int|
                    0 <= j < n ==> group.entries@.contains_key((#[trigger] rows[j]).0),
                forall|k: Seq<char>| #[trigger]
                    out@.contains_key(k) ==> want.contains_key(k) && out@[k] == want[k],
                forall|j: int|
                    0 <= j < i && want.contains_key((#[trigger] rows[j]).0) ==> out@.contains_key(
                        rows[j].0,
                    ),
            decreases n - i,
        {
            let node: &NodeId = group.entries.key_at(i);
            if *node != *self.node() {
                if let Some(bytes) = group.node_entry(node, self.renewal_key.as_str()) {
                    if let Some(id) = crate::lease::wire::decode_renewal(bytes) {
                        proof {
                            assert(holder_set(*group, self.me(), self.renewal_key()).contains(
                                node@,
                            ));
                        }
                        out.insert(node.clone(), id);
                    }
                }
            }
            i = i + 1;
        }
        proof {
            assert(out@ =~= want) by {
                assert forall|k: Seq<char>| #[trigger] want.contains_key(k) implies out@.contains_key(
                k) by {
                    assert(group.entries@.contains_key(k));
                    let j = choose|j: int| 0 <= j < rows.len() && (#[trigger] rows[j]).0 == k;
                    assert(want.contains_key(rows[j].0));
                }
            }
        }
        out
    }

    /// The write that publishes an encoded grant map: wholesale, and never
    /// expiring.
    pub fn publish_grants(&self, encoded: Vec<u8>) -> (r: EntryWrite)
        ensures
            r.key@ == self.grant_key(),
            r.value@ == encoded@,
            r.ttl_ms is None,
    {
        EntryWrite { key: self.grant_key.clone(), value: encoded, ttl_ms: None }
    }

    /// One turn of the granter: the write to make when the folded map differs
    /// from the bytes last published, and nothing once this node has left.
    pub fn grant_turn(&self, group: &GroupView, published: Option<&Vec<u8>>) -> (r: Option<
        EntryWrite,
    >)
        ensures
            exists|encoded: Seq<u8>, records: Seq<(Seq<char>, RenewalId)>|
                #![trigger grants_encoded(encoded, records)]
                {
                    &&& grants_encoded(encoded, records)
                    &&& crate::idmap::map_of(records) == grants_for(
                        *group,
                        self.me(),
                        self.renewal_key(),
                    )
                    &&& match r {
                        Some(w) => {
                            &&& !self.left()
                            &&& w.key@ == self.grant_key()
                            &&& w.value@ == encoded
                            &&& w.ttl_ms is None
                            &&& !(published matches Some(was) && was@ == encoded)
                        },
                        None => self.left() || (published matches Some(was) && was@ == encoded),
                    }
                },
    {
        let grants: GrantMap = self.grant_map(group);
        let _n: usize = grants.len();
        let encoded: Vec<u8> = crate::lease::wire::encode_grants(&grants);
        proof {
            assert(grants_encoded(encoded@, grants.records()));
        }
        let same: bool = match published {
            Some(was) => crate::codec::same_bytes(was.as_slice(), encoded.as_slice()),
            None => false,
        };
        if self.left || same {
            None
        } else {
            Some(self.publish_grants(encoded))
        }
    }

    /// What `signal` asks of the granter: fold anew, or stop, or nothing.
    pub fn grant_trigger(&self, signal: &Signal) -> (r: Wake)
        ensures
            r == crate::peers::wake_for(self.me(), self.renewal_key(), *signal),
    {
        match signal {
            Signal::NodeStateChanged { node, key } => if *key == self.renewal_key && *node != *self.node() {
                Wake::One
            } else {
                Wake::Ignore
            },
            Signal::MembershipChanged => Wake::All,
            Signal::LeadershipChanged => Wake::Ignore,
            Signal::Lagged => Wake::All,
            Signal::Other => Wake::Ignore,
            Signal::Closed => Wake::Stop,
        }
    }

    /// One turn of the reader's ingest: the roster of granters that must
    /// confirm is read anew, then what each of them advertises is folded in.
    pub fn ingest_grants(&mut self, group: &GroupView)
        ensures
            final(self).same_set(old(self)),
            final(self).half().warmed() == old(self).half().warmed(),
            final(self).half().serve() == old(self).half().serve(),
            final(self).model() == ingested(old(self).model(), *group, old(self).grant_key()),
            forall|g: Seq<char>| #[trigger]
                final(self).model().roster.contains(g) <==> g != old(self).me()
                    && group.statuses@.contains_key(g) && group.capable(g, CAP_LEASE@),
            forall|g: Seq<char>| #[trigger]
                final(self).model().roster.contains(g) && group.entry(g, old(self).grant_key())
                    is None ==> final(self).model().confirmed_seq() is None,
    {
        let ghost start = self.model();
        let ghost key = self.grant_key();
        let ghost set = granter_set(*group, self.me());
        let roster: Vec<NodeId> = self.granters(group);
        self.view.core.set_roster(roster.as_slice());
        proof {
            assert(crate::ids::names(roster@).to_set().remove(start.me) =~= set);
        }
        let mut i: usize = 0;
        while i < roster.len()
            invariant
                i <= roster@.len(),
                self.same_set(old(self)),
                self.half().warmed() == old(self).half().warmed(),
                self.half().serve() == old(self).half().serve(),
                key == self.grant_key(),
                start.me == self.me(),
                crate::ids::names(roster@).to_set() == set,
                self.model() == (LeaseModel {
                    roster: set,
                    granters: self.model().granters,
                    ..start
                }),
                forall|g: Seq<char>| #[trigger]
                    self.model().granters.contains_key(g) == (if named_before(
                        roster@,
                        i as int,
                        g,
                    ) {
                        grant_of(*group, g, key, start.me, start.epoch) is Some
                    } else {
                        start.granters.contains_key(g)
                    }),
                forall|g: Seq<char>| #[trigger]
                    self.model().granters.contains_key(g) ==> self.model().granters[g] == (
                    if named_before(roster@, i as int, g) {
                        grant_of(*group, g, key, start.me, start.epoch)->0
                    } else {
                        start.granters[g]
                    }),
            decreases roster@.len() - i,
        {
            let granter: &NodeId = &roster[i];
            let grants: GrantMap = match group.node_entry(granter, self.grant_key.as_str()) {
                Some(bytes) => crate::lease::wire::decode_grants(bytes),
                None => IdMap::new(),
            };
            self.view.core.observe_grant_map(granter, &grants);
            proof {
                assert forall|g: Seq<char>| #[trigger]
                    named_before(roster@, i + 1, g) == (named_before(roster@, i as int, g) || g
                        == granter@) by {
                    assert(roster@[i as int]@ == granter@);
                }
            }
            i = i + 1;
        }
        proof {
            let want = ingested(start, *group, key);
            assert forall|g: Seq<char>| #[trigger] named_before(roster@, i as int, g)
                == set.contains(g) by {
                let all = crate::ids::names(roster@);
                if set.contains(g) {
                    let j = choose|j: int| 0 <= j < all.len() && all[j] == g;
                    assert(roster@[j]@ == g);
                }
                if named_before(roster@, i as int, g) {
                    let j = choose|j: int| 0 <= j < i && (#[trigger] roster@[j])@ == g;
                    assert(all[j] == g);
                }
            }
            assert(self.model().granters =~= want.granters);
            assert forall|g: Seq<char>| #[trigger]
                self.model().roster.contains(g) && group.entry(g, key)
                    is None implies self.model().confirmed_seq() is None by {
                every_known_granter_must_confirm(start, *group, key, g, false, ClockMs(0));
            }
        }
    }

    fn granters(&self, group: &GroupView) -> (r: Vec<NodeId>)
        ensures
            crate::lease::coherence::lists(r@, granter_set(*group, self.me())),
    {
        let mut out: IdSet = IdSet::new();
        let n: usize = group.statuses.len();
        let ghost rows = group.statuses.records();
        let ghost want = granter_set(*group, self.me());
        proof {
            crate::idmap::lemma_map_of(rows);
        }
        let mut i: usize = 0;
        while i < n
            invariant
                i <= n,
                n == rows.len(),
                rows == group.statuses.records(),
                want == granter_set(*group, self.me()),
                forall|j: int|
                    0 <= j < n ==> group.statuses@.contains_key((#[trigger] rows[j]).0),
                out@.subset_of(want),
                forall|j: int|
                    0 <= j < i && want.contains((#[trigger] rows[j]).0) ==> out@.contains(
                        rows[j].0,
                    ),
            decreases n - i,
        {
            let node: &NodeId = group.statuses.key_at(i);
            if *node != *self.node() && group.node_has_capability(node, CAP_LEASE) {
                out.insert(node.clone());
            }
            i = i + 1;
        }
        proof {
            assert(out@ =~= want) by {
                assert forall|k: Seq<char>| want.contains(k) implies out@.contains(k) by {
                    assert(group.statuses@.contains_key(k));
                    let j = choose|j: int| 0 <= j < rows.len() && (#[trigger] rows[j]).0 == k;
                    assert(want.contains(rows[j].0));
                }
            }
        }
        out.to_vec()
    }

    /// Whether this node has participated for a whole warm-up window,
    /// releasing the reader's boot guard for good once it has.
    pub fn warmed_up(&mut self, elapsed: Duration, window: Duration) -> (r: bool)
        ensures
            r == (crate::span::span_nanos(elapsed) >= crate::span::span_nanos(window)),
            final(self).same_set(old(self)),
            final(self).model() == old(self).model(),
            final(self).half().serve() == old(self).half().serve(),
            final(self).half().warmed() == (old(self).half().warmed() || r),
    {
        let warm: bool = crate::span::as_nanos(elapsed) >= crate::span::as_nanos(window);
        if warm {
            self.view.warmed = true;
        }
        warm
    }

    /// One turn of the view: the boot guard is released if it is due, the
    /// state machine advances, the grants are ingested, and the deadline is
    /// published. The machine advances before any fresh grant is read, so a
    /// lapse can never be papered over.
    pub fn refresh_view(&mut self, group: &GroupView, elapsed: Duration, window: Duration)
        requires
            old(self).model().lapses < u64::MAX,
        ensures
            final(self).same_set(old(self)),
            ({
                let now = ClockMs(crate::span::clamp(crate::span::span_ms(elapsed)));
                &&& final(self).half().warmed() == (old(self).half().warmed()
                    || crate::span::span_nanos(elapsed) >= crate::span::span_nanos(window))
                &&& final(self).model() == ingested(
                    old(self).model().polled(now),
                    *group,
                    old(self).grant_key(),
                )
                &&& final(self).half().serve() == deadline(
                    final(self).model(),
                    final(self).half().warmed(),
                    now,
                )
            }),
            forall|g: Seq<char>| #[trigger]
                group.statuses@.contains_key(g) && g != old(self).me() && group.capable(
                    g,
                    CAP_LEASE@,
                ) && group.entry(g, old(self).grant_key()) is None ==> final(self).half().serve()
                    is None,
    {
        let now = ClockMs(crate::span::clamp_ms(elapsed));
        let _warm: bool = self.warmed_up(elapsed, window);
        let _state: LeaseState = self.view.core.poll(now);
        let ghost polled = self.model();
        let ghost key = self.grant_key();
        self.ingest_grants(group);
        self.view.publish_serve(now);
        proof {
            assert forall|g: Seq<char>| #[trigger]
                group.statuses@.contains_key(g) && g != old(self).me() && group.capable(
                    g,
                    CAP_LEASE@,
                ) && group.entry(g, key) is None implies self.half().serve() is None by {
                every_known_granter_must_confirm(
                    polled,
                    *group,
                    key,
                    g,
                    self.half().warmed(),
                    now,
                );
            }
        }
    }

    /// The lease-holders this node sees, each with how far it advertises
    /// having applied `writer`'s feed.
    pub fn wait_snapshot(&self, group: &GroupView, writer: &NodeId) -> (r: Vec<WaitMember>)
        ensures
            is_snapshot(r@, *group, self.me(), self.renewal_key(), writer@),
    {
        let holders: Vec<NodeId> = self.holders(group);
        let mut out: Vec<WaitMember> = Vec::new();
        let mut i: usize = 0;
        while i < holders.len()
            invariant
                i <= holders@.len(),
                out@.len() == i,
                forall|j: int|
                    0 <= j < i ==> (#[trigger] out@[j]).member == holders@[j] && out@[j].applied
                        == crate::acks::ack_of(*group, holders@[j]@, writer@),
            decreases holders@.len() - i,
        {
            let member: NodeId = holders[i].clone();
            let applied: Option<WriteToken> = crate::acks::applied_by(group, &member, writer);
            out.push(WaitMember { member, applied });
            i = i + 1;
        }
        proof {
            let set = holder_set(*group, self.me(), self.renewal_key());
            let all = crate::ids::names(holders@);
            assert forall|m: Seq<char>| #[trigger]
                crate::lease::coherence::present(out@, m) == set.contains(m) by {
                if set.contains(m) {
                    assert(all.to_set().contains(m));
                    let j = choose|j: int| 0 <= j < all.len() && all[j] == m;
                    assert(out@[j].member@ == m);
                }
                if crate::lease::coherence::present(out@, m) {
                    let j = choose|j: int|
                        0 <= j < out@.len() && (#[trigger] out@[j]).member@ == m;
                    assert(all[j] == m);
                    assert(all.to_set().contains(m));
                }
            }
            assert forall|i: int, j: int|
                #![trigger out@[i], out@[j]]
                0 <= i < j < out@.len() implies crate::ids::id_below(
                out@[i].member@,
                out@[j].member@,
            ) by {
                assert(out@[i].member == holders@[i] && out@[j].member == holders@[j]);
            }
        }
        out
    }

    /// The warm-up guard: `None` to let the wait resolve normally, or who is
    /// missing, in node order, to hold it.
    pub fn warmup_hold(
        &self,
        warm: bool,
        group: &GroupView,
        writer: &NodeId,
        snapshot: &[WaitMember],
    ) -> (r: Option<Vec<NodeId>>)
        ensures
            match r {
                Some(missing) => is_held(warm, *group, self.me(), writer@, snapshot@)
                    && crate::lease::coherence::lists(
                    missing@,
                    unseen(*group, self.me(), writer@, snapshot@),
                ),
                None => !is_held(warm, *group, self.me(), writer@, snapshot@),
            },
    {
        if warm {
            return None;
        }
        let mut missing: IdSet = IdSet::new();
        let ghost want = unseen(*group, self.me(), writer@, snapshot@);
        let ghost all = crate::ids::names(group.members@);
        let mut i: usize = 0;
        while i < group.members.len()
            invariant
                i <= group.members@.len(),
                all == crate::ids::names(group.members@),
                want == unseen(*group, self.me(), writer@, snapshot@),
                missing@.subset_of(want),
                forall|j: int|
                    0 <= j < i && want.contains(#[trigger] all[j]) ==> missing@.contains(all[j]),
            decreases group.members@.len() - i,
        {
            let node: &NodeId = &group.members[i];
            proof {
                assert(all[i as int] == node@);
                assert(all.to_set().contains(node@));
            }
            if group.node_has_capability(node, CAP_LEASE) && *node != *self.node() && *node != *writer
                && !crate::lease::coherence::is_present(snapshot, node) {
                missing.insert(node.clone());
            }
            i = i + 1;
        }
        proof {
            assert(missing@ =~= want) by {
                assert forall|k: Seq<char>| want.contains(k) implies missing@.contains(k) by {
                    let j = choose|j: int| 0 <= j < all.len() && all[j] == k;
                    assert(want.contains(all[j]));
                }
            }
        }
        if missing.is_empty() && snapshot.len() > 0 {
            None
        } else {
            Some(missing.to_vec())
        }
    }

    /// One look at a coherent write: whether every lease-holder in this
    /// node's view has applied `writer`'s write through `token` or had its
    /// lease expire, and what that comes to. `None` while the wait goes on.
    /// The wait set is read anew at every look, so a reader that takes a
    /// lease mid-write joins it and one whose lease lapses leaves it for
    /// good.
    pub fn invalidated_coherently(
        &self,
        wait: &mut CoherenceCore,
        group: &GroupView,
        token: WriteToken,
        writer: &NodeId,
        warm: bool,
        expired: bool,
    ) -> (r: Option<CoherenceOutcome>)
        requires
            old(wait).wf(),
            old(wait).writer() == writer@,
        ensures
            final(wait).wf(),
            final(wait).writer() == writer@,
            forall|t: WriteToken|
                t != token ==> #[trigger] final(wait).progress(t) == old(wait).progress(t),
            exists|snapshot: Seq<WaitMember>| #[trigger]
                is_snapshot(snapshot, *group, self.me(), self.renewal_key(), writer@)
                    && coherent_turn(
                    old(wait).progress(token),
                    final(wait).progress(token),
                    writer@,
                    token,
                    snapshot,
                    if is_held(warm, *group, self.me(), writer@, snapshot) {
                        Some(unseen(*group, self.me(), writer@, snapshot))
                    } else {
                        None
                    },
                    expired,
                    r,
                ),
    {
        let snapshot: Vec<WaitMember> = self.wait_snapshot(group, writer);
        let held: Option<Vec<NodeId>> = self.warmup_hold(
            warm,
            group,
            writer,
            snapshot.as_slice(),
        );
        proof {
            assert(is_snapshot(snapshot@, *group, self.me(), self.renewal_key(), writer@));
        }
        match held {
            None => match wait.step(token, snapshot.as_slice()) {
                CoherenceStep::AllApplied => Some(CoherenceOutcome::AllApplied),
                CoherenceStep::LeaseLapsed { stragglers } => Some(
                    CoherenceOutcome::LeaseLapsed { stragglers },
                ),
                CoherenceStep::Waiting { on } => if expired {
                    let _dropped: Option<Vec<NodeId>> = wait.abandon(token);
                    Some(CoherenceOutcome::TimedOut { waiting_on: on })
                } else {
                    None
                },
            },
            Some(missing) => {
                if expired {
                    let waited: Vec<NodeId> = match wait.abandon(token) {
                        Some(on) => on,
                        None => {
                            let none: Vec<NodeId> = Vec::new();
                            proof {
                                assert(crate::ids::names(none@).to_set() =~= Set::<
                                    Seq<char>,
                                >::empty());
                            }
                            none
                        },
                    };
                    let ghost on = crate::ids::names(waited@).to_set();
                    let ghost more = crate::ids::names(missing@).to_set();
                    let mut both: IdSet = IdSet::of(waited.as_slice());
                    let mut i: usize = 0;
                    while i < missing.len()
                        invariant
                            i <= missing@.len(),
                            both@ == on + crate::ids::names(
                                missing@.subrange(0, i as int),
                            ).to_set(),
                        decreases missing@.len() - i,
                    {
                        both.insert(missing[i].clone());
                        proof {
                            let was = crate::ids::names(missing@.subrange(0, i as int));
                            let now = crate::ids::names(missing@.subrange(0, i + 1));
                            let m = missing@[i as int]@;
                            assert(now =~= was.push(m));
                            assert(now[i as int] == m);
                            assert forall|k: Seq<char>| now.to_set().contains(k) == (
                            was.to_set().contains(k) || k == m) by {
                                if was.to_set().contains(k) {
                                    let j = choose|j: int| 0 <= j < was.len() && was[j] == k;
                                    assert(now[j] == k);
                                }
                                if now.to_set().contains(k) && k != m {
                                    let j = choose|j: int| 0 <= j < now.len() && now[j] == k;
                                    assert(was[j] == k);
                                }
                            }
                            assert(both@ =~= on + now.to_set());
                        }
                        i = i + 1;
                    }
                    proof {
                        assert(missing@.subrange(0, i as int) =~= missing@);
                        let start = match old(wait).progress(token) {
                            Some(p) => p,
                            None => Progress::fresh(),
                        };
                        assert(both@ =~= start.waiting + more);
                    }
                    Some(CoherenceOutcome::TimedOut { waiting_on: both.to_vec() })
                } else {
                    None
                }
            },
        }
    }

    /// Leaves the lease set gracefully: the serve window closes at once, and
    /// the key of the renewal entry is handed back to delete.
    pub fn leave(&mut self, now: ClockMs) -> (r: String)
        ensures
            r@ == old(self).renewal_key(),
            final(self).left(),
            final(self).me() == old(self).me(),
            final(self).cfg() == old(self).cfg(),
            final(self).renewal_key() == old(self).renewal_key(),
            final(self).grant_key() == old(self).grant_key(),
            final(self).model() == (LeaseModel { caught_up: false, ..old(self).model() }),
            final(self).half().warmed() == old(self).half().warmed(),
            final(self).half().serve() is None,
    {
        self.left = true;
        self.view.require_resync(now);
        self.renewal_key.clone()
    }

    /// Whether this node has left the set.
    pub fn has_left(&self) -> (r: bool)
        ensures
            r == self.left(),
    {
        self.left
    }
}

spec fn named_before(ids: Seq<NodeId>, k: int, m: Seq<char>) -> bool {
    exists|j: int| 0 <= j < k && (#[trigger] ids[j])@ == m
}

/// The reader core of a lease life that has just begun.
pub open spec fn fresh_core(me: Seq<char>, cfg: LeaseConfig, epoch: u64) -> LeaseModel {
    LeaseModel {
        me,
        epoch,
        duration_ms: cfg.duration_in_ms(),
        margin_ms: cfg.margin_in_ms(),
        next_seq: 1,
        published: Seq::empty(),
        granters: Map::empty(),
        roster: Set::empty(),
        caught_up: false,
        lapses: 0,
    }
}

/// Whether `w` publishes the renewal `id` of the set: under its renewal key,
/// for one lease duration.
pub open spec fn is_renewal(w: EntryWrite, leases: Leases, id: RenewalId) -> bool {
    &&& w.key@ == leases.renewal_key()
    &&& w.value@ == crate::lease::wire::renewal_bytes(id)
    &&& w.ttl_ms == Some(leases.cfg().duration_in_ms())
}

/// Whether `encoded` is the encoding of the grants that `records` lists in
/// reader order.
pub open spec fn grants_encoded(encoded: Seq<u8>, records: Seq<(Seq<char>, RenewalId)>) -> bool {
    &&& crate::idmap::ascending(records)
    &&& encoded == crate::records::rows_bytes(crate::lease::wire::grant_rows(records))
}

/// A published renewal stands under the reader's key, lives for one lease
/// duration, and reads as the very renewal.
pub proof fn a_renewal_reads_as_published(w: EntryWrite, leases: Leases, id: RenewalId)
    requires
        is_renewal(w, leases, id),
    ensures
        w.key@ == leases.renewal_key(),
        crate::lease::wire::parse_renewal(w.value@) == Some(id),
        w.ttl_ms == Some(leases.cfg().duration_in_ms()),
{
    crate::lease::wire::renewals_read_back(id, w.value@);
}

/// A renewal comes back confirmed: once a granter has seen it and published
/// its grants, and the reader has read those, the reader holds exactly that
/// renewal as confirmed by that granter.
pub proof fn a_renewal_comes_back_confirmed(
    reader: LeaseModel,
    id: RenewalId,
    renewal_key: Seq<char>,
    granter: Seq<char>,
    seen: GroupView,
    encoded: Seq<u8>,
    records: Seq<(Seq<char>, RenewalId)>,
    grant_key: Seq<char>,
    read: GroupView,
)
    requires
        granter != reader.me,
        id.epoch == reader.epoch,
        seen.entry(reader.me, renewal_key) == Some(crate::lease::wire::renewal_bytes(id)),
        grants_encoded(encoded, records),
        crate::records::names_fit(crate::lease::wire::grant_rows(records)),
        crate::idmap::map_of(records) == grants_for(seen, granter, renewal_key),
        read.entry(granter, grant_key) == Some(encoded),
        read.statuses@.contains_key(granter),
        read.capable(granter, CAP_LEASE@),
    ensures
        ({
            let now = ingested(reader, read, grant_key);
            &&& now.roster.contains(granter)
            &&& now.granters.contains_key(granter)
            &&& now.granters[granter] == id.seq
        }),
{
    crate::lease::wire::renewals_read_back(id, encoded);
    crate::lease::wire::grant_maps_read_back(records);
    every_readable_renewal_is_granted(seen, granter, renewal_key, reader.me);
    granters_are_taken_at_their_word(reader, read, grant_key, granter);
}

} // verus!
