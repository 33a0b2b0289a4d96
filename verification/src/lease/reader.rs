//! The reader's half of the coherence-lease tier: [`LeaseCore`], a node's own
//! right to serve.
//!
//! It reads no clock and no socket. Instants arrive as [`ClockMs`], the
//! group's state arrives as values, and the answer comes back as a verdict.

use crate::idmap::{IdMap, IdSet};
use crate::ids::NodeId;
use crate::lease::config::{LeaseConfig, LeaseState};
use crate::lease::wire::{GrantMap, RenewalId};
use core::cmp::Ordering;
use vstd::prelude::*;

verus! {

/// How many publish instants one reader remembers. A confirmation older than
/// that describes a lease that lapsed long ago, and the window it would open
/// stays closed.
pub const MAX_TRACKED_RENEWALS: usize = 256;

/// A monotonic instant in milliseconds, on whatever clock the caller feeds in.
#[derive(Debug, Clone, Copy, Default, PartialEq, Eq, Structural, Ord, Hash)]
pub struct ClockMs(pub u64);

impl PartialOrd for ClockMs {
    fn partial_cmp(&self, other: &ClockMs) -> (r: Option<Ordering>) {
        if self.0 < other.0 {
            Some(Ordering::Less)
        } else if self.0 > other.0 {
            Some(Ordering::Greater)
        } else {
            Some(Ordering::Equal)
        }
    }
}

impl vstd::std_specs::cmp::PartialOrdSpecImpl for ClockMs {
    open spec fn obeys_partial_cmp_spec() -> bool {
        true
    }

    open spec fn partial_cmp_spec(&self, other: &ClockMs) -> Option<Ordering> {
        if self.0 < other.0 {
            Some(Ordering::Less)
        } else if self.0 > other.0 {
            Some(Ordering::Greater)
        } else {
            Some(Ordering::Equal)
        }
    }
}

impl ClockMs {
    /// The zero instant.
    pub fn zero() -> (r: ClockMs)
        ensures
            r == ClockMs(0),
    {
        ClockMs(0)
    }

    /// `ms` after this instant, at most the last one there is.
    pub open spec fn plus(self, ms: u64) -> ClockMs {
        if self.0 + ms <= u64::MAX {
            ClockMs((self.0 + ms) as u64)
        } else {
            ClockMs(u64::MAX)
        }
    }

    /// `ms` before this instant, at least the zero instant.
    pub open spec fn minus(self, ms: u64) -> ClockMs {
        if self.0 >= ms {
            ClockMs((self.0 - ms) as u64)
        } else {
            ClockMs(0)
        }
    }

    /// `self + ms`, saturating at the largest instant.
    pub fn saturating_add_ms(self, ms: u64) -> (r: ClockMs)
        ensures
            r == self.plus(ms),
    {
        ClockMs(self.0.saturating_add(ms))
    }

    /// `self - ms`, saturating at zero.
    pub fn saturating_sub_ms(self, ms: u64) -> (r: ClockMs)
        ensures
            r == self.minus(ms),
    {
        ClockMs(self.0.saturating_sub(ms))
    }

    /// Milliseconds from `earlier` to `self`, clamped at zero.
    pub fn since(self, earlier: ClockMs) -> (r: u64)
        ensures
            r == (if self.0 >= earlier.0 {
                self.0 - earlier.0
            } else {
                0
            }),
    {
        self.0.saturating_sub(earlier.0)
    }
}

/// The instant recorded for the renewal `seq`.
pub open spec fn instant_of(published: Seq<(u64, ClockMs)>, seq: u64) -> Option<ClockMs>
    decreases published.len(),
{
    if published.len() == 0 {
        None
    } else if published.last().0 == seq {
        Some(published.last().1)
    } else {
        instant_of(published.drop_last(), seq)
    }
}

/// The instants remembered once renewal `seq` is recorded at `at`: the newest
/// ones, as many as are tracked. A renewal recorded twice keeps the later
/// instant.
pub open spec fn recorded(published: Seq<(u64, ClockMs)>, seq: u64, at: ClockMs) -> Seq<
    (u64, ClockMs),
> {
    let kept = if published.len() > 0 && published.last().0 == seq {
        published.drop_last()
    } else {
        published
    };
    let all = kept.push((seq, at));
    if all.len() > MAX_TRACKED_RENEWALS {
        all.subrange(all.len() - MAX_TRACKED_RENEWALS, all.len() as int)
    } else {
        all
    }
}

/// What a reader core knows.
pub struct LeaseModel {
    /// This node's name.
    pub me: Seq<char>,
    /// This lease life's epoch.
    pub epoch: u64,
    /// How long a lease lasts.
    pub duration_ms: u64,
    /// How much of it is given back.
    pub margin_ms: u64,
    /// The number of the next renewal.
    pub next_seq: u64,
    /// The instant recorded before each renewal was published, in order.
    pub published: Seq<(u64, ClockMs)>,
    /// The newest renewal of this life that each granter has adopted.
    pub granters: Map<Seq<char>, u64>,
    /// The granters that must confirm.
    pub roster: Set<Seq<char>>,
    /// Whether the consumer has affirmed catch-up since the last lapse.
    pub caught_up: bool,
    /// How many times the lease has lapsed.
    pub lapses: u64,
}

impl LeaseModel {
    /// Whether renewal `seq` is published, and confirmed by every granter in
    /// the roster.
    pub open spec fn confirms(self, seq: u64) -> bool {
        &&& self.published.len() > 0
        &&& seq <= self.published.last().0
        &&& forall|g: Seq<char>| #[trigger]
            self.roster.contains(g) ==> self.granters.contains_key(g) && seq <= self.granters[g]
    }

    /// Whether `seq` is the newest renewal that everyone confirms.
    pub open spec fn newest_confirmed(self, seq: u64) -> bool {
        &&& self.confirms(seq)
        &&& forall|other: u64| #[trigger] self.confirms(other) ==> other <= seq
    }

    /// The newest renewal that everyone confirms, if there is one.
    pub open spec fn confirmed_seq(self) -> Option<u64> {
        if exists|seq: u64| self.newest_confirmed(seq) {
            Some(choose|seq: u64| self.newest_confirmed(seq))
        } else {
            None
        }
    }

    /// When the right to serve ends: one duration after the confirmed renewal
    /// was recorded, less the margin.
    pub open spec fn until(self) -> Option<ClockMs> {
        match self.confirmed_seq() {
            None => None,
            Some(seq) => match instant_of(self.published, seq) {
                None => None,
                Some(at) => Some(at.plus(self.duration_ms).minus(self.margin_ms)),
            },
        }
    }

    /// Whether a confirmed lease covers `now`.
    pub open spec fn live(self, now: ClockMs) -> bool {
        self.until() matches Some(until) && now.0 < until.0
    }

    /// The state at `now`.
    pub open spec fn state(self, now: ClockMs) -> LeaseState {
        if !self.caught_up {
            LeaseState::NeedsResync
        } else if self.live(now) {
            LeaseState::Serving
        } else {
            LeaseState::Lapsed
        }
    }

    /// The core once a lapse at `now`, if there is one, has been told.
    pub open spec fn polled(self, now: ClockMs) -> LeaseModel {
        if self.state(now) == LeaseState::Lapsed {
            LeaseModel { caught_up: false, lapses: (self.lapses + 1) as u64, ..self }
        } else {
            self
        }
    }

    /// The core once `granter`'s advertised grants have been folded in.
    pub open spec fn observed(self, granter: Seq<char>, grants: Map<Seq<char>, RenewalId>) -> LeaseModel {
        if grants.contains_key(self.me) && grants[self.me].epoch == self.epoch {
            LeaseModel { granters: self.granters.insert(granter, grants[self.me].seq), ..self }
        } else {
            LeaseModel { granters: self.granters.remove(granter), ..self }
        }
    }

    /// The core once a renewal is recorded at `at`.
    pub open spec fn renewed(self, at: ClockMs) -> LeaseModel {
        LeaseModel {
            next_seq: if self.next_seq < u64::MAX {
                (self.next_seq + 1) as u64
            } else {
                u64::MAX
            },
            published: recorded(self.published, self.next_seq, at),
            ..self
        }
    }

    /// Whether the tracked renewals are numbered one after the other up to the
    /// next one, their instants in the order of their numbers.
    pub open spec fn in_sequence(self) -> bool {
        &&& forall|i: int, j: int|
            #![trigger self.published[i], self.published[j]]
            0 <= i < j < self.published.len() ==> self.published[j].0 == self.published[i].0 + (j
                - i) && self.published[i].1.0 <= self.published[j].1.0
        &&& self.published.len() > 0 ==> self.next_seq == (if self.published.last().0 < u64::MAX {
            self.published.last().0 + 1
        } else {
            u64::MAX as int
        })
    }
}

proof fn lemma_instant(published: Seq<(u64, ClockMs)>, seq: u64)
    ensures
        match instant_of(published, seq) {
            Some(at) => exists|i: int|
                0 <= i < published.len() && #[trigger] published[i] == (seq, at),
            None => forall|i: int| 0 <= i < published.len() ==> (#[trigger] published[i]).0 != seq,
        },
    decreases published.len(),
{
    if published.len() > 0 {
        let init = published.drop_last();
        lemma_instant(init, seq);
        if published.last().0 == seq {
            assert(published[published.len() - 1] == (seq, published.last().1));
        } else {
            match instant_of(init, seq) {
                Some(at) => {
                    let i = choose|i: int| 0 <= i < init.len() && #[trigger] init[i] == (seq, at);
                    assert(published[i] == (seq, at));
                },
                None => {
                    assert forall|i: int| 0 <= i < published.len() implies (
                    #[trigger] published[i]).0 != seq by {
                        if i < init.len() {
                            assert(init[i] == published[i]);
                        }
                    }
                },
            }
        }
    }
}

/// A serve window ends at least the margin before one duration past an
/// instant at which this node published a renewal: no window is ever opened
/// that nobody could have granted.
pub proof fn windows_stay_inside_the_lease(core: LeaseModel)
    ensures
        core.until() matches Some(until) ==> until.0 > 0 ==> exists|i: int|
            0 <= i < core.published.len() && until.0 + core.margin_ms <= (
            #[trigger] core.published[i]).1.0 + core.duration_ms,
{
    if let Some(seq) = core.confirmed_seq() {
        lemma_instant(core.published, seq);
        if let Some(at) = instant_of(core.published, seq) {
            let i = choose|i: int|
                0 <= i < core.published.len() && #[trigger] core.published[i] == (seq, at);
            assert(core.published[i].1 == at);
        }
    }
}

/// Serving means that every granter in the roster has confirmed a renewal of
/// this life that this node really published, and that the window it opened
/// is still open.
pub proof fn serving_means_confirmed_by_all(core: LeaseModel, now: ClockMs, granter: Seq<char>)
    requires
        core.state(now) == LeaseState::Serving,
        core.roster.contains(granter),
    ensures
        core.caught_up,
        core.granters.contains_key(granter),
        core.confirmed_seq() is Some,
        core.confirmed_seq()->0 <= core.granters[granter],
        core.confirmed_seq()->0 <= core.published.last().0,
        now.0 < (core.until()->0).0,
{
    let seq = core.confirmed_seq()->0;
    assert(core.newest_confirmed(seq));
}

/// A granter that confirms nothing freezes the lease: nothing is confirmed,
/// and nothing is served.
pub proof fn a_silent_granter_freezes_the_lease(core: LeaseModel, granter: Seq<char>, now: ClockMs)
    requires
        core.roster.contains(granter),
        !core.granters.contains_key(granter),
    ensures
        core.confirmed_seq() is None,
        !core.live(now),
{
    if exists|seq: u64| core.newest_confirmed(seq) {
        let seq = choose|seq: u64| core.newest_confirmed(seq);
        assert(core.confirms(seq));
    }
}

/// A granter's claim that is missing, of another life, or about another node
/// confirms nothing.
pub proof fn other_lives_never_confirm(
    core: LeaseModel,
    granter: Seq<char>,
    grants: Map<Seq<char>, RenewalId>,
    now: ClockMs,
)
    requires
        core.roster.contains(granter),
        !grants.contains_key(core.me) || grants[core.me].epoch != core.epoch,
    ensures
        core.observed(granter, grants).confirmed_seq() is None,
        !core.observed(granter, grants).live(now),
{
    a_silent_granter_freezes_the_lease(core.observed(granter, grants), granter, now);
}

/// Recording renewals keeps their numbers and their instants in sequence, as
/// long as the clock does not run backwards.
pub proof fn renewals_stay_in_sequence(core: LeaseModel, at: ClockMs)
    requires
        core.in_sequence(),
        core.published.len() > 0 ==> core.published.last().1.0 <= at.0,
    ensures
        core.renewed(at).in_sequence(),
{
    let was = core.published;
    let now = core.renewed(at).published;
    let again = was.len() > 0 && was.last().0 == core.next_seq;
    let kept = if again {
        was.drop_last()
    } else {
        was
    };
    let all = kept.push((core.next_seq, at));
    let cut = all.len() - now.len();
    assert forall|i: int, j: int|
        #![trigger now[i], now[j]]
        0 <= i < j < now.len() implies now[j].0 == now[i].0 + (j - i) && now[i].1.0
        <= now[j].1.0 by {
        let a = i + cut;
        let b = j + cut;
        assert(now[i] == all[a] && now[j] == all[b]);
        assert(all[a] == was[a]);
        if b < kept.len() {
            assert(all[b] == was[b]);
        } else {
            let last = was.len() - 1;
            assert(was[last] == was.last());
            if a < last {
                assert(was[last].0 == was[a].0 + (last - a));
            }
        }
    }
    assert(now.last() == (core.next_seq, at));
}

proof fn lemma_newest_is_there(core: LeaseModel, seq: u64)
    requires
        core.confirms(seq),
    ensures
        core.confirmed_seq() is Some,
    decreases core.published.last().0 - seq,
{
    if exists|other: u64| #[trigger] core.confirms(other) && other > seq {
        let other = choose|other: u64| #[trigger] core.confirms(other) && other > seq;
        lemma_newest_is_there(core, other);
    } else {
        assert(core.newest_confirmed(seq));
    }
}

/// What is confirmed is the least of what this node published last and what
/// each granter of the roster has confirmed: no more than any of them, and
/// one of them. Nothing is, while nothing was published or a granter is
/// silent.
pub proof fn the_least_confirmation_counts(core: LeaseModel)
    ensures
        core.confirmed_seq() is Some <==> core.published.len() > 0 && forall|g: Seq<char>| #[trigger]
            core.roster.contains(g) ==> core.granters.contains_key(g),
        core.confirmed_seq() matches Some(seq) ==> {
            &&& seq <= core.published.last().0
            &&& forall|g: Seq<char>| #[trigger]
                core.roster.contains(g) ==> core.granters.contains_key(g) && seq
                    <= core.granters[g]
            &&& seq == core.published.last().0 || exists|g: Seq<char>| #[trigger]
                core.roster.contains(g) && core.granters[g] == seq
        },
{
    if core.published.len() > 0 && forall|g: Seq<char>| #[trigger]
        core.roster.contains(g) ==> core.granters.contains_key(g) {
        assert(core.confirms(0));
        lemma_newest_is_there(core, 0);
    }
    if let Some(seq) = core.confirmed_seq() {
        assert(core.newest_confirmed(seq));
        if seq < core.published.last().0 && forall|g: Seq<char>| #[trigger]
            core.roster.contains(g) ==> core.granters[g] != seq {
            assert(core.confirms((seq + 1) as u64));
        }
    }
}

/// A window is counted from the instant at which the confirmed renewal was
/// published: one duration on, less the margin. Within it a reader that has
/// caught up serves, and at its end it lapses.
pub proof fn a_window_counts_from_its_renewal(core: LeaseModel, i: int, now: ClockMs)
    requires
        core.in_sequence(),
        0 <= i < core.published.len(),
        core.confirmed_seq() == Some(core.published[i].0),
        core.published[i].1.0 + core.duration_ms <= u64::MAX,
        core.margin_ms <= core.duration_ms,
    ensures
        core.until() matches Some(until) && until.0 == core.published[i].1.0 + core.duration_ms
            - core.margin_ms,
        core.state(now) == LeaseState::Serving <==> core.caught_up && now.0 + core.margin_ms
            < core.published[i].1.0 + core.duration_ms,
        core.state(now) == LeaseState::Lapsed <==> core.caught_up && now.0 + core.margin_ms
            >= core.published[i].1.0 + core.duration_ms,
        core.state(now) == LeaseState::NeedsResync <==> !core.caught_up,
{
    let seq = core.published[i].0;
    lemma_instant(core.published, seq);
    let at = instant_of(core.published, seq)->0;
    let j = choose|j: int|
        0 <= j < core.published.len() && #[trigger] core.published[j] == (seq, at);
    if i < j {
        assert(core.published[j].0 == core.published[i].0 + (j - i));
    }
    if j < i {
        assert(core.published[i].0 == core.published[j].0 + (i - j));
    }
}

/// A reader whose newest renewal every granter has confirmed serves the whole
/// of the window that renewal opened.
pub proof fn a_confirmed_reader_serves_its_window(core: LeaseModel, now: ClockMs)
    requires
        core.in_sequence(),
        core.caught_up,
        core.published.len() > 0,
        forall|g: Seq<char>| #[trigger]
            core.roster.contains(g) ==> core.granters.contains_key(g) && core.granters[g]
                >= core.published.last().0,
        core.published.last().1.0 + core.duration_ms <= u64::MAX,
        core.margin_ms <= core.duration_ms,
    ensures
        core.confirmed_seq() == Some(core.published.last().0),
        core.state(now) == LeaseState::Serving <==> now.0 + core.margin_ms
            < core.published.last().1.0 + core.duration_ms,
{
    the_least_confirmation_counts(core);
    a_window_counts_from_its_renewal(core, core.published.len() - 1, now);
}

/// A renewal that has fallen out of what is remembered opens no window.
pub proof fn a_forgotten_renewal_opens_no_window(core: LeaseModel, now: ClockMs)
    requires
        core.confirmed_seq() matches Some(seq) && forall|i: int|
            0 <= i < core.published.len() ==> (#[trigger] core.published[i]).0 != seq,
    ensures
        core.until() is None,
        !core.live(now),
        core.state(now) != LeaseState::Serving,
{
    lemma_instant(core.published, core.confirmed_seq()->0);
}

/// Renewing takes the next number, remembers the instant under it, keeps what
/// was remembered before as far as there is room for it, and confirms nothing
/// by itself.
pub proof fn a_renewal_is_remembered(core: LeaseModel, at: ClockMs, k: int)
    requires
        core.in_sequence(),
        core.next_seq < u64::MAX,
        core.published.len() <= MAX_TRACKED_RENEWALS,
    ensures
        ({
            let now = core.renewed(at);
            let kept = core.published.len();
            &&& now.next_seq == core.next_seq + 1
            &&& now.published.last() == (core.next_seq, at)
            &&& now.published.len() == (if kept < MAX_TRACKED_RENEWALS {
                kept + 1
            } else {
                kept
            })
            &&& 1 <= k < now.published.len() ==> now.published[now.published.len() - 1 - k]
                == core.published[kept - k]
            &&& now.granters == core.granters
            &&& now.roster == core.roster
            &&& now.caught_up == core.caught_up
            &&& now.lapses == core.lapses
            &&& now.me == core.me
            &&& now.epoch == core.epoch
            &&& now.duration_ms == core.duration_ms
            &&& now.margin_ms == core.margin_ms
        }),
{
}

/// When the numbers have run out, the last one is used again: its instant is
/// replaced, and nothing else that is remembered moves.
pub proof fn the_last_number_is_used_again(core: LeaseModel, at: ClockMs)
    requires
        core.next_seq == u64::MAX,
        0 < core.published.len() <= MAX_TRACKED_RENEWALS,
        core.published.last().0 == u64::MAX,
    ensures
        core.renewed(at).next_seq == u64::MAX,
        core.renewed(at).published == core.published.drop_last().push((u64::MAX, at)),
{
}

/// Clocks add and take away whole milliseconds, and stop at the ends of what
/// they can count.
pub proof fn clocks_stop_at_their_ends(t: ClockMs, ms: u64)
    ensures
        t.0 + ms <= u64::MAX ==> t.plus(ms).0 == t.0 + ms,
        t.0 + ms > u64::MAX ==> t.plus(ms).0 == u64::MAX,
        t.0 >= ms ==> t.minus(ms).0 == t.0 - ms,
        t.0 < ms ==> t.minus(ms).0 == 0,
        vstd::std_specs::cmp::PartialOrdSpec::partial_cmp_spec(&t, &ClockMs(ms)) == Some(
            Ordering::Less,
        ) <==> t.0 < ms,
        vstd::std_specs::cmp::PartialOrdSpec::partial_cmp_spec(&t, &ClockMs(ms)) == Some(
            Ordering::Greater,
        ) <==> t.0 > ms,
{
}

/// A poll changes nothing, unless the reader had caught up and its window has
/// passed: then it counts one lapse and asks for a resync.
pub proof fn a_poll_only_records_a_lapse(core: LeaseModel, now: ClockMs)
    requires
        core.lapses < u64::MAX,
    ensures
        core.caught_up && !(core.until() matches Some(until) && now.0 < until.0) ==> core.polled(
            now,
        ) == (LeaseModel { caught_up: false, lapses: (core.lapses + 1) as u64, ..core }),
        !core.caught_up || (core.until() matches Some(until) && now.0 < until.0) ==> core.polled(
            now,
        ) == core,
{
}

/// A granter's map speaks for that granter alone, and only with what it holds
/// for this node's own life.
pub proof fn a_grant_map_speaks_for_its_granter(
    core: LeaseModel,
    granter: Seq<char>,
    grants: Map<Seq<char>, RenewalId>,
    other: Seq<char>,
)
    ensures
        ({
            let now = core.observed(granter, grants);
            &&& now.granters.contains_key(granter) <==> grants.contains_key(core.me)
                && grants[core.me].epoch == core.epoch
            &&& now.granters.contains_key(granter) ==> now.granters[granter]
                == grants[core.me].seq
            &&& other != granter ==> (now.granters.contains_key(other)
                <==> core.granters.contains_key(other))
            &&& other != granter && core.granters.contains_key(other) ==> now.granters[other]
                == core.granters[other]
            &&& now == (LeaseModel { granters: now.granters, ..core })
        }),
{
}

/// More granters to wait for, or lower confirmations, never move the window
/// later: as long as renewals were recorded in sequence, every such change can
/// only shorten it or close it.
pub proof fn fewer_confirmations_never_extend(core: LeaseModel, less: LeaseModel, now: ClockMs)
    requires
        core.in_sequence(),
        less.published == core.published,
        less.duration_ms == core.duration_ms,
        less.margin_ms == core.margin_ms,
        core.roster.subset_of(less.roster),
        forall|g: Seq<char>| #[trigger]
            less.granters.contains_key(g) ==> core.granters.contains_key(g) && less.granters[g]
                <= core.granters[g],
    ensures
        less.live(now) ==> core.live(now),
{
    if less.live(now) {
        let seq = less.confirmed_seq()->0;
        assert(less.newest_confirmed(seq));
        assert(core.confirms(seq)) by {
            assert forall|g: Seq<char>| #[trigger] core.roster.contains(
                g,
            ) implies core.granters.contains_key(g) && seq <= core.granters[g] by {
                assert(less.roster.contains(g));
            }
        }
        lemma_newest_is_there(core, seq);
        let top = core.confirmed_seq()->0;
        assert(core.newest_confirmed(top));
        assert(seq <= top);
        let low_at = instant_of(core.published, seq)->0;
        lemma_instant(core.published, seq);
        lemma_instant(core.published, top);
        let last = core.published.len() - 1;
        let i = choose|i: int|
            0 <= i < core.published.len() && #[trigger] core.published[i] == (seq, low_at);
        let k = i + (top - seq);
        assert(core.published[last] == core.published.last());
        if i < last {
            assert(core.published[last].0 == core.published[i].0 + (last - i));
        }
        assert(core.published[k].0 == top);
        let top_at = instant_of(core.published, top)->0;
        let j = choose|j: int|
            0 <= j < core.published.len() && #[trigger] core.published[j] == (top, top_at);
        if j < i {
            assert(core.published[j].0 < core.published[i].0);
        }
        if i < j {
            assert(core.published[i].1.0 <= core.published[j].1.0);
        }
    }
}

/// A lapse is told once: after it the core needs a resync at every later
/// instant, whatever the group confirms meanwhile.
pub proof fn a_lapse_is_one_edge(
    core: LeaseModel,
    now: ClockMs,
    later: ClockMs,
    granter: Seq<char>,
    grants: Map<Seq<char>, RenewalId>,
)
    requires
        core.state(now) == LeaseState::Lapsed,
    ensures
        core.polled(now).state(later) == LeaseState::NeedsResync,
        core.polled(now).polled(later) == core.polled(now),
        core.polled(now).observed(granter, grants).state(later) == LeaseState::NeedsResync,
{
}

/// The reader's half: what this node has published, what the group has
/// confirmed, and therefore whether it may serve cached state right now.
///
/// This node may serve iff `now` is before the instant recorded for the
/// newest renewal confirmed by every granter in the roster, plus the
/// duration, less the margin, and the consumer has affirmed catch-up since
/// the last lapse.
#[derive(Debug)]
pub struct LeaseCore {
    me: NodeId,
    epoch: u64,
    duration_ms: u64,
    margin_ms: u64,
    next_seq: u64,
    published: Vec<(u64, ClockMs)>,
    granters: IdMap<u64>,
    roster: IdSet,
    caught_up: bool,
    lapses: u64,
}

impl View for LeaseCore {
    type V = LeaseModel;

    closed spec fn view(&self) -> LeaseModel {
        LeaseModel {
            me: self.me@,
            epoch: self.epoch,
            duration_ms: self.duration_ms,
            margin_ms: self.margin_ms,
            next_seq: self.next_seq,
            published: self.published@,
            granters: self.granters@,
            roster: self.roster@,
            caught_up: self.caught_up,
            lapses: self.lapses,
        }
    }
}

impl LeaseCore {
    /// A reader core for `me`, leasing under `cfg`, in lease life `epoch`.
    pub fn new(me: NodeId, cfg: &LeaseConfig, epoch: u64) -> (r: LeaseCore)
        ensures
            r@ == (LeaseModel {
                me: me@,
                epoch,
                duration_ms: cfg.duration_in_ms(),
                margin_ms: cfg.margin_in_ms(),
                next_seq: 1,
                published: Seq::empty(),
                granters: Map::empty(),
                roster: Set::empty(),
                caught_up: false,
                lapses: 0,
            }),
    {
        LeaseCore {
            me,
            epoch,
            duration_ms: cfg.duration_ms(),
            margin_ms: cfg.rate_margin_ms(),
            next_seq: 1,
            published: Vec::new(),
            granters: IdMap::new(),
            roster: IdSet::new(),
            caught_up: false,
            lapses: 0,
        }
    }

    /// This node.
    pub(crate) fn node(&self) -> (r: &NodeId)
        ensures
            r@ == self@.me,
    {
        &self.me
    }

    /// This lease life's epoch.
    pub fn epoch(&self) -> (r: u64)
        ensures
            r == self@.epoch,
    {
        self.epoch
    }

    /// How many times this core has lapsed.
    pub fn lapses(&self) -> (r: u64)
        ensures
            r == self@.lapses,
    {
        self.lapses
    }

    /// Records that a renewal is about to be published at `at`, handing back
    /// the renewal to put on the wire. To be called before the write is
    /// enqueued: the window must not start later than the one the granters
    /// give.
    pub fn on_renew(&mut self, at: ClockMs) -> (r: RenewalId)
        ensures
            r == (RenewalId { epoch: old(self)@.epoch, seq: old(self)@.next_seq }),
            final(self)@ == old(self)@.renewed(at),
            final(self)@.published.len() <= MAX_TRACKED_RENEWALS,
    {
        let seq: u64 = self.next_seq;
        let ghost before = self.published@;
        if self.next_seq < u64::MAX {
            self.next_seq = self.next_seq + 1;
        }
        let len: usize = self.published.len();
        if len > 0 && self.published[len - 1].0 == seq {
            let _old: Option<(u64, ClockMs)> = self.published.pop();
        }
        self.published.push((seq, at));
        let ghost all = self.published@;
        let ghost this = *self;
        let ghost mut dropped: int = 0;
        proof {
            assert(all.subrange(0, all.len() as int) =~= all);
        }
        while self.published.len() > MAX_TRACKED_RENEWALS
            invariant
                0 <= dropped,
                dropped == 0 || all.len() - dropped >= MAX_TRACKED_RENEWALS,
                dropped <= all.len(),
                self.published@ == all.subrange(dropped, all.len() as int),
                self@ == (LeaseModel { published: self.published@, ..this@ }),
            decreases self.published@.len(),
        {
            let _oldest: (u64, ClockMs) = self.published.remove(0);
            proof {
                dropped = dropped + 1;
                assert(self.published@ =~= all.subrange(dropped, all.len() as int));
            }
        }
        proof {
            assert(self.published@ =~= recorded(before, seq, at));
        }
        RenewalId { epoch: self.epoch, seq }
    }

    /// The newest renewal this node has published.
    pub fn last_renewal(&self) -> (r: Option<RenewalId>)
        ensures
            r == (if self@.published.len() > 0 {
                Some(RenewalId { epoch: self@.epoch, seq: self@.published.last().0 })
            } else {
                None
            }),
    {
        let len: usize = self.published.len();
        if len > 0 {
            Some(RenewalId { epoch: self.epoch, seq: self.published[len - 1].0 })
        } else {
            None
        }
    }

    /// Replaces the set of granters that must confirm before this node may
    /// serve. This node is filtered out: a reader never waits on itself.
    pub fn set_roster(&mut self, roster: &[NodeId])
        ensures
            final(self)@ == (LeaseModel {
                roster: crate::ids::names(roster@).to_set().remove(old(self)@.me),
                ..old(self)@
            }),
    {
        let mut set: IdSet = IdSet::of(roster);
        let _held: bool = set.remove(&self.me);
        self.roster = set;
    }

    /// Folds one granter's advertised grant map into this core. Only a grant
    /// of this lease life counts; anything else records as no confirmation at
    /// all. Maps are state: a regression is adopted as it is.
    pub fn observe_grant_map(&mut self, granter: &NodeId, grants: &GrantMap)
        ensures
            final(self)@ == old(self)@.observed(granter@, grants@),
    {
        match grants.get_copy(&self.me) {
            Some(id) => {
                if id.epoch == self.epoch {
                    self.granters.insert(granter.clone(), id.seq);
                } else {
                    let _gone: Option<u64> = self.granters.remove(granter);
                }
            },
            None => {
                let _gone: Option<u64> = self.granters.remove(granter);
            },
        }
    }

    /// Drops what `granter` had confirmed.
    pub fn forget_granter(&mut self, granter: &NodeId)
        ensures
            final(self)@ == (LeaseModel {
                granters: old(self)@.granters.remove(granter@),
                ..old(self)@
            }),
    {
        let _gone: Option<u64> = self.granters.remove(granter);
    }

    /// The newest renewal `granter` has confirmed, in this lease life.
    pub fn confirmed_by(&self, granter: &NodeId) -> (r: Option<RenewalId>)
        ensures
            r == (if self@.granters.contains_key(granter@) {
                Some(RenewalId { epoch: self@.epoch, seq: self@.granters[granter@] })
            } else {
                None
            }),
    {
        match self.granters.get_copy(granter) {
            Some(seq) => Some(RenewalId { epoch: self.epoch, seq }),
            None => None,
        }
    }

    /// The newest renewal confirmed by every granter in the roster, or `None`
    /// if any of them confirms nothing or nothing has been published yet.
    pub fn confirmed(&self) -> (r: Option<RenewalId>)
        ensures
            r == (match self@.confirmed_seq() {
                Some(seq) => Some(RenewalId { epoch: self@.epoch, seq }),
                None => None,
            }),
    {
        match self.confirmed_seq() {
            Some(seq) => Some(RenewalId { epoch: self.epoch, seq }),
            None => None,
        }
    }

    /// The instant this node's right to serve ends. `None` when nothing is
    /// confirmed, or when the confirmed renewal is so old that its instant is
    /// no longer tracked.
    pub fn serve_until(&self) -> (r: Option<ClockMs>)
        ensures
            r == self@.until(),
    {
        match self.confirmed_seq() {
            None => None,
            Some(seq) => match find_instant(&self.published, seq) {
                None => None,
                Some(at) => Some(
                    at.saturating_add_ms(self.duration_ms).saturating_sub_ms(self.margin_ms),
                ),
            },
        }
    }

    /// The state this core is in at `now`, without consuming the lapse edge.
    pub fn peek(&self, now: ClockMs) -> (r: LeaseState)
        ensures
            r == self@.state(now),
    {
        if !self.caught_up {
            LeaseState::NeedsResync
        } else if self.live_at(now) {
            LeaseState::Serving
        } else {
            LeaseState::Lapsed
        }
    }

    /// Advances the state machine to `now` and tells the state. A lapse is
    /// told exactly once: it clears the catch-up affirmation.
    pub fn poll(&mut self, now: ClockMs) -> (r: LeaseState)
        requires
            old(self)@.lapses < u64::MAX,
        ensures
            r == old(self)@.state(now),
            final(self)@ == old(self)@.polled(now),
    {
        let state: LeaseState = self.peek(now);
        if state == LeaseState::Lapsed {
            self.caught_up = false;
            self.lapses = self.lapses + 1;
        }
        state
    }

    /// Whether this node may serve cached state at `now`. Advances the state
    /// machine like [`poll`](Self::poll).
    pub fn valid(&mut self, now: ClockMs) -> (r: bool)
        requires
            old(self)@.lapses < u64::MAX,
        ensures
            r == (old(self)@.state(now) == LeaseState::Serving),
            final(self)@ == old(self)@.polled(now),
    {
        self.poll(now) == LeaseState::Serving
    }

    /// Affirms that the consumer has re-synchronized and may serve again. It
    /// takes only while a lease is live at `now`: state fetched inside a
    /// lapse can already be stale.
    pub fn mark_caught_up(&mut self, now: ClockMs) -> (r: bool)
        ensures
            r == old(self)@.live(now),
            final(self)@ == (LeaseModel {
                caught_up: old(self)@.caught_up || old(self)@.live(now),
                ..old(self)@
            }),
    {
        let live: bool = self.live_at(now);
        if live {
            self.caught_up = true;
        }
        live
    }

    /// Forces a resync without a lapse: serving stops until the consumer
    /// affirms catch-up again.
    pub fn require_resync(&mut self)
        ensures
            final(self)@ == (LeaseModel { caught_up: false, ..old(self)@ }),
    {
        self.caught_up = false;
    }

    fn live_at(&self, now: ClockMs) -> (r: bool)
        ensures
            r == self@.live(now),
    {
        match self.serve_until() {
            Some(until) => now < until,
            None => false,
        }
    }

    /// The least of what the granters in the roster confirm, capped at what
    /// this node has actually published.
    fn confirmed_seq(&self) -> (r: Option<u64>)
        ensures
            r == self@.confirmed_seq(),
    {
        let len: usize = self.published.len();
        if len == 0 {
            proof {
                assert forall|seq: u64| !self@.newest_confirmed(seq) by {
                    assert(!self@.confirms(seq));
                }
            }
            return None;
        }
        let top: u64 = self.published[len - 1].0;
        let mut confirmed: u64 = top;
        let n: usize = self.roster.len();
        let ghost rows = self.roster.rows();
        proof {
            crate::idmap::lemma_map_of(rows);
        }
        let mut i: usize = 0;
        while i < n
            invariant
                i <= n,
                n == rows.len(),
                rows == self.roster.rows(),
                len == self.published@.len(),
                len > 0,
                top == self.published@.last().0,
                confirmed <= top,
                forall|k: Seq<char>| #[trigger]
                    self.roster@.contains(k) <==> exists|j: int|
                        0 <= j < rows.len() && (#[trigger] rows[j]).0 == k,
                forall|j: int|
                    0 <= j < i ==> self.granters@.contains_key((#[trigger] rows[j]).0) && confirmed
                        <= self.granters@[rows[j].0],
                confirmed == top || exists|j: int|
                    0 <= j < i && self.granters@[(#[trigger] rows[j]).0] == confirmed,
            decreases n - i,
        {
            let granter: &NodeId = self.roster.at(i);
            match self.granters.get_copy(granter) {
                None => {
                    proof {
                        assert(rows[i as int].0 == granter@);
                        assert(self.roster@.contains(granter@));
                        let core = self@;
                        assert(core.roster.contains(granter@));
                        assert forall|seq: u64| !self@.newest_confirmed(seq) by {
                            assert(!self@.confirms(seq));
                        }
                    }
                    return None;
                },
                Some(seq) => {
                    proof {
                        assert(rows[i as int].0 == granter@);
                    }
                    if seq < confirmed {
                        confirmed = seq;
                    }
                },
            }
            i = i + 1;
        }
        proof {
            let core = self@;
            assert(core.confirms(confirmed)) by {
                assert forall|g: Seq<char>| #[trigger] core.roster.contains(
                    g,
                ) implies core.granters.contains_key(g) && confirmed <= core.granters[g] by {
                    let j = choose|j: int| 0 <= j < rows.len() && (#[trigger] rows[j]).0 == g;
                    assert(rows[j].0 == g);
                }
            }
            assert forall|other: u64| #[trigger] core.confirms(other) implies other
                <= confirmed by {
                if confirmed != top {
                    let j = choose|j: int|
                        0 <= j < n && self.granters@[(#[trigger] rows[j]).0] == confirmed;
                    assert(core.roster.contains(rows[j].0));
                }
            }
            assert(core.newest_confirmed(confirmed));
            let chosen = core.confirmed_seq()->0;
            assert(core.newest_confirmed(chosen));
            assert(chosen <= confirmed && confirmed <= chosen);
        }
        Some(confirmed)
    }
}

fn find_instant(published: &Vec<(u64, ClockMs)>, seq: u64) -> (r: Option<ClockMs>)
    ensures
        r == instant_of(published@, seq),
{
    let mut i: usize = published.len();
    proof {
        assert(published@.subrange(0, i as int) =~= published@);
    }
    while i > 0
        invariant
            i <= published@.len(),
            instant_of(published@, seq) == instant_of(published@.subrange(0, i as int), seq),
        decreases i,
    {
        i = i - 1;
        proof {
            let part = published@.subrange(0, i + 1);
            assert(part.drop_last() =~= published@.subrange(0, i as int));
        }
        if published[i].0 == seq {
            return Some(published[i].1);
        }
    }
    None
}

} // verus!
