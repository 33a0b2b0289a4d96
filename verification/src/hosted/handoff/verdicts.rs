//! The handoff's verdicts, and the order they must be taken in.

use crate::hosted::ledger::VoterState;
use crate::ids::NodeId;
use crate::token::WriteToken;
use crate::watermarks::Watermarks;
use vstd::prelude::*;

verus! {

/// Whether a donor's fence stamp proves its state superseded.
#[derive(Debug, Clone, Copy, PartialEq, Eq, Structural, Hash)]
pub enum Staleness {
    /// Nothing in the stamp proves this donor stale. Not a proof of
    /// freshness.
    Passed,
    /// The donor is stamped below the adopted epoch, or names a different
    /// host at the same epoch.
    Stale,
}

/// Whether a donor's snapshot reaches everything that was asked for.
#[derive(Debug, Clone, PartialEq, Eq)]
pub enum Coverage {
    /// Every needed watermark is met or exceeded.
    Passed,
    /// At least one is not.
    Short {
        /// Per writer, the needed watermark this donor does not reach, in
        /// node order.
        missing: Vec<(NodeId, WriteToken)>,
    },
}

/// What a transfer moved, as counted by one side.
#[derive(Debug, Clone, Copy, PartialEq, Eq, Structural, Hash)]
pub struct DoneCounts {
    /// Chunks.
    pub chunks: u64,
    /// Payload bytes across those chunks, framing excluded.
    pub bytes: u64,
}

impl Default for DoneCounts {
    fn default() -> (r: DoneCounts)
        ensures
            r == (DoneCounts { chunks: 0, bytes: 0 }),
    {
        DoneCounts { chunks: 0, bytes: 0 }
    }
}

/// Whether the requester staged exactly what the donor says it sent.
#[derive(Debug, Clone, Copy, PartialEq, Eq, Structural, Hash)]
pub enum DoneCheck {
    /// The counts agree exactly.
    Passed,
    /// They do not: a shortage, or a surplus.
    Truncated,
}

/// Where a handoff has got to. Refusals and errors are exits, not phases.
#[derive(Debug, Clone, Copy, PartialEq, Eq, Structural, Hash)]
pub enum HandoffPhase {
    /// Nothing sent yet. The starting phase.
    Request,
    /// The request is out; the donor's answer has not been verified.
    OfferVerify,
    /// The offer passed both checks; chunks are being staged.
    Stage,
    /// A done frame arrived; its counts have not been checked.
    DoneVerify,
    /// The counts agreed; the sink has not been finished.
    Finish,
    /// Finished and installed. Terminal.
    Complete,
}

/// The events that move a handoff forward, one per legal transition.
#[derive(Debug, Clone, Copy, PartialEq, Eq, Structural, Hash)]
pub enum HandoffStep {
    /// The request frame was written.
    Requested,
    /// An offer arrived and passed staleness and coverage.
    OfferAccepted,
    /// One chunk arrived and was applied to the sink.
    Chunk,
    /// A done frame arrived.
    DoneSeen,
    /// The counts agreed.
    CountsOk,
    /// The sink was finished.
    Finished,
}

impl HandoffPhase {
    /// The one successor a phase has under `step`, if any. Only staging loops.
    pub open spec fn after(self, step: HandoffStep) -> Option<HandoffPhase> {
        match (self, step) {
            (HandoffPhase::Request, HandoffStep::Requested) => Some(HandoffPhase::OfferVerify),
            (HandoffPhase::OfferVerify, HandoffStep::OfferAccepted) => Some(HandoffPhase::Stage),
            (HandoffPhase::Stage, HandoffStep::Chunk) => Some(HandoffPhase::Stage),
            (HandoffPhase::Stage, HandoffStep::DoneSeen) => Some(HandoffPhase::DoneVerify),
            (HandoffPhase::DoneVerify, HandoffStep::CountsOk) => Some(HandoffPhase::Finish),
            (HandoffPhase::Finish, HandoffStep::Finished) => Some(HandoffPhase::Complete),
            _ => None,
        }
    }

    /// The phase after `step`, or `None` if that step is not legal here.
    #[must_use]
    pub fn advance(self, step: HandoffStep) -> (r: Option<HandoffPhase>)
        ensures
            r == self.after(step),
    {
        match (self, step) {
            (HandoffPhase::Request, HandoffStep::Requested) => Some(HandoffPhase::OfferVerify),
            (HandoffPhase::OfferVerify, HandoffStep::OfferAccepted) => Some(HandoffPhase::Stage),
            (HandoffPhase::Stage, HandoffStep::Chunk) => Some(HandoffPhase::Stage),
            (HandoffPhase::Stage, HandoffStep::DoneSeen) => Some(HandoffPhase::DoneVerify),
            (HandoffPhase::DoneVerify, HandoffStep::CountsOk) => Some(HandoffPhase::Finish),
            (HandoffPhase::Finish, HandoffStep::Finished) => Some(HandoffPhase::Complete),
            _ => None,
        }
    }

    /// Whether the handoff is over and installed.
    #[must_use]
    pub fn is_complete(self) -> (r: bool)
        ensures
            r == (self is Complete),
    {
        match self {
            HandoffPhase::Complete => true,
            _ => false,
        }
    }
}

/// The phase a run of steps leads to from `phase`, if every one is legal.
pub open spec fn walk(phase: HandoffPhase, steps: Seq<HandoffStep>) -> Option<HandoffPhase>
    decreases steps.len(),
{
    if steps.len() == 0 {
        Some(phase)
    } else {
        match phase.after(steps[0]) {
            None => None,
            Some(next) => walk(next, steps.subrange(1, steps.len() as int)),
        }
    }
}

/// The end of the ordered path: chunks, then the terminator, the counts and
/// the finish.
pub open spec fn staged_through(steps: Seq<HandoffStep>) -> bool {
    let n = steps.len() - 3;
    &&& 0 <= n
    &&& forall|i: int| 0 <= i < n ==> steps[i] == HandoffStep::Chunk
    &&& steps[n] == HandoffStep::DoneSeen
    &&& steps[n + 1] == HandoffStep::CountsOk
    &&& steps[n + 2] == HandoffStep::Finished
}

/// A handoff completes along the ordered path and along no other: the request
/// is sent, one offer is accepted, any number of chunks is staged, the
/// terminator is seen, the counts agree, and the sink is finished once.
/// Nothing is legal after that.
pub proof fn only_the_ordered_path_completes(steps: Seq<HandoffStep>, more: HandoffStep)
    ensures
        walk(HandoffPhase::Request, steps) == Some(HandoffPhase::Complete) <==> {
            &&& steps.len() >= 2
            &&& steps[0] == HandoffStep::Requested
            &&& steps[1] == HandoffStep::OfferAccepted
            &&& staged_through(steps.subrange(2, steps.len() as int))
        },
        HandoffPhase::Complete.after(more) is None,
{
    reveal_with_fuel(walk, 3);
    if steps.len() >= 2 {
        let one = steps.subrange(1, steps.len() as int);
        let two = steps.subrange(2, steps.len() as int);
        assert(one.subrange(1, one.len() as int) =~= two);
        lemma_staging(two);
        if walk(HandoffPhase::Request, steps) == Some(HandoffPhase::Complete) {
            assert(walk(HandoffPhase::OfferVerify, one) == Some(HandoffPhase::Complete));
            assert(walk(HandoffPhase::Stage, two) == Some(HandoffPhase::Complete));
        }
    }
}

proof fn lemma_staging(steps: Seq<HandoffStep>)
    ensures
        walk(HandoffPhase::Stage, steps) == Some(HandoffPhase::Complete) <==> staged_through(steps),
    decreases steps.len(),
{
    reveal_with_fuel(walk, 4);
    if steps.len() > 0 {
        let rest = steps.subrange(1, steps.len() as int);
        if steps[0] == HandoffStep::Chunk {
            lemma_staging(rest);
            if staged_through(rest) {
                assert forall|i: int| 0 <= i < steps.len() - 3 implies steps[i]
                    == HandoffStep::Chunk by {
                    if i > 0 {
                        assert(rest[i - 1] == steps[i]);
                    }
                }
                assert(rest[rest.len() - 3] == steps[steps.len() - 3]);
                assert(rest[rest.len() - 2] == steps[steps.len() - 2]);
                assert(rest[rest.len() - 1] == steps[steps.len() - 1]);
            }
            if staged_through(steps) {
                assert(steps.len() > 3);
                assert forall|i: int| 0 <= i < rest.len() - 3 implies rest[i]
                    == HandoffStep::Chunk by {
                    assert(rest[i] == steps[i + 1]);
                }
                assert(rest[rest.len() - 3] == steps[steps.len() - 3]);
            }
        } else {
            if steps.len() >= 2 {
                let last = rest.subrange(1, rest.len() as int);
                assert(rest[0] == steps[1]);
                if steps.len() >= 3 {
                    assert(last[0] == steps[2]);
                }
            }
        }
    }
}

/// A fence stamp as plain values: the epoch and the host it names.
pub type Stamp = (u64, Option<Seq<char>>);

/// Whether a donor's stamp is provably superseded by the adopted one: it is
/// of an older epoch, or both name a host of the same epoch and the names
/// differ. A stamp without a host contradicts nothing.
pub open spec fn superseded(donor: Stamp, adopted: Stamp) -> bool {
    donor.0 < adopted.0 || (donor.0 == adopted.0 && donor.1 is Some && adopted.1 is Some && donor.1
        != adopted.1)
}

/// The host a stamp names.
pub open spec fn host_of(host: Option<&NodeId>) -> Option<Seq<char>> {
    match host {
        None => None,
        Some(id) => Some(id@),
    }
}

/// The handoff's verdicts. They carry nothing between calls.
#[derive(Debug, Clone, Copy, PartialEq, Eq)]
pub struct HandoffCore;

impl HandoffCore {
    /// Whether `donor_fence` is provably superseded by `adopted`. Epoch-major:
    /// the epoch is the ordering and the host is only the name.
    #[must_use]
    pub fn staleness(
        donor_fence: (u64, Option<&NodeId>),
        adopted: (u64, Option<&NodeId>),
    ) -> (r: Staleness)
        ensures
            r == (if superseded(
                (donor_fence.0, host_of(donor_fence.1)),
                (adopted.0, host_of(adopted.1)),
            ) {
                Staleness::Stale
            } else {
                Staleness::Passed
            }),
    {
        let (donor_epoch, donor_host) = donor_fence;
        let (adopted_epoch, adopted_host) = adopted;
        if donor_epoch < adopted_epoch {
            return Staleness::Stale;
        }
        if donor_epoch > adopted_epoch {
            return Staleness::Passed;
        }
        match donor_host {
            Some(donor) => match adopted_host {
                Some(ours) => if *donor == *ours {
                    Staleness::Passed
                } else {
                    Staleness::Stale
                },
                None => Staleness::Passed,
            },
            None => Staleness::Passed,
        }
    }

    /// Whether `covers` reaches every watermark in `need`. A writer the donor
    /// does not name is short; a writer that was not asked for is free.
    #[must_use]
    pub fn coverage(need: &Watermarks, covers: &Watermarks) -> (r: Coverage)
        ensures
            match r {
                Coverage::Passed => crate::watermarks::at_least(covers@, need@),
                Coverage::Short { missing } => {
                    &&& !crate::watermarks::at_least(covers@, need@)
                    &&& crate::idmap::ascending(crate::hosted::recovery::pairs(missing@))
                    &&& crate::idmap::map_of(crate::hosted::recovery::pairs(missing@))
                        == crate::hosted::recovery::missing(need@, covers@)
                },
            },
    {
        let missing: Vec<(NodeId, WriteToken)> = crate::hosted::recovery::shortfall(need, covers);
        proof {
            let listed = crate::hosted::recovery::pairs(missing@);
            crate::idmap::lemma_map_of(listed);
            lemma_nothing_missing(need@, covers@);
            if missing@.len() == 0 {
                assert(listed =~= Seq::<(Seq<char>, WriteToken)>::empty());
            } else {
                assert(crate::idmap::map_of(listed).contains_key(listed[0].0));
            }
        }
        if missing.len() == 0 {
            Coverage::Passed
        } else {
            Coverage::Short { missing }
        }
    }

    /// Whether the requester staged exactly what the donor claims to have
    /// sent: equality on both counters, and nothing weaker.
    #[must_use]
    pub fn done_consistent(staged: DoneCounts, claimed: DoneCounts) -> (r: DoneCheck)
        ensures
            r == (if staged == claimed {
                DoneCheck::Passed
            } else {
                DoneCheck::Truncated
            }),
    {
        if staged == claimed {
            DoneCheck::Passed
        } else {
            DoneCheck::Truncated
        }
    }
}

proof fn lemma_nothing_missing(
    need: Map<Seq<char>, WriteToken>,
    covers: Map<Seq<char>, WriteToken>,
)
    ensures
        crate::watermarks::at_least(covers, need) <==> crate::hosted::recovery::missing(
            need,
            covers,
        ) == Map::<Seq<char>, WriteToken>::empty(),
{
    let short = crate::hosted::recovery::missing(need, covers);
    if crate::watermarks::at_least(covers, need) {
        assert(short =~= Map::<Seq<char>, WriteToken>::empty());
    }
    if short == Map::<Seq<char>, WriteToken>::empty() {
        assert forall|w: Seq<char>| #[trigger] need.contains_key(w) implies covers.contains_key(w)
            && covers[w].covers(need[w]) by {
            assert(!short.contains_key(w));
        }
    }
}

/// A stamp never supersedes itself, and of two stamps at different epochs
/// exactly the older is superseded. At one epoch a contradiction is mutual,
/// and a stamp without a host is never refused and refuses none.
pub proof fn staleness_is_epoch_major(a: Stamp, b: Stamp)
    ensures
        !superseded(a, a),
        a.0 < b.0 ==> superseded(a, b) && !superseded(b, a),
        a.0 == b.0 ==> (superseded(a, b) <==> superseded(b, a)),
        a.0 >= b.0 && (a.1 is None || b.1 is None) ==> !superseded(a, b),
{
}

/// At one epoch two stamps that name different hosts contradict each other,
/// and two that name the same do not.
pub proof fn two_hosts_of_one_epoch_contradict(epoch: u64, a: Seq<char>, b: Seq<char>, id: &NodeId)
    ensures
        host_of(Some(id)) == Some(id@),
        host_of(None) is None,
        a != b ==> superseded((epoch, Some(a)), (epoch, Some(b))),
        a == b ==> !superseded((epoch, Some(a)), (epoch, Some(b))),
{
}

/// Asking for nothing is answered by anything, a donor covers what it has,
/// and a donor that covers more still covers.
pub proof fn coverage_is_a_floor(
    need: Map<Seq<char>, WriteToken>,
    covers: Map<Seq<char>, WriteToken>,
    more: Map<Seq<char>, WriteToken>,
)
    ensures
        crate::watermarks::at_least(covers, Map::<Seq<char>, WriteToken>::empty()),
        crate::watermarks::at_least(covers, covers),
        crate::watermarks::at_least(covers, need) && crate::watermarks::at_least(more, covers)
            ==> crate::watermarks::at_least(more, need),
{
    if crate::watermarks::at_least(covers, need) && crate::watermarks::at_least(more, covers) {
        assert forall|w: Seq<char>| #[trigger] need.contains_key(w) implies more.contains_key(w)
            && more[w].covers(need[w]) by {
            assert(covers.contains_key(w));
        }
    }
}

/// Coverage and the recovery rule read watermarks alike: a host may serve
/// exactly when a fresh majority has been read and its own watermarks cover
/// what that majority names.
pub proof fn coverage_is_the_recovery_floor(
    epoch: u64,
    view: Seq<VoterState>,
    own: Map<Seq<char>, WriteToken>,
)
    ensures
        crate::hosted::recovery::complete(epoch, view, own) <==> {
            &&& crate::hosted::commit::fresh_majority(view, epoch)
            &&& crate::watermarks::at_least(own, crate::hosted::recovery::targets(view, epoch))
        },
{
    lemma_nothing_missing(crate::hosted::recovery::targets(view, epoch), own);
}

/// A covering handoff completes a recovery: once a fresh majority has been
/// read, a host that lacks `need` and folds in a snapshot covering `need` may
/// serve.
pub proof fn a_covering_handoff_completes_a_recovery(
    epoch: u64,
    view: Seq<VoterState>,
    own: Map<Seq<char>, WriteToken>,
    covers: Map<Seq<char>, WriteToken>,
)
    requires
        crate::hosted::commit::fresh_majority(view, epoch),
        crate::watermarks::at_least(
            covers,
            crate::hosted::recovery::missing(crate::hosted::recovery::targets(view, epoch), own),
        ),
    ensures
        crate::hosted::recovery::complete(epoch, view, crate::watermarks::merged(own, covers)),
{
    let want = crate::hosted::recovery::targets(view, epoch);
    let need = crate::hosted::recovery::missing(want, own);
    let now = crate::watermarks::merged(own, covers);
    assert forall|w: Seq<char>| #[trigger] want.contains_key(w) implies now.contains_key(w)
        && now[w].covers(want[w]) by {
        if need.contains_key(w) {
            assert(covers.contains_key(w));
        }
    }
    coverage_is_the_recovery_floor(epoch, view, now);
}

} // verus!
