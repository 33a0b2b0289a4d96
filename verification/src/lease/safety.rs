//! What the two halves of the coherence-lease tier promise together: a reader
//! that may serve has missed no completed write.

use crate::group::GroupView;
use crate::lease::coherence::{Progress, WaitMember};
use crate::lease::config::LeaseState;
use crate::lease::reader::{ClockMs, LeaseModel};
use crate::lease::wire::RenewalId;
use crate::token::WriteToken;
use vstd::prelude::*;

verus! {

/// How far a write has got once the writer has looked at `snapshots` in turn.
pub open spec fn waited(
    writer: Seq<char>,
    token: WriteToken,
    snapshots: Seq<Seq<WaitMember>>,
) -> Progress
    decreases snapshots.len(),
{
    if snapshots.len() == 0 {
        Progress::fresh()
    } else {
        waited(writer, token, snapshots.drop_last()).after(writer, token, snapshots.last())
    }
}

/// Whether the writer's copy of a lease lives as long as the reader reckons:
/// while a renewal that the writer has granted is younger than one duration
/// less the margin, on the reader's clock, the writer's view shows the reader
/// as a holder. The copy is armed for a whole duration when it is adopted,
/// which is after the reader recorded the renewal, and the margin makes up for
/// the rates of the two clocks.
pub open spec fn copy_lives(
    reader: LeaseModel,
    writer: Seq<char>,
    now: ClockMs,
    snapshot: Seq<WaitMember>,
) -> bool {
    forall|seq: u64|
        reader.granters.contains_key(writer) && seq <= reader.granters[writer] && (
        #[trigger] crate::lease::reader::instant_of(reader.published, seq) matches Some(at)
            && now.0 < at.plus(reader.duration_ms).minus(reader.margin_ms).0)
            ==> crate::lease::coherence::present(snapshot, reader.me)
}

/// The guarantee of the tier: when a coherent write completes, every reader
/// that was serving at each of the writer's looks has applied it. `readers`
/// are the states of one reader at the instants `times` at which the writer
/// took its `snapshots`.
pub proof fn no_serving_reader_misses_a_completed_write(
    me: Seq<char>,
    readers: Seq<LeaseModel>,
    times: Seq<ClockMs>,
    writer: Seq<char>,
    token: WriteToken,
    snapshots: Seq<Seq<WaitMember>>,
)
    requires
        me != writer,
        snapshots.len() > 0,
        readers.len() == snapshots.len(),
        times.len() == snapshots.len(),
        forall|k: int|
            0 <= k < snapshots.len() ==> {
                let reader = #[trigger] readers[k];
                &&& reader.me == me
                &&& reader.roster.contains(writer)
                &&& reader.state(times[k]) == LeaseState::Serving
                &&& copy_lives(reader, writer, times[k], snapshots[k])
            },
        waited(writer, token, snapshots).waiting == Set::<Seq<char>>::empty(),
    ensures
        exists|i: int|
            0 <= i < snapshots.last().len() && (#[trigger] snapshots.last()[i]).member@ == me
                && crate::lease::coherence::has_applied(snapshots.last()[i], token),
{
    assert forall|k: int| 0 <= k < snapshots.len() implies crate::lease::coherence::present(
        #[trigger] snapshots[k],
        me,
    ) by {
        let reader = readers[k];
        crate::lease::reader::serving_means_confirmed_by_all(reader, times[k], writer);
        let seq = reader.confirmed_seq()->0;
        assert(crate::lease::reader::instant_of(reader.published, seq) is Some);
    }
    holders_are_never_excused(me, writer, token, snapshots);
    crate::lease::coherence::terminal_verdicts_leave_nobody_behind(
        waited(writer, token, snapshots.drop_last()),
        writer,
        token,
        snapshots.last(),
        me,
    );
}

/// A published deadline that has not passed means that the boot guard was
/// released and that the core it was published from is serving.
pub proof fn a_valid_view_is_serving(core: LeaseModel, warmed: bool, at: ClockMs, now: ClockMs)
    requires
        crate::lease::shell::deadline(core, warmed, at) matches Some(until) && now.0 < until.0,
    ensures
        warmed,
        core.state(now) == LeaseState::Serving,
{
}

/// The guarantee of the tier, as a request path asks for it: when a coherent
/// write completes, every reader whose view was valid at each of the writer's
/// looks has applied it. `readers` are the states of one reader at the instants
/// `at` at which it last published its deadline before each look, and `warmed`
/// tells whether its boot guard was released by then.
pub proof fn no_valid_view_misses_a_completed_write(
    me: Seq<char>,
    readers: Seq<LeaseModel>,
    warmed: Seq<bool>,
    at: Seq<ClockMs>,
    times: Seq<ClockMs>,
    writer: Seq<char>,
    token: WriteToken,
    snapshots: Seq<Seq<WaitMember>>,
)
    requires
        me != writer,
        snapshots.len() > 0,
        readers.len() == snapshots.len(),
        times.len() == snapshots.len(),
        forall|k: int|
            0 <= k < snapshots.len() ==> {
                let reader = #[trigger] readers[k];
                &&& reader.me == me
                &&& reader.roster.contains(writer)
                &&& crate::lease::shell::deadline(reader, warmed[k], at[k]) matches Some(until)
                    && times[k].0 < until.0
                &&& copy_lives(reader, writer, times[k], snapshots[k])
            },
        waited(writer, token, snapshots).waiting == Set::<Seq<char>>::empty(),
    ensures
        exists|i: int|
            0 <= i < snapshots.last().len() && (#[trigger] snapshots.last()[i]).member@ == me
                && crate::lease::coherence::has_applied(snapshots.last()[i], token),
{
    assert forall|k: int| 0 <= k < snapshots.len() implies {
        let reader = #[trigger] readers[k];
        &&& reader.me == me
        &&& reader.roster.contains(writer)
        &&& reader.state(times[k]) == LeaseState::Serving
        &&& copy_lives(reader, writer, times[k], snapshots[k])
    } by {
        a_valid_view_is_serving(readers[k], warmed[k], at[k], times[k]);
    }
    no_serving_reader_misses_a_completed_write(me, readers, times, writer, token, snapshots);
}

/// One thing that happens to a reader.
pub enum ReaderStep {
    /// A renewal is recorded.
    Renew(ClockMs),
    /// One granter's advertised grants are folded in.
    Observe(Seq<char>, Map<Seq<char>, RenewalId>),
    /// What one granter had confirmed is dropped.
    Forget(Seq<char>),
    /// The granters that must confirm are replaced.
    Roster(Set<Seq<char>>),
    /// The roster and every granter's grants are read anew, under a grant key.
    Ingest(GroupView, Seq<char>),
    /// The state machine is advanced.
    Poll(ClockMs),
    /// A resync is forced.
    Resync,
    /// The consumer affirms that it has caught up.
    CatchUp(ClockMs),
}

/// The reader after one step.
pub open spec fn stepped(core: LeaseModel, step: ReaderStep) -> LeaseModel {
    match step {
        ReaderStep::Renew(at) => core.renewed(at),
        ReaderStep::Observe(granter, grants) => core.observed(granter, grants),
        ReaderStep::Forget(granter) => LeaseModel {
            granters: core.granters.remove(granter),
            ..core
        },
        ReaderStep::Roster(granters) => LeaseModel { roster: granters.remove(core.me), ..core },
        ReaderStep::Ingest(group, key) => crate::lease::shell::ingested(core, group, key),
        ReaderStep::Poll(now) => core.polled(now),
        ReaderStep::Resync => LeaseModel { caught_up: false, ..core },
        ReaderStep::CatchUp(now) => LeaseModel {
            caught_up: core.caught_up || core.live(now),
            ..core
        },
    }
}

/// The reader after some steps.
pub open spec fn through(core: LeaseModel, steps: Seq<ReaderStep>) -> LeaseModel
    decreases steps.len(),
{
    if steps.len() == 0 {
        core
    } else {
        stepped(through(core, steps.drop_last()), steps.last())
    }
}

/// Whether a catch-up that is affirmed in some steps takes: a lease is live at
/// the instant it is affirmed.
pub open spec fn a_catch_up_takes(core: LeaseModel, steps: Seq<ReaderStep>) -> bool
    decreases steps.len(),
{
    steps.len() > 0 && ({
        let before = steps.drop_last();
        ||| a_catch_up_takes(core, before)
        ||| steps.last() matches ReaderStep::CatchUp(now) && through(core, before).live(now)
    })
}

/// The correctness rule of the tier: a reader that has lapsed, or that needs a
/// resync for any other reason, stays out at every instant until a catch-up
/// takes, whatever it renews, however its granters and their grants change,
/// and however often it is polled. A lapse that is polled puts it there, and
/// its published deadline is gone.
pub proof fn a_lapsed_reader_stays_out(
    core: LeaseModel,
    steps: Seq<ReaderStep>,
    now: ClockMs,
    warmed: bool,
)
    requires
        !a_catch_up_takes(core, steps),
    ensures
        !core.caught_up ==> through(core, steps).state(now) == LeaseState::NeedsResync,
        !core.caught_up ==> crate::lease::shell::deadline(through(core, steps), warmed, now)
            is None,
        core.state(now) == LeaseState::Lapsed ==> !core.polled(now).caught_up,
    decreases steps.len(),
{
    if steps.len() > 0 {
        a_lapsed_reader_stays_out(core, steps.drop_last(), now, warmed);
    }
}

/// A member that holds a live lease in every one of the writer's looks is
/// never excused: it is waited on until it has applied the write.
pub proof fn holders_are_never_excused(
    member: Seq<char>,
    writer: Seq<char>,
    token: WriteToken,
    snapshots: Seq<Seq<WaitMember>>,
)
    requires
        forall|k: int|
            0 <= k < snapshots.len() ==> crate::lease::coherence::present(
                #[trigger] snapshots[k],
                member,
            ),
    ensures
        !waited(writer, token, snapshots).lapsed.contains(member),
    decreases snapshots.len(),
{
    if snapshots.len() > 0 {
        let init = snapshots.drop_last();
        assert forall|k: int| 0 <= k < init.len() implies crate::lease::coherence::present(
            #[trigger] init[k],
            member,
        ) by {
            assert(init[k] == snapshots[k]);
        }
        holders_are_never_excused(member, writer, token, init);
        assert(snapshots.last() == snapshots[snapshots.len() - 1]);
    }
}

} // verus!
