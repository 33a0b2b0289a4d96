//! What a subscriber of a hosted lineage is told over a whole run, whatever
//! arrives, whoever is adopted and wherever it is cut.

use crate::hosted::lineage::{HostedRead, LineageState};
use crate::ids::NodeId;
use crate::peers::PeerWrite;
use crate::token::WriteToken;
use vstd::prelude::*;

verus! {

/// One thing that is done to a lineage.
pub enum Step<K> {
    /// A peer-write is judged.
    Judge(PeerWrite<K>),
    /// A pair is adopted.
    Adopt(u64, Option<NodeId>),
    /// Every lineage below an epoch is closed.
    Cut(u64),
    /// The next notification is taken, when there is one.
    Pop,
}

/// A lineage, and what has been taken out of it so far.
pub struct Run<K> {
    pub taken: Seq<HostedRead<K>>,
    pub state: LineageState<K>,
}

impl<K> Run<K> {
    /// The run after one more step.
    pub open spec fn after(self, step: Step<K>) -> Run<K> {
        match step {
            Step::Judge(event) => Run { state: self.state.admitted(event), ..self },
            Step::Adopt(epoch, host) => Run { state: self.state.adopted(epoch, host), ..self },
            Step::Cut(epoch) => Run { state: self.state.cut(epoch), ..self },
            Step::Pop => if self.state.pending.len() == 0 {
                self
            } else {
                Run {
                    taken: self.taken.push(self.state.pending[0]),
                    state: LineageState {
                        pending: self.state.pending.subrange(1, self.state.pending.len() as int),
                        ..self.state
                    },
                }
            },
        }
    }

    /// What has been told: taken already, or queued.
    pub open spec fn told(self) -> Seq<HostedRead<K>> {
        self.taken + self.state.pending
    }
}

/// The run of a fresh lineage through some steps.
pub open spec fn run<K>(steps: Seq<Step<K>>) -> Run<K>
    decreases steps.len(),
{
    if steps.len() == 0 {
        Run { taken: Seq::empty(), state: LineageState::fresh() }
    } else {
        run(steps.drop_last()).after(steps.last())
    }
}

/// Whether an event carries numbers as feeds give them: writes count from one,
/// and no number is the largest.
pub open spec fn numbered<K>(event: PeerWrite<K>) -> bool {
    &&& crate::hosted::lineage::token_of(event).seq < u64::MAX
    &&& event matches PeerWrite::Wrote { token, .. } ==> token.seq >= 1
}

/// Whether everything judged in some steps carries numbers as feeds give them.
pub open spec fn all_numbered<K>(steps: Seq<Step<K>>) -> bool {
    forall|i: int|
        0 <= i < steps.len() ==> (#[trigger] steps[i] matches Step::Judge(event) ==> numbered(
            event,
        ))
}

/// Whether notification `j` comes directly before `i`, migrations aside.
pub open spec fn directly_before<K>(reads: Seq<HostedRead<K>>, j: int, i: int) -> bool {
    &&& 0 <= j < i < reads.len()
    &&& !(reads[j] is Migrated)
    &&& forall|k: int| j < k < i ==> #[trigger] reads[k] is Migrated
}

/// Whether notification `i` is the first that is told of its epoch.
pub open spec fn opens_an_epoch<K>(reads: Seq<HostedRead<K>>, i: int) -> bool {
    crate::hosted::lineage::position_of(reads[i]) matches Some(token) && forall|j: int|
        0 <= j < i ==> (crate::hosted::lineage::position_of(#[trigger] reads[j]) matches Some(
            earlier,
        ) ==> earlier.epoch != token.epoch)
}

/// The position told last, migrations aside.
pub open spec fn tail<K>(reads: Seq<HostedRead<K>>) -> Option<WriteToken>
    decreases reads.len(),
{
    if reads.len() == 0 {
        None
    } else {
        match crate::hosted::lineage::position_of(reads.last()) {
            Some(token) => Some(token),
            None => tail(reads.drop_last()),
        }
    }
}

/// Whether each notification fits what was told before it: a write stands one
/// past the position told last, and a gap above it.
pub open spec fn orderly<K>(reads: Seq<HostedRead<K>>) -> bool
    decreases reads.len(),
{
    reads.len() > 0 ==> {
        let before = reads.drop_last();
        &&& orderly(before)
        &&& match reads.last() {
            HostedRead::Wrote { token, .. } => token.seq >= 1 && tail(before) == Some(
                WriteToken { epoch: token.epoch, seq: (token.seq - 1) as u64 },
            ),
            HostedRead::Gap { missed_through } => tail(before) matches Some(last) ==> last.below(
                missed_through,
            ),
            HostedRead::Migrated { .. } => true,
        }
    }
}

/// Whether what has been told is orderly and ends where the lineage stands.
spec fn sound<K>(r: Run<K>) -> bool {
    &&& orderly(r.told())
    &&& match r.state.open {
        Some(open) => {
            &&& open.epoch >= r.state.floor
            &&& open.next >= 1
            &&& tail(r.told()) == Some(
                WriteToken { epoch: open.epoch, seq: (open.next - 1) as u64 },
            )
        },
        None => tail(r.told()) matches Some(last) ==> last.epoch < r.state.floor,
    }
    &&& forall|i: int| 0 <= i < r.state.held.len() ==> numbered(#[trigger] r.state.held[i])
}

/// The stream of a hosted lineage, over any run: the writes taken out strictly
/// ascend, epoch first. Migrations aside, each write comes directly after the
/// write numbered one below it or after a gap through that number, so no hole
/// is silent; and the first thing told of an epoch is a gap.
pub proof fn the_stream_has_no_silent_hole<K>(steps: Seq<Step<K>>)
    requires
        all_numbered(steps),
    ensures
        ({
            let taken = run(steps).taken;
            &&& forall|i: int, j: int|
                #![trigger taken[i], taken[j]]
                0 <= i < j < taken.len() && taken[i] is Wrote && taken[j] is Wrote
                    ==> taken[i]->token.below(taken[j]->token)
            &&& forall|i: int|
                0 <= i < taken.len() && (#[trigger] taken[i]) is Wrote ==> exists|j: int|
                    directly_before(taken, j, i) && crate::hosted::lineage::position_of(
                        taken[j],
                    ) == Some(
                        WriteToken {
                            epoch: taken[i]->token.epoch,
                            seq: (taken[i]->token.seq - 1) as u64,
                        },
                    ) && taken[i]->token.seq >= 1
            &&& forall|i: int|
                0 <= i < taken.len() && (#[trigger] taken[i]) is Wrote ==> exists|j: int|
                    0 <= j < i && (#[trigger] taken[j]) is Gap && taken[j]->missed_through.epoch
                        == taken[i]->token.epoch
            &&& forall|i: int|
                0 <= i < taken.len() && opens_an_epoch(taken, i) ==> (#[trigger] taken[i]) is Gap
        }),
{
    lemma_sound(steps);
    let r = run(steps);
    lemma_front_is_orderly(r.taken, r.state.pending);
    lemma_ascends(r.taken);
    lemma_follows(r.taken);
    lemma_opens_with_a_gap(r.taken);
}

proof fn lemma_sound<K>(steps: Seq<Step<K>>)
    requires
        all_numbered(steps),
    ensures
        sound(run(steps)),
    decreases steps.len(),
{
    if steps.len() > 0 {
        let init = steps.drop_last();
        assert forall|i: int| 0 <= i < init.len() implies (#[trigger] init[i] matches Step::Judge(
            event,
        ) ==> numbered(event)) by {
            assert(init[i] == steps[i]);
        }
        lemma_sound(init);
        assert(steps.last() == steps[steps.len() - 1]);
        lemma_step(run(init), steps.last());
    } else {
        let told = run(steps).told();
        assert(told.len() == 0);
    }
}

proof fn lemma_step<K>(r: Run<K>, step: Step<K>)
    requires
        sound(r),
        step matches Step::Judge(event) ==> numbered(event),
    ensures
        sound(r.after(step)),
{
    match step {
        Step::Judge(event) => lemma_judged(r, event),
        Step::Adopt(epoch, host) => {
            if !(epoch == r.state.adopted_epoch && crate::hosted::lineage::same_host(
                host,
                r.state.adopted_host,
            )) {
                let read = HostedRead::<K>::Migrated { epoch, host };
                let start = Run {
                    state: LineageState {
                        adopted_epoch: epoch,
                        adopted_host: host,
                        pending: r.state.pending.push(read),
                        held: Seq::empty(),
                        ..r.state
                    },
                    ..r
                };
                assert(start.told() =~= r.told().push(read));
                assert(start.told().drop_last() =~= r.told());
                lemma_all_judged(start, r.state.held);
            }
        },
        Step::Cut(epoch) => {
            if epoch > r.state.floor {
                lemma_cut(r.taken, r.state.pending, epoch);
                lemma_held_cut(r.state.held, epoch);
            }
        },
        Step::Pop => {
            if r.state.pending.len() > 0 {
                assert(r.after(step).told() =~= r.told());
            }
        },
    }
}

proof fn lemma_all_judged<K>(r: Run<K>, events: Seq<PeerWrite<K>>)
    requires
        sound(r),
        forall|i: int| 0 <= i < events.len() ==> numbered(#[trigger] events[i]),
    ensures
        sound(Run { state: r.state.admitted_all(events), ..r }),
    decreases events.len(),
{
    if events.len() > 0 {
        let init = events.drop_last();
        assert forall|i: int| 0 <= i < init.len() implies numbered(#[trigger] init[i]) by {
            assert(init[i] == events[i]);
        }
        lemma_all_judged(r, init);
        assert(events.last() == events[events.len() - 1]);
        lemma_judged(Run { state: r.state.admitted_all(init), ..r }, events.last());
    }
}

proof fn lemma_judged<K>(r: Run<K>, event: PeerWrite<K>)
    requires
        sound(r),
        numbered(event),
    ensures
        sound(Run { state: r.state.admitted(event), ..r }),
{
    let s = r.state;
    let n = s.admitted(event);
    let after = Run { state: n, ..r };
    let told = r.told();
    assert forall|i: int| 0 <= i < n.held.len() implies numbered(#[trigger] n.held[i]) by {
        if n.held != s.held {
            if i == n.held.len() - 1 {
                assert(n.held[i] == event);
            } else if s.held.len() >= crate::hosted::lineage::HELD_CAP {
                assert(n.held[i] == s.held[i + 1]);
            } else {
                assert(n.held[i] == s.held[i]);
            }
        }
    }
    let more = n.pending.len() - s.pending.len();
    if n.pending == s.pending {
    } else if more == 1 {
        let a = n.pending.last();
        assert(n.pending.drop_last() =~= s.pending);
        assert(after.told() =~= told.push(a));
        assert(after.told().drop_last() =~= told);
    } else {
        let a = n.pending[n.pending.len() - 2];
        let b = n.pending.last();
        let one = told.push(a);
        assert(n.pending =~= s.pending.push(a).push(b));
        assert(after.told() =~= one.push(b));
        assert(after.told().drop_last() =~= one);
        assert(one.drop_last() =~= told);
        assert(orderly(one));
        assert(tail(one) == crate::hosted::lineage::position_of(a));
    }
    assert(orderly(after.told()));
}

/// A cut leaves the stream orderly, and keeps the position told last unless
/// it stands below the cut.
proof fn lemma_cut<K>(taken: Seq<HostedRead<K>>, queued: Seq<HostedRead<K>>, epoch: u64)
    requires
        orderly(taken + queued),
    ensures
        ({
            let kept = taken + crate::hosted::lineage::reads_from(queued, epoch);
            &&& orderly(kept)
            &&& match tail(taken + queued) {
                None => tail(kept) is None,
                Some(last) => if last.epoch >= epoch {
                    tail(kept) == Some(last)
                } else {
                    tail(kept) matches Some(t) ==> t.epoch < epoch
                },
            }
        }),
    decreases queued.len(),
{
    let all = taken + queued;
    let kept = taken + crate::hosted::lineage::reads_from(queued, epoch);
    if queued.len() == 0 {
        assert(kept =~= all);
    } else {
        let init = queued.drop_last();
        let read = queued.last();
        assert(all.drop_last() =~= taken + init);
        lemma_cut(taken, init, epoch);
        let fewer = taken + crate::hosted::lineage::reads_from(init, epoch);
        if crate::hosted::lineage::reads_from(queued, epoch)
            != crate::hosted::lineage::reads_from(init, epoch) {
            assert(kept =~= fewer.push(read));
            assert(kept.drop_last() =~= fewer);
        }
    }
}

proof fn lemma_held_cut<K>(events: Seq<PeerWrite<K>>, epoch: u64)
    requires
        forall|i: int| 0 <= i < events.len() ==> numbered(#[trigger] events[i]),
    ensures
        forall|i: int|
            0 <= i < crate::hosted::lineage::events_from(events, epoch).len() ==> numbered(
                #[trigger] crate::hosted::lineage::events_from(events, epoch)[i],
            ),
    decreases events.len(),
{
    if events.len() > 0 {
        let init = events.drop_last();
        assert forall|i: int| 0 <= i < init.len() implies numbered(#[trigger] init[i]) by {
            assert(init[i] == events[i]);
        }
        lemma_held_cut(init, epoch);
        assert(events.last() == events[events.len() - 1]);
        let kept = crate::hosted::lineage::events_from(init, epoch);
        let all = crate::hosted::lineage::events_from(events, epoch);
        assert forall|i: int| 0 <= i < all.len() implies numbered(#[trigger] all[i]) by {
            if i < kept.len() {
                assert(all[i] == kept[i]);
            }
        }
    }
}

proof fn lemma_front_is_orderly<K>(front: Seq<HostedRead<K>>, rest: Seq<HostedRead<K>>)
    requires
        orderly(front + rest),
    ensures
        orderly(front),
    decreases rest.len(),
{
    if rest.len() > 0 {
        assert((front + rest).drop_last() =~= front + rest.drop_last());
        lemma_front_is_orderly(front, rest.drop_last());
    } else {
        assert(front + rest =~= front);
    }
}

/// Where the position told last stands, and that every other is below it.
proof fn lemma_tail<K>(reads: Seq<HostedRead<K>>)
    requires
        orderly(reads),
    ensures
        match tail(reads) {
            None => forall|i: int| 0 <= i < reads.len() ==> (#[trigger] reads[i]) is Migrated,
            Some(last) => {
                &&& exists|j: int|
                    0 <= j < reads.len() && crate::hosted::lineage::position_of(
                        #[trigger] reads[j],
                    ) == Some(last) && (forall|k: int|
                        j < k < reads.len() ==> (#[trigger] reads[k]) is Migrated)
                &&& forall|i: int|
                    0 <= i < reads.len() ==> (crate::hosted::lineage::position_of(
                        #[trigger] reads[i],
                    ) matches Some(t) ==> last.covers(t))
            },
        },
    decreases reads.len(),
{
    if reads.len() > 0 {
        let init = reads.drop_last();
        let n = reads.len() - 1;
        lemma_tail(init);
        assert(reads[n] == reads.last());
        assert forall|i: int| 0 <= i < init.len() implies #[trigger] reads[i] == init[i] by {}
        if reads.last() is Migrated {
            if let Some(last) = tail(init) {
                let j = choose|j: int|
                    0 <= j < init.len() && crate::hosted::lineage::position_of(
                        #[trigger] init[j],
                    ) == Some(last) && (forall|k: int|
                        j < k < init.len() ==> (#[trigger] init[k]) is Migrated);
                assert(crate::hosted::lineage::position_of(reads[j]) == Some(last));
                assert forall|k: int| j < k < reads.len() implies (
                #[trigger] reads[k]) is Migrated by {
                    if k < n {
                        assert(reads[k] == init[k]);
                    }
                }
            }
        } else {
            let last = tail(reads)->0;
            assert forall|i: int| 0 <= i < reads.len() implies (
            crate::hosted::lineage::position_of(#[trigger] reads[i]) matches Some(t)
                ==> last.covers(t)) by {
                if i < n {
                    assert(reads[i] == init[i]);
                }
            }
        }
    }
}

proof fn lemma_ascends<K>(reads: Seq<HostedRead<K>>)
    requires
        orderly(reads),
    ensures
        forall|i: int, j: int|
            #![trigger reads[i], reads[j]]
            0 <= i < j < reads.len() && reads[i] is Wrote && reads[j] is Wrote
                ==> reads[i]->token.below(reads[j]->token),
    decreases reads.len(),
{
    if reads.len() > 0 {
        let init = reads.drop_last();
        lemma_ascends(init);
        lemma_tail(init);
        assert forall|i: int, j: int|
            #![trigger reads[i], reads[j]]
            0 <= i < j < reads.len() && reads[i] is Wrote
                && reads[j] is Wrote implies reads[i]->token.below(reads[j]->token) by {
            assert(reads[i] == init[i]);
            if j < init.len() {
                assert(reads[j] == init[j]);
            } else {
                assert(crate::hosted::lineage::position_of(init[i]) == Some(reads[i]->token));
            }
        }
    }
}

proof fn lemma_follows<K>(reads: Seq<HostedRead<K>>)
    requires
        orderly(reads),
    ensures
        forall|i: int|
            0 <= i < reads.len() && (#[trigger] reads[i]) is Wrote ==> exists|j: int|
                directly_before(reads, j, i) && crate::hosted::lineage::position_of(reads[j])
                    == Some(
                    WriteToken {
                        epoch: reads[i]->token.epoch,
                        seq: (reads[i]->token.seq - 1) as u64,
                    },
                ) && reads[i]->token.seq >= 1,
    decreases reads.len(),
{
    if reads.len() > 0 {
        let init = reads.drop_last();
        lemma_follows(init);
        lemma_tail(init);
        assert forall|i: int|
            0 <= i < reads.len() && (#[trigger] reads[i]) is Wrote implies exists|j: int|
            directly_before(reads, j, i) && crate::hosted::lineage::position_of(reads[j]) == Some(
                WriteToken {
                    epoch: reads[i]->token.epoch,
                    seq: (reads[i]->token.seq - 1) as u64,
                },
            ) && reads[i]->token.seq >= 1 by {
            let want = WriteToken {
                epoch: reads[i]->token.epoch,
                seq: (reads[i]->token.seq - 1) as u64,
            };
            let j = if i < init.len() {
                assert(reads[i] == init[i]);
                choose|j: int|
                    directly_before(init, j, i) && crate::hosted::lineage::position_of(init[j])
                        == Some(want) && init[i]->token.seq >= 1
            } else {
                choose|j: int|
                    0 <= j < init.len() && crate::hosted::lineage::position_of(#[trigger] init[j])
                        == Some(want) && (forall|k: int|
                        j < k < init.len() ==> (#[trigger] init[k]) is Migrated)
            };
            assert(reads[j] == init[j]);
            assert forall|k: int| j < k < i implies #[trigger] reads[k] is Migrated by {
                assert(reads[k] == init[k]);
            }
            assert(directly_before(reads, j, i));
        }
    }
}

proof fn lemma_opens_with_a_gap<K>(reads: Seq<HostedRead<K>>)
    requires
        orderly(reads),
    ensures
        forall|i: int|
            0 <= i < reads.len() && (#[trigger] reads[i]) is Wrote ==> exists|j: int|
                0 <= j < i && (#[trigger] reads[j]) is Gap && reads[j]->missed_through.epoch
                    == reads[i]->token.epoch,
    decreases reads.len(),
{
    if reads.len() > 0 {
        let init = reads.drop_last();
        lemma_opens_with_a_gap(init);
        lemma_tail(init);
        assert forall|i: int|
            0 <= i < reads.len() && (#[trigger] reads[i]) is Wrote implies exists|j: int|
            0 <= j < i && (#[trigger] reads[j]) is Gap && reads[j]->missed_through.epoch
                == reads[i]->token.epoch by {
            let epoch = reads[i]->token.epoch;
            let near = if i < init.len() {
                i
            } else {
                choose|j: int|
                    0 <= j < init.len() && crate::hosted::lineage::position_of(#[trigger] init[j])
                        == tail(init)
            };
            assert(reads[near] == init[near]);
            if init[near] is Wrote {
                let j = choose|j: int|
                    0 <= j < near && (#[trigger] init[j]) is Gap && init[j]->missed_through.epoch
                        == epoch;
                assert(reads[j] == init[j]);
            } else {
                assert(reads[near] is Gap);
            }
        }
    }
}

} // verus!
