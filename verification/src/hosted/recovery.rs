//! The leader-completeness rule: may this freshly activated host begin
//! serving?
//!
//! A host of epoch `e` may serve iff a strict majority of the roster
//! publishes readings stamped at or past `e`, and its own watermarks cover
//! everything that majority names.

use crate::hosted::ledger::{LedgerState, LedgerView, VoterState};
use crate::hosted::types::Commit;
use crate::idmap::IdMap;
use crate::ids::NodeId;
use crate::token::WriteToken;
use crate::watermarks::Watermarks;
use vstd::prelude::*;

verus! {

/// Whether a freshly activated host may begin serving.
#[derive(Debug, Clone, PartialEq, Eq)]
pub enum Completeness {
    /// Not serving. An empty `needed` means that no fresh majority has been
    /// read yet: the host is waiting on gossip, not on its own apply loop.
    Recovering {
        /// Per writer, the watermark this host must still reach, in node
        /// order.
        needed: Vec<(NodeId, WriteToken)>,
    },
    /// A fresh majority has been read and this host's applied state covers
    /// everything it named.
    Complete,
}

impl Completeness {
    /// Whether this host may begin serving.
    pub fn is_complete(&self) -> (r: bool)
        ensures
            r == (self is Complete),
    {
        match self {
            Completeness::Complete => true,
            _ => false,
        }
    }
}

/// The recovery rule. It carries nothing between steps.
#[derive(Debug, Clone, Copy, PartialEq, Eq)]
pub struct CompletenessCore;

/// What the readings stamped at or past `epoch` name: the highest watermark
/// of each writer.
pub open spec fn targets(view: Seq<VoterState>, epoch: u64) -> Map<Seq<char>, WriteToken>
    decreases view.len(),
{
    if view.len() == 0 {
        Map::empty()
    } else {
        let so_far = targets(view.drop_last(), epoch);
        if crate::hosted::commit::fresh(view.last(), epoch) {
            crate::watermarks::merged(so_far, (view.last().reading->0).applied)
        } else {
            so_far
        }
    }
}

/// The part of `want` that `own` does not cover.
pub open spec fn missing(want: Map<Seq<char>, WriteToken>, own: Map<Seq<char>, WriteToken>) -> Map<
    Seq<char>,
    WriteToken,
> {
    Map::new(
        |w: Seq<char>| want.contains_key(w) && !(own.contains_key(w) && own[w].covers(want[w])),
        |w: Seq<char>| want[w],
    )
}

/// The names and tokens of a list of watermarks.
pub open spec fn pairs(list: Seq<(NodeId, WriteToken)>) -> Seq<(Seq<char>, WriteToken)> {
    list.map_values(|p: (NodeId, WriteToken)| (p.0@, p.1))
}

/// Whether the host may serve.
pub open spec fn complete(
    epoch: u64,
    view: Seq<VoterState>,
    own: Map<Seq<char>, WriteToken>,
) -> bool {
    &&& crate::hosted::commit::fresh_majority(view, epoch)
    &&& missing(targets(view, epoch), own) == Map::<Seq<char>, WriteToken>::empty()
}

impl CompletenessCore {
    /// Evaluates the recovery rule for a host serving at `serving_epoch`,
    /// against the whole roster and this host's own applied watermarks.
    pub fn step(serving_epoch: u64, view: &[LedgerView], own_applied: &Watermarks) -> (r:
        Completeness)
        ensures
            match r {
                Completeness::Complete => complete(serving_epoch, crate::hosted::ledger::voters(view@), own_applied@),
                Completeness::Recovering { needed } => {
                    &&& !complete(serving_epoch, crate::hosted::ledger::voters(view@), own_applied@)
                    &&& crate::idmap::ascending(pairs(needed@))
                    &&& crate::idmap::map_of(pairs(needed@)) == (
                    if crate::hosted::commit::fresh_majority(
                        crate::hosted::ledger::voters(view@),
                         serving_epoch) {
                        missing(targets(crate::hosted::ledger::voters(view@), serving_epoch), own_applied@)
                    } else {
                        Map::empty()
                    })
                },
            },
    {
        let mut fresh: usize = 0;
        let mut want: Watermarks = IdMap::new();
        let mut i: usize = 0;
        let ghost all = crate::hosted::ledger::voters(view@);
        while i < view.len()
            invariant
                i <= view@.len(),
                all == crate::hosted::ledger::voters(view@),
                fresh <= i,
                fresh == crate::hosted::commit::tally(
                    all.subrange(0, i as int),
                    |m: VoterState| crate::hosted::commit::fresh(m, serving_epoch),
                ),
                want@ == targets(all.subrange(0, i as int), serving_epoch),
            decreases view@.len() - i,
        {
            let member: &LedgerView = &view[i];
            proof {
                let part = all.subrange(0, i + 1);
                assert(part.drop_last() =~= all.subrange(0, i as int));
                assert(part.last() == member@);
            }
            if let Some(reading) = &member.reading {
                if reading.lead_epoch >= serving_epoch {
                    fresh = fresh + 1;
                    crate::watermarks::merge(&mut want, &reading.applied);
                }
            }
            i = i + 1;
        }
        proof {
            assert(all.subrange(0, i as int) =~= all);
        }
        if fresh < view.len() / 2 + 1 {
            let needed: Vec<(NodeId, WriteToken)> = Vec::new();
            proof {
                assert(pairs(needed@) =~= Seq::<(Seq<char>, WriteToken)>::empty());
            }
            return Completeness::Recovering { needed };
        }
        let needed: Vec<(NodeId, WriteToken)> = shortfall(&want, own_applied);
        if needed.len() == 0 {
            proof {
                assert(pairs(needed@) =~= Seq::<(Seq<char>, WriteToken)>::empty());
            }
            Completeness::Complete
        } else {
            proof {
                let listed = pairs(needed@);
                crate::idmap::lemma_map_of(listed);
                assert(crate::idmap::map_of(listed).contains_key(listed[0].0));
            }
            Completeness::Recovering { needed }
        }
    }
}

/// What the fresh readings name of a writer is named by one of them, and by
/// none of them higher; a reading that is not fresh names nothing.
pub proof fn targets_are_what_fresh_readings_name(
    view: Seq<VoterState>,
    epoch: u64,
    writer: Seq<char>,
)
    ensures
        targets(view, epoch).contains_key(writer) <==> exists|i: int|
            0 <= i < view.len() && ((#[trigger] view[i]).reading matches Some(reading)
                && reading.stamp >= epoch && reading.applied.contains_key(writer)),
        targets(view, epoch).contains_key(writer) ==> exists|i: int|
            0 <= i < view.len() && ((#[trigger] view[i]).reading matches Some(reading)
                && reading.stamp >= epoch && reading.applied.contains_key(writer)
                && reading.applied[writer] == targets(view, epoch)[writer]),
        forall|i: int|
            0 <= i < view.len() && ((#[trigger] view[i]).reading matches Some(reading)
                && reading.stamp >= epoch && reading.applied.contains_key(writer)) ==> {
                let named = (view[i].reading->0).applied[writer];
                let target = targets(view, epoch)[writer];
                target.epoch > named.epoch || (target.epoch == named.epoch && target.seq
                    >= named.seq)
            },
    decreases view.len(),
{
    if view.len() > 0 {
        let init = view.drop_last();
        let n = view.len() - 1;
        targets_are_what_fresh_readings_name(init, epoch, writer);
        assert forall|i: int| 0 <= i < n implies #[trigger] init[i] == view[i] by {}
        let before = targets(init, epoch);
        if before.contains_key(writer) {
            let k = choose|k: int|
                0 <= k < init.len() && ((#[trigger] init[k]).reading matches Some(reading)
                    && reading.stamp >= epoch && reading.applied.contains_key(writer)
                    && reading.applied[writer] == before[writer]);
            assert(view[k] == init[k]);
        }
        assert(view[n] == view.last());
        if exists|i: int|
            0 <= i < view.len() && ((#[trigger] view[i]).reading matches Some(reading)
                && reading.stamp >= epoch && reading.applied.contains_key(writer)) {
            let i = choose|i: int|
                0 <= i < view.len() && ((#[trigger] view[i]).reading matches Some(reading)
                    && reading.stamp >= epoch && reading.applied.contains_key(writer));
            if i < n {
                assert(init[i] == view[i]);
            }
        }
        assert forall|i: int|
            0 <= i < view.len() && ((#[trigger] view[i]).reading matches Some(reading)
                && reading.stamp >= epoch && reading.applied.contains_key(writer)) implies {
            let named = (view[i].reading->0).applied[writer];
            let target = targets(view, epoch)[writer];
            target.epoch > named.epoch || (target.epoch == named.epoch && target.seq >= named.seq)
        } by {
            if i < n {
                assert(init[i] == view[i]);
            }
        }
    }
}

/// A host may serve exactly when a majority of the whole roster is stamped at
/// its epoch or past it, and the host's own watermarks reach everything that
/// any reading so stamped names.
pub proof fn completeness_covers_every_fresh_reading(
    epoch: u64,
    view: Seq<VoterState>,
    own: Map<Seq<char>, WriteToken>,
)
    ensures
        complete(epoch, view, own) <==> {
            &&& crate::hosted::commit::fresh_majority(view, epoch)
            &&& forall|i: int, writer: Seq<char>|
                #![trigger (view[i].reading->0).applied.contains_key(writer)]
                0 <= i < view.len() && view[i].reading is Some && (view[i].reading->0).stamp
                    >= epoch && (view[i].reading->0).applied.contains_key(writer) ==> {
                    let named = (view[i].reading->0).applied[writer];
                    &&& own.contains_key(writer)
                    &&& own[writer].epoch > named.epoch || (own[writer].epoch == named.epoch
                        && own[writer].seq >= named.seq)
                }
        },
{
    let want = targets(view, epoch);
    let lacks = missing(want, own);
    if complete(epoch, view, own) {
        assert forall|i: int, writer: Seq<char>|
            #![trigger (view[i].reading->0).applied.contains_key(writer)]
            0 <= i < view.len() && view[i].reading is Some && (view[i].reading->0).stamp >= epoch
                && (view[i].reading->0).applied.contains_key(writer) implies {
            let named = (view[i].reading->0).applied[writer];
            &&& own.contains_key(writer)
            &&& own[writer].epoch > named.epoch || (own[writer].epoch == named.epoch
                && own[writer].seq >= named.seq)
        } by {
            targets_are_what_fresh_readings_name(view, epoch, writer);
            assert(!lacks.contains_key(writer));
        }
    } else if crate::hosted::commit::fresh_majority(view, epoch) {
        assert(exists|w: Seq<char>| lacks.contains_key(w)) by {
            if forall|w: Seq<char>| !lacks.contains_key(w) {
                assert(lacks =~= Map::<Seq<char>, WriteToken>::empty());
            }
        }
        let writer = choose|w: Seq<char>| lacks.contains_key(w);
        targets_are_what_fresh_readings_name(view, epoch, writer);
        let i = choose|i: int|
            0 <= i < view.len() && ((#[trigger] view[i]).reading matches Some(reading)
                && reading.stamp >= epoch && reading.applied.contains_key(writer)
                && reading.applied[writer] == want[writer]);
        assert((view[i].reading->0).applied.contains_key(writer));
    }
}

/// What a recovering host still needs is each named watermark that its own
/// does not reach, unchanged.
pub proof fn the_shortfall_is_what_is_not_reached(
    want: Map<Seq<char>, WriteToken>,
    own: Map<Seq<char>, WriteToken>,
    writer: Seq<char>,
)
    ensures
        missing(want, own).contains_key(writer) <==> want.contains_key(writer) && (
        !own.contains_key(writer) || own[writer].epoch < want[writer].epoch || (own[writer].epoch
            == want[writer].epoch && own[writer].seq < want[writer].seq)),
        missing(want, own).contains_key(writer) ==> missing(want, own)[writer] == want[writer],
{
}

/// The part of `want` that `own` does not cover, in node order.
pub(crate) fn shortfall(want: &Watermarks, own: &Watermarks) -> (r: Vec<(NodeId, WriteToken)>)
    ensures
        crate::idmap::ascending(pairs(r@)),
        crate::idmap::map_of(pairs(r@)) == missing(want@, own@),
{
    let mut out: Vec<(NodeId, WriteToken)> = Vec::new();
    let n: usize = want.len();
    let ghost rows = want.records();
    let ghost goal = missing(want@, own@);
    proof {
        crate::idmap::lemma_map_of(rows);
        assert(pairs(out@) =~= Seq::<(Seq<char>, WriteToken)>::empty());
    }
    let mut i: usize = 0;
    while i < n
        invariant
            i <= n,
            n == rows.len(),
            rows == want.records(),
            goal == missing(want@, own@),
            crate::idmap::ascending(rows),
            forall|j: int|
                0 <= j < n ==> want@.contains_key((#[trigger] rows[j]).0) && want@[rows[j].0]
                    == rows[j].1,
            crate::idmap::ascending(pairs(out@)),
            forall|k: int|
                0 <= k < out@.len() ==> goal.contains_key((#[trigger] pairs(out@)[k]).0)
                    && goal[pairs(out@)[k].0] == pairs(out@)[k].1,
            forall|k: int, j: int|
                #![trigger pairs(out@)[k], rows[j]]
                0 <= k < out@.len() && i <= j < n ==> crate::ids::id_below(
                    pairs(out@)[k].0,
                    rows[j].0,
                ),
            forall|j: int|
                0 <= j < i && goal.contains_key((#[trigger] rows[j]).0) ==> exists|k: int|
                    0 <= k < out@.len() && (#[trigger] pairs(out@)[k]).0 == rows[j].0,
        decreases n - i,
    {
        let writer: &NodeId = want.key_at(i);
        let token: WriteToken = *want.value_at(i);
        let covered: bool = match own.get_copy(writer) {
            Some(mine) => mine >= token,
            None => false,
        };
        let ghost was = pairs(out@);
        if !covered {
            out.push((writer.clone(), token));
            proof {
                let now = pairs(out@);
                assert(now =~= was.push(rows[i as int]));
                assert(goal.contains_key(rows[i as int].0));
                assert forall|a: int, b: int|
                    #![trigger now[a], now[b]]
                    0 <= a < b < now.len() implies crate::ids::id_below(now[a].0, now[b].0) by {
                    assert(now[a] == was[a]);
                    if b < was.len() {
                        assert(now[b] == was[b]);
                    } else {
                        assert(now[b] == rows[i as int]);
                    }
                }
                assert forall|k: int, j: int|
                    #![trigger now[k], rows[j]]
                    0 <= k < now.len() && i + 1 <= j < n implies crate::ids::id_below(
                    now[k].0,
                    rows[j].0,
                ) by {
                    if k < was.len() {
                        assert(now[k] == was[k]);
                    } else {
                        assert(now[k] == rows[i as int]);
                    }
                }
                assert forall|k: int| 0 <= k < now.len() implies goal.contains_key(
                    (#[trigger] now[k]).0,
                ) && goal[now[k].0] == now[k].1 by {
                    if k < was.len() {
                        assert(now[k] == was[k]);
                    }
                }
                assert forall|j: int|
                    0 <= j < i + 1 && goal.contains_key((#[trigger] rows[j]).0) implies exists|
                    k: int,
                |
                    0 <= k < now.len() && (#[trigger] now[k]).0 == rows[j].0 by {
                    if j < i {
                        let k = choose|k: int|
                            0 <= k < was.len() && (#[trigger] was[k]).0 == rows[j].0;
                        assert(now[k] == was[k]);
                    } else {
                        assert(now[was.len() as int].0 == rows[j].0);
                    }
                }
            }
        } else {
            proof {
                assert(!goal.contains_key(rows[i as int].0));
            }
        }
        i = i + 1;
    }
    proof {
        let listed = pairs(out@);
        crate::idmap::lemma_map_of(listed);
        let got = crate::idmap::map_of(listed);
        assert(got =~= goal) by {
            assert forall|w: Seq<char>| #[trigger] goal.contains_key(w) implies got.contains_key(
                w,
            ) by {
                let j = choose|j: int| 0 <= j < rows.len() && (#[trigger] rows[j]).0 == w;
                assert(goal.contains_key(rows[j].0));
            }
            assert forall|w: Seq<char>| #[trigger] got.contains_key(w) implies goal.contains_key(w)
                && goal[w] == got[w] by {
                let k = choose|k: int| 0 <= k < listed.len() && (#[trigger] listed[k]).0 == w;
                assert(got[listed[k].0] == listed[k].1);
            }
        }
    }
    out
}

/// A target covers the watermark of every fresh reading.
pub proof fn lemma_targets_cover(view: Seq<VoterState>, epoch: u64, i: int, w: Seq<char>)
    requires
        0 <= i < view.len(),
        crate::hosted::commit::fresh(view[i], epoch),
        (view[i].reading->0).applied.contains_key(w),
    ensures
        targets(view, epoch).contains_key(w),
        targets(view, epoch)[w].covers((view[i].reading->0).applied[w]),
    decreases view.len(),
{
    let init = view.drop_last();
    if i < init.len() {
        assert(init[i] == view[i]);
        lemma_targets_cover(init, epoch, i, w);
    }
}

/// No write committed at the quorum level is lost across a migration: a host
/// that may serve at a later epoch has applied every write that a majority of
/// the same roster had applied under the older one. All it takes is that each
/// voter's own publications move forward.
pub proof fn no_committed_write_is_lost(
    at_commit: Seq<VoterState>,
    at_recovery: Seq<VoterState>,
    histories: Seq<Seq<LedgerState>>,
    host: Seq<char>,
    token: WriteToken,
    serving_epoch: u64,
    own: Map<Seq<char>, WriteToken>,
)
    requires
        forall|i: int|
            0 <= i < histories.len() ==> crate::hosted::commit::is_history(#[trigger] histories[i]),
        crate::hosted::commit::is_read_from(at_commit, histories),
        crate::hosted::commit::is_read_from(at_recovery, histories),
        crate::hosted::commit::committed(at_commit, host, token, Commit::QuorumApplied),
        token.epoch < serving_epoch,
        complete(serving_epoch, at_recovery, own),
    ensures
        own.contains_key(host),
        own[host].covers(token),
{
    let p = |m: VoterState| crate::hosted::commit::counts(m, host, token);
    let q = |m: VoterState| crate::hosted::commit::fresh(m, serving_epoch);
    crate::hosted::commit::a_quorum_is_a_majority_of_the_roster(at_commit, host, token);
    crate::hosted::commit::lemma_majorities_meet(at_commit, p, at_recovery, q);
    let i = choose|i: int|
        0 <= i < at_commit.len() && p(#[trigger] at_commit[i]) && q(at_recovery[i]);
    assert(crate::hosted::commit::counts(at_commit[i], host, token));
    assert(crate::hosted::commit::fresh(at_recovery[i], serving_epoch));
    let h = histories[i];
    assert(crate::hosted::commit::is_history(h));
    let counted = at_commit[i].reading->0;
    let witness = at_recovery[i].reading->0;
    let a = choose|a: int| 0 <= a < h.len() && h[a] == counted;
    let b = choose|b: int| 0 <= b < h.len() && h[b] == witness;
    assert(h.contains(counted) && h.contains(witness));
    if b <= a {
        assert(h[a].follows(h[b]));
        assert(false);
    }
    assert(h[b].follows(h[a]));
    assert(counted.applied.contains_key(host));
    lemma_targets_cover(at_recovery, serving_epoch, i, host);
    let want = targets(at_recovery, serving_epoch);
    assert(!missing(want, own).contains_key(host));
}

/// An empty roster never lets a host serve.
pub proof fn an_empty_roster_never_serves(epoch: u64, own: Map<Seq<char>, WriteToken>)
    ensures
        !complete(epoch, Seq::empty(), own),
{
}

/// Applying more never takes the right to serve away.
pub proof fn applying_more_keeps_completeness(
    epoch: u64,
    view: Seq<VoterState>,
    own: Map<Seq<char>, WriteToken>,
    more: Map<Seq<char>, WriteToken>,
)
    requires
        complete(epoch, view, own),
        crate::watermarks::at_least(more, own),
    ensures
        complete(epoch, view, more),
{
    let want = targets(view, epoch);
    assert forall|w: Seq<char>| !(#[trigger] missing(want, more).contains_key(w)) by {
        if want.contains_key(w) {
            assert(!missing(want, own).contains_key(w));
            assert(own.contains_key(w));
        }
    }
    assert(missing(want, more) =~= Map::<Seq<char>, WriteToken>::empty());
}

} // verus!
