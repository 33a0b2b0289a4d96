//! The writer's half of the coherence-lease tier: how far one coherent write
//! has got through the set of readers holding a live serve-lease.

use crate::idmap::IdSet;
use crate::ids::NodeId;
use crate::token::WriteToken;
use vstd::prelude::*;

verus! {

/// One member of a coherent write's wait set, as the writer's own view of the
/// group shows it: a member currently holding a live lease, and the highest
/// token of this writer's feed it advertises having applied.
#[derive(Debug, Clone, PartialEq, Eq)]
pub struct WaitMember {
    /// The lease-holding member.
    pub member: NodeId,
    /// The highest token of the writer's feed this member advertises having
    /// applied.
    pub applied: Option<WriteToken>,
}

/// One poll's verdict on a coherent write.
#[derive(Debug, Clone, PartialEq, Eq)]
pub enum CoherenceStep {
    /// Every lease-holder in the wait set has applied the write.
    AllApplied,
    /// The wait is over, but `stragglers` never applied the write: their
    /// serve-leases have expired in the writer's view.
    LeaseLapsed {
        /// The members excused by lapse, in node order.
        stragglers: Vec<NodeId>,
    },
    /// Still waiting: these members hold live leases and have not applied the
    /// write yet.
    Waiting {
        /// The members still being waited on, in node order.
        on: Vec<NodeId>,
    },
}

/// Whether `ids` lists exactly the nodes of `set`, in node order.
pub open spec fn lists(ids: Seq<NodeId>, set: Set<Seq<char>>) -> bool {
    &&& crate::ids::names(ids).to_set() == set
    &&& forall|i: int, j: int|
        #![trigger ids[i], ids[j]]
        0 <= i < j < ids.len() ==> crate::ids::id_below(ids[i]@, ids[j]@)
}

/// One in-flight write's progress: who is waited on, and who was excused by
/// lapse.
pub struct Progress {
    pub waiting: Set<Seq<char>>,
    pub lapsed: Set<Seq<char>>,
}

/// Whether `holder` advertises having applied `token`.
pub open spec fn has_applied(holder: WaitMember, token: WriteToken) -> bool {
    holder.applied matches Some(t) && t.covers(token)
}

impl Progress {
    /// A write nobody is waited on for yet.
    pub open spec fn fresh() -> Progress {
        Progress { waiting: Set::empty(), lapsed: Set::empty() }
    }

    /// Whether this is the progress of a write by `writer`: nobody excused is
    /// waited on, and neither is the writer itself.
    pub open spec fn wf(self, writer: Seq<char>) -> bool {
        &&& self.waiting.disjoint(self.lapsed)
        &&& !self.waiting.contains(writer)
    }

    /// The wait set once the holders have been looked at one by one: one that
    /// has applied the write leaves it, any other joins it, and the writer
    /// itself and those excused already are passed over.
    pub open spec fn looked_at(
        self,
        writer: Seq<char>,
        token: WriteToken,
        snapshot: Seq<WaitMember>,
    ) -> Set<Seq<char>>
        decreases snapshot.len(),
    {
        if snapshot.len() == 0 {
            self.waiting
        } else {
            let holder = snapshot.last();
            let so_far = self.looked_at(writer, token, snapshot.drop_last());
            if holder.member@ == writer || self.lapsed.contains(holder.member@) {
                so_far
            } else if has_applied(holder, token) {
                so_far.remove(holder.member@)
            } else {
                so_far.insert(holder.member@)
            }
        }
    }

    /// The progress after one snapshot: whoever is waited on and has left the
    /// snapshot is excused for good.
    pub open spec fn after(
        self,
        writer: Seq<char>,
        token: WriteToken,
        snapshot: Seq<WaitMember>,
    ) -> Progress {
        let waiting = self.looked_at(writer, token, snapshot);
        Progress {
            waiting: waiting.filter(|m: Seq<char>| present(snapshot, m)),
            lapsed: self.lapsed + waiting.filter(|m: Seq<char>| !present(snapshot, m)),
        }
    }
}

/// Whether the snapshot holds `member`.
pub open spec fn present(snapshot: Seq<WaitMember>, member: Seq<char>) -> bool {
    exists|i: int| 0 <= i < snapshot.len() && (#[trigger] snapshot[i]).member@ == member
}

/// Whether `verdict` is what progress `p` comes to.
pub open spec fn told(verdict: CoherenceStep, p: Progress) -> bool {
    match verdict {
        CoherenceStep::Waiting { on } => p.waiting != Set::<Seq<char>>::empty() && lists(
            on@,
            p.waiting,
        ),
        CoherenceStep::AllApplied => p.waiting == Set::<Seq<char>>::empty() && p.lapsed
            == Set::<Seq<char>>::empty(),
        CoherenceStep::LeaseLapsed { stragglers } => p.waiting == Set::<Seq<char>>::empty()
            && p.lapsed != Set::<Seq<char>>::empty() && lists(stragglers@, p.lapsed),
    }
}

proof fn lemma_looked_at(
    p: Progress,
    writer: Seq<char>,
    token: WriteToken,
    snapshot: Seq<WaitMember>,
    m: Seq<char>,
)
    ensures
        !present(snapshot, m) || m == writer || p.lapsed.contains(m) ==> (p.looked_at(
            writer,
            token,
            snapshot,
        ).contains(m) <==> p.waiting.contains(m)),
        p.looked_at(writer, token, snapshot).contains(m) && !p.waiting.contains(m) ==> exists|
            i: int,
        |
            0 <= i < snapshot.len() && (#[trigger] snapshot[i]).member@ == m && !has_applied(
                snapshot[i],
                token,
            ),
        !p.looked_at(writer, token, snapshot).contains(m) && present(snapshot, m) && m != writer
            && !p.lapsed.contains(m) ==> exists|i: int|
            0 <= i < snapshot.len() && (#[trigger] snapshot[i]).member@ == m && has_applied(
                snapshot[i],
                token,
            ),
    decreases snapshot.len(),
{
    if snapshot.len() > 0 {
        let init = snapshot.drop_last();
        let n = snapshot.len() - 1;
        lemma_looked_at(p, writer, token, init, m);
        assert(snapshot[n] == snapshot.last());
        assert forall|i: int| 0 <= i < init.len() implies #[trigger] init[i] == snapshot[i] by {}
        if present(init, m) {
            let i = choose|i: int| 0 <= i < init.len() && (#[trigger] init[i]).member@ == m;
            assert(snapshot[i].member@ == m);
        }
        if present(snapshot, m) && snapshot.last().member@ != m {
            let i = choose|i: int|
                0 <= i < snapshot.len() && (#[trigger] snapshot[i]).member@ == m;
            assert(init[i].member@ == m);
        }
        if exists|i: int|
            0 <= i < init.len() && (#[trigger] init[i]).member@ == m && !has_applied(
                init[i],
                token,
            ) {
            let i = choose|i: int|
                0 <= i < init.len() && (#[trigger] init[i]).member@ == m && !has_applied(
                    init[i],
                    token,
                );
            assert(snapshot[i].member@ == m && !has_applied(snapshot[i], token));
        }
        if exists|i: int|
            0 <= i < init.len() && (#[trigger] init[i]).member@ == m && has_applied(
                init[i],
                token,
            ) {
            let i = choose|i: int|
                0 <= i < init.len() && (#[trigger] init[i]).member@ == m && has_applied(
                    init[i],
                    token,
                );
            assert(snapshot[i].member@ == m && has_applied(snapshot[i], token));
        }
    }
}

/// A terminal verdict is safe: every other lease-holder the writer sees has
/// applied the write, or was excused because its lease lapsed during this
/// wait.
pub proof fn terminal_verdicts_leave_nobody_behind(
    p: Progress,
    writer: Seq<char>,
    token: WriteToken,
    snapshot: Seq<WaitMember>,
    m: Seq<char>,
)
    requires
        p.after(writer, token, snapshot).waiting == Set::<Seq<char>>::empty(),
        present(snapshot, m),
        m != writer,
    ensures
        p.after(writer, token, snapshot).lapsed.contains(m) || exists|i: int|
            0 <= i < snapshot.len() && (#[trigger] snapshot[i]).member@ == m && has_applied(
                snapshot[i],
                token,
            ),
{
    lemma_looked_at(p, writer, token, snapshot, m);
    if p.looked_at(writer, token, snapshot).contains(m) {
        assert(p.after(writer, token, snapshot).waiting.contains(m));
    }
}

/// Whoever is waited on after a snapshot holds a live lease in it and is not
/// the writer; whoever is excused stays excused, and is never waited on
/// again, however often it renews.
pub proof fn the_excused_never_return(
    p: Progress,
    writer: Seq<char>,
    token: WriteToken,
    snapshot: Seq<WaitMember>,
    m: Seq<char>,
)
    requires
        p.wf(writer),
    ensures
        p.after(writer, token, snapshot).wf(writer),
        p.lapsed.subset_of(p.after(writer, token, snapshot).lapsed),
        p.after(writer, token, snapshot).waiting.contains(m) ==> present(snapshot, m)
            && !p.lapsed.contains(m) && m != writer,
{
    let after = p.after(writer, token, snapshot);
    assert forall|k: Seq<char>| after.waiting.contains(k) implies !after.lapsed.contains(k)
        && present(snapshot, k) && !p.lapsed.contains(k) && k != writer by {
        lemma_looked_at(p, writer, token, snapshot, k);
    }
    lemma_looked_at(p, writer, token, snapshot, writer);
}

/// A member that has applied the write, by the one entry the snapshot holds
/// of it, is no longer waited on; one that has not, and was not excused, is.
pub proof fn each_holder_is_judged_by_its_own_watermark(
    p: Progress,
    writer: Seq<char>,
    token: WriteToken,
    snapshot: Seq<WaitMember>,
    i: int,
)
    requires
        0 <= i < snapshot.len(),
        forall|a: int, b: int|
            #![trigger snapshot[a], snapshot[b]]
            0 <= a < b < snapshot.len() ==> snapshot[a].member@ != snapshot[b].member@,
        snapshot[i].member@ != writer,
        !p.lapsed.contains(snapshot[i].member@),
    ensures
        p.after(writer, token, snapshot).waiting.contains(snapshot[i].member@) <==> !has_applied(
            snapshot[i],
            token,
        ),
        !p.after(writer, token, snapshot).lapsed.contains(snapshot[i].member@),
{
    lemma_judged(p, writer, token, snapshot, i);
}

proof fn lemma_judged(
    p: Progress,
    writer: Seq<char>,
    token: WriteToken,
    snapshot: Seq<WaitMember>,
    i: int,
)
    requires
        0 <= i < snapshot.len(),
        forall|a: int, b: int|
            #![trigger snapshot[a], snapshot[b]]
            0 <= a < b < snapshot.len() ==> snapshot[a].member@ != snapshot[b].member@,
        snapshot[i].member@ != writer,
        !p.lapsed.contains(snapshot[i].member@),
    ensures
        p.looked_at(writer, token, snapshot).contains(snapshot[i].member@) <==> !has_applied(
            snapshot[i],
            token,
        ),
    decreases snapshot.len(),
{
    let n = snapshot.len() - 1;
    let init = snapshot.drop_last();
    if i < n {
        assert(snapshot[i].member@ != snapshot[n].member@);
        assert forall|a: int, b: int|
            #![trigger init[a], init[b]]
            0 <= a < b < init.len() implies init[a].member@ != init[b].member@ by {
            assert(init[a] == snapshot[a] && init[b] == snapshot[b]);
        }
        lemma_judged(p, writer, token, init, i);
    }
}

/// A holder has applied a write when the token it advertises for the writer is
/// of a later life, or of the same life and no lower.
pub proof fn applying_means_reaching_the_token(holder: WaitMember, token: WriteToken)
    ensures
        has_applied(holder, token) <==> (holder.applied matches Some(at) && (at.epoch > token.epoch
            || (at.epoch == token.epoch && at.seq >= token.seq))),
{
}

/// Only who was excused before, or who was waited on and has left the
/// snapshot, is excused.
pub proof fn who_is_excused(
    p: Progress,
    writer: Seq<char>,
    token: WriteToken,
    snapshot: Seq<WaitMember>,
    m: Seq<char>,
)
    ensures
        p.after(writer, token, snapshot).lapsed.contains(m) <==> p.lapsed.contains(m) || (
        p.waiting.contains(m) && forall|i: int|
            0 <= i < snapshot.len() ==> (#[trigger] snapshot[i]).member@ != m),
{
    lemma_looked_at(p, writer, token, snapshot, m);
    if forall|i: int| 0 <= i < snapshot.len() ==> (#[trigger] snapshot[i]).member@ != m {
        assert(!present(snapshot, m));
    }
}

/// Whoever is waited on shows in the snapshot; and unless it was waited on as
/// the writer or after it was excused, it shows there without the write.
pub proof fn who_is_waited_on(
    p: Progress,
    writer: Seq<char>,
    token: WriteToken,
    snapshot: Seq<WaitMember>,
    m: Seq<char>,
)
    requires
        p.wf(writer),
        p.after(writer, token, snapshot).waiting.contains(m),
    ensures
        m != writer,
        !p.lapsed.contains(m),
        exists|i: int|
            0 <= i < snapshot.len() && (#[trigger] snapshot[i]).member@ == m && !has_applied(
                snapshot[i],
                token,
            ),
{
    the_excused_never_return(p, writer, token, snapshot, m);
    lemma_still_waited_on(p, writer, token, snapshot, m);
}

proof fn lemma_still_waited_on(
    p: Progress,
    writer: Seq<char>,
    token: WriteToken,
    snapshot: Seq<WaitMember>,
    m: Seq<char>,
)
    requires
        p.looked_at(writer, token, snapshot).contains(m),
        present(snapshot, m),
        m != writer,
        !p.lapsed.contains(m),
    ensures
        exists|i: int|
            0 <= i < snapshot.len() && (#[trigger] snapshot[i]).member@ == m && !has_applied(
                snapshot[i],
                token,
            ),
    decreases snapshot.len(),
{
    let n = snapshot.len() - 1;
    let init = snapshot.drop_last();
    if snapshot[n].member@ == m {
        assert(!has_applied(snapshot[n], token));
    } else {
        let i = choose|i: int| 0 <= i < snapshot.len() && (#[trigger] snapshot[i]).member@ == m;
        assert(init[i].member@ == m);
        lemma_still_waited_on(p, writer, token, init, m);
        let k = choose|k: int|
            0 <= k < init.len() && (#[trigger] init[k]).member@ == m && !has_applied(
                init[k],
                token,
            );
        assert(snapshot[k].member@ == m && !has_applied(snapshot[k], token));
    }
}

/// A list of a set names each of its nodes, nobody else, and each once, in
/// node order.
pub proof fn a_list_is_its_set(ids: Seq<NodeId>, set: Set<Seq<char>>, m: Seq<char>)
    requires
        lists(ids, set),
    ensures
        set.contains(m) <==> exists|i: int| 0 <= i < ids.len() && (#[trigger] ids[i])@ == m,
        forall|i: int, j: int|
            #![trigger ids[i], ids[j]]
            0 <= i < j < ids.len() ==> crate::ids::id_below(ids[i]@, ids[j]@),
{
    let all = crate::ids::names(ids);
    if set.contains(m) {
        assert(all.to_set().contains(m));
        let k = choose|k: int| 0 <= k < all.len() && all[k] == m;
        assert(ids[k]@ == m);
    }
    if exists|i: int| 0 <= i < ids.len() && (#[trigger] ids[i])@ == m {
        let i = choose|i: int| 0 <= i < ids.len() && (#[trigger] ids[i])@ == m;
        assert(all[i] == m);
        assert(all.to_set().contains(m));
    }
}

/// What one poll tells is so. It is applied by all only when every other
/// holder has applied the write and nobody was ever excused; it waits on
/// exactly the holders that have not applied it and were not excused; and it
/// lapses only once nobody is left to wait on, naming exactly those excused.
pub proof fn a_poll_tells_the_truth(
    p: Progress,
    writer: Seq<char>,
    token: WriteToken,
    snapshot: Seq<WaitMember>,
    verdict: CoherenceStep,
    i: int,
    m: Seq<char>,
)
    requires
        p.wf(writer),
        0 <= i < snapshot.len(),
        forall|a: int, b: int|
            #![trigger snapshot[a], snapshot[b]]
            0 <= a < b < snapshot.len() ==> snapshot[a].member@ != snapshot[b].member@,
        told(verdict, p.after(writer, token, snapshot)),
    ensures
        verdict is AllApplied ==> {
            &&& snapshot[i].member@ == writer || has_applied(snapshot[i], token)
            &&& !p.lapsed.contains(m)
            &&& p.waiting.contains(m) ==> present(snapshot, m)
        },
        verdict matches CoherenceStep::Waiting { on } ==> {
            &&& on@.len() > 0
            &&& crate::ids::names(on@).contains(snapshot[i].member@) <==> snapshot[i].member@
                != writer && !p.lapsed.contains(snapshot[i].member@) && !has_applied(
                snapshot[i],
                token,
            )
            &&& crate::ids::names(on@).contains(m) ==> present(snapshot, m)
        },
        verdict matches CoherenceStep::LeaseLapsed { stragglers } ==> {
            &&& stragglers@.len() > 0
            &&& crate::ids::names(stragglers@).contains(m) <==> p.lapsed.contains(m) || (
            p.waiting.contains(m) && !present(snapshot, m))
            &&& snapshot[i].member@ == writer || has_applied(snapshot[i], token)
                || p.lapsed.contains(snapshot[i].member@)
        },
{
    let after = p.after(writer, token, snapshot);
    let name = snapshot[i].member@;
    who_is_excused(p, writer, token, snapshot, m);
    the_excused_never_return(p, writer, token, snapshot, name);
    the_excused_never_return(p, writer, token, snapshot, m);
    if name != writer && !p.lapsed.contains(name) {
        each_holder_is_judged_by_its_own_watermark(p, writer, token, snapshot, i);
    }
    if p.lapsed.contains(m) {
        assert(after.lapsed.contains(m));
    }
    if p.waiting.contains(m) && !present(snapshot, m) {
        assert(forall|k: int|
            0 <= k < snapshot.len() ==> (#[trigger] snapshot[k]).member@ != m);
        assert(after.lapsed.contains(m));
    }
    match verdict {
        CoherenceStep::Waiting { on } => {
            let all = crate::ids::names(on@);
            assert(all.contains(name) <==> all.to_set().contains(name));
            assert(all.contains(m) <==> all.to_set().contains(m));
            if on@.len() == 0 {
                assert(all.to_set() =~= Set::<Seq<char>>::empty());
            }
        },
        CoherenceStep::LeaseLapsed { stragglers } => {
            let all = crate::ids::names(stragglers@);
            assert(all.contains(m) <==> all.to_set().contains(m));
            if stragglers@.len() == 0 {
                assert(all.to_set() =~= Set::<Seq<char>>::empty());
            }
        },
        CoherenceStep::AllApplied => {},
    }
}

spec fn stands_before(ids: Seq<NodeId>, k: int, m: Seq<char>) -> bool {
    exists|j: int| 0 <= j < k && (#[trigger] ids[j])@ == m
}

/// One in-flight write, as the core keeps it.
#[derive(Debug)]
struct Flight {
    token: WriteToken,
    waiting: IdSet,
    lapsed: IdSet,
}

/// The writer's half: how far a coherent write has got through its wait set.
#[derive(Debug)]
pub struct CoherenceCore {
    writer: NodeId,
    inflight: Vec<Flight>,
}

impl CoherenceCore {
    /// The writer these waits belong to.
    pub closed spec fn writer(&self) -> Seq<char> {
        self.writer@
    }

    spec fn position(&self, token: WriteToken) -> Option<int> {
        if exists|i: int| 0 <= i < self.inflight@.len() && self.inflight@[i].token == token {
            Some(choose|i: int| 0 <= i < self.inflight@.len() && self.inflight@[i].token == token)
        } else {
            None
        }
    }

    /// The progress of `token`'s wait, when there is one.
    pub closed spec fn progress(&self, token: WriteToken) -> Option<Progress> {
        match self.position(token) {
            Some(i) => Some(
                Progress {
                    waiting: self.inflight@[i].waiting@,
                    lapsed: self.inflight@[i].lapsed@,
                },
            ),
            None => None,
        }
    }

    /// How many writes are mid-wait.
    pub closed spec fn count(&self) -> nat {
        self.inflight@.len()
    }

    /// Whether no write is in flight twice.
    pub closed spec fn distinct(&self) -> bool {
        forall|i: int, j: int|
            #![trigger self.inflight@[i], self.inflight@[j]]
            0 <= i < j < self.inflight@.len() ==> self.inflight@[i].token
                != self.inflight@[j].token
    }

    /// No write is in flight twice, and no wait holds the writer or anyone it
    /// has excused.
    pub open spec fn wf(&self) -> bool {
        &&& self.distinct()
        &&& forall|t: WriteToken|
            #[trigger] self.progress(t) matches Some(p) ==> p.wf(self.writer())
    }

    proof fn lemma_position(&self, i: int)
        requires
            self.distinct(),
            0 <= i < self.inflight@.len(),
        ensures
            self.position(self.inflight@[i].token) == Some(i),
    {
        let token = self.inflight@[i].token;
        let j = choose|j: int| 0 <= j < self.inflight@.len() && self.inflight@[j].token == token;
        if j < i {
            assert(self.inflight@[j].token != self.inflight@[i].token);
        }
        if i < j {
            assert(self.inflight@[i].token != self.inflight@[j].token);
        }
    }

    /// A coherence core for writes authored by `writer`.
    pub fn new(writer: NodeId) -> (r: CoherenceCore)
        ensures
            r.wf(),
            r.writer() == writer@,
            r.count() == 0,
            forall|t: WriteToken| #[trigger] r.progress(t) is None,
    {
        CoherenceCore { writer, inflight: Vec::new() }
    }

    /// How many writes are currently mid-wait.
    pub fn in_flight(&self) -> (r: usize)
        ensures
            r == self.count(),
    {
        self.inflight.len()
    }

    /// Takes `token`'s wait out.
    fn take(&mut self, token: WriteToken) -> (r: Option<Flight>)
        requires
            old(self).wf(),
        ensures
            final(self).wf(),
            final(self).writer == old(self).writer,
            final(self).progress(token) is None,
            forall|t: WriteToken|
                t != token ==> #[trigger] final(self).progress(t) == old(self).progress(t),
            match r {
                Some(f) => {
                    &&& f.token == token
                    &&& old(self).progress(token) == Some(
                        Progress { waiting: f.waiting@, lapsed: f.lapsed@ },
                    )
                    &&& final(self).count() == old(self).count() - 1
                },
                None => old(self).progress(token) is None && final(self).count() == old(
                    self,
                ).count(),
            },
    {
        let ghost before = *self;
        let mut i: usize = 0;
        while i < self.inflight.len()
            invariant
                i <= self.inflight@.len(),
                before == *self,
                before == *old(self),
                before.wf(),
                forall|j: int| 0 <= j < i ==> (#[trigger] self.inflight@[j]).token != token,
            decreases self.inflight@.len() - i,
        {
            if self.inflight[i].token == token {
                proof {
                    before.lemma_position(i as int);
                }
                let flight: Flight = self.inflight.remove(i);
                proof {
                    let now = self.inflight@;
                    let was = before.inflight@;
                    assert forall|a: int, b: int|
                        #![trigger now[a], now[b]]
                        0 <= a < b < now.len() implies now[a].token != now[b].token by {
                        let oa = if a < i {
                            a
                        } else {
                            a + 1
                        };
                        let ob = if b < i {
                            b
                        } else {
                            b + 1
                        };
                        assert(now[a] == was[oa] && now[b] == was[ob]);
                    }
                    assert forall|j: int| 0 <= j < now.len() implies (#[trigger] now[j]).token
                        != token by {
                        let oj = if j < i {
                            j
                        } else {
                            j + 1
                        };
                        assert(now[j] == was[oj]);
                        if oj < i {
                            assert(was[oj].token != was[i as int].token);
                        } else {
                            assert(was[i as int].token != was[oj].token);
                        }
                    }
                    assert forall|t: WriteToken| t != token implies #[trigger] self.progress(t)
                        == before.progress(t) by {
                        if before.position(t) is Some {
                            let k = before.position(t)->0;
                            assert(was[k].token == t);
                            let nk = if k < i {
                                k
                            } else {
                                k - 1
                            };
                            assert(now[nk] == was[k]);
                            self.lemma_position(nk);
                        }
                        if self.position(t) is Some {
                            let k = self.position(t)->0;
                            let ok = if k < i {
                                k
                            } else {
                                k + 1
                            };
                            assert(was[ok] == now[k]);
                        }
                    }
                }
                return Some(flight);
            }
            i = i + 1;
        }
        None
    }

    /// Puts a wait in.
    fn put(&mut self, flight: Flight)
        requires
            old(self).wf(),
            old(self).progress(flight.token) is None,
            (Progress { waiting: flight.waiting@, lapsed: flight.lapsed@ }).wf(old(self).writer()),
        ensures
            final(self).wf(),
            final(self).writer == old(self).writer,
            final(self).count() == old(self).count() + 1,
            final(self).progress(flight.token) == Some(
                Progress { waiting: flight.waiting@, lapsed: flight.lapsed@ },
            ),
            forall|t: WriteToken|
                t != flight.token ==> #[trigger] final(self).progress(t) == old(self).progress(t),
    {
        let ghost before = *self;
        let ghost added = flight;
        self.inflight.push(flight);
        proof {
            let now = self.inflight@;
            let was = before.inflight@;
            let n = was.len() as int;
            assert forall|a: int, b: int|
                #![trigger now[a], now[b]]
                0 <= a < b < now.len() implies now[a].token != now[b].token by {
                assert(now[a] == was[a]);
                if b < n {
                    assert(now[b] == was[b]);
                }
            }
            self.lemma_position(n);
            assert forall|t: WriteToken| t != added.token implies #[trigger] self.progress(t)
                == before.progress(t) by {
                if before.position(t) is Some {
                    let k = before.position(t)->0;
                    assert(now[k] == was[k]);
                    self.lemma_position(k);
                }
                if self.position(t) is Some {
                    let k = self.position(t)->0;
                    assert(now[k] == was[k]);
                }
            }
        }
    }

    /// Folds one snapshot of the live lease-holders into `token`'s wait and
    /// tells the verdict. A terminal verdict drops the write's bookkeeping.
    pub fn step(&mut self, token: WriteToken, snapshot: &[WaitMember]) -> (r: CoherenceStep)
        requires
            old(self).wf(),
        ensures
            final(self).wf(),
            final(self).writer() == old(self).writer(),
            forall|t: WriteToken|
                t != token ==> #[trigger] final(self).progress(t) == old(self).progress(t),
            ({
                let p = match old(self).progress(token) {
                    Some(p) => p,
                    None => Progress::fresh(),
                }.after(old(self).writer(), token, snapshot@);
                &&& told(r, p)
                &&& final(self).progress(token) == (if r is Waiting {
                    Some(p)
                } else {
                    None
                })
                &&& final(self).count() == old(self).count() + (if r is Waiting {
                    1int
                } else {
                    0int
                }) - (if old(self).progress(token) is Some {
                    1int
                } else {
                    0int
                })
            }),
    {
        let ghost start = match self.progress(token) {
            Some(p) => p,
            None => Progress::fresh(),
        };
        let mut flight: Flight = match self.take(token) {
            Some(flight) => flight,
            None => Flight { token, waiting: IdSet::new(), lapsed: IdSet::new() },
        };
        let ghost writer = self.writer@;
        let mut i: usize = 0;
        proof {
            assert(start.looked_at(writer, token, snapshot@.subrange(0, 0)) =~= start.waiting);
        }
        while i < snapshot.len()
            invariant
                i <= snapshot@.len(),
                writer == self.writer@,
                flight.token == token,
                flight.lapsed@ == start.lapsed,
                flight.waiting@ == start.looked_at(
                    writer,
                    token,
                    snapshot@.subrange(0, i as int),
                ),
            decreases snapshot@.len() - i,
        {
            let holder: &WaitMember = &snapshot[i];
            proof {
                let part = snapshot@.subrange(0, i + 1);
                assert(part.drop_last() =~= snapshot@.subrange(0, i as int));
                assert(part.last() == *holder);
            }
            if holder.member != self.writer && !flight.lapsed.contains(&holder.member) {
                let applied: bool = match holder.applied {
                    Some(t) => t >= token,
                    None => false,
                };
                if applied {
                    let _was: bool = flight.waiting.remove(&holder.member);
                } else {
                    flight.waiting.insert(holder.member.clone());
                }
            }
            i = i + 1;
        }
        proof {
            assert(snapshot@.subrange(0, i as int) =~= snapshot@);
        }
        let ghost looked = flight.waiting@;
        let listed: Vec<NodeId> = flight.waiting.to_vec();
        let mut k: usize = 0;
        while k < listed.len()
            invariant
                k <= listed@.len(),
                flight.token == token,
                crate::ids::names(listed@).to_set() == looked,
                forall|a: int, b: int|
                    #![trigger listed@[a], listed@[b]]
                    0 <= a < b < listed@.len() ==> listed@[a]@ != listed@[b]@,
                forall|m: Seq<char>| #[trigger]
                    flight.waiting@.contains(m) <==> looked.contains(m) && !(!present(snapshot@, m)
                        && stands_before(listed@, k as int, m)),
                forall|m: Seq<char>| #[trigger]
                    flight.lapsed@.contains(m) <==> start.lapsed.contains(m) || (!present(
                        snapshot@,
                        m,
                    ) && stands_before(listed@, k as int, m)),
            decreases listed@.len() - k,
        {
            let member: &NodeId = &listed[k];
            if !is_present(snapshot, member) {
                let _was: bool = flight.waiting.remove(member);
                flight.lapsed.insert(member.clone());
            }
            proof {
                assert forall|m: Seq<char>| #[trigger]
                    stands_before(listed@, k + 1, m) == (stands_before(listed@, k as int, m) || m
                        == member@) by {
                    assert(listed@[k as int]@ == member@);
                }
            }
            k = k + 1;
        }
        let ghost p = start.after(writer, token, snapshot@);
        proof {
            assert forall|m: Seq<char>| #[trigger] looked.contains(m) implies stands_before(
                listed@,
                k as int,
                m,
            ) by {
                let all = crate::ids::names(listed@);
                assert(all.to_set().contains(m));
                let j = choose|j: int| 0 <= j < all.len() && all[j] == m;
                assert(listed@[j]@ == m);
            }
            assert forall|j: int| 0 <= j < k implies looked.contains((#[trigger] listed@[j])@) by {
                let all = crate::ids::names(listed@);
                assert(all[j] == listed@[j]@);
                assert(all.to_set().contains(listed@[j]@));
            }
            assert(flight.waiting@ =~= p.waiting);
            assert(flight.lapsed@ =~= p.lapsed);
            the_excused_never_return(start, writer, token, snapshot@, writer);
        }
        if !flight.waiting.is_empty() {
            let on: Vec<NodeId> = flight.waiting.to_vec();
            self.put(flight);
            CoherenceStep::Waiting { on }
        } else if flight.lapsed.is_empty() {
            CoherenceStep::AllApplied
        } else {
            CoherenceStep::LeaseLapsed { stragglers: flight.lapsed.to_vec() }
        }
    }

    /// Drops `token`'s bookkeeping, for a caller whose deadline passed,
    /// handing back who it was still waiting on, in node order.
    pub fn abandon(&mut self, token: WriteToken) -> (r: Option<Vec<NodeId>>)
        requires
            old(self).wf(),
        ensures
            final(self).wf(),
            final(self).writer() == old(self).writer(),
            final(self).progress(token) is None,
            forall|t: WriteToken|
                t != token ==> #[trigger] final(self).progress(t) == old(self).progress(t),
            match r {
                Some(on) => {
                    &&& old(self).progress(token) matches Some(p)
                    &&& lists(on@, p.waiting)
                    &&& final(self).count() == old(self).count() - 1
                },
                None => old(self).progress(token) is None && final(self).count() == old(
                    self,
                ).count(),
            },
    {
        match self.take(token) {
            Some(flight) => Some(flight.waiting.to_vec()),
            None => None,
        }
    }
}

pub(crate) fn is_present(snapshot: &[WaitMember], member: &NodeId) -> (r: bool)
    ensures
        r == present(snapshot@, member@),
{
    let mut i: usize = 0;
    while i < snapshot.len()
        invariant
            i <= snapshot@.len(),
            forall|j: int| 0 <= j < i ==> (#[trigger] snapshot@[j]).member@ != member@,
        decreases snapshot@.len() - i,
    {
        if snapshot[i].member == *member {
            return true;
        }
        i = i + 1;
    }
    false
}

} // verus!
