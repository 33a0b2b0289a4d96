//! The commit rule: has this write been applied widely enough to acknowledge?
//!
//! For a write of host `H` at token `t`, a member counts iff it publishes a
//! reading stamped with exactly `t`'s epoch whose watermark for `H` is at or
//! past `t`. A lower stamp is a stale view; a higher one means the voter has
//! moved on, and a round at the older epoch must never close again.

use crate::hosted::ledger::{LedgerState, LedgerView, VoterState};
use crate::hosted::types::Commit;
use crate::ids::NodeId;
use crate::token::WriteToken;
use vstd::prelude::*;

verus! {

/// One evaluation's verdict on a write.
#[derive(Debug, Clone, PartialEq, Eq)]
pub enum CommitVerdict {
    /// The level's threshold is met: the write may be acknowledged.
    Committed,
    /// Not yet.
    Pending {
        /// The members that do not yet count, in node order.
        waiting_on: Vec<NodeId>,
    },
}

impl CommitVerdict {
    /// Whether the write may be acknowledged.
    pub fn is_committed(&self) -> (r: bool)
        ensures
            r == (self is Committed),
    {
        match self {
            CommitVerdict::Committed => true,
            _ => false,
        }
    }
}

/// The commit rule. It carries nothing between evaluations.
#[derive(Debug, Clone, Copy, PartialEq, Eq)]
pub struct CommitCore;

/// Whether one member's reading counts toward `token`: stamped at exactly the
/// write's epoch, and applied at or past the write.
pub open spec fn counts(member: VoterState, host: Seq<char>, token: WriteToken) -> bool {
    member.reading matches Some(reading) && reading.stamp == token.epoch
        && reading.applied.contains_key(host) && reading.applied[host].covers(token)
}

/// Whether the level looks at the member at all: a static roster is blind to
/// liveness.
pub open spec fn considered(level: Commit, member: VoterState) -> bool {
    match level {
        Commit::Local => false,
        Commit::QuorumApplied => true,
        Commit::AllApplied => member.alive,
    }
}

/// How many members of a view have the property.
pub open spec fn tally(view: Seq<VoterState>, p: spec_fn(VoterState) -> bool) -> nat
    decreases view.len(),
{
    if view.len() == 0 {
        0
    } else {
        tally(view.drop_last(), p) + (if p(view.last()) {
            1nat
        } else {
            0nat
        })
    }
}

/// The members of a view that have the property, in view order.
pub open spec fn chosen(view: Seq<VoterState>, p: spec_fn(VoterState) -> bool) -> Seq<Seq<char>>
    decreases view.len(),
{
    if view.len() == 0 {
        Seq::empty()
    } else if p(view.last()) {
        chosen(view.drop_last(), p).push(view.last().member)
    } else {
        chosen(view.drop_last(), p)
    }
}

/// How many members the level looks at.
pub open spec fn required(view: Seq<VoterState>, level: Commit) -> nat {
    tally(view, |m: VoterState| considered(level, m))
}

/// How many of them count.
pub open spec fn counted(
    view: Seq<VoterState>,
    host: Seq<char>,
    token: WriteToken,
    level: Commit,
) -> nat {
    tally(view, |m: VoterState| considered(level, m) && counts(m, host, token))
}

/// The members the level looks at that do not count.
pub open spec fn lagging(
    view: Seq<VoterState>,
    host: Seq<char>,
    token: WriteToken,
    level: Commit,
) -> Seq<Seq<char>> {
    chosen(view, |m: VoterState| considered(level, m) && !counts(m, host, token))
}

/// Whether the level's threshold is met: nobody for the local level, a strict
/// majority of the roster for the quorum level, and everyone alive for the
/// other.
pub open spec fn committed(
    view: Seq<VoterState>,
    host: Seq<char>,
    token: WriteToken,
    level: Commit,
) -> bool {
    match level {
        Commit::Local => true,
        Commit::QuorumApplied => counted(view, host, token, level) >= required(view, level) / 2
            + 1,
        Commit::AllApplied => counted(view, host, token, level) >= required(view, level),
    }
}

impl CommitCore {
    /// Evaluates `level` for the write `host` authored at `token`, against
    /// the roster snapshot `view`.
    pub fn evaluate(view: &[LedgerView], host: &NodeId, token: WriteToken, level: Commit) -> (r:
        CommitVerdict)
        ensures
            match r {
                CommitVerdict::Committed => committed(crate::hosted::ledger::voters(view@), host@, token, level),
                CommitVerdict::Pending { waiting_on } => {
                    &&& !committed(crate::hosted::ledger::voters(view@), host@, token, level)
                    &&& crate::ids::in_order(waiting_on@)
                    &&& crate::ids::names(waiting_on@).to_multiset() == lagging(
                        crate::hosted::ledger::voters(view@),
                        host@,
                        token,
                        level,
                    ).to_multiset()
                },
            },
    {
        if level == Commit::Local {
            return CommitVerdict::Committed;
        }
        let mut met: usize = 0;
        let mut asked: usize = 0;
        let mut waiting_on: Vec<NodeId> = Vec::new();
        let mut i: usize = 0;
        let ghost all = crate::hosted::ledger::voters(view@);
        proof {
            assert(crate::ids::names(waiting_on@) =~= Seq::<Seq<char>>::empty());
        }
        while i < view.len()
            invariant
                i <= view@.len(),
                all == crate::hosted::ledger::voters(view@),
                level != Commit::Local,
                met <= asked <= i,
                asked == required(all.subrange(0, i as int), level),
                met == counted(all.subrange(0, i as int), host@, token, level),
                crate::ids::names(waiting_on@) == lagging(all.subrange(0, i as int), host@, token, level),
            decreases view@.len() - i,
        {
            let member: &LedgerView = &view[i];
            proof {
                let part = all.subrange(0, i + 1);
                assert(part.drop_last() =~= all.subrange(0, i as int));
                assert(part.last() == member@);
            }
            let looked_at: bool = match level {
                Commit::AllApplied => member.alive,
                _ => true,
            };
            if looked_at {
                asked = asked + 1;
                if member_counts(member, host, token) {
                    met = met + 1;
                } else {
                    let ghost was = crate::ids::names(waiting_on@);
                    waiting_on.push(member.member.clone());
                    proof {
                        assert(crate::ids::names(waiting_on@) =~= was.push(member.member@));
                    }
                }
            }
            i = i + 1;
        }
        proof {
            assert(all.subrange(0, i as int) =~= all);
        }
        let threshold: usize = match level {
            Commit::QuorumApplied => asked / 2 + 1,
            _ => asked,
        };
        if met >= threshold {
            CommitVerdict::Committed
        } else {
            CommitVerdict::Pending { waiting_on: crate::ids::sorted(waiting_on) }
        }
    }
}

fn member_counts(member: &LedgerView, host: &NodeId, token: WriteToken) -> (r: bool)
    ensures
        r == counts(member@, host@, token),
{
    match &member.reading {
        None => false,
        Some(reading) => reading.lead_epoch == token.epoch && (match reading.applied.get_copy(
            host,
        ) {
            Some(wm) => wm >= token,
            None => false,
        }),
    }
}

/// At most every member of a view has a property.
pub proof fn lemma_tally_bound(view: Seq<VoterState>, p: spec_fn(VoterState) -> bool)
    ensures
        tally(view, p) <= view.len(),
    decreases view.len(),
{
    if view.len() > 0 {
        lemma_tally_bound(view.drop_last(), p);
    }
}

/// Two properties that together hold of more members than there are seats
/// hold of one seat at once.
pub proof fn lemma_majorities_meet(
    a: Seq<VoterState>,
    p: spec_fn(VoterState) -> bool,
    b: Seq<VoterState>,
    q: spec_fn(VoterState) -> bool,
)
    requires
        a.len() == b.len(),
        tally(a, p) + tally(b, q) > a.len(),
    ensures
        exists|i: int| 0 <= i < a.len() && p(#[trigger] a[i]) && q(b[i]),
    decreases a.len(),
{
    if a.len() > 0 {
        let n = a.len() - 1;
        if p(a[n]) && q(b[n]) {
        } else {
            lemma_majorities_meet(a.drop_last(), p, b.drop_last(), q);
            let i = choose|i: int|
                0 <= i < a.drop_last().len() && p(#[trigger] a.drop_last()[i]) && q(
                    b.drop_last()[i],
                );
            assert(a[i] == a.drop_last()[i] && b[i] == b.drop_last()[i]);
        }
    }
}

proof fn lemma_tally_same(
    view: Seq<VoterState>,
    p: spec_fn(VoterState) -> bool,
    q: spec_fn(VoterState) -> bool,
)
    requires
        forall|i: int| 0 <= i < view.len() ==> p(#[trigger] view[i]) == q(view[i]),
    ensures
        tally(view, p) == tally(view, q),
    decreases view.len(),
{
    if view.len() > 0 {
        let init = view.drop_last();
        assert forall|i: int| 0 <= i < init.len() implies p(#[trigger] init[i]) == q(init[i]) by {
            assert(init[i] == view[i]);
        }
        assert(view[view.len() - 1] == view.last());
        lemma_tally_same(init, p, q);
    }
}

proof fn lemma_tally_all(view: Seq<VoterState>, p: spec_fn(VoterState) -> bool)
    requires
        forall|i: int| 0 <= i < view.len() ==> p(#[trigger] view[i]),
    ensures
        tally(view, p) == view.len(),
    decreases view.len(),
{
    if view.len() > 0 {
        let init = view.drop_last();
        assert forall|i: int| 0 <= i < init.len() implies p(#[trigger] init[i]) by {
            assert(init[i] == view[i]);
        }
        assert(view[view.len() - 1] == view.last());
        lemma_tally_all(init, p);
    }
}

/// At the quorum level a commit is a strict majority of the whole roster,
/// silent voters counted in.
pub proof fn a_quorum_is_a_majority_of_the_roster(
    view: Seq<VoterState>,
    host: Seq<char>,
    token: WriteToken,
)
    ensures
        committed(view, host, token, Commit::QuorumApplied) <==> 2 * tally(
            view,
            |m: VoterState| counts(m, host, token),
        ) > view.len(),
{
    let level = Commit::QuorumApplied;
    lemma_tally_all(view, |m: VoterState| considered(level, m));
    lemma_tally_same(
        view,
        |m: VoterState| considered(level, m) && counts(m, host, token),
        |m: VoterState| counts(m, host, token),
    );
}

/// An empty roster never commits at the quorum level.
pub proof fn an_empty_roster_never_commits(host: Seq<char>, token: WriteToken)
    ensures
        !committed(Seq::empty(), host, token, Commit::QuorumApplied),
{
}

/// At the level of everyone alive, a commit means that each member believed
/// alive has applied the write under the write's own epoch.
pub proof fn all_applied_means_everyone_alive(
    view: Seq<VoterState>,
    host: Seq<char>,
    token: WriteToken,
    i: int,
)
    requires
        committed(view, host, token, Commit::AllApplied),
        0 <= i < view.len(),
        view[i].alive,
    ensures
        counts(view[i], host, token),
{
    lemma_all_counted(view, host, token, i);
}

proof fn lemma_counted_within_required(
    view: Seq<VoterState>,
    host: Seq<char>,
    token: WriteToken,
    level: Commit,
)
    ensures
        counted(view, host, token, level) <= required(view, level),
    decreases view.len(),
{
    if view.len() > 0 {
        lemma_counted_within_required(view.drop_last(), host, token, level);
    }
}

proof fn lemma_all_counted(view: Seq<VoterState>, host: Seq<char>, token: WriteToken, i: int)
    requires
        counted(view, host, token, Commit::AllApplied) >= required(view, Commit::AllApplied),
        0 <= i < view.len(),
        view[i].alive,
    ensures
        counts(view[i], host, token),
    decreases view.len(),
{
    let init = view.drop_last();
    lemma_counted_within_required(init, host, token, Commit::AllApplied);
    if i < init.len() {
        assert(init[i] == view[i]);
        lemma_all_counted(init, host, token, i);
    }
}

/// A member counts toward a write exactly when it publishes a reading stamped
/// with the write's own epoch, no other, whose watermark for the host is of a
/// later life than the write or of the same and no lower.
pub proof fn who_counts(member: VoterState, host: Seq<char>, token: WriteToken)
    ensures
        counts(member, host, token) <==> (member.reading matches Some(reading) && reading.stamp
            == token.epoch && reading.applied.contains_key(host) && (reading.applied[host].epoch
            > token.epoch || (reading.applied[host].epoch == token.epoch
            && reading.applied[host].seq >= token.seq))),
{
}

/// The seats of a view whose members have a property.
pub open spec fn seats(view: Seq<VoterState>, p: spec_fn(VoterState) -> bool) -> Set<int> {
    Set::new(|i: int| 0 <= i < view.len() && p(view[i]))
}

/// A tally counts seats, each once.
pub proof fn a_tally_counts_seats(view: Seq<VoterState>, p: spec_fn(VoterState) -> bool)
    ensures
        seats(view, p).finite(),
        tally(view, p) == seats(view, p).len(),
    decreases view.len(),
{
    if view.len() == 0 {
        assert(seats(view, p) =~= Set::<int>::empty());
    } else {
        let init = view.drop_last();
        let n = view.len() - 1;
        a_tally_counts_seats(init, p);
        assert forall|i: int| 0 <= i < n implies #[trigger] init[i] == view[i] by {}
        if p(view.last()) {
            assert(seats(view, p) =~= seats(init, p).insert(n));
        } else {
            assert(seats(view, p) =~= seats(init, p));
        }
    }
}

/// A quorum is reached exactly when some seats, more than half of the whole
/// roster, each publish the write as applied under its own epoch.
pub proof fn a_quorum_is_a_set_of_seats(
    view: Seq<VoterState>,
    host: Seq<char>,
    token: WriteToken,
    some: Set<int>,
)
    ensures
        some.finite() && 2 * some.len() > view.len() && (forall|i: int| #[trigger]
            some.contains(i) ==> 0 <= i < view.len() && counts(view[i], host, token)) ==> committed(
            view,
            host,
            token,
            Commit::QuorumApplied,
        ),
        committed(view, host, token, Commit::QuorumApplied) ==> {
            let all = seats(view, |m: VoterState| counts(m, host, token));
            &&& all.finite()
            &&& 2 * all.len() > view.len()
            &&& forall|i: int| #[trigger]
                all.contains(i) ==> 0 <= i < view.len() && counts(view[i], host, token)
        },
{
    let p = |m: VoterState| counts(m, host, token);
    a_quorum_is_a_majority_of_the_roster(view, host, token);
    a_tally_counts_seats(view, p);
    if some.finite() && 2 * some.len() > view.len() && (forall|i: int| #[trigger]
        some.contains(i) ==> 0 <= i < view.len() && counts(view[i], host, token)) {
        assert(some.subset_of(seats(view, p)));
        vstd::set_lib::lemma_len_subset(some, seats(view, p));
    }
}

/// At the level of everyone alive a write is committed exactly when each
/// member of the view believed alive counts.
pub proof fn all_applied_is_everyone_alive(
    view: Seq<VoterState>,
    host: Seq<char>,
    token: WriteToken,
)
    ensures
        committed(view, host, token, Commit::AllApplied) <==> forall|i: int|
            0 <= i < view.len() && (#[trigger] view[i]).alive ==> counts(view[i], host, token),
{
    let level = Commit::AllApplied;
    if committed(view, host, token, level) {
        assert forall|i: int| 0 <= i < view.len() && (#[trigger] view[i]).alive implies counts(
            view[i],
            host,
            token,
        ) by {
            all_applied_means_everyone_alive(view, host, token, i);
        }
    }
    if forall|i: int|
        0 <= i < view.len() && (#[trigger] view[i]).alive ==> counts(view[i], host, token) {
        lemma_tally_same(
            view,
            |m: VoterState| considered(level, m) && counts(m, host, token),
            |m: VoterState| considered(level, m),
        );
    }
}

/// The local level waits for nobody.
pub proof fn the_local_level_waits_for_nobody(
    view: Seq<VoterState>,
    host: Seq<char>,
    token: WriteToken,
)
    ensures
        committed(view, host, token, Commit::Local),
        lagging(view, host, token, Commit::Local).len() == 0,
    decreases view.len(),
{
    if view.len() > 0 {
        the_local_level_waits_for_nobody(view.drop_last(), host, token);
    }
}

proof fn lemma_chosen(view: Seq<VoterState>, p: spec_fn(VoterState) -> bool, name: Seq<char>)
    ensures
        chosen(view, p).contains(name) <==> exists|i: int|
            0 <= i < view.len() && (#[trigger] view[i]).member == name && p(view[i]),
        chosen(view, p).len() == tally(view, p),
    decreases view.len(),
{
    if view.len() > 0 {
        let init = view.drop_last();
        let n = view.len() - 1;
        lemma_chosen(init, p, name);
        let before = chosen(init, p);
        let now = chosen(view, p);
        if before.contains(name) {
            let k = choose|k: int| 0 <= k < before.len() && before[k] == name;
            assert(now[k] == name);
            let i = choose|i: int|
                0 <= i < init.len() && (#[trigger] init[i]).member == name && p(init[i]);
            assert(view[i] == init[i]);
        }
        if p(view[n]) && view[n].member == name {
            assert(now[now.len() - 1] == name);
        }
        if exists|i: int| 0 <= i < view.len() && (#[trigger] view[i]).member == name && p(view[i]) {
            let i = choose|i: int|
                0 <= i < view.len() && (#[trigger] view[i]).member == name && p(view[i]);
            if i < n {
                assert(init[i] == view[i]);
            }
        }
    }
}

/// What a pending write waits on is every member that the level looks at and
/// that does not count, and nobody else.
pub proof fn the_lagging_are_named(
    view: Seq<VoterState>,
    host: Seq<char>,
    token: WriteToken,
    name: Seq<char>,
)
    ensures
        lagging(view, host, token, Commit::QuorumApplied).contains(name) <==> exists|i: int|
            0 <= i < view.len() && (#[trigger] view[i]).member == name && !counts(
                view[i],
                host,
                token,
            ),
        lagging(view, host, token, Commit::AllApplied).contains(name) <==> exists|i: int|
            0 <= i < view.len() && (#[trigger] view[i]).member == name && view[i].alive && !counts(
                view[i],
                host,
                token,
            ),
{
    lemma_chosen(
        view,
        |m: VoterState| considered(Commit::QuorumApplied, m) && !counts(m, host, token),
        name,
    );
    lemma_chosen(
        view,
        |m: VoterState| considered(Commit::AllApplied, m) && !counts(m, host, token),
        name,
    );
}

/// A fresh majority is more than half of the whole roster, each seat with a
/// reading stamped at the epoch or past it.
pub proof fn a_fresh_majority_is_a_set_of_seats(view: Seq<VoterState>, epoch: u64)
    ensures
        ({
            let all = Set::new(
                |i: int|
                    0 <= i < view.len() && (view[i].reading matches Some(reading) && reading.stamp
                        >= epoch),
            );
            &&& all.finite()
            &&& fresh_majority(view, epoch) <==> 2 * all.len() > view.len()
        }),
{
    let p = |m: VoterState| fresh(m, epoch);
    let all = Set::new(
        |i: int|
            0 <= i < view.len() && (view[i].reading matches Some(reading) && reading.stamp
                >= epoch),
    );
    a_tally_counts_seats(view, p);
    assert(seats(view, p) =~= all);
}

/// Whether `history` is what one publisher published, in order: a later
/// ledger is never lower than an earlier one.
pub open spec fn is_history(history: Seq<LedgerState>) -> bool {
    forall|i: int, j: int|
        #![trigger history[i], history[j]]
        0 <= i <= j < history.len() ==> history[j].follows(history[i])
}

/// Whether every reading of the view is one that its member published.
pub open spec fn is_read_from(view: Seq<VoterState>, histories: Seq<Seq<LedgerState>>) -> bool {
    &&& view.len() == histories.len()
    &&& forall|i: int|
        0 <= i < view.len() ==> ((#[trigger] view[i]).reading matches Some(state)
            ==> histories[i].contains(state))
}

/// Whether a majority of the view is stamped at or past `epoch`.
pub open spec fn fresh_majority(view: Seq<VoterState>, epoch: u64) -> bool {
    tally(view, |m: VoterState| fresh(m, epoch)) >= view.len() / 2 + 1
}

/// Whether the member's reading is stamped at or past `epoch`.
pub open spec fn fresh(member: VoterState, epoch: u64) -> bool {
    member.reading matches Some(reading) && reading.stamp >= epoch
}

/// The view-stamp fence: once a majority of the roster has been seen at a
/// later epoch, no view read no earlier than that one ever commits a write of
/// the older epoch at the quorum level.
pub proof fn a_deposed_round_never_closes(
    seen: Seq<VoterState>,
    later: Seq<VoterState>,
    epoch: u64,
    host: Seq<char>,
    token: WriteToken,
)
    requires
        token.epoch < epoch,
        fresh_majority(seen, epoch),
        later.len() == seen.len(),
        forall|i: int|
            0 <= i < seen.len() && (#[trigger] later[i]).reading is Some && fresh(seen[i], epoch)
                ==> fresh(later[i], epoch),
    ensures
        !committed(later, host, token, Commit::QuorumApplied),
{
    a_quorum_is_a_majority_of_the_roster(later, host, token);
    if committed(later, host, token, Commit::QuorumApplied) {
        let p = |m: VoterState| fresh(m, epoch);
        let q = |m: VoterState| counts(m, host, token);
        lemma_majorities_meet(seen, p, later, q);
        let i = choose|i: int| 0 <= i < seen.len() && p(#[trigger] seen[i]) && q(later[i]);
        assert(fresh(seen[i], epoch) && counts(later[i], host, token));
        assert(fresh(later[i], epoch));
    }
}

} // verus!
