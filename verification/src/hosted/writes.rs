//! The write half: [`HostedWrites`], which publishes as host when this node
//! is one, refuses with a named reason when it is not, and tells when a
//! committed write's threshold is met.

use crate::feed::{FeedView, RingView, WriteFeed};
use crate::frontier::Frontier;
use crate::group::{EntryWrite, GroupView, Leadership, Status};
use crate::hosted::commit::{CommitCore, CommitVerdict};
use crate::hosted::handoff::{Handoff, HandoffReceipt};
use crate::hosted::ledger::{CommitLedger, LedgerState, LedgerView, VoterState, LEDGER_KEY};
use crate::hosted::reads::{HostedReads, ReadsView, Turn};
use crate::hosted::recovery::{Completeness, CompletenessCore};
use crate::hosted::types::{Commit, CommitOutcome, Fence, HostedError, CAP_HOSTED};
use crate::ids::NodeId;
use crate::token::WriteToken;
use crate::watermarks::Watermarks;
use crate::wire::FrameView;
use vstd::prelude::*;

verus! {

/// The feed name of the default hosted write path.
pub const FEED_NAME: &'static str = "hosted";

/// The feed name a hosted write path occupies: `hosted` for the default path,
/// `hosted:<name>` for a named one.
pub fn hosted_feed_name(name: &str) -> (r: String)
    ensures
        r@ == crate::wire::scoped_key(FEED_NAME@, name@),
{
    crate::wire::scoped(FEED_NAME, name)
}

/// The entry key of a hosted write path's feed.
pub open spec fn feed_key(name: Seq<char>) -> Seq<char> {
    crate::wire::scoped_key(crate::wire::ENTRY_KEY@, crate::wire::scoped_key(FEED_NAME@, name))
}

/// The entry key of a hosted write path's commit ledger.
pub open spec fn ledger_key(name: Seq<char>) -> Seq<char> {
    crate::wire::scoped_key(LEDGER_KEY@, name)
}

/// Distinct write paths occupy distinct feed and ledger entries.
pub proof fn write_paths_occupy_distinct_entries(a: Seq<char>, b: Seq<char>)
    ensures
        feed_key(a) == feed_key(b) <==> a == b,
        ledger_key(a) == ledger_key(b) <==> a == b,
{
    let fa = crate::wire::scoped_key(FEED_NAME@, a);
    let fb = crate::wire::scoped_key(FEED_NAME@, b);
    crate::wire::names_make_distinct_keys(FEED_NAME@, a, b);
    crate::wire::names_make_distinct_keys(crate::wire::ENTRY_KEY@, fa, fb);
    crate::wire::names_make_distinct_keys(LEDGER_KEY@, a, b);
}

/// Why a committed-regime write path could not be made.
#[derive(Debug, Clone, PartialEq, Eq)]
pub enum HostedSetupError {
    /// The group elects nobody.
    NotHosted,
    /// The group elects a host without a static voter roster.
    NotQuorum,
    /// The commit ledger handed in publishes under another key than this
    /// write path reads.
    LedgerMismatch {
        /// The key this write path reads its peers' ledgers under.
        expected: String,
        /// The key the ledger handed in publishes under.
        found: String,
    },
}

impl HostedSetupError {
    /// What is wrong, in words.
    pub open spec fn text(self) -> Seq<char> {
        match self {
            HostedSetupError::NotHosted => "the group is not a Hosted group: it elects no host"@,
            HostedSetupError::NotQuorum =>
                "the group does not use Quorum activation, so it has no static voter roster"@,
            HostedSetupError::LedgerMismatch { expected, found } =>
                "the commit ledger publishes under "@ + found@
                    + ", but this write path reads "@ + expected@,
        }
    }

    /// What is wrong, in words.
    pub fn message(&self) -> (r: String)
        ensures
            r@ == self.text(),
    {
        match self {
            HostedSetupError::NotHosted =>
                "the group is not a Hosted group: it elects no host".to_owned(),
            HostedSetupError::NotQuorum =>
                "the group does not use Quorum activation, so it has no static voter roster".to_owned(),
            HostedSetupError::LedgerMismatch { expected, found } => {
                let mut out: String = "the commit ledger publishes under ".to_owned();
                out.append(found.as_str());
                out.append(", but this write path reads ");
                out.append(expected.as_str());
                out
            },
        }
    }
}

/// How a hosted group activates its host.
#[derive(Debug)]
pub enum Activation {
    /// By a majority of a static voter roster.
    Quorum {
        /// The roster, in node order, each voter once.
        voters: Vec<NodeId>,
    },
    /// In any other way.
    Other,
}

/// Whether a group elects a host.
#[derive(Debug)]
pub enum GroupMode {
    /// It does.
    Hosted(Activation),
    /// It does not.
    Other,
}

/// The group's static voter roster, or why it has none.
pub fn quorum_roster(mode: &GroupMode) -> (r: Result<Vec<NodeId>, HostedSetupError>)
    ensures
        match *mode {
            GroupMode::Other => r == Err::<Vec<NodeId>, HostedSetupError>(
                HostedSetupError::NotHosted,
            ),
            GroupMode::Hosted(Activation::Other) => r == Err::<Vec<NodeId>, HostedSetupError>(
                HostedSetupError::NotQuorum,
            ),
            GroupMode::Hosted(Activation::Quorum { voters }) => r matches Ok(v) && v@
                == voters@,
        },
{
    match mode {
        GroupMode::Other => Err(HostedSetupError::NotHosted),
        GroupMode::Hosted(activation) => match activation {
            Activation::Other => Err(HostedSetupError::NotQuorum),
            Activation::Quorum { voters } => {
                let mut out: Vec<NodeId> = Vec::new();
                let mut i: usize = 0;
                while i < voters.len()
                    invariant
                        i <= voters@.len(),
                        out@ == voters@.subrange(0, i as int),
                    decreases voters@.len() - i,
                {
                    out.push(voters[i].clone());
                    proof {
                        assert(out@ =~= voters@.subrange(0, i + 1));
                    }
                    i = i + 1;
                }
                proof {
                    assert(out@ =~= voters@);
                }
                Ok(out)
            },
        },
    }
}

/// Whether the leadership names `me` as host.
pub open spec fn is_host(lead: Leadership, me: Seq<char>) -> bool {
    lead.host matches Some(host) && host@ == me
}

/// What a node that wants to write is told: a host serves once recovery has
/// latched for its epoch and recovers until then; a node that once hosted
/// learns that it was deposed; and any other is redirected.
pub open spec fn admission(
    lead: Leadership,
    me: Seq<char>,
    last_hosted: Option<u64>,
    recovered: bool,
) -> Result<u64, HostedError> {
    if is_host(lead, me) {
        if recovered {
            Ok(lead.epoch)
        } else {
            Err(HostedError::Recovering)
        }
    } else {
        match last_hosted {
            Some(epoch) => Err(HostedError::Deposed { epoch }),
            None => Err(HostedError::NotHost { epoch: lead.epoch, host: lead.host }),
        }
    }
}

/// The admission verdict for `me`.
pub fn admission_verdict(
    lead: &Leadership,
    me: &NodeId,
    last_hosted: Option<u64>,
    recovered: bool,
) -> (r: Result<u64, HostedError>)
    ensures
        r == admission(*lead, me@, last_hosted, recovered),
{
    let hosting: bool = leads(lead, me);
    if hosting {
        return if recovered {
            Ok(lead.epoch)
        } else {
            Err(HostedError::Recovering)
        };
    }
    match last_hosted {
        Some(epoch) => Err(HostedError::Deposed { epoch }),
        None => Err(
            HostedError::NotHost {
                epoch: lead.epoch,
                host: match &lead.host {
                    Some(host) => Some(host.clone()),
                    None => None,
                },
            },
        ),
    }
}

fn leads(lead: &Leadership, me: &NodeId) -> (r: bool)
    ensures
        r == is_host(*lead, me@),
{
    match &lead.host {
        Some(host) => *host == *me,
        None => false,
    }
}

/// The recovery gate never changes what a node that is not the host is told,
/// and a host is never told that it was deposed or that it is not the host.
pub proof fn the_gate_concerns_the_host_alone(
    lead: Leadership,
    me: Seq<char>,
    last_hosted: Option<u64>,
)
    ensures
        !is_host(lead, me) ==> admission(lead, me, last_hosted, true) == admission(
            lead,
            me,
            last_hosted,
            false,
        ),
        is_host(lead, me) ==> admission(lead, me, last_hosted, true) == Ok::<u64, HostedError>(
            lead.epoch,
        ),
        is_host(lead, me) ==> admission(lead, me, last_hosted, false) == Err::<u64, HostedError>(
            HostedError::Recovering,
        ),
        admission(lead, me, None, true) matches Err(e) ==> !(e is Deposed),
{
}

/// What is known of each voter of a roster, as gossip shows it.
pub open spec fn roster_states(group: GroupView, voters: Seq<NodeId>, key: Seq<char>) -> Seq<
    VoterState,
> {
    Seq::new(
        voters.len(),
        |i: int|
            VoterState {
                member: voters[i]@,
                alive: group.alive(voters[i]@),
                reading: crate::hosted::ledger::reading_of(group, voters[i]@, key),
            },
    )
}

/// What is known of each other member believed alive that advertises the
/// capability, among those listed.
pub open spec fn selected_states(
    group: GroupView,
    me: Seq<char>,
    key: Seq<char>,
    rows: Seq<(Seq<char>, Status)>,
) -> Seq<VoterState>
    decreases rows.len(),
{
    if rows.len() == 0 {
        Seq::empty()
    } else {
        let init = selected_states(group, me, key, rows.drop_last());
        let member = rows.last().0;
        if rows.last().1 == Status::Alive && member != me && group.capable(member, CAP_HOSTED@) {
            init.push(
                VoterState {
                    member,
                    alive: true,
                    reading: crate::hosted::ledger::reading_of(group, member, key),
                },
            )
        } else {
            init
        }
    }
}

/// What a write path knows.
pub struct WritesModel {
    /// This node's name.
    pub me: Seq<char>,
    /// The write path's name.
    pub name: Seq<char>,
    /// How many writes the feed remembers.
    pub capacity: nat,
    /// The frame budget of the feed.
    pub max_frame_bytes: nat,
    /// In the committed regime, the static voter roster.
    pub voters: Option<Seq<NodeId>>,
    /// In the committed regime, this node's own ledger.
    pub ledger: Option<LedgerState>,
    /// The highest epoch this node has been admitted to serve at.
    pub serving: u64,
    /// The feed of the epoch last published under.
    pub feed: Option<FeedView>,
    /// The epoch the feed was made for.
    pub feed_epoch: u64,
    /// The last epoch this node has seen itself hosting at.
    pub last_hosted: Option<u64>,
    /// The epoch the recovery gate opened for.
    pub recovered_at: Option<u64>,
}

impl WritesModel {
    /// Whether the recovery rule is met for `epoch`.
    pub open spec fn covers_recovery(self, group: GroupView, epoch: u64) -> bool {
        crate::hosted::recovery::complete(
            epoch,
            roster_states(group, self.voters->0, ledger_key(self.name)),
            (self.ledger->0).applied,
        )
    }

    /// Whether the recovery gate is open for `epoch`: always without a
    /// roster, and for good once the rule has been met.
    pub open spec fn gate_open(self, group: GroupView, epoch: u64) -> bool {
        self.voters is None || self.recovered_at == Some(epoch) || self.covers_recovery(
            group,
            epoch,
        )
    }

    /// The verdict on a write right now.
    pub open spec fn verdict(self, group: GroupView) -> Result<u64, HostedError> {
        let lead = group.leadership;
        admission(
            lead,
            self.me,
            if is_host(lead, self.me) {
                Some(lead.epoch)
            } else {
                self.last_hosted
            },
            !is_host(lead, self.me) || self.gate_open(group, lead.epoch),
        )
    }

    /// The write path once the verdict has been asked for: both latches set,
    /// and the serving epoch raised if a write would be taken.
    pub open spec fn asked(self, group: GroupView) -> WritesModel {
        let lead = group.leadership;
        let hosting = is_host(lead, self.me);
        WritesModel {
            last_hosted: if hosting {
                Some(lead.epoch)
            } else {
                self.last_hosted
            },
            recovered_at: if hosting && self.voters is Some && self.gate_open(group, lead.epoch) {
                Some(lead.epoch)
            } else {
                self.recovered_at
            },
            serving: match self.verdict(group) {
                Ok(epoch) => if epoch > self.serving {
                    epoch
                } else {
                    self.serving
                },
                Err(_) => self.serving,
            },
            ..self
        }
    }

    /// The feed that writes of `epoch` go to: the one at hand if it was made
    /// for that epoch, else a fresh one that counts from 1.
    pub open spec fn feed_for(self, epoch: u64) -> FeedView {
        if self.feed is Some && self.feed_epoch == epoch {
            self.feed->0
        } else {
            FeedView {
                key: feed_key(self.name),
                ring: RingView {
                    epoch,
                    first_seq: 1,
                    keys: Seq::empty(),
                    capacity: self.capacity,
                    max_frame_bytes: self.max_frame_bytes,
                },
            }
        }
    }

    /// What the level's rule is fed.
    pub open spec fn voters_for(self, group: GroupView, level: Commit) -> Seq<VoterState> {
        match level {
            Commit::Local => Seq::empty(),
            Commit::QuorumApplied => match self.voters {
                Some(voters) => roster_states(group, voters, ledger_key(self.name)),
                None => Seq::empty(),
            },
            Commit::AllApplied => selected_states(
                group,
                self.me,
                ledger_key(self.name),
                group.statuses.records(),
            ),
        }
    }

    /// Whether the roster and the ledger belong together, and the feed is of
    /// the epoch it was made for.
    pub open spec fn wf(self) -> bool {
        &&& self.voters is Some <==> self.ledger is Some
        &&& self.feed matches Some(feed) ==> feed.ring.epoch == self.feed_epoch
        &&& self.recovered_at is Some ==> self.voters is Some
    }
}

/// A host of a roster takes a write only once the recovery rule has been met
/// at its epoch, and that is asked of it once; asking never lowers the serving
/// epoch, and raises it only to an epoch a write is taken at.
pub proof fn asking_only_latches(model: WritesModel, group: GroupView)
    ensures
        model.voters is Some && model.verdict(group) is Ok ==> model.recovered_at == Some(
            group.leadership.epoch,
        ) || model.covers_recovery(group, group.leadership.epoch),
        model.voters is Some && model.verdict(group) is Ok ==> model.asked(group).recovered_at
            == Some(group.leadership.epoch),
        model.asked(group).serving >= model.serving,
        model.asked(group).serving != model.serving ==> model.verdict(group) == Ok::<
            u64,
            HostedError,
        >(model.asked(group).serving),
        model.verdict(group) == Err::<u64, HostedError>(HostedError::Recovering) ==> model.asked(
            group,
        ).serving == model.serving,
        model.asked(group).verdict(group) == model.verdict(group),
        model.asked(group).asked(group) == model.asked(group),
{
}

/// Who may write: the node that the leadership names as host, at the
/// leadership's own epoch, once it has recovered. Another that once hosted is
/// told the epoch it last hosted at, and one that never did is told who leads.
pub proof fn who_may_write(
    lead: Leadership,
    me: Seq<char>,
    last_hosted: Option<u64>,
    recovered: bool,
    epoch: u64,
)
    ensures
        ({
            let hosting = lead.host is Some && (lead.host->0)@ == me;
            let r = admission(lead, me, last_hosted, recovered);
            &&& r == Ok::<u64, HostedError>(epoch) <==> hosting && recovered && epoch == lead.epoch
            &&& r == Err::<u64, HostedError>(HostedError::Recovering) <==> hosting && !recovered
            &&& r == Err::<u64, HostedError>(HostedError::Deposed { epoch }) <==> !hosting
                && last_hosted == Some(epoch)
            &&& r == Err::<u64, HostedError>(
                HostedError::NotHost { epoch: lead.epoch, host: lead.host },
            ) <==> !hosting && last_hosted is None
        }),
{
}

/// A write is taken exactly where the leadership names this node as host and
/// recovery does not stand in the way: there is no roster, recovery latched at
/// this very epoch, or the rule is met now. Asking changes the three latches
/// alone.
pub proof fn a_write_is_taken_by_a_recovered_host(model: WritesModel, group: GroupView)
    ensures
        ({
            let lead = group.leadership;
            let hosting = lead.host is Some && (lead.host->0)@ == model.me;
            let now = model.asked(group);
            &&& model.verdict(group) is Ok <==> hosting && (model.voters is None
                || model.recovered_at == Some(lead.epoch) || model.covers_recovery(
                group,
                lead.epoch,
            ))
            &&& model.verdict(group) matches Ok(epoch) ==> epoch == lead.epoch
            &&& hosting && model.verdict(group) is Err ==> model.verdict(group) == Err::<
                u64,
                HostedError,
            >(HostedError::Recovering)
            &&& !hosting && model.last_hosted is Some ==> model.verdict(group) == Err::<
                u64,
                HostedError,
            >(HostedError::Deposed { epoch: model.last_hosted->0 })
            &&& !hosting && model.last_hosted is None ==> model.verdict(group) == Err::<
                u64,
                HostedError,
            >(HostedError::NotHost { epoch: lead.epoch, host: lead.host })
            &&& now.last_hosted == (if hosting {
                Some(lead.epoch)
            } else {
                model.last_hosted
            })
            &&& now.recovered_at == (if model.voters is Some && model.verdict(group) is Ok {
                Some(lead.epoch)
            } else {
                model.recovered_at
            })
            &&& now.serving == (if model.verdict(group) is Ok && lead.epoch > model.serving {
                lead.epoch
            } else {
                model.serving
            })
            &&& now == (WritesModel {
                last_hosted: now.last_hosted,
                recovered_at: now.recovered_at,
                serving: now.serving,
                ..model
            })
        }),
{
}

/// Whether `member` publishes a ledger under `key`, stamped with exactly the
/// write's epoch, whose watermark for `host` has reached the write.
pub open spec fn has_applied_under(
    group: GroupView,
    member: Seq<char>,
    key: Seq<char>,
    host: Seq<char>,
    token: WriteToken,
) -> bool {
    group.entry(member, key) matches Some(bytes) && (crate::hosted::ledger::parse_ledger(
        bytes,
    ) matches Some(ledger) && ledger.stamp == token.epoch && ledger.applied.contains_key(host) && (
    ledger.applied[host].epoch > token.epoch || (ledger.applied[host].epoch == token.epoch
        && ledger.applied[host].seq >= token.seq)))
}

proof fn lemma_selected(
    group: GroupView,
    me: Seq<char>,
    key: Seq<char>,
    rows: Seq<(Seq<char>, Status)>,
)
    ensures
        ({
            let view = selected_states(group, me, key, rows);
            &&& forall|i: int|
                0 <= i < view.len() ==> {
                    let state = #[trigger] view[i];
                    &&& state.alive
                    &&& state.member != me
                    &&& group.capable(state.member, CAP_HOSTED@)
                    &&& rows.contains((state.member, Status::Alive))
                    &&& state.reading == crate::hosted::ledger::reading_of(
                        group,
                        state.member,
                        key,
                    )
                }
            &&& forall|j: int|
                0 <= j < rows.len() && (#[trigger] rows[j]).1 == Status::Alive && rows[j].0 != me
                    && group.capable(rows[j].0, CAP_HOSTED@) ==> exists|i: int|
                    0 <= i < view.len() && (#[trigger] view[i]).member == rows[j].0
        }),
    decreases rows.len(),
{
    if rows.len() > 0 {
        let init = rows.drop_last();
        let n = rows.len() - 1;
        let before = selected_states(group, me, key, init);
        let view = selected_states(group, me, key, rows);
        lemma_selected(group, me, key, init);
        assert forall|i: int| 0 <= i < view.len() implies {
            let state = #[trigger] view[i];
            &&& state.alive
            &&& state.member != me
            &&& group.capable(state.member, CAP_HOSTED@)
            &&& rows.contains((state.member, Status::Alive))
            &&& state.reading == crate::hosted::ledger::reading_of(group, state.member, key)
        } by {
            if i < before.len() {
                assert(view[i] == before[i]);
                let j = choose|j: int|
                    0 <= j < init.len() && init[j] == (before[i].member, Status::Alive);
                assert(rows[j] == init[j]);
            } else {
                assert(rows[n] == (view[i].member, Status::Alive));
            }
        }
        assert forall|j: int|
            0 <= j < rows.len() && (#[trigger] rows[j]).1 == Status::Alive && rows[j].0 != me
                && group.capable(rows[j].0, CAP_HOSTED@) implies exists|i: int|
            0 <= i < view.len() && (#[trigger] view[i]).member == rows[j].0 by {
            if j < n {
                assert(init[j] == rows[j]);
                let i = choose|i: int|
                    0 <= i < before.len() && (#[trigger] before[i]).member == init[j].0;
                assert(view[i] == before[i]);
            } else {
                assert(view[view.len() - 1].member == rows[j].0);
            }
        }
    }
}

/// A wait for everyone ends in a commit exactly when every node but this one
/// that the member table shows alive and that advertises the hosted
/// capability publishes the write as applied, under the write's own epoch. A
/// member whose ledger is missing, or stamped with any other epoch, older or
/// newer, holds the write.
pub proof fn everyone_alive_has_applied(model: WritesModel, group: GroupView, token: WriteToken)
    requires
        crate::idmap::ascending(group.statuses.records()),
    ensures
        crate::hosted::commit::committed(
            model.voters_for(group, Commit::AllApplied),
            model.me,
            token,
            Commit::AllApplied,
        ) <==> forall|m: Seq<char>|
            m != model.me && #[trigger] group.statuses@.contains_key(m) && group.statuses@[m]
                == Status::Alive && group.capable(m, CAP_HOSTED@) ==> has_applied_under(
                group,
                m,
                ledger_key(model.name),
                model.me,
                token,
            ),
{
    let rows = group.statuses.records();
    let key = ledger_key(model.name);
    let view = model.voters_for(group, Commit::AllApplied);
    lemma_selected(group, model.me, key, rows);
    crate::idmap::lemma_map_of(rows);
    crate::hosted::commit::all_applied_is_everyone_alive(view, model.me, token);
    if crate::hosted::commit::committed(view, model.me, token, Commit::AllApplied) {
        assert forall|m: Seq<char>|
            m != model.me && #[trigger] group.statuses@.contains_key(m) && group.statuses@[m]
                == Status::Alive && group.capable(m, CAP_HOSTED@) implies has_applied_under(
            group,
            m,
            key,
            model.me,
            token,
        ) by {
            let j = choose|j: int| 0 <= j < rows.len() && (#[trigger] rows[j]).0 == m;
            assert(rows[j].1 == Status::Alive);
            let i = choose|i: int| 0 <= i < view.len() && (#[trigger] view[i]).member == rows[j].0;
            assert(view[i].alive);
            crate::hosted::commit::who_counts(view[i], model.me, token);
        }
    }
    if forall|m: Seq<char>|
        m != model.me && #[trigger] group.statuses@.contains_key(m) && group.statuses@[m]
            == Status::Alive && group.capable(m, CAP_HOSTED@) ==> has_applied_under(
            group,
            m,
            key,
            model.me,
            token,
        ) {
        assert forall|i: int| 0 <= i < view.len() && (
        #[trigger] view[i]).alive implies crate::hosted::commit::counts(
            view[i],
            model.me,
            token,
        ) by {
            let m = view[i].member;
            let j = choose|j: int| 0 <= j < rows.len() && rows[j] == (m, Status::Alive);
            assert(rows[j].0 == m);
            assert(group.statuses@.contains_key(m));
            assert(has_applied_under(group, m, key, model.me, token));
            crate::hosted::commit::who_counts(view[i], model.me, token);
        }
    }
}

/// The seats of a roster whose voters publish the write as applied under its
/// own epoch.
pub open spec fn seats_applied(
    group: GroupView,
    voters: Seq<NodeId>,
    key: Seq<char>,
    host: Seq<char>,
    token: WriteToken,
) -> Set<int> {
    Set::new(
        |i: int| 0 <= i < voters.len() && has_applied_under(group, voters[i]@, key, host, token),
    )
}

/// A wait for a quorum ends in a commit exactly when more than half of the
/// whole static roster, whoever of it is alive, publishes the write as applied
/// under the write's own epoch. Without a roster it never does.
pub proof fn a_quorum_of_the_roster_has_applied(
    model: WritesModel,
    group: GroupView,
    token: WriteToken,
)
    ensures
        crate::hosted::commit::committed(
            model.voters_for(group, Commit::QuorumApplied),
            model.me,
            token,
            Commit::QuorumApplied,
        ) <==> (model.voters matches Some(voters) && 2 * seats_applied(
            group,
            voters,
            ledger_key(model.name),
            model.me,
            token,
        ).len() > voters.len()),
{
    let key = ledger_key(model.name);
    let view = model.voters_for(group, Commit::QuorumApplied);
    let p = |m: VoterState| crate::hosted::commit::counts(m, model.me, token);
    crate::hosted::commit::a_quorum_is_a_majority_of_the_roster(view, model.me, token);
    crate::hosted::commit::a_tally_counts_seats(view, p);
    if let Some(voters) = model.voters {
        assert(crate::hosted::commit::seats(view, p) =~= seats_applied(
            group,
            voters,
            key,
            model.me,
            token,
        )) by {
            assert forall|i: int| 0 <= i < voters.len() implies (p(#[trigger] view[i])
                <==> has_applied_under(group, voters[i]@, key, model.me, token)) by {
                crate::hosted::commit::who_counts(view[i], model.me, token);
            }
        }
    }
}

/// Recovery is met exactly when more than half of the whole static roster,
/// whoever of it is alive, publishes a ledger stamped at the epoch or past it,
/// and this node's own ledger reaches every watermark that any ledger so
/// stamped names.
pub proof fn recovery_reads_the_whole_roster(model: WritesModel, group: GroupView, epoch: u64)
    requires
        model.voters is Some,
    ensures
        ({
            let voters = model.voters->0;
            let own = (model.ledger->0).applied;
            let fresh = Set::new(
                |i: int|
                    0 <= i < voters.len() && (crate::hosted::ledger::reading_of(
                        group,
                        voters[i]@,
                        ledger_key(model.name),
                    ) matches Some(ledger) && ledger.stamp >= epoch),
            );
            model.covers_recovery(group, epoch) <==> 2 * fresh.len() > voters.len() && forall|
                i: int,
                writer: Seq<char>,
            |
                #![trigger (crate::hosted::ledger::reading_of(group, voters[i]@, ledger_key(model.name))->0).applied.contains_key(writer)]
                fresh.contains(i) && (crate::hosted::ledger::reading_of(
                    group,
                    voters[i]@,
                    ledger_key(model.name),
                )->0).applied.contains_key(writer) ==> {
                    let named = (crate::hosted::ledger::reading_of(
                        group,
                        voters[i]@,
                        ledger_key(model.name),
                    )->0).applied[writer];
                    own.contains_key(writer) && (own[writer].epoch > named.epoch || (
                    own[writer].epoch == named.epoch && own[writer].seq >= named.seq))
                }
        }),
{
    let voters = model.voters->0;
    let key = ledger_key(model.name);
    let own = (model.ledger->0).applied;
    let view = roster_states(group, voters, key);
    let fresh = Set::new(
        |i: int|
            0 <= i < voters.len() && (crate::hosted::ledger::reading_of(
                group,
                voters[i]@,
                key,
            ) matches Some(ledger) && ledger.stamp >= epoch),
    );
    crate::hosted::commit::a_fresh_majority_is_a_set_of_seats(view, epoch);
    crate::hosted::recovery::completeness_covers_every_fresh_reading(epoch, view, own);
    assert(fresh =~= Set::new(
        |i: int|
            0 <= i < view.len() && (view[i].reading matches Some(reading) && reading.stamp
                >= epoch),
    ));
    assert forall|i: int| 0 <= i < voters.len() implies (#[trigger] view[i]).reading
        == crate::hosted::ledger::reading_of(group, voters[i]@, key) by {}
    if model.covers_recovery(group, epoch) {
        assert forall|i: int, writer: Seq<char>|
            #![trigger (crate::hosted::ledger::reading_of(group, voters[i]@, key)->0).applied.contains_key(writer)]
            fresh.contains(i) && (crate::hosted::ledger::reading_of(
                group,
                voters[i]@,
                key,
            )->0).applied.contains_key(writer) implies {
            let named = (crate::hosted::ledger::reading_of(
                group,
                voters[i]@,
                key,
            )->0).applied[writer];
            own.contains_key(writer) && (own[writer].epoch > named.epoch || (own[writer].epoch
                == named.epoch && own[writer].seq >= named.seq))
        } by {
            assert(view[i].reading == crate::hosted::ledger::reading_of(group, voters[i]@, key));
            assert((view[i].reading->0).applied.contains_key(writer));
        }
    } else if crate::hosted::commit::fresh_majority(view, epoch) {
        let (i, writer) = choose|i: int, writer: Seq<char>|
            #![trigger (view[i].reading->0).applied.contains_key(writer)]
            0 <= i < view.len() && view[i].reading is Some && (view[i].reading->0).stamp >= epoch
                && (view[i].reading->0).applied.contains_key(writer) && !(own.contains_key(writer)
                && (own[writer].epoch > (view[i].reading->0).applied[writer].epoch || (
            own[writer].epoch == (view[i].reading->0).applied[writer].epoch && own[writer].seq >= (
            view[i].reading->0).applied[writer].seq)));
        assert(view[i].reading == crate::hosted::ledger::reading_of(group, voters[i]@, key));
        assert(fresh.contains(i));
        assert((crate::hosted::ledger::reading_of(
            group,
            voters[i]@,
            key,
        )->0).applied.contains_key(writer));
    }
}

/// Once recovery has latched for an epoch it stays latched for as long as this
/// node holds that epoch, whatever its peers publish later.
pub proof fn the_gate_latches(model: WritesModel, now: GroupView, later: GroupView)
    requires
        model.voters is Some,
        model.verdict(now) is Ok,
        is_host(later.leadership, model.me),
        later.leadership.epoch == now.leadership.epoch,
    ensures
        model.asked(now).verdict(later) == model.verdict(now),
{
}

/// Admission cuts the predecessor: once a write has been admitted at an epoch,
/// every later turn of a bound subscriber hands out nothing from below it,
/// whenever the subscriber was bound and whatever is asked in between. A host
/// that is still recovering cuts nothing new.
pub proof fn admission_cuts_the_predecessor<K>(
    model: WritesModel,
    now: GroupView,
    later: Seq<GroupView>,
    reads: ReadsView<K>,
    lead: Leadership,
    turn: Turn<K>,
    after: ReadsView<K>,
)
    requires
        reads.lineage.wf(),
        reads.bound,
        reads.turned(lead, asked_all(model.asked(now), later).serving, turn, after),
    ensures
        model.verdict(now) matches Ok(epoch) ==> (turn matches Turn::Event(read)
            ==> crate::hosted::lineage::position_of(read) matches Some(token) ==> token.epoch
            >= epoch),
        model.verdict(now) is Err ==> model.asked(now).serving == model.serving,
{
    lemma_asking_only_raises(model.asked(now), later);
    crate::hosted::reads::a_serving_host_never_reads_its_predecessor(
        reads,
        lead,
        asked_all(model.asked(now), later).serving,
        turn,
        after,
    );
}

/// The write path once the verdict has been asked for on each of `groups`.
pub open spec fn asked_all(model: WritesModel, groups: Seq<GroupView>) -> WritesModel
    decreases groups.len(),
{
    if groups.len() == 0 {
        model
    } else {
        asked_all(model, groups.drop_last()).asked(groups.last())
    }
}

proof fn lemma_asking_only_raises(model: WritesModel, groups: Seq<GroupView>)
    ensures
        asked_all(model, groups).serving >= model.serving,
    decreases groups.len(),
{
    if groups.len() > 0 {
        lemma_asking_only_raises(model, groups.drop_last());
        asking_only_latches(asked_all(model, groups.drop_last()), groups.last());
    }
}

/// A node that once hosted and no longer does is told so, never redirected.
pub proof fn a_fenced_host_is_told(model: WritesModel, now: GroupView, later: GroupView)
    requires
        is_host(now.leadership, model.me),
        !is_host(later.leadership, model.me),
    ensures
        model.asked(now).verdict(later) == Err::<u64, HostedError>(
            HostedError::Deposed { epoch: now.leadership.epoch },
        ),
{
}

/// What a published write hands back: its token, and the writes to carry out.
#[derive(Debug)]
pub struct Published {
    /// The write's token.
    pub token: WriteToken,
    /// The feed's new advertisement.
    pub feed: EntryWrite,
    /// In the committed regime, the ledger's new advertisement when it moved.
    pub ledger: Option<EntryWrite>,
}

/// One write that a write path has taken: what it was asked with, what it
/// handed back, and what it knew before and after.
pub struct Taken {
    pub before: WritesModel,
    pub group: GroupView,
    pub op: Seq<u8>,
    pub token: WriteToken,
    pub advertised: EntryWrite,
    pub after: WritesModel,
}

impl Taken {
    /// Whether this is how the write path takes a write.
    pub open spec fn took(self) -> bool {
        let epoch = self.group.leadership.epoch;
        let feed = self.before.feed_for(epoch);
        let grown = FeedView { ring: feed.ring.pushed(self.op), ..feed };
        &&& self.before.verdict(self.group) == Ok::<u64, HostedError>(epoch)
        &&& self.token.epoch == epoch
        &&& self.token.seq == feed.ring.end()
        &&& crate::feed::advertises(self.advertised, grown)
        &&& self.after.feed == Some(grown)
        &&& self.after.feed_epoch == epoch
        &&& self.after.name == self.before.name
        &&& self.after.capacity == self.before.capacity
        &&& self.after.max_frame_bytes == self.before.max_frame_bytes
    }
}

/// Whether nothing was published between two states of a write path: asking,
/// recording, seeding and refreshing leave the feed alone.
pub open spec fn feed_kept(earlier: WritesModel, later: WritesModel) -> bool {
    &&& later.feed == earlier.feed
    &&& later.feed_epoch == earlier.feed_epoch
    &&& later.name == earlier.name
    &&& later.capacity == earlier.capacity
    &&& later.max_frame_bytes == earlier.max_frame_bytes
}

/// Whether `run` is what one write path took while it hosted at `epoch`, from
/// its first write there on.
pub open spec fn hostship(epoch: u64, run: Seq<Taken>) -> bool {
    &&& run.len() < u64::MAX
    &&& forall|i: int|
        0 <= i < run.len() ==> (#[trigger] run[i]).took() && run[i].group.leadership.epoch == epoch
    &&& forall|i: int|
        1 <= i < run.len() ==> feed_kept(run[i - 1].after, (#[trigger] run[i]).before)
    &&& run.len() > 0 ==> {
        let first = run[0].before;
        &&& first.feed is None || first.feed_epoch != epoch
        &&& first.capacity >= 1
    }
}

/// The writes of a run from `a` up to `b`.
pub open spec fn ops_of(run: Seq<Taken>, a: int, b: int) -> Seq<Seq<u8>> {
    Seq::new((b - a) as nat, |k: int| run[a + k].op)
}

/// Whether a window of writes is too long for a capacity, or too large on the
/// wire for a frame budget and more than one write.
pub open spec fn outgrows(window: Seq<Seq<u8>>, capacity: nat, max_frame_bytes: nat) -> bool {
    window.len() > capacity || (window.len() > 1 && 20 + crate::wire::keys_size(window)
        > max_frame_bytes)
}

/// The writes of a hostship count from one: the first gets the number 1 and
/// each later one the next, so that no two share a token. Each advertisement
/// is a frame of that hostship which ends with the write just taken and keeps
/// the earlier ones under their own numbers; what it leaves out could not
/// have stayed within the capacity and the frame budget.
pub proof fn a_hostship_counts_its_writes(epoch: u64, run: Seq<Taken>, i: int)
    requires
        hostship(epoch, run),
        0 <= i < run.len(),
    ensures
        run[i].token.epoch == epoch,
        run[i].token.seq == i + 1,
        run[i].after.capacity == run[0].before.capacity,
        run[i].after.max_frame_bytes == run[0].before.max_frame_bytes,
        run[i].after.name == run[0].before.name,
        run[i].after.feed_epoch == epoch,
        run[i].after.feed is Some,
        ({
            let feed = run[i].after.feed->0;
            let ring = feed.ring;
            &&& ring.epoch == epoch
            &&& 1 <= ring.first_seq <= i + 1
            &&& ring.keys == ops_of(run, ring.first_seq - 1, i + 1)
            &&& ring.capacity == run[0].before.capacity
            &&& ring.max_frame_bytes == run[0].before.max_frame_bytes
            &&& feed.key == feed_key(run[0].before.name)
            &&& run[i].advertised.key@ == feed_key(run[0].before.name)
            &&& run[i].advertised.value@ == (FrameView {
                epoch,
                first_seq: ring.first_seq as u64,
                keys: ops_of(run, ring.first_seq - 1, i + 1),
            }).bytes()
            &&& run[i].advertised.ttl_ms is None
            &&& forall|d: int|
                0 <= d < ring.first_seq - 1 ==> outgrows(
                    #[trigger] ops_of(run, d, i + 1),
                    ring.capacity,
                    ring.max_frame_bytes,
                )
        }),
    decreases i,
{
    let t = run[i];
    assert(t.took());
    let before = t.before.feed_for(epoch);
    let was = before.ring;
    let start = run[0].before;
    if i > 0 {
        a_hostship_counts_its_writes(epoch, run, i - 1);
        assert(feed_kept(run[i - 1].after, t.before));
    } else {
        assert(was.keys =~= ops_of(run, 0, 0));
    }
    assert(was.epoch == epoch && was.capacity == start.capacity && was.max_frame_bytes
        == start.max_frame_bytes && was.end() == i + 1);
    lemma_one_more(run, was, i);
}

proof fn lemma_one_more(run: Seq<Taken>, was: RingView, i: int)
    requires
        0 <= i < run.len(),
        1 <= was.first_seq,
        was.end() == i + 1,
        was.capacity >= 1,
        was.keys == ops_of(run, was.first_seq - 1, i),
        forall|d: int|
            0 <= d < was.first_seq - 1 ==> outgrows(
                #[trigger] ops_of(run, d, i),
                was.capacity,
                was.max_frame_bytes,
            ),
    ensures
        ({
            let now = was.pushed(run[i].op);
            &&& now.epoch == was.epoch
            &&& now.capacity == was.capacity
            &&& now.max_frame_bytes == was.max_frame_bytes
            &&& 1 <= now.first_seq <= i + 1
            &&& now.end() == i + 2
            &&& now.keys == ops_of(run, now.first_seq - 1, i + 1)
            &&& forall|d: int|
                0 <= d < now.first_seq - 1 ==> outgrows(
                    #[trigger] ops_of(run, d, i + 1),
                    was.capacity,
                    was.max_frame_bytes,
                )
        }),
{
    let op = run[i].op;
    let now = was.pushed(op);
    let all = was.keys.push(op);
    crate::feed::a_push_keeps_the_newest_window(was, op);
    assert(all =~= ops_of(run, was.first_seq - 1, i + 1));
    assert(now.keys =~= ops_of(run, now.first_seq - 1, i + 1)) by {
        assert forall|k: int| 0 <= k < now.keys.len() implies now.keys[k] == ops_of(
            run,
            now.first_seq - 1,
            i + 1,
        )[k] by {
            if k < now.keys.len() - 1 {
                let s = now.first_seq + k;
                assert(now.keys[s - now.first_seq] == was.keys[s - was.first_seq]);
            }
        }
    }
    assert forall|d: int| 0 <= d < now.first_seq - 1 implies outgrows(
        #[trigger] ops_of(run, d, i + 1),
        was.capacity,
        was.max_frame_bytes,
    ) by {
        let longer = ops_of(run, d, i + 1);
        if d < was.first_seq - 1 {
            let shorter = ops_of(run, d, i);
            crate::feed::a_window_takes_what_its_writes_take(shorter, op);
            assert(longer =~= shorter.push(op));
        } else {
            let k = d - (was.first_seq - 1);
            assert(longer =~= all.subrange(k, all.len() as int));
            assert(!was.admits(all.subrange(k, (was.keys.len() + 1) as int)));
        }
    }
}

/// No two writes of a hostship share a token, and their tokens ascend in the
/// order they were taken in.
pub proof fn no_two_writes_share_a_token(epoch: u64, run: Seq<Taken>, i: int, j: int)
    requires
        hostship(epoch, run),
        0 <= i < j < run.len(),
    ensures
        run[i].token.epoch == run[j].token.epoch,
        run[i].token.seq < run[j].token.seq,
        run[i].token != run[j].token,
{
    a_hostship_counts_its_writes(epoch, run, i);
    a_hostship_counts_its_writes(epoch, run, j);
}

/// The committed regime's two couplings: the roster the rules are counted
/// over, and this node's own applied state.
#[derive(Debug)]
struct Committed {
    voters: Vec<NodeId>,
    ledger: CommitLedger,
}

/// This node's participation in one hosted write path.
#[derive(Debug)]
pub struct HostedWrites {
    me: NodeId,
    name: String,
    feed_name: String,
    capacity: usize,
    max_frame_bytes: usize,
    committed: Option<Committed>,
    serving: u64,
    feed: Option<WriteFeed>,
    feed_epoch: u64,
    last_hosted: Option<u64>,
    recovered_at: Option<u64>,
}

impl View for HostedWrites {
    type V = WritesModel;

    closed spec fn view(&self) -> WritesModel {
        WritesModel {
            me: self.me@,
            name: self.name@,
            capacity: self.capacity as nat,
            max_frame_bytes: self.max_frame_bytes as nat,
            voters: match self.committed {
                Some(c) => Some(c.voters@),
                None => None,
            },
            ledger: match self.committed {
                Some(c) => Some(c.ledger@),
                None => None,
            },
            serving: self.serving,
            feed: match self.feed {
                Some(feed) => Some(feed@),
                None => None,
            },
            feed_epoch: self.feed_epoch,
            last_hosted: self.last_hosted,
            recovered_at: self.recovered_at,
        }
    }
}

/// A write path that has published nothing and hosted nothing.
pub open spec fn fresh_writes(
    me: Seq<char>,
    name: Seq<char>,
    capacity: nat,
    max_frame_bytes: nat,
) -> WritesModel {
    WritesModel {
        me,
        name,
        capacity,
        max_frame_bytes,
        voters: None,
        ledger: None,
        serving: 0,
        feed: None,
        feed_epoch: 0,
        last_hosted: None,
        recovered_at: None,
    }
}

impl HostedWrites {
    /// The write path is put together as its parts need it.
    pub closed spec fn wf(&self) -> bool {
        &&& self@.wf()
        &&& self.capacity >= 1
        &&& self.feed_name@ == crate::wire::scoped_key(FEED_NAME@, self.name@)
        &&& self.feed matches Some(feed) ==> feed.wf()
        &&& self.committed matches Some(c) ==> c.ledger.key() == ledger_key(self.name@)
    }

    /// What a well-formed write path guarantees of its parts.
    pub proof fn lemma_wf(&self)
        requires
            self.wf(),
        ensures
            self@.wf(),
            self@.capacity >= 1,
    {
    }

    /// The default hosted write path without a recovery gate: no ledger and
    /// no roster.
    pub fn new(me: NodeId, capacity: usize, max_frame_bytes: usize) -> (r: HostedWrites)
        requires
            capacity >= 1,
        ensures
            r.wf(),
            r@ == fresh_writes(me@, Seq::empty(), capacity as nat, max_frame_bytes as nat),
    {
        proof {
            reveal_strlit("");
            assert(""@ =~= Seq::<char>::empty());
        }
        HostedWrites::named("", me, capacity, max_frame_bytes)
    }

    /// A named hosted write path without a recovery gate.
    pub fn named(name: &str, me: NodeId, capacity: usize, max_frame_bytes: usize) -> (r:
        HostedWrites)
        requires
            capacity >= 1,
        ensures
            r.wf(),
            r@ == fresh_writes(me@, name@, capacity as nat, max_frame_bytes as nat),
    {
        HostedWrites {
            me,
            name: name.to_owned(),
            feed_name: hosted_feed_name(name),
            capacity,
            max_frame_bytes,
            committed: None,
            serving: 0,
            feed: None,
            feed_epoch: 0,
            last_hosted: None,
            recovered_at: None,
        }
    }

    /// The default hosted write path in the committed regime: the recovery
    /// gate is armed, and the quorum level is counted over the group's static
    /// voter roster. `ledger` is this node's own.
    pub fn committed(
        mode: &GroupMode,
        me: NodeId,
        capacity: usize,
        max_frame_bytes: usize,
        ledger: CommitLedger,
    ) -> (r: Result<HostedWrites, HostedSetupError>)
        requires
            capacity >= 1,
        ensures
            committed_as(r, *mode, me@, Seq::empty(), capacity, max_frame_bytes, ledger),
    {
        proof {
            reveal_strlit("");
            assert(""@ =~= Seq::<char>::empty());
        }
        HostedWrites::named_committed("", mode, me, capacity, max_frame_bytes, ledger)
    }

    /// [`committed`](Self::committed) for a named write path. `ledger` must be
    /// the one of the same name.
    pub fn named_committed(
        name: &str,
        mode: &GroupMode,
        me: NodeId,
        capacity: usize,
        max_frame_bytes: usize,
        ledger: CommitLedger,
    ) -> (r: Result<HostedWrites, HostedSetupError>)
        requires
            capacity >= 1,
        ensures
            committed_as(r, *mode, me@, name@, capacity, max_frame_bytes, ledger),
    {
        let voters: Vec<NodeId> = match quorum_roster(mode) {
            Ok(voters) => voters,
            Err(e) => return Err(e),
        };
        let expected: String = crate::hosted::ledger::ledger_entry_key(name);
        if !crate::group::same_text(ledger.entry_key(), expected.as_str()) {
            return Err(
                HostedSetupError::LedgerMismatch {
                    expected,
                    found: ledger.entry_key().to_owned(),
                },
            );
        }
        let mut path: HostedWrites = HostedWrites::named(name, me, capacity, max_frame_bytes);
        path.committed = Some(Committed { voters, ledger });
        Ok(path)
    }

    /// The fencing token for this node's current authority: `Some` exactly
    /// when a write would be taken.
    pub fn fence(&mut self, group: &GroupView) -> (r: Option<Fence>)
        requires
            old(self).wf(),
        ensures
            final(self).wf(),
            final(self)@ == old(self)@.asked(*group),
            match r {
                Some(fence) => old(self)@.verdict(*group) == Ok::<u64, HostedError>(fence.epoch)
                    && fence.host@ == old(self)@.me,
                None => old(self)@.verdict(*group) is Err,
            },
    {
        match self.admission_now(group) {
            Ok(epoch) => Some(Fence { epoch, host: self.me.clone() }),
            Err(_) => None,
        }
    }

    /// Why this node is not serving yet: the recovery rule's verdict for the
    /// epoch it currently holds, without latching it. `None` when the
    /// question does not arise.
    pub fn recovery(&self, group: &GroupView) -> (r: Option<Completeness>)
        requires
            self.wf(),
        ensures
            r is Some <==> self@.voters is Some && is_host(group.leadership, self@.me),
            r matches Some(c) ==> {
                let epoch = group.leadership.epoch;
                &&& c is Complete <==> self@.gate_open(*group, epoch)
                &&& c matches Completeness::Recovering { needed } ==> {
                    let view = roster_states(*group, self@.voters->0, ledger_key(self@.name));
                    let own = (self@.ledger->0).applied;
                    &&& crate::idmap::ascending(crate::hosted::recovery::pairs(needed@))
                    &&& crate::idmap::map_of(crate::hosted::recovery::pairs(needed@)) == (
                    if crate::hosted::commit::fresh_majority(view, epoch) {
                        crate::hosted::recovery::missing(
                            crate::hosted::recovery::targets(view, epoch),
                            own,
                        )
                    } else {
                        Map::empty()
                    })
                }
            },
    {
        match &self.committed {
            None => None,
            Some(committed) => {
                if !leads(&group.leadership, &self.me) {
                    return None;
                }
                if self.recovered_at == Some(group.leadership.epoch) {
                    return Some(Completeness::Complete);
                }
                let view: Vec<LedgerView> = self.roster_view(group, &committed.voters);
                let own: Watermarks = committed.ledger.watermarks();
                Some(CompletenessCore::step(group.leadership.epoch, view.as_slice(), &own))
            },
        }
    }

    /// Whether the feed at hand can take one more write of `len` bytes: its
    /// numbers and its byte count must not run out.
    pub fn takes(&self, group: &GroupView, len: usize) -> (r: bool)
        requires
            self.wf(),
        ensures
            r == ({
                let ring = self@.feed_for(group.leadership.epoch).ring;
                ring.end() < u64::MAX && 4 + crate::wire::keys_size(ring.keys) + len <= usize::MAX
            }),
    {
        match &self.feed {
            Some(feed) if self.feed_epoch == group.leadership.epoch => feed.takes(len),
            _ => len <= usize::MAX - 4,
        }
    }

    /// Publishes an encoded write into this node's hosted feed. Its token's
    /// epoch is the leadership epoch. In the committed regime the write is
    /// also recorded into this node's own ledger, so it is to be called after
    /// the local durable write.
    pub fn publish(&mut self, group: &GroupView, op: Vec<u8>) -> (r: Result<
        Published,
        HostedError,
    >)
        requires
            old(self).wf(),
            ({
                let ring = old(self)@.feed_for(group.leadership.epoch).ring;
                &&& ring.end() < u64::MAX
                &&& 4 + crate::wire::keys_size(ring.keys) + op@.len() <= usize::MAX
            }),
        ensures
            final(self).wf(),
            match r {
                Err(e) => {
                    &&& old(self)@.verdict(*group) == Err::<u64, HostedError>(e)
                    &&& final(self)@ == old(self)@.asked(*group)
                },
                Ok(done) => {
                    let epoch = group.leadership.epoch;
                    let before = old(self)@.feed_for(epoch);
                    let feed = FeedView { ring: before.ring.pushed(op@), ..before };
                    &&& old(self)@.verdict(*group) == Ok::<u64, HostedError>(epoch)
                    &&& done.token == (WriteToken { epoch, seq: before.ring.end() as u64 })
                    &&& crate::feed::advertises(done.feed, feed)
                    &&& final(self)@ == (WritesModel {
                        feed: Some(feed),
                        feed_epoch: epoch,
                        ledger: match old(self)@.ledger {
                            Some(state) => Some(
                                state.folded(old(self)@.me, done.token, epoch),
                            ),
                            None => None,
                        },
                        ..old(self)@.asked(*group)
                    })
                    &&& match old(self)@.ledger {
                        None => done.ledger is None,
                        Some(state) => done.ledger is Some <==> (epoch > state.stamp
                            || crate::watermarks::mark(state.applied, old(self)@.me).below(
                            done.token,
                        )),
                    }
                    &&& done.ledger matches Some(w) ==> final(self).own_ledger() is Some
                        && (final(self).own_ledger()->0).advertises(w)
                    &&& (Taken {
                        before: old(self)@,
                        group: *group,
                        op: op@,
                        token: done.token,
                        advertised: done.feed,
                        after: final(self)@,
                    }).took()
                    &&& if old(self)@.feed is Some && old(self)@.feed_epoch == epoch {
                        done.token.seq == (old(self)@.feed->0).ring.end()
                    } else {
                        done.token.seq == 1
                    }
                },
            },
    {
        let epoch: u64 = match self.admission_now(group) {
            Ok(epoch) => epoch,
            Err(e) => return Err(e),
        };
        let mut feed: WriteFeed = self.take_feed(epoch);
        proof {
            feed.lemma_wf();
        }
        let (token, write) = feed.publish(op);
        self.feed = Some(feed);
        let ledger: Option<EntryWrite> = self.record_own(token, epoch);
        Ok(Published { token, feed: write, ledger })
    }

    /// The advertisement of the feed as it stands, once there is one.
    pub fn republish(&self) -> (r: Option<EntryWrite>)
        requires
            self.wf(),
        ensures
            match r {
                Some(w) => self@.feed matches Some(feed) && crate::feed::advertises(w, feed),
                None => self@.feed is None,
            },
    {
        match &self.feed {
            Some(feed) => Some(feed.republish()),
            None => None,
        }
    }

    /// This node's own ledger, in the committed regime.
    pub closed spec fn own_ledger(&self) -> Option<CommitLedger> {
        match self.committed {
            Some(c) => Some(c.ledger),
            None => None,
        }
    }

    /// One look of the wait for a published write's threshold. The rule is
    /// asked before the fence: a write whose majority has already closed is
    /// committed even if this node is being fenced out in the same instant.
    /// `None` while the wait goes on.
    pub fn await_commit(
        &self,
        group: &GroupView,
        token: WriteToken,
        level: Commit,
        expired: bool,
    ) -> (r: Option<CommitOutcome>)
        requires
            self.wf(),
        ensures
            ({
                let view = self@.voters_for(*group, level);
                let lead = group.leadership;
                if crate::hosted::commit::committed(view, self@.me, token, level) {
                    r == Some(CommitOutcome::Committed)
                } else if lead.epoch != token.epoch || !is_host(lead, self@.me) {
                    r == Some(CommitOutcome::Deposed { epoch: token.epoch })
                } else if expired {
                    r matches Some(CommitOutcome::TimedOut { waiting_on })
                        && crate::ids::in_order(waiting_on@) && crate::ids::names(
                        waiting_on@,
                    ).to_multiset() == crate::hosted::commit::lagging(
                        view,
                        self@.me,
                        token,
                        level,
                    ).to_multiset()
                } else {
                    r is None
                }
            }),
            level == Commit::Local ==> r == Some(CommitOutcome::Committed),
            level == Commit::AllApplied ==> (r == Some(CommitOutcome::Committed) <==> forall|
                m: Seq<char>,
            |
                m != self@.me && #[trigger] group.statuses@.contains_key(m) && group.statuses@[m]
                    == Status::Alive && group.capable(m, CAP_HOSTED@) ==> has_applied_under(
                    *group,
                    m,
                    ledger_key(self@.name),
                    self@.me,
                    token,
                )),
            level == Commit::QuorumApplied ==> (r == Some(CommitOutcome::Committed) <==> (
            self@.voters matches Some(voters) && 2 * seats_applied(
                *group,
                voters,
                ledger_key(self@.name),
                self@.me,
                token,
            ).len() > voters.len())),
    {
        let view: Vec<LedgerView> = self.ledger_views(group, level);
        proof {
            a_quorum_of_the_roster_has_applied(self@, *group, token);
            if level == Commit::AllApplied {
                everyone_alive_has_applied(self@, *group, token);
            }
        }
        match CommitCore::evaluate(view.as_slice(), &self.me, token, level) {
            CommitVerdict::Committed => Some(CommitOutcome::Committed),
            CommitVerdict::Pending { waiting_on } => {
                if group.leadership.epoch != token.epoch || !leads(&group.leadership, &self.me) {
                    Some(CommitOutcome::Deposed { epoch: token.epoch })
                } else if expired {
                    Some(CommitOutcome::TimedOut { waiting_on })
                } else {
                    None
                }
            },
        }
    }

    /// The admission verdict against the current leadership, arming both
    /// latches on the way through.
    fn admission_now(&mut self, group: &GroupView) -> (r: Result<u64, HostedError>)
        requires
            old(self).wf(),
        ensures
            final(self).wf(),
            final(self)@ == old(self)@.asked(*group),
            r == old(self)@.verdict(*group),
            final(self).feed == old(self).feed,
            final(self).committed == old(self).committed,
    {
        let hosting: bool = leads(&group.leadership, &self.me);
        let recovered: bool = !hosting || self.recovered_for(group, group.leadership.epoch);
        if hosting {
            self.last_hosted = Some(group.leadership.epoch);
        }
        let verdict: Result<u64, HostedError> = admission_verdict(
            &group.leadership,
            &self.me,
            self.last_hosted,
            recovered,
        );
        if let Ok(epoch) = &verdict {
            if *epoch > self.serving {
                self.serving = *epoch;
            }
        }
        verdict
    }

    /// Whether the recovery gate is open for `epoch`: always without a
    /// roster, and latched once open with one.
    fn recovered_for(&mut self, group: &GroupView, epoch: u64) -> (r: bool)
        requires
            old(self).wf(),
        ensures
            final(self).wf(),
            final(self).feed == old(self).feed,
            final(self).committed == old(self).committed,
            r == old(self)@.gate_open(*group, epoch),
            final(self)@ == (WritesModel {
                recovered_at: if old(self)@.voters is Some && r {
                    Some(epoch)
                } else {
                    old(self)@.recovered_at
                },
                ..old(self)@
            }),
    {
        let complete: bool = match &self.committed {
            None => return true,
            Some(committed) => {
                if self.recovered_at == Some(epoch) {
                    return true;
                }
                let view: Vec<LedgerView> = self.roster_view(group, &committed.voters);
                let own: Watermarks = committed.ledger.watermarks();
                CompletenessCore::step(epoch, view.as_slice(), &own).is_complete()
            },
        };
        if !complete {
            return false;
        }
        self.recovered_at = Some(epoch);
        true
    }

    fn ledger_views(&self, group: &GroupView, level: Commit) -> (r: Vec<LedgerView>)
        requires
            self.wf(),
        ensures
            crate::hosted::ledger::voters(r@) == self@.voters_for(*group, level),
            level == Commit::AllApplied ==> crate::idmap::ascending(group.statuses.records()),
    {
        match level {
            Commit::Local => no_views(),
            Commit::QuorumApplied => match &self.committed {
                Some(committed) => self.roster_view(group, &committed.voters),
                None => no_views(),
            },
            Commit::AllApplied => self.selected_view(group),
        }
    }

    /// The whole static voter roster, silent voters with no reading.
    fn roster_view(&self, group: &GroupView, voters: &Vec<NodeId>) -> (r: Vec<LedgerView>)
        ensures
            crate::hosted::ledger::voters(r@) == roster_states(
                *group,
                voters@,
                ledger_key(self@.name),
            ),
    {
        let mut out: Vec<LedgerView> = Vec::new();
        let ghost want = roster_states(*group, voters@, ledger_key(self@.name));
        let mut i: usize = 0;
        while i < voters.len()
            invariant
                i <= voters@.len(),
                out@.len() == i,
                want == roster_states(*group, voters@, ledger_key(self@.name)),
                forall|j: int| 0 <= j < i ==> (#[trigger] out@[j])@ == want[j],
            decreases voters@.len() - i,
        {
            let member: &NodeId = &voters[i];
            out.push(
                LedgerView {
                    member: member.clone(),
                    alive: group.is_alive(member),
                    reading: crate::hosted::ledger::commit_reading_named(
                        self.name.as_str(),
                        group,
                        member,
                    ),
                },
            );
            i = i + 1;
        }
        proof {
            assert(crate::hosted::ledger::voters(out@) =~= want);
        }
        out
    }

    /// Every other member believed alive that advertises the capability.
    fn selected_view(&self, group: &GroupView) -> (r: Vec<LedgerView>)
        ensures
            crate::hosted::ledger::voters(r@) == selected_states(
                *group,
                self@.me,
                ledger_key(self@.name),
                group.statuses.records(),
            ),
            crate::idmap::ascending(group.statuses.records()),
    {
        let mut out: Vec<LedgerView> = Vec::new();
        let n: usize = group.statuses.len();
        let ghost rows = group.statuses.records();
        let ghost key = ledger_key(self@.name);
        let mut i: usize = 0;
        proof {
            assert(crate::hosted::ledger::voters(out@) =~= Seq::<VoterState>::empty());
        }
        while i < n
            invariant
                i <= n,
                n == rows.len(),
                rows == group.statuses.records(),
                key == ledger_key(self@.name),
                crate::hosted::ledger::voters(out@) == selected_states(
                    *group,
                    self@.me,
                    key,
                    rows.subrange(0, i as int),
                ),
            decreases n - i,
        {
            let member: &NodeId = group.statuses.key_at(i);
            let status: Status = *group.statuses.value_at(i);
            proof {
                let part = rows.subrange(0, i + 1);
                assert(part.drop_last() =~= rows.subrange(0, i as int));
                assert(part.last() == rows[i as int]);
            }
            if status == Status::Alive && *member != self.me && group.node_has_capability(
                member,
                CAP_HOSTED,
            ) {
                let ghost was = crate::hosted::ledger::voters(out@);
                let seen = LedgerView {
                    member: member.clone(),
                    alive: true,
                    reading: crate::hosted::ledger::commit_reading_named(
                        self.name.as_str(),
                        group,
                        member,
                    ),
                };
                let ghost state = seen@;
                out.push(seen);
                proof {
                    assert(crate::hosted::ledger::voters(out@) =~= was.push(state));
                }
            }
            i = i + 1;
        }
        proof {
            assert(rows.subrange(0, i as int) =~= rows);
        }
        out
    }

    /// Takes out the feed that writes of `epoch` go to, fresh the first time
    /// this node hosts at it.
    fn take_feed(&mut self, epoch: u64) -> (feed: WriteFeed)
        requires
            old(self).wf(),
        ensures
            final(self).wf(),
            feed.wf(),
            feed@ == old(self)@.feed_for(epoch),
            final(self).committed == old(self).committed,
            final(self)@ == (WritesModel { feed: None, feed_epoch: epoch, ..old(self)@ }),
    {
        let mut slot: Option<WriteFeed> = None;
        std::mem::swap(&mut slot, &mut self.feed);
        let made_for: u64 = self.feed_epoch;
        self.feed_epoch = epoch;
        match slot {
            Some(feed) if made_for == epoch => feed,
            _ => WriteFeed::named(
                self.feed_name.as_str(),
                self.capacity,
                self.max_frame_bytes,
                epoch,
            ),
        }
    }

    /// Records this node's own write into its ledger, if it has one.
    fn record_own(&mut self, token: WriteToken, lead_epoch: u64) -> (r: Option<EntryWrite>)
        requires
            old(self).wf(),
        ensures
            final(self).wf(),
            final(self)@ == (WritesModel {
                ledger: match old(self)@.ledger {
                    Some(state) => Some(state.folded(old(self)@.me, token, lead_epoch)),
                    None => None,
                },
                ..old(self)@
            }),
            r is Some <==> (old(self)@.ledger matches Some(state) && (lead_epoch > state.stamp
                || crate::watermarks::mark(state.applied, old(self)@.me).below(token))),
            r matches Some(w) ==> final(self).own_ledger() is Some && (final(self).own_ledger()->0).advertises(w),
    {
        let me: NodeId = self.me.clone();
        self.record(&me, token, lead_epoch)
    }

    /// Binds `reads` to this write path, once and for good: its turns are
    /// taken through [`turn`](Self::turn) from now on, and each of them cuts
    /// its lineage at the epoch this node has been admitted to serve at by
    /// then.
    pub fn bind<K, F: Fn(&[u8]) -> Option<K>>(&self, reads: &mut HostedReads<K, F>)
        ensures
            final(reads).decoder() == old(reads).decoder(),
            final(reads)@ == (ReadsView { bound: true, ..old(reads)@ }),
    {
        reads.bind_service();
    }

    /// One turn of this node's own subscriber. A bound one is never handed an
    /// event of a hostship older than the one this node has been admitted to
    /// serve, however long after the binding that was.
    pub fn turn<K, F: Fn(&[u8]) -> Option<K>>(
        &self,
        reads: &mut HostedReads<K, F>,
        lead: &Leadership,
    ) -> (r: Turn<K>)
        requires
            old(reads)@.lineage.gaps + old(reads)@.lineage.held.len() <= u64::MAX,
        ensures
            final(reads).decoder() == old(reads).decoder(),
            old(reads)@.turned(*lead, self@.serving, r, final(reads)@),
            old(reads)@.lineage.wf() && old(reads)@.bound ==> (r matches Turn::Event(read)
                ==> crate::hosted::lineage::position_of(read) matches Some(token) ==> token.epoch
                >= self@.serving),
    {
        let r: Turn<K> = reads.turn_at(lead, self.serving);
        proof {
            if old(reads)@.lineage.wf() {
                crate::hosted::reads::a_serving_host_never_reads_its_predecessor(
                    old(reads)@,
                    *lead,
                    self@.serving,
                    r,
                    reads@,
                );
            }
        }
        r
    }

    /// The highest epoch this node has been admitted to serve at.
    pub fn serving(&self) -> (r: u64)
        ensures
            r == self@.serving,
    {
        self.serving
    }

    /// This node's own ledger, in the committed regime.
    pub fn ledger(&self) -> (r: Option<&CommitLedger>)
        ensures
            match r {
                Some(ledger) => self.own_ledger() == Some(*ledger) && self@.ledger == Some(
                    ledger@,
                ),
                None => self@.ledger is None,
            },
    {
        match &self.committed {
            Some(c) => Some(&c.ledger),
            None => None,
        }
    }

    /// Records into this node's own ledger that `writer`'s feed has been
    /// applied through `token`, handing back the ledger to publish when it
    /// moved. Without a ledger nothing happens.
    pub fn record(&mut self, writer: &NodeId, token: WriteToken, lead_epoch: u64) -> (r: Option<
        EntryWrite,
    >)
        requires
            old(self).wf(),
        ensures
            final(self).wf(),
            final(self)@ == (WritesModel {
                ledger: match old(self)@.ledger {
                    Some(state) => Some(state.folded(writer@, token, lead_epoch)),
                    None => None,
                },
                ..old(self)@
            }),
            r is Some <==> (old(self)@.ledger matches Some(state) && (lead_epoch > state.stamp
                || crate::watermarks::mark(state.applied, writer@).below(token))),
            r matches Some(w) ==> final(self).own_ledger() is Some && (final(self).own_ledger()->0).advertises(w),
    {
        let mut committed: Option<Committed> = None;
        std::mem::swap(&mut committed, &mut self.committed);
        match committed {
            None => None,
            Some(c) => {
                let mut c: Committed = c;
                let moved: Option<EntryWrite> = c.ledger.record(writer, token, lead_epoch);
                self.committed = Some(c);
                moved
            },
        }
    }

    /// Folds an installed snapshot into this node's own evidence: its ledger,
    /// when it has one, and the frontier its readers barrier on. Hands back
    /// the re-stamped ledger to publish. Nothing is lowered.
    pub fn seed(
        &mut self,
        receipt: &HandoffReceipt,
        frontier: &mut Frontier,
        lead_epoch: u64,
    ) -> (r: Option<EntryWrite>)
        requires
            old(self).wf(),
        ensures
            final(self).wf(),
            final(self)@ == (WritesModel {
                ledger: match old(self)@.ledger {
                    Some(state) => Some(
                        (LedgerState {
                            stamp: state.stamp,
                            applied: crate::watermarks::merged(state.applied, receipt@.covers),
                        }).restamped(lead_epoch),
                    ),
                    None => None,
                },
                ..old(self)@
            }),
            final(frontier)@ == crate::watermarks::merged(old(frontier)@, receipt@.covers),
            r is Some <==> old(self)@.ledger is Some,
            r matches Some(w) ==> final(self).own_ledger() is Some && (final(self).own_ledger()->0).advertises(w),
    {
        let mut committed: Option<Committed> = None;
        std::mem::swap(&mut committed, &mut self.committed);
        match committed {
            None => {
                frontier.absorb(&receipt.covers);
                None
            },
            Some(c) => {
                let mut c: Committed = c;
                let write: EntryWrite = Handoff::seed(
                    receipt,
                    &mut c.ledger,
                    frontier,
                    lead_epoch,
                );
                self.committed = Some(c);
                Some(write)
            },
        }
    }

    /// Stamps the leadership epoch into this node's own ledger, handing it
    /// back to publish.
    pub fn refresh(&mut self, lead_epoch: u64) -> (r: Option<EntryWrite>)
        requires
            old(self).wf(),
        ensures
            final(self).wf(),
            final(self)@ == (WritesModel {
                ledger: match old(self)@.ledger {
                    Some(state) => Some(state.restamped(lead_epoch)),
                    None => None,
                },
                ..old(self)@
            }),
            r is Some <==> old(self)@.ledger is Some,
            r matches Some(w) ==> final(self).own_ledger() is Some && (final(self).own_ledger()->0).advertises(w),
    {
        let mut committed: Option<Committed> = None;
        std::mem::swap(&mut committed, &mut self.committed);
        match committed {
            None => None,
            Some(c) => {
                let mut c: Committed = c;
                let write: EntryWrite = c.ledger.refresh(lead_epoch);
                self.committed = Some(c);
                Some(write)
            },
        }
    }
}

fn no_views() -> (r: Vec<LedgerView>)
    ensures
        crate::hosted::ledger::voters(r@) == Seq::<VoterState>::empty(),
{
    let out: Vec<LedgerView> = Vec::new();
    proof {
        assert(crate::hosted::ledger::voters(out@) =~= Seq::<VoterState>::empty());
    }
    out
}

/// Whether `r` is what making a committed write path comes to: the group must
/// be hosted with a static roster, and the ledger must be of the same name.
pub open spec fn committed_as(
    r: Result<HostedWrites, HostedSetupError>,
    mode: GroupMode,
    me: Seq<char>,
    name: Seq<char>,
    capacity: usize,
    max_frame_bytes: usize,
    ledger: CommitLedger,
) -> bool {
    match mode {
        GroupMode::Other => r == Err::<HostedWrites, HostedSetupError>(
            HostedSetupError::NotHosted,
        ),
        GroupMode::Hosted(Activation::Other) => r == Err::<HostedWrites, HostedSetupError>(
            HostedSetupError::NotQuorum,
        ),
        GroupMode::Hosted(Activation::Quorum { voters }) => if ledger.key() != ledger_key(name) {
            r matches Err(HostedSetupError::LedgerMismatch { expected, found }) && expected@
                == ledger_key(name) && found@ == ledger.key()
        } else {
            &&& r matches Ok(path)
            &&& path.wf()
            &&& path@ == (WritesModel {
                voters: Some(voters@),
                ledger: Some(ledger@),
                ..fresh_writes(me, name, capacity as nat, max_frame_bytes as nat)
            })
            &&& path.own_ledger() == Some(ledger)
        },
    }
}

/// A committed write path is made exactly of a hosted group with a static
/// roster and of the ledger of its own name; it starts with that roster and
/// that ledger, having hosted and published nothing.
pub proof fn a_committed_path_needs_its_roster_and_ledger(
    r: Result<HostedWrites, HostedSetupError>,
    mode: GroupMode,
    me: Seq<char>,
    name: Seq<char>,
    capacity: usize,
    max_frame_bytes: usize,
    ledger: CommitLedger,
)
    requires
        committed_as(r, mode, me, name, capacity, max_frame_bytes, ledger),
    ensures
        r is Ok <==> (mode matches GroupMode::Hosted(Activation::Quorum { .. })) && ledger.key()
            == crate::wire::scoped_key(LEDGER_KEY@, name),
        r == Err::<HostedWrites, HostedSetupError>(HostedSetupError::NotHosted) <==> mode is Other,
        r == Err::<HostedWrites, HostedSetupError>(HostedSetupError::NotQuorum) <==> (
        mode matches GroupMode::Hosted(Activation::Other)),
        r matches Ok(path) ==> {
            &&& mode matches GroupMode::Hosted(Activation::Quorum { voters }) && path@.voters
                == Some(voters@)
            &&& path@.ledger == Some(ledger@)
            &&& path@.me == me
            &&& path@.name == name
            &&& path@.capacity == capacity
            &&& path@.max_frame_bytes == max_frame_bytes
            &&& path@.feed is None
            &&& path@.serving == 0
            &&& path@.last_hosted is None
            &&& path@.recovered_at is None
        },
{
}

} // verus!
