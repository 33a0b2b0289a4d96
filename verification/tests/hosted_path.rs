use groupnet_consistency::group::{Entries, EntryWrite, GroupView, Leadership, Status};
use groupnet_consistency::hosted::ledger::ledger_entry_key;
use groupnet_consistency::hosted::reads::{leadership_signal, Turn};
use groupnet_consistency::hosted::writes::{quorum_roster, Activation, GroupMode};
use groupnet_consistency::hosted::{
    commit_applied_by, commit_reading, Commit, CommitLedger, CommitOutcome, Completeness,
    HostedError, HostedRead, HostedReads, HostedSetupError, HostedWrites, Watermarks, CAP_HOSTED,
};
use groupnet_consistency::peers::Signal;
use groupnet_consistency::{GroupId, NodeId, WriteToken};

fn node(name: &str) -> NodeId {
    NodeId::new(name)
}

fn token(epoch: u64, seq: u64) -> WriteToken {
    WriteToken { epoch, seq }
}

fn quorum(voters: &[&str]) -> GroupMode {
    GroupMode::Hosted(Activation::Quorum {
        voters: voters.iter().map(|v| node(v)).collect(),
    })
}

fn group(members: &[&str], epoch: u64, host: Option<&str>) -> GroupView {
    let mut group = GroupView::new(GroupId::new("g"));
    for member in members {
        group.statuses.insert(node(member), Status::Alive);
        group.members.push(node(member));
        group
            .capabilities
            .insert(node(member), vec![CAP_HOSTED.to_owned()]);
    }
    group.leadership = Leadership {
        epoch,
        host: host.map(node),
    };
    group
}

fn publish(group: &mut GroupView, from: &str, write: EntryWrite) {
    let mut entries = group
        .entries
        .remove(&node(from))
        .unwrap_or_else(Entries::new);
    entries.put(write.key, write.value);
    group.entries.insert(node(from), entries);
}

fn text(bytes: &[u8]) -> Option<String> {
    String::from_utf8(bytes.to_vec()).ok()
}

#[test]
fn a_committed_write_needs_a_majority_of_the_roster() {
    let mode = quorum(&["a", "b", "c"]);
    let mut path = HostedWrites::committed(&mode, node("a"), 8, usize::MAX, CommitLedger::new())
        .expect("a quorum group");
    let mut shown = group(&["a", "b", "c"], 5, Some("a"));
    assert_eq!(
        path.publish(&shown, b"op".to_vec()).err(),
        Some(HostedError::Recovering),
        "no fresh majority has been read"
    );
    assert_eq!(
        path.recovery(&shown),
        Some(Completeness::Recovering { needed: Vec::new() })
    );
    assert_eq!(path.serving(), 0);

    for voter in ["a", "b"] {
        publish(&mut shown, voter, CommitLedger::new().refresh(5));
    }
    assert_eq!(path.recovery(&shown), Some(Completeness::Complete));
    let done = path.publish(&shown, b"op".to_vec()).expect("serving");
    assert_eq!(done.token, token(5, 1));
    assert_eq!(done.feed.key, "~writes:hosted");
    assert_eq!(path.serving(), 5);
    assert_eq!(path.fence(&shown).map(|f| f.message()), Some("5:a".to_owned()));
    let own = done.ledger.expect("the host recorded its own write");
    assert_eq!(own.key, "~hosted:applied");
    publish(&mut shown, "a", own);
    assert_eq!(
        path.await_commit(&shown, done.token, Commit::QuorumApplied, false),
        None
    );
    assert_eq!(
        path.await_commit(&shown, done.token, Commit::QuorumApplied, true),
        Some(CommitOutcome::TimedOut {
            waiting_on: vec![node("b"), node("c")]
        })
    );
    assert_eq!(
        path.await_commit(&shown, done.token, Commit::Local, false),
        Some(CommitOutcome::Committed)
    );

    let mut follower = CommitLedger::new();
    let applied = follower
        .record(&node("a"), done.token, 5)
        .expect("an advance");
    publish(&mut shown, "c", applied);
    assert_eq!(
        commit_applied_by(&shown, &node("c"), &node("a")),
        Some((5, token(5, 1)))
    );
    assert_eq!(
        path.await_commit(&shown, done.token, Commit::QuorumApplied, false),
        Some(CommitOutcome::Committed)
    );
    // The level that waits for everybody still waits for `b`.
    assert_eq!(
        path.await_commit(&shown, done.token, Commit::AllApplied, true),
        Some(CommitOutcome::TimedOut {
            waiting_on: vec![node("b")]
        })
    );
}

#[test]
fn a_deposed_host_is_told_so_and_its_pending_write_is_not_committed() {
    let mut path = HostedWrites::new(node("a"), 8, usize::MAX);
    let first = group(&["a", "b"], 5, Some("a"));
    let done = path.publish(&first, b"op".to_vec()).expect("serving");
    assert!(done.ledger.is_none(), "no ledger without a roster");
    let later = group(&["a", "b"], 6, Some("b"));
    assert_eq!(
        path.await_commit(&later, done.token, Commit::AllApplied, false),
        Some(CommitOutcome::Deposed { epoch: 5 })
    );
    assert_eq!(
        path.publish(&later, b"op".to_vec()).err(),
        Some(HostedError::Deposed { epoch: 5 })
    );
    assert!(path.fence(&later).is_none());

    let mut other = HostedWrites::new(node("c"), 8, usize::MAX);
    assert_eq!(
        other.publish(&later, b"op".to_vec()).err(),
        Some(HostedError::NotHost {
            epoch: 6,
            host: Some(node("b"))
        })
    );
    // Elected again, the node counts from 1 in the new epoch.
    let again = group(&["a", "b"], 7, Some("a"));
    assert!(path.takes(&again, 2));
    assert_eq!(
        path.publish(&again, b"op".to_vec()).expect("serving").token,
        token(7, 1)
    );
}

#[test]
fn recovery_waits_for_what_the_fresh_majority_names() {
    let mode = quorum(&["a", "b", "c"]);
    let mut path = HostedWrites::committed(&mode, node("a"), 8, usize::MAX, CommitLedger::new())
        .expect("a quorum group");
    let mut shown = group(&["a", "b", "c"], 6, Some("a"));
    for voter in ["b", "c"] {
        let mut ledger = CommitLedger::new();
        publish(
            &mut shown,
            voter,
            ledger
                .record(&node("old"), token(5, 9), 6)
                .expect("an advance"),
        );
    }
    assert_eq!(
        path.recovery(&shown),
        Some(Completeness::Recovering {
            needed: vec![(node("old"), token(5, 9))]
        })
    );
    assert!(path.fence(&shown).is_none());
    let write = path
        .record(&node("old"), token(5, 9), 6)
        .expect("the ledger moved");
    assert_eq!(write.key, ledger_entry_key(""));
    assert_eq!(path.fence(&shown).map(|f| f.epoch), Some(6));
    // Latched: the epoch stays served whatever the peers publish later.
    let bare = group(&["a", "b", "c"], 6, Some("a"));
    assert_eq!(path.fence(&bare).map(|f| f.epoch), Some(6));
    assert!(path.refresh(7).is_some());
    assert_eq!(path.ledger().map(CommitLedger::stamp), Some(7));
}

#[test]
fn a_committed_path_is_refused_without_a_roster_or_its_own_ledger() {
    let make = |mode: &GroupMode, ledger: CommitLedger| {
        HostedWrites::named_committed("docs", mode, node("a"), 8, usize::MAX, ledger).err()
    };
    assert_eq!(
        make(&GroupMode::Other, CommitLedger::named("docs")),
        Some(HostedSetupError::NotHosted)
    );
    assert_eq!(
        make(
            &GroupMode::Hosted(Activation::Other),
            CommitLedger::named("docs")
        ),
        Some(HostedSetupError::NotQuorum)
    );
    assert_eq!(
        make(&quorum(&["a"]), CommitLedger::new()),
        Some(HostedSetupError::LedgerMismatch {
            expected: "~hosted:applied:docs".to_owned(),
            found: "~hosted:applied".to_owned(),
        })
    );
    assert_eq!(make(&quorum(&["a"]), CommitLedger::named("docs")), None);
    assert_eq!(quorum_roster(&quorum(&["a", "b"])), Ok(vec![node("a"), node("b")]));
}

#[test]
fn a_recovered_ledger_keeps_its_marks_and_starts_unstamped() {
    let mut marks = Watermarks::new();
    marks.insert(node("w"), token(3, 4));
    let mut ledger = CommitLedger::with_recovered(marks);
    assert_eq!(ledger.stamp(), 0);
    assert_eq!(ledger.applied(&node("w")), Some(token(3, 4)));
    assert_eq!(ledger.watermarks().len(), 1);
    assert!(ledger.record(&node("w"), token(3, 4), 0).is_none());
    let mut shown = group(&["a"], 1, None);
    publish(&mut shown, "a", ledger.refresh(9));
    let reading = commit_reading(&shown, &node("a")).expect("published");
    assert_eq!(reading.lead_epoch, 9);
    assert_eq!(reading.applied.get_copy(&node("w")), Some(token(3, 4)));
    assert_eq!(commit_reading(&shown, &node("b")), None);
}

fn drain(reads: &mut HostedReads<String, fn(&[u8]) -> Option<String>>, shown: &GroupView) -> Vec<HostedRead<String>> {
    let mut out = Vec::new();
    loop {
        match reads.next(&shown.leadership) {
            Turn::Event(event) => out.push(event),
            Turn::Wait | Turn::Gone => {
                if !reads.take_peer_write() {
                    return out;
                }
            }
        }
    }
}

fn drain_bound(
    path: &HostedWrites,
    reads: &mut HostedReads<String, fn(&[u8]) -> Option<String>>,
    shown: &GroupView,
) -> Vec<HostedRead<String>> {
    let mut out = Vec::new();
    loop {
        match path.turn(reads, &shown.leadership) {
            Turn::Event(event) => out.push(event),
            Turn::Wait | Turn::Gone => {
                if !reads.take_peer_write() {
                    return out;
                }
            }
        }
    }
}

#[test]
fn a_follower_reads_one_ordered_stream_across_a_migration() {
    let mut shown = group(&["a", "b", "me"], 5, Some("a"));
    let decode: fn(&[u8]) -> Option<String> = text;
    let mut reads = HostedReads::new(&shown, node("me"), decode);
    let mut a = HostedWrites::new(node("a"), 8, usize::MAX);
    let write = a.publish(&shown, b"one".to_vec()).expect("serving");
    publish(&mut shown, "a", write.feed);
    reads.scan_all(&shown);
    assert_eq!(
        drain(&mut reads, &shown),
        vec![
            HostedRead::Migrated {
                epoch: 5,
                host: Some(node("a"))
            },
            HostedRead::Gap {
                missed_through: token(5, 0)
            },
            HostedRead::Wrote {
                host: node("a"),
                token: token(5, 1),
                key: "one".to_owned()
            },
        ]
    );
    assert_eq!(reads.adopted(), (5, Some(node("a"))));

    shown.leadership = Leadership {
        epoch: 6,
        host: Some(node("b")),
    };
    let mut b = HostedWrites::new(node("b"), 8, usize::MAX);
    let write = b.publish(&shown, b"two".to_vec()).expect("serving");
    publish(&mut shown, "b", write.feed);
    reads.scan(&shown, &node("b"));
    assert_eq!(
        drain(&mut reads, &shown),
        vec![
            HostedRead::Migrated {
                epoch: 6,
                host: Some(node("b"))
            },
            HostedRead::Gap {
                missed_through: token(6, 0)
            },
            HostedRead::Wrote {
                host: node("b"),
                token: token(6, 1),
                key: "two".to_owned()
            },
        ]
    );
    assert_eq!(reads.gaps_seen(), 2);
    reads.close();
    assert_eq!(reads.next(&shown.leadership), Turn::Gone);
}

#[test]
fn a_bound_subscriber_drops_its_predecessor_once_it_serves() {
    let mut shown = group(&["a", "me"], 5, Some("a"));
    let decode: fn(&[u8]) -> Option<String> = text;
    let mut reads = HostedReads::new(&shown, node("me"), decode);
    let mut a = HostedWrites::new(node("a"), 8, usize::MAX);
    publish(
        &mut shown,
        "a",
        a.publish(&group(&["a"], 5, Some("a")), b"late".to_vec())
            .expect("serving")
            .feed,
    );
    reads.scan_all(&shown);
    shown.leadership = Leadership {
        epoch: 6,
        host: Some(node("me")),
    };
    let mut mine = HostedWrites::new(node("me"), 8, usize::MAX);
    mine.bind(&mut reads);
    assert!(mine.fence(&shown).is_some());
    assert_eq!(
        drain_bound(&mine, &mut reads, &shown),
        vec![HostedRead::Migrated {
            epoch: 6,
            host: Some(node("me"))
        }]
    );
}

#[test]
fn a_subscriber_bound_once_drains_until_the_admission_and_is_cut_by_it() {
    let mut shown = group(&["a", "me"], 5, Some("a"));
    let decode: fn(&[u8]) -> Option<String> = text;
    let mut reads = HostedReads::new(&shown, node("me"), decode);
    let mut mine = HostedWrites::new(node("me"), 8, usize::MAX);
    mine.bind(&mut reads);

    let mut a = HostedWrites::new(node("a"), 8, usize::MAX);
    let authored = group(&["a"], 5, Some("a"));
    publish(&mut shown, "a", a.publish(&authored, b"tail".to_vec()).expect("serving").feed);
    reads.scan_all(&shown);
    let drained = drain_bound(&mine, &mut reads, &shown);
    assert_eq!(drained.len(), 3, "not admitted yet: the tail still comes");
    assert_eq!(
        drained[2],
        HostedRead::Wrote {
            host: node("a"),
            token: token(5, 1),
            key: "tail".to_owned()
        }
    );

    shown.leadership = Leadership {
        epoch: 6,
        host: Some(node("me")),
    };
    assert!(mine.fence(&shown).is_some(), "admitted after the binding");
    publish(&mut shown, "a", a.publish(&authored, b"late".to_vec()).expect("serving").feed);
    reads.scan_all(&shown);
    assert_eq!(
        drain_bound(&mine, &mut reads, &shown),
        vec![HostedRead::Migrated {
            epoch: 6,
            host: Some(node("me"))
        }]
    );
}

#[test]
fn only_leadership_and_loss_concern_the_subscriber() {
    assert_eq!(leadership_signal(&Signal::LeadershipChanged), Some(true));
    assert_eq!(leadership_signal(&Signal::Lagged), Some(true));
    assert_eq!(leadership_signal(&Signal::Closed), Some(false));
    assert_eq!(leadership_signal(&Signal::MembershipChanged), None);
    assert_eq!(leadership_signal(&Signal::Other), None);
}

#[test]
fn a_named_recovered_ledger_publishes_under_its_own_key() {
    let mut marks = Watermarks::new();
    marks.insert(node("w"), token(3, 4));
    let mut ledger = CommitLedger::named_with_recovered("docs", marks);
    let write = ledger.refresh(7);
    assert_eq!(write.key, "~hosted:applied:docs");
    assert_eq!(ledger.stamp(), 7);
    assert_eq!(ledger.applied(&node("w")), Some(token(3, 4)));
}

#[test]
fn a_cut_by_hand_drops_what_an_earlier_hostship_left_queued() {
    let mut shown = group(&["a", "me"], 5, Some("a"));
    let decode: fn(&[u8]) -> Option<String> = text;
    let mut reads = HostedReads::new(&shown, node("me"), decode);
    let mut a = HostedWrites::new(node("a"), 8, usize::MAX);
    let write = a.publish(&shown, b"late".to_vec()).expect("serving");
    publish(&mut shown, "a", write.feed);
    reads.scan_all(&shown);
    reads.cut_below(6);
    assert_eq!(
        drain(&mut reads, &shown),
        vec![HostedRead::Migrated {
            epoch: 5,
            host: Some(node("a"))
        }]
    );
    assert_eq!(reads.peer_gaps_seen(), 0);
}
