use groupnet_consistency::hosted::{
    Commit, CommitOutcome, CommitReceipt, Fence, HostedError,
};
use groupnet_consistency::{NodeId, WriteToken};

fn node(name: &str) -> NodeId {
    NodeId::new(name)
}

#[test]
fn fences_order_epoch_major_and_print_compactly() {
    let old = Fence {
        epoch: 1,
        host: node("zzz"),
    };
    let new = Fence {
        epoch: 2,
        host: node("aaa"),
    };
    assert!(new > old, "epoch first, host only as the name");
    assert_eq!(new.message(), "2:aaa");
}

#[test]
fn a_hostless_not_host_is_the_promised_no_leader() {
    let no_leader = HostedError::NotHost {
        epoch: 4,
        host: None,
    };
    assert_eq!(no_leader.message(), "no host at epoch 4");
    let redirect = HostedError::NotHost {
        epoch: 4,
        host: Some(node("b")),
    };
    assert_eq!(redirect.message(), "not the host at epoch 4: b is");
    assert_ne!(no_leader, redirect, "a redirect is not a NoLeader");
}

#[test]
fn only_committed_is_a_commit() {
    let token = WriteToken { epoch: 7, seq: 1 };
    let receipt = |outcome: CommitOutcome| CommitReceipt { token, outcome };
    assert!(receipt(CommitOutcome::Committed).is_committed());
    assert!(
        !receipt(CommitOutcome::TimedOut {
            waiting_on: vec![node("a")],
        })
        .is_committed()
    );
    assert!(!receipt(CommitOutcome::Deposed { epoch: 7 }).is_committed());
    // The token survives every outcome: the write is in the feed either way.
    assert_eq!(receipt(CommitOutcome::Deposed { epoch: 7 }).token, token);
}

#[test]
fn commit_levels_are_distinct_and_copy() {
    let levels = [Commit::Local, Commit::QuorumApplied, Commit::AllApplied];
    for (i, a) in levels.iter().enumerate() {
        for (j, b) in levels.iter().enumerate() {
            assert_eq!(a == b, i == j);
        }
    }
    let copied = levels[1];
    assert_eq!(copied, Commit::QuorumApplied, "Copy, not moved");
}

#[test]
fn every_refusal_has_its_words() {
    assert_eq!(
        HostedError::Deposed { epoch: 12 }.message(),
        "deposed from epoch 12"
    );
    assert_eq!(
        HostedError::Recovering.message(),
        "host is recovering: not serving at this epoch yet"
    );
    assert_eq!(
        HostedError::Rejected.message(),
        "the group actor's inbox refused the write"
    );
}
