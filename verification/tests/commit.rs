use groupnet_consistency::hosted::{
    Commit, CommitCore, CommitVerdict, LedgerView, Reading, Watermarks,
};
use groupnet_consistency::{NodeId, WriteToken};

/// The write under evaluation: host `h`, epoch 7, sequence 3.
const TOKEN: WriteToken = WriteToken { epoch: 7, seq: 3 };

/// One row of a verdict table: a name, the roster snapshot, and the
/// expected verdict.
type Case = (&'static str, Vec<LedgerView>, CommitVerdict);

fn node(name: &str) -> NodeId {
    NodeId::new(name)
}

fn host() -> NodeId {
    node("h")
}

/// A voter believed alive, stamped `stamp`, advertising `applied` for the
/// host's feed.
fn voter(name: &str, stamp: u64, applied: WriteToken) -> LedgerView {
    let mut marks = Watermarks::new();
    marks.insert(host(), applied);
    LedgerView {
        member: node(name),
        alive: true,
        reading: Some(Reading {
            lead_epoch: stamp,
            applied: marks,
        }),
    }
}

/// A voter that publishes no ledger at all.
fn silent(name: &str) -> LedgerView {
    LedgerView {
        member: node(name),
        alive: true,
        reading: None,
    }
}

/// A voter stamped correctly whose ledger names no watermark for the host.
fn empty_handed(name: &str, stamp: u64) -> LedgerView {
    LedgerView {
        member: node(name),
        alive: true,
        reading: Some(Reading {
            lead_epoch: stamp,
            applied: Watermarks::new(),
        }),
    }
}

/// One that counts: stamped 7, applied exactly the write.
fn good(name: &str) -> LedgerView {
    voter(name, 7, TOKEN)
}

fn quorum(view: &[LedgerView]) -> CommitVerdict {
    CommitCore::evaluate(view, &host(), TOKEN, Commit::QuorumApplied)
}

fn pending(names: &[&str]) -> CommitVerdict {
    CommitVerdict::Pending {
        waiting_on: names.iter().map(|n| node(n)).collect(),
    }
}

#[test]
fn local_commits_without_looking_at_anybody() {
    for view in [Vec::new(), vec![silent("a"), silent("b"), silent("c")]] {
        assert_eq!(
            CommitCore::evaluate(&view, &host(), TOKEN, Commit::Local),
            CommitVerdict::Committed
        );
    }
}

/// The verdict table for `QuorumApplied` over a roster of three (majority
/// two). Each row isolates one way a voter fails to count.
#[test]
fn the_quorum_verdict_table() {
    let cases: Vec<Case> = vec![
        (
            "two of three count",
            vec![good("a"), good("b"), silent("c")],
            CommitVerdict::Committed,
        ),
        (
            "a stale-stamped voter does not count",
            vec![good("a"), voter("b", 6, TOKEN), voter("c", 6, TOKEN)],
            pending(&["b", "c"]),
        ),
        (
            "a higher-stamped voter does not count — the view-stamp fence",
            vec![good("a"), voter("b", 8, TOKEN), voter("c", 8, TOKEN)],
            pending(&["b", "c"]),
        ),
        (
            "a voter behind the write does not count",
            vec![
                good("a"),
                voter("b", 7, WriteToken { epoch: 7, seq: 2 }),
                silent("c"),
            ],
            pending(&["b", "c"]),
        ),
        (
            "a voter past the write counts",
            vec![
                good("a"),
                voter("b", 7, WriteToken { epoch: 7, seq: 9 }),
                silent("c"),
            ],
            CommitVerdict::Committed,
        ),
        (
            "a stamped voter naming no watermark for this host does not count",
            vec![good("a"), empty_handed("b", 7), empty_handed("c", 7)],
            pending(&["b", "c"]),
        ),
        (
            "a dead voter's stamped reading still counts — the roster is liveness-blind",
            vec![
                good("a"),
                LedgerView {
                    alive: false,
                    ..good("b")
                },
                silent("c"),
            ],
            CommitVerdict::Committed,
        ),
        (
            "nobody counts",
            vec![silent("a"), silent("b"), silent("c")],
            pending(&["a", "b", "c"]),
        ),
    ];
    for (name, view, expected) in cases {
        assert_eq!(quorum(&view), expected, "{name}");
    }
}

#[test]
fn the_majority_boundary_is_exact() {
    // Three voters, majority two: one short is pending, exactly two commits.
    assert_eq!(
        quorum(&[good("a"), silent("b"), silent("c")]),
        pending(&["b", "c"])
    );
    assert_eq!(
        quorum(&[good("a"), good("b"), silent("c")]),
        CommitVerdict::Committed
    );
    // Four voters, majority three — an even roster does not round down.
    let four = |counting: usize| {
        let names = ["a", "b", "c", "d"];
        let view: Vec<LedgerView> = names
            .iter()
            .enumerate()
            .map(|(i, n)| if i < counting { good(n) } else { silent(n) })
            .collect();
        quorum(&view)
    };
    assert_eq!(
        four(2),
        pending(&["c", "d"]),
        "two of four is not a majority"
    );
    assert_eq!(four(3), CommitVerdict::Committed);
    // A roster of one is its own majority.
    assert_eq!(quorum(&[good("a")]), CommitVerdict::Committed);
    assert_eq!(quorum(&[silent("a")]), pending(&["a"]));
}

#[test]
fn an_empty_roster_never_commits() {
    // `0 / 2 + 1 = 1` grant that can never be collected — the same fail-safe
    // answer the engine's empty voter roster gives, and deliberately not the
    // `0` that would commit on nobody's word.
    assert_eq!(quorum(&[]), pending(&[]));
}

#[test]
fn all_applied_needs_every_alive_member_and_ignores_the_dead() {
    let all =
        |view: &[LedgerView]| CommitCore::evaluate(view, &host(), TOKEN, Commit::AllApplied);
    assert_eq!(
        all(&[good("a"), good("b"), silent("c")]),
        pending(&["c"]),
        "unanimity, not a majority"
    );
    assert_eq!(
        all(&[good("a"), good("b"), good("c")]),
        CommitVerdict::Committed
    );
    // A member membership no longer believes alive drops out of the wait
    // entirely.
    assert_eq!(
        all(&[
            good("a"),
            good("b"),
            LedgerView {
                alive: false,
                ..silent("c")
            }
        ]),
        CommitVerdict::Committed
    );
    // An empty selection resolves immediately: nobody to wait on.
    assert_eq!(all(&[]), CommitVerdict::Committed);
}

#[test]
fn waiting_on_is_reported_in_id_order() {
    let view = vec![silent("z"), good("m"), silent("a"), silent("q")];
    assert_eq!(quorum(&view), pending(&["a", "q", "z"]));
}
