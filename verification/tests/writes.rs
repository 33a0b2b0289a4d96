use groupnet_consistency::group::Leadership;
use groupnet_consistency::hosted::writes::admission_verdict;
use groupnet_consistency::hosted::{hosted_feed_name, HostedError, HostedSetupError};
use groupnet_consistency::NodeId;

fn node(name: &str) -> NodeId {
    NodeId::new(name)
}

fn me() -> NodeId {
    node("me")
}

/// A leadership: the epoch, and who holds it.
fn lead(epoch: u64, host: Option<&str>) -> Leadership {
    let host = host.map(node);
    Leadership { epoch, host }
}

#[test]
fn writes_the_admission_table() {
    type Case = (
        &'static str,
        Leadership,
        Option<u64>,
        bool,
        Result<u64, HostedError>,
    );
    let cases: Vec<Case> = vec![
        (
            "the host of a recovered epoch serves it",
            lead(7, Some("me")),
            Some(7),
            true,
            Ok(7),
        ),
        (
            "…and a host that has never hosted before is no different",
            lead(7, Some("me")),
            None,
            true,
            Ok(7),
        ),
        (
            "the host of an unrecovered epoch is elected, not serving",
            lead(7, Some("me")),
            None,
            false,
            Err(HostedError::Recovering),
        ),
        (
            "a node that never held the group is redirected",
            lead(7, Some("peer")),
            None,
            true,
            Err(HostedError::NotHost {
                epoch: 7,
                host: Some(node("peer")),
            }),
        ),
        (
            "…and with no host at all, that redirect is the promised NoLeader",
            lead(7, None),
            None,
            true,
            Err(HostedError::NotHost {
                epoch: 7,
                host: None,
            }),
        ),
        (
            "a host succeeded by a peer is deposed from its own epoch",
            lead(9, Some("peer")),
            Some(7),
            true,
            Err(HostedError::Deposed { epoch: 7 }),
        ),
        (
            "…and a host that lapsed into (e, None) likewise: it is fenced, \
             not merely hostless",
            lead(7, None),
            Some(7),
            true,
            Err(HostedError::Deposed { epoch: 7 }),
        ),
        (
            "a host elected, deposed, and elected again serves the new epoch",
            lead(9, Some("me")),
            Some(7),
            true,
            Ok(9),
        ),
        (
            "the recovery gate binds a re-elected host too",
            lead(9, Some("me")),
            Some(7),
            false,
            Err(HostedError::Recovering),
        ),
        (
            "before any election, a fresh node is a NoLeader at epoch zero",
            lead(0, None),
            None,
            true,
            Err(HostedError::NotHost {
                epoch: 0,
                host: None,
            }),
        ),
    ];
    for (name, leadership, last_hosted, recovered, expected) in cases {
        assert_eq!(
            admission_verdict(&leadership, &me(), last_hosted, recovered),
            expected,
            "{name}"
        );
    }
}

/// Recovery is only ever consulted for the node's *own* hostship, so a
/// follower's answer cannot depend on it.
#[test]
fn writes_the_recovery_gate_never_changes_a_non_hosts_verdict() {
    for leadership in [lead(4, Some("peer")), lead(4, None)] {
        for last_hosted in [None, Some(3)] {
            assert_eq!(
                admission_verdict(&leadership, &me(), last_hosted, true),
                admission_verdict(&leadership, &me(), last_hosted, false),
                "{leadership:?} / {last_hosted:?}"
            );
        }
    }
}

#[test]
fn writes_write_paths_map_to_distinct_feeds() {
    assert_eq!(hosted_feed_name(""), "hosted");
    assert_eq!(hosted_feed_name("docs"), "hosted:docs");
    assert_ne!(hosted_feed_name("a"), hosted_feed_name("b"));
    // Distinct from the session tier's default feed: a hosted path and a
    // plain one coexist on one node.
    assert_ne!(hosted_feed_name(""), "");
}

#[test]
fn writes_setup_errors_say_which_configuration_is_wrong() {
    assert!(
        HostedSetupError::NotHosted
            .message()
            .contains("not a Hosted group")
    );
    assert!(
        HostedSetupError::NotQuorum
            .message()
            .contains("static voter roster")
    );
    let mismatch = HostedSetupError::LedgerMismatch {
        expected: "~hosted:applied:docs".to_owned(),
        found: "~hosted:applied".to_owned(),
    };
    assert_eq!(
        mismatch.message(),
        "the commit ledger publishes under ~hosted:applied, but this write path reads \
         ~hosted:applied:docs"
    );
    assert_ne!(mismatch, HostedSetupError::NotQuorum);
}
