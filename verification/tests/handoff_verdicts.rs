use groupnet_consistency::hosted::handoff::{
    Coverage, DoneCheck, DoneCounts, HandoffCore, HandoffPhase, HandoffStep, Staleness,
};
use groupnet_consistency::hosted::Watermarks;
use groupnet_consistency::{NodeId, WriteToken};

fn node(name: &str) -> NodeId {
    NodeId::new(name)
}

fn marks(pairs: &[(&str, u64, u64)]) -> Watermarks {
    let mut marks = Watermarks::new();
    for (writer, epoch, seq) in pairs {
        marks.insert(
            NodeId::new(writer),
            WriteToken {
                epoch: *epoch,
                seq: *seq,
            },
        );
    }
    marks
}

fn short(pairs: &[(&str, u64, u64)]) -> Coverage {
    Coverage::Short {
        missing: pairs
            .iter()
            .map(|(writer, epoch, seq)| {
                (
                    node(writer),
                    WriteToken {
                        epoch: *epoch,
                        seq: *seq,
                    },
                )
            })
            .collect(),
    }
}

/// `staleness` with owned ids, so a table row can be written flat.
fn stale(donor: (u64, Option<&str>), ours: (u64, Option<&str>)) -> Staleness {
    let donor_host = donor.1.map(node);
    let our_host = ours.1.map(node);
    HandoffCore::staleness((donor.0, donor_host.as_ref()), (ours.0, our_host.as_ref()))
}

#[test]
fn the_epoch_is_the_ordering_and_the_host_is_only_the_name() {
    // A donor below our adopted epoch is superseded, whoever it names.
    assert_eq!(stale((4, Some("a")), (6, Some("a"))), Staleness::Stale);
    assert_eq!(stale((4, Some("a")), (6, Some("b"))), Staleness::Stale);
    assert_eq!(stale((4, None), (6, None)), Staleness::Stale);
    assert_eq!(stale((5, Some("a")), (6, None)), Staleness::Stale);
    // A donor above it is not: we are the behind party, and we will learn.
    assert_eq!(stale((7, Some("a")), (6, Some("b"))), Staleness::Passed);
    assert_eq!(stale((7, None), (6, Some("b"))), Staleness::Passed);
    assert_eq!(stale((u64::MAX, None), (0, None)), Staleness::Passed);
}

#[test]
fn one_epoch_naming_two_hosts_is_the_only_same_epoch_refusal() {
    assert_eq!(stale((6, Some("a")), (6, Some("b"))), Staleness::Stale);
    // The same host at the same epoch is the ordinary agreeing case.
    assert_eq!(stale((6, Some("a")), (6, Some("a"))), Staleness::Passed);
}

/// The pinned decision, asserted in both directions so a future change to it
/// has to change a test that says why.
#[test]
fn a_hostless_stamp_at_our_epoch_is_not_provably_stale() {
    // The donor has adopted our epoch but not yet learned who won it — one
    // gossip round wide, and the likeliest donor right after a migration.
    // The epoch is the fence; the name is weaker information about the same
    // hostship, and lagging on the name is not lagging on the fence.
    assert_eq!(stale((6, None), (6, Some("a"))), Staleness::Passed);
    // Mirrored: a donor that names a host at an epoch we believe hostless
    // is the better-informed party. Nothing to refuse.
    assert_eq!(stale((6, Some("a")), (6, None)), Staleness::Passed);
    // Both ignorant of the name, agreeing on the fence.
    assert_eq!(stale((6, None), (6, None)), Staleness::Passed);
    // And the check that carries the safety is untouched by any of it: a
    // hostless donor one epoch back is still refused.
    assert_eq!(stale((5, None), (6, None)), Staleness::Stale);
    assert_eq!(stale((5, None), (6, Some("a"))), Staleness::Stale);
}

#[test]
fn coverage_is_a_per_writer_floor() {
    let covers = marks(&[("h1", 5, 9), ("h2", 2, 4)]);
    // Nothing asked, anything answers.
    assert_eq!(
        HandoffCore::coverage(&Watermarks::new(), &covers),
        Coverage::Passed
    );
    // At the floor, and past it.
    assert_eq!(
        HandoffCore::coverage(&marks(&[("h1", 5, 9)]), &covers),
        Coverage::Passed
    );
    assert_eq!(
        HandoffCore::coverage(&marks(&[("h1", 5, 8), ("h2", 2, 1)]), &covers),
        Coverage::Passed
    );
    // Epoch-major: a newer life covers an older target.
    assert_eq!(
        HandoffCore::coverage(&marks(&[("h1", 4, 9_999)]), &covers),
        Coverage::Passed
    );
    // One sequence short is short, and only that writer is named.
    assert_eq!(
        HandoffCore::coverage(&marks(&[("h1", 5, 10), ("h2", 2, 4)]), &covers),
        short(&[("h1", 5, 10)])
    );
    // …and `missing` carries what was *needed*, not what the donor has.
    assert_eq!(
        HandoffCore::coverage(&marks(&[("h1", 6, 1)]), &covers),
        short(&[("h1", 6, 1)])
    );
}

#[test]
fn a_writer_the_donor_never_names_is_short() {
    let covers = marks(&[("h1", 5, 9)]);
    // Absence is "applied nothing of that feed", not "nothing to apply".
    assert_eq!(
        HandoffCore::coverage(&marks(&[("h2", 1, 1)]), &covers),
        short(&[("h2", 1, 1)])
    );
    // Even a bottom target is short against an absent writer — the same
    // answer `CompletenessCore::step` gives, and deliberately the same, so
    // a target that rule computed cannot be "covered" by a gap here.
    assert_eq!(
        HandoffCore::coverage(&marks(&[("h2", 0, 0)]), &covers),
        short(&[("h2", 0, 0)])
    );
    // Multiple shortfalls come back in writer-id order.
    assert_eq!(
        HandoffCore::coverage(&marks(&[("h3", 1, 1), ("h2", 1, 1)]), &covers),
        short(&[("h2", 1, 1), ("h3", 1, 1)])
    );
}

#[test]
fn a_donor_bringing_more_than_was_asked_for_still_covers() {
    let covers = marks(&[("h1", 5, 9), ("h2", 2, 4), ("h3", 9, 9)]);
    assert_eq!(
        HandoffCore::coverage(&marks(&[("h1", 5, 1)]), &covers),
        Coverage::Passed,
        "a snapshot is allowed to be wider than the request"
    );
}

#[test]
fn the_done_counts_must_agree_exactly() {
    let sent = DoneCounts {
        chunks: 12,
        bytes: 4096,
    };
    assert_eq!(HandoffCore::done_consistent(sent, sent), DoneCheck::Passed);
    assert_eq!(
        HandoffCore::done_consistent(DoneCounts::default(), DoneCounts::default()),
        DoneCheck::Passed,
        "an empty snapshot is a legitimate snapshot"
    );
    // Short in either counter.
    for staged in [
        DoneCounts {
            chunks: 11,
            bytes: 4096,
        },
        DoneCounts {
            chunks: 12,
            bytes: 4095,
        },
    ] {
        assert_eq!(
            HandoffCore::done_consistent(staged, sent),
            DoneCheck::Truncated
        );
    }
    // Long in either counter: a re-framing or a duplicate is refused by the
    // same rule, because the rule is equality and not "at least".
    for staged in [
        DoneCounts {
            chunks: 13,
            bytes: 4096,
        },
        DoneCounts {
            chunks: 12,
            bytes: 4097,
        },
    ] {
        assert_eq!(
            HandoffCore::done_consistent(staged, sent),
            DoneCheck::Truncated,
            "equality, not a floor"
        );
    }
}

const PHASES: [HandoffPhase; 6] = [
    HandoffPhase::Request,
    HandoffPhase::OfferVerify,
    HandoffPhase::Stage,
    HandoffPhase::DoneVerify,
    HandoffPhase::Finish,
    HandoffPhase::Complete,
];

const STEPS: [HandoffStep; 6] = [
    HandoffStep::Requested,
    HandoffStep::OfferAccepted,
    HandoffStep::Chunk,
    HandoffStep::DoneSeen,
    HandoffStep::CountsOk,
    HandoffStep::Finished,
];

/// Every legal cell of the 6×6 table, written out. Anything not here is
/// `None`, and the assertion below proves the two sets partition the table.
const LEGAL: [(HandoffPhase, HandoffStep, HandoffPhase); 6] = [
    (
        HandoffPhase::Request,
        HandoffStep::Requested,
        HandoffPhase::OfferVerify,
    ),
    (
        HandoffPhase::OfferVerify,
        HandoffStep::OfferAccepted,
        HandoffPhase::Stage,
    ),
    (HandoffPhase::Stage, HandoffStep::Chunk, HandoffPhase::Stage),
    (
        HandoffPhase::Stage,
        HandoffStep::DoneSeen,
        HandoffPhase::DoneVerify,
    ),
    (
        HandoffPhase::DoneVerify,
        HandoffStep::CountsOk,
        HandoffPhase::Finish,
    ),
    (
        HandoffPhase::Finish,
        HandoffStep::Finished,
        HandoffPhase::Complete,
    ),
];

#[test]
fn the_phase_table_is_exhaustive_and_admits_exactly_six_cells() {
    for phase in PHASES {
        for step in STEPS {
            let expected = LEGAL
                .iter()
                .find(|(from, on, _)| *from == phase && *on == step)
                .map(|(_, _, to)| *to);
            assert_eq!(phase.advance(step), expected, "cell ({phase:?}, {step:?})");
        }
    }
}

#[test]
fn the_ordered_path_is_the_only_way_to_complete() {
    let mut phase = HandoffPhase::Request;
    for step in [
        HandoffStep::Requested,
        HandoffStep::OfferAccepted,
        HandoffStep::Chunk,
        HandoffStep::Chunk,
        HandoffStep::Chunk,
        HandoffStep::DoneSeen,
        HandoffStep::CountsOk,
        HandoffStep::Finished,
    ] {
        phase = phase.advance(step).expect("the ordered path");
    }
    assert_eq!(phase, HandoffPhase::Complete);
    assert!(phase.is_complete());
    // …and it is terminal: nothing at all follows an install.
    for step in STEPS {
        assert_eq!(HandoffPhase::Complete.advance(step), None, "{step:?}");
    }
}

/// The cells whose refusal is the point, each with the rule it enforces.
#[test]
fn the_load_bearing_refusals() {
    // No byte is staged behind an unverified offer — there is no step for
    // "an offer arrived", only for one that passed both checks.
    assert_eq!(
        HandoffPhase::OfferVerify.advance(HandoffStep::Chunk),
        None,
        "a chunk before a verified offer"
    );
    assert_eq!(
        HandoffPhase::OfferVerify.advance(HandoffStep::DoneSeen),
        None,
        "a Done before a verified offer"
    );
    // One offer per handoff: a second one mid-stream would re-open a check
    // that bytes have already been staged behind.
    assert_eq!(
        HandoffPhase::Stage.advance(HandoffStep::OfferAccepted),
        None,
        "a second offer mid-stream"
    );
    // Done closes the stream: nothing arrives behind it.
    assert_eq!(
        HandoffPhase::DoneVerify.advance(HandoffStep::Chunk),
        None,
        "a chunk after Done"
    );
    // The counts are checked before the sink is finished, never after.
    assert_eq!(
        HandoffPhase::DoneVerify.advance(HandoffStep::Finished),
        None,
        "finishing without checking the counts"
    );
    assert_eq!(
        HandoffPhase::Stage.advance(HandoffStep::CountsOk),
        None,
        "counting before a Done"
    );
    // And nothing is staged before a request goes out.
    for step in STEPS {
        if step == HandoffStep::Requested {
            continue;
        }
        assert_eq!(HandoffPhase::Request.advance(step), None, "{step:?}");
    }
}
