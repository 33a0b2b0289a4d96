use groupnet_consistency::lease::{CoherenceCore, CoherenceStep, WaitMember};
use groupnet_consistency::{NodeId, WriteToken};

fn node(name: &str) -> NodeId {
    NodeId::new(name)
}

const TOKEN: WriteToken = WriteToken { epoch: 2, seq: 5 };

fn holder(name: &str, applied: Option<WriteToken>) -> WaitMember {
    WaitMember {
        member: node(name),
        applied,
    }
}

#[test]
fn an_empty_wait_set_is_immediately_coherent() {
    let mut core = CoherenceCore::new(node("writer"));
    assert_eq!(core.step(TOKEN, &[]), CoherenceStep::AllApplied);
    assert_eq!(core.in_flight(), 0, "a terminal verdict drops its state");
}

#[test]
fn every_lease_holder_applying_is_the_fast_path() {
    let mut core = CoherenceCore::new(node("writer"));
    let behind = [
        holder("a", Some(WriteToken { epoch: 2, seq: 4 })),
        holder("b", None),
    ];
    assert_eq!(
        core.step(TOKEN, &behind),
        CoherenceStep::Waiting {
            on: vec![node("a"), node("b")],
        }
    );
    assert_eq!(core.in_flight(), 1);
    let applied = [
        holder("a", Some(TOKEN)),
        holder("b", Some(WriteToken { epoch: 2, seq: 9 })),
    ];
    assert_eq!(core.step(TOKEN, &applied), CoherenceStep::AllApplied);
    assert_eq!(core.in_flight(), 0);
}

#[test]
fn a_lapsed_lease_ends_the_wait_and_names_the_straggler() {
    let mut core = CoherenceCore::new(node("writer"));
    let waiting = [holder("a", Some(TOKEN)), holder("silent", None)];
    assert_eq!(
        core.step(TOKEN, &waiting),
        CoherenceStep::Waiting {
            on: vec![node("silent")],
        }
    );
    // `silent` never acknowledged, and this writer's engine has now
    // expired its `~lease` entry: it is out of the snapshot, and out of
    // service until it re-synchronizes.
    assert_eq!(
        core.step(TOKEN, &[holder("a", Some(TOKEN))]),
        CoherenceStep::LeaseLapsed {
            stragglers: vec![node("silent")],
        }
    );
    assert_eq!(core.in_flight(), 0);
}

#[test]
fn a_renewed_lease_does_not_re_enter_a_wait_it_already_lapsed_out_of() {
    let mut core = CoherenceCore::new(node("writer"));
    let both = [holder("a", None), holder("flapper", None)];
    assert!(matches!(
        core.step(TOKEN, &both),
        CoherenceStep::Waiting { .. }
    ));
    // `flapper`'s lease expires in the writer's view…
    assert_eq!(
        core.step(TOKEN, &[holder("a", None)]),
        CoherenceStep::Waiting {
            on: vec![node("a")],
        }
    );
    // …and it renews a moment later, still not having applied the write.
    // It lapsed, so it is in `NeedsResync` and cannot serve: waiting on it
    // again would stall the writer for nothing.
    assert_eq!(
        core.step(TOKEN, &both),
        CoherenceStep::Waiting {
            on: vec![node("a")],
        }
    );
    assert_eq!(
        core.step(TOKEN, &[holder("a", Some(TOKEN)), holder("flapper", None)]),
        CoherenceStep::LeaseLapsed {
            stragglers: vec![node("flapper")],
        }
    );
}

#[test]
fn a_reader_that_takes_a_lease_mid_write_is_waited_for() {
    let mut core = CoherenceCore::new(node("writer"));
    assert_eq!(
        core.step(TOKEN, &[holder("a", None)]),
        CoherenceStep::Waiting {
            on: vec![node("a")],
        }
    );
    // `late` shows up holding a lease it took after the write began: the
    // conservative direction is to wait for it too.
    assert_eq!(
        core.step(TOKEN, &[holder("a", Some(TOKEN)), holder("late", None)]),
        CoherenceStep::Waiting {
            on: vec![node("late")],
        }
    );
}

#[test]
fn a_writer_never_waits_on_itself() {
    let mut core = CoherenceCore::new(node("writer"));
    assert_eq!(
        core.step(TOKEN, &[holder("writer", None)]),
        CoherenceStep::AllApplied
    );
}

#[test]
fn abandoning_a_wait_reports_who_was_left() {
    let mut core = CoherenceCore::new(node("writer"));
    let _ = core.step(TOKEN, &[holder("a", None), holder("b", Some(TOKEN))]);
    assert_eq!(core.abandon(TOKEN), Some(vec![node("a")]));
    assert_eq!(core.in_flight(), 0);
    assert_eq!(core.abandon(TOKEN), None, "no such wait");
}

#[test]
fn writes_in_flight_are_tracked_independently() {
    let mut core = CoherenceCore::new(node("writer"));
    let older = WriteToken { epoch: 2, seq: 4 };
    let snapshot = [holder("a", Some(older))];
    assert_eq!(core.step(older, &snapshot), CoherenceStep::AllApplied);
    assert!(matches!(
        core.step(TOKEN, &snapshot),
        CoherenceStep::Waiting { .. }
    ));
    assert_eq!(core.in_flight(), 1);
}
