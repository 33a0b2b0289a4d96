use groupnet_consistency::hosted::{
    Completeness, CompletenessCore, LedgerView, Reading, Watermarks,
};
use groupnet_consistency::{NodeId, WriteToken};

/// The epoch the recovering host is activating at.
const SERVING: u64 = 6;

/// One row of a verdict table: a name, the recovering host's own applied
/// watermarks as `(writer, epoch, seq)`, and the expected verdict.
type Case = (&'static str, Vec<(&'static str, u64, u64)>, Completeness);

fn node(name: &str) -> NodeId {
    NodeId::new(name)
}

fn marks(pairs: &[(&str, u64, u64)]) -> Watermarks {
    let mut marks = Watermarks::new();
    for (writer, epoch, seq) in pairs {
        marks.insert(
            node(writer),
            WriteToken {
                epoch: *epoch,
                seq: *seq,
            },
        );
    }
    marks
}

/// A voter whose ledger is stamped `stamp` and names `applied`.
fn voter(name: &str, stamp: u64, applied: &[(&str, u64, u64)]) -> LedgerView {
    LedgerView {
        member: node(name),
        alive: true,
        reading: Some(Reading {
            lead_epoch: stamp,
            applied: marks(applied),
        }),
    }
}

/// A voter that publishes no ledger at all.
fn silent(name: &str) -> LedgerView {
    LedgerView {
        member: node(name),
        alive: true,
        reading: None,
    }
}

fn step(view: &[LedgerView], own: &[(&str, u64, u64)]) -> Completeness {
    CompletenessCore::step(SERVING, view, &marks(own))
}

fn needing(pairs: &[(&str, u64, u64)]) -> Completeness {
    Completeness::Recovering {
        needed: pairs
            .iter()
            .map(|(writer, epoch, seq)| {
                (
                    node(writer),
                    WriteToken {
                        epoch: *epoch,
                        seq: *seq,
                    },
                )
            })
            .collect(),
    }
}

const NO_MAJORITY: Completeness = Completeness::Recovering { needed: Vec::new() };

#[test]
fn a_stale_stamped_voter_is_excluded_from_the_fresh_majority() {
    // Three voters, majority two. Only `a` has adopted the new epoch, so
    // there is no fresh majority — and the host waits even though the two
    // stale readings agree with each other and would have "covered" a
    // target numerically. Freshness is a count, not an arithmetic.
    let stale = vec![
        voter("a", SERVING, &[("old-host", 5, 9)]),
        voter("b", 5, &[("old-host", 5, 9)]),
        voter("c", 5, &[("old-host", 5, 9)]),
    ];
    assert_eq!(step(&stale, &[("old-host", 5, 9)]), NO_MAJORITY);
    // One more voter adopts the epoch and the majority is fresh.
    let fresh = vec![
        voter("a", SERVING, &[("old-host", 5, 9)]),
        voter("b", SERVING, &[("old-host", 5, 9)]),
        voter("c", 5, &[("old-host", 5, 9)]),
    ];
    assert_eq!(step(&fresh, &[("old-host", 5, 9)]), Completeness::Complete);
}

#[test]
fn a_stale_voters_watermark_does_not_enter_the_target() {
    // `c` is stale and further ahead than either fresh voter. It is outside
    // `S_r`, so it does not raise the target: anything it applied that was
    // genuinely *committed* has its own witness inside the fresh majority.
    let view = vec![
        voter("a", SERVING, &[("old-host", 5, 4)]),
        voter("b", SERVING, &[("old-host", 5, 4)]),
        voter("c", 5, &[("old-host", 5, 99)]),
    ];
    assert_eq!(step(&view, &[("old-host", 5, 4)]), Completeness::Complete);
}

#[test]
fn a_voter_stamped_above_the_serving_epoch_is_still_a_witness() {
    // This host is already being deposed and will learn so. Meanwhile a
    // reading from a *later* view is, if anything, a better witness than one
    // stamped exactly at `SERVING`.
    let view = vec![
        voter("a", SERVING + 3, &[("old-host", 5, 9)]),
        voter("b", SERVING, &[("old-host", 5, 9)]),
        silent("c"),
    ];
    assert_eq!(step(&view, &[("old-host", 5, 9)]), Completeness::Complete);
}

#[test]
fn the_target_is_the_max_over_the_fresh_majority_per_writer() {
    // Every writer *any* fresh voter names contributes, and the target is
    // the highest watermark any of them holds — the monotonicity fold.
    let view = vec![
        voter("a", SERVING, &[("h1", 5, 4), ("h2", 2, 1)]),
        voter("b", SERVING, &[("h1", 5, 9)]),
        voter("c", SERVING, &[("h3", 1, 7)]),
    ];
    assert_eq!(
        step(&view, &[]),
        needing(&[("h1", 5, 9), ("h2", 2, 1), ("h3", 1, 7)])
    );
    // Reaching every target — at it, or past it — completes.
    assert_eq!(
        step(&view, &[("h1", 5, 9), ("h2", 2, 1), ("h3", 1, 7)]),
        Completeness::Complete
    );
    assert_eq!(
        step(&view, &[("h1", 6, 1), ("h2", 2, 4), ("h3", 1, 7)]),
        Completeness::Complete,
        "epoch-major: a newer life covers an older target"
    );
    // One writer short is enough to keep refusing service, and only that
    // writer is named.
    assert_eq!(
        step(&view, &[("h1", 5, 9), ("h2", 2, 1), ("h3", 1, 6)]),
        needing(&[("h3", 1, 7)])
    );
}

#[test]
fn the_boundary_majorities_are_exact() {
    let fresh = |name: &str| voter(name, SERVING, &[("old-host", 5, 1)]);
    // Three voters, majority two.
    assert_eq!(
        step(&[fresh("a"), silent("b"), silent("c")], &[]),
        NO_MAJORITY
    );
    assert_eq!(
        step(
            &[fresh("a"), fresh("b"), silent("c")],
            &[("old-host", 5, 1)]
        ),
        Completeness::Complete
    );
    // Four voters, majority three — an even roster does not round down.
    assert_eq!(
        step(&[fresh("a"), fresh("b"), silent("c"), silent("d")], &[]),
        NO_MAJORITY
    );
    assert_eq!(
        step(
            &[fresh("a"), fresh("b"), fresh("c"), silent("d")],
            &[("old-host", 5, 1)]
        ),
        Completeness::Complete
    );
    // A roster of one is its own majority; an empty roster never serves.
    assert_eq!(
        step(&[fresh("a")], &[("old-host", 5, 1)]),
        Completeness::Complete
    );
    assert_eq!(step(&[silent("a")], &[]), NO_MAJORITY);
    assert_eq!(step(&[], &[]), NO_MAJORITY, "an empty roster is fail-safe");
}

/// The intersection argument, played out as a table.
///
/// Roster `{a, b, c}`, majority two. Old host `h` committed the write
/// `(5, 9)` at epoch 5 with commit majority `S_c = {a, b}` — both stamped 5,
/// both applied `(5, 9)`. Then `b` and `c` adopt epoch 6 and republish; `a`
/// is partitioned and stays stamped 5. The new host recovers at 6 from
/// `S_r = {b, c}`, and `S_c ∩ S_r = {b}` is what forces the target up to the
/// acked write — even though `c`, the other half of the fresh majority, was
/// far behind.
#[test]
fn the_intersection_forces_the_target_past_every_acked_write() {
    let acked = ("h", 5, 9);
    let after_migration = vec![
        // `a`: still in the old view. Not a witness.
        voter("a", 5, &[acked]),
        // `b`: the intersection voter. Counted the ack at stamp 5, and its
        // reading at stamp 6 is a strictly later publication of a monotone
        // watermark — so it still names `(5, 9)`.
        voter("b", 6, &[acked]),
        // `c`: fresh, and far behind — it never applied the acked write.
        voter("c", 6, &[("h", 5, 2)]),
    ];
    let cases: Vec<Case> = vec![
        (
            "a new host that applied nothing must reach the acked write",
            vec![],
            needing(&[acked]),
        ),
        (
            "…and one that got as far as `c` did is still short of it",
            vec![("h", 5, 2)],
            needing(&[acked]),
        ),
        (
            "one sequence short is still short",
            vec![("h", 5, 8)],
            needing(&[acked]),
        ),
        (
            "at the acked write, service may begin",
            vec![acked],
            Completeness::Complete,
        ),
        (
            "past it, likewise",
            vec![("h", 5, 20)],
            Completeness::Complete,
        ),
    ];
    for (name, own, expected) in cases {
        assert_eq!(step(&after_migration, &own), expected, "{name}");
    }
    // The load-bearing half, stated as its own assertion: had the rule
    // counted `a`'s stale reading toward `S_r` and dropped the freshness
    // test, `{a, c}` would also be a "majority" — one whose target is `c`'s
    // (5, 2)… and `a`'s (5, 9). The max saves this particular shape, but the
    // shape the freshness test really refuses is the one where the old host
    // commits *after* the recovery read. That is why `S_r` is counted in
    // fresh readings and not in readings at all.
    let all_stale = vec![
        voter("a", 5, &[("h", 5, 2)]),
        voter("b", 5, &[("h", 5, 2)]),
        voter("c", 5, &[("h", 5, 2)]),
    ];
    assert_eq!(
        step(&all_stale, &[("h", 5, 2)]),
        NO_MAJORITY,
        "a pre-migration majority is not a recovery majority"
    );
}
