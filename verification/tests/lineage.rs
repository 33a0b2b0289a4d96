use groupnet_consistency::hosted::lineage::{Lineage, HELD_CAP};
use groupnet_consistency::hosted::HostedRead;
use groupnet_consistency::{NodeId, PeerWrite, WriteToken};

fn node(name: &str) -> NodeId {
    NodeId::new(name)
}

fn wrote(peer: &str, epoch: u64, seq: u64) -> PeerWrite<String> {
    PeerWrite::Wrote {
        peer: node(peer),
        token: WriteToken { epoch, seq },
        key: format!("{peer}/{epoch}/{seq}"),
    }
}

fn inner_gap(peer: &str, epoch: u64, seq: u64) -> PeerWrite<String> {
    PeerWrite::Gap {
        peer: node(peer),
        missed_through: WriteToken { epoch, seq },
    }
}

fn read(peer: &str, epoch: u64, seq: u64) -> HostedRead<String> {
    HostedRead::Wrote {
        host: node(peer),
        token: WriteToken { epoch, seq },
        key: format!("{peer}/{epoch}/{seq}"),
    }
}

fn gap(epoch: u64, seq: u64) -> HostedRead<String> {
    HostedRead::Gap {
        missed_through: WriteToken { epoch, seq },
    }
}

fn migrated(epoch: u64, host: Option<&str>) -> HostedRead<String> {
    HostedRead::Migrated {
        epoch,
        host: host.map(node),
    }
}

/// Everything the lineage has queued, drained.
fn drain(lineage: &mut Lineage<String>) -> Vec<HostedRead<String>> {
    let mut out = Vec::new();
    while let Some(event) = lineage.pop() {
        out.push(event);
    }
    out
}

/// A lineage that has adopted `(epoch, host)` and delivered nothing yet.
fn adopted(epoch: u64, host: &str) -> Lineage<String> {
    let mut lineage = Lineage::new();
    lineage.adopt(epoch, Some(node(host)));
    lineage
}

#[test]
fn adopting_a_pair_announces_it_once_and_only_when_it_changes() {
    let mut lineage = Lineage::new();
    // The initial belief is already `(0, None)`, so re-adopting it is silent
    // — a subscriber in an unelected group emits nothing at all.
    lineage.adopt(0, None);
    assert!(drain(&mut lineage).is_empty());

    lineage.adopt(5, Some(node("h1")));
    assert_eq!(drain(&mut lineage), vec![migrated(5, Some("h1"))]);
    lineage.adopt(5, Some(node("h1")));
    assert!(
        drain(&mut lineage).is_empty(),
        "an unchanged pair is silent"
    );

    // A hostless epoch is a migration like any other, and must be announced:
    // it is when a follower learns the group has no authority.
    lineage.adopt(6, None);
    assert_eq!(drain(&mut lineage), vec![migrated(6, None)]);
    lineage.adopt(7, Some(node("h2")));
    assert_eq!(drain(&mut lineage), vec![migrated(7, Some("h2"))]);
}

#[test]
fn opening_a_lineage_emits_one_gap_then_the_writes() {
    let mut lineage = adopted(5, "h1");
    assert_eq!(drain(&mut lineage), vec![migrated(5, Some("h1"))]);
    for seq in 1..=3 {
        lineage.judge(wrote("h1", 5, seq));
    }
    assert_eq!(
        drain(&mut lineage),
        vec![
            // `(5, 0)` — nothing of epoch 5 was missed, and epoch-major
            // ordering makes it cover every earlier epoch outright.
            gap(5, 0),
            read("h1", 5, 1),
            read("h1", 5, 2),
            read("h1", 5, 3),
        ]
    );
    assert_eq!(lineage.gaps_seen(), 1, "one gap opens a lineage, and only one");
}

#[test]
fn a_lineage_joined_mid_life_gaps_over_everything_before_it() {
    // The subscriber's first sight of an established host: its ring starts
    // at 40, so writes 1..=39 were never seen and must be remediated.
    let mut lineage = adopted(5, "h1");
    lineage.judge(wrote("h1", 5, 40));
    assert_eq!(
        drain(&mut lineage),
        vec![migrated(5, Some("h1")), gap(5, 39), read("h1", 5, 40)]
    );
}

#[test]
fn only_the_adopted_host_of_an_epoch_may_write_into_it() {
    let mut lineage = adopted(5, "h1");
    lineage.judge(wrote("impostor", 5, 1));
    assert_eq!(drain(&mut lineage), vec![migrated(5, Some("h1"))]);
    // …and a hostless epoch authorizes nobody at all.
    let mut hostless = Lineage::new();
    hostless.adopt(5, None);
    hostless.judge(wrote("h1", 5, 1));
    assert_eq!(drain(&mut hostless), vec![migrated(5, None)]);
}

#[test]
fn writes_above_the_watch_are_held_until_the_pair_is_adopted() {
    let mut lineage = adopted(5, "h1");
    lineage.judge(wrote("h1", 5, 1));
    assert_eq!(
        drain(&mut lineage),
        vec![migrated(5, Some("h1")), gap(5, 0), read("h1", 5, 1)]
    );
    // The successor is already publishing; this node's watch has not caught
    // up. Nothing is delivered, and nothing is lost.
    lineage.judge(wrote("h2", 6, 1));
    lineage.judge(wrote("h2", 6, 2));
    assert!(drain(&mut lineage).is_empty(), "held, not delivered");
    assert_eq!(lineage.held_len(), 2);

    lineage.adopt(6, Some(node("h2")));
    assert_eq!(
        drain(&mut lineage),
        vec![
            migrated(6, Some("h2")),
            gap(6, 0),
            read("h2", 6, 1),
            read("h2", 6, 2),
        ],
        "the migration is announced, gapped once, then replayed in order"
    );
    assert_eq!(lineage.gaps_seen(), 2, "one gap per lineage epoch opened");
}

/// The refinement the recovering host depends on: adopting `e′` does **not**
/// blind this subscriber to epoch-`e` writes it has not delivered yet. Only
/// the first delivered write of the new lineage closes the old one.
#[test]
fn the_previous_hosts_tail_drains_until_the_successors_lineage_speaks() {
    let mut lineage = adopted(5, "h1");
    lineage.judge(wrote("h1", 5, 1));
    drain(&mut lineage);

    // Elected elsewhere; this node adopts the new pair while still behind.
    lineage.adopt(6, Some(node("h2")));
    assert_eq!(drain(&mut lineage), vec![migrated(6, Some("h2"))]);

    // The tail the recovery target is measured against still arrives.
    lineage.judge(wrote("h1", 5, 2));
    lineage.judge(wrote("h1", 5, 3));
    assert_eq!(
        drain(&mut lineage),
        vec![read("h1", 5, 2), read("h1", 5, 3)],
        "a host elected at 6 must still be able to reach its target at 5"
    );

    // The successor speaks: the lineage moves, and from here the old host is
    // dead to this subscriber.
    lineage.judge(wrote("h2", 6, 1));
    assert_eq!(drain(&mut lineage), vec![gap(6, 0), read("h2", 6, 1)]);
    lineage.judge(wrote("h1", 5, 4));
    assert!(
        drain(&mut lineage).is_empty(),
        "the deposed host's late publish dies at the cursor"
    );
}

/// The me-is-host case, which no delivered write can ever close: this node
/// is the adopted host of `6`, so nothing of *its* lineage arrives here.
/// Service is the signal, and the cut takes the predecessor's tail with it —
/// silently, because the events are dead rather than missed.
#[test]
fn cutting_at_service_kills_the_predecessors_lineage_silently() {
    let mut lineage = adopted(5, "h1");
    lineage.judge(wrote("h1", 5, 1));
    drain(&mut lineage);

    // Elected here. The tail still drains — this node may need it to reach
    // the recovery target its peers report — and it is delivered in order.
    lineage.adopt(6, Some(node("me")));
    lineage.judge(wrote("h1", 5, 2));
    assert_eq!(
        drain(&mut lineage),
        vec![migrated(6, Some("me")), read("h1", 5, 2)],
        "a recovering host still drains its predecessor"
    );

    // One epoch-5 write arrives and is queued, and *then* this node starts
    // serving 6. The queued event dies with the lineage: handing it back
    // would order it behind writes this node has already authored at 6.
    lineage.judge(wrote("h1", 5, 3));
    lineage.cut(6);
    assert!(
        drain(&mut lineage).is_empty(),
        "the cut emits nothing and keeps nothing"
    );
    assert_eq!(lineage.gaps_seen(), 1, "a cut is not a gap: nothing was missed");
    assert!(
        !lineage.is_open(),
        "the cursor came off the dead lineage"
    );

    // …and from here the whole hostship is dead, writes and inner gaps
    // alike, however late they arrive.
    lineage.judge(wrote("h1", 5, 4));
    lineage.judge(inner_gap("h1", 5, 9));
    assert!(drain(&mut lineage).is_empty());
    assert!(lineage.held_len() == 0, "dropped, not held");
}

/// The cut is monotone and idempotent, so an apply loop may take it
/// unconditionally on every turn — and a *higher* epoch than the watch has
/// adopted still binds, which is what makes it safe against a lagging watch.
#[test]
fn a_cut_is_monotone_and_outranks_a_lagging_watch() {
    let mut lineage = adopted(5, "h1");
    drain(&mut lineage);
    lineage.cut(7);
    lineage.cut(6);
    lineage.cut(0);
    assert_eq!(lineage.cut_at(), 7, "a lower cut never lowers the floor");

    // The watch still says (5, h1) — this node's own leadership reading is
    // behind the service it has already been admitted to. An epoch-5 write
    // must not open a lineage under it.
    lineage.judge(wrote("h1", 5, 1));
    assert!(drain(&mut lineage).is_empty());
    // A held write at or above the floor survives the cut and is replayed
    // when its pair is adopted, exactly as an uncut one would be.
    lineage.judge(wrote("h2", 8, 1));
    lineage.cut(8);
    assert_eq!(lineage.held_len(), 1, "at the floor, so still held");
    lineage.adopt(8, Some(node("h2")));
    assert_eq!(
        drain(&mut lineage),
        vec![migrated(8, Some("h2")), gap(8, 0), read("h2", 8, 1)]
    );
}

/// A migration announcement outlives the cut that kills its lineage: it is
/// the watch's, not a writer's, and dropping it would cost the consumer the
/// `CommitLedger::refresh` the recovery rule is built on.
#[test]
fn a_cut_keeps_the_migration_it_finds_queued() {
    let mut lineage = adopted(5, "h1");
    lineage.judge(wrote("h1", 5, 1));
    lineage.adopt(6, Some(node("me")));
    lineage.cut(6);
    assert_eq!(
        drain(&mut lineage),
        vec![migrated(5, Some("h1")), migrated(6, Some("me"))],
        "both hand-overs survive; neither of h1's writes does"
    );
}

#[test]
fn a_skipped_hostship_is_never_delivered() {
    // This node went straight from 5 to 7 (it heard 7 first). Epoch 6's
    // writes can never be authorized — nothing ever names 6's host — so they
    // are dropped rather than held forever.
    let mut lineage = adopted(5, "h1");
    lineage.judge(wrote("h1", 5, 1));
    drain(&mut lineage);
    lineage.adopt(7, Some(node("h3")));
    drain(&mut lineage);
    lineage.judge(wrote("h2", 6, 1));
    assert!(drain(&mut lineage).is_empty());
    assert!(lineage.held_len() == 0, "dropped, not held");
}

#[test]
fn duplicate_and_stale_sequences_inside_one_life_are_idempotent() {
    let mut lineage = adopted(5, "h1");
    for seq in [1, 2, 1, 2, 3, 2] {
        lineage.judge(wrote("h1", 5, seq));
    }
    assert_eq!(
        drain(&mut lineage),
        vec![
            migrated(5, Some("h1")),
            gap(5, 0),
            read("h1", 5, 1),
            read("h1", 5, 2),
            read("h1", 5, 3),
        ],
        "the feed entry is state, so a re-scan re-offers what was delivered"
    );
}

#[test]
fn a_ring_that_overflows_mid_lineage_gaps_again() {
    let mut lineage = adopted(5, "h1");
    lineage.judge(wrote("h1", 5, 1));
    drain(&mut lineage);
    // The host's ring advanced past this subscriber: the inner subscriber
    // says so, and the lineage passes it through.
    lineage.judge(inner_gap("h1", 5, 9));
    lineage.judge(wrote("h1", 5, 10));
    assert_eq!(drain(&mut lineage), vec![gap(5, 9), read("h1", 5, 10)]);
    // A gap already covered by what was delivered changes nothing.
    lineage.judge(inner_gap("h1", 5, 5));
    assert!(drain(&mut lineage).is_empty());
    assert_eq!(lineage.gaps_seen(), 2);
}

#[test]
fn a_lineage_opened_by_a_gap_emits_exactly_that_one_gap() {
    // The successor's first *visible* write is 8: everything below it is one
    // gap, not two.
    let mut lineage = adopted(6, "h2");
    lineage.judge(inner_gap("h2", 6, 7));
    assert_eq!(
        drain(&mut lineage),
        vec![migrated(6, Some("h2")), gap(6, 7)]
    );
    assert_eq!(lineage.gaps_seen(), 1);
    lineage.judge(wrote("h2", 6, 8));
    assert_eq!(drain(&mut lineage), vec![read("h2", 6, 8)]);
}

#[test]
fn the_held_queue_is_bounded_and_its_overflow_is_absorbed_by_the_gap() {
    let mut lineage = adopted(5, "h1");
    drain(&mut lineage);
    for seq in 1..=(HELD_CAP as u64 + 5) {
        lineage.judge(wrote("h2", 9, seq));
    }
    assert_eq!(lineage.held_len(), HELD_CAP, "bounded");
    lineage.adopt(9, Some(node("h2")));
    let events = drain(&mut lineage);
    assert_eq!(events[0], migrated(9, Some("h2")));
    assert_eq!(
        events[1],
        gap(9, 5),
        "the five discarded writes are covered by the opening gap, not lost"
    );
    assert_eq!(events[2], read("h2", 9, 6));
    assert_eq!(events.len(), HELD_CAP + 2);
}

#[test]
fn a_whole_run_is_told_without_a_silent_hole() {
    let mut lineage = adopted(5, "a");
    let mut taken = Vec::new();
    lineage.judge(wrote("a", 5, 1));
    lineage.judge(wrote("a", 5, 2));
    taken.extend(lineage.pop());
    taken.extend(lineage.pop());
    lineage.judge(wrote("b", 7, 3));
    lineage.judge(wrote("a", 5, 2));
    lineage.judge(wrote("a", 5, 6));
    taken.extend(lineage.pop());
    lineage.adopt(7, Some(node("b")));
    lineage.judge(wrote("b", 7, 4));
    lineage.cut(7);
    lineage.judge(wrote("a", 5, 7));
    lineage.judge(inner_gap("b", 7, 8));
    lineage.judge(wrote("b", 7, 9));
    taken.extend(drain(&mut lineage));
    assert_eq!(
        taken,
        vec![
            migrated(5, Some("a")),
            gap(5, 0),
            read("a", 5, 1),
            migrated(7, Some("b")),
            gap(7, 2),
            read("b", 7, 3),
            read("b", 7, 4),
            gap(7, 8),
            read("b", 7, 9),
        ]
    );
}
