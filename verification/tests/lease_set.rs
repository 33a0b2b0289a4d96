use std::time::Duration;

use groupnet_consistency::acks::AckLedger;
use groupnet_consistency::group::{Entries, EntryWrite, GroupView, Status};
use groupnet_consistency::lease::{
    decode_grants, decode_renewal, ClockMs, CoherenceCore, CoherenceOutcome, LeaseConfig,
    LeaseConfigError, LeaseState, Leases, RenewalId, CAP_LEASE,
};
use groupnet_consistency::peers::{Signal, Wake};
use groupnet_consistency::span::clamp_ms;
use groupnet_consistency::{GroupId, NodeId, WriteToken};

const TOKEN: WriteToken = WriteToken { epoch: 2, seq: 5 };

fn node(name: &str) -> NodeId {
    NodeId::new(name)
}

/// A lease of one second with a margin of ten milliseconds.
fn cfg() -> LeaseConfig {
    LeaseConfig {
        duration: Duration::from_secs(1),
        renew_every: Duration::from_millis(333),
        rate_margin: Duration::from_millis(10),
    }
}

fn group(members: &[&str]) -> GroupView {
    let mut group = GroupView::new(GroupId::new("g"));
    for member in members {
        group.statuses.insert(node(member), Status::Alive);
        group.members.push(node(member));
        group
            .capabilities
            .insert(node(member), vec![CAP_LEASE.to_owned()]);
    }
    group
}

fn publish(group: &mut GroupView, from: &str, write: EntryWrite) {
    let mut entries = group
        .entries
        .remove(&node(from))
        .unwrap_or_else(Entries::new);
    entries.put(write.key, write.value);
    group.entries.insert(node(from), entries);
}

const WINDOW: Duration = Duration::from_millis(50);

#[test]
fn a_reader_serves_once_it_is_warm_confirmed_and_caught_up() {
    let mut shown = group(&["g", "r"]);
    let mut reader = Leases::named("pages", node("r"), cfg(), 7);
    let granter = Leases::named("pages", node("g"), cfg(), 9);
    let renewal = reader.renew(ClockMs(100));
    assert_eq!(renewal.key, "~lease:pages");
    assert_eq!(renewal.ttl_ms, Some(1_000));
    assert_eq!(
        decode_renewal(&renewal.value),
        Some(RenewalId { epoch: 7, seq: 1 })
    );
    publish(&mut shown, "r", renewal);

    let grants = granter.grant_turn(&shown, None).expect("a first map");
    assert_eq!(grants.key, "~lease:g:pages");
    assert_eq!(decode_grants(&grants.value).len(), 1);
    assert!(
        granter.grant_turn(&shown, Some(&grants.value)).is_none(),
        "an unchanged map is not published again"
    );
    publish(&mut shown, "g", grants);
    assert_eq!(
        reader.granted_by(&shown, &node("g")),
        Some(RenewalId { epoch: 7, seq: 1 })
    );

    reader.refresh_view(&shown, Duration::from_millis(40), WINDOW);
    assert_eq!(reader.confirmed(), Some(RenewalId { epoch: 7, seq: 1 }));
    assert!(!reader.mark_caught_up(ClockMs(200)), "still cold");
    reader.refresh_view(&shown, Duration::from_millis(200), WINDOW);
    assert!(!reader.valid(ClockMs(200)), "not caught up");
    assert!(reader.mark_caught_up(ClockMs(200)));
    assert!(reader.valid(ClockMs(1_089)));
    assert!(!reader.valid(ClockMs(1_090)));
    assert_eq!(
        reader.view().remaining(ClockMs(1_000)),
        Some(Duration::from_millis(90))
    );
    assert_eq!(reader.view().remaining(ClockMs(1_090)), None);

    reader.require_resync(ClockMs(300));
    assert!(!reader.valid(ClockMs(300)));
    assert_eq!(reader.state(ClockMs(300)), LeaseState::NeedsResync);
    assert!(reader.mark_caught_up(ClockMs(300)));
    reader.refresh_view(&shown, Duration::from_millis(1_090), WINDOW);
    assert_eq!(reader.view().lapses(), 1);
    assert_eq!(reader.leave(ClockMs(1_100)), "~lease:pages");
    assert!(reader.has_left());
    assert!(reader.grant_turn(&shown, None).is_none());
}

#[test]
fn a_new_life_starts_over_with_a_renewal_of_its_own() {
    let reader = Leases::new(node("r"), cfg(), 7);
    assert_eq!(reader.epoch(), 7);
    let (reader, write) = reader.with_epoch(8, ClockMs(5));
    assert_eq!(reader.epoch(), 8);
    assert_eq!(
        decode_renewal(&write.value),
        Some(RenewalId { epoch: 8, seq: 1 })
    );
    assert_eq!(write.key, "~lease");
    assert!(!reader.valid(ClockMs(5)));
    assert_eq!(reader.config().duration_ms(), 1_000);
}

#[test]
fn a_coherent_write_waits_for_holders_and_for_a_cold_start() {
    let mut shown = group(&["a", "w"]);
    let writer = Leases::new(node("w"), cfg(), 1);
    let mut wait = CoherenceCore::new(node("w"));
    let mut look = |shown: &GroupView, warm: bool, expired: bool| {
        writer.invalidated_coherently(&mut wait, shown, TOKEN, &node("w"), warm, expired)
    };
    assert_eq!(look(&shown, false, false), None, "nobody seen yet");
    assert_eq!(
        look(&shown, false, true),
        Some(CoherenceOutcome::TimedOut {
            waiting_on: vec![node("a")]
        })
    );
    assert_eq!(look(&shown, true, false), Some(CoherenceOutcome::AllApplied));

    let mut reader = Leases::new(node("a"), cfg(), 3);
    publish(&mut shown, "a", reader.renew(ClockMs(0)));
    assert_eq!(writer.holders(&shown), vec![node("a")]);
    assert_eq!(look(&shown, true, false), None, "the holder is behind");
    assert_eq!(
        look(&group(&["a", "w"]), true, false),
        Some(CoherenceOutcome::LeaseLapsed {
            stragglers: vec![node("a")]
        })
    );
    let mut acks = AckLedger::new();
    publish(
        &mut shown,
        "a",
        acks.record(&node("w"), TOKEN).expect("an advance"),
    );
    assert_eq!(look(&shown, false, false), Some(CoherenceOutcome::AllApplied));
    let snapshot = writer.wait_snapshot(&shown, &node("w"));
    assert_eq!(snapshot.len(), 1);
    assert_eq!(snapshot[0].applied, Some(TOKEN));
    assert_eq!(
        writer.warmup_hold(true, &shown, &node("w"), &[]),
        None,
        "a warm node is never held"
    );
    assert_eq!(
        writer.warmup_hold(false, &shown, &node("w"), &snapshot),
        None
    );
}

#[test]
fn the_granter_folds_anew_for_what_concerns_it() {
    let granter = Leases::new(node("g"), cfg(), 1);
    let changed = |from: &str, key: &str| Signal::NodeStateChanged {
        node: node(from),
        key: key.to_owned(),
    };
    assert_eq!(granter.grant_trigger(&changed("r", "~lease")), Wake::One);
    assert_eq!(granter.grant_trigger(&changed("g", "~lease")), Wake::Ignore);
    assert_eq!(granter.grant_trigger(&changed("r", "~writes")), Wake::Ignore);
    assert_eq!(granter.grant_trigger(&Signal::MembershipChanged), Wake::All);
    assert_eq!(granter.grant_trigger(&Signal::Lagged), Wake::All);
    assert_eq!(granter.grant_trigger(&Signal::Other), Wake::Ignore);
    assert_eq!(granter.grant_trigger(&Signal::Closed), Wake::Stop);
}

#[test]
fn tuning_errors_say_what_is_wrong() {
    assert_eq!(
        LeaseConfigError::DurationTooShort.message(),
        "lease duration rounds to zero milliseconds"
    );
    assert_eq!(
        LeaseConfigError::RenewalCadence.message(),
        "renew_every must be non-zero and at most half the lease duration"
    );
    assert_eq!(
        LeaseConfigError::MarginTooLarge.message(),
        "rate_margin leaves no serve window"
    );
    for ms in [6, 15, 100, 2_000] {
        let derived = LeaseConfig::for_duration(Duration::from_millis(ms));
        assert_eq!(derived.validate(), Ok(()), "{ms} ms");
    }
    assert_eq!(
        LeaseConfig::for_duration(Duration::from_millis(5)).validate(),
        Err(LeaseConfigError::MarginTooLarge)
    );
}

#[test]
fn a_span_is_counted_in_whole_milliseconds_and_capped() {
    assert_eq!(clamp_ms(Duration::from_micros(1_999)), 1);
    assert_eq!(clamp_ms(Duration::ZERO), 0);
    assert_eq!(clamp_ms(Duration::MAX), u64::MAX);
}
