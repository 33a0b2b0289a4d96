use std::time::Duration;

use groupnet_consistency::lease::reader::MAX_TRACKED_RENEWALS;
use groupnet_consistency::lease::{
    ClockMs, GrantMap, LeaseConfig, LeaseCore, LeaseState, RenewalId,
};
use groupnet_consistency::NodeId;

/// D = 1000 ms, margin = 10 ms — round numbers for readable arithmetic.
fn cfg() -> LeaseConfig {
    LeaseConfig {
        duration: Duration::from_secs(1),
        renew_every: Duration::from_millis(333),
        rate_margin: Duration::from_millis(10),
    }
}

fn node(name: &str) -> NodeId {
    NodeId::new(name)
}

/// A reader core with `granters` in its roster, boot epoch 7.
fn reader(granters: &[&str]) -> LeaseCore {
    let mut core = LeaseCore::new(node("reader"), &cfg(), 7);
    let roster: Vec<NodeId> = granters.iter().map(|g| node(g)).collect();
    core.set_roster(&roster);
    core
}

/// The grant map a granter would publish, confirming `reader` at `id`.
fn grant(reader: &str, id: RenewalId) -> GrantMap {
    let mut map = GrantMap::new();
    map.insert(node(reader), id);
    map
}

/// Publishes a renewal at `at`, confirms it from every granter, and
/// affirms catch-up — the healthy steady state.
fn serve_from(core: &mut LeaseCore, at: ClockMs, granters: &[&str]) -> RenewalId {
    let id = core.on_renew(at);
    for granter in granters {
        core.observe_grant_map(&node(granter), &grant("reader", id));
    }
    assert!(core.mark_caught_up(at), "a fresh lease is live at s_i");
    id
}

#[test]
fn a_booting_reader_needs_resync_before_it_may_serve() {
    let mut core = reader(&["a"]);
    assert_eq!(core.peek(ClockMs::zero()), LeaseState::NeedsResync);
    assert!(!core.valid(ClockMs::zero()));
    // Even with a perfectly confirmed lease: boot is a lapse it slept
    // through, so the consumer must affirm catch-up first.
    let id = core.on_renew(ClockMs(100));
    core.observe_grant_map(&node("a"), &grant("reader", id));
    assert_eq!(core.serve_until(), Some(ClockMs(1_090)));
    assert_eq!(core.poll(ClockMs(200)), LeaseState::NeedsResync);
    assert!(core.mark_caught_up(ClockMs(200)));
    assert_eq!(core.poll(ClockMs(200)), LeaseState::Serving);
    assert_eq!(core.lapses(), 0, "boot is not a lapse to alarm about");
}

#[test]
fn the_serve_window_is_publish_plus_duration_minus_margin() {
    let mut core = reader(&["a"]);
    serve_from(&mut core, ClockMs(1_000), &["a"]);
    // s_i = 1000, D = 1000, margin = 10.
    assert_eq!(core.serve_until(), Some(ClockMs(1_990)));
    assert!(core.valid(ClockMs(1_989)));
    assert!(!core.valid(ClockMs(1_990)), "the boundary is exclusive");
}

#[test]
fn a_margin_at_or_past_the_duration_never_serves() {
    // Fail-closed rather than clamped: an unsatisfiable margin is a
    // configuration error `LeaseConfig::validate` reports, and the core
    // must not quietly widen it back.
    let paranoid = LeaseConfig {
        duration: Duration::from_millis(100),
        renew_every: Duration::from_millis(30),
        rate_margin: Duration::from_millis(100),
    };
    let mut core = LeaseCore::new(node("reader"), &paranoid, 7);
    core.set_roster(&[]);
    let _ = core.on_renew(ClockMs(1_000));
    assert_eq!(core.serve_until(), Some(ClockMs(1_000)));
    assert!(!core.mark_caught_up(ClockMs(1_000)));
    assert!(!core.valid(ClockMs(1_000)));
}

#[test]
fn confirmation_advances_only_when_every_granter_confirms() {
    let mut core = reader(&["a", "b", "c"]);
    let first = core.on_renew(ClockMs(0));
    // Nobody has confirmed: no lease at all.
    assert_eq!(core.confirmed(), None);
    assert_eq!(core.serve_until(), None);
    for granter in ["a", "b"] {
        core.observe_grant_map(&node(granter), &grant("reader", first));
    }
    assert_eq!(core.confirmed(), None, "one granter still silent");
    core.observe_grant_map(&node("c"), &grant("reader", first));
    assert_eq!(core.confirmed(), Some(first));

    // A second renewal that only two granters adopt freezes confirmation
    // at the first — the min over the min-set, not the max.
    let second = core.on_renew(ClockMs(333));
    for granter in ["a", "b"] {
        core.observe_grant_map(&node(granter), &grant("reader", second));
    }
    assert_eq!(core.confirmed(), Some(first), "a silent granter freezes");
    assert_eq!(core.serve_until(), Some(ClockMs(990)), "window from s_1");
    core.observe_grant_map(&node("c"), &grant("reader", second));
    assert_eq!(core.confirmed(), Some(second), "all confirm ⇒ advance");
    assert_eq!(core.serve_until(), Some(ClockMs(1_323)));
}

#[test]
fn a_reaped_granter_leaves_the_min_set_and_a_suspect_one_does_not() {
    let mut core = reader(&["a", "quiet"]);
    let id = core.on_renew(ClockMs(0));
    core.observe_grant_map(&node("a"), &grant("reader", id));
    assert_eq!(core.confirmed(), None, "the quiet granter freezes it");

    // Suspect (and Dead-but-not-reaped) members stay in the roster the
    // shell passes, so nothing changes: they may still be writing.
    core.set_roster(&[node("a"), node("quiet")]);
    assert_eq!(core.confirmed(), None);

    // Reaped: gone from membership entirely, so it leaves the min-set and
    // confirmation unfreezes.
    core.set_roster(&[node("a")]);
    assert_eq!(core.confirmed(), Some(id));
}

#[test]
fn an_empty_roster_confirms_vacuously() {
    let mut core = reader(&[]);
    let id = core.on_renew(ClockMs(500));
    assert_eq!(core.confirmed(), Some(id), "nobody to wait on");
    assert_eq!(core.serve_until(), Some(ClockMs(1_490)));
    assert!(core.mark_caught_up(ClockMs(500)));
    assert!(core.valid(ClockMs(1_000)));
}

#[test]
fn nothing_published_is_no_lease_however_many_granters_confirm() {
    let mut core = reader(&["a"]);
    core.observe_grant_map(&node("a"), &grant("reader", RenewalId { epoch: 7, seq: 1 }));
    assert_eq!(core.confirmed(), None);
    assert_eq!(core.serve_until(), None);
    assert!(!core.mark_caught_up(ClockMs(0)));
}

#[test]
fn a_grant_from_a_previous_life_never_confirms_this_one() {
    let mut core = reader(&["a"]);
    let id = core.on_renew(ClockMs(0));
    assert_eq!(id.epoch, 7);
    // The granter still advertises what it adopted from our last boot.
    core.observe_grant_map(
        &node("a"),
        &grant("reader", RenewalId { epoch: 6, seq: 99 }),
    );
    assert_eq!(core.confirmed_by(&node("a")), None);
    assert_eq!(core.confirmed(), None, "epoch-major: an old life is dead");
    // …and a grant from an impossible future life is refused just as
    // firmly, rather than being trusted because it is larger.
    core.observe_grant_map(&node("a"), &grant("reader", RenewalId { epoch: 8, seq: 1 }));
    assert_eq!(core.confirmed(), None);
    core.observe_grant_map(&node("a"), &grant("reader", id));
    assert_eq!(core.confirmed(), Some(id));
}

#[test]
fn a_granter_that_confirms_someone_else_confirms_nothing_here() {
    let mut core = reader(&["a"]);
    let id = core.on_renew(ClockMs(0));
    core.observe_grant_map(&node("a"), &grant("another-reader", id));
    assert_eq!(core.confirmed(), None);
}

#[test]
fn a_granter_that_regresses_shortens_the_window() {
    let mut core = reader(&["a"]);
    let first = core.on_renew(ClockMs(0));
    let second = core.on_renew(ClockMs(300));
    core.observe_grant_map(&node("a"), &grant("reader", second));
    assert_eq!(core.serve_until(), Some(ClockMs(1_290)));
    // The granter restarted and re-folded a smaller map: state, not a log.
    core.observe_grant_map(&node("a"), &grant("reader", first));
    assert_eq!(core.serve_until(), Some(ClockMs(990)));
    // And a granter that drops us entirely freezes us out.
    core.observe_grant_map(&node("a"), &GrantMap::new());
    assert_eq!(core.serve_until(), None);
}

#[test]
fn a_bogus_grant_beyond_what_we_published_cannot_extend_the_window() {
    let mut core = reader(&["a"]);
    let id = core.on_renew(ClockMs(0));
    core.observe_grant_map(
        &node("a"),
        &grant("reader", RenewalId { epoch: 7, seq: 99 }),
    );
    assert_eq!(core.confirmed(), Some(id), "capped at what we published");
    assert_eq!(core.serve_until(), Some(ClockMs(990)));
}

#[test]
fn a_lapse_is_one_edge_then_needs_resync_until_the_consumer_affirms() {
    let mut core = reader(&["a"]);
    serve_from(&mut core, ClockMs(0), &["a"]);
    assert_eq!(core.poll(ClockMs(989)), LeaseState::Serving);
    // 990 = 0 + 1000 - 10.
    assert_eq!(core.poll(ClockMs(990)), LeaseState::Lapsed, "the edge");
    assert_eq!(core.lapses(), 1);
    assert_eq!(
        core.poll(ClockMs(991)),
        LeaseState::NeedsResync,
        "the level"
    );
    assert_eq!(core.lapses(), 1, "one lapse, one alarm");

    // A fresh, fully confirmed lease is *not* enough on its own.
    let renewed = core.on_renew(ClockMs(1_000));
    core.observe_grant_map(&node("a"), &grant("reader", renewed));
    assert_eq!(core.poll(ClockMs(1_001)), LeaseState::NeedsResync);
    assert!(!core.valid(ClockMs(1_001)));
    assert!(core.mark_caught_up(ClockMs(1_001)));
    assert!(core.valid(ClockMs(1_001)));
}

#[test]
fn catch_up_cannot_be_affirmed_from_inside_a_lapse() {
    let mut core = reader(&["a"]);
    serve_from(&mut core, ClockMs(0), &["a"]);
    assert_eq!(core.poll(ClockMs(990)), LeaseState::Lapsed);
    // The consumer flushed, but its lease is still lapsed: affirming now
    // would put state fetched during the lapse into service.
    assert!(!core.mark_caught_up(ClockMs(995)));
    assert_eq!(core.peek(ClockMs(995)), LeaseState::NeedsResync);
    // Once a renewal is confirmed again, the affirmation takes.
    let renewed = core.on_renew(ClockMs(996));
    core.observe_grant_map(&node("a"), &grant("reader", renewed));
    assert!(core.mark_caught_up(ClockMs(996)));
    assert_eq!(core.peek(ClockMs(996)), LeaseState::Serving);
}

#[test]
fn require_resync_stops_serving_without_a_lapse() {
    let mut core = reader(&["a"]);
    serve_from(&mut core, ClockMs(0), &["a"]);
    assert!(core.valid(ClockMs(100)));
    // A `PeerWrite::Gap`: invalidations were provably missed.
    core.require_resync();
    assert_eq!(core.poll(ClockMs(100)), LeaseState::NeedsResync);
    assert_eq!(core.lapses(), 0, "not a lease lapse — a consumer signal");
    assert!(core.mark_caught_up(ClockMs(100)));
    assert!(core.valid(ClockMs(100)));
}

#[test]
fn a_confirmation_older_than_the_tracked_window_fails_closed() {
    let mut core = reader(&["a"]);
    let ancient = core.on_renew(ClockMs(0));
    core.observe_grant_map(&node("a"), &grant("reader", ancient));
    assert_eq!(core.serve_until(), Some(ClockMs(990)));
    // Renew far past the tracked window while the granter stays silent:
    // the confirmed instant is dropped, and no window survives it.
    for step in 1..=MAX_TRACKED_RENEWALS {
        let _ = core.on_renew(ClockMs(step as u64 * 333));
    }
    assert_eq!(core.confirmed(), Some(ancient), "still frozen at renewal 1");
    assert_eq!(core.serve_until(), None, "its publish instant is gone");
    assert!(!core.valid(ClockMs(1)));
}

#[test]
fn last_renewal_tracks_the_newest_publish() {
    let mut core = reader(&[]);
    assert_eq!(core.last_renewal(), None);
    let first = core.on_renew(ClockMs(0));
    assert_eq!(core.last_renewal(), Some(first));
    let second = core.on_renew(ClockMs(1));
    assert!(second > first);
    assert_eq!(core.last_renewal(), Some(second));
    assert_eq!(core.epoch(), 7);
}

#[test]
fn forgetting_a_granter_drops_what_it_confirmed() {
    let mut core = reader(&["a"]);
    let id = core.on_renew(ClockMs(0));
    core.observe_grant_map(&node("a"), &grant("reader", id));
    assert_eq!(core.confirmed_by(&node("a")), Some(id));
    core.forget_granter(&node("a"));
    assert_eq!(core.confirmed_by(&node("a")), None);
    assert_eq!(core.confirmed(), None, "still in the roster, now silent");
}

#[test]
fn fewer_confirmations_only_shorten_the_window() {
    let mut core = reader(&["a", "b"]);
    let first = serve_from(&mut core, ClockMs(1_000), &["a", "b"]);
    let second = serve_from(&mut core, ClockMs(1_300), &["a", "b"]);
    assert_eq!((first.seq, second.seq), (1, 2));
    assert_eq!(core.serve_until(), Some(ClockMs(2_290)));
    // One granter falls back to the renewal before.
    core.observe_grant_map(&node("b"), &grant("reader", first));
    assert_eq!(core.serve_until(), Some(ClockMs(1_990)));
    // A granter more, which has confirmed nothing yet.
    core.set_roster(&[node("a"), node("b"), node("c")]);
    assert_eq!(core.serve_until(), None);
}
