use std::time::Duration;

use groupnet_consistency::group::GroupView;
use groupnet_consistency::lease::{
    ClockMs, CoherenceCore, CoherenceStep, GrantMap, LeaseConfig, LeaseCore, LeaseState, Leases,
    WaitMember,
};
use groupnet_consistency::{GroupId, NodeId, WriteToken};

const TOKEN: WriteToken = WriteToken { epoch: 3, seq: 4 };

/// Serve windows of 990 ms: a duration of one second less a margin of 10 ms.
fn serving_reader(at: ClockMs) -> LeaseCore {
    let config = LeaseConfig {
        duration: Duration::from_secs(1),
        renew_every: Duration::from_millis(333),
        rate_margin: Duration::from_millis(10),
    };
    let mut core = LeaseCore::new(NodeId::new("reader"), &config, 7);
    core.set_roster(&[NodeId::new("writer")]);
    let id = core.on_renew(at);
    let mut grants = GrantMap::new();
    grants.insert(NodeId::new("reader"), id);
    core.observe_grant_map(&NodeId::new("writer"), &grants);
    assert!(core.mark_caught_up(at));
    core
}

/// What the writer sees at `now`: its copy of the lease was armed for a whole
/// second at `adopted`.
fn seen(now: ClockMs, adopted: ClockMs, applied: Option<WriteToken>) -> Vec<WaitMember> {
    if now < adopted.saturating_add_ms(1_000) {
        vec![WaitMember { member: NodeId::new("reader"), applied }]
    } else {
        Vec::new()
    }
}

#[test]
fn a_write_completes_behind_a_serving_reader_only_once_it_has_applied() {
    let mut reader = serving_reader(ClockMs(100));
    let adopted = ClockMs(130);
    let mut writer = CoherenceCore::new(NodeId::new("writer"));
    for now in [ClockMs(200), ClockMs(700), ClockMs(1_089)] {
        assert!(reader.valid(now));
        assert_eq!(
            writer.step(TOKEN, &seen(now, adopted, None)),
            CoherenceStep::Waiting { on: vec![NodeId::new("reader")] }
        );
    }
    assert_eq!(
        writer.step(TOKEN, &seen(ClockMs(1_089), adopted, Some(TOKEN))),
        CoherenceStep::AllApplied
    );
}

#[test]
fn a_write_that_outwaits_a_lease_completes_after_the_reader_stopped_serving() {
    let mut reader = serving_reader(ClockMs(100));
    let adopted = ClockMs(130);
    let mut writer = CoherenceCore::new(NodeId::new("writer"));
    let mut now = ClockMs(1_000);
    while writer.step(TOKEN, &seen(now, adopted, None))
        != (CoherenceStep::LeaseLapsed { stragglers: vec![NodeId::new("reader")] })
    {
        now = now.saturating_add_ms(1);
    }
    assert_eq!(now, ClockMs(1_130));
    assert!(!reader.valid(now));
}

#[test]
fn a_lapsed_reader_stays_out_until_a_catch_up_takes() {
    let mut reader = serving_reader(ClockMs(100));
    assert_eq!(reader.poll(ClockMs(1_090)), LeaseState::Lapsed);
    let writer = NodeId::new("writer");
    let id = reader.on_renew(ClockMs(1_200));
    let mut grants = GrantMap::new();
    grants.insert(NodeId::new("reader"), id);
    assert!(!reader.mark_caught_up(ClockMs(1_210)), "nothing live yet");
    reader.observe_grant_map(&writer, &grants);
    reader.set_roster(&[]);
    reader.forget_granter(&writer);
    for now in [1_210, 1_500, 2_500] {
        assert_eq!(reader.poll(ClockMs(now)), LeaseState::NeedsResync);
    }
    reader.require_resync();
    reader.set_roster(&[writer.clone()]);
    reader.observe_grant_map(&writer, &grants);
    assert_eq!(reader.poll(ClockMs(1_300)), LeaseState::NeedsResync);
    assert!(reader.mark_caught_up(ClockMs(1_300)));
    assert_eq!(reader.poll(ClockMs(1_300)), LeaseState::Serving);
}

#[test]
fn a_view_is_valid_only_while_the_core_it_was_published_from_serves() {
    let config = LeaseConfig {
        duration: Duration::from_secs(1),
        renew_every: Duration::from_millis(333),
        rate_margin: Duration::from_millis(10),
    };
    let shown = GroupView::new(GroupId::new("g"));
    let mut set = Leases::new(NodeId::new("reader"), config, 7);
    let _ = set.renew(ClockMs(100));
    assert!(!set.mark_caught_up(ClockMs(150)), "still cold");
    assert!(!set.valid(ClockMs(150)));
    set.refresh_view(&shown, Duration::from_millis(200), Duration::from_millis(50));
    assert!(set.mark_caught_up(ClockMs(210)));
    assert!(set.valid(ClockMs(1_089)));
    assert!(!set.valid(ClockMs(1_090)));
    assert_eq!(set.state(ClockMs(1_089)), LeaseState::Serving);
    assert_eq!(set.state(ClockMs(1_090)), LeaseState::Lapsed);
    assert!(!set.valid(ClockMs(1_000)), "the deadline is gone");
}
