use std::time::Duration;

use groupnet_consistency::lease::shell::warmup_window;

/// A failure detector's timing, in milliseconds.
struct Timing {
    probe_interval_ms: u64,
    probe_timeout_ms: u64,
    suspect_timeout_ms: u64,
    anti_entropy_interval_ms: u64,
}

const DEFAULT: Timing = Timing {
    probe_interval_ms: 100,
    probe_timeout_ms: 50,
    suspect_timeout_ms: 500,
    anti_entropy_interval_ms: 200,
};

/// How long it takes to detect a failure in a group of `members`: every peer
/// is probed once, and the last one is suspected.
fn detection_window_ms(timing: &Timing, members: u64) -> u64 {
    let round = timing
        .probe_interval_ms
        .saturating_add(timing.probe_timeout_ms.saturating_mul(2));
    members
        .saturating_sub(1)
        .saturating_mul(round)
        .saturating_add(timing.suspect_timeout_ms)
}

fn window(timing: &Timing, members: u64) -> Duration {
    warmup_window(
        detection_window_ms(timing, members),
        timing.anti_entropy_interval_ms,
    )
}

#[test]
fn the_warmup_window_is_one_detection_window_plus_two_anti_entropy_rounds() {
    // 2 peers × (100 + 2×50) + 500 suspect = 900, + 2×200 anti-entropy.
    assert_eq!(detection_window_ms(&DEFAULT, 3), 900);
    assert_eq!(window(&DEFAULT, 3), Duration::from_millis(1_300));
    // A group of one has nobody to detect, so the window degenerates to
    // the refutation window plus the two rounds — still non-zero, which is
    // the point: a solo writer must not fast-resolve before it has had a
    // chance to hear from anyone at all.
    assert_eq!(window(&DEFAULT, 1), Duration::from_millis(900));
}

#[test]
fn the_warmup_window_tracks_the_effective_config_not_the_defaults() {
    // A deployment that tightens its probe timings tightens this with it.
    let brisk = Timing {
        probe_interval_ms: 20,
        probe_timeout_ms: 10,
        suspect_timeout_ms: 50,
        anti_entropy_interval_ms: 25,
    };
    // 2 × (20 + 20) + 50 = 130, + 50.
    assert_eq!(window(&brisk, 3), Duration::from_millis(180));
    assert!(window(&brisk, 3) < window(&DEFAULT, 3));
}

#[test]
fn an_absurd_config_saturates_rather_than_wrapping_to_no_warmup_at_all() {
    let absurd = Timing {
        probe_interval_ms: u64::MAX,
        anti_entropy_interval_ms: u64::MAX,
        ..DEFAULT
    };
    assert_eq!(window(&absurd, 3), Duration::from_millis(u64::MAX));
}
