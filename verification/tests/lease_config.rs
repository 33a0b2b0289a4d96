use std::time::Duration;

use groupnet_consistency::lease::{CoherenceOutcome, LeaseConfig, LeaseConfigError};
use groupnet_consistency::NodeId;

#[test]
fn the_default_config_is_inside_its_own_envelope() {
    let cfg = LeaseConfig::default();
    assert_eq!(cfg.validate(), Ok(()));
    assert_eq!(cfg.duration_ms(), 2_000);
    assert_eq!(cfg.renew_every_ms(), 666, "three renewals per lease");
    assert_eq!(cfg.rate_margin_ms(), 20, "max(D/100, 5ms)");
}

#[test]
fn a_short_lease_still_gets_a_five_millisecond_floor_on_the_margin() {
    let cfg = LeaseConfig::for_duration(Duration::from_millis(100));
    assert_eq!(cfg.rate_margin_ms(), 5, "the floor, not D/100 = 1ms");
    assert_eq!(cfg.renew_every_ms(), 33);
    assert_eq!(cfg.validate(), Ok(()));
}

#[test]
fn validation_names_each_way_a_config_is_unhonourable() {
    let sub_ms = LeaseConfig::for_duration(Duration::from_micros(500));
    assert_eq!(sub_ms.validate(), Err(LeaseConfigError::DurationTooShort));
    // …and the duration the core actually uses is clamped off zero, which
    // is the engine's "never expires".
    assert_eq!(sub_ms.duration_ms(), 1);

    let lazy = LeaseConfig {
        renew_every: Duration::from_millis(1_500),
        ..LeaseConfig::default()
    };
    assert_eq!(lazy.validate(), Err(LeaseConfigError::RenewalCadence));
    let spinning = LeaseConfig {
        renew_every: Duration::ZERO,
        ..LeaseConfig::default()
    };
    assert_eq!(spinning.validate(), Err(LeaseConfigError::RenewalCadence));
    assert_eq!(spinning.renew_every_ms(), 1, "clamped off a spin");

    let paranoid = LeaseConfig {
        rate_margin: Duration::from_secs(2),
        ..LeaseConfig::default()
    };
    assert_eq!(paranoid.validate(), Err(LeaseConfigError::MarginTooLarge));
}

#[test]
fn only_a_timeout_breaks_the_coherence_guarantee() {
    assert!(CoherenceOutcome::AllApplied.is_coherent());
    assert!(
        CoherenceOutcome::LeaseLapsed {
            stragglers: vec![NodeId::new("a")],
        }
        .is_coherent()
    );
    assert!(
        !CoherenceOutcome::TimedOut {
            waiting_on: vec![NodeId::new("a")],
        }
        .is_coherent()
    );
}
