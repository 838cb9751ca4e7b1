use doccraft::budget::{
    calibrated_density, check, density_sample, estimate, estimate_at, packing_limit, packing_limit_at,
    DENSITY_CEILING, ESCAPE_EXPANSION_PERCENT, UNCALIBRATED_DENSITY,
};
use doccraft::context::{check as check_run, event_backoff, Density, Reserved, Stop};
use doccraft::json::{member, Json};
use doccraft::maintenance::{cache_limit, cleanup_due, next_cycle, recover_again, trim_again};
use doccraft::model::LlmConfig;

#[test]
fn calibration_needs_real_samples_and_stays_conservative() {
    // A provider that reports the same count for every request is no sample.
    assert_eq!(density_sample(90_000, 100), None);
    assert_eq!(density_sample(100, 100), None);
    assert_eq!(density_sample(90_000, 0), None);
    assert_eq!(density_sample(90_000, 30_000), Some(300));
    // Until enough samples arrive nothing changes.
    assert_eq!(calibrated_density(2, 300), UNCALIBRATED_DENSITY);
    // Then the densest sample, discounted, and never past the ceiling or below
    // one byte a token.
    assert_eq!(calibrated_density(3, 300), 255);
    assert_eq!(calibrated_density(9, 110), UNCALIBRATED_DENSITY);
    assert_eq!(calibrated_density(9, 600), DENSITY_CEILING);
    // The uncalibrated estimate is exactly the byte count it always was.
    let request = Json::object(vec![member("a", Json::string(&"x".repeat(1000)))]);
    assert_eq!(estimate_at(&request, UNCALIBRATED_DENSITY), estimate(&request));
    assert!(estimate_at(&request, 250) < estimate(&request));
    let c = LlmConfig::default();
    assert!(packing_limit_at(&c, 0, 250, 0) > 2 * packing_limit(&c, 0, 0));
}

#[test]
fn output_reservation_blocks_large_input() {
    assert!(check(&LlmConfig::default(), 199_000, 0).is_err());
}

#[test]
fn a_request_packed_at_a_density_may_be_sent_at_that_density() {
    for (output, context, safety, extra, overhead, density) in [
        (1u32, 40_000u32, 5u32, 0u32, 0usize, 100u32),
        (59_999, 199_999, 39, 14, 39_999, 300),
        (16_384, 100_000, 20, 5, 12_345, 217),
        (30_000, 64_000, 10, 0, 1, 101),
    ] {
        let c = LlmConfig {
            max_output_tokens: output,
            model_max_output: 150_000,
            context_limit: context,
            safety_percent: safety,
            ..Default::default()
        };
        let packed = packing_limit_at(&c, extra, density, overhead);
        let bytes = ((packed + overhead) as u64).saturating_mul(ESCAPE_EXPANSION_PERCENT) / 100;
        let tokens = bytes.saturating_mul(100) / density as u64;
        assert!(packed == 0 || check(&c, tokens, extra).is_ok());
    }
}

#[test]
fn a_run_learns_its_density_until_it_is_told_otherwise() {
    let mut density = Density { samples: 0, floor: 0 };
    assert_eq!(density.density(), UNCALIBRATED_DENSITY);
    for _ in 0..3 {
        assert!(density.record_density(90_000, 30_000));
    }
    assert_eq!(density.density(), 255);
    assert!(density.record_density(90_000, 45_000));
    assert_eq!(density.density(), 170);
    density.distrust_density();
    assert!(!density.record_density(90_000, 30_000));
    assert_eq!(density.density(), UNCALIBRATED_DENSITY);
}

#[test]
fn reservations_are_given_back_as_far_as_they_were_not_used() {
    let mut reserved = Reserved { tokens: 0, cost: 0 };
    assert!(reserved.reserve(100, 0, 150, false).is_ok());
    assert!(reserved.reserve(100, 0, 150, false).is_err());
    assert_eq!(reserved.reconcile_tokens(100, 30), 70);
    assert_eq!(reserved.tokens, 30);
    assert!(reserved.reserve(1, 0, 150, true).is_err());
    assert_eq!(event_backoff(3), Some(8));
    assert_eq!(event_backoff(6), None);
}

#[test]
fn a_run_stops_for_the_first_reason_that_holds() {
    assert_eq!(check_run(true, false, 10, 10, 10), Err(Stop::Cancelled));
    assert_eq!(check_run(false, false, 4, 6, 10), Err(Stop::Time));
    assert!(check_run(false, true, 4, 6, 10).is_ok());
    assert!(check_run(false, false, 4, 5, 10).is_ok());
}

#[test]
fn maintenance_keeps_its_rhythm() {
    assert!(cleanup_due(720, false));
    assert!(!cleanup_due(720, true));
    assert!(!cleanup_due(1, false));
    assert_eq!(next_cycle(u32::MAX), 0);
    assert_eq!(recover_again(2), Some(3));
    assert_eq!(recover_again(3), None);
    assert_eq!(cache_limit(3), 1024 * 1024);
    assert_eq!(cache_limit(u64::MAX), u64::MAX / 3);
    assert!(trim_again(11, 10, 19));
    assert!(!trim_again(11, 10, 20));
    assert!(!trim_again(10, 10, 0));
}
