use epidemic::fixed::SCALE;
use epidemic::metrics::{basic_reproduction_number, herd_immunity_threshold, MetricError};
use epidemic::params::Params;

fn params(beta: u64, gamma: u64) -> Params {
    Params { total_population: 1000 * SCALE, beta, gamma, alpha: 0, delta: 0, dt: 100_000_000 }
}

#[test]
fn reproduction_number_is_beta_s0_over_gamma() {
    let r0 = basic_reproduction_number(&params(500_000, 100_000_000), 999 * SCALE).unwrap();
    assert_eq!(r0, 4_995_000_000);
    let hit = herd_immunity_threshold(r0).unwrap();
    // 1 - 1/4.995 = 0.799799799...
    assert_eq!(hit, 799_799_800);
}

#[test]
fn reproduction_number_signals_zero_recovery_rate() {
    assert_eq!(
        basic_reproduction_number(&params(500_000, 0), 999 * SCALE),
        Err(MetricError::ZeroRecoveryRate)
    );
}

#[test]
fn herd_immunity_threshold_is_one_half_at_two() {
    assert_eq!(herd_immunity_threshold(2 * SCALE as u128), Ok(500_000_000));
    assert_eq!(herd_immunity_threshold(SCALE as u128), Ok(0));
}

#[test]
fn herd_immunity_threshold_is_negative_below_one() {
    assert_eq!(herd_immunity_threshold(500_000_000), Ok(-(SCALE as i64)));
    let r0 = basic_reproduction_number(&params(50_000, 100_000_000), 999 * SCALE).unwrap();
    assert_eq!(r0, 499_500_000);
    assert!(herd_immunity_threshold(r0).unwrap() < 0);
}

#[test]
fn herd_immunity_threshold_signals_zero_reproduction() {
    assert_eq!(herd_immunity_threshold(0), Err(MetricError::ZeroReproduction));
    let r0 = basic_reproduction_number(&params(0, 100_000_000), 999 * SCALE).unwrap();
    assert_eq!(herd_immunity_threshold(r0), Err(MetricError::ZeroReproduction));
}
