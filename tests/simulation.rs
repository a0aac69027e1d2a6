use epidemic::fixed::SCALE;
use epidemic::model::{clamp_acts, next_state, Compartment, Compartments, Model};
use epidemic::params::Params;
use epidemic::simulation::{NumericOverflow, Simulation, ThresholdOutcome, INFECTED_THRESHOLD};

fn base_params(alpha: u64) -> Params {
    Params {
        total_population: 1000 * SCALE,
        beta: 500_000,
        gamma: 100_000_000,
        alpha,
        delta: 0,
        dt: 100_000_000,
    }
}

fn total(c: &Compartments) -> u128 {
    c.susceptible as u128 + c.infected as u128 + c.recovered as u128 + c.dead as u128
}

#[test]
fn one_sir_step_matches_the_euler_rule() {
    let seed = Compartments::seed(1000 * SCALE, SCALE).unwrap();
    let next = next_state(Model::Sir, base_params(0), seed).unwrap();
    // infection 0.0005 * 0.1 * 999 * 1 = 0.04995, recovery 0.1 * 1 * 0.1 = 0.01
    assert_eq!(next.susceptible, 998_950_050_000);
    assert_eq!(next.infected, 1_039_950_000);
    assert_eq!(next.recovered, 10_000_000);
    assert_eq!(next.dead, 0);
}

#[test]
fn one_sirdv_step_moves_vaccinated_to_recovered() {
    let p = Params { alpha: 10_000_000, delta: 20_000_000, ..base_params(0) };
    let seed = Compartments { susceptible: 999 * SCALE, infected: SCALE, recovered: 0, dead: 0 };
    let next = next_state(Model::Sirdv, p, seed).unwrap();
    // vaccination 0.02 * 0.1 * 999 = 1.998, mortality 0.01 * 1 * 0.1 = 0.001
    assert_eq!(next.susceptible, 999 * SCALE - 49_950_000 - 1_998_000_000);
    assert_eq!(next.infected, 0);
    assert_eq!(next.recovered, 10_000_000 + 1_998_000_000);
    assert_eq!(next.dead, 1_000_000);
}

#[test]
fn seed_splits_the_population() {
    let c = Compartments::seed(1000 * SCALE, 2 * SCALE).unwrap();
    assert_eq!(c.susceptible, 998 * SCALE);
    assert_eq!(c.infected, 2 * SCALE);
    assert_eq!(Compartments::seed(SCALE, 2 * SCALE), None);
}

#[test]
fn sir_curve_rises_within_bounds_then_falls_below_its_start() {
    let seed = Compartments::seed(1000 * SCALE, SCALE).unwrap();
    let mut sim = Simulation::new(Model::Sir, base_params(0), seed);
    assert_eq!(sim.run_fixed(100), Ok(()));
    assert_eq!(sim.len(), 101);
    let i = sim.series(Compartment::Infected);
    assert!(i[100] > i[0]);
    for c in sim.history() {
        for v in [c.susceptible, c.infected, c.recovered, c.dead] {
            assert!(v <= 1000 * SCALE);
        }
    }
    assert_eq!(sim.run_fixed(900), Ok(()));
    let i = sim.series(Compartment::Infected);
    let peak = (0..i.len()).max_by_key(|&t| i[t]).unwrap();
    assert!(peak > 100 && peak < 1000);
    assert!(i[1000] < i[0]);
    for c in sim.history() {
        assert!(c.infected <= 1000 * SCALE && c.susceptible <= 1000 * SCALE);
    }
}

#[test]
fn sird_deaths_accumulate() {
    let seed = Compartments::seed(1000 * SCALE, SCALE).unwrap();
    let mut sim = Simulation::new(Model::Sird, base_params(10_000_000), seed);
    assert_eq!(sim.run_fixed(100), Ok(()));
    let d = sim.series(Compartment::Dead);
    assert_eq!(d.len(), 101);
    assert!(d[100] > 0);
    for t in 0..100 {
        assert!(d[t] <= d[t + 1]);
    }
}

#[test]
fn threshold_run_ends_below_half_an_infected() {
    let p = Params { beta: 300_000, ..base_params(0) };
    let seed = Compartments { susceptible: 998 * SCALE, infected: 2 * SCALE, recovered: 0, dead: 0 };
    let mut sim = Simulation::new(Model::Sir, p, seed);
    assert_eq!(sim.run_until_below(100_000), ThresholdOutcome::BelowThreshold);
    assert!(sim.last().infected <= INFECTED_THRESHOLD);
    let i = sim.series(Compartment::Infected);
    for t in 0..i.len() - 1 {
        assert!(i[t] > INFECTED_THRESHOLD);
    }
}

#[test]
fn threshold_run_stops_at_its_step_budget() {
    let p = Params { beta: 300_000, ..base_params(0) };
    let seed = Compartments { susceptible: 998 * SCALE, infected: 2 * SCALE, recovered: 0, dead: 0 };
    let mut sim = Simulation::new(Model::Sir, p, seed);
    assert_eq!(sim.run_until_below(10), ThresholdOutcome::GuardTripped);
    assert_eq!(sim.len(), 11);
    assert!(sim.last().infected > INFECTED_THRESHOLD);
}

#[test]
fn threshold_run_takes_no_step_below_the_threshold() {
    let seed = Compartments { susceptible: 999 * SCALE, infected: INFECTED_THRESHOLD, recovered: 0, dead: 0 };
    let mut sim = Simulation::new(Model::Sir, base_params(0), seed);
    assert_eq!(sim.run_until_below(10), ThresholdOutcome::BelowThreshold);
    assert_eq!(sim.len(), 1);
}

#[test]
fn large_steps_are_clamped_at_zero() {
    let p = Params { beta: SCALE, gamma: 5 * SCALE, alpha: 0, delta: 0, dt: 10 * SCALE, total_population: 100 * SCALE };
    let seed = Compartments::seed(100 * SCALE, 10 * SCALE).unwrap();
    let mut sim = Simulation::new(Model::Sir, p, seed);
    assert_eq!(sim.step(), Ok(()));
    let c = sim.last();
    // infection 1 * 10 * 90 * 10 = 9000 exceeds the 90 susceptibles
    assert_eq!(c.susceptible, 0);
    assert_eq!(c.infected, 8510 * SCALE);
    assert_eq!(c.recovered, 500 * SCALE);
    let q = Params { beta: 0, ..p };
    let mut sim = Simulation::new(Model::Sir, q, seed);
    assert_eq!(sim.step(), Ok(()));
    let c = sim.last();
    // recovery 5 * 10 * 10 = 500 exceeds the 10 infected
    assert_eq!(c.susceptible, 90 * SCALE);
    assert_eq!(c.infected, 0);
    assert_eq!(c.recovered, 500 * SCALE);
}

#[test]
fn recovered_and_dead_never_decrease() {
    let p = Params { alpha: 50_000_000, ..base_params(0) };
    let seed = Compartments::seed(1000 * SCALE, 5 * SCALE).unwrap();
    let mut sim = Simulation::new(Model::Sird, p, seed);
    assert_eq!(sim.run_fixed(300), Ok(()));
    let h = sim.history();
    for t in 0..h.len() - 1 {
        assert!(h[t].recovered <= h[t + 1].recovered);
        assert!(h[t].dead <= h[t + 1].dead);
    }
}

#[test]
fn small_steps_keep_the_population() {
    let p = Params { dt: 10_000_000, ..base_params(10_000_000) };
    for model in [Model::Sir, Model::Sird] {
        let seed = Compartments::seed(1000 * SCALE, SCALE).unwrap();
        let mut sim = Simulation::new(model, p, seed);
        assert_eq!(sim.run_fixed(1000), Ok(()));
        for c in sim.history() {
            assert_eq!(total(&c), 1000 * SCALE as u128);
        }
    }
}

#[test]
fn identical_runs_give_identical_trajectories() {
    let seed = Compartments::seed(1000 * SCALE, SCALE).unwrap();
    let mut a = Simulation::new(Model::Sird, base_params(10_000_000), seed);
    let mut b = Simulation::new(Model::Sird, base_params(10_000_000), seed);
    assert_eq!(a.run_fixed(100), Ok(()));
    assert_eq!(b.run_fixed(100), Ok(()));
    assert_eq!(a.history(), b.history());
}

#[test]
fn overflowing_step_keeps_the_history() {
    let p = Params { beta: u64::MAX, dt: u64::MAX, ..base_params(0) };
    let seed = Compartments::seed(1000 * SCALE, SCALE).unwrap();
    let mut sim = Simulation::new(Model::Sir, p, seed);
    assert_eq!(sim.step(), Err(NumericOverflow));
    assert_eq!(sim.len(), 1);
    assert_eq!(sim.run_fixed(5), Err(NumericOverflow));
    assert_eq!(sim.run_until_below(5), ThresholdOutcome::Overflow);
    assert_eq!(sim.history(), vec![seed]);
}

#[test]
fn times_are_index_times_dt() {
    let seed = Compartments::seed(1000 * SCALE, SCALE).unwrap();
    let mut sim = Simulation::new(Model::Sir, base_params(0), seed);
    assert_eq!(sim.run_fixed(3), Ok(()));
    assert_eq!(sim.times(), vec![0, 100_000_000, 200_000_000, 300_000_000]);
    assert_eq!(sim.model(), Model::Sir);
    assert_eq!(sim.params(), base_params(0));
}

#[test]
fn clamp_signal_reports_when_the_floor_acts() {
    let seed = Compartments::seed(1000 * SCALE, SCALE).unwrap();
    assert_eq!(clamp_acts(Model::Sir, base_params(0), seed), Some(false));
    let p = Params { beta: SCALE, gamma: 5 * SCALE, alpha: 0, delta: 0, dt: 10 * SCALE, total_population: 100 * SCALE };
    let seed = Compartments::seed(100 * SCALE, 10 * SCALE).unwrap();
    assert_eq!(clamp_acts(Model::Sir, p, seed), Some(true));
    assert_eq!(clamp_acts(Model::Sir, Params { beta: 0, ..p }, seed), Some(true));
    let huge = Params { beta: u64::MAX, dt: u64::MAX, ..base_params(0) };
    assert_eq!(clamp_acts(Model::Sir, huge, seed), None);
}
