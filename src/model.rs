//! The forward-Euler update rule of each model variant.
use vstd::prelude::*;
use crate::fixed::{fits, fmul, mul_fixed};
use crate::params::Params;

verus! {

/// Which compartments and flows the model has.
#[derive(Clone, Copy, Debug, PartialEq, Eq)]
pub enum Model {
    /// Susceptible, infected, recovered.
    Sir,
    /// Adds deaths, drawn from the infected.
    Sird,
    /// Adds vaccination, which moves susceptibles straight to recovered.
    Sirdv,
}

/// The four compartments at one instant, as fixed-point headcounts.
#[derive(Clone, Copy, Debug, PartialEq, Eq)]
pub struct Compartments {
    pub susceptible: u64,
    pub infected: u64,
    pub recovered: u64,
    pub dead: u64,
}

/// Names one of the four compartments.
#[derive(Clone, Copy, Debug, PartialEq, Eq)]
pub enum Compartment {
    Susceptible,
    Infected,
    Recovered,
    Dead,
}

/// The count of one compartment in a state.
pub open spec fn value_of(c: Compartments, which: Compartment) -> u64 {
    match which {
        Compartment::Susceptible => c.susceptible,
        Compartment::Infected => c.infected,
        Compartment::Recovered => c.recovered,
        Compartment::Dead => c.dead,
    }
}

impl Compartments {
    /// The seed of a run: `infected` of a population of `total`, everyone
    /// else susceptible; `None` when `infected` exceeds `total`.
    pub fn seed(total: u64, infected: u64) -> (r: Option<Compartments>)
        ensures
            infected <= total ==> r == Some(
                Compartments { susceptible: (total - infected) as u64, infected, recovered: 0, dead: 0 },
            ),
            infected > total ==> r is None,
    {
        if infected > total {
            None
        } else {
            Some(Compartments { susceptible: total - infected, infected, recovered: 0, dead: 0 })
        }
    }

    /// The count of one compartment.
    pub fn value(&self, which: Compartment) -> (r: u64)
        ensures
            r == value_of(*self, which),
    {
        match which {
            Compartment::Susceptible => self.susceptible,
            Compartment::Infected => self.infected,
            Compartment::Recovered => self.recovered,
            Compartment::Dead => self.dead,
        }
    }
}

/// The mortality rate in effect: the plain SIR model has none.
pub open spec fn alpha_in(m: Model, p: Params) -> int {
    if m is Sir { 0 } else { p.alpha as int }
}

/// The vaccination rate in effect: only the SIRDV model has one.
pub open spec fn delta_in(m: Model, p: Params) -> int {
    if m is Sirdv { p.delta as int } else { 0 }
}

/// `beta·dt·S·I`: susceptibles infected during one step.
pub open spec fn infection(p: Params, c: Compartments) -> int {
    fmul(fmul(fmul(p.beta as int, p.dt as int), c.susceptible as int), c.infected as int)
}

/// `gamma·I·dt`: infected who recover during one step.
pub open spec fn recovery(p: Params, c: Compartments) -> int {
    fmul(fmul(p.gamma as int, c.infected as int), p.dt as int)
}

/// `alpha·I·dt`: infected who die during one step.
pub open spec fn mortality(m: Model, p: Params, c: Compartments) -> int {
    fmul(fmul(alpha_in(m, p), c.infected as int), p.dt as int)
}

/// `delta·dt·S`: susceptibles vaccinated during one step.
pub open spec fn vaccination(m: Model, p: Params, c: Compartments) -> int {
    fmul(fmul(delta_in(m, p), p.dt as int), c.susceptible as int)
}

/// The floor clamp applied to every new value.
pub open spec fn clamp(x: int) -> int {
    if x < 0 { 0 } else { x }
}

/// New susceptible count before the clamp.
pub open spec fn raw_susceptible(m: Model, p: Params, c: Compartments) -> int {
    c.susceptible - infection(p, c) - vaccination(m, p, c)
}

/// New infected count before the clamp. Only the SIRD model draws its
/// deaths from the infected compartment.
pub open spec fn raw_infected(m: Model, p: Params, c: Compartments) -> int {
    c.infected + infection(p, c) - recovery(p, c) - (if m is Sird { mortality(m, p, c) } else { 0 })
        - vaccination(m, p, c)
}

pub open spec fn next_susceptible(m: Model, p: Params, c: Compartments) -> int {
    clamp(raw_susceptible(m, p, c))
}

pub open spec fn next_infected(m: Model, p: Params, c: Compartments) -> int {
    clamp(raw_infected(m, p, c))
}

pub open spec fn next_recovered(m: Model, p: Params, c: Compartments) -> int {
    c.recovered + recovery(p, c) + vaccination(m, p, c)
}

pub open spec fn next_dead(m: Model, p: Params, c: Compartments) -> int {
    c.dead + mortality(m, p, c)
}

/// Whether every product and every new value of the step fits in a `u64`.
pub open spec fn step_defined(m: Model, p: Params, c: Compartments) -> bool {
    &&& fits(fmul(p.beta as int, p.dt as int))
    &&& fits(fmul(fmul(p.beta as int, p.dt as int), c.susceptible as int))
    &&& fits(infection(p, c))
    &&& fits(fmul(p.gamma as int, c.infected as int))
    &&& fits(recovery(p, c))
    &&& fits(fmul(alpha_in(m, p), c.infected as int))
    &&& fits(mortality(m, p, c))
    &&& fits(fmul(delta_in(m, p), p.dt as int))
    &&& fits(vaccination(m, p, c))
    &&& fits(next_infected(m, p, c))
    &&& fits(next_recovered(m, p, c))
    &&& fits(next_dead(m, p, c))
}

/// The state one step after `c`.
pub open spec fn next_spec(m: Model, p: Params, c: Compartments) -> Compartments {
    Compartments {
        susceptible: next_susceptible(m, p, c) as u64,
        infected: next_infected(m, p, c) as u64,
        recovered: next_recovered(m, p, c) as u64,
        dead: next_dead(m, p, c) as u64,
    }
}

/// Total headcount over the four compartments.
pub open spec fn total(c: Compartments) -> int {
    c.susceptible + c.infected + c.recovered + c.dead
}

proof fn lemma_fmul_nonneg(a: int, b: int)
    requires
        a >= 0,
        b >= 0,
    ensures
        fmul(a, b) >= 0,
{
    assert(a * b >= 0) by (nonlinear_arith)
        requires a >= 0, b >= 0;
}

proof fn lemma_fmul_zero(b: int)
    ensures
        fmul(0, b) == 0,
{
    assert(0 * b == 0) by (nonlinear_arith);
}

proof fn lemma_terms_nonneg(m: Model, p: Params, c: Compartments)
    ensures
        fmul(p.beta as int, p.dt as int) >= 0,
        fmul(fmul(p.beta as int, p.dt as int), c.susceptible as int) >= 0,
        infection(p, c) >= 0,
        fmul(p.gamma as int, c.infected as int) >= 0,
        recovery(p, c) >= 0,
        fmul(alpha_in(m, p), c.infected as int) >= 0,
        mortality(m, p, c) >= 0,
        fmul(delta_in(m, p), p.dt as int) >= 0,
        vaccination(m, p, c) >= 0,
{
    lemma_fmul_nonneg(p.beta as int, p.dt as int);
    lemma_fmul_nonneg(fmul(p.beta as int, p.dt as int), c.susceptible as int);
    lemma_fmul_nonneg(fmul(fmul(p.beta as int, p.dt as int), c.susceptible as int), c.infected as int);
    lemma_fmul_nonneg(p.gamma as int, c.infected as int);
    lemma_fmul_nonneg(fmul(p.gamma as int, c.infected as int), p.dt as int);
    lemma_fmul_nonneg(alpha_in(m, p), c.infected as int);
    lemma_fmul_nonneg(fmul(alpha_in(m, p), c.infected as int), p.dt as int);
    lemma_fmul_nonneg(delta_in(m, p), p.dt as int);
    lemma_fmul_nonneg(fmul(delta_in(m, p), p.dt as int), c.susceptible as int);
}

/// Every new compartment value is non-negative: the clamp holds the
/// susceptible and infected counts at zero, and the recovered and dead
/// counts only receive inflows.
pub proof fn lemma_step_nonnegative(m: Model, p: Params, c: Compartments)
    ensures
        next_susceptible(m, p, c) >= 0,
        next_infected(m, p, c) >= 0,
        next_recovered(m, p, c) >= 0,
        next_dead(m, p, c) >= 0,
        next_susceptible(m, p, c) <= c.susceptible,
{
    lemma_terms_nonneg(m, p, c);
}

/// The recovered and dead counts never decrease in one step.
pub proof fn lemma_step_accumulates(m: Model, p: Params, c: Compartments)
    ensures
        next_recovered(m, p, c) >= c.recovered,
        next_dead(m, p, c) >= c.dead,
{
    lemma_terms_nonneg(m, p, c);
}

/// In the SIR and SIRD models a step moves people between compartments
/// without creating or removing any, so the total is kept exactly when the
/// floor clamp does not act; when it acts it can only add to the total.
pub proof fn lemma_step_mass(m: Model, p: Params, c: Compartments)
    requires
        !(m is Sirdv),
    ensures
        total(c) <= next_susceptible(m, p, c) + next_infected(m, p, c) + next_recovered(m, p, c)
            + next_dead(m, p, c),
        raw_susceptible(m, p, c) >= 0 && raw_infected(m, p, c) >= 0 ==> next_susceptible(m, p, c)
            + next_infected(m, p, c) + next_recovered(m, p, c) + next_dead(m, p, c) == total(c),
{
    lemma_terms_nonneg(m, p, c);
    lemma_fmul_zero(p.dt as int);
    lemma_fmul_zero(c.infected as int);
    lemma_fmul_zero(c.susceptible as int);
    assert(delta_in(m, p) == 0);
    assert(vaccination(m, p, c) == 0);
    if m is Sir {
        assert(alpha_in(m, p) == 0);
        assert(mortality(m, p, c) == 0);
    }
}

/// Whether the floor clamp acts in the step after `c`: the susceptible or
/// the infected count would otherwise turn negative.
pub open spec fn clamp_acts_spec(m: Model, p: Params, c: Compartments) -> bool {
    raw_susceptible(m, p, c) < 0 || raw_infected(m, p, c) < 0
}

/// Computes the state one step after `c`; `None` exactly when some product
/// or new value of the step does not fit in a `u64`.
pub fn next_state(m: Model, p: Params, c: Compartments) -> (r: Option<Compartments>)
    ensures
        step_defined(m, p, c) ==> r == Some(next_spec(m, p, c)),
        !step_defined(m, p, c) ==> r is None,
{
    match step_with_clamp(m, p, c) {
        Some((n, _)) => Some(n),
        None => None,
    }
}

/// Whether the floor clamp acts in the step after `c`, which signals that
/// the step size is too large for the rates; `None` exactly when the step
/// does not fit in a `u64`.
pub fn clamp_acts(m: Model, p: Params, c: Compartments) -> (r: Option<bool>)
    ensures
        step_defined(m, p, c) ==> r == Some(clamp_acts_spec(m, p, c)),
        !step_defined(m, p, c) ==> r is None,
{
    match step_with_clamp(m, p, c) {
        Some((_, acted)) => Some(acted),
        None => None,
    }
}

fn step_with_clamp(m: Model, p: Params, c: Compartments) -> (r: Option<(Compartments, bool)>)
    ensures
        step_defined(m, p, c) ==> r == Some((next_spec(m, p, c), clamp_acts_spec(m, p, c))),
        !step_defined(m, p, c) ==> r is None,
{
    proof {
        lemma_terms_nonneg(m, p, c);
    }
    let alpha: u64 = match m {
        Model::Sir => 0,
        _ => p.alpha,
    };
    let delta: u64 = match m {
        Model::Sirdv => p.delta,
        _ => 0,
    };
    let beta_dt = match mul_fixed(p.beta, p.dt) {
        Some(v) => v,
        None => return None,
    };
    let beta_dt_s = match mul_fixed(beta_dt, c.susceptible) {
        Some(v) => v,
        None => return None,
    };
    let infected_now = match mul_fixed(beta_dt_s, c.infected) {
        Some(v) => v,
        None => return None,
    };
    let gamma_i = match mul_fixed(p.gamma, c.infected) {
        Some(v) => v,
        None => return None,
    };
    let recovered_now = match mul_fixed(gamma_i, p.dt) {
        Some(v) => v,
        None => return None,
    };
    let alpha_i = match mul_fixed(alpha, c.infected) {
        Some(v) => v,
        None => return None,
    };
    let dead_now = match mul_fixed(alpha_i, p.dt) {
        Some(v) => v,
        None => return None,
    };
    let delta_dt = match mul_fixed(delta, p.dt) {
        Some(v) => v,
        None => return None,
    };
    let vaccinated_now = match mul_fixed(delta_dt, c.susceptible) {
        Some(v) => v,
        None => return None,
    };
    let s_loss: u128 = infected_now as u128 + vaccinated_now as u128;
    let s_new: u64 = if s_loss >= c.susceptible as u128 {
        0
    } else {
        (c.susceptible as u128 - s_loss) as u64
    };
    let i_gain: u128 = c.infected as u128 + infected_now as u128;
    let i_loss: u128 = recovered_now as u128 + vaccinated_now as u128 + match m {
        Model::Sird => dead_now as u128,
        _ => 0,
    };
    if i_loss < i_gain && i_gain - i_loss > u64::MAX as u128 {
        return None;
    }
    let i_new: u64 = if i_loss >= i_gain {
        0
    } else {
        (i_gain - i_loss) as u64
    };
    let r_new: u128 = c.recovered as u128 + recovered_now as u128 + vaccinated_now as u128;
    if r_new > u64::MAX as u128 {
        return None;
    }
    let d_new: u128 = c.dead as u128 + dead_now as u128;
    if d_new > u64::MAX as u128 {
        return None;
    }
    let acted = s_loss > c.susceptible as u128 || i_loss > i_gain;
    Some(
        (
            Compartments {
                susceptible: s_new,
                infected: i_new,
                recovered: r_new as u64,
                dead: d_new as u64,
            },
            acted,
        ),
    )
}

} // verus!
