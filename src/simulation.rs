//! The simulation driver: an append-only history of compartment states,
//! advanced one forward-Euler step at a time under a stopping policy.
use vstd::prelude::*;
use crate::model::{
    lemma_step_accumulates, lemma_step_mass, lemma_step_nonnegative, next_dead, next_infected,
    next_recovered, next_spec, next_state, next_susceptible, raw_infected, raw_susceptible,
    step_defined, total, value_of, Compartment, Compartments, Model,
};
use crate::params::Params;

verus! {

/// Below this many infected (half a person, in fixed-point units) the
/// epidemic counts as over.
pub const INFECTED_THRESHOLD: u64 = 500_000_000;

/// A step whose products or new values do not fit in a `u64`.
#[derive(Clone, Copy, Debug, PartialEq, Eq)]
pub struct NumericOverflow;

/// How a threshold-driven run ended.
#[derive(Clone, Copy, Debug, PartialEq, Eq)]
pub enum ThresholdOutcome {
    /// The infected count fell to the threshold or below.
    BelowThreshold,
    /// The step budget ran out with the infected count still above the
    /// threshold; the partial trajectory is kept.
    GuardTripped,
    /// The next step would overflow; the trajectory so far is kept.
    Overflow,
}

/// Whether `h` is a trajectory of the model: it has a seed, and each later
/// state is one defined step after the one before it.
pub open spec fn follows(m: Model, p: Params, h: Seq<Compartments>) -> bool {
    &&& h.len() >= 1
    &&& forall|t: int|
        0 <= t < h.len() - 1 ==> step_defined(m, p, #[trigger] h[t]) && h[t + 1] == next_spec(
            m,
            p,
            h[t],
        )
}

/// Whether `a` starts with every element of `b`, in order.
pub open spec fn extends(a: Seq<Compartments>, b: Seq<Compartments>) -> bool {
    &&& b.len() <= a.len()
    &&& forall|t: int| 0 <= t < b.len() ==> #[trigger] a[t] == b[t]
}

/// The state `k` steps after `c`.
pub open spec fn iterate(m: Model, p: Params, c: Compartments, k: nat) -> Compartments
    decreases k,
{
    if k == 0 {
        c
    } else {
        next_spec(m, p, iterate(m, p, c, (k - 1) as nat))
    }
}

/// Whether the first `k` steps from `c` are all defined.
pub open spec fn defined_for(m: Model, p: Params, c: Compartments, k: nat) -> bool {
    forall|j: nat| j < k ==> step_defined(m, p, #[trigger] iterate(m, p, c, j))
}

/// A simulation run: the model, its parameters and every state so far.
pub struct Simulation {
    model: Model,
    params: Params,
    history: Vec<Compartments>,
}

impl Simulation {
    /// The model variant the run uses.
    pub closed spec fn model_spec(&self) -> Model {
        self.model
    }

    /// The parameters the run uses.
    pub closed spec fn params_spec(&self) -> Params {
        self.params
    }

    /// Every state so far; index 0 is the seed.
    pub closed spec fn states(&self) -> Seq<Compartments> {
        self.history@
    }

    /// The history is a trajectory of the run's model.
    pub open spec fn wf(&self) -> bool {
        follows(self.model_spec(), self.params_spec(), self.states())
    }

    /// The most recent state.
    pub open spec fn last_spec(&self) -> Compartments {
        self.states().last()
    }

    /// Starts a run with the given seed as its only state; a validated
    /// parameter set has a positive time step.
    pub fn new(model: Model, params: Params, seed: Compartments) -> (r: Simulation)
        requires
            params.dt > 0,
        ensures
            r.wf(),
            r.model_spec() == model,
            r.params_spec() == params,
            r.states() == seq![seed],
    {
        Simulation { model, params, history: vec![seed] }
    }

    /// Number of states so far (steps taken plus one).
    pub fn len(&self) -> (r: usize)
        ensures
            r == self.states().len(),
    {
        self.history.len()
    }

    /// The most recent state.
    pub fn last(&self) -> (r: Compartments)
        requires
            self.wf(),
        ensures
            r == self.last_spec(),
    {
        self.history[self.history.len() - 1]
    }

    /// Advances the run by one step. On overflow nothing is appended.
    pub fn step(&mut self) -> (r: Result<(), NumericOverflow>)
        requires
            old(self).wf(),
        ensures
            final(self).wf(),
            final(self).model_spec() == old(self).model_spec(),
            final(self).params_spec() == old(self).params_spec(),
            step_defined(old(self).model_spec(), old(self).params_spec(), old(self).last_spec())
                ==> r is Ok && final(self).states() == old(self).states().push(
                next_spec(old(self).model_spec(), old(self).params_spec(), old(self).last_spec()),
            ),
            !step_defined(old(self).model_spec(), old(self).params_spec(), old(self).last_spec())
                ==> r is Err && final(self).states() == old(self).states(),
    {
        let last = self.history[self.history.len() - 1];
        match next_state(self.model, self.params, last) {
            Some(c) => {
                self.history.push(c);
                assert(forall|t: int| 0 <= t < self.history@.len() - 2 ==> #[trigger] self.history@[t] == old(self).history@[t]);
                Ok(())
            },
            None => Err(NumericOverflow),
        }
    }
    /// Runs exactly `n` steps, or stops at the first step that would
    /// overflow, keeping the states computed before it.
    pub fn run_fixed(&mut self, n: u64) -> (r: Result<(), NumericOverflow>)
        requires
            old(self).wf(),
        ensures
            final(self).wf(),
            final(self).model_spec() == old(self).model_spec(),
            final(self).params_spec() == old(self).params_spec(),
            old(self).states().len() <= final(self).states().len() <= old(self).states().len() + n,
            extends(final(self).states(), old(self).states()),
            r is Ok <==> defined_for(
                old(self).model_spec(),
                old(self).params_spec(),
                old(self).last_spec(),
                n as nat,
            ),
            r is Ok ==> final(self).states().len() == old(self).states().len() + n,
            r is Err ==> !step_defined(
                final(self).model_spec(),
                final(self).params_spec(),
                final(self).last_spec(),
            ),
    {
        let ghost m = old(self).model_spec();
        let ghost p = old(self).params_spec();
        let ghost start = old(self).states().last();
        let ghost base = old(self).states().len() - 1;
        let mut k: u64 = 0;
        let mut overflow = false;
        while k < n && !overflow
            invariant
                self.wf(),
                self.model_spec() == m,
                self.params_spec() == p,
                k <= n,
                self.states().len() == base + 1 + k,
                extends(self.states(), old(self).states()),
                forall|j: nat| j < k ==> step_defined(m, p, #[trigger] iterate(m, p, start, j)),
                self.states().last() == iterate(m, p, start, k as nat),
                overflow ==> k < n && !step_defined(m, p, self.states().last()),
            decreases 2 * (n - k) + (if overflow { 0int } else { 1int }),
        {
            match self.step() {
                Ok(()) => {
                    k = k + 1;
                },
                Err(_) => {
                    overflow = true;
                },
            }
        }
        if overflow {
            assert(!step_defined(m, p, iterate(m, p, start, k as nat)));
            return Err(NumericOverflow);
        }
        Ok(())
    }

    /// Steps while the infected count is above `INFECTED_THRESHOLD`, taking
    /// at most `max_steps` steps.
    pub fn run_until_below(&mut self, max_steps: u64) -> (r: ThresholdOutcome)
        requires
            old(self).wf(),
        ensures
            final(self).wf(),
            final(self).model_spec() == old(self).model_spec(),
            final(self).params_spec() == old(self).params_spec(),
            old(self).states().len() <= final(self).states().len() <= old(self).states().len()
                + max_steps,
            extends(final(self).states(), old(self).states()),
            forall|t: int|
                old(self).states().len() - 1 <= t < final(self).states().len() - 1
                    ==> (#[trigger] final(self).states()[t]).infected > INFECTED_THRESHOLD,
            r is BelowThreshold <==> final(self).last_spec().infected <= INFECTED_THRESHOLD,
            r is GuardTripped ==> final(self).states().len() == old(self).states().len()
                + max_steps,
            r is Overflow ==> !step_defined(
                final(self).model_spec(),
                final(self).params_spec(),
                final(self).last_spec(),
            ) && final(self).states().len() < old(self).states().len() + max_steps,
    {
        let ghost base = old(self).states().len() - 1;
        let mut k: u64 = 0;
        let mut running = true;
        let mut outcome = ThresholdOutcome::BelowThreshold;
        while running
            invariant
                self.wf(),
                self.model_spec() == old(self).model_spec(),
                self.params_spec() == old(self).params_spec(),
                k <= max_steps,
                base >= 0,
                self.states().len() == base + 1 + k,
                extends(self.states(), old(self).states()),
                forall|t: int|
                    base <= t < self.states().len() - 1 ==> (#[trigger] self.states()[t]).infected
                        > INFECTED_THRESHOLD,
                !running ==> (outcome is BelowThreshold <==> self.last_spec().infected
                    <= INFECTED_THRESHOLD),
                !running && outcome is GuardTripped ==> k == max_steps,
                !running && outcome is Overflow ==> k < max_steps && !step_defined(
                    self.model_spec(),
                    self.params_spec(),
                    self.last_spec(),
                ),
            decreases 2 * (max_steps - k) + (if running { 1int } else { 0int }),
        {
            if self.history[self.history.len() - 1].infected <= INFECTED_THRESHOLD {
                running = false;
                outcome = ThresholdOutcome::BelowThreshold;
            } else if k == max_steps {
                running = false;
                outcome = ThresholdOutcome::GuardTripped;
            } else {
                let ghost before = self.states();
                assert(before.last().infected > INFECTED_THRESHOLD);
                match self.step() {
                    Ok(()) => {
                        assert(self.states()[before.len() - 1] == before.last());
                        assert(forall|t: int|
                            0 <= t < before.len() ==> #[trigger] self.states()[t] == before[t]);
                        assert(forall|t: int|
                            base <= t < self.states().len() - 1 ==> (#[trigger] self.states()[t]).infected
                                > INFECTED_THRESHOLD) by {
                            assert(forall|t: int|
                                base <= t < before.len() - 1 ==> (#[trigger] before[t]).infected
                                    > INFECTED_THRESHOLD);
                        }
                        k = k + 1;
                    },
                    Err(_) => {
                        running = false;
                        outcome = ThresholdOutcome::Overflow;
                    },
                }
            }
        }
        outcome
    }

    /// The model variant the run uses.
    pub fn model(&self) -> (r: Model)
        ensures
            r == self.model_spec(),
    {
        self.model
    }

    /// The parameters the run uses.
    pub fn params(&self) -> (r: Params)
        ensures
            r == self.params_spec(),
    {
        self.params
    }

    /// Every state so far, oldest first.
    pub fn history(&self) -> (r: Vec<Compartments>)
        ensures
            r@ == self.states(),
    {
        let mut out: Vec<Compartments> = Vec::new();
        let mut t: usize = 0;
        while t < self.history.len()
            invariant
                t <= self.history@.len(),
                out@ == self.history@.subrange(0, t as int),
            decreases self.history@.len() - t,
        {
            out.push(self.history[t]);
            t = t + 1;
            assert(out@ =~= self.history@.subrange(0, t as int));
        }
        assert(out@ =~= self.history@);
        out
    }

    /// The time series of one compartment, oldest first.
    pub fn series(&self, which: Compartment) -> (r: Vec<u64>)
        ensures
            r@.len() == self.states().len(),
            forall|t: int| 0 <= t < r@.len() ==> #[trigger] r@[t] == value_of(self.states()[t], which),
    {
        let mut out: Vec<u64> = Vec::new();
        let mut t: usize = 0;
        while t < self.history.len()
            invariant
                t <= self.history@.len(),
                out@.len() == t,
                forall|j: int| 0 <= j < t ==> #[trigger] out@[j] == value_of(self.history@[j], which),
            decreases self.history@.len() - t,
        {
            out.push(self.history[t].value(which));
            t = t + 1;
        }
        out
    }

    /// The time of each state, `index * dt`, in fixed-point units.
    pub fn times(&self) -> (r: Vec<u128>)
        ensures
            r@.len() == self.states().len(),
            forall|t: int| 0 <= t < r@.len() ==> #[trigger] r@[t] == t * self.params_spec().dt,
    {
        let mut out: Vec<u128> = Vec::new();
        let mut t: usize = 0;
        while t < self.history.len()
            invariant
                t <= self.history@.len(),
                out@.len() == t,
                forall|j: int| 0 <= j < t ==> #[trigger] out@[j] == j * self.params.dt,
            decreases self.history@.len() - t,
        {
            proof {
                assert(0 <= (t as int) * (self.params.dt as int) <= 0xffff_ffff_ffff_ffff
                    * 0xffff_ffff_ffff_ffff) by (nonlinear_arith)
                    requires 0 <= t as int <= 0xffff_ffff_ffff_ffff, 0 <= self.params.dt as int <= 0xffff_ffff_ffff_ffff;
            }
            out.push(t as u128 * self.params.dt as u128);
            t = t + 1;
        }
        out
    }
}

/// Each state of a trajectory is its seed advanced by its index.
pub proof fn lemma_follows_iterate(m: Model, p: Params, h: Seq<Compartments>)
    requires
        follows(m, p, h),
    ensures
        forall|t: int| 0 <= t < h.len() ==> #[trigger] h[t] == iterate(m, p, h[0], t as nat),
{
    assert forall|t: int| 0 <= t < h.len() implies #[trigger] h[t] == iterate(m, p, h[0], t as nat) by {
        lemma_follows_iterate_at(m, p, h, t);
    }
}

proof fn lemma_follows_iterate_at(m: Model, p: Params, h: Seq<Compartments>, t: int)
    requires
        follows(m, p, h),
        0 <= t < h.len(),
    ensures
        h[t] == iterate(m, p, h[0], t as nat),
    decreases t,
{
    if t > 0 {
        lemma_follows_iterate_at(m, p, h, t - 1);
        assert(h[t - 1 + 1] == next_spec(m, p, h[t - 1]));
    }
}

/// Two runs with the same model, parameters and seed that have taken the
/// same number of steps hold identical trajectories.
pub proof fn lemma_runs_deterministic(a: Simulation, b: Simulation)
    requires
        a.wf(),
        b.wf(),
        a.model_spec() == b.model_spec(),
        a.params_spec() == b.params_spec(),
        a.states()[0] == b.states()[0],
        a.states().len() == b.states().len(),
    ensures
        a.states() == b.states(),
{
    lemma_follows_iterate(a.model_spec(), a.params_spec(), a.states());
    lemma_follows_iterate(b.model_spec(), b.params_spec(), b.states());
    assert(a.states() =~= b.states());
}

/// Every state after the seed holds exactly the clamped step values, so no
/// compartment is ever negative and none has wrapped around.
pub proof fn lemma_trajectory_nonnegative(sim: Simulation)
    requires
        sim.wf(),
    ensures
        forall|t: int|
            0 <= t < sim.states().len() - 1 ==> {
                let (m, p, c) = (sim.model_spec(), sim.params_spec(), sim.states()[t]);
                let n = #[trigger] sim.states()[t + 1];
                &&& n.susceptible as int == next_susceptible(m, p, c) >= 0
                &&& n.infected as int == next_infected(m, p, c) >= 0
                &&& n.recovered as int == next_recovered(m, p, c) >= 0
                &&& n.dead as int == next_dead(m, p, c) >= 0
            },
{
    assert forall|t: int| 0 <= t < sim.states().len() - 1 implies {
        let (m, p, c) = (sim.model_spec(), sim.params_spec(), sim.states()[t]);
        let n = #[trigger] sim.states()[t + 1];
        &&& n.susceptible as int == next_susceptible(m, p, c) >= 0
        &&& n.infected as int == next_infected(m, p, c) >= 0
        &&& n.recovered as int == next_recovered(m, p, c) >= 0
        &&& n.dead as int == next_dead(m, p, c) >= 0
    } by {
        let c = sim.states()[t];
        assert(step_defined(sim.model_spec(), sim.params_spec(), c));
        lemma_step_nonnegative(sim.model_spec(), sim.params_spec(), c);
    }
}

/// The recovered and dead counts never decrease along a trajectory.
pub proof fn lemma_recovered_dead_monotone(sim: Simulation)
    requires
        sim.wf(),
    ensures
        forall|t: int|
            0 <= t < sim.states().len() - 1 ==> sim.states()[t].recovered <= (#[trigger] sim.states()[t
                + 1]).recovered && sim.states()[t].dead <= sim.states()[t + 1].dead,
{
    assert forall|t: int| 0 <= t < sim.states().len() - 1 implies sim.states()[t].recovered <= (
    #[trigger] sim.states()[t + 1]).recovered && sim.states()[t].dead <= sim.states()[t + 1].dead by {
        let c = sim.states()[t];
        assert(step_defined(sim.model_spec(), sim.params_spec(), c));
        lemma_step_accumulates(sim.model_spec(), sim.params_spec(), c);
        lemma_step_nonnegative(sim.model_spec(), sim.params_spec(), c);
    }
}

/// Whether no floor clamp acted in the first `k` steps of the trajectory.
pub open spec fn unclamped(m: Model, p: Params, h: Seq<Compartments>, k: int) -> bool {
    forall|t: int|
        0 <= t < k ==> raw_susceptible(m, p, #[trigger] h[t]) >= 0 && raw_infected(m, p, h[t]) >= 0
}

/// In the SIR and SIRD models the total headcount never falls along a
/// trajectory, and it stays exactly that of the seed for as long as the
/// floor clamp has not acted.
pub proof fn lemma_mass_conserved(sim: Simulation, k: int)
    requires
        sim.wf(),
        !(sim.model_spec() is Sirdv),
        0 <= k < sim.states().len(),
    ensures
        total(sim.states()[0]) <= total(sim.states()[k]),
        unclamped(sim.model_spec(), sim.params_spec(), sim.states(), k) ==> total(sim.states()[k])
            == total(sim.states()[0]),
    decreases k,
{
    if k > 0 {
        lemma_mass_conserved(sim, k - 1);
        let (m, p, c) = (sim.model_spec(), sim.params_spec(), sim.states()[k - 1]);
        assert(step_defined(m, p, c));
        assert(sim.states()[k - 1 + 1] == next_spec(m, p, c));
        lemma_step_nonnegative(m, p, c);
        lemma_step_mass(m, p, c);
        if unclamped(m, p, sim.states(), k) {
            assert(unclamped(m, p, sim.states(), k - 1));
            assert(raw_susceptible(m, p, sim.states()[k - 1]) >= 0);
        }
    }
}

} // verus!
