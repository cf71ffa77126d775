//! Message-passing schedules and convergence control.

use vstd::prelude::*;

pub mod synchronous;
pub mod updates;

pub use synchronous::Synchronous;

use crate::algebra::{apply2, lemma_apply2, residual_ok, semiring_ok, total2, ResidualOps, SemiringOps};
use crate::belief_state::{factors_agree, factors_positive, BeliefState};
use crate::semiring::Semiring;

verus! {

/// Controls iterative belief propagation.
#[derive(Clone, Copy, Debug)]
pub struct RunOptions<D> {
    /// Maximum number of message-passing iterations.
    pub max_iterations: usize,
    /// Residual threshold used to determine convergence.
    pub tolerance: D,
}

/// Summary of a belief-propagation run.
#[derive(Clone, Copy, Debug, PartialEq)]
pub struct RunResult<D> {
    /// Number of iterations executed.
    pub iterations: usize,
    /// Whether the final residual satisfied the convergence tolerance.
    pub converged: bool,
    /// Maximum message residual from the final iteration.
    pub residual: D,
}

/// Decides whether a run ends after iteration `iteration` produced `residual`.
///
/// The run converges where the residual is within `options.tolerance`, as
/// `res.within` decides; otherwise it ends unconverged where the iteration
/// limit is reached, and goes on (`None`) where it is not.
pub fn stop_after<Dt: Copy, Dist, Mx, W: Fn(&Dt, &Dt) -> bool>(
    iteration: usize,
    residual: Dt,
    options: &RunOptions<Dt>,
    res: &ResidualOps<Dt, Dist, Mx, W>,
) -> (r: Option<RunResult<Dt>>)
    requires
        total2(res.within),
    ensures
        r == if apply2(res.within, residual, options.tolerance) {
            Some(RunResult { iterations: iteration, converged: true, residual })
        } else if iteration == options.max_iterations {
            Some(RunResult { iterations: iteration, converged: false, residual })
        } else {
            None::<RunResult<Dt>>
        },
{
    let within = (res.within)(&residual, &options.tolerance);
    proof {
        lemma_apply2(res.within, residual, options.tolerance, within);
    }
    if within {
        Some(RunResult { iterations: iteration, converged: true, residual })
    } else if iteration == options.max_iterations {
        Some(RunResult { iterations: iteration, converged: false, residual })
    } else {
        None
    }
}

/// Defines the order and visibility of message updates during belief
/// propagation under the semiring `S`.
///
/// Inference requires factors that agree on the number of states of each
/// variable they share, with at least one state for each variable (a run
/// with an iteration limit of zero performs no inference and needs neither).
pub trait Schedule<S: Semiring> {
    /// Executes one message-passing iteration.
    ///
    /// Returns the maximum message residual produced by the iteration.
    fn step<
        V: Copy,
        M: Fn(&V, &V) -> V,
        Sm: Fn(&Vec<V>) -> V,
        D: Fn(&V, &V) -> V,
        Dt: Copy,
        Dist: Fn(&Vec<V>, &Vec<V>) -> Dt,
        Mx: Fn(&Dt, &Dt) -> Dt,
        W: Fn(&Dt, &Dt) -> bool,
    >(
        &mut self,
        state: &mut BeliefState<S, V>,
        ops: &SemiringOps<V, M, Sm, D>,
        res: &ResidualOps<Dt, Dist, Mx, W>,
    ) -> (residual: Dt)
        requires
            old(state).wf(),
            factors_agree(old(state).factor_models()),
            factors_positive(old(state).factor_models()),
            semiring_ok(*ops),
            residual_ok::<V, Dt, Dist, Mx, W>(*res),
        ensures
            final(state).wf(),
            final(state).graph_view() == old(state).graph_view(),
            final(state).edges() == old(state).edges(),
    ;

    /// Runs message passing until convergence or the iteration limit is
    /// reached.
    ///
    /// Convergence is reached when the maximum message residual produced by an
    /// iteration is within `options.tolerance`, as `res.within` decides. The
    /// result reports the number of iterations executed, whether the run
    /// converged, and the residual of the last iteration (`res.unbounded`
    /// where no iteration ran). After each step, [`stop_after`] decides on the
    /// residual it returned: the run stops at the first residual within the
    /// tolerance, and otherwise at the iteration limit.
    fn run<
        V: Copy,
        M: Fn(&V, &V) -> V,
        Sm: Fn(&Vec<V>) -> V,
        D: Fn(&V, &V) -> V,
        Dt: Copy,
        Dist: Fn(&Vec<V>, &Vec<V>) -> Dt,
        Mx: Fn(&Dt, &Dt) -> Dt,
        W: Fn(&Dt, &Dt) -> bool,
    >(
        &mut self,
        state: &mut BeliefState<S, V>,
        options: RunOptions<Dt>,
        ops: &SemiringOps<V, M, Sm, D>,
        res: &ResidualOps<Dt, Dist, Mx, W>,
    ) -> (r: RunResult<Dt>)
        requires
            old(state).wf(),
            options.max_iterations > 0 ==> factors_agree(old(state).factor_models()),
            options.max_iterations > 0 ==> factors_positive(old(state).factor_models()),
            semiring_ok(*ops),
            residual_ok::<V, Dt, Dist, Mx, W>(*res),
        ensures
            final(state).wf(),
            final(state).graph_view() == old(state).graph_view(),
            final(state).edges() == old(state).edges(),
            r.iterations <= options.max_iterations,
            r.converged ==> r.iterations >= 1 && apply2(res.within, r.residual, options.tolerance),
            !r.converged ==> r.iterations == options.max_iterations,
            !r.converged && options.max_iterations > 0 ==> !apply2(res.within, r.residual, options.tolerance),
            options.max_iterations == 0 ==> !r.converged && r.residual == res.unbounded,
    {
        let mut residual = res.unbounded;
        let mut iteration: usize = 0;
        while iteration < options.max_iterations
            invariant
                state.wf(),
                state.graph_view() == old(state).graph_view(),
                state.edges() == old(state).edges(),
                options.max_iterations > 0 ==> factors_agree(state.factor_models()),
                options.max_iterations > 0 ==> factors_positive(state.factor_models()),
                semiring_ok(*ops),
                residual_ok::<V, Dt, Dist, Mx, W>(*res),
                iteration <= options.max_iterations,
                iteration == 0 ==> residual == res.unbounded,
                iteration > 0 ==> !apply2(res.within, residual, options.tolerance),
            decreases options.max_iterations - iteration,
        {
            residual = self.step(state, ops, res);
            iteration += 1;
            if let Some(r) = stop_after(iteration, residual, &options, res) {
                return r;
            }
        }
        RunResult { iterations: options.max_iterations, converged: false, residual }
    }
}

} // verus!
