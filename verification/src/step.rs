use vstd::prelude::*;

use crate::config::{WfcRequest, WfcTileId};
use crate::consistency::{globals_ok, globals_valid, inputs_valid, request_grid, solution_respects};
use crate::debug::{WfcFailure, WfcFailureReason, WfcSolution};
use crate::grid::grid_accepts;
use crate::rules::ruleset_accepts;
use crate::solver::{is_invalid_failure, request_error, SolveError, Solver, WfcStepSnapshot};

verus! {

/// Step-by-step solving that yields a snapshot after each observation.
///
/// Each step first runs [`WfcStepSolver::begin_step`]; when it asks for an observation, the
/// caller chooses a cell and the order of its variants and hands them to
/// [`WfcStepSolver::end_step`].
pub struct WfcStepSolver<'a> {
    inner: Solver<'a>,
    constraints_applied: bool,
    failed: bool,
}

/// How a step begins.
pub enum StepStart {
    /// The solve failed; this is the failure.
    Failed(WfcFailure),
    /// Every cell is collapsed; this is the final snapshot.
    Finished(WfcStepSnapshot),
    /// A cell is to be observed.
    Observe,
}

impl<'a> WfcStepSolver<'a> {
    /// The solver state is consistent.
    pub closed spec fn wf(&self) -> bool {
        &&& self.inner.inv()
        &&& self.constraints_applied == !self.inner.fresh()
        &&& self.constraints_applied && !self.failed ==> self.inner.is_settled_spec()
        &&& !self.failed ==> self.inner.stats_spec().backtrack_count <= self.inner.request_spec().settings.max_backtracks
    }

    /// No step has failed, so another may run.
    pub closed spec fn usable(&self) -> bool {
        !self.failed
    }

    /// An observation may be made now.
    pub closed spec fn ready(&self) -> bool {
        self.inner.is_settled_spec()
    }

    /// The underlying solver.
    pub closed spec fn solver_spec(&self) -> Solver<'a> {
        self.inner
    }

    /// Create a step solver for `request`.
    pub fn new(request: &'a WfcRequest) -> (r: Result<Self, WfcFailure>)
        requires
            request.grid_size.cells() <= usize::MAX,
            request.grid_size.width <= i32::MAX,
            request.grid_size.height <= i32::MAX,
            request.grid_size.depth <= i32::MAX,
        ensures
            r is Ok <==> (grid_accepts(request.ruleset.topology, request.grid_size) && ruleset_accepts(request.ruleset)
                && globals_valid(*request)),
            r matches Err(f) ==> is_invalid_failure(*request, f),
            r matches Err(f) ==> request_error(*request) == Some(f.message@),
            r matches Ok(s) ==> s.wf() && s.usable() && s.solver_spec().request_spec() == *request,
    {
        match Solver::new(request) {
            Ok(inner) => Ok(WfcStepSolver { inner, constraints_applied: false, failed: false }),
            Err(f) => Err(f),
        }
    }

    /// Whether another step may run.
    pub fn is_usable(&self) -> (r: bool)
        ensures
            r == self.usable(),
    {
        !self.failed
    }

    /// The underlying solver, for choosing observations.
    pub fn solver(&self) -> (r: &Solver<'a>)
        ensures
            *r == self.solver_spec(),
    {
        &self.inner
    }

    /// Apply the input constraints on the first step, then report whether the solve is
    /// finished or failed, or needs an observation.
    pub fn begin_step(&mut self) -> (r: StepStart)
        requires
            old(self).wf(),
            old(self).usable(),
        ensures
            final(self).wf(),
            final(self).solver_spec().request_spec() == old(self).solver_spec().request_spec(),
            r is Failed <==> !final(self).usable(),
            r is Observe ==> final(self).ready() && final(self).usable() && !final(self).solver_spec().collapsed_spec(),
            r is Finished ==> final(self).usable() && final(self).ready() && final(self).solver_spec().collapsed_spec(),
            r matches StepStart::Finished(s) ==> final(self).solver_spec().step_matches(s, true, false),
            r matches StepStart::Failed(f) ==> exists|e: SolveError|
                #[trigger] final(self).solver_spec().failure_matches(e, f) && !(e is BacktrackLimitReached),
            old(self).solver_spec().is_settled_spec() ==> final(self).solver_spec() == old(self).solver_spec(),
            old(self).ready() && old(self).solver_spec().collapsed_spec() ==> r is Finished && *final(self) == *old(self),
            old(self).solver_spec().fresh() && !(r is Failed) ==> final(self).solver_spec().search_complete(),
            r matches StepStart::Failed(f) && f.reason != WfcFailureReason::InvalidRequest
                && final(self).solver_spec().counts_exact() ==> final(self).solver_spec().unsolvable(),
            r is Failed ==> old(self).solver_spec().fresh(),
            r matches StepStart::Failed(f) ==> (f.reason == WfcFailureReason::InvalidRequest ==> !inputs_valid(
                old(self).solver_spec().request_spec(),
            )),
            old(self).solver_spec().fresh() && inputs_valid(old(self).solver_spec().request_spec())
                && old(self).solver_spec().counts_exact() && !old(self).solver_spec().unsolvable() ==> !(r is Failed),
            r matches StepStart::Failed(f) ==> (f.reason == WfcFailureReason::Contradiction
                ==> final(self).solver_spec().contradiction_noted() && f.contradiction is Some),
            r matches StepStart::Failed(f) && f.reason == WfcFailureReason::UnsatisfiedGlobalConstraint ==> !globals_ok(
                final(self).solver_spec().request_spec(),
                final(self).solver_spec().rules_spec(),
                final(self).solver_spec().views(),
            ),
    {
        proof {
            if self.inner.is_settled_spec() {
                self.inner.lemma_settled_nonempty();
            }
        }
        if !self.constraints_applied {
            self.constraints_applied = true;
            match self.inner.apply_input_constraints() {
                Ok(()) => {},
                Err(reason) => {
                    self.failed = true;
                    return StepStart::Failed(self.inner.finish_failure(reason));
                },
            }
        }
        if self.inner.all_collapsed() {
            return StepStart::Finished(self.inner.step_snapshot(true, false));
        }
        StepStart::Observe
    }

    /// Finish a step: observe `cell`, when there is one, with `ordered_choices` tried from the
    /// last, then report the state.
    pub fn end_step(&mut self, cell: Option<usize>, ordered_choices: Vec<usize>) -> (r: Result<WfcStepSnapshot, WfcFailure>)
        requires
            old(self).wf(),
            old(self).usable(),
            old(self).ready(),
            cell matches Some(c) ==> c < old(self).solver_spec().grid_spec().cells(),
            forall|j: int|
                0 <= j < ordered_choices@.len() ==> #[trigger] ordered_choices@[j] < old(self).solver_spec().rules_spec().count(),
        ensures
            final(self).wf(),
            final(self).solver_spec().request_spec() == old(self).solver_spec().request_spec(),
            r is Ok <==> final(self).usable(),
            r is Ok ==> final(self).ready(),
            cell is None ==> r is Ok && final(self).solver_spec() == old(self).solver_spec(),
            r matches Ok(s) ==> final(self).solver_spec().step_matches(s, final(self).solver_spec().collapsed_spec(), false),
            r matches Err(f) ==> exists|e: SolveError|
                #[trigger] final(self).solver_spec().failure_matches(e, f) && (e is Contradiction || e is BacktrackLimitReached),
            r matches Err(f) ==> (f.reason == WfcFailureReason::BacktrackLimitReached ==> f.stats.backtrack_count
                > final(self).solver_spec().request_spec().settings.max_backtracks),
            r matches Err(f) ==> (f.reason == WfcFailureReason::BacktrackLimitReached ==> f.stats.backtrack_count
                == old(self).solver_spec().budget_overrun(old(self).solver_spec().stats_spec().backtrack_count)),
            cell is Some && ordered_choices@.len() == 0 ==> (r matches Err(f) && f.reason == WfcFailureReason::Contradiction),
            cell is Some && old(self).solver_spec().counts_exact() && ordered_choices@.len() > 0
                && old(self).solver_spec().choice_extends(cell->0 as int, ordered_choices@.last() as int) ==> r is Ok
                && final(self).solver_spec().stats_spec().backtrack_count == old(self).solver_spec().stats_spec().backtrack_count
                && forall|u: int| 0 <= u < final(self).solver_spec().views()[cell->0 as int].len()
                    ==> (#[trigger] final(self).solver_spec().views()[cell->0 as int][u] <==> u == ordered_choices@.last()),
            old(self).solver_spec().search_complete() && old(self).solver_spec().counts_exact() && (cell matches Some(c)
                && old(self).solver_spec().choices_cover(c, ordered_choices@)) ==> (r is Ok
                ==> final(self).solver_spec().search_complete()) && (r matches Err(f) && f.reason
                == WfcFailureReason::Contradiction ==> final(self).solver_spec().unsolvable()),
            r is Ok && (cell matches Some(c) && final(self).solver_spec().stats_spec().backtrack_count
                == old(self).solver_spec().stats_spec().backtrack_count
                && old(self).solver_spec().stats_spec().backtrack_count < u32::MAX) ==> ordered_choices@.len() > 0
                && forall|u: int| 0 <= u < final(self).solver_spec().views()[cell->0 as int].len()
                    ==> (#[trigger] final(self).solver_spec().views()[cell->0 as int][u] <==> u == ordered_choices@.last()),
    {
        proof {
            self.inner.lemma_settled_nonempty();
        }
        let cell = match cell {
            Some(c) => c,
            None => {
                let finished = self.inner.all_collapsed();
                return Ok(self.inner.step_snapshot(finished, false));
            },
        };
        match self.inner.observe(cell, ordered_choices) {
            Ok(()) => {},
            Err(reason) => {
                self.failed = true;
                return Err(self.inner.finish_failure(reason));
            },
        }
        let finished = self.inner.all_collapsed();
        Ok(self.inner.step_snapshot(finished, false))
    }

    /// The final solution, once every cell is collapsed; a contradiction failure otherwise.
    pub fn finish(self) -> (r: Result<WfcSolution, WfcFailure>)
        requires
            self.wf(),
        ensures
            r is Ok <==> self.solver_spec().collapsed_spec(),
            r matches Ok(sol) ==> self.solver_spec().solution_matches(sol),
            r matches Ok(sol) ==> self.ready() && self.solver_spec().rules_spec().count() <= u16::MAX ==> solution_respects(
                self.solver_spec().request_spec(),
                sol.grid.tiles@,
                sol.grid.rotations@,
            ),
            r matches Err(f) ==> self.solver_spec().failure_matches(SolveError::Contradiction, f),
            r matches Ok(sol) ==> (self.usable() ==> sol.stats.backtrack_count
                <= self.solver_spec().request_spec().settings.max_backtracks),
    {
        if self.inner.all_collapsed() {
            Ok(self.inner.finish_solution())
        } else {
            Err(self.inner.finish_failure(SolveError::Contradiction))
        }
    }

    /// The tile of cell `index`, if it holds a single variant.
    pub fn tile_at(&self, index: usize) -> (r: Option<WfcTileId>)
        requires
            self.wf(),
        ensures
            r == self.solver_spec().tile_at_spec(index as int),
    {
        self.inner.tile_at(index)
    }
}

} // verus!
