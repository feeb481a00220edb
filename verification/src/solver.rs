use vstd::prelude::*;

use crate::bitset::{count_true, lemma_count_true_bounds, lemma_count_true_one, true_indices, DomainBits};
use crate::config::{active_dirs, WfcDirection, WfcGlobalConstraint, WfcRequest, WfcTileId};
use crate::grid::index_spec;
use crate::consistency::{
    all_nonempty, and_bits, arc_ok, ban_ok, ban_valid, border_ok, border_valid, fixed_ok, fixed_valid, inputs_valid,
    lemma_ban_ok_shrink, lemma_border_ok_shrink, lemma_fixed_ok_shrink, pristine, global_valid, globals_valid,
    request_grid, count_tile, first_member, is_first_member, lemma_cells_holding_count, lemma_first_member,
    placement_allowed, solution_respects, cell_settled, cells_holding, global_ok, globals_ok, holds_tile, lemma_arc_shrink,
    lemma_local_ok_shrink, lemma_settled_shrink, lemma_shrink_refl, lemma_shrink_trans, lemma_update_shrinks,
    local_ok, shaped, snapshot_settled, supported, views_shrink, covers_candidates, candidate, fits_cell,
    lemma_covers_update, some_count_zero, fits_within, cell_arcs_ok, lemma_covers_full, lemma_covers_empty_cell,
    lemma_covers_globals, single_valued, realizes, singles, lemma_solution_is_candidate, keeps_candidates,
    lemma_keeps_trans, lemma_keeps_refl, lemma_covers_keeps, lemma_keeps_update, lemma_solution_keeps,
    first_global_problem, global_problem, lemma_first_global_stable,
};
use crate::debug::{
    copy_vec, fnv_seq, signature_values, WfcCellDebug, WfcContradiction, WfcDebugSnapshot, WfcFailure, WfcFailureReason,
    WfcSolution, WfcSolveStats, WfcTileGrid, WfcTileVariant, FNV_OFFSET,
};
use crate::grid::{grid_accepts, grid_error, CompiledGrid};
use crate::lemmas::{lemma_count_prefix, lemma_subset_count, lemma_total_update, subset_bits, total_members};
use crate::geometry::UVec3;
use crate::rules::{family_mirrors, ruleset_accepts, ruleset_error, tile_known, CompiledRuleset, VariantWeight};
use crate::text::decimal_spec;

verus! {

/// A domain change, with what it replaced.
#[derive(Debug)]
struct TrailEntry {
    cell: usize,
    previous_domain: DomainBits,
    previous_count: u16,
}

/// An observation: where the trail stood, which cell, and the choices left to try.
#[derive(Debug)]
struct DecisionFrame {
    trail_len: usize,
    cell: usize,
    alternatives: Vec<usize>,
}

/// From the state `snap` of decision `frame`, solution `vs` may still be found by one of the
/// alternatives left.
spec fn frame_keeps(snap: Seq<Seq<bool>>, frame: DecisionFrame, vs: Seq<int>, n: nat) -> bool {
    &&& fits_within(snap, singles(vs, n), n)
    &&& frame.alternatives@.contains(vs[frame.cell as int] as usize)
}

/// One of `frames`, from its state in `hist`, may still find solution `vs`.
spec fn frames_keep(hist: Seq<Seq<Seq<bool>>>, frames: Seq<DecisionFrame>, vs: Seq<int>, n: nat) -> bool {
    exists|f: int| 0 <= f < frames.len() && #[trigger] frame_keeps(hist[frames[f].trail_len as int], frames[f], vs, n)
}

/// A history that agrees on the states of the frames keeps what they may find, and so does a
/// longer list of frames.
proof fn lemma_frames_keep_moves(
    h1: Seq<Seq<Seq<bool>>>,
    h2: Seq<Seq<Seq<bool>>>,
    frames: Seq<DecisionFrame>,
    more: Seq<DecisionFrame>,
    vs: Seq<int>,
    n: nat,
)
    requires
        frames_keep(h1, frames, vs, n),
        forall|f: int| 0 <= f < frames.len() ==> #[trigger] h2[frames[f].trail_len as int] == h1[frames[f].trail_len as int],
        frames.len() <= more.len(),
        forall|f: int| 0 <= f < frames.len() ==> #[trigger] more[f] == frames[f],
    ensures
        frames_keep(h2, more, vs, n),
{
    let f = choose|f: int| 0 <= f < frames.len() && #[trigger] frame_keeps(h1[frames[f].trail_len as int], frames[f], vs, n);
    assert(h2[frames[f].trail_len as int] == h1[frames[f].trail_len as int]);
    assert(more[f] == frames[f]);
    assert(frame_keeps(h2[more[f].trail_len as int], more[f], vs, n));
}

/// Why a solve step failed.
#[derive(Debug)]
pub enum SolveError {
    InvalidRequest(String),
    Contradiction,
    BacktrackLimitReached,
    UnsatisfiedGlobalConstraint,
}

/// A tile-count bound over the variants of one tile.
#[derive(Debug)]
struct CompiledTileCountConstraint {
    tile_mask: DomainBits,
    min_count: Option<u32>,
    max_count: Option<u32>,
}

/// The member sets of a list of domains.
pub open spec fn dom_views(doms: Seq<DomainBits>) -> Seq<Seq<bool>> {
    Seq::new(doms.len(), |c: int| doms[c]@)
}

/// One trail step: only `cell` changed, and it only lost variants.
pub open spec fn trail_step(a: Seq<Seq<bool>>, b: Seq<Seq<bool>>, cell: int) -> bool {
    &&& a.len() == b.len()
    &&& 0 <= cell < a.len()
    &&& forall|x: int| 0 <= x < a.len() && x != cell ==> #[trigger] b[x] == a[x]
    &&& subset_bits(b[cell], a[cell])
}

/// `b` starts with the entries of `a`.
pub open spec fn extends<T>(a: Seq<T>, b: Seq<T>) -> bool {
    &&& a.len() <= b.len()
    &&& forall|k: int| 0 <= k < a.len() ==> #[trigger] b[k] == a[k]
}

/// Compiled tile-count bounds agree with those of the request.
spec fn compiled_globals(v: Seq<CompiledTileCountConstraint>, request: WfcRequest, rules: CompiledRuleset) -> bool {
    &&& v.len() == request.global_constraints@.len()
    &&& forall|i: int|
        #![trigger v[i]]
        0 <= i < v.len() ==> {
            let g = v[i];
            let t = match request.global_constraints@[i] {
                WfcGlobalConstraint::TileCount(t) => t,
            };
            &&& g.tile_mask.wf()
            &&& g.tile_mask.len_spec() == rules.count()
            &&& g.tile_mask.clean()
            &&& g.min_count == t.min_count
            &&& g.max_count == t.max_count
            &&& forall|u: int| 0 <= u < rules.count() ==> (#[trigger] g.tile_mask@[u] <==> rules.variants@[u].tile_id == t.tile)
        }
}

/// What a rejected request is answered with.
pub open spec fn is_invalid_failure(request: WfcRequest, f: WfcFailure) -> bool {
    &&& f.reason == WfcFailureReason::InvalidRequest
    &&& f.seed == request.seed
    &&& f.topology == request.ruleset.topology
    &&& f.grid_size == request.grid_size
    &&& f.stats == (WfcSolveStats {
        observation_count: 0,
        propagation_count: 0,
        backtrack_count: 0,
        contradiction_count: 0,
    })
    &&& f.contradiction is None
    &&& f.debug is None
}

/// The error that checking a request reports, if any: the grid first, then the ruleset, then
/// the tile-count bounds in order.
pub open spec fn request_error(request: WfcRequest) -> Option<Seq<char>> {
    if grid_error(request.ruleset.topology, request.grid_size) is Some {
        grid_error(request.ruleset.topology, request.grid_size)
    } else if ruleset_error(request.ruleset) is Some {
        ruleset_error(request.ruleset)
    } else {
        first_global_problem(request, request.global_constraints@.len() as int)
    }
}

/// The failure that reports an invalid request.
fn invalid_failure(request: &WfcRequest, message: String) -> (r: WfcFailure)
    ensures
        is_invalid_failure(*request, r),
        r.message@ == message@,
{
    WfcFailure {
        reason: WfcFailureReason::InvalidRequest,
        seed: request.seed,
        topology: request.ruleset.topology,
        grid_size: request.grid_size,
        stats: WfcSolveStats::default(),
        contradiction: None,
        debug: None,
        message,
    }
}

/// Compile the tile-count bounds of the request into variant masks.
fn compile_global_constraints(request: &WfcRequest, rules: &CompiledRuleset) -> (r: Result<Vec<CompiledTileCountConstraint>, WfcFailure>)
    requires
        rules.wf(),
        rules.compiled_from(request.ruleset),
    ensures
        r is Ok <==> globals_valid(*request),
        r matches Err(f) ==> is_invalid_failure(*request, f),
        r matches Err(f) ==> first_global_problem(*request, request.global_constraints@.len() as int) == Some(f.message@),
        r is Ok ==> first_global_problem(*request, request.global_constraints@.len() as int) is None,
        r matches Ok(v) ==> compiled_globals(v@, *request, *rules),
{
    let mut compiled: Vec<CompiledTileCountConstraint> = Vec::new();
    let mut i: usize = 0;
    while i < request.global_constraints.len()
        invariant
            rules.wf(),
            rules.compiled_from(request.ruleset),
            i <= request.global_constraints@.len(),
            compiled@.len() == i,
            forall|j: int| 0 <= j < i ==> #[trigger] global_valid(*request, request.global_constraints@[j]),
            first_global_problem(*request, i as int) is None,
            forall|j: int|
                #![trigger compiled@[j]]
                0 <= j < i ==> {
                    let g = compiled@[j];
                    let t = match request.global_constraints@[j] {
                        WfcGlobalConstraint::TileCount(t) => t,
                    };
                    &&& g.tile_mask.wf()
                    &&& g.tile_mask.len_spec() == rules.count()
                    &&& g.tile_mask.clean()
                    &&& g.min_count == t.min_count
                    &&& g.max_count == t.max_count
                    &&& forall|u: int| 0 <= u < rules.count() ==> (#[trigger] g.tile_mask@[u] <==> rules.variants@[u].tile_id == t.tile)
                },
        decreases request.global_constraints@.len() - i,
    {
        match &request.global_constraints[i] {
            WfcGlobalConstraint::TileCount(t) => {
                let tile = t.tile;
                let min_count = t.min_count;
                let max_count = t.max_count;
                if let Some(lo) = min_count {
                    if let Some(hi) = max_count {
                        if lo > hi {
                            let text = tile.debug_text();
                            let message = crate::text::join3("tile-count constraint for ", text.as_str(), " has min > max");
                            proof {
                                assert(request.global_constraints@[i as int] == WfcGlobalConstraint::TileCount(*t));
                                assert(!global_valid(*request, request.global_constraints@[i as int]));
                                assert(global_problem(*request, request.global_constraints@[i as int]) == Some(message@));
                                assert(first_global_problem(*request, i + 1) == Some(message@));
                                lemma_first_global_stable(*request, i + 1, request.global_constraints@.len() as int);
                            }
                            return Err(invalid_failure(request, message));
                        }
                    }
                }
                let mut tiles: Vec<WfcTileId> = Vec::new();
                tiles.push(tile);
                proof {
                    rules.lemma_family_known(request.ruleset, tile);
                    assert(tiles@[0] == tile);
                }
                let tile_mask = match rules.mask_for_tiles(&tiles) {
                    Ok(m) => m,
                    Err(message) => {
                        proof {
                            assert(request.global_constraints@[i as int] == WfcGlobalConstraint::TileCount(*t));
                            assert(!global_valid(*request, request.global_constraints@[i as int]));
                            assert(global_problem(*request, request.global_constraints@[i as int]) == Some(message@));
                            assert(first_global_problem(*request, i + 1) == Some(message@));
                            lemma_first_global_stable(*request, i + 1, request.global_constraints@.len() as int);
                        }
                        return Err(invalid_failure(request, message));
                    },
                };
                proof {
                    assert forall|u: int| 0 <= u < rules.count() implies (#[trigger] tile_mask@[u] <==> rules.variants@[u].tile_id == tile) by {
                        if rules.variants@[u].tile_id == tile {
                            assert(tiles@.contains(rules.variants@[u].tile_id)) by {
                                assert(tiles@[0] == tile);
                            }
                        }
                    }
                }
                compiled.push(CompiledTileCountConstraint { tile_mask, min_count, max_count });
            },
        }
        proof {
            assert(global_valid(*request, request.global_constraints@[i as int]));
            assert(global_problem(*request, request.global_constraints@[i as int]) is None);
        }
        i = i + 1;
    }
    Ok(compiled)
}

/// The step-by-step solver state for one request.
pub struct Solver<'a> {
    request: &'a WfcRequest,
    grid: CompiledGrid,
    rules: CompiledRuleset,
    domains: Vec<DomainBits>,
    possible_counts: Vec<u16>,
    queue: Vec<usize>,
    trail: Vec<TrailEntry>,
    decisions: Vec<DecisionFrame>,
    global_constraints: Vec<CompiledTileCountConstraint>,
    stats: WfcSolveStats,
    last_observed: Option<usize>,
    last_contradiction: Option<WfcContradiction>,
    started: bool,
    constraints_applied: bool,
    settled: bool,
    history: Ghost<Seq<Seq<Seq<bool>>>>,
    base_len: Ghost<int>,
}

impl<'a> Solver<'a> {
    pub closed spec fn request_spec(&self) -> WfcRequest {
        *self.request
    }

    pub closed spec fn grid_spec(&self) -> CompiledGrid {
        self.grid
    }

    pub closed spec fn rules_spec(&self) -> CompiledRuleset {
        self.rules
    }

    /// The member sets of the cells.
    pub closed spec fn views(&self) -> Seq<Seq<bool>> {
        dom_views(self.domains@)
    }

    /// No candidate state of the request has been ruled out by the current cells.
    pub open spec fn covers(&self) -> bool {
        covers_candidates(self.request_spec(), self.grid_spec(), self.rules_spec(), self.views())
    }

    /// Some decision left an alternative from which solution `vs` may still be found.
    pub closed spec fn in_frames(&self, vs: Seq<int>) -> bool {
        frames_keep(self.history@, self.decisions@, vs, self.rules.count())
    }

    /// Solution `vs` may still be found: the current cells allow it, or a decision left an
    /// alternative from which it may.
    pub closed spec fn in_reach(&self, vs: Seq<int>) -> bool {
        ||| fits_within(self.views(), singles(vs, self.rules.count()), self.rules.count())
        ||| self.in_frames(vs)
    }

    /// Every solution of the request may still be found.
    pub closed spec fn search_complete(&self) -> bool {
        forall|vs: Seq<int>| #[trigger] realizes(*self.request, self.rules, vs) ==> self.in_reach(vs)
    }

    /// The request has no solution.
    pub open spec fn unsolvable(&self) -> bool {
        forall|vs: Seq<int>| !#[trigger] realizes(self.request_spec(), self.rules_spec(), vs)
    }

    /// The variant and cell counts are small enough that a failed state, an emptied cell or a
    /// broken tile count, rules out every solution that fits within it.
    pub open spec fn counts_exact(&self) -> bool {
        self.rules_spec().count() <= u16::MAX && self.grid_spec().cells() <= u32::MAX
    }

    /// Some solution of the request holds variant `tile` at `cell` and fits within the current
    /// cells.
    pub open spec fn choice_extends(&self, cell: int, tile: int) -> bool {
        exists|vs: Seq<int>|
            #[trigger] realizes(self.request_spec(), self.rules_spec(), vs) && vs[cell] == tile && fits_within(
                self.views(),
                singles(vs, self.rules_spec().count()),
                self.rules_spec().count(),
            )
    }

    /// The backtrack count that the budget error reports, from count `before`: one past the
    /// budget, or one more than `before` (saturating) when `before` already exceeds it.
    pub open spec fn budget_overrun(&self, before: u32) -> u32 {
        let max = self.request_spec().settings.max_backtracks;
        if before <= max {
            (max + 1) as u32
        } else if before < u32::MAX {
            (before + 1) as u32
        } else {
            u32::MAX
        }
    }

    /// `choices` lists every variant left at `cell`.
    pub open spec fn choices_cover(&self, cell: usize, choices: Seq<usize>) -> bool {
        forall|t: int| 0 <= t < self.rules_spec().count() && #[trigger] self.views()[cell as int][t] ==> choices.contains(t as usize)
    }

    /// A state with an emptied cell or a broken tile count lets no solution fit within it.
    proof fn lemma_failure_excludes(&self, vs: Seq<int>)
        requires
            self.inv(),
            self.counts_exact(),
            realizes(*self.request, self.rules, vs),
            some_count_zero(self.views()) || !globals_ok(*self.request, self.rules, self.views()),
        ensures
            !fits_within(self.views(), singles(vs, self.rules.count()), self.rules.count()),
    {
        let n = self.rules.count();
        let st = singles(vs, n);
        self.lemma_views();
        lemma_solution_is_candidate(*self.request, self.rules, vs);
        assert(self.grid == request_grid(*self.request));
        if fits_within(self.views(), st, n) {
            if some_count_zero(self.views()) {
                let c = choose|c: int| 0 <= c < self.views().len() && (#[trigger] count_true(self.views()[c]) as u16) == 0;
                self.domains@[c].lemma_wf_len();
                lemma_count_le_limit(self.views()[c], n);
                crate::lemmas::lemma_count_zero(self.views()[c]);
                assert(fits_cell(st[c], self.views()[c], n));
                assert(st[c][vs[c]]);
                assert(self.views()[c][vs[c]]);
            } else {
                crate::consistency::lemma_fit_breaks_globals(*self.request, self.rules, self.views(), st);
            }
        }
    }

    pub closed spec fn trail_len_spec(&self) -> nat {
        self.trail@.len()
    }

    pub closed spec fn queue_spec(&self) -> Seq<usize> {
        self.queue@
    }

    pub closed spec fn history_spec(&self) -> Seq<Seq<Seq<bool>>> {
        self.history@
    }

    pub closed spec fn is_settled_spec(&self) -> bool {
        self.settled
    }

    pub closed spec fn constraints_applied_spec(&self) -> bool {
        self.constraints_applied
    }

    pub closed spec fn stats_spec(&self) -> WfcSolveStats {
        self.stats
    }

    /// The compiled tile-count bounds agree with the request.
    pub closed spec fn globals_compiled(&self) -> bool {
        compiled_globals(self.global_constraints@, *self.request, self.rules)
    }

    /// The shapes, caches and ghost history of the state agree.
    pub closed spec fn inv(&self) -> bool {
        let n = self.rules.count();
        let cells = self.grid.cells();
        let h = self.history@;
        &&& self.grid.wf()
        &&& self.rules.wf()
        &&& n >= 1
        &&& ruleset_accepts(self.request.ruleset)
        &&& self.grid.topology == self.request.ruleset.topology
        &&& self.grid.size == self.request.grid_size
        &&& self.grid.boundary_stitching == self.request.boundary_stitching
        &&& self.rules.compiled_from(self.request.ruleset)
        &&& self.globals_compiled()
        &&& self.domains@.len() == cells
        &&& self.possible_counts@.len() == cells
        &&& forall|c: int| #![trigger self.domains@[c]] 0 <= c < cells ==> {
            &&& self.domains@[c].wf()
            &&& self.domains@[c].len_spec() == n
            &&& self.domains@[c].clean()
        }
        &&& forall|c: int| 0 <= c < cells ==> #[trigger] self.possible_counts@[c] == count_true(self.domains@[c]@) as u16
        &&& forall|q: int| 0 <= q < self.queue@.len() ==> #[trigger] self.queue@[q] < cells
        &&& (self.last_observed matches Some(i) ==> i < cells)
        &&& forall|k: int| #![trigger self.trail@[k]] 0 <= k < self.trail@.len() ==> {
            &&& self.trail@[k].cell < cells
            &&& self.trail@[k].previous_domain.wf()
            &&& self.trail@[k].previous_domain.len_spec() == n
            &&& self.trail@[k].previous_domain.clean()
            &&& self.trail@[k].previous_count == count_true(self.trail@[k].previous_domain@) as u16
            &&& h[k][self.trail@[k].cell as int] == self.trail@[k].previous_domain@
            &&& trail_step(h[k], h[k + 1], self.trail@[k].cell as int)
        }
        &&& h.len() == self.trail@.len() + 1
        &&& h.last() == self.views()
        &&& forall|f: int| #![trigger self.decisions@[f]] 0 <= f < self.decisions@.len() ==> {
            &&& self.base_len@ <= self.decisions@[f].trail_len <= self.trail@.len()
            &&& self.decisions@[f].cell < cells
            &&& forall|j: int| 0 <= j < self.decisions@[f].alternatives@.len() ==> #[trigger] self.decisions@[f].alternatives@[j] < n
            &&& snapshot_settled(*self.request, self.grid, self.rules, h[self.decisions@[f].trail_len as int])
        }
        &&& forall|f: int, g: int| 0 <= f < g < self.decisions@.len() ==> #[trigger] self.decisions@[f].trail_len
            <= #[trigger] self.decisions@[g].trail_len
        &&& self.constraints_applied ==> {
            &&& 0 <= self.base_len@ <= self.trail@.len()
            &&& forall|k: int| self.base_len@ <= k < h.len() ==> local_ok(*self.request, self.grid, self.rules, #[trigger] h[k])
        }
        &&& !self.constraints_applied ==> self.decisions@.len() == 0
        &&& self.constraints_applied ==> self.started
        &&& !self.started ==> {
            &&& self.queue@.len() == 0
            &&& self.trail@.len() == 0
            &&& forall|c: int| 0 <= c < cells ==> #[trigger] pristine(self.rules, self.views()[c])
        }
        &&& self.settled ==> {
            &&& self.constraints_applied
            &&& self.queue@.len() == 0
            &&& snapshot_settled(*self.request, self.grid, self.rules, self.views())
        }
    }

    /// Every cell outside the queue is settled.
    pub closed spec fn queue_covers(&self) -> bool {
        forall|c: int|
            0 <= c < self.grid.cells() && !self.queue@.contains(c as usize) ==> #[trigger] cell_settled(
                self.grid,
                self.rules,
                self.views(),
                c,
            )
    }

    /// What a domain change leaves unchanged.
    pub closed spec fn same_frame(&self, other: &Self) -> bool {
        &&& self.request == other.request
        &&& self.grid == other.grid
        &&& self.rules == other.rules
        &&& self.decisions == other.decisions
        &&& self.global_constraints == other.global_constraints
        &&& self.constraints_applied == other.constraints_applied
        &&& self.started == other.started
        &&& self.base_len == other.base_len
        &&& self.last_observed == other.last_observed
    }

    proof fn lemma_views(&self)
        requires
            self.inv(),
        ensures
            self.views().len() == self.grid.cells(),
            shaped(self.views(), self.rules.count()),
            forall|c: int| 0 <= c < self.grid.cells() ==> #[trigger] self.views()[c] == self.domains@[c]@,
    {
        assert forall|c: int| 0 <= c < self.views().len() implies (#[trigger] self.views()[c]).len() >= self.rules.count() by {
            self.domains@[c].lemma_wf_len();
        }
    }

    /// Replace the domain of `cell` with a proper subset of it, recording the old one.
    fn apply_domain_change(&mut self, cell: usize, next_domain: DomainBits, note: &str) -> (r: Result<(), SolveError>)
        requires
            old(self).inv(),
            old(self).started,
            cell < old(self).grid.cells(),
            next_domain.wf(),
            next_domain.len_spec() == old(self).rules.count(),
            next_domain.clean(),
            subset_bits(next_domain@, old(self).views()[cell as int]),
            next_domain@ != old(self).views()[cell as int],
        ensures
            final(self).inv(),
            final(self).same_frame(old(self)),
            final(self).views() == old(self).views().update(cell as int, next_domain@),
            final(self).queue_spec() == old(self).queue_spec().push(cell),
            final(self).history_spec() == old(self).history_spec().push(final(self).views()),
            final(self).trail_len_spec() == old(self).trail_len_spec() + 1,
            !final(self).is_settled_spec(),
            r is Ok <==> (count_true(next_domain@) as u16) != 0,
            r matches Err(e) ==> e is Contradiction,
            r is Err ==> (count_true(final(self).views()[cell as int]) as u16) == 0,
            r is Err ==> final(self).contradiction_noted_at(cell as int),
            total_members(final(self).views()) < total_members(old(self).views()),
            views_shrink(old(self).views(), final(self).views()),
            final(self).stats_spec().observation_count == old(self).stats_spec().observation_count,
            final(self).stats_spec().backtrack_count == old(self).stats_spec().backtrack_count,
    {
        proof {
            self.lemma_views();
            next_domain.lemma_wf_len();
            lemma_subset_count(next_domain@, self.views()[cell as int]);
            lemma_total_update(self.views(), cell as int, next_domain@);
            lemma_update_shrinks(self.views(), cell as int, next_domain@);
        }
        let ghost old_views = self.views();
        let next_count = next_domain.count() as u16;
        let previous_domain = self.domains[cell].duplicate();
        let previous_count = self.possible_counts[cell];
        self.trail.push(TrailEntry { cell, previous_domain, previous_count });
        self.domains.set(cell, next_domain);
        self.possible_counts.set(cell, next_count);
        self.queue.push(cell);
        self.settled = false;
        proof {
            let new_views = old_views.update(cell as int, next_domain@);
            assert(self.views() =~= new_views);
            let h0 = self.history@;
            self.history@ = h0.push(new_views);
            let h = self.history@;
            let k0 = (self.trail@.len() - 1) as int;
            assert(trail_step(h[k0], h[k0 + 1], cell as int)) by {
                assert(h[k0] == old_views);
                assert(h[k0 + 1] == new_views);
            }
            assert forall|k: int| #![trigger self.trail@[k]] 0 <= k < self.trail@.len() implies {
                &&& self.trail@[k].cell < self.grid.cells()
                &&& self.trail@[k].previous_domain.wf()
                &&& self.trail@[k].previous_domain.len_spec() == self.rules.count()
                &&& self.trail@[k].previous_domain.clean()
                &&& self.trail@[k].previous_count == count_true(self.trail@[k].previous_domain@) as u16
                &&& h[k][self.trail@[k].cell as int] == self.trail@[k].previous_domain@
                &&& trail_step(h[k], h[k + 1], self.trail@[k].cell as int)
            } by {
                if k < k0 {
                    assert(self.trail@[k] == old(self).trail@[k]);
                    assert(h[k] == h0[k]);
                    assert(h[k + 1] == h0[k + 1]);
                }
            }
            assert forall|f: int| #![trigger self.decisions@[f]] 0 <= f < self.decisions@.len() implies
                snapshot_settled(*self.request, self.grid, self.rules, h[self.decisions@[f].trail_len as int]) by {
                assert(h[self.decisions@[f].trail_len as int] == h0[self.decisions@[f].trail_len as int]);
            }
            assert(shaped(new_views, self.rules.count()));
            if self.constraints_applied {
                assert forall|k: int| self.base_len@ <= k < h.len() implies local_ok(*self.request, self.grid, self.rules, #[trigger] h[k]) by {
                    if k < h.len() - 1 {
                        assert(h[k] == h0[k]);
                    } else {
                        assert(h0[k - 1] == old_views);
                        assert(h[k] == new_views);
                        assert(local_ok(*self.request, self.grid, self.rules, h0[k - 1]));
                        lemma_local_ok_shrink(*self.request, self.grid, self.rules, old_views, new_views);
                    }
                }
            }
        }
        if next_count == 0 {
            self.record_contradiction(cell, note);
            return Err(SolveError::Contradiction);
        }
        Ok(())
    }

    /// Note a contradiction at `cell`.
    fn record_contradiction(&mut self, cell: usize, note: &str)
        requires
            old(self).inv(),
            cell < old(self).grid.cells(),
        ensures
            final(self).inv(),
            final(self).same_frame(old(self)),
            final(self).views() == old(self).views(),
            final(self).queue_spec() == old(self).queue_spec(),
            final(self).history_spec() == old(self).history_spec(),
            final(self).trail_len_spec() == old(self).trail_len_spec(),
            final(self).is_settled_spec() == old(self).is_settled_spec(),
            final(self).stats_spec().observation_count == old(self).stats_spec().observation_count,
            final(self).stats_spec().backtrack_count == old(self).stats_spec().backtrack_count,
            final(self).stats_spec().propagation_count == old(self).stats_spec().propagation_count,
            final(self).stats_spec().contradiction_count == if old(self).stats_spec().contradiction_count < u32::MAX {
                (old(self).stats_spec().contradiction_count + 1) as u32
            } else {
                u32::MAX
            },
            final(self).last_contradiction_spec() matches Some(x) && old(self).contradiction_at(cell as int, note@, x),
    {
        self.stats.contradiction_count = self.stats.contradiction_count.saturating_add(1);
        let indices = self.domains[cell].to_indices();
        let mut remaining_candidates: Vec<WfcTileId> = Vec::new();
        let mut remaining_variants: Vec<WfcTileVariant> = Vec::new();
        let mut q: usize = 0;
        proof {
            self.domains@[cell as int].lemma_wf_len();
        }
        while q < indices.len()
            invariant
                self.rules.wf(),
                q <= indices@.len(),
                forall|k: int| 0 <= k < indices@.len() ==> #[trigger] indices@[k] < self.rules.count(),
                remaining_candidates@.len() == q,
                remaining_variants@.len() == q,
                forall|k: int|
                    0 <= k < q ==> #[trigger] remaining_candidates@[k] == self.rules.variants@[indices@[k] as int].tile_id,
                forall|k: int| 0 <= k < q ==> #[trigger] remaining_variants@[k] == variant_of(self.rules, indices@[k] as int),
            decreases indices@.len() - q,
        {
            remaining_candidates.push(self.rules.tile_id(indices[q]));
            remaining_variants.push(self.rules.tile_variant(indices[q]));
            q = q + 1;
        }
        let position = self.grid.position_of(cell);
        let last_observed_cell = match self.last_observed {
            Some(index) => Some(self.grid.position_of(index)),
            None => None,
        };
        let decision_depth = self.decisions.len() as u32;
        proof {
            let idx = true_indices(old(self).views()[cell as int], self.rules.count() as int);
            assert(old(self).views()[cell as int] == self.domains@[cell as int]@);
            assert(indices@.map_values(|k: usize| k as int) == idx);
            assert(remaining_candidates@ =~= Seq::new(idx.len(), |k: int| self.rules.variants@[idx[k]].tile_id));
            assert(remaining_variants@ =~= Seq::new(idx.len(), |k: int| variant_of(self.rules, idx[k])));
        }
        self.last_contradiction = Some(
            WfcContradiction {
                position,
                last_observed_cell,
                remaining_candidates,
                remaining_variants,
                decision_depth,
                note: note.to_owned(),
            },
        );
    }

    /// The variants that some member of `source` lets stand in `direction`.
    fn supported_mask(&self, source: &DomainBits, direction: WfcDirection) -> (r: DomainBits)
        requires
            self.rules.wf(),
            source.wf(),
            source.len_spec() == self.rules.count(),
            active_dirs(self.rules.topology).contains(direction),
        ensures
            r.wf(),
            r.len_spec() == self.rules.count(),
            r.clean(),
            forall|u: int|
                0 <= u < self.rules.count() ==> (#[trigger] r@[u] <==> supported(self.rules, direction, source@, u)),
    {
        let n = self.rules.tile_count();
        let mut mask = DomainBits::empty(n);
        let indices = source.to_indices();
        proof {
            mask.lemma_wf_len();
        }
        let mut q: usize = 0;
        while q < indices.len()
            invariant
                self.rules.wf(),
                n == self.rules.count(),
                active_dirs(self.rules.topology).contains(direction),
                q <= indices@.len(),
                forall|k: int|
                    0 <= k < indices@.len() ==> #[trigger] indices@[k] < source.len_spec() && source@[indices@[k] as int],
                source.len_spec() == n,
                mask.wf(),
                mask.len_spec() == n,
                mask.clean(),
                forall|u: int|
                    0 <= u < n ==> (#[trigger] mask@[u] <==> exists|j: int|
                        0 <= j < q && self.rules.allows(direction, indices@[j] as int, u)),
            decreases indices@.len() - q,
        {
            let allowed = self.rules.allowed_mask(direction, indices[q]);
            proof {
                mask.lemma_wf_len();
                allowed.lemma_wf_len();
            }
            let ghost before = mask@;
            mask.or_assign(allowed);
            proof {
                assert forall|u: int| 0 <= u < n implies (#[trigger] mask@[u] <==> exists|j: int|
                    0 <= j < q + 1 && self.rules.allows(direction, indices@[j] as int, u)) by {
                    if mask@[u] {
                        if !before[u] {
                            assert(self.rules.allows(direction, indices@[q as int] as int, u));
                        }
                    }
                    if exists|j: int| 0 <= j < q + 1 && self.rules.allows(direction, indices@[j] as int, u) {
                        let j = choose|j: int| 0 <= j < q + 1 && self.rules.allows(direction, indices@[j] as int, u);
                        if j == q {
                            assert(allowed@[u]);
                        }
                    }
                }
            }
            q = q + 1;
        }
        proof {
            assert forall|u: int| 0 <= u < n implies (#[trigger] mask@[u] <==> supported(self.rules, direction, source@, u)) by {
                if mask@[u] {
                    let j = choose|j: int| 0 <= j < indices@.len() && self.rules.allows(direction, indices@[j] as int, u);
                    let t = indices@[j] as int;
                    assert(source@[t] && self.rules.allows(direction, t, u));
                }
                if supported(self.rules, direction, source@, u) {
                    let t = choose|t: int| 0 <= t < self.rules.count() && source@[t] && #[trigger] self.rules.allows(direction, t, u);
                    assert(indices@.contains(t as usize));
                    let j = choose|j: int| 0 <= j < indices@.len() && indices@[j] == t as usize;
                    assert(self.rules.allows(direction, indices@[j] as int, u));
                }
            }
        }
        mask
    }

    /// How many cells hold the tile of bound `i` as their one variant, and how many may hold it.
    fn count_holding(&self, i: usize) -> (r: (u32, u32))
        requires
            self.inv(),
            i < self.request.global_constraints@.len(),
        ensures
            ({
                let t = match self.request.global_constraints@[i as int] {
                    WfcGlobalConstraint::TileCount(t) => t,
                };
                &&& r.0 == cells_holding(self.rules, self.views(), t.tile, true, self.grid.cells() as int) as u32
                &&& r.1 == cells_holding(self.rules, self.views(), t.tile, false, self.grid.cells() as int) as u32
            }),
    {
        let ghost t = match self.request.global_constraints@[i as int] {
            WfcGlobalConstraint::TileCount(t) => t,
        };
        let mask = &self.global_constraints[i].tile_mask;
        proof {
            self.lemma_views();
            assert(self.global_constraints@[i as int].tile_mask == *mask);
        }
        let cells = self.domains.len();
        let mut guaranteed: usize = 0;
        let mut possible: usize = 0;
        let mut c: usize = 0;
        while c < cells
            invariant
                self.inv(),
                cells == self.grid.cells(),
                c <= cells,
                mask.wf(),
                mask.len_spec() == self.rules.count(),
                mask.clean(),
                forall|u: int| 0 <= u < self.rules.count() ==> (#[trigger] mask@[u] <==> self.rules.variants@[u].tile_id == t.tile),
                guaranteed == cells_holding(self.rules, self.views(), t.tile, true, c as int),
                possible == cells_holding(self.rules, self.views(), t.tile, false, c as int),
                guaranteed <= c,
                possible <= c,
            decreases cells - c,
        {
            proof {
                self.lemma_views();
                self.domains@[c as int].lemma_wf_len();
                mask.lemma_wf_len();
            }
            let hit = self.domains[c].intersects(mask);
            let single = self.domains[c].is_singleton();
            proof {
                let dom = self.views()[c as int];
                assert(hit <==> holds_tile(self.rules, dom, t.tile)) by {
                    if hit {
                        let u = choose|u: int| 0 <= u < dom.len() && dom[u] && mask@[u];
                        assert(u < self.rules.count());
                    }
                    if holds_tile(self.rules, dom, t.tile) {
                        let u = choose|u: int| 0 <= u < self.rules.count() && #[trigger] dom[u] && self.rules.variants@[u].tile_id == t.tile;
                        assert(mask@[u]);
                    }
                }
            }
            if hit {
                possible = possible + 1;
                if single {
                    guaranteed = guaranteed + 1;
                }
            }
            c = c + 1;
        }
        (guaranteed as u32, possible as u32)
    }

    /// Fails when a tile-count bound can no longer be met.
    fn check_global_constraints(&mut self) -> (r: Result<(), SolveError>)
        requires
            old(self).inv(),
        ensures
            final(self).inv(),
            final(self).same_frame(old(self)),
            final(self).views() == old(self).views(),
            final(self).queue_spec() == old(self).queue_spec(),
            final(self).history_spec() == old(self).history_spec(),
            final(self).trail_len_spec() == old(self).trail_len_spec(),
            final(self).is_settled_spec() == old(self).is_settled_spec(),
            final(self).stats_spec().observation_count == old(self).stats_spec().observation_count,
            final(self).stats_spec().backtrack_count == old(self).stats_spec().backtrack_count,
            r is Ok <==> globals_ok(old(self).request_spec(), old(self).rules_spec(), old(self).views()),
            r matches Err(e) ==> e is UnsatisfiedGlobalConstraint,
    {
        proof {
            crate::grid::lemma_plane_bound(self.grid.size);
        }
        let mut i: usize = 0;
        while i < self.global_constraints.len()
            invariant
                self.inv(),
                self.same_frame(old(self)),
                self.views() == old(self).views(),
                self.queue@ == old(self).queue@,
                self.history@ == old(self).history@,
                self.trail@.len() == old(self).trail@.len(),
                self.settled == old(self).settled,
                self.stats.observation_count == old(self).stats.observation_count,
                self.stats.backtrack_count == old(self).stats.backtrack_count,
                i <= self.request.global_constraints@.len(),
                forall|j: int| 0 <= j < i ==> #[trigger] global_ok(self.rules, self.views(), self.request.global_constraints@[j]),
            decreases self.global_constraints@.len() - i,
        {
            let counts = self.count_holding(i);
            let guaranteed = counts.0;
            let possible = counts.1;
            proof {
                self.lemma_views();
            }
            let target = match self.last_observed {
                Some(index) => index,
                None => 0,
            };
            let max_count = self.global_constraints[i].max_count;
            let min_count = self.global_constraints[i].min_count;
            proof {
                crate::grid::lemma_plane_bound(self.grid.size);
                let t = match self.request.global_constraints@[i as int] {
                    WfcGlobalConstraint::TileCount(t) => t,
                };
                assert(self.global_constraints@[i as int].max_count == t.max_count);
                assert(self.global_constraints@[i as int].min_count == t.min_count);
                assert(self.views().len() == self.grid.cells());
            }
            if let Some(max) = max_count {
                if guaranteed > max {
                    proof {
                        assert(!global_ok(self.rules, self.views(), self.request.global_constraints@[i as int]));
                    }
                    self.record_contradiction(target, "tile-count maximum exceeded");
                    return Err(SolveError::UnsatisfiedGlobalConstraint);
                }
            }
            if let Some(min) = min_count {
                if possible < min {
                    proof {
                        assert(!global_ok(self.rules, self.views(), self.request.global_constraints@[i as int]));
                    }
                    self.record_contradiction(target, "tile-count minimum became unreachable");
                    return Err(SolveError::UnsatisfiedGlobalConstraint);
                }
            }
            i = i + 1;
        }
        Ok(())
    }

    /// Narrow the neighbours of queued cells until no queued cell is left.
    /// Keeping at the neighbour only the variants that the popped cell's earlier domain
    /// supports rules out no candidate.
    proof fn lemma_support_keeps_candidates(
        &self,
        cell: usize,
        direction: WfcDirection,
        neighbor: usize,
        source: &DomainBits,
        support: &DomainBits,
        va: Seq<Seq<bool>>,
        next: Seq<bool>,
    )
        requires
            self.inv(),
            va == self.views(),
            cell < self.grid.cells(),
            active_dirs(self.grid.topology).contains(direction),
            self.grid.neighbor_spec(cell as int, direction) == Some(neighbor as int),
            fits_cell(va[cell as int], source@, self.rules.count()),
            support.len_spec() == self.rules.count(),
            forall|u: int| 0 <= u < self.rules.count() ==> (#[trigger] support@[u] <==> supported(
                self.rules,
                direction,
                source@,
                u,
            )),
            next.len() >= self.rules.count(),
            forall|u: int| 0 <= u < next.len() ==> #[trigger] next[u] == (va[neighbor as int][u] && support@[u]),
        ensures
            keeps_candidates(*self.request, self.grid, self.rules, va, va.update(neighbor as int, next)),
    {
        let n = self.rules.count();
        self.lemma_views();
        crate::grid::lemma_neighbor_in_range(self.grid, cell as int, direction);
        let i = choose|i: int| 0 <= i < active_dirs(self.grid.topology).len() && active_dirs(self.grid.topology)[i] == direction;
        assert forall|s: Seq<Seq<bool>>| #[trigger] candidate(*self.request, self.grid, self.rules, s) && fits_within(
            va,
            s,
            n,
        ) implies fits_cell(s[neighbor as int], next, n) by {
            assert(cell_arcs_ok(self.grid, self.rules, s, cell as int));
            assert(arc_ok(self.grid, self.rules, s, cell as int, active_dirs(self.grid.topology)[i]));
            assert(fits_cell(s[cell as int], va[cell as int], n));
            assert(fits_cell(s[neighbor as int], va[neighbor as int], n));
            assert forall|u: int| 0 <= u < n && #[trigger] s[neighbor as int][u] implies next[u] by {
                let nb = self.grid.neighbor_spec(cell as int, direction)->0;
                assert(s[nb][u]);
                assert(supported(self.rules, direction, s[cell as int], u));
                let t = choose|t: int| 0 <= t < n && s[cell as int][t] && #[trigger] self.rules.allows(direction, t, u);
                assert(va[cell as int][t]);
                assert(source@[t]);
                assert(supported(self.rules, direction, source@, u));
                assert(support@[u]);
            }
        }
        lemma_keeps_update(*self.request, self.grid, self.rules, va, neighbor as int, next);
    }

    fn propagate(&mut self) -> (r: Result<(), SolveError>)
        requires
            old(self).inv(),
            old(self).queue_covers(),
            old(self).constraints_applied_spec(),
            all_nonempty(old(self).views()),
        ensures
            final(self).inv(),
            final(self).same_frame(old(self)),
            extends(old(self).history_spec(), final(self).history_spec()),
            views_shrink(old(self).views(), final(self).views()),
            final(self).trail_len_spec() >= old(self).trail_len_spec(),
            final(self).stats_spec().observation_count == old(self).stats_spec().observation_count,
            final(self).stats_spec().backtrack_count == old(self).stats_spec().backtrack_count,
            r is Ok ==> final(self).is_settled_spec(),
            r matches Err(e) ==> e is Contradiction || e is UnsatisfiedGlobalConstraint,
            keeps_candidates(final(self).request_spec(), final(self).grid_spec(), final(self).rules_spec(), old(self).views(), final(self).views()),
            r matches Err(SolveError::Contradiction) ==> some_count_zero(final(self).views()),
            r matches Err(SolveError::Contradiction) ==> final(self).contradiction_noted(),
            r matches Err(SolveError::UnsatisfiedGlobalConstraint) ==> !globals_ok(
                final(self).request_spec(),
                final(self).rules_spec(),
                final(self).views(),
            ),
    {
        proof {
            self.lemma_views();
            lemma_shrink_refl(self.views());
            lemma_keeps_refl(*self.request, self.grid, self.rules, self.views());
        }
        while self.queue.len() > 0
            invariant
                self.inv(),
                self.constraints_applied,
                self.same_frame(old(self)),
                extends(old(self).history@, self.history@),
                views_shrink(old(self).views(), self.views()),
                self.trail@.len() >= old(self).trail@.len(),
                self.stats.observation_count == old(self).stats.observation_count,
                self.stats.backtrack_count == old(self).stats.backtrack_count,
                self.queue_covers(),
                all_nonempty(self.views()),
                keeps_candidates(*self.request, self.grid, self.rules, old(self).views(), self.views()),
            decreases total_members(self.views()), self.queue@.len(),
        {
            let ghost qfull = self.queue@;
            let cell = self.queue.pop().unwrap();
            let ghost q0 = self.queue@;
            let ghost views0 = self.views();
            let ghost total0 = total_members(views0);
            proof {
                self.lemma_views();
                assert(qfull == q0.push(cell));
                assert forall|x: int|
                    0 <= x < self.grid.cells() && x != cell && !q0.contains(x as usize) implies #[trigger] cell_settled(
                    self.grid,
                    self.rules,
                    self.views(),
                    x,
                ) by {
                    if qfull.contains(x as usize) {
                        let p = choose|p: int| 0 <= p < qfull.len() && qfull[p] == x as usize;
                        if p < q0.len() {
                            assert(q0[p] == x as usize);
                        }
                    }
                }
            }
            let source = self.domains[cell].duplicate();
            let dirs = self.grid.directions();
            let mut i: usize = 0;
            while i < dirs.len()
                invariant
                    self.inv(),
                    self.constraints_applied,
                    self.same_frame(old(self)),
                    extends(old(self).history@, self.history@),
                    views_shrink(old(self).views(), self.views()),
                    self.trail@.len() >= old(self).trail@.len(),
                    self.stats.observation_count == old(self).stats.observation_count,
                    self.stats.backtrack_count == old(self).stats.backtrack_count,
                    all_nonempty(self.views()),
                    dirs@ == active_dirs(self.grid.topology),
                    cell < self.grid.cells(),
                    i <= dirs@.len(),
                    source.wf(),
                    source.len_spec() == self.rules.count(),
                    forall|x: int|
                        0 <= x < self.grid.cells() && x != cell && !self.queue@.contains(x as usize)
                            ==> #[trigger] cell_settled(self.grid, self.rules, self.views(), x),
                    self.queue@.contains(cell) || (self.views()[cell as int] == source@ && forall|k: int|
                        0 <= k < i ==> #[trigger] arc_ok(self.grid, self.rules, self.views(), cell as int, dirs@[k])),
                    total0 == total_members(views0),
                    (self.views() == views0 && self.queue@ == q0) || total_members(self.views()) < total0,
                    views_shrink(views0, self.views()),
                    views0[cell as int] == source@,
                    keeps_candidates(*self.request, self.grid, self.rules, old(self).views(), self.views()),
                decreases dirs@.len() - i,
            {
                let direction = dirs[i];
                let ghost va = self.views();
                let ghost qa = self.queue@;
                proof {
                    self.lemma_views();
                    assert(active_dirs(self.rules.topology).contains(direction));
                }
                match self.grid.neighbor(cell, direction) {
                    None => {},
                    Some(neighbor) => {
                        let support = self.supported_mask(&source, direction);
                        let mut next = self.domains[neighbor].duplicate();
                        proof {
                            next.lemma_wf_len();
                            support.lemma_wf_len();
                        }
                        let changed = next.and_assign(&support);
                        proof {
                            next.lemma_wf_len();
                            assert(subset_bits(next@, va[neighbor as int]));
                            if !changed {
                                assert forall|u: int| 0 <= u < self.rules.count() && #[trigger] va[neighbor as int][u] implies supported(
                                    self.rules,
                                    direction,
                                    source@,
                                    u,
                                ) by {
                                    assert(next@[u] == (va[neighbor as int][u] && support@[u]));
                                }
                            }
                        }
                        proof {
                            self.lemma_support_keeps_candidates(cell, direction, neighbor, &source, &support, va, next@);
                            lemma_keeps_trans(
                                *self.request,
                                self.grid,
                                self.rules,
                                old(self).views(),
                                va,
                                va.update(neighbor as int, next@),
                            );
                        }
                        if changed {
                            self.stats.propagation_count = self.stats.propagation_count.saturating_add(1);
                            self.apply_domain_change(neighbor, next, "adjacency propagation removed unsupported tiles")?;
                            proof {
                                let vb = self.views();
                                lemma_shrink_trans(views0, va, vb);
                                self.lemma_views();
                                lemma_shrink_trans(old(self).views(), va, vb);
                                assert forall|x: int|
                                    0 <= x < self.grid.cells() && x != cell && !self.queue@.contains(x as usize) implies #[trigger] cell_settled(
                                    self.grid,
                                    self.rules,
                                    vb,
                                    x,
                                ) by {
                                    assert(self.queue@[self.queue@.len() - 1] == neighbor);
                                    assert(x != neighbor);
                                    assert(!qa.contains(x as usize)) by {
                                        if qa.contains(x as usize) {
                                            let p = choose|p: int| 0 <= p < qa.len() && qa[p] == x as usize;
                                            assert(self.queue@[p] == x as usize);
                                        }
                                    }
                                    assert(vb[x] == va[x]);
                                    lemma_settled_shrink(self.grid, self.rules, va, vb, x);
                                }
                                if !self.queue@.contains(cell) {
                                    assert(neighbor != cell) by {
                                        assert(self.queue@[self.queue@.len() - 1] == neighbor);
                                    }
                                    assert(!qa.contains(cell)) by {
                                        if qa.contains(cell) {
                                            let p = choose|p: int| 0 <= p < qa.len() && qa[p] == cell;
                                            assert(self.queue@[p] == cell);
                                        }
                                    }
                                    assert(vb[cell as int] == va[cell as int]);
                                    assert forall|k: int| 0 <= k < i + 1 implies #[trigger] arc_ok(
                                        self.grid,
                                        self.rules,
                                        vb,
                                        cell as int,
                                        dirs@[k],
                                    ) by {
                                        if k < i {
                                            lemma_arc_shrink(self.grid, self.rules, va, vb, cell as int, dirs@[k]);
                                        } else {
                                            crate::grid::lemma_neighbor_in_range(self.grid, cell as int, direction);
                                            assert forall|u: int| 0 <= u < self.rules.count() && #[trigger] vb[neighbor as int][u] implies supported(
                                                self.rules,
                                                direction,
                                                vb[cell as int],
                                                u,
                                            ) by {
                                                assert(next@[u] == (va[neighbor as int][u] && support@[u]));
                                            }
                                        }
                                    }
                                }
                            }
                        } else {
                            proof {
                                if !self.queue@.contains(cell) {
                                    assert(arc_ok(self.grid, self.rules, self.views(), cell as int, dirs@[i as int]));
                                }
                            }
                        }
                    },
                }
                proof {
                    if !self.queue@.contains(cell) {
                        assert forall|k: int| 0 <= k < i + 1 implies #[trigger] arc_ok(
                            self.grid,
                            self.rules,
                            self.views(),
                            cell as int,
                            dirs@[k],
                        ) by {
                            if k == i && self.grid.neighbor_spec(cell as int, direction) is None {
                            }
                        }
                    }
                }
                i = i + 1;
            }
            proof {
                assert forall|c: int|
                    0 <= c < self.grid.cells() && !self.queue@.contains(c as usize) implies #[trigger] cell_settled(
                    self.grid,
                    self.rules,
                    self.views(),
                    c,
                ) by {
                    if c == cell {
                        assert forall|k: int| 0 <= k < active_dirs(self.grid.topology).len() implies #[trigger] arc_ok(
                            self.grid,
                            self.rules,
                            self.views(),
                            c,
                            active_dirs(self.grid.topology)[k],
                        ) by {
                            assert(dirs@[k] == active_dirs(self.grid.topology)[k]);
                        }
                    }
                }
            }
        }
        proof {
            self.lemma_views();
        }
        self.check_global_constraints()?;
        self.settled = true;
        proof {
            assert forall|c: int| 0 <= c < self.grid.cells() implies #[trigger] cell_settled(self.grid, self.rules, self.views(), c) by {
                assert(!self.queue@.contains(c as usize));
            }
        }
        Ok(())
    }

    /// Drop the last contradiction and report an invalid request.
    fn invalid_contradiction(&mut self, message: String) -> (r: SolveError)
        requires
            old(self).inv(),
        ensures
            final(self).inv(),
            final(self).same_frame(old(self)),
            final(self).views() == old(self).views(),
            final(self).queue_spec() == old(self).queue_spec(),
            final(self).history_spec() == old(self).history_spec(),
            final(self).trail_len_spec() == old(self).trail_len_spec(),
            final(self).is_settled_spec() == old(self).is_settled_spec(),
            final(self).stats_spec() == old(self).stats_spec(),
            r == SolveError::InvalidRequest(message),
    {
        self.last_contradiction = None;
        SolveError::InvalidRequest(message)
    }

    /// Replace the domain of `cell` by `next_domain`, a subset of it, if that changes it.
    fn restrict_domain(&mut self, cell: usize, next_domain: DomainBits, note: &str) -> (r: Result<(), SolveError>)
        requires
            old(self).inv(),
            old(self).started,
            cell < old(self).grid.cells(),
            next_domain.wf(),
            next_domain.len_spec() == old(self).rules.count(),
            next_domain.clean(),
            subset_bits(next_domain@, old(self).views()[cell as int]),
        ensures
            final(self).inv(),
            final(self).same_frame(old(self)),
            final(self).views() == old(self).views().update(cell as int, next_domain@),
            extends(old(self).history_spec(), final(self).history_spec()),
            views_shrink(old(self).views(), final(self).views()),
            final(self).trail_len_spec() >= old(self).trail_len_spec(),
            final(self).stats_spec().observation_count == old(self).stats_spec().observation_count,
            final(self).stats_spec().backtrack_count == old(self).stats_spec().backtrack_count,
            r is Ok <==> (next_domain@ == old(self).views()[cell as int] || (count_true(next_domain@) as u16) != 0),
            r matches Err(e) ==> e is Contradiction,
            r is Err ==> (count_true(final(self).views()[cell as int]) as u16) == 0,
            r is Err ==> final(self).contradiction_noted_at(cell as int),
            old(self).queue_covers() ==> final(self).queue_covers(),
            r is Ok && all_nonempty(old(self).views()) ==> all_nonempty(final(self).views()),
            next_domain@ == old(self).views()[cell as int] ==> final(self).queue_spec() == old(self).queue_spec()
                && final(self).is_settled_spec() == old(self).is_settled_spec(),
    {
        proof {
            self.lemma_views();
        }
        let same = next_domain.same_as(&self.domains[cell]);
        if same {
            proof {
                assert(self.views().update(cell as int, next_domain@) =~= self.views());
                lemma_shrink_refl(self.views());
            }
            return Ok(());
        }
        let ghost pre_views = self.views();
        let ghost pre_queue = self.queue@;
        let ghost covered = self.queue_covers();
        let r = self.apply_domain_change(cell, next_domain, note);
        proof {
            self.lemma_views();
            if covered {
                assert forall|c: int|
                    0 <= c < self.grid.cells() && !self.queue@.contains(c as usize) implies #[trigger] cell_settled(
                    self.grid,
                    self.rules,
                    self.views(),
                    c,
                ) by {
                    assert(self.queue@[self.queue@.len() - 1] == cell);
                    assert(!pre_queue.contains(c as usize)) by {
                        if pre_queue.contains(c as usize) {
                            let p = choose|p: int| 0 <= p < pre_queue.len() && pre_queue[p] == c as usize;
                            assert(self.queue@[p] == c as usize);
                        }
                    }
                    assert(cell_settled(self.grid, self.rules, pre_views, c));
                    lemma_settled_shrink(self.grid, self.rules, pre_views, self.views(), c);
                }
            }
            if r is Ok && all_nonempty(pre_views) {
                assert forall|c: int| 0 <= c < self.views().len() implies #[trigger] count_true(self.views()[c]) > 0 by {
                    if c != cell {
                        assert(self.views()[c] == pre_views[c]);
                    }
                }
            }
        }
        r
    }

    /// Keep at `cell` only the variants that `mask` holds.
    fn intersect_domain(&mut self, cell: usize, mask: &DomainBits, note: &str) -> (r: Result<(), SolveError>)
        requires
            old(self).inv(),
            old(self).started,
            cell < old(self).grid.cells(),
            mask.wf(),
            mask.len_spec() == old(self).rules.count(),
        ensures
            final(self).inv(),
            final(self).same_frame(old(self)),
            final(self).views() == old(self).views().update(
                cell as int,
                and_bits(old(self).views()[cell as int], mask@),
            ),
            extends(old(self).history_spec(), final(self).history_spec()),
            views_shrink(old(self).views(), final(self).views()),
            final(self).trail_len_spec() >= old(self).trail_len_spec(),
            final(self).stats_spec().observation_count == old(self).stats_spec().observation_count,
            final(self).stats_spec().backtrack_count == old(self).stats_spec().backtrack_count,
            r is Ok <==> (and_bits(old(self).views()[cell as int], mask@) == old(self).views()[cell as int] || (
            count_true(and_bits(old(self).views()[cell as int], mask@)) as u16) != 0),
            r matches Err(e) ==> e is Contradiction,
            r is Err ==> (count_true(final(self).views()[cell as int]) as u16) == 0,
            r is Err ==> final(self).contradiction_noted_at(cell as int),
            old(self).queue_covers() ==> final(self).queue_covers(),
            r is Ok && all_nonempty(old(self).views()) ==> all_nonempty(final(self).views()),
    {
        proof {
            self.lemma_views();
            self.domains@[cell as int].lemma_wf_len();
            mask.lemma_wf_len();
        }
        let mut next_domain = self.domains[cell].duplicate();
        next_domain.and_assign(mask);
        proof {
            let old_cell = self.views()[cell as int];
            assert(next_domain@ =~= and_bits(old_cell, mask@));
            next_domain.lemma_wf_len();
        }
        self.restrict_domain(cell, next_domain, note)
    }

    /// Collapse `cell` to variant `tile_index`.
    fn assign_single(&mut self, cell: usize, tile_index: usize) -> (r: Result<(), SolveError>)
        requires
            old(self).inv(),
            old(self).started,
            cell < old(self).grid.cells(),
            tile_index < old(self).rules.count(),
        ensures
            final(self).inv(),
            final(self).same_frame(old(self)),
            final(self).views().len() == old(self).views().len(),
            forall|x: int|
                0 <= x < old(self).views().len() && x != cell ==> #[trigger] final(self).views()[x] == old(self).views()[x],
            forall|u: int|
                0 <= u < old(self).views()[cell as int].len() ==> #[trigger] final(self).views()[cell as int][u] == (old(
                    self,
                ).views()[cell as int][u] && u == tile_index),
            extends(old(self).history_spec(), final(self).history_spec()),
            views_shrink(old(self).views(), final(self).views()),
            final(self).stats_spec().observation_count == old(self).stats_spec().observation_count,
            final(self).stats_spec().backtrack_count == old(self).stats_spec().backtrack_count,
            r matches Err(e) ==> e is Contradiction,
            old(self).queue_covers() ==> final(self).queue_covers(),
            r is Ok && all_nonempty(old(self).views()) ==> all_nonempty(final(self).views()),
            r is Ok && all_nonempty(old(self).views()) ==> final(self).views()[cell as int][tile_index as int],
            r is Err ==> (count_true(final(self).views()[cell as int]) as u16) == 0,
            r is Err ==> final(self).contradiction_noted_at(cell as int),
    {
        let n = self.rules.tile_count();
        proof {
            self.lemma_views();
            self.domains@[cell as int].lemma_wf_len();
        }
        let singleton = DomainBits::singleton(n, tile_index);
        let ghost before = self.views()[cell as int];
        let r = self.intersect_domain(cell, &singleton, "observation collapsed a cell");
        proof {
            singleton.lemma_wf_len();
            let after = and_bits(before, singleton@);
            if r is Ok && all_nonempty(old(self).views()) {
                assert(count_true(before) > 0);
                if after == before {
                    if !before[tile_index as int] {
                        assert(forall|u: int| 0 <= u < after.len() ==> !after[u]);
                        lemma_count_true_bounds(after);
                    }
                } else {
                    if !after[tile_index as int] {
                        assert(forall|u: int| 0 <= u < after.len() ==> !after[u]);
                        lemma_count_true_bounds(after);
                    }
                }
            }
        }
        r
    }

    /// Remove the banned tiles of ban list `i` from its cell.
    fn apply_bans(&mut self, i: usize) -> (r: Result<(), SolveError>)
        requires
            old(self).inv(),
            old(self).started,
            i < old(self).request.banned_cells@.len(),
        ensures
            final(self).inv(),
            final(self).same_frame(old(self)),
            extends(old(self).history_spec(), final(self).history_spec()),
            views_shrink(old(self).views(), final(self).views()),
            final(self).stats_spec().observation_count == old(self).stats_spec().observation_count,
            final(self).stats_spec().backtrack_count == old(self).stats_spec().backtrack_count,
            r matches Err(e) ==> e is Contradiction || e is InvalidRequest,
            r matches Err(SolveError::InvalidRequest(_)) ==> !ban_valid(*old(self).request, i as int),
            r is Ok ==> ban_valid(*old(self).request, i as int),
            r is Ok ==> ban_ok(*old(self).request, old(self).grid, old(self).rules, final(self).views(), i as int),
            old(self).covers() ==> final(self).covers(),
            r matches Err(SolveError::Contradiction) ==> some_count_zero(final(self).views()),
            r matches Err(SolveError::Contradiction) ==> final(self).contradiction_noted(),
            old(self).queue_covers() ==> final(self).queue_covers(),
            r is Ok && all_nonempty(old(self).views()) ==> all_nonempty(final(self).views()),
    {
        proof {
            self.lemma_views();
        }
        let position = self.request.banned_cells[i].position;
        let cell = match self.grid.index_of(position) {
            Some(c) => c,
            None => {
                let text = position.debug_text();
                let message = crate::text::join3("banned cell ", text.as_str(), " is outside the requested grid");
                let e = self.invalid_contradiction(message);
                proof {
                    lemma_shrink_refl(self.views());
                }
                return Err(e);
            },
        };
        let banned_mask = match self.rules.mask_for_tiles(&self.request.banned_cells[i].banned_tiles) {
            Ok(m) => m,
            Err(message) => {
                proof {
                    let tiles = self.request.banned_cells@[i as int].banned_tiles@;
                    let k = choose|k: int| 0 <= k < tiles.len() && self.rules.family_of_id@[#[trigger] tiles[k].0 as int] == crate::rules::NO_FAMILY;
                    self.rules.lemma_family_known(self.request.ruleset, tiles[k]);
                }
                let e = self.invalid_contradiction(message);
                proof {
                    lemma_shrink_refl(self.views());
                }
                return Err(e);
            },
        };
        proof {
            self.domains@[cell as int].lemma_wf_len();
            banned_mask.lemma_wf_len();
            let tiles = self.request.banned_cells@[i as int].banned_tiles@;
            assert forall|k: int| 0 <= k < tiles.len() implies tile_known(self.request.ruleset.tiles@, #[trigger] tiles[k]) by {
                self.rules.lemma_family_known(self.request.ruleset, tiles[k]);
            }
        }
        let restricted = self.domains[cell].difference(&banned_mask);
        proof {
            restricted.lemma_wf_len();
            if self.covers() {
                let n = self.rules.count();
                assert forall|s: Seq<Seq<bool>>| #[trigger] candidate(*self.request, self.grid, self.rules, s) implies fits_cell(
                    s[cell as int],
                    restricted@,
                    n,
                ) by {
                    assert(ban_ok(*self.request, self.grid, self.rules, s, i as int));
                    assert(fits_cell(s[cell as int], self.views()[cell as int], n));
                    let pos = self.request.banned_cells@[i as int].position;
                    assert(index_spec(self.grid.size, pos) == Some(cell as int));
                    let banned = self.request.banned_cells@[i as int].banned_tiles@;
                    assert forall|t: int| 0 <= t < n && #[trigger] s[cell as int][t] implies restricted@[t] by {
                        let c = index_spec(self.grid.size, pos)->0;
                        assert(s[c][t]);
                        assert(!banned.contains(self.rules.variants@[t].tile_id));
                        assert(self.views()[cell as int][t]);
                        assert(!self.request.banned_cells@[i as int].banned_tiles@.contains(self.rules.variants@[t].tile_id));
                        assert(!banned_mask@[t]);
                    }
                }
                lemma_covers_update(*self.request, self.grid, self.rules, self.views(), cell as int, restricted@);
            }
        }
        let r = self.restrict_domain(cell, restricted, "per-cell tile bans");
        proof {
            self.lemma_views();
            if r is Err {
                assert(some_count_zero(self.views())) by {
                    assert((count_true(self.views()[cell as int]) as u16) == 0);
                }
            }
        }
        r
    }


    /// No constraint has been applied yet.
    pub closed spec fn fresh(&self) -> bool {
        !self.started
    }

    /// The input constraints hold of the current cells.
    proof fn lemma_local(&self)
        requires
            self.inv(),
            self.constraints_applied,
        ensures
            local_ok(*self.request, self.grid, self.rules, self.views()),
    {
        assert(self.history@[self.history@.len() - 1] == self.views());
    }

    /// Pin the fixed cells, apply the bans and the border constraints, then propagate;
    /// no candidate state is lost on the way.
    fn apply_inputs_and_propagate(&mut self) -> (r: Result<(), SolveError>)
        requires
            old(self).inv(),
            old(self).fresh(),
        ensures
            !(r matches Err(SolveError::InvalidRequest(_))) ==> final(self).covers(),
            r matches Err(SolveError::Contradiction) ==> some_count_zero(final(self).views()),
            r matches Err(SolveError::Contradiction) ==> final(self).contradiction_noted(),
            r matches Err(SolveError::UnsatisfiedGlobalConstraint) ==> !globals_ok(
                final(self).request_spec(),
                final(self).rules_spec(),
                final(self).views(),
            ),
            final(self).inv(),
            final(self).request_spec() == old(self).request_spec(),
            final(self).grid_spec() == old(self).grid_spec(),
            final(self).rules_spec() == old(self).rules_spec(),
            final(self).stats_spec().backtrack_count == old(self).stats_spec().backtrack_count,
            final(self).constraints_applied_spec() || r is Err,
            !final(self).fresh(),
            r is Ok ==> inputs_valid(old(self).request_spec()),
            r is Ok ==> final(self).is_settled_spec(),
            r is Ok ==> local_ok(
                final(self).request_spec(),
                final(self).grid_spec(),
                final(self).rules_spec(),
                final(self).views(),
            ),
            r matches Err(SolveError::InvalidRequest(_)) ==> !inputs_valid(old(self).request_spec()),
            r matches Err(e) ==> e is InvalidRequest || e is Contradiction || e is UnsatisfiedGlobalConstraint,
    {
        proof {
            self.lemma_views();
            assert forall|c: int|
                0 <= c < self.grid.cells() && !self.queue@.contains(c as usize) implies #[trigger] cell_settled(
                self.grid,
                self.rules,
                self.views(),
                c,
            ) by {
                assert(pristine(self.rules, self.views()[c]));
            }
            assert forall|c: int| 0 <= c < self.views().len() implies #[trigger] count_true(self.views()[c]) > 0 by {
                assert(pristine(self.rules, self.views()[c]));
                assert(self.views()[c][0]);
                lemma_count_true_bounds(self.views()[c]);
            }
        }
        proof {
            lemma_covers_full(*self.request, self.grid, self.rules, self.views());
        }
        self.started = true;
        let ghost s0 = *self;
        let fixed_len = self.request.fixed_cells.len();
        let mut i: usize = 0;
        while i < fixed_len
            invariant
                self.inv(),
                !self.constraints_applied,
                self.same_frame(&s0),
                self.started,
                self.request == old(self).request,
                self.grid == old(self).grid,
                self.rules == old(self).rules,
                self.stats.backtrack_count == old(self).stats.backtrack_count,
                self.queue_covers(),
                all_nonempty(self.views()),
                self.covers(),
                fixed_len == self.request.fixed_cells@.len(),
                i <= fixed_len,
                forall|j: int| 0 <= j < i ==> #[trigger] fixed_valid(*self.request, j),
                forall|j: int| 0 <= j < i ==> #[trigger] fixed_ok(*self.request, self.grid, self.rules, self.views(), j),
            decreases fixed_len - i,
        {
            let position = self.request.fixed_cells[i].position;
            let tile = self.request.fixed_cells[i].tile;
            let cell = match self.grid.index_of(position) {
                Some(c) => c,
                None => {
                    let text = position.debug_text();
                    let message = crate::text::join3("fixed cell ", text.as_str(), " is outside the requested grid");
                    let e = self.invalid_contradiction(message);
                    proof {
                        assert(!fixed_valid(*self.request, i as int));
                    }
                    return Err(e);
                },
            };
            let mut tiles: Vec<WfcTileId> = Vec::new();
            tiles.push(tile);
            proof {
                self.rules.lemma_family_known(self.request.ruleset, tile);
                assert(tiles@[0] == tile);
            }
            let mask = match self.rules.mask_for_tiles(&tiles) {
                Ok(m) => m,
                Err(message) => {
                    let e = self.invalid_contradiction(message);
                    proof {
                        assert(!fixed_valid(*self.request, i as int));
                    }
                    return Err(e);
                },
            };
            let ghost pre = self.views();
            proof {
                self.lemma_fixed_keeps_candidates(i as int, cell as int, mask@);
            }
            self.intersect_domain(cell, &mask, "fixed cell assignment")?;
            proof {
                self.lemma_views();
                let post = self.views();
                assert(fixed_valid(*self.request, i as int));
                assert forall|j: int| 0 <= j < i + 1 implies #[trigger] fixed_ok(*self.request, self.grid, self.rules, post, j) by {
                    if j < i {
                        lemma_fixed_ok_shrink(*self.request, self.grid, self.rules, pre, post, j);
                    } else {
                        assert forall|t: int| 0 <= t < self.rules.count() && #[trigger] post[cell as int][t] implies self.rules.variants@[t].tile_id
                            == tile by {
                            assert(mask@[t]);
                            assert(tiles@.contains(self.rules.variants@[t].tile_id));
                        }
                    }
                }
            }
            i = i + 1;
        }
        let bans_len = self.request.banned_cells.len();
        let mut i: usize = 0;
        while i < bans_len
            invariant
                self.inv(),
                !self.constraints_applied,
                self.same_frame(&s0),
                self.started,
                self.request == old(self).request,
                self.grid == old(self).grid,
                self.rules == old(self).rules,
                self.stats.backtrack_count == old(self).stats.backtrack_count,
                self.queue_covers(),
                all_nonempty(self.views()),
                self.covers(),
                fixed_len == self.request.fixed_cells@.len(),
                bans_len == self.request.banned_cells@.len(),
                i <= bans_len,
                forall|j: int| 0 <= j < fixed_len ==> #[trigger] fixed_valid(*self.request, j),
                forall|j: int| 0 <= j < fixed_len ==> #[trigger] fixed_ok(*self.request, self.grid, self.rules, self.views(), j),
                forall|j: int| 0 <= j < i ==> #[trigger] ban_valid(*self.request, j),
                forall|j: int| 0 <= j < i ==> #[trigger] ban_ok(*self.request, self.grid, self.rules, self.views(), j),
            decreases bans_len - i,
        {
            let ghost pre = self.views();
            self.apply_bans(i)?;
            proof {
                self.lemma_views();
                let post = self.views();
                assert forall|j: int| 0 <= j < fixed_len implies #[trigger] fixed_ok(*self.request, self.grid, self.rules, post, j) by {
                    lemma_fixed_ok_shrink(*self.request, self.grid, self.rules, pre, post, j);
                }
                assert forall|j: int| 0 <= j < i + 1 implies #[trigger] ban_ok(*self.request, self.grid, self.rules, post, j) by {
                    if j < i {
                        lemma_ban_ok_shrink(*self.request, self.grid, self.rules, pre, post, j);
                    }
                }
            }
            i = i + 1;
        }
        let borders_len = self.request.border_constraints.len();
        let cells = self.grid.total_cells();
        let mut i: usize = 0;
        while i < borders_len
            invariant
                self.inv(),
                !self.constraints_applied,
                self.same_frame(&s0),
                self.started,
                self.request == old(self).request,
                self.grid == old(self).grid,
                self.rules == old(self).rules,
                self.stats.backtrack_count == old(self).stats.backtrack_count,
                self.queue_covers(),
                all_nonempty(self.views()),
                self.covers(),
                cells == self.grid.cells(),
                fixed_len == self.request.fixed_cells@.len(),
                bans_len == self.request.banned_cells@.len(),
                borders_len == self.request.border_constraints@.len(),
                i <= borders_len,
                forall|j: int| 0 <= j < fixed_len ==> #[trigger] fixed_valid(*self.request, j),
                forall|j: int| 0 <= j < fixed_len ==> #[trigger] fixed_ok(*self.request, self.grid, self.rules, self.views(), j),
                forall|j: int| 0 <= j < bans_len ==> #[trigger] ban_valid(*self.request, j),
                forall|j: int| 0 <= j < bans_len ==> #[trigger] ban_ok(*self.request, self.grid, self.rules, self.views(), j),
                forall|j: int| 0 <= j < i ==> #[trigger] border_valid(*self.request, j),
                forall|j: int, x: int|
                    0 <= j < i && 0 <= x < cells ==> #[trigger] border_ok(*self.request, self.grid, self.rules, self.views(), j, x),
            decreases borders_len - i,
        {
            let border = self.request.border_constraints[i].border;
            let allowed = match self.rules.mask_for_tiles(&self.request.border_constraints[i].allowed_tiles) {
                Ok(m) => m,
                Err(message) => {
                    proof {
                        let tiles = self.request.border_constraints@[i as int].allowed_tiles@;
                        let k = choose|k: int| 0 <= k < tiles.len() && self.rules.family_of_id@[#[trigger] tiles[k].0 as int] == crate::rules::NO_FAMILY;
                        self.rules.lemma_family_known(self.request.ruleset, tiles[k]);
                        assert(!border_valid(*self.request, i as int));
                    }
                    let e = self.invalid_contradiction(message);
                    return Err(e);
                },
            };
            proof {
                let tiles = self.request.border_constraints@[i as int].allowed_tiles@;
                assert forall|k: int| 0 <= k < tiles.len() implies tile_known(self.request.ruleset.tiles@, #[trigger] tiles[k]) by {
                    self.rules.lemma_family_known(self.request.ruleset, tiles[k]);
                }
                assert(border_valid(*self.request, i as int));
            }
            let mut c: usize = 0;
            while c < cells
                invariant
                    self.inv(),
                    !self.constraints_applied,
                    self.same_frame(&s0),
                self.started,
                self.request == old(self).request,
                self.grid == old(self).grid,
                self.rules == old(self).rules,
                self.stats.backtrack_count == old(self).stats.backtrack_count,
                    self.queue_covers(),
                    all_nonempty(self.views()),
                    self.covers(),
                self.covers(),
                    cells == self.grid.cells(),
                    fixed_len == self.request.fixed_cells@.len(),
                    bans_len == self.request.banned_cells@.len(),
                    borders_len == self.request.border_constraints@.len(),
                    i < borders_len,
                    c <= cells,
                    border == self.request.border_constraints@[i as int].border,
                    allowed.wf(),
                    allowed.len_spec() == self.rules.count(),
                    forall|u: int|
                        0 <= u < self.rules.count() ==> (#[trigger] allowed@[u] <==> self.request.border_constraints@[i as int].allowed_tiles@.contains(
                            self.rules.variants@[u].tile_id,
                        )),
                    forall|j: int| 0 <= j < fixed_len ==> #[trigger] fixed_valid(*self.request, j),
                    forall|j: int| 0 <= j < fixed_len ==> #[trigger] fixed_ok(*self.request, self.grid, self.rules, self.views(), j),
                    forall|j: int| 0 <= j < bans_len ==> #[trigger] ban_valid(*self.request, j),
                    forall|j: int| 0 <= j < bans_len ==> #[trigger] ban_ok(*self.request, self.grid, self.rules, self.views(), j),
                    forall|j: int| 0 <= j <= i ==> #[trigger] border_valid(*self.request, j),
                    forall|j: int, x: int|
                        0 <= j < i && 0 <= x < cells ==> #[trigger] border_ok(*self.request, self.grid, self.rules, self.views(), j, x),
                    forall|x: int| 0 <= x < c ==> #[trigger] border_ok(*self.request, self.grid, self.rules, self.views(), i as int, x),
                decreases cells - c,
            {
                let on_border = self.grid.is_on_border(c, border);
                if on_border {
                    let ghost pre = self.views();
                    proof {
                        self.lemma_border_keeps_candidates(i as int, c as int, allowed@);
                    }
                    self.intersect_domain(c, &allowed, "border constraint")?;
                    proof {
                        self.lemma_views();
                        let post = self.views();
                        assert forall|j: int| 0 <= j < fixed_len implies #[trigger] fixed_ok(*self.request, self.grid, self.rules, post, j) by {
                            lemma_fixed_ok_shrink(*self.request, self.grid, self.rules, pre, post, j);
                        }
                        assert forall|j: int| 0 <= j < bans_len implies #[trigger] ban_ok(*self.request, self.grid, self.rules, post, j) by {
                            lemma_ban_ok_shrink(*self.request, self.grid, self.rules, pre, post, j);
                        }
                        assert forall|j: int, x: int| 0 <= j < i && 0 <= x < cells implies #[trigger] border_ok(
                            *self.request,
                            self.grid,
                            self.rules,
                            post,
                            j,
                            x,
                        ) by {
                            lemma_border_ok_shrink(*self.request, self.grid, self.rules, pre, post, j, x);
                        }
                        assert forall|x: int| 0 <= x < c + 1 implies #[trigger] border_ok(
                            *self.request,
                            self.grid,
                            self.rules,
                            post,
                            i as int,
                            x,
                        ) by {
                            if x < c {
                                lemma_border_ok_shrink(*self.request, self.grid, self.rules, pre, post, i as int, x);
                            } else {
                                assert forall|t: int| 0 <= t < self.rules.count() && #[trigger] post[x][t] implies self.request.border_constraints@[i as int].allowed_tiles@.contains(
                                    self.rules.variants@[t].tile_id,
                                ) by {
                                    assert(allowed@[t]);
                                }
                            }
                        }
                    }
                }
                c = c + 1;
            }
            i = i + 1;
        }
        proof {
            self.lemma_views();
            assert(local_ok(*self.request, self.grid, self.rules, self.views()));
            assert(inputs_valid(*self.request));
        }
        self.constraints_applied = true;
        proof {
            self.base_len@ = self.trail@.len() as int;
            assert(self.history@[self.history@.len() - 1] == self.views());
        }
        let ghost pre = self.views();
        let r = self.propagate();
        proof {
            self.lemma_local();
            lemma_covers_keeps(*self.request, self.grid, self.rules, pre, self.views());
        }
        r
    }


    /// Every candidate keeps, at fixed cell `i`, only variants of the fixed tile.
    proof fn lemma_fixed_keeps_candidates(&self, i: int, cell: int, mask: Seq<bool>)
        requires
            self.inv(),
            self.covers(),
            0 <= i < self.request.fixed_cells@.len(),
            0 <= cell < self.grid.cells(),
            index_spec(self.grid.size, self.request.fixed_cells@[i].position) == Some(cell),
            forall|u: int| 0 <= u < self.rules.count() ==> (#[trigger] mask[u] <==> seq![self.request.fixed_cells@[i].tile].contains(
                self.rules.variants@[u].tile_id,
            )),
        ensures
            covers_candidates(
                *self.request,
                self.grid,
                self.rules,
                self.views().update(cell, and_bits(self.views()[cell], mask)),
            ),
    {
        let n = self.rules.count();
        let v = self.views();
        self.lemma_views();
        assert forall|s: Seq<Seq<bool>>| #[trigger] candidate(*self.request, self.grid, self.rules, s) implies fits_cell(
            s[cell],
            and_bits(v[cell], mask),
            n,
        ) by {
            assert(fixed_ok(*self.request, self.grid, self.rules, s, i));
            assert(fits_within(v, s, n));
            assert(fits_cell(s[cell], v[cell], n));
            assert forall|t: int| 0 <= t < n && #[trigger] s[cell][t] implies and_bits(v[cell], mask)[t] by {
                let c = index_spec(self.grid.size, self.request.fixed_cells@[i].position)->0;
                assert(s[c][t]);
                assert(seq![self.request.fixed_cells@[i].tile][0] == self.rules.variants@[t].tile_id);
                assert(mask[t]);
            }
        }
        lemma_covers_update(*self.request, self.grid, self.rules, v, cell, and_bits(v[cell], mask));
    }

    /// Every candidate keeps, at a cell on the border of constraint `i`, only allowed tiles.
    proof fn lemma_border_keeps_candidates(&self, i: int, cell: int, mask: Seq<bool>)
        requires
            self.inv(),
            self.covers(),
            0 <= i < self.request.border_constraints@.len(),
            0 <= cell < self.grid.cells(),
            self.grid.on_border_spec(cell, self.request.border_constraints@[i].border),
            forall|u: int| 0 <= u < self.rules.count() ==> (#[trigger] mask[u] <==> self.request.border_constraints@[i].allowed_tiles@.contains(
                self.rules.variants@[u].tile_id,
            )),
        ensures
            covers_candidates(
                *self.request,
                self.grid,
                self.rules,
                self.views().update(cell, and_bits(self.views()[cell], mask)),
            ),
    {
        let n = self.rules.count();
        let v = self.views();
        self.lemma_views();
        assert forall|s: Seq<Seq<bool>>| #[trigger] candidate(*self.request, self.grid, self.rules, s) implies fits_cell(
            s[cell],
            and_bits(v[cell], mask),
            n,
        ) by {
            assert(border_ok(*self.request, self.grid, self.rules, s, i, cell));
            assert(fits_within(v, s, n));
            assert(fits_cell(s[cell], v[cell], n));
        }
        lemma_covers_update(*self.request, self.grid, self.rules, v, cell, and_bits(v[cell], mask));
    }

    /// Pin the fixed cells, apply the bans and the border constraints, then propagate.
    ///
    /// Narrowing rules out no candidate state (one whose arcs are all consistent and which meets
    /// the fixed cells, bans and borders): so a contradiction means that no candidate keeps a
    /// variant in every cell, and a broken tile-count bound means that no candidate with one
    /// variant per cell meets the bounds.
    pub fn apply_input_constraints(&mut self) -> (r: Result<(), SolveError>)
        requires
            old(self).inv(),
            old(self).fresh(),
        ensures
            final(self).inv(),
            final(self).request_spec() == old(self).request_spec(),
            final(self).grid_spec() == old(self).grid_spec(),
            final(self).rules_spec() == old(self).rules_spec(),
            final(self).stats_spec().backtrack_count == old(self).stats_spec().backtrack_count,
            final(self).constraints_applied_spec() || r is Err,
            !final(self).fresh(),
            r is Ok ==> inputs_valid(old(self).request_spec()),
            r is Ok ==> final(self).is_settled_spec(),
            r is Ok ==> local_ok(
                final(self).request_spec(),
                final(self).grid_spec(),
                final(self).rules_spec(),
                final(self).views(),
            ),
            r matches Err(SolveError::InvalidRequest(_)) ==> !inputs_valid(old(self).request_spec()),
            r matches Err(e) ==> e is InvalidRequest || e is Contradiction || e is UnsatisfiedGlobalConstraint,
            r matches Err(SolveError::Contradiction) ==> final(self).contradiction_noted(),
            r matches Err(SolveError::UnsatisfiedGlobalConstraint) ==> !globals_ok(
                final(self).request_spec(),
                final(self).rules_spec(),
                final(self).views(),
            ),
            r is Ok ==> final(self).covers(),
            r matches Err(SolveError::Contradiction) && final(self).rules_spec().count() <= u16::MAX ==> forall|
                s: Seq<Seq<bool>>,
            | #[trigger] candidate(final(self).request_spec(), final(self).grid_spec(), final(self).rules_spec(), s)
                ==> !all_nonempty(s),
            r matches Err(SolveError::UnsatisfiedGlobalConstraint) && final(self).grid_spec().cells() <= u32::MAX ==> forall|
                s: Seq<Seq<bool>>,
            | #[trigger] candidate(final(self).request_spec(), final(self).grid_spec(), final(self).rules_spec(), s)
                && single_valued(s) ==> !globals_ok(final(self).request_spec(), final(self).rules_spec(), s),
            r is Ok ==> forall|vs: Seq<int>| #[trigger]
                realizes(final(self).request_spec(), final(self).rules_spec(), vs) ==> forall|c: int|
                    0 <= c < vs.len() ==> #[trigger] final(self).views()[c][vs[c]],
            r is Ok ==> final(self).search_complete(),
            forall|vs: Seq<int>| #[trigger]
                realizes(final(self).request_spec(), final(self).rules_spec(), vs) ==> {
                    &&& !(r matches Err(SolveError::Contradiction) && final(self).rules_spec().count() <= u16::MAX)
                    &&& !(r matches Err(SolveError::UnsatisfiedGlobalConstraint) && final(self).grid_spec().cells()
                        <= u32::MAX)
                },
    {
        let r = self.apply_inputs_and_propagate();
        proof {
            self.lemma_views();
            if r matches Err(SolveError::Contradiction) {
                if self.rules.count() <= u16::MAX {
                    let c = choose|c: int| 0 <= c < self.views().len() && (#[trigger] count_true(self.views()[c]) as u16) == 0;
                    self.domains@[c].lemma_wf_len();
                    lemma_count_le_limit(self.views()[c], self.rules.count());
                    lemma_covers_empty_cell(*self.request, self.grid, self.rules, self.views(), c);
                }
            }
            if r matches Err(SolveError::UnsatisfiedGlobalConstraint) {
                if self.grid.cells() <= u32::MAX {
                    lemma_covers_globals(*self.request, self.grid, self.rules, self.views());
                }
            }
            assert(self.grid == request_grid(*self.request));
            let n = self.rules.count();
            assert forall|vs: Seq<int>| #[trigger] realizes(*self.request, self.rules, vs) implies {
                &&& (r is Ok ==> forall|c: int| 0 <= c < vs.len() ==> #[trigger] self.views()[c][vs[c]])
                &&& !(r matches Err(SolveError::Contradiction) && n <= u16::MAX)
                &&& !(r matches Err(SolveError::UnsatisfiedGlobalConstraint) && self.grid.cells() <= u32::MAX)
            } by {
                lemma_solution_is_candidate(*self.request, self.rules, vs);
                let st = singles(vs, n);
                assert(candidate(*self.request, self.grid, self.rules, st));
                if r is Ok {
                    assert(fits_within(self.views(), st, n));
                    assert forall|c: int| 0 <= c < vs.len() implies #[trigger] self.views()[c][vs[c]] by {
                        assert(fits_cell(st[c], self.views()[c], n));
                        assert(st[c][vs[c]]);
                    }
                }
                if r is Ok {
                    assert(fits_within(self.views(), st, n));
                    assert(self.in_reach(vs));
                }
                if r matches Err(SolveError::Contradiction) && n <= u16::MAX {
                    assert(!all_nonempty(st));
                    assert forall|c: int| 0 <= c < st.len() implies #[trigger] count_true(st[c]) > 0 by {
                        assert(count_true(st[c]) == 1);
                    }
                }
            }
        }
        r
    }

    /// Undo the trail down to `target_len` entries and empty the queue.
    fn rollback(&mut self, target_len: usize)
        requires
            old(self).inv(),
            target_len <= old(self).trail_len_spec(),
            old(self).constraints_applied ==> old(self).base_len@ <= target_len,
            forall|f: int| 0 <= f < old(self).decisions@.len() ==> #[trigger] old(self).decisions@[f].trail_len <= target_len,
        ensures
            final(self).inv(),
            final(self).same_frame(old(self)),
            final(self).trail_len_spec() == target_len,
            final(self).history_spec() == old(self).history_spec().subrange(0, target_len as int + 1),
            final(self).views() == old(self).history_spec()[target_len as int],
            final(self).queue_spec().len() == 0,
            !final(self).is_settled_spec(),
            final(self).stats_spec() == old(self).stats_spec(),
    {
        self.queue.clear();
        self.settled = false;
        proof {
            assert(self.history@ =~= old(self).history@.subrange(0, self.trail@.len() as int + 1));
        }
        while self.trail.len() > target_len
            invariant
                self.inv(),
                self.same_frame(old(self)),
                self.queue@.len() == 0,
                !self.settled,
                self.stats == old(self).stats,
                target_len <= self.trail@.len(),
                self.trail@.len() <= old(self).trail@.len(),
                old(self).history@.len() == old(self).trail@.len() + 1,
                self.history@ == old(self).history@.subrange(0, self.trail@.len() as int + 1),
                old(self).constraints_applied ==> old(self).base_len@ <= target_len,
                forall|f: int| 0 <= f < self.decisions@.len() ==> #[trigger] self.decisions@[f].trail_len <= target_len,
            decreases self.trail@.len(),
        {
            let ghost h = self.history@;
            let ghost k = self.trail@.len() - 1;
            proof {
                self.lemma_views();
            }
            let entry = self.trail.pop().unwrap();
            let ghost old_views = self.views();
            proof {
                assert(entry == old(self).trail@[k] || true);
            }
            let TrailEntry { cell, previous_domain, previous_count } = entry;
            self.domains.set(cell, previous_domain);
            self.possible_counts.set(cell, previous_count);
            proof {
                let prev = h[k][cell as int];
                assert(trail_step(h[k], h[k + 1], cell as int));
                assert(h[k + 1] == old_views);
                assert(self.views() =~= h[k]) by {
                    assert forall|x: int| 0 <= x < h[k].len() implies #[trigger] self.views()[x] == h[k][x] by {
                        if x != cell {
                            assert(h[k + 1][x] == h[k][x]);
                        }
                    }
                }
                assert(self.trail@.len() == k);
                assert(h.len() == k + 2);
                assert(h == old(self).history@.subrange(0, k + 2));
                self.history@ = h.drop_last();
                assert forall|x: int| 0 <= x < k + 1 implies #[trigger] self.history@[x] == old(self).history@.subrange(0, k + 1)[x] by {
                    assert(h[x] == old(self).history@[x]);
                }
                assert(self.history@ =~= old(self).history@.subrange(0, self.trail@.len() as int + 1));
                if self.constraints_applied {
                    assert forall|kk: int| self.base_len@ <= kk < self.history@.len() implies local_ok(
                        *self.request,
                        self.grid,
                        self.rules,
                        #[trigger] self.history@[kk],
                    ) by {
                        assert(self.history@[kk] == h[kk]);
                    }
                }
                assert forall|j: int| #![trigger self.trail@[j]] 0 <= j < self.trail@.len() implies {
                    &&& self.history@[j][self.trail@[j].cell as int] == self.trail@[j].previous_domain@
                    &&& trail_step(self.history@[j], self.history@[j + 1], self.trail@[j].cell as int)
                } by {
                    assert(self.history@[j] == h[j]);
                    assert(self.history@[j + 1] == h[j + 1]);
                }
                assert forall|f: int| #![trigger self.decisions@[f]] 0 <= f < self.decisions@.len() implies snapshot_settled(
                    *self.request,
                    self.grid,
                    self.rules,
                    self.history@[self.decisions@[f].trail_len as int],
                ) by {
                    assert(self.history@[self.decisions@[f].trail_len as int] == h[self.decisions@[f].trail_len as int]);
                }
            }
        }
        proof {
            assert(self.history@.last() == self.views());
        }
    }


    /// Collapse `cell` to variant `tile` and propagate; report whether that settled.
    ///
    /// A solution that fits within the cells and has `tile` at `cell` makes the attempt
    /// succeed and still fits within the cells after it.
    fn try_variant(&mut self, cell: usize, tile: usize) -> (ok: bool)
        requires
            old(self).inv(),
            old(self).constraints_applied_spec(),
            old(self).queue_covers(),
            all_nonempty(old(self).views()),
            cell < old(self).grid.cells(),
            tile < old(self).rules.count(),
        ensures
            final(self).inv(),
            final(self).same_frame(old(self)),
            extends(old(self).history_spec(), final(self).history_spec()),
            final(self).stats_spec().observation_count == old(self).stats_spec().observation_count,
            final(self).stats_spec().backtrack_count == old(self).stats_spec().backtrack_count,
            ok ==> final(self).is_settled_spec(),
            old(self).counts_exact() ==> forall|vs: Seq<int>| #[trigger]
                realizes(*old(self).request, old(self).rules, vs) && vs[cell as int] == tile && fits_within(
                    old(self).views(),
                    singles(vs, old(self).rules.count()),
                    old(self).rules.count(),
                ) ==> ok && fits_within(
                    final(self).views(),
                    singles(vs, old(self).rules.count()),
                    old(self).rules.count(),
                ),
            !ok && old(self).counts_exact() ==> forall|vs: Seq<int>| #[trigger]
                realizes(*old(self).request, old(self).rules, vs) ==> !fits_within(
                    final(self).views(),
                    singles(vs, old(self).rules.count()),
                    old(self).rules.count(),
                ),
            ok ==> forall|u: int|
                0 <= u < final(self).views()[cell as int].len() ==> (#[trigger] final(self).views()[cell as int][u] <==> u
                    == tile),
    {
        let ghost v0 = self.views();
        let ghost n = self.rules.count();
        let assigned = self.assign_single(cell, tile);
        let ghost v1 = self.views();
        proof {
            self.lemma_views();
            assert forall|vs: Seq<int>| #[trigger]
                realizes(*self.request, self.rules, vs) && vs[cell as int] == tile && fits_within(v0, singles(vs, n), n)
                implies fits_within(v1, singles(vs, n), n) by {
                let st = singles(vs, n);
                assert forall|c: int| 0 <= c < st.len() implies fits_cell(#[trigger] st[c], v1[c], n) by {
                    assert(fits_cell(st[c], v0[c], n));
                    if c == cell as int {
                        assert forall|t: int| 0 <= t < n && #[trigger] st[c][t] implies v1[c][t] by {
                            assert(t == tile);
                            assert(v0[c][t]);
                        }
                    }
                }
            }
            if assigned is Err && self.counts_exact() {
                assert(some_count_zero(v1));
                assert forall|vs: Seq<int>| #[trigger] realizes(*self.request, self.rules, vs) implies !fits_within(
                    v1,
                    singles(vs, n),
                    n,
                ) by {
                    self.lemma_failure_excludes(vs);
                }
            }
        }
        match assigned {
            Err(_) => false,
            Ok(()) => {
                let propagated = self.propagate();
                proof {
                    self.lemma_views();
                    lemma_solution_keeps(*self.request, self.grid, self.rules, v1, self.views());
                    if propagated is Err && self.counts_exact() {
                        assert forall|vs: Seq<int>| #[trigger] realizes(*self.request, self.rules, vs) implies !fits_within(
                            self.views(),
                            singles(vs, n),
                            n,
                        ) by {
                            self.lemma_failure_excludes(vs);
                        }
                    }
                    if propagated is Ok {
                        self.lemma_settled_nonempty();
                        let v2 = self.views();
                        assert(count_true(v2[cell as int]) > 0);
                        assert(subset_bits(v2[cell as int], v1[cell as int]));
                        if !v2[cell as int][tile as int] {
                            assert forall|u: int| 0 <= u < v2[cell as int].len() implies !v2[cell as int][u] by {
                                if v2[cell as int][u] {
                                    assert(v1[cell as int][u]);
                                }
                            }
                            lemma_count_true_bounds(v2[cell as int]);
                        }
                        assert forall|u: int| 0 <= u < v2[cell as int].len() implies (#[trigger] v2[cell as int][u] <==> u
                            == tile) by {
                            if v2[cell as int][u] {
                                assert(v1[cell as int][u]);
                            }
                        }
                    }
                }
                propagated.is_ok()
            },
        }
    }

    /// Revisit the latest observations, trying their remaining choices, until one propagates.
    ///
    /// When every solution may still be found but none fits within the current cells, the
    /// search stays complete on success, and a contradiction means that there is no solution.
    fn backtrack(&mut self) -> (r: Result<(), SolveError>)
        requires
            old(self).inv(),
            old(self).constraints_applied_spec(),
        ensures
            final(self).inv(),
            final(self).request_spec() == old(self).request_spec(),
            final(self).grid_spec() == old(self).grid_spec(),
            final(self).rules_spec() == old(self).rules_spec(),
            final(self).constraints_applied_spec(),
            r is Ok ==> final(self).is_settled_spec(),
            r matches Err(e) ==> e is Contradiction || e is BacktrackLimitReached,
            old(self).search_complete() && old(self).counts_exact() && (forall|vs: Seq<int>| #[trigger]
                realizes(*old(self).request, old(self).rules, vs) ==> !fits_within(
                    old(self).views(),
                    singles(vs, old(self).rules.count()),
                    old(self).rules.count(),
                )) ==> (r is Ok ==> final(self).search_complete()) && (r matches Err(SolveError::Contradiction)
                ==> final(self).unsolvable()),
            final(self).stats_spec().backtrack_count >= old(self).stats_spec().backtrack_count,
            r is Ok ==> final(self).stats_spec().backtrack_count > old(self).stats_spec().backtrack_count
                || final(self).stats_spec().backtrack_count == u32::MAX,
            r is Ok ==> final(self).stats_spec().backtrack_count <= final(self).request_spec().settings.max_backtracks,
            r matches Err(SolveError::BacktrackLimitReached) ==> final(self).stats_spec().backtrack_count
                > final(self).request_spec().settings.max_backtracks,
            r matches Err(SolveError::BacktrackLimitReached) ==> final(self).stats_spec().backtrack_count == old(
                self,
            ).budget_overrun(old(self).stats_spec().backtrack_count),
    {
        let ghost n = self.rules.count();
        let ghost active = self.search_complete() && self.counts_exact() && (forall|vs: Seq<int>| #[trigger]
            realizes(*self.request, self.rules, vs) ==> !fits_within(self.views(), singles(vs, n), n));
        proof {
            if active {
                assert forall|vs: Seq<int>| #[trigger] realizes(*self.request, self.rules, vs) implies self.in_frames(vs) by {
                    assert(self.in_reach(vs));
                }
            }
        }
        loop
            invariant
                self.inv(),
                self.constraints_applied,
                self.request == old(self).request,
                self.grid == old(self).grid,
                self.rules == old(self).rules,
                n == self.rules.count(),
                active == (old(self).search_complete() && old(self).counts_exact() && (forall|vs: Seq<int>| #[trigger]
                    realizes(*old(self).request, old(self).rules, vs) ==> !fits_within(old(self).views(), singles(vs, n), n))),
                active ==> self.counts_exact(),
                active ==> forall|vs: Seq<int>| #[trigger] realizes(*self.request, self.rules, vs) ==> self.in_frames(vs),
                self.stats.backtrack_count >= old(self).stats.backtrack_count,
                self.stats.backtrack_count <= self.request.settings.max_backtracks || self.stats.backtrack_count
                    == old(self).stats.backtrack_count,
            decreases self.decisions@.len(),
        {
            let ghost before = self.decisions@;
            let ghost hist0 = self.history@;
            let frame = match self.decisions.pop() {
                Some(f) => f,
                None => {
                    proof {
                        if active {
                            assert forall|vs: Seq<int>| !#[trigger] realizes(*self.request, self.rules, vs) by {
                                if realizes(*self.request, self.rules, vs) {
                                    assert(self.in_frames(vs));
                                }
                            }
                        }
                    }
                    return Err(SolveError::Contradiction);
                },
            };
            let ghost lower = self.decisions@;
            let DecisionFrame { trail_len, cell, mut alternatives } = frame;
            let ghost snap = self.history@[trail_len as int];
            let ghost dlen = self.decisions@.len();
            proof {
                let last = before.len() - 1;
                assert(before[last].trail_len == trail_len);
                assert(before[last] == frame);
                assert forall|f: int| 0 <= f < self.decisions@.len() implies #[trigger] self.decisions@[f].trail_len <= trail_len by {
                    assert(before[f] == self.decisions@[f]);
                    assert(before[f].trail_len <= before[last].trail_len);
                }
                assert(snapshot_settled(*self.request, self.grid, self.rules, snap));
                if active {
                    assert forall|vs: Seq<int>| #[trigger] realizes(*self.request, self.rules, vs) implies frames_keep(
                        hist0,
                        lower,
                        vs,
                        n,
                    ) || (fits_within(snap, singles(vs, n), n) && alternatives@.contains(vs[cell as int] as usize)) by {
                        assert(self.in_frames(vs) || !self.in_frames(vs));
                        let f = choose|f: int|
                            0 <= f < before.len() && #[trigger] frame_keeps(hist0[before[f].trail_len as int], before[f], vs, n);
                        if f < dlen {
                            assert(lower[f] == before[f]);
                        }
                    }
                }
            }
            self.rollback(trail_len);
            while alternatives.len() > 0
                invariant
                    self.inv(),
                    self.constraints_applied,
                    self.request == old(self).request,
                    self.grid == old(self).grid,
                    self.rules == old(self).rules,
                    n == self.rules.count(),
                    self.decisions@ == lower,
                    self.decisions@.len() == dlen,
                    forall|f: int| 0 <= f < dlen ==> #[trigger] self.decisions@[f].trail_len <= trail_len,
                    self.base_len@ <= trail_len <= self.trail@.len(),
                    self.history@[trail_len as int] == snap,
                    trail_len < hist0.len(),
                    forall|k: int| 0 <= k <= trail_len ==> #[trigger] self.history@[k] == hist0[k],
                    snapshot_settled(*self.request, self.grid, self.rules, snap),
                    cell < self.grid.cells(),
                    forall|j: int| 0 <= j < alternatives@.len() ==> #[trigger] alternatives@[j] < self.rules.count(),
                    active == (old(self).search_complete() && old(self).counts_exact() && (forall|vs: Seq<int>| #[trigger]
                        realizes(*old(self).request, old(self).rules, vs) ==> !fits_within(old(self).views(), singles(vs, n), n))),
                    active ==> self.counts_exact(),
                    active ==> forall|vs: Seq<int>| #[trigger] realizes(*self.request, self.rules, vs) ==> frames_keep(
                        hist0,
                        lower,
                        vs,
                        n,
                    ) || (fits_within(snap, singles(vs, n), n) && alternatives@.contains(vs[cell as int] as usize)),
                    self.stats.backtrack_count >= old(self).stats.backtrack_count,
                    self.stats.backtrack_count <= self.request.settings.max_backtracks || self.stats.backtrack_count
                        == old(self).stats.backtrack_count,
                decreases alternatives@.len(),
            {
                let ghost with_next = alternatives@;
                let next_tile = alternatives.pop().unwrap();
                let ghost prev_count = self.stats.backtrack_count;
                self.stats.backtrack_count = self.stats.backtrack_count.saturating_add(1);
                assert(self.stats.backtrack_count > prev_count || self.stats.backtrack_count == u32::MAX);
                if self.stats.backtrack_count > self.request.settings.max_backtracks {
                    return Err(SolveError::BacktrackLimitReached);
                }
                self.rollback(trail_len);
                self.last_observed = Some(cell);
                self.stats.observation_count = self.stats.observation_count.saturating_add(1);
                let retained = copy_vec(&alternatives);
                self.decisions.push(DecisionFrame { trail_len, cell, alternatives: retained });
                let ghost pushed = self.decisions@;
                proof {
                    self.lemma_views();
                    assert(self.views() == snap);
                    assert(with_next == alternatives@.push(next_tile));
                    assert forall|f: int, g: int| 0 <= f < g < self.decisions@.len() implies #[trigger] self.decisions@[f].trail_len
                        <= #[trigger] self.decisions@[g].trail_len by {
                    }
                    assert forall|c: int|
                        0 <= c < self.grid.cells() && !self.queue@.contains(c as usize) implies #[trigger] cell_settled(
                        self.grid,
                        self.rules,
                        self.views(),
                        c,
                    ) by {
                    }
                }
                let ok = self.try_variant(cell, next_tile);
                proof {
                    if active {
                        assert forall|vs: Seq<int>| #[trigger] realizes(*self.request, self.rules, vs) implies (ok ==> self.in_reach(
                            vs,
                        )) && (!ok ==> frames_keep(hist0, lower, vs, n) || (fits_within(snap, singles(vs, n), n)
                            && alternatives@.contains(vs[cell as int] as usize))) by {
                            assert(0 <= vs[cell as int] < n);
                            if frames_keep(hist0, lower, vs, n) {
                                if ok {
                                    lemma_frames_keep_moves(hist0, self.history@, lower, self.decisions@, vs, n);
                                }
                            } else if vs[cell as int] == next_tile as int {
                            } else {
                                assert(alternatives@.contains(vs[cell as int] as usize));
                                if ok {
                                    let top = (pushed.len() - 1) as int;
                                    assert(self.decisions@[top].alternatives@ == alternatives@);
                                    assert(frame_keeps(self.history@[self.decisions@[top].trail_len as int], self.decisions@[top], vs, n));
                                    assert(self.in_frames(vs));
                                }
                            }
                        }
                    }
                }
                if ok {
                    return Ok(());
                }
                self.decisions.pop();
                proof {
                    assert forall|f: int| 0 <= f < dlen implies #[trigger] self.decisions@[f].trail_len <= trail_len by {
                        assert(self.decisions@[f] == pushed[f]);
                    }
                    assert forall|f: int, g: int| 0 <= f < g < self.decisions@.len() implies #[trigger] self.decisions@[f].trail_len
                        <= #[trigger] self.decisions@[g].trail_len by {
                        assert(self.decisions@[f] == pushed[f]);
                        assert(self.decisions@[g] == pushed[g]);
                    }
                    assert(self.decisions@ =~= lower);
                }
            }
        }
    }

    /// Observe `cell`: collapse it to the last of `ordered_choices`, keep the others for
    /// backtracking, and propagate; on failure, backtrack.
    pub fn observe(&mut self, cell: usize, ordered_choices: Vec<usize>) -> (r: Result<(), SolveError>)
        requires
            old(self).inv(),
            old(self).is_settled_spec(),
            cell < old(self).grid_spec().cells(),
            forall|j: int| 0 <= j < ordered_choices@.len() ==> #[trigger] ordered_choices@[j] < old(self).rules_spec().count(),
        ensures
            final(self).inv(),
            final(self).request_spec() == old(self).request_spec(),
            final(self).grid_spec() == old(self).grid_spec(),
            final(self).rules_spec() == old(self).rules_spec(),
            final(self).constraints_applied_spec(),
            r is Ok ==> final(self).is_settled_spec(),
            r is Ok ==> local_ok(
                final(self).request_spec(),
                final(self).grid_spec(),
                final(self).rules_spec(),
                final(self).views(),
            ),
            r is Ok ==> snapshot_settled(
                final(self).request_spec(),
                final(self).grid_spec(),
                final(self).rules_spec(),
                final(self).views(),
            ),
            r matches Err(e) ==> e is Contradiction || e is BacktrackLimitReached,
            ordered_choices@.len() == 0 ==> r is Err,
            !final(self).fresh(),
            old(self).search_complete() && old(self).counts_exact() && old(self).choices_cover(cell, ordered_choices@)
                ==> (r is Ok ==> final(self).search_complete()) && (r matches Err(SolveError::Contradiction)
                ==> final(self).unsolvable()),
            r matches Err(SolveError::BacktrackLimitReached) ==> final(self).stats_spec().backtrack_count
                > final(self).request_spec().settings.max_backtracks,
            r matches Err(SolveError::BacktrackLimitReached) ==> final(self).stats_spec().backtrack_count == old(
                self,
            ).budget_overrun(old(self).stats_spec().backtrack_count),
            ordered_choices@.len() == 0 ==> r matches Err(SolveError::Contradiction),
            old(self).counts_exact() && ordered_choices@.len() > 0 && old(self).choice_extends(
                cell as int,
                ordered_choices@.last() as int,
            ) ==> r is Ok && final(self).stats_spec().backtrack_count == old(self).stats_spec().backtrack_count
                && final(self).last_observed_spec() == Some(cell) && final(self).stats_spec().observation_count == (
            if old(self).stats_spec().observation_count < u32::MAX {
                (old(self).stats_spec().observation_count + 1) as u32
            } else {
                u32::MAX
            }) && forall|u: int|
                0 <= u < final(self).views()[cell as int].len() ==> (#[trigger] final(self).views()[cell as int][u] <==> u
                    == ordered_choices@.last()),
            r is Ok && old(self).stats_spec().backtrack_count <= old(self).request_spec().settings.max_backtracks
                ==> final(self).stats_spec().backtrack_count <= final(self).request_spec().settings.max_backtracks,
            r is Ok && final(self).stats_spec().backtrack_count == old(self).stats_spec().backtrack_count
                && old(self).stats_spec().backtrack_count < u32::MAX ==> ordered_choices@.len() > 0 && forall|u: int|
                0 <= u < final(self).views()[cell as int].len() ==> (#[trigger] final(self).views()[cell as int][u] <==> u
                    == ordered_choices@.last()),
    {
        let ghost n = self.rules.count();
        let ghost active = self.search_complete() && self.counts_exact() && self.choices_cover(cell, ordered_choices@);
        let ghost v0 = self.views();
        let ghost h0 = self.history@;
        let ghost d0 = self.decisions@;
        let ghost all = ordered_choices@;
        proof {
            self.lemma_views();
            self.lemma_settled_nonempty();
        }
        let mut ordered_choices = ordered_choices;
        let chosen = match ordered_choices.pop() {
            Some(t) => t,
            None => {
                proof {
                    if active {
                        assert(count_true(v0[cell as int]) > 0);
                        self.domains@[cell as int].lemma_wf_len();
                        if forall|t: int| 0 <= t < v0[cell as int].len() ==> !v0[cell as int][t] {
                            lemma_count_true_bounds(v0[cell as int]);
                        }
                        let t = choose|t: int| 0 <= t < v0[cell as int].len() && v0[cell as int][t];
                        assert(t < n);
                        assert(all.contains(t as usize));
                    }
                }
                self.record_contradiction(cell, "selected cell has no remaining tiles");
                return Err(SolveError::Contradiction);
            },
        };
        self.stats.observation_count = self.stats.observation_count.saturating_add(1);
        self.last_observed = Some(cell);
        let trail_len = self.trail.len();
        self.decisions.push(DecisionFrame { trail_len, cell, alternatives: ordered_choices });
        proof {
            self.lemma_views();
            assert(self.history@[trail_len as int] == self.views());
            assert forall|f: int, g: int| 0 <= f < g < self.decisions@.len() implies #[trigger] self.decisions@[f].trail_len
                <= #[trigger] self.decisions@[g].trail_len by {
                assert(self.decisions@[f] == old(self).decisions@[f]);
                if g < old(self).decisions@.len() {
                    assert(self.decisions@[g] == old(self).decisions@[g]);
                }
            }
            assert forall|f: int| #![trigger self.decisions@[f]] 0 <= f < self.decisions@.len() implies {
                &&& self.base_len@ <= self.decisions@[f].trail_len <= self.trail@.len()
                &&& snapshot_settled(*self.request, self.grid, self.rules, self.history@[self.decisions@[f].trail_len as int])
            } by {
                if f < old(self).decisions@.len() {
                    assert(self.decisions@[f] == old(self).decisions@[f]);
                }
            }
            assert forall|c: int|
                0 <= c < self.grid.cells() && !self.queue@.contains(c as usize) implies #[trigger] cell_settled(
                self.grid,
                self.rules,
                self.views(),
                c,
            ) by {
            }
        }
        self.settled = false;
        let ghost pushed = self.decisions@;
        let ok = self.try_variant(cell, chosen);
        proof {
            if active {
                assert(all == ordered_choices@.push(chosen));
                assert forall|vs: Seq<int>| #[trigger] realizes(*self.request, self.rules, vs) implies (ok ==> self.in_reach(vs))
                    && (!ok ==> self.in_frames(vs)) by {
                    assert(0 <= vs[cell as int] < n);
                    let top = d0.len() as int;
                    assert(pushed[top].alternatives@ == ordered_choices@);
                    assert(self.decisions@ == pushed);
                    assert(self.history@[trail_len as int] == v0);
                    if frames_keep(h0, d0, vs, n) {
                        lemma_frames_keep_moves(h0, self.history@, d0, self.decisions@, vs, n);
                    } else {
                        assert(fits_within(v0, singles(vs, n), n));
                        assert(fits_cell(singles(vs, n)[cell as int], v0[cell as int], n));
                        assert(singles(vs, n)[cell as int][vs[cell as int]]);
                        assert(all.contains(vs[cell as int] as usize));
                        if vs[cell as int] != chosen as int {
                            assert(ordered_choices@.contains(vs[cell as int] as usize));
                            assert(frame_keeps(self.history@[self.decisions@[top].trail_len as int], self.decisions@[top], vs, n));
                        }
                    }
                }
            }
        }
        if !ok {
            self.backtrack()?;
        }
        proof {
            self.lemma_settled_consistent();
        }
        Ok(())
    }

    /// Compile the grid, the ruleset and the tile-count bounds of `request`, with every cell
    /// holding every variant.
    pub fn new(request: &'a WfcRequest) -> (r: Result<Self, WfcFailure>)
        requires
            request.grid_size.cells() <= usize::MAX,
            request.grid_size.width <= i32::MAX,
            request.grid_size.height <= i32::MAX,
            request.grid_size.depth <= i32::MAX,
        ensures
            r is Ok <==> (grid_accepts(request.ruleset.topology, request.grid_size) && ruleset_accepts(request.ruleset)
                && globals_valid(*request)),
            r matches Err(f) ==> is_invalid_failure(*request, f),
            r is Ok <==> request_error(*request) is None,
            r matches Err(f) ==> request_error(*request) == Some(f.message@),
            r matches Ok(s) ==> {
                &&& s.inv()
                &&& s.fresh()
                &&& s.request_spec() == *request
                &&& s.grid_spec() == request_grid(*request)
                &&& s.stats_spec() == (WfcSolveStats {
                    observation_count: 0,
                    propagation_count: 0,
                    backtrack_count: 0,
                    contradiction_count: 0,
                })
            },
    {
        let grid = match CompiledGrid::new(request.ruleset.topology, request.grid_size, request.boundary_stitching) {
            Ok(g) => g,
            Err(message) => {
                return Err(invalid_failure(request, message));
            },
        };
        let rules = match CompiledRuleset::compile(&request.ruleset) {
            Ok(c) => c,
            Err(message) => {
                return Err(invalid_failure(request, message));
            },
        };
        if rules.topology() != grid.topology() {
            return Err(invalid_failure(request, "request grid and ruleset topology do not match".to_owned()));
        }
        let global_constraints = match compile_global_constraints(request, &rules) {
            Ok(v) => v,
            Err(f) => {
                return Err(f);
            },
        };
        let full_domain = rules.full_domain();
        let total = grid.total_cells();
        let n = rules.tile_count();
        proof {
            full_domain.lemma_wf_len();
            let v = rules.variants@;
            assert(rules.families@[0].start + rules.families@[0].rotations <= v.len());
            lemma_count_prefix(full_domain@, n as int);
        }
        let mut domains: Vec<DomainBits> = Vec::new();
        let mut possible_counts: Vec<u16> = Vec::new();
        let mut c: usize = 0;
        while c < total
            invariant
                c <= total,
                domains@.len() == c,
                possible_counts@.len() == c,
                full_domain.wf(),
                full_domain.len_spec() == n,
                full_domain.clean(),
                count_true(full_domain@) == n,
                forall|x: int| #![trigger domains@[x]] 0 <= x < c ==> {
                    &&& domains@[x].wf()
                    &&& domains@[x].len_spec() == n
                    &&& domains@[x]@ == full_domain@
                },
                forall|x: int| 0 <= x < c ==> #[trigger] possible_counts@[x] == n as u16,
            decreases total - c,
        {
            domains.push(full_domain.duplicate());
            possible_counts.push(n as u16);
            c = c + 1;
        }
        let ghost views = dom_views(domains@);
        let history: Ghost<Seq<Seq<Seq<bool>>>> = Ghost(Seq::empty().push(views));
        let base_len: Ghost<int> = Ghost(0);
        let solver = Solver {
            request,
            grid,
            rules,
            domains,
            possible_counts,
            queue: Vec::new(),
            trail: Vec::new(),
            decisions: Vec::new(),
            global_constraints,
            stats: WfcSolveStats::default(),
            last_observed: None,
            last_contradiction: None,
            started: false,
            constraints_applied: false,
            settled: false,
            history,
            base_len,
        };
        proof {
            assert(solver.views() == views);
            assert forall|x: int| 0 <= x < solver.grid.cells() implies #[trigger] pristine(solver.rules, solver.views()[x]) by {
                assert(solver.views()[x] == full_domain@);
            }
        }
        Ok(solver)
    }



    /// Every cell has a variant left.
    pub closed spec fn cells_nonempty(&self) -> bool {
        all_nonempty(self.views())
    }

    /// A solver at rest between observations has applied the constraints and has a variant in
    /// every cell.
    /// A settled state meets every fixed cell, ban and border constraint, leaves every cell a
    /// variant, keeps every arc consistent and keeps every tile count within reach.
    pub proof fn lemma_settled_consistent(&self)
        requires
            self.inv(),
            self.is_settled_spec(),
        ensures
            local_ok(self.request_spec(), self.grid_spec(), self.rules_spec(), self.views()),
            snapshot_settled(self.request_spec(), self.grid_spec(), self.rules_spec(), self.views()),
    {
        let h = self.history@;
        assert(h[h.len() - 1] == self.views());
        assert(local_ok(*self.request, self.grid, self.rules, h[h.len() - 1]));
    }

    pub proof fn lemma_settled_nonempty(&self)
        requires
            self.inv(),
            self.is_settled_spec(),
        ensures
            self.cells_nonempty(),
            !self.fresh(),
    {
    }

    /// Every cell holds exactly one variant.
    pub closed spec fn all_single(&self) -> bool {
        forall|c: int| 0 <= c < self.grid.cells() ==> #[trigger] count_true(self.views()[c]) == 1
    }

    /// A cell with one variant left: that variant is its first member, a variant index.
    proof fn lemma_single_member(&self, c: int) -> (k: int)
        requires
            self.inv(),
            0 <= c < self.grid.cells(),
            count_true(self.views()[c]) == 1,
        ensures
            k == first_member(self.views()[c]),
            0 <= k < self.rules.count(),
            self.views()[c][k],
            forall|i: int| 0 <= i < self.views()[c].len() && i != k ==> !#[trigger] self.views()[c][i],
    {
        self.lemma_views();
        let s = self.views()[c];
        let k = lemma_count_true_one(s);
        assert(is_first_member(s, k));
        lemma_first_member(s, k);
        assert(self.domains@[c].clean());
        k
    }

    /// When every cell holds one variant, the tiles and rotations of those variants obey the
    /// request: adjacency rules, fixed cells, bans, borders and tile counts.
    #[verifier::rlimit(50)]
    proof fn lemma_solution_respects(&self, tiles: Seq<WfcTileId>, rotations: Seq<u8>)
        requires
            self.inv(),
            self.settled,
            self.all_single(),
            tiles.len() == self.grid.cells(),
            rotations.len() == self.grid.cells(),
            forall|c: int|
                0 <= c < self.grid.cells() ==> #[trigger] tiles[c] == self.rules.variants@[first_member(self.views()[c])].tile_id,
            forall|c: int|
                0 <= c < self.grid.cells() ==> #[trigger] rotations[c] == self.rules.variants@[first_member(
                    self.views()[c],
                )].rotation_steps,
        ensures
            solution_respects(*self.request, tiles, rotations),
    {
        let request = *self.request;
        let rs = request.ruleset;
        let grid = self.grid;
        let rules = self.rules;
        let views = self.views();
        let n = rules.count();
        self.lemma_views();
        self.lemma_local();
        assert(grid == request_grid(request));
        assert forall|c: int, d: WfcDirection|
            0 <= c < grid.cells() && active_dirs(rs.topology).contains(d) && grid.neighbor_spec(c, d) is Some implies #[trigger] placement_allowed(
            rs,
            tiles[c],
            rotations[c],
            d,
            tiles[grid.neighbor_spec(c, d)->0],
            rotations[grid.neighbor_spec(c, d)->0],
        ) by {
            let nb = grid.neighbor_spec(c, d)->0;
            crate::grid::lemma_neighbor_in_range(grid, c, d);
            let vc = self.lemma_single_member(c);
            let vn = self.lemma_single_member(nb);
            assert(cell_settled(grid, rules, views, c));
            if pristine(rules, views[c]) {
                if n >= 2 {
                    assert(views[c][0] && views[c][1]);
                    assert(false);
                }
                rules.lemma_single_variant_allows(rs, d);
                assert(rules.allows(d, vc, vn));
            } else {
                let i = choose|i: int| 0 <= i < active_dirs(grid.topology).len() && active_dirs(grid.topology)[i] == d;
                assert(arc_ok(grid, rules, views, c, active_dirs(grid.topology)[i]));
                assert(views[nb][vn]);
                assert(supported(rules, d, views[c], vn));
                let t = choose|t: int| 0 <= t < rules.count() && views[c][t] && #[trigger] rules.allows(d, t, vn);
                assert(t == vc);
            }
            assert(rules.rule_permits(rs, d, vc, vn));
            let eu = rules.variants@[vn];
            let k = eu.family as int;
            assert(family_mirrors(rs.tiles@, rs.topology, rules.families@[k], k));
            assert(rs.tiles@[k].id == tiles[nb]);
        }
        assert forall|i: int| 0 <= i < request.fixed_cells@.len() implies {
            let p = #[trigger] request.fixed_cells@[i];
            &&& index_spec(request.grid_size, p.position) is Some
            &&& tiles[index_spec(request.grid_size, p.position)->0] == p.tile
        } by {
            assert(fixed_ok(request, grid, rules, views, i));
            let c = index_spec(request.grid_size, request.fixed_cells@[i].position)->0;
            crate::grid::lemma_index_bounds(request.grid_size, request.fixed_cells@[i].position);
            let vc = self.lemma_single_member(c);
            assert(views[c][vc]);
        }
        assert forall|i: int| 0 <= i < request.banned_cells@.len() implies {
            let b = #[trigger] request.banned_cells@[i];
            &&& index_spec(request.grid_size, b.position) is Some
            &&& !b.banned_tiles@.contains(tiles[index_spec(request.grid_size, b.position)->0])
        } by {
            assert(ban_ok(request, grid, rules, views, i));
            let c = index_spec(request.grid_size, request.banned_cells@[i].position)->0;
            crate::grid::lemma_index_bounds(request.grid_size, request.banned_cells@[i].position);
            let vc = self.lemma_single_member(c);
            assert(views[c][vc]);
        }
        assert forall|i: int, c: int|
            0 <= i < request.border_constraints@.len() && 0 <= c < grid.cells() && grid.on_border_spec(
                c,
                #[trigger] request.border_constraints@[i].border,
            ) implies request.border_constraints@[i].allowed_tiles@.contains(#[trigger] tiles[c]) by {
            assert(border_ok(request, grid, rules, views, i, c));
            let vc = self.lemma_single_member(c);
            assert(views[c][vc]);
        }
        assert forall|i: int| 0 <= i < request.global_constraints@.len() implies match #[trigger] request.global_constraints@[i] {
            WfcGlobalConstraint::TileCount(t) => {
                &&& (t.max_count matches Some(m) ==> (count_tile(tiles, t.tile) as u32) <= m)
                &&& (t.min_count matches Some(m) ==> (count_tile(tiles, t.tile) as u32) >= m)
            },
        } by {
            let t = match request.global_constraints@[i] {
                WfcGlobalConstraint::TileCount(t) => t,
            };
            assert(global_ok(rules, views, request.global_constraints@[i]));
            assert forall|c: int| 0 <= c < grid.cells() implies (holds_tile(rules, views[c], t.tile) <==> #[trigger] tiles[c] == t.tile) by {
                let vc = self.lemma_single_member(c);
                if holds_tile(rules, views[c], t.tile) {
                    let u = choose|u: int| 0 <= u < rules.count() && #[trigger] views[c][u] && rules.variants@[u].tile_id == t.tile;
                    assert(u == vc);
                }
                if tiles[c] == t.tile {
                    assert(views[c][vc]);
                }
            }
            lemma_cells_holding_count(rules, views, tiles, t.tile, grid.cells() as int);
            assert(tiles.take(grid.cells() as int) =~= tiles);
        }
    }

    /// The tiles and rotations of the first variant left in each cell, as a solution.
    /// `sol` reports the current state: each cell's first remaining variant as its tile and
    /// rotation, the seed, the counters, the signature of the grid and, when the request asks
    /// for it, a debug snapshot.
    pub open spec fn solution_matches(&self, sol: WfcSolution) -> bool {
        &&& sol.seed == self.request_spec().seed
        &&& sol.stats == self.stats_spec()
        &&& sol.grid.topology == self.request_spec().ruleset.topology
        &&& sol.grid.size == self.request_spec().grid_size
        &&& sol.grid.wf()
        &&& forall|c: int|
            0 <= c < self.grid_spec().cells() ==> #[trigger] sol.grid.tiles@[c] == self.rules_spec().variants@[first_member(
                self.views()[c],
            )].tile_id
        &&& forall|c: int|
            0 <= c < self.grid_spec().cells() ==> #[trigger] sol.grid.rotations@[c] == self.rules_spec().variants@[first_member(
                self.views()[c],
            )].rotation_steps
        &&& sol.signature == fnv_seq(FNV_OFFSET, signature_values(sol.grid))
        &&& (sol.debug is Some <==> self.request_spec().settings.capture_debug_snapshot)
        &&& (sol.debug matches Some(d) ==> self.debug_matches(d))
    }

    pub fn finish_solution(&self) -> (sol: WfcSolution)
        requires
            self.inv(),
            self.cells_nonempty(),
        ensures
            self.solution_matches(sol),
            self.is_settled_spec() && self.all_single() ==> solution_respects(
                self.request_spec(),
                sol.grid.tiles@,
                sol.grid.rotations@,
            ),
    {
        proof {
            self.lemma_views();
        }
        let total = self.domains.len();
        let mut tiles: Vec<WfcTileId> = Vec::new();
        let mut rotations: Vec<u8> = Vec::new();
        let mut c: usize = 0;
        while c < total
            invariant
                self.inv(),
                self.cells_nonempty(),
                total == self.grid.cells(),
                c <= total,
                tiles@.len() == c,
                rotations@.len() == c,
                forall|x: int| 0 <= x < c ==> #[trigger] tiles@[x] == self.rules.variants@[first_member(self.views()[x])].tile_id,
                forall|x: int| 0 <= x < c ==> #[trigger] rotations@[x] == self.rules.variants@[first_member(self.views()[x])].rotation_steps,
            decreases total - c,
        {
            proof {
                self.lemma_views();
                assert(count_true(self.views()[c as int]) > 0);
                lemma_count_true_bounds(self.views()[c as int]);
            }
            let first = self.domains[c].first_one();
            let k = match first {
                Some(k) => k,
                None => {
                    proof {
                        assert(false);
                    }
                    0
                },
            };
            proof {
                assert(is_first_member(self.views()[c as int], k as int));
                lemma_first_member(self.views()[c as int], k as int);
                assert(self.domains@[c as int].clean());
            }
            tiles.push(self.rules.tile_id(k));
            rotations.push(self.rules.tile_rotation(k));
            c = c + 1;
        }
        let grid = WfcTileGrid { topology: self.grid.topology(), size: self.grid.size(), tiles, rotations };
        let signature = grid.signature();
        proof {
            if self.settled && self.all_single() {
                self.lemma_solution_respects(grid.tiles@, grid.rotations@);
            }
        }
        let debug = if self.request.settings.capture_debug_snapshot {
            Some(self.build_debug_snapshot())
        } else {
            None
        };
        WfcSolution { seed: self.request.seed, grid, stats: self.stats, debug, signature }
    }

    /// The last contradiction recorded.
    pub closed spec fn last_contradiction_spec(&self) -> Option<WfcContradiction> {
        self.last_contradiction
    }

    /// Cell `c` is left with no variant, and the last contradiction was noted there.
    pub open spec fn contradiction_noted_at(&self, c: int) -> bool {
        &&& 0 <= c < self.grid_spec().cells()
        &&& (count_true(self.views()[c]) as u16) == 0
        &&& self.last_contradiction_spec() matches Some(x) && x.position == crate::grid::position_spec(
            self.grid_spec().size,
            c,
        )
    }

    /// Some cell is left with no variant, and the last contradiction was noted at such a cell.
    pub open spec fn contradiction_noted(&self) -> bool {
        exists|c: int| #[trigger] self.contradiction_noted_at(c)
    }

    /// How many observations are open for backtracking.
    pub closed spec fn decision_depth_spec(&self) -> nat {
        self.decisions@.len()
    }

    /// `x` records a contradiction at cell `c` with `note`: the cell's position, the last
    /// observed position, the variants left in the cell and their tiles in index order, the
    /// number of open observations and the note.
    pub open spec fn contradiction_at(&self, c: int, note: Seq<char>, x: WfcContradiction) -> bool {
        let rules = self.rules_spec();
        let idx = true_indices(self.views()[c], rules.count() as int);
        &&& x.position == crate::grid::position_spec(self.grid_spec().size, c)
        &&& x.last_observed_cell == match self.last_observed_spec() {
            Some(i) => Some(crate::grid::position_spec(self.grid_spec().size, i as int)),
            None => None,
        }
        &&& x.remaining_candidates@ == Seq::new(idx.len(), |k: int| rules.variants@[idx[k]].tile_id)
        &&& x.remaining_variants@ == Seq::new(idx.len(), |k: int| variant_of(rules, idx[k]))
        &&& x.decision_depth == self.decision_depth_spec() as u32
        &&& x.note@ == note
    }

    /// The last observed cell.
    pub closed spec fn last_observed_spec(&self) -> Option<usize> {
        self.last_observed
    }

    /// `d` describes cell `c`: its position, its variants and their distinct tiles in index
    /// order, its cached count, and its first variant, if any.
    pub open spec fn cell_debug_matches(&self, c: int, d: WfcCellDebug) -> bool {
        let dom = self.views()[c];
        let rules = self.rules_spec();
        let idx = true_indices(dom, rules.count() as int);
        &&& d.position == crate::grid::position_spec(self.grid_spec().size, c)
        &&& d.possible_count == (count_true(dom) as u16) as u32
        &&& d.possible_variants@.len() == idx.len()
        &&& forall|k: int| 0 <= k < idx.len() ==> #[trigger] d.possible_variants@[k] == variant_of(rules, idx[k])
        &&& d.possible_tiles@ == dedupe_spec(Seq::new(idx.len(), |k: int| rules.variants@[idx[k]].tile_id))
        &&& d.collapsed_variant == if count_true(dom) == 0 {
            None
        } else {
            Some(variant_of(rules, first_member(dom)))
        }
        &&& d.collapsed_tile == if count_true(dom) == 0 {
            None
        } else {
            Some(rules.variants@[first_member(dom)].tile_id)
        }
    }

    /// The per-cell state, the last observed cell and the last contradiction.
    /// `r` is the debug snapshot of the current state: one entry per cell, the last observed
    /// position and a copy of the last contradiction.
    pub open spec fn debug_matches(&self, r: WfcDebugSnapshot) -> bool {
        &&& r.cells@.len() == self.grid_spec().cells()
        &&& forall|c: int| 0 <= c < self.grid_spec().cells() ==> self.cell_debug_matches(c, #[trigger] r.cells@[c])
        &&& r.last_observed_cell == match self.last_observed_spec() {
            Some(i) => Some(crate::grid::position_spec(self.grid_spec().size, i as int)),
            None => None,
        }
        &&& (r.contradiction is Some <==> self.last_contradiction_spec() is Some)
        &&& (r.contradiction matches Some(x) ==> contradiction_copied(self.last_contradiction_spec()->0, x))
    }

    pub fn build_debug_snapshot(&self) -> (r: WfcDebugSnapshot)
        requires
            self.inv(),
        ensures
            self.debug_matches(r),
    {
        let total = self.domains.len();
        let mut cells: Vec<WfcCellDebug> = Vec::new();
        let mut c: usize = 0;
        while c < total
            invariant
                self.inv(),
                total == self.grid.cells(),
                c <= total,
                cells@.len() == c,
                forall|x: int| 0 <= x < c ==> self.cell_debug_matches(x, #[trigger] cells@[x]),
            decreases total - c,
        {
            cells.push(self.cell_debug(c));
            c = c + 1;
        }
        let last_observed_cell = match self.last_observed {
            Some(index) => Some(self.grid.position_of(index)),
            None => None,
        };
        let contradiction = match &self.last_contradiction {
            Some(found) => Some(found.duplicate()),
            None => None,
        };
        WfcDebugSnapshot { cells, last_observed_cell, contradiction }
    }

    /// The debug state of one cell.
    fn cell_debug(&self, c: usize) -> (r: WfcCellDebug)
        requires
            self.inv(),
            c < self.grid.cells(),
        ensures
            self.cell_debug_matches(c as int, r),
    {
        proof {
            self.lemma_views();
            self.domains@[c as int].lemma_wf_len();
        }
        let indices = self.domains[c].to_indices();
        let ghost idx = true_indices(self.views()[c as int], self.rules.count() as int);
        proof {
            assert forall|k: int| 0 <= k < indices@.len() implies #[trigger] idx[k] == indices@[k] as int by {
                assert(indices@.map_values(|x: usize| x as int)[k] == indices@[k] as int);
            }
            assert(idx.len() == indices@.len()) by {
                assert(indices@.map_values(|x: usize| x as int).len() == indices@.len());
            }
        }
        let mut possible_variants: Vec<WfcTileVariant> = Vec::new();
        let mut listed: Vec<WfcTileId> = Vec::new();
        let mut j: usize = 0;
        while j < indices.len()
            invariant
                self.rules.wf(),
                j <= indices@.len(),
                forall|k: int| 0 <= k < indices@.len() ==> #[trigger] indices@[k] < self.rules.count(),
                forall|k: int| 0 <= k < indices@.len() ==> #[trigger] idx[k] == indices@[k] as int,
                possible_variants@.len() == j,
                forall|k: int| 0 <= k < j ==> #[trigger] possible_variants@[k] == variant_of(self.rules, idx[k]),
                listed@ == Seq::new(j as nat, |k: int| self.rules.variants@[idx[k]].tile_id),
            decreases indices@.len() - j,
        {
            possible_variants.push(self.rules.tile_variant(indices[j]));
            listed.push(self.rules.tile_id(indices[j]));
            j = j + 1;
            proof {
                assert(listed@ =~= Seq::new(j as nat, |k: int| self.rules.variants@[idx[k]].tile_id));
            }
        }
        let collapsed_variant = match self.domains[c].first_one() {
            Some(k) => {
                proof {
                    assert(self.domains@[c as int].clean());
                    assert(is_first_member(self.views()[c as int], k as int));
                    lemma_first_member(self.views()[c as int], k as int);
                    lemma_count_true_bounds(self.views()[c as int]);
                }
                Some(self.rules.tile_variant(k))
            },
            None => {
                proof {
                    lemma_count_true_bounds(self.views()[c as int]);
                }
                None
            },
        };
        let collapsed_tile = match collapsed_variant {
            Some(v) => Some(v.tile),
            None => None,
        };
        WfcCellDebug {
            position: self.grid.position_of(c),
            possible_tiles: dedupe_tile_ids(listed),
            possible_variants,
            possible_count: self.possible_counts[c] as u32,
            collapsed_tile,
            collapsed_variant,
        }
    }


    /// The failure that `reason` ends the solve with.
    /// `f` reports `reason` on the current state: its kind and message, the seed, topology,
    /// size and counters, a copy of the last contradiction and, when the request asks for it,
    /// a debug snapshot.
    pub open spec fn failure_matches(&self, reason: SolveError, f: WfcFailure) -> bool {
        &&& f.reason == failure_reason(reason)
        &&& f.seed == self.request_spec().seed
        &&& f.topology == self.request_spec().ruleset.topology
        &&& f.grid_size == self.request_spec().grid_size
        &&& f.stats == self.stats_spec()
        &&& (f.contradiction is Some <==> self.last_contradiction_spec() is Some)
        &&& (f.contradiction matches Some(x) ==> contradiction_copied(self.last_contradiction_spec()->0, x))
        &&& (f.debug is Some <==> self.request_spec().settings.capture_debug_snapshot)
        &&& (f.debug matches Some(d) ==> self.debug_matches(d))
        &&& f.message@ == match reason {
            SolveError::InvalidRequest(message) => message@,
            SolveError::Contradiction => "solver reached a contradiction and exhausted all backtracking choices"@,
            SolveError::BacktrackLimitReached => "solver exceeded the configured backtrack budget of "@
                + decimal_spec(self.request_spec().settings.max_backtracks as nat),
            SolveError::UnsatisfiedGlobalConstraint => match self.last_contradiction_spec() {
                Some(x) => x.note@,
                None => "a global or authoring constraint could not be satisfied"@,
            },
        }
    }

    pub fn finish_failure(&self, reason: SolveError) -> (f: WfcFailure)
        requires
            self.inv(),
        ensures
            self.failure_matches(reason, f),
    {
        let reason_kind = match &reason {
            SolveError::InvalidRequest(_) => WfcFailureReason::InvalidRequest,
            SolveError::Contradiction => WfcFailureReason::Contradiction,
            SolveError::BacktrackLimitReached => WfcFailureReason::BacktrackLimitReached,
            SolveError::UnsatisfiedGlobalConstraint => WfcFailureReason::UnsatisfiedGlobalConstraint,
        };
        let message = match reason {
            SolveError::InvalidRequest(message) => message,
            SolveError::Contradiction => "solver reached a contradiction and exhausted all backtracking choices".to_owned(),
            SolveError::BacktrackLimitReached => crate::text::decimal_text(self.request.settings.max_backtracks as u64),
            SolveError::UnsatisfiedGlobalConstraint => match &self.last_contradiction {
                Some(found) => found.note.clone(),
                None => "a global or authoring constraint could not be satisfied".to_owned(),
            },
        };
        let message = if reason_kind == WfcFailureReason::BacktrackLimitReached {
            crate::text::join3("solver exceeded the configured backtrack budget of ", message.as_str(), "")
        } else {
            message
        };
        proof {
            reveal_strlit("");
        }
        let debug = if self.request.settings.capture_debug_snapshot {
            Some(self.build_debug_snapshot())
        } else {
            None
        };
        let contradiction = match &self.last_contradiction {
            Some(found) => Some(found.duplicate()),
            None => None,
        };
        WfcFailure {
            reason: reason_kind,
            seed: self.request.seed,
            topology: self.grid.topology(),
            grid_size: self.grid.size(),
            stats: self.stats,
            contradiction,
            debug,
            message,
        }
    }

    /// The per-cell counts and single variants, for a step-by-step view.
    /// `r` shows the current state cell by cell, with the given flags.
    pub open spec fn step_matches(&self, r: WfcStepSnapshot, finished: bool, failed: bool) -> bool {
        &&& r.cells@.len() == self.grid_spec().cells()
        &&& forall|c: int|
            0 <= c < self.grid_spec().cells() ==> {
                let dom = #[trigger] self.views()[c];
                &&& r.cells@[c].possible_count == count_true(dom) as u32
                &&& r.cells@[c].collapsed == if count_true(dom) == 1 {
                    Some(variant_of(self.rules_spec(), first_member(dom)))
                } else {
                    None
                }
            }
        &&& r.observation_count == self.stats_spec().observation_count
        &&& r.last_observed_position == match self.last_observed_spec() {
            Some(i) => Some(crate::grid::position_spec(self.grid_spec().size, i as int)),
            None => None,
        }
        &&& r.finished == finished
        &&& r.failed == failed
    }

    pub fn step_snapshot(&self, finished: bool, failed: bool) -> (r: WfcStepSnapshot)
        requires
            self.inv(),
        ensures
            self.step_matches(r, finished, failed),
    {
        proof {
            self.lemma_views();
        }
        let total = self.domains.len();
        let mut cells: Vec<WfcStepCell> = Vec::new();
        let mut c: usize = 0;
        while c < total
            invariant
                self.inv(),
                total == self.grid.cells(),
                c <= total,
                cells@.len() == c,
                forall|x: int|
                    0 <= x < c ==> {
                        let dom = #[trigger] self.views()[x];
                        &&& cells@[x].possible_count == count_true(dom) as u32
                        &&& cells@[x].collapsed == if count_true(dom) == 1 {
                            Some(variant_of(self.rules, first_member(dom)))
                        } else {
                            None
                        }
                    },
            decreases total - c,
        {
            proof {
                self.lemma_views();
                self.domains@[c as int].lemma_wf_len();
                lemma_count_true_bounds(self.views()[c as int]);
            }
            let count = self.domains[c].count();
            let collapsed = if count == 1 {
                match self.domains[c].first_one() {
                    Some(k) => {
                        proof {
                            assert(self.domains@[c as int].clean());
                            assert(is_first_member(self.views()[c as int], k as int));
                            lemma_first_member(self.views()[c as int], k as int);
                        }
                        Some(self.rules.tile_variant(k))
                    },
                    None => None,
                }
            } else {
                None
            };
            cells.push(WfcStepCell { possible_count: count as u32, collapsed });
            c = c + 1;
        }
        let last_observed_position = match self.last_observed {
            Some(index) => Some(self.grid.position_of(index)),
            None => None,
        };
        WfcStepSnapshot {
            cells,
            observation_count: self.stats.observation_count,
            last_observed_position,
            finished,
            failed,
        }
    }

    /// The tile of cell `index`, when it holds exactly one variant.
    pub open spec fn tile_at_spec(&self, index: int) -> Option<WfcTileId> {
        if 0 <= index < self.grid_spec().cells() && count_true(self.views()[index]) == 1 {
            Some(self.rules_spec().variants@[first_member(self.views()[index])].tile_id)
        } else {
            None
        }
    }

    /// A step snapshot is determined by the state: two snapshots of one state with the same
    /// flags agree cell by cell and in every counter.
    pub proof fn lemma_step_snapshot_unique(&self, a: WfcStepSnapshot, b: WfcStepSnapshot, finished: bool, failed: bool)
        requires
            self.step_matches(a, finished, failed),
            self.step_matches(b, finished, failed),
        ensures
            a.cells@ == b.cells@,
            a.observation_count == b.observation_count,
            a.last_observed_position == b.last_observed_position,
            a.finished == b.finished,
            a.failed == b.failed,
    {
        assert forall|c: int| 0 <= c < a.cells@.len() implies a.cells@[c] == b.cells@[c] by {
            let dom = self.views()[c];
            assert(a.cells@[c].possible_count == count_true(dom) as u32);
            assert(b.cells@[c].possible_count == count_true(dom) as u32);
        }
        assert(a.cells@ =~= b.cells@);
    }

    /// `tile_at` reads what a snapshot of the same state shows: the tile of the cell's
    /// collapsed variant, and nothing past the grid.
    pub proof fn lemma_tile_at_matches_snapshot(&self, s: WfcStepSnapshot, finished: bool, failed: bool, i: int)
        requires
            self.step_matches(s, finished, failed),
        ensures
            self.tile_at_spec(i) == if 0 <= i < s.cells@.len() {
                match s.cells@[i].collapsed {
                    Some(v) => Some(v.tile),
                    None => None,
                }
            } else {
                None::<WfcTileId>
            },
    {
        if 0 <= i < s.cells@.len() {
            let dom = self.views()[i];
            assert(s.cells@[i].possible_count == count_true(dom) as u32);
        }
    }

    /// The tile of cell `index`, if that cell holds a single variant.
    pub fn tile_at(&self, index: usize) -> (r: Option<WfcTileId>)
        requires
            self.inv(),
        ensures
            r == self.tile_at_spec(index as int),
    {
        proof {
            self.lemma_views();
        }
        if index >= self.domains.len() {
            return None;
        }
        proof {
            self.domains@[index as int].lemma_wf_len();
            lemma_count_true_bounds(self.views()[index as int]);
        }
        if self.domains[index].count() == 1 {
            match self.domains[index].first_one() {
                Some(k) => {
                    proof {
                        assert(self.domains@[index as int].clean());
                        assert(is_first_member(self.views()[index as int], k as int));
                        lemma_first_member(self.views()[index as int], k as int);
                    }
                    Some(self.rules.tile_id(k))
                },
                None => None,
            }
        } else {
            None
        }
    }

    /// Whether the solver rests between observations.
    pub fn is_settled(&self) -> (r: bool)
        ensures
            r == self.is_settled_spec(),
    {
        self.settled
    }

    /// Whether no constraint has been applied yet.
    pub fn is_fresh(&self) -> (r: bool)
        ensures
            r == self.fresh(),
    {
        !self.started
    }

    /// Every cell's cached count is one.
    pub open spec fn collapsed_spec(&self) -> bool {
        forall|c: int| 0 <= c < self.grid_spec().cells() ==> #[trigger] (count_true(self.views()[c]) as u16) == 1
    }

    /// Whether every cached count is one.
    pub fn all_collapsed(&self) -> (r: bool)
        requires
            self.inv(),
        ensures
            r == self.collapsed_spec(),
            r ==> self.cells_nonempty(),
            self.rules_spec().count() <= u16::MAX ==> (r == self.all_single()),
    {
        proof {
            self.lemma_views();
        }
        let total = self.possible_counts.len();
        let mut c: usize = 0;
        while c < total
            invariant
                self.inv(),
                total == self.grid.cells(),
                c <= total,
                forall|x: int| 0 <= x < c ==> #[trigger] (count_true(self.views()[x]) as u16) == 1,
            decreases total - c,
        {
            proof {
                self.lemma_views();
            }
            if self.possible_counts[c] != 1 {
                proof {
                    assert((count_true(self.views()[c as int]) as u16) != 1);
                    assert(count_true(self.views()[c as int]) != 1);
                }
                return false;
            }
            c = c + 1;
        }
        proof {
            self.lemma_views();
            assert forall|x: int| 0 <= x < self.views().len() implies #[trigger] count_true(self.views()[x]) > 0 by {
                assert((count_true(self.views()[x]) as u16) == 1);
            }
            if self.rules.count() <= u16::MAX {
                assert forall|x: int| 0 <= x < self.grid.cells() implies #[trigger] count_true(self.views()[x]) == 1 by {
                    self.lemma_views();
                    self.domains@[x].lemma_wf_len();
                    lemma_count_true_bounds(self.views()[x]);
                    let s = self.views()[x];
                    assert(count_true(s) <= s.len());
                    assert((count_true(s) as u16) == 1);
                    lemma_count_le_limit(self.views()[x], self.rules.count());
                }
            }
        }
        true
    }

    /// The number of cells.
    pub fn cell_count(&self) -> (r: usize)
        requires
            self.inv(),
        ensures
            r == self.grid_spec().cells(),
    {
        self.domains.len()
    }

    /// The number of variants.
    pub fn variant_count(&self) -> (r: usize)
        ensures
            r == self.rules_spec().count(),
    {
        self.rules.tile_count()
    }

    /// The cached count of cell `cell`.
    pub fn possible_count(&self, cell: usize) -> (r: u16)
        requires
            self.inv(),
            cell < self.grid_spec().cells(),
        ensures
            r == count_true(self.views()[cell as int]) as u16,
    {
        proof {
            self.lemma_views();
        }
        self.possible_counts[cell]
    }

    /// The variants left at cell `cell`, in increasing order.
    pub fn candidates(&self, cell: usize) -> (r: Vec<usize>)
        requires
            self.inv(),
            cell < self.grid_spec().cells(),
        ensures
            r@.map_values(|k: usize| k as int) == true_indices(self.views()[cell as int], self.rules_spec().count() as int),
            forall|k: int| 0 <= k < r@.len() ==> #[trigger] r@[k] < self.rules_spec().count(),
    {
        proof {
            self.lemma_views();
        }
        self.domains[cell].to_indices()
    }

    /// The weight of variant `index`.
    pub fn variant_weight(&self, index: usize) -> (r: VariantWeight)
        requires
            self.inv(),
            index < self.rules_spec().count(),
        ensures
            r.family_weight == self.rules_spec().families@[self.rules_spec().variants@[index as int].family as int].weight,
            r.share == self.rules_spec().families@[self.rules_spec().variants@[index as int].family as int].rotations,
    {
        self.rules.weight(index)
    }

    /// The counters of the solve so far.
    pub fn stats(&self) -> (r: WfcSolveStats)
        ensures
            r == self.stats_spec(),
    {
        self.stats
    }

    /// The cell observed last, if any.
    pub fn last_observed(&self) -> (r: Option<usize>)
        ensures
            r == self.last_observed_spec(),
    {
        self.last_observed
    }

}

/// The distinct entries of `s`, each at its first occurrence.
pub open spec fn dedupe_spec(s: Seq<WfcTileId>) -> Seq<WfcTileId>
    decreases s.len(),
{
    if s.len() == 0 {
        Seq::empty()
    } else {
        let p = dedupe_spec(s.drop_last());
        if p.contains(s.last()) {
            p
        } else {
            p.push(s.last())
        }
    }
}

/// The distinct entries keep no duplicate and the members of the input.
pub proof fn lemma_dedupe(s: Seq<WfcTileId>)
    ensures
        dedupe_spec(s).no_duplicates(),
        forall|x: WfcTileId| dedupe_spec(s).contains(x) <==> s.contains(x),
    decreases s.len(),
{
    if s.len() > 0 {
        let t = s.drop_last();
        lemma_dedupe(t);
        let p = dedupe_spec(t);
        assert forall|x: WfcTileId| dedupe_spec(s).contains(x) <==> s.contains(x) by {
            if s.contains(x) && !t.contains(x) {
                let k = choose|k: int| 0 <= k < s.len() && s[k] == x;
                if k < t.len() {
                    assert(t[k] == x);
                }
                assert(x == s.last());
                if !p.contains(x) {
                    assert(p.push(x)[p.len() as int] == x);
                }
            }
            if t.contains(x) {
                let k = choose|k: int| 0 <= k < t.len() && t[k] == x;
                assert(s[k] == x);
                assert(p.contains(x));
                if !p.contains(s.last()) {
                    let j = choose|j: int| 0 <= j < p.len() && p[j] == x;
                    assert(p.push(s.last())[j] == x);
                }
            }
            if dedupe_spec(s).contains(x) {
                if !p.contains(s.last()) && x == s.last() {
                    assert(s[s.len() - 1] == x);
                } else {
                    if !p.contains(s.last()) {
                        let j = choose|j: int| 0 <= j < p.len() + 1 && p.push(s.last())[j] == x;
                        if j < p.len() {
                            assert(p[j] == x);
                        }
                    }
                    assert(p.contains(x));
                    assert(t.contains(x));
                    let k = choose|k: int| 0 <= k < t.len() && t[k] == x;
                    assert(s[k] == x);
                }
            }
        }
    }
}

/// The distinct tile ids of `tile_ids`, in the order of their first occurrence.
pub fn dedupe_tile_ids(tile_ids: Vec<WfcTileId>) -> (r: Vec<WfcTileId>)
    ensures
        r@ == dedupe_spec(tile_ids@),
        r@.no_duplicates(),
        forall|x: WfcTileId| r@.contains(x) <==> tile_ids@.contains(x),
{
    let mut deduped: Vec<WfcTileId> = Vec::new();
    let mut i: usize = 0;
    while i < tile_ids.len()
        invariant
            i <= tile_ids@.len(),
            deduped@ == dedupe_spec(tile_ids@.take(i as int)),
        decreases tile_ids@.len() - i,
    {
        let tile_id = tile_ids[i];
        let mut present = false;
        let mut j: usize = 0;
        while j < deduped.len()
            invariant
                j <= deduped@.len(),
                present <==> deduped@.take(j as int).contains(tile_id),
            decreases deduped@.len() - j,
        {
            if deduped[j] == tile_id {
                present = true;
            }
            proof {
                let before = deduped@.take(j as int);
                let after = deduped@.take(j + 1);
                assert(after =~= before.push(deduped@[j as int]));
                if deduped@[j as int] == tile_id {
                    assert(after[j as int] == tile_id);
                }
                if before.contains(tile_id) {
                    let k = choose|k: int| 0 <= k < before.len() && before[k] == tile_id;
                    assert(after[k] == tile_id);
                }
                if after.contains(tile_id) {
                    let k = choose|k: int| 0 <= k < after.len() && after[k] == tile_id;
                    if k < j {
                        assert(before[k] == tile_id);
                    }
                }
            }
            j = j + 1;
        }
        proof {
            assert(deduped@.take(deduped@.len() as int) =~= deduped@);
            assert(tile_ids@.take(i + 1).drop_last() =~= tile_ids@.take(i as int));
        }
        if !present {
            deduped.push(tile_id);
        }
        i = i + 1;
    }
    proof {
        assert(tile_ids@.take(tile_ids@.len() as int) =~= tile_ids@);
        lemma_dedupe(tile_ids@);
    }
    deduped
}

/// The variant entry `k` as a tile and rotation.
pub open spec fn variant_of(rules: CompiledRuleset, k: int) -> WfcTileVariant {
    WfcTileVariant { tile: rules.variants@[k].tile_id, rotation_steps: rules.variants@[k].rotation_steps }
}

/// `b` holds the same fields as `a`.
pub open spec fn contradiction_copied(a: WfcContradiction, b: WfcContradiction) -> bool {
    &&& b.position == a.position
    &&& b.last_observed_cell == a.last_observed_cell
    &&& b.remaining_candidates@ == a.remaining_candidates@
    &&& b.remaining_variants@ == a.remaining_variants@
    &&& b.decision_depth == a.decision_depth
    &&& b.note@ == a.note@
}

/// The failure reason that a solve error is reported with.
pub open spec fn failure_reason(e: SolveError) -> WfcFailureReason {
    match e {
        SolveError::InvalidRequest(_) => WfcFailureReason::InvalidRequest,
        SolveError::Contradiction => WfcFailureReason::Contradiction,
        SolveError::BacktrackLimitReached => WfcFailureReason::BacktrackLimitReached,
        SolveError::UnsatisfiedGlobalConstraint => WfcFailureReason::UnsatisfiedGlobalConstraint,
    }
}

/// A snapshot of one cell's state during step-by-step solving.
#[derive(Clone, Debug)]
pub struct WfcStepCell {
    pub possible_count: u32,
    pub collapsed: Option<WfcTileVariant>,
}

/// A snapshot of the entire grid between observation steps.
#[derive(Clone, Debug)]
pub struct WfcStepSnapshot {
    pub cells: Vec<WfcStepCell>,
    pub observation_count: u32,
    pub last_observed_position: Option<UVec3>,
    pub finished: bool,
    pub failed: bool,
}

/// A count that fits below the limit of a `u16` is its own truncation.
proof fn lemma_count_le_limit(s: Seq<bool>, n: nat)
    requires
        n <= u16::MAX,
        forall|i: int| n <= i < s.len() ==> !#[trigger] s[i],
        n <= s.len(),
    ensures
        count_true(s) <= n,
    decreases s.len(),
{
    if s.len() > n {
        lemma_count_le_limit(s.drop_last(), n);
    } else {
        lemma_count_true_bounds(s);
    }
}

} // verus!
