use std::collections::BTreeSet;
use std::time::Instant;

use saddle_procgen_wfc::config::{
    WfcBorder, WfcBorderConstraint, WfcCellBans, WfcDirection, WfcFixedCell, WfcGlobalConstraint,
    WfcGridSize, WfcRequest, WfcRuleset, WfcSeed, WfcTileCountConstraint, WfcTileDefinition,
    WfcTileId, WfcTileSymmetry, WfcTopology, WfcWeight,
};
use saddle_procgen_wfc::debug::{WfcFailure, WfcFailureReason, WfcSolution, WfcTileGrid};
use saddle_procgen_wfc::geometry::UVec3;
use saddle_procgen_wfc::grid::CompiledGrid;
use saddle_procgen_wfc::learn::learn_adjacency_rules;
use saddle_procgen_wfc::overlap::{finish_overlap, prepare_overlap, WfcOverlapOptions, WfcOverlapRequest};
use saddle_procgen_wfc::rules::CompiledRuleset;
use saddle_procgen_wfc::solver::{SolveError, Solver};
use saddle_procgen_wfc::sockets::WfcSocketRulesetBuilder;

/// A splitmix64 stream, the source of the choice orders below.
struct Draws(u64);

impl Draws {
    fn next(&mut self) -> u64 {
        self.0 = self.0.wrapping_add(0x9E37_79B9_7F4A_7C15);
        let mut z = self.0;
        z = (z ^ (z >> 30)).wrapping_mul(0xBF58_476D_1CE4_E5B9);
        z = (z ^ (z >> 27)).wrapping_mul(0x94D0_49BB_1331_11EB);
        z ^ (z >> 31)
    }

    fn unit(&mut self) -> f32 {
        ((self.next() >> 40) as f32) / ((1u64 << 24) as f32)
    }
}

fn weight(value: f32) -> WfcWeight {
    WfcWeight(value.to_bits())
}

fn variant_weight(solver: &Solver, index: usize) -> f32 {
    let w = solver.variant_weight(index);
    f32::from_bits(w.family_weight.0) / w.share as f32
}

/// The candidates of `cell` in a weighted random order; the last one is tried first.
fn choice_order(solver: &Solver, cell: usize, draws: &mut Draws) -> Vec<usize> {
    let mut candidates = solver.candidates(cell);
    let mut ordered = Vec::new();
    while !candidates.is_empty() {
        let total: f32 = candidates.iter().map(|index| variant_weight(solver, *index)).sum();
        let mut target = draws.unit() * total.max(f32::EPSILON);
        let mut picked = candidates.len() - 1;
        for (slot, index) in candidates.iter().enumerate() {
            target -= variant_weight(solver, *index);
            if target <= 0.0 {
                picked = slot;
                break;
            }
        }
        ordered.push(candidates.remove(picked));
    }
    ordered.reverse();
    ordered
}

/// The first undecided cell with the fewest candidates.
fn pick_cell(solver: &Solver) -> Option<usize> {
    let mut best = None;
    let mut best_count = u16::MAX;
    for cell in 0..solver.cell_count() {
        let count = solver.possible_count(cell);
        if count > 1 && count < best_count {
            best = Some(cell);
            best_count = count;
        }
    }
    best
}

/// A complete solve: observe and propagate until every cell holds one variant.
fn solve(request: &WfcRequest) -> Result<WfcSolution, WfcFailure> {
    let mut draws = Draws(request.seed.0);
    let mut solver = Solver::new(request)?;
    if let Err(reason) = solver.apply_input_constraints() {
        return Err(solver.finish_failure(reason));
    }
    loop {
        if solver.all_collapsed() {
            return Ok(solver.finish_solution());
        }
        let cell = match pick_cell(&solver) {
            Some(cell) => cell,
            None => return Ok(solver.finish_solution()),
        };
        let choices = choice_order(&solver, cell, &mut draws);
        if let Err(reason) = solver.observe(cell, choices) {
            return Err(solver.finish_failure(reason));
        }
    }
}

fn all_dirs(ruleset: WfcRuleset, tile: WfcTileId, allowed: &[WfcTileId]) -> WfcRuleset {
    ruleset
        .with_rule(tile, WfcDirection::XPos, allowed.to_vec())
        .with_rule(tile, WfcDirection::XNeg, allowed.to_vec())
        .with_rule(tile, WfcDirection::YPos, allowed.to_vec())
        .with_rule(tile, WfcDirection::YNeg, allowed.to_vec())
}

fn alternating_rules_2d() -> WfcRuleset {
    let white = WfcTileId(0);
    let black = WfcTileId(1);
    let ruleset = WfcRuleset::new(
        WfcTopology::Cartesian2d,
        vec![
            WfcTileDefinition::new(white, weight(1.0), "White"),
            WfcTileDefinition::new(black, weight(1.0), "Black"),
        ],
    );
    let ruleset = all_dirs(ruleset, white, &[black]);
    all_dirs(ruleset, black, &[white])
}

fn flexible_rules_2d() -> WfcRuleset {
    let grass = WfcTileId(0);
    let road = WfcTileId(1);
    let water = WfcTileId(2);
    let ruleset = WfcRuleset::new(
        WfcTopology::Cartesian2d,
        vec![
            WfcTileDefinition::new(grass, weight(5.0), "Grass"),
            WfcTileDefinition::new(road, weight(2.0), "Road"),
            WfcTileDefinition::new(water, weight(1.0), "Water"),
        ],
    );
    let ruleset = all_dirs(ruleset, grass, &[grass, road, water]);
    let ruleset = all_dirs(ruleset, road, &[grass, road]);
    all_dirs(ruleset, water, &[grass, water])
}

fn stacked_rules_3d() -> WfcRuleset {
    let air = WfcTileId(0);
    let stone = WfcTileId(1);
    WfcRuleset::new(
        WfcTopology::Cartesian3d,
        vec![
            WfcTileDefinition::new(air, weight(2.0), "Air"),
            WfcTileDefinition::new(stone, weight(1.0), "Stone"),
        ],
    )
    .with_rule(air, WfcDirection::XPos, vec![air, stone])
    .with_rule(air, WfcDirection::XNeg, vec![air, stone])
    .with_rule(air, WfcDirection::YPos, vec![air, stone])
    .with_rule(air, WfcDirection::YNeg, vec![air, stone])
    .with_rule(air, WfcDirection::ZPos, vec![air])
    .with_rule(air, WfcDirection::ZNeg, vec![air, stone])
    .with_rule(stone, WfcDirection::XPos, vec![stone, air])
    .with_rule(stone, WfcDirection::XNeg, vec![stone, air])
    .with_rule(stone, WfcDirection::YPos, vec![stone, air])
    .with_rule(stone, WfcDirection::YNeg, vec![stone, air])
    .with_rule(stone, WfcDirection::ZPos, vec![stone, air])
    .with_rule(stone, WfcDirection::ZNeg, vec![stone])
}

fn forced_backtrack_rules() -> WfcRequest {
    let a = WfcTileId(0);
    let b = WfcTileId(1);
    let ruleset = WfcRuleset::new(
        WfcTopology::Cartesian2d,
        vec![
            WfcTileDefinition::new(a, weight(8.0), "A"),
            WfcTileDefinition::new(b, weight(1.0), "B"),
        ],
    );
    let ruleset = all_dirs(ruleset, a, &[a]);
    let ruleset = all_dirs(ruleset, b, &[b]);
    let mut request = WfcRequest::new(WfcGridSize::new_2d(2, 1), ruleset, WfcSeed(1));
    request.global_constraints.push(WfcGlobalConstraint::TileCount(WfcTileCountConstraint {
        tile: b,
        min_count: Some(2),
        max_count: Some(2),
    }));
    request
}

fn verify_solution(request: &WfcRequest, solution: &WfcSolution) {
    let grid = CompiledGrid::new(request.ruleset.topology, request.grid_size, request.boundary_stitching)
        .expect("request grid should compile");
    let rules = CompiledRuleset::compile(&request.ruleset).expect("rules should compile");

    for cell in 0..grid.total_cells() {
        let position = grid.position_of(cell);
        let tile = solution.grid.tile_at(position).expect("solution should contain every cell");
        let rotation = solution.grid.rotation_at(position).expect("solution rotation should exist");
        let tile_index = rules.variant_index(tile, rotation).expect("solution tile variant should exist");
        for direction in grid.directions() {
            if let Some(neighbor) = grid.neighbor(cell, direction) {
                let neighbor_position = grid.position_of(neighbor);
                let neighbor_tile = solution.grid.tile_at(neighbor_position).expect("neighbor should exist");
                let neighbor_rotation =
                    solution.grid.rotation_at(neighbor_position).expect("neighbor rotation should exist");
                let neighbor_index = rules
                    .variant_index(neighbor_tile, neighbor_rotation)
                    .expect("neighbor tile variant should exist");
                assert!(
                    rules.allowed_mask(direction, tile_index).contains(neighbor_index),
                    "tile {:?} at {:?} is not compatible with {:?} at {:?} in direction {:?}",
                    tile,
                    position,
                    neighbor_tile,
                    neighbor_position,
                    direction
                );
            }
        }
    }

    for fixed in &request.fixed_cells {
        assert_eq!(solution.grid.tile_at(fixed.position), Some(fixed.tile));
    }

    for bans in &request.banned_cells {
        let tile = solution.grid.tile_at(bans.position).expect("banned cell should exist");
        assert!(!bans.banned_tiles.contains(&tile));
    }

    for border in &request.border_constraints {
        for cell in 0..grid.total_cells() {
            if grid.is_on_border(cell, border.border) {
                let tile = solution.grid.tile_at(grid.position_of(cell)).expect("border cell should exist");
                assert!(border.allowed_tiles.contains(&tile));
            }
        }
    }

    for constraint in &request.global_constraints {
        match constraint {
            WfcGlobalConstraint::TileCount(count) => {
                let actual = solution.grid.tiles.iter().filter(|tile| **tile == count.tile).count() as u32;
                if let Some(min_count) = count.min_count {
                    assert!(actual >= min_count);
                }
                if let Some(max_count) = count.max_count {
                    assert!(actual <= max_count);
                }
            }
        }
    }
}

#[test]
fn solves_alternating_grid_and_respects_rules() {
    let request = WfcRequest::new(WfcGridSize::new_2d(6, 6), alternating_rules_2d(), WfcSeed(42));

    let solution = solve(&request).expect("alternating rules should solve");
    assert_eq!(solution.grid.tiles.len(), 36);
    verify_solution(&request, &solution);
}

#[test]
fn weighted_solves_are_deterministic_for_the_same_seed() {
    let request = WfcRequest::new(WfcGridSize::new_2d(10, 10), flexible_rules_2d(), WfcSeed(9));

    let a = solve(&request).expect("first solve should succeed");
    let b = solve(&request).expect("second solve should succeed");

    assert_eq!(a.signature, b.signature);
    assert_eq!(a.grid.tiles, b.grid.tiles);
}

#[test]
fn different_seeds_produce_multiple_valid_outputs() {
    let rules = flexible_rules_2d();
    let mut signatures = BTreeSet::new();

    for seed in 0..10 {
        let request = WfcRequest::new(WfcGridSize::new_2d(10, 10), rules.clone(), WfcSeed(seed));
        let solution = solve(&request).expect("solve should succeed");
        verify_solution(&request, &solution);
        signatures.insert(solution.signature);
    }

    assert!(signatures.len() >= 2, "different seeds should explore at least two valid outputs");
}

#[test]
fn contradictory_constraints_report_failure() {
    let a = WfcTileId(0);
    let b = WfcTileId(1);
    let ruleset = WfcRuleset::new(
        WfcTopology::Cartesian2d,
        vec![
            WfcTileDefinition::new(a, weight(1.0), "A"),
            WfcTileDefinition::new(b, weight(1.0), "B"),
        ],
    );
    let ruleset = all_dirs(ruleset, a, &[a, b]);
    let ruleset = all_dirs(ruleset, b, &[a, b]);
    let mut request = WfcRequest::new(WfcGridSize::new_2d(1, 1), ruleset, WfcSeed(3));
    request.border_constraints = vec![
        WfcBorderConstraint::new(WfcBorder::MinX, vec![a]),
        WfcBorderConstraint::new(WfcBorder::MaxX, vec![b]),
    ];

    let failure = solve(&request).expect_err("conflicting borders must fail");
    assert_eq!(failure.reason, WfcFailureReason::Contradiction);
    assert!(failure.contradiction.is_some());
}

#[test]
fn backtracking_recovers_from_a_bad_first_choice() {
    let request = forced_backtrack_rules();

    let solution = solve(&request).expect("backtracking should find the all-B solution");
    assert!(solution.stats.backtrack_count >= 1);
    assert!(solution.grid.tiles.iter().all(|tile| *tile == WfcTileId(1)));
}

#[test]
fn fixed_cells_and_borders_are_preserved() {
    let wall = WfcTileId(0);
    let floor = WfcTileId(1);
    let ruleset = WfcRuleset::new(
        WfcTopology::Cartesian2d,
        vec![
            WfcTileDefinition::new(wall, weight(1.0), "Wall"),
            WfcTileDefinition::new(floor, weight(1.0), "Floor"),
        ],
    );
    let ruleset = all_dirs(ruleset, wall, &[wall, floor]);
    let ruleset = all_dirs(ruleset, floor, &[wall, floor]);
    let mut request = WfcRequest::new(WfcGridSize::new_2d(5, 5), ruleset, WfcSeed(11));
    request.fixed_cells.push(WfcFixedCell::new(UVec3::new(2, 2, 0), floor));
    request.border_constraints = vec![
        WfcBorderConstraint::new(WfcBorder::MinX, vec![wall]),
        WfcBorderConstraint::new(WfcBorder::MaxX, vec![wall]),
        WfcBorderConstraint::new(WfcBorder::MinY, vec![wall]),
        WfcBorderConstraint::new(WfcBorder::MaxY, vec![wall]),
    ];

    let solution = solve(&request).expect("bordered room should solve");
    verify_solution(&request, &solution);
}

#[test]
fn per_cell_bans_are_preserved() {
    let meadow = WfcTileId(0);
    let road = WfcTileId(1);
    let water = WfcTileId(2);
    let mut request = WfcRequest::new(WfcGridSize::new_2d(6, 6), flexible_rules_2d(), WfcSeed(13));
    request.banned_cells = vec![
        WfcCellBans::new(UVec3::new(0, 0, 0), vec![water]),
        WfcCellBans::new(UVec3::new(3, 3, 0), vec![road, water]),
        WfcCellBans::new(UVec3::new(5, 5, 0), vec![meadow]),
    ];

    let solution = solve(&request).expect("banned cells should still allow a valid solve");
    verify_solution(&request, &solution);
}

#[test]
fn three_dimensional_rules_solve_and_validate() {
    let request = WfcRequest::new(WfcGridSize::new_3d(4, 4, 4), stacked_rules_3d(), WfcSeed(27));

    let solution = solve(&request).expect("3D rules should solve");
    assert_eq!(solution.grid.tiles.len(), 64);
    verify_solution(&request, &solution);
}

#[test]
fn representative_sizes_record_stats() {
    let medium_2d = WfcRequest::new(WfcGridSize::new_2d(32, 32), flexible_rules_2d(), WfcSeed(99));
    let large_2d = WfcRequest::new(WfcGridSize::new_2d(64, 64), flexible_rules_2d(), WfcSeed(1234));
    let medium_3d = WfcRequest::new(WfcGridSize::new_3d(16, 16, 16), stacked_rules_3d(), WfcSeed(100));

    let started = Instant::now();
    let a = solve(&medium_2d).expect("32x32 solve should succeed");
    let a_ms = started.elapsed().as_secs_f32() * 1000.0;
    let started = Instant::now();
    let b = solve(&large_2d).expect("64x64 solve should succeed");
    let b_ms = started.elapsed().as_secs_f32() * 1000.0;
    let started = Instant::now();
    let c = solve(&medium_3d).expect("16x16x16 solve should succeed");
    let c_ms = started.elapsed().as_secs_f32() * 1000.0;

    println!("wfc perf 32x32: {:.2}ms, 64x64: {:.2}ms, 16x16x16: {:.2}ms", a_ms, b_ms, c_ms);
    assert!(a_ms >= 0.0);
    assert!(b_ms >= 0.0);
    assert!(c_ms >= 0.0);
    assert!(a.stats.observation_count >= 1);
    assert_eq!(b.grid.tiles.len(), 4096);
    assert_eq!(c.grid.tiles.len(), 4096);
}

#[test]
fn invalid_requests_are_refused_before_solving() {
    let unknown = WfcTileId(9);
    let ruleset = alternating_rules_2d().with_rule(unknown, WfcDirection::XPos, vec![WfcTileId(0)]);
    let request = WfcRequest::new(WfcGridSize::new_2d(2, 2), ruleset, WfcSeed(5));
    let failure = match Solver::new(&request) {
        Ok(_) => panic!("a rule for an unknown tile must be refused"),
        Err(failure) => failure,
    };
    assert_eq!(failure.reason, WfcFailureReason::InvalidRequest);

    let empty = WfcRequest::new(WfcGridSize::new_2d(0, 3), alternating_rules_2d(), WfcSeed(5));
    let failure = match Solver::new(&empty) {
        Ok(_) => panic!("an empty grid must be refused"),
        Err(failure) => failure,
    };
    assert_eq!(failure.reason, WfcFailureReason::InvalidRequest);
}

fn refusal(request: &WfcRequest) -> String {
    match Solver::new(request) {
        Ok(_) => panic!("the request must be refused"),
        Err(failure) => {
            assert_eq!(failure.reason, WfcFailureReason::InvalidRequest);
            failure.message
        },
    }
}

#[test]
fn request_errors_name_the_first_problem() {
    let flat = WfcRequest::new(WfcGridSize::new_2d(0, 3), alternating_rules_2d(), WfcSeed(5));
    assert_eq!(refusal(&flat), "grid dimensions must be greater than zero");

    let deep = WfcRequest::new(WfcGridSize::new_3d(2, 2, 2), alternating_rules_2d(), WfcSeed(5));
    assert_eq!(refusal(&deep), "2D topology requires depth = 1");

    let unknown = WfcRuleset::new(WfcTopology::Cartesian2d, Vec::new());
    let no_tiles = WfcRequest::new(WfcGridSize::new_2d(2, 2), unknown, WfcSeed(5));
    assert_eq!(refusal(&no_tiles), "ruleset must contain at least one tile");

    let mut inverted = WfcRequest::new(WfcGridSize::new_2d(2, 2), alternating_rules_2d(), WfcSeed(5));
    inverted.global_constraints.push(WfcGlobalConstraint::TileCount(WfcTileCountConstraint {
        tile: WfcTileId(1),
        min_count: Some(3),
        max_count: Some(1),
    }));
    assert_eq!(refusal(&inverted), "tile-count constraint for WfcTileId(1) has min > max");

    let mut stranger = WfcRequest::new(WfcGridSize::new_2d(2, 2), alternating_rules_2d(), WfcSeed(5));
    stranger.global_constraints.push(WfcGlobalConstraint::TileCount(WfcTileCountConstraint {
        tile: WfcTileId(42),
        min_count: None,
        max_count: Some(1),
    }));
    assert_eq!(refusal(&stranger), "unknown tile id WfcTileId(42)");
}

#[test]
fn fixed_cell_outside_the_grid_is_an_invalid_request() {
    let mut request = WfcRequest::new(WfcGridSize::new_2d(3, 3), alternating_rules_2d(), WfcSeed(5));
    request.fixed_cells.push(WfcFixedCell::new(UVec3::new(7, 0, 0), WfcTileId(0)));
    let failure = solve(&request).expect_err("an out-of-grid fixed cell must fail");
    assert_eq!(failure.reason, WfcFailureReason::InvalidRequest);
}

#[test]
fn observing_an_empty_choice_list_is_a_contradiction() {
    let request = WfcRequest::new(WfcGridSize::new_2d(3, 3), flexible_rules_2d(), WfcSeed(5));
    let mut solver = Solver::new(&request).expect("request should compile");
    assert!(solver.is_fresh());
    solver.apply_input_constraints().expect("no constraints to break");
    assert!(solver.is_settled());
    match solver.observe(0, Vec::new()) {
        Err(SolveError::Contradiction) => {}
        other => panic!("expected a contradiction, got {:?}", other),
    }
}

#[test]
fn solved_grids_agree_with_the_solver_cells() {
    let request = WfcRequest::new(WfcGridSize::new_2d(4, 3), flexible_rules_2d(), WfcSeed(21));
    let mut draws = Draws(21);
    let mut solver = Solver::new(&request).expect("request should compile");
    solver.apply_input_constraints().expect("no constraints to break");
    while !solver.all_collapsed() {
        let cell = pick_cell(&solver).expect("an undecided cell");
        let choices = choice_order(&solver, cell, &mut draws);
        solver.observe(cell, choices).expect("flexible rules never fail");
    }
    let solution = solver.finish_solution();
    for cell in 0..solver.cell_count() {
        assert_eq!(solver.tile_at(cell), Some(solution.grid.tiles[cell]));
        assert_eq!(solver.possible_count(cell), 1);
    }
    assert_eq!(solution.signature, solution.grid.signature());
    assert_eq!(solver.last_observed().is_some(), solver.stats().observation_count > 0);
}

/// The overlap solve: compile the sample's patterns, solve the tiled request, map back.
fn solve_overlap(request: &WfcOverlapRequest) -> Result<WfcSolution, WfcFailure> {
    let (inner_request, patterns) = prepare_overlap(request)?;
    let inner = solve(&inner_request)?;
    finish_overlap(request, &patterns, &inner)
}

#[test]
fn socket_built_ruleset_solves() {
    let mut builder = WfcSocketRulesetBuilder::new(WfcTopology::Cartesian2d);
    builder.add_tile(WfcTileId(0), weight(5.0), "Grass").all_sockets("g").done();
    builder
        .add_tile(WfcTileId(1), weight(2.0), "Road")
        .socket(WfcDirection::XPos, "road")
        .socket(WfcDirection::XNeg, "road")
        .socket(WfcDirection::YPos, "g")
        .socket(WfcDirection::YNeg, "g")
        .done();
    builder
        .add_tile(WfcTileId(2), weight(1.0), "Water")
        .socket(WfcDirection::XPos, "water")
        .socket(WfcDirection::XNeg, "water")
        .socket(WfcDirection::YPos, "g")
        .socket(WfcDirection::YNeg, "g")
        .done();

    let ruleset = builder.build().expect("should build");
    let request = WfcRequest::new(WfcGridSize::new_2d(10, 10), ruleset, WfcSeed(42));
    let solution = solve(&request).expect("should solve");
    assert_eq!(solution.grid.tiles.len(), 100);
}

#[test]
fn socket_builder_with_rotation() {
    let mut builder = WfcSocketRulesetBuilder::new(WfcTopology::Cartesian2d);
    builder.add_tile(WfcTileId(0), weight(3.0), "Grass").all_sockets("g").done();
    builder
        .add_tile(WfcTileId(1), weight(1.0), "Straight Road")
        .socket(WfcDirection::XPos, "g")
        .socket(WfcDirection::XNeg, "g")
        .socket(WfcDirection::YPos, "road")
        .socket(WfcDirection::YNeg, "road")
        .symmetry(WfcTileSymmetry::Rotate2)
        .done();

    let ruleset = builder.build().expect("should build");
    let request = WfcRequest::new(WfcGridSize::new_2d(8, 8), ruleset, WfcSeed(7));
    let solution = solve(&request).expect("should solve");
    assert_eq!(solution.grid.tiles.len(), 64);
}

#[test]
fn socket_builder_hex_topology() {
    let mut builder = WfcSocketRulesetBuilder::new(WfcTopology::Hex2d);
    builder
        .add_tile(WfcTileId(0), weight(1.0), "Plains")
        .socket(WfcDirection::HexEast, "any")
        .socket(WfcDirection::HexWest, "any")
        .socket(WfcDirection::HexNorthEast, "any")
        .socket(WfcDirection::HexNorthWest, "any")
        .socket(WfcDirection::HexSouthEast, "any")
        .socket(WfcDirection::HexSouthWest, "any")
        .done();

    let ruleset = builder.build().expect("should build");
    let request = WfcRequest::new(WfcGridSize::new_2d(6, 6), ruleset, WfcSeed(99));
    let solution = solve(&request).expect("should solve");
    assert_eq!(solution.grid.tiles.len(), 36);
}

#[test]
fn learned_rules_produce_valid_output() {
    let grass = WfcTileId(0);
    let road = WfcTileId(1);

    let mut sample = WfcTileGrid::new_empty(WfcTopology::Cartesian2d, WfcGridSize::new_2d(6, 3));
    for x in 0..6u32 {
        sample.set_tile_at(UVec3::new(x, 0, 0), grass);
        sample.set_tile_at(UVec3::new(x, 1, 0), road);
        sample.set_tile_at(UVec3::new(x, 2, 0), grass);
    }

    let ruleset = learn_adjacency_rules(&sample);
    let request = WfcRequest::new(WfcGridSize::new_2d(10, 5), ruleset, WfcSeed(42));
    let solution = solve(&request).expect("learned rules should solve");
    assert_eq!(solution.grid.tiles.len(), 50);
}

#[test]
fn learned_rules_3d() {
    let air = WfcTileId(0);
    let stone = WfcTileId(1);

    let mut sample = WfcTileGrid::new_empty(WfcTopology::Cartesian3d, WfcGridSize::new_3d(3, 3, 3));
    for z in 0..3u32 {
        for y in 0..3u32 {
            for x in 0..3u32 {
                let tile = if z == 0 { stone } else { air };
                sample.set_tile_at(UVec3::new(x, y, z), tile);
            }
        }
    }

    let ruleset = learn_adjacency_rules(&sample);
    let request = WfcRequest::new(WfcGridSize::new_3d(4, 4, 4), ruleset, WfcSeed(7));
    let solution = solve(&request).expect("3D learned rules should solve");
    assert_eq!(solution.grid.tiles.len(), 64);
}

fn sample_patchwork() -> WfcTileGrid {
    let meadow = WfcTileId(0);
    let road = WfcTileId(1);
    let water = WfcTileId(2);
    let tiles = vec![
        meadow, road, road, meadow, //
        meadow, road, water, water, //
        meadow, meadow, water, meadow, //
        road, road, meadow, meadow,
    ];
    WfcTileGrid {
        topology: WfcTopology::Cartesian2d,
        size: WfcGridSize::new_2d(4, 4),
        rotations: vec![0; tiles.len()],
        tiles,
    }
}

#[test]
fn overlap_solver_learns_patterns_from_a_sample() {
    let mut request = WfcOverlapRequest::new(sample_patchwork(), WfcGridSize::new_2d(8, 8), WfcSeed(77));
    request.options = WfcOverlapOptions {
        pattern_width: 2,
        pattern_height: 2,
        periodic_input: true,
        periodic_output: true,
    };

    let solution = solve_overlap(&request).expect("overlap solve should succeed");
    assert_eq!(solution.grid.size, WfcGridSize::new_2d(8, 8));
    assert_eq!(solution.grid.tiles.len(), 64);
    assert!(solution.grid.tiles.iter().all(|tile| request.sample.tiles.contains(tile)));

    let again = solve_overlap(&request).expect("same seed should stay deterministic");
    assert_eq!(solution.signature, again.signature);
    assert_eq!(solution.grid.tiles, again.grid.tiles);
}

#[test]
fn overlap_solver_rejects_too_small_non_periodic_samples() {
    let mut request = WfcOverlapRequest::new(sample_patchwork(), WfcGridSize::new_2d(6, 6), WfcSeed(4));
    request.options = WfcOverlapOptions {
        pattern_width: 5,
        pattern_height: 2,
        periodic_input: false,
        periodic_output: false,
    };

    let failure = solve_overlap(&request).expect_err("undersized sample should fail");
    assert_eq!(failure.reason, WfcFailureReason::InvalidRequest);
    assert!(failure.message.contains("pattern window"));
}

#[test]
fn constraint_stage_keeps_every_solution() {
    let white = WfcTileId(0);
    let black = WfcTileId(1);
    let mut request = WfcRequest::new(WfcGridSize::new_2d(3, 3), alternating_rules_2d(), WfcSeed(8));
    request.fixed_cells.push(WfcFixedCell::new(UVec3::new(0, 0, 0), white));
    let mut solver = Solver::new(&request).expect("request should compile");
    solver.apply_input_constraints().expect("a checkerboard solves it");
    for cell in 0..solver.cell_count() {
        let (x, y) = (cell % 3, cell / 3);
        let expected = if (x + y) % 2 == 0 { 0 } else { 1 };
        assert_eq!(solver.candidates(cell), vec![expected]);
    }
    assert!(solver.all_collapsed());
    let solution = solver.finish_solution();
    assert_eq!(solution.grid.tiles[1], black);
    verify_solution(&request, &solution);
}

#[test]
fn the_backtrack_budget_is_a_hard_cap() {
    let mut request = forced_backtrack_rules();
    request.settings.max_backtracks = 0;
    let mut solver = Solver::new(&request).expect("request should compile");
    solver.apply_input_constraints().expect("the bounds are reachable");
    let result = solver.observe(0, vec![1, 0]);
    assert!(matches!(result, Err(SolveError::BacktrackLimitReached)));
    assert_eq!(solver.stats().backtrack_count, 1);

    let request = forced_backtrack_rules();
    let mut solver = Solver::new(&request).expect("request should compile");
    solver.apply_input_constraints().expect("the bounds are reachable");
    solver.observe(0, vec![1, 0]).expect("the second choice succeeds");
    assert_eq!(solver.stats().backtrack_count, 1);
    assert!(solver.stats().backtrack_count <= request.settings.max_backtracks);
    assert_eq!(solver.tile_at(0), Some(WfcTileId(1)));
}
