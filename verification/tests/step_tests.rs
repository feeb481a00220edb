use saddle_procgen_wfc::config::{WfcBorder, WfcBorderConstraint, WfcDirection, WfcGridSize, WfcRequest, WfcRuleset, WfcSeed, WfcTileDefinition, WfcTileId, WfcTopology, WfcWeight};
use saddle_procgen_wfc::debug::WfcFailureReason;
use saddle_procgen_wfc::step::{StepStart, WfcStepSolver};

fn open_rules() -> WfcRuleset {
    let a = WfcTileId(0);
    let b = WfcTileId(1);
    let mut ruleset = WfcRuleset::new(
        WfcTopology::Cartesian2d,
        vec![
            WfcTileDefinition::new(a, WfcWeight(1.0f32.to_bits()), "A"),
            WfcTileDefinition::new(b, WfcWeight(1.0f32.to_bits()), "B"),
        ],
    );
    for tile in [a, b] {
        for direction in [WfcDirection::XPos, WfcDirection::XNeg, WfcDirection::YPos, WfcDirection::YNeg] {
            ruleset.add_rule(tile, direction, vec![a, b]);
        }
    }
    ruleset
}

#[test]
fn stepping_collapses_one_cell_per_observation() {
    let request = WfcRequest::new(WfcGridSize::new_2d(3, 2), open_rules(), WfcSeed(1));
    let mut stepper = WfcStepSolver::new(&request).expect("request should compile");
    let mut steps = 0;
    loop {
        match stepper.begin_step() {
            StepStart::Failed(failure) => panic!("unexpected failure {:?}", failure.reason),
            StepStart::Finished(snapshot) => {
                assert!(snapshot.finished);
                assert!(snapshot.cells.iter().all(|cell| cell.possible_count == 1));
                break;
            }
            StepStart::Observe => {
                let solver = stepper.solver();
                let cell = (0..solver.cell_count()).find(|c| solver.possible_count(*c) > 1);
                let choices = match cell {
                    Some(c) => solver.candidates(c),
                    None => Vec::new(),
                };
                let snapshot = stepper.end_step(cell, choices).expect("open rules never fail");
                steps += 1;
                assert_eq!(snapshot.observation_count, steps);
                assert!(snapshot.last_observed_position.is_some());
            }
        }
    }
    assert_eq!(steps, 6);
    for index in 0..6 {
        assert!(stepper.tile_at(index).is_some());
    }
    let solution = stepper.finish().expect("finished solve");
    assert_eq!(solution.grid.tiles.len(), 6);
}

#[test]
fn conflicting_constraints_fail_on_the_first_step() {
    let mut request = WfcRequest::new(WfcGridSize::new_2d(1, 1), open_rules(), WfcSeed(1));
    request.border_constraints = vec![
        WfcBorderConstraint::new(WfcBorder::MinX, vec![WfcTileId(0)]),
        WfcBorderConstraint::new(WfcBorder::MaxX, vec![WfcTileId(1)]),
    ];
    let mut stepper = WfcStepSolver::new(&request).expect("request should compile");
    match stepper.begin_step() {
        StepStart::Failed(failure) => assert_eq!(failure.reason, WfcFailureReason::Contradiction),
        _ => panic!("conflicting borders must fail"),
    }
    assert!(!stepper.is_usable());
}

#[test]
fn an_observation_takes_the_last_choice() {
    let request = WfcRequest::new(WfcGridSize::new_2d(2, 1), open_rules(), WfcSeed(1));
    let mut stepper = WfcStepSolver::new(&request).expect("request should compile");
    match stepper.begin_step() {
        StepStart::Observe => {},
        _ => panic!("an open grid needs observations"),
    }
    let snapshot = stepper.end_step(Some(1), vec![0, 1]).expect("open rules never fail");
    assert!(!snapshot.failed);
    assert_eq!(stepper.solver().stats().backtrack_count, 0);
    assert_eq!(stepper.tile_at(1), Some(WfcTileId(1)));
    assert_eq!(stepper.tile_at(0), None);
}

#[test]
fn an_input_contradiction_is_recorded() {
    let mut request = WfcRequest::new(WfcGridSize::new_2d(1, 1), open_rules(), WfcSeed(3));
    request.border_constraints = vec![
        WfcBorderConstraint::new(WfcBorder::MinX, vec![WfcTileId(0)]),
        WfcBorderConstraint::new(WfcBorder::MaxX, vec![WfcTileId(1)]),
    ];
    let mut stepper = WfcStepSolver::new(&request).expect("request should compile");
    match stepper.begin_step() {
        StepStart::Failed(failure) => {
            assert_eq!(failure.reason, WfcFailureReason::Contradiction);
            assert_eq!(failure.seed, WfcSeed(3));
            let record = failure.contradiction.expect("the empty cell is recorded");
            assert!(record.remaining_candidates.is_empty());
        }
        _ => panic!("conflicting borders must fail"),
    }
}

#[test]
fn a_step_without_a_cell_reports_whether_the_grid_is_decided() {
    let request = WfcRequest::new(WfcGridSize::new_2d(2, 1), open_rules(), WfcSeed(1));
    let mut stepper = WfcStepSolver::new(&request).expect("request should compile");
    match stepper.begin_step() {
        StepStart::Observe => {},
        _ => panic!("an open grid needs observations"),
    }
    let snapshot = stepper.end_step(None, Vec::new()).expect("no observation cannot fail");
    assert!(!snapshot.finished);
    assert_eq!(snapshot.observation_count, 0);
}

#[test]
fn snapshots_agree_with_tile_at_and_a_finished_solve_stays_finished() {
    let request = WfcRequest::new(WfcGridSize::new_2d(3, 1), open_rules(), WfcSeed(1));
    let mut stepper = WfcStepSolver::new(&request).expect("request should compile");
    let finished = loop {
        match stepper.begin_step() {
            StepStart::Failed(failure) => panic!("unexpected failure {:?}", failure.reason),
            StepStart::Finished(snapshot) => break snapshot,
            StepStart::Observe => {
                let solver = stepper.solver();
                let cell = (0..solver.cell_count()).find(|c| solver.possible_count(*c) > 1);
                let choices = match cell {
                    Some(c) => solver.candidates(c),
                    None => Vec::new(),
                };
                let snapshot = stepper.end_step(cell, choices).expect("open rules never fail");
                for index in 0..4 {
                    let shown = snapshot.cells.get(index).and_then(|c| c.collapsed).map(|v| v.tile);
                    assert_eq!(stepper.tile_at(index), shown);
                }
            }
        }
    };
    match stepper.begin_step() {
        StepStart::Finished(again) => {
            assert!(again.finished);
            assert_eq!(again.observation_count, finished.observation_count);
            assert_eq!(again.cells.len(), finished.cells.len());
            for (a, b) in again.cells.iter().zip(finished.cells.iter()) {
                assert_eq!(a.possible_count, b.possible_count);
                assert_eq!(a.collapsed.map(|v| (v.tile, v.rotation_steps)), b.collapsed.map(|v| (v.tile, v.rotation_steps)));
            }
        }
        _ => panic!("a finished solve stays finished"),
    }
}

#[test]
fn a_valid_solvable_request_does_not_fail_its_first_step() {
    let request = WfcRequest::new(WfcGridSize::new_2d(2, 2), open_rules(), WfcSeed(9));
    let mut stepper = WfcStepSolver::new(&request).expect("request should compile");
    match stepper.begin_step() {
        StepStart::Failed(failure) => panic!("unexpected failure {:?}", failure.reason),
        _ => {}
    }
    assert!(stepper.is_usable());
    match stepper.end_step(Some(0), Vec::new()) {
        Err(failure) => assert_eq!(failure.reason, WfcFailureReason::Contradiction),
        Ok(_) => panic!("an empty choice list is a contradiction"),
    }
}
