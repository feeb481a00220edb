use saddle_procgen_wfc::config::{WfcDirection, WfcGridSize, WfcSeed, WfcTileId, WfcTopology};
use saddle_procgen_wfc::debug::{WfcFailureReason, WfcSolution, WfcSolveStats, WfcTileGrid};
use saddle_procgen_wfc::overlap::{
    compile_patterns, finish_overlap, pattern_index, pattern_tile_id, patterns_overlap, prepare_overlap,
    validate_request, WfcOverlapOptions,
    WfcOverlapRequest,
};

fn stripes() -> WfcTileGrid {
    let tiles: Vec<WfcTileId> = (0..9u16).map(|i| WfcTileId(i % 3 / 2)).collect();
    WfcTileGrid { topology: WfcTopology::Cartesian2d, size: WfcGridSize::new_2d(3, 3), rotations: vec![0; 9], tiles }
}

fn options(width: u32, height: u32, periodic: bool) -> WfcOverlapOptions {
    WfcOverlapOptions { pattern_width: width, pattern_height: height, periodic_input: periodic, periodic_output: periodic }
}

#[test]
fn refusals_name_their_reason() {
    let mut request = WfcOverlapRequest::new(stripes(), WfcGridSize::new_2d(4, 4), WfcSeed(1));
    request.options = options(1, 2, true);
    let failure = validate_request(&request).expect_err("1-wide patterns are refused");
    assert_eq!(failure.reason, WfcFailureReason::InvalidRequest);
    assert_eq!(failure.message, "overlap patterns must be at least 2x2");

    request.options = options(2, 2, true);
    request.output_size = WfcGridSize::new_3d(4, 4, 2);
    let failure = validate_request(&request).expect_err("3D output is refused");
    assert_eq!(failure.message, "overlap solving requires 2D sample and output grids");

    request.output_size = WfcGridSize::new_2d(4, 4);
    request.sample.tiles.pop();
    let failure = validate_request(&request).expect_err("short buffers are refused");
    assert_eq!(failure.message, "sample tile and rotation buffers must match the declared sample size");
}

#[test]
fn patterns_are_counted_and_their_rules_are_mutual() {
    let mut request = WfcOverlapRequest::new(stripes(), WfcGridSize::new_2d(4, 4), WfcSeed(1));
    request.options = options(2, 2, true);
    validate_request(&request).expect("valid request");
    let model = compile_patterns(&request).expect("patterns exist");
    assert_eq!(model.ruleset.tiles.len(), model.patterns.len());
    assert_eq!(model.ruleset.adjacency.len(), 4 * model.patterns.len());
    let total: f32 = model.ruleset.tiles.iter().map(|t| f32::from_bits(t.weight.0)).sum();
    assert_eq!(total, 9.0);
    for rule in &model.ruleset.adjacency {
        for other in &rule.allowed_tiles {
            let back = model
                .ruleset
                .adjacency
                .iter()
                .find(|r| r.tile == *other && r.direction == rule.direction.opposite())
                .expect("rule should exist");
            assert!(back.allowed_tiles.contains(&rule.tile));
        }
    }
    for pattern in &model.patterns {
        assert!(request.sample.tiles.contains(&pattern.anchor.tile));
    }
}

#[test]
fn pattern_ids_round_trip() {
    assert_eq!(pattern_tile_id(7), WfcTileId(7));
    assert_eq!(pattern_index(WfcTileId(7), 0), Some(7));
    assert_eq!(pattern_index(WfcTileId(7), 1), None);
}

#[test]
fn window_overlap_is_mutual() {
    let a = (WfcTileId(0), 0u8);
    let b = (WfcTileId(1), 0u8);
    let left = vec![a, b, a, b];
    let right = vec![b, a, b, a];
    assert!(patterns_overlap(&left, &right, 2, 2, WfcDirection::XPos));
    assert!(patterns_overlap(&right, &left, 2, 2, WfcDirection::XNeg));
    assert!(!patterns_overlap(&left, &left, 2, 2, WfcDirection::XPos));
    assert!(!patterns_overlap(&left, &left, 2, 2, WfcDirection::XNeg));
    assert!(patterns_overlap(&left, &left, 2, 2, WfcDirection::YPos));
    assert!(patterns_overlap(&left, &left, 2, 2, WfcDirection::YNeg));
    assert!(!patterns_overlap(&left, &right, 2, 2, WfcDirection::YPos));
    assert!(!patterns_overlap(&left, &left, 2, 2, WfcDirection::ZPos));
}

#[test]
fn unknown_solved_variants_are_named() {
    let mut request = WfcOverlapRequest::new(stripes(), WfcGridSize::new_2d(2, 1), WfcSeed(1));
    request.options = options(2, 2, true);
    let (_, patterns) = prepare_overlap(&request).expect("stripes compile");
    let solution = |tiles: Vec<WfcTileId>, rotations: Vec<u8>| WfcSolution {
        seed: WfcSeed(1),
        grid: WfcTileGrid { topology: WfcTopology::Cartesian2d, size: WfcGridSize::new_2d(2, 1), tiles, rotations },
        stats: WfcSolveStats::default(),
        debug: None,
        signature: 0,
    };
    let turned = finish_overlap(&request, &patterns, &solution(vec![WfcTileId(0), WfcTileId(0)], vec![0, 1]));
    assert_eq!(turned.unwrap_err().message, "overlap solver emitted an unknown pattern variant WfcTileId(0)/1");
    let past = finish_overlap(&request, &patterns, &solution(vec![WfcTileId(900), WfcTileId(0)], vec![0, 0]));
    assert_eq!(past.unwrap_err().message, "overlap solver emitted a pattern index 900 outside the compiled set");
}
