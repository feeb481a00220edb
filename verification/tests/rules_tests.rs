use saddle_procgen_wfc::config::{
    WfcDirection, WfcRuleset, WfcTileDefinition, WfcTileId, WfcTileSymmetry, WfcTopology, WfcWeight,
};
use saddle_procgen_wfc::rules::CompiledRuleset;

fn weight(value: f32) -> WfcWeight {
    WfcWeight(value.to_bits())
}

fn autorotation_rules_2d() -> WfcRuleset {
    let meadow = WfcTileId(0);
    let straight = WfcTileId(1);
    let corner = WfcTileId(2);
    let all = vec![meadow, straight, corner];
    WfcRuleset::new(
        WfcTopology::Cartesian2d,
        vec![
            WfcTileDefinition::new(meadow, weight(3.0), "Meadow"),
            WfcTileDefinition::new(straight, weight(1.0), "Straight").with_symmetry(WfcTileSymmetry::Rotate2),
            WfcTileDefinition::new(corner, weight(1.0), "Corner").with_symmetry(WfcTileSymmetry::Rotate4),
        ],
    )
    .with_rule(meadow, WfcDirection::XPos, all.clone())
    .with_rule(meadow, WfcDirection::XNeg, all.clone())
    .with_rule(meadow, WfcDirection::YPos, all.clone())
    .with_rule(meadow, WfcDirection::YNeg, all.clone())
    .with_rule(straight, WfcDirection::XPos, vec![meadow])
    .with_rule(straight, WfcDirection::XNeg, vec![meadow])
    .with_rule(straight, WfcDirection::YPos, all.clone())
    .with_rule(straight, WfcDirection::YNeg, all.clone())
    .with_rule(corner, WfcDirection::XPos, all.clone())
    .with_rule(corner, WfcDirection::XNeg, vec![meadow])
    .with_rule(corner, WfcDirection::YPos, all)
    .with_rule(corner, WfcDirection::YNeg, vec![meadow])
}

fn variant_weight(compiled: &CompiledRuleset, index: usize) -> f32 {
    let w = compiled.weight(index);
    f32::from_bits(w.family_weight.0) / w.share as f32
}

#[test]
fn compiler_rotates_tile_families_and_preserves_unique_weights() {
    let meadow = WfcTileId(0);
    let straight = WfcTileId(1);
    let ruleset = autorotation_rules_2d();
    let compiled = CompiledRuleset::compile(&ruleset).expect("autorotation rules should compile");

    assert_eq!(compiled.tile_count(), 7);

    let straight_vertical = compiled.variant_index(straight, 0).expect("vertical straight should exist");
    let straight_horizontal = compiled.variant_index(straight, 1).expect("horizontal straight should exist");
    let meadow_variant = compiled.variant_index(meadow, 0).expect("meadow should exist");

    assert_eq!(compiled.tile_rotation(straight_vertical), 0);
    assert_eq!(compiled.tile_rotation(straight_horizontal), 1);
    assert!((variant_weight(&compiled, straight_vertical) - 0.5).abs() <= f32::EPSILON);

    assert!(compiled.allowed_mask(WfcDirection::XPos, straight_vertical).contains(meadow_variant));
    assert!(!compiled.allowed_mask(WfcDirection::XPos, straight_vertical).contains(straight_horizontal));
    assert!(compiled.allowed_mask(WfcDirection::XPos, straight_horizontal).contains(straight_horizontal));
    assert!(!compiled.allowed_mask(WfcDirection::XPos, straight_horizontal).contains(straight_vertical));
    let corner_horizontal = compiled.variant_index(WfcTileId(2), 1).expect("rotated corner should exist");
    assert!(compiled.allowed_mask(WfcDirection::XPos, straight_horizontal).contains(corner_horizontal));
}

#[test]
fn variant_lookup_and_masks() {
    let compiled = CompiledRuleset::compile(&autorotation_rules_2d()).expect("rules should compile");
    assert_eq!(compiled.variant_index(WfcTileId(0), 1), Some(0));
    assert_eq!(compiled.variant_index(WfcTileId(1), 3), Some(2));
    assert_eq!(compiled.variant_index(WfcTileId(7), 0), None);
    let corner_last = compiled.variant_index(WfcTileId(2), 3).expect("corner rotation 3");
    assert_eq!(compiled.tile_id(corner_last), WfcTileId(2));
    assert_eq!(compiled.tile_variant(corner_last).rotation_steps, 3);
    assert_eq!(compiled.full_domain().count(), 7);

    let mask = compiled.mask_for_tiles(&vec![WfcTileId(1)]).expect("known tile");
    assert_eq!(mask.to_indices(), vec![1, 2]);
    assert!(compiled.mask_for_tiles(&vec![WfcTileId(9)]).is_err());
}

#[test]
fn invalid_rulesets_are_refused() {
    let empty = WfcRuleset::new(WfcTopology::Cartesian2d, Vec::new());
    assert!(CompiledRuleset::compile(&empty).is_err());

    let duplicate = WfcRuleset::new(
        WfcTopology::Cartesian2d,
        vec![
            WfcTileDefinition::new(WfcTileId(0), weight(1.0), "A"),
            WfcTileDefinition::new(WfcTileId(0), weight(1.0), "B"),
        ],
    );
    assert!(CompiledRuleset::compile(&duplicate).is_err());

    let zero_weight = WfcRuleset::new(
        WfcTopology::Cartesian2d,
        vec![WfcTileDefinition::new(WfcTileId(0), weight(0.0), "A")],
    );
    assert!(CompiledRuleset::compile(&zero_weight).is_err());

    let unknown_neighbor = WfcRuleset::new(
        WfcTopology::Cartesian2d,
        vec![WfcTileDefinition::new(WfcTileId(0), weight(1.0), "A")],
    )
    .with_rule(WfcTileId(0), WfcDirection::XPos, vec![WfcTileId(5)]);
    assert!(CompiledRuleset::compile(&unknown_neighbor).is_err());
}

#[test]
fn missing_directions_are_refused() {
    let ruleset = WfcRuleset::new(
        WfcTopology::Cartesian2d,
        vec![WfcTileDefinition::new(WfcTileId(0), weight(1.0), "A")],
    )
    .with_rule(WfcTileId(0), WfcDirection::XPos, vec![WfcTileId(0)]);
    assert!(CompiledRuleset::compile(&ruleset).is_err());

    let complete = ruleset
        .with_rule(WfcTileId(0), WfcDirection::XNeg, vec![WfcTileId(0)])
        .with_rule(WfcTileId(0), WfcDirection::YPos, vec![WfcTileId(0)])
        .with_rule(WfcTileId(0), WfcDirection::YNeg, vec![WfcTileId(0)]);
    let compiled = CompiledRuleset::compile(&complete).expect("rules should compile");
    assert!(compiled.allowed_mask(WfcDirection::XNeg, 0).contains(0));
}

fn refused_with(ruleset: &WfcRuleset) -> String {
    match CompiledRuleset::compile(ruleset) {
        Ok(_) => panic!("the ruleset must be refused"),
        Err(message) => message,
    }
}

fn single_tile(topology: WfcTopology, symmetry: WfcTileSymmetry) -> WfcRuleset {
    WfcRuleset::new(
        topology,
        vec![WfcTileDefinition::new(WfcTileId(0), weight(1.0), "A").with_symmetry(symmetry)],
    )
}

#[test]
fn compile_errors_name_the_first_problem() {
    let empty = WfcRuleset::new(WfcTopology::Cartesian2d, Vec::new());
    assert_eq!(refused_with(&empty), "ruleset must contain at least one tile");

    let zero_weight = WfcRuleset::new(
        WfcTopology::Cartesian2d,
        vec![WfcTileDefinition::new(WfcTileId(3), weight(0.0), "A")],
    );
    assert_eq!(refused_with(&zero_weight), "tile WfcTileId(3) must have a finite positive weight");

    let duplicate = WfcRuleset::new(
        WfcTopology::Cartesian2d,
        vec![
            WfcTileDefinition::new(WfcTileId(12), weight(1.0), "A"),
            WfcTileDefinition::new(WfcTileId(12), weight(1.0), "B"),
        ],
    );
    assert_eq!(refused_with(&duplicate), "duplicate tile id WfcTileId(12)");

    let rotated_3d = single_tile(WfcTopology::Cartesian3d, WfcTileSymmetry::Rotate4);
    assert_eq!(
        refused_with(&rotated_3d),
        "tile WfcTileId(0) uses Rotate4, but automatic rotation currently supports only Cartesian2d"
    );

    let bad_direction = single_tile(WfcTopology::Cartesian2d, WfcTileSymmetry::Fixed)
        .with_rule(WfcTileId(0), WfcDirection::ZPos, vec![WfcTileId(0)]);
    assert_eq!(refused_with(&bad_direction), "direction ZPos is invalid for topology Cartesian2d");

    let unknown_tile = single_tile(WfcTopology::Cartesian2d, WfcTileSymmetry::Fixed)
        .with_rule(WfcTileId(4), WfcDirection::XPos, vec![WfcTileId(0)]);
    assert_eq!(refused_with(&unknown_tile), "adjacency rule references unknown tile WfcTileId(4)");

    let unknown_allowed = single_tile(WfcTopology::Cartesian2d, WfcTileSymmetry::Fixed)
        .with_rule(WfcTileId(0), WfcDirection::XPos, vec![WfcTileId(0), WfcTileId(5)]);
    assert_eq!(
        refused_with(&unknown_allowed),
        "adjacency rule references unknown allowed tile WfcTileId(5)"
    );

    let missing = single_tile(WfcTopology::Cartesian2d, WfcTileSymmetry::Fixed)
        .with_rule(WfcTileId(0), WfcDirection::XPos, vec![WfcTileId(0)]);
    assert_eq!(refused_with(&missing), "missing adjacency rule for tile WfcTileId(0) in direction XNeg");

    let no_neighbors = single_tile(WfcTopology::Cartesian2d, WfcTileSymmetry::Fixed)
        .with_rule(WfcTileId(0), WfcDirection::XPos, vec![WfcTileId(0)])
        .with_rule(WfcTileId(0), WfcDirection::XNeg, Vec::new())
        .with_rule(WfcTileId(0), WfcDirection::YPos, vec![WfcTileId(0)])
        .with_rule(WfcTileId(0), WfcDirection::YNeg, vec![WfcTileId(0)]);
    assert_eq!(refused_with(&no_neighbors), "tile WfcTileId(0) has no valid neighbors in direction XNeg");
}

#[test]
fn unknown_tiles_in_a_mask_are_named() {
    let compiled = CompiledRuleset::compile(&autorotation_rules_2d()).expect("rules should compile");
    assert_eq!(
        compiled.mask_for_tiles(&vec![WfcTileId(0), WfcTileId(9)]).unwrap_err(),
        "unknown tile id WfcTileId(9)"
    );
}
