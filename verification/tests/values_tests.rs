use saddle_procgen_wfc::config::{
    WfcDirection, WfcGridSize, WfcRequest, WfcRuleset, WfcSeed, WfcTileDefinition, WfcTileId, WfcTileSymmetry,
    WfcTopology, WfcWeight,
};
use saddle_procgen_wfc::debug::{WfcTileGrid, WfcTileVariant};
use saddle_procgen_wfc::geometry::{IVec2, IVec3, UVec3};
use saddle_procgen_wfc::text::{decimal_text, join3, signed_text, with_number};
use saddle_procgen_wfc::weights::count_weight;

#[test]
fn count_weights_are_the_nearest_floats() {
    assert_eq!(count_weight(0), WfcWeight(0));
    assert_eq!(count_weight(1), WfcWeight(1.0f32.to_bits()));
    assert_eq!(count_weight(7), WfcWeight(7.0f32.to_bits()));
    assert_eq!(count_weight(16_777_217), WfcWeight((16_777_217u32 as f32).to_bits()));
    assert_eq!(count_weight(16_777_219), WfcWeight((16_777_219u32 as f32).to_bits()));
    assert_eq!(count_weight(u32::MAX), WfcWeight((u32::MAX as f32).to_bits()));
    assert!(count_weight(5).is_valid());
    assert!(!WfcWeight(0).is_valid());
    assert!(!WfcWeight(f32::INFINITY.to_bits()).is_valid());
    assert!(!WfcWeight((-1.0f32).to_bits()).is_valid());
}

#[test]
fn text_helpers() {
    assert_eq!(decimal_text(0), "0");
    assert_eq!(decimal_text(18_446_744_073_709_551_615), "18446744073709551615");
    assert_eq!(with_number("Tile ", 12, "!"), "Tile 12!");
    assert_eq!(join3("a", "bc", ""), "abc");
    assert_eq!(signed_text(-42), "-42");
    assert_eq!(signed_text(i32::MIN), "-2147483648");
    assert_eq!(signed_text(7), "7");
    assert_eq!(UVec3::new(1, 2, 3).debug_text(), "UVec3(1, 2, 3)");
    assert_eq!(IVec2::new(-1, 2).debug_text(), "IVec2(-1, 2)");
    assert_eq!(WfcTileId(3).debug_text(), "WfcTileId(3)");
}

#[test]
fn chunk_seeds_mix_the_coordinates() {
    assert_eq!(WfcSeed(42).for_chunk(IVec3::new(1, -2, 3)), WfcSeed(1_922_188_694_121_743_871));
    assert_eq!(WfcSeed(0).for_chunk(IVec3::new(0, 0, 0)), WfcSeed(0));
    assert_ne!(WfcSeed(42).for_chunk(IVec3::new(1, 0, 0)), WfcSeed(42).for_chunk(IVec3::new(0, 1, 0)));
}

#[test]
fn directions_per_topology() {
    assert_eq!(WfcDirection::active(WfcTopology::Cartesian2d).len(), 4);
    assert_eq!(WfcDirection::active(WfcTopology::Cartesian3d).len(), 6);
    assert_eq!(WfcDirection::active(WfcTopology::Hex2d).len(), 6);
    for topology in [WfcTopology::Cartesian2d, WfcTopology::Cartesian3d, WfcTopology::Hex2d] {
        for direction in WfcDirection::active(topology) {
            assert_eq!(direction.opposite().opposite(), direction);
            assert_ne!(direction.opposite(), direction);
        }
    }
    assert_eq!(WfcDirection::XPos.offset(), IVec3::new(1, 0, 0));
    assert_eq!(WfcDirection::ZNeg.offset(), IVec3::new(0, 0, -1));
    assert_eq!(WfcDirection::HexNorthEast.symbol(), "HexNE");
    assert_eq!(WfcDirection::YNeg.symbol(), "-Y");
}

#[test]
fn rotations_turn_the_plane() {
    assert_eq!(WfcDirection::XPos.rotated_clockwise(), WfcDirection::YNeg);
    assert_eq!(WfcDirection::ZPos.rotated_clockwise(), WfcDirection::ZPos);
    let mut d = WfcDirection::YPos;
    for _ in 0..4 {
        d = d.rotated_clockwise();
    }
    assert_eq!(d, WfcDirection::YPos);
    assert_eq!(WfcDirection::YNeg.inverse_rotated(1, WfcTopology::Cartesian2d), WfcDirection::XPos);
    assert_eq!(WfcDirection::YNeg.inverse_rotated(1, WfcTopology::Cartesian3d), WfcDirection::YNeg);
    assert_eq!(WfcTileSymmetry::Rotate4.unique_rotations(WfcTopology::Cartesian2d), 4);
    assert_eq!(WfcTileSymmetry::Rotate4.unique_rotations(WfcTopology::Hex2d), 1);
}

#[test]
fn grid_sizes_and_rules() {
    assert_eq!(WfcGridSize::new_3d(2, 3, 4).total_cells(), 24);
    assert_eq!(WfcGridSize::new_2d(5, 6).depth, 1);
    assert_eq!(WfcGridSize::default(), WfcGridSize::new_2d(8, 8));

    let ruleset = WfcRuleset::new(
        WfcTopology::Cartesian2d,
        vec![
            WfcTileDefinition::new(WfcTileId(0), WfcWeight(1.0f32.to_bits()), "A"),
            WfcTileDefinition::new(WfcTileId(1), WfcWeight(1.0f32.to_bits()), "B"),
        ],
    )
    .with_symmetric_rule(WfcTileId(0), WfcDirection::XPos, WfcTileId(1))
    .with_all_direction_rules(WfcTileId(1), vec![WfcTileId(1)]);
    assert_eq!(ruleset.adjacency.len(), 6);
    assert_eq!(ruleset.adjacency[0].tile, WfcTileId(0));
    assert_eq!(ruleset.adjacency[0].direction, WfcDirection::XPos);
    assert_eq!(ruleset.adjacency[1].tile, WfcTileId(1));
    assert_eq!(ruleset.adjacency[1].direction, WfcDirection::XNeg);
    assert_eq!(ruleset.adjacency[1].allowed_tiles, vec![WfcTileId(0)]);

    let request = WfcRequest::new(WfcGridSize::new_2d(2, 2), ruleset, WfcSeed(3));
    assert!(request.fixed_cells.is_empty());
    assert_eq!(request.settings.max_backtracks, 256);
}

#[test]
fn tile_grids_read_and_write_cells() {
    let mut grid = WfcTileGrid::new_empty(WfcTopology::Cartesian2d, WfcGridSize::new_2d(2, 2));
    assert_eq!(grid.tiles.len(), 4);
    grid.set_tile_at(UVec3::new(1, 0, 0), WfcTileId(3));
    grid.set_variant_at(UVec3::new(0, 1, 0), WfcTileVariant::new(WfcTileId(4), 1));
    grid.set_tile_at(UVec3::new(5, 5, 0), WfcTileId(9));
    assert_eq!(grid.tile_at(UVec3::new(1, 0, 0)), Some(WfcTileId(3)));
    assert_eq!(grid.rotation_at(UVec3::new(0, 1, 0)), Some(1));
    assert_eq!(grid.variant_at(UVec3::new(0, 1, 0)), Some(WfcTileVariant::new(WfcTileId(4), 1)));
    assert_eq!(grid.tile_at(UVec3::new(2, 0, 0)), None);
    assert_eq!(grid.iter().len(), 4);
    assert_eq!(grid.iter()[1], (UVec3::new(1, 0, 0), WfcTileId(3)));
    assert_eq!(grid.iter_variants()[2].1, WfcTileVariant::new(WfcTileId(4), 1));
    assert_eq!((grid.width(), grid.height(), grid.depth()), (2, 2, 1));
}

#[test]
fn signatures_are_fnv_hashes() {
    let grid = WfcTileGrid {
        topology: WfcTopology::Cartesian2d,
        size: WfcGridSize::new_2d(2, 1),
        tiles: vec![WfcTileId(3), WfcTileId(4)],
        rotations: vec![0, 1],
    };
    assert_eq!(grid.signature(), 14_668_295_580_605_086_673);
}
