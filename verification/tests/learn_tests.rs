use saddle_procgen_wfc::config::{WfcDirection, WfcGridSize, WfcTileId, WfcTopology};
use saddle_procgen_wfc::debug::WfcTileGrid;
use saddle_procgen_wfc::geometry::UVec3;
use saddle_procgen_wfc::learn::learn_adjacency_rules;

#[test]
fn learns_rules_from_checkerboard() {
    let white = WfcTileId(0);
    let black = WfcTileId(1);

    let mut sample = WfcTileGrid::new_empty(WfcTopology::Cartesian2d, WfcGridSize::new_2d(4, 4));
    for y in 0..4u32 {
        for x in 0..4u32 {
            let tile = if (x + y) % 2 == 0 { white } else { black };
            sample.set_tile_at(UVec3::new(x, y, 0), tile);
        }
    }

    let ruleset = learn_adjacency_rules(&sample);
    assert_eq!(ruleset.tiles.len(), 2);

    for rule in &ruleset.adjacency {
        if rule.tile == white {
            assert!(rule.allowed_tiles.contains(&black), "white should allow black in {:?}", rule.direction);
            assert!(!rule.allowed_tiles.contains(&white), "white should not allow white in {:?}", rule.direction);
        }
    }
}

#[test]
fn learned_weights_and_labels_follow_the_counts() {
    let mut sample = WfcTileGrid::new_empty(WfcTopology::Cartesian2d, WfcGridSize::new_2d(3, 1));
    sample.set_tile_at(UVec3::new(0, 0, 0), WfcTileId(4));
    sample.set_tile_at(UVec3::new(1, 0, 0), WfcTileId(2));
    sample.set_tile_at(UVec3::new(2, 0, 0), WfcTileId(4));

    let ruleset = learn_adjacency_rules(&sample);
    assert_eq!(ruleset.tiles.len(), 2);
    assert_eq!(ruleset.tiles[0].id, WfcTileId(2));
    assert_eq!(ruleset.tiles[0].label, "Tile 2");
    assert_eq!(f32::from_bits(ruleset.tiles[0].weight.0), 1.0);
    assert_eq!(ruleset.tiles[1].id, WfcTileId(4));
    assert_eq!(ruleset.tiles[1].label, "Tile 4");
    assert_eq!(f32::from_bits(ruleset.tiles[1].weight.0), 2.0);
    assert_eq!(ruleset.adjacency.len(), 8);

    let rule = ruleset
        .adjacency
        .iter()
        .find(|r| r.tile == WfcTileId(4) && r.direction == WfcDirection::XPos)
        .expect("rule should exist");
    assert_eq!(rule.allowed_tiles, vec![WfcTileId(2)]);
    let vertical = ruleset
        .adjacency
        .iter()
        .find(|r| r.tile == WfcTileId(2) && r.direction == WfcDirection::YPos)
        .expect("rule should exist");
    assert_eq!(vertical.allowed_tiles, vec![WfcTileId(2), WfcTileId(4)]);
}

#[test]
fn samples_obey_their_learned_rules() {
    let size = WfcGridSize::new_2d(4, 3);
    let mut sample = WfcTileGrid::new_empty(WfcTopology::Cartesian2d, size);
    let layout = [0u16, 1, 1, 2, 0, 0, 1, 2, 3, 0, 0, 2];
    for (index, id) in layout.iter().enumerate() {
        let index = index as u32;
        sample.set_tile_at(UVec3::new(index % 4, index / 4, 0), WfcTileId(*id));
    }
    let ruleset = learn_adjacency_rules(&sample);
    for y in 0..3i32 {
        for x in 0..4i32 {
            let tile = sample.tile_at(UVec3::new(x as u32, y as u32, 0)).expect("cell");
            for direction in [WfcDirection::XPos, WfcDirection::XNeg, WfcDirection::YPos, WfcDirection::YNeg] {
                let offset = direction.offset();
                let (nx, ny) = (x + offset.x, y + offset.y);
                if nx < 0 || ny < 0 || nx >= 4 || ny >= 3 {
                    continue;
                }
                let neighbour = sample.tile_at(UVec3::new(nx as u32, ny as u32, 0)).expect("cell");
                let rule = ruleset
                    .adjacency
                    .iter()
                    .find(|r| r.tile == tile && r.direction == direction)
                    .expect("rule should exist");
                assert!(rule.allowed_tiles.contains(&neighbour));
            }
        }
    }
}
