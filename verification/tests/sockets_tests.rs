use saddle_procgen_wfc::config::{WfcDirection, WfcTileId, WfcTileSymmetry, WfcTopology, WfcWeight};
use saddle_procgen_wfc::sockets::{WfcSocketId, WfcSocketRulesetBuilder};

fn weight(value: f32) -> WfcWeight {
    WfcWeight(value.to_bits())
}

#[test]
fn socket_builder_produces_valid_ruleset() {
    let mut builder = WfcSocketRulesetBuilder::new(WfcTopology::Cartesian2d);
    builder.add_tile(WfcTileId(0), weight(3.0), "Grass").all_sockets("grass").done();
    builder
        .add_tile(WfcTileId(1), weight(1.0), "Road")
        .socket(WfcDirection::XPos, "road")
        .socket(WfcDirection::XNeg, "road")
        .socket(WfcDirection::YPos, "grass")
        .socket(WfcDirection::YNeg, "grass")
        .done();
    let ruleset = builder.build().expect("should build");

    assert_eq!(ruleset.tiles.len(), 2);
    assert_eq!(ruleset.adjacency.len(), 8);
}

#[test]
fn asymmetric_sockets_enforce_directionality() {
    let mut builder =
        WfcSocketRulesetBuilder::new(WfcTopology::Cartesian2d).add_asymmetric_pair("pipe_in", "pipe_out");
    builder.add_tile(WfcTileId(0), weight(3.0), "Ground").all_sockets("g").done();
    builder
        .add_tile(WfcTileId(1), weight(1.0), "PipeSource")
        .socket(WfcDirection::XPos, "pipe_out")
        .socket(WfcDirection::XNeg, "g")
        .socket(WfcDirection::YPos, "g")
        .socket(WfcDirection::YNeg, "g")
        .done();
    builder
        .add_tile(WfcTileId(2), weight(1.0), "PipeSink")
        .socket(WfcDirection::XPos, "g")
        .socket(WfcDirection::XNeg, "pipe_in")
        .socket(WfcDirection::YPos, "g")
        .socket(WfcDirection::YNeg, "g")
        .done();

    let ruleset = builder.build().expect("should build");

    let source_xpos = ruleset
        .adjacency
        .iter()
        .find(|r| r.tile == WfcTileId(1) && r.direction == WfcDirection::XPos)
        .expect("rule should exist");
    assert!(source_xpos.allowed_tiles.contains(&WfcTileId(2)));
    assert!(!source_xpos.allowed_tiles.contains(&WfcTileId(1)));
}

#[test]
fn missing_socket_produces_error() {
    let mut builder = WfcSocketRulesetBuilder::new(WfcTopology::Cartesian2d);
    builder
        .add_tile(WfcTileId(0), weight(1.0), "Incomplete")
        .socket(WfcDirection::XPos, "a")
        .socket(WfcDirection::XNeg, "a")
        .done();
    let result = builder.build();
    assert!(result.is_err());
    assert!(result.unwrap_err().contains("missing a socket"));
}

#[test]
fn empty_builder_is_refused() {
    let builder = WfcSocketRulesetBuilder::new(WfcTopology::Cartesian2d);
    assert!(builder.build().is_err());
}

#[test]
fn socket_names_are_interned_once() {
    let mut builder = WfcSocketRulesetBuilder::new(WfcTopology::Cartesian2d);
    let a = builder.socket_id("a");
    let b = builder.socket_id("b");
    let again = builder.socket_id("a");
    assert_eq!(a, again);
    assert_ne!(a, b);
    assert_eq!(a, WfcSocketId(0));
    assert_eq!(b, WfcSocketId(1));
    assert_eq!(b.display_text(), "Socket(1)");
}

#[test]
fn symmetric_sockets_only_match_themselves() {
    let mut builder = WfcSocketRulesetBuilder::new(WfcTopology::Cartesian2d);
    builder.add_tile(WfcTileId(0), weight(1.0), "Left").all_sockets("x").done();
    builder.add_tile(WfcTileId(1), weight(1.0), "Right").all_sockets("y").done();
    let ruleset = builder.build().expect("should build");
    for rule in &ruleset.adjacency {
        assert_eq!(rule.allowed_tiles, vec![rule.tile]);
    }
}

#[test]
fn fixed_tiles_fit_mutually() {
    let mut builder =
        WfcSocketRulesetBuilder::new(WfcTopology::Cartesian2d).add_asymmetric_pair("plug", "jack");
    builder
        .add_tile(WfcTileId(0), weight(1.0), "Plug")
        .socket(WfcDirection::XPos, "plug")
        .socket(WfcDirection::XNeg, "jack")
        .socket(WfcDirection::YPos, "wall")
        .socket(WfcDirection::YNeg, "wall")
        .done();
    builder
        .add_tile(WfcTileId(1), weight(1.0), "Wall")
        .all_sockets("wall")
        .done();
    let ruleset = builder.build().expect("should build");
    for rule in &ruleset.adjacency {
        for other in &rule.allowed_tiles {
            let back = ruleset
                .adjacency
                .iter()
                .find(|r| r.tile == *other && r.direction == rule.direction.opposite())
                .expect("rule should exist");
            assert!(back.allowed_tiles.contains(&rule.tile));
        }
    }
}

#[test]
fn facing_sockets_must_match_in_the_authored_orientation() {
    let mut builder = WfcSocketRulesetBuilder::new(WfcTopology::Cartesian2d);
    builder.add_tile(WfcTileId(0), weight(3.0), "Grass").all_sockets("g").done();
    builder
        .add_tile(WfcTileId(1), weight(1.0), "Road")
        .socket(WfcDirection::XPos, "g")
        .socket(WfcDirection::XNeg, "g")
        .socket(WfcDirection::YPos, "road")
        .socket(WfcDirection::YNeg, "road")
        .symmetry(WfcTileSymmetry::Rotate2)
        .done();
    let ruleset = builder.build().expect("should build");
    let rule = |tile: u16, direction: WfcDirection| {
        ruleset
            .adjacency
            .iter()
            .find(|r| r.tile == WfcTileId(tile) && r.direction == direction)
            .expect("rule should exist")
            .allowed_tiles
            .clone()
    };
    assert_eq!(rule(0, WfcDirection::YPos), vec![WfcTileId(0)]);
    assert_eq!(rule(0, WfcDirection::XPos), vec![WfcTileId(0), WfcTileId(1)]);
    assert_eq!(rule(1, WfcDirection::YPos), vec![WfcTileId(1)]);
}

#[test]
fn a_socket_without_partner_is_refused() {
    let mut builder = WfcSocketRulesetBuilder::new(WfcTopology::Cartesian2d);
    builder
        .add_tile(WfcTileId(0), weight(1.0), "A")
        .socket(WfcDirection::XPos, "z")
        .socket(WfcDirection::XNeg, "a")
        .socket(WfcDirection::YPos, "a")
        .socket(WfcDirection::YNeg, "a")
        .done();
    let message = builder.build().unwrap_err();
    assert!(message.contains("matches no other tile"));
}
