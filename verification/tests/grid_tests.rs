use saddle_procgen_wfc::config::{WfcBorder, WfcBoundaryStitching, WfcDirection, WfcGridSize, WfcTopology};
use saddle_procgen_wfc::geometry::UVec3;
use saddle_procgen_wfc::grid::CompiledGrid;

#[test]
fn grid_indexing_matches_expected_neighbors_in_two_and_three_dimensions() {
    let grid_2d = CompiledGrid::new(WfcTopology::Cartesian2d, WfcGridSize::new_2d(3, 2), WfcBoundaryStitching::default())
        .expect("2D grid should compile");
    let center = grid_2d.index_of(UVec3::new(1, 1, 0)).expect("center should exist");
    assert_eq!(grid_2d.neighbor(center, WfcDirection::XNeg), Some(3));
    assert_eq!(grid_2d.neighbor(center, WfcDirection::YNeg), Some(1));
    assert_eq!(grid_2d.neighbor(center, WfcDirection::YPos), None);

    let grid_3d =
        CompiledGrid::new(WfcTopology::Cartesian3d, WfcGridSize::new_3d(2, 2, 2), WfcBoundaryStitching::default())
            .expect("3D grid should compile");
    let corner = grid_3d.index_of(UVec3::new(0, 0, 0)).expect("corner should exist");
    assert_eq!(grid_3d.neighbor(corner, WfcDirection::XPos), Some(1));
    assert_eq!(grid_3d.neighbor(corner, WfcDirection::YPos), Some(2));
    assert_eq!(grid_3d.neighbor(corner, WfcDirection::ZPos), Some(4));
}

#[test]
fn bad_dimensions_are_refused() {
    assert!(CompiledGrid::new(WfcTopology::Cartesian2d, WfcGridSize::new_2d(0, 2), WfcBoundaryStitching::default()).is_err());
    assert!(CompiledGrid::new(WfcTopology::Cartesian2d, WfcGridSize::new_3d(2, 2, 2), WfcBoundaryStitching::default()).is_err());
    assert!(CompiledGrid::new(WfcTopology::Hex2d, WfcGridSize::new_3d(2, 2, 2), WfcBoundaryStitching::default()).is_err());
    assert!(CompiledGrid::new(WfcTopology::Cartesian3d, WfcGridSize::new_3d(2, 2, 2), WfcBoundaryStitching::default()).is_ok());
}

#[test]
fn index_and_position_are_inverse() {
    let grid = CompiledGrid::new(WfcTopology::Cartesian3d, WfcGridSize::new_3d(3, 4, 5), WfcBoundaryStitching::default())
        .expect("grid should compile");
    assert_eq!(grid.total_cells(), 60);
    for index in 0..grid.total_cells() {
        assert_eq!(grid.index_of(grid.position_of(index)), Some(index));
    }
    assert_eq!(grid.index_of(UVec3::new(3, 0, 0)), None);
    assert_eq!(grid.position_of(59), UVec3::new(2, 3, 4));
}

#[test]
fn neighbors_are_symmetric_across_topologies() {
    let cases = [
        (WfcTopology::Cartesian2d, WfcGridSize::new_2d(4, 3), WfcBoundaryStitching::xy()),
        (WfcTopology::Cartesian3d, WfcGridSize::new_3d(3, 3, 2), WfcBoundaryStitching::xyz()),
        (WfcTopology::Hex2d, WfcGridSize::new_2d(5, 4), WfcBoundaryStitching::default()),
        (WfcTopology::Hex2d, WfcGridSize::new_2d(5, 4), WfcBoundaryStitching::xy()),
    ];
    for (topology, size, stitching) in cases {
        let grid = CompiledGrid::new(topology, size, stitching).expect("grid should compile");
        for cell in 0..grid.total_cells() {
            for direction in grid.directions() {
                if let Some(next) = grid.neighbor(cell, direction) {
                    assert_eq!(grid.neighbor(next, direction.opposite()), Some(cell));
                }
            }
        }
    }
}

#[test]
fn wrapping_links_opposite_edges() {
    let grid = CompiledGrid::new(WfcTopology::Cartesian2d, WfcGridSize::new_2d(3, 3), WfcBoundaryStitching::xy())
        .expect("grid should compile");
    assert_eq!(grid.neighbor(0, WfcDirection::XNeg), Some(2));
    assert_eq!(grid.neighbor(0, WfcDirection::YNeg), Some(6));
    let plain = CompiledGrid::new(WfcTopology::Cartesian2d, WfcGridSize::new_2d(3, 3), WfcBoundaryStitching::default())
        .expect("grid should compile");
    assert_eq!(plain.neighbor(0, WfcDirection::XNeg), None);
}

#[test]
fn hex_rows_are_offset() {
    let grid = CompiledGrid::new(WfcTopology::Hex2d, WfcGridSize::new_2d(4, 4), WfcBoundaryStitching::default())
        .expect("grid should compile");
    assert_eq!(grid.directions().len(), 6);
    let even_row = grid.index_of(UVec3::new(1, 2, 0)).expect("cell");
    let odd_row = grid.index_of(UVec3::new(1, 1, 0)).expect("cell");
    assert_eq!(grid.neighbor(even_row, WfcDirection::HexNorthEast), grid.index_of(UVec3::new(1, 1, 0)));
    assert_eq!(grid.neighbor(odd_row, WfcDirection::HexNorthEast), grid.index_of(UVec3::new(2, 0, 0)));
    assert_eq!(grid.neighbor(even_row, WfcDirection::HexSouthWest), grid.index_of(UVec3::new(0, 3, 0)));
    assert_eq!(grid.neighbor(0, WfcDirection::HexNorthWest), None);
}

#[test]
fn borders_are_detected() {
    let grid = CompiledGrid::new(WfcTopology::Cartesian2d, WfcGridSize::new_2d(3, 2), WfcBoundaryStitching::default())
        .expect("grid should compile");
    assert!(grid.is_on_border(0, WfcBorder::MinX));
    assert!(grid.is_on_border(0, WfcBorder::MinY));
    assert!(!grid.is_on_border(0, WfcBorder::MaxX));
    assert!(grid.is_on_border(5, WfcBorder::MaxX));
    assert!(grid.is_on_border(5, WfcBorder::MaxY));
    assert!(grid.is_on_border(4, WfcBorder::MinZ));
    assert!(grid.is_on_border(4, WfcBorder::MaxZ));
}
