use vstd::prelude::*;
use vstd::arithmetic::div_mod::lemma_fundamental_div_mod_converse;

use crate::config::{
    active_dirs, dir_offset, opposite_dir, WfcBorder, WfcBoundaryStitching, WfcDirection, WfcGridSize,
    WfcTopology,
};
use crate::geometry::UVec3;

verus! {

/// The flat index of an in-bounds position, or nothing.
pub open spec fn index_spec(size: WfcGridSize, p: UVec3) -> Option<int> {
    if p.x < size.width && p.y < size.height && p.z < size.depth {
        Some(p.z * size.width * size.height + p.y * size.width + p.x)
    } else {
        None
    }
}

/// The position of a flat index.
pub open spec fn position_spec(size: WfcGridSize, i: int) -> UVec3 {
    let plane = size.width * size.height;
    let rem = i % plane;
    UVec3 { x: (rem % size.width as int) as u32, y: (rem / size.width as int) as u32, z: (i / plane) as u32 }
}

/// A coordinate moved onto the axis `0..extent`, wrapping if allowed.
pub open spec fn wrap_spec(value: int, extent: int, wrap: bool) -> Option<int> {
    if 0 <= value < extent {
        Some(value)
    } else if !wrap || extent <= 0 {
        None
    } else {
        Some(value % extent)
    }
}

/// The step a hex direction takes from a cell of row `y` (odd rows are shifted right).
pub open spec fn hex_delta(y: int, d: WfcDirection) -> (int, int, int) {
    let odd = y % 2 != 0;
    match d {
        WfcDirection::HexEast => (1, 0, 0),
        WfcDirection::HexWest => (-1, 0, 0),
        WfcDirection::HexNorthEast => if odd { (1, -1, 0) } else { (0, -1, 0) },
        WfcDirection::HexNorthWest => if odd { (0, -1, 0) } else { (-1, -1, 0) },
        WfcDirection::HexSouthEast => if odd { (1, 1, 0) } else { (0, 1, 0) },
        WfcDirection::HexSouthWest => if odd { (0, 1, 0) } else { (-1, 1, 0) },
        _ => (0, 0, 0),
    }
}

/// The last coordinate of an axis of positive extent wraps to the first, and the one before
/// the first wraps to the last.
proof fn lemma_wrap_ends(e: int)
    requires
        e > 0,
    ensures
        e % e == 0,
        (-1int) % e == e - 1,
{
    lemma_fundamental_div_mod_converse(e, e, 1, 0);
    lemma_fundamental_div_mod_converse(-1, e, -1, e - 1);
}

/// On a Cartesian grid a step along an axis moves one cell along it and keeps the other two
/// coordinates. Stepping off a face of an axis that the grid wraps enters the opposite face;
/// stepping off a face of an axis that it does not wrap finds no neighbour.
pub proof fn lemma_cartesian_steps(grid: CompiledGrid, i: int)
    requires
        grid.wf(),
        grid.topology != WfcTopology::Hex2d,
        0 <= i < grid.cells(),
    ensures
        ({
            let p = position_spec(grid.size, i);
            let size = grid.size;
            let st = grid.boundary_stitching;
            &&& grid.neighbor_spec(i, WfcDirection::XPos) == if p.x + 1 < size.width {
                index_spec(size, UVec3 { x: (p.x + 1) as u32, ..p })
            } else if st.wrap_x {
                index_spec(size, UVec3 { x: 0, ..p })
            } else {
                None
            }
            &&& grid.neighbor_spec(i, WfcDirection::XNeg) == if p.x > 0 {
                index_spec(size, UVec3 { x: (p.x - 1) as u32, ..p })
            } else if st.wrap_x {
                index_spec(size, UVec3 { x: (size.width - 1) as u32, ..p })
            } else {
                None
            }
            &&& grid.neighbor_spec(i, WfcDirection::YPos) == if p.y + 1 < size.height {
                index_spec(size, UVec3 { y: (p.y + 1) as u32, ..p })
            } else if st.wrap_y {
                index_spec(size, UVec3 { y: 0, ..p })
            } else {
                None
            }
            &&& grid.neighbor_spec(i, WfcDirection::YNeg) == if p.y > 0 {
                index_spec(size, UVec3 { y: (p.y - 1) as u32, ..p })
            } else if st.wrap_y {
                index_spec(size, UVec3 { y: (size.height - 1) as u32, ..p })
            } else {
                None
            }
            &&& grid.neighbor_spec(i, WfcDirection::ZPos) == if p.z + 1 < size.depth {
                index_spec(size, UVec3 { z: (p.z + 1) as u32, ..p })
            } else if st.wrap_z {
                index_spec(size, UVec3 { z: 0, ..p })
            } else {
                None
            }
            &&& grid.neighbor_spec(i, WfcDirection::ZNeg) == if p.z > 0 {
                index_spec(size, UVec3 { z: (p.z - 1) as u32, ..p })
            } else if st.wrap_z {
                index_spec(size, UVec3 { z: (size.depth - 1) as u32, ..p })
            } else {
                None
            }
        }),
{
    let size = grid.size;
    lemma_position_in_range(size, i);
    lemma_wrap_ends(size.width as int);
    lemma_wrap_ends(size.height as int);
    lemma_wrap_ends(size.depth as int);
}

/// The centre of hex cell `(x, y)` in half-cell units across and rows down: odd rows sit half
/// a cell to the right.
pub open spec fn hex_centre(x: int, y: int) -> (int, int) {
    (2 * x + y % 2, y)
}

/// How far the centre of the cell across each hex edge lies, in half-cell units across and
/// rows down: east and west across a row, the north and south pairs half a cell either side.
pub open spec fn hex_edge_step(d: WfcDirection) -> (int, int) {
    match d {
        WfcDirection::HexEast => (2, 0),
        WfcDirection::HexWest => (-2, 0),
        WfcDirection::HexNorthEast => (1, -1),
        WfcDirection::HexNorthWest => (-1, -1),
        WfcDirection::HexSouthEast => (1, 1),
        WfcDirection::HexSouthWest => (-1, 1),
        _ => (0, 0),
    }
}

/// On a hex grid that does not wrap, the neighbour of a cell in a hex direction is the cell
/// across the matching edge: its centre lies at that edge's step from the cell's centre, and
/// any cell of the grid whose centre lies there is the neighbour. The six edge steps are the
/// six cells that touch a cell: two across its row, and two in each adjacent row half a cell
/// either side.
pub proof fn lemma_hex_neighbours(grid: CompiledGrid, i: int, d: WfcDirection, q: UVec3)
    requires
        grid.wf(),
        grid.topology == WfcTopology::Hex2d,
        !grid.boundary_stitching.wrap_x,
        !grid.boundary_stitching.wrap_y,
        0 <= i < grid.cells(),
        active_dirs(WfcTopology::Hex2d).contains(d),
    ensures
        ({
            let p = position_spec(grid.size, i);
            let c = hex_centre(p.x as int, p.y as int);
            let step = hex_edge_step(d);
            &&& -1 <= step.1 <= 1
            &&& (if step.1 == 0 { step.0 == 2 || step.0 == -2 } else { step.0 == 1 || step.0 == -1 })
            &&& (grid.neighbor_spec(i, d) matches Some(j) ==> ({
                let n = position_spec(grid.size, j);
                let cn = hex_centre(n.x as int, n.y as int);
                cn.0 - c.0 == step.0 && cn.1 - c.1 == step.1
            }))
            &&& (index_spec(grid.size, q) is Some && hex_centre(q.x as int, q.y as int).0 - c.0 == step.0 && hex_centre(
                q.x as int,
                q.y as int,
            ).1 - c.1 == step.1 ==> grid.neighbor_spec(i, d) == index_spec(grid.size, q))
        }),
{
    let size = grid.size;
    lemma_position_in_range(size, i);
    let p = position_spec(size, i);
    assert(active_dirs(WfcTopology::Hex2d).contains(d) ==> (d == WfcDirection::HexEast || d == WfcDirection::HexWest
        || d == WfcDirection::HexNorthEast || d == WfcDirection::HexNorthWest || d == WfcDirection::HexSouthEast
        || d == WfcDirection::HexSouthWest)) by {
        if active_dirs(WfcTopology::Hex2d).contains(d) {
            let k = choose|k: int| 0 <= k < active_dirs(WfcTopology::Hex2d).len() && active_dirs(WfcTopology::Hex2d)[k] == d;
        }
    }
    assert((p.y as int + 1) % 2 != 0 <==> (p.y as int) % 2 == 0);
    assert((p.y as int - 1) % 2 != 0 <==> (p.y as int) % 2 == 0);
    assert((p.y as int) % 2 == 0 || (p.y as int) % 2 == 1);
    if let Some(j) = grid.neighbor_spec(i, d) {
        let delta = hex_delta(p.y as int, d);
        let target = UVec3 { x: (p.x + delta.0) as u32, y: (p.y + delta.1) as u32, z: p.z };
        assert(index_spec(size, target) == Some(j));
        lemma_index_position_inverse(size, target);
    }
}

/// A hex step keeps the layer, moves at most one row, and the opposite step from the cell it
/// reaches comes back; a direction that is not a hex direction does not move.
pub proof fn lemma_hex_delta_round_trip(y: int, d: WfcDirection)
    ensures
        active_dirs(WfcTopology::Hex2d).contains(d) ==> {
            let (dx, dy, dz) = hex_delta(y, d);
            let (ex, ey, ez) = hex_delta(y + dy, opposite_dir(d));
            &&& dz == 0 && ez == 0
            &&& -1 <= dy <= 1
            &&& dx + ex == 0 && dy + ey == 0
        },
        !active_dirs(WfcTopology::Hex2d).contains(d) ==> hex_delta(y, d) == (0int, 0int, 0int),
{
    assert(active_dirs(WfcTopology::Hex2d).contains(d) <==> (d == WfcDirection::HexEast || d == WfcDirection::HexWest
        || d == WfcDirection::HexNorthEast || d == WfcDirection::HexNorthWest || d == WfcDirection::HexSouthEast
        || d == WfcDirection::HexSouthWest)) by {
        if active_dirs(WfcTopology::Hex2d).contains(d) {
            let i = choose|i: int| 0 <= i < active_dirs(WfcTopology::Hex2d).len() && active_dirs(WfcTopology::Hex2d)[i] == d;
        }
        if d == WfcDirection::HexEast { assert(active_dirs(WfcTopology::Hex2d)[0] == d); }
        if d == WfcDirection::HexWest { assert(active_dirs(WfcTopology::Hex2d)[1] == d); }
        if d == WfcDirection::HexNorthEast { assert(active_dirs(WfcTopology::Hex2d)[2] == d); }
        if d == WfcDirection::HexNorthWest { assert(active_dirs(WfcTopology::Hex2d)[3] == d); }
        if d == WfcDirection::HexSouthEast { assert(active_dirs(WfcTopology::Hex2d)[4] == d); }
        if d == WfcDirection::HexSouthWest { assert(active_dirs(WfcTopology::Hex2d)[5] == d); }
    }
    assert((y + 1) % 2 != 0 <==> y % 2 == 0);
    assert((y - 1) % 2 != 0 <==> y % 2 == 0);
}

/// Whether a grid of this topology and size can be compiled.
pub open spec fn grid_accepts(topology: WfcTopology, size: WfcGridSize) -> bool {
    &&& size.width > 0 && size.height > 0 && size.depth > 0
    &&& topology == WfcTopology::Cartesian2d ==> size.depth == 1
    &&& topology == WfcTopology::Hex2d ==> size.depth == 1
}

/// The error that checking a grid reports, if any; the checks run in this order.
pub open spec fn grid_error(topology: WfcTopology, size: WfcGridSize) -> Option<Seq<char>> {
    if size.width == 0 || size.height == 0 || size.depth == 0 {
        Some("grid dimensions must be greater than zero"@)
    } else if topology == WfcTopology::Cartesian2d && size.depth != 1 {
        Some("2D topology requires depth = 1"@)
    } else if topology == WfcTopology::Hex2d && size.depth != 1 {
        Some("hex topology requires depth = 1"@)
    } else {
        None
    }
}

/// A grid's topology, dimensions and wrapping, checked.
#[derive(Clone, Copy, Debug)]
pub struct CompiledGrid {
    pub topology: WfcTopology,
    pub size: WfcGridSize,
    pub boundary_stitching: WfcBoundaryStitching,
}

impl CompiledGrid {
    /// The grid is accepted, its cells can be counted in a `usize`, and its
    /// coordinates and their neighbours fit an `i32`.
    pub open spec fn wf(&self) -> bool {
        &&& grid_accepts(self.topology, self.size)
        &&& self.size.cells() <= usize::MAX
        &&& self.size.width <= i32::MAX
        &&& self.size.height <= i32::MAX
        &&& self.size.depth <= i32::MAX
    }

    pub open spec fn cells(&self) -> nat {
        self.size.cells()
    }

    /// The neighbour of cell `i` in direction `d`, if there is one.
    pub open spec fn neighbor_spec(&self, i: int, d: WfcDirection) -> Option<int> {
        let p = position_spec(self.size, i);
        let delta = if self.topology == WfcTopology::Hex2d {
            hex_delta(p.y as int, d)
        } else {
            dir_offset(d)
        };
        let wx = wrap_spec(p.x + delta.0, self.size.width as int, self.boundary_stitching.wrap_x);
        let wy = wrap_spec(p.y + delta.1, self.size.height as int, self.boundary_stitching.wrap_y);
        let wz = wrap_spec(p.z + delta.2, self.size.depth as int, self.boundary_stitching.wrap_z);
        if wx is Some && wy is Some && wz is Some {
            index_spec(self.size, UVec3 { x: wx->0 as u32, y: wy->0 as u32, z: wz->0 as u32 })
        } else {
            None
        }
    }

    /// Whether cell `i` lies on `border`.
    pub open spec fn on_border_spec(&self, i: int, border: WfcBorder) -> bool {
        let p = position_spec(self.size, i);
        match border {
            WfcBorder::MinX => p.x == 0,
            WfcBorder::MaxX => p.x + 1 == self.size.width,
            WfcBorder::MinY => p.y == 0,
            WfcBorder::MaxY => p.y + 1 == self.size.height,
            WfcBorder::MinZ => p.z == 0,
            WfcBorder::MaxZ => p.z + 1 == self.size.depth,
        }
    }

    pub fn new(topology: WfcTopology, size: WfcGridSize, boundary_stitching: WfcBoundaryStitching) -> (r: Result<Self, String>)
        ensures
            r is Ok <==> grid_accepts(topology, size),
            r is Ok <==> grid_error(topology, size) is None,
            r matches Err(m) ==> grid_error(topology, size) == Some(m@),
            r matches Ok(g) ==> g.topology == topology && g.size == size && g.boundary_stitching
                == boundary_stitching,
    {
        if size.width == 0 || size.height == 0 || size.depth == 0 {
            return Err("grid dimensions must be greater than zero".to_owned());
        }
        if topology == WfcTopology::Cartesian2d && size.depth != 1 {
            return Err("2D topology requires depth = 1".to_owned());
        }
        if topology == WfcTopology::Hex2d && size.depth != 1 {
            return Err("hex topology requires depth = 1".to_owned());
        }
        Ok(CompiledGrid { topology, size, boundary_stitching })
    }

    pub fn topology(&self) -> (r: WfcTopology)
        ensures
            r == self.topology,
    {
        self.topology
    }

    pub fn size(&self) -> (r: WfcGridSize)
        ensures
            r == self.size,
    {
        self.size
    }

    pub fn total_cells(&self) -> (r: usize)
        requires
            self.size.cells() <= usize::MAX,
        ensures
            r == self.cells(),
    {
        self.size.total_cells()
    }

    pub fn directions(&self) -> (r: Vec<WfcDirection>)
        ensures
            r@ == active_dirs(self.topology),
    {
        WfcDirection::active(self.topology)
    }

    pub fn index_of(&self, position: UVec3) -> (r: Option<usize>)
        requires
            self.wf(),
        ensures
            r matches Some(i) ==> index_spec(self.size, position) == Some(i as int),
            r is None ==> index_spec(self.size, position) is None,
            r matches Some(i) ==> i < self.cells(),
    {
        if position.x >= self.size.width || position.y >= self.size.height || position.z
            >= self.size.depth {
            return None;
        }
        let width = self.size.width as usize;
        let height = self.size.height as usize;
        proof {
            lemma_index_in_range(self.size, position);
        }
        Some(position.z as usize * width * height + position.y as usize * width + position.x as usize)
    }

    pub fn position_of(&self, index: usize) -> (r: UVec3)
        requires
            self.wf(),
            index < self.cells(),
        ensures
            r == position_spec(self.size, index as int),
            index_spec(self.size, r) == Some(index as int),
    {
        proof {
            lemma_position_in_range(self.size, index as int);
            let w = self.size.width as int;
            let h = self.size.height as int;
            let d = self.size.depth as int;
            assert(0 < w * h <= w * h * d) by (nonlinear_arith)
                requires
                    w > 0,
                    h > 0,
                    d > 0,
            ;
        }
        let width = self.size.width as usize;
        let height = self.size.height as usize;
        let plane = width * height;
        let z = index / plane;
        let remainder = index % plane;
        let y = remainder / width;
        let x = remainder % width;
        UVec3::new(x as u32, y as u32, z as u32)
    }

    pub fn neighbor(&self, index: usize, direction: WfcDirection) -> (r: Option<usize>)
        requires
            self.wf(),
            index < self.cells(),
        ensures
            r matches Some(n) ==> self.neighbor_spec(index as int, direction) == Some(n as int),
            r is None ==> self.neighbor_spec(index as int, direction) is None,
            r matches Some(n) ==> n < self.cells(),
    {
        let p = self.position_of(index);
        let x = p.x as i32;
        let y = p.y as i32;
        let z = p.z as i32;
        let (dx, dy, dz): (i32, i32, i32) = if self.topology == WfcTopology::Hex2d {
            hex_step(y, direction)
        } else {
            let o = direction.offset();
            (o.x, o.y, o.z)
        };
        let nx = wrap_axis(x + dx, self.size.width, self.boundary_stitching.wrap_x);
        let ny = wrap_axis(y + dy, self.size.height, self.boundary_stitching.wrap_y);
        let nz = wrap_axis(z + dz, self.size.depth, self.boundary_stitching.wrap_z);
        match (nx, ny, nz) {
            (Some(a), Some(b), Some(c)) => self.index_of(UVec3::new(a as u32, b as u32, c as u32)),
            _ => None,
        }
    }

    pub fn is_on_border(&self, index: usize, border: WfcBorder) -> (r: bool)
        requires
            self.wf(),
            index < self.cells(),
        ensures
            r == self.on_border_spec(index as int, border),
    {
        let position = self.position_of(index);
        match border {
            WfcBorder::MinX => position.x == 0,
            WfcBorder::MaxX => position.x + 1 == self.size.width,
            WfcBorder::MinY => position.y == 0,
            WfcBorder::MaxY => position.y + 1 == self.size.height,
            WfcBorder::MinZ => position.z == 0,
            WfcBorder::MaxZ => position.z + 1 == self.size.depth,
        }
    }
}

/// An in-bounds position has an index below the cell count.
pub proof fn lemma_index_bounds(size: WfcGridSize, p: UVec3)
    requires
        p.x < size.width,
        p.y < size.height,
        p.z < size.depth,
    ensures
        p.z * size.width * size.height + p.y * size.width + p.x < size.cells(),
        p.z * size.width * size.height <= p.z * size.width * size.height + p.y * size.width + p.x,
        p.y * size.width <= p.y * size.width + p.x,
        p.z * size.width <= p.z * size.width * size.height || size.height == 0,
{
    lemma_index_in_range(size, p);
}

/// A grid with a cell has no empty dimension, and one plane of it fits its cell count.
pub proof fn lemma_nonempty_dims(size: WfcGridSize, i: int)
    requires
        0 <= i < size.cells(),
    ensures
        size.width > 0,
        size.height > 0,
        size.depth > 0,
        0 < size.width * size.height <= size.cells(),
{
    let w = size.width as int;
    let h = size.height as int;
    let d = size.depth as int;
    if w == 0 || h == 0 || d == 0 {
        assert(w * h * d == 0) by (nonlinear_arith)
            requires
                w == 0 || h == 0 || d == 0,
        ;
    }
    assert(0 < w * h <= w * h * d) by (nonlinear_arith)
        requires
            w > 0,
            h > 0,
            d > 0,
    ;
}

/// One plane of a grid with positive dimensions fits its cell count.
pub proof fn lemma_plane_bound(size: WfcGridSize)
    requires
        size.width > 0,
        size.height > 0,
        size.depth > 0,
    ensures
        0 < size.width * size.height <= size.cells(),
{
    let w = size.width as int;
    let h = size.height as int;
    let d = size.depth as int;
    assert(0 < w * h <= w * h * d) by (nonlinear_arith)
        requires
            w > 0,
            h > 0,
            d > 0,
    ;
}

/// The coordinates of a flat index lie in the grid.
pub proof fn lemma_position_fits(size: WfcGridSize, i: int)
    requires
        size.width > 0,
        size.height > 0,
        0 <= i < size.cells(),
    ensures
        i / (size.width * size.height) < size.depth,
        (i % (size.width * size.height)) / (size.width as int) < size.height,
        (i % (size.width * size.height)) % (size.width as int) < size.width,
        0 <= i / (size.width * size.height),
        0 <= (i % (size.width * size.height)) / (size.width as int),
        0 <= (i % (size.width * size.height)) % (size.width as int),
{
    lemma_position_in_range(size, i);
    let w = size.width as int;
    let h = size.height as int;
    let plane = w * h;
    assert(plane > 0) by (nonlinear_arith)
        requires
            w > 0,
            h > 0,
            plane == w * h,
    ;
    assert(0 <= i % plane < plane && 0 <= i / plane) by (nonlinear_arith)
        requires
            plane > 0,
            0 <= i,
    ;
    assert(0 <= (i % plane) / w && 0 <= (i % plane) % w) by (nonlinear_arith)
        requires
            w > 0,
            0 <= i % plane,
    ;
}

proof fn lemma_index_in_range(size: WfcGridSize, p: UVec3)
    requires
        p.x < size.width,
        p.y < size.height,
        p.z < size.depth,
    ensures
        p.z * size.width * size.height + p.y * size.width + p.x < size.cells(),
        p.z * size.width * size.height <= p.z * size.width * size.height + p.y * size.width + p.x,
        p.y * size.width <= p.y * size.width + p.x,
        p.z * size.width <= p.z * size.width * size.height || size.height == 0,
{
    let w = size.width as int;
    let h = size.height as int;
    let d = size.depth as int;
    let x = p.x as int;
    let y = p.y as int;
    let z = p.z as int;
    assert(y * w + x < h * w) by (nonlinear_arith)
        requires
            0 <= x < w,
            0 <= y < h,
    ;
    assert(z * w * h + y * w + x < d * w * h) by (nonlinear_arith)
        requires
            0 <= z < d,
            y * w + x < h * w,
            w >= 0,
            h >= 0,
    ;
    assert(d * w * h == w * h * d) by (nonlinear_arith);
    assert(0 <= y * w) by (nonlinear_arith)
        requires
            0 <= y,
            0 <= w,
    ;
    assert(0 <= z * w * h) by (nonlinear_arith)
        requires
            0 <= z,
            0 <= w,
            0 <= h,
    ;
    assert(z * w <= z * w * h || h == 0) by (nonlinear_arith)
        requires
            0 <= z,
            0 <= w,
            0 <= h,
    ;
}

proof fn lemma_position_in_range(size: WfcGridSize, i: int)
    requires
        size.width > 0,
        size.height > 0,
        0 <= i < size.cells(),
    ensures
        ({
            let p = position_spec(size, i);
            &&& p.x < size.width && p.y < size.height && p.z < size.depth
            &&& index_spec(size, p) == Some(i)
        }),
        i / (size.width * size.height) < size.depth,
        (i % (size.width * size.height)) / (size.width as int) < size.height,
        (i % (size.width * size.height)) % (size.width as int) < size.width,
{
    let w = size.width as int;
    let h = size.height as int;
    let d = size.depth as int;
    let plane = w * h;
    assert(plane > 0) by (nonlinear_arith)
        requires
            w > 0,
            h > 0,
            plane == w * h,
    ;
    let rem = i % plane;
    let z = i / plane;
    assert(i == plane * z + rem && 0 <= rem < plane) by (nonlinear_arith)
        requires
            plane > 0,
            rem == i % plane,
            z == i / plane,
    ;
    assert(z < d) by (nonlinear_arith)
        requires
            i == plane * z + rem,
            0 <= rem,
            i < plane * d,
            plane > 0,
    ;
    assert(size.cells() == plane * d) by (nonlinear_arith)
        requires
            plane == w * h,
            size.cells() == w * h * d,
    ;
    assert(0 <= z) by (nonlinear_arith)
        requires
            z == i / plane,
            0 <= i,
            plane > 0,
    ;
    let y = rem / w;
    let x = rem % w;
    assert(rem == w * y + x && 0 <= x < w) by (nonlinear_arith)
        requires
            w > 0,
            y == rem / w,
            x == rem % w,
    ;
    assert(0 <= y < h) by (nonlinear_arith)
        requires
            rem == w * y + x,
            0 <= x < w,
            0 <= rem < w * h,
            w > 0,
    ;
    assert(z * w * h + y * w + x == i) by (nonlinear_arith)
        requires
            i == plane * z + rem,
            plane == w * h,
            rem == w * y + x,
    ;
}

/// The flat index and the position of a cell determine each other.
pub proof fn lemma_index_position_inverse(size: WfcGridSize, p: UVec3)
    requires
        index_spec(size, p) is Some,
    ensures
        position_spec(size, index_spec(size, p)->0) == p,
{
    let w = size.width as int;
    let h = size.height as int;
    let x = p.x as int;
    let y = p.y as int;
    let z = p.z as int;
    let i = z * w * h + y * w + x;
    let plane = w * h;
    lemma_index_in_range(size, p);
    assert(y * w + x < plane) by (nonlinear_arith)
        requires
            0 <= x < w,
            0 <= y < h,
            plane == w * h,
    ;
    assert(0 <= y * w + x) by (nonlinear_arith)
        requires
            0 <= x,
            0 <= y,
            0 <= w,
    ;
    assert(i == z * plane + (y * w + x)) by (nonlinear_arith)
        requires
            i == z * w * h + y * w + x,
            plane == w * h,
    ;
    lemma_fundamental_div_mod_converse(i, plane, z, y * w + x);
    lemma_fundamental_div_mod_converse(y * w + x, w, y, x);
}

fn wrap_axis(value: i32, extent: u32, wrap: bool) -> (r: Option<i32>)
    requires
        0 < extent <= i32::MAX,
        -1 <= value <= extent,
    ensures
        r matches Some(v) ==> wrap_spec(value as int, extent as int, wrap) == Some(v as int),
        r is None ==> wrap_spec(value as int, extent as int, wrap) is None,
        r matches Some(v) ==> 0 <= v < extent,
{
    let extent = extent as i32;
    if 0 <= value && value < extent {
        return Some(value);
    }
    if !wrap || extent <= 0 {
        return None;
    }
    if value < 0 {
        assert((value as int) % (extent as int) == value + extent) by (nonlinear_arith)
            requires
                value == -1,
                extent > 0,
        ;
        Some(value + extent)
    } else {
        assert((value as int) % (extent as int) == 0) by (nonlinear_arith)
            requires
                value == extent,
                extent > 0,
        ;
        Some(0)
    }
}

fn hex_step(y: i32, direction: WfcDirection) -> (r: (i32, i32, i32))
    requires
        y >= 0,
    ensures
        (r.0 as int, r.1 as int, r.2 as int) == hex_delta(y as int, direction),
{
    let odd_row = y % 2 != 0;
    match direction {
        WfcDirection::HexEast => (1, 0, 0),
        WfcDirection::HexWest => (-1, 0, 0),
        WfcDirection::HexNorthEast => if odd_row { (1, -1, 0) } else { (0, -1, 0) },
        WfcDirection::HexNorthWest => if odd_row { (0, -1, 0) } else { (-1, -1, 0) },
        WfcDirection::HexSouthEast => if odd_row { (1, 1, 0) } else { (0, 1, 0) },
        WfcDirection::HexSouthWest => if odd_row { (0, 1, 0) } else { (-1, 1, 0) },
        _ => (0, 0, 0),
    }
}

proof fn lemma_wrap_back(v: int, dv: int, e: int, wrap: bool)
    requires
        0 <= v < e,
        -1 <= dv <= 1,
        wrap_spec(v + dv, e, wrap) is Some,
    ensures
        wrap_spec(wrap_spec(v + dv, e, wrap)->0 - dv, e, wrap) == Some(v),
        0 <= wrap_spec(v + dv, e, wrap)->0 < e,
        wrap_spec(v + dv, e, wrap)->0 == v + dv || (wrap && (v + dv == -1 || v + dv == e)),
{
    if v + dv == -1 {
        assert((-1int) % e == e - 1) by (nonlinear_arith)
            requires
                e > 0,
        ;
        assert(e % e == 0) by (nonlinear_arith)
            requires
                e > 0,
        ;
    } else if v + dv == e {
        assert(e % e == 0) by (nonlinear_arith)
            requires
                e > 0,
        ;
        assert((-1int) % e == e - 1) by (nonlinear_arith)
            requires
                e > 0,
        ;
    }
}

proof fn lemma_hex_back(y: int, b: int, d: WfcDirection)
    requires
        active_dirs(WfcTopology::Hex2d).contains(d),
        0 <= y,
        0 <= b,
        hex_delta(y, d).1 != 0 ==> b % 2 != y % 2,
    ensures
        hex_delta(b, opposite_dir(d)) == (-hex_delta(y, d).0, -hex_delta(y, d).1, -hex_delta(y, d).2),
{
    assert(y % 2 == 0 || y % 2 == 1);
    assert(b % 2 == 0 || b % 2 == 1);
}

proof fn lemma_row_parity(y: int, dy: int, h: int, wrap: bool)
    requires
        0 <= y < h,
        dy == 1 || dy == -1,
        wrap_spec(y + dy, h, wrap) is Some,
        wrap ==> h % 2 == 0,
    ensures
        wrap_spec(y + dy, h, wrap)->0 % 2 != y % 2,
{
    lemma_wrap_back(y, dy, h, wrap);
    let b = wrap_spec(y + dy, h, wrap)->0;
    if b == y + dy {
        assert(b % 2 != y % 2) by (nonlinear_arith)
            requires
                b == y + dy,
                dy == 1 || dy == -1,
        ;
    } else if y + dy == -1 {
        assert(b % 2 != y % 2) by (nonlinear_arith)
            requires
                b == h - 1,
                h % 2 == 0,
                y == 0,
        ;
    } else {
        assert(b % 2 != y % 2) by (nonlinear_arith)
            requires
                b == 0,
                y == h - 1,
                h % 2 == 0,
                h > 0,
        ;
    }
}

/// Moving to a neighbour and then in the opposite direction returns to the start cell,
/// for the directions the topology uses; on a hex grid whose rows wrap, this needs an
/// even number of rows, since wrapping an odd count breaks the odd-row alternation.
#[verifier::rlimit(40)]
pub proof fn lemma_neighbor_symmetric(grid: CompiledGrid, i: int, d: WfcDirection)
    requires
        grid.wf(),
        0 <= i < grid.cells(),
        active_dirs(grid.topology).contains(d),
        grid.neighbor_spec(i, d) is Some,
        grid.topology == WfcTopology::Hex2d && grid.boundary_stitching.wrap_y ==> grid.size.height
            % 2 == 0,
    ensures
        grid.neighbor_spec(grid.neighbor_spec(i, d)->0, opposite_dir(d)) == Some(i),
{
    let size = grid.size;
    let st = grid.boundary_stitching;
    lemma_position_in_range(size, i);
    let p = position_spec(size, i);
    let delta = if grid.topology == WfcTopology::Hex2d {
        hex_delta(p.y as int, d)
    } else {
        dir_offset(d)
    };
    let w = size.width as int;
    let h = size.height as int;
    let dd = size.depth as int;
    assert(-1 <= delta.0 <= 1 && -1 <= delta.1 <= 1 && -1 <= delta.2 <= 1);
    lemma_wrap_back(p.x as int, delta.0, w, st.wrap_x);
    lemma_wrap_back(p.y as int, delta.1, h, st.wrap_y);
    lemma_wrap_back(p.z as int, delta.2, dd, st.wrap_z);
    let a = wrap_spec(p.x + delta.0, w, st.wrap_x)->0;
    let b = wrap_spec(p.y + delta.1, h, st.wrap_y)->0;
    let c = wrap_spec(p.z + delta.2, dd, st.wrap_z)->0;
    let q = UVec3 { x: a as u32, y: b as u32, z: c as u32 };
    lemma_index_position_inverse(size, q);
    let n = index_spec(size, q)->0;
    assert(grid.neighbor_spec(i, d) == Some(n));
    let back = if grid.topology == WfcTopology::Hex2d {
        hex_delta(b, opposite_dir(d))
    } else {
        dir_offset(opposite_dir(d))
    };
    if grid.topology == WfcTopology::Hex2d {
        if delta.1 != 0 {
            lemma_row_parity(p.y as int, delta.1, h, st.wrap_y);
        }
        lemma_hex_back(p.y as int, b, d);
    }
    assert(back == (-delta.0, -delta.1, -delta.2));
    assert(wrap_spec(a + back.0, w, st.wrap_x) == Some(p.x as int));
    assert(wrap_spec(b + back.1, h, st.wrap_y) == Some(p.y as int));
    assert(wrap_spec(c + back.2, dd, st.wrap_z) == Some(p.z as int));
    assert(position_spec(size, n) == q);
}

/// A neighbour is a cell of the grid.
pub proof fn lemma_neighbor_in_range(grid: CompiledGrid, i: int, d: WfcDirection)
    requires
        grid.neighbor_spec(i, d) is Some,
    ensures
        0 <= grid.neighbor_spec(i, d)->0 < grid.cells(),
{
    let p = position_spec(grid.size, i);
    let delta = if grid.topology == WfcTopology::Hex2d {
        hex_delta(p.y as int, d)
    } else {
        dir_offset(d)
    };
    let a = wrap_spec(p.x + delta.0, grid.size.width as int, grid.boundary_stitching.wrap_x)->0;
    let b = wrap_spec(p.y + delta.1, grid.size.height as int, grid.boundary_stitching.wrap_y)->0;
    let c = wrap_spec(p.z + delta.2, grid.size.depth as int, grid.boundary_stitching.wrap_z)->0;
    let q = UVec3 { x: a as u32, y: b as u32, z: c as u32 };
    lemma_index_bounds(grid.size, q);
}

} // verus!
