use vstd::prelude::*;

use crate::geometry::{IVec3, UVec3};

verus! {

/// A tile identifier, as authored in a ruleset.
#[derive(Clone, Copy, Debug, PartialEq, Eq, Structural, Hash, PartialOrd, Ord)]
pub struct WfcTileId(pub u16);

impl WfcTileId {
    /// The debug notation of the id, such as `WfcTileId(3)`.
    pub fn debug_text(self) -> (r: String)
        ensures
            r@ == "WfcTileId("@ + crate::text::decimal_spec(self.0 as nat) + ")"@,
    {
        crate::text::with_number("WfcTileId(", self.0 as u64, ")")
    }

    /// The display text of the id, such as `Tile(3)`.
    pub fn display_text(self) -> (r: String)
        ensures
            r@ == "Tile("@ + crate::text::decimal_spec(self.0 as nat) + ")"@,
    {
        crate::text::with_number("Tile(", self.0 as u64, ")")
    }
}

impl From<u16> for WfcTileId {
    fn from(value: u16) -> (r: Self) {
        WfcTileId(value)
    }
}

impl vstd::std_specs::convert::FromSpecImpl<u16> for WfcTileId {
    open spec fn obeys_from_spec() -> bool {
        true
    }

    open spec fn from_spec(v: u16) -> Self {
        WfcTileId(v)
    }
}

/// The single source of randomness of a solve.
#[derive(Clone, Copy, Debug, PartialEq, Eq, Structural, Hash)]
pub struct WfcSeed(pub u64);

/// `x` sign-extended to 64 bits and read as unsigned.
pub open spec fn sign_extended(x: i32) -> u64 {
    if x >= 0 {
        x as u64
    } else {
        (x + 0x1_0000_0000_0000_0000int) as u64
    }
}

/// The final avalanche step of the chunk-seed mix.
pub open spec fn seed_finalize(v: u64) -> u64 {
    let a = v ^ (v >> 30u64);
    let b = vstd::wrapping::u64_specs::wrapping_mul(a, 0xBF58_476D_1CE4_E5B9u64);
    let c = b ^ (b >> 27u64);
    let d = vstd::wrapping::u64_specs::wrapping_mul(c, 0x94D0_49BB_1331_11EBu64);
    d ^ (d >> 31u64)
}

/// The seed that `for_chunk` derives from `seed` and a chunk coordinate.
pub open spec fn chunk_seed(seed: u64, chunk: IVec3) -> u64 {
    let mixed = seed ^ vstd::wrapping::u64_specs::wrapping_mul(
        sign_extended(chunk.x),
        0x9E37_79B9_7F4A_7C15u64,
    ) ^ vstd::wrapping::u64_specs::wrapping_mul(sign_extended(chunk.y), 0xC2B2_AE3D_27D4_EB4Fu64)
        ^ vstd::wrapping::u64_specs::wrapping_mul(sign_extended(chunk.z), 0x1656_67B1_9E37_79F9u64);
    seed_finalize(mixed)
}

fn sign_extend(x: i32) -> (r: u64)
    ensures
        r == sign_extended(x),
{
    if x >= 0 {
        x as u64
    } else {
        let magnitude: u64 = (-(x as i64)) as u64;
        u64::MAX - (magnitude - 1)
    }
}

impl WfcSeed {
    /// Mix the seed with a chunk coordinate, for deterministic streaming of neighbouring chunks.
    pub fn for_chunk(self, chunk: IVec3) -> (r: Self)
        ensures
            r.0 == chunk_seed(self.0, chunk),
    {
        let mut value = self.0 ^ sign_extend(chunk.x).wrapping_mul(0x9E37_79B9_7F4A_7C15)
            ^ sign_extend(chunk.y).wrapping_mul(0xC2B2_AE3D_27D4_EB4F)
            ^ sign_extend(chunk.z).wrapping_mul(0x1656_67B1_9E37_79F9);
        value = value ^ (value >> 30u64);
        value = value.wrapping_mul(0xBF58_476D_1CE4_E5B9);
        value = value ^ (value >> 27u64);
        value = value.wrapping_mul(0x94D0_49BB_1331_11EB);
        value = value ^ (value >> 31u64);
        WfcSeed(value)
    }
}

impl Default for WfcSeed {
    fn default() -> (r: Self)
        ensures
            r.0 == 0,
    {
        WfcSeed(0)
    }
}

/// The cell lattice a ruleset and a grid are laid out on.
#[derive(Clone, Copy, Debug, PartialEq, Eq, Structural, Hash)]
pub enum WfcTopology {
    Cartesian2d,
    Cartesian3d,
    Hex2d,
}

impl Default for WfcTopology {
    fn default() -> (r: Self)
        ensures
            r == WfcTopology::Cartesian2d,
    {
        WfcTopology::Cartesian2d
    }
}

/// The name of a topology variant.
pub open spec fn topology_debug_name(v: WfcTopology) -> Seq<char> {
    match v {
        WfcTopology::Cartesian2d => "Cartesian2d"@,
        WfcTopology::Cartesian3d => "Cartesian3d"@,
        WfcTopology::Hex2d => "Hex2d"@,
    }
}

/// The display name of a topology.
pub open spec fn topology_name(v: WfcTopology) -> Seq<char> {
    match v {
        WfcTopology::Cartesian2d => "Cartesian2D"@,
        WfcTopology::Cartesian3d => "Cartesian3D"@,
        WfcTopology::Hex2d => "Hex2D"@,
    }
}

impl WfcTopology {
    /// The name of the variant, such as `Cartesian2d`.
    pub fn debug_name(self) -> (r: &'static str)
        ensures
            r@ == topology_debug_name(self),
    {
        match self {
            WfcTopology::Cartesian2d => "Cartesian2d",
            WfcTopology::Cartesian3d => "Cartesian3d",
            WfcTopology::Hex2d => "Hex2d",
        }
    }

    /// The display name of the topology.
    pub fn name(self) -> (r: &'static str)
        ensures
            r@ == topology_name(self),
    {
        match self {
            WfcTopology::Cartesian2d => "Cartesian2D",
            WfcTopology::Cartesian3d => "Cartesian3D",
            WfcTopology::Hex2d => "Hex2D",
        }
    }
}

/// A neighbour direction.
#[derive(Clone, Copy, Debug, PartialEq, Eq, Structural, Hash, PartialOrd, Ord)]
pub enum WfcDirection {
    XPos,
    XNeg,
    YPos,
    YNeg,
    ZPos,
    ZNeg,
    HexEast,
    HexWest,
    HexNorthEast,
    HexNorthWest,
    HexSouthEast,
    HexSouthWest,
}

/// The directions that a topology uses, in their fixed order.
pub open spec fn active_dirs(topology: WfcTopology) -> Seq<WfcDirection> {
    match topology {
        WfcTopology::Cartesian2d => seq![
            WfcDirection::XPos,
            WfcDirection::XNeg,
            WfcDirection::YPos,
            WfcDirection::YNeg,
        ],
        WfcTopology::Cartesian3d => seq![
            WfcDirection::XPos,
            WfcDirection::XNeg,
            WfcDirection::YPos,
            WfcDirection::YNeg,
            WfcDirection::ZPos,
            WfcDirection::ZNeg,
        ],
        WfcTopology::Hex2d => seq![
            WfcDirection::HexEast,
            WfcDirection::HexWest,
            WfcDirection::HexNorthEast,
            WfcDirection::HexNorthWest,
            WfcDirection::HexSouthEast,
            WfcDirection::HexSouthWest,
        ],
    }
}

/// The direction pointing back.
/// The short display name of a direction.
pub open spec fn dir_symbol(d: WfcDirection) -> Seq<char> {
    match d {
        WfcDirection::XPos => seq!['+', 'X'],
        WfcDirection::XNeg => seq!['-', 'X'],
        WfcDirection::YPos => seq!['+', 'Y'],
        WfcDirection::YNeg => seq!['-', 'Y'],
        WfcDirection::ZPos => seq!['+', 'Z'],
        WfcDirection::ZNeg => seq!['-', 'Z'],
        WfcDirection::HexEast => seq!['H', 'e', 'x', 'E'],
        WfcDirection::HexWest => seq!['H', 'e', 'x', 'W'],
        WfcDirection::HexNorthEast => seq!['H', 'e', 'x', 'N', 'E'],
        WfcDirection::HexNorthWest => seq!['H', 'e', 'x', 'N', 'W'],
        WfcDirection::HexSouthEast => seq!['H', 'e', 'x', 'S', 'E'],
        WfcDirection::HexSouthWest => seq!['H', 'e', 'x', 'S', 'W'],
    }
}

pub open spec fn opposite_dir(d: WfcDirection) -> WfcDirection {
    match d {
        WfcDirection::XPos => WfcDirection::XNeg,
        WfcDirection::XNeg => WfcDirection::XPos,
        WfcDirection::YPos => WfcDirection::YNeg,
        WfcDirection::YNeg => WfcDirection::YPos,
        WfcDirection::ZPos => WfcDirection::ZNeg,
        WfcDirection::ZNeg => WfcDirection::ZPos,
        WfcDirection::HexEast => WfcDirection::HexWest,
        WfcDirection::HexWest => WfcDirection::HexEast,
        WfcDirection::HexNorthEast => WfcDirection::HexSouthWest,
        WfcDirection::HexNorthWest => WfcDirection::HexSouthEast,
        WfcDirection::HexSouthEast => WfcDirection::HexNorthWest,
        WfcDirection::HexSouthWest => WfcDirection::HexNorthEast,
    }
}

/// The unit step of a direction on a cartesian lattice (hex rows use the odd-row rule instead).
pub open spec fn dir_offset(d: WfcDirection) -> (int, int, int) {
    match d {
        WfcDirection::XPos => (1, 0, 0),
        WfcDirection::XNeg => (-1, 0, 0),
        WfcDirection::YPos => (0, 1, 0),
        WfcDirection::YNeg => (0, -1, 0),
        WfcDirection::ZPos => (0, 0, 1),
        WfcDirection::ZNeg => (0, 0, -1),
        WfcDirection::HexEast => (1, 0, 0),
        WfcDirection::HexWest => (-1, 0, 0),
        WfcDirection::HexNorthEast => (1, -1, 0),
        WfcDirection::HexNorthWest => (0, -1, 0),
        WfcDirection::HexSouthEast => (1, 1, 0),
        WfcDirection::HexSouthWest => (0, 1, 0),
    }
}

/// A quarter turn clockwise, for the planar cartesian directions; others stay.
pub open spec fn rotate_cw(d: WfcDirection) -> WfcDirection {
    match d {
        WfcDirection::XPos => WfcDirection::YNeg,
        WfcDirection::YNeg => WfcDirection::XNeg,
        WfcDirection::XNeg => WfcDirection::YPos,
        WfcDirection::YPos => WfcDirection::XPos,
        other => other,
    }
}

/// `k` quarter turns clockwise.
pub open spec fn rotate_cw_times(d: WfcDirection, k: nat) -> WfcDirection
    decreases k,
{
    if k == 0 {
        d
    } else {
        rotate_cw(rotate_cw_times(d, (k - 1) as nat))
    }
}

/// Opposite directions pair up the directions of each topology, and quarter turns permute the
/// planar directions, commute with taking the opposite and come back after four; undoing a
/// turn of `k` steps returns the direction turned.
pub proof fn lemma_direction_algebra(topology: WfcTopology, d: WfcDirection, k: u8)
    ensures
        opposite_dir(opposite_dir(d)) == d,
        opposite_dir(d) != d,
        active_dirs(topology).contains(d) ==> active_dirs(topology).contains(opposite_dir(d)),
        rotate_cw(opposite_dir(d)) == opposite_dir(rotate_cw(d)),
        rotate_cw_times(d, 4) == d,
        inverse_rotate(rotate_cw_times(d, (k % 4) as nat), k, WfcTopology::Cartesian2d) == d,
{
    reveal_with_fuel(rotate_cw_times, 5);
    if active_dirs(topology).contains(d) {
        let i = choose|i: int| 0 <= i < active_dirs(topology).len() && active_dirs(topology)[i] == d;
        match topology {
            WfcTopology::Cartesian2d => {
                assert(active_dirs(topology)[if i % 2 == 0 { i + 1 } else { i - 1 }] == opposite_dir(d));
            },
            WfcTopology::Cartesian3d => {
                assert(active_dirs(topology)[if i % 2 == 0 { i + 1 } else { i - 1 }] == opposite_dir(d));
            },
            WfcTopology::Hex2d => {
                let j = match d {
                    WfcDirection::HexEast => 1int,
                    WfcDirection::HexWest => 0int,
                    WfcDirection::HexNorthEast => 5int,
                    WfcDirection::HexNorthWest => 4int,
                    WfcDirection::HexSouthEast => 3int,
                    _ => 2int,
                };
                assert(active_dirs(topology)[j] == opposite_dir(d));
            },
        }
    }
    let m = (k % 4) as nat;
    let back = ((4 - k % 4) % 4) as nat;
    assert(m + back == 4 || m + back == 0);
    lemma_rotate_cw_add(d, m, back);
}

/// Turning `a` quarter turns and then `b` more is turning `a + b`.
proof fn lemma_rotate_cw_add(d: WfcDirection, a: nat, b: nat)
    ensures
        rotate_cw_times(rotate_cw_times(d, a), b) == rotate_cw_times(d, a + b),
    decreases b,
{
    if b > 0 {
        lemma_rotate_cw_add(d, a, (b - 1) as nat);
    }
}

/// The canonical direction that a tile rotated by `steps` quarter turns shows in world direction `d`.
pub open spec fn inverse_rotate(d: WfcDirection, steps: u8, topology: WfcTopology) -> WfcDirection {
    if topology != WfcTopology::Cartesian2d {
        d
    } else {
        rotate_cw_times(d, ((4 - steps % 4) % 4) as nat)
    }
}

/// The name of a direction variant.
pub open spec fn direction_debug_name(v: WfcDirection) -> Seq<char> {
    match v {
        WfcDirection::XPos => "XPos"@,
        WfcDirection::XNeg => "XNeg"@,
        WfcDirection::YPos => "YPos"@,
        WfcDirection::YNeg => "YNeg"@,
        WfcDirection::ZPos => "ZPos"@,
        WfcDirection::ZNeg => "ZNeg"@,
        WfcDirection::HexEast => "HexEast"@,
        WfcDirection::HexWest => "HexWest"@,
        WfcDirection::HexNorthEast => "HexNorthEast"@,
        WfcDirection::HexNorthWest => "HexNorthWest"@,
        WfcDirection::HexSouthEast => "HexSouthEast"@,
        WfcDirection::HexSouthWest => "HexSouthWest"@,
    }
}

impl WfcDirection {
    /// The directions that `topology` uses.
    pub fn active(topology: WfcTopology) -> (r: Vec<WfcDirection>)
        ensures
            r@ == active_dirs(topology),
    {
        let r = match topology {
            WfcTopology::Cartesian2d => vec![
                WfcDirection::XPos,
                WfcDirection::XNeg,
                WfcDirection::YPos,
                WfcDirection::YNeg,
            ],
            WfcTopology::Cartesian3d => vec![
                WfcDirection::XPos,
                WfcDirection::XNeg,
                WfcDirection::YPos,
                WfcDirection::YNeg,
                WfcDirection::ZPos,
                WfcDirection::ZNeg,
            ],
            WfcTopology::Hex2d => vec![
                WfcDirection::HexEast,
                WfcDirection::HexWest,
                WfcDirection::HexNorthEast,
                WfcDirection::HexNorthWest,
                WfcDirection::HexSouthEast,
                WfcDirection::HexSouthWest,
            ],
        };
        assert(r@ =~= active_dirs(topology));
        r
    }

    pub fn opposite(self) -> (r: Self)
        ensures
            r == opposite_dir(self),
    {
        match self {
            WfcDirection::XPos => WfcDirection::XNeg,
            WfcDirection::XNeg => WfcDirection::XPos,
            WfcDirection::YPos => WfcDirection::YNeg,
            WfcDirection::YNeg => WfcDirection::YPos,
            WfcDirection::ZPos => WfcDirection::ZNeg,
            WfcDirection::ZNeg => WfcDirection::ZPos,
            WfcDirection::HexEast => WfcDirection::HexWest,
            WfcDirection::HexWest => WfcDirection::HexEast,
            WfcDirection::HexNorthEast => WfcDirection::HexSouthWest,
            WfcDirection::HexNorthWest => WfcDirection::HexSouthEast,
            WfcDirection::HexSouthEast => WfcDirection::HexNorthWest,
            WfcDirection::HexSouthWest => WfcDirection::HexNorthEast,
        }
    }

    pub fn offset(self) -> (r: IVec3)
        ensures
            (r.x as int, r.y as int, r.z as int) == dir_offset(self),
    {
        match self {
            WfcDirection::XPos => IVec3::new(1, 0, 0),
            WfcDirection::XNeg => IVec3::new(-1, 0, 0),
            WfcDirection::YPos => IVec3::new(0, 1, 0),
            WfcDirection::YNeg => IVec3::new(0, -1, 0),
            WfcDirection::ZPos => IVec3::new(0, 0, 1),
            WfcDirection::ZNeg => IVec3::new(0, 0, -1),
            WfcDirection::HexEast => IVec3::new(1, 0, 0),
            WfcDirection::HexWest => IVec3::new(-1, 0, 0),
            WfcDirection::HexNorthEast => IVec3::new(1, -1, 0),
            WfcDirection::HexNorthWest => IVec3::new(0, -1, 0),
            WfcDirection::HexSouthEast => IVec3::new(1, 1, 0),
            WfcDirection::HexSouthWest => IVec3::new(0, 1, 0),
        }
    }

    /// The short display name of the direction.
    pub fn symbol(self) -> (r: &'static str)
        ensures
            r@ == dir_symbol(self),
    {
        match self {
            WfcDirection::XPos => {
                proof { reveal_strlit("+X"); }
                "+X"
            },
            WfcDirection::XNeg => {
                proof { reveal_strlit("-X"); }
                "-X"
            },
            WfcDirection::YPos => {
                proof { reveal_strlit("+Y"); }
                "+Y"
            },
            WfcDirection::YNeg => {
                proof { reveal_strlit("-Y"); }
                "-Y"
            },
            WfcDirection::ZPos => {
                proof { reveal_strlit("+Z"); }
                "+Z"
            },
            WfcDirection::ZNeg => {
                proof { reveal_strlit("-Z"); }
                "-Z"
            },
            WfcDirection::HexEast => {
                proof { reveal_strlit("HexE"); }
                "HexE"
            },
            WfcDirection::HexWest => {
                proof { reveal_strlit("HexW"); }
                "HexW"
            },
            WfcDirection::HexNorthEast => {
                proof { reveal_strlit("HexNE"); }
                "HexNE"
            },
            WfcDirection::HexNorthWest => {
                proof { reveal_strlit("HexNW"); }
                "HexNW"
            },
            WfcDirection::HexSouthEast => {
                proof { reveal_strlit("HexSE"); }
                "HexSE"
            },
            WfcDirection::HexSouthWest => {
                proof { reveal_strlit("HexSW"); }
                "HexSW"
            },
        }
    }

    /// The name of the variant, such as `XPos`.
    pub fn debug_name(self) -> (r: &'static str)
        ensures
            r@ == direction_debug_name(self),
    {
        match self {
            WfcDirection::XPos => "XPos",
            WfcDirection::XNeg => "XNeg",
            WfcDirection::YPos => "YPos",
            WfcDirection::YNeg => "YNeg",
            WfcDirection::ZPos => "ZPos",
            WfcDirection::ZNeg => "ZNeg",
            WfcDirection::HexEast => "HexEast",
            WfcDirection::HexWest => "HexWest",
            WfcDirection::HexNorthEast => "HexNorthEast",
            WfcDirection::HexNorthWest => "HexNorthWest",
            WfcDirection::HexSouthEast => "HexSouthEast",
            WfcDirection::HexSouthWest => "HexSouthWest",
        }
    }

    /// A quarter turn clockwise (planar cartesian directions only).
    pub fn rotated_clockwise(self) -> (r: Self)
        ensures
            r == rotate_cw(self),
    {
        match self {
            WfcDirection::XPos => WfcDirection::YNeg,
            WfcDirection::YNeg => WfcDirection::XNeg,
            WfcDirection::XNeg => WfcDirection::YPos,
            WfcDirection::YPos => WfcDirection::XPos,
            other => other,
        }
    }

    /// The canonical direction shown in world direction `self` by a tile turned `steps` times.
    pub fn inverse_rotated(self, steps: u8, topology: WfcTopology) -> (r: Self)
        ensures
            r == inverse_rotate(self, steps, topology),
    {
        if topology != WfcTopology::Cartesian2d {
            return self;
        }
        let turns: u8 = (4 - steps % 4) % 4;
        let mut rotated = self;
        let mut k: u8 = 0;
        while k < turns
            invariant
                k <= turns,
                rotated == rotate_cw_times(self, k as nat),
            decreases turns - k,
        {
            rotated = rotated.rotated_clockwise();
            k = k + 1;
        }
        rotated
    }
}

/// One face of the grid's bounding box.
#[derive(Clone, Copy, Debug, PartialEq, Eq, Structural, Hash)]
pub enum WfcBorder {
    MinX,
    MaxX,
    MinY,
    MaxY,
    MinZ,
    MaxZ,
}

/// Grid dimensions in cells.
#[derive(Clone, Copy, Debug, PartialEq, Eq, Structural, Hash)]
pub struct WfcGridSize {
    pub width: u32,
    pub height: u32,
    pub depth: u32,
}

impl WfcGridSize {
    /// The number of cells of a grid of these dimensions.
    pub open spec fn cells(self) -> nat {
        (self.width as nat) * (self.height as nat) * (self.depth as nat)
    }

    pub fn new_2d(width: u32, height: u32) -> (r: Self)
        ensures
            r == (WfcGridSize { width, height, depth: 1 }),
    {
        WfcGridSize { width, height, depth: 1 }
    }

    pub fn new_3d(width: u32, height: u32, depth: u32) -> (r: Self)
        ensures
            r == (WfcGridSize { width, height, depth }),
    {
        WfcGridSize { width, height, depth }
    }

    pub fn total_cells(self) -> (r: usize)
        requires
            self.cells() <= usize::MAX,
        ensures
            r == self.cells(),
    {
        let w = self.width as usize;
        let h = self.height as usize;
        let d = self.depth as usize;
        if d == 0 {
            proof {
                assert(self.cells() == 0) by (nonlinear_arith)
                    requires
                        self.cells() == (w as nat) * (h as nat) * (d as nat),
                        d == 0,
                ;
            }
            return 0;
        }
        proof {
            assert((w as nat) * (h as nat) <= (w as nat) * (h as nat) * (d as nat)) by (nonlinear_arith)
                requires
                    d >= 1,
            ;
        }
        w * h * d
    }

    pub fn as_uvec3(self) -> (r: UVec3)
        ensures
            r == (UVec3 { x: self.width, y: self.height, z: self.depth }),
    {
        UVec3::new(self.width, self.height, self.depth)
    }
}

impl Default for WfcGridSize {
    fn default() -> (r: Self)
        ensures
            r == (WfcGridSize { width: 8, height: 8, depth: 1 }),
    {
        WfcGridSize::new_2d(8, 8)
    }
}

/// Which axes wrap around, so that the grid's opposite faces are neighbours.
#[derive(Clone, Copy, Debug, PartialEq, Eq, Structural, Hash)]
pub struct WfcBoundaryStitching {
    pub wrap_x: bool,
    pub wrap_y: bool,
    pub wrap_z: bool,
}

impl WfcBoundaryStitching {
    pub fn xy() -> (r: Self)
        ensures
            r == (WfcBoundaryStitching { wrap_x: true, wrap_y: true, wrap_z: false }),
    {
        WfcBoundaryStitching { wrap_x: true, wrap_y: true, wrap_z: false }
    }

    pub fn xyz() -> (r: Self)
        ensures
            r == (WfcBoundaryStitching { wrap_x: true, wrap_y: true, wrap_z: true }),
    {
        WfcBoundaryStitching { wrap_x: true, wrap_y: true, wrap_z: true }
    }
}

impl Default for WfcBoundaryStitching {
    fn default() -> (r: Self)
        ensures
            r == (WfcBoundaryStitching { wrap_x: false, wrap_y: false, wrap_z: false }),
    {
        WfcBoundaryStitching { wrap_x: false, wrap_y: false, wrap_z: false }
    }
}

/// A tile weight, held as the bit pattern of an IEEE-754 single-precision number.
#[derive(Clone, Copy, Debug, PartialEq, Eq, Structural, Hash)]
pub struct WfcWeight(pub u32);

/// The bit pattern of a finite, strictly positive single-precision number.
pub open spec fn weight_is_valid(bits: u32) -> bool {
    0 < bits < 0x7F80_0000
}

impl WfcWeight {
    /// Whether the weight is finite and strictly positive.
    pub fn is_valid(self) -> (r: bool)
        ensures
            r == weight_is_valid(self.0),
    {
        0 < self.0 && self.0 < 0x7F80_0000
    }
}

/// Rotation families for automatic quarter-turn expansion.
#[derive(Clone, Copy, Debug, PartialEq, Eq, Structural, Hash)]
pub enum WfcTileSymmetry {
    Fixed,
    Rotate2,
    Rotate4,
}

impl Default for WfcTileSymmetry {
    fn default() -> (r: Self)
        ensures
            r == WfcTileSymmetry::Fixed,
    {
        WfcTileSymmetry::Fixed
    }
}

/// How many distinct rotated variants a symmetry yields on a topology.
pub open spec fn unique_rotations_spec(symmetry: WfcTileSymmetry, topology: WfcTopology) -> u8 {
    match topology {
        WfcTopology::Cartesian2d => match symmetry {
            WfcTileSymmetry::Fixed => 1,
            WfcTileSymmetry::Rotate2 => 2,
            WfcTileSymmetry::Rotate4 => 4,
        },
        _ => 1,
    }
}

/// The name of a symmetry variant.
pub open spec fn symmetry_debug_name(v: WfcTileSymmetry) -> Seq<char> {
    match v {
        WfcTileSymmetry::Fixed => "Fixed"@,
        WfcTileSymmetry::Rotate2 => "Rotate2"@,
        WfcTileSymmetry::Rotate4 => "Rotate4"@,
    }
}

impl WfcTileSymmetry {
    /// The name of the variant, such as `Rotate2`.
    pub fn debug_name(self) -> (r: &'static str)
        ensures
            r@ == symmetry_debug_name(self),
    {
        match self {
            WfcTileSymmetry::Fixed => "Fixed",
            WfcTileSymmetry::Rotate2 => "Rotate2",
            WfcTileSymmetry::Rotate4 => "Rotate4",
        }
    }

    pub fn unique_rotations(self, topology: WfcTopology) -> (r: u8)
        ensures
            r == unique_rotations_spec(self, topology),
            1 <= r <= 4,
    {
        match topology {
            WfcTopology::Cartesian2d => match self {
                WfcTileSymmetry::Fixed => 1,
                WfcTileSymmetry::Rotate2 => 2,
                WfcTileSymmetry::Rotate4 => 4,
            },
            WfcTopology::Cartesian3d => 1,
            WfcTopology::Hex2d => 1,
        }
    }
}

/// A tile of a ruleset.
#[derive(Clone, Debug, PartialEq)]
pub struct WfcTileDefinition {
    pub id: WfcTileId,
    pub weight: WfcWeight,
    pub label: String,
    pub symmetry: WfcTileSymmetry,
}

impl WfcTileDefinition {
    pub fn new(id: WfcTileId, weight: WfcWeight, label: &str) -> (r: Self)
        ensures
            r.id == id,
            r.weight == weight,
            r.label@ == label@,
            r.symmetry == WfcTileSymmetry::Fixed,
    {
        WfcTileDefinition { id, weight, label: label.to_owned(), symmetry: WfcTileSymmetry::Fixed }
    }

    pub fn with_symmetry(self, symmetry: WfcTileSymmetry) -> (r: Self)
        ensures
            r.id == self.id,
            r.weight == self.weight,
            r.label@ == self.label@,
            r.symmetry == symmetry,
    {
        let mut next = self;
        next.symmetry = symmetry;
        next
    }
}

/// The tiles that `tile` allows as its neighbour in `direction`.
#[derive(Clone, Debug, PartialEq)]
pub struct WfcAdjacencyRule {
    pub tile: WfcTileId,
    pub direction: WfcDirection,
    pub allowed_tiles: Vec<WfcTileId>,
}

impl WfcAdjacencyRule {
    pub fn new(tile: WfcTileId, direction: WfcDirection, allowed_tiles: Vec<WfcTileId>) -> (r: Self)
        ensures
            r.tile == tile,
            r.direction == direction,
            r.allowed_tiles@ == allowed_tiles@,
    {
        WfcAdjacencyRule { tile, direction, allowed_tiles }
    }
}

/// A copy of a list of tile ids.
pub fn copy_tile_ids(ids: &Vec<WfcTileId>) -> (r: Vec<WfcTileId>)
    ensures
        r@ == ids@,
{
    let mut out: Vec<WfcTileId> = Vec::new();
    let mut i: usize = 0;
    while i < ids.len()
        invariant
            i <= ids@.len(),
            out@ == ids@.take(i as int),
        decreases ids@.len() - i,
    {
        out.push(ids[i]);
        i = i + 1;
        assert(out@ =~= ids@.take(i as int));
    }
    assert(ids@.take(ids@.len() as int) =~= ids@);
    out
}

/// Tile definitions plus explicit adjacency.
#[derive(Clone, Debug, PartialEq)]
pub struct WfcRuleset {
    pub topology: WfcTopology,
    pub tiles: Vec<WfcTileDefinition>,
    pub adjacency: Vec<WfcAdjacencyRule>,
}

/// A rule with the given fields.
pub open spec fn rule_is(r: WfcAdjacencyRule, tile: WfcTileId, d: WfcDirection, allowed: Seq<WfcTileId>) -> bool {
    r.tile == tile && r.direction == d && r.allowed_tiles@ == allowed
}

impl WfcRuleset {
    pub fn new(topology: WfcTopology, tiles: Vec<WfcTileDefinition>) -> (r: Self)
        ensures
            r.topology == topology,
            r.tiles@ == tiles@,
            r.adjacency@.len() == 0,
    {
        WfcRuleset { topology, tiles, adjacency: Vec::new() }
    }

    pub fn with_rule(self, tile: WfcTileId, direction: WfcDirection, allowed_tiles: Vec<WfcTileId>) -> (r: Self)
        ensures
            r.topology == self.topology,
            r.tiles@ == self.tiles@,
            r.adjacency@.len() == self.adjacency@.len() + 1,
            r.adjacency@.take(self.adjacency@.len() as int) == self.adjacency@,
            rule_is(r.adjacency@.last(), tile, direction, allowed_tiles@),
    {
        let mut next = self;
        next.add_rule(tile, direction, allowed_tiles);
        next
    }

    pub fn add_rule(&mut self, tile: WfcTileId, direction: WfcDirection, allowed_tiles: Vec<WfcTileId>)
        ensures
            final(self).topology == old(self).topology,
            final(self).tiles@ == old(self).tiles@,
            final(self).adjacency@.len() == old(self).adjacency@.len() + 1,
            final(self).adjacency@.take(old(self).adjacency@.len() as int) == old(self).adjacency@,
            rule_is(final(self).adjacency@.last(), tile, direction, allowed_tiles@),
    {
        let ghost before = self.adjacency@;
        self.adjacency.push(WfcAdjacencyRule::new(tile, direction, allowed_tiles));
        assert(self.adjacency@.take(before.len() as int) =~= before);
    }

    /// Add a symmetric rule: `a` allows `b` in `direction`, and `b` allows `a` in the opposite one.
    pub fn with_symmetric_rule(self, tile_a: WfcTileId, direction: WfcDirection, tile_b: WfcTileId) -> (r: Self)
        ensures
            r.topology == self.topology,
            r.tiles@ == self.tiles@,
            r.adjacency@.len() == self.adjacency@.len() + 2,
            r.adjacency@.take(self.adjacency@.len() as int) == self.adjacency@,
            rule_is(r.adjacency@[self.adjacency@.len() as int], tile_a, direction, seq![tile_b]),
            rule_is(r.adjacency@.last(), tile_b, opposite_dir(direction), seq![tile_a]),
    {
        let ghost before = self.adjacency@;
        let mut next = self;
        let first = vec![tile_b];
        assert(first@ =~= seq![tile_b]);
        next.add_rule(tile_a, direction, first);
        let ghost middle = next.adjacency@;
        let second = vec![tile_a];
        assert(second@ =~= seq![tile_a]);
        next.add_rule(tile_b, direction.opposite(), second);
        assert(next.adjacency@.take(before.len() as int) =~= before) by {
            assert(next.adjacency@.take(middle.len() as int) == middle);
            assert(middle.take(before.len() as int) == before);
        }
        assert(next.adjacency@[before.len() as int] == middle.last());
        next
    }

    /// Add, for every direction of the ruleset's topology, a rule that `tile` allows `allowed_tiles`.
    pub fn with_all_direction_rules(self, tile: WfcTileId, allowed_tiles: Vec<WfcTileId>) -> (r: Self)
        ensures
            r.topology == self.topology,
            r.tiles@ == self.tiles@,
            r.adjacency@.len() == self.adjacency@.len() + active_dirs(self.topology).len(),
            r.adjacency@.take(self.adjacency@.len() as int) == self.adjacency@,
            forall|k: int|
                0 <= k < active_dirs(self.topology).len() ==> rule_is(
                    #[trigger] r.adjacency@[self.adjacency@.len() + k],
                    tile,
                    active_dirs(self.topology)[k],
                    allowed_tiles@,
                ),
    {
        let ghost before = self.adjacency@;
        let mut next = self;
        let directions = WfcDirection::active(next.topology);
        let mut i: usize = 0;
        while i < directions.len()
            invariant
                directions@ == active_dirs(next.topology),
                next.topology == self.topology,
                next.tiles@ == self.tiles@,
                i <= directions@.len(),
                next.adjacency@.len() == before.len() + i,
                next.adjacency@.take(before.len() as int) == before,
                forall|k: int|
                    0 <= k < i ==> rule_is(
                        #[trigger] next.adjacency@[before.len() + k],
                        tile,
                        directions@[k],
                        allowed_tiles@,
                    ),
            decreases directions@.len() - i,
        {
            let ghost prev = next.adjacency@;
            let copy = copy_tile_ids(&allowed_tiles);
            next.adjacency.push(WfcAdjacencyRule::new(tile, directions[i], copy));
            assert(next.adjacency@.take(before.len() as int) =~= before) by {
                assert(forall|j: int| 0 <= j < before.len() ==> next.adjacency@[j] == prev[j]);
            }
            assert forall|k: int| 0 <= k < i + 1 implies rule_is(
                #[trigger] next.adjacency@[before.len() + k],
                tile,
                directions@[k],
                allowed_tiles@,
            ) by {
                if k < i {
                    assert(next.adjacency@[before.len() + k] == prev[before.len() + k]);
                }
            }
            i = i + 1;
        }
        next
    }
}

/// Pins one cell to a tile before propagation.
#[derive(Clone, Debug, PartialEq)]
pub struct WfcFixedCell {
    pub position: UVec3,
    pub tile: WfcTileId,
}

impl WfcFixedCell {
    pub fn new(position: UVec3, tile: WfcTileId) -> (r: Self)
        ensures
            r == (WfcFixedCell { position, tile }),
    {
        WfcFixedCell { position, tile }
    }
}

/// Removes tiles from one cell before propagation.
#[derive(Clone, Debug, PartialEq)]
pub struct WfcCellBans {
    pub position: UVec3,
    pub banned_tiles: Vec<WfcTileId>,
}

impl WfcCellBans {
    pub fn new(position: UVec3, banned_tiles: Vec<WfcTileId>) -> (r: Self)
        ensures
            r.position == position,
            r.banned_tiles@ == banned_tiles@,
    {
        WfcCellBans { position, banned_tiles }
    }
}

/// Restricts every cell of one border plane to the listed tiles.
#[derive(Clone, Debug, PartialEq)]
pub struct WfcBorderConstraint {
    pub border: WfcBorder,
    pub allowed_tiles: Vec<WfcTileId>,
}

impl WfcBorderConstraint {
    pub fn new(border: WfcBorder, allowed_tiles: Vec<WfcTileId>) -> (r: Self)
        ensures
            r.border == border,
            r.allowed_tiles@ == allowed_tiles@,
    {
        WfcBorderConstraint { border, allowed_tiles }
    }
}

/// Bounds on how many cells may hold a tile.
#[derive(Clone, Debug, PartialEq)]
pub struct WfcTileCountConstraint {
    pub tile: WfcTileId,
    pub min_count: Option<u32>,
    pub max_count: Option<u32>,
}

/// A constraint over the whole grid.
#[derive(Clone, Debug, PartialEq)]
pub enum WfcGlobalConstraint {
    TileCount(WfcTileCountConstraint),
}

/// Which unresolved cell is observed next.
#[derive(Clone, Copy, Debug, PartialEq, Eq, Structural, Hash)]
pub enum WfcObservationHeuristic {
    MinimumRemainingValues,
    MinimumEntropy,
}

impl Default for WfcObservationHeuristic {
    fn default() -> (r: Self)
        ensures
            r == WfcObservationHeuristic::MinimumEntropy,
    {
        WfcObservationHeuristic::MinimumEntropy
    }
}

/// Solver heuristics and diagnostics switches.
#[derive(Clone, Copy, Debug, PartialEq, Eq, Structural)]
pub struct WfcSettings {
    pub observation_heuristic: WfcObservationHeuristic,
    pub max_backtracks: u32,
    pub capture_debug_snapshot: bool,
}

impl Default for WfcSettings {
    fn default() -> (r: Self)
        ensures
            r == (WfcSettings {
                observation_heuristic: WfcObservationHeuristic::MinimumEntropy,
                max_backtracks: 256,
                capture_debug_snapshot: false,
            }),
    {
        WfcSettings {
            observation_heuristic: WfcObservationHeuristic::MinimumEntropy,
            max_backtracks: 256,
            capture_debug_snapshot: false,
        }
    }
}

/// Everything one solve needs.
#[derive(Clone, Debug, PartialEq)]
pub struct WfcRequest {
    pub grid_size: WfcGridSize,
    pub ruleset: WfcRuleset,
    pub seed: WfcSeed,
    pub settings: WfcSettings,
    pub boundary_stitching: WfcBoundaryStitching,
    pub fixed_cells: Vec<WfcFixedCell>,
    pub banned_cells: Vec<WfcCellBans>,
    pub border_constraints: Vec<WfcBorderConstraint>,
    pub global_constraints: Vec<WfcGlobalConstraint>,
}

impl WfcRequest {
    pub fn new(grid_size: WfcGridSize, ruleset: WfcRuleset, seed: WfcSeed) -> (r: Self)
        ensures
            r.grid_size == grid_size,
            r.ruleset == ruleset,
            r.seed == seed,
            r.settings == (WfcSettings {
                observation_heuristic: WfcObservationHeuristic::MinimumEntropy,
                max_backtracks: 256,
                capture_debug_snapshot: false,
            }),
            r.boundary_stitching == (WfcBoundaryStitching { wrap_x: false, wrap_y: false, wrap_z: false }),
            r.fixed_cells@.len() == 0,
            r.banned_cells@.len() == 0,
            r.border_constraints@.len() == 0,
            r.global_constraints@.len() == 0,
    {
        WfcRequest {
            grid_size,
            ruleset,
            seed,
            settings: WfcSettings::default(),
            boundary_stitching: WfcBoundaryStitching::default(),
            fixed_cells: Vec::new(),
            banned_cells: Vec::new(),
            border_constraints: Vec::new(),
            global_constraints: Vec::new(),
        }
    }
}

} // verus!
