use vstd::prelude::*;

use crate::config::{WfcGridSize, WfcSeed, WfcTileId, WfcTopology};
use crate::geometry::UVec3;
use crate::grid::{index_spec, position_spec};

verus! {

/// A tile together with the quarter turns it was placed with.
#[derive(Clone, Copy, Debug, PartialEq, Eq, Structural, Hash)]
pub struct WfcTileVariant {
    pub tile: WfcTileId,
    pub rotation_steps: u8,
}

impl WfcTileVariant {
    pub fn new(tile: WfcTileId, rotation_steps: u8) -> (r: Self)
        ensures
            r == (WfcTileVariant { tile, rotation_steps }),
    {
        WfcTileVariant { tile, rotation_steps }
    }
}

/// Counters kept during a solve.
#[derive(Clone, Copy, Debug, PartialEq, Eq, Structural)]
pub struct WfcSolveStats {
    pub observation_count: u32,
    pub propagation_count: u32,
    pub backtrack_count: u32,
    pub contradiction_count: u32,
}

impl Default for WfcSolveStats {
    fn default() -> (r: Self)
        ensures
            r == (WfcSolveStats {
                observation_count: 0,
                propagation_count: 0,
                backtrack_count: 0,
                contradiction_count: 0,
            }),
    {
        WfcSolveStats { observation_count: 0, propagation_count: 0, backtrack_count: 0, contradiction_count: 0 }
    }
}

/// The FNV-1a offset basis.
pub const FNV_OFFSET: u64 = 0xcbf29ce484222325u64;

/// The FNV-1a prime.
pub const FNV_PRIME: u64 = 0x100000001b3u64;

/// One FNV-1a step.
pub open spec fn fnv_mix(hash: u64, value: u64) -> u64 {
    vstd::wrapping::u64_specs::wrapping_mul(hash ^ value, FNV_PRIME)
}

/// FNV-1a over a sequence of values, from `hash`.
pub open spec fn fnv_seq(hash: u64, values: Seq<u64>) -> u64
    decreases values.len(),
{
    if values.len() == 0 {
        hash
    } else {
        fnv_mix(fnv_seq(hash, values.drop_last()), values.last())
    }
}

/// The number of a topology in the signature.
pub open spec fn topology_code(t: WfcTopology) -> u64 {
    match t {
        WfcTopology::Cartesian2d => 0,
        WfcTopology::Cartesian3d => 1,
        WfcTopology::Hex2d => 2,
    }
}

/// The values a grid's signature hashes: topology, dimensions, tiles, rotations.
pub open spec fn signature_values(g: WfcTileGrid) -> Seq<u64> {
    seq![topology_code(g.topology), g.size.width as u64, g.size.height as u64, g.size.depth as u64]
        + g.tiles@.map_values(|t: WfcTileId| t.0 as u64) + g.rotations@.map_values(|r: u8| r as u64)
}

/// A solved or sampled grid of tiles, with the rotation chosen for each cell.
#[derive(Clone, Debug, PartialEq)]
pub struct WfcTileGrid {
    pub topology: WfcTopology,
    pub size: WfcGridSize,
    pub tiles: Vec<WfcTileId>,
    pub rotations: Vec<u8>,
}

proof fn lemma_fnv_push(hash: u64, s: Seq<u64>, v: u64)
    ensures
        fnv_seq(hash, s.push(v)) == fnv_mix(fnv_seq(hash, s), v),
{
    assert(s.push(v).drop_last() =~= s);
}

impl WfcTileGrid {
    /// The buffers hold one entry per cell.
    pub open spec fn wf(&self) -> bool {
        &&& self.tiles@.len() == self.size.cells()
        &&& self.rotations@.len() == self.size.cells()
    }

    /// A grid of the given size filled with tile 0 at rotation 0.
    pub fn new_empty(topology: WfcTopology, size: WfcGridSize) -> (r: Self)
        requires
            size.cells() <= usize::MAX,
        ensures
            r.wf(),
            r.topology == topology,
            r.size == size,
            forall|i: int| 0 <= i < r.tiles@.len() ==> #[trigger] r.tiles@[i] == WfcTileId(0),
            forall|i: int| 0 <= i < r.rotations@.len() ==> #[trigger] r.rotations@[i] == 0,
    {
        let total = size.total_cells();
        WfcTileGrid { topology, size, tiles: vec![WfcTileId(0); total], rotations: vec![0u8; total] }
    }

    pub fn width(&self) -> (r: u32)
        ensures
            r == self.size.width,
    {
        self.size.width
    }

    pub fn height(&self) -> (r: u32)
        ensures
            r == self.size.height,
    {
        self.size.height
    }

    pub fn depth(&self) -> (r: u32)
        ensures
            r == self.size.depth,
    {
        self.size.depth
    }

    /// A deterministic FNV-1a signature of topology, dimensions, tiles and rotations.
    pub fn signature(&self) -> (r: u64)
        ensures
            r == fnv_seq(FNV_OFFSET, signature_values(*self)),
    {
        let ghost values = signature_values(*self);
        let code: u64 = match self.topology {
            WfcTopology::Cartesian2d => 0,
            WfcTopology::Cartesian3d => 1,
            WfcTopology::Hex2d => 2,
        };
        let mut hash: u64 = FNV_OFFSET;
        let ghost head = seq![code, self.size.width as u64, self.size.height as u64, self.size.depth as u64];
        proof {
            assert(seq![code].drop_last() =~= Seq::<u64>::empty());
            lemma_fnv_push(FNV_OFFSET, Seq::empty(), code);
            assert(Seq::<u64>::empty().push(code) =~= head.take(1));
            lemma_fnv_push(FNV_OFFSET, head.take(1), self.size.width as u64);
            assert(head.take(1).push(self.size.width as u64) =~= head.take(2));
            lemma_fnv_push(FNV_OFFSET, head.take(2), self.size.height as u64);
            assert(head.take(2).push(self.size.height as u64) =~= head.take(3));
            lemma_fnv_push(FNV_OFFSET, head.take(3), self.size.depth as u64);
            assert(head.take(3).push(self.size.depth as u64) =~= head);
        }
        hash = (hash ^ code).wrapping_mul(FNV_PRIME);
        hash = (hash ^ self.size.width as u64).wrapping_mul(FNV_PRIME);
        hash = (hash ^ self.size.height as u64).wrapping_mul(FNV_PRIME);
        hash = (hash ^ self.size.depth as u64).wrapping_mul(FNV_PRIME);
        let ghost tiles_v = self.tiles@.map_values(|t: WfcTileId| t.0 as u64);
        let ghost rots_v = self.rotations@.map_values(|r: u8| r as u64);
        let mut i: usize = 0;
        while i < self.tiles.len()
            invariant
                i <= self.tiles@.len(),
                tiles_v == self.tiles@.map_values(|t: WfcTileId| t.0 as u64),
                hash == fnv_seq(FNV_OFFSET, head + tiles_v.take(i as int)),
            decreases self.tiles@.len() - i,
        {
            proof {
                lemma_fnv_push(FNV_OFFSET, head + tiles_v.take(i as int), tiles_v[i as int]);
                assert((head + tiles_v.take(i as int)).push(tiles_v[i as int]) =~= head + tiles_v.take(i + 1));
            }
            hash = (hash ^ self.tiles[i].0 as u64).wrapping_mul(FNV_PRIME);
            i = i + 1;
        }
        proof {
            assert(tiles_v.take(self.tiles@.len() as int) =~= tiles_v);
        }
        let mut j: usize = 0;
        while j < self.rotations.len()
            invariant
                j <= self.rotations@.len(),
                rots_v == self.rotations@.map_values(|r: u8| r as u64),
                hash == fnv_seq(FNV_OFFSET, head + tiles_v + rots_v.take(j as int)),
            decreases self.rotations@.len() - j,
        {
            proof {
                lemma_fnv_push(FNV_OFFSET, head + tiles_v + rots_v.take(j as int), rots_v[j as int]);
                assert((head + tiles_v + rots_v.take(j as int)).push(rots_v[j as int]) =~= head + tiles_v
                    + rots_v.take(j + 1));
            }
            hash = (hash ^ self.rotations[j] as u64).wrapping_mul(FNV_PRIME);
            j = j + 1;
        }
        proof {
            assert(rots_v.take(self.rotations@.len() as int) =~= rots_v);
            assert(head + tiles_v + rots_v =~= values);
        }
        hash
    }

    fn index_of(&self, position: UVec3) -> (r: Option<usize>)
        requires
            self.wf(),
        ensures
            r matches Some(i) ==> index_spec(self.size, position) == Some(i as int) && i < self.tiles@.len(),
            r is None ==> index_spec(self.size, position) is None,
    {
        if position.x >= self.size.width || position.y >= self.size.height || position.z >= self.size.depth {
            return None;
        }
        let n = self.tiles.len();
        proof {
            crate::grid::lemma_index_bounds(self.size, position);
        }
        let w = self.size.width as usize;
        let h = self.size.height as usize;
        Some(position.z as usize * w * h + position.y as usize * w + position.x as usize)
    }

    /// The tile at a position, or nothing outside the grid.
    pub fn tile_at(&self, position: UVec3) -> (r: Option<WfcTileId>)
        requires
            self.wf(),
        ensures
            r == match index_spec(self.size, position) {
                Some(i) => Some(self.tiles@[i]),
                None => None,
            },
    {
        match self.index_of(position) {
            Some(i) => Some(self.tiles[i]),
            None => None,
        }
    }

    /// The rotation at a position, or nothing outside the grid.
    pub fn rotation_at(&self, position: UVec3) -> (r: Option<u8>)
        requires
            self.wf(),
        ensures
            r == match index_spec(self.size, position) {
                Some(i) => Some(self.rotations@[i]),
                None => None,
            },
    {
        match self.index_of(position) {
            Some(i) => Some(self.rotations[i]),
            None => None,
        }
    }

    /// The tile and rotation at a position, or nothing outside the grid.
    pub fn variant_at(&self, position: UVec3) -> (r: Option<WfcTileVariant>)
        requires
            self.wf(),
        ensures
            r == match index_spec(self.size, position) {
                Some(i) => Some(WfcTileVariant { tile: self.tiles@[i], rotation_steps: self.rotations@[i] }),
                None => None,
            },
    {
        match self.index_of(position) {
            Some(i) => Some(WfcTileVariant::new(self.tiles[i], self.rotations[i])),
            None => None,
        }
    }

    /// Set the tile at a position; nothing happens outside the grid.
    pub fn set_tile_at(&mut self, position: UVec3, tile: WfcTileId)
        requires
            old(self).wf(),
        ensures
            final(self).wf(),
            final(self).topology == old(self).topology,
            final(self).size == old(self).size,
            final(self).rotations@ == old(self).rotations@,
            final(self).tiles@ == match index_spec(old(self).size, position) {
                Some(i) => old(self).tiles@.update(i, tile),
                None => old(self).tiles@,
            },
    {
        match self.index_of(position) {
            Some(i) => {
                self.tiles.set(i, tile);
            },
            None => {},
        }
    }

    /// Set the tile and rotation at a position; nothing happens outside the grid.
    pub fn set_variant_at(&mut self, position: UVec3, variant: WfcTileVariant)
        requires
            old(self).wf(),
        ensures
            final(self).wf(),
            final(self).topology == old(self).topology,
            final(self).size == old(self).size,
            final(self).tiles@ == match index_spec(old(self).size, position) {
                Some(i) => old(self).tiles@.update(i, variant.tile),
                None => old(self).tiles@,
            },
            final(self).rotations@ == match index_spec(old(self).size, position) {
                Some(i) => old(self).rotations@.update(i, variant.rotation_steps),
                None => old(self).rotations@,
            },
    {
        match self.index_of(position) {
            Some(i) => {
                self.tiles.set(i, variant.tile);
                self.rotations.set(i, variant.rotation_steps);
            },
            None => {},
        }
    }

    fn position_of(&self, index: usize) -> (r: UVec3)
        requires
            self.wf(),
            self.size.width > 0,
            self.size.height > 0,
            index < self.tiles@.len(),
        ensures
            r == position_spec(self.size, index as int),
    {
        let n = self.tiles.len();
        proof {
            crate::grid::lemma_nonempty_dims(self.size, index as int);
        }
        let w = self.size.width as usize;
        let h = self.size.height as usize;
        let plane = w * h;
        let z = index / plane;
        let rem = index % plane;
        proof {
            crate::grid::lemma_position_fits(self.size, index as int);
        }
        UVec3::new((rem % w) as u32, (rem / w) as u32, z as u32)
    }

    /// Every cell with its position and tile, in index order.
    pub fn iter(&self) -> (r: Vec<(UVec3, WfcTileId)>)
        requires
            self.wf(),
        ensures
            r@.len() == self.tiles@.len(),
            forall|i: int|
                0 <= i < r@.len() ==> #[trigger] r@[i] == (position_spec(self.size, i), self.tiles@[i]),
    {
        let mut out: Vec<(UVec3, WfcTileId)> = Vec::new();
        let mut i: usize = 0;
        while i < self.tiles.len()
            invariant
                self.wf(),
                i <= self.tiles@.len(),
                out@.len() == i,
                forall|k: int| 0 <= k < i ==> #[trigger] out@[k] == (position_spec(self.size, k), self.tiles@[k]),
            decreases self.tiles@.len() - i,
        {
            proof {
                crate::grid::lemma_nonempty_dims(self.size, i as int);
            }
            let p = self.position_of(i);
            out.push((p, self.tiles[i]));
            i = i + 1;
        }
        out
    }

    /// Every cell with its position and variant, in index order.
    pub fn iter_variants(&self) -> (r: Vec<(UVec3, WfcTileVariant)>)
        requires
            self.wf(),
        ensures
            r@.len() == self.tiles@.len(),
            forall|i: int|
                0 <= i < r@.len() ==> #[trigger] r@[i] == (position_spec(self.size, i), WfcTileVariant {
                    tile: self.tiles@[i],
                    rotation_steps: self.rotations@[i],
                }),
    {
        let mut out: Vec<(UVec3, WfcTileVariant)> = Vec::new();
        let mut i: usize = 0;
        while i < self.tiles.len()
            invariant
                self.wf(),
                i <= self.tiles@.len(),
                out@.len() == i,
                forall|k: int|
                    0 <= k < i ==> #[trigger] out@[k] == (position_spec(self.size, k), WfcTileVariant {
                        tile: self.tiles@[k],
                        rotation_steps: self.rotations@[k],
                    }),
            decreases self.tiles@.len() - i,
        {
            proof {
                crate::grid::lemma_nonempty_dims(self.size, i as int);
            }
            let p = self.position_of(i);
            out.push((p, WfcTileVariant::new(self.tiles[i], self.rotations[i])));
            i = i + 1;
        }
        out
    }
}

/// One cell of a debug snapshot.
#[derive(Clone, Debug, PartialEq)]
pub struct WfcCellDebug {
    pub position: UVec3,
    pub possible_tiles: Vec<WfcTileId>,
    pub possible_variants: Vec<WfcTileVariant>,
    pub possible_count: u32,
    pub collapsed_tile: Option<WfcTileId>,
    pub collapsed_variant: Option<WfcTileVariant>,
}

/// Where and how a solve ran into an empty domain or a violated bound.
#[derive(Clone, Debug, PartialEq)]
pub struct WfcContradiction {
    pub position: UVec3,
    pub last_observed_cell: Option<UVec3>,
    pub remaining_candidates: Vec<WfcTileId>,
    pub remaining_variants: Vec<WfcTileVariant>,
    pub decision_depth: u32,
    pub note: String,
}

impl WfcContradiction {
    /// A field-by-field copy.
    pub fn duplicate(&self) -> (r: Self)
        ensures
            r.position == self.position,
            r.last_observed_cell == self.last_observed_cell,
            r.remaining_candidates@ == self.remaining_candidates@,
            r.remaining_variants@ == self.remaining_variants@,
            r.decision_depth == self.decision_depth,
            r.note@ == self.note@,
    {
        WfcContradiction {
            position: self.position,
            last_observed_cell: self.last_observed_cell,
            remaining_candidates: copy_vec(&self.remaining_candidates),
            remaining_variants: copy_vec(&self.remaining_variants),
            decision_depth: self.decision_depth,
            note: self.note.clone(),
        }
    }
}

/// A copy of a list of plain values.
pub fn copy_vec<T: Copy>(v: &Vec<T>) -> (r: Vec<T>)
    ensures
        r@ == v@,
{
    let mut r: Vec<T> = Vec::new();
    let mut i: usize = 0;
    while i < v.len()
        invariant
            i <= v@.len(),
            r@ == v@.subrange(0, i as int),
        decreases v@.len() - i,
    {
        r.push(v[i]);
        i = i + 1;
        proof {
            assert(r@ =~= v@.subrange(0, i as int));
        }
    }
    proof {
        assert(v@.subrange(0, v@.len() as int) =~= v@);
    }
    r
}

/// The per-cell state of a solve.
#[derive(Clone, Debug, PartialEq)]
pub struct WfcDebugSnapshot {
    pub cells: Vec<WfcCellDebug>,
    pub last_observed_cell: Option<UVec3>,
    pub contradiction: Option<WfcContradiction>,
}

/// Why a solve failed.
#[derive(Clone, Copy, Debug, PartialEq, Eq, Structural)]
pub enum WfcFailureReason {
    InvalidRequest,
    Contradiction,
    BacktrackLimitReached,
    UnsatisfiedGlobalConstraint,
}

/// The display name of a failure reason.
pub open spec fn reason_name(v: WfcFailureReason) -> Seq<char> {
    match v {
        WfcFailureReason::InvalidRequest => "InvalidRequest"@,
        WfcFailureReason::Contradiction => "Contradiction"@,
        WfcFailureReason::BacktrackLimitReached => "BacktrackLimitReached"@,
        WfcFailureReason::UnsatisfiedGlobalConstraint => "UnsatisfiedGlobalConstraint"@,
    }
}

impl WfcFailureReason {
    /// The display name of the reason.
    pub fn name(self) -> (r: &'static str)
        ensures
            r@ == reason_name(self),
    {
        match self {
            WfcFailureReason::InvalidRequest => "InvalidRequest",
            WfcFailureReason::Contradiction => "Contradiction",
            WfcFailureReason::BacktrackLimitReached => "BacktrackLimitReached",
            WfcFailureReason::UnsatisfiedGlobalConstraint => "UnsatisfiedGlobalConstraint",
        }
    }
}

/// A solved grid with its seed, counters and signature.
#[derive(Clone, Debug, PartialEq)]
pub struct WfcSolution {
    pub seed: WfcSeed,
    pub grid: WfcTileGrid,
    pub stats: WfcSolveStats,
    pub debug: Option<WfcDebugSnapshot>,
    pub signature: u64,
}

/// A failed solve with its reason and diagnostics.
#[derive(Clone, Debug, PartialEq)]
pub struct WfcFailure {
    pub reason: WfcFailureReason,
    pub seed: WfcSeed,
    pub topology: WfcTopology,
    pub grid_size: WfcGridSize,
    pub stats: WfcSolveStats,
    pub contradiction: Option<WfcContradiction>,
    pub debug: Option<WfcDebugSnapshot>,
    pub message: String,
}

} // verus!
