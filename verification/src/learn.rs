use vstd::prelude::*;

use crate::config::{
    active_dirs, dir_offset, rule_is, WfcAdjacencyRule, WfcBoundaryStitching, WfcDirection, WfcGridSize, WfcRuleset,
    WfcTileDefinition, WfcTileId, WfcTileSymmetry, WfcTopology,
};
use crate::consistency::count_tile;
use crate::debug::{copy_vec, WfcTileGrid};
use crate::geometry::UVec3;
use crate::grid::{index_spec, position_spec, CompiledGrid};
use crate::rules::ID_SPACE;
use crate::text::decimal_spec;
use crate::weights::{count_weight, f32_bits_of};

verus! {

/// The cell one step from cell `c` in direction `d`, without wrapping.
pub open spec fn step_target(size: WfcGridSize, c: int, d: WfcDirection) -> Option<int> {
    let p = position_spec(size, c);
    let o = dir_offset(d);
    let x = p.x + o.0;
    let y = p.y + o.1;
    let z = p.z + o.2;
    if 0 <= x < size.width && 0 <= y < size.height && 0 <= z < size.depth {
        index_spec(size, UVec3 { x: x as u32, y: y as u32, z: z as u32 })
    } else {
        None
    }
}

/// The neighbour of cell `c` one step in direction `d` holds `n`.
pub open spec fn neighbour_holds(sample: WfcTileGrid, c: int, d: WfcDirection, n: WfcTileId) -> bool {
    match step_target(sample.size, c, d) {
        Some(m) => sample.tiles@[m] == n,
        None => false,
    }
}

/// Some cell holding `t` has a neighbour holding `n` one step in direction `d`.
pub open spec fn observed(sample: WfcTileGrid, t: WfcTileId, d: WfcDirection, n: WfcTileId) -> bool {
    exists|c: int| 0 <= c < sample.tiles@.len() && sample.tiles@[c] == t && #[trigger] neighbour_holds(sample, c, d, n)
}

/// The ids below `k` that occur in `tiles`, in increasing order.
pub open spec fn present_ids_below(tiles: Seq<WfcTileId>, k: int) -> Seq<WfcTileId>
    decreases k,
{
    if k <= 0 {
        Seq::empty()
    } else {
        let before = present_ids_below(tiles, k - 1);
        if tiles.contains(WfcTileId((k - 1) as u16)) {
            before.push(WfcTileId((k - 1) as u16))
        } else {
            before
        }
    }
}

/// The ids that occur in `tiles`, in increasing order.
pub open spec fn present_ids(tiles: Seq<WfcTileId>) -> Seq<WfcTileId> {
    present_ids_below(tiles, ID_SPACE as int)
}

/// The first `k` entries of `ids` that were seen next to `t` in direction `d`.
pub open spec fn seen_prefix(sample: WfcTileGrid, ids: Seq<WfcTileId>, t: WfcTileId, d: WfcDirection, k: int) -> Seq<WfcTileId>
    decreases k,
{
    if k <= 0 {
        Seq::empty()
    } else {
        let before = seen_prefix(sample, ids, t, d, k - 1);
        if observed(sample, t, d, ids[k - 1]) {
            before.push(ids[k - 1])
        } else {
            before
        }
    }
}

/// The neighbours that `t` is given in direction `d`: those seen in the sample, in increasing
/// order, or every tile of the sample if none was seen.
pub open spec fn learned_neighbours(sample: WfcTileGrid, t: WfcTileId, d: WfcDirection) -> Seq<WfcTileId> {
    let ids = present_ids(sample.tiles@);
    let seen = seen_prefix(sample, ids, t, d, ids.len() as int);
    if seen.len() > 0 {
        seen
    } else {
        ids
    }
}

/// A tile occurs exactly when it is counted.
proof fn lemma_count_contains(tiles: Seq<WfcTileId>, t: WfcTileId)
    ensures
        (count_tile(tiles, t) > 0) <==> tiles.contains(t),
    decreases tiles.len(),
{
    if tiles.len() > 0 {
        let rest = tiles.drop_last();
        lemma_count_contains(rest, t);
        if rest.contains(t) {
            let k = choose|k: int| 0 <= k < rest.len() && rest[k] == t;
            assert(tiles[k] == t);
        }
        if tiles.contains(t) && tiles.last() != t {
            let k = choose|k: int| 0 <= k < tiles.len() && tiles[k] == t;
            assert(rest[k] == t);
        }
        if tiles.last() == t {
            assert(tiles[tiles.len() - 1] == t);
        }
    }
}

/// The present ids are increasing, below `k`, and exactly the occurring ids below `k`.
proof fn lemma_present_ids(tiles: Seq<WfcTileId>, k: int)
    requires
        0 <= k <= ID_SPACE,
    ensures
        forall|a: int, b: int|
            0 <= a < b < present_ids_below(tiles, k).len() ==> (#[trigger] present_ids_below(tiles, k)[a]).0
                < (#[trigger] present_ids_below(tiles, k)[b]).0,
        forall|a: int|
            0 <= a < present_ids_below(tiles, k).len() ==> (#[trigger] present_ids_below(tiles, k)[a]).0 < k && tiles.contains(
                present_ids_below(tiles, k)[a],
            ),
        forall|t: WfcTileId| t.0 < k && tiles.contains(t) ==> #[trigger] present_ids_below(tiles, k).contains(t),
        present_ids_below(tiles, k).len() <= k,
    decreases k,
{
    if k > 0 {
        lemma_present_ids(tiles, k - 1);
        let before = present_ids_below(tiles, k - 1);
        let id = WfcTileId((k - 1) as u16);
        assert forall|t: WfcTileId| t.0 < k && tiles.contains(t) implies #[trigger] present_ids_below(tiles, k).contains(t) by {
            if t.0 < k - 1 {
                assert(before.contains(t));
                let j = choose|j: int| 0 <= j < before.len() && before[j] == t;
                if tiles.contains(id) {
                    assert(before.push(id)[j] == t);
                }
            } else {
                assert(t == id);
                assert(present_ids_below(tiles, k)[before.len() as int] == t);
            }
        }
    }
}

/// Every id seen next to `t` in direction `d` among the first `k` ids is kept.
proof fn lemma_seen_prefix_keeps(sample: WfcTileGrid, ids: Seq<WfcTileId>, t: WfcTileId, d: WfcDirection, k: int, j: int)
    requires
        0 <= j < k <= ids.len(),
        observed(sample, t, d, ids[j]),
    ensures
        seen_prefix(sample, ids, t, d, k).contains(ids[j]),
    decreases k,
{
    let before = seen_prefix(sample, ids, t, d, k - 1);
    if j < k - 1 {
        lemma_seen_prefix_keeps(sample, ids, t, d, k - 1, j);
        let w = choose|w: int| 0 <= w < before.len() && before[w] == ids[j];
        if observed(sample, t, d, ids[k - 1]) {
            assert(before.push(ids[k - 1])[w] == ids[j]);
        }
    } else {
        assert(before.push(ids[k - 1])[before.len() as int] == ids[j]);
    }
}

/// The sample obeys the rules learned from it: whatever a cell's in-grid neighbour holds is
/// among the neighbours its tile is given in that direction.
pub proof fn lemma_sample_obeys_learned(sample: WfcTileGrid, c: int, d: WfcDirection)
    requires
        sample.tiles@.len() == sample.size.cells(),
        0 <= c < sample.tiles@.len(),
        step_target(sample.size, c, d) is Some,
    ensures
        learned_neighbours(sample, sample.tiles@[c], d).contains(sample.tiles@[step_target(sample.size, c, d)->0]),
{
    let tiles = sample.tiles@;
    let m = step_target(sample.size, c, d)->0;
    let n = tiles[m];
    let t = tiles[c];
    let p = position_spec(sample.size, c);
    let o = dir_offset(d);
    let q = UVec3 { x: (p.x + o.0) as u32, y: (p.y + o.1) as u32, z: (p.z + o.2) as u32 };
    crate::grid::lemma_index_bounds(sample.size, q);
    assert(0 <= m < tiles.len());
    lemma_present_ids(tiles, ID_SPACE as int);
    let ids = present_ids(tiles);
    assert(tiles.contains(n)) by {
        assert(tiles[m] == n);
    }
    assert(ids.contains(n));
    let j = choose|j: int| 0 <= j < ids.len() && ids[j] == n;
    assert(neighbour_holds(sample, c, d, n));
    assert(observed(sample, t, d, ids[j]));
    lemma_seen_prefix_keeps(sample, ids, t, d, ids.len() as int, j);
}

/// Learn the adjacencies of a hand-placed sample: a ruleset with one tile per id of the
/// sample, weighted by its count, and for each direction and tile the neighbours seen there.
pub fn learn_adjacency_rules(sample: &WfcTileGrid) -> (r: WfcRuleset)
    requires
        sample.tiles@.len() == sample.size.cells(),
        sample.tiles@.len() <= u32::MAX,
        sample.size.width <= i32::MAX,
        sample.size.height <= i32::MAX,
        sample.size.depth <= i32::MAX,
    ensures
        r.topology == sample.topology,
        ({
            let ids = present_ids(sample.tiles@);
            let dirs = active_dirs(sample.topology);
            &&& r.tiles@.len() == ids.len()
            &&& forall|i: int|
                0 <= i < ids.len() ==> {
                    let d = #[trigger] r.tiles@[i];
                    &&& d.id == ids[i]
                    &&& d.weight.0 == f32_bits_of(count_tile(sample.tiles@, ids[i]))
                    &&& d.label@ == "Tile "@ + decimal_spec(ids[i].0 as nat)
                    &&& d.symmetry == WfcTileSymmetry::Fixed
                }
            &&& r.adjacency@.len() == dirs.len() * ids.len()
            &&& forall|j: int, i: int|
                0 <= j < dirs.len() && 0 <= i < ids.len() ==> #[trigger] rule_is(
                    r.adjacency@[j * ids.len() + i],
                    ids[i],
                    dirs[j],
                    learned_neighbours(*sample, ids[i], dirs[j]),
                )
        }),
{
    let topology = sample.topology;
    let directions = WfcDirection::active(topology);
    let cells = sample.tiles.len();
    let mut counts: Vec<u32> = Vec::new();
    let mut k: usize = 0;
    while k < ID_SPACE
        invariant
            k <= ID_SPACE,
            counts@.len() == k,
            forall|x: int| 0 <= x < k ==> #[trigger] counts@[x] == 0,
        decreases ID_SPACE - k,
    {
        counts.push(0);
        k = k + 1;
    }
    let mut c: usize = 0;
    while c < cells
        invariant
            cells == sample.tiles@.len(),
            cells <= u32::MAX,
            c <= cells,
            counts@.len() == ID_SPACE,
            forall|x: int| 0 <= x < ID_SPACE ==> #[trigger] counts@[x] == count_tile(sample.tiles@.take(c as int), WfcTileId(x as u16)),
            forall|x: int| 0 <= x < ID_SPACE ==> #[trigger] counts@[x] <= c,
        decreases cells - c,
    {
        let id = sample.tiles[c];
        let slot = id.0 as usize;
        proof {
            assert(sample.tiles@.take(c + 1).drop_last() =~= sample.tiles@.take(c as int));
            assert(counts@[slot as int] <= c);
        }
        let current = counts[slot];
        counts.set(slot, current + 1);
        proof {
            assert forall|x: int| 0 <= x < ID_SPACE implies #[trigger] counts@[x] == count_tile(
                sample.tiles@.take(c + 1),
                WfcTileId(x as u16),
            ) by {
                assert(sample.tiles@.take(c + 1).last() == id);
                if x != slot {
                    assert(WfcTileId(x as u16) != id);
                }
            }
        }
        c = c + 1;
    }
    proof {
        assert(sample.tiles@.take(cells as int) =~= sample.tiles@);
    }
    let mut ids: Vec<WfcTileId> = Vec::new();
    let mut rank: Vec<usize> = Vec::new();
    let mut k: usize = 0;
    while k < ID_SPACE
        invariant
            k <= ID_SPACE,
            counts@.len() == ID_SPACE,
            forall|x: int| 0 <= x < ID_SPACE ==> #[trigger] counts@[x] == count_tile(sample.tiles@, WfcTileId(x as u16)),
            ids@ == present_ids_below(sample.tiles@, k as int),
            ids@.len() <= k,
            rank@.len() == k,
            forall|x: int| 0 <= x < k && !sample.tiles@.contains(WfcTileId(x as u16)) ==> #[trigger] rank@[x] == usize::MAX,
            forall|x: int|
                0 <= x < k ==> (#[trigger] rank@[x] < ids@.len() <==> sample.tiles@.contains(WfcTileId(x as u16))),
            forall|x: int|
                0 <= x < k && sample.tiles@.contains(WfcTileId(x as u16)) ==> ids@[#[trigger] rank@[x] as int] == WfcTileId(
                    x as u16,
                ),
        decreases ID_SPACE - k,
    {
        proof {
            lemma_count_contains(sample.tiles@, WfcTileId(k as u16));
            lemma_present_ids(sample.tiles@, k as int);
        }
        if counts[k] > 0 {
            rank.push(ids.len());
            ids.push(WfcTileId(k as u16));
        } else {
            rank.push(usize::MAX);
        }
        proof {
            assert forall|x: int| 0 <= x < k + 1 implies (#[trigger] rank@[x] < ids@.len() <==> sample.tiles@.contains(
                WfcTileId(x as u16),
            )) by {
                if x < k {
                    lemma_count_contains(sample.tiles@, WfcTileId(x as u16));
                }
            }
        }
        k = k + 1;
    }
    let ghost present = ids@;
    proof {
        lemma_present_ids(sample.tiles@, ID_SPACE as int);
        assert(present == present_ids(sample.tiles@));
    }
    let np = ids.len();
    let mut tiles: Vec<WfcTileDefinition> = Vec::new();
    let mut i: usize = 0;
    while i < np
        invariant
            np == ids@.len(),
            ids@ == present,
            present == present_ids(sample.tiles@),
            forall|a: int| 0 <= a < np ==> (#[trigger] ids@[a]).0 < ID_SPACE,
            counts@.len() == ID_SPACE,
            forall|x: int| 0 <= x < ID_SPACE ==> #[trigger] counts@[x] == count_tile(sample.tiles@, WfcTileId(x as u16)),
            i <= np,
            tiles@.len() == i,
            forall|a: int|
                0 <= a < i ==> {
                    let d = #[trigger] tiles@[a];
                    &&& d.id == ids@[a]
                    &&& d.weight.0 == f32_bits_of(count_tile(sample.tiles@, ids@[a]))
                    &&& d.label@ == "Tile "@ + decimal_spec(ids@[a].0 as nat)
                    &&& d.symmetry == WfcTileSymmetry::Fixed
                },
        decreases np - i,
    {
        let id = ids[i];
        let weight = count_weight(counts[id.0 as usize]);
        let label = crate::text::with_number("Tile ", id.0 as u64, "");
        proof {
            reveal_strlit("");
            assert(label@ =~= "Tile "@ + decimal_spec(id.0 as nat));
            assert(WfcTileId(id.0 as u16) == id);
        }
        tiles.push(WfcTileDefinition::new(id, weight, label.as_str()));
        i = i + 1;
    }
    let geometry = CompiledGrid { topology: WfcTopology::Cartesian3d, size: sample.size, boundary_stitching: WfcBoundaryStitching::default() };
    let nd = directions.len();
    let mut adjacency: Vec<WfcAdjacencyRule> = Vec::new();
    let mut j: usize = 0;
    while j < nd
        invariant
            nd == directions@.len(),
            directions@ == active_dirs(topology),
            topology == sample.topology,
            np == ids@.len(),
            ids@ == present,
            present == present_ids(sample.tiles@),
            rank@.len() == ID_SPACE,
            forall|x: int|
                0 <= x < ID_SPACE ==> (#[trigger] rank@[x] < ids@.len() <==> sample.tiles@.contains(WfcTileId(x as u16))),
            forall|x: int|
                0 <= x < ID_SPACE && sample.tiles@.contains(WfcTileId(x as u16)) ==> ids@[#[trigger] rank@[x] as int]
                    == WfcTileId(x as u16),
            geometry.size == sample.size,
            geometry.topology == WfcTopology::Cartesian3d,
            sample.tiles@.len() == sample.size.cells(),
            sample.size.width <= i32::MAX,
            sample.size.height <= i32::MAX,
            sample.size.depth <= i32::MAX,
            j <= nd,
            adjacency@.len() == j * np,
            forall|a: int, b: int|
                0 <= a < j && 0 <= b < np ==> #[trigger] rule_is(
                    adjacency@[a * np + b],
                    ids@[b],
                    directions@[a],
                    learned_neighbours(*sample, ids@[b], directions@[a]),
                ),
        decreases nd - j,
    {
        let dir = directions[j];
        let mut b: usize = 0;
        while b < np
            invariant
                nd == directions@.len(),
                directions@ == active_dirs(topology),
                np == ids@.len(),
                ids@ == present,
                present == present_ids(sample.tiles@),
                rank@.len() == ID_SPACE,
                forall|x: int|
                    0 <= x < ID_SPACE ==> (#[trigger] rank@[x] < ids@.len() <==> sample.tiles@.contains(WfcTileId(x as u16))),
                forall|x: int|
                    0 <= x < ID_SPACE && sample.tiles@.contains(WfcTileId(x as u16)) ==> ids@[#[trigger] rank@[x] as int]
                        == WfcTileId(x as u16),
                geometry.size == sample.size,
                geometry.topology == WfcTopology::Cartesian3d,
                sample.tiles@.len() == sample.size.cells(),
                sample.size.width <= i32::MAX,
                sample.size.height <= i32::MAX,
                sample.size.depth <= i32::MAX,
                j < nd,
                dir == directions@[j as int],
                b <= np,
                adjacency@.len() == j * np + b,
                forall|a: int, e: int|
                    0 <= a < j && 0 <= e < np ==> #[trigger] rule_is(
                        adjacency@[a * np + e],
                        ids@[e],
                        directions@[a],
                        learned_neighbours(*sample, ids@[e], directions@[a]),
                    ),
                forall|e: int|
                    0 <= e < b ==> #[trigger] rule_is(
                        adjacency@[j * np + e],
                        ids@[e],
                        directions@[j as int],
                        learned_neighbours(*sample, ids@[e], directions@[j as int]),
                    ),
            decreases np - b,
        {
            let t = ids[b];
            let allowed = neighbours_of(sample, &geometry, &ids, &rank, t, dir);
            let ghost before = adjacency@;
            adjacency.push(WfcAdjacencyRule::new(t, dir, allowed));
            proof {
                assert forall|a: int, e: int|
                    0 <= a < j && 0 <= e < np implies #[trigger] rule_is(
                        adjacency@[a * np + e],
                        ids@[e],
                        directions@[a],
                        learned_neighbours(*sample, ids@[e], directions@[a]),
                    ) by {
                    lemma_row_before(a, e, j as int, b as int, np as int);
                    assert(adjacency@[a * np + e] == before[a * np + e]);
                }
                assert forall|e: int| 0 <= e < b + 1 implies #[trigger] rule_is(
                    adjacency@[j * np + e],
                    ids@[e],
                    directions@[j as int],
                    learned_neighbours(*sample, ids@[e], directions@[j as int]),
                ) by {
                    if e < b {
                        assert(adjacency@[j * np + e] == before[j * np + e]);
                    }
                }
            }
            b = b + 1;
        }
        proof {
            assert((j + 1) * np == j * np + np) by (nonlinear_arith);
        }
        j = j + 1;
    }
    WfcRuleset { topology, tiles, adjacency }
}

/// Entry `(a, e)` of a row-major table with rows of `np` entries lies before `(j, b)` when
/// row `a` comes first.
proof fn lemma_row_before(a: int, e: int, j: int, b: int, np: int)
    requires
        0 <= a < j,
        0 <= e < np,
        0 <= b,
    ensures
        a * np + e < j * np + b,
{
    assert(a * np + e < (a + 1) * np) by (nonlinear_arith)
        requires
            0 <= e < np,
    ;
    assert((a + 1) * np <= j * np) by (nonlinear_arith)
        requires
            a + 1 <= j,
            0 < np,
    ;
}

/// The cell one step from cell `c` in direction `d`, without wrapping.
fn step_from(geometry: &CompiledGrid, c: usize, d: WfcDirection) -> (r: Option<usize>)
    requires
        geometry.topology == WfcTopology::Cartesian3d,
        geometry.size.cells() <= usize::MAX,
        geometry.size.width <= i32::MAX,
        geometry.size.height <= i32::MAX,
        geometry.size.depth <= i32::MAX,
        c < geometry.size.cells(),
    ensures
        r matches Some(m) ==> step_target(geometry.size, c as int, d) == Some(m as int) && m < geometry.size.cells(),
        r is None ==> step_target(geometry.size, c as int, d) is None,
{
    proof {
        crate::grid::lemma_nonempty_dims(geometry.size, c as int);
    }
    let p = geometry.position_of(c);
    let o = d.offset();
    let x = p.x as i64 + o.x as i64;
    let y = p.y as i64 + o.y as i64;
    let z = p.z as i64 + o.z as i64;
    if x < 0 || y < 0 || z < 0 || x >= geometry.size.width as i64 || y >= geometry.size.height as i64 || z
        >= geometry.size.depth as i64 {
        return None;
    }
    geometry.index_of(UVec3 { x: x as u32, y: y as u32, z: z as u32 })
}

/// The neighbours learned for `t` in direction `d`.
fn neighbours_of(
    sample: &WfcTileGrid,
    geometry: &CompiledGrid,
    ids: &Vec<WfcTileId>,
    rank: &Vec<usize>,
    t: WfcTileId,
    d: WfcDirection,
) -> (r: Vec<WfcTileId>)
    requires
        sample.tiles@.len() == sample.size.cells(),
        geometry.size == sample.size,
        geometry.topology == WfcTopology::Cartesian3d,
        sample.size.width <= i32::MAX,
        sample.size.height <= i32::MAX,
        sample.size.depth <= i32::MAX,
        ids@ == present_ids(sample.tiles@),
        rank@.len() == ID_SPACE,
        forall|x: int|
            0 <= x < ID_SPACE ==> (#[trigger] rank@[x] < ids@.len() <==> sample.tiles@.contains(WfcTileId(x as u16))),
        forall|x: int|
            0 <= x < ID_SPACE && sample.tiles@.contains(WfcTileId(x as u16)) ==> ids@[#[trigger] rank@[x] as int]
                == WfcTileId(x as u16),
    ensures
        r@ == learned_neighbours(*sample, t, d),
{
    let np = ids.len();
    let cells = sample.tiles.len();
    proof {
        lemma_present_ids(sample.tiles@, ID_SPACE as int);
    }
    let mut seen: Vec<bool> = Vec::new();
    let mut k: usize = 0;
    while k < np
        invariant
            k <= np,
            seen@.len() == k,
            forall|x: int| 0 <= x < k ==> !#[trigger] seen@[x],
        decreases np - k,
    {
        seen.push(false);
        k = k + 1;
    }
    let mut c: usize = 0;
    while c < cells
        invariant
            sample.tiles@.len() == sample.size.cells(),
            cells == sample.tiles@.len(),
            geometry.size == sample.size,
            geometry.topology == WfcTopology::Cartesian3d,
            sample.size.width <= i32::MAX,
            sample.size.height <= i32::MAX,
            sample.size.depth <= i32::MAX,
            np == ids@.len(),
            ids@ == present_ids(sample.tiles@),
            rank@.len() == ID_SPACE,
            forall|x: int|
                0 <= x < ID_SPACE ==> (#[trigger] rank@[x] < ids@.len() <==> sample.tiles@.contains(WfcTileId(x as u16))),
            forall|x: int|
                0 <= x < ID_SPACE && sample.tiles@.contains(WfcTileId(x as u16)) ==> ids@[#[trigger] rank@[x] as int]
                    == WfcTileId(x as u16),
            c <= cells,
            seen@.len() == np,
            forall|a: int, b: int| 0 <= a < b < np ==> (#[trigger] ids@[a]).0 < (#[trigger] ids@[b]).0,
            forall|e: int|
                0 <= e < np ==> (#[trigger] seen@[e] <==> exists|q: int|
                    0 <= q < c && sample.tiles@[q] == t && #[trigger] neighbour_holds(*sample, q, d, ids@[e])),
        decreases cells - c,
    {
        if sample.tiles[c] == t {
            match step_from(geometry, c, d) {
                Some(m) => {
                    let n = sample.tiles[m];
                    let slot = rank[n.0 as usize];
                    proof {
                        assert(sample.tiles@.contains(n)) by {
                            assert(sample.tiles@[m as int] == n);
                        }
                        assert(WfcTileId(n.0 as u16) == n);
                        assert(neighbour_holds(*sample, c as int, d, n));
                    }
                    let ghost before = seen@;
                    seen.set(slot, true);
                    proof {
                        assert forall|e: int|
                            0 <= e < np implies (#[trigger] seen@[e] <==> exists|q: int|
                                0 <= q < c + 1 && sample.tiles@[q] == t && #[trigger] neighbour_holds(*sample, q, d, ids@[e])) by {
                            if e == slot {
                                assert(ids@[e] == n);
                            } else {
                                if exists|q: int| 0 <= q < c + 1 && sample.tiles@[q] == t && #[trigger] neighbour_holds(*sample, q, d, ids@[e]) {
                                    let q = choose|q: int| 0 <= q < c + 1 && sample.tiles@[q] == t && #[trigger] neighbour_holds(*sample, q, d, ids@[e]);
                                    if q == c {
                                        assert(ids@[e] == n);
                                        assert(ids@[e] == ids@[slot as int]);
                                        if e < slot {
                                            assert((ids@[e]).0 < (ids@[slot as int]).0);
                                        } else {
                                            assert((ids@[slot as int]).0 < (ids@[e]).0);
                                        }
                                    }
                                }
                            }
                        }
                    }
                },
                None => {
                    proof {
                        assert forall|e: int|
                            0 <= e < np implies (#[trigger] seen@[e] <==> exists|q: int|
                                0 <= q < c + 1 && sample.tiles@[q] == t && #[trigger] neighbour_holds(*sample, q, d, ids@[e])) by {
                            assert(!neighbour_holds(*sample, c as int, d, ids@[e]));
                        }
                    }
                },
            }
        }
        c = c + 1;
    }
    let mut allowed: Vec<WfcTileId> = Vec::new();
    let mut e: usize = 0;
    while e < np
        invariant
            np == ids@.len(),
            seen@.len() == np,
            cells == sample.tiles@.len(),
            forall|x: int|
                0 <= x < np ==> (#[trigger] seen@[x] <==> observed(*sample, t, d, ids@[x])),
            e <= np,
            allowed@ == seen_prefix(*sample, ids@, t, d, e as int),
        decreases np - e,
    {
        if seen[e] {
            allowed.push(ids[e]);
        }
        e = e + 1;
    }
    if allowed.len() == 0 {
        return copy_vec(ids);
    }
    allowed
}

} // verus!
