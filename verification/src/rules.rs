use vstd::prelude::*;
use vstd::set_lib::{lemma_int_range, lemma_len_subset, lemma_map_size, set_int_range};

use crate::bitset::DomainBits;
use crate::config::{
    active_dirs, direction_debug_name, inverse_rotate, rotate_cw, rotate_cw_times, symmetry_debug_name,
    topology_debug_name, unique_rotations_spec, weight_is_valid, WfcAdjacencyRule, WfcDirection, WfcRuleset, WfcTileDefinition, WfcTileId,
    WfcTileSymmetry, WfcTopology, WfcWeight,
};
use crate::debug::WfcTileVariant;
use crate::text::{decimal_spec, join3};

verus! {

/// Marks an id that no tile of the ruleset carries.
pub const NO_FAMILY: u32 = 0xFFFF_FFFFu32;

/// The number of distinct tile ids.
pub const ID_SPACE: usize = 65536usize;

/// One authored tile and the range of variants it expands to.
#[derive(Clone, Copy, Debug)]
pub struct TileFamily {
    pub id: WfcTileId,
    pub weight: WfcWeight,
    pub start: usize,
    pub rotations: u8,
}

/// One rotated variant of a tile.
#[derive(Clone, Copy, Debug)]
pub struct TileVariantEntry {
    pub tile_id: WfcTileId,
    pub rotation_steps: u8,
    pub family: usize,
}

/// The weight of one variant: its family's weight divided evenly among `share` rotations.
#[derive(Clone, Copy, Debug, PartialEq, Eq, Structural)]
pub struct VariantWeight {
    pub family_weight: WfcWeight,
    pub share: u8,
}

/// The position of a direction in its topology's direction list.
pub open spec fn dir_index(topology: WfcTopology, d: WfcDirection) -> int {
    match topology {
        WfcTopology::Hex2d => match d {
            WfcDirection::HexEast => 0,
            WfcDirection::HexWest => 1,
            WfcDirection::HexNorthEast => 2,
            WfcDirection::HexNorthWest => 3,
            WfcDirection::HexSouthEast => 4,
            WfcDirection::HexSouthWest => 5,
            _ => -1,
        },
        _ => match d {
            WfcDirection::XPos => 0,
            WfcDirection::XNeg => 1,
            WfcDirection::YPos => 2,
            WfcDirection::YNeg => 3,
            WfcDirection::ZPos => if topology == WfcTopology::Cartesian3d { 4 } else { -1 },
            WfcDirection::ZNeg => if topology == WfcTopology::Cartesian3d { 5 } else { -1 },
            _ => -1,
        },
    }
}

pub proof fn lemma_dir_index(topology: WfcTopology, d: WfcDirection)
    ensures
        active_dirs(topology).contains(d) <==> 0 <= dir_index(topology, d) < active_dirs(
            topology,
        ).len(),
        active_dirs(topology).contains(d) ==> active_dirs(topology)[dir_index(topology, d)] == d,
        forall|i: int|
            0 <= i < active_dirs(topology).len() ==> dir_index(topology, #[trigger] active_dirs(
                topology,
            )[i]) == i,
{
    let a = active_dirs(topology);
    if 0 <= dir_index(topology, d) < a.len() {
        assert(a[dir_index(topology, d)] == d);
    }
}

/// Turning a direction the topology uses yields another one it uses.
pub proof fn lemma_inverse_rotate_active(d: WfcDirection, steps: u8, topology: WfcTopology)
    requires
        active_dirs(topology).contains(d),
    ensures
        active_dirs(topology).contains(inverse_rotate(d, steps, topology)),
{
    if topology == WfcTopology::Cartesian2d {
        lemma_rotate_planar(d, ((4 - steps % 4) % 4) as nat);
        let r = inverse_rotate(d, steps, topology);
        lemma_dir_index(topology, r);
        lemma_dir_index(topology, d);
    }
}

proof fn lemma_rotate_planar(d: WfcDirection, k: nat)
    requires
        active_dirs(WfcTopology::Cartesian2d).contains(d),
    ensures
        active_dirs(WfcTopology::Cartesian2d).contains(rotate_cw_times(d, k)),
    decreases k,
{
    lemma_dir_index(WfcTopology::Cartesian2d, d);
    if k > 0 {
        lemma_rotate_planar(d, (k - 1) as nat);
        let prev = rotate_cw_times(d, (k - 1) as nat);
        lemma_dir_index(WfcTopology::Cartesian2d, prev);
        lemma_dir_index(WfcTopology::Cartesian2d, rotate_cw(prev));
    }
}

/// The number of variants the first `k` tiles expand to.
pub open spec fn family_start(tiles: Seq<WfcTileDefinition>, topology: WfcTopology, k: int) -> nat
    decreases k,
{
    if k <= 0 {
        0
    } else {
        family_start(tiles, topology, k - 1) + unique_rotations_spec(tiles[k - 1].symmetry, topology) as nat
    }
}

/// The number of variants a ruleset expands to.
pub open spec fn variant_total(tiles: Seq<WfcTileDefinition>, topology: WfcTopology) -> nat {
    family_start(tiles, topology, tiles.len() as int)
}

pub proof fn lemma_family_start_mono(tiles: Seq<WfcTileDefinition>, topology: WfcTopology, j: int, k: int)
    requires
        0 <= j <= k,
    ensures
        family_start(tiles, topology, j) <= family_start(tiles, topology, k),
        j < k ==> family_start(tiles, topology, j) + unique_rotations_spec(tiles[j].symmetry, topology)
            <= family_start(tiles, topology, k),
        family_start(tiles, topology, k) <= 4 * k,
    decreases k,
{
    if k > 0 {
        if j < k {
            lemma_family_start_mono(tiles, topology, j, k - 1);
        } else {
            lemma_family_start_mono(tiles, topology, k - 1, k - 1);
        }
    }
}

/// A tile of the list carries `id`.
pub open spec fn tile_known(tiles: Seq<WfcTileDefinition>, id: WfcTileId) -> bool {
    exists|k: int| 0 <= k < tiles.len() && tiles[k].id == id
}

/// Some rule says that `a` allows `b` in direction `d`.
pub open spec fn rule_allows(rules: Seq<WfcAdjacencyRule>, a: WfcTileId, d: WfcDirection, b: WfcTileId) -> bool {
    exists|k: int|
        0 <= k < rules.len() && rules[k].tile == a && rules[k].direction == d
            && #[trigger] rules[k].allowed_tiles@.contains(b)
}

/// No two tiles share an id.
pub open spec fn ids_distinct(tiles: Seq<WfcTileDefinition>) -> bool {
    forall|i: int, j: int| 0 <= i < j < tiles.len() ==> tiles[i].id != tiles[j].id
}

/// Every rule names a direction of the topology and only declared tiles.
pub open spec fn rule_refs_known(rs: WfcRuleset, r: WfcAdjacencyRule) -> bool {
    &&& active_dirs(rs.topology).contains(r.direction)
    &&& tile_known(rs.tiles@, r.tile)
    &&& forall|a: int| 0 <= a < r.allowed_tiles@.len() ==> tile_known(rs.tiles@, #[trigger] r.allowed_tiles@[a])
}

/// The authoring requirements that compilation checks.
pub open spec fn ruleset_accepts(rs: WfcRuleset) -> bool {
    &&& rs.tiles@.len() > 0
    &&& forall|k: int| 0 <= k < rs.tiles@.len() ==> weight_is_valid(#[trigger] rs.tiles@[k].weight.0)
    &&& ids_distinct(rs.tiles@)
    &&& rs.topology == WfcTopology::Cartesian3d ==> forall|k: int|
        0 <= k < rs.tiles@.len() ==> #[trigger] rs.tiles@[k].symmetry == WfcTileSymmetry::Fixed
    &&& forall|k: int| 0 <= k < rs.adjacency@.len() ==> rule_refs_known(rs, #[trigger] rs.adjacency@[k])
    &&& forall|k: int, d: int|
        0 <= k < rs.tiles@.len() && 0 <= d < active_dirs(rs.topology).len() ==> #[trigger] tile_dir_covered(rs, k, d)
}

/// The debug text of a tile id, such as `WfcTileId(3)`.
pub open spec fn id_text(id: WfcTileId) -> Seq<char> {
    "WfcTileId("@ + decimal_spec(id.0 as nat) + ")"@
}

/// What compilation finds wrong with tile `k`, given the tiles before it; the checks run in
/// this order.
pub open spec fn tile_problem(rs: WfcRuleset, k: int) -> Option<Seq<char>> {
    let t = rs.tiles@[k];
    if !weight_is_valid(t.weight.0) {
        Some("tile "@ + id_text(t.id) + " must have a finite positive weight"@)
    } else if exists|j: int| 0 <= j < k && #[trigger] rs.tiles@[j].id == t.id {
        Some("duplicate tile id "@ + id_text(t.id))
    } else if rs.topology == WfcTopology::Cartesian3d && t.symmetry != WfcTileSymmetry::Fixed {
        Some(
            "tile "@ + id_text(t.id) + " uses "@ + symmetry_debug_name(t.symmetry)
                + ", but automatic rotation currently supports only Cartesian2d"@,
        )
    } else {
        None
    }
}

/// The problem of the first tile among the first `k` that has one.
pub open spec fn first_tile_problem(rs: WfcRuleset, k: int) -> Option<Seq<char>>
    decreases k,
{
    if k <= 0 {
        None
    } else if first_tile_problem(rs, k - 1) is Some {
        first_tile_problem(rs, k - 1)
    } else {
        tile_problem(rs, k - 1)
    }
}

/// The first among the first `a` allowed tiles of `r` that no tile of the ruleset carries.
pub open spec fn first_unknown_allowed(rs: WfcRuleset, r: WfcAdjacencyRule, a: int) -> Option<WfcTileId>
    decreases a,
{
    if a <= 0 {
        None
    } else if first_unknown_allowed(rs, r, a - 1) is Some {
        first_unknown_allowed(rs, r, a - 1)
    } else if !tile_known(rs.tiles@, r.allowed_tiles@[a - 1]) {
        Some(r.allowed_tiles@[a - 1])
    } else {
        None
    }
}

/// What compilation finds wrong with rule `r`; the checks run in this order.
pub open spec fn rule_problem(rs: WfcRuleset, r: WfcAdjacencyRule) -> Option<Seq<char>> {
    if !active_dirs(rs.topology).contains(r.direction) {
        Some(
            "direction "@ + direction_debug_name(r.direction) + " is invalid for topology "@ + topology_debug_name(
                rs.topology,
            ),
        )
    } else if !tile_known(rs.tiles@, r.tile) {
        Some("adjacency rule references unknown tile "@ + id_text(r.tile))
    } else {
        match first_unknown_allowed(rs, r, r.allowed_tiles@.len() as int) {
            Some(b) => Some("adjacency rule references unknown allowed tile "@ + id_text(b)),
            None => None,
        }
    }
}

/// The problem of the first rule among the first `n` that has one.
pub open spec fn first_rule_problem(rs: WfcRuleset, n: int) -> Option<Seq<char>>
    decreases n,
{
    if n <= 0 {
        None
    } else if first_rule_problem(rs, n - 1) is Some {
        first_rule_problem(rs, n - 1)
    } else {
        rule_problem(rs, rs.adjacency@[n - 1])
    }
}

/// Some rule is given for tile `a` in direction `d`.
pub open spec fn has_rule(rules: Seq<WfcAdjacencyRule>, a: WfcTileId, d: WfcDirection) -> bool {
    exists|q: int| 0 <= q < rules.len() && #[trigger] rules[q].tile == a && rules[q].direction == d
}

/// What compilation finds wrong with tile `k` in the `d`-th direction: no rule for it, or no
/// neighbour allowed by its rules.
pub open spec fn coverage_problem(rs: WfcRuleset, d: int, k: int) -> Option<Seq<char>> {
    let id = rs.tiles@[k].id;
    let dir = active_dirs(rs.topology)[d];
    if !has_rule(rs.adjacency@, id, dir) {
        Some("missing adjacency rule for tile "@ + id_text(id) + " in direction "@ + direction_debug_name(dir))
    } else if !tile_dir_covered(rs, k, d) {
        Some("tile "@ + id_text(id) + " has no valid neighbors in direction "@ + direction_debug_name(dir))
    } else {
        None
    }
}

/// The first problem among the first `k` tiles in the `d`-th direction.
pub open spec fn first_in_direction(rs: WfcRuleset, d: int, k: int) -> Option<Seq<char>>
    decreases k,
{
    if k <= 0 {
        None
    } else if first_in_direction(rs, d, k - 1) is Some {
        first_in_direction(rs, d, k - 1)
    } else {
        coverage_problem(rs, d, k - 1)
    }
}

/// The first problem among the first `d` directions, each checked over all tiles.
pub open spec fn first_coverage_problem(rs: WfcRuleset, d: int) -> Option<Seq<char>>
    decreases d,
{
    if d <= 0 {
        None
    } else if first_coverage_problem(rs, d - 1) is Some {
        first_coverage_problem(rs, d - 1)
    } else {
        first_in_direction(rs, d - 1, rs.tiles@.len() as int)
    }
}

/// The error that compiling `rs` reports, if any: tiles are checked first, then rules, then
/// the coverage of every tile in every direction.
pub open spec fn ruleset_error(rs: WfcRuleset) -> Option<Seq<char>> {
    if rs.tiles@.len() == 0 {
        Some("ruleset must contain at least one tile"@)
    } else if first_tile_problem(rs, rs.tiles@.len() as int) is Some {
        first_tile_problem(rs, rs.tiles@.len() as int)
    } else if first_rule_problem(rs, rs.adjacency@.len() as int) is Some {
        first_rule_problem(rs, rs.adjacency@.len() as int)
    } else {
        first_coverage_problem(rs, active_dirs(rs.topology).len() as int)
    }
}

proof fn lemma_first_tile_stable(rs: WfcRuleset, a: int, b: int)
    requires
        0 <= a <= b,
        first_tile_problem(rs, a) is Some,
    ensures
        first_tile_problem(rs, b) == first_tile_problem(rs, a),
    decreases b - a,
{
    if a < b {
        lemma_first_tile_stable(rs, a, b - 1);
    }
}

proof fn lemma_first_allowed_stable(rs: WfcRuleset, r: WfcAdjacencyRule, a: int, b: int)
    requires
        0 <= a <= b,
        first_unknown_allowed(rs, r, a) is Some,
    ensures
        first_unknown_allowed(rs, r, b) == first_unknown_allowed(rs, r, a),
    decreases b - a,
{
    if a < b {
        lemma_first_allowed_stable(rs, r, a, b - 1);
    }
}

proof fn lemma_first_rule_stable(rs: WfcRuleset, a: int, b: int)
    requires
        0 <= a <= b,
        first_rule_problem(rs, a) is Some,
    ensures
        first_rule_problem(rs, b) == first_rule_problem(rs, a),
    decreases b - a,
{
    if a < b {
        lemma_first_rule_stable(rs, a, b - 1);
    }
}

proof fn lemma_first_in_direction_stable(rs: WfcRuleset, d: int, a: int, b: int)
    requires
        0 <= a <= b,
        first_in_direction(rs, d, a) is Some,
    ensures
        first_in_direction(rs, d, b) == first_in_direction(rs, d, a),
    decreases b - a,
{
    if a < b {
        lemma_first_in_direction_stable(rs, d, a, b - 1);
    }
}

proof fn lemma_first_coverage_stable(rs: WfcRuleset, a: int, b: int)
    requires
        0 <= a <= b,
        first_coverage_problem(rs, a) is Some,
    ensures
        first_coverage_problem(rs, b) == first_coverage_problem(rs, a),
    decreases b - a,
{
    if a < b {
        lemma_first_coverage_stable(rs, a, b - 1);
    }
}

/// Some rule gives tile `k` a neighbour in the `d`-th direction of the topology.
pub open spec fn tile_dir_covered(rs: WfcRuleset, k: int, d: int) -> bool {
    exists|b: WfcTileId| #[trigger] rule_allows(rs.adjacency@, rs.tiles@[k].id, active_dirs(rs.topology)[d], b)
}

/// Family `f`, at position `j`, mirrors tile `j`.
pub open spec fn family_mirrors(tiles: Seq<WfcTileDefinition>, topology: WfcTopology, f: TileFamily, j: int) -> bool {
    &&& f.id == tiles[j].id
    &&& f.weight == tiles[j].weight
    &&& f.rotations == unique_rotations_spec(tiles[j].symmetry, topology)
    &&& f.start == family_start(tiles, topology, j)
}

/// The family table mirrors the first tiles.
pub open spec fn families_match(tiles: Seq<WfcTileDefinition>, topology: WfcTopology, fams: Seq<TileFamily>) -> bool {
    &&& fams.len() <= tiles.len()
    &&& forall|j: int| #![trigger fams[j]] 0 <= j < fams.len() ==> family_mirrors(tiles, topology, fams[j], j)
}

/// Each variant lies in the range of its family, at its rotation.
pub open spec fn variants_match(fams: Seq<TileFamily>, vars: Seq<TileVariantEntry>) -> bool {
    &&& forall|v: int|
        0 <= v < vars.len() ==> {
            let k = #[trigger] vars[v].family as int;
            &&& 0 <= k < fams.len()
            &&& fams[k].start <= v < fams[k].start + fams[k].rotations
            &&& vars[v].rotation_steps == v - fams[k].start
            &&& vars[v].tile_id == fams[k].id
        }
    &&& forall|k: int| 0 <= k < fams.len() ==> #[trigger] fams[k].start + fams[k].rotations <= vars.len()
}

/// The id table finds exactly the families.
pub open spec fn lookup_match(fams: Seq<TileFamily>, lookup: Seq<u32>) -> bool {
    &&& lookup.len() == ID_SPACE
    &&& forall|id: int|
        0 <= id < ID_SPACE ==> #[trigger] lookup[id] == NO_FAMILY || (lookup[id] < fams.len()
            && fams[lookup[id] as int].id.0 == id)
    &&& forall|k: int| 0 <= k < fams.len() ==> lookup[#[trigger] fams[k].id.0 as int] == k
}

/// Pairwise distinct ids among the first `k` entries leave at most one entry per id.
proof fn lemma_distinct_bound(fams: Seq<TileFamily>)
    requires
        forall|i: int, j: int| 0 <= i < j < fams.len() ==> fams[i].id != fams[j].id,
    ensures
        fams.len() <= ID_SPACE,
{
    let x = set_int_range(0, fams.len() as int);
    let f = |j: int| fams[j].id.0 as int;
    lemma_int_range(0, fams.len() as int);
    lemma_int_range(0, ID_SPACE as int);
    let y = x.map(f);
    assert(vstd::relations::injective_on(f, x)) by {
        assert forall|a: int, b: int| x.contains(a) && x.contains(b) && #[trigger] f(a) == #[trigger] f(b) implies a == b by {
            if a < b {
                assert(fams[a].id != fams[b].id);
            } else if b < a {
                assert(fams[b].id != fams[a].id);
            }
        }
    }
    lemma_map_size(x, y, f);
    assert(y.subset_of(set_int_range(0, ID_SPACE as int))) by {
        assert forall|v: int| y.contains(v) implies set_int_range(0, ID_SPACE as int).contains(v) by {
            let j = choose|j: int| x.contains(j) && f(j) == v;
        }
    }
    lemma_len_subset(y, set_int_range(0, ID_SPACE as int));
}

/// A ruleset compiled into dense variant indices and per-direction compatibility masks.
#[derive(Debug)]
pub struct CompiledRuleset {
    pub topology: WfcTopology,
    pub families: Vec<TileFamily>,
    pub family_of_id: Vec<u32>,
    pub variants: Vec<TileVariantEntry>,
    pub allowed: Vec<Vec<DomainBits>>,
}

impl CompiledRuleset {
    /// The number of variants.
    pub open spec fn count(&self) -> nat {
        self.variants@.len()
    }

    /// Whether variant `u` may stand in direction `d` of variant `v`.
    pub open spec fn allows(&self, d: WfcDirection, v: int, u: int) -> bool {
        self.allowed@[dir_index(self.topology, d)]@[v]@[u]
    }

    pub open spec fn wf(&self) -> bool {
        &&& self.families@.len() > 0
        &&& lookup_match(self.families@, self.family_of_id@)
        &&& variants_match(self.families@, self.variants@)
        &&& families_are_contiguous(self.families@)
        &&& forall|k: int| 0 <= k < self.families@.len() ==> 1 <= #[trigger] self.families@[k].rotations <= 4
        &&& self.count() + 63 <= usize::MAX
        &&& self.count() <= 4 * ID_SPACE
        &&& self.allowed@.len() == active_dirs(self.topology).len()
        &&& forall|d: int|
            0 <= d < self.allowed@.len() ==> #[trigger] self.allowed@[d]@.len() == self.count()
        &&& forall|d: int, v: int|
            0 <= d < self.allowed@.len() && 0 <= v < self.count() ==> {
                &&& (#[trigger] self.allowed@[d]@[v]).wf()
                &&& self.allowed@[d]@[v].len_spec() == self.count()
                &&& self.allowed@[d]@[v].clean()
            }
    }

    /// The compiled tables agree with `rs`: families, variants and masks.
    pub open spec fn compiled_from(&self, rs: WfcRuleset) -> bool {
        &&& self.topology == rs.topology
        &&& self.families@.len() == rs.tiles@.len()
        &&& families_match(rs.tiles@, rs.topology, self.families@)
        &&& self.count() == variant_total(rs.tiles@, rs.topology)
        &&& forall|d: WfcDirection, v: int, u: int|
            active_dirs(rs.topology).contains(d) && 0 <= v < self.count() && 0 <= u < self.count()
                ==> (#[trigger] self.allows(d, v, u) <==> self.rule_permits(rs, d, v, u))
    }

    /// What the authored rules say about variant `u` next to variant `v` in direction `d`.
    pub open spec fn rule_permits(&self, rs: WfcRuleset, d: WfcDirection, v: int, u: int) -> bool {
        let ev = self.variants@[v];
        let eu = self.variants@[u];
        &&& rule_allows(
            rs.adjacency@,
            ev.tile_id,
            inverse_rotate(d, ev.rotation_steps, rs.topology),
            eu.tile_id,
        )
        &&& eu.rotation_steps == ev.rotation_steps % self.families@[eu.family as int].rotations
    }

    pub proof fn lemma_variant_unique(&self, k: int, m: int, u: int)
        requires
            self.wf(),
            0 <= k < self.families@.len(),
            0 <= m < self.families@[k].rotations,
            0 <= u < self.count(),
        ensures
            (u == self.families@[k].start + m) <==> (self.variants@[u].family == k
                && self.variants@[u].rotation_steps == m),
    {
        let j = self.variants@[u].family as int;
        if j != k {
            lemma_contiguous_disjoint(self.families@, j, k);
        }
    }

    pub fn compile(ruleset: &WfcRuleset) -> (r: Result<Self, String>)
        ensures
            r is Ok <==> ruleset_accepts(*ruleset),
            r is Ok <==> ruleset_error(*ruleset) is None,
            r matches Err(m) ==> ruleset_error(*ruleset) == Some(m@),
            r matches Ok(c) ==> c.wf() && c.compiled_from(*ruleset),
    {
        if ruleset.tiles.len() == 0 {
            return Err("ruleset must contain at least one tile".to_owned());
        }
        let (families, family_of_id, variants) = match compile_families(ruleset) {
            Ok(parts) => parts,
            Err(e) => return Err(e),
        };
        let directions = WfcDirection::active(ruleset.topology);
        let (canonical, provided) = match compile_canonical(ruleset, &family_of_id, &families, &directions) {
            Ok(c) => c,
            Err(e) => return Err(e),
        };
        let coverage = check_coverage(ruleset, &families, &canonical, &provided, &directions);
        proof {
            lemma_coverage_iff(*ruleset, families@, canonical@, directions@);
        }
        match coverage {
            Ok(()) => {},
            Err(e) => return Err(e),
        }
        proof {
            lemma_variant_total_bound(ruleset.tiles@, ruleset.topology);
        }
        let allowed = build_allowed(ruleset, &families, &variants, &canonical, &directions);
        let compiled = CompiledRuleset {
            topology: ruleset.topology,
            families,
            family_of_id,
            variants,
            allowed,
        };
        proof {
            assert forall|k: int| 0 <= k < compiled.families@.len() implies 1 <= #[trigger] compiled.families@[k].rotations <= 4 by {
                assert(family_mirrors(ruleset.tiles@, ruleset.topology, compiled.families@[k], k));
            }
            assert(compiled.wf());
            lemma_compiled_masks(*ruleset, compiled, canonical@, directions@);
        }
        Ok(compiled)
    }

    pub fn topology(&self) -> (r: WfcTopology)
        ensures
            r == self.topology,
    {
        self.topology
    }

    pub fn tile_count(&self) -> (r: usize)
        ensures
            r == self.count(),
    {
        self.variants.len()
    }

    pub fn tile_id(&self, index: usize) -> (r: WfcTileId)
        requires
            index < self.count(),
        ensures
            r == self.variants@[index as int].tile_id,
    {
        self.variants[index].tile_id
    }

    pub fn tile_rotation(&self, index: usize) -> (r: u8)
        requires
            index < self.count(),
        ensures
            r == self.variants@[index as int].rotation_steps,
    {
        self.variants[index].rotation_steps
    }

    pub fn tile_variant(&self, index: usize) -> (r: WfcTileVariant)
        requires
            index < self.count(),
        ensures
            r.tile == self.variants@[index as int].tile_id,
            r.rotation_steps == self.variants@[index as int].rotation_steps,
    {
        WfcTileVariant::new(self.variants[index].tile_id, self.variants[index].rotation_steps)
    }

    /// The variant of `tile_id` at `rotation_steps` modulo the family's rotation count.
    pub fn variant_index(&self, tile_id: WfcTileId, rotation_steps: u8) -> (r: Option<usize>)
        requires
            self.wf(),
        ensures
            r is None <==> self.family_of_id@[tile_id.0 as int] == NO_FAMILY,
            r matches Some(v) ==> {
                let k = self.family_of_id@[tile_id.0 as int] as int;
                &&& v == self.families@[k].start + rotation_steps % self.families@[k].rotations
                &&& v < self.count()
                &&& self.variants@[v as int].tile_id == tile_id
            },
    {
        let k = self.family_of_id[tile_id.0 as usize];
        if k == NO_FAMILY {
            return None;
        }
        let family = self.families[k as usize];
        proof {
            let v = family.start + rotation_steps % family.rotations;
            self.lemma_variant_unique(k as int, (rotation_steps % family.rotations) as int, v);
        }
        Some(family.start + (rotation_steps % family.rotations) as usize)
    }

    /// The weight with which variant `index` is sampled.
    pub fn weight(&self, index: usize) -> (r: VariantWeight)
        requires
            self.wf(),
            index < self.count(),
        ensures
            r.family_weight == self.families@[self.variants@[index as int].family as int].weight,
            r.share == self.families@[self.variants@[index as int].family as int].rotations,
    {
        let family = self.families[self.variants[index].family];
        VariantWeight { family_weight: family.weight, share: family.rotations }
    }

    pub fn full_domain(&self) -> (r: DomainBits)
        requires
            self.wf(),
        ensures
            r.wf(),
            r.len_spec() == self.count(),
            r.clean(),
            forall|i: int| 0 <= i < r@.len() ==> #[trigger] r@[i] == (i < self.count()),
    {
        DomainBits::full(self.variants.len())
    }

    /// The variants of the listed tiles; fails on the first id that no tile carries.
    pub fn mask_for_tiles(&self, tile_ids: &Vec<WfcTileId>) -> (r: Result<DomainBits, String>)
        requires
            self.wf(),
        ensures
            r is Ok <==> forall|i: int|
                0 <= i < tile_ids@.len() ==> self.family_of_id@[#[trigger] tile_ids@[i].0 as int]
                    != NO_FAMILY,
            r matches Ok(m) ==> {
                &&& m.wf()
                &&& m.len_spec() == self.count()
                &&& m.clean()
                &&& forall|u: int|
                    0 <= u < self.count() ==> (#[trigger] m@[u] <==> tile_ids@.contains(
                        self.variants@[u].tile_id,
                    ))
            },
            r matches Err(m) ==> exists|i: int|
                0 <= i < tile_ids@.len() && self.family_of_id@[#[trigger] tile_ids@[i].0 as int] == NO_FAMILY
                    && m@ == "unknown tile id "@ + id_text(tile_ids@[i]),
    {
        let n = self.variants.len();
        let mut mask = DomainBits::empty(n);
        proof {
            mask.lemma_wf_len();
            assert(tile_ids@.take(0) =~= Seq::<WfcTileId>::empty());
        }
        let mut i: usize = 0;
        while i < tile_ids.len()
            invariant
                self.wf(),
                n == self.count(),
                i <= tile_ids@.len(),
                mask.wf(),
                mask.len_spec() == n,
                mask.clean(),
                forall|j: int| 0 <= j < i ==> self.family_of_id@[#[trigger] tile_ids@[j].0 as int] != NO_FAMILY,
                forall|u: int|
                    0 <= u < n ==> (#[trigger] mask@[u] <==> tile_ids@.take(i as int).contains(
                        self.variants@[u].tile_id,
                    )),
            decreases tile_ids@.len() - i,
        {
            let id = tile_ids[i];
            let k = self.family_of_id[id.0 as usize];
            if k == NO_FAMILY {
                let mut message = "unknown tile id ".to_owned();
                let text = id.debug_text();
                message.append(text.as_str());
                proof {
                    assert(message@ =~= "unknown tile id "@ + id_text(tile_ids@[i as int]));
                }
                return Err(message);
            }
            let family = self.families[k as usize];
            proof {
                mask.lemma_wf_len();
            }
            let mut m: u8 = 0;
            while m < family.rotations
                invariant
                    self.wf(),
                    n == self.count(),
                    family == self.families@[k as int],
                    (k as int) < self.families@.len(),
                    family.id == id,
                    m <= family.rotations,
                    mask.wf(),
                    mask.len_spec() == n,
                    mask.clean(),
                    forall|u: int|
                        0 <= u < n ==> (#[trigger] mask@[u] <==> (tile_ids@.take(i as int).contains(
                            self.variants@[u].tile_id,
                        ) || (self.variants@[u].family == k && self.variants@[u].rotation_steps < m))),
                decreases family.rotations - m,
            {
                let ghost before = mask@;
                proof {
                    mask.lemma_wf_len();
                }
                mask.insert(family.start + m as usize);
                proof {
                    let target = family.start + m;
                    assert forall|u: int| 0 <= u < n implies (#[trigger] mask@[u] <==> (tile_ids@.take(
                        i as int,
                    ).contains(self.variants@[u].tile_id) || (self.variants@[u].family == k
                        && self.variants@[u].rotation_steps < m + 1))) by {
                        let j = self.variants@[u].family as int;
                        if u == target {
                            assert(self.variants@[u].family == k) by {
                                if j != k {
                                    lemma_family_ranges_disjoint(self.families@, self.variants@, j, k as int, u);
                                }
                            }
                        } else if j == k {
                            assert(self.variants@[u].rotation_steps != m);
                        }
                    }
                }
                m = m + 1;
            }
            proof {
                assert forall|u: int| 0 <= u < n implies (#[trigger] mask@[u] <==> tile_ids@.take(
                    i + 1,
                ).contains(self.variants@[u].tile_id)) by {
                    let t = tile_ids@.take(i as int);
                    let t1 = tile_ids@.take(i + 1);
                    assert(t1 =~= t.push(id));
                    let j = self.variants@[u].family as int;
                    if self.variants@[u].tile_id == id {
                        assert(self.family_of_id@[id.0 as int] == j);
                        assert(t1.contains(id)) by {
                            assert(t1[i as int] == id);
                        }
                    }
                    if t1.contains(self.variants@[u].tile_id) && !t.contains(self.variants@[u].tile_id) {
                        let p = choose|p: int| 0 <= p < t1.len() && t1[p] == self.variants@[u].tile_id;
                        if p < i {
                            assert(t[p] == t1[p]);
                        }
                    }
                    if t.contains(self.variants@[u].tile_id) {
                        let p = choose|p: int| 0 <= p < t.len() && t[p] == self.variants@[u].tile_id;
                        assert(t1[p] == t[p]);
                    }
                }
            }
            i = i + 1;
        }
        proof {
            assert(tile_ids@.take(tile_ids@.len() as int) =~= tile_ids@);
        }
        Ok(mask)
    }

    /// The compatibility mask of `tile_index` in `direction`.
    pub fn allowed_mask(&self, direction: WfcDirection, tile_index: usize) -> (r: &DomainBits)
        requires
            self.wf(),
            active_dirs(self.topology).contains(direction),
            tile_index < self.count(),
        ensures
            *r == self.allowed@[dir_index(self.topology, direction)]@[tile_index as int],
            r.wf(),
            r.len_spec() == self.count(),
            r.clean(),
    {
        proof {
            lemma_dir_index(self.topology, direction);
        }
        let d = direction_position(self.topology, direction);
        &self.allowed[d][tile_index]
    }
}

/// Every family starts at or after its own position.
proof fn lemma_start_at_least(fams: Seq<TileFamily>, k: int)
    requires
        families_are_contiguous(fams),
        forall|j: int| 0 <= j < fams.len() ==> 1 <= #[trigger] fams[j].rotations,
        0 <= k < fams.len(),
    ensures
        fams[k].start >= k,
    decreases k,
{
    if k > 0 {
        lemma_start_at_least(fams, k - 1);
        assert(fams[k - 1 + 1].start == fams[k - 1].start + fams[k - 1].rotations);
    }
}

impl CompiledRuleset {
    /// A tile id has a family exactly when a tile of the ruleset carries it.
    pub proof fn lemma_family_known(&self, rs: WfcRuleset, id: WfcTileId)
        requires
            self.wf(),
            self.compiled_from(rs),
        ensures
            (self.family_of_id@[id.0 as int] != NO_FAMILY) <==> tile_known(rs.tiles@, id),
    {
        let lookup = self.family_of_id@;
        let fams = self.families@;
        if lookup[id.0 as int] != NO_FAMILY {
            let k = lookup[id.0 as int] as int;
            assert(fams[k].id.0 == id.0);
            assert(family_mirrors(rs.tiles@, rs.topology, fams[k], k));
            assert(rs.tiles@[k].id == id);
        }
        if tile_known(rs.tiles@, id) {
            let k = choose|k: int| 0 <= k < rs.tiles@.len() && rs.tiles@[k].id == id;
            assert(family_mirrors(rs.tiles@, rs.topology, fams[k], k));
            assert(lookup[fams[k].id.0 as int] == k);
            lemma_start_at_least(fams, k);
            assert(fams[k].start + fams[k].rotations <= self.variants@.len());
        }
    }
}

impl CompiledRuleset {
    /// A ruleset with a single variant lets it stand next to itself in every direction.
    pub proof fn lemma_single_variant_allows(&self, rs: WfcRuleset, d: WfcDirection)
        requires
            self.wf(),
            self.compiled_from(rs),
            ruleset_accepts(rs),
            self.count() == 1,
            active_dirs(rs.topology).contains(d),
        ensures
            self.allows(d, 0, 0),
    {
        let fams = self.families@;
        let last = fams.len() - 1;
        lemma_start_at_least(fams, last);
        assert(fams[last].start + fams[last].rotations <= self.variants@.len());
        assert(fams.len() == 1);
        let v = self.variants@[0];
        assert(v.family == 0);
        assert(family_mirrors(rs.tiles@, rs.topology, fams[0], 0));
        let id = rs.tiles@[0].id;
        assert(v.tile_id == id);
        assert(v.rotation_steps == 0);
        assert(inverse_rotate(d, 0, rs.topology) == d) by {
            assert(rotate_cw_times(d, 0) == d);
        }
        let di = choose|di: int| 0 <= di < active_dirs(rs.topology).len() && active_dirs(rs.topology)[di] == d;
        assert(tile_dir_covered(rs, 0, di));
        let b = choose|b: WfcTileId| #[trigger] rule_allows(rs.adjacency@, id, d, b);
        let k = choose|k: int|
            0 <= k < rs.adjacency@.len() && rs.adjacency@[k].tile == id && rs.adjacency@[k].direction == d
                && #[trigger] rs.adjacency@[k].allowed_tiles@.contains(b);
        assert(rule_refs_known(rs, rs.adjacency@[k]));
        let a = choose|a: int| 0 <= a < rs.adjacency@[k].allowed_tiles@.len() && rs.adjacency@[k].allowed_tiles@[a] == b;
        assert(tile_known(rs.tiles@, rs.adjacency@[k].allowed_tiles@[a]));
        assert(b == id);
        assert(rule_allows(rs.adjacency@, id, inverse_rotate(d, v.rotation_steps, rs.topology), id));
        assert(self.rule_permits(rs, d, 0, 0));
    }
}

/// The families follow each other without gaps, from the first variant.
pub open spec fn families_are_contiguous(fams: Seq<TileFamily>) -> bool {
    &&& fams.len() > 0 ==> fams[0].start == 0
    &&& forall|j: int| 0 <= j < fams.len() - 1 ==> #[trigger] fams[j + 1].start == fams[j].start + fams[j].rotations
}

proof fn lemma_contiguous_lt(fams: Seq<TileFamily>, j: int, k: int)
    requires
        families_are_contiguous(fams),
        0 <= j < k < fams.len(),
    ensures
        fams[j].start + fams[j].rotations <= fams[k].start,
    decreases k - j,
{
    assert(fams[j + 1].start == fams[j].start + fams[j].rotations);
    if j + 1 < k {
        lemma_contiguous_lt(fams, j + 1, k);
        assert(fams[j + 1].start + fams[j + 1].rotations <= fams[k].start);
    }
}

proof fn lemma_contiguous_disjoint(fams: Seq<TileFamily>, j: int, k: int)
    requires
        families_are_contiguous(fams),
        0 <= j < fams.len(),
        0 <= k < fams.len(),
        j != k,
    ensures
        fams[j].start + fams[j].rotations <= fams[k].start || fams[k].start + fams[k].rotations
            <= fams[j].start,
{
    if j < k {
        lemma_contiguous_lt(fams, j, k);
    } else {
        lemma_contiguous_lt(fams, k, j);
    }
}

proof fn lemma_family_ranges_disjoint(fams: Seq<TileFamily>, vars: Seq<TileVariantEntry>, j: int, k: int, u: int)
    requires
        families_are_contiguous(fams),
        variants_match(fams, vars),
        0 <= j < fams.len(),
        0 <= k < fams.len(),
        j != k,
        0 <= u < vars.len(),
        vars[u].family == j,
    ensures
        !(fams[k].start <= u < fams[k].start + fams[k].rotations),
{
    lemma_contiguous_disjoint(fams, j, k);
}

proof fn lemma_variant_total_bound(tiles: Seq<WfcTileDefinition>, topology: WfcTopology)
    ensures
        variant_total(tiles, topology) <= 4 * tiles.len(),
{
    lemma_family_start_mono(tiles, topology, tiles.len() as int, tiles.len() as int);
}

fn direction_position(topology: WfcTopology, direction: WfcDirection) -> (r: usize)
    requires
        active_dirs(topology).contains(direction),
    ensures
        r == dir_index(topology, direction),
{
    proof {
        lemma_dir_index(topology, direction);
    }
    match topology {
        WfcTopology::Hex2d => match direction {
            WfcDirection::HexEast => 0,
            WfcDirection::HexWest => 1,
            WfcDirection::HexNorthEast => 2,
            WfcDirection::HexNorthWest => 3,
            WfcDirection::HexSouthEast => 4,
            _ => 5,
        },
        _ => match direction {
            WfcDirection::XPos => 0,
            WfcDirection::XNeg => 1,
            WfcDirection::YPos => 2,
            WfcDirection::YNeg => 3,
            WfcDirection::ZPos => 4,
            _ => 5,
        },
    }
}

/// Find `direction` among the directions of a list, if it is there.
fn find_direction(directions: &Vec<WfcDirection>, direction: WfcDirection) -> (r: Option<usize>)
    ensures
        r is None <==> !directions@.contains(direction),
        r matches Some(i) ==> i < directions@.len() && directions@[i as int] == direction,
{
    let mut i: usize = 0;
    while i < directions.len()
        invariant
            i <= directions@.len(),
            forall|j: int| 0 <= j < i ==> directions@[j] != direction,
        decreases directions@.len() - i,
    {
        if directions[i] == direction {
            return Some(i);
        }
        i = i + 1;
    }
    None
}

/// The family table, the id lookup and the variant list of the tiles; fails on the first
/// tile with a bad weight, a repeated id, or a rotation that the topology does not support.
#[verifier::loop_isolation(false)]
fn compile_families(ruleset: &WfcRuleset) -> (r: Result<(Vec<TileFamily>, Vec<u32>, Vec<TileVariantEntry>), String>)
    requires
        ruleset.tiles@.len() > 0,
    ensures
        r is Ok <==> ({
            &&& forall|k: int| 0 <= k < ruleset.tiles@.len() ==> weight_is_valid(#[trigger] ruleset.tiles@[k].weight.0)
            &&& ids_distinct(ruleset.tiles@)
            &&& ruleset.topology == WfcTopology::Cartesian3d ==> forall|k: int|
                0 <= k < ruleset.tiles@.len() ==> #[trigger] ruleset.tiles@[k].symmetry == WfcTileSymmetry::Fixed
        }),
        r matches Ok((fams, lookup, vars)) ==> {
            &&& fams@.len() == ruleset.tiles@.len()
            &&& families_match(ruleset.tiles@, ruleset.topology, fams@)
            &&& families_are_contiguous(fams@)
            &&& lookup_match(fams@, lookup@)
            &&& variants_match(fams@, vars@)
            &&& vars@.len() == variant_total(ruleset.tiles@, ruleset.topology)
            &&& fams@.len() <= ID_SPACE
        },
        r matches Err(m) ==> first_tile_problem(*ruleset, ruleset.tiles@.len() as int) == Some(m@),
        r is Ok ==> first_tile_problem(*ruleset, ruleset.tiles@.len() as int) is None,
{
    let tiles = &ruleset.tiles;
    let topology = ruleset.topology;
    let mut families: Vec<TileFamily> = Vec::new();
    let mut lookup: Vec<u32> = vec![NO_FAMILY; ID_SPACE];
    let mut variants: Vec<TileVariantEntry> = Vec::new();
    let mut start: usize = 0;
    let mut k: usize = 0;
    while k < tiles.len()
        invariant
            tiles@ == ruleset.tiles@,
            topology == ruleset.topology,
            k <= tiles@.len(),
            families@.len() == k,
            families_match(tiles@, topology, families@),
            families_are_contiguous(families@),
            lookup_match(families@, lookup@),
            variants_match(families@, variants@),
            variants@.len() == start,
            start == family_start(tiles@, topology, k as int),
            start <= 4 * k,
            k <= ID_SPACE,
            forall|j: int| 0 <= j < k ==> weight_is_valid(#[trigger] tiles@[j].weight.0),
            forall|i: int, j: int| 0 <= i < j < k ==> tiles@[i].id != tiles@[j].id,
            topology == WfcTopology::Cartesian3d ==> forall|j: int|
                0 <= j < k ==> #[trigger] tiles@[j].symmetry == WfcTileSymmetry::Fixed,
            first_tile_problem(*ruleset, k as int) is None,
        decreases tiles@.len() - k,
    {
        let tile = &tiles[k];
        if !tile.weight.is_valid() {
            let message = join3("tile ", tile.id.debug_text().as_str(), " must have a finite positive weight");
            proof {
                assert(tile_problem(*ruleset, k as int) == Some(message@));
                lemma_first_tile_stable(*ruleset, k + 1, tiles@.len() as int);
            }
            return Err(message);
        }
        let slot = lookup[tile.id.0 as usize];
        if slot != NO_FAMILY {
            let message = join3("duplicate tile id ", tile.id.debug_text().as_str(), "");
            proof {
                let j = slot as int;
                assert(tiles@[j].id == tiles@[k as int].id);
                reveal_strlit("");
                assert(message@ =~= "duplicate tile id "@ + id_text(tile.id));
                assert(tile_problem(*ruleset, k as int) == Some(message@));
                lemma_first_tile_stable(*ruleset, k + 1, tiles@.len() as int);
            }
            return Err(message);
        }
        proof {
            assert forall|j: int| 0 <= j < k implies #[trigger] tiles@[j].id != tiles@[k as int].id by {
                assert(family_mirrors(tiles@, topology, families@[j], j));
                assert(lookup@[families@[j].id.0 as int] == j);
            }
        }
        if topology == WfcTopology::Cartesian3d && tile.symmetry != WfcTileSymmetry::Fixed {
            let mut message = join3("tile ", tile.id.debug_text().as_str(), " uses ");
            message.append(tile.symmetry.debug_name());
            message.append(", but automatic rotation currently supports only Cartesian2d");
            proof {
                assert(tile_problem(*ruleset, k as int) == Some(message@));
                lemma_first_tile_stable(*ruleset, k + 1, tiles@.len() as int);
            }
            return Err(message);
        }
        proof {
            assert(tile_problem(*ruleset, k as int) is None);
        }
        let rotations = tile.symmetry.unique_rotations(topology);
        let ghost prev_fams = families@;
        let ghost prev_vars = variants@;
        assert(families_match(tiles@, topology, prev_fams));
        assert(start == family_start(tiles@, topology, k as int));
        families.push(TileFamily { id: tile.id, weight: tile.weight, start, rotations });
        let mut m: u8 = 0;
        while m < rotations
            invariant
                1 <= rotations <= 4,
                m <= rotations,
                families@ == prev_fams.push(TileFamily { id: tiles@[k as int].id, weight: tiles@[k as int].weight, start, rotations }),
                variants@.len() == start + m,
                variants@.take(start as int) == prev_vars,
                forall|v: int| start <= v < start + m ==> #[trigger] variants@[v] == (TileVariantEntry { tile_id: tiles@[k as int].id, rotation_steps: (v - start) as u8, family: k }),
                start <= 4 * k,
                prev_vars.len() == start,
            decreases rotations - m,
        {
            let ghost before = variants@;
            variants.push(TileVariantEntry { tile_id: tile.id, rotation_steps: m, family: k });
            assert(variants@.take(start as int) =~= before.take(start as int));
            assert forall|v: int| start <= v < start + m + 1 implies #[trigger] variants@[v] == (TileVariantEntry { tile_id: tiles@[k as int].id, rotation_steps: (v - start) as u8, family: k }) by {
                if v < start + m {
                    assert(variants@[v] == before[v]);
                }
            }
            m = m + 1;
        }
        let ghost prev_lookup = lookup@;
        lookup.set(tile.id.0 as usize, k as u32);
        proof {
            let fams = families@;
            assert forall|v: int| 0 <= v < variants@.len() implies {
                let f = #[trigger] variants@[v].family as int;
                &&& 0 <= f < fams.len()
                &&& fams[f].start <= v < fams[f].start + fams[f].rotations
                &&& variants@[v].rotation_steps == v - fams[f].start
                &&& variants@[v].tile_id == fams[f].id
            } by {
                if v < start {
                    assert(variants@[v] == variants@.take(start as int)[v]);
                    assert(prev_vars[v] == variants@[v]);
                    let f = prev_vars[v].family as int;
                    assert(fams[f] == prev_fams[f]);
                }
            }
            assert forall|j: int| 0 <= j < fams.len() implies #[trigger] fams[j].start + fams[j].rotations
                <= variants@.len() by {
                if j < k {
                    assert(fams[j] == prev_fams[j]);
                }
            }
            assert forall|j: int| #![trigger fams[j]] 0 <= j < fams.len() implies family_mirrors(tiles@, topology, fams[j], j) by {
                if j < k {
                    assert(fams[j] == prev_fams[j]);
                } else {
                    assert(fams[j] == TileFamily { id: tiles@[k as int].id, weight: tiles@[k as int].weight, start, rotations });
                }
            }
            assert forall|id: int| 0 <= id < ID_SPACE implies #[trigger] lookup@[id] == NO_FAMILY || (
            lookup@[id] < fams.len() && fams[lookup@[id] as int].id.0 == id) by {
                if id != tiles@[k as int].id.0 {
                    if lookup@[id] != NO_FAMILY {
                        assert(fams[lookup@[id] as int] == prev_fams[lookup@[id] as int]);
                    }
                }
            }
            assert forall|j: int| 0 <= j < fams.len() implies lookup@[#[trigger] fams[j].id.0 as int] == j by {
                if j < k {
                    assert(fams[j] == prev_fams[j]);
                    assert(prev_fams[j].id == tiles@[j].id);
                    assert(prev_lookup[prev_fams[j].id.0 as int] == j);
                    assert(tiles@[j].id != tiles@[k as int].id);
                }
            }
            assert forall|j: int| 0 <= j < fams.len() - 1 implies #[trigger] fams[j + 1].start == fams[j].start
                + fams[j].rotations by {
                if j + 1 < k {
                    assert(fams[j] == prev_fams[j]);
                    assert(fams[j + 1] == prev_fams[j + 1]);
                } else {
                    assert(fams[j] == prev_fams[j]);
                    assert(prev_fams[j].id == tiles@[j].id);
                    assert(prev_fams[j].start == family_start(tiles@, topology, j));
                    assert(prev_fams[j].rotations == unique_rotations_spec(tiles@[j].symmetry, topology));
                    assert(family_start(tiles@, topology, k as int) == family_start(tiles@, topology, j)
                        + unique_rotations_spec(tiles@[j].symmetry, topology));
                }
            }
            assert forall|i: int, j: int| 0 <= i < j < k + 1 implies tiles@[i].id != tiles@[j].id by {
                if j == k {
                    assert(lookup@[tiles@[i].id.0 as int] == i) by {
                        assert(prev_fams[i].id == tiles@[i].id);
                    }
                }
            }
            lemma_distinct_bound(fams);
            assert(fams.len() <= tiles@.len());
            assert(families_match(tiles@, topology, fams));
        }
        start = start + rotations as usize;
        k = k + 1;
    }
    Ok((families, lookup, variants))
}

/// Some rule among the first `n` says that `a` allows `b` in direction `d`.
pub open spec fn allows_upto(rules: Seq<WfcAdjacencyRule>, n: int, a: WfcTileId, d: WfcDirection, b: WfcTileId) -> bool {
    exists|k: int|
        0 <= k < n && rules[k].tile == a && rules[k].direction == d
            && #[trigger] rules[k].allowed_tiles@.contains(b)
}

proof fn lemma_allows_upto_step(rules: Seq<WfcAdjacencyRule>, n: int, a: WfcTileId, d: WfcDirection, b: WfcTileId)
    requires
        0 <= n < rules.len(),
    ensures
        allows_upto(rules, n + 1, a, d, b) <==> (allows_upto(rules, n, a, d, b) || (rules[n].tile == a
            && rules[n].direction == d && rules[n].allowed_tiles@.contains(b))),
{
    if allows_upto(rules, n + 1, a, d, b) && !(rules[n].tile == a && rules[n].direction == d
        && rules[n].allowed_tiles@.contains(b)) {
        let k = choose|k: int|
            0 <= k < n + 1 && rules[k].tile == a && rules[k].direction == d
                && #[trigger] rules[k].allowed_tiles@.contains(b);
        assert(k < n);
    }
    if rules[n].tile == a && rules[n].direction == d && rules[n].allowed_tiles@.contains(b) {
        assert(rules[n].allowed_tiles@.contains(b));
    }
}

/// The canonical masks hold the relation of the first `n` rules.
pub open spec fn canonical_upto(rs: WfcRuleset, dirs: Seq<WfcDirection>, tcount: int, c: Seq<DomainBits>, n: int) -> bool {
    &&& c.len() == dirs.len() * tcount
    &&& forall|x: int| #![trigger c[x]] 0 <= x < c.len() ==> {
        &&& c[x].wf()
        &&& c[x].len_spec() == tcount
        &&& c[x].clean()
    }
    &&& forall|d: int, k: int, j: int|
        0 <= d < dirs.len() && 0 <= k < tcount && 0 <= j < tcount ==> (#[trigger] c[d * tcount + k]@[j]
            <==> allows_upto(rs.adjacency@, n, rs.tiles@[k].id, dirs[d], rs.tiles@[j].id))
}

proof fn lemma_flat_index(d: int, k: int, dcount: int, tcount: int)
    requires
        0 <= d < dcount,
        0 <= k < tcount,
    ensures
        0 <= d * tcount + k < dcount * tcount,
{
    assert(0 <= d * tcount + k < dcount * tcount) by (nonlinear_arith)
        requires
            0 <= d < dcount,
            0 <= k < tcount,
    ;
}

proof fn lemma_flat_unique(d: int, k: int, d2: int, k2: int, tcount: int)
    requires
        0 <= d,
        0 <= d2,
        0 <= k < tcount,
        0 <= k2 < tcount,
        d2 * tcount + k2 == d * tcount + k,
    ensures
        d2 == d && k2 == k,
{
    if d2 < d {
        assert(d2 * tcount + k2 < d * tcount + k) by (nonlinear_arith)
            requires
                d2 < d,
                0 <= k2 < tcount,
                0 <= k,
        ;
    } else if d2 > d {
        assert(d2 * tcount + k2 > d * tcount + k) by (nonlinear_arith)
            requires
                d2 > d,
                0 <= k < tcount,
                0 <= k2,
        ;
    }
}

/// The authored relation per direction and tile, over tile indices; fails on the first rule
/// with a direction outside the topology or an unknown tile.
#[verifier::loop_isolation(false)]
#[verifier::spinoff_prover]
#[verifier::rlimit(60)]
fn compile_canonical(
    ruleset: &WfcRuleset,
    lookup: &Vec<u32>,
    families: &Vec<TileFamily>,
    directions: &Vec<WfcDirection>,
) -> (r: Result<(Vec<DomainBits>, Vec<bool>), String>)
    requires
        ruleset.tiles@.len() > 0,
        families@.len() == ruleset.tiles@.len(),
        families@.len() <= ID_SPACE,
        families_match(ruleset.tiles@, ruleset.topology, families@),
        lookup_match(families@, lookup@),
        directions@ == active_dirs(ruleset.topology),
    ensures
        r is Ok <==> forall|k: int| 0 <= k < ruleset.adjacency@.len() ==> rule_refs_known(*ruleset, #[trigger] ruleset.adjacency@[k]),
        r matches Ok((c, provided)) ==> canonical_upto(*ruleset, directions@, families@.len() as int, c@, ruleset.adjacency@.len() as int)
            && provided@.len() == c@.len(),
        r matches Ok((c, provided)) ==> forall|d: int, k: int|
            0 <= d < directions@.len() && 0 <= k < families@.len() ==> #[trigger] provided@[d * families@.len() + k]
                == has_rule(ruleset.adjacency@, ruleset.tiles@[k].id, directions@[d]),
        r matches Err(m) ==> first_rule_problem(*ruleset, ruleset.adjacency@.len() as int) == Some(m@),
        r is Ok ==> first_rule_problem(*ruleset, ruleset.adjacency@.len() as int) is None,
{
    let tcount = families.len();
    let dcount = directions.len();
    let rules = &ruleset.adjacency;
    let ghost tiles = ruleset.tiles@;
    proof {
        assert(dcount <= 6);
        assert(dcount * tcount <= 6 * ID_SPACE) by (nonlinear_arith)
            requires
                dcount <= 6,
                tcount <= ID_SPACE,
        ;
        assert forall|k: int| 0 <= k < tcount implies #[trigger] tiles[k].id == families@[k].id by {
            assert(family_mirrors(tiles, ruleset.topology, families@[k], k));
        }
    }
    let mut canonical: Vec<DomainBits> = Vec::new();
    let mut provided: Vec<bool> = Vec::new();
    let mut c: usize = 0;
    while c < dcount * tcount
        invariant
            c <= dcount * tcount,
            canonical@.len() == c,
            provided@.len() == c,
            forall|x: int| #![trigger canonical@[x]] 0 <= x < c ==> {
                &&& canonical@[x].wf()
                &&& canonical@[x].len_spec() == tcount
                &&& canonical@[x].clean()
                &&& forall|j: int| 0 <= j < canonical@[x]@.len() ==> !#[trigger] canonical@[x]@[j]
            },
            forall|x: int| 0 <= x < c ==> !#[trigger] provided@[x],
        decreases dcount * tcount - c,
    {
        canonical.push(DomainBits::empty(tcount));
        provided.push(false);
        c = c + 1;
    }
    proof {
        assert forall|d: int, k: int, j: int|
            0 <= d < dcount && 0 <= k < tcount && 0 <= j < tcount implies (#[trigger] canonical@[d * tcount + k]@[j]
                <==> allows_upto(rules@, 0, tiles[k].id, directions@[d], tiles[j].id)) by {
            lemma_flat_index(d, k, dcount as int, tcount as int);
            canonical@[d * tcount + k].lemma_wf_len();
        }
        assert forall|d: int, k: int| 0 <= d < dcount && 0 <= k < tcount implies #[trigger] provided@[d * tcount + k]
            == has_rule(rules@.take(0), tiles[k].id, directions@[d]) by {
            lemma_flat_index(d, k, dcount as int, tcount as int);
        }
    }
    let mut ri: usize = 0;
    while ri < rules.len()
        invariant
            ri <= rules@.len(),
            canonical_upto(*ruleset, directions@, tcount as int, canonical@, ri as int),
            provided@.len() == canonical@.len(),
            forall|k: int| 0 <= k < ri ==> rule_refs_known(*ruleset, #[trigger] rules@[k]),
            first_rule_problem(*ruleset, ri as int) is None,
            forall|d: int, k: int| 0 <= d < dcount && 0 <= k < tcount ==> #[trigger] provided@[d * tcount + k]
                == has_rule(rules@.take(ri as int), tiles[k].id, directions@[d]),
        decreases rules@.len() - ri,
    {
        let rule = &rules[ri];
        let di = match find_direction(directions, rule.direction) {
            Some(i) => i,
            None => {
                let mut message = "direction ".to_owned();
                message.append(rule.direction.debug_name());
                message.append(" is invalid for topology ");
                message.append(ruleset.topology.debug_name());
                proof {
                    assert(rule_problem(*ruleset, rules@[ri as int]) == Some(message@));
                    lemma_first_rule_stable(*ruleset, ri + 1, rules@.len() as int);
                }
                return Err(message);
            },
        };
        let ti32 = lookup[rule.tile.0 as usize];
        if ti32 == NO_FAMILY {
            let message = join3("adjacency rule references unknown tile ", rule.tile.debug_text().as_str(), "");
            proof {
                assert(!tile_known(tiles, rule.tile)) by {
                    if tile_known(tiles, rule.tile) {
                        let k = choose|k: int| 0 <= k < tiles.len() && tiles[k].id == rule.tile;
                        assert(lookup@[families@[k].id.0 as int] == k);
                    }
                }
                reveal_strlit("");
                assert(message@ =~= "adjacency rule references unknown tile "@ + id_text(rule.tile));
                assert(directions@.contains(rule.direction));
                assert(rule_problem(*ruleset, rules@[ri as int]) == Some(message@));
                lemma_first_rule_stable(*ruleset, ri + 1, rules@.len() as int);
            }
            return Err(message);
        }
        proof {
            assert(families@[ti32 as int].id == rule.tile);
            assert(tiles[ti32 as int].id == rule.tile);
            assert(tile_known(tiles, rule.tile));
        }
        let ti = ti32 as usize;
        proof {
            lemma_flat_index(di as int, ti as int, dcount as int, tcount as int);
        }
        let slot = di * tcount + ti;
        let ghost before = canonical@;
        let mut a: usize = 0;
        while a < rule.allowed_tiles.len()
            invariant
                a <= rule.allowed_tiles@.len(),
                canonical@.len() == before.len(),
                slot == di * tcount + ti,
                slot < canonical@.len(),
                forall|x: int| 0 <= x < canonical@.len() && x != slot ==> #[trigger] canonical@[x] == before[x],
                canonical@[slot as int].wf(),
                canonical@[slot as int].len_spec() == tcount,
                canonical@[slot as int].clean(),
                forall|j: int| 0 <= j < tcount ==> (#[trigger] canonical@[slot as int]@[j] <==> (before[slot as int]@[j]
                    || rule.allowed_tiles@.take(a as int).contains(tiles[j].id))),
                forall|q: int| 0 <= q < a ==> tile_known(tiles, #[trigger] rule.allowed_tiles@[q]),
                provided@.len() == canonical@.len(),
                first_unknown_allowed(*ruleset, rules@[ri as int], a as int) is None,
            decreases rule.allowed_tiles@.len() - a,
        {
            let allowed_tile = rule.allowed_tiles[a];
            let aj32 = lookup[allowed_tile.0 as usize];
            if aj32 == NO_FAMILY {
                let message = join3("adjacency rule references unknown allowed tile ", allowed_tile.debug_text().as_str(), "");
                proof {
                    assert(!tile_known(tiles, allowed_tile)) by {
                        if tile_known(tiles, allowed_tile) {
                            let k = choose|k: int| 0 <= k < tiles.len() && tiles[k].id == allowed_tile;
                            assert(lookup@[families@[k].id.0 as int] == k);
                        }
                    }
                    assert(!rule_refs_known(*ruleset, rules@[ri as int]));
                    assert(first_unknown_allowed(*ruleset, rules@[ri as int], a + 1) == Some(allowed_tile));
                    lemma_first_allowed_stable(*ruleset, rules@[ri as int], a + 1, rule.allowed_tiles@.len() as int);
                    reveal_strlit("");
                    assert(message@ =~= "adjacency rule references unknown allowed tile "@ + id_text(allowed_tile));
                    assert(directions@.contains(rule.direction));
                    assert(rule_problem(*ruleset, rules@[ri as int]) == Some(message@));
                    lemma_first_rule_stable(*ruleset, ri + 1, rules@.len() as int);
                }
                return Err(message);
            }
            let aj = aj32 as usize;
            let mut mask = canonical[slot].duplicate();
            let ghost prev_mask = mask@;
            proof {
                mask.lemma_wf_len();
            }
            mask.insert(aj);
            let ghost prev_c = canonical@;
            canonical.set(slot, mask);
            proof {
                assert(families@[aj as int].id == allowed_tile);
                assert(tiles[aj as int].id == allowed_tile);
                assert forall|j: int| 0 <= j < tcount implies (#[trigger] canonical@[slot as int]@[j] <==> (before[slot as int]@[j]
                    || rule.allowed_tiles@.take(a + 1).contains(tiles[j].id))) by {
                    let t0 = rule.allowed_tiles@.take(a as int);
                    let t1 = rule.allowed_tiles@.take(a + 1);
                    assert(t1 =~= t0.push(allowed_tile));
                    if j == aj {
                        assert(t1[a as int] == allowed_tile);
                    } else {
                        assert(tiles[j].id != allowed_tile) by {
                            assert(lookup@[families@[j].id.0 as int] == j);
                        }
                        if t1.contains(tiles[j].id) {
                            let p = choose|p: int| 0 <= p < t1.len() && t1[p] == tiles[j].id;
                            assert(p < a);
                            assert(t0[p] == t1[p]);
                        }
                        if t0.contains(tiles[j].id) {
                            let p = choose|p: int| 0 <= p < t0.len() && t0[p] == tiles[j].id;
                            assert(t1[p] == t0[p]);
                        }
                    }
                }
                assert forall|x: int| 0 <= x < canonical@.len() && x != slot implies #[trigger] canonical@[x] == before[x] by {
                    assert(canonical@[x] == prev_c[x]);
                }
                assert(tile_known(tiles, allowed_tile)) by {
                    assert(tiles[aj as int].id == allowed_tile);
                }
                assert forall|q: int| 0 <= q < a + 1 implies tile_known(tiles, #[trigger] rule.allowed_tiles@[q]) by {
                    if q == a {
                        assert(rule.allowed_tiles@[q] == allowed_tile);
                    }
                }
                assert(first_unknown_allowed(*ruleset, rules@[ri as int], a + 1) is None);
            }
            a = a + 1;
        }
        let ghost provided_before = provided@;
        provided.set(slot, true);
        proof {
            assert(directions@.contains(rule.direction));
            assert(rule_problem(*ruleset, rules@[ri as int]) is None);
            assert(first_rule_problem(*ruleset, ri + 1) is None);
            let t0 = rules@.take(ri as int);
            let t1 = rules@.take(ri + 1);
            assert(t1 =~= t0.push(rules@[ri as int]));
            assert forall|d: int, k: int| 0 <= d < dcount && 0 <= k < tcount implies #[trigger] provided@[d * tcount + k]
                == has_rule(t1, tiles[k].id, directions@[d]) by {
                lemma_flat_index(d, k, dcount as int, tcount as int);
                if has_rule(t0, tiles[k].id, directions@[d]) {
                    let q = choose|q: int| 0 <= q < t0.len() && #[trigger] t0[q].tile == tiles[k].id && t0[q].direction == directions@[d];
                    assert(t1[q] == t0[q]);
                }
                if d * tcount + k == slot {
                    lemma_flat_unique(di as int, ti as int, d, k, tcount as int);
                    assert(t1[ri as int].tile == tiles[k].id);
                } else {
                    assert(provided@[d * tcount + k] == provided_before[d * tcount + k]);
                    if has_rule(t1, tiles[k].id, directions@[d]) {
                        let q = choose|q: int| 0 <= q < t1.len() && #[trigger] t1[q].tile == tiles[k].id && t1[q].direction == directions@[d];
                        if q < ri {
                            assert(t0[q] == t1[q]);
                        } else {
                            assert(rules@[ri as int].tile == tiles[k].id);
                            assert(rules@[ri as int].direction == directions@[d]);
                            if d == di {
                                assert(k != ti);
                                assert(tiles[k].id != rule.tile) by {
                                    assert(lookup@[families@[k].id.0 as int] == k);
                                }
                            } else {
                                lemma_dir_index(ruleset.topology, directions@[d]);
                                lemma_dir_index(ruleset.topology, rule.direction);
                            }
                        }
                    }
                }
            }
        }
        proof {
            assert(rule.allowed_tiles@.take(rule.allowed_tiles@.len() as int) =~= rule.allowed_tiles@);
            assert(families@[ti as int].id == rule.tile);
            assert(tiles[ti as int].id == rule.tile);
            assert(directions@[di as int] == rule.direction);
            assert(tile_known(tiles, rule.tile));
            assert(rule_refs_known(*ruleset, rules@[ri as int]));
            let n = ri as int;
            assert forall|x: int| #![trigger canonical@[x]] 0 <= x < canonical@.len() implies {
                &&& canonical@[x].wf()
                &&& canonical@[x].len_spec() == tcount
                &&& canonical@[x].clean()
            } by {
                if x != slot {
                    assert(canonical@[x] == before[x]);
                }
            }
            assert forall|d: int, k: int, j: int|
                0 <= d < dcount && 0 <= k < tcount && 0 <= j < tcount implies (#[trigger] canonical@[d * tcount + k]@[j]
                    <==> allows_upto(rules@, n + 1, tiles[k].id, directions@[d], tiles[j].id)) by {
                lemma_flat_index(d, k, dcount as int, tcount as int);
                lemma_allows_upto_step(rules@, n, tiles[k].id, directions@[d], tiles[j].id);
                if d * tcount + k == slot {
                    lemma_flat_unique(di as int, ti as int, d, k, tcount as int);
                } else {
                    assert(canonical@[d * tcount + k] == before[d * tcount + k]);
                    if d == di {
                        assert(k != ti);
                        assert(tiles[k].id != rule.tile) by {
                            assert(lookup@[families@[k].id.0 as int] == k);
                        }
                    } else {
                        lemma_dir_index(ruleset.topology, directions@[d]);
                        lemma_dir_index(ruleset.topology, rule.direction);
                    }
                }
            }
            assert forall|k: int| 0 <= k < ri + 1 implies rule_refs_known(*ruleset, #[trigger] rules@[k]) by {}
        }
        ri = ri + 1;
    }
    proof {
        assert(rules@.take(rules@.len() as int) =~= rules@);
    }
    Ok((canonical, provided))
}

/// Some index below `n` is a member of `m`.
pub open spec fn has_member_below(m: DomainBits, n: int) -> bool {
    exists|j: int| 0 <= j < n && #[trigger] m@[j]
}

/// Every tile has a neighbour in every direction; fails on the first that has none.
#[verifier::loop_isolation(false)]
#[verifier::spinoff_prover]
fn check_coverage(
    ruleset: &WfcRuleset,
    families: &Vec<TileFamily>,
    canonical: &Vec<DomainBits>,
    provided: &Vec<bool>,
    directions: &Vec<WfcDirection>,
) -> (r: Result<(), String>)
    requires
        families@.len() == ruleset.tiles@.len(),
        families_match(ruleset.tiles@, ruleset.topology, families@),
        directions@ == active_dirs(ruleset.topology),
        canonical_upto(*ruleset, directions@, families@.len() as int, canonical@, ruleset.adjacency@.len() as int),
        provided@.len() == canonical@.len(),
        forall|k: int| 0 <= k < ruleset.adjacency@.len() ==> rule_refs_known(*ruleset, #[trigger] ruleset.adjacency@[k]),
        forall|d: int, k: int|
            0 <= d < directions@.len() && 0 <= k < families@.len() ==> #[trigger] provided@[d * families@.len() + k]
                == has_rule(ruleset.adjacency@, ruleset.tiles@[k].id, directions@[d]),
    ensures
        r is Ok <==> forall|d: int, k: int|
            0 <= d < directions@.len() && 0 <= k < families@.len() ==> #[trigger] has_member_below(
                canonical@[d * families@.len() + k],
                families@.len() as int,
            ),
        r matches Err(m) ==> first_coverage_problem(*ruleset, directions@.len() as int) == Some(m@),
        r is Ok ==> first_coverage_problem(*ruleset, directions@.len() as int) is None,
{
    let tcount = families.len();
    let dcount = directions.len();
    let clen = canonical.len();
    let mut d: usize = 0;
    while d < dcount
        invariant
            d <= dcount,
            dcount == directions@.len(),
            tcount == families@.len(),
            clen == canonical@.len(),
            canonical_upto(*ruleset, directions@, tcount as int, canonical@, ruleset.adjacency@.len() as int),
            provided@.len() == canonical@.len(),
            forall|d2: int, k: int|
                0 <= d2 < d && 0 <= k < tcount ==> #[trigger] has_member_below(canonical@[d2 * tcount + k], tcount as int),
            first_coverage_problem(*ruleset, d as int) is None,
        decreases dcount - d,
    {
        let mut k: usize = 0;
        while k < tcount
            invariant
                d < dcount,
                k <= tcount,
                dcount == directions@.len(),
                tcount == families@.len(),
                canonical_upto(*ruleset, directions@, tcount as int, canonical@, ruleset.adjacency@.len() as int),
                provided@.len() == canonical@.len(),
                forall|d2: int, k2: int|
                    0 <= d2 < d && 0 <= k2 < tcount ==> #[trigger] has_member_below(canonical@[d2 * tcount + k2], tcount as int),
                forall|k2: int|
                    0 <= k2 < k ==> #[trigger] has_member_below(canonical@[d * tcount + k2], tcount as int),
                first_coverage_problem(*ruleset, d as int) is None,
                first_in_direction(*ruleset, d as int, k as int) is None,
            decreases tcount - k,
        {
            proof {
                lemma_flat_index(d as int, k as int, dcount as int, tcount as int);
                lemma_slot_covered(*ruleset, families@, canonical@, directions@, d as int, k as int);
            }
            let slot = d * tcount + k;
            let empty = canonical[slot].is_empty();
            proof {
                canonical@[slot as int].lemma_wf_len();
                if empty {
                    assert(!has_member_below(canonical@[slot as int], tcount as int));
                }
            }
            if empty {
                let tile_text = ruleset.tiles[k].id.debug_text();
                let missing = !provided[slot];
                let mut message = if missing {
                    join3("missing adjacency rule for tile ", tile_text.as_str(), " in direction ")
                } else {
                    join3("tile ", tile_text.as_str(), " has no valid neighbors in direction ")
                };
                message.append(directions[d].debug_name());
                proof {
                    let id = ruleset.tiles@[k as int].id;
                    let dir = directions@[d as int];
                    assert(provided@[d * tcount + k] == has_rule(ruleset.adjacency@, id, dir));
                    assert(!tile_dir_covered(*ruleset, k as int, d as int));
                    if missing {
                        assert(message@ =~= "missing adjacency rule for tile "@ + id_text(id) + " in direction "@
                            + direction_debug_name(dir));
                    } else {
                        assert(message@ =~= "tile "@ + id_text(id) + " has no valid neighbors in direction "@
                            + direction_debug_name(dir));
                    }
                    assert(coverage_problem(*ruleset, d as int, k as int) == Some(message@));
                    assert(first_in_direction(*ruleset, d as int, k + 1) == Some(message@));
                    lemma_first_in_direction_stable(*ruleset, d as int, k + 1, tcount as int);
                    assert(first_coverage_problem(*ruleset, d + 1) == Some(message@));
                    lemma_first_coverage_stable(*ruleset, d + 1, dcount as int);
                }
                return Err(message);
            }
            proof {
                canonical@[slot as int].lemma_wf_len();
                let j = choose|j: int| 0 <= j < canonical@[slot as int]@.len() && canonical@[slot as int]@[j];
                assert(j < tcount);
                assert(has_member_below(canonical@[slot as int], tcount as int));
                let id = ruleset.tiles@[k as int].id;
                let dir = directions@[d as int];
                assert(tile_dir_covered(*ruleset, k as int, d as int));
                let b = choose|b: WfcTileId| #[trigger] rule_allows(ruleset.adjacency@, id, dir, b);
                let q = choose|q: int|
                    0 <= q < ruleset.adjacency@.len() && ruleset.adjacency@[q].tile == id && ruleset.adjacency@[q].direction == dir
                        && #[trigger] ruleset.adjacency@[q].allowed_tiles@.contains(b);
                assert(ruleset.adjacency@[q].tile == id);
                assert(has_rule(ruleset.adjacency@, id, dir));
                assert(coverage_problem(*ruleset, d as int, k as int) is None);
            }
            k = k + 1;
        }
        d = d + 1;
    }
    Ok(())
}

/// Slot `(d, k)` of the canonical masks is non-empty exactly when tile `k` has a neighbour in
/// the `d`-th direction.
proof fn lemma_slot_covered(rs: WfcRuleset, fams: Seq<TileFamily>, c: Seq<DomainBits>, dirs: Seq<WfcDirection>, d: int, k: int)
    requires
        fams.len() == rs.tiles@.len(),
        families_match(rs.tiles@, rs.topology, fams),
        dirs == active_dirs(rs.topology),
        canonical_upto(rs, dirs, fams.len() as int, c, rs.adjacency@.len() as int),
        forall|q: int| 0 <= q < rs.adjacency@.len() ==> rule_refs_known(rs, #[trigger] rs.adjacency@[q]),
        0 <= d < dirs.len(),
        0 <= k < fams.len(),
    ensures
        has_member_below(c[d * fams.len() + k], fams.len() as int) <==> tile_dir_covered(rs, k, d),
{
    let t = fams.len() as int;
    let tiles = rs.tiles@;
    assert forall|i: int| 0 <= i < t implies #[trigger] tiles[i].id == fams[i].id by {
        assert(family_mirrors(tiles, rs.topology, fams[i], i));
    }
    if has_member_below(c[d * t + k], t) {
        let j = choose|j: int| 0 <= j < t && #[trigger] c[d * t + k]@[j];
        assert(allows_upto(rs.adjacency@, rs.adjacency@.len() as int, tiles[k].id, dirs[d], tiles[j].id));
        assert(rule_allows(rs.adjacency@, tiles[k].id, dirs[d], tiles[j].id));
    }
    if tile_dir_covered(rs, k, d) {
        let b = choose|b: WfcTileId| #[trigger] rule_allows(rs.adjacency@, tiles[k].id, active_dirs(rs.topology)[d], b);
        let r = choose|r: int|
            0 <= r < rs.adjacency@.len() && rs.adjacency@[r].tile == tiles[k].id && rs.adjacency@[r].direction == dirs[d]
                && #[trigger] rs.adjacency@[r].allowed_tiles@.contains(b);
        assert(rule_refs_known(rs, rs.adjacency@[r]));
        let a = choose|a: int| 0 <= a < rs.adjacency@[r].allowed_tiles@.len() && rs.adjacency@[r].allowed_tiles@[a] == b;
        assert(tile_known(tiles, rs.adjacency@[r].allowed_tiles@[a]));
        let j = choose|j: int| 0 <= j < tiles.len() && tiles[j].id == b;
        assert(allows_upto(rs.adjacency@, rs.adjacency@.len() as int, tiles[k].id, dirs[d], tiles[j].id));
        assert(c[d * t + k]@[j]);
    }
}

proof fn lemma_coverage_iff(
    rs: WfcRuleset,
    fams: Seq<TileFamily>,
    c: Seq<DomainBits>,
    dirs: Seq<WfcDirection>,
)
    requires
        fams.len() == rs.tiles@.len(),
        families_match(rs.tiles@, rs.topology, fams),
        dirs == active_dirs(rs.topology),
        canonical_upto(rs, dirs, fams.len() as int, c, rs.adjacency@.len() as int),
        forall|k: int| 0 <= k < rs.adjacency@.len() ==> rule_refs_known(rs, #[trigger] rs.adjacency@[k]),
    ensures
        (forall|d: int, k: int|
            0 <= d < dirs.len() && 0 <= k < fams.len() ==> #[trigger] has_member_below(
                c[d * fams.len() + k],
                fams.len() as int,
            )) <==> (forall|k: int, d: int|
            0 <= k < rs.tiles@.len() && 0 <= d < active_dirs(rs.topology).len() ==> #[trigger] tile_dir_covered(rs, k, d)),
{
    let t = fams.len() as int;
    assert forall|d: int, k: int| 0 <= d < dirs.len() && 0 <= k < t implies (#[trigger] has_member_below(
        c[d * t + k],
        t,
    ) <==> tile_dir_covered(rs, k, d)) by {
        lemma_slot_covered(rs, fams, c, dirs, d, k);
    }
    if forall|d: int, k: int| 0 <= d < dirs.len() && 0 <= k < t ==> #[trigger] has_member_below(c[d * t + k], t) {
        assert forall|k: int, d: int| 0 <= k < rs.tiles@.len() && 0 <= d < active_dirs(rs.topology).len() implies #[trigger] tile_dir_covered(rs, k, d) by {
            assert(has_member_below(c[d * t + k], t));
        }
    }
    if forall|k: int, d: int| 0 <= k < rs.tiles@.len() && 0 <= d < active_dirs(rs.topology).len() ==> #[trigger] tile_dir_covered(rs, k, d) {
        assert forall|d: int, k: int| 0 <= d < dirs.len() && 0 <= k < t implies #[trigger] has_member_below(c[d * t + k], t) by {
            assert(tile_dir_covered(rs, k, d));
        }
    }
}

proof fn lemma_compiled_masks(rs: WfcRuleset, c: CompiledRuleset, canonical: Seq<DomainBits>, dirs: Seq<WfcDirection>)
    requires
        c.wf(),
        c.topology == rs.topology,
        c.families@.len() == rs.tiles@.len(),
        families_match(rs.tiles@, rs.topology, c.families@),
        c.count() == variant_total(rs.tiles@, rs.topology),
        dirs == active_dirs(rs.topology),
        canonical_upto(rs, dirs, c.families@.len() as int, canonical, rs.adjacency@.len() as int),
        c.allowed@.len() == dirs.len(),
        forall|d: int, v: int, u: int|
            0 <= d < dirs.len() && 0 <= v < c.count() && 0 <= u < c.count() ==> (#[trigger] c.allowed@[d]@[v]@[u] <==> exists|j: int|
                    0 <= j < c.families@.len() && #[trigger] canonical[canonical_slot(
                        rs.topology,
                        dirs,
                        c.families@.len() as int,
                        c.variants@,
                        d,
                        v,
                    )]@[j] && u == variant_target(c.families@, j, c.variants@[v].rotation_steps)),
    ensures
        c.compiled_from(rs),
{
    let t = c.families@.len() as int;
    let tiles = rs.tiles@;
    let fams = c.families@;
    let vars = c.variants@;
    assert forall|d: WfcDirection, v: int, u: int|
        active_dirs(rs.topology).contains(d) && 0 <= v < c.count() && 0 <= u < c.count() implies (#[trigger] c.allows(d, v, u) <==> c.rule_permits(rs, d, v, u)) by {
        lemma_dir_index(rs.topology, d);
        let di = dir_index(rs.topology, d);
        let rot = vars[v].rotation_steps;
        let inv = inverse_rotate(d, rot, rs.topology);
        lemma_inverse_rotate_active(d, rot, rs.topology);
        lemma_dir_index(rs.topology, inv);
        let cdi = dir_index(rs.topology, inv);
        let k = vars[v].family as int;
        assert(family_mirrors(tiles, rs.topology, fams[k], k));
        let slot = cdi * t + k;
        assert(canonical_slot(rs.topology, dirs, t, vars, di, v) == slot);
        let fu = vars[u].family as int;
        assert(family_mirrors(tiles, rs.topology, fams[fu], fu));
        let m = (rot % fams[fu].rotations) as int;
        c.lemma_variant_unique(fu, m, u);
        if c.allows(d, v, u) {
            let j = choose|j: int|
                0 <= j < t && #[trigger] canonical[slot]@[j] && u == variant_target(fams, j, rot);
            assert(family_mirrors(tiles, rs.topology, fams[j], j));
            c.lemma_variant_unique(j, (rot % fams[j].rotations) as int, u);
            assert(fu == j);
            assert(allows_upto(rs.adjacency@, rs.adjacency@.len() as int, tiles[k].id, dirs[cdi], tiles[j].id));
        }
        if c.rule_permits(rs, d, v, u) {
            assert(allows_upto(rs.adjacency@, rs.adjacency@.len() as int, tiles[k].id, dirs[cdi], tiles[fu].id));
            assert(canonical[slot]@[fu]);
            assert(u == variant_target(fams, fu, rot));
        }
    }
}

/// The variant of family `j` at rotation `rot`, modulo the family's rotation count.
pub open spec fn variant_target(fams: Seq<TileFamily>, j: int, rot: u8) -> int {
    fams[j].start + (rot % fams[j].rotations) as int
}

/// The slot of the canonical mask that variant `v` consults in the `d`-th direction.
pub open spec fn canonical_slot(topology: WfcTopology, dirs: Seq<WfcDirection>, tcount: int, vars: Seq<TileVariantEntry>, d: int, v: int) -> int {
    dir_index(topology, inverse_rotate(dirs[d], vars[v].rotation_steps, topology)) * tcount + vars[v].family
}

/// The variant mask of `v` in the `d`-th direction.
fn variant_mask(
    ruleset: &WfcRuleset,
    families: &Vec<TileFamily>,
    variants: &Vec<TileVariantEntry>,
    canonical: &Vec<DomainBits>,
    directions: &Vec<WfcDirection>,
    d: usize,
    v: usize,
) -> (r: DomainBits)
    requires
        families@.len() == ruleset.tiles@.len(),
        families@.len() <= ID_SPACE,
        families@.len() > 0,
        families_match(ruleset.tiles@, ruleset.topology, families@),
        variants_match(families@, variants@),
        variants@.len() <= 4 * ID_SPACE,
        directions@ == active_dirs(ruleset.topology),
        canonical_upto(*ruleset, directions@, families@.len() as int, canonical@, ruleset.adjacency@.len() as int),
        d < directions@.len(),
        v < variants@.len(),
    ensures
        r.wf(),
        r.len_spec() == variants@.len(),
        r.clean(),
        forall|u: int|
            0 <= u < variants@.len() ==> (#[trigger] r@[u] <==> exists|j: int|
                0 <= j < families@.len() && #[trigger] canonical@[canonical_slot(
                    ruleset.topology,
                    directions@,
                    families@.len() as int,
                    variants@,
                    d as int,
                    v as int,
                )]@[j] && u == variant_target(families@, j, variants@[v as int].rotation_steps)),
{
    let topology = ruleset.topology;
    let tcount = families.len();
    let n = variants.len();
    let dcount = directions.len();
    let entry = variants[v];
    proof {
        lemma_dir_index(topology, directions@[d as int]);
        assert(active_dirs(topology).contains(directions@[d as int]));
        lemma_inverse_rotate_active(directions@[d as int], entry.rotation_steps, topology);
    }
    let cd = directions[d].inverse_rotated(entry.rotation_steps, topology);
    let cdi = direction_position(topology, cd);
    proof {
        lemma_dir_index(topology, cd);
        assert(variants@[v as int].family < tcount);
        lemma_flat_index(cdi as int, entry.family as int, dcount as int, tcount as int);
        assert(dcount <= 6);
        assert(dcount * tcount <= 6 * ID_SPACE) by (nonlinear_arith)
            requires
                dcount <= 6,
                tcount <= ID_SPACE,
        ;
    }
    let slot = cdi * tcount + entry.family;
    let ghost sl = canonical_slot(topology, directions@, tcount as int, variants@, d as int, v as int);
    assert(slot == sl);
    let indices = canonical[slot].to_indices();
    let mut mask = DomainBits::empty(n);
    proof {
        mask.lemma_wf_len();
    }
    let mut q: usize = 0;
    while q < indices.len()
        invariant
            q <= indices@.len(),
            n == variants@.len(),
            tcount == families@.len(),
            mask.wf(),
            mask.len_spec() == n,
            mask.clean(),
            variants_match(families@, variants@),
            families_match(ruleset.tiles@, topology, families@),
            families@.len() == ruleset.tiles@.len(),
            forall|k: int| 0 <= k < indices@.len() ==> #[trigger] indices@[k] < tcount,
            forall|u: int|
                0 <= u < n ==> (#[trigger] mask@[u] <==> exists|p: int|
                    0 <= p < q && u == variant_target(families@, #[trigger] indices@[p] as int, entry.rotation_steps)),
        decreases indices@.len() - q,
    {
        let j = indices[q];
        let f = families[j];
        proof {
            assert(family_mirrors(ruleset.tiles@, topology, families@[j as int], j as int));
            assert(f.start + f.rotations <= n);
            mask.lemma_wf_len();
        }
        let target = f.start + (entry.rotation_steps % f.rotations) as usize;
        let ghost before = mask@;
        mask.insert(target);
        proof {
            assert forall|u: int| 0 <= u < n implies (#[trigger] mask@[u] <==> exists|p: int|
                0 <= p < q + 1 && u == variant_target(families@, #[trigger] indices@[p] as int, entry.rotation_steps)) by {
                if u == target {
                    assert(u == variant_target(families@, indices@[q as int] as int, entry.rotation_steps));
                } else if before[u] {
                    let p = choose|p: int| 0 <= p < q && u == variant_target(families@, #[trigger] indices@[p] as int, entry.rotation_steps);
                } else {
                    if exists|p: int| 0 <= p < q + 1 && u == variant_target(families@, #[trigger] indices@[p] as int, entry.rotation_steps) {
                        let p = choose|p: int| 0 <= p < q + 1 && u == variant_target(families@, #[trigger] indices@[p] as int, entry.rotation_steps);
                        assert(p != q);
                    }
                }
            }
        }
        q = q + 1;
    }
    proof {
        let cm = canonical@[slot as int];
        assert forall|u: int| 0 <= u < n implies (#[trigger] mask@[u] <==> exists|j: int|
            0 <= j < tcount && #[trigger] canonical@[sl]@[j] && u == variant_target(families@, j, entry.rotation_steps)) by {
            if mask@[u] {
                let p = choose|p: int| 0 <= p < indices@.len() && u == variant_target(families@, #[trigger] indices@[p] as int, entry.rotation_steps);
                let j = indices@[p] as int;
                assert(canonical@[sl]@[j]);
            }
            if exists|j: int| 0 <= j < tcount && #[trigger] canonical@[sl]@[j] && u == variant_target(families@, j, entry.rotation_steps) {
                let j = choose|j: int| 0 <= j < tcount && #[trigger] canonical@[sl]@[j] && u == variant_target(families@, j, entry.rotation_steps);
                assert(indices@.contains(j as usize));
                let p = choose|p: int| 0 <= p < indices@.len() && indices@[p] == j as usize;
                assert(u == variant_target(families@, indices@[p] as int, entry.rotation_steps));
            }
        }
    }
    mask
}

/// The variant masks, per direction and variant.
#[verifier::loop_isolation(false)]
fn build_allowed(
    ruleset: &WfcRuleset,
    families: &Vec<TileFamily>,
    variants: &Vec<TileVariantEntry>,
    canonical: &Vec<DomainBits>,
    directions: &Vec<WfcDirection>,
) -> (r: Vec<Vec<DomainBits>>)
    requires
        families@.len() == ruleset.tiles@.len(),
        families@.len() <= ID_SPACE,
        families@.len() > 0,
        families_match(ruleset.tiles@, ruleset.topology, families@),
        variants_match(families@, variants@),
        variants@.len() <= 4 * ID_SPACE,
        directions@ == active_dirs(ruleset.topology),
        canonical_upto(*ruleset, directions@, families@.len() as int, canonical@, ruleset.adjacency@.len() as int),
    ensures
        r@.len() == directions@.len(),
        forall|d: int| 0 <= d < r@.len() ==> #[trigger] r@[d]@.len() == variants@.len(),
        forall|d: int, v: int|
            0 <= d < r@.len() && 0 <= v < variants@.len() ==> {
                &&& (#[trigger] r@[d]@[v]).wf()
                &&& r@[d]@[v].len_spec() == variants@.len()
                &&& r@[d]@[v].clean()
                &&& forall|u: int|
                    0 <= u < variants@.len() ==> (#[trigger] r@[d]@[v]@[u] <==> exists|j: int|
                        0 <= j < families@.len() && #[trigger] canonical@[canonical_slot(
                            ruleset.topology,
                            directions@,
                            families@.len() as int,
                            variants@,
                            d,
                            v,
                        )]@[j] && u == variant_target(families@, j, variants@[v].rotation_steps))
            },
{
    let n = variants.len();
    let dcount = directions.len();
    let mut allowed: Vec<Vec<DomainBits>> = Vec::new();
    let mut d: usize = 0;
    while d < dcount
        invariant
            d <= dcount,
            dcount == directions@.len(),
            n == variants@.len(),
            allowed@.len() == d,
            forall|d2: int| 0 <= d2 < d ==> #[trigger] allowed@[d2]@.len() == n,
            forall|d2: int, v: int|
                0 <= d2 < d && 0 <= v < n ==> {
                    &&& (#[trigger] allowed@[d2]@[v]).wf()
                    &&& allowed@[d2]@[v].len_spec() == n
                    &&& allowed@[d2]@[v].clean()
                    &&& forall|u: int|
                        0 <= u < n ==> (#[trigger] allowed@[d2]@[v]@[u] <==> exists|j: int|
                            0 <= j < families@.len() && #[trigger] canonical@[canonical_slot(
                                ruleset.topology,
                                directions@,
                                families@.len() as int,
                                variants@,
                                d2,
                                v,
                            )]@[j] && u == variant_target(families@, j, variants@[v].rotation_steps))
                },
        decreases dcount - d,
    {
        let mut row: Vec<DomainBits> = Vec::new();
        let mut v: usize = 0;
        while v < n
            invariant
                d < dcount,
                dcount == directions@.len(),
                v <= n,
                n == variants@.len(),
                row@.len() == v,
                forall|v2: int|
                    0 <= v2 < v ==> {
                        &&& (#[trigger] row@[v2]).wf()
                        &&& row@[v2].len_spec() == n
                        &&& row@[v2].clean()
                        &&& forall|u: int|
                            0 <= u < n ==> (#[trigger] row@[v2]@[u] <==> exists|j: int|
                                0 <= j < families@.len() && #[trigger] canonical@[canonical_slot(
                                    ruleset.topology,
                                    directions@,
                                    families@.len() as int,
                                    variants@,
                                    d as int,
                                    v2,
                                )]@[j] && u == variant_target(families@, j, variants@[v2].rotation_steps))
                    },
            decreases n - v,
        {
            let mask = variant_mask(ruleset, families, variants, canonical, directions, d, v);
            row.push(mask);
            v = v + 1;
        }
        allowed.push(row);
        d = d + 1;
    }
    allowed
}

} // verus!
