use vstd::prelude::*;

use crate::bitset::count_true;
use crate::config::{
    active_dirs, inverse_rotate, unique_rotations_spec, WfcDirection, WfcGlobalConstraint, WfcRequest, WfcRuleset,
    WfcTileId,
};
use crate::grid::{index_spec, CompiledGrid};
use crate::lemmas::{lemma_subset_count, subset_bits};
use crate::rules::{family_mirrors, id_text, ids_distinct, rule_allows, ruleset_accepts, tile_known, CompiledRuleset};

verus! {

/// Some variant in `src` lets `u` stand in direction `d`.
pub open spec fn supported(rules: CompiledRuleset, d: WfcDirection, src: Seq<bool>, u: int) -> bool {
    exists|t: int| 0 <= t < rules.count() && src[t] && #[trigger] rules.allows(d, t, u)
}

/// Every variant left at the neighbour of `c` in direction `d` is supported by `c`.
pub open spec fn arc_ok(grid: CompiledGrid, rules: CompiledRuleset, doms: Seq<Seq<bool>>, c: int, d: WfcDirection) -> bool {
    match grid.neighbor_spec(c, d) {
        Some(nb) => forall|u: int|
            0 <= u < rules.count() && #[trigger] doms[nb][u] ==> supported(rules, d, doms[c], u),
        None => true,
    }
}

/// Every arc out of `c` is consistent.
pub open spec fn cell_arcs_ok(grid: CompiledGrid, rules: CompiledRuleset, doms: Seq<Seq<bool>>, c: int) -> bool {
    forall|i: int|
        0 <= i < active_dirs(grid.topology).len() ==> #[trigger] arc_ok(grid, rules, doms, c, active_dirs(grid.topology)[i])
}

/// `dom` still holds every variant.
pub open spec fn pristine(rules: CompiledRuleset, dom: Seq<bool>) -> bool {
    forall|t: int| 0 <= t < rules.count() ==> #[trigger] dom[t]
}

/// A cell that was never narrowed, or whose arcs are consistent.
pub open spec fn cell_settled(grid: CompiledGrid, rules: CompiledRuleset, doms: Seq<Seq<bool>>, c: int) -> bool {
    pristine(rules, doms[c]) || cell_arcs_ok(grid, rules, doms, c)
}

/// Every cell is settled.
pub open spec fn weakly_consistent(grid: CompiledGrid, rules: CompiledRuleset, doms: Seq<Seq<bool>>) -> bool {
    forall|c: int| 0 <= c < grid.cells() ==> #[trigger] cell_settled(grid, rules, doms, c)
}

/// Every cell has a variant left.
pub open spec fn all_nonempty(doms: Seq<Seq<bool>>) -> bool {
    forall|c: int| 0 <= c < doms.len() ==> #[trigger] count_true(doms[c]) > 0
}

/// Some variant of `tile` is in `dom`.
pub open spec fn holds_tile(rules: CompiledRuleset, dom: Seq<bool>, tile: crate::config::WfcTileId) -> bool {
    exists|t: int| 0 <= t < rules.count() && #[trigger] dom[t] && rules.variants@[t].tile_id == tile
}

/// Among the first `k` cells, those that may hold `tile` (as their one variant, if `single`).
pub open spec fn cells_holding(rules: CompiledRuleset, doms: Seq<Seq<bool>>, tile: crate::config::WfcTileId, single: bool, k: int) -> nat
    decreases k,
{
    if k <= 0 {
        0
    } else {
        cells_holding(rules, doms, tile, single, k - 1) + if holds_tile(rules, doms[k - 1], tile) && (!single
            || count_true(doms[k - 1]) == 1) {
            1nat
        } else {
            0nat
        }
    }
}

/// One tile-count bound is still reachable: the cells settled on the tile do not exceed the
/// maximum, and the cells that may still hold it reach the minimum (both counted as `u32`).
pub open spec fn global_ok(rules: CompiledRuleset, doms: Seq<Seq<bool>>, g: WfcGlobalConstraint) -> bool {
    match g {
        WfcGlobalConstraint::TileCount(t) => {
            &&& (t.max_count matches Some(m) ==> (cells_holding(rules, doms, t.tile, true, doms.len() as int) as u32) <= m)
            &&& (t.min_count matches Some(m) ==> (cells_holding(rules, doms, t.tile, false, doms.len() as int) as u32) >= m)
        },
    }
}

/// The tile-count bounds of the request are still reachable.
pub open spec fn globals_ok(request: WfcRequest, rules: CompiledRuleset, doms: Seq<Seq<bool>>) -> bool {
    forall|i: int|
        0 <= i < request.global_constraints@.len() ==> #[trigger] global_ok(rules, doms, request.global_constraints@[i])
}

/// A state the solver can rest in between observations.
pub open spec fn snapshot_settled(request: WfcRequest, grid: CompiledGrid, rules: CompiledRuleset, doms: Seq<Seq<bool>>) -> bool {
    &&& weakly_consistent(grid, rules, doms)
    &&& all_nonempty(doms)
    &&& globals_ok(request, rules, doms)
}

/// `b` has the cells of `a`, each with no variant that `a` lacks.
pub open spec fn views_shrink(a: Seq<Seq<bool>>, b: Seq<Seq<bool>>) -> bool {
    &&& a.len() == b.len()
    &&& forall|c: int| 0 <= c < a.len() ==> subset_bits(#[trigger] b[c], a[c])
}

/// Every cell has room for every variant.
pub open spec fn shaped(doms: Seq<Seq<bool>>, n: nat) -> bool {
    forall|c: int| 0 <= c < doms.len() ==> (#[trigger] doms[c]).len() >= n
}

/// The fixed cell `i` of the request lies in the grid and keeps only its tile.
pub open spec fn fixed_ok(request: WfcRequest, grid: CompiledGrid, rules: CompiledRuleset, doms: Seq<Seq<bool>>, i: int) -> bool {
    match index_spec(grid.size, request.fixed_cells@[i].position) {
        Some(c) => forall|t: int|
            0 <= t < rules.count() && #[trigger] doms[c][t] ==> rules.variants@[t].tile_id == request.fixed_cells@[i].tile,
        None => false,
    }
}

/// The ban list `i` of the request lies in the grid and none of its tiles is left there.
pub open spec fn ban_ok(request: WfcRequest, grid: CompiledGrid, rules: CompiledRuleset, doms: Seq<Seq<bool>>, i: int) -> bool {
    match index_spec(grid.size, request.banned_cells@[i].position) {
        Some(c) => forall|t: int|
            0 <= t < rules.count() && #[trigger] doms[c][t] ==> !request.banned_cells@[i].banned_tiles@.contains(
                rules.variants@[t].tile_id,
            ),
        None => false,
    }
}

/// Cell `c`, if it lies on the border of constraint `i`, keeps only the tiles that it allows.
pub open spec fn border_ok(request: WfcRequest, grid: CompiledGrid, rules: CompiledRuleset, doms: Seq<Seq<bool>>, i: int, c: int) -> bool {
    grid.on_border_spec(c, request.border_constraints@[i].border) ==> forall|t: int|
        0 <= t < rules.count() && #[trigger] doms[c][t] ==> request.border_constraints@[i].allowed_tiles@.contains(
            rules.variants@[t].tile_id,
        )
}

/// The input constraints of the request hold of every cell.
pub open spec fn local_ok(request: WfcRequest, grid: CompiledGrid, rules: CompiledRuleset, doms: Seq<Seq<bool>>) -> bool {
    &&& forall|i: int| 0 <= i < request.fixed_cells@.len() ==> #[trigger] fixed_ok(request, grid, rules, doms, i)
    &&& forall|i: int| 0 <= i < request.banned_cells@.len() ==> #[trigger] ban_ok(request, grid, rules, doms, i)
    &&& forall|i: int, c: int|
        0 <= i < request.border_constraints@.len() && 0 <= c < grid.cells() ==> #[trigger] border_ok(
            request,
            grid,
            rules,
            doms,
            i,
            c,
        )
}

/// Narrowing cells keeps fixed cell `i` pinned.
pub proof fn lemma_fixed_ok_shrink(
    request: WfcRequest,
    grid: CompiledGrid,
    rules: CompiledRuleset,
    a: Seq<Seq<bool>>,
    b: Seq<Seq<bool>>,
    i: int,
)
    requires
        fixed_ok(request, grid, rules, a, i),
        views_shrink(a, b),
        shaped(b, rules.count()),
        b.len() == grid.cells(),
        grid.wf(),
    ensures
        fixed_ok(request, grid, rules, b, i),
{
    match index_spec(grid.size, request.fixed_cells@[i].position) {
        Some(c) => {
            crate::grid::lemma_index_bounds(grid.size, request.fixed_cells@[i].position);
            assert forall|t: int| 0 <= t < rules.count() && #[trigger] b[c][t] implies rules.variants@[t].tile_id
                == request.fixed_cells@[i].tile by {
                assert(subset_bits(b[c], a[c]));
                assert(a[c][t]);
            }
        },
        None => {},
    }
}

/// Narrowing cells keeps ban list `i` honoured.
pub proof fn lemma_ban_ok_shrink(
    request: WfcRequest,
    grid: CompiledGrid,
    rules: CompiledRuleset,
    a: Seq<Seq<bool>>,
    b: Seq<Seq<bool>>,
    i: int,
)
    requires
        ban_ok(request, grid, rules, a, i),
        views_shrink(a, b),
        shaped(b, rules.count()),
        b.len() == grid.cells(),
        grid.wf(),
    ensures
        ban_ok(request, grid, rules, b, i),
{
    match index_spec(grid.size, request.banned_cells@[i].position) {
        Some(c) => {
            crate::grid::lemma_index_bounds(grid.size, request.banned_cells@[i].position);
            assert forall|t: int| 0 <= t < rules.count() && #[trigger] b[c][t] implies !request.banned_cells@[i].banned_tiles@.contains(
                rules.variants@[t].tile_id,
            ) by {
                assert(subset_bits(b[c], a[c]));
                assert(a[c][t]);
            }
        },
        None => {},
    }
}

/// Narrowing cells keeps cell `c` within border constraint `i`.
pub proof fn lemma_border_ok_shrink(
    request: WfcRequest,
    grid: CompiledGrid,
    rules: CompiledRuleset,
    a: Seq<Seq<bool>>,
    b: Seq<Seq<bool>>,
    i: int,
    c: int,
)
    requires
        border_ok(request, grid, rules, a, i, c),
        views_shrink(a, b),
        shaped(b, rules.count()),
        b.len() == grid.cells(),
        0 <= c < grid.cells(),
    ensures
        border_ok(request, grid, rules, b, i, c),
{
    assert(subset_bits(b[c], a[c]));
    assert forall|t: int| 0 <= t < rules.count() && #[trigger] b[c][t] implies (grid.on_border_spec(
        c,
        request.border_constraints@[i].border,
    ) ==> request.border_constraints@[i].allowed_tiles@.contains(rules.variants@[t].tile_id)) by {
        assert(a[c][t]);
    }
}

/// Narrowing cells keeps the input constraints.
pub proof fn lemma_local_ok_shrink(
    request: WfcRequest,
    grid: CompiledGrid,
    rules: CompiledRuleset,
    a: Seq<Seq<bool>>,
    b: Seq<Seq<bool>>,
)
    requires
        local_ok(request, grid, rules, a),
        views_shrink(a, b),
        shaped(b, rules.count()),
        b.len() == grid.cells(),
        grid.wf(),
    ensures
        local_ok(request, grid, rules, b),
{
    assert forall|i: int| 0 <= i < request.fixed_cells@.len() implies #[trigger] fixed_ok(request, grid, rules, b, i) by {
        lemma_fixed_ok_shrink(request, grid, rules, a, b, i);
    }
    assert forall|i: int| 0 <= i < request.banned_cells@.len() implies #[trigger] ban_ok(request, grid, rules, b, i) by {
        lemma_ban_ok_shrink(request, grid, rules, a, b, i);
    }
    assert forall|i: int, c: int|
        0 <= i < request.border_constraints@.len() && 0 <= c < grid.cells() implies #[trigger] border_ok(
        request,
        grid,
        rules,
        b,
        i,
        c,
    ) by {
        lemma_border_ok_shrink(request, grid, rules, a, b, i, c);
    }
}

/// Narrowing a cell other than `x`, or its neighbours, leaves the arc of `x` in direction `d` consistent.
pub proof fn lemma_arc_shrink(
    grid: CompiledGrid,
    rules: CompiledRuleset,
    a: Seq<Seq<bool>>,
    b: Seq<Seq<bool>>,
    x: int,
    d: WfcDirection,
)
    requires
        arc_ok(grid, rules, a, x, d),
        views_shrink(a, b),
        shaped(b, rules.count()),
        b[x] == a[x],
        grid.wf(),
        b.len() == grid.cells(),
        0 <= x < grid.cells(),
    ensures
        arc_ok(grid, rules, b, x, d),
{
    match grid.neighbor_spec(x, d) {
        Some(nb) => {
            crate::grid::lemma_neighbor_in_range(grid, x, d);
            assert forall|u: int| 0 <= u < rules.count() && #[trigger] b[nb][u] implies supported(rules, d, b[x], u) by {
                assert(subset_bits(b[nb], a[nb]));
                assert(a[nb][u]);
            }
        },
        None => {},
    }
}

/// Narrowing cells other than `x` keeps `x` settled.
pub proof fn lemma_settled_shrink(
    grid: CompiledGrid,
    rules: CompiledRuleset,
    a: Seq<Seq<bool>>,
    b: Seq<Seq<bool>>,
    x: int,
)
    requires
        cell_settled(grid, rules, a, x),
        views_shrink(a, b),
        shaped(b, rules.count()),
        b[x] == a[x],
        grid.wf(),
        b.len() == grid.cells(),
        0 <= x < grid.cells(),
    ensures
        cell_settled(grid, rules, b, x),
{
    if !pristine(rules, a[x]) {
        assert forall|i: int| 0 <= i < active_dirs(grid.topology).len() implies #[trigger] arc_ok(
            grid,
            rules,
            b,
            x,
            active_dirs(grid.topology)[i],
        ) by {
            assert(arc_ok(grid, rules, a, x, active_dirs(grid.topology)[i]));
            lemma_arc_shrink(grid, rules, a, b, x, active_dirs(grid.topology)[i]);
        }
    }
}

/// Replacing one cell by a subset of itself narrows the views.
pub proof fn lemma_update_shrinks(a: Seq<Seq<bool>>, y: int, s: Seq<bool>)
    requires
        0 <= y < a.len(),
        subset_bits(s, a[y]),
    ensures
        views_shrink(a, a.update(y, s)),
{
    assert forall|c: int| 0 <= c < a.len() implies subset_bits(#[trigger] a.update(y, s)[c], a[c]) by {
        if c != y {
            assert(a.update(y, s)[c] == a[c]);
        }
    }
}

/// Narrowing is transitive.
pub proof fn lemma_shrink_trans(a: Seq<Seq<bool>>, b: Seq<Seq<bool>>, c: Seq<Seq<bool>>)
    requires
        views_shrink(a, b),
        views_shrink(b, c),
    ensures
        views_shrink(a, c),
{
    assert forall|x: int| 0 <= x < a.len() implies subset_bits(#[trigger] c[x], a[x]) by {
        assert(subset_bits(c[x], b[x]));
        assert(subset_bits(b[x], a[x]));
    }
}

/// Every state narrows itself.
pub proof fn lemma_shrink_refl(a: Seq<Seq<bool>>)
    ensures
        views_shrink(a, a),
{
}

/// Fixed cell `j` lies in the grid and names a tile of the ruleset.
pub open spec fn fixed_valid(request: WfcRequest, j: int) -> bool {
    &&& index_spec(request.grid_size, request.fixed_cells@[j].position) is Some
    &&& tile_known(request.ruleset.tiles@, request.fixed_cells@[j].tile)
}

/// Ban list `j` lies in the grid and names only tiles of the ruleset.
pub open spec fn ban_valid(request: WfcRequest, j: int) -> bool {
    &&& index_spec(request.grid_size, request.banned_cells@[j].position) is Some
    &&& forall|k: int|
        0 <= k < request.banned_cells@[j].banned_tiles@.len() ==> tile_known(
            request.ruleset.tiles@,
            #[trigger] request.banned_cells@[j].banned_tiles@[k],
        )
}

/// Border constraint `j` names only tiles of the ruleset.
pub open spec fn border_valid(request: WfcRequest, j: int) -> bool {
    forall|k: int|
        0 <= k < request.border_constraints@[j].allowed_tiles@.len() ==> tile_known(
            request.ruleset.tiles@,
            #[trigger] request.border_constraints@[j].allowed_tiles@[k],
        )
}

/// Every input constraint of the request lies in the grid and names tiles of the ruleset.
pub open spec fn inputs_valid(request: WfcRequest) -> bool {
    &&& forall|j: int| 0 <= j < request.fixed_cells@.len() ==> #[trigger] fixed_valid(request, j)
    &&& forall|j: int| 0 <= j < request.banned_cells@.len() ==> #[trigger] ban_valid(request, j)
    &&& forall|j: int| 0 <= j < request.border_constraints@.len() ==> #[trigger] border_valid(request, j)
}

/// The variants of `a` that `b` holds too.
pub open spec fn and_bits(a: Seq<bool>, b: Seq<bool>) -> Seq<bool> {
    Seq::new(a.len(), |i: int| a[i] && b[i])
}

/// `k` is the first member of `s`.
pub open spec fn is_first_member(s: Seq<bool>, k: int) -> bool {
    &&& 0 <= k < s.len()
    &&& s[k]
    &&& forall|i: int| 0 <= i < k ==> !#[trigger] s[i]
}

/// The first member of `s`.
pub open spec fn first_member(s: Seq<bool>) -> int {
    choose|k: int| is_first_member(s, k)
}

/// A sequence has at most one first member.
pub proof fn lemma_first_member(s: Seq<bool>, k: int)
    requires
        is_first_member(s, k),
    ensures
        first_member(s) == k,
{
    let j = first_member(s);
    assert(is_first_member(s, j));
    if j < k {
        assert(!s[j]);
    }
    if k < j {
        assert(!s[k]);
    }
}

/// The tile-count bound is consistent and names a tile of the ruleset.
pub open spec fn global_valid(request: WfcRequest, g: WfcGlobalConstraint) -> bool {
    match g {
        WfcGlobalConstraint::TileCount(t) => {
            &&& !(t.min_count matches Some(lo) && t.max_count matches Some(hi) && lo > hi)
            &&& tile_known(request.ruleset.tiles@, t.tile)
        },
    }
}

/// What checking a tile-count bound finds wrong with it; the checks run in this order.
pub open spec fn global_problem(request: WfcRequest, g: WfcGlobalConstraint) -> Option<Seq<char>> {
    match g {
        WfcGlobalConstraint::TileCount(t) => {
            if t.min_count matches Some(lo) && t.max_count matches Some(hi) && lo > hi {
                Some("tile-count constraint for "@ + id_text(t.tile) + " has min > max"@)
            } else if !tile_known(request.ruleset.tiles@, t.tile) {
                Some("unknown tile id "@ + id_text(t.tile))
            } else {
                None
            }
        },
    }
}

/// The problem of the first tile-count bound among the first `n` that has one.
pub open spec fn first_global_problem(request: WfcRequest, n: int) -> Option<Seq<char>>
    decreases n,
{
    if n <= 0 {
        None
    } else if first_global_problem(request, n - 1) is Some {
        first_global_problem(request, n - 1)
    } else {
        global_problem(request, request.global_constraints@[n - 1])
    }
}

/// Once a problem is found among the first `a` bounds, looking further finds the same one.
pub proof fn lemma_first_global_stable(request: WfcRequest, a: int, b: int)
    requires
        0 <= a <= b,
        first_global_problem(request, a) is Some,
    ensures
        first_global_problem(request, b) == first_global_problem(request, a),
    decreases b - a,
{
    if a < b {
        lemma_first_global_stable(request, a, b - 1);
    }
}

/// Every tile-count bound of the request is consistent and names a tile of the ruleset.
pub open spec fn globals_valid(request: WfcRequest) -> bool {
    forall|i: int|
        0 <= i < request.global_constraints@.len() ==> #[trigger] global_valid(request, request.global_constraints@[i])
}

/// The grid that a request describes.
pub open spec fn request_grid(request: WfcRequest) -> CompiledGrid {
    CompiledGrid {
        topology: request.ruleset.topology,
        size: request.grid_size,
        boundary_stitching: request.boundary_stitching,
    }
}

/// The authored rules let tile `b` at `b_rot` quarter turns stand in direction `d` of tile `a`
/// at `a_rot`: a rule of `a` allows `b` in the direction that `d` shows on the unrotated `a`,
/// and `b` carries the rotation of `a`, reduced to the distinct rotations of `b`.
pub open spec fn placement_allowed(rs: WfcRuleset, a: WfcTileId, a_rot: u8, d: WfcDirection, b: WfcTileId, b_rot: u8) -> bool {
    &&& rule_allows(rs.adjacency@, a, inverse_rotate(d, a_rot, rs.topology), b)
    &&& exists|k: int|
        0 <= k < rs.tiles@.len() && #[trigger] rs.tiles@[k].id == b && b_rot == a_rot % unique_rotations_spec(
            rs.tiles@[k].symmetry,
            rs.topology,
        )
}

/// How many entries of `tiles` are `tile`.
pub open spec fn count_tile(tiles: Seq<WfcTileId>, tile: WfcTileId) -> nat
    decreases tiles.len(),
{
    if tiles.len() == 0 {
        0
    } else {
        count_tile(tiles.drop_last(), tile) + if tiles.last() == tile {
            1nat
        } else {
            0nat
        }
    }
}

/// A filled grid obeys the request: adjacent cells are placed as the rules allow, fixed cells
/// hold their tile, no cell holds a tile banned there, border cells hold allowed tiles, and
/// every tile-count bound holds (counted as `u32`).
pub open spec fn solution_respects(request: WfcRequest, tiles: Seq<WfcTileId>, rotations: Seq<u8>) -> bool {
    let grid = request_grid(request);
    let rs = request.ruleset;
    &&& tiles.len() == grid.cells()
    &&& rotations.len() == grid.cells()
    &&& forall|c: int, d: WfcDirection|
        0 <= c < grid.cells() && active_dirs(rs.topology).contains(d) && grid.neighbor_spec(c, d) is Some
            ==> #[trigger] placement_allowed(
            rs,
            tiles[c],
            rotations[c],
            d,
            tiles[grid.neighbor_spec(c, d)->0],
            rotations[grid.neighbor_spec(c, d)->0],
        )
    &&& forall|i: int|
        0 <= i < request.fixed_cells@.len() ==> {
            let p = #[trigger] request.fixed_cells@[i];
            &&& index_spec(request.grid_size, p.position) is Some
            &&& tiles[index_spec(request.grid_size, p.position)->0] == p.tile
        }
    &&& forall|i: int|
        0 <= i < request.banned_cells@.len() ==> {
            let b = #[trigger] request.banned_cells@[i];
            &&& index_spec(request.grid_size, b.position) is Some
            &&& !b.banned_tiles@.contains(tiles[index_spec(request.grid_size, b.position)->0])
        }
    &&& forall|i: int, c: int|
        0 <= i < request.border_constraints@.len() && 0 <= c < grid.cells() && grid.on_border_spec(
            c,
            #[trigger] request.border_constraints@[i].border,
        ) ==> request.border_constraints@[i].allowed_tiles@.contains(#[trigger] tiles[c])
    &&& forall|i: int|
        0 <= i < request.global_constraints@.len() ==> match #[trigger] request.global_constraints@[i] {
            WfcGlobalConstraint::TileCount(t) => {
                &&& (t.max_count matches Some(m) ==> (count_tile(tiles, t.tile) as u32) <= m)
                &&& (t.min_count matches Some(m) ==> (count_tile(tiles, t.tile) as u32) >= m)
            },
        }
}

/// Every cell of `s` has room for exactly `n` variants.
pub open spec fn exact_shape(s: Seq<Seq<bool>>, n: nat) -> bool {
    forall|c: int| 0 <= c < s.len() ==> (#[trigger] s[c]).len() == n
}

/// Every cell holds exactly one variant.
pub open spec fn single_valued(s: Seq<Seq<bool>>) -> bool {
    forall|c: int| 0 <= c < s.len() ==> #[trigger] count_true(s[c]) == 1
}

/// Among the first `n` variants, `x` holds none that `y` lacks.
pub open spec fn fits_cell(x: Seq<bool>, y: Seq<bool>, n: nat) -> bool {
    forall|t: int| 0 <= t < n && #[trigger] x[t] ==> y[t]
}

/// `s` has the cells of `v`, each with none of the first `n` variants that `v` lacks.
pub open spec fn fits_within(v: Seq<Seq<bool>>, s: Seq<Seq<bool>>, n: nat) -> bool {
    &&& s.len() == v.len()
    &&& forall|c: int| 0 <= c < s.len() ==> fits_cell(#[trigger] s[c], v[c], n)
}

/// A state whose arcs are all consistent and which meets the fixed cells, bans and borders of
/// the request. The cells of any solution of the request, each holding just its variant, are
/// such a state.
pub open spec fn candidate(request: WfcRequest, grid: CompiledGrid, rules: CompiledRuleset, s: Seq<Seq<bool>>) -> bool {
    &&& s.len() == grid.cells()
    &&& exact_shape(s, rules.count())
    &&& forall|c: int| 0 <= c < grid.cells() ==> #[trigger] cell_arcs_ok(grid, rules, s, c)
    &&& local_ok(request, grid, rules, s)
}

/// Some cell's count of variants, taken as a `u16`, is zero.
pub open spec fn some_count_zero(doms: Seq<Seq<bool>>) -> bool {
    exists|c: int| 0 <= c < doms.len() && (#[trigger] count_true(doms[c]) as u16) == 0
}

/// Every candidate state lies within `views`: no candidate has been ruled out.
pub open spec fn covers_candidates(request: WfcRequest, grid: CompiledGrid, rules: CompiledRuleset, views: Seq<Seq<bool>>) -> bool {
    forall|s: Seq<Seq<bool>>| #[trigger] candidate(request, grid, rules, s) ==> fits_within(views, s, rules.count())
}

/// Every candidate state that fits within `a` still fits within `b`: going from `a` to `b`
/// rules out no candidate.
pub open spec fn keeps_candidates(
    request: WfcRequest,
    grid: CompiledGrid,
    rules: CompiledRuleset,
    a: Seq<Seq<bool>>,
    b: Seq<Seq<bool>>,
) -> bool {
    forall|s: Seq<Seq<bool>>| #[trigger] candidate(request, grid, rules, s) && fits_within(a, s, rules.count())
        ==> fits_within(b, s, rules.count())
}

/// Keeping candidates chains.
pub proof fn lemma_keeps_trans(
    request: WfcRequest,
    grid: CompiledGrid,
    rules: CompiledRuleset,
    a: Seq<Seq<bool>>,
    b: Seq<Seq<bool>>,
    c: Seq<Seq<bool>>,
)
    requires
        keeps_candidates(request, grid, rules, a, b),
        keeps_candidates(request, grid, rules, b, c),
    ensures
        keeps_candidates(request, grid, rules, a, c),
{
}

/// A state keeps the candidates of itself.
pub proof fn lemma_keeps_refl(request: WfcRequest, grid: CompiledGrid, rules: CompiledRuleset, a: Seq<Seq<bool>>)
    ensures
        keeps_candidates(request, grid, rules, a, a),
{
}

/// Keeping the candidates of a state that covers them all covers them all.
pub proof fn lemma_covers_keeps(
    request: WfcRequest,
    grid: CompiledGrid,
    rules: CompiledRuleset,
    a: Seq<Seq<bool>>,
    b: Seq<Seq<bool>>,
)
    requires
        covers_candidates(request, grid, rules, a),
        keeps_candidates(request, grid, rules, a, b),
    ensures
        covers_candidates(request, grid, rules, b),
{
}

/// Narrowing one cell to a set that every candidate within `a` keeps there keeps them all.
pub proof fn lemma_keeps_update(
    request: WfcRequest,
    grid: CompiledGrid,
    rules: CompiledRuleset,
    a: Seq<Seq<bool>>,
    c: int,
    next: Seq<bool>,
)
    requires
        0 <= c < a.len(),
        forall|s: Seq<Seq<bool>>| #[trigger] candidate(request, grid, rules, s) && fits_within(a, s, rules.count())
            ==> fits_cell(s[c], next, rules.count()),
    ensures
        keeps_candidates(request, grid, rules, a, a.update(c, next)),
{
    let w = a.update(c, next);
    assert forall|s: Seq<Seq<bool>>| #[trigger] candidate(request, grid, rules, s) && fits_within(a, s, rules.count()) implies fits_within(
        w,
        s,
        rules.count(),
    ) by {
        assert forall|x: int| 0 <= x < s.len() implies fits_cell(#[trigger] s[x], w[x], rules.count()) by {
            if x != c {
                assert(fits_cell(s[x], a[x], rules.count()));
            }
        }
    }
}

/// Cells that still hold every variant rule out no candidate.
pub proof fn lemma_covers_full(request: WfcRequest, grid: CompiledGrid, rules: CompiledRuleset, views: Seq<Seq<bool>>)
    requires
        views.len() == grid.cells(),
        forall|c: int| 0 <= c < views.len() ==> #[trigger] pristine(rules, views[c]),
    ensures
        covers_candidates(request, grid, rules, views),
{
    assert forall|s: Seq<Seq<bool>>| #[trigger] candidate(request, grid, rules, s) implies fits_within(
        views,
        s,
        rules.count(),
    ) by {
        assert forall|c: int| 0 <= c < s.len() implies fits_cell(#[trigger] s[c], views[c], rules.count()) by {
            assert(pristine(rules, views[c]));
        }
    }
}

/// Narrowing one cell to a set that every candidate keeps there rules out no candidate.
pub proof fn lemma_covers_update(
    request: WfcRequest,
    grid: CompiledGrid,
    rules: CompiledRuleset,
    views: Seq<Seq<bool>>,
    c: int,
    next: Seq<bool>,
)
    requires
        covers_candidates(request, grid, rules, views),
        0 <= c < views.len(),
        forall|s: Seq<Seq<bool>>| #[trigger] candidate(request, grid, rules, s) ==> fits_cell(s[c], next, rules.count()),
    ensures
        covers_candidates(request, grid, rules, views.update(c, next)),
{
    let w = views.update(c, next);
    assert forall|s: Seq<Seq<bool>>| #[trigger] candidate(request, grid, rules, s) implies fits_within(
        w,
        s,
        rules.count(),
    ) by {
        assert(fits_within(views, s, rules.count()));
        assert(fits_cell(s[c], next, rules.count()));
        assert forall|x: int| 0 <= x < s.len() implies fits_cell(#[trigger] s[x], w[x], rules.count()) by {
            if x != c {
                assert(fits_cell(s[x], views[x], rules.count()));
            }
        }
    }
}

/// A cell left with no variant rules out every candidate that keeps a variant in each cell.
pub proof fn lemma_covers_empty_cell(
    request: WfcRequest,
    grid: CompiledGrid,
    rules: CompiledRuleset,
    views: Seq<Seq<bool>>,
    c: int,
)
    requires
        covers_candidates(request, grid, rules, views),
        0 <= c < views.len(),
        views[c].len() >= rules.count(),
        count_true(views[c]) == 0,
    ensures
        forall|s: Seq<Seq<bool>>| #[trigger] candidate(request, grid, rules, s) ==> !all_nonempty(s),
{
    crate::lemmas::lemma_count_zero(views[c]);
    assert forall|s: Seq<Seq<bool>>| #[trigger] candidate(request, grid, rules, s) implies !all_nonempty(s) by {
        assert(fits_within(views, s, rules.count()));
        assert(fits_cell(s[c], views[c], rules.count()));
        assert(s[c].len() == rules.count());
        assert forall|t: int| 0 <= t < s[c].len() implies !s[c][t] by {
            if s[c][t] {
                assert(views[c][t]);
            }
        }
        crate::bitset::lemma_count_true_bounds(s[c]);
    }
}

/// Within `v`, a state `s` with one variant per cell holds a tile in at least the cells that
/// `v` settles on it and in at most the cells where `v` allows it.
proof fn lemma_holding_bounds(rules: CompiledRuleset, v: Seq<Seq<bool>>, s: Seq<Seq<bool>>, tile: WfcTileId, k: int)
    requires
        fits_within(v, s, rules.count()),
        single_valued(s),
        exact_shape(s, rules.count()),
        shaped(v, rules.count()),
        0 <= k <= v.len(),
    ensures
        cells_holding(rules, v, tile, true, k) <= cells_holding(rules, s, tile, true, k),
        cells_holding(rules, s, tile, false, k) <= cells_holding(rules, v, tile, false, k),
    decreases k,
{
    if k > 0 {
        lemma_holding_bounds(rules, v, s, tile, k - 1);
        let c = k - 1;
        assert(fits_cell(s[c], v[c], rules.count()));
        assert(count_true(s[c]) == 1);
        if holds_tile(rules, s[c], tile) {
            let t = choose|t: int| 0 <= t < rules.count() && #[trigger] s[c][t] && rules.variants@[t].tile_id == tile;
            assert(v[c][t]);
        }
        if holds_tile(rules, v[c], tile) && count_true(v[c]) == 1 {
            let t = choose|t: int| 0 <= t < rules.count() && #[trigger] v[c][t] && rules.variants@[t].tile_id == tile;
            let only = crate::bitset::lemma_count_true_one(v[c]);
            let one = crate::bitset::lemma_count_true_one(s[c]);
            assert(v[c][one]);
            assert(one == only);
            assert(t == only);
            assert(s[c][t]);
        }
    }
}

/// At most `k` of the first `k` cells hold a tile.
proof fn lemma_holding_upper(rules: CompiledRuleset, doms: Seq<Seq<bool>>, tile: WfcTileId, single: bool, k: int)
    requires
        0 <= k,
    ensures
        cells_holding(rules, doms, tile, single, k) <= k,
    decreases k,
{
    if k > 0 {
        lemma_holding_upper(rules, doms, tile, single, k - 1);
    }
}

/// With one variant per cell the two counts of cells holding a tile agree.
proof fn lemma_holding_single(rules: CompiledRuleset, s: Seq<Seq<bool>>, tile: WfcTileId, k: int)
    requires
        single_valued(s),
        0 <= k <= s.len(),
    ensures
        cells_holding(rules, s, tile, true, k) == cells_holding(rules, s, tile, false, k),
    decreases k,
{
    if k > 0 {
        lemma_holding_single(rules, s, tile, k - 1);
        assert(count_true(s[k - 1]) == 1);
    }
}

/// A state with one variant per cell that fits within `views` breaks every tile-count bound
/// that `views` already breaks.
pub proof fn lemma_fit_breaks_globals(request: WfcRequest, rules: CompiledRuleset, views: Seq<Seq<bool>>, s: Seq<Seq<bool>>)
    requires
        fits_within(views, s, rules.count()),
        single_valued(s),
        exact_shape(s, rules.count()),
        shaped(views, rules.count()),
        !globals_ok(request, rules, views),
        views.len() <= u32::MAX,
    ensures
        !globals_ok(request, rules, s),
{
    let i = choose|i: int|
        0 <= i < request.global_constraints@.len() && !#[trigger] global_ok(rules, views, request.global_constraints@[i]);
    let n = views.len() as int;
    match request.global_constraints@[i] {
        WfcGlobalConstraint::TileCount(t) => {
            lemma_holding_bounds(rules, views, s, t.tile, n);
            lemma_holding_single(rules, s, t.tile, n);
            lemma_holding_upper(rules, views, t.tile, true, n);
            lemma_holding_upper(rules, views, t.tile, false, n);
            lemma_holding_upper(rules, s, t.tile, true, n);
            lemma_holding_upper(rules, s, t.tile, false, n);
            assert(!global_ok(rules, s, request.global_constraints@[i]));
        },
    }
}

/// When `views` already breaks a tile-count bound, no candidate with one variant per cell
/// within it meets the bounds.
pub proof fn lemma_covers_globals(
    request: WfcRequest,
    grid: CompiledGrid,
    rules: CompiledRuleset,
    views: Seq<Seq<bool>>,
)
    requires
        covers_candidates(request, grid, rules, views),
        !globals_ok(request, rules, views),
        shaped(views, rules.count()),
        views.len() <= u32::MAX,
    ensures
        forall|s: Seq<Seq<bool>>|
            #[trigger] candidate(request, grid, rules, s) && single_valued(s) ==> !globals_ok(request, rules, s),
{
    assert forall|s: Seq<Seq<bool>>| #[trigger] candidate(request, grid, rules, s) && single_valued(s) implies !globals_ok(
        request,
        rules,
        s,
    ) by {
        lemma_fit_breaks_globals(request, rules, views, s);
    }
}

/// The tiles of the variants `vs`.
pub open spec fn variant_tiles(rules: CompiledRuleset, vs: Seq<int>) -> Seq<WfcTileId> {
    vs.map_values(|v: int| rules.variants@[v].tile_id)
}

/// The rotations of the variants `vs`.
pub open spec fn variant_rotations(rules: CompiledRuleset, vs: Seq<int>) -> Seq<u8> {
    vs.map_values(|v: int| rules.variants@[v].rotation_steps)
}

/// `vs` names one variant for each cell, and their tiles and rotations solve the request.
pub open spec fn realizes(request: WfcRequest, rules: CompiledRuleset, vs: Seq<int>) -> bool {
    &&& vs.len() == request_grid(request).cells()
    &&& forall|c: int| 0 <= c < vs.len() ==> 0 <= #[trigger] vs[c] < rules.count()
    &&& solution_respects(request, variant_tiles(rules, vs), variant_rotations(rules, vs))
}

/// The state that holds exactly variant `vs[c]` in each cell `c`.
pub open spec fn singles(vs: Seq<int>, n: nat) -> Seq<Seq<bool>> {
    Seq::new(vs.len(), |c: int| Seq::new(n, |t: int| t == vs[c]))
}

/// The cells of a solution, each holding just its variant, form a candidate state with one
/// variant per cell that meets the tile-count bounds.
pub proof fn lemma_solution_is_candidate(request: WfcRequest, rules: CompiledRuleset, vs: Seq<int>)
    requires
        rules.wf(),
        rules.compiled_from(request.ruleset),
        ruleset_accepts(request.ruleset),
        realizes(request, rules, vs),
    ensures
        candidate(request, request_grid(request), rules, singles(vs, rules.count())),
        single_valued(singles(vs, rules.count())),
        globals_ok(request, rules, singles(vs, rules.count())),
{
    let n = rules.count();
    let grid = request_grid(request);
    let rs = request.ruleset;
    let s = singles(vs, n);
    let tiles = variant_tiles(rules, vs);
    let rots = variant_rotations(rules, vs);
    assert forall|c: int| 0 <= c < s.len() implies #[trigger] count_true(s[c]) == 1 by {
        crate::bitset::lemma_count_true_single(s[c], vs[c]);
    }
    assert forall|c: int| 0 <= c < grid.cells() implies #[trigger] cell_arcs_ok(grid, rules, s, c) by {
        assert forall|i: int| 0 <= i < active_dirs(grid.topology).len() implies #[trigger] arc_ok(
            grid,
            rules,
            s,
            c,
            active_dirs(grid.topology)[i],
        ) by {
            let d = active_dirs(grid.topology)[i];
            if grid.neighbor_spec(c, d) is Some {
                let nb = grid.neighbor_spec(c, d)->0;
                crate::grid::lemma_neighbor_in_range(grid, c, d);
                assert(active_dirs(rs.topology).contains(d));
                assert(placement_allowed(rs, tiles[c], rots[c], d, tiles[nb], rots[nb]));
                let v = vs[c];
                let u = vs[nb];
                let k = choose|k: int|
                    0 <= k < rs.tiles@.len() && #[trigger] rs.tiles@[k].id == tiles[nb] && rots[nb] == rots[c]
                        % unique_rotations_spec(rs.tiles@[k].symmetry, rs.topology);
                let f = rules.variants@[u].family as int;
                assert(family_mirrors(rs.tiles@, rs.topology, rules.families@[f], f));
                assert(rs.tiles@[f].id == tiles[nb]);
                assert(f == k) by {
                    if f != k {
                        assert(ids_distinct(rs.tiles@));
                        if f < k {
                            assert(rs.tiles@[f].id != rs.tiles@[k].id);
                        } else {
                            assert(rs.tiles@[k].id != rs.tiles@[f].id);
                        }
                    }
                }
                assert(rules.rule_permits(rs, d, v, u));
                assert(rules.allows(d, v, u));
                assert forall|w: int| 0 <= w < n && #[trigger] s[nb][w] implies supported(rules, d, s[c], w) by {
                    assert(w == u);
                    assert(s[c][v]);
                }
            }
        }
    }
    assert forall|i: int| 0 <= i < request.fixed_cells@.len() implies #[trigger] fixed_ok(request, grid, rules, s, i) by {
        let p = request.fixed_cells@[i];
        let c = index_spec(request.grid_size, p.position)->0;
        crate::grid::lemma_index_bounds(request.grid_size, p.position);
        assert(tiles[c] == p.tile);
    }
    assert forall|i: int| 0 <= i < request.banned_cells@.len() implies #[trigger] ban_ok(request, grid, rules, s, i) by {
        let b = request.banned_cells@[i];
        let c = index_spec(request.grid_size, b.position)->0;
        crate::grid::lemma_index_bounds(request.grid_size, b.position);
        assert(!b.banned_tiles@.contains(tiles[c]));
    }
    assert forall|i: int, c: int|
        0 <= i < request.border_constraints@.len() && 0 <= c < grid.cells() implies #[trigger] border_ok(
        request,
        grid,
        rules,
        s,
        i,
        c,
    ) by {
        if grid.on_border_spec(c, request.border_constraints@[i].border) {
            assert(request.border_constraints@[i].allowed_tiles@.contains(tiles[c]));
        }
    }
    assert forall|i: int| 0 <= i < request.global_constraints@.len() implies #[trigger] global_ok(
        rules,
        s,
        request.global_constraints@[i],
    ) by {
        match request.global_constraints@[i] {
            WfcGlobalConstraint::TileCount(t) => {
                assert forall|c: int| 0 <= c < s.len() implies (holds_tile(rules, s[c], t.tile) <==> #[trigger] tiles[c]
                    == t.tile) by {
                    if tiles[c] == t.tile {
                        assert(s[c][vs[c]]);
                    }
                }
                lemma_cells_holding_count(rules, s, tiles, t.tile, s.len() as int);
                assert(tiles.take(s.len() as int) =~= tiles);
            },
        }
    }
}

/// Going from `a` to `b` keeps every candidate, so it keeps every solution that fits within `a`.
pub proof fn lemma_solution_keeps(
    request: WfcRequest,
    grid: CompiledGrid,
    rules: CompiledRuleset,
    a: Seq<Seq<bool>>,
    b: Seq<Seq<bool>>,
)
    requires
        rules.wf(),
        rules.compiled_from(request.ruleset),
        ruleset_accepts(request.ruleset),
        grid == request_grid(request),
        keeps_candidates(request, grid, rules, a, b),
    ensures
        forall|vs: Seq<int>| #[trigger] realizes(request, rules, vs) && fits_within(a, singles(vs, rules.count()), rules.count())
            ==> fits_within(b, singles(vs, rules.count()), rules.count()),
{
    assert forall|vs: Seq<int>| #[trigger] realizes(request, rules, vs) && fits_within(a, singles(vs, rules.count()), rules.count())
        implies fits_within(b, singles(vs, rules.count()), rules.count()) by {
        lemma_solution_is_candidate(request, rules, vs);
    }
}

/// With one variant per cell, both counts of cells holding a tile agree with the count of
/// that tile in the placed tiles.
pub proof fn lemma_cells_holding_count(
    rules: CompiledRuleset,
    doms: Seq<Seq<bool>>,
    tiles: Seq<WfcTileId>,
    tile: WfcTileId,
    k: int,
)
    requires
        0 <= k <= doms.len(),
        k <= tiles.len(),
        forall|c: int| 0 <= c < k ==> #[trigger] count_true(doms[c]) == 1,
        forall|c: int| 0 <= c < k ==> (holds_tile(rules, doms[c], tile) <==> #[trigger] tiles[c] == tile),
    ensures
        cells_holding(rules, doms, tile, true, k) == count_tile(tiles.take(k), tile),
        cells_holding(rules, doms, tile, false, k) == count_tile(tiles.take(k), tile),
    decreases k,
{
    if k > 0 {
        lemma_cells_holding_count(rules, doms, tiles, tile, k - 1);
        assert(tiles.take(k).drop_last() =~= tiles.take(k - 1));
        assert(count_true(doms[k - 1]) == 1);
        assert(tiles[k - 1] == tile <==> holds_tile(rules, doms[k - 1], tile));
    } else {
        assert(tiles.take(0).len() == 0);
    }
}

} // verus!
