use vstd::prelude::*;

use crate::config::{
    dir_offset, opposite_dir, rule_is, WfcAdjacencyRule, WfcBoundaryStitching, WfcDirection, WfcRequest, WfcGridSize, WfcRuleset, WfcSeed, WfcSettings, WfcTileDefinition, WfcTileId,
    WfcTileSymmetry, WfcTopology,
};
use crate::text::decimal_spec;
use crate::weights::{count_weight, f32_bits_of};
use crate::debug::{
    fnv_seq, signature_values, WfcFailure, WfcFailureReason, WfcSolution, WfcSolveStats, WfcTileGrid, WfcTileVariant,
    FNV_OFFSET,
};
use crate::geometry::{IVec2, UVec3};
use crate::grid::index_spec;

verus! {

/// The pattern window and wrapping of an overlap solve.
#[derive(Clone, Copy, Debug, PartialEq, Eq, Structural)]
pub struct WfcOverlapOptions {
    pub pattern_width: u32,
    pub pattern_height: u32,
    pub periodic_input: bool,
    pub periodic_output: bool,
}

impl Default for WfcOverlapOptions {
    fn default() -> (r: Self)
        ensures
            r == (WfcOverlapOptions {
                pattern_width: 3,
                pattern_height: 3,
                periodic_input: true,
                periodic_output: false,
            }),
    {
        WfcOverlapOptions { pattern_width: 3, pattern_height: 3, periodic_input: true, periodic_output: false }
    }
}

/// A request to synthesise an output grid from the patterns of a sample.
#[derive(Clone, Debug, PartialEq)]
pub struct WfcOverlapRequest {
    pub sample: WfcTileGrid,
    pub output_size: WfcGridSize,
    pub seed: WfcSeed,
    pub settings: WfcSettings,
    pub options: WfcOverlapOptions,
}

impl WfcOverlapRequest {
    pub fn new(sample: WfcTileGrid, output_size: WfcGridSize, seed: WfcSeed) -> (r: Self)
        ensures
            r.sample == sample,
            r.output_size == output_size,
            r.seed == seed,
            r.settings == (WfcSettings {
                observation_heuristic: crate::config::WfcObservationHeuristic::MinimumEntropy,
                max_backtracks: 256,
                capture_debug_snapshot: false,
            }),
            r.options == (WfcOverlapOptions {
                pattern_width: 3,
                pattern_height: 3,
                periodic_input: true,
                periodic_output: false,
            }),
    {
        WfcOverlapRequest {
            sample,
            output_size,
            seed,
            settings: WfcSettings::default(),
            options: WfcOverlapOptions::default(),
        }
    }
}

/// A cell of a pattern: a tile and its rotation.
pub type PatternCell = (WfcTileId, u8);

/// What a rejected overlap request is answered with.
pub open spec fn is_overlap_failure(request: WfcOverlapRequest, f: WfcFailure) -> bool {
    &&& f.reason == WfcFailureReason::InvalidRequest
    &&& f.seed == request.seed
    &&& f.topology == WfcTopology::Cartesian2d
    &&& f.grid_size == request.output_size
    &&& f.stats == (WfcSolveStats {
        observation_count: 0,
        propagation_count: 0,
        backtrack_count: 0,
        contradiction_count: 0,
    })
    &&& f.contradiction is None
    &&& f.debug is None
}

/// The failure that reports an invalid overlap request.
fn invalid_failure(request: &WfcOverlapRequest, message: String) -> (r: WfcFailure)
    ensures
        is_overlap_failure(*request, r),
        r.message@ == message@,
{
    WfcFailure {
        reason: WfcFailureReason::InvalidRequest,
        seed: request.seed,
        topology: WfcTopology::Cartesian2d,
        grid_size: request.output_size,
        stats: WfcSolveStats::default(),
        contradiction: None,
        debug: None,
        message,
    }
}

/// The reason an overlap request is refused, if it is; the checks run in this order.
pub open spec fn overlap_refusal(request: WfcOverlapRequest) -> Option<Seq<char>> {
    let sample = request.sample;
    let options = request.options;
    if sample.topology != WfcTopology::Cartesian2d {
        Some("overlap solving currently supports only Cartesian2d samples"@)
    } else if sample.size.depth != 1 || request.output_size.depth != 1 {
        Some("overlap solving requires 2D sample and output grids"@)
    } else if sample.tiles@.len() != sample.size.cells() || sample.rotations@.len() != sample.size.cells() {
        Some("sample tile and rotation buffers must match the declared sample size"@)
    } else if options.pattern_width < 2 || options.pattern_height < 2 {
        Some("overlap patterns must be at least 2x2"@)
    } else if !options.periodic_input && (sample.size.width < options.pattern_width || sample.size.height
        < options.pattern_height) {
        Some("non-periodic overlap samples must be at least as large as the pattern window"@)
    } else {
        None
    }
}

/// Refuse an overlap request whose sample, sizes or pattern window cannot be used.
pub fn validate_request(request: &WfcOverlapRequest) -> (r: Result<(), WfcFailure>)
    requires
        request.sample.size.cells() <= usize::MAX,
    ensures
        r is Ok <==> overlap_refusal(*request) is None,
        r matches Err(f) ==> is_overlap_failure(*request, f) && f.message@ == overlap_refusal(*request)->0,
{
    let sample = &request.sample;
    let options = &request.options;
    if sample.topology != WfcTopology::Cartesian2d {
        proof {
            reveal_strlit("overlap solving currently supports only Cartesian2d samples");
        }
        return Err(invalid_failure(request, "overlap solving currently supports only Cartesian2d samples".to_owned()));
    }
    if sample.size.depth != 1 || request.output_size.depth != 1 {
        proof {
            reveal_strlit("overlap solving requires 2D sample and output grids");
        }
        return Err(invalid_failure(request, "overlap solving requires 2D sample and output grids".to_owned()));
    }
    let total = sample.size.total_cells();
    if sample.tiles.len() != total || sample.rotations.len() != total {
        proof {
            reveal_strlit("sample tile and rotation buffers must match the declared sample size");
        }
        return Err(
            invalid_failure(request, "sample tile and rotation buffers must match the declared sample size".to_owned()),
        );
    }
    if options.pattern_width < 2 || options.pattern_height < 2 {
        proof {
            reveal_strlit("overlap patterns must be at least 2x2");
        }
        return Err(invalid_failure(request, "overlap patterns must be at least 2x2".to_owned()));
    }
    if !options.periodic_input && (sample.size.width < options.pattern_width || sample.size.height
        < options.pattern_height) {
        proof {
            reveal_strlit("non-periodic overlap samples must be at least as large as the pattern window");
        }
        return Err(
            invalid_failure(
                request,
                "non-periodic overlap samples must be at least as large as the pattern window".to_owned(),
            ),
        );
    }
    Ok(())
}

/// The sample cell read at `(x, y)`: wrapped into the sample when the input is periodic,
/// nothing outside it otherwise.
pub open spec fn sample_variant_spec(request: WfcOverlapRequest, x: int, y: int) -> Option<WfcTileVariant> {
    let sample = request.sample;
    let w = sample.size.width as int;
    let h = sample.size.height as int;
    let (px, py) = if request.options.periodic_input {
        (x % w, y % h)
    } else {
        (x, y)
    };
    if !request.options.periodic_input && (x < 0 || y < 0 || x >= w || y >= h) {
        None
    } else {
        match index_spec(sample.size, UVec3 { x: px as u32, y: py as u32, z: 0 }) {
            Some(i) => Some(WfcTileVariant { tile: sample.tiles@[i], rotation_steps: sample.rotations@[i] }),
            None => None,
        }
    }
}

/// The sample cell read at `position`.
fn sample_variant(request: &WfcOverlapRequest, position: IVec2) -> (r: Option<WfcTileVariant>)
    requires
        request.sample.wf(),
        request.sample.size.width <= i32::MAX,
        request.sample.size.height <= i32::MAX,
        request.options.periodic_input ==> request.sample.size.width > 0 && request.sample.size.height > 0,
    ensures
        r == sample_variant_spec(*request, position.x as int, position.y as int),
{
    let sample_width = request.sample.size.width as i32;
    let sample_height = request.sample.size.height as i32;
    let (x, y) = if request.options.periodic_input {
        (rem_euclid(position.x, sample_width), rem_euclid(position.y, sample_height))
    } else {
        if position.x < 0 || position.y < 0 || position.x >= sample_width || position.y >= sample_height {
            return None;
        }
        (position.x, position.y)
    };
    request.sample.variant_at(UVec3 { x: x as u32, y: y as u32, z: 0 })
}

/// The non-negative remainder of `a` divided by `b`.
fn rem_euclid(a: i32, b: i32) -> (r: i32)
    requires
        b > 0,
    ensures
        r == a as int % b as int,
        0 <= r < b,
{
    let wide_b = b as u64;
    let n: u64 = if a >= 0 {
        a as u64
    } else {
        (-(a as i64)) as u64
    };
    let q = n / wide_b;
    let m = n % wide_b;
    proof {
        vstd::arithmetic::div_mod::lemma_fundamental_div_mod(n as int, wide_b as int);
        assert(n == q * wide_b + m) by (nonlinear_arith)
            requires
                n == wide_b * q + m,
        ;
    }
    if a >= 0 {
        proof {
            vstd::arithmetic::div_mod::lemma_fundamental_div_mod_converse(a as int, b as int, q as int, m as int);
        }
        m as i32
    } else if m == 0 {
        proof {
            assert(a == (-q) * b + 0) by (nonlinear_arith)
                requires
                    -a == q * b,
            ;
            vstd::arithmetic::div_mod::lemma_fundamental_div_mod_converse(a as int, b as int, -q, 0);
        }
        0
    } else {
        proof {
            assert(a == (-q - 1) * b + (b - m)) by (nonlinear_arith)
                requires
                    -a == q * b + m,
            ;
            vstd::arithmetic::div_mod::lemma_fundamental_div_mod_converse(a as int, b as int, -q - 1, b - m);
        }
        (wide_b - m) as i32
    }
}

/// Cell `a` sorts before cell `b`: by tile id, then by rotation.
pub open spec fn cell_lt(a: PatternCell, b: PatternCell) -> bool {
    a.0 .0 < b.0 .0 || (a.0 .0 == b.0 .0 && a.1 < b.1)
}

/// Pattern `a` sorts before pattern `b` in lexicographic order of their cells.
pub open spec fn pattern_lt(a: Seq<PatternCell>, b: Seq<PatternCell>) -> bool
    decreases a.len(),
{
    if a.len() == 0 {
        b.len() > 0
    } else if b.len() == 0 {
        false
    } else if cell_lt(a[0], b[0]) {
        true
    } else if a[0] == b[0] {
        pattern_lt(a.drop_first(), b.drop_first())
    } else {
        false
    }
}

/// No pattern sorts before itself.
pub proof fn lemma_lt_irreflexive(a: Seq<PatternCell>)
    ensures
        !pattern_lt(a, a),
    decreases a.len(),
{
    if a.len() > 0 {
        lemma_lt_irreflexive(a.drop_first());
    }
}

/// The order is transitive.
pub proof fn lemma_lt_transitive(a: Seq<PatternCell>, b: Seq<PatternCell>, c: Seq<PatternCell>)
    requires
        pattern_lt(a, b),
        pattern_lt(b, c),
    ensures
        pattern_lt(a, c),
    decreases a.len(),
{
    if a.len() > 0 && b.len() > 0 && c.len() > 0 {
        if a[0] == b[0] && b[0] == c[0] {
            lemma_lt_transitive(a.drop_first(), b.drop_first(), c.drop_first());
        }
    }
}

/// Two distinct patterns are ordered one way or the other.
pub proof fn lemma_lt_total(a: Seq<PatternCell>, b: Seq<PatternCell>)
    requires
        a != b,
    ensures
        pattern_lt(a, b) || pattern_lt(b, a),
    decreases a.len(),
{
    if a.len() > 0 && b.len() > 0 {
        if a[0] == b[0] {
            if a.drop_first() == b.drop_first() {
                assert(a =~= seq![a[0]] + a.drop_first());
                assert(b =~= seq![b[0]] + b.drop_first());
            }
            lemma_lt_total(a.drop_first(), b.drop_first());
        }
    } else if a.len() == 0 && b.len() == 0 {
        assert(a =~= b);
    }
}

/// The order is asymmetric.
pub proof fn lemma_lt_asymmetric(a: Seq<PatternCell>, b: Seq<PatternCell>)
    requires
        pattern_lt(a, b),
    ensures
        !pattern_lt(b, a),
{
    if pattern_lt(b, a) {
        lemma_lt_transitive(a, b, a);
        lemma_lt_irreflexive(a);
    }
}

/// How `a` compares with `b`.
pub enum PatternOrder {
    Less,
    Equal,
    Greater,
}

/// Compare two patterns in lexicographic order.
fn compare_patterns(a: &Vec<PatternCell>, b: &Vec<PatternCell>) -> (r: PatternOrder)
    ensures
        r is Less <==> pattern_lt(a@, b@),
        r is Equal <==> a@ == b@,
        r is Greater <==> pattern_lt(b@, a@),
{
    let mut i: usize = 0;
    proof {
        assert(a@.skip(0) =~= a@);
        assert(b@.skip(0) =~= b@);
    }
    while i < a.len() && i < b.len()
        invariant
            i <= a@.len(),
            i <= b@.len(),
            a@.take(i as int) == b@.take(i as int),
            pattern_lt(a@, b@) == pattern_lt(a@.skip(i as int), b@.skip(i as int)),
            pattern_lt(b@, a@) == pattern_lt(b@.skip(i as int), a@.skip(i as int)),
        decreases a@.len() - i,
    {
        let (ta, ra) = a[i];
        let (tb, rb) = b[i];
        proof {
            assert(a@.skip(i as int)[0] == a@[i as int]);
            assert(b@.skip(i as int)[0] == b@[i as int]);
        }
        if ta.0 < tb.0 || (ta.0 == tb.0 && ra < rb) {
            proof {
                lemma_lt_asymmetric(a@.skip(i as int), b@.skip(i as int));
                if a@ == b@ {
                    lemma_lt_irreflexive(a@);
                }
            }
            return PatternOrder::Less;
        }
        if tb.0 < ta.0 || (tb.0 == ta.0 && rb < ra) {
            proof {
                lemma_lt_asymmetric(b@.skip(i as int), a@.skip(i as int));
                if a@ == b@ {
                    lemma_lt_irreflexive(a@);
                }
            }
            return PatternOrder::Greater;
        }
        proof {
            assert(ta == tb);
            assert(a@[i as int] == b@[i as int]);
            assert(a@.skip(i as int).drop_first() =~= a@.skip(i + 1));
            assert(b@.skip(i as int).drop_first() =~= b@.skip(i + 1));
            assert(a@.take(i + 1) =~= a@.take(i as int).push(a@[i as int]));
            assert(b@.take(i + 1) =~= b@.take(i as int).push(b@[i as int]));
        }
        i = i + 1;
    }
    proof {
        assert(a@.skip(i as int).len() == 0 || b@.skip(i as int).len() == 0);
    }
    if a.len() == b.len() {
        proof {
            assert(a@ =~= a@.take(i as int));
            assert(b@ =~= b@.take(i as int));
            lemma_lt_irreflexive(a@);
        }
        PatternOrder::Equal
    } else if a.len() < b.len() {
        proof {
            assert(a@ != b@);
        }
        PatternOrder::Less
    } else {
        proof {
            assert(a@ != b@);
        }
        PatternOrder::Greater
    }
}

/// Whether pattern `a` sorts before pattern `b`.
fn pattern_before(a: &Vec<PatternCell>, b: &Vec<PatternCell>) -> (r: bool)
    ensures
        r == pattern_lt(a@, b@),
{
    match compare_patterns(a, b) {
        PatternOrder::Less => true,
        _ => false,
    }
}

/// How often `x` occurs in `s`.
pub open spec fn count_occ(s: Seq<Seq<PatternCell>>, x: Seq<PatternCell>) -> nat
    decreases s.len(),
{
    if s.len() == 0 {
        0
    } else {
        count_occ(s.drop_last(), x) + if s.last() == x {
            1nat
        } else {
            0nat
        }
    }
}

/// The views of a list of patterns.
pub open spec fn pattern_views(v: Seq<Vec<PatternCell>>) -> Seq<Seq<PatternCell>> {
    v.map_values(|p: Vec<PatternCell>| p@)
}

/// `keys` lists the distinct patterns of `seen` in increasing order, and `counts` how often
/// each occurs there.
pub open spec fn tally_of(keys: Seq<Seq<PatternCell>>, counts: Seq<u32>, seen: Seq<Seq<PatternCell>>) -> bool {
    &&& keys.len() == counts.len()
    &&& forall|i: int, j: int| 0 <= i < j < keys.len() ==> pattern_lt(#[trigger] keys[i], #[trigger] keys[j])
    &&& forall|i: int| 0 <= i < keys.len() ==> #[trigger] counts[i] == count_occ(seen, keys[i])
    &&& forall|i: int| 0 <= i < keys.len() ==> seen.contains(#[trigger] keys[i])
    &&& forall|w: int| 0 <= w < seen.len() ==> keys.contains(#[trigger] seen[w])
}

/// A pattern that no key equals does not occur.
proof fn lemma_count_occ_absent(s: Seq<Seq<PatternCell>>, x: Seq<PatternCell>)
    requires
        !s.contains(x),
    ensures
        count_occ(s, x) == 0,
    decreases s.len(),
{
    if s.len() > 0 {
        assert(!s.drop_last().contains(x)) by {
            if s.drop_last().contains(x) {
                let k = choose|k: int| 0 <= k < s.drop_last().len() && s.drop_last()[k] == x;
                assert(s[k] == x);
            }
        }
        lemma_count_occ_absent(s.drop_last(), x);
        assert(s[s.len() - 1] != x);
    }
}

/// Count one more occurrence of `p` in the tally.
fn tally_add(keys: &mut Vec<Vec<PatternCell>>, counts: &mut Vec<u32>, p: Vec<PatternCell>, Ghost(seen): Ghost<Seq<Seq<PatternCell>>>)
    requires
        tally_of(pattern_views(old(keys)@), old(counts)@, seen),
        seen.len() < u32::MAX,
    ensures
        tally_of(pattern_views(final(keys)@), final(counts)@, seen.push(p@)),
{
    let ghost pv = p@;
    let ghost seen2 = seen.push(pv);
    let mut pos: usize = 0;
    while pos < keys.len() && pattern_before(&keys[pos], &p)
        invariant
            keys@ == old(keys)@,
            counts@ == old(counts)@,
            pv == p@,
            pos <= keys@.len(),
            forall|i: int| 0 <= i < pos ==> pattern_lt(#[trigger] pattern_views(keys@)[i], pv),
        decreases keys@.len() - pos,
    {
        pos = pos + 1;
    }
    let ghost views = pattern_views(keys@);
    proof {
        assert forall|w: int| 0 <= w < seen.len() implies count_occ(seen2, seen[w]) == count_occ(seen, seen[w]) + if seen[w] == pv { 1nat } else { 0nat } by {
            assert(seen2.drop_last() =~= seen);
        }
    }
    if pos < keys.len() {
        let order = compare_patterns(&keys[pos], &p);
        if let PatternOrder::Equal = order {
            proof {
                assert(views[pos as int] == pv);
                assert(counts@[pos as int] == count_occ(seen, pv));
                assert(count_occ(seen, pv) <= seen.len()) by {
                    lemma_count_occ_bound(seen, pv);
                }
            }
            let current = counts[pos];
            counts.set(pos, current + 1);
            proof {
                let nv = pattern_views(keys@);
                assert(nv == views);
                assert(seen2.drop_last() =~= seen);
                assert forall|i: int| 0 <= i < nv.len() implies #[trigger] counts@[i] == count_occ(seen2, nv[i]) by {
                    if i != pos {
                        assert(nv[i] != pv) by {
                            if i < pos {
                                lemma_lt_irreflexive(pv);
                            } else {
                                lemma_lt_irreflexive(pv);
                            }
                        }
                    }
                }
                assert forall|i: int| 0 <= i < nv.len() implies seen2.contains(#[trigger] nv[i]) by {
                    assert(seen.contains(nv[i]));
                    let w = choose|w: int| 0 <= w < seen.len() && seen[w] == nv[i];
                    assert(seen2[w] == nv[i]);
                }
                assert forall|w: int| 0 <= w < seen2.len() implies nv.contains(#[trigger] seen2[w]) by {
                    if w < seen.len() {
                        assert(seen2[w] == seen[w]);
                    } else {
                        assert(nv[pos as int] == seen2[w]);
                    }
                }
            }
            return;
        }
    }
    proof {
        if pos < keys@.len() {
            lemma_lt_total(views[pos as int], pv);
        }
        assert(!seen.contains(pv)) by {
            if seen.contains(pv) {
                let w = choose|w: int| 0 <= w < seen.len() && seen[w] == pv;
                assert(views.contains(seen[w]));
                let i = choose|i: int| 0 <= i < views.len() && views[i] == pv;
                if i < pos {
                    lemma_lt_irreflexive(pv);
                } else if i == pos {
                    lemma_lt_irreflexive(pv);
                } else {
                    lemma_lt_asymmetric(pv, views[pos as int]);
                    lemma_lt_transitive(pv, views[pos as int], views[i]);
                    lemma_lt_irreflexive(pv);
                }
            }
        }
        lemma_count_occ_absent(seen, pv);
    }
    keys.insert(pos, p);
    counts.insert(pos, 1);
    proof {
        let nv = pattern_views(keys@);
        assert(nv =~= views.insert(pos as int, pv));
        assert(seen2.drop_last() =~= seen);
        assert forall|i: int, j: int| 0 <= i < j < nv.len() implies pattern_lt(#[trigger] nv[i], #[trigger] nv[j]) by {
            if j == pos {
                assert(nv[i] == views[i]);
            } else if i == pos {
                assert(nv[j] == views[j - 1]);
                if j - 1 > pos {
                    lemma_lt_transitive(pv, views[pos as int], views[j - 1]);
                }
            } else if i < pos && j > pos {
                if j - 1 > pos {
                    lemma_lt_transitive(pv, views[pos as int], views[j - 1]);
                }
                lemma_lt_transitive(views[i], pv, views[j - 1]);
            }
        }
        assert forall|i: int| 0 <= i < nv.len() implies #[trigger] counts@[i] == count_occ(seen2, nv[i]) by {
            if i < pos {
                assert(nv[i] != pv) by {
                    lemma_lt_irreflexive(pv);
                }
            } else if i > pos {
                assert(nv[i] != pv) by {
                    if nv[i] == pv {
                        lemma_lt_asymmetric(pv, views[pos as int]);
                        lemma_lt_irreflexive(pv);
                        if i - 1 > pos {
                            lemma_lt_transitive(pv, views[pos as int], views[i - 1]);
                        }
                    }
                }
            }
        }
        assert forall|i: int| 0 <= i < nv.len() implies seen2.contains(#[trigger] nv[i]) by {
            if i == pos {
                assert(seen2[seen.len() as int] == pv);
            } else {
                let k = if i < pos { i } else { i - 1 };
                assert(nv[i] == views[k]);
                assert(seen.contains(views[k]));
                let w = choose|w: int| 0 <= w < seen.len() && seen[w] == views[k];
                assert(seen2[w] == nv[i]);
            }
        }
        assert forall|w: int| 0 <= w < seen2.len() implies nv.contains(#[trigger] seen2[w]) by {
            if w < seen.len() {
                assert(seen2[w] == seen[w]);
                assert(views.contains(seen[w]));
                let i = choose|i: int| 0 <= i < views.len() && views[i] == seen[w];
                if i < pos {
                    assert(nv[i] == seen[w]);
                } else {
                    assert(nv[i + 1] == seen[w]);
                }
            } else {
                assert(nv[pos as int] == seen2[w]);
            }
        }
    }
}

/// A count never exceeds the length.
proof fn lemma_count_occ_bound(s: Seq<Seq<PatternCell>>, x: Seq<PatternCell>)
    ensures
        count_occ(s, x) <= s.len(),
    decreases s.len(),
{
    if s.len() > 0 {
        lemma_count_occ_bound(s.drop_last(), x);
    }
}

/// How many window origins a row of the sample offers.
pub open spec fn scan_width(request: WfcOverlapRequest) -> int {
    if request.options.periodic_input {
        request.sample.size.width as int
    } else {
        request.sample.size.width - request.options.pattern_width + 1
    }
}

/// How many rows of window origins the sample offers.
pub open spec fn scan_height(request: WfcOverlapRequest) -> int {
    if request.options.periodic_input {
        request.sample.size.height as int
    } else {
        request.sample.size.height - request.options.pattern_height + 1
    }
}

/// The number of cells of a pattern.
pub open spec fn window_len(request: WfcOverlapRequest) -> int {
    request.options.pattern_width * request.options.pattern_height
}

/// Cell `k`, row by row, of the window whose corner is `(ox, oy)`.
pub open spec fn window_cell(request: WfcOverlapRequest, ox: int, oy: int, k: int) -> Option<WfcTileVariant> {
    let pw = request.options.pattern_width as int;
    sample_variant_spec(request, ox + k % pw, oy + k / pw)
}

/// Every cell of the window at `(ox, oy)` can be read.
pub open spec fn window_readable(request: WfcOverlapRequest, ox: int, oy: int) -> bool {
    forall|k: int| 0 <= k < window_len(request) ==> #[trigger] window_cell(request, ox, oy, k) is Some
}

/// The pattern of the window at `(ox, oy)`.
pub open spec fn window(request: WfcOverlapRequest, ox: int, oy: int) -> Seq<PatternCell> {
    Seq::new(
        window_len(request) as nat,
        |k: int| {
            let v = window_cell(request, ox, oy, k)->0;
            (v.tile, v.rotation_steps)
        },
    )
}

/// The patterns of all windows, origin by origin, row by row.
pub open spec fn windows(request: WfcOverlapRequest) -> Seq<Seq<PatternCell>> {
    let sw = scan_width(request);
    let sh = scan_height(request);
    if sw <= 0 || sh <= 0 {
        Seq::empty()
    } else {
        Seq::new((sw * sh) as nat, |i: int| window(request, i % sw, i / sw))
    }
}

/// The limits within which the overlap compiler's arithmetic stays exact.
pub open spec fn overlap_sizes_fit(request: WfcOverlapRequest) -> bool {
    &&& request.sample.size.width + request.options.pattern_width <= i32::MAX
    &&& request.sample.size.height + request.options.pattern_height <= i32::MAX
    &&& request.options.pattern_width * request.options.pattern_height <= u32::MAX
    &&& request.sample.size.cells() < u32::MAX
}

/// The window of `sample` whose corner is `(ox, oy)`, `pw` cells wide and `ph` tall, read row
/// by row from the sample's tiles and rotations.
pub open spec fn sample_window(sample: WfcTileGrid, pw: int, ph: int, ox: int, oy: int) -> Seq<PatternCell> {
    Seq::new(
        (pw * ph) as nat,
        |k: int|
            {
                let i = (oy + k / pw) * sample.size.width + (ox + k % pw);
                (sample.tiles@[i], sample.rotations@[i])
            },
    )
}

/// Every window of a non-periodic sample is learned: for each corner that keeps the window
/// inside the sample, the window read there is one of the model's patterns.
pub proof fn lemma_every_window_learned(m: CompiledOverlapModel, request: WfcOverlapRequest, ox: int, oy: int)
    requires
        overlap_refusal(request) is None,
        !request.options.periodic_input,
        m.compiled_from(request),
        0 <= ox,
        ox + request.options.pattern_width <= request.sample.size.width,
        0 <= oy,
        oy + request.options.pattern_height <= request.sample.size.height,
    ensures
        exists|k: int|
            0 <= k < m.keys@.len() && #[trigger] m.keys@[k] == sample_window(
                request.sample,
                request.options.pattern_width as int,
                request.options.pattern_height as int,
                ox,
                oy,
            ),
{
    let pw = request.options.pattern_width as int;
    let ph = request.options.pattern_height as int;
    let w = request.sample.size.width as int;
    let h = request.sample.size.height as int;
    let sw = scan_width(request);
    let sh = scan_height(request);
    assert(sw == w - pw + 1 && sh == h - ph + 1);
    let idx = oy * sw + ox;
    vstd::arithmetic::div_mod::lemma_fundamental_div_mod_converse(idx, sw, oy, ox);
    assert(idx < sw * sh) by (nonlinear_arith)
        requires
            0 <= ox < sw,
            0 <= oy < sh,
            idx == oy * sw + ox,
    ;
    assert(0 <= idx) by (nonlinear_arith)
        requires
            0 <= ox,
            0 <= oy,
            0 < sw,
            idx == oy * sw + ox,
    ;
    let all = windows(request);
    assert(all[idx] == window(request, ox, oy));
    let target = sample_window(request.sample, pw, ph, ox, oy);
    assert(window(request, ox, oy) =~= target) by {
        assert forall|k: int| 0 <= k < window_len(request) implies #[trigger] window(request, ox, oy)[k] == target[k] by {
            assert(0 <= k % pw < pw && 0 <= k / pw < ph) by (nonlinear_arith)
                requires
                    0 <= k < pw * ph,
                    pw > 0,
            {
                vstd::arithmetic::div_mod::lemma_fundamental_div_mod(k, pw);
                if k / pw >= ph {
                    assert(pw * (k / pw) >= pw * ph);
                }
            }
            let x = ox + k % pw;
            let y = oy + k / pw;
            assert(0 * w * h + y * w + x == y * w + x) by (nonlinear_arith);
        }
    }
    assert(m.keys@.contains(all[idx]));
}

/// The window of `sample` whose corner is `(ox, oy)`, `pw` cells wide and `ph` tall, read row
/// by row with the sample repeated in both directions.
pub open spec fn wrapped_window(sample: WfcTileGrid, pw: int, ph: int, ox: int, oy: int) -> Seq<PatternCell> {
    Seq::new(
        (pw * ph) as nat,
        |k: int|
            {
                let i = ((oy + k / pw) % (sample.size.height as int)) * sample.size.width + (ox + k % pw) % (
                sample.size.width as int);
                (sample.tiles@[i], sample.rotations@[i])
            },
    )
}

/// Every window of a periodic sample is learned: for each corner inside the sample, the
/// window read there, wrapping past the right and bottom edges, is one of the model's patterns.
pub proof fn lemma_every_wrapped_window_learned(m: CompiledOverlapModel, request: WfcOverlapRequest, ox: int, oy: int)
    requires
        overlap_refusal(request) is None,
        request.options.periodic_input,
        m.compiled_from(request),
        0 <= ox < request.sample.size.width,
        0 <= oy < request.sample.size.height,
    ensures
        exists|k: int|
            0 <= k < m.keys@.len() && #[trigger] m.keys@[k] == wrapped_window(
                request.sample,
                request.options.pattern_width as int,
                request.options.pattern_height as int,
                ox,
                oy,
            ),
{
    let pw = request.options.pattern_width as int;
    let ph = request.options.pattern_height as int;
    let w = request.sample.size.width as int;
    let h = request.sample.size.height as int;
    let sw = scan_width(request);
    let sh = scan_height(request);
    assert(sw == w && sh == h);
    let idx = oy * sw + ox;
    vstd::arithmetic::div_mod::lemma_fundamental_div_mod_converse(idx, sw, oy, ox);
    assert(idx < sw * sh) by (nonlinear_arith)
        requires
            0 <= ox < sw,
            0 <= oy < sh,
            idx == oy * sw + ox,
    ;
    assert(0 <= idx) by (nonlinear_arith)
        requires
            0 <= ox,
            0 <= oy,
            0 < sw,
            idx == oy * sw + ox,
    ;
    let all = windows(request);
    assert(all[idx] == window(request, ox, oy));
    let target = wrapped_window(request.sample, pw, ph, ox, oy);
    assert(window(request, ox, oy) =~= target) by {
        assert forall|k: int| 0 <= k < window_len(request) implies #[trigger] window(request, ox, oy)[k] == target[k] by {
            let x = (ox + k % pw) % w;
            let y = (oy + k / pw) % h;
            assert(0 <= x < w && 0 <= y < h) by {
                vstd::arithmetic::div_mod::lemma_mod_bound(ox + k % pw, w);
                vstd::arithmetic::div_mod::lemma_mod_bound(oy + k / pw, h);
            }
            assert(0 * w * h + y * w + x == y * w + x) by (nonlinear_arith);
        }
    }
    assert(m.keys@.contains(all[idx]));
}

/// Read the pattern of the window with corner `origin`.
fn sample_pattern(request: &WfcOverlapRequest, origin: IVec2) -> (r: Result<Vec<PatternCell>, WfcFailure>)
    requires
        overlap_refusal(*request) is None,
        overlap_sizes_fit(*request),
        request.options.periodic_input ==> request.sample.size.width > 0 && request.sample.size.height > 0,
        0 <= origin.x,
        0 <= origin.y,
        origin.x <= request.sample.size.width,
        origin.y <= request.sample.size.height,
    ensures
        r is Ok <==> window_readable(*request, origin.x as int, origin.y as int),
        r matches Ok(p) ==> p@ == window(*request, origin.x as int, origin.y as int),
        r matches Err(f) ==> is_overlap_failure(*request, f) && f.message@ == "pattern origin "@ + "IVec2("@
            + crate::text::signed_decimal_spec(origin.x as int) + ", "@ + crate::text::signed_decimal_spec(origin.y as int)
            + ")"@ + " reads outside the non-periodic sample"@,
{
    let pw = request.options.pattern_width;
    let ph = request.options.pattern_height;
    let mut pattern: Vec<PatternCell> = Vec::new();
    let ghost ox = origin.x as int;
    let ghost oy = origin.y as int;
    let mut ly: u32 = 0;
    proof {
        assert(request.sample.wf());
    }
    while ly < ph
        invariant
            overlap_refusal(*request) is None,
            overlap_sizes_fit(*request),
            request.sample.wf(),
            request.options.periodic_input ==> request.sample.size.width > 0 && request.sample.size.height > 0,
            pw == request.options.pattern_width,
            ph == request.options.pattern_height,
            0 <= origin.x <= request.sample.size.width,
            0 <= origin.y <= request.sample.size.height,
            ox == origin.x as int,
            oy == origin.y as int,
            ly <= ph,
            pattern@.len() == ly * pw,
            forall|k: int| 0 <= k < ly * pw ==> #[trigger] window_cell(*request, ox, oy, k) is Some,
            forall|k: int| 0 <= k < ly * pw ==> #[trigger] pattern@[k] == window(*request, ox, oy)[k],
        decreases ph - ly,
    {
        let mut lx: u32 = 0;
        while lx < pw
            invariant
                overlap_refusal(*request) is None,
                overlap_sizes_fit(*request),
                request.sample.wf(),
                request.options.periodic_input ==> request.sample.size.width > 0 && request.sample.size.height > 0,
                pw == request.options.pattern_width,
                ph == request.options.pattern_height,
                0 <= origin.x <= request.sample.size.width,
                0 <= origin.y <= request.sample.size.height,
                ox == origin.x as int,
                oy == origin.y as int,
                ly < ph,
                lx <= pw,
                pattern@.len() == ly * pw + lx,
                forall|k: int| 0 <= k < ly * pw + lx ==> #[trigger] window_cell(*request, ox, oy, k) is Some,
                forall|k: int| 0 <= k < ly * pw + lx ==> #[trigger] pattern@[k] == window(*request, ox, oy)[k],
            decreases pw - lx,
        {
            let position = IVec2 { x: origin.x + lx as i32, y: origin.y + ly as i32 };
            let k: Ghost<int> = Ghost(ly * pw + lx);
            proof {
                assert(ly * pw + lx < ph * pw) by (nonlinear_arith)
                    requires
                        ly < ph,
                        lx < pw,
                ;
                assert(ph * pw == window_len(*request)) by (nonlinear_arith)
                    requires
                        ph == request.options.pattern_height,
                        pw == request.options.pattern_width,
                ;
                vstd::arithmetic::div_mod::lemma_fundamental_div_mod_converse(k@, pw as int, ly as int, lx as int);
                assert(k@ % (pw as int) == lx as int);
                assert(k@ / (pw as int) == ly as int);
                assert(position.x as int == ox + k@ % (pw as int));
                assert(position.y as int == oy + k@ / (pw as int));
            }
            let read = sample_variant(request, position);
            proof {
                assert(read == window_cell(*request, ox, oy, k@));
            }
            match read {
                Some(v) => {
                    pattern.push((v.tile, v.rotation_steps));
                    proof {
                        assert(pattern@[k@] == window(*request, ox, oy)[k@]);
                    }
                },
                None => {
                    let text = position_text(origin);
                    let mut message = "pattern origin ".to_owned();
                    message.append(text.as_str());
                    message.append(" reads outside the non-periodic sample");
                    proof {
                        assert(window_cell(*request, ox, oy, k@) is None);
                        assert(!window_readable(*request, ox, oy));
                        reveal_strlit("pattern origin ");
                    }
                    return Err(invalid_failure(request, message));
                },
            }
            lx = lx + 1;
        }
        proof {
            assert((ly + 1) * pw == ly * pw + pw) by (nonlinear_arith);
        }
        ly = ly + 1;
    }
    proof {
        assert(ph * pw == window_len(*request)) by (nonlinear_arith)
            requires
                ph == request.options.pattern_height,
                pw == request.options.pattern_width,
        ;
        assert(pattern@ =~= window(*request, ox, oy));
    }
    Ok(pattern)
}

/// The debug notation of a window corner.
fn position_text(origin: IVec2) -> (r: String)
    ensures
        r@ == "IVec2("@ + crate::text::signed_decimal_spec(origin.x as int) + ", "@ + crate::text::signed_decimal_spec(
            origin.y as int,
        ) + ")"@,
{
    origin.debug_text()
}

/// The step from a pattern to its neighbour in direction `d`, for the four planar directions.
pub open spec fn direction_shift(d: WfcDirection) -> Option<(int, int)> {
    match d {
        WfcDirection::XPos => Some((1, 0)),
        WfcDirection::XNeg => Some((-1, 0)),
        WfcDirection::YPos => Some((0, 1)),
        WfcDirection::YNeg => Some((0, -1)),
        _ => None,
    }
}

/// Cell `(x, y)` of `left` agrees with the cell of `right` over it, if there is one, when
/// `right` is shifted by `(sx, sy)`.
pub open spec fn overlap_agrees(
    left: Seq<PatternCell>,
    right: Seq<PatternCell>,
    w: int,
    h: int,
    sx: int,
    sy: int,
    x: int,
    y: int,
) -> bool {
    let rx = x - sx;
    let ry = y - sy;
    (0 <= rx < w && 0 <= ry < h) ==> left[y * w + x] == right[ry * w + rx]
}

/// Pattern `right` may stand next to `left` in direction `d`: where they overlap, they agree.
pub open spec fn overlap_spec(left: Seq<PatternCell>, right: Seq<PatternCell>, w: int, h: int, d: WfcDirection) -> bool {
    match direction_shift(d) {
        None => false,
        Some(shift) => forall|x: int, y: int|
            0 <= x < w && 0 <= y < h ==> #[trigger] overlap_agrees(left, right, w, h, shift.0, shift.1, x, y),
    }
}

/// Overlap is mutual: `right` may stand in direction `d` of `left` exactly when `left` may
/// stand in the opposite direction of `right`.
pub proof fn lemma_overlap_mutual(left: Seq<PatternCell>, right: Seq<PatternCell>, w: int, h: int, d: WfcDirection)
    ensures
        overlap_spec(left, right, w, h, d) <==> overlap_spec(right, left, w, h, opposite_dir(d)),
{
    if let Some(shift) = direction_shift(d) {
        let sx = shift.0;
        let sy = shift.1;
        assert(direction_shift(opposite_dir(d)) == Some((-sx, -sy)));
        if overlap_spec(left, right, w, h, d) {
            assert forall|x: int, y: int| 0 <= x < w && 0 <= y < h implies #[trigger] overlap_agrees(
                right,
                left,
                w,
                h,
                -sx,
                -sy,
                x,
                y,
            ) by {
                if 0 <= x + sx < w && 0 <= y + sy < h {
                    assert(overlap_agrees(left, right, w, h, sx, sy, x + sx, y + sy));
                }
            }
        }
        if overlap_spec(right, left, w, h, opposite_dir(d)) {
            let back = direction_shift(opposite_dir(d))->0;
            assert forall|x: int, y: int| 0 <= x < w && 0 <= y < h implies #[trigger] overlap_agrees(
                left,
                right,
                w,
                h,
                sx,
                sy,
                x,
                y,
            ) by {
                if 0 <= x - sx < w && 0 <= y - sy < h {
                    assert(overlap_agrees(right, left, w, h, back.0, back.1, x - sx, y - sy));
                }
            }
        }
    } else {
        assert(direction_shift(opposite_dir(d)) is None);
    }
}

/// Cell `(x, y)` of a pattern `w` cells wide.
pub open spec fn cell_of(p: Seq<PatternCell>, w: int, x: int, y: int) -> PatternCell {
    p[y * w + x]
}

/// Overlap follows the grid's offsets: in direction `d` of X or Y, `right` stands at
/// `dir_offset(d)` from `left`, and the two overlap exactly when every cell of `left` that has
/// a cell of `right` over it agrees with that cell. For `YPos`, `right` sits one row further
/// down: row `y` of `left` meets row `y - 1` of `right`. No other direction overlaps.
pub proof fn lemma_overlap_follows_offsets(left: Seq<PatternCell>, right: Seq<PatternCell>, w: int, h: int, d: WfcDirection)
    ensures
        d == WfcDirection::XPos || d == WfcDirection::XNeg || d == WfcDirection::YPos || d == WfcDirection::YNeg
            ==> (overlap_spec(left, right, w, h, d) <==> forall|x: int, y: int|
            0 <= x < w && 0 <= y < h && 0 <= x - dir_offset(d).0 < w && 0 <= y - dir_offset(d).1 < h
                ==> #[trigger] cell_of(left, w, x, y) == cell_of(right, w, x - dir_offset(d).0, y - dir_offset(d).1)),
        !(d == WfcDirection::XPos || d == WfcDirection::XNeg || d == WfcDirection::YPos || d == WfcDirection::YNeg)
            ==> !overlap_spec(left, right, w, h, d),
{
    if d == WfcDirection::XPos || d == WfcDirection::XNeg || d == WfcDirection::YPos || d == WfcDirection::YNeg {
        let ox = dir_offset(d).0;
        let oy = dir_offset(d).1;
        let shift = direction_shift(d)->0;
        if overlap_spec(left, right, w, h, d) {
            assert(shift == (ox, oy));
            assert forall|x: int, y: int|
                0 <= x < w && 0 <= y < h && 0 <= x - ox < w && 0 <= y - oy < h implies #[trigger] cell_of(left, w, x, y)
                == cell_of(right, w, x - ox, y - oy) by {
                assert(overlap_agrees(left, right, w, h, shift.0, shift.1, x, y));
            }
        }
        if forall|x: int, y: int|
            0 <= x < w && 0 <= y < h && 0 <= x - ox < w && 0 <= y - oy < h ==> #[trigger] cell_of(left, w, x, y)
                == cell_of(right, w, x - ox, y - oy) {
            assert forall|x: int, y: int| 0 <= x < w && 0 <= y < h implies #[trigger] overlap_agrees(
                left,
                right,
                w,
                h,
                shift.0,
                shift.1,
                x,
                y,
            ) by {
                if 0 <= x - ox < w && 0 <= y - oy < h {
                    assert(cell_of(left, w, x, y) == cell_of(right, w, x - ox, y - oy));
                }
            }
        }
    }
}

/// Whether `right` may stand next to `left` in `direction`.
pub fn patterns_overlap(left: &Vec<PatternCell>, right: &Vec<PatternCell>, width: u32, height: u32, direction: WfcDirection) -> (r: bool)
    requires
        left@.len() == width * height,
        right@.len() == width * height,
        width <= i32::MAX,
        height <= i32::MAX,
    ensures
        r == overlap_spec(left@, right@, width as int, height as int, direction),
{
    let (shift_x, shift_y): (i32, i32) = match direction {
        WfcDirection::XPos => (1, 0),
        WfcDirection::XNeg => (-1, 0),
        WfcDirection::YPos => (0, 1),
        WfcDirection::YNeg => (0, -1),
        _ => {
            return false;
        },
    };
    let w = width as i32;
    let h = height as i32;
    let n = left.len();
    let mut y: i32 = 0;
    while y < h
        invariant
            left@.len() == width * height,
            n == left@.len(),
            right@.len() == width * height,
            width <= i32::MAX,
            height <= i32::MAX,
            w == width,
            h == height,
            0 <= y <= h,
            direction_shift(direction) == Some((shift_x as int, shift_y as int)),
            forall|px: int, py: int|
                0 <= px < w && 0 <= py < y ==> #[trigger] overlap_agrees(left@, right@, w as int, h as int, shift_x as int, shift_y as int, px, py),
        decreases h - y,
    {
        let mut x: i32 = 0;
        while x < w
            invariant
                left@.len() == width * height,
                n == left@.len(),
                right@.len() == width * height,
                width <= i32::MAX,
                height <= i32::MAX,
                    w == width,
                h == height,
                0 <= y < h,
                0 <= x <= w,
                direction_shift(direction) == Some((shift_x as int, shift_y as int)),
                forall|px: int, py: int|
                    0 <= px < w && 0 <= py < y ==> #[trigger] overlap_agrees(left@, right@, w as int, h as int, shift_x as int, shift_y as int, px, py),
                forall|px: int| 0 <= px < x ==> #[trigger] overlap_agrees(left@, right@, w as int, h as int, shift_x as int, shift_y as int, px, y as int),
            decreases w - x,
        {
            let right_x = x - shift_x;
            let right_y = y - shift_y;
            if 0 <= right_x && right_x < w && 0 <= right_y && right_y < h {
                proof {
                    assert(y * w + x < w * h) by (nonlinear_arith)
                        requires
                            0 <= y < h,
                            0 <= x < w,
                    ;
                    assert(right_y * w + right_x < w * h) by (nonlinear_arith)
                        requires
                            0 <= right_y < h,
                            0 <= right_x < w,
                    ;
                    assert(0 <= y * w) by (nonlinear_arith)
                        requires
                            0 <= y,
                            0 <= w,
                    ;
                    assert(0 <= right_y * w) by (nonlinear_arith)
                        requires
                            0 <= right_y,
                            0 <= w,
                    ;
                }
                let li = y as usize * w as usize + x as usize;
                let ri = right_y as usize * w as usize + right_x as usize;
                let a = left[li];
                let b = right[ri];
                proof {
                    assert(li as int == y * w + x);
                    assert(ri as int == right_y * w + right_x);
                }
                if a.0 != b.0 || a.1 != b.1 {
                    proof {
                        assert(a != b);
                        assert(left@[y * w + x] != right@[right_y * w + right_x]);
                        assert(!overlap_agrees(left@, right@, w as int, h as int, shift_x as int, shift_y as int, x as int, y as int));
                        assert(!overlap_agrees(left@, right@, width as int, height as int, shift_x as int, shift_y as int, x as int, y as int));
                        let shift = direction_shift(direction)->0;
                        assert(shift.0 == shift_x as int && shift.1 == shift_y as int);
                        assert(!overlap_agrees(left@, right@, width as int, height as int, shift.0, shift.1, x as int, y as int));
                        assert(!overlap_spec(left@, right@, width as int, height as int, direction));
                    }
                    return false;
                }
                proof {
                    assert(a == b);
                }
            }
            x = x + 1;
        }
        y = y + 1;
    }
    true
}

/// The four directions in which patterns are compared.
pub open spec fn overlap_dirs() -> Seq<WfcDirection> {
    seq![WfcDirection::XPos, WfcDirection::XNeg, WfcDirection::YPos, WfcDirection::YNeg]
}

/// The tile ids of the first `n` patterns that may stand next to pattern `s` in direction `d`.
pub open spec fn overlap_ids(keys: Seq<Seq<PatternCell>>, s: int, w: int, h: int, d: WfcDirection, n: int) -> Seq<WfcTileId>
    decreases n,
{
    if n <= 0 {
        Seq::empty()
    } else {
        let before = overlap_ids(keys, s, w, h, d, n - 1);
        if overlap_spec(keys[s], keys[n - 1], w, h, d) {
            before.push(WfcTileId((n - 1) as u16))
        } else {
            before
        }
    }
}

/// A pattern's stand-in in the output: its top-left cell.
#[derive(Clone, Copy, Debug, PartialEq, Eq, Structural)]
pub struct CompiledPattern {
    pub anchor: WfcTileVariant,
}

/// The patterns of a sample, as a tiled ruleset with one tile per pattern.
pub struct CompiledOverlapModel {
    pub ruleset: WfcRuleset,
    pub patterns: Vec<CompiledPattern>,
    pub keys: Ghost<Seq<Seq<PatternCell>>>,
    pub counts: Ghost<Seq<u32>>,
}

impl CompiledOverlapModel {
    /// The model holds the distinct windows of the sample in increasing order, with their
    /// counts, anchors, tiles and overlap rules.
    pub open spec fn compiled_from(&self, request: WfcOverlapRequest) -> bool {
        let keys = self.keys@;
        let counts = self.counts@;
        let pw = request.options.pattern_width as int;
        let ph = request.options.pattern_height as int;
        &&& tally_of(keys, counts, windows(request))
        &&& keys.len() > 0
        &&& forall|k: int| 0 <= k < keys.len() ==> (#[trigger] keys[k]).len() == window_len(request)
        &&& self.patterns@.len() == keys.len()
        &&& forall|k: int|
            0 <= k < keys.len() ==> #[trigger] self.patterns@[k].anchor == (WfcTileVariant {
                tile: keys[k][0].0,
                rotation_steps: keys[k][0].1,
            })
        &&& self.ruleset.topology == WfcTopology::Cartesian2d
        &&& self.ruleset.tiles@.len() == keys.len()
        &&& forall|k: int|
            0 <= k < keys.len() ==> {
                let d = #[trigger] self.ruleset.tiles@[k];
                &&& d.id == WfcTileId(k as u16)
                &&& d.weight.0 == f32_bits_of(counts[k] as nat)
                &&& d.label@ == "Pattern "@ + decimal_spec(k as nat)
                &&& d.symmetry == WfcTileSymmetry::Fixed
            }
        &&& self.ruleset.adjacency@.len() == 4 * keys.len()
        &&& forall|k: int, j: int|
            0 <= k < keys.len() && 0 <= j < 4 ==> #[trigger] rule_is(
                self.ruleset.adjacency@[4 * k + j],
                WfcTileId(k as u16),
                overlap_dirs()[j],
                overlap_ids(keys, k, pw, ph, overlap_dirs()[j], keys.len() as int),
            )
    }
}

/// After validation every window of the scan can be read.
proof fn lemma_window_readable(request: WfcOverlapRequest, ox: int, oy: int)
    requires
        overlap_refusal(request) is None,
        0 <= ox < scan_width(request),
        0 <= oy < scan_height(request),
    ensures
        window_readable(request, ox, oy),
{
    let pw = request.options.pattern_width as int;
    let w = request.sample.size.width as int;
    let h = request.sample.size.height as int;
    assert forall|k: int| 0 <= k < window_len(request) implies #[trigger] window_cell(request, ox, oy, k) is Some by {
        let lx = k % pw;
        let ly = k / pw;
        vstd::arithmetic::div_mod::lemma_fundamental_div_mod(k, pw);
        assert(0 <= lx < pw);
        assert(0 <= ly < request.options.pattern_height) by (nonlinear_arith)
            requires
                k == pw * ly + lx,
                0 <= lx < pw,
                0 <= k < pw * request.options.pattern_height,
                pw > 0,
        ;
        let x = ox + lx;
        let y = oy + ly;
        if request.options.periodic_input {
            assert(0 <= x % w < w);
            assert(0 <= y % h < h);
        } else {
            assert(x < w && y < h);
        }
    }
}

/// Collect the windows of the sample into distinct patterns with counts, then derive one
/// tile per pattern and the rules under which patterns overlap.
pub fn compile_patterns(request: &WfcOverlapRequest) -> (r: Result<CompiledOverlapModel, WfcFailure>)
    requires
        overlap_refusal(*request) is None,
        overlap_sizes_fit(*request),
    ensures
        r is Ok <==> windows(*request).len() > 0,
        r matches Err(f) ==> is_overlap_failure(*request, f) && f.message@ == "the overlap sampler did not discover any patterns"@,
        r matches Ok(m) ==> m.compiled_from(*request),
{
    let pattern_width = request.options.pattern_width as i32;
    let pattern_height = request.options.pattern_height as i32;
    let max_x: i32 = if request.options.periodic_input {
        request.sample.size.width as i32
    } else {
        request.sample.size.width as i32 - pattern_width + 1
    };
    let max_y: i32 = if request.options.periodic_input {
        request.sample.size.height as i32
    } else {
        request.sample.size.height as i32 - pattern_height + 1
    };
    let ghost all = windows(*request);
    let mut keys: Vec<Vec<PatternCell>> = Vec::new();
    let mut counts: Vec<u32> = Vec::new();
    proof {
        assert(pattern_views(keys@) =~= Seq::<Seq<PatternCell>>::empty());
    }
    let mut y: i32 = 0;
    while max_x > 0 && y < max_y
        invariant
            overlap_refusal(*request) is None,
            overlap_sizes_fit(*request),
            max_x == scan_width(*request),
            max_y == scan_height(*request),
            all == windows(*request),
            0 <= y,
            y <= max_y || max_y < 0,
            max_x > 0 ==> tally_of(pattern_views(keys@), counts@, all.take(y * max_x)),
            max_x <= 0 ==> keys@.len() == 0,
            forall|k: int| 0 <= k < keys@.len() ==> (#[trigger] keys@[k])@.len() == window_len(*request),
        decreases max_y - y,
    {
        let mut x: i32 = 0;
        while x < max_x
            invariant
                overlap_refusal(*request) is None,
                overlap_sizes_fit(*request),
                max_x == scan_width(*request),
                max_y == scan_height(*request),
                all == windows(*request),
                0 <= y < max_y,
                0 <= x <= max_x,
                tally_of(pattern_views(keys@), counts@, all.take(y * max_x + x)),
                forall|k: int| 0 <= k < keys@.len() ==> (#[trigger] keys@[k])@.len() == window_len(*request),
            decreases max_x - x,
        {
            proof {
                lemma_window_readable(*request, x as int, y as int);
                assert(y * max_x + x < max_y * max_x) by (nonlinear_arith)
                    requires
                        0 <= y < max_y,
                        0 <= x < max_x,
                ;
                assert(0 <= y * max_x) by (nonlinear_arith)
                    requires
                        0 <= y,
                        0 <= max_x,
                ;
                assert(max_y * max_x <= request.sample.size.cells()) by (nonlinear_arith)
                    requires
                        0 < max_x <= request.sample.size.width,
                        0 < max_y <= request.sample.size.height,
                        request.sample.size.depth == 1,
                ;
            }
            let pattern = match sample_pattern(request, IVec2 { x, y }) {
                Ok(p) => p,
                Err(f) => {
                    proof {
                        assert(false);
                    }
                    return Err(f);
                },
            };
            let ghost i = y * max_x + x;
            proof {
                vstd::arithmetic::div_mod::lemma_fundamental_div_mod_converse(i, max_x as int, y as int, x as int);
                assert(all[i] == window(*request, x as int, y as int));
                assert(all.take(i + 1) =~= all.take(i).push(pattern@));
            }
            tally_add(&mut keys, &mut counts, pattern, Ghost(all.take(i)));
            proof {
                let v = pattern_views(keys@);
                assert forall|k: int| 0 <= k < keys@.len() implies (#[trigger] keys@[k])@.len() == window_len(*request) by {
                    assert(v[k] == keys@[k]@);
                    let prefix = all.take(i + 1);
                    assert(prefix.contains(v[k]));
                    let w = choose|w: int| 0 <= w < prefix.len() && prefix[w] == v[k];
                    assert(all[w] == v[k]);
                    vstd::arithmetic::div_mod::lemma_fundamental_div_mod(w, max_x as int);
                }
            }
            x = x + 1;
        }
        proof {
            assert((y + 1) * max_x == y * max_x + max_x) by (nonlinear_arith);
        }
        y = y + 1;
    }
    let n = keys.len();
    proof {
        if max_x > 0 && max_y > 0 {
            assert(y == max_y);
            assert(max_y * max_x == max_x * max_y) by (nonlinear_arith);
            assert(all.len() == max_x * max_y);
            assert(all.take(max_y * max_x) =~= all);
        }
    }
    if n == 0 {
        proof {
            reveal_strlit("the overlap sampler did not discover any patterns");
            if all.len() > 0 {
                assert(pattern_views(keys@).contains(all[0]));
            }
        }
        return Err(invalid_failure(request, "the overlap sampler did not discover any patterns".to_owned()));
    }
    let ghost keyv = pattern_views(keys@);
    proof {
        assert(window_len(*request) >= 4) by (nonlinear_arith)
            requires
                request.options.pattern_width >= 2,
                request.options.pattern_height >= 2,
                window_len(*request) == request.options.pattern_width * request.options.pattern_height,
        ;
        assert(all.len() > 0) by {
            assert(all.contains(keyv[0]));
        }
    }
    let mut patterns: Vec<CompiledPattern> = Vec::new();
    let mut tiles: Vec<WfcTileDefinition> = Vec::new();
    let mut k: usize = 0;
    while k < n
        invariant
            n == keys@.len(),
            n == counts@.len(),
            keyv == pattern_views(keys@),
            forall|q: int| 0 <= q < keys@.len() ==> (#[trigger] keys@[q])@.len() == window_len(*request),
            window_len(*request) >= 4,
            k <= n,
            patterns@.len() == k,
            tiles@.len() == k,
            forall|q: int|
                0 <= q < k ==> #[trigger] patterns@[q].anchor == (WfcTileVariant {
                    tile: keyv[q][0].0,
                    rotation_steps: keyv[q][0].1,
                }),
            forall|q: int|
                0 <= q < k ==> {
                    let d = #[trigger] tiles@[q];
                    &&& d.id == WfcTileId(q as u16)
                    &&& d.weight.0 == f32_bits_of(counts@[q] as nat)
                    &&& d.label@ == "Pattern "@ + decimal_spec(q as nat)
                    &&& d.symmetry == WfcTileSymmetry::Fixed
                },
        decreases n - k,
    {
        proof {
            assert(keyv[k as int] == keys@[k as int]@);
        }
        let first = if keys[k].len() > 0 {
            keys[k][0]
        } else {
            return Err(invalid_failure(request, "empty pattern discovered".to_owned()));
        };
        patterns.push(CompiledPattern { anchor: WfcTileVariant::new(first.0, first.1) });
        let label = crate::text::with_number("Pattern ", k as u64, "");
        proof {
            reveal_strlit("");
            assert(label@ =~= "Pattern "@ + decimal_spec(k as nat));
        }
        tiles.push(WfcTileDefinition::new(pattern_tile_id(k), count_weight(counts[k]), label.as_str()));
        k = k + 1;
    }
    let pw = request.options.pattern_width;
    let ph = request.options.pattern_height;
    let mut adjacency: Vec<WfcAdjacencyRule> = Vec::new();
    let mut source: usize = 0;
    while source < n
        invariant
            n == keys@.len(),
            keyv == pattern_views(keys@),
            forall|q: int| 0 <= q < keys@.len() ==> (#[trigger] keys@[q])@.len() == window_len(*request),
            pw == request.options.pattern_width,
            ph == request.options.pattern_height,
            overlap_sizes_fit(*request),
            overlap_refusal(*request) is None,
            source <= n,
            adjacency@.len() == 4 * source,
            forall|q: int, j: int|
                0 <= q < source && 0 <= j < 4 ==> #[trigger] rule_is(
                    adjacency@[4 * q + j],
                    WfcTileId(q as u16),
                    overlap_dirs()[j],
                    overlap_ids(keyv, q, pw as int, ph as int, overlap_dirs()[j], n as int),
                ),
        decreases n - source,
    {
        let directions = [WfcDirection::XPos, WfcDirection::XNeg, WfcDirection::YPos, WfcDirection::YNeg];
        let mut j: usize = 0;
        while j < 4
            invariant
                n == keys@.len(),
                keyv == pattern_views(keys@),
                forall|q: int| 0 <= q < keys@.len() ==> (#[trigger] keys@[q])@.len() == window_len(*request),
                pw == request.options.pattern_width,
                ph == request.options.pattern_height,
                overlap_sizes_fit(*request),
                overlap_refusal(*request) is None,
                source < n,
                j <= 4,
                directions@ == overlap_dirs(),
                adjacency@.len() == 4 * source + j,
                forall|q: int, e: int|
                    0 <= q < source && 0 <= e < 4 ==> #[trigger] rule_is(
                        adjacency@[4 * q + e],
                        WfcTileId(q as u16),
                        overlap_dirs()[e],
                        overlap_ids(keyv, q, pw as int, ph as int, overlap_dirs()[e], n as int),
                    ),
                forall|e: int|
                    0 <= e < j ==> #[trigger] rule_is(
                        adjacency@[4 * source + e],
                        WfcTileId(source as u16),
                        overlap_dirs()[e],
                        overlap_ids(keyv, source as int, pw as int, ph as int, overlap_dirs()[e], n as int),
                    ),
            decreases 4 - j,
        {
            let direction = directions[j];
            let mut allowed: Vec<WfcTileId> = Vec::new();
            let mut candidate: usize = 0;
            while candidate < n
                invariant
                    n == keys@.len(),
                    keyv == pattern_views(keys@),
                    forall|q: int| 0 <= q < keys@.len() ==> (#[trigger] keys@[q])@.len() == window_len(*request),
                    pw == request.options.pattern_width,
                    ph == request.options.pattern_height,
                    overlap_sizes_fit(*request),
                    overlap_refusal(*request) is None,
                    source < n,
                    candidate <= n,
                    allowed@ == overlap_ids(keyv, source as int, pw as int, ph as int, direction, candidate as int),
                decreases n - candidate,
            {
                proof {
                    assert(keyv[source as int] == keys@[source as int]@);
                    assert(keyv[candidate as int] == keys@[candidate as int]@);
                }
                if patterns_overlap(&keys[source], &keys[candidate], pw, ph, direction) {
                    allowed.push(pattern_tile_id(candidate));
                }
                candidate = candidate + 1;
            }
            let ghost before = adjacency@;
            adjacency.push(WfcAdjacencyRule::new(pattern_tile_id(source), direction, allowed));
            proof {
                assert forall|q: int, e: int|
                    0 <= q < source && 0 <= e < 4 implies #[trigger] rule_is(
                        adjacency@[4 * q + e],
                        WfcTileId(q as u16),
                        overlap_dirs()[e],
                        overlap_ids(keyv, q, pw as int, ph as int, overlap_dirs()[e], n as int),
                    ) by {
                    assert(adjacency@[4 * q + e] == before[4 * q + e]);
                }
                assert forall|e: int| 0 <= e < j + 1 implies #[trigger] rule_is(
                    adjacency@[4 * source + e],
                    WfcTileId(source as u16),
                    overlap_dirs()[e],
                    overlap_ids(keyv, source as int, pw as int, ph as int, overlap_dirs()[e], n as int),
                ) by {
                    if e < j {
                        assert(adjacency@[4 * source + e] == before[4 * source + e]);
                    }
                }
            }
            j = j + 1;
        }
        source = source + 1;
    }
    let ruleset = WfcRuleset { topology: WfcTopology::Cartesian2d, tiles, adjacency };
    let model = CompiledOverlapModel { ruleset, patterns, keys: Ghost(keyv), counts: Ghost(counts@) };
    Ok(model)
}

/// The tile id of pattern `index`.
pub fn pattern_tile_id(index: usize) -> (r: WfcTileId)
    ensures
        r == WfcTileId(index as u16),
{
    WfcTileId(index as u16)
}

/// The pattern a solved tile stands for: tiles of patterns are never rotated.
pub fn pattern_index(tile: WfcTileId, rotation: u8) -> (r: Option<usize>)
    ensures
        r == if rotation == 0 {
            Some(tile.0 as usize)
        } else {
            None::<usize>
        },
{
    if rotation == 0 {
        Some(tile.0 as usize)
    } else {
        None
    }
}

impl CompiledOverlapModel {
    /// The tiled request that solves the patterns of `request`, and the patterns it refers to.
    pub fn into_request(self, request: &WfcOverlapRequest) -> (r: (WfcRequest, Vec<CompiledPattern>))
        ensures
            r.0.grid_size == request.output_size,
            r.0.ruleset == self.ruleset,
            r.0.seed == request.seed,
            r.0.settings == request.settings,
            r.0.boundary_stitching == if request.options.periodic_output {
                WfcBoundaryStitching { wrap_x: true, wrap_y: true, wrap_z: false }
            } else {
                WfcBoundaryStitching { wrap_x: false, wrap_y: false, wrap_z: false }
            },
            r.0.fixed_cells@.len() == 0,
            r.0.banned_cells@.len() == 0,
            r.0.border_constraints@.len() == 0,
            r.0.global_constraints@.len() == 0,
            r.1@ == self.patterns@,
    {
        let CompiledOverlapModel { ruleset, patterns, keys: _, counts: _ } = self;
        let mut inner = WfcRequest::new(request.output_size, ruleset, request.seed);
        inner.settings = request.settings;
        inner.boundary_stitching = if request.options.periodic_output {
            WfcBoundaryStitching::xy()
        } else {
            WfcBoundaryStitching::default()
        };
        (inner, patterns)
    }
}

/// Every anchor of a compiled model is a tile of the sample.
pub proof fn lemma_anchors_from_sample(model: &CompiledOverlapModel, request: WfcOverlapRequest)
    requires
        model.compiled_from(request),
        overlap_refusal(request) is None,
    ensures
        forall|k: int| 0 <= k < model.patterns@.len() ==> request.sample.tiles@.contains(#[trigger] model.patterns@[k].anchor.tile),
{
    let keys = model.keys@;
    let all = windows(request);
    assert forall|k: int| 0 <= k < model.patterns@.len() implies request.sample.tiles@.contains(#[trigger] model.patterns@[k].anchor.tile) by {
        assert(all.contains(keys[k]));
        let i = choose|i: int| 0 <= i < all.len() && all[i] == keys[k];
        let sw = scan_width(request);
        let sh = scan_height(request);
        let ox = i % sw;
        let oy = i / sw;
        vstd::arithmetic::div_mod::lemma_fundamental_div_mod(i, sw);
        assert(0 <= oy < sh) by (nonlinear_arith)
            requires
                i == sw * oy + ox,
                0 <= ox < sw,
                0 <= i < sw * sh,
                sw > 0,
        ;
        lemma_window_readable(request, ox, oy);
        assert(window_len(request) > 0) by (nonlinear_arith)
            requires
                request.options.pattern_width >= 2,
                request.options.pattern_height >= 2,
                window_len(request) == request.options.pattern_width * request.options.pattern_height,
        ;
        assert(window_cell(request, ox, oy, 0) is Some);
        let v = window_cell(request, ox, oy, 0)->0;
        assert(keys[k][0] == (v.tile, v.rotation_steps));
        let pw = request.options.pattern_width as int;
        let w = request.sample.size.width as int;
        let h = request.sample.size.height as int;
        let (px, py) = if request.options.periodic_input {
            (ox % w, oy % h)
        } else {
            (ox, oy)
        };
        let c = index_spec(request.sample.size, UVec3 { x: px as u32, y: py as u32, z: 0 })->0;
        crate::grid::lemma_index_bounds(request.sample.size, UVec3 { x: px as u32, y: py as u32, z: 0 });
        assert(request.sample.tiles@[c] == v.tile);
    }
}

/// Every solved cell holds an unrotated tile that names a compiled pattern.
pub open spec fn pairs_known(inner: WfcSolution, patterns: Seq<CompiledPattern>) -> bool {
    forall|i: int|
        0 <= i < solved_len(inner) ==> #[trigger] inner.grid.rotations@[i] == 0 && (inner.grid.tiles@[i].0 as int)
            < patterns.len()
}

/// The error for a solved cell holding `tile` at `rotation` that names no compiled pattern:
/// a turned variant is unknown, and an unturned one points past the patterns.
pub open spec fn unknown_variant_message(tile: WfcTileId, rotation: u8) -> Seq<char> {
    if rotation != 0 {
        "overlap solver emitted an unknown pattern variant "@ + crate::rules::id_text(tile) + "/"@ + decimal_spec(
            rotation as nat,
        )
    } else {
        "overlap solver emitted a pattern index "@ + decimal_spec(tile.0 as nat) + " outside the compiled set"@
    }
}

/// The number of cells of a solution whose tiles and rotations can be paired.
pub open spec fn solved_len(inner: WfcSolution) -> int {
    if inner.grid.tiles@.len() <= inner.grid.rotations@.len() {
        inner.grid.tiles@.len() as int
    } else {
        inner.grid.rotations@.len() as int
    }
}

/// Translate the solution of the tiled request back into sample tiles: each solved tile stands
/// for a pattern, and the pattern for its anchor.
#[verifier::spinoff_prover]
pub fn finish_overlap(request: &WfcOverlapRequest, patterns: &Vec<CompiledPattern>, inner: &WfcSolution) -> (r: Result<WfcSolution, WfcFailure>)
    ensures
        r is Ok ==> pairs_known(*inner, patterns@),
        pairs_known(*inner, patterns@) ==> r is Ok,
        r matches Err(f) ==> is_overlap_failure(*request, f),
        r matches Err(f) ==> exists|i: int|
            0 <= i < solved_len(*inner) && !(inner.grid.rotations@[i] == 0 && (inner.grid.tiles@[i].0 as int)
                < patterns@.len()) && (forall|q: int| 0 <= q < i ==> #[trigger] inner.grid.rotations@[q] == 0 && (
            inner.grid.tiles@[q].0 as int) < patterns@.len()) && f.message@ == #[trigger] unknown_variant_message(
                inner.grid.tiles@[i],
                inner.grid.rotations@[i],
            ),
        r matches Ok(sol) ==> sol.seed == request.seed && sol.grid.topology == WfcTopology::Cartesian2d && sol.grid.size
            == request.output_size && sol.stats == inner.stats && sol.debug is None,
        r matches Ok(sol) ==> sol.grid.tiles@.len() == solved_len(*inner) && sol.grid.rotations@.len() == solved_len(*inner),
        r matches Ok(sol) ==> forall|i: int|
            0 <= i < solved_len(*inner) ==> #[trigger] sol.grid.tiles@[i] == patterns@[inner.grid.tiles@[i].0 as int].anchor.tile
                && sol.grid.rotations@[i] == patterns@[inner.grid.tiles@[i].0 as int].anchor.rotation_steps,
        r matches Ok(sol) ==> sol.signature == fnv_seq(FNV_OFFSET, signature_values(sol.grid)),
{
    let total = if inner.grid.tiles.len() <= inner.grid.rotations.len() {
        inner.grid.tiles.len()
    } else {
        inner.grid.rotations.len()
    };
    let mut tiles: Vec<WfcTileId> = Vec::new();
    let mut rotations: Vec<u8> = Vec::new();
    let mut i: usize = 0;
    while i < total
        invariant
            total == solved_len(*inner),
            total <= inner.grid.tiles@.len(),
            total <= inner.grid.rotations@.len(),
            i <= total,
            tiles@.len() == i,
            rotations@.len() == i,
            forall|q: int|
                0 <= q < i ==> #[trigger] inner.grid.rotations@[q] == 0 && (inner.grid.tiles@[q].0 as int) < patterns@.len(),
            forall|q: int|
                0 <= q < i ==> #[trigger] tiles@[q] == patterns@[inner.grid.tiles@[q].0 as int].anchor.tile
                    && rotations@[q] == patterns@[inner.grid.tiles@[q].0 as int].anchor.rotation_steps,
        decreases total - i,
    {
        let tile = inner.grid.tiles[i];
        let rotation = inner.grid.rotations[i];
        let index = match pattern_index(tile, rotation) {
            Some(index) => index,
            None => {
                let mut message = "overlap solver emitted an unknown pattern variant ".to_owned();
                let tile_text = tile.debug_text();
                message.append(tile_text.as_str());
                message.append("/");
                let rotation_text = crate::text::decimal_text(rotation as u64);
                message.append(rotation_text.as_str());
                proof {
                    assert(!(inner.grid.rotations@[i as int] == 0 && (inner.grid.tiles@[i as int].0 as int) < patterns@.len()));
                    assert(message@ =~= unknown_variant_message(tile, rotation));
                }
                return Err(invalid_failure(request, message));
            },
        };
        if index >= patterns.len() {
            let message = crate::text::with_number(
                "overlap solver emitted a pattern index ",
                index as u64,
                " outside the compiled set",
            );
            proof {
                assert(!(inner.grid.rotations@[i as int] == 0 && (inner.grid.tiles@[i as int].0 as int) < patterns@.len()));
                assert(message@ =~= unknown_variant_message(tile, rotation));
            }
            return Err(invalid_failure(request, message));
        }
        let anchor = patterns[index].anchor;
        proof {
            assert(rotation == 0 && index == tile.0 as usize);
            assert(inner.grid.rotations@[i as int] == 0 && (inner.grid.tiles@[i as int].0 as int) < patterns@.len());
        }
        let ghost tiles_before = tiles@;
        let ghost rotations_before = rotations@;
        tiles.push(anchor.tile);
        rotations.push(anchor.rotation_steps);
        proof {
            assert forall|q: int| 0 <= q < i + 1 implies #[trigger] inner.grid.rotations@[q] == 0 && (
            inner.grid.tiles@[q].0 as int) < patterns@.len() by {
            }
            assert forall|q: int| 0 <= q < i + 1 implies #[trigger] tiles@[q] == patterns@[inner.grid.tiles@[q].0 as int].anchor.tile
                && rotations@[q] == patterns@[inner.grid.tiles@[q].0 as int].anchor.rotation_steps by {
                if q < i {
                    assert(tiles@[q] == tiles_before[q]);
                    assert(rotations@[q] == rotations_before[q]);
                }
            }
        }
        i = i + 1;
    }
    let grid = WfcTileGrid { topology: WfcTopology::Cartesian2d, size: request.output_size, tiles, rotations };
    let signature = grid.signature();
    Ok(WfcSolution { seed: request.seed, grid, stats: inner.stats, debug: None, signature })
}

/// An overlap solution holds only tiles of the sample: every tile that a compiled model's
/// patterns translate back to occurs in the sample.
pub proof fn lemma_overlap_output_from_sample(
    request: WfcOverlapRequest,
    model: &CompiledOverlapModel,
    inner_tiles: Seq<WfcTileId>,
    output_tiles: Seq<WfcTileId>,
)
    requires
        model.compiled_from(request),
        overlap_refusal(request) is None,
        output_tiles.len() <= inner_tiles.len(),
        forall|i: int| 0 <= i < output_tiles.len() ==> (#[trigger] inner_tiles[i].0 as int) < model.patterns@.len(),
        forall|i: int|
            0 <= i < output_tiles.len() ==> #[trigger] output_tiles[i] == model.patterns@[inner_tiles[i].0 as int].anchor.tile,
    ensures
        forall|i: int| 0 <= i < output_tiles.len() ==> request.sample.tiles@.contains(#[trigger] output_tiles[i]),
{
    lemma_anchors_from_sample(model, request);
    assert forall|i: int| 0 <= i < output_tiles.len() implies request.sample.tiles@.contains(#[trigger] output_tiles[i]) by {
        let k = inner_tiles[i].0 as int;
        assert(request.sample.tiles@.contains(model.patterns@[k].anchor.tile));
    }
}

/// Validate an overlap request and compile its sample into the tiled request that solves it,
/// with the patterns that the solved tiles stand for.
pub fn prepare_overlap(request: &WfcOverlapRequest) -> (r: Result<(WfcRequest, Vec<CompiledPattern>), WfcFailure>)
    requires
        overlap_sizes_fit(*request),
    ensures
        r is Ok <==> overlap_refusal(*request) is None && windows(*request).len() > 0,
        r matches Err(f) ==> is_overlap_failure(*request, f),
        r matches Err(f) ==> f.message@ == match overlap_refusal(*request) {
            Some(m) => m,
            None => "the overlap sampler did not discover any patterns"@,
        },
        r matches Ok(parts) ==> exists|model: CompiledOverlapModel|
            #[trigger] model.compiled_from(*request) && parts.0.ruleset == model.ruleset && parts.1@ == model.patterns@
                && parts.0.grid_size == request.output_size && parts.0.seed == request.seed && parts.0.settings
                == request.settings,
        r matches Ok(parts) ==> parts.0.boundary_stitching == if request.options.periodic_output {
            WfcBoundaryStitching { wrap_x: true, wrap_y: true, wrap_z: false }
        } else {
            WfcBoundaryStitching { wrap_x: false, wrap_y: false, wrap_z: false }
        },
        r matches Ok(parts) ==> parts.0.fixed_cells@.len() == 0 && parts.0.banned_cells@.len() == 0
            && parts.0.border_constraints@.len() == 0 && parts.0.global_constraints@.len() == 0,
{
    match validate_request(request) {
        Ok(()) => {},
        Err(f) => {
            return Err(f);
        },
    }
    let model = match compile_patterns(request) {
        Ok(m) => m,
        Err(f) => {
            return Err(f);
        },
    };
    let ghost kept = model;
    let parts = model.into_request(request);
    proof {
        assert(kept.compiled_from(*request));
    }
    Ok(parts)
}

} // verus!
