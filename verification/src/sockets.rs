use vstd::prelude::*;
use vstd::string::StringExecFns;

use crate::config::{
    active_dirs, dir_symbol, opposite_dir, rule_is, WfcAdjacencyRule, WfcDirection, WfcRuleset,
    WfcTileDefinition, WfcTileId, WfcTileSymmetry, WfcTopology, WfcWeight,
};
use crate::text::decimal_spec;

verus! {

/// A unique socket type identifier.
#[derive(Clone, Copy, Debug, PartialEq, Eq, Structural, Hash, PartialOrd, Ord)]
pub struct WfcSocketId(pub u16);

impl Default for WfcSocketId {
    fn default() -> (r: Self)
        ensures
            r == WfcSocketId(0),
    {
        WfcSocketId(0)
    }
}

impl From<u16> for WfcSocketId {
    fn from(value: u16) -> (r: Self) {
        WfcSocketId(value)
    }
}

impl vstd::std_specs::convert::FromSpecImpl<u16> for WfcSocketId {
    open spec fn obeys_from_spec() -> bool {
        true
    }

    open spec fn from_spec(v: u16) -> Self {
        WfcSocketId(v)
    }
}

impl WfcSocketId {
    /// The display text of the socket, such as `Socket(3)`.
    pub fn display_text(self) -> (r: String)
        ensures
            r@ == "Socket("@ + decimal_spec(self.0 as nat) + ")"@,
    {
        crate::text::with_number("Socket(", self.0 as u64, ")")
    }
}

/// The slot of a direction in a face table.
pub open spec fn dir_slot(d: WfcDirection) -> int {
    match d {
        WfcDirection::XPos => 0,
        WfcDirection::XNeg => 1,
        WfcDirection::YPos => 2,
        WfcDirection::YNeg => 3,
        WfcDirection::ZPos => 4,
        WfcDirection::ZNeg => 5,
        WfcDirection::HexEast => 6,
        WfcDirection::HexWest => 7,
        WfcDirection::HexNorthEast => 8,
        WfcDirection::HexNorthWest => 9,
        WfcDirection::HexSouthEast => 10,
        WfcDirection::HexSouthWest => 11,
    }
}

/// The number of direction slots in a face table.
pub const FACE_SLOTS: usize = 12usize;

fn face_slot(d: WfcDirection) -> (r: usize)
    ensures
        r == dir_slot(d),
        r < FACE_SLOTS,
{
    match d {
        WfcDirection::XPos => 0,
        WfcDirection::XNeg => 1,
        WfcDirection::YPos => 2,
        WfcDirection::YNeg => 3,
        WfcDirection::ZPos => 4,
        WfcDirection::ZNeg => 5,
        WfcDirection::HexEast => 6,
        WfcDirection::HexWest => 7,
        WfcDirection::HexNorthEast => 8,
        WfcDirection::HexNorthWest => 9,
        WfcDirection::HexSouthEast => 10,
        WfcDirection::HexSouthWest => 11,
    }
}

/// A tile with the socket assigned to each of its faces.
#[derive(Debug)]
pub struct SocketTileEntry {
    pub definition: WfcTileDefinition,
    pub face_sockets: Vec<Option<WfcSocketId>>,
}

/// A tile entry as its definition and face table.
pub type EntryView = (WfcTileDefinition, Seq<Option<WfcSocketId>>);

/// The view of a tile entry.
pub open spec fn entry_view(e: SocketTileEntry) -> EntryView {
    (e.definition, e.face_sockets@)
}

/// The socket on face `d` of `entry`, if one is assigned.
pub open spec fn face(entry: EntryView, d: WfcDirection) -> Option<WfcSocketId> {
    entry.1[dir_slot(d)]
}

/// Pair `p` names socket `s`.
pub open spec fn pair_touches(p: (WfcSocketId, WfcSocketId), s: WfcSocketId) -> bool {
    p.0 == s || p.1 == s
}

/// Pair `p` links sockets `s` and `t`, in either order.
pub open spec fn pair_links(p: (WfcSocketId, WfcSocketId), s: WfcSocketId, t: WfcSocketId) -> bool {
    p == (s, t) || p == (t, s)
}

/// `s` takes part in a declared asymmetric pair.
pub open spec fn in_pairs(pairs: Seq<(WfcSocketId, WfcSocketId)>, s: WfcSocketId) -> bool {
    exists|k: int| 0 <= k < pairs.len() && #[trigger] pair_touches(pairs[k], s)
}

/// A face with socket `s` connects to an opposite face with socket `t`: a socket of an
/// asymmetric pair connects only to its partners, any other socket only to itself.
pub open spec fn sockets_match(pairs: Seq<(WfcSocketId, WfcSocketId)>, s: WfcSocketId, t: WfcSocketId) -> bool {
    if in_pairs(pairs, s) {
        exists|k: int| 0 <= k < pairs.len() && #[trigger] pair_links(pairs[k], s, t)
    } else {
        s == t
    }
}

/// Tile `c`, in its authored orientation, shows a socket matching `s` on the face opposite
/// `d`. Rotated variants need no check of their own: compilation turns a tile and its
/// neighbour together, so their facing sockets stay the authored ones.
pub open spec fn candidate_fits(
    topology: WfcTopology,
    pairs: Seq<(WfcSocketId, WfcSocketId)>,
    tiles: Seq<EntryView>,
    s: WfcSocketId,
    d: WfcDirection,
    c: int,
) -> bool {
    match face(tiles[c], opposite_dir(d)) {
        Some(t) => sockets_match(pairs, s, t),
        None => false,
    }
}

/// Which sockets connect. A socket named in a declared asymmetric pair connects exactly to
/// the sockets it is paired with, in either order, so it connects to itself only when the pair
/// of it with itself was declared; any other socket connects to itself alone.
pub proof fn lemma_sockets_match_pairs(pairs: Seq<(WfcSocketId, WfcSocketId)>, s: WfcSocketId, t: WfcSocketId)
    ensures
        (exists|k: int| #![trigger pairs[k]] 0 <= k < pairs.len() && (pairs[k].0 == s || pairs[k].1 == s)) ==> (sockets_match(
            pairs,
            s,
            t,
        ) <==> exists|k: int| 0 <= k < pairs.len() && (#[trigger] pairs[k] == (s, t) || pairs[k] == (t, s))),
        !(exists|k: int| #![trigger pairs[k]] 0 <= k < pairs.len() && (pairs[k].0 == s || pairs[k].1 == s)) ==> (sockets_match(
            pairs,
            s,
            t,
        ) <==> s == t),
        (exists|k: int| #![trigger pairs[k]] 0 <= k < pairs.len() && (pairs[k].0 == s || pairs[k].1 == s)) && !(exists|k: int|
            0 <= k < pairs.len() && #[trigger] pairs[k] == (s, s)) ==> !sockets_match(pairs, s, s),
{
    if exists|k: int| #![trigger pairs[k]] 0 <= k < pairs.len() && (pairs[k].0 == s || pairs[k].1 == s) {
        let k = choose|k: int| #![trigger pairs[k]] 0 <= k < pairs.len() && (pairs[k].0 == s || pairs[k].1 == s);
        assert(pair_touches(pairs[k], s));
        if sockets_match(pairs, s, t) {
            let q = choose|q: int| 0 <= q < pairs.len() && #[trigger] pair_links(pairs[q], s, t);
            assert(pairs[q] == (s, t) || pairs[q] == (t, s));
        }
        if exists|q: int| 0 <= q < pairs.len() && (#[trigger] pairs[q] == (s, t) || pairs[q] == (t, s)) {
            let q = choose|q: int| 0 <= q < pairs.len() && (#[trigger] pairs[q] == (s, t) || pairs[q] == (t, s));
            assert(pair_links(pairs[q], s, t));
        }
        if sockets_match(pairs, s, s) {
            let q = choose|q: int| 0 <= q < pairs.len() && #[trigger] pair_links(pairs[q], s, s);
            assert(pairs[q] == (s, s));
        }
    } else {
        if in_pairs(pairs, s) {
            let k = choose|k: int| 0 <= k < pairs.len() && #[trigger] pair_touches(pairs[k], s);
            assert(pairs[k].0 == s || pairs[k].1 == s);
        }
    }
}

/// Sockets match in either order.
pub proof fn lemma_sockets_match_symmetric(pairs: Seq<(WfcSocketId, WfcSocketId)>, s: WfcSocketId, t: WfcSocketId)
    ensures
        sockets_match(pairs, s, t) <==> sockets_match(pairs, t, s),
{
    if sockets_match(pairs, s, t) && in_pairs(pairs, s) {
        let k = choose|k: int| 0 <= k < pairs.len() && #[trigger] pair_links(pairs[k], s, t);
        assert(pair_touches(pairs[k], t));
        assert(pair_links(pairs[k], t, s));
    }
    if sockets_match(pairs, t, s) && in_pairs(pairs, t) {
        let k = choose|k: int| 0 <= k < pairs.len() && #[trigger] pair_links(pairs[k], t, s);
        assert(pair_touches(pairs[k], s));
        assert(pair_links(pairs[k], s, t));
    }
}

/// Fitting is mutual: tile `k` fits against the socket of tile `i` in direction `d` exactly
/// when tile `i` fits against the socket of tile `k` in the opposite direction.
pub proof fn lemma_fit_mutual(
    topology: WfcTopology,
    pairs: Seq<(WfcSocketId, WfcSocketId)>,
    tiles: Seq<EntryView>,
    i: int,
    k: int,
    d: WfcDirection,
)
    requires
        0 <= i < tiles.len(),
        0 <= k < tiles.len(),
        face(tiles[i], d) is Some,
        face(tiles[k], opposite_dir(d)) is Some,
    ensures
        candidate_fits(topology, pairs, tiles, face(tiles[i], d)->0, d, k) <==> candidate_fits(
            topology,
            pairs,
            tiles,
            face(tiles[k], opposite_dir(d))->0,
            opposite_dir(d),
            i,
        ),
{
    let s = face(tiles[i], d)->0;
    let t = face(tiles[k], opposite_dir(d))->0;
    crate::config::lemma_direction_algebra(topology, d, 0);
    assert(opposite_dir(opposite_dir(d)) == d);
    lemma_sockets_match_symmetric(pairs, s, t);
}

/// The ids, in order, of the first `k` tiles that fit next to socket `s` in direction `d`.
pub open spec fn fitting_ids(
    topology: WfcTopology,
    pairs: Seq<(WfcSocketId, WfcSocketId)>,
    tiles: Seq<EntryView>,
    s: WfcSocketId,
    d: WfcDirection,
    k: int,
) -> Seq<WfcTileId>
    decreases k,
{
    if k <= 0 {
        Seq::empty()
    } else {
        let before = fitting_ids(topology, pairs, tiles, s, d, k - 1);
        if candidate_fits(topology, pairs, tiles, s, d, k - 1) {
            before.push(tiles[k - 1].0.id)
        } else {
            before
        }
    }
}

/// How a tile names itself in errors: its id and label.
pub open spec fn tile_text(entry: EntryView) -> Seq<char> {
    "tile "@ + ("WfcTileId("@ + decimal_spec(entry.0.id.0 as nat) + ")"@) + " ("@ + entry.0.label@ + ")"@
}

/// The text of the error for a face without a socket.
pub open spec fn missing_message(entry: EntryView, d: WfcDirection) -> Seq<char> {
    tile_text(entry) + " is missing a socket for direction "@ + dir_symbol(d)
}

/// The text of the error for a face whose socket matches no tile.
pub open spec fn unmatched_message(entry: EntryView, s: WfcSocketId, d: WfcDirection) -> Seq<char> {
    tile_text(entry) + " has socket "@ + ("Socket("@ + decimal_spec(s.0 as nat) + ")"@) + " on "@ + dir_symbol(d)
        + " which matches no other tile"@
}

/// Every tile has a socket on every face of the topology.
pub open spec fn all_faces_set(topology: WfcTopology, tiles: Seq<EntryView>) -> bool {
    forall|i: int, j: int|
        0 <= i < tiles.len() && 0 <= j < active_dirs(topology).len() ==> #[trigger] face(tiles[i], active_dirs(topology)[j]) is Some
}

/// The face of tile `i` in the `j`-th direction fits some tile.
pub open spec fn face_fits(topology: WfcTopology, pairs: Seq<(WfcSocketId, WfcSocketId)>, tiles: Seq<EntryView>, i: int, j: int) -> bool {
    let d = active_dirs(topology)[j];
    fitting_ids(topology, pairs, tiles, face(tiles[i], d)->0, d, tiles.len() as int).len() > 0
}

/// Every face of every tile fits some tile.
pub open spec fn all_faces_fit(topology: WfcTopology, pairs: Seq<(WfcSocketId, WfcSocketId)>, tiles: Seq<EntryView>) -> bool {
    forall|i: int, j: int|
        0 <= i < tiles.len() && 0 <= j < active_dirs(topology).len() ==> #[trigger] face_fits(topology, pairs, tiles, i, j)
}

/// Pair `(i, j)` comes before pair `(a, b)` in row order.
pub open spec fn pair_before(i: int, j: int, a: int, b: int) -> bool {
    i < a || (i == a && j < b)
}

/// Builder that collects tiles with per-face socket assignments, then compiles them to a
/// ruleset whose adjacency rules follow from socket compatibility.
#[derive(Debug)]
pub struct WfcSocketRulesetBuilder {
    topology: WfcTopology,
    tiles: Vec<SocketTileEntry>,
    socket_names: Vec<String>,
    asymmetric_pairs: Vec<(WfcSocketId, WfcSocketId)>,
    next_socket_id: u16,
}

/// Per-tile builder returned by [`WfcSocketRulesetBuilder::add_tile`].
pub struct SocketTileBuilder<'a> {
    pub builder: &'a mut WfcSocketRulesetBuilder,
    pub tile_index: usize,
}

impl WfcSocketRulesetBuilder {
    pub closed spec fn topology_spec(&self) -> WfcTopology {
        self.topology
    }

    /// The tiles added so far, each with its face table.
    pub closed spec fn tiles_spec(&self) -> Seq<EntryView> {
        self.tiles@.map_values(|e: SocketTileEntry| entry_view(e))
    }

    /// The registered socket names; a name's position is its socket id.
    pub closed spec fn names(&self) -> Seq<Seq<char>> {
        self.socket_names@.map_values(|n: String| n@)
    }

    pub closed spec fn pairs(&self) -> Seq<(WfcSocketId, WfcSocketId)> {
        self.asymmetric_pairs@
    }

    /// The face tables have a slot for every direction, and socket ids are name positions.
    pub closed spec fn wf(&self) -> bool {
        &&& self.next_socket_id == self.socket_names@.len()
        &&& forall|i: int, j: int| 0 <= i < j < self.socket_names@.len() ==> self.socket_names@[i]@ != self.socket_names@[j]@
        &&& forall|i: int| 0 <= i < self.tiles@.len() ==> (#[trigger] self.tiles@[i]).face_sockets@.len() == FACE_SLOTS
    }

    pub fn new(topology: WfcTopology) -> (r: Self)
        ensures
            r.wf(),
            r.topology_spec() == topology,
            r.tiles_spec().len() == 0,
            r.names().len() == 0,
            r.pairs().len() == 0,
    {
        let r = WfcSocketRulesetBuilder {
            topology,
            tiles: Vec::new(),
            socket_names: Vec::new(),
            asymmetric_pairs: Vec::new(),
            next_socket_id: 0,
        };
        proof {
            assert(r.names() =~= Seq::<Seq<char>>::empty());
        }
        r
    }

    /// Register or look up a socket by name; returns its stable id.
    pub fn socket_id(&mut self, name: &str) -> (r: WfcSocketId)
        requires
            old(self).wf(),
            old(self).names().contains(name@) || old(self).names().len() < u16::MAX,
        ensures
            final(self).wf(),
            final(self).topology_spec() == old(self).topology_spec(),
            final(self).tiles_spec() == old(self).tiles_spec(),
            final(self).pairs() == old(self).pairs(),
            old(self).names().contains(name@) ==> final(self).names() == old(self).names(),
            !old(self).names().contains(name@) ==> final(self).names() == old(self).names().push(name@),
            r.0 < final(self).names().len(),
            final(self).names()[r.0 as int] == name@,
    {
        let owned = name.to_owned();
        let mut i: usize = 0;
        while i < self.socket_names.len()
            invariant
                self.wf(),
                *self == *old(self),
                owned@ == name@,
                i <= self.socket_names@.len(),
                forall|j: int| 0 <= j < i ==> self.socket_names@[j]@ != name@,
            decreases self.socket_names@.len() - i,
        {
            if self.socket_names[i] == owned {
                proof {
                    assert(self.names()[i as int] == name@);
                }
                return WfcSocketId(i as u16);
            }
            i = i + 1;
        }
        proof {
            assert(!self.names().contains(name@)) by {
                if self.names().contains(name@) {
                    let j = choose|j: int| 0 <= j < self.names().len() && self.names()[j] == name@;
                    assert(self.socket_names@[j]@ == name@);
                }
            }
        }
        let id = WfcSocketId(self.next_socket_id);
        self.next_socket_id = self.next_socket_id + 1;
        self.socket_names.push(owned);
        proof {
            assert(self.names() =~= old(self).names().push(name@));
        }
        id
    }

    /// Declare an asymmetric socket pair: a face with `from` connects only to an opposite
    /// face with `to`, and the other way round.
    pub fn add_asymmetric_pair(self, from: &str, to: &str) -> (r: Self)
        requires
            self.wf(),
            self.names().len() + 2 <= u16::MAX,
        ensures
            r.wf(),
            r.topology_spec() == self.topology_spec(),
            r.tiles_spec() == self.tiles_spec(),
            r.names().contains(from@),
            r.names().contains(to@),
            r.pairs().len() == self.pairs().len() + 1,
            r.pairs().drop_last() == self.pairs(),
            r.names()[r.pairs().last().0 .0 as int] == from@,
            r.names()[r.pairs().last().1 .0 as int] == to@,
            forall|x: Seq<char>| #[trigger] r.names().contains(x) ==> self.names().contains(x) || x == from@ || x == to@,
    {
        let mut next = self;
        let ghost n0 = next.names();
        let from_id = next.socket_id(from);
        let ghost n1 = next.names();
        let to_id = next.socket_id(to);
        proof {
            if !n1.contains(to@) {
                assert(next.names()[from_id.0 as int] == n1[from_id.0 as int]);
            }
            assert(next.names().contains(from@)) by {
                assert(next.names()[from_id.0 as int] == from@);
            }
            assert(next.names().contains(to@)) by {
                assert(next.names()[to_id.0 as int] == to@);
            }
            assert forall|x: Seq<char>| #[trigger] next.names().contains(x) implies n0.contains(x) || x == from@ || x == to@ by {
                let j = choose|j: int| 0 <= j < next.names().len() && next.names()[j] == x;
                if j < n1.len() {
                    assert(n1[j] == x);
                    if j < n0.len() {
                        assert(n0[j] == x);
                    }
                }
            }
        }
        next.asymmetric_pairs.push((from_id, to_id));
        proof {
            assert(next.pairs().drop_last() =~= self.pairs());
        }
        next
    }

    /// Begin adding a tile; returns a per-tile builder for its socket assignments.
    pub fn add_tile(&mut self, id: WfcTileId, weight: WfcWeight, label: &str) -> (r: SocketTileBuilder<'_>)
        requires
            old(self).wf(),
        ensures
            r.builder.wf(),
            r.builder.topology_spec() == old(self).topology_spec(),
            r.builder.names() == old(self).names(),
            r.builder.pairs() == old(self).pairs(),
            r.builder.tiles_spec().len() == old(self).tiles_spec().len() + 1,
            r.builder.tiles_spec().drop_last() == old(self).tiles_spec(),
            r.builder.tiles_spec().last().0.id == id,
            r.builder.tiles_spec().last().0.weight == weight,
            r.builder.tiles_spec().last().0.label@ == label@,
            r.builder.tiles_spec().last().0.symmetry == WfcTileSymmetry::Fixed,
            r.builder.tiles_spec().last().1.len() == FACE_SLOTS,
            forall|d: WfcDirection| face(r.builder.tiles_spec().last(), d) is None,
            r.tile_index == old(self).tiles_spec().len(),
            *final(self) == *final(r.builder),
    {
        let definition = WfcTileDefinition::new(id, weight, label);
        let mut face_sockets: Vec<Option<WfcSocketId>> = Vec::new();
        let mut k: usize = 0;
        while k < FACE_SLOTS
            invariant
                k <= FACE_SLOTS,
                face_sockets@.len() == k,
                forall|j: int| 0 <= j < k ==> #[trigger] face_sockets@[j] is None,
            decreases FACE_SLOTS - k,
        {
            face_sockets.push(None);
            k = k + 1;
        }
        self.tiles.push(SocketTileEntry { definition, face_sockets });
        proof {
            assert(self.tiles_spec().drop_last() =~= old(self).tiles_spec());
            assert forall|d: WfcDirection| face(self.tiles_spec().last(), d) is None by {
                assert(0 <= dir_slot(d) < 12);
            }
        }
        let index = self.tiles.len() - 1;
        SocketTileBuilder { builder: self, tile_index: index }
    }

    /// Assign `socket` to the face in `slot` of tile `i`.
    fn set_face(&mut self, i: usize, slot: usize, socket: WfcSocketId)
        requires
            old(self).wf(),
            i < old(self).tiles_spec().len(),
            slot < FACE_SLOTS,
        ensures
            final(self).wf(),
            final(self).topology_spec() == old(self).topology_spec(),
            final(self).names() == old(self).names(),
            final(self).pairs() == old(self).pairs(),
            final(self).tiles_spec() == old(self).tiles_spec().update(
                i as int,
                (old(self).tiles_spec()[i as int].0, old(self).tiles_spec()[i as int].1.update(slot as int, Some(socket))),
            ),
    {
        let definition = copy_definition(&self.tiles[i].definition);
        let mut face_sockets = crate::debug::copy_vec(&self.tiles[i].face_sockets);
        face_sockets.set(slot, Some(socket));
        self.tiles.set(i, SocketTileEntry { definition, face_sockets });
        proof {
            assert(self.tiles_spec() =~= old(self).tiles_spec().update(
                i as int,
                (old(self).tiles_spec()[i as int].0, old(self).tiles_spec()[i as int].1.update(slot as int, Some(socket))),
            ));
            assert(self.names() =~= old(self).names());
        }
    }

    /// Set the symmetry of tile `i`.
    fn set_symmetry(&mut self, i: usize, symmetry: WfcTileSymmetry)
        requires
            old(self).wf(),
            i < old(self).tiles_spec().len(),
        ensures
            final(self).wf(),
            final(self).topology_spec() == old(self).topology_spec(),
            final(self).names() == old(self).names(),
            final(self).pairs() == old(self).pairs(),
            final(self).tiles_spec() == old(self).tiles_spec().update(
                i as int,
                (
                    WfcTileDefinition { symmetry, ..old(self).tiles_spec()[i as int].0 },
                    old(self).tiles_spec()[i as int].1,
                ),
            ),
    {
        let mut definition = copy_definition(&self.tiles[i].definition);
        definition.symmetry = symmetry;
        let face_sockets = crate::debug::copy_vec(&self.tiles[i].face_sockets);
        self.tiles.set(i, SocketTileEntry { definition, face_sockets });
        proof {
            assert(self.tiles_spec() =~= old(self).tiles_spec().update(
                i as int,
                (
                    WfcTileDefinition { symmetry, ..old(self).tiles_spec()[i as int].0 },
                    old(self).tiles_spec()[i as int].1,
                ),
            ));
            assert(self.names() =~= old(self).names());
        }
    }


    /// Whether a face with socket `s` connects to an opposite face with socket `t`.
    fn sockets_match_exec(&self, s: WfcSocketId, t: WfcSocketId) -> (r: bool)
        ensures
            r == sockets_match(self.pairs(), s, t),
    {
        let pairs = &self.asymmetric_pairs;
        let mut paired = false;
        let mut k: usize = 0;
        while k < pairs.len()
            invariant
                k <= pairs@.len(),
                pairs@ == self.pairs(),
                paired <==> exists|q: int| 0 <= q < k && #[trigger] pair_touches(pairs@[q], s),
            decreases pairs@.len() - k,
        {
            if pairs[k].0 == s || pairs[k].1 == s {
                paired = true;
            }
            proof {
                if pair_touches(pairs@[k as int], s) {
                    assert(paired);
                }
                if paired && !exists|q: int| 0 <= q < k && #[trigger] pair_touches(pairs@[q], s) {
                    assert(pair_touches(pairs@[k as int], s));
                }
            }
            k = k + 1;
        }
        if !paired {
            return s == t;
        }
        let mut found = false;
        let mut k: usize = 0;
        while k < pairs.len()
            invariant
                k <= pairs@.len(),
                pairs@ == self.pairs(),
                found <==> exists|q: int| 0 <= q < k && #[trigger] pair_links(pairs@[q], s, t),
            decreases pairs@.len() - k,
        {
            let (a, b) = pairs[k];
            if (a == s && b == t) || (a == t && b == s) {
                found = true;
            }
            proof {
                if pair_links(pairs@[k as int], s, t) {
                    assert(found);
                }
                if found && !exists|q: int| 0 <= q < k && #[trigger] pair_links(pairs@[q], s, t) {
                    assert(pair_links(pairs@[k as int], s, t));
                }
            }
            k = k + 1;
        }
        found
    }

    /// Whether tile `c` shows a socket matching `s` on the face opposite `d`.
    fn candidate_fits_exec(&self, s: WfcSocketId, d: WfcDirection, c: usize) -> (r: bool)
        requires
            self.wf(),
            c < self.tiles_spec().len(),
        ensures
            r == candidate_fits(self.topology_spec(), self.pairs(), self.tiles_spec(), s, d, c as int),
    {
        let entry = &self.tiles[c];
        proof {
            assert(self.tiles_spec()[c as int] == entry_view(*entry));
        }
        let slot = face_slot(d.opposite());
        match entry.face_sockets[slot] {
            Some(t) => self.sockets_match_exec(s, t),
            None => false,
        }
    }

    /// The ids of the tiles that fit next to socket `s` in direction `d`.
    fn fitting_tiles(&self, s: WfcSocketId, d: WfcDirection) -> (r: Vec<WfcTileId>)
        requires
            self.wf(),
        ensures
            r@ == fitting_ids(self.topology_spec(), self.pairs(), self.tiles_spec(), s, d, self.tiles_spec().len() as int),
    {
        let mut allowed: Vec<WfcTileId> = Vec::new();
        let mut c: usize = 0;
        while c < self.tiles.len()
            invariant
                self.wf(),
                c <= self.tiles@.len(),
                allowed@ == fitting_ids(self.topology_spec(), self.pairs(), self.tiles_spec(), s, d, c as int),
            decreases self.tiles@.len() - c,
        {
            if self.candidate_fits_exec(s, d, c) {
                allowed.push(self.tiles[c].definition.id);
                proof {
                    assert(self.tiles_spec()[c as int].0.id == self.tiles@[c as int].definition.id);
                }
            }
            c = c + 1;
        }
        allowed
    }

    /// Compile the tiles and sockets into a ruleset: every tile must have a socket on every
    /// face, and every face must fit some tile.
    pub fn build(&self) -> (r: Result<WfcRuleset, String>)
        requires
            self.wf(),
        ensures
            r is Ok <==> (self.tiles_spec().len() > 0 && all_faces_set(self.topology_spec(), self.tiles_spec())
                && all_faces_fit(self.topology_spec(), self.pairs(), self.tiles_spec())),
            self.tiles_spec().len() == 0 ==> r == Err::<WfcRuleset, String>(r->Err_0) && r->Err_0@
                == "socket ruleset must contain at least one tile"@,
            r matches Err(m) ==> (self.tiles_spec().len() > 0 && !all_faces_set(self.topology_spec(), self.tiles_spec())
                ==> exists|i: int, j: int|
                0 <= i < self.tiles_spec().len() && 0 <= j < active_dirs(self.topology_spec()).len() && #[trigger] face(
                    self.tiles_spec()[i],
                    active_dirs(self.topology_spec())[j],
                ) is None && (forall|a: int, b: int|
                    0 <= a < self.tiles_spec().len() && 0 <= b < active_dirs(self.topology_spec()).len() && pair_before(a, b, i, j)
                        ==> #[trigger] face(self.tiles_spec()[a], active_dirs(self.topology_spec())[b]) is Some) && m@
                    == missing_message(self.tiles_spec()[i], active_dirs(self.topology_spec())[j])),
            r matches Err(m) ==> (self.tiles_spec().len() > 0 && all_faces_set(self.topology_spec(), self.tiles_spec())
                ==> exists|i: int, j: int|
                0 <= i < self.tiles_spec().len() && 0 <= j < active_dirs(self.topology_spec()).len() && !#[trigger] face_fits(
                    self.topology_spec(),
                    self.pairs(),
                    self.tiles_spec(),
                    i,
                    j,
                ) && (forall|a: int, b: int|
                    0 <= a < self.tiles_spec().len() && 0 <= b < active_dirs(self.topology_spec()).len() && pair_before(a, b, i, j)
                        ==> #[trigger] face_fits(self.topology_spec(), self.pairs(), self.tiles_spec(), a, b)) && m@
                    == unmatched_message(
                    self.tiles_spec()[i],
                    face(self.tiles_spec()[i], active_dirs(self.topology_spec())[j])->0,
                    active_dirs(self.topology_spec())[j],
                )),
            r matches Ok(rs) ==> {
                let tiles = self.tiles_spec();
                let dirs = active_dirs(self.topology_spec());
                &&& rs.topology == self.topology_spec()
                &&& rs.tiles@.len() == tiles.len()
                &&& forall|i: int| 0 <= i < tiles.len() ==> #[trigger] rs.tiles@[i] == tiles[i].0
                &&& rs.adjacency@.len() == tiles.len() * dirs.len()
                &&& forall|i: int, j: int|
                    0 <= i < tiles.len() && 0 <= j < dirs.len() ==> #[trigger] rule_is(
                        rs.adjacency@[i * dirs.len() + j],
                        tiles[i].0.id,
                        dirs[j],
                        fitting_ids(self.topology_spec(), self.pairs(), tiles, face(tiles[i], dirs[j])->0, dirs[j], tiles.len() as int),
                    )
            },
    {
        let directions = WfcDirection::active(self.topology);
        if self.tiles.len() == 0 {
            proof {
                reveal_strlit("socket ruleset must contain at least one tile");
            }
            return Err("socket ruleset must contain at least one tile".to_owned());
        }
        let nd = directions.len();
        let mut i: usize = 0;
        while i < self.tiles.len()
            invariant
                self.wf(),
                directions@ == active_dirs(self.topology),
                nd == directions@.len(),
                i <= self.tiles@.len(),
                forall|a: int, b: int|
                    0 <= a < i && 0 <= b < nd ==> #[trigger] face(self.tiles_spec()[a], directions@[b]) is Some,
            decreases self.tiles@.len() - i,
        {
            let mut j: usize = 0;
            while j < nd
                invariant
                    self.wf(),
                    directions@ == active_dirs(self.topology),
                    nd == directions@.len(),
                    i < self.tiles@.len(),
                    j <= nd,
                    forall|a: int, b: int|
                        0 <= a < i && 0 <= b < nd ==> #[trigger] face(self.tiles_spec()[a], directions@[b]) is Some,
                    forall|b: int| 0 <= b < j ==> #[trigger] face(self.tiles_spec()[i as int], directions@[b]) is Some,
                decreases nd - j,
            {
                let dir = directions[j];
                let slot = face_slot(dir);
                proof {
                    assert(self.tiles_spec()[i as int] == entry_view(self.tiles@[i as int]));
                }
                if self.tiles[i].face_sockets[slot].is_none() {
                    let message = self.tile_error_text(i);
                    let mut message = message;
                    message.append(" is missing a socket for direction ");
                    message.append(dir.symbol());
                    proof {
                        assert(face(self.tiles_spec()[i as int], dir) is None);
                        assert forall|a: int, b: int|
                            0 <= a < self.tiles_spec().len() && 0 <= b < nd && pair_before(a, b, i as int, j as int)
                                implies #[trigger] face(self.tiles_spec()[a], directions@[b]) is Some by {
                        }
                        assert(!all_faces_set(self.topology, self.tiles_spec()));
                    }
                    return Err(message);
                }
                j = j + 1;
            }
            i = i + 1;
        }
        proof {
            assert(all_faces_set(self.topology, self.tiles_spec()));
        }
        let mut definitions: Vec<WfcTileDefinition> = Vec::new();
        let mut c: usize = 0;
        while c < self.tiles.len()
            invariant
                self.wf(),
                c <= self.tiles@.len(),
                definitions@.len() == c,
                forall|x: int| 0 <= x < c ==> #[trigger] definitions@[x] == self.tiles_spec()[x].0,
            decreases self.tiles@.len() - c,
        {
            definitions.push(copy_definition(&self.tiles[c].definition));
            proof {
                assert(self.tiles_spec()[c as int] == entry_view(self.tiles@[c as int]));
            }
            c = c + 1;
        }
        let mut adjacency: Vec<WfcAdjacencyRule> = Vec::new();
        let total = self.tiles.len();
        let mut i: usize = 0;
        while i < total
            invariant
                self.wf(),
                total == self.tiles@.len(),
                directions@ == active_dirs(self.topology),
                nd == directions@.len(),
                all_faces_set(self.topology, self.tiles_spec()),
                i <= total,
                adjacency@.len() == i * nd,
                forall|a: int, b: int| 0 <= a < i && 0 <= b < nd ==> #[trigger] face_fits(self.topology, self.pairs(), self.tiles_spec(), a, b),
                forall|a: int, b: int|
                    0 <= a < i && 0 <= b < nd ==> #[trigger] rule_is(
                        adjacency@[a * nd + b],
                        self.tiles_spec()[a].0.id,
                        directions@[b],
                        fitting_ids(self.topology, self.pairs(), self.tiles_spec(), face(self.tiles_spec()[a], directions@[b])->0, directions@[b], total as int),
                    ),
            decreases total - i,
        {
            let mut j: usize = 0;
            while j < nd
                invariant
                    self.wf(),
                    total == self.tiles@.len(),
                    directions@ == active_dirs(self.topology),
                    nd == directions@.len(),
                    all_faces_set(self.topology, self.tiles_spec()),
                    i < total,
                    j <= nd,
                    adjacency@.len() == i * nd + j,
                    forall|a: int, b: int|
                        0 <= a < i && 0 <= b < nd ==> #[trigger] face_fits(self.topology, self.pairs(), self.tiles_spec(), a, b),
                    forall|b: int| 0 <= b < j ==> #[trigger] face_fits(self.topology, self.pairs(), self.tiles_spec(), i as int, b),
                    forall|a: int, b: int|
                        0 <= a < i && 0 <= b < nd ==> #[trigger] rule_is(
                            adjacency@[a * nd + b],
                            self.tiles_spec()[a].0.id,
                            directions@[b],
                            fitting_ids(self.topology, self.pairs(), self.tiles_spec(), face(self.tiles_spec()[a], directions@[b])->0, directions@[b], total as int),
                        ),
                    forall|b: int|
                        0 <= b < j ==> #[trigger] rule_is(
                            adjacency@[i * nd + b],
                            self.tiles_spec()[i as int].0.id,
                            directions@[b],
                            fitting_ids(self.topology, self.pairs(), self.tiles_spec(), face(self.tiles_spec()[i as int], directions@[b])->0, directions@[b], total as int),
                        ),
                decreases nd - j,
            {
                let dir = directions[j];
                let slot = face_slot(dir);
                proof {
                    assert(self.tiles_spec()[i as int] == entry_view(self.tiles@[i as int]));
                    assert(face(self.tiles_spec()[i as int], directions@[j as int]) is Some);
                }
                let source_socket = match self.tiles[i].face_sockets[slot] {
                    Some(t) => t,
                    None => {
                        proof {
                            assert(false);
                        }
                        WfcSocketId(0)
                    },
                };
                let allowed = self.fitting_tiles(source_socket, dir);
                if allowed.len() == 0 {
                    let mut message = self.tile_error_text(i);
                    message.append(" has socket ");
                    let socket_text = source_socket.display_text();
                    message.append(socket_text.as_str());
                    message.append(" on ");
                    message.append(dir.symbol());
                    message.append(" which matches no other tile");
                    proof {
                        assert(!face_fits(self.topology, self.pairs(), self.tiles_spec(), i as int, j as int));
                        assert forall|a: int, b: int|
                            0 <= a < self.tiles_spec().len() && 0 <= b < nd && pair_before(a, b, i as int, j as int)
                                implies #[trigger] face_fits(self.topology, self.pairs(), self.tiles_spec(), a, b) by {
                        }
                        assert(!all_faces_fit(self.topology, self.pairs(), self.tiles_spec()));
                    }
                    return Err(message);
                }
                let ghost before = adjacency@;
                adjacency.push(WfcAdjacencyRule::new(self.tiles[i].definition.id, dir, allowed));
                proof {
                    assert(face_fits(self.topology, self.pairs(), self.tiles_spec(), i as int, j as int));
                    assert forall|a: int, b: int|
                        0 <= a < i && 0 <= b < nd implies #[trigger] rule_is(
                            adjacency@[a * nd + b],
                            self.tiles_spec()[a].0.id,
                            directions@[b],
                            fitting_ids(self.topology, self.pairs(), self.tiles_spec(), face(self.tiles_spec()[a], directions@[b])->0, directions@[b], total as int),
                        ) by {
                        lemma_row_index(a, b, i as int, j as int, nd as int);
                        assert(adjacency@[a * nd + b] == before[a * nd + b]);
                    }
                    assert forall|b: int| 0 <= b < j + 1 implies #[trigger] rule_is(
                        adjacency@[i * nd + b],
                        self.tiles_spec()[i as int].0.id,
                        directions@[b],
                        fitting_ids(self.topology, self.pairs(), self.tiles_spec(), face(self.tiles_spec()[i as int], directions@[b])->0, directions@[b], total as int),
                    ) by {
                        if b < j {
                            assert(adjacency@[i * nd + b] == before[i * nd + b]);
                        }
                    }
                }
                j = j + 1;
            }
            proof {
                assert((i + 1) * nd == i * nd + nd) by (nonlinear_arith);
            }
            i = i + 1;
        }
        Ok(WfcRuleset { topology: self.topology, tiles: definitions, adjacency })
    }

    /// `tile WfcTileId(..) (label)` for tile `i`.
    fn tile_error_text(&self, i: usize) -> (r: String)
        requires
            i < self.tiles_spec().len(),
        ensures
            r@ == tile_text(self.tiles_spec()[i as int]),
    {
        let entry = &self.tiles[i];
        let mut text = "tile ".to_owned();
        let id_text = entry.definition.id.debug_text();
        text.append(id_text.as_str());
        text.append(" (");
        text.append(entry.definition.label.as_str());
        text.append(")");
        proof {
            assert(self.tiles_spec()[i as int] == entry_view(*entry));
            assert(text@ =~= tile_text(self.tiles_spec()[i as int]));
        }
        text
    }

}

/// A copy of a tile definition.
pub fn copy_definition(d: &WfcTileDefinition) -> (r: WfcTileDefinition)
    ensures
        r == *d,
{
    WfcTileDefinition { id: d.id, weight: d.weight, label: d.label.clone(), symmetry: d.symmetry }
}

impl<'a> SocketTileBuilder<'a> {
    /// Assign a named socket to a face direction.
    pub fn socket(self, direction: WfcDirection, name: &str) -> (r: Self)
        requires
            self.builder.wf(),
            self.tile_index < self.builder.tiles_spec().len(),
            self.builder.names().contains(name@) || self.builder.names().len() < u16::MAX,
        ensures
            r.tile_index == self.tile_index,
            r.builder.wf(),
            r.builder.topology_spec() == old(self.builder).topology_spec(),
            r.builder.pairs() == old(self.builder).pairs(),
            old(self.builder).names().contains(name@) ==> r.builder.names() == old(self.builder).names(),
            !old(self.builder).names().contains(name@) ==> r.builder.names() == old(self.builder).names().push(name@),
            exists|id: WfcSocketId|
                #![trigger r.builder.names()[id.0 as int]]
                id.0 < r.builder.names().len() && r.builder.names()[id.0 as int] == name@ && r.builder.tiles_spec()
                    == old(self.builder).tiles_spec().update(
                    self.tile_index as int,
                    (
                        old(self.builder).tiles_spec()[self.tile_index as int].0,
                        old(self.builder).tiles_spec()[self.tile_index as int].1.update(dir_slot(direction), Some(id)),
                    ),
                ),
            *final(r.builder) == *final(self.builder),
    {
        let SocketTileBuilder { builder, tile_index } = self;
        let socket_id = builder.socket_id(name);
        let slot = face_slot(direction);
        builder.set_face(tile_index, slot, socket_id);
        SocketTileBuilder { builder, tile_index }
    }

    /// Assign the same socket to every direction of the topology.
    pub fn all_sockets(self, name: &str) -> (r: Self)
        requires
            self.builder.wf(),
            self.tile_index < self.builder.tiles_spec().len(),
            self.builder.names().contains(name@) || self.builder.names().len() < u16::MAX,
        ensures
            r.tile_index == self.tile_index,
            r.builder.wf(),
            r.builder.topology_spec() == old(self.builder).topology_spec(),
            r.builder.pairs() == old(self.builder).pairs(),
            old(self.builder).names().contains(name@) ==> r.builder.names() == old(self.builder).names(),
            !old(self.builder).names().contains(name@) ==> r.builder.names() == old(self.builder).names().push(name@),
            r.builder.tiles_spec().len() == old(self.builder).tiles_spec().len(),
            forall|i: int|
                0 <= i < r.builder.tiles_spec().len() && i != self.tile_index ==> #[trigger] r.builder.tiles_spec()[i]
                    == old(self.builder).tiles_spec()[i],
            r.builder.tiles_spec()[self.tile_index as int].0 == old(self.builder).tiles_spec()[self.tile_index as int].0,
            exists|id: WfcSocketId|
                #![trigger r.builder.names()[id.0 as int]]
                id.0 < r.builder.names().len() && r.builder.names()[id.0 as int] == name@ && forall|d: WfcDirection|
                    #[trigger] face(r.builder.tiles_spec()[self.tile_index as int], d) == if active_dirs(
                        r.builder.topology_spec(),
                    ).contains(d) {
                        Some(id)
                    } else {
                        face(old(self.builder).tiles_spec()[self.tile_index as int], d)
                    },
            *final(r.builder) == *final(self.builder),
    {
        let SocketTileBuilder { builder, tile_index } = self;
        let socket_id = builder.socket_id(name);
        let directions = WfcDirection::active(builder.topology);
        let ghost start = builder.tiles_spec();
        let mut k: usize = 0;
        while k < directions.len()
            invariant
                builder.wf(),
                tile_index < builder.tiles_spec().len(),
                directions@ == active_dirs(builder.topology_spec()),
                builder.topology_spec() == old(self.builder).topology_spec(),
                builder.pairs() == old(self.builder).pairs(),
                old(self.builder).names().contains(name@) ==> builder.names() == old(self.builder).names(),
                !old(self.builder).names().contains(name@) ==> builder.names() == old(self.builder).names().push(name@),
                socket_id.0 < builder.names().len(),
                builder.names()[socket_id.0 as int] == name@,
                start.len() == old(self.builder).tiles_spec().len(),
                start[tile_index as int] == old(self.builder).tiles_spec()[tile_index as int],
                forall|i: int| 0 <= i < start.len() && i != tile_index ==> #[trigger] start[i] == old(self.builder).tiles_spec()[i],
                builder.tiles_spec().len() == start.len(),
                forall|i: int| 0 <= i < start.len() && i != tile_index ==> #[trigger] builder.tiles_spec()[i] == start[i],
                builder.tiles_spec()[tile_index as int].0 == start[tile_index as int].0,
                builder.tiles_spec()[tile_index as int].1.len() == FACE_SLOTS,
                k <= directions@.len(),
                forall|d: WfcDirection|
                    #[trigger] face(builder.tiles_spec()[tile_index as int], d) == if directions@.take(k as int).contains(d) {
                        Some(socket_id)
                    } else {
                        face(start[tile_index as int], d)
                    },
                *final(builder) == *final(self.builder),
            decreases directions@.len() - k,
        {
            let slot = face_slot(directions[k]);
            let ghost pre = builder.tiles_spec();
            builder.set_face(tile_index, slot, socket_id);
            proof {
                let dk = directions@[k as int];
                assert(directions@.take(k + 1) =~= directions@.take(k as int).push(dk));
                assert forall|d: WfcDirection|
                    #[trigger] face(builder.tiles_spec()[tile_index as int], d) == if directions@.take(k + 1).contains(d) {
                        Some(socket_id)
                    } else {
                        face(start[tile_index as int], d)
                    } by {
                    if d == dk {
                        assert(directions@.take(k + 1)[k as int] == d);
                    } else {
                        assert(dir_slot(d) != dir_slot(dk));
                        assert(face(builder.tiles_spec()[tile_index as int], d) == face(pre[tile_index as int], d));
                        let after = directions@.take(k + 1);
                        let before = directions@.take(k as int);
                        if after.contains(d) {
                            let j = choose|j: int| 0 <= j < after.len() && after[j] == d;
                            assert(before[j] == d);
                        }
                        if before.contains(d) {
                            let j = choose|j: int| 0 <= j < before.len() && before[j] == d;
                            assert(after[j] == d);
                        }
                    }
                }
            }
            k = k + 1;
        }
        proof {
            assert(directions@.take(directions@.len() as int) =~= directions@);
        }
        SocketTileBuilder { builder, tile_index }
    }

    /// Set the tile symmetry, for automatic rotation.
    pub fn symmetry(self, symmetry: WfcTileSymmetry) -> (r: Self)
        requires
            self.builder.wf(),
            self.tile_index < self.builder.tiles_spec().len(),
        ensures
            r.tile_index == self.tile_index,
            r.builder.wf(),
            r.builder.topology_spec() == old(self.builder).topology_spec(),
            r.builder.pairs() == old(self.builder).pairs(),
            r.builder.names() == old(self.builder).names(),
            r.builder.tiles_spec() == old(self.builder).tiles_spec().update(
                self.tile_index as int,
                (
                    WfcTileDefinition { symmetry, ..old(self.builder).tiles_spec()[self.tile_index as int].0 },
                    old(self.builder).tiles_spec()[self.tile_index as int].1,
                ),
            ),
            *final(r.builder) == *final(self.builder),
    {
        let SocketTileBuilder { builder, tile_index } = self;
        builder.set_symmetry(tile_index, symmetry);
        SocketTileBuilder { builder, tile_index }
    }

    /// Finish this tile and return to the parent builder.
    pub fn done(self) -> (r: &'a mut WfcSocketRulesetBuilder)
        ensures
            *r == *old(self.builder),
            *final(r) == *final(self.builder),
    {
        self.builder
    }
}

/// Entry `(a, b)` of a row-major table with rows of `nd` entries lies before `(i, j)` when
/// row `a` comes first.
proof fn lemma_row_index(a: int, b: int, i: int, j: int, nd: int)
    requires
        0 <= a < i,
        0 <= b < nd,
        0 <= j,
    ensures
        a * nd + b < i * nd + j,
{
    assert(a * nd + b < (a + 1) * nd) by (nonlinear_arith)
        requires
            0 <= b < nd,
    ;
    assert((a + 1) * nd <= i * nd) by (nonlinear_arith)
        requires
            a + 1 <= i,
            0 < nd,
    ;
}

} // verus!
