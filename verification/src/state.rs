//! The mathematical model of a level's mutable state, and the meaning of
//! applying a turn's [`ChangeView`] to it.
//!
//! A [`GameState`] is the part of a level that changes over time: the tile
//! grid and the objects, keyed by id. The three phases of a change
//! (returnings, then moves, then summonings) are each given a pointwise
//! definition here, together with an applicability predicate saying when the
//! phase is meaningful. The level's executable mutation code is specified
//! against these definitions, and the undo/redo round-trip theorems are
//! proved about them.

use vstd::prelude::*;

use crate::change::ChangeView;
use crate::change::Move;
use crate::change::Returning;
use crate::change::Summoning;
use crate::geom::Coords;
use crate::object::Character;
use crate::object::Id;
use crate::object::LevelObject;
use crate::object::Object;
use crate::object::Tile;

verus! {

/// The time-varying part of a level: dimensions, tiles, and the objects by
/// id. Ids are natural numbers small enough for `u32`; an id absent from
/// `objects` is either not yet allocated or belongs to a character that has
/// returned.
#[verifier::ext_equal]
pub struct GameState {
    pub width: int,
    pub height: int,
    pub tiles: Seq<Tile>,
    pub objects: Map<int, LevelObject>,
}

impl GameState {
    /// Whether `c` lies on the grid.
    pub open spec fn in_bounds(self, c: Coords) -> bool {
        0 <= c.row < self.height && 0 <= c.col < self.width
    }

    /// The row-major index of the tile at `c`.
    pub open spec fn tile_index(self, c: Coords) -> int {
        c.row * self.width + c.col
    }

    /// Whether some object occupies `c`.
    pub open spec fn occupied(self, c: Coords) -> bool {
        exists|i: int| #[trigger] self.objects.dom().contains(i) && self.objects[i].coords == c
    }

    /// The id of the object occupying `c`.
    pub open spec fn id_at(self, c: Coords) -> int {
        choose|i: int| #[trigger] self.objects.dom().contains(i) && self.objects[i].coords == c
    }

    /// Whether id `i` is a live character.
    pub open spec fn is_character(self, i: int) -> bool {
        self.objects.dom().contains(i) && self.objects[i].object is Character
    }

    /// The character with id `i`.
    pub open spec fn character(self, i: int) -> Character {
        self.objects[i].object->Character_0
    }

    /// Internal consistency: the tile grid matches the dimensions, ids fit
    /// in `u32` and match their objects, every object stands on the grid,
    /// and no two objects share a cell.
    pub open spec fn wf(self) -> bool {
        &&& 0 <= self.width <= i32::MAX
        &&& 0 <= self.height <= i32::MAX
        &&& self.tiles.len() == self.width * self.height
        &&& forall|i: int| #[trigger]
            self.objects.dom().contains(i) ==> 0 <= i <= u32::MAX && self.objects[i].id.0 == i
                && self.in_bounds(self.objects[i].coords)
        &&& forall|i: int, j: int|
            self.objects.dom().contains(i) && self.objects.dom().contains(j) && i != j
                ==> #[trigger] self.objects[i].coords != #[trigger] self.objects[j].coords
    }
}

/// Distinct in-bounds coordinates have distinct row-major tile indices.
pub proof fn lemma_tile_index_injective(s: GameState, a: Coords, b: Coords)
    requires
        s.in_bounds(a),
        s.in_bounds(b),
        s.tile_index(a) == s.tile_index(b),
    ensures
        a == b,
{
    assert(a.row == b.row) by (nonlinear_arith)
        requires
            0 <= a.col < s.width,
            0 <= b.col < s.width,
            0 <= a.row,
            0 <= b.row,
            a.row * s.width + a.col == b.row * s.width + b.col,
    ;
}

/// A tile index of an in-bounds coordinate is an index into the grid.
pub proof fn lemma_tile_index_bounds(s: GameState, c: Coords)
    requires
        s.tiles.len() == s.width * s.height,
        s.in_bounds(c),
    ensures
        0 <= s.tile_index(c) < s.tiles.len(),
{
    assert(0 <= c.row * s.width + c.col < s.width * s.height) by (nonlinear_arith)
        requires
            0 <= c.row < s.height,
            0 <= c.col < s.width,
    ;
}

/// Every tile index names the in-bounds cell it is the row-major index
/// of.
pub proof fn lemma_tile_linear(s: GameState, t: int)
    requires
        0 <= s.width,
        0 <= s.height,
        s.tiles.len() == s.width * s.height,
        0 <= t < s.tiles.len(),
    ensures
        0 <= t / s.width < s.height,
        0 <= t % s.width < s.width,
        (t / s.width) * s.width + (t % s.width) == t,
{
    assert(s.width > 0) by (nonlinear_arith)
        requires
            0 <= s.width,
            0 <= s.height,
            0 <= t < s.width * s.height,
    ;
    assert((t / s.width) * s.width + (t % s.width) == t && 0 <= t % s.width < s.width && 0 <= t
        / s.width < s.height) by (nonlinear_arith)
        requires
            s.width > 0,
            0 <= s.height,
            0 <= t < s.width * s.height,
    ;
}

/// `lo` with its character's portal link replaced by `p`. Non-characters
/// are unchanged.
pub open spec fn with_portal(lo: LevelObject, p: Option<Coords>) -> LevelObject {
    match lo.object {
        Object::Character(ch) => LevelObject {
            id: lo.id,
            object: Object::Character(
                Character { color: ch.color, sliding: ch.sliding, portal_coords: p },
            ),
            coords: lo.coords,
            facing: lo.facing,
        },
        _ => lo,
    }
}

// ---------------------------------------------------------------------------
// Returnings
// ---------------------------------------------------------------------------
/// Whether id `i` is removed by some returning.
pub open spec fn is_returner(rets: Seq<(Id, Returning)>, i: int) -> bool {
    exists|k: int| 0 <= k < rets.len() && #[trigger] rets[k].1.returner.id.0 == i
}

/// Whether id `i` has its portal link cleared by some returning.
pub open spec fn is_ret_linked(rets: Seq<(Id, Returning)>, i: int) -> bool {
    exists|k: int| 0 <= k < rets.len() && #[trigger] rets[k].1.linked_id.0 == i
}

/// Whether some returning closes the portal tile at index `t` of `s`.
pub open spec fn is_ret_tile(s: GameState, rets: Seq<(Id, Returning)>, t: int) -> bool {
    exists|k: int| 0 <= k < rets.len() && #[trigger] s.tile_index(rets[k].1.returner.coords) == t
}

/// When the returnings of a change can be applied to `s`: every returning
/// is keyed by its linked character, every returner is live exactly as
/// recorded, every linked character is live with its portal at the
/// returner's cell, and the entries do not interfere.
pub open spec fn ret_ok(rets: Seq<(Id, Returning)>, s: GameState) -> bool {
    &&& forall|k: int|
        0 <= k < rets.len() ==> {
            let r = (#[trigger] rets[k]).1;
            &&& rets[k].0 == r.linked_id
            &&& s.objects.dom().contains(r.returner.id.0 as int)
            &&& s.objects[r.returner.id.0 as int] == r.returner.spec_to_level_object()
            &&& s.is_character(r.linked_id.0 as int)
            &&& s.character(r.linked_id.0 as int).portal_coords == Some(r.returner.coords)
        }
    &&& forall|k: int, j: int|
        0 <= k < rets.len() && 0 <= j < rets.len() && k != j ==> {
            &&& (#[trigger] rets[k]).1.returner.id != (#[trigger] rets[j]).1.returner.id
            &&& rets[k].1.linked_id != rets[j].1.returner.id
            &&& rets[k].1.linked_id != rets[j].1.linked_id
        }
}

/// The extra condition a freshly produced turn satisfies: each returner
/// stands on an open portal of its own color, so that reversing the
/// returning restores the tile exactly.
pub open spec fn ret_portals_match(rets: Seq<(Id, Returning)>, s: GameState) -> bool {
    forall|k: int|
        0 <= k < rets.len() ==> {
            let r = (#[trigger] rets[k]).1;
            s.tiles[s.tile_index(r.returner.coords)] == (Tile::Floor {
                portal_color: Some(r.returner.character.color),
            })
        }
}

/// The state after the returnings: returners are removed, linked characters
/// unlinked, and the returners' portal tiles closed.
pub open spec fn apply_rets(s: GameState, rets: Seq<(Id, Returning)>) -> GameState {
    GameState {
        width: s.width,
        height: s.height,
        tiles: Seq::new(
            s.tiles.len(),
            |t: int|
                if is_ret_tile(s, rets, t) {
                    Tile::Floor { portal_color: None }
                } else {
                    s.tiles[t]
                },
        ),
        objects: Map::new(
            |i: int| s.objects.dom().contains(i) && !is_returner(rets, i),
            |i: int|
                if is_ret_linked(rets, i) {
                    with_portal(s.objects[i], None)
                } else {
                    s.objects[i]
                },
        ),
    }
}

// ---------------------------------------------------------------------------
// Moves
// ---------------------------------------------------------------------------
/// Whether id `i` is moved by some move entry.
pub open spec fn has_move(moves: Seq<(Id, Move)>, i: int) -> bool {
    exists|k: int| 0 <= k < moves.len() && #[trigger] moves[k].0.0 == i
}

/// The move entry for id `i`.
pub open spec fn move_of(moves: Seq<(Id, Move)>, i: int) -> Move {
    moves[choose|k: int| 0 <= k < moves.len() && #[trigger] moves[k].0.0 == i].1
}

/// When the moves of a change can be applied to `s`: each moved object is
/// live at the move's source with the move's facing, targets are on the
/// grid, and no two objects end up in the same cell.
pub open spec fn mov_ok(moves: Seq<(Id, Move)>, s: GameState) -> bool {
    &&& forall|k: int|
        0 <= k < moves.len() ==> {
            let (id, m) = #[trigger] moves[k];
            &&& s.objects.dom().contains(id.0 as int)
            &&& s.objects[id.0 as int].coords == m.from_coords
            &&& s.objects[id.0 as int].facing == m.from_facing
            &&& s.in_bounds(m.to_coords)
        }
    &&& forall|k: int, j: int|
        0 <= k < moves.len() && 0 <= j < moves.len() && k != j ==> (#[trigger] moves[k]).0 != (
        #[trigger] moves[j]).0 && moves[k].1.to_coords != moves[j].1.to_coords
    &&& forall|k: int, i: int|
        0 <= k < moves.len() && #[trigger] s.objects.dom().contains(i) && !has_move(moves, i)
            ==> s.objects[i].coords != (#[trigger] moves[k]).1.to_coords
}

/// Every move target on the grid is a walkable tile, never a wall: teams
/// only ever advance into cells their walk found open.
pub open spec fn moves_to_floor(moves: Seq<(Id, Move)>, s: GameState) -> bool {
    forall|k: int|
        0 <= k < moves.len() && s.in_bounds((#[trigger] moves[k]).1.to_coords) ==> !(s.tiles[
            s.tile_index(moves[k].1.to_coords)
        ] is Wall)
}

/// The state after the moves: each moved object is at its target with its
/// new facing; everything else is unchanged.
pub open spec fn apply_movs(s: GameState, moves: Seq<(Id, Move)>) -> GameState {
    GameState {
        width: s.width,
        height: s.height,
        tiles: s.tiles,
        objects: Map::new(
            |i: int| s.objects.dom().contains(i),
            |i: int|
                if has_move(moves, i) {
                    LevelObject {
                        id: s.objects[i].id,
                        object: s.objects[i].object,
                        coords: move_of(moves, i).to_coords,
                        facing: move_of(moves, i).to_facing,
                    }
                } else {
                    s.objects[i]
                },
        ),
    }
}

// ---------------------------------------------------------------------------
// Summonings
// ---------------------------------------------------------------------------
/// Whether id `i` is spawned by some summoning.
pub open spec fn is_summon_id(sums: Seq<(Id, Summoning)>, i: int) -> bool {
    exists|k: int| 0 <= k < sums.len() && #[trigger] sums[k].1.summon.id.0 == i
}

/// The summoning that spawns id `i`.
pub open spec fn summoning_of(sums: Seq<(Id, Summoning)>, i: int) -> Summoning {
    sums[choose|k: int| 0 <= k < sums.len() && #[trigger] sums[k].1.summon.id.0 == i].1
}

/// Whether id `i` is linked to a new portal by some summoning.
pub open spec fn is_sum_linked(sums: Seq<(Id, Summoning)>, i: int) -> bool {
    exists|k: int| 0 <= k < sums.len() && #[trigger] sums[k].1.linked_id.0 == i
}

/// The summoning whose linked character is id `i`.
pub open spec fn linking_of(sums: Seq<(Id, Summoning)>, i: int) -> Summoning {
    sums[choose|k: int| 0 <= k < sums.len() && #[trigger] sums[k].1.linked_id.0 == i].1
}

/// Whether some summoning opens a portal on the tile at index `t` of `s`.
pub open spec fn is_sum_tile(s: GameState, sums: Seq<(Id, Summoning)>, t: int) -> bool {
    exists|k: int| 0 <= k < sums.len() && #[trigger] s.tile_index(sums[k].1.summon.coords) == t
}

/// The summoning that opens the portal on the tile at index `t` of `s`.
pub open spec fn sum_tile_of(s: GameState, sums: Seq<(Id, Summoning)>, t: int) -> Summoning {
    sums[choose|k: int|
        0 <= k < sums.len() && #[trigger] s.tile_index(sums[k].1.summon.coords) == t].1
}

/// When the summonings of a change can be applied to `s`: each entry is
/// keyed by its linked character; the summoned id is fresh; the target cell
/// is an open, portal-free, unoccupied floor tile; and the entries do not
/// interfere. The linked character is normally live with no open portal; a
/// summoning may instead be linked to the summon itself (the reverse of a
/// character returning through its own portal), in which case the summon is
/// spawned already carrying the portal link.
pub open spec fn sum_ok(sums: Seq<(Id, Summoning)>, s: GameState) -> bool {
    &&& forall|k: int|
        0 <= k < sums.len() ==> {
            let (id, sm) = #[trigger] sums[k];
            &&& id == sm.linked_id
            &&& if sm.linked_id == sm.summon.id {
                sm.summon.character.portal_coords == Some(sm.summon.coords)
            } else {
                &&& s.is_character(sm.linked_id.0 as int)
                &&& s.character(sm.linked_id.0 as int).portal_coords is None
            }
            &&& !s.objects.dom().contains(sm.summon.id.0 as int)
            &&& sm.summon.id.0 <= u32::MAX
            &&& s.in_bounds(sm.summon.coords)
            &&& s.tiles[s.tile_index(sm.summon.coords)] == (Tile::Floor { portal_color: None })
            &&& !s.occupied(sm.summon.coords)
        }
    &&& forall|k: int, j: int|
        0 <= k < sums.len() && 0 <= j < sums.len() && k != j ==> {
            &&& (#[trigger] sums[k]).1.summon.id != (#[trigger] sums[j]).1.summon.id
            &&& sums[k].1.linked_id != sums[j].1.linked_id
            &&& sums[k].1.summon.coords != sums[j].1.summon.coords
        }
}

/// The state after the summonings: each summon is spawned on a newly opened
/// portal tile of the summoning's color, and each linked character's portal
/// link is set to that cell.
pub open spec fn apply_sums(s: GameState, sums: Seq<(Id, Summoning)>) -> GameState {
    GameState {
        width: s.width,
        height: s.height,
        tiles: Seq::new(
            s.tiles.len(),
            |t: int|
                if is_sum_tile(s, sums, t) {
                    Tile::Floor { portal_color: Some(sum_tile_of(s, sums, t).portal_color) }
                } else {
                    s.tiles[t]
                },
        ),
        objects: Map::new(
            |i: int| s.objects.dom().contains(i) || is_summon_id(sums, i),
            |i: int|
                if is_summon_id(sums, i) {
                    summoning_of(sums, i).summon.spec_to_level_object()
                } else if is_sum_linked(sums, i) {
                    with_portal(s.objects[i], Some(linking_of(sums, i).summon.coords))
                } else {
                    s.objects[i]
                },
        ),
    }
}

// ---------------------------------------------------------------------------
// Whole changes
// ---------------------------------------------------------------------------
/// The state after applying all three phases of `c`, in order.
pub open spec fn apply_change(s: GameState, c: ChangeView) -> GameState {
    apply_sums(apply_movs(apply_rets(s, c.returnings), c.moves), c.summonings)
}

/// When `c` can be applied to `s`: each phase is applicable to the state
/// left by the previous one.
pub open spec fn change_ok(c: ChangeView, s: GameState) -> bool {
    &&& ret_ok(c.returnings, s)
    &&& mov_ok(c.moves, apply_rets(s, c.returnings))
    &&& sum_ok(c.summonings, apply_movs(apply_rets(s, c.returnings), c.moves))
}

/// What a freshly produced forward change satisfies: applicability plus the
/// portal-tile condition that makes the turn exactly reversible.
pub open spec fn change_ok_fwd(c: ChangeView, s: GameState) -> bool {
    &&& change_ok(c, s)
    &&& ret_portals_match(c.returnings, s)
}

} // verus!
