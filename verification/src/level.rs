//! The aggregate root: a level's tiles and objects, its coordinate index,
//! and its undo/redo history.

use vstd::prelude::*;

use crate::change::BiChange;
use crate::change::Change;
use crate::change::ChangeEvent;
use crate::change::ChangeView;
use crate::change::Move;
use crate::change::Returning;
use crate::change::Summoning;
use crate::geom::Coords;
use crate::geom::Offset;
use crate::object::Action;
use crate::object::Character;
use crate::object::Id;
use crate::object::LevelObject;
use crate::object::Object;
use crate::object::Tile;
use crate::state::GameState;
use crate::state::apply_change;
use crate::state::apply_movs;
use crate::state::apply_rets;
use crate::state::apply_sums;
use crate::state::change_ok;
use crate::state::change_ok_fwd;
use crate::state::has_move;
use crate::state::mov_ok;
use crate::state::ret_ok;
use crate::state::sum_ok;
use crate::state::with_portal;
use crate::state::lemma_tile_index_bounds;
use crate::state::lemma_tile_index_injective;
use crate::steps::lemma_mov_take_step;
use crate::steps::lemma_ret_take_step;
use crate::steps::lemma_sum_take_step;
use crate::steps::lemma_take_full;

verus! {

/// The complete state of a level at a single point in time, together with
/// its history of turns.
///
/// Objects are stored in a vector indexed by id; ids are assigned
/// monotonically and never reused, so a returned character leaves an empty
/// slot behind. `occupant` is the derived coordinate index: one entry per
/// tile, mirroring the objects' coordinates.
pub struct Level {
    pub(crate) width: usize,
    pub(crate) height: usize,
    pub(crate) tiles: Vec<Tile>,
    pub(crate) objects: Vec<Option<LevelObject>>,
    pub(crate) occupant: Vec<Option<u32>>,
    /// History of the level's turns, for seeking backward and forward in
    /// time.
    pub(crate) history: Vec<BiChange>,
    pub(crate) turn: usize,
    /// The level states before and after each recorded turn.
    pub(crate) snaps: Ghost<Seq<GameState>>,
}

/// Every summoned id of a change lies below `n`.
pub open spec fn change_ids_bound(c: ChangeView, n: int) -> bool {
    forall|k: int|
        0 <= k < c.summonings.len() ==> (#[trigger] c.summonings[k]).1.summon.id.0 < n
}

impl Level {
    /// The mathematical level state: dimensions, tiles, and the live
    /// objects by id.
    pub closed spec fn game(&self) -> GameState {
        GameState {
            width: self.width as int,
            height: self.height as int,
            tiles: self.tiles@,
            objects: Map::new(
                |i: int| 0 <= i < self.objects@.len() && self.objects@[i] is Some,
                |i: int| self.objects@[i]->0,
            ),
        }
    }

    /// The number of object ids allocated so far.
    pub closed spec fn allocated(&self) -> int {
        self.objects@.len() as int
    }

    /// The turn cursor: how many recorded turns lie in the past.
    pub closed spec fn turn(&self) -> int {
        self.turn as int
    }

    /// The number of recorded turns, past and future.
    pub closed spec fn history_len(&self) -> int {
        self.history@.len() as int
    }

    /// The forward change of recorded turn `i`.
    pub closed spec fn history_at(&self, i: int) -> ChangeView {
        self.history@[i].forward@
    }

    /// The level state before recorded turn `i` (and after turn `i - 1`).
    pub closed spec fn snapshot(&self, i: int) -> GameState {
        self.snaps@[i]
    }

    /// The dimensional part of the structural invariant: the grids match
    /// the stated width and height, and the id space fits in `u32`.
    pub closed spec fn dims_wf(&self) -> bool {
        &&& self.width <= 0x0FFF_FFFF
        &&& self.height <= 0x0FFF_FFFF
        &&& self.tiles@.len() == self.width * self.height
        &&& self.occupant@.len() == self.tiles@.len()
        &&& self.objects@.len() <= u32::MAX + 1
    }

    /// The structural invariant of the mutable state: dimensions match the
    /// grids, objects sit in their own slots on the grid, and the
    /// coordinate index mirrors them exactly.
    pub closed spec fn state_wf(&self) -> bool {
        &&& self.dims_wf()
        &&& forall|i: int|
            0 <= i < self.objects@.len() && self.objects@[i] is Some ==> {
                let lo = (#[trigger] self.objects@[i])->0;
                &&& lo.id.0 == i
                &&& self.game().in_bounds(lo.coords)
                &&& self.occupant@[self.game().tile_index(lo.coords)] == Some(i as u32)
            }
        &&& forall|t: int|
            0 <= t < self.occupant@.len() && self.occupant@[t] is Some ==> {
                let i = (#[trigger] self.occupant@[t])->0 as int;
                &&& 0 <= i < self.objects@.len()
                &&& self.objects@[i] is Some
                &&& self.game().tile_index(self.objects@[i]->0.coords) == t
            }
    }

    /// The history invariant: the snapshots chain the recorded turns
    /// together, the current state is the snapshot at the turn cursor, and
    /// every stored reverse is the exact reverse of its forward change.
    pub closed spec fn chain_wf(&self) -> bool {
        &&& self.snaps@.len() == self.history@.len() + 1
        &&& self.turn <= self.history@.len()
        &&& self.snaps@[self.turn as int] == self.game()
        &&& forall|i: int| 0 <= i <= self.history@.len() ==> (#[trigger] self.snaps@[i]).wf()
        &&& forall|i: int|
            0 <= i <= self.history@.len() ==> (#[trigger] self.snaps@[i]).objects.dom() <= Set::new(
                |j: int| 0 <= j < self.objects@.len(),
            )
        &&& forall|i: int|
            0 <= i < self.history@.len() ==> {
                let b = #[trigger] self.history@[i];
                &&& change_ok_fwd(b.forward@, self.snaps@[i])
                &&& self.snaps@[i + 1] == apply_change(self.snaps@[i], b.forward@)
                &&& b.reverse@ == b.forward@.reverse()
                &&& change_ids_bound(b.forward@, self.objects@.len() as int)
            }
    }

    /// The full invariant every public operation preserves.
    pub closed spec fn wf(&self) -> bool {
        self.state_wf() && self.chain_wf()
    }

    /// The snapshot at the turn cursor is the current state, and the
    /// cursor lies within the recorded history.
    pub proof fn lemma_current_snapshot(&self)
        requires
            self.wf(),
        ensures
            self.snapshot(self.turn()) == self.game(),
            0 <= self.turn() <= self.history_len(),
            self.game().wf(),
    {
        self.lemma_game_wf();
    }

    /// A structurally sound level is mathematically well-formed.
    proof fn lemma_game_wf(&self)
        requires
            self.state_wf(),
        ensures
            self.game().wf(),
    {
        let g = self.game();
        assert forall|i: int, j: int|
            g.objects.dom().contains(i) && g.objects.dom().contains(j) && i
                != j implies #[trigger] g.objects[i].coords != #[trigger] g.objects[j].coords by {
            if g.objects[i].coords == g.objects[j].coords {
                assert(self.occupant@[g.tile_index(self.objects@[i]->0.coords)] == Some(i as u32));
                assert(self.occupant@[g.tile_index(self.objects@[j]->0.coords)] == Some(j as u32));
            }
        }
    }

    /// The number of columns in the level.
    pub fn width(&self) -> (w: usize)
        ensures
            w == self.game().width,
    {
        self.width
    }

    /// The number of rows in the level.
    pub fn height(&self) -> (h: usize)
        ensures
            h == self.game().height,
    {
        self.height
    }

    /// The index of the tile at `coords`.
    fn tile_idx(&self, coords: Coords) -> (t: usize)
        requires
            self.dims_wf(),
            self.game().in_bounds(coords),
        ensures
            t == self.game().tile_index(coords),
            t < self.tiles@.len(),
    {
        proof {
            lemma_tile_index_bounds(self.game(), coords);
            assert((coords.row as int) * (self.width as int) + (coords.col as int)
                < self.tiles@.len());
            assert((coords.row as int) * (self.width as int) <= (coords.row as int) * (
            self.width as int) + (coords.col as int));
        }
        let n = self.tiles.len();
        coords.row as usize * self.width + coords.col as usize
    }

    /// The tile at `coords`.
    pub fn tile_at(&self, coords: Coords) -> (t: Tile)
        requires
            self.state_wf(),
            self.game().in_bounds(coords),
        ensures
            t == self.game().tiles[self.game().tile_index(coords)],
    {
        let idx = self.tile_idx(coords);
        self.tiles[idx]
    }

    /// Replaces the tile at `coords`, leaving objects and history fields
    /// untouched.
    fn set_tile_internal(&mut self, coords: Coords, tile: Tile)
        requires
            old(self).state_wf(),
            old(self).game().in_bounds(coords),
        ensures
            final(self).state_wf(),
            final(self).game().tiles == old(self).game().tiles.update(
                old(self).game().tile_index(coords),
                tile,
            ),
            final(self).game().objects == old(self).game().objects,
            final(self).game().width == old(self).game().width,
            final(self).game().height == old(self).game().height,
            final(self).objects@ == old(self).objects@,
            final(self).history@ == old(self).history@,
            final(self).turn == old(self).turn,
            final(self).snaps == old(self).snaps,
    {
        let idx = self.tile_idx(coords);
        self.tiles.set(idx, tile);
        proof {
            assert(final(self).game().objects =~= old(self).game().objects);
        }
    }

    /// Replaces the portal link of the character in slot `i`, leaving its
    /// cell and everything else unchanged.
    fn set_portal(&mut self, i: usize, p: Option<Coords>)
        requires
            old(self).state_wf(),
            i < old(self).objects@.len(),
            old(self).objects@[i as int] is Some,
            old(self).objects@[i as int]->0.object is Character,
        ensures
            final(self).state_wf(),
            final(self).game().objects == old(self).game().objects.insert(
                i as int,
                with_portal(old(self).game().objects[i as int], p),
            ),
            final(self).game().tiles == old(self).game().tiles,
            final(self).game().width == old(self).game().width,
            final(self).game().height == old(self).game().height,
            final(self).objects@.len() == old(self).objects@.len(),
            final(self).history@ == old(self).history@,
            final(self).turn == old(self).turn,
            final(self).snaps == old(self).snaps,
    {
        let lo = self.objects[i].unwrap();
        let updated = match lo.object {
            Object::Character(ch) => LevelObject {
                id: lo.id,
                object: Object::Character(
                    Character { color: ch.color, sliding: ch.sliding, portal_coords: p },
                ),
                coords: lo.coords,
                facing: lo.facing,
            },
            _ => lo,
        };
        self.objects.set(i, Some(updated));
        proof {
            assert(final(self).game().objects =~= old(self).game().objects.insert(
                i as int,
                with_portal(old(self).game().objects[i as int], p),
            ));
        }
    }

    /// Removes the object at `coords`, if any, from the level and from
    /// the coordinate index. An empty cell is left alone, so removing
    /// twice at the same coords equals removing once.
    fn remove_at(&mut self, coords: Coords)
        requires
            old(self).state_wf(),
            old(self).game().in_bounds(coords),
        ensures
            final(self).state_wf(),
            old(self).game().occupied(coords) ==> final(self).game().objects == old(
                self,
            ).game().objects.remove(old(self).game().id_at(coords)),
            !old(self).game().occupied(coords) ==> *final(self) == *old(self),
            final(self).game().tiles == old(self).game().tiles,
            final(self).game().width == old(self).game().width,
            final(self).game().height == old(self).game().height,
            final(self).objects@.len() == old(self).objects@.len(),
            final(self).history@ == old(self).history@,
            final(self).turn == old(self).turn,
            final(self).snaps == old(self).snaps,
    {
        let ghost g = old(self).game();
        let t = self.tile_idx(coords);
        if self.occupant[t].is_none() {
            proof {
                if g.occupied(coords) {
                    let w = choose|w: int| #[trigger] g.objects.dom().contains(w)
                        && g.objects[w].coords == coords;
                    assert(self.occupant@[g.tile_index(g.objects[w].coords)] == Some(w as u32));
                }
            }
            return ;
        }
        proof {
            assert(g.occupied(coords)) by {
                let i = self.occupant@[t as int]->0 as int;
                assert(g.objects.dom().contains(i) && g.objects[i].coords == coords) by {
                    lemma_tile_index_injective(g, g.objects[i].coords, coords);
                }
            }
            let w = choose|w: int| #[trigger] g.objects.dom().contains(w) && g.objects[w].coords
                == coords;
            assert(self.occupant@[g.tile_index(g.objects[w].coords)] == Some(w as u32));
            assert(self.occupant@[t as int] is Some);
        }
        let id = self.occupant[t].unwrap();
        proof {
            self.lemma_game_wf();
            let w = choose|w: int| #[trigger] g.objects.dom().contains(w) && g.objects[w].coords
                == coords;
            lemma_tile_index_injective(g, g.objects[id as int].coords, coords);
            assert(w == id as int);
            assert(g.id_at(coords) == id as int);
        }
        self.objects.set(id as usize, None);
        self.occupant.set(t, None);
        proof {
            assert forall|i: int|
                0 <= i < self.objects@.len() && self.objects@[i] is Some implies {
                let lo2 = (#[trigger] self.objects@[i])->0;
                &&& lo2.id.0 == i
                &&& self.game().in_bounds(lo2.coords)
                &&& self.occupant@[self.game().tile_index(lo2.coords)] == Some(i as u32)
            } by {
                let lo2 = self.objects@[i]->0;
                assert(old(self).objects@[i] == self.objects@[i]);
                lemma_tile_index_bounds(g, lo2.coords);
                if g.tile_index(lo2.coords) == t {
                    assert(old(self).occupant@[t as int] == Some(i as u32));
                }
            }
            assert(final(self).game().objects =~= old(self).game().objects.remove(
                g.id_at(coords),
            ));
        }
    }

    /// Spawns `lo` into its (currently free) slot and registers it in the
    /// coordinate index. The target cell must be free.
    fn spawn(&mut self, lo: LevelObject)
        requires
            old(self).state_wf(),
            lo.id.0 < old(self).objects@.len(),
            old(self).objects@[lo.id.0 as int] is None,
            old(self).game().in_bounds(lo.coords),
            !old(self).game().occupied(lo.coords),
        ensures
            final(self).state_wf(),
            final(self).game().objects == old(self).game().objects.insert(lo.id.0 as int, lo),
            final(self).game().tiles == old(self).game().tiles,
            final(self).game().width == old(self).game().width,
            final(self).game().height == old(self).game().height,
            final(self).objects@.len() == old(self).objects@.len(),
            final(self).history@ == old(self).history@,
            final(self).turn == old(self).turn,
            final(self).snaps == old(self).snaps,
    {
        let ghost g = old(self).game();
        let t = self.tile_idx(lo.coords);
        proof {
            if self.occupant@[t as int] is Some {
                let i = self.occupant@[t as int]->0 as int;
                lemma_tile_index_injective(g, g.objects[i].coords, lo.coords);
                assert(g.objects.dom().contains(i) && g.objects[i].coords == lo.coords);
            }
        }
        proof {
            assert(self.occupant@[t as int] is None);
        }
        self.objects.set(lo.id.0 as usize, Some(lo));
        self.occupant.set(t, Some(lo.id.0));
        proof {
            assert forall|i: int|
                0 <= i < self.objects@.len() && self.objects@[i] is Some implies {
                let lo2 = (#[trigger] self.objects@[i])->0;
                &&& lo2.id.0 == i
                &&& self.game().in_bounds(lo2.coords)
                &&& self.occupant@[self.game().tile_index(lo2.coords)] == Some(i as u32)
            } by {
                if i != lo.id.0 as int {
                    let lo2 = self.objects@[i]->0;
                    assert(old(self).objects@[i] == self.objects@[i]);
                    lemma_tile_index_bounds(g, lo2.coords);
                    if g.tile_index(lo2.coords) == t {
                        assert(old(self).occupant@[t as int] == Some(i as u32));
                    }
                } else {
                    lemma_tile_index_bounds(g, lo.coords);
                }
            }
            assert(final(self).game().objects =~= old(self).game().objects.insert(
                lo.id.0 as int,
                lo,
            ));
        }
    }

    /// Allocates a fresh object id. The new slot is empty, so the
    /// mathematical state is unchanged.
    pub(crate) fn alloc_object_id(&mut self) -> (id: u32)
        requires
            old(self).state_wf(),
            old(self).objects@.len() <= u32::MAX,
        ensures
            final(self).state_wf(),
            id == old(self).objects@.len(),
            final(self).objects@.len() == old(self).objects@.len() + 1,
            final(self).game() == old(self).game(),
            final(self).history@ == old(self).history@,
            final(self).turn == old(self).turn,
            final(self).snaps == old(self).snaps,
    {
        let id = self.objects.len() as u32;
        self.objects.push(None);
        proof {
            assert(final(self).game().objects =~= old(self).game().objects);
            assert(final(self).game() =~= old(self).game());
        }
        id
    }

    /// Applies `rets` to the level state: for each returning, the linked
    /// character is unlinked from its portal, the returner is removed, and
    /// the portal tile is closed.
    fn apply_returnings_exec(&mut self, rets: &Vec<(Id, Returning)>)
        requires
            old(self).state_wf(),
            ret_ok(rets@, old(self).game()),
        ensures
            final(self).state_wf(),
            final(self).game() == apply_rets(old(self).game(), rets@),
            final(self).objects@.len() == old(self).objects@.len(),
            final(self).history@ == old(self).history@,
            final(self).turn == old(self).turn,
            final(self).snaps == old(self).snaps,
    {
        let ghost g0 = old(self).game();
        proof {
            self.lemma_game_wf();
            assert(apply_rets(g0, rets@.take(0)).tiles =~= g0.tiles);
            assert(apply_rets(g0, rets@.take(0)).objects =~= g0.objects);
            assert(apply_rets(g0, rets@.take(0)) =~= g0);
        }
        let mut k: usize = 0;
        while k < rets.len()
            invariant
                self.state_wf(),
                g0.wf(),
                ret_ok(rets@, g0),
                k <= rets@.len(),
                self.game() == apply_rets(g0, rets@.take(k as int)),
                self.objects@.len() == old(self).objects@.len(),
                self.history@ == old(self).history@,
                self.turn == old(self).turn,
                self.snaps == old(self).snaps,
            decreases rets@.len() - k,
        {
            proof {
                lemma_ret_take_step(g0, rets@, k as int);
            }
            let r = rets[k].1;
            let ghost sk = self.game();
            let ghost rid = r.returner.id.0 as int;
            let ghost l = r.linked_id.0 as int;
            self.set_portal(r.linked_id.0 as usize, None);
            proof {
                self.lemma_game_wf();
                assert(self.game().objects.dom().contains(rid));
                assert(self.game().objects[rid].coords == r.returner.coords);
                assert(self.game().occupied(r.returner.coords));
                let w = choose|w: int| #[trigger] self.game().objects.dom().contains(w)
                    && self.game().objects[w].coords == r.returner.coords;
                assert(w == rid);
                assert(self.game().id_at(r.returner.coords) == rid);
            }
            self.remove_at(r.returner.coords);
            self.set_tile_internal(r.returner.coords, Tile::Floor { portal_color: None });
            proof {
                assert(self.game().objects == sk.objects.insert(
                    l,
                    with_portal(sk.objects[l], None),
                ).remove(rid));
                assert(self.game().tiles == sk.tiles.update(
                    g0.tile_index(r.returner.coords),
                    Tile::Floor { portal_color: None },
                ));
                assert(self.game() =~= apply_rets(g0, rets@.take(k as int + 1)));
            }
            k += 1;
        }
        proof {
            lemma_take_full(rets@);
        }
    }

    /// Applies `sums` to the level state: for each summoning, the portal
    /// tile is opened, the summon is spawned onto it, and the linked
    /// character's portal link is set to the cell. Slots for all summoned
    /// ids must already be allocated.
    fn apply_summonings_exec(&mut self, sums: &Vec<(Id, Summoning)>)
        requires
            old(self).state_wf(),
            sum_ok(sums@, old(self).game()),
            change_ids_bound(
                ChangeView {
                    returnings: Seq::empty(),
                    moves: Seq::empty(),
                    summonings: sums@,
                },
                old(self).objects@.len() as int,
            ),
        ensures
            final(self).state_wf(),
            final(self).game() == apply_sums(old(self).game(), sums@),
            final(self).objects@.len() == old(self).objects@.len(),
            final(self).history@ == old(self).history@,
            final(self).turn == old(self).turn,
            final(self).snaps == old(self).snaps,
    {
        let ghost g0 = old(self).game();
        let ghost bound = ChangeView {
            returnings: Seq::empty(),
            moves: Seq::empty(),
            summonings: sums@,
        };
        proof {
            self.lemma_game_wf();
            assert(apply_sums(g0, sums@.take(0)).tiles =~= g0.tiles);
            assert(apply_sums(g0, sums@.take(0)).objects =~= g0.objects);
            assert(apply_sums(g0, sums@.take(0)) =~= g0);
        }
        let mut k: usize = 0;
        while k < sums.len()
            invariant
                self.state_wf(),
                g0.wf(),
                sum_ok(sums@, g0),
                change_ids_bound(bound, old(self).objects@.len() as int),
                bound.summonings == sums@,
                k <= sums@.len(),
                self.game() == apply_sums(g0, sums@.take(k as int)),
                self.objects@.len() == old(self).objects@.len(),
                self.history@ == old(self).history@,
                self.turn == old(self).turn,
                self.snaps == old(self).snaps,
            decreases sums@.len() - k,
        {
            proof {
                lemma_sum_take_step(g0, sums@, k as int);
            }
            let sm = sums[k].1;
            let ghost sk = self.game();
            let ghost sid = sm.summon.id.0 as int;
            let ghost l = sm.linked_id.0 as int;
            proof {
                assert(bound.summonings[k as int].1.summon.id.0 < old(self).objects@.len());
            }
            self.set_tile_internal(
                sm.summon.coords,
                Tile::Floor { portal_color: Some(sm.portal_color) },
            );
            let summon_object = sm.summon.to_level_object();
            proof {
                assert(!self.game().occupied(sm.summon.coords)) by {
                    if self.game().occupied(sm.summon.coords) {
                        let w = choose|w: int| #[trigger] self.game().objects.dom().contains(w)
                            && self.game().objects[w].coords == sm.summon.coords;
                        assert(sk.objects.dom().contains(w) && sk.objects[w].coords
                            == sm.summon.coords);
                    }
                }
            }
            self.spawn(summon_object);
            proof {
                assert(self.game().objects.dom().contains(l));
                if l != sid {
                    assert(self.game().objects[l] == sk.objects[l]);
                }
                assert(self.game().objects[l].object is Character);
            }
            self.set_portal(sm.linked_id.0 as usize, Some(sm.summon.coords));
            proof {
                assert(self.game().objects == sk.objects.insert(sid, summon_object).insert(
                    l,
                    with_portal(
                        sk.objects.insert(sid, summon_object)[l],
                        Some(sm.summon.coords),
                    ),
                ));
                assert(self.game().tiles == sk.tiles.update(
                    g0.tile_index(sm.summon.coords),
                    Tile::Floor { portal_color: Some(sm.portal_color) },
                ));
                assert(self.game() =~= apply_sums(g0, sums@.take(k as int + 1)));
            }
            k += 1;
        }
        proof {
            lemma_take_full(sums@);
        }
    }

    /// Applies `moves` to the level state. To make sure every target cell
    /// is open, all movers are first removed from the coordinate index;
    /// they are then placed into their new cells.
    #[verifier::rlimit(50)]
    fn apply_moves_exec(&mut self, moves: &Vec<(Id, Move)>)
        requires
            old(self).state_wf(),
            mov_ok(moves@, old(self).game()),
        ensures
            final(self).state_wf(),
            final(self).game() == apply_movs(old(self).game(), moves@),
            final(self).objects@.len() == old(self).objects@.len(),
            final(self).history@ == old(self).history@,
            final(self).turn == old(self).turn,
            final(self).snaps == old(self).snaps,
    {
        let ghost g0 = old(self).game();
        proof {
            self.lemma_game_wf();
        }
        let mut k: usize = 0;
        while k < moves.len()
            invariant
                self.dims_wf(),
                g0.wf(),
                mov_ok(moves@, g0),
                k <= moves@.len(),
                self.width == old(self).width,
                self.height == old(self).height,
                self.tiles@ == old(self).tiles@,
                self.objects@ == old(self).objects@,
                self.occupant@.len() == old(self).occupant@.len(),
                self.game() == g0,
                forall|t: int|
                    0 <= t < self.occupant@.len() && (#[trigger] self.occupant@[t]) is Some ==> {
                        let i = self.occupant@[t]->0 as int;
                        &&& 0 <= i < self.objects@.len()
                        &&& self.objects@[i] is Some
                        &&& g0.tile_index(self.objects@[i]->0.coords) == t
                        &&& !has_move(moves@.take(k as int), i)
                    },
                forall|i: int|
                    0 <= i < self.objects@.len() && (#[trigger] self.objects@[i]) is Some
                        && !has_move(moves@.take(k as int), i)
                        ==> self.occupant@[g0.tile_index(self.objects@[i]->0.coords)] == Some(
                        i as u32,
                    ),
                self.history@ == old(self).history@,
                self.turn == old(self).turn,
                self.snaps == old(self).snaps,
            decreases moves@.len() - k,
        {
            let m = moves[k].1;
            let ghost id = moves@[k as int].0.0 as int;
            proof {
                assert(g0.objects.dom().contains(id));
                assert(!has_move(moves@.take(k as int), id)) by {
                    if has_move(moves@.take(k as int), id) {
                        let j = choose|j: int|
                            0 <= j < moves@.take(k as int).len() && #[trigger] moves@.take(
                                k as int,
                            )[j].0.0 == id;
                        assert(moves@[j].0 != moves@[k as int].0);
                    }
                }
                lemma_tile_index_bounds(g0, m.from_coords);
            }
            let t = self.tile_idx(m.from_coords);
            self.occupant.set(t, None);
            proof {
                assert forall|i: int|
                    0 <= i < self.objects@.len() && (#[trigger] self.objects@[i]) is Some
                        && !has_move(moves@.take(k as int + 1), i)
                        implies self.occupant@[g0.tile_index(self.objects@[i]->0.coords)]
                        == Some(i as u32) by {
                    assert(!has_move(moves@.take(k as int), i)) by {
                        if has_move(moves@.take(k as int), i) {
                            let j = choose|j: int|
                                0 <= j < moves@.take(k as int).len() && #[trigger] moves@.take(
                                    k as int,
                                )[j].0.0 == i;
                            assert(moves@.take(k as int + 1)[j].0.0 == i);
                        }
                    }
                    assert(i != id) by {
                        assert(moves@.take(k as int + 1)[k as int].0.0 == id);
                    }
                    lemma_tile_index_bounds(g0, self.objects@[i]->0.coords);
                    if g0.tile_index(self.objects@[i]->0.coords) == t {
                        assert(old(self).occupant@[t as int] == Some(i as u32));
                        assert(g0.objects.dom().contains(i) && g0.objects[i].coords
                            == self.objects@[i]->0.coords);
                        assert(g0.objects[id].coords == m.from_coords);
                        lemma_tile_index_injective(g0, g0.objects[i].coords, m.from_coords);
                    }
                }
                assert forall|t2: int|
                    0 <= t2 < self.occupant@.len() && (#[trigger] self.occupant@[t2]) is Some
                        implies {
                    let i = self.occupant@[t2]->0 as int;
                    &&& 0 <= i < self.objects@.len()
                    &&& self.objects@[i] is Some
                    &&& g0.tile_index(self.objects@[i]->0.coords) == t2
                    &&& !has_move(moves@.take(k as int + 1), i)
                } by {
                    let i = self.occupant@[t2]->0 as int;
                    assert(t2 != t);
                    assert(!has_move(moves@.take(k as int), i));
                    if has_move(moves@.take(k as int + 1), i) {
                        let j = choose|j: int|
                            0 <= j < moves@.take(k as int + 1).len() && #[trigger] moves@.take(
                                k as int + 1,
                            )[j].0.0 == i;
                        if j < k {
                            assert(moves@.take(k as int)[j].0.0 == i);
                        } else {
                            assert(i == id);
                            assert(g0.tile_index(g0.objects[id].coords) == t);
                        }
                    }
                }
            }
            k += 1;
        }
        proof {
            lemma_take_full(moves@);
        }
        let mut k: usize = 0;
        while k < moves.len()
            invariant
                self.dims_wf(),
                g0.wf(),
                mov_ok(moves@, g0),
                k <= moves@.len(),
                self.width == old(self).width,
                self.height == old(self).height,
                self.tiles@ == old(self).tiles@,
                self.objects@.len() == old(self).objects@.len(),
                self.occupant@.len() == old(self).occupant@.len(),
                self.game().width == g0.width,
                self.game().height == g0.height,
                self.game().tiles == g0.tiles,
                self.game().objects == apply_movs(g0, moves@.take(k as int)).objects,
                forall|t: int|
                    0 <= t < self.occupant@.len() && (#[trigger] self.occupant@[t]) is Some ==> {
                        let i = self.occupant@[t]->0 as int;
                        &&& 0 <= i < self.objects@.len()
                        &&& self.objects@[i] is Some
                        &&& g0.tile_index(self.objects@[i]->0.coords) == t
                        &&& (has_move(moves@, i) ==> has_move(moves@.take(k as int), i))
                    },
                forall|i: int|
                    0 <= i < self.objects@.len() && (#[trigger] self.objects@[i]) is Some ==> ((
                    has_move(moves@, i) && !has_move(moves@.take(k as int), i)) || self.occupant@[
                        g0.tile_index(self.objects@[i]->0.coords)
                    ] == Some(i as u32)),
                self.history@ == old(self).history@,
                self.turn == old(self).turn,
                self.snaps == old(self).snaps,
            decreases moves@.len() - k,
        {
            proof {
                lemma_mov_take_step(g0, moves@, k as int);
            }
            let entry = moves[k];
            let m = entry.1;
            let ghost id = entry.0.0 as int;
            let ghost sk = apply_movs(g0, moves@.take(k as int));
            proof {
                assert(g0.objects.dom().contains(id));
                assert(self.game().objects.dom().contains(id));
                assert(self.game().objects[id] == g0.objects[id]);
                assert(has_move(moves@, id)) by {
                    assert(moves@[k as int].0.0 == id);
                }
                assert(!has_move(moves@.take(k as int), id)) by {
                    if has_move(moves@.take(k as int), id) {
                        let j = choose|j: int|
                            0 <= j < moves@.take(k as int).len() && #[trigger] moves@.take(
                                k as int,
                            )[j].0.0 == id;
                        assert(moves@[j].0 != moves@[k as int].0);
                    }
                }
                lemma_tile_index_bounds(g0, m.to_coords);
            }
            let lo = self.objects[entry.0.0 as usize].unwrap();
            let moved = LevelObject {
                id: lo.id,
                object: lo.object,
                coords: m.to_coords,
                facing: m.to_facing,
            };
            let t = self.tile_idx(m.to_coords);
            let ghost occ_before = self.occupant@;
            let ghost obj_before = self.objects@;
            self.objects.set(entry.0.0 as usize, Some(moved));
            self.occupant.set(t, Some(entry.0.0));
            proof {
                assert(self.game().objects =~= apply_movs(g0, moves@.take(k as int + 1)).objects);
                assert forall|t2: int|
                    0 <= t2 < self.occupant@.len() && (#[trigger] self.occupant@[t2]) is Some
                        implies {
                    let i = self.occupant@[t2]->0 as int;
                    &&& 0 <= i < self.objects@.len()
                    &&& self.objects@[i] is Some
                    &&& g0.tile_index(self.objects@[i]->0.coords) == t2
                    &&& (has_move(moves@, i) ==> has_move(moves@.take(k as int + 1), i))
                } by {
                    let i = self.occupant@[t2]->0 as int;
                    if t2 == t {
                        assert(i == id);
                        assert(moves@.take(k as int + 1)[k as int].0.0 == id);
                    } else {
                        assert(occ_before[t2] == self.occupant@[t2]);
                        assert(i != id) by {
                            if i == id {
                                // Before this step the mover had no index
                                // entry: it moves but is not yet placed.
                                assert(obj_before[i] is Some);
                                assert((has_move(moves@, i) && !has_move(
                                    moves@.take(k as int),
                                    i,
                                )) || occ_before[g0.tile_index(obj_before[i]->0.coords)] == Some(
                                    i as u32,
                                ));
                            }
                        }
                        assert(self.objects@[i] == obj_before[i]);
                        if has_move(moves@, i) {
                            assert(has_move(moves@.take(k as int), i));
                            let j = choose|j: int|
                                0 <= j < moves@.take(k as int).len() && #[trigger] moves@.take(
                                    k as int,
                                )[j].0.0 == i;
                            assert(moves@.take(k as int + 1)[j].0.0 == i);
                        }
                    }
                }
                assert forall|i: int|
                    0 <= i < self.objects@.len() && (#[trigger] self.objects@[i]) is Some implies
                    ((has_move(moves@, i) && !has_move(moves@.take(k as int + 1), i))
                        || self.occupant@[g0.tile_index(self.objects@[i]->0.coords)] == Some(
                        i as u32,
                    )) by {
                    if i == id {
                        assert(self.occupant@[t as int] == Some(entry.0.0));
                    } else {
                        assert(self.objects@[i] == obj_before[i]);
                        assert(!has_move(moves@.take(k as int + 1), i) == !has_move(
                            moves@.take(k as int),
                            i,
                        )) by {
                            if has_move(moves@.take(k as int + 1), i) {
                                let j = choose|j: int|
                                    0 <= j < moves@.take(k as int + 1).len()
                                        && #[trigger] moves@.take(k as int + 1)[j].0.0 == i;
                                if j < k {
                                    assert(moves@.take(k as int)[j].0.0 == i);
                                } else {
                                    assert(i == id);
                                }
                            }
                            if has_move(moves@.take(k as int), i) {
                                let j = choose|j: int|
                                    0 <= j < moves@.take(k as int).len() && #[trigger] moves@.take(
                                        k as int,
                                    )[j].0.0 == i;
                                assert(moves@.take(k as int + 1)[j].0.0 == i);
                            }
                        }
                        if !(has_move(moves@, i) && !has_move(moves@.take(k as int), i)) {
                            // The object already had its index entry; show
                            // the newly written cell is not its tile.
                            assert(sk.objects.dom().contains(i));
                            assert(self.objects@[i]->0 == sk.objects[i]);
                            assert(g0.in_bounds(sk.objects[i].coords)) by {
                                if has_move(moves@.take(k as int), i) {
                                    let jc = choose|jc: int|
                                        0 <= jc < moves@.take(k as int).len()
                                            && #[trigger] moves@.take(k as int)[jc].0.0 == i;
                                    assert(moves@.take(k as int)[jc] == moves@[jc]);
                                    assert(g0.in_bounds(moves@[jc].1.to_coords));
                                    assert(crate::state::move_of(moves@.take(k as int), i)
                                        == moves@.take(k as int)[jc].1);
                                    assert(sk.objects[i].coords == crate::state::move_of(
                                        moves@.take(k as int),
                                        i,
                                    ).to_coords);
                                } else {
                                    assert(sk.objects[i] == g0.objects[i]);
                                }
                            }
                            lemma_tile_index_bounds(g0, self.objects@[i]->0.coords);
                            if g0.tile_index(self.objects@[i]->0.coords) == t {
                                lemma_tile_index_injective(
                                    g0,
                                    self.objects@[i]->0.coords,
                                    m.to_coords,
                                );
                                assert(self.objects@[i]->0.coords == m.to_coords);
                                assert(sk.objects.dom().contains(i));
                                assert(self.objects@[i]->0 == sk.objects[i]);
                                if has_move(moves@, i) {
                                    // A mover already placed sits at its own
                                    // distinct target.
                                    assert(has_move(moves@.take(k as int), i));
                                    let j = choose|j: int|
                                        0 <= j < moves@.take(k as int).len()
                                            && #[trigger] moves@.take(k as int)[j].0.0 == i;
                                    assert(moves@[j].0.0 == i);
                                    let jc = choose|jc: int|
                                        0 <= jc < moves@.take(k as int).len()
                                            && #[trigger] moves@.take(k as int)[jc].0.0 == i;
                                    assert(has_move(moves@.take(k as int), i));
                                    assert(sk.objects[i].coords == crate::state::move_of(
                                        moves@.take(k as int),
                                        i,
                                    ).to_coords);
                                    let jj = choose|jj: int|
                                        0 <= jj < moves@.take(k as int).len()
                                            && #[trigger] moves@.take(k as int)[jj].0.0 == i;
                                    assert(moves@.take(k as int)[jj].1 == moves@[jj].1);
                                    assert(moves@[jj].1.to_coords != moves@[k as int].1.to_coords);
                                    assert(crate::state::move_of(moves@.take(k as int), i)
                                        == moves@.take(k as int)[jj].1);
                                } else {
                                    // A stationary object never sits on a
                                    // move target.
                                    assert(sk.objects[i] == g0.objects[i]);
                                    assert(g0.objects[i].coords != moves@[k as int].1.to_coords);
                                }
                            }
                        }
                    }
                }
            }
            k += 1;
        }
        proof {
            lemma_take_full(moves@);
            assert forall|i: int|
                0 <= i < self.objects@.len() && (#[trigger] self.objects@[i]) is Some implies {
                let lo2 = self.objects@[i]->0;
                &&& lo2.id.0 == i
                &&& self.game().in_bounds(lo2.coords)
                &&& self.occupant@[self.game().tile_index(lo2.coords)] == Some(i as u32)
            } by {
                assert(self.game().objects.dom().contains(i));
                assert(self.game().objects[i] == self.objects@[i]->0);
                if has_move(moves@, i) {
                    assert(!(has_move(moves@, i) && !has_move(
                        moves@.take(moves@.len() as int),
                        i,
                    )));
                }
            }
            assert(self.game() =~= apply_movs(g0, moves@));
        }
    }

    /// Applies `c` to the level state without touching history: the
    /// returnings, then the moves, then the summonings.
    fn apply_change_exec(&mut self, c: &Change)
        requires
            old(self).state_wf(),
            change_ok(c@, old(self).game()),
            change_ids_bound(c@, old(self).objects@.len() as int),
        ensures
            final(self).state_wf(),
            final(self).game() == apply_change(old(self).game(), c@),
            final(self).objects@.len() == old(self).objects@.len(),
            final(self).history@ == old(self).history@,
            final(self).turn == old(self).turn,
            final(self).snaps == old(self).snaps,
    {
        self.apply_returnings_exec(&c.returnings);
        self.apply_moves_exec(&c.moves);
        proof {
            assert forall|k: int|
                0 <= k < (ChangeView {
                    returnings: Seq::empty(),
                    moves: Seq::empty(),
                    summonings: c.summonings@,
                }).summonings.len() implies ((ChangeView {
                returnings: Seq::empty(),
                moves: Seq::empty(),
                summonings: c.summonings@,
            }).summonings[k]).1.summon.id.0 < old(self).objects@.len() by {
                assert((c@.summonings[k]).1.summon.id.0 < old(self).objects@.len() as int);
            }
        }
        self.apply_summonings_exec(&c.summonings);
    }

    /// If possible, moves to the previous level state and returns the
    /// stored reverse change of the turn that was undone. At the start of
    /// history there is nothing to undo and `None` is returned.
    #[verifier::rlimit(50)]
    pub fn undo(&mut self) -> (r: Option<ChangeEvent>)
        requires
            old(self).wf(),
        ensures
            final(self).wf(),
            r is Some <==> old(self).turn() > 0,
            final(self).history_len() == old(self).history_len(),
            forall|i: int|
                0 <= i < old(self).history_len() ==> #[trigger] final(self).history_at(i) == old(
                    self,
                ).history_at(i),
            forall|i: int|
                0 <= i <= old(self).history_len() ==> #[trigger] final(self).snapshot(i) == old(
                    self,
                ).snapshot(i),
            0 <= final(self).turn() <= final(self).history_len(),
            old(self).turn() == 0 ==> final(self).turn() == old(self).turn() && final(self).game()
                == old(self).game(),
            old(self).turn() > 0 ==> {
                &&& final(self).turn() == old(self).turn() - 1
                &&& final(self).game() == old(self).snapshot(old(self).turn() - 1)
                &&& final(self).game() == apply_change(old(self).game(), (r->0).0@)
                &&& (r->0).0@ == old(self).history_at(old(self).turn() - 1).reverse()
            },
    {
        if self.turn > 0 {
            let ghost t = self.turn as int;
            let ghost fwd = self.history@[t - 1].forward@;
            let ghost before = self.snaps@[t - 1];
            proof {
                assert(self.snaps@[t] == self.game());
                assert(change_ok_fwd(fwd, before));
                assert(self.game() == apply_change(before, fwd));
                crate::reversal::lemma_round_trip(before, fwd);
                assert(change_ok(fwd.reverse(), self.game()));
                assert(apply_change(self.game(), fwd.reverse()) == before);
                assert forall|k: int|
                    0 <= k < fwd.reverse().summonings.len() implies (#[trigger] fwd.reverse()
                        .summonings[k]).1.summon.id.0 < self.objects@.len() by {
                    let r2 = fwd.returnings[k].1;
                    assert(fwd.reverse().summonings[k].1.summon.id == r2.returner.id);
                    assert(before.objects.dom().contains(r2.returner.id.0 as int));
                    assert(Set::new(|j: int| 0 <= j < self.objects@.len()).contains(
                        r2.returner.id.0 as int,
                    ));
                }
            }
            let rev = self.history[self.turn - 1].reverse.duplicate();
            self.apply_change_exec(&rev);
            self.turn = self.turn - 1;
            Some(ChangeEvent(rev))
        } else {
            None
        }
    }

    /// If possible, moves to the next level state and returns the stored
    /// forward change of the turn that was redone. At the end of history
    /// there is nothing to redo and `None` is returned.
    pub fn redo(&mut self) -> (r: Option<ChangeEvent>)
        requires
            old(self).wf(),
        ensures
            final(self).wf(),
            r is Some <==> old(self).turn() < old(self).history_len(),
            final(self).history_len() == old(self).history_len(),
            forall|i: int|
                0 <= i < old(self).history_len() ==> #[trigger] final(self).history_at(i) == old(
                    self,
                ).history_at(i),
            forall|i: int|
                0 <= i <= old(self).history_len() ==> #[trigger] final(self).snapshot(i) == old(
                    self,
                ).snapshot(i),
            0 <= final(self).turn() <= final(self).history_len(),
            old(self).turn() == old(self).history_len() ==> final(self).turn() == old(self).turn()
                && final(self).game() == old(self).game(),
            old(self).turn() < old(self).history_len() ==> {
                &&& final(self).turn() == old(self).turn() + 1
                &&& final(self).game() == old(self).snapshot(old(self).turn() + 1)
                &&& final(self).game() == apply_change(old(self).game(), (r->0).0@)
                &&& (r->0).0@ == old(self).history_at(old(self).turn())
            },
    {
        if self.turn < self.history.len() {
            let ghost t = self.turn as int;
            let ghost fwd = self.history@[t].forward@;
            proof {
                assert(self.snaps@[t] == self.game());
                assert(change_ok_fwd(fwd, self.game()));
                assert(self.snaps@[t + 1] == apply_change(self.game(), fwd));
            }
            let fwd_copy = self.history[self.turn].forward.duplicate();
            self.apply_change_exec(&fwd_copy);
            self.turn = self.turn + 1;
            Some(ChangeEvent(fwd_copy))
        } else {
            None
        }
    }

    /// Structural soundness gives a mathematically well-formed state with
    /// small dimensions.
    pub(crate) proof fn lemma_game_props(&self)
        requires
            self.state_wf(),
        ensures
            self.game().wf(),
            crate::team::small_dims(self.game()),
    {
        self.lemma_game_wf();
    }

    /// The id of the object at `coords`, if the cell is occupied.
    pub(crate) fn object_id_at(&self, coords: Coords) -> (r: Option<u32>)
        requires
            self.state_wf(),
            self.game().in_bounds(coords),
        ensures
            r is Some <==> self.game().occupied(coords),
            r is Some ==> r->0 as int == self.game().id_at(coords) && self.game().objects.dom()
                .contains(r->0 as int) && self.game().objects[r->0 as int].coords == coords,
    {
        let ghost g = self.game();
        let t = self.tile_idx(coords);
        let r = self.occupant[t];
        proof {
            self.lemma_game_wf();
            match r {
                Some(id) => {
                    assert(g.objects.dom().contains(id as int));
                    lemma_tile_index_injective(g, g.objects[id as int].coords, coords);
                    assert(g.objects[id as int].coords == coords);
                    assert(g.occupied(coords));
                    let w = choose|w: int| #[trigger] g.objects.dom().contains(w)
                        && g.objects[w].coords == coords;
                    assert(w == id as int);
                },
                None => {
                    if g.occupied(coords) {
                        let w = choose|w: int| #[trigger] g.objects.dom().contains(w)
                            && g.objects[w].coords == coords;
                        assert(self.occupant@[g.tile_index(g.objects[w].coords)] == Some(
                            w as u32,
                        ));
                    }
                },
            }
        }
        r
    }

    /// The number of object ids allocated so far.
    pub(crate) fn allocated_count(&self) -> (n: usize)
        ensures
            n == self.allocated(),
            n == self.objects@.len(),
    {
        self.objects.len()
    }

    /// Live ids lie below the allocation bound, which fits the id type.
    pub(crate) proof fn lemma_dom_bound(&self)
        requires
            self.state_wf(),
        ensures
            forall|i: int| #[trigger]
                self.game().objects.dom().contains(i) ==> 0 <= i < self.objects@.len(),
            self.allocated() == self.objects@.len(),
            self.objects@.len() <= u32::MAX + 1,
    {
    }

    /// The object in slot `id`, if it is live.
    pub(crate) fn object_lookup(&self, id: u32) -> (r: Option<LevelObject>)
        requires
            self.state_wf(),
            id < self.objects@.len(),
        ensures
            r is Some <==> self.game().objects.dom().contains(id as int),
            r is Some ==> r->0 == self.game().objects[id as int],
    {
        self.objects[id as usize]
    }

    /// A copy of the object with id `id`.
    pub(crate) fn object_copy(&self, id: u32) -> (r: LevelObject)
        requires
            self.state_wf(),
            self.game().objects.dom().contains(id as int),
        ensures
            r == self.game().objects[id as int],
    {
        self.objects[id as usize].unwrap()
    }
}

/// The caller's contract for one turn: every actor is a distinct live
/// character, and every push or summon uses one of the four unit
/// directions.
pub open spec fn actors_wf(s: GameState, actors: Seq<(Id, Action)>) -> bool {
    &&& forall|k: int, j: int|
        0 <= k < actors.len() && 0 <= j < actors.len() && k != j ==> (#[trigger] actors[k]).0 != (
        #[trigger] actors[j]).0
    &&& forall|k: int| 0 <= k < actors.len() ==> s.is_character((#[trigger] actors[k]).0.0 as int)
    &&& forall|k: int|
        0 <= k < actors.len() ==> (((#[trigger] actors[k]).1 is Push
            ==> actors[k].1->Push_0.is_unit()) && (actors[k].1 is Summon
            ==> actors[k].1->Summon_0.is_unit()))
}

/// The returnings a turn resolves to: the returners standing on their own
/// portals, or no returnings at all if the result would not be exactly
/// applicable and reversible.
pub open spec fn turn_rets(s0: GameState, actors: Seq<(Id, Action)>) -> Seq<(Id, Returning)> {
    let r = crate::summon::rets_spec(s0, crate::summon::returners_of(actors));
    if ret_ok(r, s0) && crate::state::ret_portals_match(r, s0) {
        r
    } else {
        Seq::empty()
    }
}

/// The moves a turn resolves to: the team resolution of the pushers on the
/// state after the returnings, or no moves at all if the resolution is
/// not exactly applicable. (The pushers always survive the return phase:
/// `update` proves it from the actors being distinct.)
pub open spec fn turn_movs(s0: GameState, actors: Seq<(Id, Action)>) -> Seq<(Id, Move)> {
    let s1 = apply_rets(s0, turn_rets(s0, actors));
    let m = crate::team::resolve_moves(s1, crate::summon::pushers_of(actors));
    if mov_ok(m, s1) && crate::state::moves_to_floor(m, s1) {
        m
    } else {
        Seq::empty()
    }
}

/// The summonings a turn resolves to: each summoner paired with a free
/// color and the farthest open tile in its chosen direction, on the state
/// after returnings and moves; or no summonings at all if the id space is
/// exhausted or the result is not exactly applicable. (The summoners are
/// always live characters here: `update` proves it from the actors being
/// distinct.)
pub open spec fn turn_sums(s0: GameState, actors: Seq<(Id, Action)>, next0: int) -> Seq<
    (Id, Summoning),
> {
    let s2 = apply_movs(apply_rets(s0, turn_rets(s0, actors)), turn_movs(s0, actors));
    if next0 + crate::object::COLOR_COUNT <= u32::MAX + 1 {
        let su = crate::summon::sums_spec(s2, crate::summon::summoners_of(actors), next0);
        if sum_ok(su, s2) {
            su
        } else {
            Seq::empty()
        }
    } else {
        Seq::empty()
    }
}

/// An actor that does not choose to return is not removed by the turn's
/// returnings: every resolved returning removes a distinct actor whose
/// action was `Return`.
proof fn lemma_actor_survives_returns(
    s0: GameState,
    actors: Seq<(Id, Action)>,
    rets: Seq<(Id, Returning)>,
    pid: Id,
)
    requires
        s0.wf(),
        actors_wf(s0, actors),
        rets == turn_rets(s0, actors),
        exists|j: int|
            0 <= j < actors.len() && (#[trigger] actors[j]).0 == pid && !(actors[j].1 is Return),
    ensures
        !crate::state::is_returner(rets, pid.0 as int),
{
    crate::summon::lemma_returners_of_entries(actors);
    let rids = crate::summon::returners_of(actors);
    assert forall|k: int| 0 <= k < rids.len() implies s0.is_character(
        (#[trigger] rids[k]).0 as int,
    ) by {
        let ja = choose|ja: int|
            0 <= ja < actors.len() && actors[ja].0 == rids[k] && actors[ja].1 is Return;
        assert(s0.is_character(actors[ja].0.0 as int));
    }
    crate::summon::lemma_rets_spec_entries(s0, rids);
    if crate::state::is_returner(rets, pid.0 as int) {
        let kk = choose|kk: int|
            0 <= kk < rets.len() && #[trigger] rets[kk].1.returner.id.0 == pid.0;
        assert(rets.len() > 0);
        assert(rets == crate::summon::rets_spec(s0, rids));
        let jj = choose|jj: int| 0 <= jj < rids.len() && rids[jj] == rets[kk].1.returner.id;
        let ja = choose|ja: int|
            0 <= ja < actors.len() && actors[ja].0 == rids[jj] && actors[ja].1 is Return;
        let jp = choose|jp: int|
            0 <= jp < actors.len() && (#[trigger] actors[jp]).0 == pid && !(actors[jp].1
                is Return);
        assert(actors[ja].0 == actors[jp].0);
        assert(ja != jp);
        assert(false);
    }
}

/// One turn's total effect on a level whose next fresh id is `next0`.
pub open spec fn update_change(s0: GameState, actors: Seq<(Id, Action)>, next0: int) -> ChangeView {
    ChangeView {
        returnings: turn_rets(s0, actors),
        moves: turn_movs(s0, actors),
        summonings: turn_sums(s0, actors, next0),
    }
}


impl Level {
    /// A level of `width` by `height` open floor tiles with no objects and
    /// an empty history.
    pub fn empty(width: usize, height: usize) -> (r: Level)
        requires
            width <= 0x0FFF_FFFF,
            height <= 0x0FFF_FFFF,
            width * height <= usize::MAX,
        ensures
            r.wf(),
            r.game().width == width,
            r.game().height == height,
            r.turn() == 0,
            r.history_len() == 0,
            r.game().objects == Map::<int, LevelObject>::empty(),
            forall|t: int|
                0 <= t < width * height ==> r.game().tiles[t] == (Tile::Floor {
                    portal_color: None,
                }),
            r.allocated() == 0,
    {
        let n = width * height;
        let mut tiles: Vec<Tile> = Vec::new();
        let mut occupant: Vec<Option<u32>> = Vec::new();
        let mut i: usize = 0;
        while i < n
            invariant
                i <= n,
                tiles@.len() == i,
                occupant@.len() == i,
                forall|t: int|
                    0 <= t < i ==> tiles@[t] == (Tile::Floor { portal_color: None }),
                forall|t: int| 0 <= t < i ==> occupant@[t] is None,
            decreases n - i,
        {
            tiles.push(Tile::Floor { portal_color: None });
            occupant.push(None);
            i += 1;
        }
        let mut r = Level {
            width,
            height,
            tiles,
            objects: Vec::new(),
            occupant,
            history: Vec::new(),
            turn: 0,
            snaps: Ghost(Seq::empty()),
        };
        let ghost snap0 = seq![r.game()];
        r.snaps = Ghost(snap0);
        proof {
            assert(r.game().objects =~= Map::<int, LevelObject>::empty());
            r.lemma_game_wf();
        }
        r
    }

    /// Places `object` on the free cell `coords`, assigning it the next
    /// fresh id. Placing objects is a construction-time operation: the
    /// history must be empty, and stays so. Returns false (and changes
    /// nothing) when the cell is off the grid or occupied, or the id
    /// space is exhausted.
    pub fn place_object(&mut self, object: Object, coords: Coords) -> (ok: bool)
        requires
            old(self).wf(),
            old(self).history_len() == 0,
        ensures
            final(self).wf(),
            final(self).game().width == old(self).game().width,
            final(self).game().height == old(self).game().height,
            final(self).game().tiles == old(self).game().tiles,
            ok == (old(self).game().in_bounds(coords) && !old(self).game().occupied(coords) && old(
                self,
            ).allocated() <= u32::MAX),
            ok ==> final(self).game().objects == old(self).game().objects.insert(
                old(self).allocated(),
                LevelObject {
                    id: Id(old(self).allocated() as u32),
                    object,
                    coords,
                    facing: Offset::spec_right(),
                },
            ),
            !ok ==> final(self).game() == old(self).game(),
            final(self).turn() == old(self).turn(),
            final(self).history_len() == old(self).history_len(),
            final(self).allocated() == old(self).allocated() + (if ok {
                1int
            } else {
                0int
            }),
    {
        proof {
            self.lemma_dom_bound();
        }
        if !self.coords_in_bounds(coords) {
            return false;
        }
        match self.object_id_at(coords) {
            Some(_) => false,
            None => {
                if self.objects.len() > u32::MAX as usize {
                    return false;
                }
                let id = self.alloc_object_id();
                proof {
                    assert(!self.game().objects.dom().contains(id as int));
                    assert(self.objects@[id as int] is None);
                }
                let lo = LevelObject { id: Id(id), object, coords, facing: Offset::right() };
                self.spawn(lo);
                self.rebase_snapshot();
                true
            },
        }
    }

    /// Re-anchors the base snapshot at the current state. With no
    /// recorded turns the ledger's only snapshot is the current state, so
    /// this is how a board edit re-establishes the history invariant.
    fn rebase_snapshot(&mut self)
        requires
            old(self).state_wf(),
            old(self).history@.len() == 0,
            old(self).turn == 0,
        ensures
            final(self).state_wf(),
            final(self).chain_wf(),
            final(self).game() == old(self).game(),
            final(self).objects@ == old(self).objects@,
            final(self).history@ == old(self).history@,
            final(self).turn == old(self).turn,
    {
        let ghost snap0 = seq![self.game()];
        proof {
            self.snaps = Ghost(snap0);
            self.lemma_game_wf();
            self.lemma_dom_bound();
        }
    }

    /// Updates the level by making the `actors` act, returning the
    /// resulting (possibly trivial) change.
    ///
    /// Actions are resolved in three phases: returns, then pushes, then
    /// summons. Actions within each phase are simultaneous. Every actor
    /// must be a distinct live character and push or summon only in unit
    /// directions; the control layer upholds this.
    #[verifier::rlimit(100)]
    pub fn update(&mut self, actors: Vec<(Id, Action)>) -> (r: ChangeEvent)
        requires
            old(self).wf(),
            actors_wf(old(self).game(), actors@),
        ensures
            final(self).wf(),
            r.0@ == update_change(old(self).game(), actors@, old(self).allocated()),
            change_ok_fwd(r.0@, old(self).game()),
            final(self).game() == apply_change(old(self).game(), r.0@),
            final(self).turn() == old(self).turn() + 1,
            final(self).history_len() == old(self).turn() + 1,
            0 <= final(self).turn() <= final(self).history_len(),
            forall|i: int|
                0 <= i < old(self).turn() ==> #[trigger] final(self).history_at(i) == old(
                    self,
                ).history_at(i),
            forall|i: int|
                0 <= i <= old(self).turn() ==> #[trigger] final(self).snapshot(i) == old(
                    self,
                ).snapshot(i),
            final(self).history_at(old(self).turn()) == r.0@,
            final(self).snapshot(old(self).turn()) == old(self).game(),
            final(self).snapshot(old(self).turn() + 1) == final(self).game(),
    {
        let ghost s0 = self.game();
        let ghost next0 = self.objects@.len() as int;
        let ghost old_snaps = self.snaps@;
        let ghost old_turn = self.turn as int;
        proof {
            self.lemma_dom_bound();
            self.lemma_game_props();
        }
        let (pushers, summoners, returners) = crate::summon::partition_actions(
            Ghost(s0),
            &actors,
        );
        let rets0 = self.get_returnings(&returners);
        let rets = if self.check_returnings(&rets0) {
            rets0
        } else {
            Vec::new()
        };
        proof {
            assert(rets@ == turn_rets(s0, actors@)) by {
                if !(ret_ok(rets0@, s0) && crate::state::ret_portals_match(rets0@, s0)) {
                    assert(rets@ =~= Seq::<(Id, Returning)>::empty());
                }
            }
            assert(ret_ok(rets@, s0) && crate::state::ret_portals_match(rets@, s0)) by {
                if !(ret_ok(rets0@, s0) && crate::state::ret_portals_match(rets0@, s0)) {
                    assert(rets@.len() == 0);
                }
            }
        }
        self.apply_returnings_exec(&rets);
        let ghost s1 = self.game();
        // The pushers survive the return phase: only returners leave the
        // level, and the actors are distinct.
        proof {
            crate::summon::lemma_pushers_of_entries(actors@);
            assert forall|q: int| 0 <= q < pushers@.len() implies s1.is_character(
                (#[trigger] pushers@[q]).0.0 as int,
            ) by {
                let pid = pushers@[q].0;
                assert(exists|j: int|
                    0 <= j < actors@.len() && (#[trigger] actors@[j]).0 == pid && !(actors@[j].1
                        is Return)) by {
                    let j = choose|j: int|
                        0 <= j < actors@.len() && actors@[j].0 == crate::summon::pushers_of(
                            actors@,
                        )[q].0 && actors@[j].1 is Push;
                    assert(0 <= j < actors@.len() && actors@[j].0 == pid && !(actors@[j].1
                        is Return));
                }
                lemma_actor_survives_returns(s0, actors@, rets@, pid);
                assert(s0.is_character(pid.0 as int));
                assert(s1 == apply_rets(s0, rets@));
                if crate::state::is_ret_linked(rets@, pid.0 as int) {
                    assert(s1.objects[pid.0 as int] == with_portal(
                        s0.objects[pid.0 as int],
                        None,
                    ));
                } else {
                    assert(s1.objects[pid.0 as int] == s0.objects[pid.0 as int]);
                }
            }
        }
        let moves0 = self.get_moves(&pushers);
        let moves = if self.check_moves(&moves0) {
            moves0
        } else {
            Vec::new()
        };
        proof {
            assert(moves@ == turn_movs(s0, actors@)) by {
                if !(mov_ok(crate::team::resolve_moves(s1, pushers@), s1)
                    && crate::state::moves_to_floor(
                    crate::team::resolve_moves(s1, pushers@),
                    s1,
                )) {
                    assert(moves@ =~= Seq::<(Id, Move)>::empty());
                }
            }
            assert(mov_ok(moves@, s1)) by {
                if moves@.len() == 0 {
                }
            }
        }
        self.apply_moves_exec(&moves);
        let ghost s2 = self.game();
        // The summoners are still live characters: only returners leave
        // the level, and moving keeps an object's kind.
        proof {
            crate::summon::lemma_summoners_of_entries(actors@);
            assert forall|q: int| 0 <= q < summoners@.len() implies s2.is_character(
                (#[trigger] summoners@[q]).0.0 as int,
            ) by {
                let sid = summoners@[q].0;
                assert(exists|j: int|
                    0 <= j < actors@.len() && (#[trigger] actors@[j]).0 == sid && !(actors@[j].1
                        is Return)) by {
                    let j = choose|j: int|
                        0 <= j < actors@.len() && actors@[j].0 == crate::summon::summoners_of(
                            actors@,
                        )[q].0 && actors@[j].1 is Summon;
                    assert(0 <= j < actors@.len() && actors@[j].0 == sid && !(actors@[j].1
                        is Return));
                }
                lemma_actor_survives_returns(s0, actors@, rets@, sid);
                assert(s0.is_character(sid.0 as int));
                assert(s1 == apply_rets(s0, rets@));
                if crate::state::is_ret_linked(rets@, sid.0 as int) {
                    assert(s1.objects[sid.0 as int] == with_portal(
                        s0.objects[sid.0 as int],
                        None,
                    ));
                } else {
                    assert(s1.objects[sid.0 as int] == s0.objects[sid.0 as int]);
                }
                assert(s1.is_character(sid.0 as int));
                assert(s2 == apply_movs(s1, moves@));
                assert(s2.objects.dom().contains(sid.0 as int));
                assert(s2.objects[sid.0 as int].object == s1.objects[sid.0 as int].object);
            }
        }
        // The id space must have room for this turn's summons.
        let space = self.objects.len() <= u32::MAX as usize - 7;
        proof {
            assert(space == (next0 + crate::object::COLOR_COUNT <= u32::MAX + 1));
        }
        let sums: Vec<(Id, Summoning)>;
        if space {
            let sums0 = self.get_summonings(&summoners);
            sums = if self.check_summonings(&sums0) {
                sums0
            } else {
                Vec::new()
            };
            proof {
                assert(sums@ == turn_sums(s0, actors@, next0)) by {
                    if !sum_ok(crate::summon::sums_spec(s2, summoners@, next0), s2) {
                        assert(sums@ =~= Seq::<(Id, Summoning)>::empty());
                    }
                }
            }
        } else {
            sums = Vec::new();
            proof {
                assert(sums@ =~= Seq::<(Id, Summoning)>::empty());
                assert(sums@ == turn_sums(s0, actors@, next0));
            }
        }
        proof {
            assert(sum_ok(sums@, s2)) by {
                if sums@.len() == 0 {
                }
            }
            assert(change_ids_bound(
                ChangeView {
                    returnings: Seq::empty(),
                    moves: Seq::empty(),
                    summonings: sums@,
                },
                self.objects@.len() as int,
            )) by {
                if sums@.len() > 0 {
                }
            }
        }
        self.apply_summonings_exec(&sums);
        let change = Change { returnings: rets, moves, summonings: sums };
        let ghost cv = change@;
        proof {
            assert(cv == update_change(s0, actors@, next0));
            assert(change_ok(cv, s0));
            assert(change_ok_fwd(cv, s0));
            assert(self.game() == apply_change(s0, cv));
        }
        let reverse = change.reverse();
        let forward_copy = change.duplicate();
        self.history.truncate(self.turn);
        self.history.push(BiChange { forward: forward_copy, reverse });
        let ghost g3 = self.game();
        proof {
            self.snaps = Ghost(old_snaps.take(old_turn + 1).push(g3));
            self.lemma_game_wf();
            self.lemma_dom_bound();
        }
        self.turn = self.history.len();
        proof {
            assert(self.snaps@[self.turn as int] == self.game());
            assert forall|i: int| 0 <= i <= self.history@.len() implies (
            #[trigger] self.snaps@[i]).wf() by {
                if i < self.history@.len() {
                    assert(self.snaps@[i] == old_snaps[i]);
                }
            }
            assert forall|i: int|
                0 <= i <= self.history@.len() implies (#[trigger] self.snaps@[i]).objects.dom()
                <= Set::new(|j: int| 0 <= j < self.objects@.len()) by {
                if i < self.history@.len() {
                    assert(self.snaps@[i] == old_snaps[i]);
                    assert(old_snaps[i].objects.dom() <= Set::new(
                        |j: int| 0 <= j < old(self).objects@.len(),
                    ));
                    assert(old(self).objects@.len() <= self.objects@.len());
                    assert forall|j: int| #[trigger]
                        old_snaps[i].objects.dom().contains(j) implies 0 <= j
                        < self.objects@.len() by {
                        assert(Set::new(|j2: int| 0 <= j2 < old(self).objects@.len()).contains(
                            j,
                        ));
                    }
                }
            }
            assert forall|i: int| 0 <= i < self.history@.len() implies {
                let b = #[trigger] self.history@[i];
                &&& change_ok_fwd(b.forward@, self.snaps@[i])
                &&& self.snaps@[i + 1] == apply_change(self.snaps@[i], b.forward@)
                &&& b.reverse@ == b.forward@.reverse()
                &&& change_ids_bound(b.forward@, self.objects@.len() as int)
            } by {
                if i < old_turn {
                    assert(self.history@[i] == old(self).history@[i]);
                    assert(self.snaps@[i] == old_snaps[i]);
                    assert(self.snaps@[i + 1] == old_snaps[i + 1]);
                    assert(change_ids_bound(old(self).history@[i].forward@, old(
                        self,
                    ).objects@.len() as int));
                    assert forall|k2: int|
                        0 <= k2 < self.history@[i].forward@.summonings.len() implies (
                    #[trigger] self.history@[i].forward@.summonings[k2]).1.summon.id.0
                        < self.objects@.len() by {
                        assert(old(self).history@[i].forward@.summonings[k2].1.summon.id.0 < old(
                            self,
                        ).objects@.len());
                    }
                } else {
                    assert(self.history@[i].forward@ == cv);
                    assert(self.snaps@[i] == old_snaps[old_turn]);
                    assert(old_snaps[old_turn] == s0);
                }
            }
        }
        ChangeEvent(change)
    }
}

/// The object occupying cell `c` of `s`, if any.
pub open spec fn cell_object(s: GameState, c: Coords) -> Option<Object> {
    if s.occupied(c) {
        Some(s.objects[s.id_at(c)].object)
    } else {
        None
    }
}

/// Two level states look the same on the board: same dimensions, same
/// tiles, and the same object in every cell. Ids and history are not
/// compared.
pub open spec fn state_equiv(a: GameState, b: GameState) -> bool {
    &&& a.width == b.width
    &&& a.height == b.height
    &&& a.tiles == b.tiles
    &&& forall|c: Coords| a.in_bounds(c) ==> #[trigger] cell_object(a, c) == cell_object(b, c)
}

/// The live objects among the first `n` ids, in id order.
pub open spec fn objects_in_order(s: GameState, n: int) -> Seq<LevelObject>
    decreases n,
{
    if n <= 0 {
        Seq::empty()
    } else if s.objects.dom().contains(n - 1) {
        objects_in_order(s, n - 1).push(s.objects[n - 1])
    } else {
        objects_in_order(s, n - 1)
    }
}

/// The live characters among the first `n` ids, with their ids, in id
/// order.
pub open spec fn characters_in_order(s: GameState, n: int) -> Seq<(Id, Character)>
    decreases n,
{
    if n <= 0 {
        Seq::empty()
    } else if s.is_character(n - 1) {
        characters_in_order(s, n - 1).push((Id((n - 1) as u32), s.character(n - 1)))
    } else {
        characters_in_order(s, n - 1)
    }
}

impl Level {
    /// The object at `coords`, if any. Cells off the grid are empty.
    pub fn object_at(&self, coords: Coords) -> (r: Option<Object>)
        requires
            self.wf(),
        ensures
            r == cell_object(self.game(), coords),
            r is Some <==> self.game().occupied(coords),
    {
        proof {
            self.lemma_game_wf();
        }
        if !self.coords_in_bounds(coords) {
            proof {
                if self.game().occupied(coords) {
                    let w = choose|w: int| #[trigger] self.game().objects.dom().contains(w)
                        && self.game().objects[w].coords == coords;
                }
            }
            return None;
        }
        match self.object_id_at(coords) {
            Some(id) => {
                let lo = self.object_copy(id);
                Some(lo.object)
            },
            None => None,
        }
    }

    /// All objects in the level, in id order.
    pub fn level_objects(&self) -> (r: Vec<LevelObject>)
        requires
            self.wf(),
        ensures
            r@ == objects_in_order(self.game(), self.allocated()),
    {
        let ghost s = self.game();
        let mut r: Vec<LevelObject> = Vec::new();
        let n = self.allocated_count();
        let mut i: usize = 0;
        while i < n
            invariant
                self.state_wf(),
                s == self.game(),
                n == self.objects@.len(),
                n <= u32::MAX + 1,
                i <= n,
                r@ == objects_in_order(s, i as int),
            decreases n - i,
        {
            match self.object_lookup(i as u32) {
                Some(lo) => {
                    r.push(lo);
                },
                None => {},
            }
            i += 1;
        }
        proof {
            self.lemma_dom_bound();
        }
        r
    }

    /// The character with the given `id`, which must name a live
    /// character.
    pub fn character_by_id(&self, id: Id) -> (r: Character)
        requires
            self.wf(),
            self.game().is_character(id.0 as int),
        ensures
            r == self.game().character(id.0 as int),
    {
        proof {
            self.lemma_dom_bound();
        }
        let lo = self.object_copy(id.0);
        match lo.object {
            Object::Character(ch) => ch,
            _ => {
                proof {
                    assert(false);
                }
                Character {
                    color: crate::object::CharacterColor::Green,
                    sliding: false,
                    portal_coords: None,
                }
            },
        }
    }

    /// The characters in the level with their ids, in ascending id order.
    pub fn characters_by_id(&self) -> (r: Vec<(Id, Character)>)
        requires
            self.wf(),
        ensures
            r@ == characters_in_order(self.game(), self.allocated()),
            forall|k: int|
                0 <= k < r@.len() ==> self.game().is_character((#[trigger] r@[k]).0.0 as int)
                    && r@[k].1 == self.game().character(r@[k].0.0 as int),
            forall|k: int, j: int|
                0 <= k < r@.len() && 0 <= j < r@.len() && k < j ==> (#[trigger] r@[k]).0.0 < (
                #[trigger] r@[j]).0.0,
    {
        let ghost s = self.game();
        let mut r: Vec<(Id, Character)> = Vec::new();
        let n = self.allocated_count();
        proof {
            self.lemma_dom_bound();
        }
        let mut i: usize = 0;
        while i < n
            invariant
                self.state_wf(),
                s == self.game(),
                n == self.objects@.len(),
                n <= u32::MAX + 1,
                i <= n,
                r@ == characters_in_order(s, i as int),
                forall|k: int|
                    0 <= k < r@.len() ==> s.is_character((#[trigger] r@[k]).0.0 as int) && r@[k].1
                        == s.character(r@[k].0.0 as int) && r@[k].0.0 < i,
                forall|k: int, j: int|
                    0 <= k < r@.len() && 0 <= j < r@.len() && k < j ==> (#[trigger] r@[k]).0.0 < (
                    #[trigger] r@[j]).0.0,
            decreases n - i,
        {
            match self.object_lookup(i as u32) {
                Some(lo) => {
                    match lo.object {
                        Object::Character(ch) => {
                            r.push((Id(i as u32), ch));
                        },
                        _ => {},
                    }
                },
                None => {},
            }
            i += 1;
        }
        r
    }

    /// Number of characters in the level.
    pub fn character_count(&self) -> (n: usize)
        requires
            self.wf(),
        ensures
            n == characters_in_order(self.game(), self.allocated()).len(),
    {
        let chars = self.characters_by_id();
        chars.len()
    }

    /// Sets the tile at `coords` to `tile`, leaving objects, history and
    /// turn untouched. Editing the board is a construction-time
    /// operation: with recorded turns the stored reverses would no longer
    /// describe the edited board, so the history must be empty.
    pub fn set_tile_at(&mut self, coords: Coords, tile: Tile)
        requires
            old(self).wf(),
            old(self).game().in_bounds(coords),
            old(self).history_len() == 0,
        ensures
            final(self).wf(),
            final(self).game().tiles == old(self).game().tiles.update(
                old(self).game().tile_index(coords),
                tile,
            ),
            final(self).game().objects == old(self).game().objects,
            final(self).game().width == old(self).game().width,
            final(self).game().height == old(self).game().height,
            final(self).turn() == old(self).turn(),
            final(self).history_len() == old(self).history_len(),
            final(self).allocated() == old(self).allocated(),
    {
        self.set_tile_internal(coords, tile);
        self.rebase_snapshot();
    }

    /// Whether `self` and `other` show the same board: same dimensions,
    /// same tiles, and the same object in every cell.
    pub fn equivalent(&self, other: &Level) -> (r: bool)
        requires
            self.wf(),
            other.wf(),
        ensures
            r == state_equiv(self.game(), other.game()),
    {
        let ghost a = self.game();
        let ghost b = other.game();
        proof {
            self.lemma_game_props();
            other.lemma_game_props();
        }
        if self.width() != other.width() || self.height() != other.height() {
            return false;
        }
        let h = self.height();
        let w = self.width();
        let mut row: usize = 0;
        while row < h
            invariant
                self.wf(),
                other.wf(),
                a == self.game(),
                b == other.game(),
                a.width == b.width,
                a.height == b.height,
                a.wf(),
                b.wf(),
                crate::team::small_dims(a),
                h == a.height,
                w == a.width,
                row <= h,
                forall|c: Coords|
                    a.in_bounds(c) && c.row < row ==> a.tiles[#[trigger] a.tile_index(c)]
                        == b.tiles[a.tile_index(c)],
                forall|c: Coords|
                    a.in_bounds(c) && c.row < row ==> #[trigger] cell_object(a, c) == cell_object(
                        b,
                        c,
                    ),
            decreases h - row,
        {
            let mut col: usize = 0;
            while col < w
                invariant
                    self.wf(),
                    other.wf(),
                    a == self.game(),
                    b == other.game(),
                    a.width == b.width,
                    a.height == b.height,
                    a.wf(),
                    b.wf(),
                    crate::team::small_dims(a),
                    h == a.height,
                    w == a.width,
                    row < h,
                    col <= w,
                    forall|c: Coords|
                        a.in_bounds(c) && c.row < row ==> a.tiles[#[trigger] a.tile_index(c)]
                            == b.tiles[a.tile_index(c)],
                    forall|c: Coords|
                        a.in_bounds(c) && c.row < row ==> #[trigger] cell_object(a, c)
                            == cell_object(b, c),
                    forall|c: Coords|
                        a.in_bounds(c) && c.row == row && c.col < col ==> a.tiles[
                            #[trigger] a.tile_index(c)
                        ] == b.tiles[a.tile_index(c)],
                    forall|c: Coords|
                        a.in_bounds(c) && c.row == row && c.col < col ==> #[trigger] cell_object(
                            a,
                            c,
                        ) == cell_object(b, c),
                decreases w - col,
            {
                let c = Coords { row: row as i32, col: col as i32 };
                let ta = self.tile_at(c);
                let tb = other.tile_at(c);
                if !ta.same_as(&tb) {
                    return false;
                }
                let oa = self.object_at(c);
                let ob = other.object_at(c);
                let same = match (oa, ob) {
                    (None, None) => true,
                    (Some(x), Some(y)) => x.same_as(&y),
                    _ => false,
                };
                if !same {
                    return false;
                }
                col += 1;
                proof {
                    assert forall|c2: Coords|
                        a.in_bounds(c2) && c2.row == row && c2.col < col implies a.tiles[
                            #[trigger] a.tile_index(c2)
                        ] == b.tiles[a.tile_index(c2)] by {
                        lemma_tile_index_bounds(a, c2);
                        if c2.col == col - 1 {
                            assert(c2 == c);
                        }
                    }
                    assert forall|c2: Coords|
                        a.in_bounds(c2) && c2.row == row && c2.col < col implies #[trigger] cell_object(
                            a,
                            c2,
                        ) == cell_object(b, c2) by {
                        if c2.col == col - 1 {
                            assert(c2 == c);
                        }
                    }
                }
            }
            let ghost old_row = row as int;
            row += 1;
            proof {
                assert forall|c2: Coords|
                    a.in_bounds(c2) && c2.row < row implies a.tiles[#[trigger] a.tile_index(c2)]
                    == b.tiles[a.tile_index(c2)] by {
                    lemma_tile_index_bounds(a, c2);
                    if c2.row == old_row {
                        assert(a.in_bounds(c2) && c2.row == old_row && c2.col < w);
                    } else {
                        assert(c2.row < old_row);
                    }
                }
                assert forall|c2: Coords|
                    a.in_bounds(c2) && c2.row < row implies #[trigger] cell_object(a, c2)
                    == cell_object(b, c2) by {
                    if c2.row == old_row {
                        assert(a.in_bounds(c2) && c2.row == old_row && c2.col < w);
                    } else {
                        assert(c2.row < old_row);
                    }
                }
            }
        }
        proof {
            assert(a.tiles =~= b.tiles) by {
                assert forall|t: int| 0 <= t < a.tiles.len() implies a.tiles[t] == b.tiles[t] by {
                    let cr = t / a.width;
                    let cc = t % a.width;
                    crate::state::lemma_tile_linear(a, t);
                    let c2 = Coords { row: cr as i32, col: cc as i32 };
                    assert(a.in_bounds(c2) && a.tile_index(c2) == t);
                }
            }
        }
        true
    }
}

} // verus!
