//! Runtime validation of computed turn phases against their applicability
//! predicates. A phase that fails validation is resolved as empty rather
//! than corrupting the level: this can only happen when the caller breaks
//! the action contract or the resolver produces an overlapping result.

use vstd::prelude::*;

use crate::change::Move;
use crate::change::Returning;
use crate::change::Summoning;
use crate::geom::Coords;
use crate::level::Level;
use crate::object::Id;
use crate::object::LevelCharacter;
use crate::object::LevelObject;
use crate::object::Object;
use crate::object::Tile;
use crate::state::GameState;
use crate::state::has_move;
use crate::state::mov_ok;
use crate::state::ret_ok;
use crate::state::ret_portals_match;
use crate::state::sum_ok;

verus! {

/// Whether two optional coordinates are the same.
fn opt_coords_eq(a: Option<Coords>, b: Option<Coords>) -> (r: bool)
    ensures
        r == (a == b),
{
    match (a, b) {
        (None, None) => true,
        (Some(x), Some(y)) => x == y,
        _ => false,
    }
}

/// Whether a live object is exactly the recorded level character.
fn object_matches(lo: LevelObject, c: LevelCharacter) -> (r: bool)
    ensures
        r == (lo == c.spec_to_level_object()),
{
    match lo.object {
        Object::Character(ch) => lo.id == c.id && lo.coords == c.coords && lo.facing == c.facing
            && ch.color == c.character.color && ch.sliding == c.character.sliding && opt_coords_eq(
            ch.portal_coords,
            c.character.portal_coords,
        ),
        _ => false,
    }
}

impl Level {
    /// Whether the cell `c` lies on the grid.
    pub(crate) fn coords_in_bounds(&self, c: Coords) -> (r: bool)
        requires
            self.state_wf(),
        ensures
            r == self.game().in_bounds(c),
    {
        proof {
            self.lemma_game_props();
        }
        let w = self.width();
        let h = self.height();
        0 <= c.row && c.row < h as i32 && 0 <= c.col && c.col < w as i32
    }

    /// Whether id `id` names a live character, and which.
    fn character_lookup(&self, id: Id) -> (r: Option<crate::object::Character>)
        requires
            self.state_wf(),
        ensures
            r is Some <==> self.game().is_character(id.0 as int),
            r is Some ==> r->0 == self.game().character(id.0 as int),
    {
        proof {
            self.lemma_dom_bound();
        }
        let n = self.allocated_count();
        if id.0 as usize >= n {
            return None;
        }
        match self.object_lookup(id.0) {
            Some(lo) => match lo.object {
                Object::Character(ch) => Some(ch),
                _ => None,
            },
            None => None,
        }
    }

    /// Whether `rets` can be applied to the current state and each
    /// returner's tile is its own open portal.
    pub(crate) fn check_returnings(&self, rets: &Vec<(Id, Returning)>) -> (r: bool)
        requires
            self.state_wf(),
        ensures
            r == (ret_ok(rets@, self.game()) && ret_portals_match(rets@, self.game())),
    {
        let ghost s = self.game();
        proof {
            self.lemma_game_props();
            self.lemma_dom_bound();
        }
        let n = self.allocated_count();
        let mut k: usize = 0;
        while k < rets.len()
            invariant
                self.state_wf(),
                s == self.game(),
                s.wf(),
                n == self.objects@.len(),
                k <= rets@.len(),
                forall|q: int|
                    0 <= q < k ==> {
                        let rr = (#[trigger] rets@[q]).1;
                        &&& rets@[q].0 == rr.linked_id
                        &&& s.objects.dom().contains(rr.returner.id.0 as int)
                        &&& s.objects[rr.returner.id.0 as int]
                            == rr.returner.spec_to_level_object()
                        &&& s.is_character(rr.linked_id.0 as int)
                        &&& s.character(rr.linked_id.0 as int).portal_coords == Some(
                            rr.returner.coords,
                        )
                        &&& s.tiles[s.tile_index(rr.returner.coords)] == (Tile::Floor {
                            portal_color: Some(rr.returner.character.color),
                        })
                    },
            decreases rets@.len() - k,
        {
            let (key, ret) = rets[k];
            if !(key == ret.linked_id) {
                return false;
            }
            if ret.returner.id.0 as usize >= n {
                return false;
            }
            let lo = match self.object_lookup(ret.returner.id.0) {
                Some(lo) => lo,
                None => {
                    return false;
                },
            };
            if !object_matches(lo, ret.returner) {
                return false;
            }
            let linked = match self.character_lookup(ret.linked_id) {
                Some(ch) => ch,
                None => {
                    return false;
                },
            };
            if !opt_coords_eq(linked.portal_coords, Some(ret.returner.coords)) {
                return false;
            }
            let tile = self.tile_at(ret.returner.coords);
            let tile_ok = match tile {
                Tile::Floor { portal_color: Some(c) } => c == ret.returner.character.color,
                _ => false,
            };
            if !tile_ok {
                return false;
            }
            k += 1;
        }
        // Pairwise interference.
        let mut k: usize = 0;
        while k < rets.len()
            invariant
                k <= rets@.len(),
                forall|q: int, j: int|
                    0 <= q < k && 0 <= j < rets@.len() && q != j ==> {
                        &&& (#[trigger] rets@[q]).1.returner.id != (
                        #[trigger] rets@[j]).1.returner.id
                        &&& rets@[q].1.linked_id != rets@[j].1.returner.id
                        &&& rets@[q].1.linked_id != rets@[j].1.linked_id
                    },
            decreases rets@.len() - k,
        {
            let mut j: usize = 0;
            while j < rets.len()
                invariant
                    k < rets@.len(),
                    j <= rets@.len(),
                    forall|j2: int|
                        0 <= j2 < j && k as int != j2 ==> {
                            &&& (#[trigger] rets@[j2]).1.returner.id != rets@[k as int].1.returner.id
                            &&& rets@[k as int].1.linked_id != rets@[j2].1.returner.id
                            &&& rets@[k as int].1.linked_id != rets@[j2].1.linked_id
                        },
                decreases rets@.len() - j,
            {
                if j != k {
                    let a = rets[k].1;
                    let b = rets[j].1;
                    if a.returner.id == b.returner.id || a.linked_id == b.returner.id
                        || a.linked_id == b.linked_id {
                        return false;
                    }
                }
                j += 1;
            }
            k += 1;
        }
        proof {
            assert forall|q: int, j: int|
                0 <= q < rets@.len() && 0 <= j < rets@.len() && q != j implies {
                &&& (#[trigger] rets@[q]).1.returner.id != (#[trigger] rets@[j]).1.returner.id
                &&& rets@[q].1.linked_id != rets@[j].1.returner.id
                &&& rets@[q].1.linked_id != rets@[j].1.linked_id
            } by {}
        }
        true
    }

    /// Whether `moves` can be applied to the current state: every mover is
    /// live at its source, and no two objects end up in the same cell.
    pub(crate) fn check_moves(&self, moves: &Vec<(Id, Move)>) -> (r: bool)
        requires
            self.state_wf(),
        ensures
            r == (mov_ok(moves@, self.game()) && crate::state::moves_to_floor(
                moves@,
                self.game(),
            )),
    {
        let ghost s = self.game();
        proof {
            self.lemma_game_props();
            self.lemma_dom_bound();
        }
        let n = self.allocated_count();
        let mut k: usize = 0;
        while k < moves.len()
            invariant
                self.state_wf(),
                s == self.game(),
                s.wf(),
                n == self.objects@.len(),
                k <= moves@.len(),
                forall|q: int|
                    0 <= q < k ==> {
                        let (id, m) = #[trigger] moves@[q];
                        &&& s.objects.dom().contains(id.0 as int)
                        &&& s.objects[id.0 as int].coords == m.from_coords
                        &&& s.objects[id.0 as int].facing == m.from_facing
                        &&& s.in_bounds(m.to_coords)
                        &&& !(s.tiles[s.tile_index(m.to_coords)] is Wall)
                    },
            decreases moves@.len() - k,
        {
            let (id, m) = moves[k];
            if id.0 as usize >= n {
                return false;
            }
            let lo = match self.object_lookup(id.0) {
                Some(lo) => lo,
                None => {
                    return false;
                },
            };
            if !(lo.coords == m.from_coords) || !(lo.facing == m.from_facing) {
                return false;
            }
            if !self.coords_in_bounds(m.to_coords) {
                return false;
            }
            let target = self.tile_at(m.to_coords);
            if matches!(target, Tile::Wall) {
                return false;
            }
            k += 1;
        }
        let mut k: usize = 0;
        while k < moves.len()
            invariant
                k <= moves@.len(),
                forall|q: int, j: int|
                    0 <= q < k && 0 <= j < moves@.len() && q != j ==> (#[trigger] moves@[q]).0 != (
                    #[trigger] moves@[j]).0 && moves@[q].1.to_coords != moves@[j].1.to_coords,
            decreases moves@.len() - k,
        {
            let mut j: usize = 0;
            while j < moves.len()
                invariant
                    k < moves@.len(),
                    j <= moves@.len(),
                    forall|j2: int|
                        0 <= j2 < j && k as int != j2 ==> (#[trigger] moves@[j2]).0
                            != moves@[k as int].0 && moves@[j2].1.to_coords != moves@[k as int].1.to_coords,
                decreases moves@.len() - j,
            {
                if j != k {
                    if moves[k].0 == moves[j].0 || moves[k].1.to_coords == moves[j].1.to_coords {
                        return false;
                    }
                }
                j += 1;
            }
            k += 1;
        }
        proof {
            assert forall|q: int, j: int|
                0 <= q < moves@.len() && 0 <= j < moves@.len() && q != j implies (
            #[trigger] moves@[q]).0 != (#[trigger] moves@[j]).0 && moves@[q].1.to_coords
                != moves@[j].1.to_coords by {}
        }
        // No stationary object sits on any move target.
        let mut k: usize = 0;
        while k < moves.len()
            invariant
                self.state_wf(),
                s == self.game(),
                s.wf(),
                k <= moves@.len(),
                forall|q: int|
                    0 <= q < moves@.len() ==> {
                        let (id, m) = #[trigger] moves@[q];
                        &&& s.objects.dom().contains(id.0 as int)
                        &&& s.in_bounds(m.to_coords)
                    },
                forall|q: int, i: int|
                    0 <= q < k && #[trigger] s.objects.dom().contains(i) && !has_move(moves@, i)
                        ==> s.objects[i].coords != (#[trigger] moves@[q]).1.to_coords,
            decreases moves@.len() - k,
        {
            let m = moves[k].1;
            match self.object_id_at(m.to_coords) {
                Some(i) => {
                    // The occupant must itself be moving away.
                    let mut mover = false;
                    let mut j: usize = 0;
                    while j < moves.len()
                        invariant
                            j <= moves@.len(),
                            mover == exists|j2: int|
                                0 <= j2 < j && (#[trigger] moves@[j2]).0.0 == i,
                        decreases moves@.len() - j,
                    {
                        if moves[j].0.0 == i {
                            mover = true;
                        }
                        j += 1;
                    }
                    if !mover {
                        proof {
                            assert(s.objects.dom().contains(i as int) && s.objects[i as int].coords
                                == m.to_coords);
                            assert(!has_move(moves@, i as int)) by {
                                if has_move(moves@, i as int) {
                                    let j2 = choose|j2: int|
                                        0 <= j2 < moves@.len() && #[trigger] moves@[j2].0.0
                                            == i as int;
                                    assert(moves@[j2].0.0 == i);
                                }
                            }
                        }
                        return false;
                    }
                },
                None => {},
            }
            k += 1;
            proof {
                assert forall|q: int, i: int|
                    0 <= q < k && #[trigger] s.objects.dom().contains(i) && !has_move(moves@, i)
                        implies s.objects[i].coords != (#[trigger] moves@[q]).1.to_coords by {
                    if q == k - 1 {
                        if s.objects[i].coords == moves@[q].1.to_coords {
                            assert(s.occupied(moves@[q].1.to_coords));
                            assert(s.id_at(moves@[q].1.to_coords) == i);
                            assert(has_move(moves@, i));
                        }
                    }
                }
            }
        }
        true
    }

    /// Whether `sums` can be applied to the current state.
    pub(crate) fn check_summonings(&self, sums: &Vec<(Id, Summoning)>) -> (r: bool)
        requires
            self.state_wf(),
        ensures
            r == sum_ok(sums@, self.game()),
    {
        let ghost s = self.game();
        proof {
            self.lemma_game_props();
            self.lemma_dom_bound();
        }
        let n = self.allocated_count();
        let mut k: usize = 0;
        while k < sums.len()
            invariant
                self.state_wf(),
                s == self.game(),
                s.wf(),
                n == self.objects@.len(),
                k <= sums@.len(),
                forall|q: int|
                    0 <= q < k ==> {
                        let (id, sm) = #[trigger] sums@[q];
                        &&& id == sm.linked_id
                        &&& if sm.linked_id == sm.summon.id {
                            sm.summon.character.portal_coords == Some(sm.summon.coords)
                        } else {
                            &&& s.is_character(sm.linked_id.0 as int)
                            &&& s.character(sm.linked_id.0 as int).portal_coords is None
                        }
                        &&& !s.objects.dom().contains(sm.summon.id.0 as int)
                        &&& sm.summon.id.0 <= u32::MAX
                        &&& s.in_bounds(sm.summon.coords)
                        &&& s.tiles[s.tile_index(sm.summon.coords)] == (Tile::Floor {
                            portal_color: None,
                        })
                        &&& !s.occupied(sm.summon.coords)
                    },
            decreases sums@.len() - k,
        {
            let (key, sm) = sums[k];
            if !(key == sm.linked_id) {
                return false;
            }
            if sm.linked_id == sm.summon.id {
                if !opt_coords_eq(sm.summon.character.portal_coords, Some(sm.summon.coords)) {
                    return false;
                }
            } else {
                let linked = match self.character_lookup(sm.linked_id) {
                    Some(ch) => ch,
                    None => {
                        return false;
                    },
                };
                if !opt_coords_eq(linked.portal_coords, None) {
                    return false;
                }
            }
            if (sm.summon.id.0 as usize) < n {
                match self.object_lookup(sm.summon.id.0) {
                    Some(_) => {
                        return false;
                    },
                    None => {},
                }
            }
            if !self.coords_in_bounds(sm.summon.coords) {
                return false;
            }
            let tile = self.tile_at(sm.summon.coords);
            let tile_ok = match tile {
                Tile::Floor { portal_color: None } => true,
                _ => false,
            };
            if !tile_ok {
                return false;
            }
            match self.object_id_at(sm.summon.coords) {
                Some(_) => {
                    return false;
                },
                None => {},
            }
            k += 1;
        }
        let mut k: usize = 0;
        while k < sums.len()
            invariant
                k <= sums@.len(),
                forall|q: int, j: int|
                    0 <= q < k && 0 <= j < sums@.len() && q != j ==> {
                        &&& (#[trigger] sums@[q]).1.summon.id != (#[trigger] sums@[j]).1.summon.id
                        &&& sums@[q].1.linked_id != sums@[j].1.linked_id
                        &&& sums@[q].1.summon.coords != sums@[j].1.summon.coords
                    },
            decreases sums@.len() - k,
        {
            let mut j: usize = 0;
            while j < sums.len()
                invariant
                    k < sums@.len(),
                    j <= sums@.len(),
                    forall|j2: int|
                        0 <= j2 < j && k as int != j2 ==> {
                            &&& (#[trigger] sums@[j2]).1.summon.id != sums@[k as int].1.summon.id
                            &&& sums@[k as int].1.linked_id != sums@[j2].1.linked_id
                            &&& sums@[k as int].1.summon.coords != sums@[j2].1.summon.coords
                        },
                decreases sums@.len() - j,
            {
                if j != k {
                    let a = sums[k].1;
                    let b = sums[j].1;
                    if a.summon.id == b.summon.id || a.linked_id == b.linked_id || a.summon.coords
                        == b.summon.coords {
                        return false;
                    }
                }
                j += 1;
            }
            k += 1;
        }
        proof {
            assert forall|q: int, j: int|
                0 <= q < sums@.len() && 0 <= j < sums@.len() && q != j implies {
                &&& (#[trigger] sums@[q]).1.summon.id != (#[trigger] sums@[j]).1.summon.id
                &&& sums@[q].1.linked_id != sums@[j].1.linked_id
                &&& sums@[q].1.summon.coords != sums@[j].1.summon.coords
            } by {}
        }
        true
    }
}

} // verus!
