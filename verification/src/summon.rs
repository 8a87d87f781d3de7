//! Return and summon resolution: which actors successfully return through
//! their portals, which colors are free, and where a summoned past self
//! appears.

use vstd::prelude::*;

use crate::change::Returning;
use crate::change::Summoning;
use crate::geom::Coords;
use crate::geom::Offset;
use crate::level::Level;
use crate::object::Action;
use crate::object::COLOR_COUNT;
use crate::object::Character;
use crate::object::CharacterColor;
use crate::object::Id;
use crate::object::LevelCharacter;
use crate::object::Tile;
use crate::state::GameState;

verus! {

/// The ids of the actors choosing to return, in order.
pub open spec fn returners_of(actors: Seq<(Id, Action)>) -> Seq<Id>
    decreases actors.len(),
{
    if actors.len() == 0 {
        Seq::empty()
    } else {
        let rest = returners_of(actors.drop_last());
        if actors.last().1 is Return {
            rest.push(actors.last().0)
        } else {
            rest
        }
    }
}

/// The pushing actors with their directions, in order.
pub open spec fn pushers_of(actors: Seq<(Id, Action)>) -> Seq<(Id, Offset)>
    decreases actors.len(),
{
    if actors.len() == 0 {
        Seq::empty()
    } else {
        let rest = pushers_of(actors.drop_last());
        if actors.last().1 is Push {
            rest.push((actors.last().0, actors.last().1->Push_0))
        } else {
            rest
        }
    }
}

/// The summoning actors with their directions, in order.
pub open spec fn summoners_of(actors: Seq<(Id, Action)>) -> Seq<(Id, Offset)>
    decreases actors.len(),
{
    if actors.len() == 0 {
        Seq::empty()
    } else {
        let rest = summoners_of(actors.drop_last());
        if actors.last().1 is Summon {
            rest.push((actors.last().0, actors.last().1->Summon_0))
        } else {
            rest
        }
    }
}

/// The character with id `i` of `s`, bound to the level.
pub open spec fn level_character_of(s: GameState, i: int) -> LevelCharacter {
    LevelCharacter {
        id: s.objects[i].id,
        character: s.character(i),
        coords: s.objects[i].coords,
        facing: s.objects[i].facing,
    }
}

/// The returnings of the given would-be returners: those standing exactly
/// on their own open portal.
pub open spec fn rets_spec(s: GameState, rids: Seq<Id>) -> Seq<(Id, Returning)>
    decreases rids.len(),
{
    if rids.len() == 0 {
        Seq::empty()
    } else {
        let rest = rets_spec(s, rids.drop_last());
        let i = rids.last().0 as int;
        if s.character(i).portal_coords == Some(s.objects[i].coords) {
            rest.push(
                (
                    rids.last(),
                    Returning { returner: level_character_of(s, i), linked_id: rids.last() },
                ),
            )
        } else {
            rest
        }
    }
}

/// Whether some live character wears color `c`.
pub open spec fn color_used(s: GameState, c: CharacterColor) -> bool {
    exists|i: int| s.is_character(i) && #[trigger] s.character(i).color == c
}

/// The colors among the first `n` not worn by any live character, in
/// index order.
pub open spec fn avail_upto(s: GameState, n: int) -> Seq<CharacterColor>
    decreases n,
{
    if n <= 0 {
        Seq::empty()
    } else {
        let rest = avail_upto(s, n - 1);
        if !color_used(s, CharacterColor::spec_from_idx(n - 1)) {
            rest.push(CharacterColor::spec_from_idx(n - 1))
        } else {
            rest
        }
    }
}

/// The colors not yet taken by any character, in index order.
pub open spec fn avail_spec(s: GameState) -> Seq<CharacterColor> {
    avail_upto(s, COLOR_COUNT as int)
}

/// Whether the `n`-th cell out from `start` in direction `o` is an open,
/// portal-free, unoccupied floor tile on the grid.
pub open spec fn summon_cell_ok(s: GameState, start: Coords, o: Offset, n: int) -> bool {
    let row = start.row + n * o.row;
    let col = start.col + n * o.col;
    &&& 0 <= row < s.height
    &&& 0 <= col < s.width
    &&& s.tiles[row * s.width + col] == (Tile::Floor { portal_color: None })
    &&& !s.occupied(Coords { row: row as i32, col: col as i32 })
}

/// The farthest open floor tile among the first `n` cells out from
/// `start` in direction `o`.
pub open spec fn farthest_upto(s: GameState, start: Coords, o: Offset, n: int) -> Option<
    Coords,
>
    decreases n,
{
    if n <= 0 {
        None
    } else if summon_cell_ok(s, start, o, n) {
        Some(
            Coords { row: (start.row + n * o.row) as i32, col: (start.col + n * o.col) as i32 },
        )
    } else {
        farthest_upto(s, start, o, n - 1)
    }
}

/// The empty floor tile most distant from `start` incrementing by `o`.
pub open spec fn farthest_spec(s: GameState, start: Coords, o: Offset) -> Option<Coords> {
    farthest_upto(s, start, o, s.width + s.height)
}

/// The summonings of the first `m` summoner/color pairs: each summoner is
/// assigned the next fresh id and the next free color whether or not its
/// summon succeeds, and a summoning happens only where an open tile was
/// found.
pub open spec fn sums_upto(
    s: GameState,
    summoners: Seq<(Id, Offset)>,
    avail: Seq<CharacterColor>,
    next0: int,
    m: int,
) -> Seq<(Id, Summoning)>
    decreases m,
{
    if m <= 0 {
        Seq::empty()
    } else {
        let rest = sums_upto(s, summoners, avail, next0, m - 1);
        let (sid, o) = summoners[m - 1];
        let i = sid.0 as int;
        match farthest_spec(s, s.objects[i].coords, o) {
            Some(cell) => rest.push(
                (
                    sid,
                    Summoning {
                        summon: LevelCharacter {
                            id: Id((next0 + m - 1) as u32),
                            character: Character {
                                color: avail[m - 1],
                                sliding: false,
                                portal_coords: None,
                            },
                            coords: cell,
                            facing: Offset::spec_right(),
                        },
                        linked_id: sid,
                        portal_color: s.character(i).color,
                    },
                ),
            ),
            None => rest,
        }
    }
}

/// The summonings resulting from the given summoners: pairs of summoner
/// and free color, resolved in order.
pub open spec fn sums_spec(
    s: GameState,
    summoners: Seq<(Id, Offset)>,
    next0: int,
) -> Seq<(Id, Summoning)> {
    let avail = avail_spec(s);
    let m = if summoners.len() <= avail.len() {
        summoners.len() as int
    } else {
        avail.len() as int
    };
    sums_upto(s, summoners, avail, next0, m)
}

/// Splits the actors of one turn into pushers, summoners, and returners.
/// Waiting actors take no part in any phase.
pub(crate) fn partition_actions(Ghost(s): Ghost<GameState>, actors: &Vec<(Id, Action)>) -> (r: (
    Vec<(Id, Offset)>,
    Vec<(Id, Offset)>,
    Vec<Id>,
))
    requires
        forall|k: int, j: int|
            0 <= k < actors@.len() && 0 <= j < actors@.len() && k != j ==> (
            #[trigger] actors@[k]).0 != (#[trigger] actors@[j]).0,
        forall|k: int|
            0 <= k < actors@.len() ==> s.is_character((#[trigger] actors@[k]).0.0 as int),
        forall|k: int|
            0 <= k < actors@.len() ==> (((#[trigger] actors@[k]).1 is Push
                ==> actors@[k].1->Push_0.is_unit()) && (actors@[k].1 is Summon
                ==> actors@[k].1->Summon_0.is_unit())),
    ensures
        forall|k: int| 0 <= k < r.0@.len() ==> (#[trigger] r.0@[k]).1.is_unit(),
        forall|k: int| 0 <= k < r.1@.len() ==> (#[trigger] r.1@[k]).1.is_unit(),
        r.0@ == pushers_of(actors@),
        r.1@ == summoners_of(actors@),
        r.2@ == returners_of(actors@),
        forall|k: int, j: int|
            0 <= k < r.0@.len() && 0 <= j < r.0@.len() && k != j ==> (#[trigger] r.0@[k]).0 != (
            #[trigger] r.0@[j]).0,
        forall|k: int, j: int|
            0 <= k < r.1@.len() && 0 <= j < r.1@.len() && k != j ==> (#[trigger] r.1@[k]).0 != (
            #[trigger] r.1@[j]).0,
        forall|k: int, j: int|
            0 <= k < r.2@.len() && 0 <= j < r.2@.len() && k != j ==> (#[trigger] r.2@[k]) != (
            #[trigger] r.2@[j]),
        forall|k: int| 0 <= k < r.0@.len() ==> s.is_character((#[trigger] r.0@[k]).0.0 as int),
        forall|k: int| 0 <= k < r.1@.len() ==> s.is_character((#[trigger] r.1@[k]).0.0 as int),
        forall|k: int| 0 <= k < r.2@.len() ==> s.is_character((#[trigger] r.2@[k]).0 as int),
{
    let mut pushers: Vec<(Id, Offset)> = Vec::new();
    let mut summoners: Vec<(Id, Offset)> = Vec::new();
    let mut returners: Vec<Id> = Vec::new();
    let mut k: usize = 0;
    while k < actors.len()
        invariant
            forall|k2: int, j: int|
                0 <= k2 < actors@.len() && 0 <= j < actors@.len() && k2 != j ==> (
                #[trigger] actors@[k2]).0 != (#[trigger] actors@[j]).0,
            forall|k2: int|
                0 <= k2 < actors@.len() ==> s.is_character((#[trigger] actors@[k2]).0.0 as int),
            k <= actors@.len(),
            pushers@ == pushers_of(actors@.take(k as int)),
            summoners@ == summoners_of(actors@.take(k as int)),
            returners@ == returners_of(actors@.take(k as int)),
            forall|q: int|
                0 <= q < pushers@.len() ==> exists|j: int|
                    0 <= j < k && (#[trigger] pushers@[q]).0 == actors@[j].0,
            forall|q: int|
                0 <= q < summoners@.len() ==> exists|j: int|
                    0 <= j < k && (#[trigger] summoners@[q]).0 == actors@[j].0,
            forall|q: int|
                0 <= q < returners@.len() ==> exists|j: int|
                    0 <= j < k && (#[trigger] returners@[q]) == actors@[j].0,
            forall|q: int, q2: int|
                0 <= q < pushers@.len() && 0 <= q2 < pushers@.len() && q != q2 ==> (
                #[trigger] pushers@[q]).0 != (#[trigger] pushers@[q2]).0,
            forall|q: int, q2: int|
                0 <= q < summoners@.len() && 0 <= q2 < summoners@.len() && q != q2 ==> (
                #[trigger] summoners@[q]).0 != (#[trigger] summoners@[q2]).0,
            forall|q: int, q2: int|
                0 <= q < returners@.len() && 0 <= q2 < returners@.len() && q != q2 ==> (
                #[trigger] returners@[q]) != (#[trigger] returners@[q2]),
            forall|q: int|
                0 <= q < pushers@.len() ==> s.is_character((#[trigger] pushers@[q]).0.0 as int),
            forall|q: int| 0 <= q < pushers@.len() ==> (#[trigger] pushers@[q]).1.is_unit(),
            forall|q: int| 0 <= q < summoners@.len() ==> (#[trigger] summoners@[q]).1.is_unit(),
            forall|q: int|
                0 <= q < actors@.len() ==> (((#[trigger] actors@[q]).1 is Push
                    ==> actors@[q].1->Push_0.is_unit()) && (actors@[q].1 is Summon
                    ==> actors@[q].1->Summon_0.is_unit())),
            forall|q: int|
                0 <= q < summoners@.len() ==> s.is_character(
                    (#[trigger] summoners@[q]).0.0 as int,
                ),
            forall|q: int|
                0 <= q < returners@.len() ==> s.is_character((#[trigger] returners@[q]).0 as int),
            forall|q: int|
                0 <= q < pushers@.len() ==> !(exists|j: int|
                    0 <= j < k && (#[trigger] pushers@[q]).0 == actors@[j].0 && (exists|q2: int|
                        j < q2 < k && actors@[q2].0 == pushers@[q].0)),
        decreases actors@.len() - k,
    {
        let (id, action) = actors[k];
        let ghost oldp = pushers@;
        let ghost olds = summoners@;
        let ghost oldr = returners@;
        match action {
            Action::Push(o) => {
                pushers.push((id, o));
            },
            Action::Summon(o) => {
                summoners.push((id, o));
            },
            Action::Return => {
                returners.push(id);
            },
            Action::Wait => {},
        }
        k += 1;
        proof {
            assert(actors@.take(k as int).drop_last() =~= actors@.take(k as int - 1));
            assert(actors@.take(k as int).last() == actors@[k as int - 1]);
            assert forall|q: int, q2: int|
                0 <= q < pushers@.len() && 0 <= q2 < pushers@.len() && q != q2 implies (
            #[trigger] pushers@[q]).0 != (#[trigger] pushers@[q2]).0 by {
                if q2 == pushers@.len() - 1 && pushers@.len() > oldp.len() {
                    let j = choose|j: int|
                        0 <= j < k - 1 && (#[trigger] oldp[q]).0 == actors@[j].0;
                    assert(actors@[j].0 != actors@[k as int - 1].0);
                } else if q == pushers@.len() - 1 && pushers@.len() > oldp.len() {
                    let j = choose|j: int|
                        0 <= j < k - 1 && (#[trigger] oldp[q2]).0 == actors@[j].0;
                    assert(actors@[j].0 != actors@[k as int - 1].0);
                }
            }
            assert forall|q: int, q2: int|
                0 <= q < summoners@.len() && 0 <= q2 < summoners@.len() && q != q2 implies (
            #[trigger] summoners@[q]).0 != (#[trigger] summoners@[q2]).0 by {
                if q2 == summoners@.len() - 1 && summoners@.len() > olds.len() {
                    let j = choose|j: int|
                        0 <= j < k - 1 && (#[trigger] olds[q]).0 == actors@[j].0;
                    assert(actors@[j].0 != actors@[k as int - 1].0);
                } else if q == summoners@.len() - 1 && summoners@.len() > olds.len() {
                    let j = choose|j: int|
                        0 <= j < k - 1 && (#[trigger] olds[q2]).0 == actors@[j].0;
                    assert(actors@[j].0 != actors@[k as int - 1].0);
                }
            }
            assert forall|q: int, q2: int|
                0 <= q < returners@.len() && 0 <= q2 < returners@.len() && q != q2 implies (
            #[trigger] returners@[q]) != (#[trigger] returners@[q2]) by {
                if q2 == returners@.len() - 1 && returners@.len() > oldr.len() {
                    let j = choose|j: int| 0 <= j < k - 1 && (#[trigger] oldr[q]) == actors@[j].0;
                    assert(actors@[j].0 != actors@[k as int - 1].0);
                } else if q == returners@.len() - 1 && returners@.len() > oldr.len() {
                    let j = choose|j: int| 0 <= j < k - 1 && (#[trigger] oldr[q2]) == actors@[j].0;
                    assert(actors@[j].0 != actors@[k as int - 1].0);
                }
            }
        }
    }
    proof {
        assert(actors@.take(actors@.len() as int) =~= actors@);
    }
    (pushers, summoners, returners)
}

impl Level {
    /// Computes the returnings resulting from the given `returners`: each
    /// returner succeeds exactly when it stands on its own open portal.
    pub(crate) fn get_returnings(&self, returners: &Vec<Id>) -> (r: Vec<(Id, Returning)>)
        requires
            self.state_wf(),
            forall|k: int|
                0 <= k < returners@.len() ==> self.game().is_character(
                    (#[trigger] returners@[k]).0 as int,
                ),
        ensures
            r@ == rets_spec(self.game(), returners@),
    {
        let ghost s = self.game();
        let mut r: Vec<(Id, Returning)> = Vec::new();
        let mut k: usize = 0;
        while k < returners.len()
            invariant
                self.state_wf(),
                s == self.game(),
                forall|k2: int|
                    0 <= k2 < returners@.len() ==> s.is_character(
                        (#[trigger] returners@[k2]).0 as int,
                    ),
                k <= returners@.len(),
                r@ == rets_spec(s, returners@.take(k as int)),
            decreases returners@.len() - k,
        {
            let id = returners[k];
            let lo = self.object_copy(id.0);
            let succeeded: bool;
            match lo.object {
                crate::object::Object::Character(ch) => {
                    match ch.portal_coords {
                        Some(pc) => {
                            succeeded = pc == lo.coords;
                            if succeeded {
                                r.push(
                                    (
                                        id,
                                        Returning {
                                            returner: LevelCharacter {
                                                id: lo.id,
                                                character: ch,
                                                coords: lo.coords,
                                                facing: lo.facing,
                                            },
                                            linked_id: id,
                                        },
                                    ),
                                );
                            }
                        },
                        None => {
                            succeeded = false;
                        },
                    }
                },
                _ => {
                    proof {
                        assert(false);
                    }
                    succeeded = false;
                },
            }
            k += 1;
            proof {
                assert(returners@.take(k as int).drop_last() =~= returners@.take(k as int - 1));
                assert(returners@.take(k as int).last() == returners@[k as int - 1]);
            }
        }
        proof {
            assert(returners@.take(returners@.len() as int) =~= returners@);
        }
        r
    }

    /// Computes the list of colors not yet taken by any character, in
    /// index order.
    pub(crate) fn get_available_colors(&self) -> (r: Vec<CharacterColor>)
        requires
            self.state_wf(),
        ensures
            r@ == avail_spec(self.game()),
    {
        let ghost s = self.game();
        let mut r: Vec<CharacterColor> = Vec::new();
        let mut idx: usize = 0;
        while idx < COLOR_COUNT
            invariant
                self.state_wf(),
                s == self.game(),
                idx <= COLOR_COUNT,
                r@ == avail_upto(s, idx as int),
            decreases COLOR_COUNT - idx,
        {
            let color = CharacterColor::from_idx(idx);
            let used = self.color_in_use(color);
            if !used {
                r.push(color);
            }
            idx += 1;
        }
        r
    }

    /// Whether some live character wears `color`.
    fn color_in_use(&self, color: CharacterColor) -> (r: bool)
        requires
            self.state_wf(),
        ensures
            r == color_used(self.game(), color),
    {
        let ghost s = self.game();
        proof {
            self.lemma_dom_bound();
        }
        let mut i: usize = 0;
        let n = self.allocated_count();
        while i < n
            invariant
                self.state_wf(),
                s == self.game(),
                n == self.objects@.len(),
                n <= u32::MAX + 1,
                i <= n,
                forall|j: int|
                    0 <= j < i ==> !(s.is_character(j) && #[trigger] s.character(j).color
                        == color),
            decreases n - i,
        {
            let found = self.object_lookup(i as u32);
            proof {
                assert(i as u32 as int == i as int);
            }
            match found {
                Some(lo) => {
                    match lo.object {
                        crate::object::Object::Character(ch) => {
                            let same = ch.idx_color_eq(color);
                            if same {
                                proof {
                                    assert(lo == s.objects[i as int]);
                                    assert(s.is_character(i as int));
                                    assert(s.character(i as int) == ch);
                                }
                                return true;
                            }
                        },
                        _ => {},
                    }
                },
                None => {},
            }
            i += 1;
            proof {
                assert forall|j: int|
                    0 <= j < i implies !(s.is_character(j) && #[trigger] s.character(j).color
                        == color) by {
                    if j == i - 1 {
                        if s.is_character(j) {
                            assert(found == Some(s.objects[j]));
                        }
                    }
                }
            }
        }
        proof {
            if color_used(s, color) {
                let w = choose|w: int| s.is_character(w) && #[trigger] s.character(w).color
                    == color;
                self.lemma_dom_bound();
                assert(0 <= w < self.objects@.len());
                assert(!(s.is_character(w) && s.character(w).color == color));
            }
        }
        false
    }

    /// The empty floor tile most distant from `start` incrementing by
    /// `offset`.
    pub(crate) fn farthest_open_tile(&self, start: Coords, offset: Offset) -> (r: Option<Coords>)
        requires
            self.state_wf(),
            offset.is_unit(),
            self.game().in_bounds(start),
        ensures
            r == farthest_spec(self.game(), start, offset),
    {
        let ghost s = self.game();
        proof {
            self.lemma_game_props();
        }
        let mut result: Option<Coords> = None;
        let mut cur = start;
        let ghost mut n: int = 0;
        let h = self.height();
        let w = self.width();
        loop
            invariant
                self.state_wf(),
                s == self.game(),
                s.wf(),
                crate::team::small_dims(s),
                offset.is_unit(),
                s.in_bounds(start),
                h == s.height,
                w == s.width,
                0 <= n <= s.width + s.height,
                s.in_bounds(cur),
                cur.row as int == start.row + n * offset.row,
                cur.col as int == start.col + n * offset.col,
                result == farthest_upto(s, start, offset, n),
            decreases crate::team::steps_left(s, cur, offset),
        {
            let nxt = Coords { row: cur.row + offset.row, col: cur.col + offset.col };
            proof {
                assert(nxt.row as int == start.row + (n + 1) * offset.row && nxt.col as int
                    == start.col + (n + 1) * offset.col) by (nonlinear_arith)
                    requires
                        cur.row as int == start.row + n * offset.row,
                        cur.col as int == start.col + n * offset.col,
                        nxt.row as int == cur.row + offset.row,
                        nxt.col as int == cur.col + offset.col,
                ;
            }
            if nxt.row < 0 || nxt.col < 0 || nxt.row >= h as i32 || nxt.col >= w as i32 {
                proof {
                    if n + 1 <= s.width + s.height {
                        lemma_farthest_stops(s, start, offset, n + 1, s.width + s.height);
                    }
                }
                return result;
            }
            proof {
                assert(n + 1 <= s.width + s.height) by {
                    lemma_summon_n_bound(s, start, offset, n + 1);
                }
            }
            let tile = self.tile_at(nxt);
            let open = match tile {
                Tile::Floor { portal_color: None } => true,
                _ => false,
            };
            let empty_cell = match self.object_id_at(nxt) {
                Some(_) => false,
                None => true,
            };
            proof {
                assert(s.tile_index(nxt) == (start.row + (n + 1) * offset.row) * s.width + (
                start.col + (n + 1) * offset.col));
                assert((open && empty_cell) == summon_cell_ok(s, start, offset, n + 1));
            }
            if open && empty_cell {
                result = Some(nxt);
            }
            proof {
                n = n + 1;
                assert(nxt == (Coords {
                    row: (start.row + n * offset.row) as i32,
                    col: (start.col + n * offset.col) as i32,
                }));
                assert(result == farthest_upto(s, start, offset, n));
            }
            cur = nxt;
        }
    }

    /// Computes the summonings resulting from the given `summoners`,
    /// allocating a fresh id per attempt. The level state itself is
    /// unchanged.
    pub(crate) fn get_summonings(&mut self, summoners: &Vec<(Id, Offset)>) -> (r: Vec<
        (Id, Summoning),
    >)
        requires
            old(self).state_wf(),
            old(self).objects@.len() + COLOR_COUNT <= u32::MAX + 1,
            forall|k: int|
                0 <= k < summoners@.len() ==> old(self).game().is_character(
                    (#[trigger] summoners@[k]).0.0 as int,
                ) && summoners@[k].1.is_unit(),
        ensures
            final(self).state_wf(),
            final(self).game() == old(self).game(),
            r@ == sums_spec(old(self).game(), summoners@, old(self).objects@.len() as int),
            final(self).history@ == old(self).history@,
            final(self).turn == old(self).turn,
            final(self).snaps == old(self).snaps,
            old(self).objects@.len() <= final(self).objects@.len(),
            final(self).objects@.len() <= old(self).objects@.len() + COLOR_COUNT,
            forall|k: int|
                0 <= k < r@.len() ==> (#[trigger] r@[k]).1.summon.id.0 < final(self).objects@.len(),
    {
        let ghost s = self.game();
        let ghost next0 = self.objects@.len() as int;
        proof {
            self.lemma_game_props();
            self.lemma_dom_bound();
        }
        let avail = self.get_available_colors();
        let m = if summoners.len() <= avail.len() {
            summoners.len()
        } else {
            avail.len()
        };
        proof {
            lemma_avail_len(s, COLOR_COUNT as int);
        }
        let mut r: Vec<(Id, Summoning)> = Vec::new();
        let mut k: usize = 0;
        while k < m
            invariant
                self.state_wf(),
                s == self.game(),
                s.wf(),
                next0 == old(self).objects@.len(),
                avail@ == avail_spec(s),
                m <= summoners@.len(),
                m <= avail@.len(),
                m <= COLOR_COUNT,
                m == if summoners@.len() <= avail@.len() {
                    summoners@.len() as int
                } else {
                    avail@.len() as int
                },
                forall|k2: int|
                    0 <= k2 < summoners@.len() ==> s.is_character(
                        (#[trigger] summoners@[k2]).0.0 as int,
                    ) && summoners@[k2].1.is_unit(),
                k <= m,
                self.objects@.len() == next0 + k,
                next0 + COLOR_COUNT <= u32::MAX + 1,
                r@ == sums_upto(s, summoners@, avail@, next0, k as int),
                forall|q: int|
                    0 <= q < r@.len() ==> (#[trigger] r@[q]).1.summon.id.0 < next0 + k,
                self.history@ == old(self).history@,
                self.turn == old(self).turn,
                self.snaps == old(self).snaps,
            decreases m - k,
        {
            let (sid, o) = summoners[k];
            let summon_id = self.alloc_object_id();
            let lo = self.object_copy(sid.0);
            let target = self.farthest_open_tile(lo.coords, o);
            match target {
                Some(cell) => {
                    let color = avail[k];
                    let portal_color = match lo.object {
                        crate::object::Object::Character(ch) => ch.color,
                        _ => {
                            proof {
                                assert(false);
                            }
                            color
                        },
                    };
                    r.push(
                        (
                            sid,
                            Summoning {
                                summon: LevelCharacter {
                                    id: Id(summon_id),
                                    character: Character {
                                        color,
                                        sliding: false,
                                        portal_coords: None,
                                    },
                                    coords: cell,
                                    facing: Offset::right(),
                                },
                                linked_id: sid,
                                portal_color,
                            },
                        ),
                    );
                },
                None => {},
            }
            k += 1;
        }
        proof {
            assert(r@ == sums_spec(s, summoners@, next0));
        }
        r
    }
}

/// Every pushing entry carries the id of an actor that pushed.
pub(crate) proof fn lemma_pushers_of_entries(actors: Seq<(Id, Action)>)
    ensures
        forall|q: int|
            0 <= q < pushers_of(actors).len() ==> exists|j: int|
                0 <= j < actors.len() && actors[j].0 == (#[trigger] pushers_of(actors)[q]).0
                    && actors[j].1 is Push,
    decreases actors.len(),
{
    if actors.len() > 0 {
        lemma_pushers_of_entries(actors.drop_last());
        let rest = pushers_of(actors.drop_last());
        assert forall|q: int| 0 <= q < pushers_of(actors).len() implies exists|j: int|
            0 <= j < actors.len() && actors[j].0 == (#[trigger] pushers_of(actors)[q]).0
                && actors[j].1 is Push by {
            if q < rest.len() {
                let j = choose|j: int|
                    0 <= j < actors.drop_last().len() && actors.drop_last()[j].0 == rest[q].0
                        && actors.drop_last()[j].1 is Push;
                assert(actors[j] == actors.drop_last()[j]);
            } else {
                assert(actors[actors.len() - 1].0 == pushers_of(actors)[q].0);
            }
        }
    }
}

/// Every summoning entry carries the id of an actor that summoned.
pub(crate) proof fn lemma_summoners_of_entries(actors: Seq<(Id, Action)>)
    ensures
        forall|q: int|
            0 <= q < summoners_of(actors).len() ==> exists|j: int|
                0 <= j < actors.len() && actors[j].0 == (#[trigger] summoners_of(actors)[q]).0
                    && actors[j].1 is Summon,
    decreases actors.len(),
{
    if actors.len() > 0 {
        lemma_summoners_of_entries(actors.drop_last());
        let rest = summoners_of(actors.drop_last());
        assert forall|q: int| 0 <= q < summoners_of(actors).len() implies exists|j: int|
            0 <= j < actors.len() && actors[j].0 == (#[trigger] summoners_of(actors)[q]).0
                && actors[j].1 is Summon by {
            if q < rest.len() {
                let j = choose|j: int|
                    0 <= j < actors.drop_last().len() && actors.drop_last()[j].0 == rest[q].0
                        && actors.drop_last()[j].1 is Summon;
                assert(actors[j] == actors.drop_last()[j]);
            } else {
                assert(actors[actors.len() - 1].0 == summoners_of(actors)[q].0);
            }
        }
    }
}

/// Every returning entry carries the id of an actor that returned.
pub(crate) proof fn lemma_returners_of_entries(actors: Seq<(Id, Action)>)
    ensures
        forall|q: int|
            0 <= q < returners_of(actors).len() ==> exists|j: int|
                0 <= j < actors.len() && actors[j].0 == #[trigger] returners_of(actors)[q]
                    && actors[j].1 is Return,
    decreases actors.len(),
{
    if actors.len() > 0 {
        lemma_returners_of_entries(actors.drop_last());
        let rest = returners_of(actors.drop_last());
        assert forall|q: int| 0 <= q < returners_of(actors).len() implies exists|j: int|
            0 <= j < actors.len() && actors[j].0 == #[trigger] returners_of(actors)[q]
                && actors[j].1 is Return by {
            if q < rest.len() {
                let j = choose|j: int|
                    0 <= j < actors.drop_last().len() && actors.drop_last()[j].0 == rest[q]
                        && actors.drop_last()[j].1 is Return;
                assert(actors[j] == actors.drop_last()[j]);
            } else {
                assert(actors[actors.len() - 1].0 == returners_of(actors)[q]);
            }
        }
    }
}

/// Every resolved returning removes one of the given returners.
pub(crate) proof fn lemma_rets_spec_entries(s: GameState, rids: Seq<Id>)
    requires
        s.wf(),
        forall|k: int| 0 <= k < rids.len() ==> s.is_character((#[trigger] rids[k]).0 as int),
    ensures
        forall|q: int|
            0 <= q < rets_spec(s, rids).len() ==> exists|j: int|
                0 <= j < rids.len() && rids[j] == (#[trigger] rets_spec(s, rids)[q]).1.returner.id,
    decreases rids.len(),
{
    if rids.len() > 0 {
        lemma_rets_spec_entries(s, rids.drop_last());
        let rest = rets_spec(s, rids.drop_last());
        assert forall|q: int| 0 <= q < rets_spec(s, rids).len() implies exists|j: int|
            0 <= j < rids.len() && rids[j] == (#[trigger] rets_spec(s, rids)[q]).1.returner.id by {
            if q < rest.len() {
                let j = choose|j: int|
                    0 <= j < rids.drop_last().len() && rids.drop_last()[j] == rest[q].1.returner.id;
                assert(rids[j] == rids.drop_last()[j]);
            } else {
                let i = rids.last().0 as int;
                assert(s.objects[i].id.0 == i);
                assert(rids[rids.len() - 1] == rets_spec(s, rids)[q].1.returner.id);
            }
        }
    }
}

/// The free-color list never exceeds the color count.
proof fn lemma_avail_len(s: GameState, n: int)
    ensures
        avail_upto(s, n).len() <= (if n >= 0 {
            n
        } else {
            0
        }),
    decreases n,
{
    if n > 0 {
        lemma_avail_len(s, n - 1);
    }
}

/// Once the walk has left the grid, no farther cell is a candidate.
proof fn lemma_farthest_stops(s: GameState, start: Coords, o: Offset, n0: int, nhi: int)
    requires
        o.is_unit(),
        s.in_bounds(start),
        1 <= n0 <= nhi,
        !(0 <= start.row + n0 * o.row < s.height && 0 <= start.col + n0 * o.col < s.width),
    ensures
        farthest_upto(s, start, o, nhi) == farthest_upto(s, start, o, n0 - 1),
    decreases nhi,
{
    if nhi >= n0 {
        assert(!summon_cell_ok(s, start, o, nhi)) by {
            assert(!(0 <= start.row + nhi * o.row < s.height && 0 <= start.col + nhi * o.col
                < s.width)) by (nonlinear_arith)
                requires
                    (o.row == -1 && o.col == 0) || (o.row == 1 && o.col == 0) || (o.row == 0
                        && o.col == -1) || (o.row == 0 && o.col == 1),
                    0 <= start.row < s.height,
                    0 <= start.col < s.width,
                    1 <= n0 <= nhi,
                    !(0 <= start.row + n0 * o.row < s.height && 0 <= start.col + n0 * o.col
                        < s.width),
            ;
        }
        if nhi > n0 {
            lemma_farthest_stops(s, start, o, n0, nhi - 1);
        }
    }
}

/// A cell still on the grid is at most `width + height` steps out.
proof fn lemma_summon_n_bound(s: GameState, start: Coords, o: Offset, n: int)
    requires
        o.is_unit(),
        s.in_bounds(start),
        1 <= n,
        0 <= start.row + n * o.row < s.height,
        0 <= start.col + n * o.col < s.width,
    ensures
        n <= s.width + s.height,
{
    assert(n <= s.width + s.height) by (nonlinear_arith)
        requires
            (o.row == -1 && o.col == 0) || (o.row == 1 && o.col == 0) || (o.row == 0 && o.col
                == -1) || (o.row == 0 && o.col == 1),
            0 <= start.row < s.height,
            0 <= start.col < s.width,
            1 <= n,
            0 <= start.row + n * o.row < s.height,
            0 <= start.col + n * o.col < s.width,
    ;
}

} // verus!
