//! Entry-by-entry decompositions of the phase applications: what one more
//! returning, move, or summoning does to the state reached by the entries
//! before it. The level's executable mutation loops are proved against
//! these.

use vstd::prelude::*;

use crate::change::Move;
use crate::change::Returning;
use crate::change::Summoning;
use crate::object::Id;
use crate::object::Tile;
use crate::state::GameState;
use crate::state::apply_movs;
use crate::state::apply_rets;
use crate::state::apply_sums;
use crate::state::has_move;
use crate::state::is_ret_linked;
use crate::state::is_ret_tile;
use crate::state::is_returner;
use crate::state::is_sum_linked;
use crate::state::is_sum_tile;
use crate::state::is_summon_id;
use crate::state::linking_of;
use crate::state::move_of;
use crate::state::mov_ok;
use crate::state::ret_ok;
use crate::state::sum_ok;
use crate::state::sum_tile_of;
use crate::state::summoning_of;
use crate::state::with_portal;
use crate::state::lemma_tile_index_bounds;

verus! {

/// A prefix of an applicable returning list is applicable, and entry `k` of
/// the list is untouched by the entries before it: in the state they leave,
/// the returner and the linked character still stand exactly as recorded.
/// Appending entry `k` to the prefix unlinks the linked character, removes
/// the returner, and closes the returner's tile.
pub proof fn lemma_ret_take_step(s: GameState, rets: Seq<(Id, Returning)>, k: int)
    requires
        s.wf(),
        ret_ok(rets, s),
        0 <= k < rets.len(),
    ensures
        ({
            let sk = apply_rets(s, rets.take(k));
            let r = rets[k].1;
            let rid = r.returner.id.0 as int;
            let l = r.linked_id.0 as int;
            &&& sk.objects.dom().contains(rid)
            &&& sk.objects[rid] == r.returner.spec_to_level_object()
            &&& sk.objects.dom().contains(l)
            &&& sk.objects[l] == s.objects[l]
            &&& sk.objects[l].object is Character
            &&& sk.width == s.width
            &&& sk.height == s.height
            &&& sk.tiles.len() == s.tiles.len()
            &&& 0 <= s.tile_index(r.returner.coords) < s.tiles.len()
            &&& apply_rets(s, rets.take(k + 1)).objects == sk.objects.insert(
                l,
                with_portal(sk.objects[l], None),
            ).remove(rid)
            &&& apply_rets(s, rets.take(k + 1)).tiles == sk.tiles.update(
                s.tile_index(r.returner.coords),
                Tile::Floor { portal_color: None },
            )
        }),
{
    let sk = apply_rets(s, rets.take(k));
    let skk = apply_rets(s, rets.take(k + 1));
    let r = rets[k].1;
    let rid = r.returner.id.0 as int;
    let l = r.linked_id.0 as int;
    lemma_tile_index_bounds(s, r.returner.coords);
    assert(!is_returner(rets.take(k), rid)) by {
        if is_returner(rets.take(k), rid) {
            let j = choose|j: int|
                0 <= j < rets.take(k).len() && #[trigger] rets.take(k)[j].1.returner.id.0 == rid;
            assert(rets[j].1.returner.id == rets[k].1.returner.id);
        }
    }
    assert(!is_ret_linked(rets.take(k), rid)) by {
        if is_ret_linked(rets.take(k), rid) {
            let j = choose|j: int|
                0 <= j < rets.take(k).len() && #[trigger] rets.take(k)[j].1.linked_id.0 == rid;
            assert(rets[j].1.linked_id.0 == rid);
            assert(rets[j].1.linked_id != rets[k].1.returner.id);
        }
    }
    assert(!is_returner(rets.take(k), l)) by {
        if is_returner(rets.take(k), l) {
            let j = choose|j: int|
                0 <= j < rets.take(k).len() && #[trigger] rets.take(k)[j].1.returner.id.0 == l;
            assert(rets[k].1.linked_id != rets[j].1.returner.id);
        }
    }
    assert(!is_ret_linked(rets.take(k), l)) by {
        if is_ret_linked(rets.take(k), l) {
            let j = choose|j: int|
                0 <= j < rets.take(k).len() && #[trigger] rets.take(k)[j].1.linked_id.0 == l;
            assert(rets[k].1.linked_id != rets[j].1.linked_id);
        }
    }
    let objstep = sk.objects.insert(l, with_portal(sk.objects[l], None)).remove(rid);
    assert(skk.objects =~= objstep) by {
        assert forall|i: int| skk.objects.dom().contains(i) == objstep.dom().contains(i) by {
            if is_returner(rets.take(k + 1), i) {
                let j = choose|j: int|
                    0 <= j < rets.take(k + 1).len() && #[trigger] rets.take(
                        k + 1,
                    )[j].1.returner.id.0 == i;
                if j < k {
                    assert(rets.take(k)[j].1.returner.id.0 == i);
                } else {
                    assert(i == rid);
                }
            }
            if is_returner(rets.take(k), i) {
                let j = choose|j: int|
                    0 <= j < rets.take(k).len() && #[trigger] rets.take(k)[j].1.returner.id.0 == i;
                assert(rets.take(k + 1)[j].1.returner.id.0 == i);
            }
            if i == rid {
                assert(rets.take(k + 1)[k].1.returner.id.0 == i);
            }
        }
        assert forall|i: int| objstep.dom().contains(i) implies skk.objects[i] == objstep[i] by {
            assert(s.objects.dom().contains(i) && !is_returner(rets.take(k + 1), i));
            assert(!is_returner(rets.take(k), i)) by {
                if is_returner(rets.take(k), i) {
                    let j = choose|j: int|
                        0 <= j < rets.take(k).len() && #[trigger] rets.take(
                            k,
                        )[j].1.returner.id.0 == i;
                    assert(rets.take(k + 1)[j].1.returner.id.0 == i);
                }
            }
            if i == l {
                assert(is_ret_linked(rets.take(k + 1), i)) by {
                    assert(rets.take(k + 1)[k].1.linked_id.0 == i);
                }
                assert(skk.objects[i] == with_portal(s.objects[i], None));
            } else {
                assert(is_ret_linked(rets.take(k + 1), i) == is_ret_linked(rets.take(k), i)) by {
                    if is_ret_linked(rets.take(k + 1), i) {
                        let j = choose|j: int|
                            0 <= j < rets.take(k + 1).len() && #[trigger] rets.take(
                                k + 1,
                            )[j].1.linked_id.0 == i;
                        if j < k {
                            assert(rets.take(k)[j].1.linked_id.0 == i);
                        } else {
                            assert(i == l);
                        }
                    }
                    if is_ret_linked(rets.take(k), i) {
                        let j = choose|j: int|
                            0 <= j < rets.take(k).len() && #[trigger] rets.take(
                                k,
                            )[j].1.linked_id.0 == i;
                        assert(rets.take(k + 1)[j].1.linked_id.0 == i);
                    }
                }
            }
        }
    }
    let tilestep = sk.tiles.update(
        s.tile_index(r.returner.coords),
        Tile::Floor { portal_color: None },
    );
    assert(skk.tiles =~= tilestep) by {
        assert forall|t: int| 0 <= t < s.tiles.len() implies skk.tiles[t] == tilestep[t] by {
            assert(is_ret_tile(s, rets.take(k + 1), t) == (is_ret_tile(s, rets.take(k), t) || t
                == s.tile_index(r.returner.coords))) by {
                if is_ret_tile(s, rets.take(k + 1), t) {
                    let j = choose|j: int|
                        0 <= j < rets.take(k + 1).len() && #[trigger] s.tile_index(
                            rets.take(k + 1)[j].1.returner.coords,
                        ) == t;
                    if j < k {
                        assert(s.tile_index(rets.take(k)[j].1.returner.coords) == t);
                    }
                }
                if is_ret_tile(s, rets.take(k), t) {
                    let j = choose|j: int|
                        0 <= j < rets.take(k).len() && #[trigger] s.tile_index(
                            rets.take(k)[j].1.returner.coords,
                        ) == t;
                    assert(s.tile_index(rets.take(k + 1)[j].1.returner.coords) == t);
                }
                if t == s.tile_index(r.returner.coords) {
                    assert(s.tile_index(rets.take(k + 1)[k].1.returner.coords) == t);
                }
            }
        }
    }
}

/// A full list is its own prefix of full length.
pub proof fn lemma_take_full<T>(s: Seq<T>)
    ensures
        s.take(s.len() as int) == s,
{
    assert(s.take(s.len() as int) =~= s);
}

/// Entry `k` of an applicable move list is untouched by the entries before
/// it, and appending it to the prefix moves exactly its object.
pub proof fn lemma_mov_take_step(s: GameState, moves: Seq<(Id, Move)>, k: int)
    requires
        s.wf(),
        mov_ok(moves, s),
        0 <= k < moves.len(),
    ensures
        ({
            let sk = apply_movs(s, moves.take(k));
            let (id, m) = moves[k];
            let i = id.0 as int;
            &&& sk.objects.dom().contains(i)
            &&& sk.objects[i] == s.objects[i]
            &&& sk.width == s.width
            &&& sk.height == s.height
            &&& sk.tiles == s.tiles
            &&& apply_movs(s, moves.take(k + 1)).objects == sk.objects.insert(
                i,
                crate::object::LevelObject {
                    id: s.objects[i].id,
                    object: s.objects[i].object,
                    coords: m.to_coords,
                    facing: m.to_facing,
                },
            )
            &&& apply_movs(s, moves.take(k + 1)).tiles == s.tiles
        }),
{
    let sk = apply_movs(s, moves.take(k));
    let skk = apply_movs(s, moves.take(k + 1));
    let i = moves[k].0.0 as int;
    assert(!has_move(moves.take(k), i)) by {
        if has_move(moves.take(k), i) {
            let j = choose|j: int|
                0 <= j < moves.take(k).len() && #[trigger] moves.take(k)[j].0.0 == i;
            assert(moves[j].0 != moves[k].0);
        }
    }
    let objstep = sk.objects.insert(
        i,
        crate::object::LevelObject {
            id: s.objects[i].id,
            object: s.objects[i].object,
            coords: moves[k].1.to_coords,
            facing: moves[k].1.to_facing,
        },
    );
    assert(skk.objects =~= objstep) by {
        assert forall|j: int| objstep.dom().contains(j) implies skk.objects[j] == objstep[j] by {
            assert(has_move(moves.take(k + 1), i)) by {
                assert(moves.take(k + 1)[k].0.0 == i);
            }
            if j == i {
                let jc = choose|jc: int|
                    0 <= jc < moves.take(k + 1).len() && #[trigger] moves.take(k + 1)[jc].0.0 == j;
                assert(moves[jc].0.0 == i);
                assert(jc == k);
                assert(move_of(moves.take(k + 1), i) == moves[k].1);
            } else {
                assert(has_move(moves.take(k + 1), j) == has_move(moves.take(k), j)) by {
                    if has_move(moves.take(k + 1), j) {
                        let jc = choose|jc: int|
                            0 <= jc < moves.take(k + 1).len() && #[trigger] moves.take(
                                k + 1,
                            )[jc].0.0 == j;
                        if jc < k {
                            assert(moves.take(k)[jc].0.0 == j);
                        } else {
                            assert(j == i);
                        }
                    }
                    if has_move(moves.take(k), j) {
                        let jc = choose|jc: int|
                            0 <= jc < moves.take(k).len() && #[trigger] moves.take(
                                k,
                            )[jc].0.0 == j;
                        assert(moves.take(k + 1)[jc].0.0 == j);
                    }
                }
                if has_move(moves.take(k), j) {
                    let jc = choose|jc: int|
                        0 <= jc < moves.take(k).len() && #[trigger] moves.take(k)[jc].0.0 == j;
                    assert(moves.take(k + 1)[jc].0.0 == j);
                    let ja = choose|ja: int|
                        0 <= ja < moves.take(k).len() && #[trigger] moves.take(k)[ja].0.0 == j;
                    let jb = choose|jb: int|
                        0 <= jb < moves.take(k + 1).len() && #[trigger] moves.take(
                            k + 1,
                        )[jb].0.0 == j;
                    assert(moves[ja].0.0 == j && moves[jb].0.0 == j);
                    assert(ja == jb);
                    assert(move_of(moves.take(k + 1), j) == move_of(moves.take(k), j));
                }
            }
        }
    }
}

/// Entry `k` of an applicable summoning list is untouched by the entries
/// before it: its summon id is still free, its cell is still unoccupied,
/// and its linked character (when distinct from the summon) still stands
/// with no portal. Appending it spawns the summon, opens its portal tile,
/// and links the linked character.
pub proof fn lemma_sum_take_step(s: GameState, sums: Seq<(Id, Summoning)>, k: int)
    requires
        s.wf(),
        sum_ok(sums, s),
        0 <= k < sums.len(),
    ensures
        ({
            let sk = apply_sums(s, sums.take(k));
            let sm = sums[k].1;
            let sid = sm.summon.id.0 as int;
            let l = sm.linked_id.0 as int;
            let slo = sm.summon.spec_to_level_object();
            &&& !sk.objects.dom().contains(sid)
            &&& !sk.occupied(sm.summon.coords)
            &&& (sm.linked_id != sm.summon.id ==> sk.objects.dom().contains(l) && sk.objects[l]
                == s.objects[l] && sk.objects[l].object is Character)
            &&& sk.width == s.width
            &&& sk.height == s.height
            &&& sk.tiles.len() == s.tiles.len()
            &&& 0 <= s.tile_index(sm.summon.coords) < s.tiles.len()
            &&& apply_sums(s, sums.take(k + 1)).objects == sk.objects.insert(sid, slo).insert(
                l,
                with_portal(sk.objects.insert(sid, slo)[l], Some(sm.summon.coords)),
            )
            &&& apply_sums(s, sums.take(k + 1)).tiles == sk.tiles.update(
                s.tile_index(sm.summon.coords),
                Tile::Floor { portal_color: Some(sm.portal_color) },
            )
        }),
{
    let sk = apply_sums(s, sums.take(k));
    let skk = apply_sums(s, sums.take(k + 1));
    let sm = sums[k].1;
    let sid = sm.summon.id.0 as int;
    let l = sm.linked_id.0 as int;
    let slo = sm.summon.spec_to_level_object();
    lemma_tile_index_bounds(s, sm.summon.coords);
    assert(!is_summon_id(sums.take(k), sid)) by {
        if is_summon_id(sums.take(k), sid) {
            let j = choose|j: int|
                0 <= j < sums.take(k).len() && #[trigger] sums.take(k)[j].1.summon.id.0 == sid;
            assert(sums[j].1.summon.id != sums[k].1.summon.id);
        }
    }
    assert(!is_sum_linked(sums.take(k), l)) by {
        if is_sum_linked(sums.take(k), l) {
            let j = choose|j: int|
                0 <= j < sums.take(k).len() && #[trigger] sums.take(k)[j].1.linked_id.0 == l;
            assert(sums[j].1.linked_id != sums[k].1.linked_id);
        }
    }
    assert(!is_summon_id(sums.take(k), l) || l == sid) by {
        if is_summon_id(sums.take(k), l) && l != sid {
            let j = choose|j: int|
                0 <= j < sums.take(k).len() && #[trigger] sums.take(k)[j].1.summon.id.0 == l;
            // A linked character distinct from its summon is live, while
            // summoned ids are fresh.
            assert(s.objects.dom().contains(l));
            assert(!s.objects.dom().contains(sums[j].1.summon.id.0 as int));
        }
    }
    assert(!sk.occupied(sm.summon.coords)) by {
        if sk.occupied(sm.summon.coords) {
            let w = choose|w: int| #[trigger]
                sk.objects.dom().contains(w) && sk.objects[w].coords == sm.summon.coords;
            if is_summon_id(sums.take(k), w) {
                let j = choose|j: int|
                    0 <= j < sums.take(k).len() && #[trigger] sums.take(k)[j].1.summon.id.0 == w;
                let ja = choose|ja: int|
                    0 <= ja < sums.take(k).len() && #[trigger] sums.take(
                        k,
                    )[ja].1.summon.id.0 == w;
                assert(sums.take(k)[ja].1.summon.id.0 == w);
                assert(summoning_of(sums.take(k), w) == sums.take(k)[ja].1) by {
                    assert(ja == choose|jb: int|
                        0 <= jb < sums.take(k).len() && #[trigger] sums.take(
                            k,
                        )[jb].1.summon.id.0 == w);
                }
                assert(sums[ja].1.summon.coords != sums[k].1.summon.coords);
            } else {
                assert(sk.objects[w].coords == s.objects[w].coords);
                assert(s.occupied(sm.summon.coords));
            }
        }
    }
    if sm.linked_id != sm.summon.id {
        assert(s.objects.dom().contains(l));
        assert(!is_summon_id(sums.take(k), l));
        assert(sk.objects[l] == s.objects[l]);
    }
    let base = sk.objects.insert(sid, slo);
    let objstep = base.insert(l, with_portal(base[l], Some(sm.summon.coords)));
    assert(skk.objects =~= objstep) by {
        assert forall|i: int| skk.objects.dom().contains(i) == objstep.dom().contains(i) by {
            if is_summon_id(sums.take(k + 1), i) {
                let j = choose|j: int|
                    0 <= j < sums.take(k + 1).len() && #[trigger] sums.take(
                        k + 1,
                    )[j].1.summon.id.0 == i;
                if j < k {
                    assert(sums.take(k)[j].1.summon.id.0 == i);
                } else {
                    assert(i == sid);
                }
            }
            if is_summon_id(sums.take(k), i) {
                let j = choose|j: int|
                    0 <= j < sums.take(k).len() && #[trigger] sums.take(k)[j].1.summon.id.0 == i;
                assert(sums.take(k + 1)[j].1.summon.id.0 == i);
            }
            if i == sid {
                assert(sums.take(k + 1)[k].1.summon.id.0 == i);
            }
        }
        assert forall|i: int| objstep.dom().contains(i) implies skk.objects[i] == objstep[i] by {
            assert(sums.take(k + 1)[k] == sums[k]);
            assert(is_summon_id(sums.take(k + 1), sid)) by {
                assert(sums.take(k + 1)[k].1.summon.id.0 == sid);
            }
            assert(is_sum_linked(sums.take(k + 1), l)) by {
                assert(sums.take(k + 1)[k].1.linked_id.0 == l);
            }
            if i == sid {
                let jc = choose|jc: int|
                    0 <= jc < sums.take(k + 1).len() && #[trigger] sums.take(
                        k + 1,
                    )[jc].1.summon.id.0 == i;
                assert(jc == k);
                assert(summoning_of(sums.take(k + 1), i) == sums[k].1);
                if l == sid {
                    assert(with_portal(slo, Some(sm.summon.coords)) == slo);
                    assert(objstep[i] == slo);
                }
            } else if i == l {
                let jc = choose|jc: int|
                    0 <= jc < sums.take(k + 1).len() && #[trigger] sums.take(
                        k + 1,
                    )[jc].1.linked_id.0 == i;
                assert(jc == k);
                assert(linking_of(sums.take(k + 1), i) == sums[k].1);
                assert(!is_summon_id(sums.take(k + 1), i)) by {
                    if is_summon_id(sums.take(k + 1), i) {
                        let j = choose|j: int|
                            0 <= j < sums.take(k + 1).len() && #[trigger] sums.take(
                                k + 1,
                            )[j].1.summon.id.0 == i;
                        if j < k {
                            assert(sums.take(k)[j].1.summon.id.0 == i);
                            assert(!s.objects.dom().contains(
                                sums.take(k)[j].1.summon.id.0 as int,
                            ));
                        } else {
                            assert(i == sid);
                        }
                    }
                }
                assert(skk.objects[i] == with_portal(s.objects[i], Some(sm.summon.coords)));
            } else {
                assert(is_summon_id(sums.take(k + 1), i) == is_summon_id(sums.take(k), i)) by {
                    if is_summon_id(sums.take(k + 1), i) {
                        let j = choose|j: int|
                            0 <= j < sums.take(k + 1).len() && #[trigger] sums.take(
                                k + 1,
                            )[j].1.summon.id.0 == i;
                        if j < k {
                            assert(sums.take(k)[j].1.summon.id.0 == i);
                        } else {
                            assert(i == sid);
                        }
                    }
                    if is_summon_id(sums.take(k), i) {
                        let j = choose|j: int|
                            0 <= j < sums.take(k).len() && #[trigger] sums.take(
                                k,
                            )[j].1.summon.id.0 == i;
                        assert(sums.take(k + 1)[j].1.summon.id.0 == i);
                    }
                }
                assert(is_sum_linked(sums.take(k + 1), i) == is_sum_linked(sums.take(k), i)) by {
                    if is_sum_linked(sums.take(k + 1), i) {
                        let j = choose|j: int|
                            0 <= j < sums.take(k + 1).len() && #[trigger] sums.take(
                                k + 1,
                            )[j].1.linked_id.0 == i;
                        if j < k {
                            assert(sums.take(k)[j].1.linked_id.0 == i);
                        } else {
                            assert(i == l);
                        }
                    }
                    if is_sum_linked(sums.take(k), i) {
                        let j = choose|j: int|
                            0 <= j < sums.take(k).len() && #[trigger] sums.take(
                                k,
                            )[j].1.linked_id.0 == i;
                        assert(sums.take(k + 1)[j].1.linked_id.0 == i);
                    }
                }
                if is_summon_id(sums.take(k), i) {
                    let ja = choose|ja: int|
                        0 <= ja < sums.take(k).len() && #[trigger] sums.take(
                            k,
                        )[ja].1.summon.id.0 == i;
                    let jb = choose|jb: int|
                        0 <= jb < sums.take(k + 1).len() && #[trigger] sums.take(
                            k + 1,
                        )[jb].1.summon.id.0 == i;
                    assert(sums.take(k)[ja].1.summon.id.0 == i);
                    assert(sums.take(k + 1)[jb].1.summon.id.0 == i);
                    assert(ja == jb);
                    assert(summoning_of(sums.take(k + 1), i) == summoning_of(sums.take(k), i));
                } else if is_sum_linked(sums.take(k), i) {
                    let ja = choose|ja: int|
                        0 <= ja < sums.take(k).len() && #[trigger] sums.take(
                            k,
                        )[ja].1.linked_id.0 == i;
                    let jb = choose|jb: int|
                        0 <= jb < sums.take(k + 1).len() && #[trigger] sums.take(
                            k + 1,
                        )[jb].1.linked_id.0 == i;
                    assert(sums.take(k)[ja].1.linked_id.0 == i);
                    assert(sums.take(k + 1)[jb].1.linked_id.0 == i);
                    assert(ja == jb);
                    assert(linking_of(sums.take(k + 1), i) == linking_of(sums.take(k), i));
                }
            }
        }
    }
    let tilestep = sk.tiles.update(
        s.tile_index(sm.summon.coords),
        Tile::Floor { portal_color: Some(sm.portal_color) },
    );
    assert(skk.tiles =~= tilestep) by {
        assert forall|t: int| 0 <= t < s.tiles.len() implies skk.tiles[t] == tilestep[t] by {
            assert(is_sum_tile(s, sums.take(k + 1), t) == (is_sum_tile(s, sums.take(k), t) || t
                == s.tile_index(sm.summon.coords))) by {
                if is_sum_tile(s, sums.take(k + 1), t) {
                    let j = choose|j: int|
                        0 <= j < sums.take(k + 1).len() && #[trigger] s.tile_index(
                            sums.take(k + 1)[j].1.summon.coords,
                        ) == t;
                    if j < k {
                        assert(s.tile_index(sums.take(k)[j].1.summon.coords) == t);
                    }
                }
                if is_sum_tile(s, sums.take(k), t) {
                    let j = choose|j: int|
                        0 <= j < sums.take(k).len() && #[trigger] s.tile_index(
                            sums.take(k)[j].1.summon.coords,
                        ) == t;
                    assert(s.tile_index(sums.take(k + 1)[j].1.summon.coords) == t);
                }
                if t == s.tile_index(sm.summon.coords) {
                    assert(s.tile_index(sums.take(k + 1)[k].1.summon.coords) == t);
                }
            }
            if is_sum_tile(s, sums.take(k + 1), t) {
                // Distinct summon cells occupy distinct tiles, so the
                // choices on both sides agree.
                let jb = choose|jb: int|
                    0 <= jb < sums.take(k + 1).len() && #[trigger] s.tile_index(
                        sums.take(k + 1)[jb].1.summon.coords,
                    ) == t;
                if t == s.tile_index(sm.summon.coords) {
                    assert(jb == k) by {
                        if jb != k {
                            crate::state::lemma_tile_index_injective(
                                s,
                                sums.take(k + 1)[jb].1.summon.coords,
                                sm.summon.coords,
                            );
                            assert(sums[jb].1.summon.coords != sums[k].1.summon.coords);
                        }
                    }
                    assert(sum_tile_of(s, sums.take(k + 1), t) == sm);
                } else {
                    assert(jb != k);
                    assert(s.tile_index(sums.take(k)[jb].1.summon.coords) == t);
                    assert(is_sum_tile(s, sums.take(k), t));
                    let ja = choose|ja: int|
                        0 <= ja < sums.take(k).len() && #[trigger] s.tile_index(
                            sums.take(k)[ja].1.summon.coords,
                        ) == t;
                    assert(ja == jb) by {
                        if ja != jb {
                            crate::state::lemma_tile_index_injective(
                                s,
                                sums.take(k)[ja].1.summon.coords,
                                sums.take(k + 1)[jb].1.summon.coords,
                            );
                            assert(sums[ja].1.summon.coords != sums[jb].1.summon.coords);
                        }
                    }
                    assert(sum_tile_of(s, sums.take(k + 1), t) == sum_tile_of(s, sums.take(k), t));
                }
            }
        }
    }
}

} // verus!
