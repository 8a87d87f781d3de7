//! The reversibility theorems: applying a change and then its reverse
//! restores the original state exactly, and an empty change has no effect.

use vstd::prelude::*;

use crate::change::ChangeView;
use crate::change::rev_moves;
use crate::change::rev_of_rets;
use crate::change::rev_of_sums;
use crate::change::Move;
use crate::change::Returning;
use crate::change::Summoning;
use crate::object::Id;
use crate::state::GameState;
use crate::state::apply_change;
use crate::state::apply_movs;
use crate::state::apply_rets;
use crate::state::apply_sums;
use crate::state::change_ok;
use crate::state::change_ok_fwd;
use crate::state::has_move;
use crate::state::is_ret_linked;
use crate::state::is_ret_tile;
use crate::state::is_returner;
use crate::state::is_sum_linked;
use crate::state::is_sum_tile;
use crate::state::is_summon_id;
use crate::state::linking_of;
use crate::state::move_of;
use crate::state::mov_ok;
use crate::state::ret_ok;
use crate::state::ret_portals_match;
use crate::state::sum_ok;
use crate::state::sum_tile_of;
use crate::state::summoning_of;
use crate::state::with_portal;
use crate::state::lemma_tile_index_bounds;
use crate::state::lemma_tile_index_injective;

verus! {

/// A change with no events leaves any state untouched.
pub proof fn lemma_empty_change(s: GameState, c: ChangeView)
    requires
        c.is_empty(),
    ensures
        change_ok(c, s),
        apply_change(s, c) == s,
{
    let s1 = apply_rets(s, c.returnings);
    assert(s1.tiles =~= s.tiles);
    assert(s1.objects =~= s.objects);
    assert(s1 =~= s);
    let s2 = apply_movs(s1, c.moves);
    assert(s2.objects =~= s.objects);
    assert(s2 =~= s);
    let s3 = apply_sums(s2, c.summonings);
    assert(s3.tiles =~= s.tiles);
    assert(s3.objects =~= s.objects);
    assert(s3 =~= s);
}

/// Applying a move list and then its reverse restores the state, and
/// preserves well-formedness throughout.
pub proof fn lemma_mov_cancel(s: GameState, moves: Seq<(Id, Move)>)
    requires
        s.wf(),
        mov_ok(moves, s),
    ensures
        apply_movs(s, moves).wf(),
        mov_ok(rev_moves(moves), apply_movs(s, moves)),
        apply_movs(apply_movs(s, moves), rev_moves(moves)) == s,
{
    let s1 = apply_movs(s, moves);
    let rev = rev_moves(moves);
    // The two lists move the same ids, with mirrored moves.
    assert forall|i: int| has_move(rev, i) == has_move(moves, i) by {
        if has_move(moves, i) {
            let k = choose|k: int| 0 <= k < moves.len() && #[trigger] moves[k].0.0 == i;
            assert(rev[k].0.0 == i);
        }
        if has_move(rev, i) {
            let k = choose|k: int| 0 <= k < rev.len() && #[trigger] rev[k].0.0 == i;
            assert(moves[k].0.0 == i);
        }
    }
    assert forall|i: int| has_move(moves, i) implies #[trigger] move_of(rev, i) == move_of(
        moves,
        i,
    ).spec_reverse() by {
        let k = choose|k: int| 0 <= k < moves.len() && #[trigger] moves[k].0.0 == i;
        let kr = choose|k: int| 0 <= k < rev.len() && #[trigger] rev[k].0.0 == i;
        assert(moves[kr].0.0 == i);
        assert(kr == k);
    }
    // Each mover's entry is the unique one bearing its id.
    assert forall|k: int| 0 <= k < moves.len() implies {
        &&& has_move(moves, (#[trigger] moves[k]).0.0 as int)
        &&& move_of(moves, moves[k].0.0 as int) == moves[k].1
    } by {
        let i = moves[k].0.0 as int;
        assert(has_move(moves, i));
        let kc = choose|j: int| 0 <= j < moves.len() && #[trigger] moves[j].0.0 == i;
        assert(kc == k);
    }
    assert(s1.wf()) by {
        assert forall|i: int, j: int|
            s1.objects.dom().contains(i) && s1.objects.dom().contains(j) && i
                != j implies #[trigger] s1.objects[i].coords != #[trigger] s1.objects[j].coords by {
            if has_move(moves, i) && has_move(moves, j) {
                let ki = choose|k: int| 0 <= k < moves.len() && #[trigger] moves[k].0.0 == i;
                let kj = choose|k: int| 0 <= k < moves.len() && #[trigger] moves[k].0.0 == j;
                assert(ki != kj);
                assert(moves[ki].1.to_coords != moves[kj].1.to_coords);
            } else if has_move(moves, i) {
                let ki = choose|k: int| 0 <= k < moves.len() && #[trigger] moves[k].0.0 == i;
                assert(s.objects[j].coords != moves[ki].1.to_coords);
            } else if has_move(moves, j) {
                let kj = choose|k: int| 0 <= k < moves.len() && #[trigger] moves[k].0.0 == j;
                assert(s.objects[i].coords != moves[kj].1.to_coords);
            }
        }
    }
    assert(mov_ok(rev, s1)) by {
        assert forall|k: int| 0 <= k < rev.len() implies {
            let (id, m) = #[trigger] rev[k];
            &&& s1.objects.dom().contains(id.0 as int)
            &&& s1.objects[id.0 as int].coords == m.from_coords
            &&& s1.objects[id.0 as int].facing == m.from_facing
            &&& s1.in_bounds(m.to_coords)
        } by {
            let i = rev[k].0.0 as int;
            assert(moves[k].0.0 == i);
            assert(move_of(moves, i) == moves[k].1);
        }
        assert forall|k: int, j: int|
            0 <= k < rev.len() && 0 <= j < rev.len() && k != j implies (#[trigger] rev[k]).0 != (
        #[trigger] rev[j]).0 && rev[k].1.to_coords != rev[j].1.to_coords by {
            assert(moves[k].0 != moves[j].0);
            // Reversed targets are the original sources, which are the
            // distinct cells the movers stand on.
            let ik = moves[k].0.0 as int;
            let ij = moves[j].0.0 as int;
            assert(s.objects[ik].coords == moves[k].1.from_coords);
            assert(s.objects[ij].coords == moves[j].1.from_coords);
        }
        assert forall|k: int, i: int|
            0 <= k < rev.len() && #[trigger] s1.objects.dom().contains(i) && !has_move(rev, i)
                implies s1.objects[i].coords != (#[trigger] rev[k]).1.to_coords by {
            let ik = moves[k].0.0 as int;
            assert(s.objects[ik].coords == moves[k].1.from_coords);
            assert(s.objects[i].coords != s.objects[ik].coords);
        }
    }
    let s2 = apply_movs(s1, rev);
    assert(s2.objects =~= s.objects) by {
        assert forall|i: int| s.objects.dom().contains(i) implies s2.objects[i] == s.objects[i] by {
            if has_move(moves, i) {
                assert(move_of(rev, i) == move_of(moves, i).spec_reverse());
            }
        }
    }
    assert(s2 =~= s);
}

/// Each summoning entry is the unique one bearing its summon id and its
/// linked id.
proof fn lemma_sum_entries(sums: Seq<(Id, Summoning)>, s: GameState)
    requires
        sum_ok(sums, s),
    ensures
        forall|k: int|
            0 <= k < sums.len() ==> is_summon_id(sums, (#[trigger] sums[k]).1.summon.id.0 as int)
                && is_sum_linked(sums, sums[k].1.linked_id.0 as int),
        forall|k: int|
            0 <= k < sums.len() ==> #[trigger] summoning_of(sums, sums[k].1.summon.id.0 as int)
                == sums[k].1,
        forall|k: int|
            0 <= k < sums.len() ==> #[trigger] linking_of(sums, sums[k].1.linked_id.0 as int)
                == sums[k].1,
{
    assert forall|k: int| 0 <= k < sums.len() implies is_summon_id(
        sums,
        (#[trigger] sums[k]).1.summon.id.0 as int,
    ) && is_sum_linked(sums, sums[k].1.linked_id.0 as int) by {
        let i = sums[k].1.summon.id.0 as int;
        assert(sums[k].1.summon.id.0 == i);
        let l = sums[k].1.linked_id.0 as int;
        assert(sums[k].1.linked_id.0 == l);
    }
    assert forall|k: int| 0 <= k < sums.len() implies #[trigger] summoning_of(
        sums,
        sums[k].1.summon.id.0 as int,
    ) == sums[k].1 by {
        let i = sums[k].1.summon.id.0 as int;
        assert(sums[k].1.summon.id.0 == i);
        let kc = choose|j: int| 0 <= j < sums.len() && #[trigger] sums[j].1.summon.id.0 == i;
        assert(kc == k);
    }
    assert forall|k: int| 0 <= k < sums.len() implies #[trigger] linking_of(
        sums,
        sums[k].1.linked_id.0 as int,
    ) == sums[k].1 by {
        let l = sums[k].1.linked_id.0 as int;
        assert(sums[k].1.linked_id.0 == l);
        let lc = choose|j: int| 0 <= j < sums.len() && #[trigger] sums[j].1.linked_id.0 == l;
        assert(lc == k);
    }
}

/// The returnings that undo a summoning list name exactly the summoned ids,
/// the linked ids, and the portal tiles of the summonings.
proof fn lemma_rev_of_sums_names(sums: Seq<(Id, Summoning)>, s: GameState)
    ensures
        forall|i: int| is_returner(rev_of_sums(sums), i) == is_summon_id(sums, i),
        forall|i: int| is_ret_linked(rev_of_sums(sums), i) == is_sum_linked(sums, i),
        forall|t: int|
            is_ret_tile(apply_sums(s, sums), rev_of_sums(sums), t) == is_sum_tile(s, sums, t),
{
    let rev = rev_of_sums(sums);
    let s3 = apply_sums(s, sums);
    assert forall|i: int| is_returner(rev, i) == is_summon_id(sums, i) by {
        if is_summon_id(sums, i) {
            let k = choose|k: int| 0 <= k < sums.len() && #[trigger] sums[k].1.summon.id.0 == i;
            assert(rev[k].1.returner.id.0 == i);
        }
        if is_returner(rev, i) {
            let k = choose|k: int| 0 <= k < rev.len() && #[trigger] rev[k].1.returner.id.0 == i;
            assert(sums[k].1.summon.id.0 == i);
        }
    }
    assert forall|i: int| is_ret_linked(rev, i) == is_sum_linked(sums, i) by {
        if is_sum_linked(sums, i) {
            let k = choose|k: int| 0 <= k < sums.len() && #[trigger] sums[k].1.linked_id.0 == i;
            assert(rev[k].1.linked_id.0 == i);
        }
        if is_ret_linked(rev, i) {
            let k = choose|k: int| 0 <= k < rev.len() && #[trigger] rev[k].1.linked_id.0 == i;
            assert(sums[k].1.linked_id.0 == i);
        }
    }
    assert forall|t: int| is_ret_tile(s3, rev, t) == is_sum_tile(s, sums, t) by {
        if is_sum_tile(s, sums, t) {
            let k = choose|k: int|
                0 <= k < sums.len() && #[trigger] s.tile_index(sums[k].1.summon.coords) == t;
            assert(s3.tile_index(rev[k].1.returner.coords) == t);
        }
        if is_ret_tile(s3, rev, t) {
            let k = choose|k: int|
                0 <= k < rev.len() && #[trigger] s3.tile_index(rev[k].1.returner.coords) == t;
            assert(s.tile_index(sums[k].1.summon.coords) == t);
        }
    }
}

/// A summoned id is never a live id.
proof fn lemma_summon_ids_fresh(sums: Seq<(Id, Summoning)>, s: GameState)
    requires
        sum_ok(sums, s),
    ensures
        forall|i: int| #[trigger] s.objects.dom().contains(i) ==> !is_summon_id(sums, i),
{
    assert forall|i: int| #[trigger] s.objects.dom().contains(i) implies !is_summon_id(
        sums,
        i,
    ) by {
        if is_summon_id(sums, i) {
            let k = choose|k: int| 0 <= k < sums.len() && #[trigger] sums[k].1.summon.id.0 == i;
            assert(!s.objects.dom().contains(sums[k].1.summon.id.0 as int));
        }
    }
}

/// Applying an applicable summoning list preserves well-formedness.
proof fn lemma_sum_wf(s: GameState, sums: Seq<(Id, Summoning)>)
    requires
        s.wf(),
        sum_ok(sums, s),
    ensures
        apply_sums(s, sums).wf(),
{
    let s3 = apply_sums(s, sums);
    lemma_sum_entries(sums, s);
    lemma_summon_ids_fresh(sums, s);
    assert forall|i: int| #[trigger]
        s3.objects.dom().contains(i) implies 0 <= i <= u32::MAX && s3.objects[i].id.0 == i
        && s3.in_bounds(s3.objects[i].coords) by {
        if is_summon_id(sums, i) {
            let k = choose|k: int| 0 <= k < sums.len() && #[trigger] sums[k].1.summon.id.0 == i;
            assert(summoning_of(sums, i) == sums[k].1);
        }
    }
    assert forall|i: int, j: int|
        s3.objects.dom().contains(i) && s3.objects.dom().contains(j) && i
            != j implies #[trigger] s3.objects[i].coords != #[trigger] s3.objects[j].coords by {
        if is_summon_id(sums, i) && is_summon_id(sums, j) {
            let ki = choose|k: int| 0 <= k < sums.len() && #[trigger] sums[k].1.summon.id.0 == i;
            let kj = choose|k: int| 0 <= k < sums.len() && #[trigger] sums[k].1.summon.id.0 == j;
            assert(ki != kj);
            assert(sums[ki].1.summon.coords != sums[kj].1.summon.coords);
        } else if is_summon_id(sums, i) {
            let ki = choose|k: int| 0 <= k < sums.len() && #[trigger] sums[k].1.summon.id.0 == i;
            assert(s3.objects[j].coords == s.objects[j].coords);
            if s.objects[j].coords == sums[ki].1.summon.coords {
                assert(s.occupied(sums[ki].1.summon.coords));
            }
        } else if is_summon_id(sums, j) {
            let kj = choose|k: int| 0 <= k < sums.len() && #[trigger] sums[k].1.summon.id.0 == j;
            assert(s3.objects[i].coords == s.objects[i].coords);
            if s.objects[i].coords == sums[kj].1.summon.coords {
                assert(s.occupied(sums[kj].1.summon.coords));
            }
        } else {
            assert(s3.objects[i].coords == s.objects[i].coords);
            assert(s3.objects[j].coords == s.objects[j].coords);
        }
    }
}

/// The returnings that undo an applicable summoning list are themselves
/// applicable to the resulting state.
proof fn lemma_sum_ret_ok(s: GameState, sums: Seq<(Id, Summoning)>)
    requires
        s.wf(),
        sum_ok(sums, s),
    ensures
        ret_ok(rev_of_sums(sums), apply_sums(s, sums)),
{
    let s3 = apply_sums(s, sums);
    let rev = rev_of_sums(sums);
    lemma_sum_entries(sums, s);
    lemma_summon_ids_fresh(sums, s);
    assert forall|k: int| 0 <= k < rev.len() implies {
        let r = (#[trigger] rev[k]).1;
        &&& rev[k].0 == r.linked_id
        &&& s3.objects.dom().contains(r.returner.id.0 as int)
        &&& s3.objects[r.returner.id.0 as int] == r.returner.spec_to_level_object()
        &&& s3.is_character(r.linked_id.0 as int)
        &&& s3.character(r.linked_id.0 as int).portal_coords == Some(r.returner.coords)
    } by {
        let sm = sums[k].1;
        let i = sm.summon.id.0 as int;
        let l = sm.linked_id.0 as int;
        assert(rev[k].1.returner == sm.summon);
        assert(s3.objects[i] == sm.summon.spec_to_level_object());
        if sm.linked_id == sm.summon.id {
            assert(s3.objects[l] == sm.summon.spec_to_level_object());
        } else {
            assert(s.objects.dom().contains(l));
            assert(!is_summon_id(sums, l));
            assert(s3.objects[l] == with_portal(
                s.objects[l],
                Some(linking_of(sums, l).summon.coords),
            ));
        }
    }
    assert forall|k: int, j: int|
        0 <= k < rev.len() && 0 <= j < rev.len() && k != j implies {
        &&& (#[trigger] rev[k]).1.returner.id != (#[trigger] rev[j]).1.returner.id
        &&& rev[k].1.linked_id != rev[j].1.returner.id
        &&& rev[k].1.linked_id != rev[j].1.linked_id
    } by {
        let smk = sums[k].1;
        let smj = sums[j].1;
        assert(smk.summon.id != smj.summon.id);
        if smk.linked_id != smk.summon.id {
            assert(s.objects.dom().contains(smk.linked_id.0 as int));
            assert(!s.objects.dom().contains(smj.summon.id.0 as int));
        }
    }
}

/// Applying a summoning list and then the returnings that undo it restores
/// the original state.
proof fn lemma_sum_ret_restore(s: GameState, sums: Seq<(Id, Summoning)>)
    requires
        s.wf(),
        sum_ok(sums, s),
    ensures
        apply_rets(apply_sums(s, sums), rev_of_sums(sums)) == s,
{
    let s3 = apply_sums(s, sums);
    let rev = rev_of_sums(sums);
    lemma_sum_entries(sums, s);
    lemma_summon_ids_fresh(sums, s);
    lemma_rev_of_sums_names(sums, s);
    let t2 = apply_rets(s3, rev);
    assert(t2.objects =~= s.objects) by {
        assert forall|i: int| s.objects.dom().contains(i) implies t2.objects[i] == s.objects[i] by {
            assert(!is_summon_id(sums, i));
            if is_sum_linked(sums, i) {
                let k = choose|k: int| 0 <= k < sums.len() && #[trigger] sums[k].1.linked_id.0 == i;
                let sm = sums[k].1;
                assert(linking_of(sums, i) == sm);
                assert(sm.linked_id != sm.summon.id) by {
                    if sm.linked_id == sm.summon.id {
                        assert(!s.objects.dom().contains(sm.summon.id.0 as int));
                    }
                }
                assert(s3.objects[i] == with_portal(s.objects[i], Some(sm.summon.coords)));
                assert(t2.objects[i] == with_portal(s3.objects[i], None));
                assert(s.objects[i].object is Character && s.objects[i].object
                    ->Character_0.portal_coords is None);
                assert(t2.objects[i] == s.objects[i]);
            }
        }
    }
    assert(t2.tiles =~= s.tiles) by {
        assert forall|t: int| 0 <= t < s.tiles.len() implies t2.tiles[t] == s.tiles[t] by {
            if is_sum_tile(s, sums, t) {
                let k = choose|k: int|
                    0 <= k < sums.len() && #[trigger] s.tile_index(sums[k].1.summon.coords) == t;
                assert(s.tiles[t] == (crate::object::Tile::Floor { portal_color: None }));
            }
        }
    }
    assert(t2 =~= s);
}

/// The summonings that undo a returning list name exactly the returners'
/// ids, the linked ids, and the closed portal tiles of the returnings.
proof fn lemma_rev_of_rets_names(rets: Seq<(Id, Returning)>, s: GameState)
    ensures
        forall|i: int| is_summon_id(rev_of_rets(rets), i) == is_returner(rets, i),
        forall|i: int| is_sum_linked(rev_of_rets(rets), i) == is_ret_linked(rets, i),
        forall|t: int|
            is_sum_tile(apply_rets(s, rets), rev_of_rets(rets), t) == is_ret_tile(s, rets, t),
{
    let rev = rev_of_rets(rets);
    let s1 = apply_rets(s, rets);
    assert forall|i: int| is_summon_id(rev, i) == is_returner(rets, i) by {
        if is_returner(rets, i) {
            let k = choose|k: int| 0 <= k < rets.len() && #[trigger] rets[k].1.returner.id.0 == i;
            assert(rev[k].1.summon.id.0 == i);
        }
        if is_summon_id(rev, i) {
            let k = choose|k: int| 0 <= k < rev.len() && #[trigger] rev[k].1.summon.id.0 == i;
            assert(rets[k].1.returner.id.0 == i);
        }
    }
    assert forall|i: int| is_sum_linked(rev, i) == is_ret_linked(rets, i) by {
        if is_ret_linked(rets, i) {
            let k = choose|k: int| 0 <= k < rets.len() && #[trigger] rets[k].1.linked_id.0 == i;
            assert(rev[k].1.linked_id.0 == i);
        }
        if is_sum_linked(rev, i) {
            let k = choose|k: int| 0 <= k < rev.len() && #[trigger] rev[k].1.linked_id.0 == i;
            assert(rets[k].1.linked_id.0 == i);
        }
    }
    assert forall|t: int| is_sum_tile(s1, rev, t) == is_ret_tile(s, rets, t) by {
        if is_ret_tile(s, rets, t) {
            let k = choose|k: int|
                0 <= k < rets.len() && #[trigger] s.tile_index(rets[k].1.returner.coords) == t;
            assert(s1.tile_index(rev[k].1.summon.coords) == t);
        }
        if is_sum_tile(s1, rev, t) {
            let k = choose|k: int|
                0 <= k < rev.len() && #[trigger] s1.tile_index(rev[k].1.summon.coords) == t;
            assert(s.tile_index(rets[k].1.returner.coords) == t);
        }
    }
}

/// Distinct returnings remove characters from distinct cells, hence from
/// distinct tiles.
proof fn lemma_ret_distinct_cells(rets: Seq<(Id, Returning)>, s: GameState)
    requires
        s.wf(),
        ret_ok(rets, s),
    ensures
        forall|k: int, j: int|
            0 <= k < rets.len() && 0 <= j < rets.len() && k != j ==> (
            #[trigger] rets[k]).1.returner.coords != (#[trigger] rets[j]).1.returner.coords
                && s.tile_index(rets[k].1.returner.coords) != s.tile_index(
                rets[j].1.returner.coords,
            ),
{
    assert forall|k: int, j: int|
        0 <= k < rets.len() && 0 <= j < rets.len() && k != j implies (
    #[trigger] rets[k]).1.returner.coords != (#[trigger] rets[j]).1.returner.coords
        && s.tile_index(rets[k].1.returner.coords) != s.tile_index(
        rets[j].1.returner.coords,
    ) by {
        let ik = rets[k].1.returner.id.0 as int;
        let ij = rets[j].1.returner.id.0 as int;
        assert(s.objects[ik].coords == rets[k].1.returner.coords);
        assert(s.objects[ij].coords == rets[j].1.returner.coords);
        if s.tile_index(rets[k].1.returner.coords) == s.tile_index(rets[j].1.returner.coords) {
            lemma_tile_index_injective(s, rets[k].1.returner.coords, rets[j].1.returner.coords);
        }
    }
}

/// Applying an applicable returning list preserves well-formedness.
proof fn lemma_ret_wf(s: GameState, rets: Seq<(Id, Returning)>)
    requires
        s.wf(),
        ret_ok(rets, s),
    ensures
        apply_rets(s, rets).wf(),
{
    let s1 = apply_rets(s, rets);
    assert forall|i: int| #[trigger]
        s1.objects.dom().contains(i) implies 0 <= i <= u32::MAX && s1.objects[i].id.0 == i
        && s1.in_bounds(s1.objects[i].coords) by {}
    assert forall|i: int, j: int|
        s1.objects.dom().contains(i) && s1.objects.dom().contains(j) && i
            != j implies #[trigger] s1.objects[i].coords != #[trigger] s1.objects[j].coords by {
        assert(s1.objects[i].coords == s.objects[i].coords);
        assert(s1.objects[j].coords == s.objects[j].coords);
    }
}

/// The summonings that undo an applicable returning list are themselves
/// applicable to the resulting state.
proof fn lemma_ret_sum_ok(s: GameState, rets: Seq<(Id, Returning)>)
    requires
        s.wf(),
        ret_ok(rets, s),
    ensures
        sum_ok(rev_of_rets(rets), apply_rets(s, rets)),
{
    let s1 = apply_rets(s, rets);
    let rev = rev_of_rets(rets);
    lemma_ret_distinct_cells(rets, s);
    assert forall|k: int| 0 <= k < rev.len() implies {
        let (id, sm) = #[trigger] rev[k];
        &&& id == sm.linked_id
        &&& if sm.linked_id == sm.summon.id {
            sm.summon.character.portal_coords == Some(sm.summon.coords)
        } else {
            &&& s1.is_character(sm.linked_id.0 as int)
            &&& s1.character(sm.linked_id.0 as int).portal_coords is None
        }
        &&& !s1.objects.dom().contains(sm.summon.id.0 as int)
        &&& sm.summon.id.0 <= u32::MAX
        &&& s1.in_bounds(sm.summon.coords)
        &&& s1.tiles[s1.tile_index(sm.summon.coords)] == (crate::object::Tile::Floor {
            portal_color: None,
        })
        &&& !s1.occupied(sm.summon.coords)
    } by {
        let r = rets[k].1;
        let i = r.returner.id.0 as int;
        let l = r.linked_id.0 as int;
        assert(rev[k].1.summon == r.returner);
        assert(s.objects[i] == r.returner.spec_to_level_object());
        assert(is_returner(rets, i));
        if r.linked_id == r.returner.id {
            assert(s.character(l) == r.returner.character);
        } else {
            assert(!is_returner(rets, l)) by {
                if is_returner(rets, l) {
                    let j = choose|j: int|
                        0 <= j < rets.len() && #[trigger] rets[j].1.returner.id.0 == l;
                    assert(j != k ==> rets[k].1.linked_id != rets[j].1.returner.id);
                }
            }
            assert(is_ret_linked(rets, l));
            assert(s1.objects[l] == with_portal(s.objects[l], None));
        }
        lemma_tile_index_bounds(s, r.returner.coords);
        assert(is_ret_tile(s, rets, s.tile_index(r.returner.coords)));
        assert(!s1.occupied(r.returner.coords)) by {
            if s1.occupied(r.returner.coords) {
                let w = choose|w: int| #[trigger]
                    s1.objects.dom().contains(w) && s1.objects[w].coords == r.returner.coords;
                assert(s1.objects[w].coords == s.objects[w].coords);
                assert(w == i);
            }
        }
    }
    assert forall|k: int, j: int|
        0 <= k < rev.len() && 0 <= j < rev.len() && k != j implies {
        &&& (#[trigger] rev[k]).1.summon.id != (#[trigger] rev[j]).1.summon.id
        &&& rev[k].1.linked_id != rev[j].1.linked_id
        &&& rev[k].1.summon.coords != rev[j].1.summon.coords
    } by {
        assert(rets[k].1.returner.id != rets[j].1.returner.id);
        assert(rets[k].1.returner.coords != rets[j].1.returner.coords);
    }
}

/// Applying a returning list and then the summonings that undo it restores
/// the original state.
proof fn lemma_ret_sum_restore(s: GameState, rets: Seq<(Id, Returning)>)
    requires
        s.wf(),
        ret_ok(rets, s),
        ret_portals_match(rets, s),
    ensures
        apply_sums(apply_rets(s, rets), rev_of_rets(rets)) == s,
{
    let s1 = apply_rets(s, rets);
    let rev = rev_of_rets(rets);
    lemma_ret_distinct_cells(rets, s);
    lemma_ret_sum_ok(s, rets);
    lemma_sum_entries(rev, s1);
    lemma_rev_of_rets_names(rets, s);
    let t0 = apply_sums(s1, rev);
    assert(t0.objects =~= s.objects) by {
        assert forall|i: int| t0.objects.dom().contains(i) == s.objects.dom().contains(i) by {
            if is_returner(rets, i) {
                let k = choose|k: int|
                    0 <= k < rets.len() && #[trigger] rets[k].1.returner.id.0 == i;
                assert(s.objects.dom().contains(rets[k].1.returner.id.0 as int));
            }
        }
        assert forall|i: int| s.objects.dom().contains(i) implies t0.objects[i] == s.objects[i] by {
            if is_returner(rets, i) {
                let k = choose|k: int|
                    0 <= k < rets.len() && #[trigger] rets[k].1.returner.id.0 == i;
                assert(rev[k].1.summon.id.0 == i);
                assert(summoning_of(rev, i) == rev[k].1);
                assert(t0.objects[i] == rev[k].1.summon.spec_to_level_object());
                assert(s.objects[i] == rets[k].1.returner.spec_to_level_object());
            } else {
                assert(!is_summon_id(rev, i));
                if is_ret_linked(rets, i) {
                    let k = choose|k: int|
                        0 <= k < rets.len() && #[trigger] rets[k].1.linked_id.0 == i;
                    assert(rev[k].1.linked_id.0 == i);
                    assert(linking_of(rev, i) == rev[k].1);
                    assert(rets[k].1.linked_id != rets[k].1.returner.id) by {
                        assert(!is_returner(rets, i));
                        assert(rets[k].1.returner.id.0 == i ==> is_returner(rets, i));
                    }
                    assert(s1.objects[i] == with_portal(s.objects[i], None));
                    assert(t0.objects[i] == with_portal(
                        s1.objects[i],
                        Some(rev[k].1.summon.coords),
                    ));
                    assert(s.objects[i].object is Character && s.objects[i].object
                        ->Character_0.portal_coords == Some(rets[k].1.returner.coords));
                    assert(t0.objects[i] == s.objects[i]);
                } else {
                    assert(t0.objects[i] == s1.objects[i]);
                }
            }
        }
    }
    assert(t0.tiles =~= s.tiles) by {
        assert forall|t: int| 0 <= t < s.tiles.len() implies t0.tiles[t] == s.tiles[t] by {
            if is_ret_tile(s, rets, t) {
                let k = choose|k: int|
                    0 <= k < rets.len() && #[trigger] s.tile_index(rets[k].1.returner.coords) == t;
                assert(is_sum_tile(s1, rev, t));
                let kc = choose|j: int|
                    0 <= j < rev.len() && #[trigger] s1.tile_index(rev[j].1.summon.coords) == t;
                assert(s.tile_index(rets[kc].1.returner.coords) == t);
                assert(kc == k);
                assert(sum_tile_of(s1, rev, t) == rev[k].1);
                assert(t0.tiles[t] == (crate::object::Tile::Floor {
                    portal_color: Some(rets[k].1.returner.character.color),
                }));
                assert(s.tiles[t] == (crate::object::Tile::Floor {
                    portal_color: Some(rets[k].1.returner.character.color),
                }));
            } else {
                assert(!is_sum_tile(s1, rev, t));
                assert(t0.tiles[t] == s1.tiles[t]);
            }
        }
    }
    assert(t0 =~= s);
}

/// Applying a returning list and then the summonings that undo it restores
/// the state, and preserves well-formedness throughout. The portal tiles
/// must match the returners, as they do in any turn the level produces.
pub proof fn lemma_ret_sum_cancel(s: GameState, rets: Seq<(Id, Returning)>)
    requires
        s.wf(),
        ret_ok(rets, s),
        ret_portals_match(rets, s),
    ensures
        apply_rets(s, rets).wf(),
        sum_ok(rev_of_rets(rets), apply_rets(s, rets)),
        apply_sums(apply_rets(s, rets), rev_of_rets(rets)) == s,
{
    lemma_ret_wf(s, rets);
    lemma_ret_sum_ok(s, rets);
    lemma_ret_sum_restore(s, rets);
}

/// Applying a summoning list and then the returnings that undo it restores
/// the state, and preserves well-formedness throughout.
pub proof fn lemma_sum_ret_cancel(s: GameState, sums: Seq<(Id, Summoning)>)
    requires
        s.wf(),
        sum_ok(sums, s),
    ensures
        apply_sums(s, sums).wf(),
        ret_ok(rev_of_sums(sums), apply_sums(s, sums)),
        apply_rets(apply_sums(s, sums), rev_of_sums(sums)) == s,
{
    lemma_sum_wf(s, sums);
    lemma_sum_ret_ok(s, sums);
    lemma_sum_ret_restore(s, sums);
}

/// One turn is exactly reversible: applying a change and then its reverse
/// restores the original level state, tile for tile and object for object,
/// and the reverse change is itself applicable where it is applied.
pub proof fn lemma_round_trip(s: GameState, c: ChangeView)
    requires
        s.wf(),
        change_ok_fwd(c, s),
    ensures
        apply_change(s, c).wf(),
        change_ok(c.reverse(), apply_change(s, c)),
        apply_change(apply_change(s, c), c.reverse()) == s,
{
    let s1 = apply_rets(s, c.returnings);
    let s2 = apply_movs(s1, c.moves);
    let s3 = apply_sums(s2, c.summonings);
    lemma_ret_sum_cancel(s, c.returnings);
    lemma_mov_cancel(s1, c.moves);
    lemma_sum_ret_cancel(s2, c.summonings);
    assert(apply_rets(s3, c.reverse().returnings) == s2);
    assert(apply_movs(s2, c.reverse().moves) == s1);
    assert(apply_sums(s1, c.reverse().summonings) == s);
}

/// Undo/redo symmetry: undoing a turn restores the state before it, and
/// redoing the undone turn restores the state after it.
pub proof fn lemma_undo_redo(s: GameState, c: ChangeView)
    requires
        s.wf(),
        change_ok_fwd(c, s),
    ensures
        apply_change(apply_change(s, c), c.reverse()) == s,
        apply_change(apply_change(apply_change(s, c), c.reverse()), c) == apply_change(s, c),
{
    lemma_round_trip(s, c);
}

} // verus!
