//! Executable team resolution, proved equal to the specification pipeline
//! in [`crate::team`].

use vstd::prelude::*;

use crate::change::Move;
use crate::geom::Coords;
use crate::geom::Offset;
use crate::level::Level;
use crate::object::Id;
use crate::object::LevelObject;
use crate::object::Tile;
use crate::state::GameState;
use crate::state::lemma_tile_index_bounds;
use crate::state::lemma_tile_index_injective;
use crate::team::Team;
use crate::team::build_team;
use crate::team::cell_col;
use crate::team::cell_row;
use crate::team::initial_teams;
use crate::team::pusher_offset;
use crate::team::small_dims;
use crate::team::steps_left;
use crate::team::team_wf;
use crate::team::walk_team;

verus! {

/// The cells of `t`, and one step beyond its head, are representable
/// without wrapping.
pub open spec fn cells_repr(s: GameState, t: Team) -> bool {
    &&& t.offset.is_unit()
    &&& 1 <= t.count
    &&& forall|n: int| 0 <= n <= t.count ==> -2 <= #[trigger] cell_row(t, n) <= s.height + 1
    &&& forall|n: int| 0 <= n <= t.count ==> -2 <= #[trigger] cell_col(t, n) <= s.width + 1
}

/// Stepping `d` cells on from cell `m` shifts each axis by `d` times the
/// direction.
proof fn lemma_cell_step(t: Team, m: int, n: int)
    ensures
        cell_row(t, n) == cell_row(t, m) + (n - m) * t.offset.row,
        cell_col(t, n) == cell_col(t, m) + (n - m) * t.offset.col,
{
    assert(t.start.row + n * t.offset.row == t.start.row + m * t.offset.row + (n - m)
        * t.offset.row) by (nonlinear_arith);
    assert(t.start.col + n * t.offset.col == t.start.col + m * t.offset.col + (n - m)
        * t.offset.col) by (nonlinear_arith);
}

/// A well-formed team's cells are representable, as are its shifted
/// copy's, whose cells are the original's shifted one step.
pub proof fn lemma_team_wf_repr(s: GameState, t: Team)
    requires
        small_dims(s),
        team_wf(s, t),
    ensures
        cells_repr(s, t),
        cells_repr(s, t.moved()),
        t.moved().count == t.count,
        forall|n: int| 0 <= n <= t.count ==> #[trigger] t.moved().cell(n) == t.cell(n + 1),
        forall|n: int|
            0 <= n <= t.count ==> cell_row(t.moved(), n) == cell_row(t, n + 1) && cell_col(
                t.moved(),
                n,
            ) == cell_col(t, n + 1),
{
    let m = t.count - 1;
    assert(0 <= cell_row(t, m) < s.height && 0 <= cell_col(t, m) < s.width);
    assert(0 <= cell_row(t, 0) < s.height && 0 <= cell_col(t, 0) < s.width);
    assert(cell_row(t, 0) == t.start.row && cell_col(t, 0) == t.start.col) by (nonlinear_arith);
    assert forall|n: int|
        0 <= n <= t.count + 1 implies -2 <= #[trigger] cell_row(t, n) <= s.height + 1 && -2
        <= cell_col(t, n) <= s.width + 1 by {
        if n < t.count {
            assert(0 <= cell_row(t, n) < s.height && 0 <= cell_col(t, n) < s.width);
        } else {
            lemma_cell_step(t, m, n);
            assert(-2 <= (n - m) * t.offset.row <= 2 && -2 <= (n - m) * t.offset.col <= 2)
                by (nonlinear_arith)
                requires
                    1 <= n - m <= 2,
                    -1 <= t.offset.row <= 1,
                    -1 <= t.offset.col <= 1,
            ;
        }
    }
    assert forall|n: int| 0 <= n <= t.count + 1 implies -2 <= #[trigger] cell_col(t, n) <= s.width
        + 1 by {
        assert(-2 <= cell_row(t, n) <= s.height + 1);
    }
    assert forall|n: int|
        0 <= n <= t.count implies cell_row(t.moved(), n) == cell_row(t, n + 1) && cell_col(
            t.moved(),
            n,
        ) == cell_col(t, n + 1) by {
        assert((t.start.row + t.offset.row) + n * t.offset.row == t.start.row + (n + 1)
            * t.offset.row) by (nonlinear_arith);
        assert((t.start.col + t.offset.col) + n * t.offset.col == t.start.col + (n + 1)
            * t.offset.col) by (nonlinear_arith);
        assert(t.moved().start.row as int == t.start.row + t.offset.row && t.moved().start.col
            as int == t.start.col + t.offset.col);
    }
    assert forall|n: int| 0 <= n <= t.count implies #[trigger] t.moved().cell(n) == t.cell(
        n + 1,
    ) by {
        assert(cell_row(t.moved(), n) == cell_row(t, n + 1) && cell_col(t.moved(), n) == cell_col(
            t,
            n + 1,
        ));
    }
}

/// One more step along the team's direction adds the direction to each
/// axis.
pub proof fn lemma_cell_unfold(t: Team, n: int)
    ensures
        cell_row(t, n) == cell_row(t, n - 1) + t.offset.row,
        cell_col(t, n) == cell_col(t, n - 1) + t.offset.col,
{
    assert(t.start.row + n * t.offset.row == t.start.row + (n - 1) * t.offset.row
        + t.offset.row) by (nonlinear_arith);
    assert(t.start.col + n * t.offset.col == t.start.col + (n - 1) * t.offset.col
        + t.offset.col) by (nonlinear_arith);
}

/// A team whose cells all lie on the grid has no more cells than the grid
/// has rows and columns.
proof fn lemma_count_bound(s: GameState, t: Team)
    requires
        t.offset.is_unit(),
        1 <= t.count,
        forall|n: int| 0 <= n < t.count ==> 0 <= #[trigger] cell_row(t, n) < s.height,
        forall|n: int| 0 <= n < t.count ==> 0 <= #[trigger] cell_col(t, n) < s.width,
    ensures
        t.count <= s.width + s.height,
{
    let n0 = t.count - 1;
    assert(0 <= cell_row(t, n0) < s.height && 0 <= cell_col(t, n0) < s.width);
    assert(0 <= cell_row(t, 0) < s.height && 0 <= cell_col(t, 0) < s.width);
    assert(n0 <= s.width + s.height - 1) by (nonlinear_arith)
        requires
            (t.offset.row == -1 && t.offset.col == 0) || (t.offset.row == 1 && t.offset.col == 0)
                || (t.offset.row == 0 && t.offset.col == -1) || (t.offset.row == 0
                && t.offset.col == 1),
            cell_row(t, n0) == t.start.row + n0 * t.offset.row,
            cell_col(t, n0) == t.start.col + n0 * t.offset.col,
            0 <= cell_row(t, n0) < s.height,
            0 <= cell_col(t, n0) < s.width,
            0 <= t.start.row < s.height,
            0 <= t.start.col < s.width,
            0 <= n0,
    ;
}

/// Whether the pusher list contains `id`, and with which direction.
fn find_pusher(pushers: &Vec<(Id, Offset)>, id: u32) -> (r: Option<Offset>)
    requires
        forall|k: int, j: int|
            0 <= k < pushers@.len() && 0 <= j < pushers@.len() && k != j ==> (
            #[trigger] pushers@[k]).0 != (#[trigger] pushers@[j]).0,
    ensures
        r == pusher_offset(pushers@, id as int),
{
    let mut i: usize = 0;
    while i < pushers.len()
        invariant
            i <= pushers@.len(),
            forall|k: int| 0 <= k < i ==> (#[trigger] pushers@[k]).0.0 != id,
        decreases pushers@.len() - i,
    {
        if pushers[i].0.0 == id {
            proof {
                let kc = choose|k: int|
                    0 <= k < pushers@.len() && #[trigger] pushers@[k].0.0 == id as int;
                assert(kc == i);
            }
            return Some(pushers[i].1);
        }
        i += 1;
    }
    proof {
        if exists|k: int| 0 <= k < pushers@.len() && #[trigger] pushers@[k].0.0 == id as int {
            let k = choose|k: int| 0 <= k < pushers@.len() && #[trigger] pushers@[k].0.0 == id as int;
            assert(pushers@[k].0.0 != id);
        }
    }
    None
}

/// The team initiated by the pusher at `start` pushing in direction `o`,
/// built by walking the cells ahead of it.
fn walk_team_exec(level: &Level, pushers: &Vec<(Id, Offset)>, start: Coords, o: Offset) -> (r:
    Team)
    requires
        level.state_wf(),
        o.is_unit(),
        level.game().in_bounds(start),
        level.game().occupied(start),
        forall|k: int, j: int|
            0 <= k < pushers@.len() && 0 <= j < pushers@.len() && k != j ==> (
            #[trigger] pushers@[k]).0 != (#[trigger] pushers@[j]).0,
    ensures
        r == build_team(level.game(), pushers@, start, o),
        team_wf(level.game(), r),
        r.start == start,
        r.offset == o,
{
    let ghost s = level.game();
    proof {
        level.lemma_game_props();
    }
    let mut team = Team { start, offset: o, count: 1, strength: 1, blocked: false };
    proof {
        assert(cell_row(team, 0) == start.row && cell_col(team, 0) == start.col);
        assert forall|n: int| 0 <= n < team.count implies 0 <= #[trigger] cell_row(team, n)
            < s.height by {
            assert(n == 0);
        }
        assert forall|n: int| 0 <= n < team.count implies 0 <= #[trigger] cell_col(team, n)
            < s.width by {
            assert(n == 0);
        }
        assert forall|n: int| 0 <= n < team.count implies s.occupied(#[trigger] team.cell(n)) by {
            assert(n == 0);
            assert(team.cell(0) == start);
        }
        assert(team_wf(s, team));
    }
    let mut cur = start.plus(o);
    proof {
        lemma_cell_unfold(team, 1);
    }
    loop
        invariant
            level.state_wf(),
            s == level.game(),
            small_dims(s),
            s.wf(),
            o.is_unit(),
            forall|k: int, j: int|
                0 <= k < pushers@.len() && 0 <= j < pushers@.len() && k != j ==> (
                #[trigger] pushers@[k]).0 != (#[trigger] pushers@[j]).0,
            team.offset == o,
            team.start == start,
            !team.blocked,
            team_wf(s, team),
            1 <= team.count <= s.width + s.height,
            0 <= team.strength <= 2 * team.count,
            cur.row as int == cell_row(team, team.count as int),
            cur.col as int == cell_col(team, team.count as int),
            walk_team(s, pushers@, team, cur) == build_team(s, pushers@, start, o),
        decreases steps_left(s, cur, o),
    {
        let h = level.height();
        let w = level.width();
        if cur.row < 0 || cur.col < 0 || cur.row >= h as i32 || cur.col >= w as i32 {
            return Team { start, offset: o, count: 1, strength: -1, blocked: true };
        }
        proof {
            assert(s.in_bounds(cur));
            lemma_tile_index_bounds(s, cur);
        }
        let tile = level.tile_at(cur);
        if let Tile::Wall = tile {
            return Team { start, offset: o, count: 1, strength: -1, blocked: true };
        }
        let id_opt = level.object_id_at(cur);
        let id = match id_opt {
            None => { return team; },
            Some(id) => id,
        };
        let obj = level.object_copy(id);
        let wgt = obj.object.weight();
        let po = find_pusher(pushers, id);
        let grow: bool;
        let st: i64;
        match po {
            Some(po) => {
                if po == o {
                    st = team.strength + 2 - wgt as i64;
                    if st < 0 {
                        return Team { start, offset: o, count: 1, strength: -1, blocked: true };
                    }
                    grow = true;
                } else if po == o.negate() {
                    return Team { start, offset: o, count: 1, strength: -1, blocked: true };
                } else {
                    return team;
                }
            },
            None => {
                st = team.strength - wgt as i64;
                if st < 0 {
                    return Team { start, offset: o, count: 1, strength: -1, blocked: true };
                }
                grow = true;
            },
        }
        let ghost oldteam = team;
        let ghost oldcur = cur;
        team = Team {
            start,
            offset: o,
            count: team.count + 1,
            strength: st,
            blocked: false,
        };
        cur = cur.plus(o);
        proof {
            assert(walk_team(s, pushers@, team, cur) == walk_team(s, pushers@, oldteam, oldcur));
            assert forall|n: int| 0 <= n < team.count implies 0 <= #[trigger] cell_row(team, n)
                < s.height by {
                if n < oldteam.count {
                    assert(cell_row(oldteam, n) == cell_row(team, n));
                } else {
                    assert(cell_row(team, n) == cell_row(oldteam, oldteam.count as int));
                }
            }
            assert forall|n: int| 0 <= n < team.count implies 0 <= #[trigger] cell_col(team, n)
                < s.width by {
                if n < oldteam.count {
                    assert(cell_col(oldteam, n) == cell_col(team, n));
                } else {
                    assert(cell_col(team, n) == cell_col(oldteam, oldteam.count as int));
                }
            }
            assert forall|n: int| 0 <= n < team.count implies s.occupied(
                #[trigger] team.cell(n),
            ) by {
                if n < oldteam.count {
                    assert(cell_row(oldteam, n) == cell_row(team, n) && cell_col(oldteam, n)
                        == cell_col(team, n));
                    assert(s.occupied(oldteam.cell(n)));
                    assert(team.cell(n) == oldteam.cell(n));
                } else {
                    assert(cell_row(team, n) == cell_row(oldteam, oldteam.count as int));
                    assert(cell_col(team, n) == cell_col(oldteam, oldteam.count as int));
                    assert(team.cell(n) == oldcur);
                }
            }
            lemma_count_bound(s, team);
            assert(cur.row as int == cell_row(team, team.count as int) && cur.col as int
                == cell_col(team, team.count as int)) by {
                lemma_cell_unfold(team, team.count as int);
                assert(cell_row(team, team.count - 1) == cell_row(oldteam, oldteam.count as int));
                assert(cell_col(team, team.count - 1) == cell_col(oldteam, oldteam.count as int));
            }
        }
    }
}

/// One team per pusher, in the order the pushers were given.
fn compute_teams(level: &Level, pushers: &Vec<(Id, Offset)>) -> (r: Vec<Team>)
    requires
        level.state_wf(),
        forall|k: int|
            0 <= k < pushers@.len() ==> level.game().objects.dom().contains(
                (#[trigger] pushers@[k]).0.0 as int,
            ) && pushers@[k].1.is_unit(),
        forall|k: int, j: int|
            0 <= k < pushers@.len() && 0 <= j < pushers@.len() && k != j ==> (
            #[trigger] pushers@[k]).0 != (#[trigger] pushers@[j]).0,
    ensures
        r@ == initial_teams(level.game(), pushers@),
        forall|k: int| 0 <= k < r@.len() ==> team_wf(level.game(), #[trigger] r@[k]),
        forall|k: int|
            0 <= k < r@.len() ==> (#[trigger] r@[k]).start == level.game().objects[pushers@[k].0.0
                as int].coords && r@[k].offset == pushers@[k].1,
{
    let ghost s = level.game();
    proof {
        level.lemma_game_props();
    }
    let mut r: Vec<Team> = Vec::new();
    let mut k: usize = 0;
    while k < pushers.len()
        invariant
            level.state_wf(),
            s == level.game(),
            forall|k2: int|
                0 <= k2 < pushers@.len() ==> level.game().objects.dom().contains(
                    (#[trigger] pushers@[k2]).0.0 as int,
                ) && pushers@[k2].1.is_unit(),
            forall|k2: int, j: int|
                0 <= k2 < pushers@.len() && 0 <= j < pushers@.len() && k2 != j ==> (
                #[trigger] pushers@[k2]).0 != (#[trigger] pushers@[j]).0,
            k <= pushers@.len(),
            r@.len() == k,
            forall|j: int|
                0 <= j < k ==> #[trigger] r@[j] == build_team(
                    s,
                    pushers@,
                    s.objects[pushers@[j].0.0 as int].coords,
                    pushers@[j].1,
                ) && team_wf(s, r@[j]) && r@[j].start == s.objects[pushers@[j].0.0 as int].coords
                && r@[j].offset == pushers@[j].1,
        decreases pushers@.len() - k,
    {
        let (id, o) = pushers[k];
        let lo = level.object_copy(id.0);
        proof {
            assert(s.occupied(lo.coords));
        }
        let t = walk_team_exec(level, pushers, lo.coords, o);
        r.push(t);
        k += 1;
    }
    proof {
        assert(r@ =~= initial_teams(s, pushers@));
    }
    r
}

/// Whether two teams collide: different directions and a shared cell.
fn teams_collide(Ghost(s): Ghost<GameState>, a: Team, b: Team) -> (r: bool)
    requires
        small_dims(s),
        cells_repr(s, a),
        cells_repr(s, b),
    ensures
        r == a.collides(b),
{
    if a.offset == b.offset {
        return false;
    }
    let mut m: usize = 0;
    let mut ca = a.start;
    proof {
        assert(cell_row(a, 0) == a.start.row && cell_col(a, 0) == a.start.col);
    }
    while m < a.count
        invariant
            small_dims(s),
            cells_repr(s, a),
            cells_repr(s, b),
            m <= a.count,
            ca.row as int == cell_row(a, m as int),
            ca.col as int == cell_col(a, m as int),
            forall|m2: int, n2: int|
                0 <= m2 < m && 0 <= n2 < b.count ==> #[trigger] a.cell(m2) != #[trigger] b.cell(
                    n2,
                ),
        decreases a.count - m,
    {
        let mut n: usize = 0;
        let mut cb = b.start;
        proof {
            assert(cell_row(b, 0) == b.start.row && cell_col(b, 0) == b.start.col);
            assert(a.cell(m as int) == ca);
        }
        while n < b.count
            invariant
                small_dims(s),
                cells_repr(s, a),
                cells_repr(s, b),
                m < a.count,
                n <= b.count,
                ca.row as int == cell_row(a, m as int),
                ca.col as int == cell_col(a, m as int),
                cb.row as int == cell_row(b, n as int),
                cb.col as int == cell_col(b, n as int),
                a.offset != b.offset,
                forall|n2: int| 0 <= n2 < n ==> #[trigger] b.cell(n2) != a.cell(m as int),
            decreases b.count - n,
        {
            proof {
                assert(a.cell(m as int) == ca && b.cell(n as int) == cb);
            }
            if ca.row == cb.row && ca.col == cb.col {
                return true;
            }
            proof {
                lemma_cell_unfold(b, n as int + 1);
            }
            cb = Coords { row: cb.row + b.offset.row, col: cb.col + b.offset.col };
            n += 1;
        }
        proof {
            lemma_cell_unfold(a, m as int + 1);
        }
        ca = Coords { row: ca.row + a.offset.row, col: ca.col + a.offset.col };
        m += 1;
    }
    proof {
        if a.collides(b) {
            let (m2, n2) = choose|m2: int, n2: int|
                0 <= m2 < a.count && 0 <= n2 < b.count && #[trigger] a.cell(m2)
                    == #[trigger] b.cell(n2);
            assert(a.cell(m2) != b.cell(n2));
        }
    }
    false
}

/// A copy of `t` shifted one step in its own direction.
fn moved_team(Ghost(s): Ghost<GameState>, t: Team) -> (r: Team)
    requires
        small_dims(s),
        cells_repr(s, t),
    ensures
        r == t.moved(),
{
    proof {
        assert(cell_row(t, 0) == t.start.row && cell_col(t, 0) == t.start.col);
        lemma_cell_unfold(t, 1);
    }
    Team {
        start: Coords { row: t.start.row + t.offset.row, col: t.start.col + t.offset.col },
        offset: t.offset,
        count: t.count,
        strength: t.strength,
        blocked: t.blocked,
    }
}

/// Whether `c` is one of `t`'s cells other than its start.
fn team_on_tail(Ghost(s): Ghost<GameState>, t: Team, c: Coords) -> (r: bool)
    requires
        small_dims(s),
        cells_repr(s, t),
    ensures
        r == t.on_tail(c),
{
    proof {
        assert(cell_row(t, 0) == t.start.row && cell_col(t, 0) == t.start.col);
        lemma_cell_unfold(t, 1);
    }
    let mut n: usize = 1;
    let mut cn = Coords { row: t.start.row + t.offset.row, col: t.start.col + t.offset.col };
    while n < t.count
        invariant
            small_dims(s),
            cells_repr(s, t),
            1 <= n <= t.count,
            cn.row as int == cell_row(t, n as int),
            cn.col as int == cell_col(t, n as int),
            forall|n2: int| 1 <= n2 < n ==> #[trigger] t.cell(n2) != c,
        decreases t.count - n,
    {
        proof {
            assert(t.cell(n as int) == cn);
        }
        if cn.row == c.row && cn.col == c.col {
            return true;
        }
        proof {
            lemma_cell_unfold(t, n as int + 1);
        }
        cn = Coords { row: cn.row + t.offset.row, col: cn.col + t.offset.col };
        n += 1;
    }
    proof {
        if t.on_tail(c) {
            let n2 = choose|n2: int| 1 <= n2 < t.count && #[trigger] t.cell(n2) == c;
            assert(t.cell(n2) != c);
        }
    }
    false
}

/// Whether `a` orders at or below `b` in team priority.
fn team_le(a: &Team, b: &Team) -> (r: bool)
    ensures
        r == a.le(*b),
{
    a.strength < b.strength || (a.strength == b.strength && (a.offset.lt(b.offset) || (
    a.offset == b.offset)))
}

/// Inserting at the first position whose element does not order at or
/// below `t` realizes the sorted insertion.
proof fn lemma_insert_sorted_at(t: Team, s: Seq<Team>, p: int)
    requires
        0 <= p <= s.len(),
        forall|q: int| 0 <= q < p ==> (#[trigger] s[q]).le(t),
        p == s.len() || !s[p].le(t),
    ensures
        crate::team::insert_sorted(t, s) == s.take(p).push(t).add(s.skip(p)),
    decreases s.len(),
{
    if s.len() == 0 {
        assert(crate::team::insert_sorted(t, s) =~= s.take(p).push(t).add(s.skip(p)));
    } else if p == 0 {
        assert(!s[0].le(t));
        assert(crate::team::insert_sorted(t, s) =~= s.take(0).push(t).add(s.skip(0)));
    } else {
        assert(s[0].le(t));
        lemma_insert_sorted_at(t, s.drop_first(), p - 1);
        assert(s.drop_first().take(p - 1) =~= s.take(p).drop_first());
        assert(s.drop_first().skip(p - 1) =~= s.skip(p));
        assert(crate::team::insert_sorted(t, s) =~= s.take(p).push(t).add(s.skip(p)));
    }
}

/// The teams in ascending priority order, by stable insertion sort.
fn sort_teams_exec(ts: &Vec<Team>) -> (r: Vec<Team>)
    ensures
        r@ == crate::team::sort_teams(ts@),
{
    let mut out: Vec<Team> = Vec::new();
    let mut k: usize = 0;
    while k < ts.len()
        invariant
            k <= ts@.len(),
            out@ == crate::team::sort_teams(ts@.take(k as int)),
            out@.len() == k,
        decreases ts@.len() - k,
    {
        let t = ts[k];
        let mut p: usize = 0;
        while p < out.len() && team_le(&out[p], &t)
            invariant
                p <= out@.len(),
                forall|q: int| 0 <= q < p ==> (#[trigger] out@[q]).le(t),
            decreases out@.len() - p,
        {
            p += 1;
        }
        let ghost oldout = out@;
        out.insert(p, t);
        k += 1;
        proof {
            lemma_insert_sorted_at(t, oldout, p as int);
            assert(out@ =~= oldout.take(p as int).push(t).add(oldout.skip(p as int)));
            assert(ts@.take(k as int).drop_last() =~= ts@.take(k as int - 1));
            assert(ts@.take(k as int).last() == ts@[k as int - 1]);
        }
    }
    proof {
        assert(ts@.take(ts@.len() as int) =~= ts@);
    }
    out
}

/// Every element of a sorted insertion is the inserted team or one of the
/// originals.
proof fn lemma_insert_sorted_membership(t: Team, s: Seq<Team>)
    ensures
        forall|i: int|
            0 <= i < crate::team::insert_sorted(t, s).len() ==> (
            #[trigger] crate::team::insert_sorted(t, s)[i]) == t || exists|j: int|
                0 <= j < s.len() && s[j] == crate::team::insert_sorted(t, s)[i],
    decreases s.len(),
{
    if s.len() == 0 {
    } else if s[0].le(t) {
        lemma_insert_sorted_membership(t, s.drop_first());
        assert forall|i: int|
            0 <= i < crate::team::insert_sorted(t, s).len() implies (
        #[trigger] crate::team::insert_sorted(t, s)[i]) == t || exists|j: int|
            0 <= j < s.len() && s[j] == crate::team::insert_sorted(t, s)[i] by {
            let e = crate::team::insert_sorted(t, s)[i];
            if i == 0 {
                assert(s[0] == e);
            } else {
                let rest = crate::team::insert_sorted(t, s.drop_first());
                assert(e == rest[i - 1]);
                if e != t {
                    let j = choose|j: int| 0 <= j < s.drop_first().len() && s.drop_first()[j] == e;
                    assert(s[j + 1] == e);
                }
            }
        }
    }
}

/// Every element of the sorted team list is one of the originals.
proof fn lemma_sort_membership(ts: Seq<Team>)
    ensures
        forall|i: int|
            0 <= i < crate::team::sort_teams(ts).len() ==> exists|j: int|
                0 <= j < ts.len() && ts[j] == #[trigger] crate::team::sort_teams(ts)[i],
        crate::team::sort_teams(ts).len() == ts.len(),
    decreases ts.len(),
{
    if ts.len() > 0 {
        lemma_sort_membership(ts.drop_last());
        lemma_insert_sorted_membership(ts.last(), crate::team::sort_teams(ts.drop_last()));
        assert forall|i: int|
            0 <= i < crate::team::sort_teams(ts).len() implies exists|j: int|
                0 <= j < ts.len() && ts[j] == #[trigger] crate::team::sort_teams(ts)[i] by {
            let e = crate::team::sort_teams(ts)[i];
            if e == ts.last() {
                assert(ts[ts.len() - 1] == e);
            } else {
                let prev = crate::team::sort_teams(ts.drop_last());
                let j0 = choose|j0: int| 0 <= j0 < prev.len() && prev[j0] == e;
                let j = choose|j: int|
                    0 <= j < ts.drop_last().len() && ts.drop_last()[j] == prev[j0];
                assert(ts[j] == e);
            }
        }
        assert(crate::team::insert_sorted(ts.last(), crate::team::sort_teams(ts.drop_last())).len()
            == crate::team::sort_teams(ts.drop_last()).len() + 1) by {
            lemma_insert_len(ts.last(), crate::team::sort_teams(ts.drop_last()));
        }
    }
}

/// Sorted insertion adds exactly one element.
proof fn lemma_insert_len(t: Team, s: Seq<Team>)
    ensures
        crate::team::insert_sorted(t, s).len() == s.len() + 1,
    decreases s.len(),
{
    if s.len() > 0 && s[0].le(t) {
        lemma_insert_len(t, s.drop_first());
    }
}

/// The indices cut by the collision pass: from strongest to weakest, each
/// team not already cut removes every team colliding with it.
fn cut_teams_exec(
    Ghost(s): Ghost<GameState>,
    teams: &Vec<Team>,
    sorted: &Vec<Team>,
) -> (r: Vec<bool>)
    requires
        small_dims(s),
        sorted@ == crate::team::sort_teams(teams@),
        forall|k: int| 0 <= k < teams@.len() ==> team_wf(s, #[trigger] teams@[k]),
    ensures
        r@.len() == teams@.len(),
        forall|i: int|
            0 <= i < teams@.len() ==> r@[i] == crate::team::cut_upto(
                teams@,
                sorted@,
                sorted@.len() as int,
            ).contains(i),
{
    proof {
        lemma_sort_membership(teams@);
    }
    let mut cut: Vec<bool> = Vec::new();
    let mut i: usize = 0;
    while i < teams.len()
        invariant
            i <= teams@.len(),
            cut@.len() == i,
            forall|j: int| 0 <= j < i ==> !(#[trigger] cut@[j]),
        decreases teams@.len() - i,
    {
        cut.push(false);
        i += 1;
    }
    proof {
        assert forall|j: int|
            0 <= j < teams@.len() implies cut@[j] == crate::team::cut_upto(
            teams@,
            sorted@,
            0,
        ).contains(j) by {}
    }
    let mut k: usize = 0;
    while k < sorted.len()
        invariant
            small_dims(s),
            sorted@ == crate::team::sort_teams(teams@),
            sorted@.len() == teams@.len(),
            forall|k2: int| 0 <= k2 < teams@.len() ==> team_wf(s, #[trigger] teams@[k2]),
            forall|i2: int|
                0 <= i2 < sorted@.len() ==> exists|j: int|
                    0 <= j < teams@.len() && teams@[j] == #[trigger] sorted@[i2],
            k <= sorted@.len(),
            cut@.len() == teams@.len(),
            forall|j: int|
                0 <= j < teams@.len() ==> cut@[j] == crate::team::cut_upto(
                    teams@,
                    sorted@,
                    k as int,
                ).contains(j),
        decreases sorted@.len() - k,
    {
        let t = sorted[sorted.len() - 1 - k];
        proof {
            assert(sorted@[sorted@.len() - (k as int + 1)] == t);
        }
        let mut already = false;
        let mut j: usize = 0;
        while j < teams.len()
            invariant
                j <= teams@.len(),
                cut@.len() == teams@.len(),
                already == exists|i2: int|
                    0 <= i2 < j && (#[trigger] teams@[i2]).start == t.start && cut@[i2],
            decreases teams@.len() - j,
        {
            if teams[j].start == t.start && cut[j] {
                already = true;
            }
            j += 1;
        }
        let ghost prevcut = cut@;
        if !already {
            proof {
                assert(exists|j2: int|
                    0 <= j2 < teams@.len() && teams@[j2] == sorted@[sorted@.len() - 1 - k as int]);
                let j2 = choose|j2: int|
                    0 <= j2 < teams@.len() && teams@[j2] == sorted@[sorted@.len() - 1 - k as int];
                assert(team_wf(s, t));
                lemma_team_wf_repr(s, t);
            }
            let mut j: usize = 0;
            while j < teams.len()
                invariant
                    small_dims(s),
                    forall|k2: int| 0 <= k2 < teams@.len() ==> team_wf(s, #[trigger] teams@[k2]),
                    cells_repr(s, t),
                    j <= teams@.len(),
                    cut@.len() == teams@.len(),
                    forall|i2: int|
                        0 <= i2 < teams@.len() ==> cut@[i2] == (prevcut[i2] || (i2 < j
                            && t.collides(teams@[i2]))),
                decreases teams@.len() - j,
            {
                proof {
                    lemma_team_wf_repr(s, teams@[j as int]);
                }
                let collided = teams_collide(Ghost(s), t, teams[j]);
                if collided {
                    cut.set(j, true);
                }
                j += 1;
                proof {
                    assert forall|i2: int|
                        0 <= i2 < teams@.len() implies cut@[i2] == (prevcut[i2] || (i2 < j
                            && t.collides(teams@[i2]))) by {
                        if i2 == j - 1 {
                            assert(collided == t.collides(teams@[i2]));
                        }
                    }
                }
            }
        }
        k += 1;
        proof {
            let n = k as int;
            let prev = crate::team::cut_upto(teams@, sorted@, n - 1);
            assert(sorted@[sorted@.len() - n] == t);
            if already {
                let i2 = choose|i2: int|
                    0 <= i2 < teams@.len() && (#[trigger] teams@[i2]).start == t.start
                        && prevcut[i2];
                assert(prevcut[i2] == prev.contains(i2));
                assert(exists|i3: int|
                    0 <= i3 < teams@.len() && (#[trigger] teams@[i3]).start == t.start
                        && prev.contains(i3));
                assert(crate::team::cut_upto(teams@, sorted@, n) == prev);
            } else {
                assert(!exists|i2: int|
                    0 <= i2 < teams@.len() && (#[trigger] teams@[i2]).start == t.start
                        && prev.contains(i2)) by {
                    if exists|i2: int|
                        0 <= i2 < teams@.len() && (#[trigger] teams@[i2]).start == t.start
                            && prev.contains(i2) {
                        let i2 = choose|i2: int|
                            0 <= i2 < teams@.len() && (#[trigger] teams@[i2]).start == t.start
                                && prev.contains(i2);
                        assert(prevcut[i2]);
                    }
                }
                assert(crate::team::cut_upto(teams@, sorted@, n) == prev.union(
                    Set::new(|i2: int| 0 <= i2 < teams@.len() && t.collides(teams@[i2])),
                ));
                assert forall|i2: int|
                    0 <= i2 < teams@.len() implies cut@[i2] == crate::team::cut_upto(
                    teams@,
                    sorted@,
                    n,
                ).contains(i2) by {
                    assert(prevcut[i2] == prev.contains(i2));
                    assert(cut@[i2] == (prevcut[i2] || (i2 < teams@.len() && t.collides(
                        teams@[i2],
                    ))));
                }
            }
        }
    }
    cut
}

/// The surviving teams after cutting and subteam pruning, with the ones
/// that are bound to collide already marked blocked.
fn final_teams_exec(
    Ghost(s): Ghost<GameState>,
    teams: &Vec<Team>,
    cutv: &Vec<bool>,
    Ghost(cut): Ghost<Set<int>>,
) -> (r: Vec<Team>)
    requires
        small_dims(s),
        cutv@.len() == teams@.len(),
        forall|k: int| 0 <= k < teams@.len() ==> team_wf(s, #[trigger] teams@[k]),
        forall|i: int| 0 <= i < teams@.len() ==> cutv@[i] == cut.contains(i),
    ensures
        r@ == crate::team::final_upto(teams@, cut, teams@.len() as int),
        forall|k: int| 0 <= k < r@.len() ==> team_wf(s, #[trigger] r@[k]),
{
    let mut r: Vec<Team> = Vec::new();
    let mut i: usize = 0;
    while i < teams.len()
        invariant
            small_dims(s),
            cutv@.len() == teams@.len(),
            forall|k: int| 0 <= k < teams@.len() ==> team_wf(s, #[trigger] teams@[k]),
            forall|i2: int| 0 <= i2 < teams@.len() ==> cutv@[i2] == cut.contains(i2),
            i <= teams@.len(),
            r@ == crate::team::final_upto(teams@, cut, i as int),
            forall|k: int| 0 <= k < r@.len() ==> team_wf(s, #[trigger] r@[k]),
        decreases teams@.len() - i,
    {
        let mut keep = !cutv[i];
        if keep {
            let mut j: usize = 0;
            while j < teams.len()
                invariant
                    small_dims(s),
                    cutv@.len() == teams@.len(),
                    forall|k: int| 0 <= k < teams@.len() ==> team_wf(s, #[trigger] teams@[k]),
                    forall|i2: int| 0 <= i2 < teams@.len() ==> cutv@[i2] == cut.contains(i2),
                    i < teams@.len(),
                    j <= teams@.len(),
                    keep == !exists|j2: int|
                        0 <= j2 < j && !cut.contains(j2) && (#[trigger] teams@[j2]).on_tail(
                            teams@[i as int].start,
                        ),
                decreases teams@.len() - j,
            {
                proof {
                    lemma_team_wf_repr(s, teams@[j as int]);
                }
                if !cutv[j] && team_on_tail(Ghost(s), teams[j], teams[i].start) {
                    keep = false;
                }
                j += 1;
            }
        }
        proof {
            if cut.contains(i as int) {
                assert(!crate::team::survives(teams@, cut, i as int));
            }
        }
        if keep {
            r.push(teams[i]);
        }
        i += 1;
    }
    r
}

/// The initial blocked flags: construction blocks plus forced blocks.
fn initial_blocked_exec(Ghost(s): Ghost<GameState>, f: &Vec<Team>) -> (r: Vec<bool>)
    requires
        small_dims(s),
        forall|k: int| 0 <= k < f@.len() ==> team_wf(s, #[trigger] f@[k]),
    ensures
        r@ == crate::team::initial_blocked(f@),
{
    let mut r: Vec<bool> = Vec::new();
    let mut i: usize = 0;
    while i < f.len()
        invariant
            small_dims(s),
            forall|k: int| 0 <= k < f@.len() ==> team_wf(s, #[trigger] f@[k]),
            i <= f@.len(),
            r@.len() == i,
            forall|k: int| 0 <= k < i ==> r@[k] == crate::team::initial_blocked(f@)[k],
        decreases f@.len() - i,
    {
        let mut forced = false;
        let ghost mut wit: int = 0;
        proof {
            lemma_team_wf_repr(s, f@[i as int]);
        }
        let ti = moved_team(Ghost(s), f[i]);
        let mut j: usize = 0;
        while j < f.len()
            invariant
                small_dims(s),
                forall|k: int| 0 <= k < f@.len() ==> team_wf(s, #[trigger] f@[k]),
                i < f@.len(),
                j <= f@.len(),
                ti == f@[i as int].moved(),
                cells_repr(s, ti),
                forced ==> 0 <= wit < j && crate::team::move_move(f@, i as int, wit)
                    && crate::team::move_stay(f@, i as int, wit),
                !forced ==> forall|j2: int|
                    0 <= j2 < j ==> !(#[trigger] crate::team::move_move(f@, i as int, j2)
                        && crate::team::move_stay(f@, i as int, j2)),
            decreases f@.len() - j,
        {
            proof {
                lemma_team_wf_repr(s, f@[j as int]);
            }
            let tj = moved_team(Ghost(s), f[j]);
            let mmv = teams_collide(Ghost(s), ti, tj);
            let msv = teams_collide(Ghost(s), ti, f[j]);
            proof {
                assert(mmv == crate::team::move_move(f@, i as int, j as int));
                assert(msv == crate::team::move_stay(f@, i as int, j as int));
            }
            if mmv && msv {
                forced = true;
                proof {
                    wit = j as int;
                }
            }
            j += 1;
        }
        proof {
            assert((f@[i as int].blocked || forced) == crate::team::initial_blocked(
                f@,
            )[i as int]) by {
                if forced {
                    assert(crate::team::move_move(f@, i as int, wit) && crate::team::move_stay(
                        f@,
                        i as int,
                        wit,
                    ));
                } else {
                    if exists|j2: int|
                        0 <= j2 < f@.len() && #[trigger] crate::team::move_move(f@, i as int, j2)
                            && crate::team::move_stay(f@, i as int, j2) {
                        let j2 = choose|j2: int|
                            0 <= j2 < f@.len() && #[trigger] crate::team::move_move(
                                f@,
                                i as int,
                                j2,
                            ) && crate::team::move_stay(f@, i as int, j2);
                        assert(!(crate::team::move_move(f@, i as int, j2)
                            && crate::team::move_stay(f@, i as int, j2)));
                    }
                }
            }
        }
        r.push(f[i].blocked || forced);
        i += 1;
    }
    r
}

/// The teams transitively blocked by blocking team `u`: those whose move
/// would hit `u` standing still, in index order.
fn sm_list_exec(Ghost(s): Ghost<GameState>, f: &Vec<Team>, u: usize) -> (r: Vec<usize>)
    requires
        small_dims(s),
        forall|k: int| 0 <= k < f@.len() ==> team_wf(s, #[trigger] f@[k]),
        u < f@.len(),
    ensures
        r@.map_values(|x: usize| x as int) == crate::team::sm_upto(f@, u as int, f@.len() as int),
        forall|q: int| 0 <= q < r@.len() ==> (#[trigger] r@[q]) < f@.len(),
{
    let mut r: Vec<usize> = Vec::new();
    proof {
        lemma_team_wf_repr(s, f@[u as int]);
    }
    let tu = f[u];
    let mut j: usize = 0;
    while j < f.len()
        invariant
            small_dims(s),
            forall|k: int| 0 <= k < f@.len() ==> team_wf(s, #[trigger] f@[k]),
            u < f@.len(),
            j <= f@.len(),
            tu == f@[u as int],
            cells_repr(s, tu),
            r@.map_values(|x: usize| x as int) == crate::team::sm_upto(f@, u as int, j as int),
            forall|q: int| 0 <= q < r@.len() ==> (#[trigger] r@[q]) < f@.len(),
        decreases f@.len() - j,
    {
        proof {
            lemma_team_wf_repr(s, f@[j as int]);
        }
        let mj = moved_team(Ghost(s), f[j]);
        if teams_collide(Ghost(s), tu, mj) {
            r.push(j);
        }
        j += 1;
        proof {
            assert(r@.map_values(|x: usize| x as int) =~= crate::team::sm_upto(
                f@,
                u as int,
                j as int,
            ));
        }
    }
    r
}

/// The blocking pass: teams are visited in ascending priority order, and
/// blocking propagates through a work queue until it empties.
fn blocking_pass_exec(
    Ghost(s): Ghost<GameState>,
    f: &Vec<Team>,
    sorted: &Vec<Team>,
    bl0: Vec<bool>,
) -> (r: Vec<bool>)
    requires
        small_dims(s),
        forall|k: int| 0 <= k < f@.len() ==> team_wf(s, #[trigger] f@[k]),
        forall|k: int, j: int|
            0 <= k < f@.len() && 0 <= j < f@.len() && k != j ==> (#[trigger] f@[k]).start != (
            #[trigger] f@[j]).start,
        bl0@.len() == f@.len(),
    ensures
        r@.len() == f@.len(),
        ({
            let pr0 = Seq::new(f@.len() as nat, |i: int| false);
            r@ == crate::team::pass_upto(f@, sorted@, bl0@, pr0, sorted@.len() as int).0
        }),
{
    let ghost pr0 = Seq::new(f@.len() as nat, |i: int| false);
    let mut bl = bl0;
    let mut pr: Vec<bool> = Vec::new();
    let mut i: usize = 0;
    while i < f.len()
        invariant
            i <= f@.len(),
            pr@.len() == i,
            forall|k: int| 0 <= k < i ==> !(#[trigger] pr@[k]),
        decreases f@.len() - i,
    {
        pr.push(false);
        i += 1;
    }
    proof {
        assert(pr@ =~= pr0);
    }
    let mut n: usize = 0;
    while n < sorted.len()
        invariant
            small_dims(s),
            forall|k: int| 0 <= k < f@.len() ==> team_wf(s, #[trigger] f@[k]),
            forall|k: int, j: int|
                0 <= k < f@.len() && 0 <= j < f@.len() && k != j ==> (#[trigger] f@[k]).start != (
                #[trigger] f@[j]).start,
            n <= sorted@.len(),
            bl@.len() == f@.len(),
            pr@.len() == f@.len(),
            (bl@, pr@) == crate::team::pass_upto(f@, sorted@, bl0@, pr0, n as int),
        decreases sorted@.len() - n,
    {
        let t = sorted[n];
        let ghost entry_bl = bl@;
        let ghost entry_pr = pr@;
        if !t.blocked {
            let mut found = false;
            let mut fi: usize = 0;
            let mut j: usize = 0;
            while j < f.len()
                invariant
                    j <= f@.len(),
                    found == exists|j2: int| 0 <= j2 < j && (#[trigger] f@[j2]).start == t.start,
                    found ==> fi < f@.len() && f@[fi as int].start == t.start && fi < j,
                decreases f@.len() - j,
            {
                if !found && f[j].start == t.start {
                    found = true;
                    fi = j;
                }
                j += 1;
            }
            if found {
                proof {
                    assert(crate::team::index_by_start(f@, t.start) == Some(fi as int)) by {
                        let ic = choose|ic: int|
                            0 <= ic < f@.len() && (#[trigger] f@[ic]).start == t.start;
                        assert(f@[ic].start == f@[fi as int].start);
                        assert(ic == fi);
                    }
                }
                let mut seed = false;
                let ghost mut wit: int = 0;
                proof {
                    lemma_team_wf_repr(s, f@[fi as int]);
                }
                let tm = moved_team(Ghost(s), f[fi]);
                let mut j2: usize = 0;
                while j2 < f.len()
                    invariant
                        small_dims(s),
                        forall|k: int| 0 <= k < f@.len() ==> team_wf(s, #[trigger] f@[k]),
                        fi < f@.len(),
                        j2 <= f@.len(),
                        bl@.len() == f@.len(),
                        tm == f@[fi as int].moved(),
                        cells_repr(s, tm),
                        bl@ == entry_bl,
                        pr@ == entry_pr,
                        seed ==> 0 <= wit < j2 && ((crate::team::move_move(f@, fi as int, wit)
                            && !bl@[wit]) || (crate::team::move_stay(f@, fi as int, wit)
                            && bl@[wit])),
                        !seed ==> forall|q: int|
                            0 <= q < j2 ==> !(#[trigger] crate::team::move_move(f@, fi as int, q)
                                && !bl@[q]),
                        !seed ==> forall|q: int|
                            0 <= q < j2 ==> !(#[trigger] crate::team::move_stay(f@, fi as int, q)
                                && bl@[q]),
                    decreases f@.len() - j2,
                {
                    proof {
                        lemma_team_wf_repr(s, f@[j2 as int]);
                    }
                    let o = moved_team(Ghost(s), f[j2]);
                    let mmv = teams_collide(Ghost(s), tm, o);
                    let msv = teams_collide(Ghost(s), tm, f[j2]);
                    proof {
                        assert(mmv == crate::team::move_move(f@, fi as int, j2 as int));
                        assert(msv == crate::team::move_stay(f@, fi as int, j2 as int));
                    }
                    if (mmv && !bl[j2]) || (msv && bl[j2]) {
                        seed = true;
                        proof {
                            wit = j2 as int;
                        }
                    }
                    j2 += 1;
                }
                proof {
                    assert(seed == ((exists|j3: int|
                        0 <= j3 < f@.len() && #[trigger] crate::team::move_move(f@, fi as int, j3)
                            && !entry_bl[j3]) || (exists|j3: int|
                        0 <= j3 < f@.len() && #[trigger] crate::team::move_stay(f@, fi as int, j3)
                            && entry_bl[j3]))) by {
                        if seed {
                            assert((crate::team::move_move(f@, fi as int, wit) && !entry_bl[wit])
                                || (crate::team::move_stay(f@, fi as int, wit) && entry_bl[wit]));
                        } else {
                            if exists|j3: int|
                                0 <= j3 < f@.len() && #[trigger] crate::team::move_move(
                                    f@,
                                    fi as int,
                                    j3,
                                ) && !entry_bl[j3] {
                                let q = choose|j3: int|
                                    0 <= j3 < f@.len() && #[trigger] crate::team::move_move(
                                        f@,
                                        fi as int,
                                        j3,
                                    ) && !entry_bl[j3];
                                assert(!(crate::team::move_move(f@, fi as int, q) && !bl@[q]));
                            }
                            if exists|j3: int|
                                0 <= j3 < f@.len() && #[trigger] crate::team::move_stay(
                                    f@,
                                    fi as int,
                                    j3,
                                ) && entry_bl[j3] {
                                let q = choose|j3: int|
                                    0 <= j3 < f@.len() && #[trigger] crate::team::move_stay(
                                        f@,
                                        fi as int,
                                        j3,
                                    ) && entry_bl[j3];
                                assert(!(crate::team::move_stay(f@, fi as int, q) && bl@[q]));
                            }
                        }
                    }
                }
                if seed {
                    let mut queue: Vec<usize> = Vec::new();
                    queue.push(fi);
                    proof {
                        assert(queue@.map_values(|x: usize| x as int) =~= seq![fi as int]);
                    }
                    while queue.len() > 0
                        invariant
                            small_dims(s),
                            forall|k: int| 0 <= k < f@.len() ==> team_wf(s, #[trigger] f@[k]),
                            bl@.len() == f@.len(),
                            pr@.len() == f@.len(),
                            forall|q: int|
                                0 <= q < queue@.len() ==> (#[trigger] queue@[q]) < f@.len(),
                            crate::team::process_queue(
                                f@,
                                bl@,
                                pr@,
                                queue@.map_values(|x: usize| x as int),
                            ) == crate::team::process_queue(
                                f@,
                                entry_bl,
                                entry_pr,
                                seq![fi as int],
                            ),
                        decreases crate::team::count_false(pr@), queue@.len(),
                    {
                        let ghost qview = queue@.map_values(|x: usize| x as int);
                        let u = queue.pop().unwrap();
                        proof {
                            assert(qview.last() == u as int);
                            assert(queue@.map_values(|x: usize| x as int) =~= qview.drop_last());
                            crate::team::lemma_count_false_nonneg(pr@);
                        }
                        if f[u].blocked || pr[u] {
                        } else {
                            let ghost prbefore = pr@;
                            bl.set(u, true);
                            pr.set(u, true);
                            let more = sm_list_exec(Ghost(s), f, u);
                            let ghost qrest = queue@;
                            let mut q2: usize = 0;
                            while q2 < more.len()
                                invariant
                                    q2 <= more@.len(),
                                    queue@ == qrest + more@.take(q2 as int),
                                decreases more@.len() - q2,
                            {
                                queue.push(more[q2]);
                                q2 += 1;
                                proof {
                                    assert(queue@ =~= qrest + more@.take(q2 as int));
                                }
                            }
                            proof {
                                assert(more@.take(more@.len() as int) =~= more@);
                                assert(queue@.map_values(|x: usize| x as int) =~= qview.drop_last()
                                    .add(crate::team::sm_upto(f@, u as int, f@.len() as int)));
                                crate::team::lemma_count_false_update(prbefore, u as int);
                                crate::team::lemma_count_false_nonneg(pr@);
                            }
                        }
                    }
                    proof {
                        assert(queue@.map_values(|x: usize| x as int) =~= Seq::<int>::empty());
                        assert(crate::team::process_queue(f@, bl@, pr@, Seq::<int>::empty()) == (
                        bl@,
                        pr@,
                        ));
                        assert((bl@, pr@) == crate::team::process_queue(
                            f@,
                            entry_bl,
                            entry_pr,
                            seq![fi as int],
                        ));
                        let r = crate::team::pass_upto(f@, sorted@, bl0@, pr0, n as int);
                        assert(r == (entry_bl, entry_pr));
                        assert(r.0 == entry_bl && r.1 == entry_pr);
                        assert(sorted@[n as int + 1 - 1] == t);
                        assert((exists|j3: int|
                            0 <= j3 < f@.len() && #[trigger] crate::team::move_move(
                                f@,
                                fi as int,
                                j3,
                            ) && !r.0[j3]) || (exists|j3: int|
                            0 <= j3 < f@.len() && #[trigger] crate::team::move_stay(
                                f@,
                                fi as int,
                                j3,
                            ) && r.0[j3]));
                        reveal_with_fuel(crate::team::pass_upto, 2);
                        let io = crate::team::index_by_start(f@, t.start);
                        let ii = io->0;
                        assert(ii == fi as int);
                        assert((exists|j3: int|
                            0 <= j3 < f@.len() && #[trigger] crate::team::move_move(f@, ii, j3)
                                && !r.0[j3]) || (exists|j3: int|
                            0 <= j3 < f@.len() && #[trigger] crate::team::move_stay(f@, ii, j3)
                                && r.0[j3])) by {
                            if exists|j3: int|
                                0 <= j3 < f@.len() && #[trigger] crate::team::move_move(
                                    f@,
                                    fi as int,
                                    j3,
                                ) && !entry_bl[j3] {
                                let q = choose|j3: int|
                                    0 <= j3 < f@.len() && #[trigger] crate::team::move_move(
                                        f@,
                                        fi as int,
                                        j3,
                                    ) && !entry_bl[j3];
                                assert(crate::team::move_move(f@, ii, q) && !r.0[q]);
                            } else {
                                let q = choose|j3: int|
                                    0 <= j3 < f@.len() && #[trigger] crate::team::move_stay(
                                        f@,
                                        fi as int,
                                        j3,
                                    ) && entry_bl[j3];
                                assert(crate::team::move_stay(f@, ii, q) && r.0[q]);
                            }
                        }
                        assert(crate::team::pass_upto(f@, sorted@, bl0@, pr0, n as int + 1)
                            == crate::team::process_queue(f@, r.0, r.1, seq![ii]));
                        assert(crate::team::process_queue(f@, r.0, r.1, seq![ii])
                            == crate::team::process_queue(f@, entry_bl, entry_pr, seq![
                            fi as int,
                        ])) by {
                            assert(seq![ii] =~= seq![fi as int]);
                        }
                        assert((bl@, pr@) == crate::team::pass_upto(
                            f@,
                            sorted@,
                            bl0@,
                            pr0,
                            n as int + 1,
                        ));
                    }
                } else {
                    proof {
                        let r = crate::team::pass_upto(f@, sorted@, bl0@, pr0, n as int);
                        assert(r == (entry_bl, entry_pr));
                        assert(r.0 == entry_bl);
                        assert(sorted@[n as int + 1 - 1] == t);
                        assert(!(exists|j3: int|
                            0 <= j3 < f@.len() && #[trigger] crate::team::move_move(
                                f@,
                                fi as int,
                                j3,
                            ) && !r.0[j3]));
                        assert(!(exists|j3: int|
                            0 <= j3 < f@.len() && #[trigger] crate::team::move_stay(
                                f@,
                                fi as int,
                                j3,
                            ) && r.0[j3]));
                        reveal_with_fuel(crate::team::pass_upto, 2);
                        assert((bl@, pr@) == crate::team::pass_upto(
                            f@,
                            sorted@,
                            bl0@,
                            pr0,
                            n as int + 1,
                        ));
                    }
                }
            } else {
                proof {
                    assert(crate::team::index_by_start(f@, t.start) is None) by {
                        if exists|ic: int| 0 <= ic < f@.len() && (#[trigger] f@[ic]).start
                            == t.start {
                            let ic = choose|ic: int|
                                0 <= ic < f@.len() && (#[trigger] f@[ic]).start == t.start;
                        }
                    }
                    assert((bl@, pr@) == crate::team::pass_upto(
                        f@,
                        sorted@,
                        bl0@,
                        pr0,
                        n as int + 1,
                    ));
                }
            }
        } else {
            proof {
                assert((bl@, pr@) == crate::team::pass_upto(f@, sorted@, bl0@, pr0, n as int + 1));
            }
        }
        n += 1;
    }
    bl
}

/// The movement records of the unblocked teams.
fn extract_moves(level: &Level, f: &Vec<Team>, bl: &Vec<bool>) -> (r: Vec<(Id, Move)>)
    requires
        level.state_wf(),
        forall|k: int| 0 <= k < f@.len() ==> team_wf(level.game(), #[trigger] f@[k]),
        bl@.len() == f@.len(),
    ensures
        r@ == crate::team::moves_upto(level.game(), f@, bl@, f@.len() as int),
{
    let ghost s = level.game();
    proof {
        level.lemma_game_props();
    }
    let mut r: Vec<(Id, Move)> = Vec::new();
    let mut i: usize = 0;
    while i < f.len()
        invariant
            level.state_wf(),
            s == level.game(),
            s.wf(),
            small_dims(s),
            forall|k: int| 0 <= k < f@.len() ==> team_wf(s, #[trigger] f@[k]),
            bl@.len() == f@.len(),
            i <= f@.len(),
            r@ == crate::team::moves_upto(s, f@, bl@, i as int),
        decreases f@.len() - i,
    {
        if !bl[i] {
            let t = f[i];
            proof {
                lemma_team_wf_repr(s, t);
                assert(cell_row(t, 0) == t.start.row && cell_col(t, 0) == t.start.col);
            }
            let mut n: usize = 0;
            let mut c = t.start;
            while n < t.count
                invariant
                    level.state_wf(),
                    s == level.game(),
                    s.wf(),
                    small_dims(s),
                    t == f@[i as int],
                    i < f@.len(),
                    bl@.len() == f@.len(),
                    forall|k: int| 0 <= k < f@.len() ==> team_wf(s, #[trigger] f@[k]),
                    team_wf(s, t),
                    cells_repr(s, t),
                    n <= t.count,
                    c.row as int == cell_row(t, n as int),
                    c.col as int == cell_col(t, n as int),
                    r@ == crate::team::moves_upto(s, f@, bl@, i as int).add(
                        crate::team::team_moves_upto(s, t, n as int),
                    ),
                decreases t.count - n,
            {
                proof {
                    assert(t.cell(n as int) == c);
                    assert(s.occupied(t.cell(n as int)));
                    assert(0 <= cell_row(t, n as int) < s.height && 0 <= cell_col(t, n as int)
                        < s.width);
                }
                let id = level.object_id_at(c).unwrap();
                let obj = level.object_copy(id);
                let to = Coords { row: c.row + t.offset.row, col: c.col + t.offset.col };
                proof {
                    lemma_cell_unfold(t, n as int + 1);
                }
                let ghost oldr = r@;
                r.push(
                    (
                        Id(id),
                        Move {
                            from_coords: c,
                            to_coords: to,
                            from_facing: obj.facing,
                            to_facing: t.offset,
                        },
                    ),
                );
                c = to;
                n += 1;
                proof {
                    assert(id as int == s.id_at(t.cell(n as int - 1)));
                    assert(r@ =~= crate::team::moves_upto(s, f@, bl@, i as int).add(
                        crate::team::team_moves_upto(s, t, n as int),
                    ));
                }
            }
        } else {
            proof {
                assert(crate::team::moves_upto(s, f@, bl@, i as int + 1)
                    == crate::team::moves_upto(s, f@, bl@, i as int));
            }
        }
        i += 1;
        proof {
            if !bl@[i as int - 1] {
                assert(r@ =~= crate::team::moves_upto(s, f@, bl@, i as int));
            } else {
                assert(r@.add(Seq::empty()) =~= r@);
            }
        }
    }
    r
}

/// Surviving teams keep the pairwise-distinct starts of the team list, and
/// each is one of the original teams.
proof fn lemma_final_distinct(teams: Seq<Team>, cut: Set<int>, n: int)
    requires
        forall|k: int, j: int|
            0 <= k < teams.len() && 0 <= j < teams.len() && k != j ==> (
            #[trigger] teams[k]).start != (#[trigger] teams[j]).start,
        0 <= n <= teams.len(),
    ensures
        forall|a: int|
            0 <= a < crate::team::final_upto(teams, cut, n).len() ==> exists|m: int|
                0 <= m < n && teams[m] == #[trigger] crate::team::final_upto(teams, cut, n)[a],
        forall|a: int, b: int|
            0 <= a < crate::team::final_upto(teams, cut, n).len() && 0 <= b
                < crate::team::final_upto(teams, cut, n).len() && a != b ==> (
            #[trigger] crate::team::final_upto(teams, cut, n)[a]).start != (
            #[trigger] crate::team::final_upto(teams, cut, n)[b]).start,
    decreases n,
{
    if n == 0 {
        assert(crate::team::final_upto(teams, cut, 0).len() == 0);
    } else {
        lemma_final_distinct(teams, cut, n - 1);
        let prev = crate::team::final_upto(teams, cut, n - 1);
        assert forall|a: int|
            0 <= a < crate::team::final_upto(teams, cut, n).len() implies exists|m: int|
            0 <= m < n && teams[m] == #[trigger] crate::team::final_upto(teams, cut, n)[a] by {
            if a < prev.len() {
                let m = choose|m: int| 0 <= m < n - 1 && teams[m] == prev[a];
                assert(crate::team::final_upto(teams, cut, n)[a] == prev[a]);
                assert(teams[m] == crate::team::final_upto(teams, cut, n)[a]);
            } else {
                assert(crate::team::final_upto(teams, cut, n)[a] == teams[n - 1]);
            }
        }
        assert forall|a: int, b: int|
            0 <= a < crate::team::final_upto(teams, cut, n).len() && 0 <= b
                < crate::team::final_upto(teams, cut, n).len() && a != b implies (
        #[trigger] crate::team::final_upto(teams, cut, n)[a]).start != (
        #[trigger] crate::team::final_upto(teams, cut, n)[b]).start by {
            if a < prev.len() && b < prev.len() {
                assert(crate::team::final_upto(teams, cut, n)[a] == prev[a]);
                assert(crate::team::final_upto(teams, cut, n)[b] == prev[b]);
            } else if a < prev.len() {
                let m = choose|m: int| 0 <= m < n - 1 && teams[m] == prev[a];
                assert(crate::team::final_upto(teams, cut, n)[a] == prev[a]);
                assert(crate::team::final_upto(teams, cut, n)[b] == teams[n - 1]);
                assert(teams[m].start != teams[n - 1].start);
            } else {
                let m = choose|m: int| 0 <= m < n - 1 && teams[m] == prev[b];
                assert(crate::team::final_upto(teams, cut, n)[b] == prev[b]);
                assert(crate::team::final_upto(teams, cut, n)[a] == teams[n - 1]);
                assert(teams[m].start != teams[n - 1].start);
            }
        }
    }
}

impl Level {
    /// Computes the set of moves resulting from the given `pushers`: the
    /// full team resolution, from team construction through priority
    /// ordering, cutting, pruning, forced blocks and the blocking pass to
    /// the movement records of the unblocked teams.
    pub(crate) fn get_moves(&self, pushers: &Vec<(Id, Offset)>) -> (r: Vec<(Id, Move)>)
        requires
            self.state_wf(),
            forall|k: int|
                0 <= k < pushers@.len() ==> self.game().objects.dom().contains(
                    (#[trigger] pushers@[k]).0.0 as int,
                ) && pushers@[k].1.is_unit(),
            forall|k: int, j: int|
                0 <= k < pushers@.len() && 0 <= j < pushers@.len() && k != j ==> (
                #[trigger] pushers@[k]).0 != (#[trigger] pushers@[j]).0,
        ensures
            r@ == crate::team::resolve_moves(self.game(), pushers@),
    {
        let ghost s = self.game();
        proof {
            self.lemma_game_props();
        }
        let teams = compute_teams(self, pushers);
        proof {
            assert forall|k: int, j: int|
                0 <= k < teams@.len() && 0 <= j < teams@.len() && k != j implies (
            #[trigger] teams@[k]).start != (#[trigger] teams@[j]).start by {
                let ik = pushers@[k].0.0 as int;
                let ij = pushers@[j].0.0 as int;
                assert(s.objects[ik].coords != s.objects[ij].coords);
            }
        }
        let sorted = sort_teams_exec(&teams);
        let cutv = cut_teams_exec(Ghost(s), &teams, &sorted);
        let ghost cut = crate::team::cut_upto(teams@, sorted@, sorted@.len() as int);
        let f = final_teams_exec(Ghost(s), &teams, &cutv, Ghost(cut));
        proof {
            lemma_final_distinct(teams@, cut, teams@.len() as int);
        }
        let bl0 = initial_blocked_exec(Ghost(s), &f);
        let blv = blocking_pass_exec(Ghost(s), &f, &sorted, bl0);
        let r = extract_moves(self, &f, &blv);
        r
    }
}

} // verus!
