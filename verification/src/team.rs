//! Team resolution: given each pusher's direction, determine which objects
//! move this turn.
//!
//! A team is a maximal contiguous line of co-moving objects headed by
//! pushers. Teams gather strength from aligned pushers, lose it to the
//! weight of passive objects, and are blocked by walls, opposing pushers,
//! exhausted strength, or collisions with other teams. The whole
//! resolution is defined here as specification functions, mirrored by
//! executable code in [`crate::moves`].

use vstd::prelude::*;

use crate::change::Move;
use crate::geom::Coords;
use crate::geom::Offset;
use crate::object::Id;
use crate::object::Tile;
use crate::state::GameState;

verus! {

/// A connected line of pushers and passive objects, for use in the
/// resolution of simultaneous movement.
#[derive(Clone, Copy, PartialEq, Eq, Structural, Debug)]
pub struct Team {
    /// The cell of the backmost pusher.
    pub start: Coords,
    /// The unit offset in the direction of the team.
    pub offset: Offset,
    /// How many contiguous cells the team occupies, starting at `start`.
    pub count: usize,
    /// Net pushing capacity: two per additional aligned pusher, minus the
    /// weight of every object after the backmost pusher.
    pub strength: i64,
    /// Whether the team is unable to move this turn.
    pub blocked: bool,
}

impl Team {
    /// The `n`-th cell of this team, counted from its start.
    pub open spec fn cell(self, n: int) -> Coords {
        Coords {
            row: (self.start.row + n * self.offset.row) as i32,
            col: (self.start.col + n * self.offset.col) as i32,
        }
    }

    /// Whether `c` is one of this team's cells.
    pub open spec fn on_team(self, c: Coords) -> bool {
        exists|n: int| 0 <= n < self.count && #[trigger] self.cell(n) == c
    }

    /// Whether `c` is one of this team's cells other than its start.
    pub open spec fn on_tail(self, c: Coords) -> bool {
        exists|n: int| 1 <= n < self.count && #[trigger] self.cell(n) == c
    }

    /// A copy of this team shifted one step in its own direction.
    pub open spec fn moved(self) -> Team {
        Team {
            start: Coords {
                row: (self.start.row + self.offset.row) as i32,
                col: (self.start.col + self.offset.col) as i32,
            },
            offset: self.offset,
            count: self.count,
            strength: self.strength,
            blocked: self.blocked,
        }
    }

    /// Whether `self` and `other` collide: teams with different directions
    /// collide when they share a cell. Teams with the same direction never
    /// collide (one contains the other, or they are disjoint).
    pub open spec fn collides(self, other: Team) -> bool {
        self.offset != other.offset && exists|m: int, n: int|
            0 <= m < self.count && 0 <= n < other.count && #[trigger] self.cell(m)
                == #[trigger] other.cell(n)
    }

    /// Priority order: strength first, then direction, so that resolution
    /// is deterministic.
    pub open spec fn le(self, other: Team) -> bool {
        self.strength < other.strength || (self.strength == other.strength && (
        self.offset.spec_lt(other.offset) || self.offset == other.offset))
    }

    /// The degenerate blocked team: just the starting pusher, going
    /// nowhere.
    pub open spec fn blocked_at(start: Coords, offset: Offset) -> Team {
        Team { start, offset, count: 1, strength: -1 as i64, blocked: true }
    }
}

/// The row of a team's `n`-th cell, as an unbounded integer.
pub open spec fn cell_row(t: Team, n: int) -> int {
    t.start.row + n * t.offset.row
}

/// The column of a team's `n`-th cell, as an unbounded integer.
pub open spec fn cell_col(t: Team, n: int) -> int {
    t.start.col + n * t.offset.col
}

/// Grid dimensions small enough that team-cell arithmetic stays well
/// within `i32`.
pub open spec fn small_dims(s: GameState) -> bool {
    0 <= s.width <= 0x0FFF_FFFF && 0 <= s.height <= 0x0FFF_FFFF
}

/// A team as the walk produces it: a unit direction, at least one cell,
/// and every cell on the grid and occupied.
pub open spec fn team_wf(s: GameState, t: Team) -> bool {
    &&& t.offset.is_unit()
    &&& 1 <= t.count
    &&& forall|n: int| 0 <= n < t.count ==> 0 <= #[trigger] cell_row(t, n) < s.height
    &&& forall|n: int| 0 <= n < t.count ==> 0 <= #[trigger] cell_col(t, n) < s.width
    &&& forall|n: int| 0 <= n < t.count ==> s.occupied(#[trigger] t.cell(n))
}

/// The direction of the pusher with id `i`, if that id is a pusher.
pub open spec fn pusher_offset(pushers: Seq<(Id, Offset)>, i: int) -> Option<Offset> {
    if exists|k: int| 0 <= k < pushers.len() && #[trigger] pushers[k].0.0 == i {
        Some(
            pushers[choose|k: int| 0 <= k < pushers.len() && #[trigger] pushers[k].0.0 == i].1,
        )
    } else {
        None
    }
}

/// How many steps remain before a walk from `c` in direction `o` leaves
/// the grid.
pub open spec fn steps_left(s: GameState, c: Coords, o: Offset) -> int {
    if !s.in_bounds(c) {
        0
    } else if o == Offset::spec_up() {
        c.row + 1
    } else if o == Offset::spec_down() {
        s.height - c.row
    } else if o == Offset::spec_left() {
        c.col + 1
    } else {
        s.width - c.col
    }
}

/// One pusher's team, walking from `cur` with the cells before `cur`
/// already accumulated in `team`. The walk finalizes the team at an empty
/// cell or an orthogonally-directed pusher, blocks it at a wall, the grid
/// edge, an opposing pusher, or exhausted strength, and otherwise claims
/// the object ahead and continues.
pub open spec fn walk_team(
    s: GameState,
    pushers: Seq<(Id, Offset)>,
    team: Team,
    cur: Coords,
) -> Team
    decreases steps_left(s, cur, team.offset),
    when team.offset.is_unit() && s.width <= i32::MAX && s.height <= i32::MAX
{
    if !s.in_bounds(cur) {
        Team::blocked_at(team.start, team.offset)
    } else if s.tiles[s.tile_index(cur)] is Wall {
        Team::blocked_at(team.start, team.offset)
    } else if !s.occupied(cur) {
        team
    } else {
        let obj = s.objects[s.id_at(cur)];
        let w = obj.object.spec_weight();
        match pusher_offset(pushers, s.id_at(cur)) {
            Some(po) => {
                if po == team.offset {
                    // An aligned pusher joins and contributes.
                    let st = team.strength + 2 - w;
                    if st < 0 {
                        Team::blocked_at(team.start, team.offset)
                    } else {
                        walk_team(
                            s,
                            pushers,
                            Team {
                                start: team.start,
                                offset: team.offset,
                                count: (team.count + 1) as usize,
                                strength: st as i64,
                                blocked: false,
                            },
                            Coords {
                                row: (cur.row + team.offset.row) as i32,
                                col: (cur.col + team.offset.col) as i32,
                            },
                        )
                    }
                } else if po == team.offset.spec_negate() {
                    // An opposing pusher blocks the starting pusher.
                    Team::blocked_at(team.start, team.offset)
                } else {
                    // An orthogonal pusher may get out of the way later;
                    // the walk stops without blocking.
                    team
                }
            },
            None => {
                // A passive object is claimed; its weight drains the
                // team's strength.
                let st = team.strength - w;
                if st < 0 {
                    Team::blocked_at(team.start, team.offset)
                } else {
                    walk_team(
                        s,
                        pushers,
                        Team {
                            start: team.start,
                            offset: team.offset,
                            count: (team.count + 1) as usize,
                            strength: st as i64,
                            blocked: false,
                        },
                        Coords {
                            row: (cur.row + team.offset.row) as i32,
                            col: (cur.col + team.offset.col) as i32,
                        },
                    )
                }
            },
        }
    }
}

/// The team initiated by the pusher at `start` pushing in direction `o`.
pub open spec fn build_team(
    s: GameState,
    pushers: Seq<(Id, Offset)>,
    start: Coords,
    o: Offset,
) -> Team {
    walk_team(
        s,
        pushers,
        Team { start, offset: o, count: 1, strength: 1, blocked: false },
        Coords { row: (start.row + o.row) as i32, col: (start.col + o.col) as i32 },
    )
}

/// All pushers' teams, in the order the pushers were given.
pub open spec fn initial_teams(s: GameState, pushers: Seq<(Id, Offset)>) -> Seq<Team> {
    pushers.map_values(
        |p: (Id, Offset)| build_team(s, pushers, s.objects[p.0.0 as int].coords, p.1),
    )
}

/// Stable insertion of `t` into the priority-sorted `s`: `t` goes after
/// every team that does not order strictly above it.
pub open spec fn insert_sorted(t: Team, s: Seq<Team>) -> Seq<Team>
    decreases s.len(),
{
    if s.len() == 0 {
        seq![t]
    } else if s[0].le(t) {
        seq![s[0]].add(insert_sorted(t, s.drop_first()))
    } else {
        seq![t].add(s)
    }
}

/// The teams in ascending priority order, by stable insertion sort.
pub open spec fn sort_teams(ts: Seq<Team>) -> Seq<Team>
    decreases ts.len(),
{
    if ts.len() == 0 {
        Seq::empty()
    } else {
        insert_sorted(ts.last(), sort_teams(ts.drop_last()))
    }
}

/// The indices of teams cut after the `n` highest-priority teams have each
/// (unless already cut) cut every team colliding with them.
pub open spec fn cut_upto(teams: Seq<Team>, sorted: Seq<Team>, n: int) -> Set<int>
    decreases n,
{
    if n <= 0 {
        Set::empty()
    } else {
        let prev = cut_upto(teams, sorted, n - 1);
        let t = sorted[sorted.len() - n];
        if exists|i: int|
            0 <= i < teams.len() && (#[trigger] teams[i]).start == t.start && prev.contains(i) {
            prev
        } else {
            prev.union(
                Set::new(|i: int| 0 <= i < teams.len() && t.collides(teams[i])),
            )
        }
    }
}

/// Whether team `i` survives cutting and subteam pruning: it is uncut, and
/// its start is on no uncut team's tail.
pub open spec fn survives(teams: Seq<Team>, cut: Set<int>, i: int) -> bool {
    &&& 0 <= i < teams.len()
    &&& !cut.contains(i)
    &&& !exists|j: int|
        0 <= j < teams.len() && !cut.contains(j) && (#[trigger] teams[j]).on_tail(
            teams[i].start,
        )
}

/// The surviving teams among the first `n`, in the order their pushers
/// were given.
pub open spec fn final_upto(teams: Seq<Team>, cut: Set<int>, n: int) -> Seq<Team>
    decreases n,
{
    if n <= 0 {
        Seq::empty()
    } else if survives(teams, cut, n - 1) {
        final_upto(teams, cut, n - 1).push(teams[n - 1])
    } else {
        final_upto(teams, cut, n - 1)
    }
}

/// Whether moving team `i` collides with team `j` also moving.
pub open spec fn move_move(f: Seq<Team>, i: int, j: int) -> bool {
    f[i].moved().collides(f[j].moved())
}

/// Whether moving team `i` collides with team `j` staying put.
pub open spec fn move_stay(f: Seq<Team>, i: int, j: int) -> bool {
    f[i].moved().collides(f[j])
}

/// Whether team `i` staying put collides with team `j` moving.
pub open spec fn stay_move(f: Seq<Team>, i: int, j: int) -> bool {
    f[i].collides(f[j].moved())
}

/// The surviving teams with the teams that are bound to collide no matter
/// what already marked blocked: a team is force-blocked when moving it
/// collides with some other surviving team whether or not that team moves.
pub open spec fn initial_blocked(f: Seq<Team>) -> Seq<bool> {
    Seq::new(
        f.len(),
        |i: int| f[i].blocked || exists|j: int|
            0 <= j < f.len() && #[trigger] move_move(f, i, j) && move_stay(f, i, j),
    )
}

/// The teams whose move would hit team `u` standing still, in index
/// order: blocking `u` transitively blocks them.
pub open spec fn sm_upto(f: Seq<Team>, u: int, n: int) -> Seq<int>
    decreases n,
{
    if n <= 0 {
        Seq::empty()
    } else if stay_move(f, u, n - 1) {
        sm_upto(f, u, n - 1).push(n - 1)
    } else {
        sm_upto(f, u, n - 1)
    }
}

/// How many teams have not yet propagated their blocking.
pub open spec fn count_false(pr: Seq<bool>) -> int
    decreases pr.len(),
{
    if pr.len() == 0 {
        0
    } else {
        count_false(pr.drop_last()) + if pr.last() {
            0int
        } else {
            1int
        }
    }
}

/// Drains the work queue of teams to block. A popped team propagates its
/// blocking to the teams it would stay-move collide with, once: teams
/// blocked at construction never propagate, and no team propagates twice.
pub open spec fn process_queue(
    f: Seq<Team>,
    bl: Seq<bool>,
    pr: Seq<bool>,
    queue: Seq<int>,
) -> (Seq<bool>, Seq<bool>)
    decreases count_false(pr), queue.len(),
        when pr.len() == f.len() && forall|q: int|
            0 <= q < queue.len() ==> 0 <= #[trigger] queue[q] < f.len()
    via process_queue_decreases
{
    if queue.len() == 0 {
        (bl, pr)
    } else {
        let u = queue.last();
        let rest = queue.drop_last();
        if f[u].blocked || pr[u] {
            process_queue(f, bl, pr, rest)
        } else {
            process_queue(
                f,
                bl.update(u, true),
                pr.update(u, true),
                rest.add(sm_upto(f, u, f.len() as int)),
            )
        }
    }
}

/// Setting an unset propagation flag lowers the count of unset flags.
pub proof fn lemma_count_false_update(pr: Seq<bool>, u: int)
    requires
        0 <= u < pr.len(),
        !pr[u],
    ensures
        count_false(pr.update(u, true)) == count_false(pr) - 1,
    decreases pr.len(),
{
    if u == pr.len() - 1 {
        assert(pr.update(u, true).drop_last() =~= pr.drop_last());
        lemma_count_false_nonneg(pr.drop_last());
    } else {
        assert(pr.update(u, true).drop_last() =~= pr.drop_last().update(u, true));
        lemma_count_false_update(pr.drop_last(), u);
    }
}

/// The count of unset flags is never negative.
pub proof fn lemma_count_false_nonneg(pr: Seq<bool>)
    ensures
        count_false(pr) >= 0,
    decreases pr.len(),
{
    if pr.len() > 0 {
        lemma_count_false_nonneg(pr.drop_last());
    }
}

#[via_fn]
proof fn process_queue_decreases(f: Seq<Team>, bl: Seq<bool>, pr: Seq<bool>, queue: Seq<int>) {
    if queue.len() > 0 {
        let u = queue.last();
        lemma_count_false_nonneg(pr);
        if !(f[u].blocked || pr[u]) {
            lemma_count_false_update(pr, u);
            lemma_count_false_nonneg(pr.update(u, true));
        }
    }
}

/// Index of the surviving team starting at `c`, if any.
pub open spec fn index_by_start(f: Seq<Team>, c: Coords) -> Option<int> {
    if exists|i: int| 0 <= i < f.len() && (#[trigger] f[i]).start == c {
        Some(choose|i: int| 0 <= i < f.len() && (#[trigger] f[i]).start == c)
    } else {
        None
    }
}

/// The blocking pass over the first `n` teams in ascending priority
/// order. A team not blocked at construction is enqueued for blocking
/// when moving it may collide with a team that is not blocked yet, or
/// does collide with a team that is already blocked; the queue then
/// propagates blocking through stay-move collisions until empty.
pub open spec fn pass_upto(
    f: Seq<Team>,
    sorted: Seq<Team>,
    bl: Seq<bool>,
    pr: Seq<bool>,
    n: int,
) -> (Seq<bool>, Seq<bool>)
    decreases n,
{
    if n <= 0 {
        (bl, pr)
    } else {
        let r = pass_upto(f, sorted, bl, pr, n - 1);
        let t = sorted[n - 1];
        if t.blocked {
            r
        } else {
            match index_by_start(f, t.start) {
                Some(i) => {
                    if (exists|j: int|
                        0 <= j < f.len() && #[trigger] move_move(f, i, j) && !r.0[j]) || (
                    exists|j: int| 0 <= j < f.len() && #[trigger] move_stay(f, i, j) && r.0[j]) {
                        process_queue(f, r.0, r.1, seq![i])
                    } else {
                        r
                    }
                },
                None => r,
            }
        }
    }
}

/// The movement records of one team's first `n` cells: each object steps
/// one cell in the team's direction and turns to face it.
pub open spec fn team_moves_upto(s: GameState, t: Team, n: int) -> Seq<(Id, Move)>
    decreases n,
{
    if n <= 0 {
        Seq::empty()
    } else {
        let c = t.cell(n - 1);
        let id = s.id_at(c);
        team_moves_upto(s, t, n - 1).push(
            (
                Id(id as u32),
                Move {
                    from_coords: c,
                    to_coords: Coords {
                        row: (c.row + t.offset.row) as i32,
                        col: (c.col + t.offset.col) as i32,
                    },
                    from_facing: s.objects[id].facing,
                    to_facing: t.offset,
                },
            ),
        )
    }
}

/// The movement records of the unblocked teams among the first `n`.
pub open spec fn moves_upto(s: GameState, f: Seq<Team>, bl: Seq<bool>, n: int) -> Seq<
    (Id, Move),
>
    decreases n,
{
    if n <= 0 {
        Seq::empty()
    } else if !bl[n - 1] {
        moves_upto(s, f, bl, n - 1).add(team_moves_upto(s, f[n - 1], f[n - 1].count as int))
    } else {
        moves_upto(s, f, bl, n - 1)
    }
}

/// The complete push resolution: build a team per pusher, order by
/// priority, cut colliding teams from strongest to weakest, prune
/// subteams, force-block the teams that collide no matter what, run the
/// blocking pass, and emit one move per member of each unblocked team.
pub open spec fn resolve_moves(s: GameState, pushers: Seq<(Id, Offset)>) -> Seq<(Id, Move)> {
    let teams = initial_teams(s, pushers);
    let sorted = sort_teams(teams);
    let cut = cut_upto(teams, sorted, sorted.len() as int);
    let f = final_upto(teams, cut, teams.len() as int);
    let bl0 = initial_blocked(f);
    let pr0 = Seq::new(f.len(), |i: int| false);
    let r = pass_upto(f, sorted, bl0, pr0, sorted.len() as int);
    moves_upto(s, f, r.0, f.len() as int)
}

} // verus!
