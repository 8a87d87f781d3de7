//! The immutable description of what happened in a turn, and its reverse.

use vstd::prelude::*;

use crate::object::CharacterColor;
use crate::object::Id;
use crate::object::LevelCharacter;
use crate::geom::Coords;
use crate::geom::Offset;

verus! {

/// A movement of an object from one tile to another.
///
/// `from_facing`/`to_facing` are the grid directions the object faces before
/// and after the move; the presentation layer derives render angles from
/// them.
#[derive(Clone, Copy, PartialEq, Eq, Debug)]
pub struct Move {
    pub from_coords: Coords,
    pub to_coords: Coords,
    pub from_facing: Offset,
    pub to_facing: Offset,
}

impl Move {
    /// The move that exactly undoes `self`.
    pub fn reverse(self) -> (r: Move)
        ensures
            r == self.spec_reverse(),
    {
        Move {
            from_coords: self.to_coords,
            to_coords: self.from_coords,
            from_facing: self.to_facing,
            to_facing: self.from_facing,
        }
    }

    pub open spec fn spec_reverse(self) -> Move {
        Move {
            from_coords: self.to_coords,
            to_coords: self.from_coords,
            from_facing: self.to_facing,
            to_facing: self.from_facing,
        }
    }
}

/// A character's return to the past: the returner is removed and its portal
/// tile closed. `linked_id` is the character whose `portal_coords` link is
/// cleared (the other end of the time loop).
#[derive(Clone, Copy, PartialEq, Eq, Debug)]
pub struct Returning {
    pub returner: LevelCharacter,
    pub linked_id: Id,
}

impl Returning {
    /// The summoning that exactly undoes `self`.
    pub fn reverse(self) -> (r: Summoning)
        ensures
            r == self.spec_reverse(),
    {
        let portal_color = self.returner.character.color;
        Summoning { summon: self.returner, linked_id: self.linked_id, portal_color }
    }

    pub open spec fn spec_reverse(self) -> Summoning {
        Summoning {
            summon: self.returner,
            linked_id: self.linked_id,
            portal_color: self.returner.character.color,
        }
    }
}

/// A character's summoning from the future: the summon is spawned on a
/// newly opened portal tile of `portal_color`, and the linked character's
/// `portal_coords` is set to the portal's cell.
#[derive(Clone, Copy, PartialEq, Eq, Debug)]
pub struct Summoning {
    pub summon: LevelCharacter,
    pub linked_id: Id,
    pub portal_color: CharacterColor,
}

impl Summoning {
    /// The returning that exactly undoes `self`.
    pub fn reverse(self) -> (r: Returning)
        ensures
            r == self.spec_reverse(),
    {
        Returning { returner: self.summon, linked_id: self.linked_id }
    }

    pub open spec fn spec_reverse(self) -> Returning {
        Returning { returner: self.summon, linked_id: self.linked_id }
    }
}

/// A change from one level state to another: one turn's total effect, and
/// the unit of undo/redo.
///
/// `returnings` is keyed by an id chosen by the producer of the change (the
/// returner for a fresh turn); `moves` is keyed by the id of the object that
/// moves; `summonings` is keyed by the id of the linked character.
pub struct Change {
    pub returnings: Vec<(Id, Returning)>,
    pub moves: Vec<(Id, Move)>,
    pub summonings: Vec<(Id, Summoning)>,
}

/// The mathematical content of a [`Change`]: the three event lists.
#[verifier::ext_equal]
pub struct ChangeView {
    pub returnings: Seq<(Id, Returning)>,
    pub moves: Seq<(Id, Move)>,
    pub summonings: Seq<(Id, Summoning)>,
}

impl View for Change {
    type V = ChangeView;

    open spec fn view(&self) -> ChangeView {
        ChangeView {
            returnings: self.returnings@,
            moves: self.moves@,
            summonings: self.summonings@,
        }
    }
}

/// The reversed move list of a move list.
pub open spec fn rev_moves(moves: Seq<(Id, Move)>) -> Seq<(Id, Move)> {
    moves.map_values(|e: (Id, Move)| (e.0, e.1.spec_reverse()))
}

/// The returnings that undo a summoning list.
pub open spec fn rev_of_sums(sums: Seq<(Id, Summoning)>) -> Seq<(Id, Returning)> {
    sums.map_values(|e: (Id, Summoning)| (e.0, e.1.spec_reverse()))
}

/// The summonings that undo a returning list.
pub open spec fn rev_of_rets(rets: Seq<(Id, Returning)>) -> Seq<(Id, Summoning)> {
    rets.map_values(|e: (Id, Returning)| (e.0, e.1.spec_reverse()))
}

impl ChangeView {
    /// The change that exactly undoes `self`, entry for entry.
    pub open spec fn reverse(self) -> ChangeView {
        ChangeView {
            returnings: rev_of_sums(self.summonings),
            moves: rev_moves(self.moves),
            summonings: rev_of_rets(self.returnings),
        }
    }

    /// A change with no effect at all.
    pub open spec fn is_empty(self) -> bool {
        self.returnings.len() == 0 && self.moves.len() == 0 && self.summonings.len() == 0
    }
}

impl Change {
    /// A change with no effect at all.
    pub fn empty() -> (c: Change)
        ensures
            c@.is_empty(),
    {
        Change { returnings: Vec::new(), moves: Vec::new(), summonings: Vec::new() }
    }

    /// The change that exactly undoes `self`: reversed summonings become the
    /// returnings, moves are reversed in place, and reversed returnings
    /// become the summonings.
    pub fn reverse(&self) -> (r: Change)
        ensures
            r@ == self@.reverse(),
    {
        let mut returnings: Vec<(Id, Returning)> = Vec::new();
        let mut moves: Vec<(Id, Move)> = Vec::new();
        let mut summonings: Vec<(Id, Summoning)> = Vec::new();
        let mut i: usize = 0;
        while i < self.summonings.len()
            invariant
                i <= self.summonings.len(),
                returnings@ == self.summonings@.take(i as int).map_values(
                    |e: (Id, Summoning)| (e.0, e.1.spec_reverse()),
                ),
            decreases self.summonings.len() - i,
        {
            let (id, s) = self.summonings[i];
            returnings.push((id, s.reverse()));
            i += 1;
            assert(self.summonings@.take(i as int).drop_last() == self.summonings@.take(
                i as int - 1,
            ));
        }
        assert(self.summonings@.take(self.summonings@.len() as int) == self.summonings@);
        let mut i: usize = 0;
        while i < self.moves.len()
            invariant
                i <= self.moves.len(),
                moves@ == self.moves@.take(i as int).map_values(
                    |e: (Id, Move)| (e.0, e.1.spec_reverse()),
                ),
            decreases self.moves.len() - i,
        {
            let (id, m) = self.moves[i];
            moves.push((id, m.reverse()));
            i += 1;
            assert(self.moves@.take(i as int).drop_last() == self.moves@.take(i as int - 1));
        }
        assert(self.moves@.take(self.moves@.len() as int) == self.moves@);
        let mut i: usize = 0;
        while i < self.returnings.len()
            invariant
                i <= self.returnings.len(),
                summonings@ == self.returnings@.take(i as int).map_values(
                    |e: (Id, Returning)| (e.0, e.1.spec_reverse()),
                ),
            decreases self.returnings.len() - i,
        {
            let (id, r) = self.returnings[i];
            summonings.push((id, r.reverse()));
            i += 1;
            assert(self.returnings@.take(i as int).drop_last() == self.returnings@.take(
                i as int - 1,
            ));
        }
        assert(self.returnings@.take(self.returnings@.len() as int) == self.returnings@);
        Change { returnings, moves, summonings }
    }

    /// An exact copy of `self`.
    pub fn duplicate(&self) -> (r: Change)
        ensures
            r@ == self@,
    {
        let mut returnings: Vec<(Id, Returning)> = Vec::new();
        let mut moves: Vec<(Id, Move)> = Vec::new();
        let mut summonings: Vec<(Id, Summoning)> = Vec::new();
        let mut i: usize = 0;
        while i < self.returnings.len()
            invariant
                i <= self.returnings.len(),
                returnings@ == self.returnings@.take(i as int),
            decreases self.returnings.len() - i,
        {
            returnings.push(self.returnings[i]);
            i += 1;
            assert(self.returnings@.take(i as int).drop_last() == self.returnings@.take(
                i as int - 1,
            ));
        }
        let mut i: usize = 0;
        while i < self.moves.len()
            invariant
                i <= self.moves.len(),
                moves@ == self.moves@.take(i as int),
            decreases self.moves.len() - i,
        {
            moves.push(self.moves[i]);
            i += 1;
            assert(self.moves@.take(i as int).drop_last() == self.moves@.take(i as int - 1));
        }
        let mut i: usize = 0;
        while i < self.summonings.len()
            invariant
                i <= self.summonings.len(),
                summonings@ == self.summonings@.take(i as int),
            decreases self.summonings.len() - i,
        {
            summonings.push(self.summonings[i]);
            i += 1;
            assert(self.summonings@.take(i as int).drop_last() == self.summonings@.take(
                i as int - 1,
            ));
        }
        assert(self.returnings@.take(self.returnings@.len() as int) == self.returnings@);
        assert(self.moves@.take(self.moves@.len() as int) == self.moves@);
        assert(self.summonings@.take(self.summonings@.len() as int) == self.summonings@);
        Change { returnings, moves, summonings }
    }
}

/// A bidirectional change: a turn's forward change and its precomputed
/// reverse, stored so undo and redo never recompute either.
pub struct BiChange {
    pub forward: Change,
    pub reverse: Change,
}

/// A [`Change`] handed to downstream consumers of an update.
pub struct ChangeEvent(pub Change);

} // verus!
