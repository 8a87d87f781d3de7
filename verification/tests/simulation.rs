//! End-to-end tests of the level simulation: push strength, blocking,
//! broken teams, collision resolution, summon/return, and the undo/redo
//! history.

use causal_oops::Action;
use causal_oops::Character;
use causal_oops::CharacterColor;
use causal_oops::Coords;
use causal_oops::Level;
use causal_oops::Object;
use causal_oops::Offset;
use causal_oops::Tile;

const U: Action = Action::Push(Offset { row: -1, col: 0 });
const D: Action = Action::Push(Offset { row: 1, col: 0 });
const L: Action = Action::Push(Offset { row: 0, col: -1 });
const R: Action = Action::Push(Offset { row: 0, col: 1 });
const Z: Action = Action::Wait;

/// Builds a level from a map string: each line is a level row of
/// two-character cells, a tile glyph (`#` wall, `>` stairs, otherwise
/// floor) and an object glyph (digit = character of that color,
/// `X`/`Y`/`Z` = crates). The map must be well-formed.
fn make_level(map: &str) -> Level {
    causal_oops::parse_level(map.as_bytes()).expect("well-formed map")
}

/// Performs `actions` on `level`, in character index order.
fn perform(level: &mut Level, actions: &[Action]) {
    let ids: Vec<_> = level.characters_by_id().iter().map(|(id, _)| *id).collect();
    assert_eq!(ids.len(), actions.len());
    let actors: Vec<_> = ids.iter().copied().zip(actions.iter().copied()).collect();
    level.update(actors);
}

/// Performs `actions` on `start` and asserts the result equals `end`.
fn check(actions: &[Action], start: &str, end: &str) {
    let mut actual = make_level(start);
    perform(&mut actual, actions);
    let expected = make_level(end);
    assert!(actual.equivalent(&expected));
}

// Push strength

#[test]
fn one_can_push_wooden_crate() {
    check(&[R], ".0.X. ", ". .0.X");
}

#[test]
fn one_can_push_passive_character() {
    check(&[R, Z], ".0.1. ", ". .0.1");
}

#[test]
fn one_cannot_push_two_wooden_crates() {
    check(&[R], ".0.X.X. ", ".0.X.X. ");
}

#[test]
fn two_can_push_two_wooden_crates() {
    check(&[R, R], ".0.1.X.X. ", ". .0.1.X.X");
}

#[test]
fn one_cannot_push_steel_crate() {
    check(&[R], ".0.Y. ", ".0.Y. ");
}

#[test]
fn two_can_push_steel_crate() {
    check(&[R, R], ".0.1.Y. ", ". .0.1.Y");
}

// Blocking

#[test]
fn opposing_teams_block() {
    check(&[R, R, L], ".0.1.2", ".0.1.2");
}

#[test]
fn orthogonal_team_blocks() {
    // Although the rightward team is stronger, it's blocked regardless of
    // whether the downward team moves.
    check(
        &[D, D, R, R, R],
        ". . . .0. \n\
         .2.3.4.1. \n\
         . . . . . ",
        ". . . . . \n\
         .2.3.4.0. \n\
         . . . .1. ",
    );
}

#[test]
fn blocked_orthogonal_pusher_blocks() {
    check(
        &[R, D],
        ".0.1\n\
         . # ",
        ".0.1\n\
         . # ",
    );
}

#[test]
fn loops_do_not_block() {
    check(
        &[R, D, L, U],
        ".0.1\n\
         .3.2",
        ".3.0\n\
         .2.1",
    );
}

// Broken teams

#[test]
fn strong_cuts_weak() {
    // Down normally cuts right, but the rightward team is stronger.
    check(
        &[D, R, R],
        ". . .0. \n\
         .1.2.X. \n\
         . . . . ",
        ". . .0. \n\
         . .1.2.X\n\
         . . . . ",
    );
}

#[test]
fn can_steal_from_blocked_team() {
    // With 0 blocked, the crate unambiguously belongs to 1's team.
    check(
        &[D, R],
        ". .0. \n\
         .1.X. \n\
         . # . ",
        ". .0. \n\
         . .1.X\n\
         . # . ",
    );
}

#[test]
fn strong_uncut_subteam_continues_on() {
    // 3 has enough strength by itself to push the crate.
    check(
        &[D, D, R, R],
        ". .0. . . \n\
         .2.X.3.X. \n\
         . .1. . . \n\
         . .X. . . \n\
         . . . . . ",
        ". . . . . \n\
         .2.0. .3.X\n\
         . .X. . . \n\
         . .1. . . \n\
         . .X. . . ",
    );
}

#[test]
fn weak_uncut_subteam_is_blocked() {
    // With 3 and 4 blocked, 5 can't push two crates.
    check(
        &[D, D, D, R, R, R],
        ". . .0. . . \n\
         . . .1. . . \n\
         .3.4.X.5.X.X\n\
         . . .2. . . \n\
         . . .X. . . \n\
         . . .X. . . \n\
         . . . . . . ",
        ". . . . . . \n\
         . . .0. . . \n\
         .3.4.1.5.X.X\n\
         . . .X. . . \n\
         . . .2. . . \n\
         . . .X. . . \n\
         . . .X. . . ",
    );
}

// Collision resolution

#[test]
fn down_beats_right_left_up() {
    check(
        &[D, U],
        ".0\n\
         . \n\
         .1",
        ". \n\
         .0\n\
         .1",
    );
    check(
        &[D, R],
        ". .0\n\
         .1. ",
        ". . \n\
         .1.0",
    );
    check(
        &[D, L],
        ".0. \n\
         . .1",
        ". . \n\
         .0.1",
    );
}

#[test]
fn right_beats_left_up() {
    check(
        &[R, U],
        ".0. \n\
         . .1",
        ". .0\n\
         . .1",
    );
    check(&[R, L], ".0. .1", ". .0.1");
}

#[test]
fn left_beats_up() {
    check(
        &[L, U],
        ". .0\n\
         .1. ",
        ".0. \n\
         .1. ",
    );
}

#[test]
fn strong_blocks_weak() {
    // Down normally beats right, but the rightward team is stronger.
    check(
        &[D, R],
        ". .0\n\
         . .X\n\
         .1. ",
        ". .0\n\
         . .X\n\
         . .1",
    );
}

// Waiting

#[test]
fn wait_turn_changes_nothing() {
    let start = ". .0.X\n.1. . ";
    let mut level = make_level(start);
    let event = {
        let ids: Vec<_> = level.characters_by_id().iter().map(|(id, _)| *id).collect();
        let actors: Vec<_> = ids.into_iter().map(|id| (id, Z)).collect();
        level.update(actors)
    };
    assert!(event.0.returnings.is_empty());
    assert!(event.0.moves.is_empty());
    assert!(event.0.summonings.is_empty());
    assert!(level.equivalent(&make_level(start)));
}

// History

#[test]
fn undo_and_redo_restore_states() {
    let start = ".0.X. ";
    let after = ". .0.X";
    let mut level = make_level(start);
    assert!(level.undo().is_none());
    perform(&mut level, &[R]);
    assert!(level.equivalent(&make_level(after)));
    assert!(level.undo().is_some());
    assert!(level.equivalent(&make_level(start)));
    assert!(level.redo().is_some());
    assert!(level.equivalent(&make_level(after)));
    assert!(level.redo().is_none());
}

#[test]
fn update_truncates_redo_history() {
    let mut level = make_level(".0. . ");
    perform(&mut level, &[R]);
    assert!(level.undo().is_some());
    // A different action discards the old future.
    perform(&mut level, &[Z]);
    assert!(level.redo().is_none());
    assert!(level.equivalent(&make_level(".0. . ")));
}

#[test]
fn undo_is_exact_over_many_turns() {
    let start = ". . . .0. \n\
                 .2.3.4.1. \n\
                 . . . . . ";
    let mut level = make_level(start);
    perform(&mut level, &[D, D, R, R, R]);
    perform(&mut level, &[Z, Z, R, R, R]);
    assert!(level.undo().is_some());
    assert!(level.undo().is_some());
    assert!(level.equivalent(&make_level(start)));
}

// Summoning and returning

#[test]
fn summon_spawns_past_self_on_new_portal() {
    let mut level = make_level(".0. . . ");
    let ids: Vec<_> = level.characters_by_id().iter().map(|(id, _)| *id).collect();
    let event = level.update(vec![(ids[0], Action::Summon(Offset { row: 0, col: 1 }))]);
    assert_eq!(event.0.summonings.len(), 1);
    assert_eq!(level.character_count(), 2);
    // The summon appears on the farthest open floor tile to the right,
    // on a portal of the summoner's color.
    match level.tile_at(Coords::new(0, 3)) {
        Tile::Floor { portal_color: Some(c) } => assert_eq!(c.idx(), 0),
        _ => panic!("expected an open portal"),
    }
    assert!(level.object_at(Coords::new(0, 3)).is_some());
    // The summoner now has an open portal, so it may return but not
    // summon again.
    let summoner = level.character_by_id(ids[0]);
    assert!(summoner.can_return());
    assert!(!summoner.can_summon());
    // Undo removes the summon and closes the portal.
    assert!(level.undo().is_some());
    assert_eq!(level.character_count(), 1);
    assert!(level.equivalent(&make_level(".0. . . ")));
    // Redo brings it back.
    assert!(level.redo().is_some());
    assert_eq!(level.character_count(), 2);
}

#[test]
fn return_through_own_portal() {
    // Summon a past self below, step aside, walk onto the portal, and
    // return through it.
    let mut level = make_level(
        ".0. \n\
         . . ",
    );
    let id0 = level.characters_by_id()[0].0;
    level.update(vec![(id0, Action::Summon(Offset { row: 1, col: 0 }))]);
    assert_eq!(level.character_count(), 2);
    let id1 = level
        .characters_by_id()
        .iter()
        .map(|(id, _)| *id)
        .find(|id| *id != id0)
        .unwrap();
    // The summon steps off the portal; the summoner steps onto it.
    level.update(vec![(id0, Z), (id1, R)]);
    level.update(vec![(id0, D), (id1, Z)]);
    // The summoner stands on its own portal and returns.
    let event = level.update(vec![(id0, Action::Return), (id1, Z)]);
    assert_eq!(event.0.returnings.len(), 1);
    assert_eq!(level.character_count(), 1);
    // The portal is closed again and the cell is free.
    assert!(matches!(
        level.tile_at(Coords::new(1, 0)),
        Tile::Floor { portal_color: None }
    ));
    assert!(level.object_at(Coords::new(1, 0)).is_none());
    // Undoing the whole story restores the lone original character.
    assert!(level.undo().is_some());
    assert_eq!(level.character_count(), 2);
    assert!(level.undo().is_some());
    assert!(level.undo().is_some());
    assert!(level.undo().is_some());
    assert!(level.equivalent(&make_level(".0. \n. . ")));
}

// Change reversal

#[test]
fn change_reverse_swaps_moves() {
    let mut level = make_level(".0.X. ");
    let event = perform_event(&mut level, &[R]);
    let rev = event.0.reverse();
    assert_eq!(rev.moves.len(), event.0.moves.len());
    let (_, m) = &event.0.moves[0];
    let (_, rm) = &rev.moves[0];
    assert_eq!(m.from_coords, rm.to_coords);
    assert_eq!(m.to_coords, rm.from_coords);
}

/// Performs `actions` and hands back the change event.
fn perform_event(level: &mut Level, actions: &[Action]) -> causal_oops::ChangeEvent {
    let ids: Vec<_> = level.characters_by_id().iter().map(|(id, _)| *id).collect();
    let actors: Vec<_> = ids.iter().copied().zip(actions.iter().copied()).collect();
    level.update(actors)
}

// Small types

#[test]
fn weights_match_object_kinds() {
    assert_eq!(
        Object::Character(Character {
            color: CharacterColor::Green,
            sliding: false,
            portal_coords: None
        })
        .weight(),
        1
    );
    assert_eq!(Object::WoodenCrate.weight(), 1);
    assert_eq!(Object::SteelCrate.weight(), 2);
    assert_eq!(Object::StoneBlock.weight(), 3);
}

#[test]
fn color_indices_round_trip() {
    for i in 0..causal_oops::COLOR_COUNT {
        assert_eq!(CharacterColor::from_idx(i).idx(), i);
    }
}

#[test]
fn sliding_characters_cannot_push() {
    let c = Character { color: CharacterColor::Blue, sliding: true, portal_coords: None };
    assert!(!c.can_push());
    assert!(c.can_summon());
    assert!(!c.can_return());
}
