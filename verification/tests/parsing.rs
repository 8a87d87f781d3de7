//! Tests of the text map format: glyph meanings, id assignment, and the
//! rejection of malformed maps.

use causal_oops::Character;
use causal_oops::CharacterColor;
use causal_oops::Coords;
use causal_oops::Level;
use causal_oops::Object;
use causal_oops::Tile;

fn parse(map: &str) -> Option<Level> {
    causal_oops::parse_level(map.as_bytes())
}

#[test]
fn parse_maps_tile_and_object_glyphs() {
    let level = parse("#.>X\n.Y.Z").unwrap();
    assert_eq!(level.width(), 2);
    assert_eq!(level.height(), 2);
    assert!(matches!(level.tile_at(Coords::new(0, 0)), Tile::Wall));
    assert!(matches!(level.tile_at(Coords::new(0, 1)), Tile::Stairs));
    assert!(matches!(
        level.tile_at(Coords::new(1, 0)),
        Tile::Floor { portal_color: None }
    ));
    assert!(level.object_at(Coords::new(0, 0)).is_none());
    assert!(matches!(
        level.object_at(Coords::new(0, 1)),
        Some(Object::WoodenCrate)
    ));
    assert!(matches!(
        level.object_at(Coords::new(1, 0)),
        Some(Object::SteelCrate)
    ));
    assert!(matches!(
        level.object_at(Coords::new(1, 1)),
        Some(Object::StoneBlock)
    ));
}

#[test]
fn parse_assigns_character_ids_in_color_order() {
    // Color 0 appears after color 2 in reading order, but still gets the
    // first id; the crate comes after every character.
    let level = parse(".2.X.0").unwrap();
    let chars = level.characters_by_id();
    assert_eq!(chars.len(), 2);
    assert_eq!(chars[0].0 .0, 0);
    assert_eq!(chars[0].1.color.idx(), 0);
    assert_eq!(chars[1].0 .0, 1);
    assert_eq!(chars[1].1.color.idx(), 2);
    // The characters hold ids 0 and 1, so the crate holds id 2.
    let objects = level.level_objects();
    assert_eq!(objects.len(), 3);
    assert_eq!(objects[2].id.0, 2);
    assert!(matches!(objects[2].object, Object::WoodenCrate));
}

#[test]
fn parse_skips_blank_lines_and_indentation() {
    let indented = parse("\n   .0.X. \n\n").unwrap();
    let plain = parse(".0.X. ").unwrap();
    assert!(indented.equivalent(&plain));
}

#[test]
fn parse_rejects_malformed_maps() {
    // No rows at all.
    assert!(parse("").is_none());
    assert!(parse("\n  \n").is_none());
    // Ragged and odd-width rows.
    assert!(parse(".0. \n.1").is_none());
    assert!(parse(".0.").is_none());
    // Two characters of one color.
    assert!(parse(".0.0").is_none());
}

#[test]
fn parse_agrees_with_manual_construction() {
    let parsed = parse(".0.X. ").unwrap();
    let mut manual = Level::empty(3, 1);
    manual.set_tile_at(Coords::new(0, 0), Tile::Floor { portal_color: None });
    let ok = manual.place_object(
        Object::Character(Character {
            color: CharacterColor::from_idx(0),
            sliding: false,
            portal_coords: None,
        }),
        Coords::new(0, 0),
    );
    assert!(ok);
    let ok = manual.place_object(Object::WoodenCrate, Coords::new(0, 1));
    assert!(ok);
    assert!(parsed.equivalent(&manual));
    assert_eq!(manual.character_count(), 1);
}
