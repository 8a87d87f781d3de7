//! Tiles, objects, characters, and the per-turn actions they can take.

use vstd::prelude::*;

use crate::geom::Coords;
use crate::geom::Offset;

verus! {

/// Distinguishes between characters and links them to their return portals.
#[derive(Clone, Copy, PartialEq, Eq, Structural, Debug)]
pub enum CharacterColor {
    Green,
    Red,
    Blue,
    Yellow,
    Magenta,
    Cyan,
    Black,
    White,
}

/// The number of distinct character colors.
pub const COLOR_COUNT: usize = 8;

impl CharacterColor {
    /// The position of this color in the fixed color enumeration.
    pub fn idx(&self) -> (i: usize)
        ensures
            i == self.spec_idx(),
    {
        match self {
            CharacterColor::Green => 0,
            CharacterColor::Red => 1,
            CharacterColor::Blue => 2,
            CharacterColor::Yellow => 3,
            CharacterColor::Magenta => 4,
            CharacterColor::Cyan => 5,
            CharacterColor::Black => 6,
            CharacterColor::White => 7,
        }
    }

    pub open spec fn spec_idx(self) -> int {
        match self {
            CharacterColor::Green => 0,
            CharacterColor::Red => 1,
            CharacterColor::Blue => 2,
            CharacterColor::Yellow => 3,
            CharacterColor::Magenta => 4,
            CharacterColor::Cyan => 5,
            CharacterColor::Black => 6,
            CharacterColor::White => 7,
        }
    }

    /// The color at position `idx` in the fixed color enumeration.
    pub fn from_idx(idx: usize) -> (c: CharacterColor)
        requires
            idx < COLOR_COUNT,
        ensures
            c == CharacterColor::spec_from_idx(idx as int),
            c.spec_idx() == idx,
    {
        match idx {
            0 => CharacterColor::Green,
            1 => CharacterColor::Red,
            2 => CharacterColor::Blue,
            3 => CharacterColor::Yellow,
            4 => CharacterColor::Magenta,
            5 => CharacterColor::Cyan,
            6 => CharacterColor::Black,
            _ => CharacterColor::White,
        }
    }

    pub open spec fn spec_from_idx(idx: int) -> CharacterColor {
        if idx == 0 {
            CharacterColor::Green
        } else if idx == 1 {
            CharacterColor::Red
        } else if idx == 2 {
            CharacterColor::Blue
        } else if idx == 3 {
            CharacterColor::Yellow
        } else if idx == 4 {
            CharacterColor::Magenta
        } else if idx == 5 {
            CharacterColor::Cyan
        } else if idx == 6 {
            CharacterColor::Black
        } else {
            CharacterColor::White
        }
    }
}

/// A level tile.
#[derive(Clone, Copy, PartialEq, Eq, Debug)]
pub enum Tile {
    Floor { portal_color: Option<CharacterColor> },
    Wall,
    Stairs,
}

impl Tile {
    /// Whether `self` and `other` are the same tile.
    pub fn same_as(&self, other: &Tile) -> (r: bool)
        ensures
            r == (*self == *other),
    {
        match (self, other) {
            (Tile::Wall, Tile::Wall) => true,
            (Tile::Stairs, Tile::Stairs) => true,
            (
                Tile::Floor { portal_color: None },
                Tile::Floor { portal_color: None },
            ) => true,
            (
                Tile::Floor { portal_color: Some(a) },
                Tile::Floor { portal_color: Some(b) },
            ) => a == b,
            _ => false,
        }
    }
}

/// An object identifier. Enables correlating object animations across turns.
#[derive(Clone, Copy, PartialEq, Eq, Structural, Debug)]
pub struct Id(pub u32);

/// A playable character.
#[derive(Clone, Copy, PartialEq, Eq, Debug)]
pub struct Character {
    pub color: CharacterColor,
    pub sliding: bool,
    pub portal_coords: Option<Coords>,
}

impl Character {
    /// Whether this character's color is `c`.
    pub fn idx_color_eq(&self, c: CharacterColor) -> (r: bool)
        ensures
            r == (self.color == c),
    {
        self.color.idx() == c.idx()
    }

    /// A character can push unless it is sliding.
    pub fn can_push(&self) -> (r: bool)
        ensures
            r == self.spec_can_push(),
    {
        !self.sliding
    }

    pub open spec fn spec_can_push(self) -> bool {
        !self.sliding
    }

    /// A character can summon while it has no open portal.
    pub fn can_summon(&self) -> (r: bool)
        ensures
            r == self.spec_can_summon(),
    {
        self.portal_coords.is_none()
    }

    pub open spec fn spec_can_summon(self) -> bool {
        self.portal_coords is None
    }

    /// A character can return once it has an open portal.
    pub fn can_return(&self) -> (r: bool)
        ensures
            r == self.spec_can_return(),
    {
        self.portal_coords.is_some()
    }

    pub open spec fn spec_can_return(self) -> bool {
        self.portal_coords is Some
    }
}

/// Something that can be moved around a level.
#[derive(Clone, Copy, PartialEq, Eq, Debug)]
pub enum Object {
    Character(Character),
    WoodenCrate,
    SteelCrate,
    StoneBlock,
}

impl Object {
    /// The push resistance of this object.
    pub fn weight(&self) -> (w: i32)
        ensures
            w == self.spec_weight(),
    {
        match self {
            Object::Character(..) => 1,
            Object::WoodenCrate => 1,
            Object::SteelCrate => 2,
            Object::StoneBlock => 3,
        }
    }

    pub open spec fn spec_weight(self) -> int {
        match self {
            Object::Character(..) => 1,
            Object::WoodenCrate => 1,
            Object::SteelCrate => 2,
            Object::StoneBlock => 3,
        }
    }
}

/// An [`Object`] along with data relating that object to a level.
///
/// `facing` is the grid direction the object currently faces; the
/// presentation layer derives a render angle from it.
#[derive(Clone, Copy, PartialEq, Eq, Debug)]
pub struct LevelObject {
    pub id: Id,
    pub object: Object,
    pub coords: Coords,
    pub facing: Offset,
}

/// A [`Character`] along with data relating that character to a level. (See
/// also [`LevelObject`].)
#[derive(Clone, Copy, PartialEq, Eq, Debug)]
pub struct LevelCharacter {
    pub id: Id,
    pub character: Character,
    pub coords: Coords,
    pub facing: Offset,
}

impl LevelCharacter {
    /// The same character as a [`LevelObject`].
    pub fn to_level_object(&self) -> (o: LevelObject)
        ensures
            o == self.spec_to_level_object(),
    {
        LevelObject {
            id: self.id,
            object: Object::Character(self.character),
            coords: self.coords,
            facing: self.facing,
        }
    }

    pub open spec fn spec_to_level_object(self) -> LevelObject {
        LevelObject {
            id: self.id,
            object: Object::Character(self.character),
            coords: self.coords,
            facing: self.facing,
        }
    }
}

impl Object {
    /// Whether `self` and `other` are the same object.
    pub fn same_as(&self, other: &Object) -> (r: bool)
        ensures
            r == (*self == *other),
    {
        match (self, other) {
            (Object::WoodenCrate, Object::WoodenCrate) => true,
            (Object::SteelCrate, Object::SteelCrate) => true,
            (Object::StoneBlock, Object::StoneBlock) => true,
            (Object::Character(a), Object::Character(b)) => {
                let portals_match = match (a.portal_coords, b.portal_coords) {
                    (None, None) => true,
                    (Some(x), Some(y)) => x == y,
                    _ => false,
                };
                a.color == b.color && a.sliding == b.sliding && portals_match
            },
            _ => false,
        }
    }
}

/// An action that can be performed by a character in one turn.
#[derive(Clone, Copy, PartialEq, Eq, Debug)]
pub enum Action {
    Wait,
    Push(Offset),
    Summon(Offset),
    Return,
}

} // verus!
