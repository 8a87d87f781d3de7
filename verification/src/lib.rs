//! Simulation core of a turn-based, grid-world puzzle game.
//!
//! Characters simultaneously push objects across a tile grid, summon past
//! copies of themselves through time portals, and later return to close the
//! causal loop. The engine resolves one turn at a time: a return phase, a
//! push phase (team resolution with strength, blocking and collision
//! semantics), and a summon phase. Every turn produces a reversible
//! [`Change`](change::Change), and the level keeps a history of
//! forward/reverse pairs so that any turn can be undone and redone exactly.

#![verifier::loop_isolation(false)]

mod change;
mod geom;
mod level;
mod mapfmt;
mod moves;
mod object;
mod reversal;
mod state;
mod steps;
mod summon;
mod team;
mod validate;

pub use change::BiChange;
pub use change::Change;
pub use change::ChangeEvent;
pub use change::ChangeView;
pub use change::Move;
pub use change::Returning;
pub use change::Summoning;
pub use level::Level;
pub use level::actors_wf;
pub use level::update_change;
pub use level::turn_rets;
pub use level::turn_movs;
pub use level::turn_sums;
pub use level::change_ids_bound;
pub use geom::Coords;
pub use geom::Offset;
pub use mapfmt::level_matches_map;
pub use mapfmt::map_objects;
pub use mapfmt::map_rows;
pub use mapfmt::map_wf;
pub use mapfmt::object_of_glyph;
pub use mapfmt::parse_level;
pub use mapfmt::placement_order;
pub use mapfmt::tile_of_glyph;
pub use object::Action;
pub use object::Character;
pub use object::CharacterColor;
pub use object::COLOR_COUNT;
pub use object::Id;
pub use object::LevelCharacter;
pub use object::LevelObject;
pub use object::Object;
pub use object::Tile;
pub use reversal::lemma_empty_change;
pub use reversal::lemma_mov_cancel;
pub use reversal::lemma_ret_sum_cancel;
pub use reversal::lemma_round_trip;
pub use reversal::lemma_sum_ret_cancel;
pub use reversal::lemma_undo_redo;
pub use state::GameState;
pub use team::Team;
pub use team::resolve_moves;
pub use state::apply_change;
pub use state::change_ok;
pub use state::change_ok_fwd;
