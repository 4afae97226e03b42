//! Opaque identifiers for games, players, cards and game objects.
//!
//! All identifiers are 128-bit values; equality is bitwise. On the wire they
//! travel as UUIDs, and the engine mints fresh ones in version-4 layout from
//! its seeded generator (see [`crate::rng`]).

use vstd::prelude::*;

verus! {

/// Identifies one game.
#[derive(Debug, Clone, Copy, PartialEq, Eq, Hash, Structural)]
pub struct GameId(pub u128);

/// Identifies one player.
#[derive(Debug, Clone, Copy, PartialEq, Eq, Hash, Structural)]
pub struct PlayerId(pub u128);

/// Identifies a static card definition in the card database.
#[derive(Debug, Clone, Copy, PartialEq, Eq, Hash, Structural)]
pub struct CardId(pub u128);

impl CardId {
    /// Wraps a given identifier value.
    pub fn with(id: u128) -> (r: CardId)
        ensures
            r == (CardId { 0: id }),
    {
        CardId(id)
    }
}

/// Tracks a physical card throughout a whole game: no two objects in the
/// same game should carry the same library card id.
#[derive(Debug, Clone, Copy, PartialEq, Eq, Hash, Structural)]
pub struct LibraryCardId(pub u128);

/// Identifies a transient per-zone instance of a card.
#[derive(Debug, Clone, Copy, PartialEq, Eq, Hash, Structural)]
pub struct ObjectId(pub u128);

/// The origin of an effect.
#[derive(Debug, Clone, Copy, PartialEq, Eq, Hash, Structural)]
pub enum SourceId {
    Player(PlayerId),
}

/// What an effect may be aimed at.
#[derive(Debug, Clone, Copy, PartialEq, Eq, Hash, Structural)]
pub enum TargetId {
    Player(PlayerId),
    Object(ObjectId),
}

} // verus!
