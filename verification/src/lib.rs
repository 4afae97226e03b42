//! A server-side engine for an N-player stack-based trading-card game.
//!
//! The engine is authoritative: it owns the game state, enforces the rules
//! and advances only through atoms applied by [`game::Game::apply_atoms`].
//! All player intent (mulligan decisions, action choices, targets, priority
//! passes) is obtained by the caller from an outside decision oracle and fed
//! back in through the step functions on [`game::GameImplV1`].

pub mod atom;
pub mod card;
pub mod effect;
pub mod game;
pub mod game_dsl;
pub mod ids;
pub mod rng;
pub mod state;
pub mod zone;
