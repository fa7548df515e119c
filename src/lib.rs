//! A shedding-card game engine: a reversible turn-order cycle, a dealer that
//! draws, discards and recycles cards, and the rule that decides which cards
//! may be played on the current top card.
use vstd::prelude::*;

pub mod card;
pub mod cycle;
pub mod dealer;
pub mod game;
pub mod legality;
pub mod player;
mod random;

pub use card::{Card, Color, Symbol};
pub use cycle::Cycle;
