//! A referee for the bluffing card game Coup, played by pluggable bots.
//!
//! ```rust
//! use coup::{bots::{HonestBot, StaticBot}, Coup};
//!
//! let mut game = Coup::new(vec![Box::new(StaticBot), Box::new(HonestBot)]);
//! game.play().unwrap();
//! ```
pub mod actions;
pub mod bot;
pub mod bots;
pub mod deck;
pub mod engine;
pub mod names;
pub mod outcome;
pub mod rounds;
pub mod score;
pub mod types;

pub use engine::{Coup, GameError, Player};
pub use score::{Score, Standing};
pub use types::{Action, Card, ChallengeRound, Counter, History};
