//! Monte-Carlo simulation of the early turns of a single-player card deck:
//! a mana algebra with a payment solver, and the turn engine that consults it.

pub mod actions;
pub mod card;
pub mod catalog;
pub mod chance;
pub mod game;
pub mod mana;
pub mod notation;
pub mod oracle;
pub mod order;
pub mod patterns;
pub mod pips;
pub mod play;
pub mod pool;
pub mod search;
pub mod seqs;
pub mod solver;
pub mod tally;
pub mod text;
pub mod turn;
pub mod zone;
