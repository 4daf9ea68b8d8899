//! A Wordle engine: duplicate-aware feedback, accumulated letter knowledge,
//! candidate filtering and information-based ranking of the next guess.

pub mod constraints;
pub mod dictionary;
pub mod error;
pub mod feedback;
pub mod game;
pub mod history;
pub mod knowledge;
pub mod letters;
pub mod ranking;
pub mod solver;
pub mod status;
pub mod word;
