//! Interactive fuzzy selection: match scoring and ranking, terminal key
//! decoding, screen rendering and the search session state machine.

pub mod ansi;
pub mod args;
pub mod choices;
pub mod input;
pub mod matching;
pub mod ranking;
pub mod render;
pub mod score;
pub mod screen;
pub mod search;
pub mod subsequence;
pub mod terminal;
pub mod text;
