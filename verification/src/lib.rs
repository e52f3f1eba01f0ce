//! A word-guessing game: the word list format, the rules that score a guess
//! against the hidden word, the state of one game, the player statistics, and
//! the reading of the Wiktionary pages from which the word list is built.

pub mod app;
pub mod search;
pub mod statistics;
pub mod text;
pub mod wiktionary;
pub mod wordlist;
