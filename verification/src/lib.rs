//! Rules and state transitions of Wordsmith, a Scrabble-style letter auction
//! played by bots: a sealed-bid auction per letter, racks of won letters,
//! word plays scored by letter values and a length bonus, and the matchmaker
//! and tournament that organise matches.
pub mod letters;
pub mod types;
pub mod sorting;
pub mod text;
pub mod dictionary;
pub mod db;
pub mod rng;
pub mod auction;
pub mod bots;
pub mod bidding;
pub mod bag;
pub mod matchplay;
pub mod play;
pub mod tick;
pub mod tournament;
pub mod matchmaker;
pub mod stats;
