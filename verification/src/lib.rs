//! Vanity identifiers for decks.
//!
//! A deck is named by eight symbols that are derived from a digest of its
//! cards. This library searches the sideboards near a given one for a deck
//! whose symbols begin with a chosen prefix.
//!
//! - `order`, `holdings` and `tally`: counts by card name, as a mathematical
//!   model and as the sorted table that holds them.
//! - `lines`, `decimal`, `encoding` and `decklist`: the text of a decklist.
//! - `canonical`, `digest` and `vanity`: from a deck to the bytes that are
//!   hashed, to the digest, to the eight symbols.
//! - `deck`: the deck itself.
//! - `search`: the candidates of a deck and the search among them.

pub mod canonical;
pub mod decimal;
pub mod deck;
pub mod decklist;
pub mod digest;
pub mod encoding;
pub mod holdings;
pub mod lines;
pub mod order;
pub mod search;
pub mod tally;
pub mod vanity;
