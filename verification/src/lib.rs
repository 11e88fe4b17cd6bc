//! Bookkeeping for a Magic: The Gathering playgroup rated with the Fletch
//! system: fuzzy player lookup, match entry, rankings and commander
//! statistics.  The rating arithmetic itself is floating point and lives
//! with the program that drives this library.

pub mod text;
pub mod search;
pub mod ranking;
pub mod records;
pub mod stats;
pub mod add_match;
pub mod menu;
