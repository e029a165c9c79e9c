//! Decryption and extraction of the game's `.bin` data files.
//!
//! Each `.bin` file is DES-CBC encrypted, gzip compressed XML. The library
//! undoes the CBC chaining and the padding around the block cipher of the
//! `des` crate, inflates the result with `flate2`, and folds the XML events
//! that `quick-xml` reads into structured entries.
//!
//! - `decrypt`: the CBC layer, the padding, and the whole `.bin` decoding.
//! - `xml`: XML events as plain values, and attribute lookup.
//! - `extract`: the extractors, one fold over the events for each file type.
//! - `gamedata`: known file types, locating the data directory, listing files.
//! - `menu`: the decisions of the command-line front end.

pub mod decrypt;
pub mod xml;
pub mod extract;
pub mod gamedata;
pub mod menu;
