//! Decoder for the obfuscated binary save files written by the BYOND game
//! engine.
//!
//! A save file is a flat run of length-prefixed records.  Together the
//! records describe a tree of named directories; each directory holds
//! key/value entries whose values are scalars, strings, type paths or nested
//! lists.  This crate turns the bytes of such a file into a [`Savefile`], and
//! every step of that is specified over byte sequences and proved.
//!
//! [`extract_savefile`] decodes a whole file.  What it gives is stated by
//! [`extract::decode_savefile`], which is built from the grammar of values
//! in [`grammar`], the framing of records in [`records`] and the way records
//! fill directories in [`directories`].

pub mod decoder;
pub mod directories;
pub mod error;
pub mod extract;
pub mod grammar;
pub mod ordered;
pub mod records;
pub mod savefile;
pub mod text;
pub mod values;

pub use decoder::XorDecoder;
pub use error::Error;
pub use extract::extract_savefile;
pub use savefile::{ListEntry, Savefile, SavefileEntryValue};
