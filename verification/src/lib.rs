//! Reconstruction engine for flat key/value pair collections whose keys encode
//! nested structure through bracket notation (`a[b][c]`).
//!
//! A [`PairMap`] owns the pairs of one nesting level; keys that continue deeper
//! are buffered in a [`Stash`] and reconstructed into child maps on demand,
//! honoring a configurable depth ceiling. Converting a map into a [`PairSeq`]
//! yields its items in ascending index order, with unindexed items first.

pub mod error;
pub mod key;
pub mod laws;
pub mod map;
pub mod pair;
pub mod seq;
pub mod sort;
pub mod stash;

pub use error::Error;
pub use key::{key_parse, parse_index, KeyParse};
pub use map::{MapModel, NextKey, PairMap};
pub use pair::Pair;
pub use seq::{ItemKind, ItemModel, PairSeq, SeqModel};
pub use stash::{Stash, StashModel};
