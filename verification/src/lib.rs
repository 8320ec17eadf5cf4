//! Maps that share their key index.
//!
//! A [`NewMap`] stores its values in an array and leaves the question of
//! which key lies at which position to a key index, a [`SharedKeys`]. An
//! index never changes, so any number of maps can refer to the same one. A
//! key store hands the indices out: one for each key sequence that it is
//! asked about, and one for each key that is added to an index it has. Maps
//! that were built from the same keys, or that went through the same
//! insertions of new keys, so end up with the same index and keep only
//! their values for themselves.
//!
//! Keys are 64-bit identifiers ([`Key`]); values are of any type. The store
//! is a value of its own, [`StdKeyStore`], that the operations which may
//! need a new index take as an argument. A store has a number, and its
//! handles carry it: two handles are equal if they are handles to the same
//! index of the same store.
//!
//! What the operations do is stated over two models: [`map::MapState`] for
//! a map and [`keystore::StoreState`] for a store. The laws that relate the
//! operations are proved over these models, next to them.

pub mod keys;
pub mod keystore;
pub mod map;
pub mod tables;

pub use keys::SharedKeys;
pub use keystore::{InitialMap, KeyStore, KeyStoreStats, StdKeyStore};
pub use map::{IntoIter, Iter, NewMap};
pub use tables::Key;
