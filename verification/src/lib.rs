//! An in-memory key-value and list store speaking a length-prefixed,
//! type-tagged binary frame protocol over a byte stream.
//!
//! The crate is organised bottom-up: `frame` defines the wire messages and
//! their byte encoding, `parse` walks a decoded argument array, `command`
//! turns arguments into commands and dispatches them, and `store` holds the
//! namespaced key-value and list state that commands operate on.

pub mod command;
pub mod frame;
pub mod parse;
pub mod store;
