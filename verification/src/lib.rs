//! Reading an unencrypted Borg repository: segment logs are parsed into
//! PUT / DELETE / COMMIT entries, replayed into an object store, and the
//! manifest, archives and items found there are walked to the files they
//! describe. Every function states what it returns over a mathematical
//! model of its inputs, and Verus proves the statement.

pub mod cursor;
pub mod envelope;
pub mod extract;
pub mod index;
pub mod msgpack;
pub mod order;
pub mod records;
pub mod repository;
pub mod segment;
pub mod store;
pub mod text;
pub mod wire;
