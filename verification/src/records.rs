//! The records that the objects of a repository decode to.

use crate::msgpack::Bytes;
use crate::msgpack::PythonValue;
use vstd::prelude::*;

verus! {

/// What the manifest says of one archive.
#[derive(Debug, PartialEq, Eq)]
pub struct ManifestArchive {
    /// The identifier of the archive's object.
    pub id: [u8; 32],
    pub time: String,
}

/// The authentication block of a manifest.
#[derive(Debug, PartialEq, Eq)]
pub struct Tam {
    pub tipe: String,
    /// The other fields of the block, as they were decoded.
    pub data: Vec<(String, Bytes)>,
}

/// The manifest, the object under the all-zero identifier.
#[derive(Debug, PartialEq, Eq)]
pub struct Manifest {
    pub version: u8,
    pub timestamp: String,
    pub item_keys: Vec<String>,
    pub config: Vec<(String, String)>,
    /// The archives by name, in the order in which they are visited.
    pub archives: Vec<(String, ManifestArchive)>,
    pub tam: Tam,
}

/// An archive: a named snapshot.
#[derive(Debug, PartialEq, Eq)]
pub struct Archive {
    pub version: u8,
    pub name: String,
    /// The identifiers of the objects that hold the archive's items.
    pub items: Vec<[u8; 32]>,
    pub cmdline: Vec<String>,
    pub hostname: String,
    pub username: String,
    pub time: String,
    pub time_end: String,
    pub comment: String,
}

/// One chunk of a file: the identifier of its object, and two values that
/// are carried along and not looked at.
#[derive(Debug, PartialEq, Eq)]
pub struct Chunk {
    pub id: [u8; 32],
    pub size: PythonValue,
    pub checksum: PythonValue,
}

/// One backed-up file or directory.
#[derive(Debug, PartialEq, Eq)]
pub struct ItemMetadata {
    /// The path as bytes; it need not be UTF-8.
    pub path: Vec<u8>,
    /// The chunks whose payloads make up the file, in order. A directory
    /// has none.
    pub chunks: Vec<Chunk>,
}

/// The identifiers of the archives that a manifest lists, in order.
pub open spec fn archive_ids(archives: Seq<(String, ManifestArchive)>) -> Seq<Seq<u8>> {
    archives.map_values(|named: (String, ManifestArchive)| named.1.id@)
}

/// Identifiers as mathematical values.
pub open spec fn ids_view(ids: Seq<[u8; 32]>) -> Seq<Seq<u8>> {
    ids.map_values(|id: [u8; 32]| id@)
}

/// The identifiers of chunks, in order.
pub open spec fn chunk_ids(chunks: Seq<Chunk>) -> Seq<Seq<u8>> {
    chunks.map_values(|chunk: Chunk| chunk.id@)
}

} // verus!
