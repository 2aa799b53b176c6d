//! Index files, the accelerator that sits beside the segments. Only their
//! names and magic numbers are read.

use crate::wire::starts_with;
use vstd::prelude::*;

verus! {

/// The layout of an index file.
#[derive(Clone, Copy, Debug, PartialEq, Eq, Structural)]
pub enum IndexVariant {
    V1,
    V2,
}

/// Why the layout of an index file could not be told.
#[derive(Clone, Copy, Debug, PartialEq, Eq, Structural)]
pub enum IndexError {
    /// The file is shorter than a magic number.
    Truncated,
    /// The magic number is none of the known ones.
    UnknownMagic,
}

/// An index file of a repository.
#[derive(Debug, PartialEq, Eq)]
pub struct Index {
    /// The number behind `index.` in the file's name.
    pub transaction_id: u32,
    /// The file's name.
    pub path: String,
}

/// An index file as a mathematical value.
pub struct IndexView {
    pub transaction_id: u32,
    pub path: Seq<char>,
}

impl View for Index {
    type V = IndexView;

    open spec fn view(&self) -> IndexView {
        IndexView { transaction_id: self.transaction_id, path: self.path@ }
    }
}

impl Clone for Index {
    fn clone(&self) -> (copy: Self)
        ensures
            copy == *self,
    {
        Index { transaction_id: self.transaction_id, path: self.path.clone() }
    }
}

/// The bytes `BORG_IDX`.
pub open spec fn magic_v1() -> Seq<u8> {
    seq![0x42u8, 0x4fu8, 0x52u8, 0x47u8, 0x5fu8, 0x49u8, 0x44u8, 0x58u8]
}

/// The bytes `BORG2IDX`.
pub open spec fn magic_v2() -> Seq<u8> {
    seq![0x42u8, 0x4fu8, 0x52u8, 0x47u8, 0x32u8, 0x49u8, 0x44u8, 0x58u8]
}

/// The bytes `12345678`, which stand for the second layout as well.
pub open spec fn magic_v2_numeric() -> Seq<u8> {
    seq![0x31u8, 0x32u8, 0x33u8, 0x34u8, 0x35u8, 0x36u8, 0x37u8, 0x38u8]
}

/// The layout that the first eight bytes of an index file name.
pub open spec fn variant_of(data: Seq<u8>) -> Result<IndexVariant, IndexError> {
    if data.len() < 8 {
        Err(IndexError::Truncated)
    } else if data.subrange(0, 8) == magic_v1() {
        Ok(IndexVariant::V1)
    } else if data.subrange(0, 8) == magic_v2() || data.subrange(0, 8) == magic_v2_numeric() {
        Ok(IndexVariant::V2)
    } else {
        Err(IndexError::UnknownMagic)
    }
}

impl Index {
    /// The layout that the magic number at the start of `data` names:
    /// `BORG_IDX` the first, `BORG2IDX` and `12345678` the second. Fewer than
    /// eight bytes are `Truncated`, any other eight `UnknownMagic`.
    pub fn variant(data: &[u8]) -> (r: Result<IndexVariant, IndexError>)
        ensures
            r == variant_of(data@),
    {
        let v1: [u8; 8] = [0x42, 0x4f, 0x52, 0x47, 0x5f, 0x49, 0x44, 0x58];
        let v2: [u8; 8] = [0x42, 0x4f, 0x52, 0x47, 0x32, 0x49, 0x44, 0x58];
        let numeric: [u8; 8] = [0x31, 0x32, 0x33, 0x34, 0x35, 0x36, 0x37, 0x38];
        assert(v1@ =~= magic_v1());
        assert(v2@ =~= magic_v2());
        assert(numeric@ =~= magic_v2_numeric());
        if data.len() < 8 {
            Err(IndexError::Truncated)
        } else if starts_with(data, v1.as_slice()) {
            Ok(IndexVariant::V1)
        } else if starts_with(data, v2.as_slice()) || starts_with(data, numeric.as_slice()) {
            Ok(IndexVariant::V2)
        } else {
            Err(IndexError::UnknownMagic)
        }
    }
}

} // verus!
