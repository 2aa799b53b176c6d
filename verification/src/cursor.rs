//! The cursor over an item blob, which holds one record after the other.

use std::io::Cursor;
use vstd::prelude::*;

verus! {

#[verifier::external_type_specification]
#[verifier::external_body]
#[verifier::reject_recursive_types(T)]
pub struct ExCursor<T>(Cursor<T>);

/// The bytes that a cursor walks over.
pub uninterp spec fn cursor_bytes(cursor: Cursor<Vec<u8>>) -> Seq<u8>;

/// How many bytes a cursor has behind it.
pub uninterp spec fn cursor_position(cursor: Cursor<Vec<u8>>) -> nat;

/// `std::io::Cursor::get_ref`: the buffer that the cursor was made over.
#[verifier::external_body]
fn buffer(cursor: &Cursor<Vec<u8>>) -> (bytes: &Vec<u8>)
    ensures
        bytes@ == cursor_bytes(*cursor),
{
    cursor.get_ref()
}

/// `std::io::Cursor::position`: the current position of the cursor.
#[verifier::external_body]
fn position(cursor: &Cursor<Vec<u8>>) -> (position: u64)
    ensures
        position == cursor_position(*cursor),
{
    cursor.position()
}

/// Whether the cursor has data left to read: whether its position lies
/// before the end of its buffer.
pub fn cursor_has_data(data: &Cursor<Vec<u8>>) -> (more: bool)
    ensures
        more == (cursor_position(*data) < cursor_bytes(*data).len()),
{
    let len: usize = buffer(data).len();
    position(data) < len as u64
}

} // verus!
