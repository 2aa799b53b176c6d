//! The envelope round every stored blob: one byte that names the encryption,
//! two that name the compression, then the payload.

use crate::wire::le_u16;
use crate::wire::u16_at;
use std::io::ErrorKind;
use vstd::prelude::*;
use vstd::slice::slice_subrange;
use vstd::slice::slice_to_vec;

verus! {

/// Length of the envelope header.
pub const HEADER_LEN: usize = 3;

/// Encryption tag of a blob stored in the clear, the only one that is read.
pub const PLAINTEXT: u8 = 0x02;

/// Compression tag of a payload stored as it is.
pub const UNCOMPRESSED: u16 = 0x0000;

/// Compression tag of a payload stored as one LZ4 block.
pub const LZ4: u16 = 0x0001;

/// No output buffer is ever larger than this: 128 MiB.
pub const MAX_BUFFER: usize = 134217728;

/// Why a blob could not be unwrapped.
#[derive(Clone, Copy, Debug, PartialEq, Eq, Structural)]
pub enum EnvelopeError {
    /// Fewer than three header bytes.
    Truncated,
    /// The encryption tag is not the plaintext tag.
    UnsupportedEncryption,
    /// The compression tag is neither "none" nor LZ4.
    UnsupportedCompression,
    /// The LZ4 decoder gave the block up.
    Lz4Failed,
    /// The payload does not fit a buffer within the cap.
    TooLarge,
}

/// How the LZ4 decoder can turn a block down.
#[derive(Clone, Copy, Debug, PartialEq, Eq, Structural)]
pub enum BlockError {
    /// It did not accept the output size it was offered.
    Refused,
    /// It started on the block and could not finish it.
    Failed,
}

/// What the LZ4 block decoder makes of `src` when it is offered an output
/// buffer of `size` bytes.
pub uninterp spec fn lz4_block(src: Seq<u8>, size: int) -> Result<Seq<u8>, BlockError>;

/// The contents of a decoder result.
pub open spec fn block_view(r: Result<Vec<u8>, BlockError>) -> Result<Seq<u8>, BlockError> {
    match r {
        Ok(bytes) => Ok(bytes@),
        Err(e) => Err(e),
    }
}

/// `lz4::block::decompress_to_buffer` on a fresh buffer of `size` zero bytes,
/// with `size` also handed over as the uncompressed size. On success the
/// result is the part of the buffer that the decoder filled. The crate
/// answers with the error kind `InvalidInput` where it does not accept the
/// size or the buffer: that is `Refused`. Every other error is `Failed`; the
/// crate reports a block that is malformed or larger than the buffer in this
/// way. What comes back depends on the block and the size alone; the
/// contract gives it a name and says no more of it. The buffer is allocated
/// here, so no size over the cap is taken.
#[verifier::external_body]
fn decompress_block(src: &[u8], size: i32) -> (r: Result<Vec<u8>, BlockError>)
    requires
        0 <= size <= MAX_BUFFER,
    ensures
        block_view(r) == lz4_block(src@, size as int),
{
    let mut buffer = vec![0u8; size as usize];
    match lz4::block::decompress_to_buffer(src, Some(size), &mut buffer) {
        Ok(filled) => {
            buffer.truncate(filled);
            Ok(buffer)
        },
        Err(e) if e.kind() == ErrorKind::InvalidInput => Err(BlockError::Refused),
        Err(_) => Err(BlockError::Failed),
    }
}

/// The buffer size to try after `size`: half as much again, rounded down.
pub open spec fn grown(size: int) -> int {
    size + size / 2
}

/// What to do once the decoder has answered.
#[derive(Debug, PartialEq, Eq)]
pub enum Attempt {
    /// The payload is there.
    Done(Vec<u8>),
    /// Try again with a buffer of this size.
    Retry(usize),
    /// Give the blob up.
    GiveUp(EnvelopeError),
}

/// What to do once the decoder has answered, as a mathematical value.
pub enum AttemptView {
    Done(Seq<u8>),
    Retry(int),
    GiveUp(EnvelopeError),
}

impl View for Attempt {
    type V = AttemptView;

    open spec fn view(&self) -> AttemptView {
        match self {
            Attempt::Done(bytes) => AttemptView::Done(bytes@),
            Attempt::Retry(size) => AttemptView::Retry(*size as int),
            Attempt::GiveUp(e) => AttemptView::GiveUp(*e),
        }
    }
}

/// What follows from the decoder's answer to a buffer of `size` bytes: a
/// payload ends the probing; a block that the decoder gave up is
/// `Lz4Failed`; a size that it refused is followed by the grown size,
/// unless that is no larger (`Lz4Failed`) or lies over the cap (`TooLarge`).
pub open spec fn after_attempt(size: int, outcome: Result<Seq<u8>, BlockError>) -> AttemptView {
    match outcome {
        Ok(bytes) => AttemptView::Done(bytes),
        Err(BlockError::Failed) => AttemptView::GiveUp(EnvelopeError::Lz4Failed),
        Err(BlockError::Refused) => if grown(size) <= size {
            AttemptView::GiveUp(EnvelopeError::Lz4Failed)
        } else if grown(size) > MAX_BUFFER {
            AttemptView::GiveUp(EnvelopeError::TooLarge)
        } else {
            AttemptView::Retry(grown(size))
        },
    }
}

/// Decides what follows an attempt with a buffer of `size` bytes, as
/// [`after_attempt`] lays it down.
pub fn next_attempt(size: usize, outcome: Result<Vec<u8>, BlockError>) -> (next: Attempt)
    ensures
        next@ == after_attempt(size as int, block_view(outcome)),
        next matches Attempt::Retry(s) ==> size < s <= MAX_BUFFER,
{
    match outcome {
        Ok(bytes) => Attempt::Done(bytes),
        Err(BlockError::Failed) => Attempt::GiveUp(EnvelopeError::Lz4Failed),
        Err(BlockError::Refused) => {
            if size < 2 {
                Attempt::GiveUp(EnvelopeError::Lz4Failed)
            } else if size > MAX_BUFFER || size + size / 2 > MAX_BUFFER {
                Attempt::GiveUp(EnvelopeError::TooLarge)
            } else {
                Attempt::Retry(size + size / 2)
            }
        },
    }
}

/// The payload of an LZ4 block, found by offering the decoder buffers of
/// growing size, the first of `size` bytes. No buffer over the cap is tried.
pub open spec fn probe(src: Seq<u8>, size: int) -> Result<Seq<u8>, EnvelopeError>
    decreases MAX_BUFFER - size,
{
    if size > MAX_BUFFER {
        Err(EnvelopeError::TooLarge)
    } else {
        match after_attempt(size, lz4_block(src, size)) {
            AttemptView::Done(payload) => Ok(payload),
            AttemptView::GiveUp(e) => Err(e),
            AttemptView::Retry(larger) => probe(src, larger),
        }
    }
}

/// The payload that a stored blob wraps.
pub open spec fn unwrapped(blob: Seq<u8>) -> Result<Seq<u8>, EnvelopeError> {
    if blob.len() < HEADER_LEN {
        Err(EnvelopeError::Truncated)
    } else if blob[0] != PLAINTEXT {
        Err(EnvelopeError::UnsupportedEncryption)
    } else if le_u16(blob.subrange(1, 3)) == UNCOMPRESSED {
        Ok(blob.skip(3))
    } else if le_u16(blob.subrange(1, 3)) == LZ4 {
        probe(blob.skip(3), 3 * (blob.len() - 3))
    } else {
        Err(EnvelopeError::UnsupportedCompression)
    }
}

/// The contents of an unwrapping result.
pub open spec fn payload_view(r: Result<Vec<u8>, EnvelopeError>) -> Result<
    Seq<u8>,
    EnvelopeError,
> {
    match r {
        Ok(bytes) => Ok(bytes@),
        Err(e) => Err(e),
    }
}

/// Decodes the LZ4 block `src`, starting with a buffer of `size` bytes.
fn probe_block(src: &[u8], size: usize) -> (r: Result<Vec<u8>, EnvelopeError>)
    ensures
        payload_view(r) == probe(src@, size as int),
{
    let mut current: usize = size;
    loop
        invariant
            probe(src@, current as int) == probe(src@, size as int),
        decreases MAX_BUFFER - current,
    {
        if current > MAX_BUFFER {
            return Err(EnvelopeError::TooLarge);
        }
        match next_attempt(current, decompress_block(src, current as i32)) {
            Attempt::Done(bytes) => {
                return Ok(bytes);
            },
            Attempt::GiveUp(e) => {
                return Err(e);
            },
            Attempt::Retry(larger) => {
                current = larger;
            },
        }
    }
}

/// Strips the envelope from a stored blob and decompresses the payload.
///
/// A blob of fewer than three bytes is `Truncated`; then an encryption tag
/// other than plaintext is `UnsupportedEncryption`; then the little-endian
/// compression tag chooses: none gives the rest of the blob as it is, LZ4
/// gives what the decoder makes of the rest, any other is
/// `UnsupportedCompression`. For LZ4 the first buffer is three times as
/// large as the compressed payload.
pub fn unpack_data(data: &[u8]) -> (r: Result<Vec<u8>, EnvelopeError>)
    ensures
        payload_view(r) == unwrapped(data@),
{
    let len: usize = data.len();
    if len < HEADER_LEN {
        return Err(EnvelopeError::Truncated);
    }
    if data[0] != PLAINTEXT {
        return Err(EnvelopeError::UnsupportedEncryption);
    }
    let compression: u16 = u16_at(data, 1);
    let payload = slice_subrange(data, HEADER_LEN, len);
    assert(payload@ == data@.skip(3));
    if compression == UNCOMPRESSED {
        Ok(slice_to_vec(payload))
    } else if compression == LZ4 {
        let compressed: usize = len - HEADER_LEN;
        if compressed > MAX_BUFFER / 3 {
            Err(EnvelopeError::TooLarge)
        } else {
            probe_block(payload, 3 * compressed)
        }
    } else {
        Err(EnvelopeError::UnsupportedCompression)
    }
}

/// A blob stored in the clear and uncompressed unwraps to its payload,
/// whatever the payload is.
pub proof fn lemma_stored_payload_unwraps(payload: Seq<u8>)
    ensures
        unwrapped(seq![PLAINTEXT, 0u8, 0u8] + payload) == Ok::<Seq<u8>, EnvelopeError>(payload),
{
    let blob = seq![PLAINTEXT, 0u8, 0u8] + payload;
    assert(blob.subrange(1, 3) == seq![0u8, 0u8]);
    assert(blob.skip(3) == payload);
}

/// A blob stored in the clear as an LZ4 block unwraps to what the decoder
/// makes of the block in a buffer three times its length, where the decoder
/// accepts that buffer and the buffer is within the cap.
pub proof fn lemma_lz4_payload_unwraps(block: Seq<u8>, payload: Seq<u8>)
    requires
        3 * block.len() <= MAX_BUFFER,
        lz4_block(block, 3 * (block.len() as int)) == Ok::<Seq<u8>, BlockError>(payload),
    ensures
        unwrapped(seq![PLAINTEXT, 1u8, 0u8] + block) == Ok::<Seq<u8>, EnvelopeError>(payload),
{
    let blob = seq![PLAINTEXT, 1u8, 0u8] + block;
    assert(blob.subrange(1, 3) == seq![1u8, 0u8]);
    assert(blob.skip(3) == block);
}

/// No buffer over the cap is offered to the decoder: probing that would
/// start over the cap ends at once, and every retry stays within it.
pub proof fn lemma_probing_is_capped(src: Seq<u8>, size: int)
    ensures
        size > MAX_BUFFER ==> probe(src, size) == Err::<Seq<u8>, EnvelopeError>(
            EnvelopeError::TooLarge,
        ),
        after_attempt(size, lz4_block(src, size)) matches AttemptView::Retry(larger) ==> size
            < larger <= MAX_BUFFER,
{
}

} // verus!
