//! The framing of messages on a connection: each message is sent after its
//! length.

use vstd::prelude::*;
use crate::bytes::{be_encode, be_value, u32_from_be_bytes, u64_to_be_bytes};

verus! {

/// The length header that goes before a message of `len` bytes: the length
/// as eight big-endian bytes.
pub fn frame_header(len: u64) -> (res: Vec<u8>)
    ensures
        res@ == be_encode(len as nat, 8),
{
    u64_to_be_bytes(len)
}

/// The size of the next message from the four big-endian bytes read before it.
pub fn frame_size(header: [u8; 4]) -> (res: usize)
    ensures
        res as nat == be_value(header@),
{
    let n = u32_from_be_bytes(header);
    n as usize
}

/// How many bytes to read next for a message of `size` bytes of which `read`
/// have been read: at most 512.
pub fn chunk_len(size: usize, read: usize) -> (res: usize)
    requires
        read < size,
    ensures
        res == if size - read < 512 {
            size - read
        } else {
            512
        },
{
    if size - read < 512 {
        size - read
    } else {
        512
    }
}

} // verus!
