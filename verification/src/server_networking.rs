//! What the server does with each request that a client sends.
//!
//! A request is the bytes of one read from the client's connection. Its first
//! byte says what the client wants: 1 asks for the client's id, 2 carries a
//! message (the rest of the bytes, as UTF-8 text), 3 asks for new messages.

use vstd::prelude::*;
use crate::bytes::{be_encode, u64_to_be_bytes};
use crate::data_types::Message;
use crate::text::string_from_utf8;

verus! {

/// What the server does after one read from a client.
pub enum ServerAction {
    /// The client closed the connection.
    Disconnect,
    /// Send these bytes back: the client's id.
    SendClientId(Vec<u8>),
    /// Store this message.
    SaveMessage(Message),
    /// Nothing to do for this request.
    Ignore,
}

/// The text of a message request: the bytes after the first one that were read.
pub open spec fn request_text(buf: Seq<u8>, bytes_read: int) -> Seq<u8> {
    buf.subrange(1, bytes_read)
}

/// Decides what to do with `bytes_read` bytes read into `buf` from client
/// `client_id`. A message request is stored with id 1, channel 1 and creation
/// date 1, under the client's id as its user.
pub fn decide_request(buf: &[u8], bytes_read: usize, client_id: u64) -> (res: ServerAction)
    requires
        0 < buf@.len(),
        bytes_read <= buf@.len(),
        bytes_read > 0 && buf@[0] == 2 ==> vstd::utf8::valid_utf8(
            request_text(buf@, bytes_read as int),
        ),
    ensures
        bytes_read == 0 ==> res is Disconnect,
        bytes_read > 0 && buf@[0] == 1 ==> (res matches ServerAction::SendClientId(b) && b@
            == be_encode(client_id as nat, 8)),
        bytes_read > 0 && buf@[0] == 2 ==> (res matches ServerAction::SaveMessage(m) && m.id == 1
            && m.user_id == client_id && m.channel_id == 1 && m.text@ == vstd::utf8::decode_utf8(
            request_text(buf@, bytes_read as int),
        ) && m.date_created == 1),
        bytes_read > 0 && buf@[0] != 1 && buf@[0] != 2 ==> res is Ignore,
{
    if bytes_read == 0 {
        return ServerAction::Disconnect;
    }
    if buf[0] == 1 {
        ServerAction::SendClientId(u64_to_be_bytes(client_id))
    } else if buf[0] == 2 {
        let body = vstd::slice::slice_to_vec(&buf[1..bytes_read]);
        match string_from_utf8(body) {
            Some(text) => ServerAction::SaveMessage(
                Message { id: 1, user_id: client_id, channel_id: 1, text, date_created: 1 },
            ),
            None => ServerAction::Ignore,
        }
    } else {
        ServerAction::Ignore
    }
}

/// A message that a client frames as a message request (type byte 2, then the
/// text as UTF-8), read whole by the server, is stored with exactly the text
/// that was sent.
pub proof fn lemma_message_request_read_back(msg: Seq<char>)
    ensures
        ({
            let b = seq![2u8] + vstd::utf8::encode_utf8(msg);
            &&& 0 < b.len()
            &&& b[0] == 2
            &&& vstd::utf8::valid_utf8(request_text(b, b.len() as int))
            &&& vstd::utf8::decode_utf8(request_text(b, b.len() as int)) == msg
        }),
{
    let b = seq![2u8] + vstd::utf8::encode_utf8(msg);
    assert(request_text(b, b.len() as int) =~= vstd::utf8::encode_utf8(msg));
    vstd::utf8::encode_utf8_valid_utf8(msg);
    vstd::utf8::encode_utf8_decode_utf8(msg);
}

} // verus!
