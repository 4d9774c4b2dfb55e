use nebula::client_networking::{id_request, message_request, new_messages_request};
use nebula::server_networking::{decide_request, ServerAction};
use nebula::user_interface::ChannelId;

fn read_into_buffer(request: &[u8]) -> ([u8; 512], usize) {
    let mut buf = [0u8; 512];
    buf[..request.len()].copy_from_slice(request);
    (buf, request.len())
}

#[test]
fn closed_connection_disconnects() {
    assert!(matches!(decide_request(&[0u8; 512], 0, 5), ServerAction::Disconnect));
}

#[test]
fn id_request_gets_client_id_bytes() {
    let (buf, n) = read_into_buffer(&id_request());
    match decide_request(&buf, n, 0x0102) {
        ServerAction::SendClientId(b) => assert_eq!(b, 0x0102u64.to_be_bytes().to_vec()),
        _ => panic!("expected the client id"),
    }
}

#[test]
fn message_request_is_saved_for_the_client() {
    let (buf, n) = read_into_buffer(&message_request("hello, server"));
    match decide_request(&buf, n, 9) {
        ServerAction::SaveMessage(m) => {
            assert_eq!(m.text, "hello, server");
            assert_eq!((m.id, m.user_id, m.channel_id, m.date_created), (1, 9, 1, 1));
        },
        _ => panic!("expected a message"),
    }
}

#[test]
fn empty_message_request_saves_empty_text() {
    let (buf, n) = read_into_buffer(&[2u8]);
    match decide_request(&buf, n, 1) {
        ServerAction::SaveMessage(m) => assert_eq!(m.text, ""),
        _ => panic!("expected a message"),
    }
}

#[test]
fn new_messages_request_is_ignored() {
    let request = new_messages_request(ChannelId::new(1), 300);
    assert_eq!(request[0], 3);
    assert_eq!(&request[1..9], &1u64.to_be_bytes());
    assert_eq!(&request[9..17], &300u64.to_be_bytes());
    let (buf, n) = read_into_buffer(&request);
    assert!(matches!(decide_request(&buf, n, 1), ServerAction::Ignore));
}
