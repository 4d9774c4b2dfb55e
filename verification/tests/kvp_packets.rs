use nebula::client_networking::{
    client_id_from_bytes, id_request_packet, message_packet, new_messages_request_packet,
    ClientSession, ReplyFailure,
};
use nebula::kvp::{kvp_well_formed_check, read_packet, DecodeError};
use nebula::packet::{packet_parses, to_packet, ValueType};
use nebula::user_interface::{ChannelId, MessageId};
use std::collections::HashMap;

fn kvp_list(entries: Vec<(&str, kvptree::ValueType)>) -> kvptree::ValueType {
    kvptree::ValueType::LIST(entries.into_iter().map(|(k, v)| (k.to_owned(), v)).collect::<HashMap<_, _>>())
}

fn kvp_str(text: &str) -> kvptree::ValueType {
    kvptree::ValueType::STRING(text.to_owned())
}

#[test]
fn well_formed_texts_are_read() {
    for text in ["[ ]", "[ 1 a 1 b ]", "[ 2 é 3 x y ]", "[ 1 k [ 1 n 0  ] ]", "[ 0  1 v ]"] {
        let bytes = text.as_bytes().to_vec();
        assert!(kvp_well_formed_check(&bytes), "{text}");
        let tree = read_packet(bytes.clone()).unwrap();
        let reference = kvptree::from_byte_vec(bytes).unwrap();
        assert!(matches!(tree, ValueType::LIST(_)));
        for path in ["a", "é", "k.n", ""] {
            assert_eq!(tree.get_str(path), reference.get_str(path).ok(), "{text} {path}");
        }
    }
    let tree = read_packet(b"[ 2 \xc3\xa9 3 x y ]".to_vec()).unwrap();
    assert_eq!(tree.get_str("é"), Some("x y".to_owned()));
}

#[test]
fn malformed_texts_are_refused() {
    for text in ["", "[ 1 a", "[ x ]", "[ 5 ab ]", "[ 1 é 1 a ]", "[  ]"] {
        let bytes = text.as_bytes().to_vec();
        assert!(!kvp_well_formed_check(&bytes), "{text:?}");
        assert_eq!(read_packet(bytes).err(), Some(DecodeError::Malformed), "{text:?}");
    }
}

#[test]
fn invalid_utf8_is_an_error() {
    let bytes = vec![0xff, 0x20];
    assert!(kvp_well_formed_check(&bytes));
    assert_eq!(read_packet(bytes).err(), Some(DecodeError::InvalidUtf8));
}

#[test]
fn sent_packets_read_back() {
    let id = kvptree::from_byte_vec(id_request_packet()).unwrap();
    assert_eq!(id.get_str("request_type_id").unwrap(), "1");
    let request = read_packet(new_messages_request_packet(ChannelId::new(7), 42)).unwrap();
    assert_eq!(request.get_str("request_type_id"), Some("3".to_owned()));
    assert_eq!(request.get_str("request.channel_id"), Some("7".to_owned()));
    assert_eq!(request.get_str("request.last_message_id"), Some("42".to_owned()));
    let message = read_packet(message_packet("hello [ there ]".to_owned())).unwrap();
    assert_eq!(message.get_str("request_type_id"), Some("2".to_owned()));
    assert_eq!(message.get_str("request.message"), Some("hello [ there ]".to_owned()));
}

#[test]
fn client_id_is_read_from_bytes() {
    let reply = kvptree::to_byte_vec(kvp_list(vec![("reply", kvp_list(vec![("client_id", kvp_str("12"))]))]));
    assert_eq!(client_id_from_bytes(reply), Ok(Some(12)));
    assert_eq!(client_id_from_bytes(b"[ ]".to_vec()), Ok(None));
    assert_eq!(client_id_from_bytes(b"[ 1".to_vec()), Err(DecodeError::Malformed));
}

#[test]
fn received_reply_is_taken_in() {
    let message = kvp_list(vec![
        ("id", kvp_str("9")),
        ("user_id", kvp_str("4")),
        ("channel_id", kvp_str("1")),
        ("text", kvp_str("hey you")),
        ("timestamp", kvp_str("1687249040004")),
    ]);
    let reply = kvp_list(vec![("reply_type_id", kvp_str("3")), ("reply", kvp_list(vec![("m", message)]))]);
    let mut session = ClientSession::new();
    session.curr_message_id = 2;
    let outcome = session.read_reply_bytes(kvptree::to_byte_vec(reply)).unwrap();
    assert_eq!(outcome.failure, None);
    assert_eq!(outcome.events.len(), 2);
    assert_eq!(session.curr_message_id, 9);
    let outcome = session.read_reply_bytes(b"[ ]".to_vec()).unwrap();
    assert_eq!(outcome.failure, Some(ReplyFailure::MissingReplyType));
    assert!(session.read_reply_bytes(b"[ 2 a".to_vec()).is_err());
    assert_eq!(session.curr_message_id, 9);
}

#[test]
fn packet_check_matches_reader() {
    assert!(packet_parses(&b"[ a b c [ ] ]".to_vec()));
    assert!(!packet_parses(&b"[ a".to_vec()));
    assert!(packet_parses(&vec![0xff]));
}

#[test]
fn clone_keeps_entries_in_order() {
    let v = ValueType::LIST(vec![
        ("b".to_owned(), ValueType::STRING("1".to_owned())),
        ("a".to_owned(), ValueType::LIST(vec![("c".to_owned(), ValueType::STRING("2".to_owned()))])),
        ("d".to_owned(), ValueType::STRING("3".to_owned())),
    ]);
    assert_eq!(to_packet(v.clone()), to_packet(v));
}

#[test]
fn repeated_key_is_read_once() {
    let v = nebula::packet::from_packet(b"[ a b c d a e ]".to_vec()).unwrap();
    match &v {
        ValueType::LIST(entries) => assert_eq!(entries.len(), 2),
        _ => panic!("expected a list"),
    }
    assert_eq!(v.get_str("a"), Some("e".to_owned()));
    assert_eq!(to_packet(v), b"[ a e c d ]".to_vec());
}

#[test]
fn current_channel_is_read() {
    let manager = nebula::user_interface::MessageManager::with_starter_channels();
    assert_eq!(manager.get_current_channel(), Some(ChannelId::new(0)));
}

#[test]
fn message_ids_equal_by_number() {
    assert_eq!(MessageId::new(5), MessageId::new(5));
    assert_ne!(MessageId::new(5), MessageId::new(6));
}
