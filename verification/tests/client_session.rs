use nebula::client_networking::{
    client_id_from_reply, request_id_tree, request_new_messages_tree, send_message_tree,
    ClientSession, ReplyFailure,
};
use nebula::packet::{to_packet, ValueType};
use nebula::user_interface::{ChannelId, FromNetworkingEvent, Message, MessageId};

fn s(text: &str) -> ValueType {
    ValueType::STRING(text.to_owned())
}

fn list(entries: Vec<(&str, ValueType)>) -> ValueType {
    ValueType::LIST(entries.into_iter().map(|(k, v)| (k.to_owned(), v)).collect())
}

fn message_node(id: &str, user: &str, channel: &str, text: &str) -> ValueType {
    list(vec![
        ("id", s(id)),
        ("user_id", s(user)),
        ("channel_id", s(channel)),
        ("text", s(text)),
        ("timestamp", s("1687249040004")),
    ])
}

fn new_messages_reply(messages: Vec<(&str, ValueType)>) -> ValueType {
    list(vec![("reply_type_id", s("3")), ("reply", list(messages))])
}

fn stored(events: &[FromNetworkingEvent], i: usize) -> (MessageId, String, String) {
    match &events[i] {
        FromNetworkingEvent::Message(id, m) => (*id, m.contents.clone(), m.sender.clone()),
        _ => panic!("expected a stored message at {i}"),
    }
}

fn received(events: &[FromNetworkingEvent], i: usize) -> (u64, MessageId) {
    match &events[i] {
        FromNetworkingEvent::MessageReceived(c, m) => (c.id, *m),
        _ => panic!("expected a received message at {i}"),
    }
}

#[test]
fn id_request_tree_is_one_word() {
    assert_eq!(to_packet(request_id_tree()), b"[ request_type_id 1 ]".to_vec());
}

#[test]
fn new_messages_request_tree_holds_both_numbers() {
    let tree = request_new_messages_tree(ChannelId::new(7), 42);
    assert_eq!(tree.get_str("request_type_id"), Some("3".to_owned()));
    assert_eq!(tree.get_str("request.channel_id"), Some("7".to_owned()));
    assert_eq!(tree.get_str("request.last_message_id"), Some("42".to_owned()));
    assert_eq!(tree.get_str("request"), None);
    assert!(tree.get_node("request").is_some());
}

#[test]
fn send_message_tree_holds_the_text() {
    let tree = send_message_tree("hello there".to_owned());
    assert_eq!(tree.get_str("request_type_id"), Some("2".to_owned()));
    assert_eq!(tree.get_str("request.message"), Some("hello there".to_owned()));
    assert_eq!(tree.get_node("request.message"), None);
}

#[test]
fn client_id_is_read_from_the_reply() {
    let reply = list(vec![("reply", list(vec![("client_id", s("12"))]))]);
    assert_eq!(client_id_from_reply(&reply), Some(12));
    let bad = list(vec![("reply", list(vec![("client_id", s("twelve"))]))]);
    assert_eq!(client_id_from_reply(&bad), None);
    assert_eq!(client_id_from_reply(&list(vec![])), None);
}

#[test]
fn sent_message_is_shown_at_once() {
    let mut session = ClientSession::new();
    session.id = 5;
    session.curr_message_id = 3;
    let events = session.message_sent("hi".to_owned(), ChannelId::new(1));
    assert_eq!(events.len(), 2);
    assert_eq!(stored(&events, 0), (MessageId::new(3), "hi".to_owned(), "5".to_owned()));
    assert_eq!(received(&events, 1), (1, MessageId::new(3)));
    assert_eq!(session.curr_message_id, 4);
    assert_eq!(session.id, 5);
}

#[test]
fn new_messages_reply_makes_events_and_moves_the_id() {
    let mut session = ClientSession::new();
    session.curr_message_id = 2;
    let reply = new_messages_reply(vec![("m", message_node("9", "4", "1", "hey"))]);
    let outcome = session.read_reply(&reply);
    assert_eq!(outcome.failure, None);
    assert_eq!(outcome.events.len(), 2);
    assert_eq!(stored(&outcome.events, 0), (MessageId::new(9), "hey".to_owned(), "4".to_owned()));
    assert_eq!(received(&outcome.events, 1), (1, MessageId::new(9)));
    assert_eq!(session.curr_message_id, 9);
}

#[test]
fn older_messages_do_not_move_the_id_back() {
    let mut session = ClientSession::new();
    session.curr_message_id = 20;
    let reply = new_messages_reply(vec![
        ("a", message_node("3", "1", "1", "x")),
        ("b", message_node("4", "1", "2", "y")),
    ]);
    let outcome = session.read_reply(&reply);
    assert_eq!(outcome.failure, None);
    assert_eq!(outcome.events.len(), 4);
    assert_eq!(session.curr_message_id, 20);
}

#[test]
fn other_reply_types_do_nothing() {
    let mut session = ClientSession::new();
    let outcome = session.read_reply(&list(vec![("reply_type_id", s("1"))]));
    assert_eq!(outcome.failure, None);
    assert!(outcome.events.is_empty());
    assert_eq!(session.curr_message_id, 0);
}

#[test]
fn reply_failures_are_reported() {
    let mut session = ClientSession::new();
    assert_eq!(session.read_reply(&list(vec![])).failure, Some(ReplyFailure::MissingReplyType));
    assert_eq!(
        session.read_reply(&list(vec![("reply_type_id", s("3"))])).failure,
        Some(ReplyFailure::MissingReply)
    );
    let missing = new_messages_reply(vec![("m", list(vec![("id", s("1"))]))]);
    let outcome = session.read_reply(&missing);
    assert_eq!(outcome.failure, Some(ReplyFailure::MissingField));
    assert!(outcome.events.is_empty());
    let bad_channel = new_messages_reply(vec![("m", message_node("6", "2", "general", "t"))]);
    let outcome = session.read_reply(&bad_channel);
    assert_eq!(outcome.failure, Some(ReplyFailure::BadNumber));
    assert_eq!(outcome.events.len(), 1);
    assert_eq!(stored(&outcome.events, 0), (MessageId::new(6), "t".to_owned(), "2".to_owned()));
    assert_eq!(session.curr_message_id, 0);
}

#[test]
fn message_event_carries_contents() {
    let mut session = ClientSession::new();
    let outcome = session.read_reply(&new_messages_reply(vec![("m", message_node("1", "8", "2", "body"))]));
    match &outcome.events[0] {
        FromNetworkingEvent::Message(_, m) => assert_eq!(
            m,
            &Message { contents: "body".to_owned(), sender: "8".to_owned() }
        ),
        _ => panic!("expected a message"),
    }
}
