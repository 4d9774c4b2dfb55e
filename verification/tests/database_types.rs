use nebula::data_types::{inserted_id, Channel, FromDbRows, Message, QerryReturnType, User};

#[test]
fn message_new_keeps_fields() {
    let m = Message::new(1, 2, 3, "foo", 9741985714305981);
    assert_eq!((m.id, m.user_id, m.channel_id, m.text.as_str(), m.date_created), (1, 2, 3, "foo", 9741985714305981));
}

#[test]
fn channel_and_user_new_keep_fields() {
    let c = Channel::new(1, "channel_1");
    assert_eq!(c.name, "channel_1");
    let u = User::new(1, "user1", 2);
    assert_eq!(u.username, "user1");
    assert_eq!(u.pub_key, 2);
}

#[test]
fn message_rows_become_messages_in_order() {
    let rows = vec![
        (3, 1, 1, "Random text 3".to_owned(), 1687249040003),
        (4, 2, 1, "Random text 4".to_owned(), 1687249040004),
        (-1, 1, 1, "negative id".to_owned(), 5),
    ];
    let messages = Message::from_db_rows(rows);
    assert_eq!(messages.len(), 3);
    assert_eq!(messages[0].id, 3);
    assert_eq!(messages[1].user_id, 2);
    assert_eq!(messages[1].text, "Random text 4");
    assert_eq!(messages[1].date_created, 1687249040004);
    assert_eq!(messages[2].id, u64::MAX);
}

#[test]
fn channel_and_user_rows_become_records() {
    let channels = Channel::from_db_rows(vec![(1, "channel_1".to_owned()), (2, "channel_2".to_owned())]);
    assert_eq!(channels.len(), 2);
    assert_eq!(channels[0].name, "channel_1");
    assert_eq!(channels[1].name, "channel_2");
    let users = User::from_db_rows(vec![(4, "foo".to_owned(), 1)]);
    assert_eq!(users.len(), 1);
    assert_eq!(users[0].username, "foo");
    assert_eq!(users[0].pub_key, 1);
}

#[test]
fn inserted_id_reads_first_row() {
    assert!(matches!(inserted_id(Some(7)), Some(QerryReturnType::U64(7))));
    assert!(matches!(inserted_id(Some(-2)), Some(QerryReturnType::U64(x)) if x == u64::MAX - 1));
    assert!(inserted_id(None).is_none());
}
