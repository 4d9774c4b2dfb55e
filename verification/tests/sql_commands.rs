use nebula::postgres_commands::Command;
use nebula::server_commands::{get_new_messages, save_message};

#[test]
fn select_joins_columns() {
    let c = Command::select(vec!["id".to_owned(), "text".to_owned()], "messages");
    assert_eq!(c.command, "SELECT id, text FROM messages");
}

#[test]
fn insert_joins_rows_and_values() {
    let c = Command::insert(
        "a, b",
        vec![vec!["1".to_owned(), "2".to_owned()], vec!["3".to_owned(), "4".to_owned()]],
        "t",
    );
    assert_eq!(c.command, "INSERT INTO t (a, b) VALUES (1, 2), (3, 4)");
}

#[test]
fn where_returning_and_execute_append() {
    let mut c = Command::select(vec!["x".to_owned()], "t")._where(vec!["x = 1", "y > 2"]).returning("x");
    assert_eq!(c.command, "SELECT x FROM t WHERE x = 1 AND y > 2 RETURNING x");
    c.execute();
    assert_eq!(c.command, "SELECT x FROM t WHERE x = 1 AND y > 2 RETURNING x;");
}

#[test]
fn empty_lists_join_to_nothing() {
    let c = Command::select(Vec::new(), "t")._where(Vec::new());
    assert_eq!(c.command, "SELECT  FROM t WHERE ");
}

#[test]
fn save_message_command_text() {
    let c = save_message(1, 22, "hi there".to_owned(), 345263546);
    assert_eq!(
        c.command,
        "INSERT INTO messages (user_id, channel_id, text, date_created) VALUES (1, 22, 'hi there', 345263546) RETURNING id"
    );
}

#[test]
fn get_new_messages_command_text() {
    let c = get_new_messages(1, 4);
    assert_eq!(
        c.command,
        "SELECT id, user_id, text, date_created FROM messages WHERE messages.channel_id = 1 AND messages.id > 4"
    );
}
