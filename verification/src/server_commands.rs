//! The SQL commands that the server issues for its requests.

use vstd::prelude::*;
use vstd::string::*;
use crate::postgres_commands::Command;
use crate::text::{decimal, push_char, u64_to_decimal};

verus! {

/// The command that stores a message and returns its new id; the text is put
/// between single quotes as it is.
pub fn save_message(user_id: u32, channel_id: u32, text: String, date_created: u64) -> (res:
    Command)
    ensures
        res.command@ == "INSERT INTO messages (user_id, channel_id, text, date_created) VALUES ("@
            + decimal(user_id as nat) + ", "@ + decimal(channel_id as nat) + ", '"@ + text@
            + "', "@ + decimal(date_created as nat) + ") RETURNING id"@,
{
    let mut quoted = String::new();
    push_char(&mut quoted, '\'');
    quoted.append(text.as_str());
    push_char(&mut quoted, '\'');
    let u = u64_to_decimal(user_id as u64);
    let c = u64_to_decimal(channel_id as u64);
    let d = u64_to_decimal(date_created);
    let ghost (uv, cv, qv, dv) = (u@, c@, quoted@, d@);
    let res = Command::insert(
        "user_id, channel_id, text, date_created",
        vec![vec![u, c, quoted, d]],
        "messages",
    ).returning("id");
    proof {
        reveal_with_fuel(crate::text::join_with, 5);
        reveal_strlit("INSERT INTO messages (user_id, channel_id, text, date_created) VALUES (");
        reveal_strlit("INSERT INTO ");
        reveal_strlit("messages");
        reveal_strlit(" (");
        reveal_strlit("user_id, channel_id, text, date_created");
        reveal_strlit(") VALUES (");
        reveal_strlit(", ");
        reveal_strlit(", '");
        reveal_strlit("', ");
        reveal_strlit(")");
        reveal_strlit(") RETURNING id");
        reveal_strlit(" RETURNING ");
        reveal_strlit("id");
        assert(qv =~= seq!['\''] + text@ + seq!['\'']);
        assert(res.command@ =~= "INSERT INTO messages (user_id, channel_id, text, date_created) VALUES ("@
            + uv + ", "@ + cv + ", '"@ + text@ + "', "@ + dv + ") RETURNING id"@);
    }
    res
}

/// The command that selects the messages of a channel that come after a
/// given message id.
pub fn get_new_messages(channel_id: u32, last_message_id: u32) -> (res: Command)
    ensures
        res.command@ == "SELECT id, user_id, text, date_created FROM messages WHERE messages.channel_id = "@
            + decimal(channel_id as nat) + " AND messages.id > "@ + decimal(last_message_id as nat),
{
    let mut first = String::new();
    first.append("messages.channel_id = ");
    let c = u64_to_decimal(channel_id as u64);
    first.append(c.as_str());
    let mut second = String::new();
    second.append("messages.id > ");
    let l = u64_to_decimal(last_message_id as u64);
    second.append(l.as_str());
    let res = Command::select(
        vec!["id".to_owned(), "user_id".to_owned(), "text".to_owned(), "date_created".to_owned()],
        "messages",
    )._where(vec![first.as_str(), second.as_str()]);
    proof {
        reveal_with_fuel(crate::text::join_with, 5);
        reveal_strlit("SELECT id, user_id, text, date_created FROM messages WHERE messages.channel_id = ");
        reveal_strlit(" AND messages.id > ");
        reveal_strlit("SELECT ");
        reveal_strlit("id");
        reveal_strlit("user_id");
        reveal_strlit("text");
        reveal_strlit("date_created");
        reveal_strlit(", ");
        reveal_strlit(" FROM ");
        reveal_strlit("messages");
        reveal_strlit(" WHERE ");
        reveal_strlit(" AND ");
        reveal_strlit("messages.channel_id = ");
        reveal_strlit("messages.id > ");
        assert(res.command@ =~= "SELECT id, user_id, text, date_created FROM messages WHERE messages.channel_id = "@
            + c@ + " AND messages.id > "@ + l@);
    }
    res
}

} // verus!
