//! The records that the server keeps in its database.

use vstd::prelude::*;

verus! {

/// Building records from database rows. The rows reach the library as the
/// plain column values that the database driver read out of them.
pub trait FromDbRows: Sized {
    /// The column values of one row.
    type Row;

    fn from_db_rows(rows: Vec<Self::Row>) -> Vec<Self>;
}

pub struct Message {
    pub id: u64,
    pub user_id: u64,
    pub channel_id: u64,
    pub text: String,
    pub date_created: u64,
}

impl Message {
    pub fn new(id: u64, user_id: u64, channel_id: u64, text: &str, date_created: u64) -> (res: Self)
        ensures
            res.id == id,
            res.user_id == user_id,
            res.channel_id == channel_id,
            res.text@ == text@,
            res.date_created == date_created,
    {
        Self { id, user_id, channel_id, text: text.to_owned(), date_created }
    }
}

/// The columns of a message row: id, user id, channel id, text and creation
/// date, as the database stores them.
pub type MessageRow = (i64, i64, i64, String, i64);

impl FromDbRows for Message {
    type Row = MessageRow;

    /// One message per row, in row order; each signed column is read as the
    /// unsigned number with the same bits.
    fn from_db_rows(message_rows: Vec<MessageRow>) -> (res: Vec<Self>)
        ensures
            res.len() == message_rows.len(),
            forall|i: int|
                0 <= i < res.len() ==> {
                    let r = #[trigger] message_rows@[i];
                    &&& res@[i].id == r.0 as u64
                    &&& res@[i].user_id == r.1 as u64
                    &&& res@[i].channel_id == r.2 as u64
                    &&& res@[i].text@ == r.3@
                    &&& res@[i].date_created == r.4 as u64
                },
    {
        let mut message_vec: Vec<Message> = Vec::new();
        let mut i: usize = 0;
        while i < message_rows.len()
            invariant
                i <= message_rows@.len(),
                message_vec.len() == i,
                forall|j: int|
                    0 <= j < i ==> {
                        let r = #[trigger] message_rows@[j];
                        &&& message_vec@[j].id == r.0 as u64
                        &&& message_vec@[j].user_id == r.1 as u64
                        &&& message_vec@[j].channel_id == r.2 as u64
                        &&& message_vec@[j].text@ == r.3@
                        &&& message_vec@[j].date_created == r.4 as u64
                    },
            decreases message_rows@.len() - i,
        {
            let row = &message_rows[i];
            message_vec.push(
                Self::new(row.0 as u64, row.1 as u64, row.2 as u64, row.3.as_str(), row.4 as u64),
            );
            i += 1;
        }
        message_vec
    }
}

pub struct Channel {
    id: u64,
    pub name: String,
}

impl Channel {
    /// The number that identifies the channel.
    pub closed spec fn identifier(self) -> u64 {
        self.id
    }

    /// The channel's name.
    pub closed spec fn name_text(self) -> Seq<char> {
        self.name@
    }

    pub fn new(id: u64, name: &str) -> (res: Self)
        ensures
            res.identifier() == id,
            res.name_text() == name@,
    {
        Self { id, name: name.to_owned() }
    }
}

/// The columns of a channel row: id and name.
pub type ChannelRow = (i64, String);

impl FromDbRows for Channel {
    type Row = ChannelRow;

    /// One channel per row, in row order.
    fn from_db_rows(channel_rows: Vec<ChannelRow>) -> (res: Vec<Self>)
        ensures
            res.len() == channel_rows.len(),
            forall|i: int|
                0 <= i < res.len() ==> {
                    let r = #[trigger] channel_rows@[i];
                    &&& res@[i].identifier() == r.0 as u64
                    &&& res@[i].name_text() == r.1@
                },
    {
        let mut channel_vec: Vec<Channel> = Vec::new();
        let mut i: usize = 0;
        while i < channel_rows.len()
            invariant
                i <= channel_rows@.len(),
                channel_vec.len() == i,
                forall|j: int|
                    0 <= j < i ==> {
                        let r = #[trigger] channel_rows@[j];
                        &&& channel_vec@[j].identifier() == r.0 as u64
                        &&& channel_vec@[j].name_text() == r.1@
                    },
            decreases channel_rows@.len() - i,
        {
            let row = &channel_rows[i];
            channel_vec.push(Self::new(row.0 as u64, row.1.as_str()));
            i += 1;
        }
        channel_vec
    }
}

pub struct User {
    id: u64,
    pub username: String,
    pub pub_key: u64,
}

impl User {
    /// The number that identifies the user.
    pub closed spec fn identifier(self) -> u64 {
        self.id
    }

    /// The user's name.
    pub closed spec fn name_text(self) -> Seq<char> {
        self.username@
    }

    /// The user's public key.
    pub closed spec fn key(self) -> u64 {
        self.pub_key
    }

    pub fn new(id: u64, username: &str, pub_key: u64) -> (res: Self)
        ensures
            res.identifier() == id,
            res.name_text() == username@,
            res.key() == pub_key,
    {
        Self { id, username: username.to_owned(), pub_key }
    }
}

/// The columns of a user row: id, name and public key.
pub type UserRow = (i64, String, i64);

impl FromDbRows for User {
    type Row = UserRow;

    /// One user per row, in row order.
    fn from_db_rows(user_rows: Vec<UserRow>) -> (res: Vec<Self>)
        ensures
            res.len() == user_rows.len(),
            forall|i: int|
                0 <= i < res.len() ==> {
                    let r = #[trigger] user_rows@[i];
                    &&& res@[i].identifier() == r.0 as u64
                    &&& res@[i].name_text() == r.1@
                    &&& res@[i].key() == r.2 as u64
                },
    {
        let mut user_vec: Vec<User> = Vec::new();
        let mut i: usize = 0;
        while i < user_rows.len()
            invariant
                i <= user_rows@.len(),
                user_vec.len() == i,
                forall|j: int|
                    0 <= j < i ==> {
                        let r = #[trigger] user_rows@[j];
                        &&& user_vec@[j].identifier() == r.0 as u64
                        &&& user_vec@[j].name_text() == r.1@
                        &&& user_vec@[j].key() == r.2 as u64
                    },
            decreases user_rows@.len() - i,
        {
            let row = &user_rows[i];
            user_vec.push(Self::new(row.0 as u64, row.1.as_str(), row.2 as u64));
            i += 1;
        }
        user_vec
    }
}

/// What a database query hands back.
pub enum QerryReturnType {
    Empty,
    U64(u64),
    Messages(Vec<Message>),
    Channels(Vec<Channel>),
    Users(Vec<User>),
}

/// The answer to an insertion that returns the new row's id: the id from the
/// first row read as unsigned, or nothing when the database returned no row.
pub fn inserted_id(first_row_id: Option<i64>) -> (res: Option<QerryReturnType>)
    ensures
        first_row_id is None ==> res is None,
        first_row_id matches Some(id) ==> res matches Some(QerryReturnType::U64(x)) && x == id as u64,
{
    match first_row_id {
        Some(id) => Some(QerryReturnType::U64(id as u64)),
        None => None,
    }
}

} // verus!
