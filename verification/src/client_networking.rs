//! The client's side of the conversation with the server: the requests it
//! sends, and what it makes of the server's replies.
//!
//! Two generations of the protocol are here. In the byte protocol a request
//! is a type byte (1: my id, 2: a message, 3: new messages) and its data. In
//! the tree protocol a request is a packet tree with a `request_type_id` word
//! and a `request` list, and a reply carries `reply_type_id` and `reply`.

use vstd::prelude::*;
use vstd::string::*;
use crate::bytes::{be_encode, u64_to_be_bytes};
use crate::packet::{
    find_last, fold_entries, is_last_key, keys_distinct, lemma_fold_lookup, lemma_keys_distinct_list,
    tree_get, Tree, ValueType,
};
use crate::text::{decimal, lemma_decimal_digits, parse_u64, parse_u64_spec, u64_to_decimal};
use crate::user_interface::{ChannelId, FromNetworkingEvent, Message, MessageId};
use crate::kvp::{encode_kvp, kvp_entries_safe, kvp_parse, kvp_value_safe, kvp_well_formed, read_packet, DecodeError};

verus! {

/// The request for the client's id in the byte protocol.
pub fn id_request() -> (res: Vec<u8>)
    ensures
        res@ == seq![1u8],
{
    let mut buf = Vec::new();
    buf.push(1u8);
    buf
}

/// The request for the messages of a channel after a given message id in the
/// byte protocol: type byte 3, then both numbers as eight big-endian bytes each.
pub fn new_messages_request(channel_id: ChannelId, last_message_id: u64) -> (res: Vec<u8>)
    ensures
        res@ == seq![3u8] + be_encode(channel_id.id as nat, 8) + be_encode(
            last_message_id as nat,
            8,
        ),
{
    let mut buf = Vec::new();
    buf.push(3u8);
    let mut c = u64_to_be_bytes(channel_id.id);
    buf.append(&mut c);
    let mut l = u64_to_be_bytes(last_message_id);
    buf.append(&mut l);
    buf
}

/// A message in the byte protocol: type byte 2, then the text as UTF-8.
pub fn message_request(msg: &str) -> (res: Vec<u8>)
    ensures
        res@ == seq![2u8] + vstd::utf8::encode_utf8(msg@),
{
    let mut buf = Vec::new();
    buf.push(2u8);
    let mut body = msg.as_bytes_vec();
    buf.append(&mut body);
    buf
}

/// What the client model of an event records: a stored message (its id,
/// text and sender), a message id added to a channel, or anything else.
pub enum EventModel {
    Stored(u64, Seq<char>, Seq<char>),
    Received(u64, u64),
    Other,
}

pub open spec fn event_model(e: FromNetworkingEvent) -> EventModel {
    match e {
        FromNetworkingEvent::Message(id, m) => EventModel::Stored(id.number(), m.contents@, m.sender@),
        FromNetworkingEvent::MessageReceived(c, m) => EventModel::Received(c.id, m.number()),
        _ => EventModel::Other,
    }
}

pub open spec fn events_model(v: Seq<FromNetworkingEvent>) -> Seq<EventModel> {
    v.map_values(|e: FromNetworkingEvent| event_model(e))
}

/// The client's own state: the id of the next message it makes, and the id
/// that the server gave it.
pub struct ClientSession {
    pub curr_message_id: u64,
    pub id: u64,
}

impl ClientSession {
    pub fn new() -> (res: Self)
        ensures
            res.curr_message_id == 0,
            res.id == 0,
    {
        ClientSession { curr_message_id: 0, id: 0 }
    }

    /// The user sent `msg` to a channel: the client shows it at once as a
    /// message from itself, under the next message id, and moves that id on.
    pub fn message_sent(&mut self, msg: String, channel_id: ChannelId) -> (res: Vec<FromNetworkingEvent>)
        requires
            old(self).curr_message_id < u64::MAX,
        ensures
            events_model(res@) == seq![
                EventModel::Stored(old(self).curr_message_id, msg@, decimal(old(self).id as nat)),
                EventModel::Received(channel_id.id, old(self).curr_message_id),
            ],
            final(self).curr_message_id == old(self).curr_message_id + 1,
            final(self).id == old(self).id,
    {
        let sender = u64_to_decimal(self.id);
        let mut events = Vec::new();
        events.push(
            FromNetworkingEvent::Message(
                MessageId::new(self.curr_message_id),
                Message { contents: msg, sender },
            ),
        );
        events.push(
            FromNetworkingEvent::MessageReceived(channel_id, MessageId::new(self.curr_message_id)),
        );
        self.curr_message_id = self.curr_message_id + 1;
        assert(events_model(events@) =~= seq![
            EventModel::Stored(old(self).curr_message_id, msg@, decimal(old(self).id as nat)),
            EventModel::Received(channel_id.id, old(self).curr_message_id),
        ]);
        events
    }
}

/// A list of two entries stands for the map of its two keys, the second
/// entry winning when the keys are equal.
proof fn lemma_two_entries(a: (String, ValueType), b: (String, ValueType))
    ensures
        fold_entries(Map::empty(), seq![a, b]) == Map::<Seq<char>, Tree>::empty().insert(
            a.0@,
            a.1@,
        ).insert(b.0@, b.1@),
{
    let s = seq![a, b];
    let m1 = Map::<Seq<char>, Tree>::empty().insert(a.0@, a.1.model());
    assert(s[0] == a);
    assert(s.subrange(1, 2) =~= seq![b]);
    assert(fold_entries(Map::empty(), s) == fold_entries(m1, seq![b]));
    assert(seq![b][0] == b);
    assert(seq![b].subrange(1, 1) =~= Seq::<(String, ValueType)>::empty());
    assert(fold_entries(m1, seq![b]) == fold_entries(m1.insert(b.0@, b.1.model()), Seq::empty()));
}

/// A list of one entry is safe for kvptree when the entry is.
proof fn lemma_kvp_one(a: (String, ValueType))
    ensures
        kvp_entries_safe(seq![a]) == (a.0@ != seq![']'] && kvp_value_safe(a.1)),
{
    assert(seq![a][0] == a);
    assert(seq![a].subrange(1, 1) =~= Seq::<(String, ValueType)>::empty());
    assert(kvp_entries_safe(Seq::<(String, ValueType)>::empty()));
}

/// A list of two entries is safe for kvptree when both entries are.
proof fn lemma_kvp_two(a: (String, ValueType), b: (String, ValueType))
    ensures
        kvp_entries_safe(seq![a, b]) == (a.0@ != seq![']'] && kvp_value_safe(a.1) && b.0@ != seq![
            ']',
        ] && kvp_value_safe(b.1)),
{
    let s = seq![a, b];
    assert(s[0] == a);
    assert(s.subrange(1, 2) =~= seq![b]);
    assert(seq![b][0] == b);
    assert(seq![b].subrange(1, 1) =~= Seq::<(String, ValueType)>::empty());
    lemma_kvp_one(b);
}

/// A number in decimal is no bracket.
proof fn lemma_decimal_not_bracket(n: nat)
    ensures
        decimal(n) != seq!['['],
{
    lemma_decimal_digits(n);
    assert(crate::text::is_digit(decimal(n)[0]));
}

/// A list of one entry stands for the map of its key.
proof fn lemma_one_entry(a: (String, ValueType))
    ensures
        fold_entries(Map::empty(), seq![a]) == Map::<Seq<char>, Tree>::empty().insert(a.0@, a.1@),
{
    let s = seq![a];
    assert(s[0] == a);
    assert(s.subrange(1, 1) =~= Seq::<(String, ValueType)>::empty());
    assert(fold_entries(Map::empty(), s) == fold_entries(
        Map::<Seq<char>, Tree>::empty().insert(a.0@, a.1.model()),
        Seq::empty(),
    ));
}

/// A word value.
fn word(text: &str) -> (res: ValueType)
    ensures
        res@ == Tree::Str(text@),
        kvp_value_safe(res) == (text@ != seq!['[']),
{
    ValueType::STRING(text.to_owned())
}

/// The request for the client's id in the tree protocol.
pub fn request_id_tree() -> (res: ValueType)
    ensures
        res@ == Tree::List(map!["request_type_id"@ => Tree::Str("1"@)]),
        res is LIST,
        kvp_value_safe(res),
        keys_distinct(res),
{
    let entry = ("request_type_id".to_owned(), word("1"));
    let mut entries = Vec::new();
    entries.push(entry);
    let res = ValueType::LIST(entries);
    proof {
        reveal_strlit("request_type_id");
        reveal_strlit("1");
        assert(entry.0@.len() == 15);
        assert(entry.0@ != seq![']']);
        assert("1"@[0] == '1');
        assert("1"@ != seq!['[']);
        lemma_kvp_one(entry);
        assert(entries@ =~= seq![entry]);
        assert(keys_distinct(entry.1));
        lemma_keys_distinct_list(entries);
        lemma_one_entry(entry);
        assert(Map::<Seq<char>, Tree>::empty().insert(entry.0@, entry.1@) =~= map![
            "request_type_id"@ => Tree::Str("1"@)
        ]);
    }
    res
}

/// A request list in the tree protocol: its type and its content.
fn request_tree(kind: &str, request: ValueType) -> (res: ValueType)
    ensures
        res@ == Tree::List(
            Map::<Seq<char>, Tree>::empty().insert("request_type_id"@, Tree::Str(kind@)).insert(
                "request"@,
                request@,
            ),
        ),
        res is LIST,
        kvp_value_safe(res) == (kind@ != seq!['['] && kvp_value_safe(request)),
        keys_distinct(request) ==> keys_distinct(res),
{
    let a = ("request_type_id".to_owned(), word(kind));
    let b = ("request".to_owned(), request);
    proof {
        lemma_two_entries(a, b);
        reveal_strlit("request_type_id");
        reveal_strlit("request");
        assert(a.0@.len() == 15);
        assert(b.0@.len() == 7);
        lemma_kvp_two(a, b);
    }
    let mut entries = Vec::new();
    entries.push(a);
    entries.push(b);
    assert(entries@ =~= seq![a, b]);
    proof {
        assert(keys_distinct(a.1));
        if keys_distinct(request) {
            assert(entries@[0].0@ != entries@[1].0@);
            lemma_keys_distinct_list(entries);
        }
    }
    ValueType::LIST(entries)
}

/// The request for the messages of a channel after a given message id in the
/// tree protocol (type `3`), both numbers written in decimal.
pub fn request_new_messages_tree(channel_id: ChannelId, last_message_id: u64) -> (res: ValueType)
    ensures
        res@ == Tree::List(
            Map::<Seq<char>, Tree>::empty().insert("request_type_id"@, Tree::Str("3"@)).insert(
                "request"@,
                Tree::List(
                    Map::<Seq<char>, Tree>::empty().insert(
                        "channel_id"@,
                        Tree::Str(decimal(channel_id.id as nat)),
                    ).insert("last_message_id"@, Tree::Str(decimal(last_message_id as nat))),
                ),
            ),
        ),
        res is LIST,
        kvp_value_safe(res),
        keys_distinct(res),
{
    let a = ("channel_id".to_owned(), ValueType::STRING(u64_to_decimal(channel_id.id)));
    let b = ("last_message_id".to_owned(), ValueType::STRING(u64_to_decimal(last_message_id)));
    proof {
        lemma_two_entries(a, b);
        reveal_strlit("channel_id");
        reveal_strlit("last_message_id");
        reveal_strlit("3");
        assert(a.0@.len() == 10);
        assert(b.0@.len() == 15);
        lemma_decimal_not_bracket(channel_id.id as nat);
        lemma_decimal_not_bracket(last_message_id as nat);
        lemma_kvp_two(a, b);
        assert("3"@[0] == '3');
        assert("3"@ != seq!['[']);
    }
    let mut entries = Vec::new();
    entries.push(a);
    entries.push(b);
    assert(entries@ =~= seq![a, b]);
    proof {
        assert(keys_distinct(a.1));
        assert(keys_distinct(b.1));
        assert(entries@[0].0@ != entries@[1].0@);
        lemma_keys_distinct_list(entries);
    }
    request_tree("3", ValueType::LIST(entries))
}

/// A message in the tree protocol (type `2`).
pub fn send_message_tree(msg: String) -> (res: ValueType)
    ensures
        res@ == Tree::List(
            Map::<Seq<char>, Tree>::empty().insert("request_type_id"@, Tree::Str("2"@)).insert(
                "request"@,
                Tree::List(map!["message"@ => Tree::Str(msg@)]),
            ),
        ),
        res is LIST,
        kvp_value_safe(res) == (msg@ != seq!['[']),
        keys_distinct(res),
{
    let ghost text = msg@;
    let entry = ("message".to_owned(), ValueType::STRING(msg));
    let mut entries = Vec::new();
    entries.push(entry);
    let inner = ValueType::LIST(entries);
    proof {
        assert(entries@ =~= seq![entry]);
        lemma_one_entry(entry);
        assert(Map::<Seq<char>, Tree>::empty().insert(entry.0@, entry.1@) =~= map![
            "message"@ => Tree::Str(text)
        ]);
        reveal_strlit("message");
        reveal_strlit("2");
        assert(entry.0@.len() == 7);
        lemma_kvp_one(entry);
        assert(keys_distinct(entry.1));
        lemma_keys_distinct_list(entries);
        assert("2"@[0] == '2');
        assert("2"@ != seq!['[']);
    }
    request_tree("2", inner)
}

/// The id request in the tree protocol as the bytes that are sent: kvptree
/// reads them back as the request tree.
pub fn id_request_packet() -> (res: Vec<u8>)
    ensures
        vstd::utf8::valid_utf8(res@),
        kvp_well_formed(res@),
        kvp_parse(res@) == Some(Tree::List(map!["request_type_id"@ => Tree::Str("1"@)])),
{
    encode_kvp(request_id_tree())
}

/// The new-messages request in the tree protocol as the bytes that are sent:
/// kvptree reads them back as the request tree.
pub fn new_messages_request_packet(channel_id: ChannelId, last_message_id: u64) -> (res: Vec<u8>)
    ensures
        vstd::utf8::valid_utf8(res@),
        kvp_well_formed(res@),
        kvp_parse(res@) == Some(
            Tree::List(
                Map::<Seq<char>, Tree>::empty().insert("request_type_id"@, Tree::Str("3"@)).insert(
                    "request"@,
                    Tree::List(
                        Map::<Seq<char>, Tree>::empty().insert(
                            "channel_id"@,
                            Tree::Str(decimal(channel_id.id as nat)),
                        ).insert("last_message_id"@, Tree::Str(decimal(last_message_id as nat))),
                    ),
                ),
            ),
        ),
{
    encode_kvp(request_new_messages_tree(channel_id, last_message_id))
}

/// A message in the tree protocol as the bytes that are sent: kvptree reads
/// them back as the request tree, unless the text is `[`, which kvptree
/// reads as the start of a list.
pub fn message_packet(msg: String) -> (res: Vec<u8>)
    ensures
        vstd::utf8::valid_utf8(res@),
        msg@ != seq!['['] ==> kvp_well_formed(res@) && kvp_parse(res@) == Some(
            Tree::List(
                Map::<Seq<char>, Tree>::empty().insert("request_type_id"@, Tree::Str("2"@)).insert(
                    "request"@,
                    Tree::List(map!["message"@ => Tree::Str(msg@)]),
                ),
            ),
        ),
{
    encode_kvp(send_message_tree(msg))
}

/// The word at `path` in a tree, if the path leads to a word.
pub open spec fn field(t: Tree, path: Seq<char>) -> Option<Seq<char>> {
    match tree_get(t, path) {
        Some(Tree::Str(s)) => Some(s),
        _ => None,
    }
}

/// The client id in a reply to the id request: the word at `reply.client_id`
/// read as a decimal number.
pub fn client_id_from_reply(reply: &ValueType) -> (res: Option<u64>)
    ensures
        res == (match field(reply@, "reply.client_id"@) {
            Some(s) => parse_u64_spec(s),
            None => None,
        }),
{
    match reply.get_str("reply.client_id") {
        Some(s) => parse_u64(s.as_str()),
        None => None,
    }
}

/// The client id in a received reply to the id request: the packet is read
/// as kvptree reads it, then the id is taken as `client_id_from_reply` takes
/// it.
pub fn client_id_from_bytes(message: Vec<u8>) -> (res: Result<Option<u64>, DecodeError>)
    requires
        message@.len() <= usize::MAX / 2,
    ensures
        res is Err <==> (!kvp_well_formed(message@) || kvp_parse(message@) is None),
        !kvp_well_formed(message@) ==> res == Err::<Option<u64>, DecodeError>(DecodeError::Malformed),
        kvp_well_formed(message@) && !vstd::utf8::valid_utf8(message@) ==> res == Err::<
            Option<u64>,
            DecodeError,
        >(DecodeError::InvalidUtf8),
        res matches Ok(id) ==> kvp_parse(message@) matches Some(t) && id == (match field(
            t,
            "reply.client_id"@,
        ) {
            Some(s) => parse_u64_spec(s),
            None => None,
        }),
{
    match read_packet(message) {
        Ok(tree) => Ok(client_id_from_reply(&tree)),
        Err(e) => Err(e),
    }
}

/// Why a reply could not be taken in.
#[derive(Debug, Clone, Copy, PartialEq, Eq)]
pub enum ReplyFailure {
    /// The reply has no `reply_type_id` word.
    MissingReplyType,
    /// A new-messages reply has no `reply` list.
    MissingReply,
    /// A message lacks one of `id`, `user_id`, `channel_id`, `text`, `timestamp`.
    MissingField,
    /// A message's `id` or `channel_id` is not a decimal number.
    BadNumber,
}

/// The events made from a reply, and where taking it in failed, if it did.
/// Events made before a failure stand.
pub struct ReplyOutcome {
    pub events: Vec<FromNetworkingEvent>,
    pub failure: Option<ReplyFailure>,
}

/// Taking in one message of a new-messages reply, with `curr` the client's
/// current message id: the events it makes, the new current id, and the
/// failure if any. All five fields must be words; the message is stored once
/// its id reads as a number, and added to its channel once the channel id
/// does too.
pub open spec fn node_step(t: Tree, curr: u64) -> (Seq<EventModel>, u64, Option<ReplyFailure>) {
    if field(t, "id"@) is None || field(t, "user_id"@) is None || field(t, "channel_id"@) is None
        || field(t, "text"@) is None || field(t, "timestamp"@) is None {
        (seq![], curr, Some(ReplyFailure::MissingField))
    } else {
        match parse_u64_spec(field(t, "id"@)->0) {
            None => (seq![], curr, Some(ReplyFailure::BadNumber)),
            Some(id) => {
                let stored = EventModel::Stored(id, field(t, "text"@)->0, field(t, "user_id"@)->0);
                match parse_u64_spec(field(t, "channel_id"@)->0) {
                    None => (seq![stored], curr, Some(ReplyFailure::BadNumber)),
                    Some(ch) => (
                        seq![stored, EventModel::Received(ch, id)],
                        if curr < id {
                            id
                        } else {
                            curr
                        },
                        None,
                    ),
                }
            },
        }
    }
}

/// Taking in the messages `nodes` one after another, stopping at the first
/// failure.
pub open spec fn reply_run(nodes: Seq<Tree>, curr: u64) -> (Seq<EventModel>, u64, Option<ReplyFailure>)
    decreases nodes.len(),
{
    if nodes.len() == 0 {
        (seq![], curr, None)
    } else {
        let (ev, c, f) = reply_run(nodes.drop_last(), curr);
        if f is Some {
            (ev, c, f)
        } else {
            let (ev2, c2, f2) = node_step(nodes.last(), c);
            (ev + ev2, c2, f2)
        }
    }
}

/// The values of `m` for the keys in `order`, in that order.
pub open spec fn nodes_in_order(order: Seq<Seq<char>>, m: Map<Seq<char>, Tree>) -> Seq<Tree> {
    order.map_values(|k: Seq<char>| m[k])
}

/// The keys of `m` in the order `order`, each once.
pub open spec fn is_key_order(order: Seq<Seq<char>>, m: Map<Seq<char>, Tree>) -> bool {
    &&& order.no_duplicates()
    &&& order.to_set() == m.dom()
}

/// The `reply` list of a reply, if it has one.
pub open spec fn reply_list(reply: Tree) -> Option<Map<Seq<char>, Tree>> {
    match tree_get(reply, "reply"@) {
        Some(Tree::List(m)) => Some(m),
        _ => None,
    }
}

/// What taking in `reply` does, with `curr` the client's current message id:
/// the events, the new current id and the failure if any. A reply of a type
/// other than `3` does nothing; a new-messages reply (type `3`) takes in the
/// messages of its `reply` list in some order of their keys.
pub open spec fn reply_effect(
    reply: Tree,
    curr: u64,
    events: Seq<EventModel>,
    new_curr: u64,
    failure: Option<ReplyFailure>,
) -> bool {
    match field(reply, "reply_type_id"@) {
        None => events.len() == 0 && new_curr == curr && failure == Some(
            ReplyFailure::MissingReplyType,
        ),
        Some(kind) => if kind != "3"@ {
            events.len() == 0 && new_curr == curr && failure is None
        } else if reply_list(reply) is Some {
            exists|order: Seq<Seq<char>>|
                #[trigger] is_key_order(order, reply_list(reply)->0) && reply_run(
                    nodes_in_order(order, reply_list(reply)->0),
                    curr,
                ) == (events, new_curr, failure)
        } else {
            events.len() == 0 && new_curr == curr && failure == Some(ReplyFailure::MissingReply)
        },
    }
}

impl ClientSession {
    /// Takes in a reply from the server.
    pub fn read_reply(&mut self, reply: &ValueType) -> (res: ReplyOutcome)
        ensures
            reply_effect(reply@, old(self).curr_message_id, events_model(res.events@), final(self).curr_message_id, res.failure),
            final(self).id == old(self).id,
    {
        let mut events: Vec<FromNetworkingEvent> = Vec::new();
        let kind = match reply.get_str("reply_type_id") {
            Some(k) => k,
            None => {
                assert(events_model(events@) =~= Seq::<EventModel>::empty());
                return ReplyOutcome { events, failure: Some(ReplyFailure::MissingReplyType) };
            },
        };
        let three = "3".to_owned();
        if !(kind == three) {
            assert(events_model(events@) =~= Seq::<EventModel>::empty());
            return ReplyOutcome { events, failure: None };
        }
        let node = match reply.get_node("reply") {
            Some(n) => n,
            None => {
                assert(events_model(events@) =~= Seq::<EventModel>::empty());
                return ReplyOutcome { events, failure: Some(ReplyFailure::MissingReply) };
            },
        };
        let entries = match &node {
            ValueType::LIST(e) => e,
            ValueType::STRING(_) => {
                return ReplyOutcome { events, failure: Some(ReplyFailure::MissingReply) };
            },
        };
        let ghost m = fold_entries(Map::empty(), entries@);
        let ghost start = self.curr_message_id;
        let ghost mut order: Seq<Seq<char>> = seq![];
        let mut failure: Option<ReplyFailure> = None;
        let mut j: usize = 0;
        assert(nodes_in_order(order, m) =~= Seq::<Tree>::empty());
        assert(events_model(events@) =~= Seq::<EventModel>::empty());
        while j < entries.len()
            invariant
                j <= entries@.len(),
                m == fold_entries(Map::empty(), entries@),
                tree_get(reply@, "reply"@) == Some(Tree::List(m)),
                self.id == old(self).id,
                order_inv(entries@, j as int, order),
                reply_run(nodes_in_order(order, m), start) == (
                    events_model(events@),
                    self.curr_message_id,
                    failure,
                ),
            decreases entries@.len() - j,
        {
            let key = &entries[j].0;
            let found = find_last(entries, key);
            let is_last = match found {
                Some(jl) => jl == j,
                None => false,
            };
            proof {
                lemma_fold_lookup(entries@, key@);
                if found is None {
                    assert(entries@[j as int].0@ == key@);
                }
                lemma_last_index(entries@, key@);
                assert(entries@[j as int].0@ == key@);
            }
            if is_last {
                let ghost before = nodes_in_order(order, m);
                let ghost new_order = order.push(key@);
                assert(nodes_in_order(new_order, m) =~= before.push(m[key@]));
                assert(m[key@] == entries@[j as int].1@);
                assert(before.push(m[key@]).drop_last() =~= before);
                assert(before.push(m[key@]).last() == entries@[j as int].1@);
                if failure.is_none() {
                    let value = &entries[j].1;
                    failure = self.take_message(value, &mut events);
                }
                proof {
                    lemma_order_take(entries@, j as int, order);
                    order = new_order;
                }
            } else {
                proof {
                    lemma_order_skip(entries@, j as int, order);
                }
            }
            j += 1;
        }
        proof {
            lemma_order_complete(entries@, order);
            assert(node@ == Tree::List(m));
            assert(kind@ == "3"@);
            assert(reply_list(reply@) == Some(m));
            assert(is_key_order(order, reply_list(reply@)->0));
        }
        ReplyOutcome { events, failure }
    }

    /// Takes in a received reply: the packet is read as kvptree reads it,
    /// then taken in as `read_reply` takes it in. A packet that cannot be
    /// read changes nothing.
    pub fn read_reply_bytes(&mut self, message: Vec<u8>) -> (res: Result<ReplyOutcome, DecodeError>)
        requires
            message@.len() <= usize::MAX / 2,
        ensures
            res is Err <==> (!kvp_well_formed(message@) || kvp_parse(message@) is None),
            !kvp_well_formed(message@) ==> res == Err::<ReplyOutcome, DecodeError>(
                DecodeError::Malformed,
            ),
            kvp_well_formed(message@) && !vstd::utf8::valid_utf8(message@) ==> res == Err::<
                ReplyOutcome,
                DecodeError,
            >(DecodeError::InvalidUtf8),
            res is Err ==> *final(self) == *old(self),
            res matches Ok(o) ==> kvp_parse(message@) matches Some(t) && reply_effect(
                t,
                old(self).curr_message_id,
                events_model(o.events@),
                final(self).curr_message_id,
                o.failure,
            ),
            final(self).id == old(self).id,
    {
        match read_packet(message) {
            Ok(tree) => Ok(self.read_reply(&tree)),
            Err(e) => Err(e),
        }
    }

    /// Takes in one message of a new-messages reply, appending its events.
    fn take_message(&mut self, value: &ValueType, events: &mut Vec<FromNetworkingEvent>) -> (res: Option<ReplyFailure>)
        ensures
            ({
                let (ev, c, f) = node_step(value@, old(self).curr_message_id);
                &&& events_model(final(events)@) == events_model(old(events)@) + ev
                &&& final(self).curr_message_id == c
                &&& res == f
            }),
            final(self).id == old(self).id,
    {
        let ghost ev0 = events_model(events@);
        let id = value.get_str("id");
        let user = value.get_str("user_id");
        let channel = value.get_str("channel_id");
        let text = value.get_str("text");
        let timestamp = value.get_str("timestamp");
        match (id, user, channel, text, timestamp) {
            (Some(id), Some(user), Some(channel), Some(text), Some(_)) => {
                match parse_u64(id.as_str()) {
                    None => {
                        assert(ev0 + Seq::<EventModel>::empty() =~= ev0);
                        Some(ReplyFailure::BadNumber)
                    },
                    Some(idn) => {
                        let ghost (tv, uv) = (text@, user@);
                        events.push(
                            FromNetworkingEvent::Message(
                                MessageId::new(idn),
                                Message { contents: text, sender: user },
                            ),
                        );
                        let ghost ev1 = events_model(events@);
                        assert(ev1 =~= ev0 + seq![EventModel::Stored(idn, tv, uv)]);
                        match parse_u64(channel.as_str()) {
                            None => Some(ReplyFailure::BadNumber),
                            Some(ch) => {
                                events.push(
                                    FromNetworkingEvent::MessageReceived(
                                        ChannelId::new(ch),
                                        MessageId::new(idn),
                                    ),
                                );
                                assert(events_model(events@) =~= ev0 + seq![
                                    EventModel::Stored(idn, tv, uv),
                                    EventModel::Received(ch, idn),
                                ]);
                                if self.curr_message_id < idn {
                                    self.curr_message_id = idn;
                                }
                                None
                            },
                        }
                    },
                }
            },
            _ => {
                assert(ev0 + Seq::<EventModel>::empty() =~= ev0);
                Some(ReplyFailure::MissingField)
            },
        }
    }
}

/// The message id that an event carries, if any.
pub open spec fn event_id(e: EventModel) -> Option<u64> {
    match e {
        EventModel::Stored(id, _, _) => Some(id),
        EventModel::Received(_, id) => Some(id),
        EventModel::Other => None,
    }
}

/// Every message id that the events carry is at most `curr`.
pub open spec fn ids_within(events: Seq<EventModel>, curr: u64) -> bool {
    forall|i: int|
        0 <= i < events.len() ==> (#[trigger] event_id(events[i]) matches Some(id) ==> id <= curr)
}

/// `new_curr` is `curr` or a message id that one of the events carries.
pub open spec fn id_from_events(events: Seq<EventModel>, curr: u64, new_curr: u64) -> bool {
    new_curr == curr || exists|i: int| 0 <= i < events.len() && #[trigger] event_id(events[i]) == Some(new_curr)
}

proof fn lemma_reply_run_keeps_latest_id(nodes: Seq<Tree>, curr: u64)
    ensures
        reply_run(nodes, curr).1 >= curr,
        reply_run(nodes, curr).2 is None ==> ids_within(reply_run(nodes, curr).0, reply_run(nodes, curr).1),
        id_from_events(reply_run(nodes, curr).0, curr, reply_run(nodes, curr).1),
    decreases nodes.len(),
{
    if nodes.len() > 0 {
        lemma_reply_run_keeps_latest_id(nodes.drop_last(), curr);
        let (ev, c, f) = reply_run(nodes.drop_last(), curr);
        if f is None {
            let (ev2, c2, f2) = node_step(nodes.last(), c);
            let all = ev + ev2;
            if c2 == c {
                if c != curr {
                    let i = choose|i: int| 0 <= i < ev.len() && #[trigger] event_id(ev[i]) == Some(c);
                    assert(all[i] == ev[i]);
                }
            } else {
                assert(all[ev.len() as int] == ev2[0]);
                assert(event_id(all[ev.len() as int]) == Some(c2));
            }
            if f2 is None {
                let all = ev + ev2;
                assert forall|i: int| 0 <= i < all.len() implies (#[trigger] event_id(all[i]) matches Some(id) ==> id <= c2) by {
                    if i < ev.len() {
                        assert(all[i] == ev[i]);
                    } else {
                        assert(all[i] == ev2[i - ev.len()]);
                    }
                }
            }
        }
    }
}

/// Taking in a reply never moves the client's current message id back; the
/// new current id is the old one or an id that the reply's events carry; and
/// when the whole reply was taken in, it is at least every message id that
/// the events carry: the largest of the old id and the ids read.
pub proof fn lemma_reply_keeps_latest_id(
    reply: Tree,
    curr: u64,
    events: Seq<EventModel>,
    new_curr: u64,
    failure: Option<ReplyFailure>,
)
    requires
        reply_effect(reply, curr, events, new_curr, failure),
    ensures
        new_curr >= curr,
        failure is None ==> ids_within(events, new_curr),
        id_from_events(events, curr, new_curr),
{
    if field(reply, "reply_type_id"@) == Some("3"@) {
        if reply_list(reply) is Some {
            let m = reply_list(reply)->0;
            let order = choose|order: Seq<Seq<char>>|
                #[trigger] is_key_order(order, m) && reply_run(nodes_in_order(order, m), curr) == (
                    events,
                    new_curr,
                    failure,
                );
            lemma_reply_run_keeps_latest_id(nodes_in_order(order, m), curr);
        }
    }
}

/// A message among `nodes` with all five fields, whose id and channel id read
/// as numbers, is stored under its id with its text and sender and added to
/// the channel its channel id names, when the run takes all of them in.
proof fn lemma_run_takes_message(
    nodes: Seq<Tree>,
    curr: u64,
    i: int,
    id: u64,
    ch: u64,
)
    requires
        reply_run(nodes, curr).2 is None,
        0 <= i < nodes.len(),
        field(nodes[i], "id"@) is Some,
        parse_u64_spec(field(nodes[i], "id"@)->0) == Some(id),
        field(nodes[i], "channel_id"@) is Some,
        parse_u64_spec(field(nodes[i], "channel_id"@)->0) == Some(ch),
        field(nodes[i], "user_id"@) is Some,
        field(nodes[i], "text"@) is Some,
        field(nodes[i], "timestamp"@) is Some,
    ensures
        reply_run(nodes, curr).0.contains(
            EventModel::Stored(id, field(nodes[i], "text"@)->0, field(nodes[i], "user_id"@)->0),
        ),
        reply_run(nodes, curr).0.contains(EventModel::Received(ch, id)),
    decreases nodes.len(),
{
    let t = nodes[i];
    let stored = EventModel::Stored(id, field(t, "text"@)->0, field(t, "user_id"@)->0);
    let received = EventModel::Received(ch, id);
    let (ev, c, f) = reply_run(nodes.drop_last(), curr);
    assert(f is None);
    let (ev2, c2, f2) = node_step(nodes.last(), c);
    let all = ev + ev2;
    assert(reply_run(nodes, curr).0 == all);
    if i < nodes.len() - 1 {
        assert(nodes.drop_last()[i] == t);
        lemma_run_takes_message(nodes.drop_last(), curr, i, id, ch);
        let a = choose|a: int| 0 <= a < ev.len() && ev[a] == stored;
        let b = choose|b: int| 0 <= b < ev.len() && ev[b] == received;
        assert(all[a] == stored);
        assert(all[b] == received);
    } else {
        assert(nodes.last() == t);
        assert(ev2 == seq![stored, received]);
        assert(all[ev.len() as int] == stored);
        assert(all[ev.len() + 1 as int] == received);
    }
}

/// Taking in a whole new-messages reply: every message in its `reply` list
/// that has all five fields and whose `id` and `channel_id` read as numbers
/// is stored under that id with its `text` and its `user_id` as sender, and
/// added to the channel that its `channel_id` names.
pub proof fn lemma_reply_message_events(
    reply: Tree,
    curr: u64,
    events: Seq<EventModel>,
    new_curr: u64,
    m: Map<Seq<char>, Tree>,
    k: Seq<char>,
    id: u64,
    ch: u64,
)
    requires
        reply_effect(reply, curr, events, new_curr, None),
        field(reply, "reply_type_id"@) == Some("3"@),
        reply_list(reply) == Some(m),
        m.contains_key(k),
        field(m[k], "id"@) is Some,
        parse_u64_spec(field(m[k], "id"@)->0) == Some(id),
        field(m[k], "channel_id"@) is Some,
        parse_u64_spec(field(m[k], "channel_id"@)->0) == Some(ch),
        field(m[k], "user_id"@) is Some,
        field(m[k], "text"@) is Some,
        field(m[k], "timestamp"@) is Some,
    ensures
        events.contains(EventModel::Stored(id, field(m[k], "text"@)->0, field(m[k], "user_id"@)->0)),
        events.contains(EventModel::Received(ch, id)),
{
    let order = choose|order: Seq<Seq<char>>|
        #[trigger] is_key_order(order, m) && reply_run(nodes_in_order(order, m), curr) == (
            events,
            new_curr,
            None::<ReplyFailure>,
        );
    assert(order.to_set().contains(k));
    let i = choose|i: int| 0 <= i < order.len() && order[i] == k;
    let nodes = nodes_in_order(order, m);
    assert(nodes[i] == m[k]);
    lemma_run_takes_message(nodes, curr, i, id, ch);
}

/// The position of the last entry of `s` with key `k`, or -1.
pub open spec fn last_index(s: Seq<(String, ValueType)>, k: Seq<char>) -> int
    decreases s.len(),
{
    if s.len() == 0 {
        -1
    } else if s.last().0@ == k {
        s.len() - 1
    } else {
        last_index(s.drop_last(), k)
    }
}

proof fn lemma_last_index(s: Seq<(String, ValueType)>, k: Seq<char>)
    ensures
        -1 <= last_index(s, k) < s.len(),
        last_index(s, k) >= 0 <==> crate::packet::has_key(s, k),
        last_index(s, k) >= 0 ==> is_last_key(s, last_index(s, k), k),
        forall|j: int| is_last_key(s, j, k) ==> j == last_index(s, k),
    decreases s.len(),
{
    if s.len() > 0 {
        let n = s.len() - 1;
        let t = s.drop_last();
        lemma_last_index(t, k);
        if s[n].0@ == k {
            assert(s.last() == s[n]);
            assert forall|j: int| is_last_key(s, j, k) implies j == last_index(s, k) by {
                if j < n {
                    assert(s[n].0@ == k);
                }
            }
        } else {
            assert(crate::packet::has_key(s, k) == crate::packet::has_key(t, k)) by {
                if crate::packet::has_key(s, k) {
                    let j = choose|j: int| 0 <= j < s.len() && #[trigger] s[j].0@ == k;
                    assert(t[j].0@ == k);
                }
                if crate::packet::has_key(t, k) {
                    let j = choose|j: int| 0 <= j < t.len() && #[trigger] t[j].0@ == k;
                    assert(s[j].0@ == k);
                }
            }
            if last_index(s, k) >= 0 {
                let l = last_index(s, k);
                assert(s[l] == t[l]);
                assert forall|j2: int| l < j2 < s.len() implies #[trigger] s[j2].0@ != k by {
                    if j2 < n {
                        assert(s[j2] == t[j2]);
                    }
                }
            }
            assert forall|j: int| is_last_key(s, j, k) implies j == last_index(s, k) by {
                assert(j < n);
                assert(s[j] == t[j]);
                assert forall|j2: int| j < j2 < t.len() implies #[trigger] t[j2].0@ != k by {
                    assert(s[j2] == t[j2]);
                }
                assert(is_last_key(t, j, k));
            }
        }
    }
}

/// `order` holds, once each, exactly the keys whose last entry comes before
/// position `j` of `s`.
pub open spec fn order_inv(s: Seq<(String, ValueType)>, j: int, order: Seq<Seq<char>>) -> bool {
    &&& order.no_duplicates()
    &&& forall|i: int| 0 <= i < order.len() ==> 0 <= #[trigger] last_index(s, order[i]) < j
    &&& forall|jj: int|
        0 <= jj < j && last_index(s, #[trigger] s[jj].0@) == jj ==> order.contains(s[jj].0@)
}

proof fn lemma_order_take(s: Seq<(String, ValueType)>, j: int, order: Seq<Seq<char>>)
    requires
        0 <= j < s.len(),
        order_inv(s, j, order),
        last_index(s, s[j].0@) == j,
    ensures
        order_inv(s, j + 1, order.push(s[j].0@)),
{
    let key = s[j].0@;
    let no = order.push(key);
    assert(!order.contains(key)) by {
        if order.contains(key) {
            let i = choose|i: int| 0 <= i < order.len() && order[i] == key;
            assert(last_index(s, order[i]) < j);
        }
    }
    assert(no.no_duplicates()) by {
        assert forall|a: int, b: int| 0 <= a < no.len() && 0 <= b < no.len() && a != b implies no[a] != no[b] by {
            if a < order.len() && b < order.len() {
                assert(no[a] == order[a] && no[b] == order[b]);
            } else if a < order.len() {
                assert(no[a] == order[a]);
                assert(order.contains(no[a]));
            } else {
                assert(no[b] == order[b]);
                assert(order.contains(no[b]));
            }
        }
    }
    assert forall|i: int| 0 <= i < no.len() implies 0 <= #[trigger] last_index(s, no[i]) < j + 1 by {
        if i < order.len() {
            assert(no[i] == order[i]);
            assert(0 <= last_index(s, order[i]) < j);
        }
    }
    assert forall|jj: int|
        0 <= jj < j + 1 && last_index(s, #[trigger] s[jj].0@) == jj implies no.contains(s[jj].0@) by {
        if jj == j {
            assert(no[order.len() as int] == key);
        } else {
            assert(order.contains(s[jj].0@));
            let i = choose|i: int| 0 <= i < order.len() && order[i] == s[jj].0@;
            assert(no[i] == order[i]);
        }
    }
}

proof fn lemma_order_skip(s: Seq<(String, ValueType)>, j: int, order: Seq<Seq<char>>)
    requires
        0 <= j < s.len(),
        order_inv(s, j, order),
        last_index(s, s[j].0@) != j,
    ensures
        order_inv(s, j + 1, order),
{
}

proof fn lemma_order_complete(s: Seq<(String, ValueType)>, order: Seq<Seq<char>>)
    requires
        order_inv(s, s.len() as int, order),
    ensures
        is_key_order(order, fold_entries(Map::empty(), s)),
{
    let m = fold_entries(Map::empty(), s);
    assert forall|k: Seq<char>| #[trigger] order.to_set().contains(k) implies m.dom().contains(k) by {
        let i = choose|i: int| 0 <= i < order.len() && order[i] == k;
        assert(0 <= last_index(s, order[i]));
        lemma_last_index(s, k);
        lemma_fold_lookup(s, k);
    }
    assert forall|k: Seq<char>| m.dom().contains(k) implies #[trigger] order.to_set().contains(k) by {
        lemma_fold_lookup(s, k);
        lemma_last_index(s, k);
        let jj = last_index(s, k);
        assert(s[jj].0@ == k);
        assert(last_index(s, s[jj].0@) == jj);
        assert(order.contains(s[jj].0@));
    }
    assert(order.to_set() =~= m.dom());
}

} // verus!
