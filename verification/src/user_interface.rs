//! The client's record of channels and messages, and the events that the
//! networking side sends to it.

use std::collections::HashMap;
use vstd::prelude::*;

verus! {

#[verifier::external_type_specification]
#[verifier::external_body]
#[verifier::reject_recursive_types(T)]
pub struct ExUnboundedSender<T>(tokio::sync::mpsc::UnboundedSender<T>);

/// `UnboundedSender::clone` gives another handle to the same channel; nothing
/// about the handle is stated, since nothing in the library reads it.
pub assume_specification<T>[ <tokio::sync::mpsc::UnboundedSender<T> as Clone>::clone ](
    sender: &tokio::sync::mpsc::UnboundedSender<T>,
) -> tokio::sync::mpsc::UnboundedSender<T>;

/// Message id is a 64 bit integer.
#[derive(Debug, Clone, Copy, Hash, PartialEq, Eq, Structural)]
pub struct MessageId {
    id: u64,
}

impl MessageId {
    /// The number that identifies the message.
    pub closed spec fn number(self) -> u64 {
        self.id
    }

    pub fn new(id: u64) -> (res: Self)
        ensures
            res.number() == id,
    {
        Self { id }
    }
}

/// Two message ids are the same id exactly when their numbers are equal; so
/// ids made from equal numbers are equal, and from different ones differ.
pub proof fn lemma_message_id_eq(a: MessageId, b: MessageId)
    ensures
        a == b <==> a.number() == b.number(),
{
}

/// This is a message struct that is used to
/// represent a message in the application.
#[derive(Debug, Clone, PartialEq, Eq)]
pub struct Message {
    pub contents: String,
    pub sender: String,
}

/// The text of a message and who sent it.
pub struct MessageModel {
    pub contents: Seq<char>,
    pub sender: Seq<char>,
}

impl Message {
    pub open spec fn model(self) -> MessageModel {
        MessageModel { contents: self.contents@, sender: self.sender@ }
    }
}

/// Channel id is a 64 bit integer.
#[derive(Debug, Clone, Copy, Hash, PartialEq, Eq, Structural)]
pub struct ChannelId {
    pub id: u64,
}

impl ChannelId {
    pub fn new(id: u64) -> (res: Self)
        ensures
            res.id == id,
    {
        Self { id }
    }
}

/// This is a channel struct that is used to
/// represent a channel in the application. Channels
/// are usually private messages between two users,
/// group messages, or server messages.
#[derive(Debug, Clone, PartialEq, Eq)]
pub struct Channel {
    pub name: String,
    pub messages: Vec<MessageId>,
}

/// The name of a channel and the ids of its messages, oldest first.
pub struct ChannelModel {
    pub name: Seq<char>,
    pub messages: Seq<MessageId>,
}

impl Channel {
    pub open spec fn model(self) -> ChannelModel {
        ChannelModel { name: self.name@, messages: self.messages@ }
    }
}

/// These events are used to communicate from ui to networking.
#[derive(Debug, Clone)]
pub enum ToNetworkingEvent {
    /// Called when the user sends a message.
    MessageSent(String, ChannelId),
}

/// These events are used to communicate from networking to ui.
#[derive(Debug, Clone)]
pub enum FromNetworkingEvent {
    /// Called when the networking thread has been initialized and is ready to receive messages.
    SenderInitialized(tokio::sync::mpsc::UnboundedSender<ToNetworkingEvent>),
    /// Called when the networking thread has received a message or a message has changed.
    Message(MessageId, Message),
    /// Called when active channel id list is received/updated.
    ChannelList(Vec<ChannelId>),
    /// Called when a channel is received/updated.
    Channel(ChannelId, Channel),
    /// Called when a message has been received. Message is received from the front (newest message).
    MessageReceived(ChannelId, MessageId),
    /// Called when a message has been loaded. Message is loaded from the back (oldest message).
    MessageLoaded(ChannelId, MessageId),
}

/// What the message manager knows: the selected channel, the active channel
/// list, and the channels and messages by their numbers.
pub struct ManagerState {
    pub current_channel: Option<ChannelId>,
    pub active_channels: Seq<ChannelId>,
    pub channels: Map<u64, ChannelModel>,
    pub messages: Map<u64, MessageModel>,
}

/// Whether the manager can take `e`: an event that adds a message id to a
/// channel needs that channel to be known.
pub open spec fn event_allowed(s: ManagerState, e: FromNetworkingEvent) -> bool {
    match e {
        FromNetworkingEvent::MessageReceived(c, _) => s.channels.contains_key(c.id),
        FromNetworkingEvent::MessageLoaded(c, _) => s.channels.contains_key(c.id),
        _ => true,
    }
}

/// The state after the manager takes `e`.
pub open spec fn apply_event(s: ManagerState, e: FromNetworkingEvent) -> ManagerState {
    match e {
        FromNetworkingEvent::SenderInitialized(_) => s,
        FromNetworkingEvent::Message(id, m) => ManagerState {
            messages: s.messages.insert(id.number(), m.model()),
            ..s
        },
        FromNetworkingEvent::ChannelList(ids) => ManagerState { active_channels: ids@, ..s },
        FromNetworkingEvent::Channel(id, c) => ManagerState {
            channels: s.channels.insert(id.id, c.model()),
            ..s
        },
        FromNetworkingEvent::MessageReceived(c, m) => {
            let ch = s.channels[c.id];
            ManagerState {
                channels: s.channels.insert(
                    c.id,
                    ChannelModel { name: ch.name, messages: ch.messages.push(m) },
                ),
                ..s
            }
        },
        FromNetworkingEvent::MessageLoaded(c, m) => {
            let ch = s.channels[c.id];
            ManagerState {
                channels: s.channels.insert(
                    c.id,
                    ChannelModel { name: ch.name, messages: seq![m] + ch.messages },
                ),
                ..s
            }
        },
    }
}

/// `MessageManager` is responsible for keeping track of
/// messages and channels. It is also responsible for
/// receiving events from the networking thread.
#[derive(Debug)]
pub struct MessageManager {
    /// The current channel that the user is in.
    pub current_channel: Option<ChannelId>,
    /// Holds all the channels that the user is in.
    active_channels: Vec<ChannelId>,
    /// has all channels by id.
    channels: HashMap<u64, Channel>,
    /// has all messages by id.
    messages: HashMap<u64, Message>,
}

impl View for MessageManager {
    type V = ManagerState;

    closed spec fn view(&self) -> ManagerState {
        ManagerState {
            current_channel: self.current_channel,
            active_channels: self.active_channels@,
            channels: self.channels@.map_values(|c: Channel| c.model()),
            messages: self.messages@.map_values(|m: Message| m.model()),
        }
    }
}

impl MessageManager {
    pub fn new() -> (res: Self)
        ensures
            res@.current_channel is None,
            res@.active_channels == Seq::<ChannelId>::empty(),
            res@.channels == Map::<u64, ChannelModel>::empty(),
            res@.messages == Map::<u64, MessageModel>::empty(),
    {
        let res = Self {
            current_channel: None,
            active_channels: Vec::new(),
            channels: HashMap::new(),
            messages: HashMap::new(),
        };
        assert(res@.channels =~= Map::<u64, ChannelModel>::empty());
        assert(res@.messages =~= Map::<u64, MessageModel>::empty());
        res
    }
}

impl MessageManager {
    /// The selected channel: the field `current_channel`, as the view has it.
    pub fn get_current_channel(&self) -> (res: Option<ChannelId>)
        ensures
            res == self@.current_channel,
    {
        self.current_channel
    }

    /// The manager the client window starts with: the channels 0, 1 and 2,
    /// named "Channel 0" to "Channel 2" and empty, all active, the first one
    /// selected.
    pub fn with_starter_channels() -> (res: Self)
        ensures
            res@.current_channel == Some(ChannelId { id: 0 }),
            res@.active_channels == seq![ChannelId { id: 0 }, ChannelId { id: 1 }, ChannelId { id: 2 }],
            res@.channels == map![
                0u64 => ChannelModel { name: "Channel 0"@, messages: Seq::empty() },
                1u64 => ChannelModel { name: "Channel 1"@, messages: Seq::empty() },
                2u64 => ChannelModel { name: "Channel 2"@, messages: Seq::empty() },
            ],
            res@.messages == Map::<u64, MessageModel>::empty(),
    {
        let mut manager = MessageManager::new();
        let mut ids: Vec<ChannelId> = Vec::new();
        ids.push(ChannelId::new(0));
        ids.push(ChannelId::new(1));
        ids.push(ChannelId::new(2));
        manager.on_event(FromNetworkingEvent::ChannelList(ids));
        manager.on_event(
            FromNetworkingEvent::Channel(
                ChannelId::new(0),
                Channel { name: "Channel 0".to_owned(), messages: Vec::new() },
            ),
        );
        manager.on_event(
            FromNetworkingEvent::Channel(
                ChannelId::new(1),
                Channel { name: "Channel 1".to_owned(), messages: Vec::new() },
            ),
        );
        manager.on_event(
            FromNetworkingEvent::Channel(
                ChannelId::new(2),
                Channel { name: "Channel 2".to_owned(), messages: Vec::new() },
            ),
        );
        manager.current_channel = Some(ChannelId::new(0));
        assert(manager@.active_channels =~= seq![ChannelId { id: 0 }, ChannelId { id: 1 }, ChannelId { id: 2 }]);
        assert(manager@.channels =~= map![
            0u64 => ChannelModel { name: "Channel 0"@, messages: Seq::empty() },
            1u64 => ChannelModel { name: "Channel 1"@, messages: Seq::empty() },
            2u64 => ChannelModel { name: "Channel 2"@, messages: Seq::empty() },
        ]);
        manager
    }

    /// Handle an event from the networking thread.
    pub fn on_event(&mut self, event: FromNetworkingEvent)
        requires
            event_allowed(old(self)@, event),
        ensures
            final(self)@ == apply_event(old(self)@, event),
    {
        broadcast use vstd::std_specs::hash::group_hash_axioms;

        let ghost before = self@;
        let ghost ev = event;
        match event {
            FromNetworkingEvent::SenderInitialized(_) => {},
            FromNetworkingEvent::Message(id, message) => {
                self.messages.insert(id.id, message);
                assert(self@.messages =~= before.messages.insert(id.number(), message.model()));
            },
            FromNetworkingEvent::ChannelList(channels) => {
                self.active_channels = channels;
            },
            FromNetworkingEvent::Channel(id, channel) => {
                self.channels.insert(id.id, channel);
                assert(self@.channels =~= before.channels.insert(id.id, channel.model()));
            },
            FromNetworkingEvent::MessageReceived(id, message) => {
                match self.channels.remove(&id.id) {
                    Some(mut channel) => {
                        channel.messages.push(message);
                        self.channels.insert(id.id, channel);
                        assert(self@.channels =~= apply_event(before, ev).channels);
                    },
                    None => {},
                }
            },
            FromNetworkingEvent::MessageLoaded(id, message) => {
                match self.channels.remove(&id.id) {
                    Some(mut channel) => {
                        channel.messages.insert(0, message);
                        assert(channel.messages@ =~= seq![message] + before.channels[id.id].messages);
                        self.channels.insert(id.id, channel);
                        assert(self@.channels =~= apply_event(before, ev).channels);
                    },
                    None => {},
                }
            },
        }
    }

    /// Get reference to all active channels.
    pub fn get_active_channels(&self) -> (res: &Vec<ChannelId>)
        ensures
            res@ == self@.active_channels,
    {
        &self.active_channels
    }

    /// Get channel by id.
    pub fn get_channel_by_id(&self, id: ChannelId) -> (res: Option<&Channel>)
        ensures
            res is Some <==> self@.channels.contains_key(id.id),
            res matches Some(c) ==> c.model() == self@.channels[id.id],
    {
        broadcast use vstd::std_specs::hash::group_hash_axioms;

        self.channels.get(&id.id)
    }

    /// Get message by id.
    pub fn get_message_by_id(&self, id: MessageId) -> (res: Option<&Message>)
        ensures
            res is Some <==> self@.messages.contains_key(id.number()),
            res matches Some(m) ==> m.model() == self@.messages[id.number()],
    {
        broadcast use vstd::std_specs::hash::group_hash_axioms;

        self.messages.get(&id.id)
    }
}

/// Channel selector is a sidebar that shows all the channels
/// that the user is in. It also allows the user to switch
/// between channels.
pub struct ChannelSelector;

impl ChannelSelector {
    /// Makes the channel that the user picked the current one.
    pub fn select_channel(channel_id: ChannelId, message_manager: &mut MessageManager)
        ensures
            final(message_manager)@ == (ManagerState {
                current_channel: Some(channel_id),
                ..old(message_manager)@
            }),
    {
        message_manager.current_channel = Some(channel_id);
    }
}

impl ChannelSelector {
    /// The entries of the sidebar, one per active channel in the order of the
    /// active list: the channel's id, to select it, and its name, to show.
    pub fn entries(message_manager: &MessageManager) -> (res: Vec<(ChannelId, String)>)
        requires
            forall|i: int|
                0 <= i < message_manager@.active_channels.len() ==> message_manager@.channels.contains_key(
                    #[trigger] message_manager@.active_channels[i].id,
                ),
        ensures
            res@.len() == message_manager@.active_channels.len(),
            forall|i: int|
                0 <= i < res@.len() ==> #[trigger] res@[i].0 == message_manager@.active_channels[i]
                    && res@[i].1@ == message_manager@.channels[res@[i].0.id].name,
    {
        let ids = message_manager.get_active_channels();
        let mut res: Vec<(ChannelId, String)> = Vec::new();
        let mut i: usize = 0;
        while i < ids.len()
            invariant
                ids@ == message_manager@.active_channels,
                i <= ids@.len(),
                res@.len() == i,
                forall|j: int|
                    0 <= j < ids@.len() ==> message_manager@.channels.contains_key(
                        #[trigger] ids@[j].id,
                    ),
                forall|j: int|
                    0 <= j < i ==> #[trigger] res@[j].0 == ids@[j] && res@[j].1@
                        == message_manager@.channels[res@[j].0.id].name,
            decreases ids@.len() - i,
        {
            let id = ids[i];
            assert(message_manager@.channels.contains_key(ids@[i as int].id));
            match message_manager.get_channel_by_id(id) {
                Some(channel) => {
                    res.push((id, channel.name.clone()));
                },
                None => {},
            }
            i = i + 1;
        }
        res
    }
}

/// Whether the chat view can show the current channel: one is selected, it
/// is known, and every message id in it is known.
pub open spec fn transcript_ready(s: ManagerState) -> bool {
    &&& s.current_channel is Some
    &&& s.channels.contains_key(s.current_channel->0.id)
    &&& forall|i: int|
        0 <= i < s.channels[s.current_channel->0.id].messages.len() ==> s.messages.contains_key(
            #[trigger] s.channels[s.current_channel->0.id].messages[i].number(),
        )
}

/// The messages of the current channel, oldest first, as the chat view shows
/// them: who sent each and what it says.
pub fn chat_transcript(message_manager: &MessageManager) -> (res: Vec<Message>)
    requires
        transcript_ready(message_manager@),
    ensures
        ({
            let ids = message_manager@.channels[message_manager@.current_channel->0.id].messages;
            &&& res@.len() == ids.len()
            &&& forall|i: int|
                0 <= i < ids.len() ==> (#[trigger] res@[i]).model()
                    == message_manager@.messages[ids[i].number()]
        }),
{
    let ghost s = message_manager@;
    let current = match message_manager.current_channel {
        Some(c) => c,
        None => ChannelId::new(0),
    };
    let mut res: Vec<Message> = Vec::new();
    match message_manager.get_channel_by_id(current) {
        Some(channel) => {
            let ghost ids = s.channels[current.id].messages;
            assert(channel.messages@ == ids);
            let mut i: usize = 0;
            while i < channel.messages.len()
                invariant
                    channel.messages@ == ids,
                    s == message_manager@,
                    i <= ids.len(),
                    res@.len() == i,
                    forall|j: int| 0 <= j < ids.len() ==> s.messages.contains_key(#[trigger] ids[j].number()),
                    forall|j: int| 0 <= j < i ==> (#[trigger] res@[j]).model() == s.messages[ids[j].number()],
                decreases ids.len() - i,
            {
                let id = channel.messages[i];
                assert(s.messages.contains_key(ids[i as int].number()));
                match message_manager.get_message_by_id(id) {
                    Some(m) => {
                        res.push(Message { contents: m.contents.clone(), sender: m.sender.clone() });
                    },
                    None => {},
                }
                i = i + 1;
            }
        },
        None => {},
    }
    res
}

/// A message event stores the message under its id; every other message, the
/// channels, the active channel list and the current channel stay as they were.
pub proof fn lemma_message_event_stores(s: ManagerState, id: MessageId, m: Message, other: u64)
    requires
        other != id.number(),
    ensures
        ({
            let t = apply_event(s, FromNetworkingEvent::Message(id, m));
            &&& t.messages.contains_key(id.number())
            &&& t.messages[id.number()] == m.model()
            &&& t.messages.contains_key(other) == s.messages.contains_key(other)
            &&& t.messages[other] == s.messages[other]
            &&& t.channels == s.channels
            &&& t.active_channels == s.active_channels
            &&& t.current_channel == s.current_channel
        }),
{
}

/// A channel event stores the channel under its id, replacing any channel
/// stored there; other channels and all messages stay as they were.
pub proof fn lemma_channel_event_stores(s: ManagerState, id: ChannelId, c: Channel, other: u64)
    requires
        other != id.id,
    ensures
        ({
            let t = apply_event(s, FromNetworkingEvent::Channel(id, c));
            &&& t.channels.contains_key(id.id)
            &&& t.channels[id.id] == c.model()
            &&& t.channels.contains_key(other) == s.channels.contains_key(other)
            &&& t.channels[other] == s.channels[other]
            &&& t.messages == s.messages
            &&& t.active_channels == s.active_channels
        }),
{
}

/// A channel list event replaces the active channel list and nothing else.
pub proof fn lemma_channel_list_replaces(s: ManagerState, ids: Vec<ChannelId>)
    ensures
        ({
            let t = apply_event(s, FromNetworkingEvent::ChannelList(ids));
            &&& t.active_channels == ids@
            &&& t.channels == s.channels
            &&& t.messages == s.messages
            &&& t.current_channel == s.current_channel
        }),
{
}

/// The networking side's sender handle changes nothing the manager holds.
pub proof fn lemma_sender_initialized_ignored(
    s: ManagerState,
    sender: tokio::sync::mpsc::UnboundedSender<ToNetworkingEvent>,
)
    ensures
        apply_event(s, FromNetworkingEvent::SenderInitialized(sender)) == s,
{
}

/// The state after the manager takes the events `es` in order.
pub open spec fn apply_events(s: ManagerState, es: Seq<FromNetworkingEvent>) -> ManagerState
    decreases es.len(),
{
    if es.len() == 0 {
        s
    } else {
        apply_event(apply_events(s, es.drop_last()), es.last())
    }
}

/// The ids of the last channel list among the events, if there is one.
pub open spec fn last_channel_list(es: Seq<FromNetworkingEvent>) -> Option<Seq<ChannelId>>
    decreases es.len(),
{
    if es.len() == 0 {
        None
    } else {
        match es.last() {
            FromNetworkingEvent::ChannelList(ids) => Some(ids@),
            _ => last_channel_list(es.drop_last()),
        }
    }
}

/// After any sequence of events, the active channels are those of the last
/// channel list among them, or as they were when there was none.
pub proof fn lemma_active_channels_after(s: ManagerState, es: Seq<FromNetworkingEvent>)
    ensures
        apply_events(s, es).active_channels == (match last_channel_list(es) {
            Some(ids) => ids,
            None => s.active_channels,
        }),
    decreases es.len(),
{
    if es.len() > 0 {
        lemma_active_channels_after(s, es.drop_last());
    }
}

/// A received message id goes to the end of its channel's list and a loaded
/// one to the front; the channel keeps its name and earlier ids in order,
/// and no other channel or message changes.
pub proof fn lemma_received_and_loaded_order(s: ManagerState, c: ChannelId, m: MessageId, other: u64)
    requires
        s.channels.contains_key(c.id),
        other != c.id,
    ensures
        ({
            let r = apply_event(s, FromNetworkingEvent::MessageReceived(c, m));
            let l = apply_event(s, FromNetworkingEvent::MessageLoaded(c, m));
            let old_ids = s.channels[c.id].messages;
            &&& r.channels[c.id].messages == old_ids.push(m)
            &&& l.channels[c.id].messages == seq![m] + old_ids
            &&& r.channels[c.id].name == s.channels[c.id].name
            &&& l.channels[c.id].name == s.channels[c.id].name
            &&& r.channels.dom() == s.channels.dom()
            &&& l.channels.dom() == s.channels.dom()
            &&& r.channels[other] == s.channels[other]
            &&& l.channels[other] == s.channels[other]
            &&& r.messages == s.messages
            &&& l.messages == s.messages
        }),
{
    let r = apply_event(s, FromNetworkingEvent::MessageReceived(c, m));
    let l = apply_event(s, FromNetworkingEvent::MessageLoaded(c, m));
    assert(r.channels.dom() =~= s.channels.dom());
    assert(l.channels.dom() =~= s.channels.dom());
}

/// The demo chat window's echo partner, given a message the user sent: the
/// message itself, shown as from "You", then the partner's answer "Ok" from
/// "Other guy".
pub fn echo_replies(sent: String) -> (res: (Message, Message))
    ensures
        res.0.contents@ == sent@,
        res.0.sender@ == "You"@,
        res.1.contents@ == "Ok"@,
        res.1.sender@ == "Other guy"@,
{
    (
        Message { contents: sent, sender: "You".to_owned() },
        Message { contents: "Ok".to_owned(), sender: "Other guy".to_owned() },
    )
}

/// The user submitted the text typed so far: it goes to the networking side
/// as a message for the current channel, and the message box is emptied.
pub fn message_submitted(current_message: &mut String, message_manager: &MessageManager) -> (res:
    ToNetworkingEvent)
    requires
        message_manager@.current_channel is Some,
    ensures
        res matches ToNetworkingEvent::MessageSent(text, channel) && text@ == old(current_message)@
            && channel == message_manager@.current_channel->0,
        final(current_message)@ == Seq::<char>::empty(),
{
    let channel = match message_manager.current_channel {
        Some(c) => c,
        None => ChannelId::new(0),
    };
    let text = current_message.clone();
    *current_message = String::new();
    ToNetworkingEvent::MessageSent(text, channel)
}

} // verus!
