use nebula::network_manager::{chunk_len, frame_header, frame_size};
use nebula::user_interface::{
    chat_transcript, echo_replies, Channel, ChannelId, ChannelSelector, FromNetworkingEvent, Message, MessageId,
    MessageManager,
};

#[test]
fn starter_channels_are_set_up() {
    let manager = MessageManager::with_starter_channels();
    assert_eq!(manager.current_channel, Some(ChannelId::new(0)));
    assert_eq!(
        manager.get_active_channels(),
        &vec![ChannelId::new(0), ChannelId::new(1), ChannelId::new(2)]
    );
    for n in 0..3u64 {
        assert_eq!(
            manager.get_channel_by_id(ChannelId::new(n)),
            Some(&Channel { name: format!("Channel {n}"), messages: vec![] })
        );
    }
    assert_eq!(manager.get_channel_by_id(ChannelId::new(3)), None);
}

#[test]
fn sidebar_lists_active_channels_by_name() {
    let manager = MessageManager::with_starter_channels();
    let entries = ChannelSelector::entries(&manager);
    assert_eq!(
        entries,
        vec![
            (ChannelId::new(0), "Channel 0".to_owned()),
            (ChannelId::new(1), "Channel 1".to_owned()),
            (ChannelId::new(2), "Channel 2".to_owned()),
        ]
    );
}

#[test]
fn sidebar_follows_a_new_channel_list() {
    let mut manager = MessageManager::with_starter_channels();
    manager.on_event(FromNetworkingEvent::ChannelList(vec![ChannelId::new(2), ChannelId::new(0)]));
    let entries = ChannelSelector::entries(&manager);
    assert_eq!(
        entries,
        vec![(ChannelId::new(2), "Channel 2".to_owned()), (ChannelId::new(0), "Channel 0".to_owned())]
    );
}

#[test]
fn transcript_shows_current_channel_in_order() {
    let mut manager = MessageManager::with_starter_channels();
    let first = Message { contents: "first".to_owned(), sender: "Bob".to_owned() };
    let second = Message { contents: "second".to_owned(), sender: "Alice".to_owned() };
    let other = Message { contents: "elsewhere".to_owned(), sender: "Eve".to_owned() };
    manager.on_event(FromNetworkingEvent::Message(MessageId::new(10), first.clone()));
    manager.on_event(FromNetworkingEvent::Message(MessageId::new(11), second.clone()));
    manager.on_event(FromNetworkingEvent::Message(MessageId::new(12), other.clone()));
    manager.on_event(FromNetworkingEvent::MessageReceived(ChannelId::new(0), MessageId::new(11)));
    manager.on_event(FromNetworkingEvent::MessageLoaded(ChannelId::new(0), MessageId::new(10)));
    manager.on_event(FromNetworkingEvent::MessageReceived(ChannelId::new(1), MessageId::new(12)));
    assert_eq!(chat_transcript(&manager), vec![first, second]);
    ChannelSelector::select_channel(ChannelId::new(1), &mut manager);
    assert_eq!(chat_transcript(&manager), vec![other]);
    ChannelSelector::select_channel(ChannelId::new(2), &mut manager);
    assert!(chat_transcript(&manager).is_empty());
}

#[test]
fn frames_carry_their_length() {
    assert_eq!(frame_header(5), vec![0, 0, 0, 0, 0, 0, 0, 5]);
    assert_eq!(frame_header(0x0102), 0x0102u64.to_be_bytes().to_vec());
    assert_eq!(frame_size([0, 0, 2, 0]), 512);
    assert_eq!(frame_size([1, 0, 0, 0]), 1 << 24);
}

#[test]
fn reads_come_in_chunks_of_at_most_512() {
    assert_eq!(chunk_len(1000, 0), 512);
    assert_eq!(chunk_len(1000, 512), 488);
    assert_eq!(chunk_len(512, 0), 512);
    assert_eq!(chunk_len(3, 2), 1);
}

#[test]
fn echo_partner_answers_ok() {
    let (own, answer) = echo_replies("hello".to_owned());
    assert_eq!(own, Message { contents: "hello".to_owned(), sender: "You".to_owned() });
    assert_eq!(answer, Message { contents: "Ok".to_owned(), sender: "Other guy".to_owned() });
}
