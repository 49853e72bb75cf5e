use chat::address::Address;
use chat::conversation::{
    agent_is_member_of_channel, entry_is_link_between, get_links_and_load_type, messages_since,
    notify_conversation, notify_conversation_join, notify_conversation_message, signal_ui,
    unique_by_address, ChainEntry, Delivery, DirectMessage, GetLinksLoadResult,
    JoinChannelSignalPayload, LinkActionKind, LinkData, NotificationSignalPayload,
    CHANNEL_MESSAGE_SIGNAL_TYPE, JOIN_CHANNEL_SIGNAL_TYPE, PUBLIC_STREAM_LINK_TYPE_TO,
};
use chat::message::{Message, MessageSpec};

fn found(entry: &str, address: &str) -> GetLinksLoadResult<String> {
    GetLinksLoadResult { entry: String::from(entry), address: Address::new(address) }
}

fn pairs(results: &Vec<GetLinksLoadResult<String>>) -> Vec<(String, String)> {
    results.iter().map(|r| (r.entry.clone(), String::from(r.address.as_str()))).collect()
}

fn pair(entry: &str, address: &str) -> (String, String) {
    (String::from(entry), String::from(address))
}

#[test]
fn entries_that_did_not_load_are_dropped() {
    let loaded = vec![None, Some(found("one", "a")), None, None, Some(found("two", "b"))];
    let kept = get_links_and_load_type(loaded);
    assert_eq!(pairs(&kept), vec![pair("one", "a"), pair("two", "b")]);
    let nothing: Vec<Option<GetLinksLoadResult<String>>> = vec![None, None];
    assert!(get_links_and_load_type(nothing).is_empty());
}

#[test]
fn each_address_is_listed_where_it_came_first() {
    let listing = vec![
        found("one", "a"),
        found("two", "b"),
        found("one again", "a"),
        found("three", "c"),
        found("two again", "b"),
        found("one once more", "a"),
    ];
    let unique = unique_by_address(listing);
    assert_eq!(pairs(&unique), vec![pair("one", "a"), pair("two", "b"), pair("three", "c")]);
    assert!(unique_by_address(Vec::<GetLinksLoadResult<String>>::new()).is_empty());
}

fn link(kind: LinkActionKind, base: &str, target: &str) -> ChainEntry {
    ChainEntry::LinkAdd(LinkData {
        action_kind: kind,
        base: Address::new(base),
        target: Address::new(target),
    })
}

#[test]
fn membership_is_a_link_on_the_agents_own_chain() {
    let agent = Address::new("agent");
    let conversation = Address::new("conversation");
    assert!(entry_is_link_between(
        &link(LinkActionKind::ADD, "conversation", "agent"),
        &conversation,
        &agent
    ));
    assert!(!entry_is_link_between(
        &link(LinkActionKind::REMOVE, "conversation", "agent"),
        &conversation,
        &agent
    ));
    assert!(!entry_is_link_between(
        &link(LinkActionKind::ADD, "agent", "conversation"),
        &conversation,
        &agent
    ));
    assert!(!entry_is_link_between(&ChainEntry::Other, &conversation, &agent));
    let chain = vec![
        ChainEntry::Other,
        link(LinkActionKind::ADD, "elsewhere", "agent"),
        link(LinkActionKind::ADD, "conversation", "agent"),
    ];
    assert!(agent_is_member_of_channel(&chain, &agent, &conversation));
    assert!(!agent_is_member_of_channel(&chain, &agent, &Address::new("another")));
    assert!(!agent_is_member_of_channel(&Vec::new(), &agent, &conversation));
    assert_eq!(PUBLIC_STREAM_LINK_TYPE_TO, "has_member");
}

#[test]
fn word_goes_to_every_member() {
    let me = Address::new("me");
    let members = vec![Address::new("you"), Address::new("me"), Address::new("them")];
    assert_eq!(
        notify_conversation(&members, &me),
        vec![
            Delivery::Send(Address::new("you")),
            Delivery::Signal,
            Delivery::Send(Address::new("them")),
        ]
    );
    assert!(notify_conversation(&Vec::new(), &me).is_empty());
}

#[test]
fn direct_messages_have_their_signals() {
    let spec = MessageSpec {
        message_type: String::from("text"),
        timestamp: 7,
        payload: String::from("hi"),
        meta: String::new(),
    };
    let message = Message::from_spec(&spec, &String::from("me"));
    let posted = notify_conversation_message(
        Address::new("conversation"),
        message.clone(),
        Address::new("item"),
    );
    assert_eq!(
        posted,
        DirectMessage::ChannelMessageNotification(NotificationSignalPayload {
            conversation_address: Address::new("conversation"),
            message_address: Address::new("item"),
            message,
        })
    );
    assert_eq!(signal_ui(&posted), "new_convo_message");
    assert_eq!(signal_ui(&posted), CHANNEL_MESSAGE_SIGNAL_TYPE);
    let joined = notify_conversation_join(Address::new("conversation"), Address::new("me"));
    assert_eq!(
        joined,
        DirectMessage::JoinChannelNotification(JoinChannelSignalPayload {
            conversation_address: Address::new("conversation"),
            agent_address: Address::new("me"),
        })
    );
    assert_eq!(signal_ui(&joined), "join_convo_message");
    assert_eq!(signal_ui(&joined), JOIN_CHANNEL_SIGNAL_TYPE);
}

#[test]
fn messages_are_read_from_the_conversation_unless_told_otherwise() {
    let conversation = Address::new("conversation");
    assert_eq!(messages_since(&conversation, None), conversation);
    assert_eq!(messages_since(&conversation, Some(Address::new("item"))), Address::new("item"));
}
