use chat::address::Address;
use chat::message::{validate_message, EntryChange, Message, MessageError, MessageSpec};
use chat::{init, validate_agent};

fn spec_with_payload(payload: &str) -> MessageSpec {
    MessageSpec {
        message_type: String::from("text"),
        timestamp: 1578000000,
        payload: String::from(payload),
        meta: String::from("{}"),
    }
}

#[test]
fn from_spec_copies_the_spec_and_names_the_author() {
    let spec = spec_with_payload("hello");
    let message = Message::from_spec(&spec, &String::from("alice"));
    assert_eq!(
        message,
        Message {
            timestamp: 1578000000,
            author: String::from("alice"),
            message_type: String::from("text"),
            payload: String::from("hello"),
            meta: String::from("{}"),
        }
    );
}

#[test]
fn payload_length_bounds() {
    let author = String::from("alice");
    let empty = Message::from_spec(&spec_with_payload(""), &author);
    assert_eq!(empty.validate(), Err(MessageError::PayloadLength));
    let one = Message::from_spec(&spec_with_payload("a"), &author);
    assert_eq!(one.validate(), Ok(()));
    let most = Message::from_spec(&spec_with_payload(&"a".repeat(1024)), &author);
    assert_eq!(most.validate(), Ok(()));
    let too_long = Message::from_spec(&spec_with_payload(&"a".repeat(1025)), &author);
    assert_eq!(too_long.validate(), Err(MessageError::PayloadLength));
}

#[test]
fn payload_length_counts_characters() {
    let author = String::from("alice");
    // 1024 characters of three bytes each
    let wide = Message::from_spec(&spec_with_payload(&"\u{65e5}".repeat(1024)), &author);
    assert_eq!(wide.validate(), Ok(()));
    let wider = Message::from_spec(&spec_with_payload(&"\u{65e5}".repeat(1025)), &author);
    assert_eq!(wider.validate(), Err(MessageError::PayloadLength));
}

#[test]
fn messages_are_immutable() {
    let message = Message::from_spec(&spec_with_payload("hello"), &String::from("alice"));
    assert_eq!(validate_message(EntryChange::Create, &message), Ok(()));
    assert_eq!(validate_message(EntryChange::Modify, &message), Err(MessageError::Immutable));
    assert_eq!(validate_message(EntryChange::Delete, &message), Err(MessageError::Immutable));
    let empty = Message::from_spec(&spec_with_payload(""), &String::from("alice"));
    assert_eq!(validate_message(EntryChange::Create, &empty), Err(MessageError::PayloadLength));
    assert_eq!(validate_message(EntryChange::Delete, &empty), Err(MessageError::Immutable));
    assert_eq!(MessageError::Immutable.describe(), "Cannot modify or delete a message");
}

#[test]
fn every_agent_is_welcome() {
    assert_eq!(init(), Ok(()));
    assert_eq!(validate_agent(&Address::new("HcScAgent")), Ok(()));
}
