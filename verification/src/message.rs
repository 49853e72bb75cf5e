//! Chat messages: the content that a conversation's stream carries.
use vstd::prelude::*;

verus! {

/// The fewest characters that a message's payload may have.
pub const MIN_PAYLOAD_LENGTH: u64 = 1;

/// The most characters that a message's payload may have.
pub const MAX_PAYLOAD_LENGTH: u64 = 1024;

/// What a peer hands in to post a message: the message without its author.
#[derive(Debug, Clone)]
pub struct MessageSpec {
    pub message_type: String,
    pub timestamp: u64,
    pub payload: String,
    pub meta: String,
}

/// A message as the stream keeps it.
#[derive(Debug, Clone, PartialEq)]
pub struct Message {
    pub timestamp: u64,
    pub author: String,
    pub message_type: String,
    pub payload: String,
    pub meta: String,
}

/// What is being done to an entry that is up for validation.
#[derive(Debug, Clone, Copy, PartialEq, Eq)]
pub enum EntryChange {
    Create,
    Modify,
    Delete,
}

/// Why a message was turned down.
#[derive(Debug, Clone, Copy, PartialEq, Eq)]
pub enum MessageError {
    /// The payload is empty or too long.
    PayloadLength,
    /// A message that was posted can be neither changed nor taken back.
    Immutable,
}

/// Whether a payload has an acceptable number of characters.
pub open spec fn payload_fits(payload: Seq<char>) -> bool {
    MIN_PAYLOAD_LENGTH <= payload.len() <= MAX_PAYLOAD_LENGTH
}

/// Calls `validator::validate_length` with a `Length` validator that has the
/// bounds `min` and `max` and no exact length. On a string that function
/// counts the characters and answers whether the count lies within the two
/// bounds, both included.
#[verifier::external_body]
fn length_between(text: &String, min: u64, max: u64) -> (within: bool)
    ensures
        within == (min <= text@.len() <= max),
{
    validator::validate_length(
        validator::Validator::Length { min: Some(min), max: Some(max), equal: None },
        text,
    )
}

impl Message {
    /// The message that `author` posts from `spec`.
    pub fn from_spec(spec: &MessageSpec, author: &String) -> (message: Message)
        ensures
            message.timestamp == spec.timestamp,
            message.author@ == author@,
            message.message_type@ == spec.message_type@,
            message.payload@ == spec.payload@,
            message.meta@ == spec.meta@,
    {
        Message {
            message_type: spec.message_type.clone(),
            payload: spec.payload.clone(),
            meta: spec.meta.clone(),
            author: author.clone(),
            timestamp: spec.timestamp,
        }
    }

    /// Accepts the message if its payload has between one and 1024
    /// characters.
    pub fn validate(&self) -> (checked: Result<(), MessageError>)
        ensures
            payload_fits(self.payload@) ==> checked is Ok,
            !payload_fits(self.payload@) ==> checked == Err::<(), MessageError>(
                MessageError::PayloadLength,
            ),
    {
        if length_between(&self.payload, MIN_PAYLOAD_LENGTH, MAX_PAYLOAD_LENGTH) {
            Ok(())
        } else {
            Err(MessageError::PayloadLength)
        }
    }
}

impl MessageError {
    /// The reason in words.
    pub fn describe(&self) -> (text: String)
        ensures
            *self == MessageError::Immutable ==> text@ == "Cannot modify or delete a message"@,
            *self == MessageError::PayloadLength ==> text@
                == "A message payload has between 1 and 1024 characters"@,
    {
        match self {
            MessageError::Immutable => "Cannot modify or delete a message".to_owned(),
            MessageError::PayloadLength => "A message payload has between 1 and 1024 characters".to_owned(),
        }
    }
}

/// Decides whether a change to a message entry is valid: a message can be
/// created if it is acceptable in itself, and can never be modified or
/// deleted.
pub fn validate_message(change: EntryChange, message: &Message) -> (checked: Result<
    (),
    MessageError,
>)
    ensures
        change == EntryChange::Create && payload_fits(message.payload@) ==> checked is Ok,
        change == EntryChange::Create && !payload_fits(message.payload@) ==> checked == Err::<
            (),
            MessageError,
        >(MessageError::PayloadLength),
        change != EntryChange::Create ==> checked == Err::<(), MessageError>(
            MessageError::Immutable,
        ),
{
    match change {
        EntryChange::Create => message.validate(),
        _ => Err(MessageError::Immutable),
    }
}

} // verus!
