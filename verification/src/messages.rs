//! The earlier, serialized message scheme: a command with an optional queue
//! name and body. Its byte serialization is the serializer's concern and
//! lives with the surrounding process.

use vstd::prelude::*;

verus! {

use vstd::utf8::encode_utf8;
use crate::commands::{spec_unknown_command_bytes, unknown_command_diagnostic};

/// A command of the serialized message scheme.
#[derive(Debug)]
pub enum Commands {
    QUIT,
    SUBSCRIBE,
    PUBLISH,
    PING,
    UNKNOWN(String),
}

impl Commands {
    /// There is no default command.
    pub fn new() -> (r: Option<Commands>)
        ensures
            r is None,
    {
        None
    }

    /// Maps a command word to its command; words beyond the known range are
    /// kept with a diagnostic naming the offending word.
    pub fn from_u8(value: u32) -> (r: Commands)
        ensures
            value == 0 ==> r is QUIT,
            value == 1 ==> r is SUBSCRIBE,
            value == 2 ==> r is PUBLISH,
            value > 2 ==> (r matches Commands::UNKNOWN(s) && encode_utf8(s@)
                == spec_unknown_command_bytes(value)),
    {
        match value {
            0 => Commands::QUIT,
            1 => Commands::SUBSCRIBE,
            2 => Commands::PUBLISH,
            _ => Commands::UNKNOWN(unknown_command_diagnostic(value)),
        }
    }
}

/// One message of the serialized scheme.
#[derive(Default, PartialEq, Debug, Clone)]
pub struct Message {
    pub command: Option<u8>,
    pub queue: Option<String>,
    pub message: Option<Vec<u8>>,
}

impl Message {
    /// Builds a message with every part present.
    pub fn new(command: u8, queue: String, message: Vec<u8>) -> (r: Message)
        ensures
            r.command == Some(command),
            r.queue == Some(queue),
            r.message == Some(message),
    {
        Message { command: Some(command), queue: Some(queue), message: Some(message) }
    }
}

} // verus!
