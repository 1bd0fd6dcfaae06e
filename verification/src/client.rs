//! The client's side of the protocol: how a command is written as a request
//! line, and how the reply is read.

use vstd::prelude::*;
use crate::errors::KvStoreError;
use crate::text::same_text;
use crate::wire::{decode_body, decoded_body, fields, split_fields, texts, trimmed_end};

verus! {

/// A command for the server.
#[derive(Debug, Clone)]
pub enum Command {
    /// Ask for the value of a key.
    Get(String),
    /// Give a key a value.
    Put(String, String),
    /// Remove a key.
    Remove(String),
    /// Ask the server to stop.
    Exit,
}

/// What a [`Command`] says, as mathematical text.
pub ghost enum CommandView {
    Get(Seq<char>),
    Put(Seq<char>, Seq<char>),
    Remove(Seq<char>),
    Exit,
}

impl View for Command {
    type V = CommandView;

    open spec fn view(&self) -> CommandView {
        match *self {
            Command::Get(key) => CommandView::Get(key@),
            Command::Put(key, value) => CommandView::Put(key@, value@),
            Command::Remove(key) => CommandView::Remove(key@),
            Command::Exit => CommandView::Exit,
        }
    }
}

/// The request line of a command, without the line feed that ends it.
pub open spec fn request_line(command: CommandView) -> Seq<char> {
    match command {
        CommandView::Get(key) => "GET:"@ + key,
        CommandView::Put(key, value) => "SET:"@ + key + ":"@ + value,
        CommandView::Remove(key) => "REMOVE:"@ + key,
        CommandView::Exit => "EXIT"@,
    }
}

/// Writes a command as its request line.
pub fn serialize(command: &Command) -> (r: String)
    ensures
        r@ == request_line(command@),
{
    match command {
        Command::Get(key) => {
            let mut line = String::from_str("GET:");
            line.append(key.as_str());
            line
        },
        Command::Put(key, value) => {
            let mut line = String::from_str("SET:");
            line.append(key.as_str());
            line.append(":");
            line.append(value.as_str());
            line
        },
        Command::Remove(key) => {
            let mut line = String::from_str("REMOVE:");
            line.append(key.as_str());
            line
        },
        Command::Exit => String::from_str("EXIT"),
    }
}

/// The message of a reply, where it can be read: the text that its second
/// field holds in base64, or a fixed text where the reply has one field
/// only.
pub open spec fn reply_message(incoming: Seq<char>) -> Option<Seq<char>> {
    let parts = fields(trimmed_end(incoming));
    if parts.len() >= 2 {
        decoded_body(parts[1])
    } else {
        Some("Undefined response from server"@)
    }
}

/// What a reply says: its message, as a success where its first field is
/// `OK` and as a failure of the server otherwise.
pub open spec fn reply_outcome(incoming: Seq<char>) -> Result<Seq<char>, Seq<char>> {
    let parts = fields(trimmed_end(incoming));
    if parts[0] == "OK"@ {
        Ok(reply_message(incoming)->0)
    } else {
        Err(reply_message(incoming)->0)
    }
}

/// Whether the message of a reply can be read.
pub fn reply_readable(incoming: &str) -> (r: bool)
    ensures
        r == reply_message(incoming@) is Some,
{
    let parts = split_fields(incoming);
    if parts.len() >= 2 {
        assert(texts(parts@)[1] == parts@[1]@);
        decode_body(parts[1].as_str()).is_some()
    } else {
        true
    }
}

/// Reads the reply of the server: the message of a reply whose first field
/// is `OK`, and `ClientError` with the message for any other reply.
pub fn handle_responses(incoming: &str) -> (r: Result<String, KvStoreError>)
    requires
        reply_message(incoming@) is Some,
    ensures
        match r {
            Ok(message) => reply_outcome(incoming@) == Ok::<Seq<char>, Seq<char>>(message@),
            Err(KvStoreError::ClientError(message)) => reply_outcome(incoming@) == Err::<
                Seq<char>,
                Seq<char>,
            >(message@),
            Err(_) => false,
        },
{
    let parts = split_fields(incoming);
    assert(texts(parts@)[0] == parts@[0]@);
    let message = if parts.len() >= 2 {
        assert(texts(parts@)[1] == parts@[1]@);
        match decode_body(parts[1].as_str()) {
            Some(message) => message,
            None => vstd::pervasive::unreached(),
        }
    } else {
        String::from_str("Undefined response from server")
    };
    if same_text(parts[0].as_str(), "OK") {
        Ok(message)
    } else {
        Err(KvStoreError::ClientError(message))
    }
}

/// Reads the reply of the server, or returns `None` where the body of the
/// reply is not the base64 of a text.
pub fn try_handle_responses(incoming: &str) -> (r: Option<Result<String, KvStoreError>>)
    ensures
        match r {
            None => reply_message(incoming@) is None,
            Some(Ok(message)) => reply_message(incoming@) is Some && reply_outcome(incoming@)
                == Ok::<Seq<char>, Seq<char>>(message@),
            Some(Err(KvStoreError::ClientError(message))) => reply_message(incoming@) is Some
                && reply_outcome(incoming@) == Err::<Seq<char>, Seq<char>>(message@),
            Some(Err(_)) => false,
        },
{
    if reply_readable(incoming) {
        Some(handle_responses(incoming))
    } else {
        None
    }
}

} // verus!
