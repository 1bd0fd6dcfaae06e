//! The server's side of the protocol: how a request line is understood, what
//! the engine is asked, and how its answer is written as a reply.

use vstd::prelude::*;
use crate::client::{Command, CommandView};
use crate::errors::KvStoreError;
use crate::kv::KvsEngine;
use crate::text::same_text;
use crate::wire::{encode_body, encoded_body, fields, split_fields, texts, trimmed_end};

verus! {

/// What the server makes of a request.
#[derive(Debug, Clone)]
pub enum ServerResult {
    /// The request was carried out; carries the body of the reply.
    Success(String),
    /// The request failed; carries the message of the reply.
    Failure(String),
    /// The server is asked to stop; no reply is written.
    Exit,
}

/// What a [`ServerResult`] says, as mathematical text.
pub ghost enum ServerResultView {
    Success(Seq<char>),
    Failure(Seq<char>),
    Exit,
}

impl View for ServerResult {
    type V = ServerResultView;

    open spec fn view(&self) -> ServerResultView {
        match *self {
            ServerResult::Success(body) => ServerResultView::Success(body@),
            ServerResult::Failure(message) => ServerResultView::Failure(message@),
            ServerResult::Exit => ServerResultView::Exit,
        }
    }
}

/// The command that a request line asks for, or `None` where the line is no
/// request: its first field names no command, or fields that the command
/// needs are missing. Fields beyond those that the command needs are passed
/// over.
pub open spec fn request_command(incoming: Seq<char>) -> Option<CommandView> {
    let parts = fields(trimmed_end(incoming));
    if parts[0] == "GET"@ {
        if parts.len() >= 2 {
            Some(CommandView::Get(parts[1]))
        } else {
            None
        }
    } else if parts[0] == "SET"@ {
        if parts.len() >= 3 {
            Some(CommandView::Put(parts[1], parts[2]))
        } else {
            None
        }
    } else if parts[0] == "REMOVE"@ {
        if parts.len() >= 2 {
            Some(CommandView::Remove(parts[1]))
        } else {
            None
        }
    } else if parts[0] == "EXIT"@ {
        Some(CommandView::Exit)
    } else {
        None
    }
}

/// Reads a request line.
pub fn parse_request(incoming: &str) -> (r: Option<Command>)
    ensures
        match r {
            Some(command) => request_command(incoming@) == Some(command@),
            None => request_command(incoming@) is None,
        },
{
    let parts = split_fields(incoming);
    let count = parts.len();
    assert(texts(parts@)[0] == parts@[0]@);
    if count >= 2 {
        assert(texts(parts@)[1] == parts@[1]@);
    }
    if count >= 3 {
        assert(texts(parts@)[2] == parts@[2]@);
    }
    let name = parts[0].as_str();
    if same_text(name, "GET") {
        if count >= 2 {
            Some(Command::Get(parts[1].clone()))
        } else {
            None
        }
    } else if same_text(name, "SET") {
        if count >= 3 {
            Some(Command::Put(parts[1].clone(), parts[2].clone()))
        } else {
            None
        }
    } else if same_text(name, "REMOVE") {
        if count >= 2 {
            Some(Command::Remove(parts[1].clone()))
        } else {
            None
        }
    } else if same_text(name, "EXIT") {
        Some(Command::Exit)
    } else {
        None
    }
}

/// The answer to a `GET`, given what the engine returned: the value, the
/// word `NONE` where the key has no value, and a failure where the engine
/// failed.
pub fn get_reply(outcome: Result<Option<String>, KvStoreError>) -> (r: ServerResult)
    ensures
        r@ == get_answer(outcome),
{
    match outcome {
        Ok(Some(value)) => ServerResult::Success(value),
        Ok(None) => ServerResult::Success(String::from_str("NONE")),
        Err(_) => ServerResult::Failure(String::from_str("Error getting value")),
    }
}

/// The answer to a `SET`, given what the engine returned: an empty body, or
/// a failure where the engine failed.
pub fn set_reply(outcome: Result<(), KvStoreError>) -> (r: ServerResult)
    ensures
        r@ == set_answer(outcome),
{
    match outcome {
        Ok(_) => ServerResult::Success(String::new()),
        Err(_) => ServerResult::Failure(String::from_str("Error setting key")),
    }
}

/// The answer to a `REMOVE`, given what the engine returned: an empty body,
/// or a failure where the engine failed.
pub fn remove_reply(outcome: Result<(), KvStoreError>) -> (r: ServerResult)
    ensures
        r@ == remove_answer(outcome),
{
    match outcome {
        Ok(_) => ServerResult::Success(String::new()),
        Err(_) => ServerResult::Failure(String::from_str("Key not found")),
    }
}

/// The answer to a `GET` for what the engine returned.
pub open spec fn get_answer(outcome: Result<Option<String>, KvStoreError>) -> ServerResultView {
    match outcome {
        Ok(Some(value)) => ServerResultView::Success(value@),
        Ok(None) => ServerResultView::Success("NONE"@),
        Err(_) => ServerResultView::Failure("Error getting value"@),
    }
}

/// The answer to a `SET` for what the engine returned.
pub open spec fn set_answer(outcome: Result<(), KvStoreError>) -> ServerResultView {
    match outcome {
        Ok(_) => ServerResultView::Success(Seq::empty()),
        Err(_) => ServerResultView::Failure("Error setting key"@),
    }
}

/// The answer to a `REMOVE` for what the engine returned.
pub open spec fn remove_answer(outcome: Result<(), KvStoreError>) -> ServerResultView {
    match outcome {
        Ok(_) => ServerResultView::Success(Seq::empty()),
        Err(_) => ServerResultView::Failure("Key not found"@),
    }
}

/// `result` answers `command`: it is the answer for something that the
/// engine can return for the operation that the command asks for, with the
/// key and the value that the command names.
pub open spec fn answers<E: KvsEngine>(
    store: &E,
    command: Option<CommandView>,
    result: ServerResultView,
) -> bool {
    match command {
        Some(CommandView::Get(key)) => exists|outcome: Result<Option<String>, KvStoreError>|
            #![trigger get_answer(outcome)]
            store.may_get(key, outcome) && result == get_answer(outcome),
        Some(CommandView::Put(key, value)) => exists|outcome: Result<(), KvStoreError>|
            #![trigger set_answer(outcome)]
            store.may_set(key, value, outcome) && result == set_answer(outcome),
        Some(CommandView::Remove(key)) => exists|outcome: Result<(), KvStoreError>|
            #![trigger remove_answer(outcome)]
            store.may_remove(key, outcome) && result == remove_answer(outcome),
        Some(CommandView::Exit) => result is Exit,
        None => result == ServerResultView::Failure("Command not recognized"@),
    }
}

/// Carries out the request of one line: reads it, asks the engine for what
/// the command names, and turns what the engine returns into the answer. A
/// line that is no request is answered with a failure, and `EXIT` asks
/// nothing of the engine.
pub fn handle_incoming<E: KvsEngine>(store: &E, incoming: &str) -> (r: ServerResult)
    ensures
        answers(store, request_command(incoming@), r@),
{
    match parse_request(incoming) {
        Some(Command::Get(key)) => {
            let ghost asked = key@;
            let outcome = store.get(key);
            let ghost returned = outcome;
            let reply = get_reply(outcome);
            assert(store.may_get(asked, returned) && reply@ == get_answer(returned));
            reply
        },
        Some(Command::Put(key, value)) => {
            let ghost asked = key@;
            let ghost given = value@;
            let outcome = store.set(key, value);
            let ghost returned = outcome;
            let reply = set_reply(outcome);
            assert(store.may_set(asked, given, returned) && reply@ == set_answer(returned));
            reply
        },
        Some(Command::Remove(key)) => {
            let ghost asked = key@;
            let outcome = store.remove(key);
            let ghost returned = outcome;
            let reply = remove_reply(outcome);
            assert(store.may_remove(asked, returned) && reply@ == remove_answer(returned));
            reply
        },
        Some(Command::Exit) => ServerResult::Exit,
        None => ServerResult::Failure(String::from_str("Command not recognized")),
    }
}

/// The reply that is written for an answer: the tag and the body in base64;
/// `None` where nothing is written.
pub open spec fn reply_text(result: ServerResultView) -> Option<Seq<char>> {
    match result {
        ServerResultView::Success(body) => match encoded_body(body) {
            Some(encoded) => Some("OK:"@ + encoded),
            None => None,
        },
        ServerResultView::Failure(message) => match encoded_body(message) {
            Some(encoded) => Some("ERR:"@ + encoded),
            None => None,
        },
        ServerResultView::Exit => None,
    }
}

/// Writes the reply for an answer, or `None` where nothing is to be written.
pub fn handle_response(result: &ServerResult) -> (r: Option<String>)
    ensures
        match r {
            Some(reply) => reply_text(result@) == Some(reply@),
            None => reply_text(result@) is None,
        },
{
    match result {
        ServerResult::Success(body) => match encode_body(body.as_str()) {
            Some(encoded) => {
                let mut reply = String::from_str("OK:");
                reply.append(encoded.as_str());
                Some(reply)
            },
            None => None,
        },
        ServerResult::Failure(message) => match encode_body(message.as_str()) {
            Some(encoded) => {
                let mut reply = String::from_str("ERR:");
                reply.append(encoded.as_str());
                Some(reply)
            },
            None => None,
        },
        ServerResult::Exit => None,
    }
}

} // verus!
