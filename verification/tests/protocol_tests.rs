use kvs::backend::{backend_allowed, backend_name, parse_backend, Backend};
use kvs::client::{handle_responses, reply_readable, serialize, try_handle_responses, Command};
use kvs::errors::KvStoreError;
use kvs::kv::KvsEngine;
use kvs::server::{
    get_reply, handle_incoming, handle_response, parse_request, remove_reply, set_reply,
    ServerResult,
};
use kvs::wire::{decode_body, encode_body, split_fields};
use std::collections::HashMap;
use std::sync::{Arc, Mutex};

#[derive(Clone)]
struct MemoryEngine {
    map: Arc<Mutex<HashMap<String, String>>>,
    broken: bool,
}

impl MemoryEngine {
    fn new() -> Self {
        MemoryEngine { map: Arc::new(Mutex::new(HashMap::new())), broken: false }
    }
}

impl KvsEngine for MemoryEngine {
    fn set(&self, key: String, value: String) -> Result<(), KvStoreError> {
        if self.broken {
            return Err(KvStoreError::Io("broken".to_owned()));
        }
        self.map.lock().unwrap().insert(key, value);
        Ok(())
    }

    fn get(&self, key: String) -> Result<Option<String>, KvStoreError> {
        if self.broken {
            return Err(KvStoreError::Io("broken".to_owned()));
        }
        Ok(self.map.lock().unwrap().get(&key).cloned())
    }

    fn remove(&self, key: String) -> Result<(), KvStoreError> {
        match self.map.lock().unwrap().remove(&key) {
            Some(_) => Ok(()),
            None => Err(KvStoreError::NonExistentKey(key)),
        }
    }
}

fn reply_to(engine: &MemoryEngine, line: &str) -> Option<String> {
    handle_response(&handle_incoming(engine, line))
}

#[test]
fn commands_are_written_as_request_lines() {
    assert_eq!(serialize(&Command::Get("k".to_owned())), "GET:k");
    assert_eq!(serialize(&Command::Put("k".to_owned(), "v".to_owned())), "SET:k:v");
    assert_eq!(serialize(&Command::Remove("k".to_owned())), "REMOVE:k");
    assert_eq!(serialize(&Command::Exit), "EXIT");
    assert_eq!(serialize(&Command::Put(String::new(), String::new())), "SET::");
}

#[test]
fn lines_are_split_at_colons_after_trimming() {
    assert_eq!(split_fields("GET:key\n"), vec!["GET", "key"]);
    assert_eq!(split_fields("SET:a:b \r\n"), vec!["SET", "a", "b"]);
    assert_eq!(split_fields(""), vec![""]);
    assert_eq!(split_fields("\n"), vec![""]);
    assert_eq!(split_fields(":"), vec!["", ""]);
    assert_eq!(split_fields("a::b:"), vec!["a", "", "b", ""]);
    assert_eq!(split_fields("  lead"), vec!["  lead"]);
    assert_eq!(split_fields("\u{e9}:\u{4e2d}\u{6587}\u{2003}"), vec!["\u{e9}", "\u{4e2d}\u{6587}"]);
}

#[test]
fn request_lines_are_understood() {
    assert!(matches!(parse_request("GET:k\n"), Some(Command::Get(key)) if key == "k"));
    assert!(matches!(
        parse_request("SET:k:v\n"),
        Some(Command::Put(key, value)) if key == "k" && value == "v"
    ));
    assert!(matches!(parse_request("REMOVE:k\n"), Some(Command::Remove(key)) if key == "k"));
    assert!(matches!(parse_request("EXIT\n"), Some(Command::Exit)));
    assert!(matches!(parse_request("EXIT:now\n"), Some(Command::Exit)));
    assert!(matches!(parse_request("GET:k:extra\n"), Some(Command::Get(key)) if key == "k"));
    assert!(matches!(parse_request("GET:\n"), Some(Command::Get(key)) if key.is_empty()));
    assert!(matches!(
        parse_request("SET:k:\n"),
        Some(Command::Put(key, value)) if key == "k" && value.is_empty()
    ));
}

#[test]
fn other_lines_are_no_requests() {
    for line in ["", "\n", "GET", "GET\n", "SET:k\n", "SET\n", "REMOVE\n", "get:k\n", "PUT:k:v\n", " GET:k\n", "EXITS\n"] {
        assert!(parse_request(line).is_none(), "{:?}", line);
    }
}

#[test]
fn every_command_is_parsed_back_from_its_line() {
    let commands = vec![
        Command::Get("key".to_owned()),
        Command::Put("key".to_owned(), "value".to_owned()),
        Command::Remove("key".to_owned()),
        Command::Exit,
    ];
    for command in commands {
        let line = format!("{}\n", serialize(&command));
        let parsed = parse_request(&line).unwrap();
        assert_eq!(format!("{:?}", parsed), format!("{:?}", command));
    }
}

#[test]
fn server_answers_set_get_and_missing_key() {
    let engine = MemoryEngine::new();
    assert_eq!(reply_to(&engine, "SET:k:v\n"), Some("OK:".to_owned()));
    assert_eq!(reply_to(&engine, "GET:k\n"), Some("OK:dg==".to_owned()));
    assert_eq!(reply_to(&engine, "GET:missing\n"), Some("OK:Tk9ORQ==".to_owned()));
}

#[test]
fn server_answers_remove_exit_and_unknown() {
    let engine = MemoryEngine::new();
    engine.set("k".to_owned(), "v".to_owned()).unwrap();
    assert_eq!(reply_to(&engine, "REMOVE:k\n"), Some("OK:".to_owned()));
    assert_eq!(
        reply_to(&engine, "REMOVE:k\n"),
        Some(format!("ERR:{}", base64::encode("Key not found")))
    );
    assert_eq!(reply_to(&engine, "EXIT\n"), None);
    assert!(matches!(handle_incoming(&engine, "EXIT\n"), ServerResult::Exit));
    assert_eq!(
        reply_to(&engine, "HELLO\n"),
        Some(format!("ERR:{}", base64::encode("Command not recognized")))
    );
    assert_eq!(
        reply_to(&engine, "GET\n"),
        Some(format!("ERR:{}", base64::encode("Command not recognized")))
    );
}

#[test]
fn server_reports_engine_failures() {
    let mut engine = MemoryEngine::new();
    engine.broken = true;
    assert!(matches!(
        handle_incoming(&engine, "GET:k\n"),
        ServerResult::Failure(message) if message == "Error getting value"
    ));
    assert!(matches!(
        handle_incoming(&engine, "SET:k:v\n"),
        ServerResult::Failure(message) if message == "Error setting key"
    ));
}

#[test]
fn replies_follow_the_engine() {
    assert!(matches!(get_reply(Ok(Some("v".to_owned()))), ServerResult::Success(body) if body == "v"));
    assert!(matches!(get_reply(Ok(None)), ServerResult::Success(body) if body == "NONE"));
    assert!(matches!(
        get_reply(Err(KvStoreError::LockError("poisoned".to_owned()))),
        ServerResult::Failure(message) if message == "Error getting value"
    ));
    assert!(matches!(set_reply(Ok(())), ServerResult::Success(body) if body.is_empty()));
    assert!(matches!(
        set_reply(Err(KvStoreError::Io("disk".to_owned()))),
        ServerResult::Failure(message) if message == "Error setting key"
    ));
    assert!(matches!(remove_reply(Ok(())), ServerResult::Success(body) if body.is_empty()));
    assert!(matches!(
        remove_reply(Err(KvStoreError::NonExistentKey("k".to_owned()))),
        ServerResult::Failure(message) if message == "Key not found"
    ));
}

#[test]
fn bodies_travel_in_base64() {
    assert_eq!(encode_body(""), Some(String::new()));
    assert_eq!(encode_body("v"), Some("dg==".to_owned()));
    assert_eq!(encode_body("NONE"), Some("Tk9ORQ==".to_owned()));
    assert_eq!(encode_body("hello world"), Some("aGVsbG8gd29ybGQ=".to_owned()));
    assert_eq!(decode_body("aGVsbG8gd29ybGQ="), Some("hello world".to_owned()));
    assert_eq!(decode_body(""), Some(String::new()));
    assert_eq!(decode_body("not base64!"), None);
    assert_eq!(decode_body("d"), None);
    assert_eq!(decode_body("/w=="), None);
    assert_eq!(decode_body(&base64::encode("\u{4e2d}\u{6587}")), Some("\u{4e2d}\u{6587}".to_owned()));
}

#[test]
fn client_reads_replies() {
    assert_eq!(handle_responses("OK:dg==").unwrap(), "v");
    assert_eq!(handle_responses("OK:dg==\n").unwrap(), "v");
    assert_eq!(handle_responses("OK:").unwrap(), "");
    assert_eq!(handle_responses("OK:Tk9ORQ==").unwrap(), "NONE");
    match handle_responses(&format!("ERR:{}", base64::encode("Key not found"))) {
        Err(KvStoreError::ClientError(message)) => assert_eq!(message, "Key not found"),
        other => panic!("unexpected outcome: {:?}", other),
    }
    assert_eq!(handle_responses("OK").unwrap(), "Undefined response from server");
    match handle_responses("") {
        Err(KvStoreError::ClientError(message)) => {
            assert_eq!(message, "Undefined response from server")
        }
        other => panic!("unexpected outcome: {:?}", other),
    }
    match handle_responses("ok:dg==") {
        Err(KvStoreError::ClientError(message)) => assert_eq!(message, "v"),
        other => panic!("unexpected outcome: {:?}", other),
    }
}

#[test]
fn client_tells_unreadable_replies_apart() {
    assert!(reply_readable("OK:dg=="));
    assert!(reply_readable("OK"));
    assert!(!reply_readable("OK:???"));
    assert!(!reply_readable("ERR:/w=="));
    assert!(try_handle_responses("OK:???").is_none());
    assert!(matches!(try_handle_responses("OK:dg=="), Some(Ok(body)) if body == "v"));
    assert!(matches!(
        try_handle_responses("ERR:dg=="),
        Some(Err(KvStoreError::ClientError(message))) if message == "v"
    ));
}

#[test]
fn client_reads_what_the_server_writes() {
    let engine = MemoryEngine::new();
    engine.set("k".to_owned(), "some value".to_owned()).unwrap();
    let reply = reply_to(&engine, &format!("{}\n", serialize(&Command::Get("k".to_owned())))).unwrap();
    assert_eq!(handle_responses(&reply).unwrap(), "some value");
    let reply = reply_to(&engine, "REMOVE:absent\n").unwrap();
    assert!(matches!(
        handle_responses(&reply),
        Err(KvStoreError::ClientError(message)) if message == "Key not found"
    ));
}

#[test]
fn errors_describe_themselves() {
    assert_eq!(KvStoreError::Io("a".to_owned()).description(), "a");
    assert_eq!(KvStoreError::EncoderError("b".to_owned()).description(), "b");
    assert_eq!(KvStoreError::DecoderError("c".to_owned()).description(), "c");
    assert_eq!(KvStoreError::BackendError("d".to_owned()).description(), "d");
    assert_eq!(KvStoreError::NonExistentKey("e".to_owned()).description(), "e");
    assert_eq!(KvStoreError::SerializationError("f".to_owned()).description(), "f");
    assert_eq!(KvStoreError::LockError("g".to_owned()).description(), "g");
    assert_eq!(KvStoreError::ClientError("h".to_owned()).description(), "h");
}

#[test]
fn a_directory_keeps_its_backend() {
    assert_eq!(parse_backend("kvs"), Some(Backend::Kvs));
    assert_eq!(parse_backend("sled"), Some(Backend::Sled));
    assert_eq!(parse_backend("KVS"), None);
    assert_eq!(parse_backend(""), None);
    assert_eq!(backend_name(Backend::Kvs), "kvs");
    assert_eq!(backend_name(Backend::Sled), "sled");
    assert!(backend_allowed(None, "kvs"));
    assert!(backend_allowed(Some("kvs"), "kvs"));
    assert!(backend_allowed(Some("sled"), "sled"));
    assert!(!backend_allowed(Some("kvs"), "sled"));
    assert!(!backend_allowed(Some("kvs\n"), "kvs"));
}

#[test]
fn trailing_whitespace_is_what_unicode_lists() {
    let listed = |code: u32| {
        (0x09..=0x0d).contains(&code)
            || code == 0x20
            || code == 0x85
            || code == 0xa0
            || code == 0x1680
            || (0x2000..=0x200a).contains(&code)
            || code == 0x2028
            || code == 0x2029
            || code == 0x202f
            || code == 0x205f
            || code == 0x3000
    };
    let mut cut = 0;
    for code in 0..=0x10ffffu32 {
        if let Some(c) = char::from_u32(code) {
            if c == ':' {
                continue;
            }
            let line = format!("x{}", c);
            let fields = split_fields(&line);
            if listed(code) {
                assert_eq!(fields, vec!["x"], "{:x}", code);
                cut += 1;
            } else {
                assert_eq!(fields, vec![line], "{:x}", code);
            }
        }
    }
    assert_eq!(cut, 25);
}
