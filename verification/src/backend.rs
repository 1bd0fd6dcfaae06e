//! Which backend serves a data directory. The directory records, in the
//! file `engine`, the backend that it was first served with, and is served
//! with no other afterwards.

use vstd::prelude::*;
use crate::text::same_text;

verus! {

/// A storage backend.
#[derive(Clone, Copy, Debug, PartialEq, Eq, Structural)]
pub enum Backend {
    /// The log-structured engine of this library.
    Kvs,
    /// The `sled` database.
    Sled,
}

/// The name under which a backend is chosen and recorded.
pub open spec fn backend_text(backend: Backend) -> Seq<char> {
    match backend {
        Backend::Kvs => "kvs"@,
        Backend::Sled => "sled"@,
    }
}

/// The backend that a name stands for, if it stands for one.
pub open spec fn named_backend(name: Seq<char>) -> Option<Backend> {
    if name == "kvs"@ {
        Some(Backend::Kvs)
    } else if name == "sled"@ {
        Some(Backend::Sled)
    } else {
        None
    }
}

/// The name under which a backend is chosen and recorded.
pub fn backend_name(backend: Backend) -> (r: &'static str)
    ensures
        r@ == backend_text(backend),
{
    match backend {
        Backend::Kvs => "kvs",
        Backend::Sled => "sled",
    }
}

/// The backend that a name stands for, or `None` where it stands for none.
pub fn parse_backend(name: &str) -> (r: Option<Backend>)
    ensures
        r == named_backend(name@),
{
    if same_text(name, "kvs") {
        Some(Backend::Kvs)
    } else if same_text(name, "sled") {
        Some(Backend::Sled)
    } else {
        None
    }
}

/// Whether a directory may be served with the backend `requested`: it may
/// where it records no backend yet, or records this very one.
pub fn backend_allowed(recorded: Option<&str>, requested: &str) -> (r: bool)
    ensures
        r == match recorded {
            Some(name) => name@ == requested@,
            None => true,
        },
{
    match recorded {
        Some(name) => same_text(name, requested),
        None => true,
    }
}

/// A backend is the one that its name stands for.
pub proof fn lemma_backend_name(backend: Backend)
    ensures
        named_backend(backend_text(backend)) == Some(backend),
{
    reveal_strlit("kvs");
    reveal_strlit("sled");
    assert("kvs"@.len() != "sled"@.len());
}

} // verus!
