//! Error type shared by every module.

use crate::numbers::{dec, i64_to_chars};
use crate::text::{cat2, cat3, chars_of, slice_chars, string_of};
use vstd::prelude::*;

verus! {

/// What can go wrong, from configuration to the launcher.
#[derive(Debug, Clone, PartialEq, Eq)]
pub enum Error {
    /// A configuration problem.
    Config(String),
    /// An input/output failure, by its message.
    Io(String),
    /// Zotero is not reachable.
    ZoteroOffline(String),
    /// The Zotero local API answered 403.
    ApiDisabled,
    /// The Zotero instance changed (412 Precondition Failed).
    InstanceChanged,
    /// Any other unsuccessful API status.
    Api { status: u16, message: String },
    /// A transport failure.
    Http(String),
    /// A malformed JSON body.
    Json(String),
    /// A database failure.
    Database(String),
    /// The database was corrupt and moved aside to `backup`.
    DatabaseCorrupt { backup: String },
    /// A search query failure.
    Query(String),
    /// A mirror job failure.
    Mirror(String),
    /// No library with this identity.
    LibraryNotFound(String),
    /// No item with this identity.
    ItemNotFound(String),
    /// The launcher refused or failed.
    Launcher(String),
}

impl Error {
    /// The text shown for an error.
    pub open spec fn message_spec(&self) -> Seq<char> {
        match self {
            Error::Config(m) => "configuration error: "@ + m@,
            Error::Io(m) => "io error: "@ + m@,
            Error::ZoteroOffline(m) => "zotero is not reachable: "@ + m@,
            Error::ApiDisabled => API_DISABLED_TEXT@,
            Error::InstanceChanged => "zotero server instance changed (412 Precondition Failed)"@,
            Error::Api { status, message } => "zotero API error: status "@ + dec(*status as nat)
                + " "@ + message@,
            Error::Http(m) => "http error: "@ + m@,
            Error::Json(m) => "invalid json: "@ + m@,
            Error::Database(m) => "database error: "@ + m@,
            Error::DatabaseCorrupt { backup } => "database is corrupt and was backed up to "@
                + backup@ + "; a fresh database was created"@,
            Error::Query(m) => "search query error: "@ + m@,
            Error::Mirror(m) => "mirror error: "@ + m@,
            Error::LibraryNotFound(m) => "library not found: "@ + m@,
            Error::ItemNotFound(m) => "item not found: "@ + m@,
            Error::Launcher(m) => "launcher error: "@ + m@,
        }
    }

    /// The text shown for an error.
    pub fn message(&self) -> (res: String)
        ensures
            res@ == self.message_spec(),
    {
        match self {
            Error::Config(m) => cat2("configuration error: ", m.as_str()),
            Error::Io(m) => cat2("io error: ", m.as_str()),
            Error::ZoteroOffline(m) => cat2("zotero is not reachable: ", m.as_str()),
            Error::ApiDisabled => string_of(chars_of(API_DISABLED_TEXT).as_slice()),
            Error::InstanceChanged => string_of(
                chars_of("zotero server instance changed (412 Precondition Failed)").as_slice(),
            ),
            Error::Api { status, message } => {
                let n = string_of(i64_to_chars(*status as i64).as_slice());
                proof {
                    assert(crate::numbers::i64_text(*status as i64) == dec(*status as nat));
                }
                let head = cat3("zotero API error: status ", n.as_str(), " ");
                cat2(head.as_str(), message.as_str())
            },
            Error::Http(m) => cat2("http error: ", m.as_str()),
            Error::Json(m) => cat2("invalid json: ", m.as_str()),
            Error::Database(m) => cat2("database error: ", m.as_str()),
            Error::DatabaseCorrupt { backup } => cat3(
                "database is corrupt and was backed up to ",
                backup.as_str(),
                "; a fresh database was created",
            ),
            Error::Query(m) => cat2("search query error: ", m.as_str()),
            Error::Mirror(m) => cat2("mirror error: ", m.as_str()),
            Error::LibraryNotFound(m) => cat2("library not found: ", m.as_str()),
            Error::ItemNotFound(m) => cat2("item not found: ", m.as_str()),
            Error::Launcher(m) => cat2("launcher error: ", m.as_str()),
        }
    }
}

/// The message of `Error::ApiDisabled`.
pub const API_DISABLED_TEXT: &'static str = "zotero local API is disabled (403); enable it in Zotero: Settings -> Advanced -> Allow other applications on this computer to communicate with Zotero";

/// The first 200 characters of a response body.
pub open spec fn body_head(body: Seq<char>) -> Seq<char> {
    if body.len() <= 200 {
        body
    } else {
        body.take(200)
    }
}

/// How the Local API's status answers a request: any 2xx is success, 403
/// means the local API is disabled, 412 that the Zotero instance changed,
/// and any other status is an API error carrying the status and the first
/// 200 characters of the body.
pub fn status_error(status: u16, body: &str) -> (res: Option<Error>)
    ensures
        200 <= status < 300 ==> res is None,
        status == 403 ==> res == Some(Error::ApiDisabled),
        status == 412 ==> res == Some(Error::InstanceChanged),
        !(200 <= status < 300) && status != 403 && status != 412 ==> (res matches Some(
            Error::Api { status: s, message: m },
        ) && s == status && m@ == body_head(body@)),
{
    if 200 <= status && status < 300 {
        None
    } else if status == 403 {
        Some(Error::ApiDisabled)
    } else if status == 412 {
        Some(Error::InstanceChanged)
    } else {
        let b = chars_of(body);
        let n = if b.len() <= 200 {
            b.len()
        } else {
            200
        };
        let head = slice_chars(&b, 0, n);
        proof {
            assert(head@ =~= body_head(body@));
        }
        Some(Error::Api { status, message: string_of(head.as_slice()) })
    }
}

} // verus!
