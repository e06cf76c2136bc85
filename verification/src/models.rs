//! Data models shared by the index, the sync planner and the mirror.

use crate::errors::Error;
use crate::text::{
    cat2, cat3, cat4, chars_of, slice_chars, starts_with, starts_with_chars, str_eq, string_of,
};
use vstd::prelude::*;

verus! {

/// Kind of a Zotero library.
#[derive(Debug, Clone, Copy, PartialEq, Eq, Hash, Structural)]
pub enum LibraryKind {
    User,
    Group,
}

impl LibraryKind {
    pub open spec fn name(self) -> Seq<char> {
        match self {
            LibraryKind::User => "user"@,
            LibraryKind::Group => "group"@,
        }
    }

    /// The lowercase name used in the database and on the command line.
    pub fn as_str(&self) -> (res: &'static str)
        ensures
            res@ == self.name(),
    {
        match self {
            LibraryKind::User => "user",
            LibraryKind::Group => "group",
        }
    }

    /// Inverse of `as_str`; any other text is rejected.
    pub fn parse(s: &str) -> (res: Option<Self>)
        ensures
            res == (if s@ == "user"@ {
                Some(LibraryKind::User)
            } else if s@ == "group"@ {
                Some(LibraryKind::Group)
            } else {
                None::<LibraryKind>
            }),
    {
        if str_eq(s, "user") {
            Some(LibraryKind::User)
        } else if str_eq(s, "group") {
            Some(LibraryKind::Group)
        } else {
            None
        }
    }
}

/// Parsing the name of a library kind gives the kind back.
pub proof fn law_library_kind_roundtrip(k: LibraryKind)
    ensures
        (if k.name() == "user"@ {
            Some(LibraryKind::User)
        } else if k.name() == "group"@ {
            Some(LibraryKind::Group)
        } else {
            None::<LibraryKind>
        }) == Some(k),
{
    reveal_strlit("user");
    reveal_strlit("group");
    assert("user"@.len() != "group"@.len());
}

/// A Zotero library as seen through the Local API.
#[derive(Debug, Clone, PartialEq, Eq)]
pub struct RemoteLibrary {
    pub kind: LibraryKind,
    /// "0" for the local user library, numeric group id for groups.
    pub zotero_library_id: String,
    pub display_name: String,
    /// API path prefix, e.g. "/users/0" or "/groups/123456".
    pub api_prefix: String,
}

impl RemoteLibrary {
    /// The local user library.
    pub fn user() -> (res: Self)
        ensures
            res.kind == LibraryKind::User,
            res.zotero_library_id@ == "0"@,
            res.display_name@ == "My Library"@,
            res.api_prefix@ == "/users/0"@,
    {
        RemoteLibrary {
            kind: LibraryKind::User,
            zotero_library_id: "0".to_owned(),
            display_name: "My Library".to_owned(),
            api_prefix: "/users/0".to_owned(),
        }
    }

    /// A group library with its API group id and display name.
    pub fn group(id: &str, name: &str) -> (res: Self)
        ensures
            res.kind == LibraryKind::Group,
            res.zotero_library_id@ == id@,
            res.display_name@ == name@,
            res.api_prefix@ == "/groups/"@ + id@,
    {
        RemoteLibrary {
            kind: LibraryKind::Group,
            api_prefix: cat2("/groups/", id),
            display_name: name.to_owned(),
            zotero_library_id: id.to_owned(),
        }
    }
}

/// Information about the running Zotero instance.
#[derive(Debug, Clone)]
pub struct ServerInfo {
    pub api_base: String,
    pub api_version: Option<u32>,
    pub schema_version: Option<u32>,
    /// Value of the `Zotero-Server-ID` header, or `legacy:<uuid>` for old
    /// Zotero versions that do not send it.
    pub server_id: String,
}

/// The `zotero://select/...` URI that focuses an item in Zotero.
pub open spec fn select_uri(kind: LibraryKind, library_id: Seq<char>, item_key: Seq<char>) -> Seq<
    char,
> {
    match kind {
        LibraryKind::User => "zotero://select/library/items/"@ + item_key,
        LibraryKind::Group => "zotero://select/groups/"@ + library_id + "/items/"@ + item_key,
    }
}

/// Build the `zotero://select/...` URI used to focus an item in Zotero.
///
/// The group link always uses the API group id.
pub fn build_select_uri(kind: LibraryKind, library_id: &str, item_key: &str) -> (res: String)
    ensures
        res@ == select_uri(kind, library_id@, item_key@),
{
    match kind {
        LibraryKind::User => cat2("zotero://select/library/items/", item_key),
        LibraryKind::Group => cat4("zotero://select/groups/", library_id, "/items/", item_key),
    }
}

/// A normalized, indexed top-level item. Mirrors the `items` table.
#[derive(Debug, Clone)]
pub struct IndexedItem {
    pub id: i64,
    pub library_id: i64,
    pub item_key: String,
    pub item_version: u64,
    pub item_type: String,
    pub title: String,
    pub creators: String,
    pub primary_creator: String,
    pub year: String,
    pub container_title: String,
    pub tags: String,
    pub abstract_note: String,
    pub extra: String,
    pub date_modified: Option<String>,
    pub select_uri: String,
    pub mirror_filename: Option<String>,
    pub content_hash: String,
    pub raw_json: Option<String>,
}

impl Default for IndexedItem {
    fn default() -> (res: Self)
        ensures
            res.id == 0 && res.library_id == 0 && res.item_version == 0,
            res.item_key@.len() == 0 && res.item_type@.len() == 0 && res.title@.len() == 0,
            res.creators@.len() == 0 && res.primary_creator@.len() == 0 && res.year@.len() == 0,
            res.container_title@.len() == 0 && res.tags@.len() == 0,
            res.abstract_note@.len() == 0 && res.extra@.len() == 0,
            res.select_uri@.len() == 0 && res.content_hash@.len() == 0,
            res.date_modified is None && res.mirror_filename is None && res.raw_json is None,
    {
        IndexedItem {
            id: 0,
            library_id: 0,
            item_key: String::new(),
            item_version: 0,
            item_type: String::new(),
            title: String::new(),
            creators: String::new(),
            primary_creator: String::new(),
            year: String::new(),
            container_title: String::new(),
            tags: String::new(),
            abstract_note: String::new(),
            extra: String::new(),
            date_modified: None,
            select_uri: String::new(),
            mirror_filename: None,
            content_hash: String::new(),
            raw_json: None,
        }
    }
}

impl IndexedItem {
    /// A field-by-field copy.
    pub fn copy(&self) -> (res: Self)
        ensures
            res == *self,
    {
        IndexedItem {
            id: self.id,
            library_id: self.library_id,
            item_key: self.item_key.clone(),
            item_version: self.item_version,
            item_type: self.item_type.clone(),
            title: self.title.clone(),
            creators: self.creators.clone(),
            primary_creator: self.primary_creator.clone(),
            year: self.year.clone(),
            container_title: self.container_title.clone(),
            tags: self.tags.clone(),
            abstract_note: self.abstract_note.clone(),
            extra: self.extra.clone(),
            date_modified: crate::text::copy_opt_string(&self.date_modified),
            select_uri: self.select_uri.clone(),
            mirror_filename: crate::text::copy_opt_string(&self.mirror_filename),
            content_hash: self.content_hash.clone(),
            raw_json: crate::text::copy_opt_string(&self.raw_json),
        }
    }
}

/// State of a single library in the local index.
#[derive(Debug, Clone, Default)]
pub struct LibraryState {
    pub library_id: i64,
    pub last_version: u64,
    pub enabled: bool,
    pub last_sync_at: Option<String>,
    pub last_error: Option<String>,
}

/// A new mirror job to be persisted together with a sync batch.
#[derive(Debug, Clone)]
pub struct NewMirrorJob {
    pub operation: MirrorOperation,
    pub platform: Platform,
    pub old_path: Option<String>,
    pub new_path: Option<String>,
    pub content: Option<String>,
}

/// One batch of changes produced by a sync pass and committed in a single
/// database transaction.
#[derive(Debug, Clone)]
pub struct SyncBatch {
    /// Upserted (new or changed) items.
    pub upserts: Vec<IndexedItem>,
    /// Item keys removed from the index (deleted or trashed).
    pub deleted_keys: Vec<String>,
    /// Filesystem operations to execute asynchronously (outbox pattern).
    pub mirror_jobs: Vec<NewMirrorJob>,
    /// New `Last-Modified-Version` for the library.
    pub new_version: u64,
}

/// A platform whose shortcut files the mirror maintains.
#[derive(Debug, Clone, Copy, PartialEq, Eq, Structural)]
pub enum Platform {
    Windows,
    Macos,
}

impl Platform {
    pub open spec fn name(self) -> Seq<char> {
        match self {
            Platform::Windows => "windows"@,
            Platform::Macos => "macos"@,
        }
    }

    pub fn as_str(&self) -> (res: &'static str)
        ensures
            res@ == self.name(),
    {
        match self {
            Platform::Windows => "windows",
            Platform::Macos => "macos",
        }
    }
}

/// A filesystem operation on a shortcut file.
#[derive(Debug, Clone, Copy, PartialEq, Eq, Structural)]
pub enum MirrorOperation {
    Create,
    Replace,
    Rename,
    Delete,
}

impl MirrorOperation {
    pub open spec fn name(self) -> Seq<char> {
        match self {
            MirrorOperation::Create => "create"@,
            MirrorOperation::Replace => "replace"@,
            MirrorOperation::Rename => "rename"@,
            MirrorOperation::Delete => "delete"@,
        }
    }

    pub open spec fn parse_spec(s: Seq<char>) -> Option<MirrorOperation> {
        if s == "create"@ {
            Some(MirrorOperation::Create)
        } else if s == "replace"@ {
            Some(MirrorOperation::Replace)
        } else if s == "rename"@ {
            Some(MirrorOperation::Rename)
        } else if s == "delete"@ {
            Some(MirrorOperation::Delete)
        } else {
            None
        }
    }

    pub fn as_str(&self) -> (res: &'static str)
        ensures
            res@ == self.name(),
    {
        match self {
            MirrorOperation::Create => "create",
            MirrorOperation::Replace => "replace",
            MirrorOperation::Rename => "rename",
            MirrorOperation::Delete => "delete",
        }
    }

    /// Inverse of `as_str`; any other text is rejected.
    pub fn parse(s: &str) -> (res: Option<Self>)
        ensures
            res == Self::parse_spec(s@),
    {
        if str_eq(s, "create") {
            Some(MirrorOperation::Create)
        } else if str_eq(s, "replace") {
            Some(MirrorOperation::Replace)
        } else if str_eq(s, "rename") {
            Some(MirrorOperation::Rename)
        } else if str_eq(s, "delete") {
            Some(MirrorOperation::Delete)
        } else {
            None
        }
    }
}

/// Parsing the name of a mirror operation gives the operation back.
pub proof fn law_mirror_operation_roundtrip(op: MirrorOperation)
    ensures
        MirrorOperation::parse_spec(op.name()) == Some(op),
{
    reveal_strlit("create");
    reveal_strlit("replace");
    reveal_strlit("rename");
    reveal_strlit("delete");
    assert("create"@[0] != "rename"@[0]);
    assert("create"@[0] != "delete"@[0]);
    assert("replace"@[2] != "rename"@[2]);
    assert("replace"@.len() != "delete"@.len());
    assert("rename"@[0] != "delete"@[0]);
    assert("create"@[0] != "replace"@[0]);
}

/// A pending filesystem operation (persistent outbox pattern).
#[derive(Debug, Clone)]
pub struct MirrorJob {
    pub id: i64,
    pub operation: MirrorOperation,
    pub platform: Platform,
    pub old_path: Option<String>,
    pub new_path: Option<String>,
    pub content: Option<String>,
    pub status: String,
    pub retry_count: u32,
    pub last_error: Option<String>,
}

/// Field qualifiers of a search term.
#[derive(Debug, Clone, Copy, PartialEq, Eq, Structural)]
pub enum FieldScope {
    Author,
    Year,
    Tag,
    Type,
    Library,
}

/// One parsed search term.
#[derive(Debug, Clone, PartialEq, Eq)]
pub enum Term {
    /// Plain free-text term (searched across all FTS columns).
    Text(String),
    /// Quoted phrase.
    Phrase(String),
    /// Field-scoped term, e.g. author:Smith.
    Field(FieldScope, String),
}

/// A fully parsed search request.
#[derive(Debug, Clone)]
pub struct SearchQuery {
    pub terms: Vec<Term>,
    pub limit: u32,
}

/// A library selector given on the command line: `user` names the local
/// user library (id "0"), `group:<id>` a group library.
pub open spec fn library_selector(input: Seq<char>) -> Option<(Seq<char>, Seq<char>)> {
    if input == "user"@ {
        Some(("user"@, "0"@))
    } else if starts_with(input, "group:"@) {
        Some(("group"@, input.skip(6)))
    } else {
        None
    }
}

/// The message for a selector that names no library.
pub open spec fn bad_selector_message(input: Seq<char>) -> Seq<char> {
    "无效的库参数："@ + input + "（应为 user 或 group:<id>）"@
}

/// Parse a `user` / `group:<id>` selector into the kind's name and the
/// library id; anything else is a configuration error.
pub fn parse_library(input: &str) -> (res: Result<(&'static str, String), Error>)
    ensures
        match library_selector(input@) {
            Some((kind, id)) => res matches Ok((k, i)) && k@ == kind && i@ == id,
            None => res matches Err(Error::Config(m)) && m@ == bad_selector_message(input@),
        },
{
    proof {
        reveal_strlit("user");
        reveal_strlit("group:");
        reveal_strlit("0");
        reveal_strlit("group");
    }
    if str_eq(input, "user") {
        return Ok(("user", string_of(&chars_of("0"))));
    }
    let v = chars_of(input);
    if starts_with_chars(&v, &chars_of("group:")) {
        let id = slice_chars(&v, 6, v.len());
        proof {
            assert(id@ =~= input@.skip(6));
        }
        return Ok(("group", string_of(&id)));
    }
    Err(Error::Config(cat3("无效的库参数：", input, "（应为 user 或 group:<id>）")))
}

/// The `uid` of a search hit in launcher output: `library:<key>` for the
/// user library, `groups/<id>:<key>` for a group.
pub open spec fn result_uid(kind: LibraryKind, library_id: Seq<char>, item_key: Seq<char>) -> Seq<
    char,
> {
    match kind {
        LibraryKind::User => "library:"@ + item_key,
        LibraryKind::Group => "groups/"@ + library_id + ":"@ + item_key,
    }
}

/// Build the `uid` of a search hit.
pub fn search_result_uid(kind: LibraryKind, library_id: &str, item_key: &str) -> (res: String)
    ensures
        res@ == result_uid(kind, library_id@, item_key@),
{
    match kind {
        LibraryKind::User => cat2("library:", item_key),
        LibraryKind::Group => cat4("groups/", library_id, ":", item_key),
    }
}

/// `part` added to a ` · `-separated line; empty parts are left out.
pub open spec fn append_part(line: Seq<char>, part: Seq<char>) -> Seq<char> {
    if part.len() == 0 {
        line
    } else if line.len() == 0 {
        part
    } else {
        line + " · "@ + part
    }
}

/// The second line of a search hit: creators, year and container title,
/// the non-empty ones joined by ` · `.
pub open spec fn subtitle(creators: Seq<char>, year: Seq<char>, container: Seq<char>) -> Seq<
    char,
> {
    append_part(append_part(append_part(Seq::empty(), creators), year), container)
}

fn append_part_exec(line: String, part: &str) -> (res: String)
    ensures
        res@ == append_part(line@, part@),
{
    if part.is_empty() {
        line
    } else if line.as_str().is_empty() {
        string_of(&chars_of(part))
    } else {
        cat3(line.as_str(), " · ", part)
    }
}

/// Build the subtitle of a search hit.
pub fn result_subtitle(creators: &str, year: &str, container: &str) -> (res: String)
    ensures
        res@ == subtitle(creators@, year@, container@),
{
    let empty: Vec<char> = Vec::new();
    let line = string_of(&empty);
    proof {
        assert(line@ =~= Seq::<char>::empty());
    }
    let line = append_part_exec(line, creators);
    let line = append_part_exec(line, year);
    append_part_exec(line, container)
}

} // verus!
