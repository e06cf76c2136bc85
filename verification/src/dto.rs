//! The Zotero Local API's item, deletion and group records, as the library
//! reads them.

use vstd::prelude::*;

verus! {

/// One creator of an item.
#[derive(Debug, Clone, Default)]
pub struct Creator {
    pub creator_type: String,
    pub first_name: String,
    pub last_name: String,
    /// Single-field name used by institutional authors.
    pub name: String,
}

/// One tag of an item.
#[derive(Debug, Clone, Default)]
pub struct TagEntry {
    pub tag: String,
}

/// The item's `deleted` field as far as the trash test reads it: a
/// boolean, a number that fits in `i64`, or anything else (absent, a
/// string, another number).
#[derive(Debug, Clone, Copy, PartialEq, Eq, Structural, Default)]
pub enum DeletedValue {
    Bool(bool),
    Int(i64),
    #[default]
    Other,
}

/// The `data` payload of an item: the fields that the index reads.
#[derive(Debug, Clone, Default)]
pub struct ItemData {
    pub item_type: String,
    pub title: String,
    pub creators: Vec<Creator>,
    pub date: String,
    pub publication_title: String,
    pub book_title: String,
    pub proceedings_title: String,
    pub encyclopedia_title: String,
    pub dictionary_title: String,
    pub university: String,
    pub institution: String,
    pub publisher: String,
    pub abstract_note: String,
    pub extra: String,
    pub date_modified: String,
    pub tags: Vec<TagEntry>,
    /// Present (and truthy) when the item is in the trash.
    pub deleted: DeletedValue,
}

pub open spec fn trashed(d: DeletedValue) -> bool {
    match d {
        DeletedValue::Bool(b) => b,
        DeletedValue::Int(v) => v != 0,
        DeletedValue::Other => false,
    }
}

impl ItemData {
    /// Whether the item is in the trash (`deleted: 1` or `deleted: true`).
    pub fn is_trashed(&self) -> (res: bool)
        ensures
            res == trashed(self.deleted),
    {
        match self.deleted {
            DeletedValue::Bool(b) => b,
            DeletedValue::Int(v) => v != 0,
            DeletedValue::Other => false,
        }
    }
}

/// A top-level item object from `/items` or `/items/top`.
#[derive(Debug, Clone, Default)]
pub struct ZoteroItem {
    pub key: String,
    pub version: u64,
    pub data: ItemData,
}

/// Response of `GET <prefix>/deleted?since=<version>`.
#[derive(Debug, Clone, Default)]
pub struct DeletedResponse {
    pub collections: Vec<String>,
    pub searches: Vec<String>,
    pub items: Vec<String>,
    pub tags: Vec<String>,
}

/// One group from `GET /api/users/0/groups`.
#[derive(Debug, Clone, Default)]
pub struct ZoteroGroup {
    pub id: u64,
    pub data: GroupData,
}

#[derive(Debug, Clone, Default)]
pub struct GroupData {
    pub name: String,
}

/// Changed item versions (item key and version, keys in ascending order)
/// plus the library version that produced them.
#[derive(Debug, Clone, Default)]
pub struct VersionResponse {
    pub versions: Vec<(String, u64)>,
    pub last_modified_version: u64,
}

/// Deleted object keys plus the library version that produced them.
#[derive(Debug, Clone, Default)]
pub struct DeletedObjects {
    pub deleted: DeletedResponse,
    pub last_modified_version: u64,
}

} // verus!
