//! Zotero Bridge: the verified core of a local Zotero search index and
//! shortcut-file mirror.

pub mod config;
pub mod dto;
pub mod engine;
pub mod errors;
pub mod filename;
pub mod json;
pub mod launcher;
pub mod mirror;
pub mod models;
pub mod normalizer;
pub mod numbers;
pub mod paths;
pub mod prefs_backup;
pub mod search;
pub mod state;
pub mod text;
pub mod worker;
pub mod zotero_prefs;
pub mod ztemplate;
